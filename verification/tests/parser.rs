use edge::err::{Error, ErrorKind};
use edge::inc::Inc;
use edge::parser::{parse_script, unparse_script};

fn parts(inc: &Inc) -> [&str; 5] {
    [&inc.output, &inc.operator, &inc.function, &inc.input, &inc.input1]
}

#[test]
fn a_line_is_five_tokens() {
    let inc_v = parse_script("$->$output = + $->$left $->$right").unwrap();
    assert_eq!(inc_v.len(), 1);
    assert_eq!(parts(&inc_v[0]), ["$->$output", "=", "+", "$->$left", "$->$right"]);
    assert_eq!(inc_v[0].to_string(), "$->$output = + $->$left $->$right");
}

#[test]
fn empty_lines_are_passed_over() {
    let inc_v = parse_script("\n\na += b c d\n\ne = f g h\n").unwrap();
    assert_eq!(inc_v.len(), 2);
    assert_eq!(parts(&inc_v[0]), ["a", "+=", "b", "c", "d"]);
    assert_eq!(parts(&inc_v[1]), ["e", "=", "f", "g", "h"]);
    assert!(parse_script("").unwrap().is_empty());
    assert!(parse_script("\n\n\n").unwrap().is_empty());
}

#[test]
fn any_other_number_of_tokens_is_refused() {
    for script in [
        "a = b c",
        "a = b c d e",
        "a  = b c d",
        " a = b c d",
        "a = b c d ",
        "a = b c d\nx",
        "x\na = b c d",
        " ",
        "a = b c\td",
    ] {
        assert_eq!(parse_script(script).unwrap_err().kind(), ErrorKind::InvalidScript);
    }
    assert_eq!(parse_script("a = b c d\te").unwrap().len(), 1);
}

#[test]
fn a_script_is_written_a_line_for_each_instruction() {
    let inc = |s: &str| Inc {
        output: s.to_string(),
        operator: "=".to_string(),
        function: "f".to_string(),
        input: "x".to_string(),
        input1: "_".to_string(),
    };
    assert_eq!(unparse_script(&vec![]), "");
    assert_eq!(unparse_script(&vec![inc("a")]), "a = f x _");
    assert_eq!(unparse_script(&vec![inc("a"), inc("b"), inc("c")]), "a = f x _\nb = f x _\nc = f x _");
}

#[test]
fn reading_and_writing_gives_the_script_back_without_its_empty_lines() {
    let script = "$->$left = new 100 100\n$->$right = new 100 100\n$->$output = + $->$left $->$right";
    assert_eq!(unparse_script(&parse_script(script).unwrap()), script);
    let spaced = "\n\na += b c d\n\n\ne = f g h\n\n";
    assert_eq!(unparse_script(&parse_script(spaced).unwrap()), "a += b c d\ne = f g h");
    let written = unparse_script(&parse_script(spaced).unwrap());
    assert_eq!(unparse_script(&parse_script(&written).unwrap()), written);
}

#[test]
fn an_error_shows_its_family_and_its_message() {
    let e = Error::new(ErrorKind::BadConnection, "the store is away".to_string());
    assert_eq!(e.kind(), ErrorKind::BadConnection);
    assert_eq!(e.msg(), "the store is away");
    assert_eq!(e.to_string(), "BadConnection: the store is away");
    assert_eq!(Error::new(ErrorKind::Other, String::new()).to_string(), "Other: ");
    assert_eq!(Error::new(ErrorKind::InvalidScript, "x".to_string()).to_string(), "InvalidScript: x");
    assert_eq!(Error::new(ErrorKind::Resolution, "x".to_string()).to_string(), "Resolution: x");
    assert_eq!(Error::new(ErrorKind::InvalidArgs, "x".to_string()).to_string(), "InvalidArgs: x");
    assert_eq!(Error::new(ErrorKind::Unauthorized, "x".to_string()).to_string(), "Unauthorized: x");
}

#[test]
fn writing_and_reading_gives_the_instructions_back() {
    let inc = |o: &str, f: &str| Inc {
        output: o.to_string(),
        operator: "+=".to_string(),
        function: f.to_string(),
        input: "\"a\"".to_string(),
        input1: "_".to_string(),
    };
    for inc_v in [vec![], vec![inc("$->$output", "=")], vec![inc("a", "b"), inc("c->d", "?")]] {
        let read = parse_script(&unparse_script(&inc_v)).unwrap();
        assert_eq!(read.len(), inc_v.len());
        for (a, b) in read.iter().zip(&inc_v) {
            assert_eq!(parts(a), parts(b));
        }
    }
}
