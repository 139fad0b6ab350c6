use edge::path::{find_arrrow, is_temp, Path};

fn steps(path: &Path) -> Vec<(String, String)> {
    path.step_v.iter().map(|s| (s.arrow.clone(), s.code.clone())).collect()
}

fn pair(arrow: &str, code: &str) -> (String, String) {
    (arrow.to_string(), code.to_string())
}

#[test]
fn a_path_is_a_root_and_its_hops() {
    let p = Path::from_str("root->a<-b->c");
    assert_eq!(p.root, "root");
    assert_eq!(steps(&p), vec![pair("->", "a"), pair("<-", "b"), pair("->", "c")]);
    assert!(!p.is_empty());
    let p = Path::from_str("$->$input");
    assert_eq!(p.root, "$");
    assert_eq!(steps(&p), vec![pair("->", "$input")]);
}

#[test]
fn a_path_without_arrows_is_its_root() {
    let p = Path::from_str("root");
    assert_eq!(p.root, "root");
    assert!(p.step_v.is_empty());
    let p = Path::from_str("");
    assert_eq!(p.root, "");
    assert!(p.step_v.is_empty());
    assert!(p.is_empty());
    let p = Path::from_str("a-b<c>d");
    assert_eq!(p.root, "a-b<c>d");
    assert!(p.step_v.is_empty());
}

#[test]
fn a_quoted_path_is_taken_as_it_stands() {
    let p = Path::from_str("\"a->b\"");
    assert_eq!(p.root, "a->b");
    assert!(p.step_v.is_empty());
    let p = Path::from_str("\"\"");
    assert_eq!(p.root, "");
    assert!(p.step_v.is_empty());
    let p = Path::from_str("\"");
    assert_eq!(p.root, "");
    assert!(p.step_v.is_empty());
    let p = Path::from_str("\"abc");
    assert_eq!(p.root, "abc");
    assert!(p.step_v.is_empty());
    let p = Path::from_str("\"a->b");
    assert_eq!(p.root, "a->b");
    assert!(p.step_v.is_empty());
    let p = Path::from_str("\"a\"b");
    assert_eq!(p.root, "a\"b");
}

#[test]
fn arrows_at_the_edges_give_empty_names() {
    let p = Path::from_str("->a");
    assert_eq!(p.root, "");
    assert_eq!(steps(&p), vec![pair("->", "a")]);
    let p = Path::from_str("a->");
    assert_eq!(p.root, "a");
    assert_eq!(steps(&p), vec![pair("->", "")]);
    let p = Path::from_str("a->->b");
    assert_eq!(steps(&p), vec![pair("->", ""), pair("->", "b")]);
    let p = Path::from_str("a<->b");
    assert_eq!(p.root, "a");
    assert_eq!(steps(&p), vec![pair("<-", ">b")]);
    let p = Path::from_str("a-->b");
    assert_eq!(p.root, "a-");
    assert_eq!(steps(&p), vec![pair("->", "b")]);
}

#[test]
fn positions_count_characters() {
    assert_eq!(find_arrrow("root->a"), 4);
    assert_eq!(find_arrrow("root<-a->b"), 4);
    assert_eq!(find_arrrow("root"), 4);
    assert_eq!(find_arrrow(""), 0);
    assert_eq!(find_arrrow("->"), 0);
    assert_eq!(find_arrrow("é->a"), 2);
    assert_eq!(find_arrrow("é->a"), "é->a".find("->").unwrap());
    assert_eq!(find_arrrow("日本<-a->b"), 6);
    assert_eq!(find_arrrow("a-"), 2);
    assert_eq!(find_arrrow("a<"), 2);
    let p = Path::from_str("é->ü<-ß");
    assert_eq!(p.root, "é");
    assert_eq!(steps(&p), vec![pair("->", "ü"), pair("<-", "ß")]);
}

#[test]
fn an_edge_is_temporary_when_one_of_its_names_is() {
    assert!(is_temp("$a", "b", "c"));
    assert!(is_temp("a", "$b", "c"));
    assert!(is_temp("a", "b", "$c"));
    assert!(!is_temp("a", "b", "c"));
    assert!(!is_temp("a$", "b$", "c$"));
    assert!(!is_temp("", "", ""));
}
