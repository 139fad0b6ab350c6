//! Scripts as text: lines of five tokens, and back.

use crate::err::{Error, ErrorKind};
use crate::inc::{inc_views, line_of, Inc, IncView};
use crate::text::{chars_of, lemma_texts_push, text_of, texts};
use vstd::prelude::*;

verus! {

/// The pieces of `s` between the occurrences of `sep`: one more piece than
/// there are occurrences.
pub open spec fn split(s: Seq<char>, sep: char) -> Seq<Seq<char>>
    decreases s.len(),
{
    if s.len() == 0 {
        seq![Seq::empty()]
    } else if s.last() == sep {
        split(s.drop_last(), sep).push(Seq::empty())
    } else {
        split(s.drop_last(), sep).drop_last().push(split(s.drop_last(), sep).last().push(s.last()))
    }
}

/// The pieces of `parts` in a row, `sep` between each two.
pub open spec fn join(parts: Seq<Seq<char>>, sep: char) -> Seq<char>
    decreases parts.len(),
{
    if parts.len() == 0 {
        Seq::empty()
    } else if parts.len() == 1 {
        parts[0]
    } else {
        join(parts.drop_last(), sep) + seq![sep] + parts.last()
    }
}

/// The instruction that a line holds: the line is five tokens, none of
/// them empty, with one space between each two.
pub open spec fn parse_line(line: Seq<char>) -> Option<IncView> {
    let word_v = split(line, ' ');
    if word_v.len() == 5 && forall|i: int| 0 <= i < 5 ==> (#[trigger] word_v[i]).len() > 0 {
        Some(
            IncView {
                output: word_v[0],
                operator: word_v[1],
                function: word_v[2],
                input: word_v[3],
                input1: word_v[4],
            },
        )
    } else {
        None
    }
}

/// The instructions that a list of lines holds. Empty lines are passed
/// over; a line that holds no instruction spoils the whole.
pub open spec fn parse_lines(lines: Seq<Seq<char>>) -> Option<Seq<IncView>>
    decreases lines.len(),
{
    if lines.len() == 0 {
        Some(Seq::empty())
    } else {
        match parse_lines(lines.drop_last()) {
            None => None,
            Some(inc_v) => if lines.last().len() == 0 {
                Some(inc_v)
            } else {
                match parse_line(lines.last()) {
                    None => None,
                    Some(inc) => Some(inc_v.push(inc)),
                }
            },
        }
    }
}

/// The instructions that a script holds, a line each.
pub open spec fn parse(script: Seq<char>) -> Option<Seq<IncView>> {
    parse_lines(split(script, '\n'))
}

/// The lines of a list of instructions.
pub open spec fn lines_of(inc_v: Seq<IncView>) -> Seq<Seq<char>> {
    Seq::new(inc_v.len(), |i: int| line_of(inc_v[i]))
}

/// A list of instructions as a script: a line each, a line feed between
/// each two.
pub open spec fn unparse(inc_v: Seq<IncView>) -> Seq<char> {
    join(lines_of(inc_v), '\n')
}

/// The lines of a list that are not empty.
pub open spec fn filled(lines: Seq<Seq<char>>) -> Seq<Seq<char>>
    decreases lines.len(),
{
    if lines.len() == 0 {
        Seq::empty()
    } else if lines.last().len() > 0 {
        filled(lines.drop_last()).push(lines.last())
    } else {
        filled(lines.drop_last())
    }
}

/// A script without its empty lines.
pub open spec fn normalized(script: Seq<char>) -> Seq<char> {
    join(filled(split(script, '\n')), '\n')
}

fn split_text(chars: &Vec<char>, sep: char) -> (r: Vec<String>)
    ensures
        texts(r@) == split(chars@, sep),
{
    let mut out: Vec<String> = Vec::new();
    let mut start: usize = 0;
    let mut i: usize = 0;
    proof {
        assert(chars@.take(0) =~= Seq::<char>::empty());
        assert(chars@.subrange(0, 0) =~= Seq::<char>::empty());
        assert(texts(out@).push(Seq::<char>::empty()) =~= seq![Seq::<char>::empty()]);
    }
    while i < chars.len()
        invariant
            start <= i <= chars.len(),
            split(chars@.take(i as int), sep) == texts(out@).push(
                chars@.subrange(start as int, i as int),
            ),
        decreases chars.len() - i,
    {
        let ghost before = split(chars@.take(i as int), sep);
        proof {
            assert(chars@.take(i + 1).drop_last() =~= chars@.take(i as int));
            assert(before.drop_last() =~= texts(out@));
        }
        if chars[i] == sep {
            let piece = text_of(chars, start, i);
            proof {
                lemma_texts_push(out@, piece);
                assert(chars@.subrange(i + 1, i + 1) =~= Seq::<char>::empty());
            }
            out.push(piece);
            start = i + 1;
        } else {
            proof {
                assert(chars@.subrange(start as int, i as int).push(chars@[i as int])
                    =~= chars@.subrange(start as int, i + 1));
            }
        }
        i += 1;
    }
    let piece = text_of(chars, start, i);
    proof {
        lemma_texts_push(out@, piece);
        assert(chars@.take(chars.len() as int) =~= chars@);
    }
    out.push(piece);
    out
}

fn invalid_script() -> (e: Error)
    ensures
        e.spec_kind() == ErrorKind::InvalidScript,
{
    Error::new(ErrorKind::InvalidScript, String::from_str("while parsing script"))
}

fn parse_one(line: &str) -> (r: Option<Inc>)
    ensures
        r is Some <==> parse_line(line@) is Some,
        r is Some ==> r.unwrap()@ == parse_line(line@).unwrap(),
{
    let chars = chars_of(line);
    let word_v = split_text(&chars, ' ');
    if word_v.len() != 5 {
        return None;
    }
    let mut i: usize = 0;
    while i < 5
        invariant
            i <= 5,
            word_v.len() == 5,
            texts(word_v@) == split(line@, ' '),
            forall|k: int| 0 <= k < i ==> (#[trigger] texts(word_v@)[k]).len() > 0,
        decreases 5 - i,
    {
        if word_v[i].as_str().is_empty() {
            assert(split(line@, ' ')[i as int].len() == 0);
            return None;
        }
        i += 1;
    }
    Some(
        Inc {
            output: word_v[0].clone(),
            operator: word_v[1].clone(),
            function: word_v[2].clone(),
            input: word_v[3].clone(),
            input1: word_v[4].clone(),
        },
    )
}

/// Reads a script: an instruction for each line that is not empty. A line
/// that is not five tokens with one space between each two is refused, and the
/// script with it.
pub fn parse_script(script: &str) -> (r: Result<Vec<Inc>, Error>)
    ensures
        r is Ok <==> parse(script@) is Some,
        r is Ok ==> inc_views(r.unwrap()@) == parse(script@).unwrap(),
        r is Err ==> r.unwrap_err().spec_kind() == ErrorKind::InvalidScript,
{
    let chars = chars_of(script);
    let line_v = split_text(&chars, '\n');
    let ghost lines = texts(line_v@);
    let mut inc_v: Vec<Inc> = Vec::new();
    let mut i: usize = 0;
    proof {
        assert(inc_views(inc_v@) =~= Seq::<IncView>::empty());
        assert(lines.take(0) =~= Seq::<Seq<char>>::empty());
    }
    while i < line_v.len()
        invariant
            i <= line_v.len(),
            lines == texts(line_v@),
            lines == split(script@, '\n'),
            parse_lines(lines.take(i as int)) == Some(inc_views(inc_v@)),
        decreases line_v.len() - i,
    {
        proof {
            assert(lines.take(i + 1).drop_last() =~= lines.take(i as int));
            assert(lines.take(i + 1).last() == line_v@[i as int]@);
        }
        if !line_v[i].as_str().is_empty() {
            match parse_one(line_v[i].as_str()) {
                Some(inc) => {
                    proof {
                        assert(inc_views(inc_v@.push(inc)) =~= inc_views(inc_v@).push(inc@));
                    }
                    inc_v.push(inc);
                },
                None => {
                    proof {
                        assert(parse_line(lines.take(i + 1).last()) is None);
                        assert(parse_lines(lines.take(i + 1)) is None);
                        lemma_parse_lines_spoiled(lines, i + 1);
                        assert(lines.take(line_v.len() as int) =~= lines);
                    }
                    return Err(invalid_script());
                },
            }
        }
        i += 1;
    }
    proof {
        assert(lines.take(line_v.len() as int) =~= lines);
    }
    Ok(inc_v)
}

proof fn lemma_parse_lines_spoiled(lines: Seq<Seq<char>>, k: int)
    requires
        0 <= k <= lines.len(),
        parse_lines(lines.take(k)) is None,
    ensures
        parse_lines(lines) is None,
    decreases lines.len() - k,
{
    if k < lines.len() {
        assert(lines.take(k + 1).drop_last() =~= lines.take(k));
        lemma_parse_lines_spoiled(lines, k + 1);
    } else {
        assert(lines.take(k) =~= lines);
    }
}

/// Writes a list of instructions as a script.
pub fn unparse_script(inc_v: &Vec<Inc>) -> (r: String)
    ensures
        r@ == unparse(inc_views(inc_v@)),
{
    let ghost lines = lines_of(inc_views(inc_v@));
    let mut out = String::new();
    let mut i: usize = 0;
    proof {
        assert(lines.take(0) =~= Seq::<Seq<char>>::empty());
    }
    while i < inc_v.len()
        invariant
            i <= inc_v.len(),
            lines == lines_of(inc_views(inc_v@)),
            out@ == join(lines.take(i as int), '\n'),
        decreases inc_v.len() - i,
    {
        proof {
            assert(lines.take(i + 1).drop_last() =~= lines.take(i as int));
            assert(lines.take(i + 1).last() == line_of(inc_v@[i as int]@));
            if i == 0 {
                assert(Seq::<char>::empty() + line_of(inc_v@[0]@) =~= line_of(inc_v@[0]@));
            }
        }
        if i > 0 {
            out.push('\n');
        }
        out.append(inc_v[i].to_string().as_str());
        proof {
            if i > 0 {
                assert(out@ =~= join(lines.take(i as int), '\n') + seq!['\n'] + line_of(
                    inc_v@[i as int]@,
                ));
            }
        }
        i += 1;
    }
    proof {
        assert(lines.take(inc_v.len() as int) =~= lines);
    }
    out
}

proof fn lemma_split_len(s: Seq<char>, sep: char)
    ensures
        split(s, sep).len() >= 1,
    decreases s.len(),
{
    if s.len() > 0 {
        lemma_split_len(s.drop_last(), sep);
    }
}

/// Joining the pieces of a string gives the string back.
pub proof fn lemma_join_split(s: Seq<char>, sep: char)
    ensures
        join(split(s, sep), sep) == s,
    decreases s.len(),
{
    if s.len() == 0 {
        assert(join(split(s, sep), sep) =~= s);
    } else {
        let init = s.drop_last();
        let parts = split(init, sep);
        lemma_split_len(init, sep);
        lemma_join_split(init, sep);
        assert(init.push(s.last()) =~= s);
        if s.last() == sep {
            assert(parts.push(Seq::empty()).drop_last() =~= parts);
            assert(join(parts, sep) + seq![sep] + Seq::<char>::empty() =~= init.push(sep));
        } else {
            let grown = parts.last().push(s.last());
            let after = parts.drop_last().push(grown);
            if parts.len() == 1 {
                assert(join(after, sep) =~= init.push(s.last()));
            } else {
                assert(after.drop_last() =~= parts.drop_last());
                assert(join(parts.drop_last(), sep) + seq![sep] + grown =~= (join(
                    parts.drop_last(),
                    sep,
                ) + seq![sep] + parts.last()).push(s.last()));
            }
        }
    }
}

/// The line of the instruction that a line holds is that line.
pub proof fn lemma_line_round_trip(line: Seq<char>)
    requires
        parse_line(line) is Some,
    ensures
        line_of(parse_line(line).unwrap()) == line,
{
    let w = split(line, ' ');
    lemma_join_split(line, ' ');
    let w4 = w.drop_last();
    let w3 = w4.drop_last();
    let w2 = w3.drop_last();
    let w1 = w2.drop_last();
    assert(join(w1, ' ') == w[0]);
    assert(join(w2, ' ') == w[0] + seq![' '] + w[1]);
    assert(join(w3, ' ') == join(w2, ' ') + seq![' '] + w[2]);
    assert(join(w4, ' ') == join(w3, ' ') + seq![' '] + w[3]);
    assert(join(w, ' ') == join(w4, ' ') + seq![' '] + w[4]);
}

proof fn lemma_lines_round_trip(lines: Seq<Seq<char>>)
    requires
        parse_lines(lines) is Some,
    ensures
        lines_of(parse_lines(lines).unwrap()) == filled(lines),
    decreases lines.len(),
{
    if lines.len() == 0 {
        assert(lines_of(Seq::<IncView>::empty()) =~= Seq::<Seq<char>>::empty());
    } else {
        lemma_lines_round_trip(lines.drop_last());
        let inc_v = parse_lines(lines.drop_last()).unwrap();
        if lines.last().len() > 0 {
            lemma_line_round_trip(lines.last());
            let inc = parse_line(lines.last()).unwrap();
            assert(lines_of(inc_v.push(inc)) =~= lines_of(inc_v).push(line_of(inc)));
        }
    }
}

/// Reading a script and writing the instructions again gives the script
/// back, but for its empty lines, which are gone.
pub proof fn lemma_parse_unparse(script: Seq<char>)
    requires
        parse(script) is Some,
    ensures
        unparse(parse(script).unwrap()) == normalized(script),
{
    lemma_lines_round_trip(split(script, '\n'));
}

/// Whether `s` holds the character `sep` nowhere.
pub open spec fn free_of(s: Seq<char>, sep: char) -> bool {
    forall|i: int| 0 <= i < s.len() ==> #[trigger] s[i] != sep
}

/// Whether `s` is a token: it is not empty and holds neither a space nor a
/// line feed.
pub open spec fn token(s: Seq<char>) -> bool {
    s.len() > 0 && free_of(s, ' ') && free_of(s, '\n')
}

/// Whether the five parts of an instruction are tokens.
pub open spec fn well_formed(inc: IncView) -> bool {
    token(inc.output) && token(inc.operator) && token(inc.function) && token(inc.input) && token(
        inc.input1,
    )
}

proof fn lemma_split_whole(s: Seq<char>, sep: char)
    requires
        free_of(s, sep),
    ensures
        split(s, sep) == seq![s],
    decreases s.len(),
{
    if s.len() == 0 {
        assert(s =~= Seq::<char>::empty());
    } else {
        assert forall|i: int| 0 <= i < s.drop_last().len() implies #[trigger] s.drop_last()[i]
            != sep by {
            assert(s.drop_last()[i] == s[i]);
        }
        lemma_split_whole(s.drop_last(), sep);
        assert(s[s.len() - 1] != sep);
        assert(s.drop_last().push(s.last()) =~= s);
        assert(seq![s.drop_last()].last() == s.drop_last());
        assert(seq![s.drop_last()].drop_last().push(s) =~= seq![s]);
    }
}

proof fn lemma_split_concat(a: Seq<char>, b: Seq<char>, sep: char)
    ensures
        split(a + seq![sep] + b, sep) == split(a, sep) + split(b, sep),
    decreases b.len(),
{
    let x = a + seq![sep];
    lemma_split_len(b, sep);
    if b.len() == 0 {
        assert(x + b =~= x);
        assert(x.drop_last() =~= a);
        assert(split(a, sep).push(Seq::empty()) =~= split(a, sep) + split(b, sep));
    } else {
        let init = b.drop_last();
        lemma_split_concat(a, init, sep);
        lemma_split_len(init, sep);
        assert((x + b).drop_last() =~= x + init);
        assert((x + b).last() == b.last());
        let left = split(a, sep);
        let right = split(init, sep);
        if b.last() == sep {
            assert((left + right).push(Seq::empty()) =~= left + right.push(Seq::empty()));
        } else {
            assert((left + right).last() == right.last());
            assert((left + right).drop_last().push(right.last().push(b.last())) =~= left
                + right.drop_last().push(right.last().push(b.last())));
        }
    }
}

/// Splitting what was joined gives the pieces back, where there is a piece
/// and no piece holds the separator.
pub proof fn lemma_split_join(parts: Seq<Seq<char>>, sep: char)
    requires
        parts.len() > 0,
        forall|i: int| 0 <= i < parts.len() ==> free_of(#[trigger] parts[i], sep),
    ensures
        split(join(parts, sep), sep) == parts,
    decreases parts.len(),
{
    if parts.len() == 1 {
        lemma_split_whole(parts[0], sep);
        assert(seq![parts[0]] =~= parts);
    } else {
        let init = parts.drop_last();
        assert forall|i: int| 0 <= i < init.len() implies free_of(#[trigger] init[i], sep) by {
            assert(init[i] == parts[i]);
        }
        lemma_split_join(init, sep);
        lemma_split_concat(join(init, sep), parts.last(), sep);
        assert(parts.last() == parts[parts.len() - 1]);
        lemma_split_whole(parts.last(), sep);
        assert(init + seq![parts.last()] =~= parts);
    }
}

/// The line of an instruction whose parts are tokens holds that
/// instruction, and is a line: not empty, without a line feed.
pub proof fn lemma_line_parses(inc: IncView)
    requires
        well_formed(inc),
    ensures
        parse_line(line_of(inc)) == Some(inc),
        line_of(inc).len() > 0,
        free_of(line_of(inc), '\n'),
{
    let w = seq![inc.output, inc.operator, inc.function, inc.input, inc.input1];
    let w4 = w.drop_last();
    let w3 = w4.drop_last();
    let w2 = w3.drop_last();
    let w1 = w2.drop_last();
    assert(join(w1, ' ') == w[0]);
    assert(join(w2, ' ') == w[0] + seq![' '] + w[1]);
    assert(join(w3, ' ') == join(w2, ' ') + seq![' '] + w[2]);
    assert(join(w4, ' ') == join(w3, ' ') + seq![' '] + w[3]);
    assert(join(w, ' ') == join(w4, ' ') + seq![' '] + w[4]);
    assert(join(w, ' ') == line_of(inc));
    lemma_split_join(w, ' ');
    let line = line_of(inc);
    assert forall|i: int| 0 <= i < line.len() implies #[trigger] line[i] != '\n' by {
        let a = inc.output.len();
        let b = a + 1 + inc.operator.len();
        let c = b + 1 + inc.function.len();
        let d = c + 1 + inc.input.len();
        if i < a {
            assert(line[i] == inc.output[i]);
        } else if i == a {
        } else if i < b {
            assert(line[i] == inc.operator[i - a - 1]);
        } else if i == b {
        } else if i < c {
            assert(line[i] == inc.function[i - b - 1]);
        } else if i == c {
        } else if i < d {
            assert(line[i] == inc.input[i - c - 1]);
        } else if i == d {
        } else {
            assert(line[i] == inc.input1[i - d - 1]);
        }
    }
}

proof fn lemma_lines_parse(inc_v: Seq<IncView>)
    requires
        forall|i: int| 0 <= i < inc_v.len() ==> well_formed(#[trigger] inc_v[i]),
    ensures
        parse_lines(lines_of(inc_v)) == Some(inc_v),
    decreases inc_v.len(),
{
    if inc_v.len() == 0 {
        assert(lines_of(inc_v) =~= Seq::<Seq<char>>::empty());
        assert(inc_v =~= Seq::<IncView>::empty());
    } else {
        let init = inc_v.drop_last();
        assert forall|i: int| 0 <= i < init.len() implies well_formed(#[trigger] init[i]) by {
            assert(init[i] == inc_v[i]);
        }
        lemma_lines_parse(init);
        assert(inc_v.last() == inc_v[inc_v.len() - 1]);
        lemma_line_parses(inc_v.last());
        assert(lines_of(inc_v).drop_last() =~= lines_of(init));
        assert(lines_of(inc_v).last() == line_of(inc_v.last()));
        assert(init.push(inc_v.last()) =~= inc_v);
    }
}

/// Writing instructions whose parts are tokens and reading the script
/// again gives the instructions back.
pub proof fn lemma_unparse_parse(inc_v: Seq<IncView>)
    requires
        forall|i: int| 0 <= i < inc_v.len() ==> well_formed(#[trigger] inc_v[i]),
    ensures
        parse(unparse(inc_v)) == Some(inc_v),
{
    if inc_v.len() == 0 {
        assert(lines_of(inc_v) =~= Seq::<Seq<char>>::empty());
        assert(unparse(inc_v) =~= Seq::<char>::empty());
        let lines = split(Seq::<char>::empty(), '\n');
        assert(lines == seq![Seq::<char>::empty()]);
        assert(lines.drop_last() =~= Seq::<Seq<char>>::empty());
        assert(parse_lines(lines.drop_last()) == Some(Seq::<IncView>::empty()));
        assert(inc_v =~= Seq::<IncView>::empty());
    } else {
        let lines = lines_of(inc_v);
        assert forall|i: int| 0 <= i < lines.len() implies free_of(#[trigger] lines[i], '\n') by {
            lemma_line_parses(inc_v[i]);
        }
        lemma_split_join(lines, '\n');
        lemma_lines_parse(inc_v);
    }
}

} // verus!
