//! The built-in functions of the language. Each takes two lists of strings
//! and gives one.

use crate::data::{fibre_of, newest, AsDataManager};
use crate::err::{Error, ErrorKind};
use crate::mem_table::EdgeView;
use crate::text::{
    chars_of, count_value, decimal, format_nat, in_order, is_count, lemma_ordered_total,
    lemma_ordered_trans, lemma_texts_push, ordered, parse_count, same_text, texts,
};
use crate::util::{lower_hex, new_point, point_shape};
use vstd::prelude::*;

verus! {

/// The elements of `items` that are not empty, in their order.
pub open spec fn non_empty(items: Seq<Seq<char>>) -> Seq<Seq<char>>
    decreases items.len(),
{
    if items.len() == 0 {
        Seq::empty()
    } else if items.last().len() > 0 {
        non_empty(items.drop_last()).push(items.last())
    } else {
        non_empty(items.drop_last())
    }
}

/// `items` without repetitions: of equal elements the first stays.
pub open spec fn distinct_of(items: Seq<Seq<char>>) -> Seq<Seq<char>>
    decreases items.len(),
{
    if items.len() == 0 {
        Seq::empty()
    } else if distinct_of(items.drop_last()).contains(items.last()) {
        distinct_of(items.drop_last())
    } else {
        distinct_of(items.drop_last()).push(items.last())
    }
}

/// The elements of `items` that occur in `other`, where `wanted` is set, or
/// that do not, where it is not; in their order, repetitions kept.
pub open spec fn sieve(items: Seq<Seq<char>>, other: Seq<Seq<char>>, wanted: bool) -> Seq<
    Seq<char>,
>
    decreases items.len(),
{
    if items.len() == 0 {
        Seq::empty()
    } else if other.contains(items.last()) == wanted {
        sieve(items.drop_last(), other, wanted).push(items.last())
    } else {
        sieve(items.drop_last(), other, wanted)
    }
}

/// `n` times `x`.
pub open spec fn copies(n: nat, x: Seq<char>) -> Seq<Seq<char>> {
    Seq::new(n, |i: int| x)
}

/// Whether `list` holds a string with the characters of `s`.
pub fn contains(list: &Vec<String>, s: &str) -> (r: bool)
    ensures
        r == texts(list@).contains(s@),
{
    let mut i: usize = 0;
    while i < list.len()
        invariant
            i <= list.len(),
            forall|j: int| 0 <= j < i ==> texts(list@)[j] != s@,
        decreases list.len() - i,
    {
        if same_text(list[i].as_str(), s) {
            assert(texts(list@)[i as int] == s@);
            return true;
        }
        i += 1;
    }
    false
}

/// `=`: `input` without its empty strings.
pub fn set(input_item_v: &Vec<String>) -> (r: Vec<String>)
    ensures
        texts(r@) == non_empty(texts(input_item_v@)),
{
    let ghost items = texts(input_item_v@);
    let mut out: Vec<String> = Vec::new();
    let mut i: usize = 0;
    proof {
        assert(texts(out@) =~= non_empty(items.take(0)));
    }
    while i < input_item_v.len()
        invariant
            i <= input_item_v.len(),
            items == texts(input_item_v@),
            texts(out@) == non_empty(items.take(i as int)),
        decreases input_item_v.len() - i,
    {
        proof {
            assert(items.take(i + 1).drop_last() =~= items.take(i as int));
        }
        if !input_item_v[i].as_str().is_empty() {
            let item = input_item_v[i].clone();
            proof {
                lemma_texts_push(out@, item);
            }
            out.push(item);
        }
        i += 1;
    }
    proof {
        assert(items.take(input_item_v.len() as int) =~= items);
    }
    out
}

/// `append`: `input`, then `input1`.
pub fn append(input_item_v: &Vec<String>, input1_item_v: &Vec<String>) -> (r: Vec<String>)
    ensures
        texts(r@) == texts(input_item_v@) + texts(input1_item_v@),
{
    let ghost a = texts(input_item_v@);
    let ghost b = texts(input1_item_v@);
    let mut out = crate::text::clone_texts(input_item_v);
    let mut i: usize = 0;
    proof {
        assert(a + b.take(0) =~= a);
    }
    while i < input1_item_v.len()
        invariant
            i <= input1_item_v.len(),
            a == texts(input_item_v@),
            b == texts(input1_item_v@),
            texts(out@) == a + b.take(i as int),
        decreases input1_item_v.len() - i,
    {
        let item = input1_item_v[i].clone();
        proof {
            lemma_texts_push(out@, item);
            assert((a + b.take(i as int)).push(b[i as int]) =~= a + b.take(i + 1));
        }
        out.push(item);
        i += 1;
    }
    proof {
        assert(b.take(input1_item_v.len() as int) =~= b);
    }
    out
}

/// `distinct`: `input` without repetitions, the first of equal elements
/// kept.
pub fn distinct(input_item_v: &Vec<String>) -> (r: Vec<String>)
    ensures
        texts(r@) == distinct_of(texts(input_item_v@)),
{
    let ghost items = texts(input_item_v@);
    let mut out: Vec<String> = Vec::new();
    let mut i: usize = 0;
    proof {
        assert(texts(out@) =~= distinct_of(items.take(0)));
    }
    while i < input_item_v.len()
        invariant
            i <= input_item_v.len(),
            items == texts(input_item_v@),
            texts(out@) == distinct_of(items.take(i as int)),
        decreases input_item_v.len() - i,
    {
        proof {
            assert(items.take(i + 1).drop_last() =~= items.take(i as int));
        }
        if !contains(&out, input_item_v[i].as_str()) {
            let item = input_item_v[i].clone();
            proof {
                lemma_texts_push(out@, item);
            }
            out.push(item);
        }
        i += 1;
    }
    proof {
        assert(items.take(input_item_v.len() as int) =~= items);
    }
    out
}

fn sift(input_item_v: &Vec<String>, input1_item_v: &Vec<String>, wanted: bool) -> (r: Vec<String>)
    ensures
        texts(r@) == sieve(texts(input_item_v@), texts(input1_item_v@), wanted),
{
    let ghost items = texts(input_item_v@);
    let ghost other = texts(input1_item_v@);
    let mut out: Vec<String> = Vec::new();
    let mut i: usize = 0;
    proof {
        assert(texts(out@) =~= sieve(items.take(0), other, wanted));
    }
    while i < input_item_v.len()
        invariant
            i <= input_item_v.len(),
            items == texts(input_item_v@),
            other == texts(input1_item_v@),
            texts(out@) == sieve(items.take(i as int), other, wanted),
        decreases input_item_v.len() - i,
    {
        proof {
            assert(items.take(i + 1).drop_last() =~= items.take(i as int));
        }
        if contains(input1_item_v, input_item_v[i].as_str()) == wanted {
            let item = input_item_v[i].clone();
            proof {
                lemma_texts_push(out@, item);
            }
            out.push(item);
        }
        i += 1;
    }
    proof {
        assert(items.take(input_item_v.len() as int) =~= items);
    }
    out
}

/// `left`: the elements of `input` that do not occur in `input1`.
pub fn left(input_item_v: &Vec<String>, input1_item_v: &Vec<String>) -> (r: Vec<String>)
    ensures
        texts(r@) == sieve(texts(input_item_v@), texts(input1_item_v@), false),
{
    sift(input_item_v, input1_item_v, false)
}

/// `inner`: the elements of `input` that occur in `input1`.
pub fn inner(input_item_v: &Vec<String>, input1_item_v: &Vec<String>) -> (r: Vec<String>)
    ensures
        texts(r@) == sieve(texts(input_item_v@), texts(input1_item_v@), true),
{
    sift(input_item_v, input1_item_v, true)
}

/// What `if` gives: `input` unless it is empty, else `input1`.
pub open spec fn either(input: Seq<Seq<char>>, input1: Seq<Seq<char>>) -> Seq<Seq<char>> {
    if input.len() > 0 {
        input
    } else {
        input1
    }
}

/// `if`: `input` unless it is empty, else `input1`.
pub fn choose_first(input_item_v: &Vec<String>, input1_item_v: &Vec<String>) -> (r: Vec<String>)
    ensures
        texts(r@) == either(texts(input_item_v@), texts(input1_item_v@)),
{
    if input_item_v.len() > 0 {
        crate::text::clone_texts(input_item_v)
    } else {
        crate::text::clone_texts(input1_item_v)
    }
}

/// `count`: the number of elements of `input`, in decimal, as the one
/// element of the result.
pub fn count(input_item_v: &Vec<String>) -> (r: Vec<String>)
    ensures
        texts(r@) == seq![decimal(input_item_v@.len())],
{
    let mut out: Vec<String> = Vec::new();
    out.push(format_nat(input_item_v.len() as u64));
    assert(texts(out@) =~= seq![decimal(input_item_v@.len())]);
    out
}

fn invalid_args(msg: &str) -> (e: Error)
    ensures
        e.spec_kind() == ErrorKind::InvalidArgs,
{
    Error::new(ErrorKind::InvalidArgs, msg.to_owned())
}

/// Whether `new` accepts its arguments: one element each, the first a
/// count.
pub open spec fn new_accepts(input: Seq<Seq<char>>, input1: Seq<Seq<char>>) -> bool {
    input.len() == 1 && input1.len() == 1 && is_count(input[0])
}

/// `new`: as many copies of the one element of `input1` as the one element
/// of `input` says.
pub fn new(input_item_v: &Vec<String>, input1_item_v: &Vec<String>) -> (r: Result<
    Vec<String>,
    Error,
>)
    ensures
        r is Ok <==> new_accepts(texts(input_item_v@), texts(input1_item_v@)),
        r is Ok ==> texts(r.unwrap()@) == copies(
            count_value(texts(input_item_v@)[0]),
            texts(input1_item_v@)[0],
        ),
        r is Err ==> r.unwrap_err().spec_kind() == ErrorKind::InvalidArgs,
{
    if input_item_v.len() != 1 || input1_item_v.len() != 1 {
        return Err(invalid_args("need 1 but not"));
    }
    let sz = match parse_count(input_item_v[0].as_str()) {
        Some(sz) => sz,
        None => {
            return Err(invalid_args("need a count"));
        },
    };
    let ghost x = input1_item_v@[0]@;
    let mut out: Vec<String> = Vec::new();
    let mut i: u64 = 0;
    proof {
        assert(texts(out@) =~= copies(0, x));
    }
    while i < sz
        invariant
            i <= sz,
            input1_item_v@.len() == 1,
            x == input1_item_v@[0]@,
            texts(out@) == copies(i as nat, x),
        decreases sz - i,
    {
        let item = input1_item_v[0].clone();
        proof {
            lemma_texts_push(out@, item);
            assert(copies(i as nat, x).push(x) =~= copies((i + 1) as nat, x));
        }
        out.push(item);
        i += 1;
    }
    Ok(out)
}

/// The width of the strings that `rand` makes where none is given.
pub const RAND_WIDTH: u64 = 32;

/// Whether `rand` accepts its arguments: one count in `input`, and in
/// `input1` one count or nothing.
pub open spec fn rand_accepts(input: Seq<Seq<char>>, input1: Seq<Seq<char>>) -> bool {
    &&& input.len() == 1
    &&& is_count(input[0])
    &&& (input1.len() == 0 || input1.len() == 1 && is_count(input1[0]))
}

/// The width of the strings that `rand` makes.
pub open spec fn rand_width(input1: Seq<Seq<char>>) -> nat {
    if input1.len() == 0 {
        RAND_WIDTH as nat
    } else {
        count_value(input1[0])
    }
}

/// Whether `s` is made of `width` hexadecimal digits in lower case.
pub open spec fn hex_text(s: Seq<char>, width: nat) -> bool {
    s.len() == width && forall|i: int| 0 <= i < s.len() ==> lower_hex(#[trigger] s[i])
}

/// The place in an identifier of the digit that tells its version: it is
/// the same in all of them.
const VERSION_PLACE: usize = 14;

/// The place in an identifier of the digit that tells its variant: it is
/// one of four.
const VARIANT_PLACE: usize = 19;

fn random_text(width: u64) -> (r: String)
    ensures
        hex_text(r@, width as nat),
{
    let mut out = String::new();
    let mut n: u64 = 0;
    while n < width
        invariant
            n <= width,
            hex_text(out@, n as nat),
        decreases width - n,
    {
        let ghost before = n;
        let point = chars_of(new_point().as_str());
        out.push(point[0]);
        n += 1;
        let mut j: usize = 1;
        while j < 36 && n < width
            invariant
                1 <= j <= 36,
                before < n <= width,
                point_shape(point@),
                hex_text(out@, n as nat),
            decreases 36 - j,
        {
            let c = point[j];
            if c != '-' && j != VERSION_PLACE && j != VARIANT_PLACE {
                out.push(c);
                n += 1;
            }
            j += 1;
        }
    }
    out
}

/// Whether `rs` can come of `rand` on `input` and `input1`: the strings are
/// random, their number, their width and their characters are not.
pub open spec fn rand_rel(input: Seq<Seq<char>>, input1: Seq<Seq<char>>, rs: Seq<Seq<char>>)
    -> bool {
    &&& rand_accepts(input, input1)
    &&& rs.len() == count_value(input[0])
    &&& forall|i: int| 0 <= i < rs.len() ==> hex_text(#[trigger] rs[i], rand_width(input1))
}

/// `rand`: as many random strings as the one element of `input` says, each
/// of the width that the one element of `input1` says, or of `RAND_WIDTH`
/// where `input1` is empty. The strings are made of hexadecimal digits.
pub fn rand(input_item_v: &Vec<String>, input1_item_v: &Vec<String>) -> (r: Result<
    Vec<String>,
    Error,
>)
    ensures
        r is Ok <==> rand_accepts(texts(input_item_v@), texts(input1_item_v@)),
        r is Ok ==> rand_rel(texts(input_item_v@), texts(input1_item_v@), texts(r.unwrap()@)),
        r is Err ==> r.unwrap_err().spec_kind() == ErrorKind::InvalidArgs,
{
    if input_item_v.len() != 1 || input1_item_v.len() > 1 {
        return Err(invalid_args("need 1 but not"));
    }
    let sz = match parse_count(input_item_v[0].as_str()) {
        Some(sz) => sz,
        None => {
            return Err(invalid_args("need a count"));
        },
    };
    let width = if input1_item_v.len() == 0 {
        RAND_WIDTH
    } else {
        match parse_count(input1_item_v[0].as_str()) {
            Some(width) => width,
            None => {
                return Err(invalid_args("need a width"));
            },
        }
    };
    let mut out: Vec<String> = Vec::new();
    let mut i: u64 = 0;
    while i < sz
        invariant
            i <= sz,
            out@.len() == i,
            forall|k: int| 0 <= k < out@.len() ==> hex_text(#[trigger] out@[k]@, width as nat),
        decreases sz - i,
    {
        out.push(random_text(width));
        i += 1;
    }
    proof {
        assert forall|k: int| 0 <= k < texts(out@).len() implies hex_text(
            #[trigger] texts(out@)[k],
            width as nat,
        ) by {
            assert(hex_text(out@[k]@, width as nat));
        }
    }
    Ok(out)
}

/// The operations on numbers.
#[derive(Clone, Copy, Debug, PartialEq, Eq, Structural)]
pub enum ArithOp {
    /// `+`
    Add,
    /// `-`
    Minus,
    /// `*`
    Mul,
    /// `/`
    Div,
    /// `%`
    Rest,
    /// `==`
    Equal,
    /// `>`
    Greater,
    /// `<`
    Smaller,
}

/// The views of those elements of `outs` that hold a value, in their order.
pub open spec fn given(outs: Seq<Option<String>>) -> Seq<Seq<char>>
    decreases outs.len(),
{
    if outs.len() == 0 {
        Seq::empty()
    } else {
        match outs.last() {
            Some(x) => given(outs.drop_last()).push(x@),
            None => given(outs.drop_last()),
        }
    }
}

/// Whether `outs` is what `kernel` answered for `op` on the pairs of `a`
/// and `b`: one answer for each place that both lists have.
pub open spec fn pairwise<K: Fn(ArithOp, &String, &String) -> Option<String>>(
    kernel: &K,
    op: ArithOp,
    a: Seq<String>,
    b: Seq<String>,
    outs: Seq<Option<String>>,
) -> bool {
    &&& outs.len() == if a.len() <= b.len() {
        a.len()
    } else {
        b.len()
    }
    &&& forall|i: int|
        0 <= i < outs.len() ==> call_ensures(*kernel, (op, &a[i], &b[i]), #[trigger] outs[i])
}

/// Whether `rs` can come of `op` on `input` and `input1`: the answers of
/// `kernel` for the pairs, those that hold a value, in their order.
pub open spec fn arith_rel<K: Fn(ArithOp, &String, &String) -> Option<String>>(
    kernel: &K,
    op: ArithOp,
    input: Seq<Seq<char>>,
    input1: Seq<Seq<char>>,
    rs: Seq<Seq<char>>,
) -> bool {
    exists|a: Seq<String>, b: Seq<String>, outs: Seq<Option<String>>|
        texts(a) == input && texts(b) == input1 && #[trigger] pairwise(kernel, op, a, b, outs)
            && rs == given(outs)
}

/// The operations on numbers, applied pair by pair, as far as both lists
/// reach. `kernel` computes on one pair, and answers nothing where one of the
/// two is no number: such a pair is passed over.
pub fn arith<K: Fn(ArithOp, &String, &String) -> Option<String>>(
    kernel: &K,
    op: ArithOp,
    input_item_v: &Vec<String>,
    input1_item_v: &Vec<String>,
) -> (r: Vec<String>)
    requires
        forall|op: ArithOp, a: &String, b: &String| call_requires(*kernel, (op, a, b)),
    ensures
        arith_rel(kernel, op, texts(input_item_v@), texts(input1_item_v@), texts(r@)),
{
    let sz = if input_item_v.len() <= input1_item_v.len() {
        input_item_v.len()
    } else {
        input1_item_v.len()
    };
    let mut out: Vec<String> = Vec::new();
    let ghost mut outs: Seq<Option<String>> = Seq::empty();
    let mut i: usize = 0;
    proof {
        assert(texts(out@) =~= given(outs));
    }
    while i < sz
        invariant
            i <= sz,
            sz <= input_item_v.len(),
            sz <= input1_item_v.len(),
            forall|op: ArithOp, a: &String, b: &String| call_requires(*kernel, (op, a, b)),
            outs.len() == i,
            forall|k: int|
                0 <= k < i ==> call_ensures(
                    *kernel,
                    (op, &input_item_v@[k], &input1_item_v@[k]),
                    #[trigger] outs[k],
                ),
            texts(out@) == given(outs),
        decreases sz - i,
    {
        let answer = kernel(op, &input_item_v[i], &input1_item_v[i]);
        proof {
            assert(outs.push(answer).drop_last() =~= outs);
            outs = outs.push(answer);
        }
        match answer {
            Some(x) => {
                proof {
                    lemma_texts_push(out@, x);
                }
                out.push(x);
            },
            None => {},
        }
        i += 1;
    }
    proof {
        assert(pairwise(kernel, op, input_item_v@, input1_item_v@, outs));
    }
    out
}

/// Whether `next` is the running total after `item`, where it was `acc`
/// before: the sum that `kernel` gives, or `acc` itself where it gives none.
pub open spec fn sum_step<K: Fn(ArithOp, &String, &String) -> Option<String>>(
    kernel: &K,
    acc: String,
    item: String,
    next: String,
) -> bool {
    call_ensures(*kernel, (ArithOp::Add, &acc, &item), Some(next)) || (call_ensures(
        *kernel,
        (ArithOp::Add, &acc, &item),
        None::<String>,
    ) && next == acc)
}

/// Whether `totals` are the running totals of `items`, from `0` on.
pub open spec fn running<K: Fn(ArithOp, &String, &String) -> Option<String>>(
    kernel: &K,
    items: Seq<String>,
    totals: Seq<String>,
) -> bool {
    &&& totals.len() == items.len() + 1
    &&& totals[0]@ == "0"@
    &&& forall|i: int|
        0 <= i < items.len() ==> sum_step(kernel, totals[i], items[i], #[trigger] totals[i + 1])
}

/// Whether `rs` can come of `sum` on `input`: the last of the running
/// totals, as its one element.
pub open spec fn sum_rel<K: Fn(ArithOp, &String, &String) -> Option<String>>(
    kernel: &K,
    input: Seq<Seq<char>>,
    rs: Seq<Seq<char>>,
) -> bool {
    exists|a: Seq<String>, totals: Seq<String>|
        texts(a) == input && #[trigger] running(kernel, a, totals) && rs == seq![totals.last()@]
}

/// `sum`: the sum of the elements of `input`, as the one element of the
/// result. It starts from `0`, and an element that is no number is passed
/// over.
pub fn sum<K: Fn(ArithOp, &String, &String) -> Option<String>>(
    kernel: &K,
    input_item_v: &Vec<String>,
) -> (r: Vec<String>)
    requires
        forall|op: ArithOp, a: &String, b: &String| call_requires(*kernel, (op, a, b)),
    ensures
        sum_rel(kernel, texts(input_item_v@), texts(r@)),
{
    let mut acc = String::from_str("0");
    let ghost mut totals: Seq<String> = seq![acc];
    let mut i: usize = 0;
    while i < input_item_v.len()
        invariant
            i <= input_item_v.len(),
            forall|op: ArithOp, a: &String, b: &String| call_requires(*kernel, (op, a, b)),
            totals.len() == i + 1,
            totals[0]@ == "0"@,
            totals.last() == acc,
            forall|k: int|
                0 <= k < i ==> sum_step(kernel, totals[k], input_item_v@[k], #[trigger] totals[k + 1]),
        decreases input_item_v.len() - i,
    {
        let ghost before = acc;
        match kernel(ArithOp::Add, &acc, &input_item_v[i]) {
            Some(x) => {
                acc = x;
            },
            None => {},
        }
        proof {
            assert(sum_step(kernel, before, input_item_v@[i as int], acc));
            totals = totals.push(acc);
        }
        i += 1;
    }
    let mut out: Vec<String> = Vec::new();
    out.push(acc);
    proof {
        assert(running(kernel, input_item_v@, totals));
        assert(texts(out@) =~= seq![totals.last()@]);
    }
    out
}

/// Whether `line` accepts its arguments: one element each, the first a
/// count.
pub open spec fn line_accepts(input: Seq<Seq<char>>, input1: Seq<Seq<char>>) -> bool {
    input.len() == 1 && input1.len() == 1 && is_count(input[0])
}

/// Whether `outs` is what `kernel` answered for the sums of `start` and
/// each of the numbers 0, 1, 2 and so on, as many as `outs` has.
pub open spec fn stepped<K: Fn(ArithOp, &String, &String) -> Option<String>>(
    kernel: &K,
    start: String,
    outs: Seq<Option<String>>,
) -> bool {
    exists|offsets: Seq<String>|
        {
            &&& offsets.len() == outs.len()
            &&& forall|i: int| 0 <= i < offsets.len() ==> (#[trigger] offsets[i])@ == decimal(i as nat)
            &&& forall|i: int|
                0 <= i < outs.len() ==> call_ensures(
                    *kernel,
                    (ArithOp::Add, &start, &offsets[i]),
                    #[trigger] outs[i],
                )
        }
}

/// Whether `rs` can come of `line` on `input` and `input1`.
pub open spec fn line_rel<K: Fn(ArithOp, &String, &String) -> Option<String>>(
    kernel: &K,
    input: Seq<Seq<char>>,
    input1: Seq<Seq<char>>,
    rs: Seq<Seq<char>>,
) -> bool {
    &&& line_accepts(input, input1)
    &&& exists|start: String, outs: Seq<Option<String>>|
        start@ == input1[0] && outs.len() == count_value(input[0]) && #[trigger] stepped(
            kernel,
            start,
            outs,
        ) && rs == given(outs)
}

/// `line`: the numbers that begin with the one element of `input1` and go
/// up by one, as many as the one element of `input` says. Each is the sum that
/// `kernel` gives for the start and 0, 1, 2 and so on; where it gives none,
/// because the start is no number, the place is passed over.
pub fn line<K: Fn(ArithOp, &String, &String) -> Option<String>>(
    kernel: &K,
    input_item_v: &Vec<String>,
    input1_item_v: &Vec<String>,
) -> (r: Result<Vec<String>, Error>)
    requires
        forall|op: ArithOp, a: &String, b: &String| call_requires(*kernel, (op, a, b)),
    ensures
        r is Ok <==> line_accepts(texts(input_item_v@), texts(input1_item_v@)),
        r is Ok ==> line_rel(
            kernel,
            texts(input_item_v@),
            texts(input1_item_v@),
            texts(r.unwrap()@),
        ),
        r is Err ==> r.unwrap_err().spec_kind() == ErrorKind::InvalidArgs,
{
    if input_item_v.len() != 1 || input1_item_v.len() != 1 {
        return Err(invalid_args("need 1 but not"));
    }
    let sz = match parse_count(input_item_v[0].as_str()) {
        Some(sz) => sz,
        None => {
            return Err(invalid_args("need a count"));
        },
    };
    let mut out: Vec<String> = Vec::new();
    let ghost mut outs: Seq<Option<String>> = Seq::empty();
    let ghost mut offsets: Seq<String> = Seq::empty();
    let mut i: u64 = 0;
    proof {
        assert(texts(out@) =~= given(outs));
    }
    while i < sz
        invariant
            i <= sz,
            input1_item_v@.len() == 1,
            forall|op: ArithOp, a: &String, b: &String| call_requires(*kernel, (op, a, b)),
            outs.len() == i,
            offsets.len() == i,
            forall|k: int| 0 <= k < i ==> (#[trigger] offsets[k])@ == decimal(k as nat),
            forall|k: int|
                0 <= k < i ==> call_ensures(
                    *kernel,
                    (ArithOp::Add, &input1_item_v@[0], &offsets[k]),
                    #[trigger] outs[k],
                ),
            texts(out@) == given(outs),
        decreases sz - i,
    {
        let offset = format_nat(i);
        let answer = kernel(ArithOp::Add, &input1_item_v[0], &offset);
        proof {
            assert(outs.push(answer).drop_last() =~= outs);
            outs = outs.push(answer);
            offsets = offsets.push(offset);
        }
        match answer {
            Some(x) => {
                proof {
                    lemma_texts_push(out@, x);
                }
                out.push(x);
            },
            None => {},
        }
        i += 1;
    }
    proof {
        assert(stepped(kernel, input1_item_v@[0], outs));
    }
    Ok(out)
}

/// An element together with the key by which it is sorted.
pub struct Keyed {
    pub item: Seq<char>,
    pub key: Seq<char>,
}

/// `sorted` with `x` put behind the last element whose key comes no later
/// than that of `x`.
pub open spec fn insert_keyed(sorted: Seq<Keyed>, x: Keyed) -> Seq<Keyed>
    decreases sorted.len(),
{
    if sorted.len() == 0 {
        seq![x]
    } else if ordered(sorted.last().key, x.key) {
        sorted.push(x)
    } else {
        insert_keyed(sorted.drop_last(), x).push(sorted.last())
    }
}

/// `s` sorted by key. Elements with equal keys keep their order.
pub open spec fn sort_keyed(s: Seq<Keyed>) -> Seq<Keyed>
    decreases s.len(),
{
    if s.len() == 0 {
        Seq::empty()
    } else {
        insert_keyed(sort_keyed(s.drop_last()), s.last())
    }
}

/// The elements of `items`, each with the key at its place in `keys`.
pub open spec fn keyed(items: Seq<Seq<char>>, keys: Seq<Seq<char>>) -> Seq<Keyed>
    recommends
        items.len() == keys.len(),
{
    Seq::new(items.len(), |i: int| Keyed { item: items[i], key: keys[i] })
}

/// The elements of a list of keyed elements.
pub open spec fn items_of(s: Seq<Keyed>) -> Seq<Seq<char>> {
    Seq::new(s.len(), |i: int| s[i].item)
}

proof fn lemma_insert_keyed_at(sorted: Seq<Keyed>, x: Keyed, p: int)
    requires
        0 <= p <= sorted.len(),
        p > 0 ==> ordered(sorted[p - 1].key, x.key),
        forall|j: int| p <= j < sorted.len() ==> !ordered(#[trigger] sorted[j].key, x.key),
    ensures
        insert_keyed(sorted, x) == sorted.insert(p, x),
    decreases sorted.len(),
{
    if sorted.len() == 0 {
        assert(seq![x] =~= sorted.insert(p, x));
    } else if p == sorted.len() {
        assert(sorted.push(x) =~= sorted.insert(p, x));
    } else {
        assert(!ordered(sorted[sorted.len() - 1].key, x.key));
        lemma_insert_keyed_at(sorted.drop_last(), x, p);
        assert(sorted.drop_last().insert(p, x).push(sorted.last()) =~= sorted.insert(p, x));
    }
}

/// `item_v` sorted by the keys in `key_v`. Elements with equal keys keep
/// their order.
pub(crate) fn sort_by_key(item_v: &Vec<String>, key_v: &Vec<String>) -> (r: Vec<String>)
    requires
        item_v.len() == key_v.len(),
    ensures
        texts(r@) == items_of(sort_keyed(keyed(texts(item_v@), texts(key_v@)))),
{
    let ghost all = keyed(texts(item_v@), texts(key_v@));
    let mut order: Vec<usize> = Vec::new();
    let mut i: usize = 0;
    proof {
        assert(all.take(0) =~= Seq::<Keyed>::empty());
        assert(Seq::new(order@.len(), |j: int| all[order@[j] as int]) =~= sort_keyed(all.take(0)));
    }
    while i < item_v.len()
        invariant
            i <= item_v.len(),
            item_v.len() == key_v.len(),
            all == keyed(texts(item_v@), texts(key_v@)),
            order@.len() == i,
            forall|j: int| 0 <= j < order@.len() ==> (#[trigger] order@[j]) < item_v.len(),
            Seq::new(order@.len(), |j: int| all[order@[j] as int]) == sort_keyed(all.take(i as int)),
        decreases item_v.len() - i,
    {
        let ghost sorted = sort_keyed(all.take(i as int));
        let mut p: usize = order.len();
        while p > 0 && !in_order(key_v[order[p - 1]].as_str(), key_v[i].as_str())
            invariant
                p <= order@.len(),
                i < item_v.len(),
                item_v.len() == key_v.len(),
                all == keyed(texts(item_v@), texts(key_v@)),
                forall|j: int| 0 <= j < order@.len() ==> (#[trigger] order@[j]) < item_v.len(),
                sorted == Seq::new(order@.len(), |j: int| all[order@[j] as int]),
                forall|j: int|
                    p <= j < sorted.len() ==> !ordered(#[trigger] sorted[j].key, all[i as int].key),
            decreases p,
        {
            p -= 1;
        }
        proof {
            assert(all.take(i + 1).drop_last() =~= all.take(i as int));
            assert(all.take(i + 1).last() == all[i as int]);
            lemma_insert_keyed_at(sorted, all[i as int], p as int);
        }
        order.insert(p, i);
        proof {
            assert(Seq::new(order@.len(), |j: int| all[order@[j] as int]) =~= sorted.insert(
                p as int,
                all[i as int],
            ));
        }
        i += 1;
    }
    proof {
        assert(all.take(item_v.len() as int) =~= all);
    }
    let ghost sorted = sort_keyed(all);
    let mut out: Vec<String> = Vec::new();
    let mut k: usize = 0;
    proof {
        assert(texts(out@) =~= items_of(sorted).take(0));
    }
    while k < order.len()
        invariant
            k <= order@.len(),
            all == keyed(texts(item_v@), texts(key_v@)),
            item_v.len() == key_v.len(),
            forall|j: int| 0 <= j < order@.len() ==> (#[trigger] order@[j]) < item_v.len(),
            sorted == Seq::new(order@.len(), |j: int| all[order@[j] as int]),
            texts(out@) == items_of(sorted).take(k as int),
        decreases order.len() - k,
    {
        let item = item_v[order[k]].clone();
        proof {
            lemma_texts_push(out@, item);
            assert(items_of(sorted).take(k as int).push(item@) =~= items_of(sorted).take(k + 1));
        }
        out.push(item);
        k += 1;
    }
    proof {
        assert(items_of(sorted).take(order@.len() as int) =~= items_of(sorted));
    }
    out
}

/// Whether the keys of `s` are in order.
pub open spec fn in_key_order(s: Seq<Keyed>) -> bool {
    forall|i: int, j: int| 0 <= i < j < s.len() ==> ordered(s[i].key, s[j].key)
}

/// Putting an element into a list changes neither what the list holds
/// besides, nor that its keys are in order.
pub proof fn lemma_insert_keyed(sorted: Seq<Keyed>, x: Keyed)
    ensures
        insert_keyed(sorted, x).to_multiset() == sorted.to_multiset().insert(x),
        in_key_order(sorted) ==> in_key_order(insert_keyed(sorted, x)),
    decreases sorted.len(),
{
    broadcast use vstd::seq_lib::to_multiset_build;

    let out = insert_keyed(sorted, x);
    if sorted.len() == 0 {
        assert(seq![x] =~= sorted.push(x));
    } else if ordered(sorted.last().key, x.key) {
        if in_key_order(sorted) {
            assert forall|i: int, j: int| 0 <= i < j < out.len() implies ordered(
                out[i].key,
                out[j].key,
            ) by {
                if j == sorted.len() && i < sorted.len() - 1 {
                    lemma_ordered_trans(sorted[i].key, sorted.last().key, x.key);
                }
            }
        }
    } else {
        let init = sorted.drop_last();
        let last = sorted.last();
        lemma_insert_keyed(init, x);
        assert(init.push(last) =~= sorted);
        assert(sorted.to_multiset().insert(x) =~= init.to_multiset().insert(x).insert(last));
        if in_key_order(sorted) {
            assert(in_key_order(init)) by {
                assert forall|i: int, j: int| 0 <= i < j < init.len() implies ordered(
                    init[i].key,
                    init[j].key,
                ) by {
                    assert(init[i] == sorted[i] && init[j] == sorted[j]);
                }
            }
            let mid = insert_keyed(init, x);
            lemma_ordered_total(last.key, x.key);
            assert forall|i: int, j: int| 0 <= i < j < out.len() implies ordered(
                out[i].key,
                out[j].key,
            ) by {
                if j == mid.len() {
                    vstd::seq_lib::to_multiset_len(mid);
                    mid.to_multiset_ensures();
                    init.to_multiset_ensures();
                    assert(mid.contains(mid[i]));
                    assert(mid.to_multiset().count(mid[i]) > 0);
                    if mid[i] != x {
                        assert(init.to_multiset().count(mid[i]) > 0);
                        assert(init.contains(mid[i]));
                        let k = choose|k: int| 0 <= k < init.len() && init[k] == mid[i];
                        assert(sorted[k] == init[k]);
                    }
                } else {
                    assert(out[i] == mid[i] && out[j] == mid[j]);
                }
            }
        }
    }
}

/// Sorting gives the elements it was given, each as often as it was
/// there, with their keys in order.
pub proof fn lemma_sort_keyed(s: Seq<Keyed>)
    ensures
        sort_keyed(s).to_multiset() == s.to_multiset(),
        in_key_order(sort_keyed(s)),
    decreases s.len(),
{
    broadcast use vstd::seq_lib::to_multiset_build;

    if s.len() == 0 {
        assert(sort_keyed(s) =~= s);
    } else {
        lemma_sort_keyed(s.drop_last());
        lemma_insert_keyed(sort_keyed(s.drop_last()), s.last());
        assert(s.drop_last().push(s.last()) =~= s);
    }
}

/// Whether `items` holds `x`: what `distinct_of` keeps is what was there.
pub proof fn lemma_distinct_contains(items: Seq<Seq<char>>, x: Seq<char>)
    ensures
        distinct_of(items).contains(x) == items.contains(x),
    decreases items.len(),
{
    if items.len() > 0 {
        let init = items.drop_last();
        let last = items.last();
        let d = distinct_of(init);
        lemma_distinct_contains(init, x);
        lemma_distinct_contains(init, last);
        if items.contains(x) {
            let i = choose|i: int| 0 <= i < items.len() && items[i] == x;
            if i == items.len() - 1 {
                if !d.contains(last) {
                    assert(d.push(last)[d.len() as int] == x);
                }
            } else {
                assert(init[i] == x);
                let j = choose|j: int| 0 <= j < d.len() && d[j] == x;
                assert(distinct_of(items)[j] == x);
            }
        }
        if distinct_of(items).contains(x) {
            let j = choose|j: int| 0 <= j < distinct_of(items).len() && distinct_of(items)[j] == x;
            if j < d.len() {
                assert(d[j] == x);
                let i = choose|i: int| 0 <= i < init.len() && init[i] == x;
                assert(items[i] == x);
            } else {
                assert(items[items.len() - 1] == x);
            }
        }
    }
}

/// Elements that are there already add nothing to `distinct_of`.
pub proof fn lemma_distinct_absorbs(a: Seq<Seq<char>>, b: Seq<Seq<char>>)
    requires
        forall|i: int| 0 <= i < b.len() ==> a.contains(#[trigger] b[i]),
    ensures
        distinct_of(a + b) == distinct_of(a),
    decreases b.len(),
{
    if b.len() == 0 {
        assert(a + b =~= a);
    } else {
        let init = b.drop_last();
        assert forall|i: int| 0 <= i < init.len() implies a.contains(#[trigger] init[i]) by {
            assert(init[i] == b[i]);
        }
        lemma_distinct_absorbs(a, init);
        assert((a + b).drop_last() =~= a + init);
        assert((a + b).last() == b[b.len() - 1]);
        lemma_distinct_contains(a, b.last());
    }
}

/// `distinct` of a list appended to itself is `distinct` of the list.
pub proof fn lemma_distinct_of_doubled(x: Seq<Seq<char>>)
    ensures
        distinct_of(x + x) == distinct_of(x),
{
    assert forall|i: int| 0 <= i < x.len() implies x.contains(#[trigger] x[i]) by {}
    lemma_distinct_absorbs(x, x);
}

/// The code under which an element holds the key it is sorted by.
pub open spec fn sort_code() -> Seq<char> {
    "$no"@
}

/// The keys of `items`: for each the newest target it has under `$no`, the
/// empty string where it has none.
pub open spec fn keys_of(edges: Seq<EdgeView>, items: Seq<Seq<char>>) -> Seq<Seq<char>> {
    Seq::new(items.len(), |i: int| newest(fibre_of(edges, true, items[i], sort_code())))
}

/// What `sort` gives: `items` in the order of their keys, elements with
/// equal keys in the order they had.
pub open spec fn sorted_of(edges: Seq<EdgeView>, items: Seq<Seq<char>>) -> Seq<Seq<char>> {
    items_of(sort_keyed(keyed(items, keys_of(edges, items))))
}

/// `sort`: `input` in the order of the keys that its elements have under
/// `$no`. The keys are compared as strings.
pub fn sort<DM: AsDataManager>(dm: &mut DM, input_item_v: &Vec<String>) -> (r: Result<
    Vec<String>,
    Error,
>)
    ensures
        final(dm).edges() == old(dm).edges(),
        final(dm).reliable() == old(dm).reliable(),
        old(dm).reliable() ==> r is Ok,
        r is Ok ==> texts(r.unwrap()@) == sorted_of(old(dm).edges(), texts(input_item_v@)),
{
    let ghost items = texts(input_item_v@);
    let mut key_v: Vec<String> = Vec::new();
    let mut i: usize = 0;
    while i < input_item_v.len()
        invariant
            i <= input_item_v.len(),
            items == texts(input_item_v@),
            dm.edges() == old(dm).edges(),
            dm.reliable() == old(dm).reliable(),
            key_v@.len() == i,
            forall|k: int| 0 <= k < i ==> (#[trigger] key_v@[k])@ == keys_of(old(dm).edges(), items)[k],
        decreases input_item_v.len() - i,
    {
        let no = match dm.get_target(input_item_v[i].as_str(), "$no") {
            Ok(no) => no,
            Err(e) => {
                return Err(e);
            },
        };
        key_v.push(no);
        i += 1;
    }
    proof {
        assert(texts(key_v@) =~= keys_of(old(dm).edges(), items));
    }
    Ok(sort_by_key(input_item_v, &key_v))
}

/// The functions that are built in.
#[derive(Clone, Copy, Debug, PartialEq, Eq, Structural)]
pub enum Builtin {
    New,
    Line,
    Rand,
    Append,
    Distinct,
    Left,
    Inner,
    If,
    Arith(ArithOp),
    Sort,
    Count,
    Sum,
    Put,
}

/// The built-in function that a name stands for, if it stands for one.
pub open spec fn builtin_named(name: Seq<char>) -> Option<Builtin> {
    if name == "new"@ {
        Some(Builtin::New)
    } else if name == "line"@ {
        Some(Builtin::Line)
    } else if name == "rand"@ {
        Some(Builtin::Rand)
    } else if name == "append"@ {
        Some(Builtin::Append)
    } else if name == "distinct"@ {
        Some(Builtin::Distinct)
    } else if name == "left"@ {
        Some(Builtin::Left)
    } else if name == "inner"@ {
        Some(Builtin::Inner)
    } else if name == "if"@ {
        Some(Builtin::If)
    } else if name == "+"@ {
        Some(Builtin::Arith(ArithOp::Add))
    } else if name == "-"@ {
        Some(Builtin::Arith(ArithOp::Minus))
    } else if name == "*"@ {
        Some(Builtin::Arith(ArithOp::Mul))
    } else if name == "/"@ {
        Some(Builtin::Arith(ArithOp::Div))
    } else if name == "%"@ {
        Some(Builtin::Arith(ArithOp::Rest))
    } else if name == "=="@ {
        Some(Builtin::Arith(ArithOp::Equal))
    } else if name == ">"@ {
        Some(Builtin::Arith(ArithOp::Greater))
    } else if name == "<"@ {
        Some(Builtin::Arith(ArithOp::Smaller))
    } else if name == "sort"@ {
        Some(Builtin::Sort)
    } else if name == "count"@ {
        Some(Builtin::Count)
    } else if name == "sum"@ {
        Some(Builtin::Sum)
    } else if name == "="@ || name == "set"@ {
        Some(Builtin::Put)
    } else {
        None
    }
}

/// The built-in function that `name` stands for, if it stands for one.
pub fn builtin_of(name: &str) -> (r: Option<Builtin>)
    ensures
        r == builtin_named(name@),
{
    if same_text(name, "new") {
        Some(Builtin::New)
    } else if same_text(name, "line") {
        Some(Builtin::Line)
    } else if same_text(name, "rand") {
        Some(Builtin::Rand)
    } else if same_text(name, "append") {
        Some(Builtin::Append)
    } else if same_text(name, "distinct") {
        Some(Builtin::Distinct)
    } else if same_text(name, "left") {
        Some(Builtin::Left)
    } else if same_text(name, "inner") {
        Some(Builtin::Inner)
    } else if same_text(name, "if") {
        Some(Builtin::If)
    } else if same_text(name, "+") {
        Some(Builtin::Arith(ArithOp::Add))
    } else if same_text(name, "-") {
        Some(Builtin::Arith(ArithOp::Minus))
    } else if same_text(name, "*") {
        Some(Builtin::Arith(ArithOp::Mul))
    } else if same_text(name, "/") {
        Some(Builtin::Arith(ArithOp::Div))
    } else if same_text(name, "%") {
        Some(Builtin::Arith(ArithOp::Rest))
    } else if same_text(name, "==") {
        Some(Builtin::Arith(ArithOp::Equal))
    } else if same_text(name, ">") {
        Some(Builtin::Arith(ArithOp::Greater))
    } else if same_text(name, "<") {
        Some(Builtin::Arith(ArithOp::Smaller))
    } else if same_text(name, "sort") {
        Some(Builtin::Sort)
    } else if same_text(name, "count") {
        Some(Builtin::Count)
    } else if same_text(name, "sum") {
        Some(Builtin::Sum)
    } else if same_text(name, "=") || same_text(name, "set") {
        Some(Builtin::Put)
    } else {
        None
    }
}

/// Whether a built-in function accepts its arguments. Most accept all.
pub open spec fn accepts(b: Builtin, input: Seq<Seq<char>>, input1: Seq<Seq<char>>) -> bool {
    match b {
        Builtin::New => new_accepts(input, input1),
        Builtin::Line => line_accepts(input, input1),
        Builtin::Rand => rand_accepts(input, input1),
        _ => true,
    }
}

/// Whether `rs` can come of the built-in function `b` on `input` and
/// `input1`. But for `rand`, and for what the kernel answers, `rs` is
/// determined.
pub open spec fn builtin_rel<K: Fn(ArithOp, &String, &String) -> Option<String>>(
    kernel: &K,
    edges: Seq<EdgeView>,
    b: Builtin,
    input: Seq<Seq<char>>,
    input1: Seq<Seq<char>>,
    rs: Seq<Seq<char>>,
) -> bool {
    match b {
        Builtin::New => new_accepts(input, input1) && rs == copies(count_value(input[0]), input1[0]),
        Builtin::Line => line_rel(kernel, input, input1, rs),
        Builtin::Rand => rand_rel(input, input1, rs),
        Builtin::Append => rs == input + input1,
        Builtin::Distinct => rs == distinct_of(input),
        Builtin::Left => rs == sieve(input, input1, false),
        Builtin::Inner => rs == sieve(input, input1, true),
        Builtin::If => rs == either(input, input1),
        Builtin::Arith(op) => arith_rel(kernel, op, input, input1, rs),
        Builtin::Sort => rs == sorted_of(edges, input),
        Builtin::Count => rs == seq![decimal(input.len())],
        Builtin::Sum => sum_rel(kernel, input, rs),
        Builtin::Put => rs == non_empty(input),
    }
}

/// Runs a built-in function.
pub fn apply<DM: AsDataManager, K: Fn(ArithOp, &String, &String) -> Option<String>>(
    dm: &mut DM,
    kernel: &K,
    b: Builtin,
    input_item_v: &Vec<String>,
    input1_item_v: &Vec<String>,
) -> (r: Result<Vec<String>, Error>)
    requires
        forall|op: ArithOp, a: &String, b: &String| call_requires(*kernel, (op, a, b)),
    ensures
        final(dm).edges() == old(dm).edges(),
        final(dm).reliable() == old(dm).reliable(),
        old(dm).reliable() ==> (r is Ok <==> accepts(
            b,
            texts(input_item_v@),
            texts(input1_item_v@),
        )),
        r is Ok ==> builtin_rel(
            kernel,
            old(dm).edges(),
            b,
            texts(input_item_v@),
            texts(input1_item_v@),
            texts(r.unwrap()@),
        ),
        r is Err && old(dm).reliable() ==> r.unwrap_err().spec_kind() == ErrorKind::InvalidArgs,
{
    match b {
        Builtin::New => new(input_item_v, input1_item_v),
        Builtin::Line => line(kernel, input_item_v, input1_item_v),
        Builtin::Rand => rand(input_item_v, input1_item_v),
        Builtin::Append => Ok(append(input_item_v, input1_item_v)),
        Builtin::Distinct => Ok(distinct(input_item_v)),
        Builtin::Left => Ok(left(input_item_v, input1_item_v)),
        Builtin::Inner => Ok(inner(input_item_v, input1_item_v)),
        Builtin::If => Ok(choose_first(input_item_v, input1_item_v)),
        Builtin::Arith(op) => Ok(arith(kernel, op, input_item_v, input1_item_v)),
        Builtin::Sort => sort(dm, input_item_v),
        Builtin::Count => Ok(count(input_item_v)),
        Builtin::Sum => Ok(sum(kernel, input_item_v)),
        Builtin::Put => Ok(set(input_item_v)),
    }
}

} // verus!
