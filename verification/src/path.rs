//! Paths: a root followed by hops over edges, written `root->code<-code...`.

use crate::text::{chars_of, starts_with_char, text_of};
use vstd::prelude::*;
use vstd::string::StringSliceAdditionalSpecFns;

verus! {

/// The two characters of a forward hop, from a source to its targets.
pub open spec fn forward_arrow() -> Seq<char> {
    seq!['-', '>']
}

/// The two characters of a backward hop, from a target to its sources.
pub open spec fn backward_arrow() -> Seq<char> {
    seq!['<', '-']
}

/// Whether an arrow, `->` or `<-`, begins at position `i` of `s`.
pub open spec fn arrow_at(s: Seq<char>, i: int) -> bool {
    &&& 0 <= i
    &&& i + 1 < s.len()
    &&& (s[i] == '-' && s[i + 1] == '>' || s[i] == '<' && s[i + 1] == '-')
}

/// The position of the first arrow of `s` at or after `from`; the length of
/// `s` where there is none.
pub open spec fn next_arrow(s: Seq<char>, from: int) -> int
    decreases s.len() - from,
{
    if from >= s.len() {
        s.len() as int
    } else if arrow_at(s, from) {
        from
    } else {
        next_arrow(s, from + 1)
    }
}

/// `next_arrow` is the least position of an arrow from `from` on.
pub proof fn lemma_next_arrow(s: Seq<char>, from: int)
    requires
        0 <= from <= s.len(),
    ensures
        from <= next_arrow(s, from) <= s.len(),
        next_arrow(s, from) < s.len() ==> arrow_at(s, next_arrow(s, from)),
        forall|j: int| from <= j < next_arrow(s, from) ==> !arrow_at(s, j),
    decreases s.len() - from,
{
    if from < s.len() && !arrow_at(s, from) {
        lemma_next_arrow(s, from + 1);
    }
}

/// One hop of a path, as characters.
pub struct StepView {
    pub arrow: Seq<char>,
    pub code: Seq<char>,
}

/// A path, as characters.
pub struct PathView {
    pub root: Seq<char>,
    pub steps: Seq<StepView>,
}

/// The hops written in `s` from position `at` on, where `at` is the position
/// of an arrow or the end of `s`. Each hop takes the two characters of its
/// arrow and, as its code, what follows up to the next arrow.
pub open spec fn steps_from(s: Seq<char>, at: int) -> Seq<StepView>
    decreases s.len() - at,
{
    if 0 <= at && at + 2 <= s.len() {
        let end = next_arrow(s, at + 2);
        if at + 2 <= end <= s.len() {
            seq![StepView { arrow: s.subrange(at, at + 2), code: s.subrange(at + 2, end) }]
                + steps_from(s, end)
        } else {
            Seq::empty()
        }
    } else {
        Seq::empty()
    }
}

/// What a path string means. The empty string is the empty path. A string
/// that opens with a double quote is a literal: its root is what stands
/// between the quote that opens it and the quote that closes it, or all that
/// follows the first quote where none closes it, and it has no hops.
/// Otherwise the root is what precedes the first arrow.
pub open spec fn parse_path(s: Seq<char>) -> PathView {
    if s.len() == 0 {
        PathView { root: Seq::empty(), steps: Seq::empty() }
    } else if s[0] == '"' {
        PathView {
            root: if s.len() >= 2 && s.last() == '"' {
                s.subrange(1, s.len() - 1)
            } else {
                s.subrange(1, s.len() as int)
            },
            steps: Seq::empty(),
        }
    } else {
        PathView { root: s.subrange(0, next_arrow(s, 0)), steps: steps_from(s, next_arrow(s, 0)) }
    }
}

/// An identifier is temporary when it begins with `$`.
pub open spec fn temp_name(s: Seq<char>) -> bool {
    s.len() > 0 && s[0] == '$'
}

/// An edge is temporary when its source, its code or its target is.
pub open spec fn temp_edge(source: Seq<char>, code: Seq<char>, target: Seq<char>) -> bool {
    temp_name(source) || temp_name(code) || temp_name(target)
}

/// Whether the edge `source -code-> target` is temporary, so that it lives
/// in the session and is never persisted.
pub fn is_temp(source: &str, code: &str, target: &str) -> (r: bool)
    ensures
        r == temp_edge(source@, code@, target@),
{
    starts_with_char(source, '$') || starts_with_char(code, '$') || starts_with_char(target, '$')
}

fn arrow_here(chars: &Vec<char>, i: usize) -> (r: bool)
    ensures
        r == arrow_at(chars@, i as int),
{
    if i < chars.len() && chars.len() - i >= 2 {
        chars[i] == '-' && chars[i + 1] == '>' || chars[i] == '<' && chars[i + 1] == '-'
    } else {
        false
    }
}

fn find_arrow_from(chars: &Vec<char>, from: usize) -> (r: usize)
    requires
        from <= chars.len(),
    ensures
        r == next_arrow(chars@, from as int),
        from <= r <= chars.len(),
{
    let mut i: usize = from;
    while i < chars.len() && !arrow_here(chars, i)
        invariant
            from <= i <= chars.len(),
            next_arrow(chars@, from as int) == next_arrow(chars@, i as int),
        decreases chars.len() - i,
    {
        i += 1;
    }
    i
}

/// Whether the bytes of an arrow, `->` or `<-`, begin at position `i` of
/// `b`.
pub open spec fn byte_arrow_at(b: Seq<u8>, i: int) -> bool {
    &&& 0 <= i
    &&& i + 1 < b.len()
    &&& (b[i] == 45 && b[i + 1] == 62 || b[i] == 60 && b[i + 1] == 45)
}

/// The index of the first `->` or `<-` in `path`, counted in bytes as `str`
/// counts; the length of `path` where it holds neither.
pub fn find_arrrow(path: &str) -> (r: usize)
    ensures
        r <= path.spec_bytes().len(),
        r < path.spec_bytes().len() ==> byte_arrow_at(path.spec_bytes(), r as int),
        forall|j: int| 0 <= j < r ==> !byte_arrow_at(path.spec_bytes(), j),
{
    let b = path.as_bytes();
    let mut i: usize = 0;
    while i < b.len()
        invariant
            i <= b.len(),
            b@ == path.spec_bytes(),
            forall|j: int| 0 <= j < i ==> !byte_arrow_at(b@, j),
        decreases b.len() - i,
    {
        if b.len() - i >= 2 && (b[i] == 45u8 && b[i + 1] == 62u8 || b[i] == 60u8 && b[i + 1]
            == 45u8) {
            return i;
        }
        i += 1;
    }
    i
}

/// One hop: the arrow, `->` or `<-`, and the code of the edges it follows.
#[derive(Debug)]
pub struct Step {
    pub arrow: String,
    pub code: String,
}

impl Clone for Step {
    fn clone(&self) -> (r: Step)
        ensures
            r@ == self@,
    {
        Step { arrow: self.arrow.clone(), code: self.code.clone() }
    }
}

impl View for Step {
    type V = StepView;

    open spec fn view(&self) -> StepView {
        StepView { arrow: self.arrow@, code: self.code@ }
    }
}

/// The hops of a vector, each by its view.
pub open spec fn step_views(v: Seq<Step>) -> Seq<StepView> {
    Seq::new(v.len(), |i: int| v[i]@)
}

/// A root and the hops that lead away from it.
#[derive(Debug)]
pub struct Path {
    pub root: String,
    pub step_v: Vec<Step>,
}

impl View for Path {
    type V = PathView;

    open spec fn view(&self) -> PathView {
        PathView { root: self.root@, steps: step_views(self.step_v@) }
    }
}

impl Clone for Path {
    fn clone(&self) -> (r: Path)
        ensures
            r@ == self@,
    {
        let mut step_v: Vec<Step> = Vec::new();
        let mut i: usize = 0;
        while i < self.step_v.len()
            invariant
                i <= self.step_v.len(),
                step_v@.len() == i,
                forall|k: int| 0 <= k < i ==> (#[trigger] step_v@[k])@ == self.step_v@[k]@,
            decreases self.step_v.len() - i,
        {
            step_v.push(self.step_v[i].clone());
            i += 1;
        }
        proof {
            assert(step_views(step_v@) =~= step_views(self.step_v@));
        }
        Path { root: self.root.clone(), step_v }
    }
}

impl Path {
    /// Reads a path from its written form.
    pub fn from_str(path: &str) -> (r: Path)
        ensures
            r@ == parse_path(path@),
    {
        let chars = chars_of(path);
        let n = chars.len();
        if n == 0 {
            assert(step_views(Seq::<Step>::empty()) =~= Seq::<StepView>::empty());
            return Path { root: String::new(), step_v: Vec::new() };
        }
        if chars[0] == '"' {
            assert(step_views(Seq::<Step>::empty()) =~= Seq::<StepView>::empty());
            let root = if n >= 2 && chars[n - 1] == '"' {
                text_of(&chars, 1, n - 1)
            } else {
                text_of(&chars, 1, n)
            };
            return Path { root, step_v: Vec::new() };
        }
        let first = find_arrow_from(&chars, 0);
        let root = text_of(&chars, 0, first);
        let mut step_v: Vec<Step> = Vec::new();
        let mut at: usize = first;
        assert(step_views(step_v@) =~= Seq::<StepView>::empty());
        while n - at >= 2
            invariant
                n == chars.len(),
                first <= at <= n,
                chars@ == path@,
                steps_from(chars@, first as int) == step_views(step_v@) + steps_from(
                    chars@,
                    at as int,
                ),
            decreases n - at,
        {
            let end = find_arrow_from(&chars, at + 2);
            let step = Step { arrow: text_of(&chars, at, at + 2), code: text_of(&chars, at + 2, end) };
            let ghost before = step_v@;
            step_v.push(step);
            proof {
                assert(step_views(step_v@) =~= step_views(before).push(step@));
                assert(steps_from(chars@, at as int) == seq![step@] + steps_from(
                    chars@,
                    end as int,
                ));
                assert(step_views(step_v@) + steps_from(chars@, end as int) =~= step_views(before)
                    + (seq![step@] + steps_from(chars@, end as int)));
            }
            at = end;
        }
        proof {
            assert(steps_from(chars@, at as int) =~= Seq::<StepView>::empty());
            assert(step_views(step_v@) + Seq::<StepView>::empty() =~= step_views(step_v@));
        }
        Path { root, step_v }
    }

    /// Whether the path has neither a root nor hops.
    pub fn is_empty(&self) -> (r: bool)
        ensures
            r == (self@.root.len() == 0 && self@.steps.len() == 0),
    {
        self.root.as_str().is_empty() && self.step_v.len() == 0
    }
}

} // verus!
