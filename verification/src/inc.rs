//! Instructions: one line of a script.

use vstd::prelude::*;

verus! {

/// An instruction, as characters.
pub struct IncView {
    pub output: Seq<char>,
    pub operator: Seq<char>,
    pub function: Seq<char>,
    pub input: Seq<char>,
    pub input1: Seq<char>,
}

/// An instruction: where the result goes, how it is written there, the
/// function, and its two arguments.
#[derive(Debug)]
pub struct Inc {
    pub output: String,
    pub operator: String,
    pub function: String,
    pub input: String,
    pub input1: String,
}

impl View for Inc {
    type V = IncView;

    open spec fn view(&self) -> IncView {
        IncView {
            output: self.output@,
            operator: self.operator@,
            function: self.function@,
            input: self.input@,
            input1: self.input1@,
        }
    }
}

impl Clone for Inc {
    fn clone(&self) -> (r: Inc)
        ensures
            r@ == self@,
    {
        Inc {
            output: self.output.clone(),
            operator: self.operator.clone(),
            function: self.function.clone(),
            input: self.input.clone(),
            input1: self.input1.clone(),
        }
    }
}

/// The instructions of a vector, each by its view.
pub open spec fn inc_views(v: Seq<Inc>) -> Seq<IncView> {
    Seq::new(v.len(), |i: int| v[i]@)
}

/// An instruction as a line: its five parts, a space between each two.
pub open spec fn line_of(inc: IncView) -> Seq<char> {
    inc.output + seq![' '] + inc.operator + seq![' '] + inc.function + seq![' '] + inc.input + seq![
        ' ',
    ] + inc.input1
}

impl Inc {
    /// The instruction as a line.
    pub fn to_string(&self) -> (r: String)
        ensures
            r@ == line_of(self@),
    {
        let mut s = self.output.clone();
        s.push(' ');
        s.append(self.operator.as_str());
        s.push(' ');
        s.append(self.function.as_str());
        s.push(' ');
        s.append(self.input.as_str());
        s.push(' ');
        s.append(self.input1.as_str());
        proof {
            assert(s@ =~= line_of(self@));
        }
        s
    }
}

} // verus!
