//! Who a session acts for: the owner of everything, a writer in one paper,
//! or a printer with a pen of its own.

use crate::text::chars_of;
use vstd::prelude::*;

verus! {

/// An authorization, as characters.
pub enum AuthView {
    Root,
    Writer(Seq<char>, Seq<char>),
    Printer(Seq<char>),
}

/// Whether `c` may stand in a paper or a pen: a letter, a digit, `-` or `_`.
pub open spec fn ident_char(c: char) -> bool {
    'a' <= c <= 'z' || 'A' <= c <= 'Z' || '0' <= c <= '9' || c == '-' || c == '_'
}

/// Whether every character of `s` may stand in a paper or a pen.
pub open spec fn ident(s: Seq<char>) -> bool {
    forall|i: int| 0 <= i < s.len() ==> ident_char(#[trigger] s[i])
}

/// Whether the names that an authorization carries are identifiers, so that
/// they can be written into a statement as they are.
pub open spec fn valid_auth(auth: AuthView) -> bool {
    match auth {
        AuthView::Root => true,
        AuthView::Writer(paper, pen) => ident(paper) && ident(pen),
        AuthView::Printer(pen) => ident(pen),
    }
}

/// The name under which the owner of everything writes.
pub open spec fn root_name() -> Seq<char> {
    "root"@
}

/// The paper with which an authorization labels the edges it writes.
pub open spec fn stamp_paper(auth: AuthView) -> Seq<char> {
    match auth {
        AuthView::Root => root_name(),
        AuthView::Writer(paper, _) => paper,
        AuthView::Printer(pen) => pen,
    }
}

/// The pen with which an authorization labels the edges it writes.
pub open spec fn stamp_pen(auth: AuthView) -> Seq<char> {
    match auth {
        AuthView::Root => root_name(),
        AuthView::Writer(_, pen) => pen,
        AuthView::Printer(pen) => pen,
    }
}

/// Whether an authorization may see an edge labelled `paper` and `pen`.
pub open spec fn may_see(auth: AuthView, paper: Seq<char>, pen: Seq<char>) -> bool {
    match auth {
        AuthView::Root => true,
        AuthView::Writer(own, _) => paper == own,
        AuthView::Printer(own) => pen == own,
    }
}

/// An authorization sees what it has written itself.
pub proof fn lemma_sees_own_stamp(auth: AuthView)
    ensures
        may_see(auth, stamp_paper(auth), stamp_pen(auth)),
{
}

/// An authorization.
#[derive(Debug)]
pub enum Auth {
    /// Sees and writes everything.
    Root,
    /// Works in a paper, with a pen: sees the edges of the paper.
    Writer(String, String),
    /// Works with a pen alone: sees the edges written with it.
    Printer(String),
}

impl View for Auth {
    type V = AuthView;

    open spec fn view(&self) -> AuthView {
        match self {
            Auth::Root => AuthView::Root,
            Auth::Writer(paper, pen) => AuthView::Writer(paper@, pen@),
            Auth::Printer(pen) => AuthView::Printer(pen@),
        }
    }
}

impl Clone for Auth {
    fn clone(&self) -> (r: Auth)
        ensures
            r@ == self@,
    {
        match self {
            Auth::Root => Auth::Root,
            Auth::Writer(paper, pen) => Auth::Writer(paper.clone(), pen.clone()),
            Auth::Printer(pen) => Auth::Printer(pen.clone()),
        }
    }
}

fn is_ident(s: &str) -> (r: bool)
    ensures
        r == ident(s@),
{
    let chars = chars_of(s);
    let mut i: usize = 0;
    while i < chars.len()
        invariant
            i <= chars.len(),
            chars@ == s@,
            forall|j: int| 0 <= j < i ==> ident_char(#[trigger] s@[j]),
        decreases chars.len() - i,
    {
        let c = chars[i];
        let ok = c >= 'a' && c <= 'z' || c >= 'A' && c <= 'Z' || c >= '0' && c <= '9' || c == '-'
            || c == '_';
        if !ok {
            return false;
        }
        i += 1;
    }
    true
}

impl Auth {
    /// The owner of everything.
    pub fn root() -> (r: Auth)
        ensures
            r@ == AuthView::Root,
    {
        Auth::Root
    }

    /// A writer in `paper` with `pen`.
    pub fn writer(paper: &str, pen: &str) -> (r: Auth)
        ensures
            r@ == AuthView::Writer(paper@, pen@),
    {
        Auth::Writer(paper.to_owned(), pen.to_owned())
    }

    /// A printer with `pen`.
    pub fn printer(pen: &str) -> (r: Auth)
        ensures
            r@ == AuthView::Printer(pen@),
    {
        Auth::Printer(pen.to_owned())
    }

    pub fn is_root(&self) -> (r: bool)
        ensures
            r == (self@ == AuthView::Root),
    {
        match self {
            Auth::Root => true,
            _ => false,
        }
    }

    /// Whether the names it carries are identifiers.
    pub fn is_valid(&self) -> (r: bool)
        ensures
            r == valid_auth(self@),
    {
        match self {
            Auth::Root => true,
            Auth::Writer(paper, pen) => is_ident(paper.as_str()) && is_ident(pen.as_str()),
            Auth::Printer(pen) => is_ident(pen.as_str()),
        }
    }

    /// The paper with which it labels what it writes.
    pub fn paper(&self) -> (r: String)
        ensures
            r@ == stamp_paper(self@),
    {
        match self {
            Auth::Root => String::from_str("root"),
            Auth::Writer(paper, _) => paper.clone(),
            Auth::Printer(pen) => pen.clone(),
        }
    }

    /// The pen with which it labels what it writes.
    pub fn pen(&self) -> (r: String)
        ensures
            r@ == stamp_pen(self@),
    {
        match self {
            Auth::Root => String::from_str("root"),
            Auth::Writer(_, pen) => pen.clone(),
            Auth::Printer(pen) => pen.clone(),
        }
    }
}

} // verus!
