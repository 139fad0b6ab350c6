//! The single error type that every fallible operation of the engine returns.

use vstd::prelude::*;

verus! {

/// What went wrong, by family.
#[derive(Debug, Clone, Copy, PartialEq, Eq, Structural)]
pub enum ErrorKind {
    /// Anything that fits no other family, such as a call chain that is too deep.
    Other,
    /// The store could not be reached or refused a statement.
    BadConnection,
    /// A script line does not have the five-token shape.
    InvalidScript,
    /// An operator or a function did not resolve to exactly one endpoint,
    /// or a name is neither built in nor defined by the user.
    Resolution,
    /// A built-in function was handed arguments it cannot work with.
    InvalidArgs,
    /// The credentials are missing or not acceptable.
    Unauthorized,
}

/// An error: its family and a message for people.
#[derive(Debug)]
pub struct Error {
    kind: ErrorKind,
    msg: String,
}

impl Error {
    /// The family of this error.
    pub closed spec fn spec_kind(&self) -> ErrorKind {
        self.kind
    }

    /// The message of this error.
    pub closed spec fn spec_msg(&self) -> Seq<char> {
        self.msg@
    }

    pub fn new(kind: ErrorKind, msg: String) -> (e: Error)
        ensures
            e.spec_kind() == kind,
            e.spec_msg() == msg@,
    {
        Error { kind, msg }
    }

    #[verifier::when_used_as_spec(spec_kind)]
    pub fn kind(&self) -> (k: ErrorKind)
        ensures
            k == self.spec_kind(),
    {
        self.kind
    }

    pub fn msg(&self) -> (m: &str)
        ensures
            m@ == self.spec_msg(),
    {
        self.msg.as_str()
    }

    /// The name of the family followed by a colon, a space and the message.
    pub fn to_string(&self) -> (s: String)
        ensures
            s@ == kind_name(self.spec_kind()) + ": "@ + self.spec_msg(),
    {
        let mut s = String::from_str(name_of(self.kind));
        s.append(": ");
        s.append(self.msg.as_str());
        s
    }
}

/// The name under which a family is shown.
pub open spec fn kind_name(kind: ErrorKind) -> Seq<char> {
    match kind {
        ErrorKind::Other => "Other"@,
        ErrorKind::BadConnection => "BadConnection"@,
        ErrorKind::InvalidScript => "InvalidScript"@,
        ErrorKind::Resolution => "Resolution"@,
        ErrorKind::InvalidArgs => "InvalidArgs"@,
        ErrorKind::Unauthorized => "Unauthorized"@,
    }
}

fn name_of(kind: ErrorKind) -> (s: &'static str)
    ensures
        s@ == kind_name(kind),
{
    match kind {
        ErrorKind::Other => "Other",
        ErrorKind::BadConnection => "BadConnection",
        ErrorKind::InvalidScript => "InvalidScript",
        ErrorKind::Resolution => "Resolution",
        ErrorKind::InvalidArgs => "InvalidArgs",
        ErrorKind::Unauthorized => "Unauthorized",
    }
}

} // verus!
