//! The error value shared by the codec and the language front-end.

use vstd::prelude::*;

verus! {

/// What went wrong. Every failure of the library is one of these kinds.
#[derive(Copy, Clone, Debug, PartialEq, Eq, Structural)]
pub enum Error {
    /// A read or write of the transport failed. The library itself never
    /// reports this kind; it is here for the code that owns the socket.
    Io,
    /// A byte string that has to be text is not valid UTF-8.
    Utf8,
    /// Unknown message tag, truncated message, or a length that does not
    /// fit the message kind.
    Malformed,
    /// The source text is not in the grammar.
    Parse,
    /// The source text uses a name that begins with two underscores.
    Reserved,
    /// A conditional stands as a left operand, where a value or a name is
    /// needed.
    StaticType,
    /// The source text ends in the middle of an expression.
    Incomplete,
}

impl Error {
    /// What `reason` says of each kind.
    pub open spec fn reason_text(self) -> Seq<char> {
        match self {
            Error::Io => "the transport failed"@,
            Error::Utf8 => "a byte string is not valid UTF-8"@,
            Error::Malformed => "malformed message"@,
            Error::Parse => "the source is not in the grammar"@,
            Error::Reserved => "names that begin with \"__\" are reserved for internal use"@,
            Error::StaticType => "a conditional cannot be a left operand"@,
            Error::Incomplete => "the source ends in the middle of an expression"@,
        }
    }

    /// A sentence for people: what went wrong.
    pub fn reason(&self) -> (s: String)
        ensures
            s@ == self.reason_text(),
    {
        match self {
            Error::Io => "the transport failed".to_owned(),
            Error::Utf8 => "a byte string is not valid UTF-8".to_owned(),
            Error::Malformed => "malformed message".to_owned(),
            Error::Parse => "the source is not in the grammar".to_owned(),
            Error::Reserved => "names that begin with \"__\" are reserved for internal use".to_owned(),
            Error::StaticType => "a conditional cannot be a left operand".to_owned(),
            Error::Incomplete => "the source ends in the middle of an expression".to_owned(),
        }
    }
}

} // verus!
