//! The outcomes that a session reports instead of an archive.

use vstd::prelude::*;

verus! {

/// Why an operation of a session failed.
#[derive(Clone, Copy, Debug, PartialEq, Eq, Structural)]
pub enum Error {
    /// The bytes match no supported object or archive layout.
    UnsupportedFormat,
    /// The layout is recognised but a table is inconsistent or out of bounds.
    MalformedBinary,
    /// The prefix is empty, holds a NUL byte or is not a legal symbol name.
    InvalidPrefix,
    /// A prefixed name clashes with a symbol that keeps its name.
    RenameCollision,
    /// A result would not fit the fields of the output format, or the
    /// session was used out of order.
    InternalInvariantViolation,
}

impl Error {
    /// The text of `message`.
    pub open spec fn message_spec(&self) -> Seq<char> {
        match self {
            Error::UnsupportedFormat => "unsupported format"@,
            Error::MalformedBinary => "malformed object"@,
            Error::InvalidPrefix => "invalid prefix"@,
            Error::RenameCollision => "collision"@,
            Error::InternalInvariantViolation => "internal invariant violation"@,
        }
    }

    /// A short description of the outcome.
    pub fn message(&self) -> (r: String)
        ensures
            r@ == self.message_spec(),
    {
        match self {
            Error::UnsupportedFormat => String::from_str("unsupported format"),
            Error::MalformedBinary => String::from_str("malformed object"),
            Error::InvalidPrefix => String::from_str("invalid prefix"),
            Error::RenameCollision => String::from_str("collision"),
            Error::InternalInvariantViolation => String::from_str("internal invariant violation"),
        }
    }
}

} // verus!
