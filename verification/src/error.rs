//! Why stored bytes, or a write, are refused.

use vstd::prelude::*;

verus! {

/// Why stored bytes, or a write, were refused.
#[derive(Debug, PartialEq, Eq)]
pub enum Error {
    /// A check on the bytes failed; the text says which.
    Corruption(String),
    /// A read ran past the end of the bytes.
    UnexpectedEof,
    /// The bytes pass every check that is made on them, yet their lengths or offsets do
    /// not hold together. Nothing that this library writes is read back so.
    Malformed,
    /// A counter or a size would leave its integer type.
    Overflow,
    /// A record is too long to be read back, so it is not written.
    RecordTooLong,
}

/// The value of an [`Error`].
pub enum Fault {
    Corruption(Seq<char>),
    UnexpectedEof,
    Malformed,
    Overflow,
    RecordTooLong,
}

impl View for Error {
    type V = Fault;

    open spec fn view(&self) -> Fault {
        match self {
            Error::Corruption(text) => Fault::Corruption(text@),
            Error::UnexpectedEof => Fault::UnexpectedEof,
            Error::Malformed => Fault::Malformed,
            Error::Overflow => Fault::Overflow,
            Error::RecordTooLong => Fault::RecordTooLong,
        }
    }
}

/// What an error stands for, its text included.
pub proof fn what_errors_stand_for(e: Error)
    ensures
        match e {
            Error::Corruption(text) => e@ == Fault::Corruption(text@),
            Error::UnexpectedEof => e@ == Fault::UnexpectedEof,
            Error::Malformed => e@ == Fault::Malformed,
            Error::Overflow => e@ == Fault::Overflow,
            Error::RecordTooLong => e@ == Fault::RecordTooLong,
        },
{
}

} // verus!
