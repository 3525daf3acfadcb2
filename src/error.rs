use vstd::prelude::*;

verus! {

/// What can go wrong while decoding or encoding.
#[derive(Debug, PartialEq)]
pub enum Error {
    /// The input ended in the middle of a data item.
    EndOfInput,
    /// A header with reserved additional information, or a misplaced break marker.
    Malformed,
    /// A data item of another major type than the schema asks for.
    TypeMismatch,
    /// An integer does not fit the width the schema asks for.
    Overflow,
    /// A required field was never filled: its index and its qualified name.
    MissingValue(u32, String),
    /// An enum tag that no variant of the schema carries.
    UnknownVariant(u32),
    /// A structural error described in words.
    Message(String),
}

/// The mathematical value of an [`Error`], with names as character sequences.
pub ghost enum ErrorModel {
    EndOfInput,
    Malformed,
    TypeMismatch,
    Overflow,
    MissingValue(u32, Seq<char>),
    UnknownVariant(u32),
    Message(Seq<char>),
}

impl View for Error {
    type V = ErrorModel;

    open spec fn view(&self) -> ErrorModel {
        match self {
            Error::EndOfInput => ErrorModel::EndOfInput,
            Error::Malformed => ErrorModel::Malformed,
            Error::TypeMismatch => ErrorModel::TypeMismatch,
            Error::Overflow => ErrorModel::Overflow,
            Error::MissingValue(i, n) => ErrorModel::MissingValue(*i, n@),
            Error::UnknownVariant(t) => ErrorModel::UnknownVariant(*t),
            Error::Message(m) => ErrorModel::Message(m@),
        }
    }
}

} // verus!
