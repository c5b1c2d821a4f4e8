//! Errors raised while decoding or encoding bencode.
use vstd::prelude::*;

verus! {

/// Every failure of the codec, each with a readable message.
#[derive(Debug)]
pub enum Error {
    /// A byte tag of the wrong shape, a malformed number or a missing terminator.
    InvalidType(String),
    /// The right shape with the wrong content, such as an integer that does not fit.
    InvalidValue(String),
    /// A declared length that contradicts its context.
    InvalidLength(String),
    /// A variant name that the target type does not know.
    UnknownVariant(String),
    /// A field name that the target record does not know.
    UnknownField(String),
    /// A field that the target record needs and the document lacks.
    MissingField(String),
    /// A field given twice.
    DuplicateField(String),
    /// Any other failure.
    Custom(String),
    /// The input ended where a value was expected.
    EndOfStream,
}

/// The kind of an [`Error`], without its message.
#[derive(Debug, PartialEq, Eq, Clone, Copy, Structural)]
pub enum ErrorKind {
    InvalidType,
    InvalidValue,
    InvalidLength,
    UnknownVariant,
    UnknownField,
    MissingField,
    DuplicateField,
    Custom,
    EndOfStream,
}

impl Error {
    pub open spec fn spec_kind(&self) -> ErrorKind {
        match self {
            Error::InvalidType(_) => ErrorKind::InvalidType,
            Error::InvalidValue(_) => ErrorKind::InvalidValue,
            Error::InvalidLength(_) => ErrorKind::InvalidLength,
            Error::UnknownVariant(_) => ErrorKind::UnknownVariant,
            Error::UnknownField(_) => ErrorKind::UnknownField,
            Error::MissingField(_) => ErrorKind::MissingField,
            Error::DuplicateField(_) => ErrorKind::DuplicateField,
            Error::Custom(_) => ErrorKind::Custom,
            Error::EndOfStream => ErrorKind::EndOfStream,
        }
    }

    /// The kind of this error.
    pub fn kind(&self) -> (r: ErrorKind)
        ensures
            r == self.spec_kind(),
    {
        match self {
            Error::InvalidType(_) => ErrorKind::InvalidType,
            Error::InvalidValue(_) => ErrorKind::InvalidValue,
            Error::InvalidLength(_) => ErrorKind::InvalidLength,
            Error::UnknownVariant(_) => ErrorKind::UnknownVariant,
            Error::UnknownField(_) => ErrorKind::UnknownField,
            Error::MissingField(_) => ErrorKind::MissingField,
            Error::DuplicateField(_) => ErrorKind::DuplicateField,
            Error::Custom(_) => ErrorKind::Custom,
            Error::EndOfStream => ErrorKind::EndOfStream,
        }
    }

    /// The message of this error, as it is shown to a user.
    pub fn message(&self) -> (r: String)
        ensures
            r@ == self.msg(),
    {
        match self {
            Error::InvalidType(s) => s.clone(),
            Error::InvalidValue(s) => s.clone(),
            Error::InvalidLength(s) => s.clone(),
            Error::UnknownVariant(s) => s.clone(),
            Error::UnknownField(s) => s.clone(),
            Error::MissingField(s) => s.clone(),
            Error::DuplicateField(s) => s.clone(),
            Error::Custom(s) => s.clone(),
            Error::EndOfStream => "End of stream".to_string(),
        }
    }

    /// The characters of the message.
    pub open spec fn msg(&self) -> Seq<char> {
        match self {
            Error::EndOfStream => "End of stream"@,
            _ => self.spec_message()@,
        }
    }

    pub open spec fn spec_message(&self) -> String {
        match self {
            Error::InvalidType(s) => *s,
            Error::InvalidValue(s) => *s,
            Error::InvalidLength(s) => *s,
            Error::UnknownVariant(s) => *s,
            Error::UnknownField(s) => *s,
            Error::MissingField(s) => *s,
            Error::DuplicateField(s) => *s,
            Error::Custom(s) => *s,
            Error::EndOfStream => arbitrary(),
        }
    }
}

} // verus!
