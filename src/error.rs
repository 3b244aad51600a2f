use vstd::prelude::*;

verus! {

/// The type that a consumer was offered when it reported a failure.
#[derive(Clone, Copy, Debug, PartialEq, Eq, Structural)]
pub enum TypeTag {
    String,
    Integer,
    Float,
    Bool,
    Date,
    Array,
}

/// What went wrong while decoding.
#[derive(Clone, Copy, Debug, PartialEq, Eq, Structural)]
pub enum DecodeErrorKind {
    /// The value did not have the shape that the consumer asked for.
    SyntaxError,
    /// A value was needed and none was left.
    EndOfStream,
    /// A required field was absent; the tag names the offered type when known.
    ExpectedField(Option<TypeTag>),
    /// A table key that the consumer does not recognise.
    UnknownField,
}

/// A decoding failure, with the field at which it happened where that is known.
#[derive(Debug, Clone, PartialEq)]
pub struct DecodeError {
    pub field: Option<String>,
    pub kind: DecodeErrorKind,
}

/// The model of a `DecodeError`.
pub struct ErrorView {
    pub field: Option<Seq<char>>,
    pub kind: DecodeErrorKind,
}

pub open spec fn field_view(f: Option<String>) -> Option<Seq<char>> {
    match f {
        Some(s) => Some(s@),
        None => None,
    }
}

impl DecodeError {
    pub open spec fn view(self) -> ErrorView {
        ErrorView { field: field_view(self.field), kind: self.kind }
    }

    pub fn syntax_error() -> (r: DecodeError)
        ensures
            r@ == (ErrorView { field: None, kind: DecodeErrorKind::SyntaxError }),
    {
        DecodeError { field: None, kind: DecodeErrorKind::SyntaxError }
    }

    pub fn end_of_stream_error() -> (r: DecodeError)
        ensures
            r@ == (ErrorView { field: None, kind: DecodeErrorKind::EndOfStream }),
    {
        DecodeError { field: None, kind: DecodeErrorKind::EndOfStream }
    }

    pub fn missing_field_error(name: &str) -> (r: DecodeError)
        ensures
            r@ == (ErrorView { field: Some(name@), kind: DecodeErrorKind::ExpectedField(None) }),
    {
        DecodeError { field: Some(name.to_string()), kind: DecodeErrorKind::ExpectedField(None) }
    }

    pub fn unknown_field_error(name: &str) -> (r: DecodeError)
        ensures
            r@ == (ErrorView { field: Some(name@), kind: DecodeErrorKind::UnknownField }),
    {
        DecodeError { field: Some(name.to_string()), kind: DecodeErrorKind::UnknownField }
    }
}

/// A failure as a consumer reports it, before it is given a decoding context.
#[derive(Debug, Clone, PartialEq)]
pub enum ProtocolError {
    SyntaxError,
    EndOfStreamError,
    MissingFieldError(String),
    UnknownFieldError(String),
}

/// The diagnostic that a consumer's failure maps to, given the offered type.
pub open spec fn mapped_error(err: ProtocolError, ty: TypeTag) -> ErrorView {
    match err {
        ProtocolError::SyntaxError => ErrorView { field: None, kind: DecodeErrorKind::SyntaxError },
        ProtocolError::EndOfStreamError => ErrorView {
            field: None,
            kind: DecodeErrorKind::EndOfStream,
        },
        ProtocolError::MissingFieldError(s) => ErrorView {
            field: Some(s@),
            kind: DecodeErrorKind::ExpectedField(Some(ty)),
        },
        ProtocolError::UnknownFieldError(s) => ErrorView {
            field: Some(s@),
            kind: DecodeErrorKind::UnknownField,
        },
    }
}

/// Maps a consumer's failure to a `DecodeError`, tagging a missing field
/// with the type that was offered.
pub fn se2toml(err: ProtocolError, ty: TypeTag) -> (r: DecodeError)
    ensures
        r@ == mapped_error(err, ty),
{
    match err {
        ProtocolError::SyntaxError => DecodeError::syntax_error(),
        ProtocolError::EndOfStreamError => DecodeError::end_of_stream_error(),
        ProtocolError::MissingFieldError(s) => DecodeError {
            field: Some(s),
            kind: DecodeErrorKind::ExpectedField(Some(ty)),
        },
        ProtocolError::UnknownFieldError(s) => DecodeError {
            field: Some(s),
            kind: DecodeErrorKind::UnknownField,
        },
    }
}

} // verus!
