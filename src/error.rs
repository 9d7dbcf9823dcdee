//! Errors of decoding.
use vstd::prelude::*;

verus! {

/// Why a decode failed.
#[derive(Debug, Clone, PartialEq)]
pub enum Error {
    /// The text was not JSON of the envelope's shape.
    Json(String),
    /// An annotation names a tag that no type has.
    InvalidTypeAnnotation(String),
    /// Reserved: path parsing is total.
    InvalidPath(String),
    InvalidDate(String),
    InvalidBigInt(String),
    InvalidRegExp(String),
    /// The JSON node does not have the shape that its annotation asks for.
    TypeMismatch { path: String, expected: String, actual: String },
}

/// The kind of an error, without its details.
#[derive(Debug, Clone, Copy, PartialEq, Eq)]
pub enum ErrorKind {
    Json,
    InvalidTypeAnnotation,
    InvalidPath,
    InvalidDate,
    InvalidBigInt,
    InvalidRegExp,
    TypeMismatch,
}

impl Error {
    pub open spec fn kind(&self) -> ErrorKind {
        match self {
            Error::Json(_) => ErrorKind::Json,
            Error::InvalidTypeAnnotation(_) => ErrorKind::InvalidTypeAnnotation,
            Error::InvalidPath(_) => ErrorKind::InvalidPath,
            Error::InvalidDate(_) => ErrorKind::InvalidDate,
            Error::InvalidBigInt(_) => ErrorKind::InvalidBigInt,
            Error::InvalidRegExp(_) => ErrorKind::InvalidRegExp,
            Error::TypeMismatch { .. } => ErrorKind::TypeMismatch,
        }
    }
}

} // verus!
