//! What can go wrong, and how a failure is handed to a byte-stream consumer.

use crate::text::bytes_of;
use vstd::prelude::*;

verus! {

/// A failure. Each one is fatal to the render that meets it: what was
/// written before it is incomplete.
#[derive(Debug, PartialEq, Eq)]
pub enum Error {
    /// A captured expression, or the text that a directive's body rendered
    /// to, is not UTF-8.
    UTF8,
    /// A directive lacks its argument or the line break after it.
    ParseError,
    /// A pattern has an empty delimiter or two equal ones, or a written
    /// pattern lacks its marker.
    InvalidEscapeSequence,
    /// Expressions are nested deeper than the reader allows.
    NestingTooDeep,
    /// The path, held here, leads to no value.
    MissingConfigValue(String),
}

/// The mathematical model of a failure: a missing path is held as its bytes.
pub enum Failure {
    Decoding,
    Parse,
    InvalidEscape,
    TooDeep,
    Missing(Seq<u8>),
}

impl Error {
    /// The failure that the value stands for.
    pub open spec fn model(&self) -> Failure {
        match self {
            Error::UTF8 => Failure::Decoding,
            Error::ParseError => Failure::Parse,
            Error::InvalidEscapeSequence => Failure::InvalidEscape,
            Error::NestingTooDeep => Failure::TooDeep,
            Error::MissingConfigValue(p) => Failure::Missing(bytes_of(p@)),
        }
    }
}

/// The category under which a failure reaches a byte-stream consumer. The
/// library sorts its failures no further.
#[derive(Debug, Clone, Copy, PartialEq, Eq, Structural)]
pub enum IoErrorKind {
    Other,
}

/// A failure in the form a byte-stream consumer takes it: a category and the
/// failure itself.
#[derive(Debug)]
pub struct IoError<E> {
    pub kind: IoErrorKind,
    pub source: E,
}

/// Wraps a failure for a byte-stream consumer, under the category `Other`.
pub fn to_io_error<E>(e: E) -> (r: IoError<E>)
    ensures
        r.kind == IoErrorKind::Other,
        r.source == e,
{
    IoError { kind: IoErrorKind::Other, source: e }
}

} // verus!
