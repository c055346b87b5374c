//! Error kinds surfaced by the core.

use vstd::prelude::*;

verus! {

/// What went wrong, in one word.
#[derive(Clone, Copy, Debug, PartialEq, Eq, Structural)]
pub enum ErrorKind {
    /// A document, relation or table id is unknown.
    NotFound,
    /// A table name violates the validator.
    InvalidName,
    /// A vector's length differs from the declared dimension.
    DimensionMismatch,
    /// A chunk was deleted directly, or a relation was created twice.
    IntegrityViolation,
    /// The underlying store or I/O failed.
    BackendError,
    /// The embedding service answered with a failure or an unreadable body.
    EmbeddingServiceError,
    /// The tokenizer could not be initialised, or could not encode or decode.
    ChunkerError,
}

/// An error of the core: a short kind and an optional message.
#[derive(Debug)]
pub struct CoreError {
    pub kind: ErrorKind,
    pub message: Option<String>,
}

impl CoreError {
    /// An error of the given kind without a message.
    pub fn new(kind: ErrorKind) -> (e: CoreError)
        ensures
            e.kind == kind,
            e.message is None,
    {
        CoreError { kind, message: None }
    }

    /// An error of the given kind that carries `message`.
    pub fn with_message(kind: ErrorKind, message: &str) -> (e: CoreError)
        ensures
            e.kind == kind,
            e.message matches Some(m) && m@ == message@,
    {
        CoreError { kind, message: Some(message.to_owned()) }
    }

    /// The short name of the error's kind.
    pub fn kind_name(&self) -> (name: &'static str)
        ensures
            name@ == kind_label(self.kind),
    {
        match self.kind {
            ErrorKind::NotFound => "not_found",
            ErrorKind::InvalidName => "invalid_name",
            ErrorKind::DimensionMismatch => "dimension_mismatch",
            ErrorKind::IntegrityViolation => "integrity_violation",
            ErrorKind::BackendError => "backend_error",
            ErrorKind::EmbeddingServiceError => "embedding_service_error",
            ErrorKind::ChunkerError => "chunker_error",
        }
    }
}

/// The short name of each kind.
pub open spec fn kind_label(kind: ErrorKind) -> Seq<char> {
    match kind {
        ErrorKind::NotFound => "not_found"@,
        ErrorKind::InvalidName => "invalid_name"@,
        ErrorKind::DimensionMismatch => "dimension_mismatch"@,
        ErrorKind::IntegrityViolation => "integrity_violation"@,
        ErrorKind::BackendError => "backend_error"@,
        ErrorKind::EmbeddingServiceError => "embedding_service_error"@,
        ErrorKind::ChunkerError => "chunker_error"@,
    }
}

} // verus!
