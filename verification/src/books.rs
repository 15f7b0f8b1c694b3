//! The error type of a small book-keeping service: which request
//! failed, and why, in a form a transport layer can map to status codes
//! and payloads.

use vstd::prelude::*;

verus! {

/// Why a book operation failed.
#[derive(Debug, Clone, PartialEq, Eq)]
pub enum BookError {
    /// No book under the requested id.
    NotFound,
    /// The payload failed validation; the message names the fields.
    ValidationError(String),
    /// An attempt to change a field that may never change; the message
    /// names the field.
    ImmutableUpdate(String),
    /// An unexpected internal failure.
    InternalError,
}

impl BookError {
    /// The error's stable machine-readable name.
    pub fn error_type(&self) -> (r: &'static str)
        ensures
            r@ == match self {
                BookError::NotFound => "NotFound"@,
                BookError::ValidationError(_) => "ValidationError"@,
                BookError::ImmutableUpdate(_) => "ImmutableUpdate"@,
                BookError::InternalError => "InternalError"@,
            },
    {
        match self {
            BookError::NotFound => "NotFound",
            BookError::ValidationError(_) => "ValidationError",
            BookError::ImmutableUpdate(_) => "ImmutableUpdate",
            BookError::InternalError => "InternalError",
        }
    }

    /// A human-readable message: a fixed phrase, with the offending
    /// detail appended where one exists.
    pub fn message(&self) -> (r: String)
        ensures
            r@ == match self {
                BookError::NotFound => "Book not found"@,
                BookError::ValidationError(d) => "Validation failed: "@ + d@,
                BookError::ImmutableUpdate(d) => "Immutable field update: "@ + d@,
                BookError::InternalError => "Internal server error"@,
            },
    {
        match self {
            BookError::NotFound => {
                let mut s = String::new();
                s.append("Book not found");
                proof {
                    assert(s@ =~= "Book not found"@);
                }
                s
            },
            BookError::ValidationError(d) => {
                let mut s = String::new();
                s.append("Validation failed: ");
                s.append(d.as_str());
                proof {
                    assert(s@ =~= "Validation failed: "@ + d@);
                }
                s
            },
            BookError::ImmutableUpdate(d) => {
                let mut s = String::new();
                s.append("Immutable field update: ");
                s.append(d.as_str());
                proof {
                    assert(s@ =~= "Immutable field update: "@ + d@);
                }
                s
            },
            BookError::InternalError => {
                let mut s = String::new();
                s.append("Internal server error");
                proof {
                    assert(s@ =~= "Internal server error"@);
                }
                s
            },
        }
    }
}

} // verus!
