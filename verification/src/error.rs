//! The canonical error type for the core: a tagged result shape
//! distinguishing the failure domains that callers and external
//! collaborators report against. The core itself performs no input or
//! output; the corresponding variants exist for those collaborators.

use vstd::prelude::*;

verus! {

/// The canonical error type for all core operations.
#[derive(Debug)]
pub enum DreamError {
    /// Error originating from the tensor layer: shape mismatch, invalid
    /// operation.
    Tensor(String),
    /// Error originating from the chromatic-spectral bridge.
    Bridge(String),
    /// Error originating from the dream pool.
    Dream(String),
    /// Error originating from diagnostics.
    Diagnostics(String),
    /// Error related to input or output performed by a collaborator.
    Io(String),
    /// Error related to parsing configuration.
    Config(String),
    /// A critical validation failure, such as a failed determinism check.
    Validation(String),
}

impl DreamError {
    /// The failure domain of the error, as a label.
    pub fn describe(&self) -> (s: &'static str)
        ensures
            match self {
                DreamError::Tensor(_) => s@ == "tensor error"@,
                DreamError::Bridge(_) => s@ == "bridge error"@,
                DreamError::Dream(_) => s@ == "dream error"@,
                DreamError::Diagnostics(_) => s@ == "diagnostics error"@,
                DreamError::Io(_) => s@ == "io error"@,
                DreamError::Config(_) => s@ == "configuration error"@,
                DreamError::Validation(_) => s@ == "validation failure"@,
            },
    {
        match self {
            DreamError::Tensor(_) => "tensor error",
            DreamError::Bridge(_) => "bridge error",
            DreamError::Dream(_) => "dream error",
            DreamError::Diagnostics(_) => "diagnostics error",
            DreamError::Io(_) => "io error",
            DreamError::Config(_) => "configuration error",
            DreamError::Validation(_) => "validation failure",
        }
    }

    /// The message the error carries.
    pub fn message(&self) -> (m: &String)
        ensures
            match self {
                DreamError::Tensor(t) => m@ == t@,
                DreamError::Bridge(t) => m@ == t@,
                DreamError::Dream(t) => m@ == t@,
                DreamError::Diagnostics(t) => m@ == t@,
                DreamError::Io(t) => m@ == t@,
                DreamError::Config(t) => m@ == t@,
                DreamError::Validation(t) => m@ == t@,
            },
    {
        match self {
            DreamError::Tensor(t) => t,
            DreamError::Bridge(t) => t,
            DreamError::Dream(t) => t,
            DreamError::Diagnostics(t) => t,
            DreamError::Io(t) => t,
            DreamError::Config(t) => t,
            DreamError::Validation(t) => t,
        }
    }
}

/// A convenience result alias using the canonical error type.
pub type CoreResult<T> = Result<T, DreamError>;

} // verus!
