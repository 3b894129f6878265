//! Error type shared by every AETHER subsystem.
//!
//! All fallible operations return `Result<T, AetherError>` so callers get
//! structured, testable failures instead of panics.

use vstd::prelude::*;

verus! {

/// Every error the AETHER engine can produce.
#[derive(Debug, Clone)]
pub enum AetherError {
    /// Tensor / vector dimensions did not line up.
    ShapeMismatch(String),
    /// An operation received an empty sequence, corpus or vocabulary.
    EmptyInput(String),
    /// A configuration value is out of range or internally inconsistent.
    InvalidConfig(String),
    /// Tokenizer vocabulary problem (unknown merge, corrupt file, ...).
    Vocab(String),
    /// Filesystem failure while persisting or loading a model.
    Io(String),
    /// Serialization / deserialization failure.
    Ser(String),
}

/// Convenience alias used across the whole crate.
pub type Result<T> = core::result::Result<T, AetherError>;

impl AetherError {
    /// The human-readable rendering: a prefix naming the kind of failure,
    /// then the detail the error carries.
    pub open spec fn message(&self) -> Seq<char> {
        match self {
            AetherError::ShapeMismatch(s) => "shape mismatch: "@ + s@,
            AetherError::EmptyInput(s) => "empty input: "@ + s@,
            AetherError::InvalidConfig(s) => "invalid configuration: "@ + s@,
            AetherError::Vocab(s) => "vocabulary error: "@ + s@,
            AetherError::Io(s) => "io error: "@ + s@,
            AetherError::Ser(s) => "serialization error: "@ + s@,
        }
    }

    /// Render the error as text, e.g. `shape mismatch: 2x3 vs 4x5`.
    pub fn to_string(&self) -> (r: String)
        ensures
            r@ == self.message(),
    {
        let (prefix, detail) = match self {
            AetherError::ShapeMismatch(s) => ("shape mismatch: ", s),
            AetherError::EmptyInput(s) => ("empty input: ", s),
            AetherError::InvalidConfig(s) => ("invalid configuration: ", s),
            AetherError::Vocab(s) => ("vocabulary error: ", s),
            AetherError::Io(s) => ("io error: ", s),
            AetherError::Ser(s) => ("serialization error: ", s),
        };
        let mut r = String::from_str(prefix);
        r.append(detail.as_str());
        r
    }
}

} // verus!
