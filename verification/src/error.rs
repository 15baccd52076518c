//! Error taxonomy of the core. Registry and category operations fail fast and
//! leave state unchanged; the configuration store degrades load failures to an
//! empty configuration but always propagates save failures; assembly aborts on
//! the first failing step.

use vstd::prelude::*;

verus! {

/// One error kind per failure class the core can report.
#[derive(Debug, Clone, PartialEq, Eq)]
pub enum CoreError {
    /// A filesystem access failed.
    Io,
    /// Malformed persisted or shareable text; carries the 1-based line number.
    Parse { line: u64 },
    /// A referenced mod, category or profile does not exist.
    NotFound,
    /// A category name collides with an existing or reserved name.
    DuplicateName,
    /// A backing file vanished before assembly; carries the mod id.
    MissingMod { id: Vec<u8> },
    /// The opaque package codec failed.
    Codec,
}

impl CoreError {
    /// Short stable tag for logs and messages; the presentation layer turns
    /// it into user-facing text.
    pub fn kind_name(&self) -> (r: &'static str)
        ensures
            r@ == match self {
                CoreError::Io => "io"@,
                CoreError::Parse { .. } => "parse"@,
                CoreError::NotFound => "not found"@,
                CoreError::DuplicateName => "duplicate name"@,
                CoreError::MissingMod { .. } => "missing mod"@,
                CoreError::Codec => "codec"@,
            },
    {
        match self {
            CoreError::Io => "io",
            CoreError::Parse { .. } => "parse",
            CoreError::NotFound => "not found",
            CoreError::DuplicateName => "duplicate name",
            CoreError::MissingMod { .. } => "missing mod",
            CoreError::Codec => "codec",
        }
    }
}

} // verus!
