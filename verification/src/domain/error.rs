//! Failure modes of domain-level validation.

use crate::number::binary64::Binary64;
use vstd::prelude::*;

verus! {

/// Why a domain operation was refused.
#[derive(Debug, Clone, PartialEq)]
pub enum DomainError {
    /// A selection must end after it starts.
    EmptySelection { start: Binary64, end: Binary64 },
    /// A phrase label must not be empty.
    EmptyPhraseLabel,
    /// A jump cue label must be a single letter A-Z.
    InvalidJumpCueLabel(String),
    /// Two jump cues have one label.
    DuplicateJumpCueLabel(String),
    /// The operation needs a track uid.
    MissingUid,
    /// The text is not a canonical UUIDv4.
    InvalidUid(String),
}

} // verus!
