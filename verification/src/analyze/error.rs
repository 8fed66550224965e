//! Why a track could not be decoded or analysed.

use crate::number::binary64::Binary64;
use vstd::prelude::*;

verus! {

/// Why an audio file could not be turned into samples.
#[derive(Debug, Clone, PartialEq)]
pub enum DecodeError {
    /// The file could not be opened.
    Open { path: String, reason: String },
    /// The file is in a format that cannot be read.
    UnsupportedFormat { path: String, reason: String },
    /// The file holds no audio track.
    NoAudioTrack { path: String },
    /// The file is damaged or truncated.
    Corrupt { path: String, reason: String },
    /// The file decoded to no audio at all.
    Empty { path: String },
    /// One rate cannot be turned into the other.
    BadSampleRate { from: u32, to: u32 },
}

/// Why analysis could not produce a result.
#[derive(Debug, Clone, PartialEq)]
pub enum AnalysisError {
    /// The file could not be decoded.
    Decode(DecodeError),
    /// The audio is too short for the requested analysis.
    TooShort { duration_sec: Binary64, needed_sec: Binary64 },
    /// No onset energy anywhere: digital silence, or a file that decoded to
    /// zeros.
    Silent,
    /// The tempo search range holds no candidate at this hop.
    TempoRangeTooNarrow { lo: Binary64, hi: Binary64, hop: usize },
}

} // verus!
