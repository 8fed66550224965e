//! Failure modes of phrase detection, each naming what the caller got wrong.

use crate::number::binary64::Binary64;
use vstd::prelude::*;

verus! {

/// Everything that can stop the phrase detector producing a result.
#[derive(Debug, Clone)]
#[allow(inconsistent_fields)]
pub enum PhraseError {
    /// Fewer than eight beats.
    BeatGridTooShort,
    /// Beat `index` is not after the one before it.
    BeatsNotIncreasing { index: usize },
    /// A beat time is not finite, or the first is negative.
    BeatTimesNotFinite,
    /// No tempo segment has a positive span and a meter of at least one.
    NoTempoSegments,
    /// The downbeat of a tempo segment is too far from every beat.
    DownbeatNotOnBeat { inizio: Binary64, error: Binary64, tolerance: Binary64 },
    /// No beat lies in any tempo segment.
    SegmentsMissTheGrid,
    /// There are no samples.
    EmptyAudio,
    /// The audio is not at the rate the model was trained on.
    SampleRateMismatch { found: u32, expected: u32 },
    /// The beats run past the end of the audio.
    GridPastAudio { beats_end: Binary64, audio_end: Binary64 },
    /// The model file could not be read.
    ModelIo { path: String, reason: String },
    /// The model file is not a readable NumPy archive.
    MalformedModel(String),
    /// The model has no array of this name.
    MissingModelField(String),
    /// An array of the model cannot be used.
    ModelField { field: String, reason: String },
    /// The model has another layout.
    UnsupportedModelFormat { found: String, expected: String },
}

} // verus!
