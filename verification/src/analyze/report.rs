//! Everything the analysis found out about a track.

use crate::domain::beatgrid::{downbeats, Beatgrid};
use crate::domain::cue::CuePoint;
use crate::domain::jumpcue::JumpCueGraph;
use crate::domain::key::Key;
use crate::domain::phrase::Phrase;
use crate::domain::segments::{KeySegment, TempoSegment};
use crate::domain::track::Track;
use crate::number::binary64::{of_int, product, quotient, zero, Binary64};
use crate::text::copy_text;
use vstd::prelude::*;

verus! {

/// Seconds between frames `hop` samples apart; zero without a sample rate.
pub open spec fn frame_step(hop: usize, sample_rate: u32) -> Binary64 {
    if sample_rate == 0 {
        zero()
    } else {
        quotient(of_int(hop as int), of_int(sample_rate as int))
    }
}

/// The three band envelopes plus the waveform outline, all on the same frame grid.
#[derive(Debug, Clone, PartialEq)]
pub struct Envelopes {
    pub low: Vec<Binary64>,
    pub mid: Vec<Binary64>,
    pub high: Vec<Binary64>,
    /// Most negative sample in each frame.
    pub min: Vec<Binary64>,
    /// Most positive sample in each frame.
    pub max: Vec<Binary64>,
    /// Frame hop in samples; frames do not overlap.
    pub hop: usize,
    pub sample_rate: u32,
}

impl Envelopes {
    /// The number of frames.
    pub fn len(&self) -> (r: usize)
        ensures
            r == self.low@.len(),
    {
        self.low.len()
    }

    /// Whether there are no frames.
    pub fn is_empty(&self) -> (r: bool)
        ensures
            r == (self.low@.len() == 0),
    {
        self.low.len() == 0
    }

    /// Seconds covered by each frame.
    pub fn frame_duration(&self) -> (r: Binary64)
        ensures
            r == frame_step(self.hop, self.sample_rate),
    {
        if self.sample_rate == 0 {
            zero()
        } else {
            Binary64::from_u64(self.hop as u64).over(Binary64::from_u64(self.sample_rate as u64))
        }
    }

    /// Time at the start of frame `index`.
    pub fn frame_time(&self, index: usize) -> (r: Binary64)
        ensures
            r == product(of_int(index as int), frame_step(self.hop, self.sample_rate)),
    {
        Binary64::from_u64(index as u64).times(self.frame_duration())
    }
}

/// Everything the analysis found out about a track.
#[derive(Debug)]
pub struct Analysis {
    pub duration_sec: Binary64,
    /// Sample rate the analysis ran at, not the file's own rate.
    pub analysis_sample_rate: u32,
    /// Beats and the tempo structure that organises them into bars.
    pub beatgrid: Beatgrid,
    /// Single representative tempo, for display and for sorting a library.
    pub tempo_global: Binary64,
    pub key_segments: Vec<KeySegment>,
    /// One key for the whole track.
    pub overall_key: Option<Key>,
    /// Band energies for drawing the waveform.
    pub envelopes: Envelopes,
    /// How strongly the onsets agreed with the chosen grid, `0..=1`.
    pub beat_confidence: Binary64,
    /// Regions of the track that sound alike, and the jumps between them.
    pub jump_cues: JumpCueGraph,
    /// The song structure; empty where no phrase model was at hand.
    pub phrases: Vec<Phrase>,
    /// The points that the song structure marks.
    pub cue_points: Vec<CuePoint>,
}

impl Analysis {
    /// The times of the beats.
    pub fn beats(&self) -> (r: &[Binary64])
        ensures
            r@ == self.beatgrid.times(),
    {
        self.beatgrid.beats()
    }

    /// The tempo segments.
    pub fn tempo_segments(&self) -> (r: &[TempoSegment])
        ensures
            r@ == self.beatgrid.tempo(),
    {
        self.beatgrid.segments()
    }

    /// Times of the bar starts.
    pub fn downbeats(&self) -> (r: Vec<Binary64>)
        ensures
            r@ == downbeats(
                self.beatgrid.times(),
                self.beatgrid.tempo(),
                self.beatgrid.times().len(),
            ).map_values(|i: usize| self.beatgrid.times()[i as int]),
    {
        self.beatgrid.downbeat_times()
    }
}

/// A library row brought up to date with an analysis of its file.
///
/// A title and a time of adding that are there already stay; `stem` and `now`
/// fill in where they are not. The size is taken where the file told one.
pub fn describe_track(track: Track, analysis: &Analysis, stem: &str, now: i64, file_size: Option<i64>) -> (r: Track)
    ensures
        r.path@ == track.path@,
        r.uid == track.uid,
        r.artist == track.artist && r.album == track.album && r.comment == track.comment,
        r.total_samples == track.total_samples && r.rating == track.rating && r.file_mtime == track.file_mtime,
        r.duration == Some(analysis.duration_sec),
        r.bpm == Some(analysis.tempo_global),
        r.key == analysis.overall_key,
        track.title@.len() > 0 ==> r.title@ == track.title@,
        track.title@.len() == 0 ==> r.title@ == stem@,
        r.added_ts == if track.added_ts == 0 {
            now
        } else {
            track.added_ts
        },
        r.file_size == match file_size {
            Some(size) => size,
            None => track.file_size,
        },
{
    let title: String = if track.title.as_str().is_empty() {
        copy_text(stem)
    } else {
        track.title
    };
    Track {
        path: track.path,
        uid: track.uid,
        title,
        artist: track.artist,
        album: track.album,
        bpm: Some(analysis.tempo_global),
        key: analysis.overall_key,
        duration: Some(analysis.duration_sec),
        total_samples: track.total_samples,
        rating: track.rating,
        added_ts: if track.added_ts == 0 {
            now
        } else {
            track.added_ts
        },
        comment: track.comment,
        file_mtime: track.file_mtime,
        file_size: match file_size {
            Some(size) => size,
            None => track.file_size,
        },
    }
}

} // verus!
