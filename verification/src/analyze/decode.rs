//! The decisions of decoding: which track to take, which packets to keep, when
//! to go on and when to give up.
//!
//! Whatever decoded cleanly is kept: a truncated file is still worth analysing.

use crate::analyze::error::DecodeError;
use crate::text::copy_text;
use vstd::prelude::*;

verus! {

/// What a decode has come to so far.
#[derive(Debug, Clone, Copy, PartialEq, Eq, Structural)]
pub struct Progress {
    /// Samples decoded so far.
    pub samples: usize,
    /// Channels, from the first packet that decoded; zero before that.
    pub channels: usize,
    /// Sample rate, from the first packet that decoded.
    pub sample_rate: u32,
    /// Whether a packet has decoded yet.
    pub started: bool,
}

/// What the next packet brought.
#[derive(Debug, Clone, PartialEq)]
pub enum PacketEvent {
    /// The stream ended, or starts anew.
    EndOfStream,
    /// The next packet could not be read.
    ReadFailed { reason: String },
    /// The packet belongs to another track.
    OtherTrack,
    /// The packet decoded.
    Decoded { channels: usize, sample_rate: u32, samples: usize },
    /// The packet is damaged, but the next one may not be.
    BadPacket,
    /// Decoding cannot go on.
    DecodeFailed { reason: String },
}

/// What to do next.
#[derive(Debug, Clone, PartialEq)]
pub enum Step {
    /// Read the next packet.
    Continue,
    /// Stop with what there is.
    Stop,
    /// Give up.
    Fail(DecodeError),
}

/// What comes of an event, in terms of texts.
pub enum Outcome {
    Continue,
    Stop,
    Damaged { path: Seq<char>, reason: Seq<char> },
}

/// What a step comes to.
pub open spec fn outcome_of(step: Step) -> Option<Outcome> {
    match step {
        Step::Continue => Some(Outcome::Continue),
        Step::Stop => Some(Outcome::Stop),
        Step::Fail(DecodeError::Corrupt { path, reason }) => Some(Outcome::Damaged { path: path@, reason: reason@ }),
        Step::Fail(_) => None,
    }
}

/// What to do after a failure: stop with what there is, or give up where there
/// is nothing.
pub open spec fn after_failure(progress: Progress, path: Seq<char>, reason: Seq<char>) -> Outcome {
    if progress.samples == 0 {
        Outcome::Damaged { path, reason }
    } else {
        Outcome::Stop
    }
}

/// What to do after an event.
pub open spec fn decided(progress: Progress, event: PacketEvent, path: Seq<char>) -> Outcome {
    match event {
        PacketEvent::EndOfStream => Outcome::Stop,
        PacketEvent::ReadFailed { reason } => after_failure(progress, path, reason@),
        PacketEvent::OtherTrack => Outcome::Continue,
        PacketEvent::Decoded { .. } => Outcome::Continue,
        PacketEvent::BadPacket => Outcome::Continue,
        PacketEvent::DecodeFailed { reason } => after_failure(progress, path, reason@),
    }
}

/// What a decode has come to after an event.
pub open spec fn advanced(progress: Progress, event: PacketEvent) -> Progress {
    match event {
        PacketEvent::Decoded { channels, sample_rate, samples } => Progress {
            samples: (progress.samples + samples) as usize,
            channels: if progress.started {
                progress.channels
            } else {
                channels
            },
            sample_rate: if progress.started {
                progress.sample_rate
            } else {
                sample_rate
            },
            started: true,
        },
        _ => progress,
    }
}

/// The samples that an event brings.
pub open spec fn brought(event: PacketEvent) -> nat {
    match event {
        PacketEvent::Decoded { samples, .. } => samples as nat,
        _ => 0,
    }
}

impl Progress {
    /// Nothing decoded yet.
    pub fn new() -> (r: Self)
        ensures
            r == (Progress { samples: 0, channels: 0, sample_rate: 0, started: false }),
    {
        Progress { samples: 0, channels: 0, sample_rate: 0, started: false }
    }

    /// Takes in what the next packet brought, and says what to do.
    ///
    /// The first packet that decodes sets the channels and the rate. Damage to
    /// one packet is skipped; a failure ends the decode, and is an error only
    /// where nothing has decoded yet.
    pub fn take_in(&mut self, event: &PacketEvent, path: &str) -> (r: Step)
        requires
            old(self).samples + brought(*event) <= usize::MAX,
        ensures
            *final(self) == advanced(*old(self), *event),
            outcome_of(r) == Some(decided(*old(self), *event, path@)),
    {
        match event {
            PacketEvent::EndOfStream => Step::Stop,
            PacketEvent::ReadFailed { reason } => self.give_up(path, reason.as_str()),
            PacketEvent::OtherTrack => Step::Continue,
            PacketEvent::Decoded { channels, sample_rate, samples } => {
                if !self.started {
                    self.channels = *channels;
                    self.sample_rate = *sample_rate;
                    self.started = true;
                }
                self.samples = self.samples + *samples;
                Step::Continue
            },
            PacketEvent::BadPacket => Step::Continue,
            PacketEvent::DecodeFailed { reason } => self.give_up(path, reason.as_str()),
        }
    }

    /// What to do after a failure.
    fn give_up(&self, path: &str, reason: &str) -> (r: Step)
        ensures
            outcome_of(r) == Some(after_failure(*self, path@, reason@)),
    {
        if self.samples == 0 {
            Step::Fail(DecodeError::Corrupt { path: copy_text(path), reason: copy_text(reason) })
        } else {
            Step::Stop
        }
    }

    /// Whether the decode came to any audio.
    pub fn finish(&self, path: &str) -> (r: Result<(), DecodeError>)
        ensures
            r is Ok <==> self.samples > 0 && self.channels > 0,
            r is Err ==> (r->Err_0 matches DecodeError::Empty { path: p } && p@ == path@),
    {
        if self.samples == 0 || self.channels == 0 {
            Err(DecodeError::Empty { path: copy_text(path) })
        } else {
            Ok(())
        }
    }
}

/// The first track that can be decoded at all.
///
/// `decodable` says of each track whether it has a codec.
pub fn pick_track(decodable: &Vec<bool>, path: &str) -> (r: Result<usize, DecodeError>)
    ensures
        match r {
            Ok(at) => at < decodable@.len() && decodable@[at as int] && forall|i: int|
                0 <= i < at ==> !#[trigger] decodable@[i],
            Err(e) => (forall|i: int| 0 <= i < decodable@.len() ==> !#[trigger] decodable@[i]) && (
            e matches DecodeError::NoAudioTrack { path: p } && p@ == path@),
        },
{
    let mut i: usize = 0;
    while i < decodable.len()
        invariant
            i <= decodable@.len(),
            forall|k: int| 0 <= k < i ==> !#[trigger] decodable@[k],
        decreases decodable@.len() - i,
    {
        if decodable[i] {
            return Ok(i);
        }
        i = i + 1;
    }
    Err(DecodeError::NoAudioTrack { path: copy_text(path) })
}

/// Once something has decoded, no packet makes the decode an error, and the
/// format stays that of the first packet.
pub proof fn law_what_decoded_is_kept(progress: Progress, event: PacketEvent, path: Seq<char>)
    requires
        progress.started,
        progress.samples > 0,
        progress.samples + brought(event) <= usize::MAX,
    ensures
        !(decided(progress, event, path) is Damaged),
        advanced(progress, event).samples >= progress.samples,
        advanced(progress, event).channels == progress.channels,
        advanced(progress, event).sample_rate == progress.sample_rate,
{
}

} // verus!
