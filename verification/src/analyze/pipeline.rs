//! From the findings of the stages to a description of the track.

use crate::analyze::error::AnalysisError;
use crate::analyze::onset::{OnsetEnvelope, OnsetOptions};
use crate::analyze::report::{Analysis, Envelopes};
use crate::analyze::tempo::{
    estimate, estimate_segments, frames_in_window, tempo_of, tempo_plan, whole_track, windows_left, TempoEstimate, TempoOptions,
};
use crate::domain::beatgrid::{finite_ones, Beatgrid};
use crate::domain::config::AnalysisConfig;
use crate::domain::jumpcue::JumpCueGraph;
use crate::domain::key::Key;
use crate::domain::segments::{KeySegment, TempoSegment};
use crate::number::binary64::{
    absolute, difference, larger, micro, nano, of_int, product, quotient, sum, zero, Binary64,
};
use crate::number::integral::floored;
use crate::number::lists::rows_of;
use crate::number::sorting::{ascending, law_sorting_orders_the_numbers, sort_ascending};
use vstd::prelude::*;

verus! {

/// Shortest track the tempo stage can say anything useful about: 4 seconds.
///
/// Below that there is not enough of the onset envelope to autocorrelate: the
/// estimate would be an artefact of the window, not a tempo.
#[verifier::allow_in_spec]
pub fn min_analysis_seconds() -> Binary64
    returns
        (Binary64 { bits: 0x4010_0000_0000_0000 }),
{
    Binary64 { bits: 0x4010_0000_0000_0000 }
}

/// The length of a track; zero without a sample rate.
pub open spec fn seconds_of(samples: usize, sample_rate: u32) -> Binary64 {
    if sample_rate == 0 {
        zero()
    } else {
        quotient(of_int(samples as int), of_int(sample_rate as int))
    }
}

/// The length of a track that is long enough to analyse.
pub fn track_seconds(samples: usize, sample_rate: u32) -> (r: Result<Binary64, AnalysisError>)
    ensures
        r == if seconds_of(samples, sample_rate).spec_lt(min_analysis_seconds()) {
            Err::<Binary64, AnalysisError>(
                AnalysisError::TooShort {
                    duration_sec: seconds_of(samples, sample_rate),
                    needed_sec: min_analysis_seconds(),
                },
            )
        } else {
            Ok::<Binary64, AnalysisError>(seconds_of(samples, sample_rate))
        },
{
    let duration_sec: Binary64 = if sample_rate == 0 {
        zero()
    } else {
        Binary64::from_u64(samples as u64).over(Binary64::from_u64(sample_rate as u64))
    };
    if duration_sec.lt(min_analysis_seconds()) {
        return Err(AnalysisError::TooShort { duration_sec, needed_sec: min_analysis_seconds() });
    }
    Ok(duration_sec)
}

/// The first of `t`, `t + period`, ... that is not before `limit`; the walk
/// ends where a step does not lead on any more.
pub open spec fn caught_up(t: Binary64, period: Binary64, limit: Binary64) -> Binary64
    decreases 0x8000_0000_0000_0000 - t.rank(),
{
    if t.spec_lt(limit) && t.spec_lt(sum(t, period)) {
        caught_up(sum(t, period), period, limit)
    } else {
        t
    }
}

/// The times `t + offset`, `t + period + offset`, ... for as long as the
/// unshifted time is before `limit`, those outside the track left out; the walk
/// ends where a step does not lead on any more.
pub open spec fn shifted_beats(
    t: Binary64,
    period: Binary64,
    limit: Binary64,
    offset: Binary64,
    duration: Binary64,
) -> Seq<Binary64>
    decreases 0x8000_0000_0000_0000 - t.rank(),
{
    if !t.spec_lt(limit) {
        seq![]
    } else {
        let at = sum(t, offset);
        let here = if zero().spec_le(at) && at.spec_le(duration) {
            seq![at]
        } else {
            seq![]
        };
        if t.spec_lt(sum(t, period)) {
            here + shifted_beats(sum(t, period), period, limit, offset, duration)
        } else {
            here
        }
    }
}

/// The beats of a segment, from its own downbeat at its own tempo.
pub open spec fn segment_beats(segment: TempoSegment, duration: Binary64, offset: Binary64) -> Seq<Binary64> {
    let period = segment.spec_beat_period();
    let steps = floored(quotient(difference(segment.start, segment.inizio), period));
    let wound = sum(segment.inizio, product(steps, period));
    let first = caught_up(wound, period, difference(segment.start, nano()));
    if !period.finite() || period.spec_le(zero()) {
        seq![]
    } else {
        shifted_beats(first, period, difference(segment.end, nano()), offset, duration)
    }
}

/// The beats of the first `n` segments.
pub open spec fn all_beats(segments: Seq<TempoSegment>, duration: Binary64, offset: Binary64, n: nat) -> Seq<Binary64>
    decreases n,
{
    if n == 0 {
        seq![]
    } else {
        all_beats(segments, duration, offset, (n - 1) as nat) + segment_beats(segments[n - 1], duration, offset)
    }
}

/// The first `n` times, without those less than a microsecond from the one
/// kept before them.
pub open spec fn without_doubles(times: Seq<Binary64>, n: nat) -> Seq<Binary64>
    decreases n,
{
    if n == 0 {
        seq![]
    } else {
        let kept = without_doubles(times, (n - 1) as nat);
        if kept.len() > 0 && absolute(difference(times[n - 1], kept.last())).spec_lt(micro()) {
            kept
        } else {
            kept.push(times[n - 1])
        }
    }
}

/// The beats laid across all segments.
pub open spec fn laid_beats(segments: Seq<TempoSegment>, duration: Binary64, offset: Binary64) -> Seq<Binary64> {
    let all = all_beats(segments, duration, offset, segments.len());
    without_doubles(ascending(all), all.len())
}

/// Puts the beats of a segment at the end of a list.
fn push_segment_beats(out: &mut Vec<Binary64>, segment: TempoSegment, duration: Binary64, offset: Binary64)
    ensures
        final(out)@ == old(out)@ + segment_beats(segment, duration, offset),
{
    let ghost was = out@;
    let ghost goal = out@ + segment_beats(segment, duration, offset);
    let period: Binary64 = segment.beat_period();
    if !period.is_finite() || period.le(zero()) {
        assert(out@ =~= goal);
        return;
    }
    // Wind the reference downbeat back to the segment start so the first beat
    // of the segment is included.
    let anchor: Binary64 = segment.inizio;
    let steps: Binary64 = segment.start.minus(anchor).over(period).floor();
    let mut t: Binary64 = anchor.plus(steps.times(period));
    let from: Binary64 = segment.start.minus(nano());
    let ghost first = caught_up(t, period, from);
    while t.lt(from) && t.lt(t.plus(period))
        invariant
            first == caught_up(t, period, from),
        decreases 0x8000_0000_0000_0000 - t.rank(),
    {
        t = t.plus(period);
    }
    let limit: Binary64 = segment.end.minus(nano());
    let mut going: bool = true;
    assert(out@ + shifted_beats(t, period, limit, offset, duration) =~= goal);
    while going && t.lt(limit)
        invariant
            going ==> out@ + shifted_beats(t, period, limit, offset, duration) == goal,
            !going ==> out@ == goal,
        decreases 0x8000_0000_0000_0000 - t.rank() + (if going {
            1int
        } else {
            0int
        }),
    {
        let shifted: Binary64 = t.plus(offset);
        let next: Binary64 = t.plus(period);
        let ghost before = out@;
        let ghost rest = shifted_beats(next, period, limit, offset, duration);
        if zero().le(shifted) && shifted.le(duration) {
            out.push(shifted);
            assert(before + (seq![shifted] + rest) =~= out@ + rest);
            assert(before + seq![shifted] =~= out@);
        } else {
            assert(before + (Seq::<Binary64>::empty() + rest) =~= out@ + rest);
            assert(before + Seq::<Binary64>::empty() =~= out@);
        }
        if t.lt(next) {
            t = next;
        } else {
            going = false;
        }
    }
    assert(out@ =~= goal);
}

/// Lays beats across every segment, each from its own downbeat at its own
/// tempo.
///
/// Beats are generated per segment rather than by resampling one global grid,
/// so a tempo change lands exactly on the segment boundary instead of drifting
/// through it. Two segments can each contribute a beat at their shared
/// boundary; one of them stays.
pub fn beats_from_segments(segments: &[TempoSegment], duration_sec: Binary64, offset_sec: Binary64) -> (r: Vec<Binary64>)
    ensures
        r@ == laid_beats(segments@, duration_sec, offset_sec),
{
    let mut all: Vec<Binary64> = Vec::new();
    let mut i: usize = 0;
    while i < segments.len()
        invariant
            i <= segments@.len(),
            all@ == all_beats(segments@, duration_sec, offset_sec, i as nat),
        decreases segments@.len() - i,
    {
        push_segment_beats(&mut all, segments[i], duration_sec, offset_sec);
        i = i + 1;
    }
    let sorted: Vec<Binary64> = sort_ascending(all.as_slice());
    let mut out: Vec<Binary64> = Vec::new();
    let mut k: usize = 0;
    while k < sorted.len()
        invariant
            k <= sorted@.len(),
            out@ == without_doubles(sorted@, k as nat),
        decreases sorted@.len() - k,
    {
        let count: usize = out.len();
        let near: bool = count > 0 && sorted[k].minus(out[count - 1]).abs().lt(micro());
        if !near {
            out.push(sorted[k]);
        }
        k = k + 1;
    }
    out
}

proof fn lemma_shifted_beats(t: Binary64, period: Binary64, limit: Binary64, offset: Binary64, duration: Binary64)
    ensures
        forall|i: int|
            0 <= i < shifted_beats(t, period, limit, offset, duration).len() ==> zero().spec_le(
                #[trigger] shifted_beats(t, period, limit, offset, duration)[i],
            ) && shifted_beats(t, period, limit, offset, duration)[i].spec_le(duration),
    decreases 0x8000_0000_0000_0000 - t.rank(),
{
    if t.spec_lt(limit) && t.spec_lt(sum(t, period)) {
        lemma_shifted_beats(sum(t, period), period, limit, offset, duration);
        let rest = shifted_beats(sum(t, period), period, limit, offset, duration);
        let now = shifted_beats(t, period, limit, offset, duration);
        let at = now.len() - rest.len();
        assert forall|i: int| 0 <= i < now.len() implies zero().spec_le(#[trigger] now[i]) && now[i].spec_le(duration) by {
            if i >= at {
                assert(now[i] == rest[i - at]);
            }
        }
    }
}

proof fn lemma_all_beats(segments: Seq<TempoSegment>, duration: Binary64, offset: Binary64, n: nat)
    requires
        n <= segments.len(),
    ensures
        forall|i: int|
            0 <= i < all_beats(segments, duration, offset, n).len() ==> zero().spec_le(
                #[trigger] all_beats(segments, duration, offset, n)[i],
            ) && all_beats(segments, duration, offset, n)[i].spec_le(duration),
    decreases n,
{
    if n > 0 {
        lemma_all_beats(segments, duration, offset, (n - 1) as nat);
        let segment = segments[n - 1];
        let period = segment.spec_beat_period();
        let steps = floored(quotient(difference(segment.start, segment.inizio), period));
        let wound = sum(segment.inizio, product(steps, period));
        let first = caught_up(wound, period, difference(segment.start, nano()));
        lemma_shifted_beats(first, period, difference(segment.end, nano()), offset, duration);
        let before = all_beats(segments, duration, offset, (n - 1) as nat);
        let now = all_beats(segments, duration, offset, n);
        assert forall|i: int| 0 <= i < now.len() implies zero().spec_le(#[trigger] now[i]) && now[i].spec_le(duration) by {
            if i < before.len() {
                assert(now[i] == before[i]);
            } else {
                assert(now[i] == segment_beats(segment, duration, offset)[i - before.len()]);
            }
        }
    }
}

proof fn lemma_without_doubles(times: Seq<Binary64>, n: nat)
    requires
        n <= times.len(),
        forall|i: int, j: int| 0 <= i < j < times.len() ==> (#[trigger] times[i]).rank() <= (#[trigger] times[j]).rank(),
    ensures
        ({
            let kept = without_doubles(times, n);
            &&& kept.len() <= n
            &&& n > 0 ==> kept.len() > 0
            &&& forall|i: int| 0 <= i < kept.len() ==> times.take(n as int).contains(#[trigger] kept[i])
            &&& forall|i: int, j: int|
                0 <= i < j < kept.len() ==> (#[trigger] kept[i]).rank() <= (#[trigger] kept[j]).rank()
            &&& forall|i: int|
                0 <= i < kept.len() - 1 ==> !absolute(difference(kept[i + 1], #[trigger] kept[i])).spec_lt(micro())
        }),
    decreases n,
{
    if n > 0 {
        let m = (n - 1) as nat;
        lemma_without_doubles(times, m);
        let before = without_doubles(times, m);
        let kept = without_doubles(times, n);
        assert(times.take(n as int)[n - 1] == times[n - 1]);
        assert forall|i: int| 0 <= i < kept.len() implies times.take(n as int).contains(#[trigger] kept[i]) by {
            if i < before.len() {
                assert(kept[i] == before[i]);
                assert(times.take(m as int).contains(before[i]));
                let k = times.take(m as int).index_of(before[i]);
                assert(times.take(n as int)[k] == before[i]);
            }
        }
        assert forall|i: int, j: int| 0 <= i < j < kept.len() implies (#[trigger] kept[i]).rank() <= (
        #[trigger] kept[j]).rank() by {
            assert(kept[i] == before[i]);
            if j < before.len() {
                assert(kept[j] == before[j]);
            } else {
                let k = times.take(m as int).index_of(before[i]);
                assert(times.take(m as int).contains(before[i]));
                assert(times[k] == before[i]);
                assert(times[k].rank() <= times[n - 1].rank());
            }
        }
        assert forall|i: int| 0 <= i < kept.len() - 1 implies !absolute(
            difference(kept[i + 1], #[trigger] kept[i]),
        ).spec_lt(micro()) by {
            assert(kept[i] == before[i]);
            if i + 1 < before.len() {
                assert(kept[i + 1] == before[i + 1]);
            }
        }
    }
}

/// Every beat lies inside the track, none comes before an earlier one, and no
/// two neighbours are less than a microsecond apart.
pub proof fn law_beats_lie_in_the_track(segments: Seq<TempoSegment>, duration: Binary64, offset: Binary64)
    requires
        all_beats(segments, duration, offset, segments.len()).len() <= usize::MAX,
    ensures
        ({
            let beats = laid_beats(segments, duration, offset);
            &&& forall|i: int| 0 <= i < beats.len() ==> zero().spec_le(#[trigger] beats[i]) && beats[i].spec_le(duration)
            &&& forall|i: int, j: int| 0 <= i < j < beats.len() ==> (#[trigger] beats[i]).spec_le(#[trigger] beats[j])
            &&& forall|i: int|
                0 <= i < beats.len() - 1 ==> !absolute(difference(beats[i + 1], #[trigger] beats[i])).spec_lt(micro())
        }),
{
    let all = all_beats(segments, duration, offset, segments.len());
    let sorted = ascending(all);
    lemma_all_beats(segments, duration, offset, segments.len());
    law_sorting_orders_the_numbers(all);
    lemma_without_doubles(sorted, all.len());
    let beats = laid_beats(segments, duration, offset);
    assert(sorted.take(all.len() as int) =~= sorted);
    assert forall|i: int| 0 <= i < beats.len() implies zero().spec_le(#[trigger] beats[i]) && beats[i].spec_le(
        duration,
    ) by {
        assert(sorted.contains(beats[i]));
        let k = sorted.index_of(beats[i]);
        assert(all.contains(sorted[k]));
        let m = all.index_of(sorted[k]);
        assert(all[m] == beats[i]);
    }
}

/// How much time the first `n` segments spend at a tempo.
pub open spec fn time_at_tempo(segments: Seq<TempoSegment>, bpm: Binary64, n: nat) -> Binary64
    decreases n,
{
    if n == 0 {
        zero()
    } else {
        let before = time_at_tempo(segments, bpm, (n - 1) as nat);
        if segments[n - 1].bpm.spec_same(bpm) {
            sum(before, segments[n - 1].spec_duration())
        } else {
            before
        }
    }
}

/// How much time a track spends at the tempo of segment `i`.
pub open spec fn tempo_cover(segments: Seq<TempoSegment>, i: int) -> Binary64 {
    time_at_tempo(segments, segments[i].bpm, segments.len())
}

/// The place of the last of the first `n` segments whose tempo covers the most
/// time.
pub open spec fn last_dominant(segments: Seq<TempoSegment>, n: int) -> int
    decreases n,
{
    if n <= 1 {
        0
    } else {
        let before = last_dominant(segments, n - 1);
        if tempo_cover(segments, n - 1).spec_lt(tempo_cover(segments, before)) {
            before
        } else {
            n - 1
        }
    }
}

/// How much time some segments spend at a tempo.
fn time_spent(segments: &[TempoSegment], bpm: Binary64) -> (r: Binary64)
    ensures
        r == time_at_tempo(segments@, bpm, segments@.len()),
{
    let mut total: Binary64 = zero();
    let mut i: usize = 0;
    while i < segments.len()
        invariant
            i <= segments@.len(),
            total == time_at_tempo(segments@, bpm, i as nat),
        decreases segments@.len() - i,
    {
        if segments[i].bpm.same(bpm) {
            total = total.plus(segments[i].duration());
        }
        i = i + 1;
    }
    total
}

/// The tempo that covers the most time, in one segment or in several.
///
/// A track that spends four minutes at 128 and ten seconds at 90 is a 128 BPM
/// track; an average would call it neither.
pub fn dominant_tempo(segments: &[TempoSegment]) -> (r: Option<Binary64>)
    ensures
        r == if segments@.len() == 0 {
            None::<Binary64>
        } else {
            Some(segments@[last_dominant(segments@, segments@.len() as int)].bpm)
        },
{
    if segments.len() == 0 {
        return None;
    }
    let mut best: usize = 0;
    let mut most: Binary64 = time_spent(segments, segments[0].bpm);
    let mut i: usize = 1;
    while i < segments.len()
        invariant
            1 <= i <= segments@.len(),
            best < i,
            best == last_dominant(segments@, i as int),
            most == tempo_cover(segments@, best as int),
        decreases segments@.len() - i,
    {
        let time: Binary64 = time_spent(segments, segments[i].bpm);
        if !time.lt(most) {
            best = i;
            most = time;
        }
        i = i + 1;
    }
    Some(segments[best].bpm)
}

/// No tempo covers more time than the one that is taken.
pub proof fn law_no_tempo_covers_more(segments: Seq<TempoSegment>, n: int, i: int)
    requires
        0 <= i < n <= segments.len(),
        forall|k: int| 0 <= k < segments.len() ==> !(#[trigger] tempo_cover(segments, k)).nan(),
    ensures
        0 <= last_dominant(segments, n) < n,
        tempo_cover(segments, i).spec_le(tempo_cover(segments, last_dominant(segments, n))),
    decreases n,
{
    if n > 1 {
        if i < n - 1 {
            law_no_tempo_covers_more(segments, n - 1, i);
        } else {
            law_no_tempo_covers_more(segments, n - 1, 0);
        }
        assert(!tempo_cover(segments, n - 1).nan());
        assert(!tempo_cover(segments, last_dominant(segments, n - 1)).nan());
    } else {
        assert(!tempo_cover(segments, 0).nan());
    }
}

/// How the tempo search is set up by a configuration.
pub open spec fn search_options(config: AnalysisConfig) -> TempoOptions {
    TempoOptions {
        bpm_min: of_int(config.lowest_bpm()),
        bpm_max: of_int(config.highest_bpm()),
        candidates: 10,
        integer_bias: Binary64 { bits: 0x3FC3_3333_3333_3333 },
    }
}

/// Sets the tempo search up.
pub fn tempo_options(config: &AnalysisConfig) -> (r: TempoOptions)
    ensures
        r == search_options(*config),
{
    let (bpm_min, bpm_max) = config.bpm_range();
    let usual: TempoOptions = TempoOptions::default();
    TempoOptions { bpm_min, bpm_max, candidates: usual.candidates, integer_bias: usual.integer_bias }
}

/// Sets the onset stage up: the usual options with the configured hop.
pub fn onset_options(config: &AnalysisConfig) -> (r: OnsetOptions)
    ensures
        r == (OnsetOptions {
            n_fft: 2048,
            hop: config.bpm_hop_length,
            n_mels: 64,
            fmin: Binary64 { bits: 0x403E_0000_0000_0000 },
            fmax: Binary64 { bits: 0x40C5_8880_0000_0000 },
        }),
{
    let usual: OnsetOptions = OnsetOptions::default();
    OnsetOptions { n_fft: usual.n_fft, hop: config.bpm_hop_length, n_mels: usual.n_mels, fmin: usual.fmin, fmax: usual.fmax }
}

/// The length of a tempo window in seconds.
pub open spec fn window_seconds(config: AnalysisConfig) -> Binary64 {
    quotient(of_int(config.bpm_win_length as int), of_int(1000))
}

/// The length of a tempo window in seconds.
pub fn tempo_window(config: &AnalysisConfig) -> (r: Binary64)
    ensures
        r == window_seconds(*config),
{
    Binary64::from_u64(config.bpm_win_length as u64).over(Binary64::from_u64(1000))
}

/// Finds the tempo segments of a track: one for the whole track, or one per
/// stretch where the tempo may change.
///
/// `whole` and `parts` are the autocorrelations of the whole envelope and of
/// each window of it.
pub fn plan_tempo(
    onsets: &OnsetEnvelope,
    config: &AnalysisConfig,
    duration_sec: Binary64,
    whole: &[Binary64],
    parts: &Vec<Vec<Binary64>>,
) -> (r: Result<Vec<TempoSegment>, AnalysisError>)
    requires
        whole@.len() == onsets.strength@.len(),
        config.bpm_dynamic ==> {
            let frames = frames_in_window(window_seconds(*config), onsets.step());
            &&& parts@.len() == windows_left(onsets.strength@.len() as int, frames as int, 0)
            &&& forall|k: int| 0 <= k < parts@.len() ==> (#[trigger] parts@[k])@.len() == frames
        },
    ensures
        ({
            let options = search_options(*config);
            let want = if config.bpm_dynamic {
                tempo_plan(onsets@, options, window_seconds(*config), duration_sec, whole@, rows_of(parts@))
            } else {
                whole_track(tempo_of(onsets@, options, whole@), duration_sec)
            };
            match r {
                Ok(segments) => want == Ok::<Seq<TempoSegment>, AnalysisError>(segments@),
                Err(fault) => want == Err::<Seq<TempoSegment>, AnalysisError>(fault),
            }
        }),
{
    let options: TempoOptions = tempo_options(config);
    if config.bpm_dynamic {
        estimate_segments(onsets, &options, tempo_window(config), duration_sec, whole, parts)
    } else {
        match estimate(onsets, &options, whole) {
            Err(fault) => Err(fault),
            Ok(found) => {
                let mut out: Vec<TempoSegment> = Vec::new();
                out.push(TempoSegment::new(zero(), duration_sec, found.bpm, found.phase_sec, 4));
                assert(out@ =~= seq![out@[0]]);
                Ok(out)
            },
        }
    }
}

/// How strongly the onsets agree with the tempo of the whole track, if one was
/// found.
pub fn tempo_confidence(onsets: &OnsetEnvelope, config: &AnalysisConfig, whole: &[Binary64]) -> (r: Option<Binary64>)
    requires
        whole@.len() == onsets.strength@.len(),
    ensures
        r == match tempo_of(onsets@, search_options(*config), whole@) {
            Ok(found) => Some(found.confidence),
            Err(_) => None,
        },
{
    let found: Result<TempoEstimate, AnalysisError> = estimate(onsets, &tempo_options(config), whole);
    match found {
        Ok(e) => Some(e.confidence),
        Err(_) => None,
    }
}

/// What the key stage found.
#[derive(Debug)]
pub struct KeyFindings {
    pub segments: Vec<KeySegment>,
    pub overall: Option<Key>,
}

/// Puts the findings of the stages together.
///
/// The representative tempo is the one covering the most time.
pub fn assemble(
    duration_sec: Binary64,
    sample_rate: u32,
    beatgrid: Beatgrid,
    beat_confidence: Option<Binary64>,
    keys: KeyFindings,
    envelopes: Envelopes,
    jump_cues: JumpCueGraph,
) -> (r: Analysis)
    ensures
        r.duration_sec == duration_sec,
        r.analysis_sample_rate == sample_rate,
        r.beatgrid == beatgrid,
        r.tempo_global == if beatgrid.tempo().len() == 0 {
            zero()
        } else {
            beatgrid.tempo()[last_dominant(beatgrid.tempo(), beatgrid.tempo().len() as int)].bpm
        },
        r.key_segments == keys.segments,
        r.overall_key == keys.overall,
        r.envelopes == envelopes,
        r.beat_confidence == match beat_confidence {
            Some(value) => value,
            None => zero(),
        },
        r.jump_cues == jump_cues,
        r.phrases@.len() == 0,
        r.cue_points@.len() == 0,
{
    let tempo_global: Binary64 = match dominant_tempo(beatgrid.segments()) {
        Some(bpm) => bpm,
        None => zero(),
    };
    Analysis {
        duration_sec,
        analysis_sample_rate: sample_rate,
        beatgrid,
        tempo_global,
        key_segments: keys.segments,
        overall_key: keys.overall,
        envelopes,
        beat_confidence: match beat_confidence {
            Some(value) => value,
            None => zero(),
        },
        jump_cues,
        phrases: Vec::new(),
        cue_points: Vec::new(),
    }
}

/// The beatgrid of a track with some tempo segments.
pub fn grid_of(segments: Vec<TempoSegment>, duration_sec: Binary64, offset_sec: Binary64) -> (r: Beatgrid)
    ensures
        r.tempo() == segments@,
        r.times() == ascending(
            finite_ones(
                laid_beats(segments@, duration_sec, offset_sec),
                laid_beats(segments@, duration_sec, offset_sec).len(),
            ),
        ),
{
    let beats: Vec<Binary64> = beats_from_segments(segments.as_slice(), duration_sec, offset_sec);
    Beatgrid::new(beats, segments)
}

/// The unshifted times of the beats of a walk.
proof fn lemma_walk_steps(
    t: Binary64,
    period: Binary64,
    limit: Binary64,
    offset: Binary64,
    duration: Binary64,
) -> (steps: Seq<Binary64>)
    requires
        t.spec_lt(limit),
    ensures
        steps.len() > 0,
        steps[0] == t,
        forall|k: int| 0 <= k < steps.len() ==> (#[trigger] steps[k]).spec_lt(limit),
        forall|j: int, k: int|
            0 <= j < k < steps.len() && k == j + 1 ==> #[trigger] steps[k] == sum(#[trigger] steps[j], period),
        !sum(steps.last(), period).spec_lt(limit) || !steps.last().spec_lt(sum(steps.last(), period)),
        forall|k: int|
            0 <= k < steps.len() && zero().spec_le(sum(steps[k], offset)) && sum(steps[k], offset).spec_le(duration)
                ==> shifted_beats(t, period, limit, offset, duration).contains(sum(#[trigger] steps[k], offset)),
        forall|i: int|
            0 <= i < shifted_beats(t, period, limit, offset, duration).len() ==> exists|k: int|
                0 <= k < steps.len() && #[trigger] shifted_beats(t, period, limit, offset, duration)[i] == sum(
                    #[trigger] steps[k],
                    offset,
                ),
    decreases 0x8000_0000_0000_0000 - t.rank(),
{
    let now = shifted_beats(t, period, limit, offset, duration);
    let next = sum(t, period);
    if t.spec_lt(next) && next.spec_lt(limit) {
        let rest_steps = lemma_walk_steps(next, period, limit, offset, duration);
        let rest = shifted_beats(next, period, limit, offset, duration);
        let steps = seq![t] + rest_steps;
        let first = now.len() - rest.len();
        assert forall|k: int| 0 <= k < steps.len() implies (#[trigger] steps[k]).spec_lt(limit) by {
            if k > 0 {
                assert(steps[k] == rest_steps[k - 1]);
            }
        }
        assert forall|j: int, k: int| 0 <= j < k < steps.len() && k == j + 1 implies #[trigger] steps[k] == sum(
            #[trigger] steps[j],
            period,
        ) by {
            assert(steps[k] == rest_steps[k - 1]);
            if j > 0 {
                assert(steps[j] == rest_steps[j - 1]);
            }
        }
        assert(steps.last() == rest_steps.last());
        assert forall|k: int|
            0 <= k < steps.len() && zero().spec_le(sum(steps[k], offset)) && sum(steps[k], offset).spec_le(
                duration,
            ) implies now.contains(sum(#[trigger] steps[k], offset)) by {
            if k == 0 {
                assert(now[0] == sum(t, offset));
            } else {
                assert(steps[k] == rest_steps[k - 1]);
                assert(rest.contains(sum(rest_steps[k - 1], offset)));
                let i = rest.index_of(sum(rest_steps[k - 1], offset));
                assert(now[first + i] == rest[i]);
            }
        }
        assert forall|i: int| 0 <= i < now.len() implies exists|k: int|
            0 <= k < steps.len() && #[trigger] now[i] == sum(#[trigger] steps[k], offset) by {
            if i < first {
                assert(now[i] == sum(steps[0], offset));
            } else {
                assert(now[i] == rest[i - first]);
                let k = choose|k: int| 0 <= k < rest_steps.len() && rest[i - first] == sum(#[trigger] rest_steps[k], offset);
                assert(steps[k + 1] == rest_steps[k]);
            }
        }
        steps
    } else {
        let steps = seq![t];
        assert(steps[0] == t);
        if t.spec_lt(next) {
            assert(shifted_beats(next, period, limit, offset, duration) =~= seq![]);
        }
        assert forall|k: int|
            0 <= k < steps.len() && zero().spec_le(sum(steps[k], offset)) && sum(steps[k], offset).spec_le(
                duration,
            ) implies now.contains(sum(#[trigger] steps[k], offset)) by {
            assert(now[0] == sum(t, offset));
        }
        assert forall|i: int| 0 <= i < now.len() implies exists|k: int|
            0 <= k < steps.len() && #[trigger] now[i] == sum(#[trigger] steps[k], offset) by {
            assert(now[i] == sum(steps[0], offset));
        }
        steps
    }
}

proof fn lemma_caught_up(t: Binary64, period: Binary64, limit: Binary64)
    ensures
        !caught_up(t, period, limit).spec_lt(limit) || !caught_up(t, period, limit).spec_lt(
            sum(caught_up(t, period, limit), period),
        ),
    decreases 0x8000_0000_0000_0000 - t.rank(),
{
    if t.spec_lt(limit) && t.spec_lt(sum(t, period)) {
        lemma_caught_up(sum(t, period), period, limit);
    }
}

/// The beats of a segment go at its tempo: they stand on steps that are sixty
/// seconds over the tempo apart, from the start of the segment to its end, each
/// moved by the offset. Every step that is moved inside the track has a beat,
/// and no beat stands elsewhere.
pub proof fn law_beats_go_at_the_tempo(segment: TempoSegment, duration: Binary64, offset: Binary64) -> (steps: Seq<
    Binary64,
>)
    ensures
        ({
            let beats = segment_beats(segment, duration, offset);
            let period = quotient(of_int(60), segment.bpm);
            &&& !period.finite() || period.spec_le(zero()) ==> beats.len() == 0
            &&& forall|j: int, k: int|
                0 <= j < k < steps.len() && k == j + 1 ==> #[trigger] steps[k] == sum(#[trigger] steps[j], period)
            &&& steps.len() > 0 ==> !steps[0].spec_lt(difference(segment.start, nano())) || !steps[0].spec_lt(
                sum(steps[0], period),
            )
            &&& forall|k: int|
                0 <= k < steps.len() ==> (#[trigger] steps[k]).spec_lt(difference(segment.end, nano()))
            &&& steps.len() > 0 ==> !sum(steps.last(), period).spec_lt(difference(segment.end, nano()))
                || !steps.last().spec_lt(sum(steps.last(), period))
            &&& forall|k: int|
                0 <= k < steps.len() && zero().spec_le(sum(steps[k], offset)) && sum(steps[k], offset).spec_le(duration)
                    ==> beats.contains(sum(#[trigger] steps[k], offset))
            &&& forall|i: int|
                0 <= i < beats.len() ==> exists|k: int|
                    0 <= k < steps.len() && #[trigger] beats[i] == sum(#[trigger] steps[k], offset)
        }),
{
    let period = segment.spec_beat_period();
    let wound = sum(
        segment.inizio,
        product(floored(quotient(difference(segment.start, segment.inizio), period)), period),
    );
    let limit = difference(segment.end, nano());
    let first = caught_up(wound, period, difference(segment.start, nano()));
    lemma_caught_up(wound, period, difference(segment.start, nano()));
    if !period.finite() || period.spec_le(zero()) || !first.spec_lt(limit) {
        seq![]
    } else {
        lemma_walk_steps(first, period, limit, offset, duration)
    }
}

proof fn lemma_beat_of_a_segment(segments: Seq<TempoSegment>, duration: Binary64, offset: Binary64, n: nat, i: int) -> (s:
    int)
    requires
        n <= segments.len(),
        0 <= i < all_beats(segments, duration, offset, n).len(),
    ensures
        0 <= s < n,
        segment_beats(segments[s], duration, offset).contains(all_beats(segments, duration, offset, n)[i]),
    decreases n,
{
    let before = all_beats(segments, duration, offset, (n - 1) as nat);
    if i < before.len() {
        lemma_beat_of_a_segment(segments, duration, offset, (n - 1) as nat, i)
    } else {
        let here = segment_beats(segments[n - 1], duration, offset);
        assert(here[i - before.len()] == all_beats(segments, duration, offset, n)[i]);
        n - 1
    }
}

proof fn lemma_segment_beat_is_there(
    segments: Seq<TempoSegment>,
    duration: Binary64,
    offset: Binary64,
    n: nat,
    s: int,
    k: int,
) -> (i: int)
    requires
        0 <= s < n <= segments.len(),
        0 <= k < segment_beats(segments[s], duration, offset).len(),
    ensures
        0 <= i < all_beats(segments, duration, offset, n).len(),
        all_beats(segments, duration, offset, n)[i] == segment_beats(segments[s], duration, offset)[k],
    decreases n,
{
    let before = all_beats(segments, duration, offset, (n - 1) as nat);
    if s < n - 1 {
        lemma_segment_beat_is_there(segments, duration, offset, (n - 1) as nat, s, k)
    } else {
        before.len() + k
    }
}

/// The time kept for one of the first `n` times.
proof fn lemma_double_is_near(times: Seq<Binary64>, n: nat, k: int) -> (i: int)
    requires
        0 <= k < n <= times.len(),
    ensures
        0 <= i < without_doubles(times, n).len(),
        without_doubles(times, n)[i] == times[k] || absolute(
            difference(times[k], without_doubles(times, n)[i]),
        ).spec_lt(micro()),
    decreases n,
{
    let before = without_doubles(times, (n - 1) as nat);
    let now = without_doubles(times, n);
    if k < n - 1 {
        let i = lemma_double_is_near(times, (n - 1) as nat, k);
        assert(now[i] == before[i]);
        i
    } else {
        now.len() - 1
    }
}

/// The beats of a track are those of its segments and no others, but that one
/// less than a microsecond from another can be left out.
pub proof fn law_the_beats_are_those_of_the_segments(segments: Seq<TempoSegment>, duration: Binary64, offset: Binary64)
    requires
        all_beats(segments, duration, offset, segments.len()).len() <= usize::MAX,
    ensures
        forall|i: int|
            0 <= i < laid_beats(segments, duration, offset).len() ==> exists|s: int|
                0 <= s < segments.len() && segment_beats(#[trigger] segments[s], duration, offset).contains(
                    #[trigger] laid_beats(segments, duration, offset)[i],
                ),
        forall|s: int, k: int|
            0 <= s < segments.len() && 0 <= k < segment_beats(segments[s], duration, offset).len() ==> exists|i: int|
                0 <= i < laid_beats(segments, duration, offset).len() && (laid_beats(segments, duration, offset)[i]
                    == #[trigger] segment_beats(segments[s], duration, offset)[k] || absolute(
                    difference(
                        segment_beats(segments[s], duration, offset)[k],
                        #[trigger] laid_beats(segments, duration, offset)[i],
                    ),
                ).spec_lt(micro())),
{
    let all = all_beats(segments, duration, offset, segments.len());
    let sorted = ascending(all);
    law_sorting_orders_the_numbers(all);
    lemma_without_doubles(sorted, all.len());
    let beats = laid_beats(segments, duration, offset);
    assert(sorted.take(all.len() as int) =~= sorted);
    assert forall|i: int| 0 <= i < beats.len() implies exists|s: int|
        0 <= s < segments.len() && segment_beats(#[trigger] segments[s], duration, offset).contains(
            #[trigger] beats[i],
        ) by {
        assert(sorted.contains(beats[i]));
        let k = sorted.index_of(beats[i]);
        assert(all.contains(sorted[k]));
        let m = all.index_of(sorted[k]);
        let s = lemma_beat_of_a_segment(segments, duration, offset, segments.len(), m);
        assert(segment_beats(segments[s], duration, offset).contains(beats[i]));
    }
    assert forall|s: int, k: int|
        0 <= s < segments.len() && 0 <= k < segment_beats(segments[s], duration, offset).len() implies exists|i: int|
        0 <= i < beats.len() && (beats[i] == #[trigger] segment_beats(segments[s], duration, offset)[k] || absolute(
            difference(segment_beats(segments[s], duration, offset)[k], #[trigger] beats[i]),
        ).spec_lt(micro())) by {
        let m = lemma_segment_beat_is_there(segments, duration, offset, segments.len(), s, k);
        assert(sorted.contains(all[m]));
        let p = sorted.index_of(all[m]);
        let i = lemma_double_is_near(sorted, all.len(), p);
        assert(beats[i] == all[m] || absolute(difference(all[m], beats[i])).spec_lt(micro()));
    }
}

/// The steps by which a time is caught up.
proof fn lemma_catching_up(t: Binary64, period: Binary64, limit: Binary64) -> (chain: Seq<Binary64>)
    ensures
        chain.len() > 0,
        chain[0] == t,
        chain.last() == caught_up(t, period, limit),
        forall|j: int, k: int|
            0 <= j < k < chain.len() && k == j + 1 ==> #[trigger] chain[k] == sum(#[trigger] chain[j], period),
    decreases 0x8000_0000_0000_0000 - t.rank(),
{
    if t.spec_lt(limit) && t.spec_lt(sum(t, period)) {
        let rest = lemma_catching_up(sum(t, period), period, limit);
        let chain = seq![t] + rest;
        assert forall|j: int, k: int| 0 <= j < k < chain.len() && k == j + 1 implies #[trigger] chain[k] == sum(
            #[trigger] chain[j],
            period,
        ) by {
            assert(chain[k] == rest[k - 1]);
            if j > 0 {
                assert(chain[j] == rest[j - 1]);
            }
        }
        assert(chain.last() == rest.last());
        chain
    } else {
        seq![t]
    }
}

/// The beats of a segment are counted from its downbeat: they stand on steps of
/// one beat each that begin a whole number of beats away from it.
pub proof fn law_beats_are_counted_from_the_downbeat(segment: TempoSegment, duration: Binary64, offset: Binary64) -> (r: (
    Binary64,
    Seq<Binary64>,
))
    ensures
        ({
            let beats = segment_beats(segment, duration, offset);
            let period = quotient(of_int(60), segment.bpm);
            let steps = r.1;
            &&& steps.len() > 0
            &&& steps[0] == sum(segment.inizio, product(floored(r.0), period))
            &&& forall|j: int, k: int|
                0 <= j < k < steps.len() && k == j + 1 ==> #[trigger] steps[k] == sum(#[trigger] steps[j], period)
            &&& forall|i: int|
                0 <= i < beats.len() ==> exists|k: int|
                    0 <= k < steps.len() && #[trigger] beats[i] == sum(#[trigger] steps[k], offset)
        }),
{
    let period = segment.spec_beat_period();
    let q = quotient(difference(segment.start, segment.inizio), period);
    let wound = sum(segment.inizio, product(floored(q), period));
    let limit = difference(segment.end, nano());
    let front = lemma_catching_up(wound, period, difference(segment.start, nano()));
    let first = caught_up(wound, period, difference(segment.start, nano()));
    if !period.finite() || period.spec_le(zero()) || !first.spec_lt(limit) {
        (q, front)
    } else {
        let steps = lemma_walk_steps(first, period, limit, offset, duration);
        let chain = front.drop_last() + steps;
        let m = front.len() - 1;
        assert(steps[0] == first);
        assert forall|j: int, k: int| 0 <= j < k < chain.len() && k == j + 1 implies #[trigger] chain[k] == sum(
            #[trigger] chain[j],
            period,
        ) by {
            if k < m {
                assert(chain[k] == front[k] && chain[j] == front[j]);
            } else if k == m {
                assert(chain[k] == front[m] && chain[j] == front[j]);
            } else {
                assert(chain[k] == steps[k - m] && chain[j] == steps[j - m]);
            }
        }
        let beats = segment_beats(segment, duration, offset);
        assert forall|i: int| 0 <= i < beats.len() implies exists|k: int|
            0 <= k < chain.len() && #[trigger] beats[i] == sum(#[trigger] chain[k], offset) by {
            let k = choose|k: int| 0 <= k < steps.len() && beats[i] == sum(#[trigger] steps[k], offset);
            assert(chain[m + k] == steps[k]);
        }
        assert(chain[0] == front[0]);
        (q, chain)
    }
}

/// The time at a tempo grows by what a further segment of that tempo lasts, and
/// by no segment of another.
pub proof fn law_time_counts_for_its_own_tempo(segments: Seq<TempoSegment>, extra: TempoSegment, bpm: Binary64)
    ensures
        extra.bpm.spec_same(bpm) ==> time_at_tempo(segments.push(extra), bpm, segments.len() + 1) == sum(
            time_at_tempo(segments, bpm, segments.len()),
            larger(difference(extra.end, extra.start), zero()),
        ),
        !extra.bpm.spec_same(bpm) ==> time_at_tempo(segments.push(extra), bpm, segments.len() + 1) == time_at_tempo(
            segments,
            bpm,
            segments.len(),
        ),
{
    lemma_same_time(segments, segments.push(extra), bpm, segments.len());
}

proof fn lemma_same_time(a: Seq<TempoSegment>, b: Seq<TempoSegment>, bpm: Binary64, n: nat)
    requires
        n <= a.len(),
        n <= b.len(),
        forall|i: int| 0 <= i < n ==> #[trigger] a[i] == b[i],
    ensures
        time_at_tempo(a, bpm, n) == time_at_tempo(b, bpm, n),
    decreases n,
{
    if n > 0 {
        lemma_same_time(a, b, bpm, (n - 1) as nat);
        assert(a[n - 1] == b[n - 1]);
    }
}

} // verus!
