//! Tempo and beat-phase estimation from the onset envelope.
//!
//! The autocorrelation of the envelope gives candidate beat periods, a fine
//! sweep refines them, and a phase search decides where the beats fall.

use crate::analyze::error::AnalysisError;
use crate::analyze::onset::{delay_of, energetic, standardized, OnsetEnvelope, Onsets};
use crate::analyze::repeats::last_highest;
use crate::number::lists::{rows_of, highest, highest_of, total, total_of};
use crate::domain::beatgrid::{lemma_walk, walk};
use crate::domain::segments::{tempo_segment, TempoSegment};
use crate::number::binary64::{
    absolute, clamped, difference, half, larger, minus_infinity, nano, negated, of_int, one, pico, product, quotient,
    smaller, sum, zero, Binary64,
};
use crate::number::integral::{ceiled, floored, nearest_integer, truncated};
use crate::number::sorting::{ascending, sort_ascending};
use crate::order::{arranged, in_order, law_order_is_stable, stable_order, visits_each_once};
use vstd::prelude::*;

verus! {

/// A tempo estimate together with where its beats land.
#[derive(Debug, Clone, Copy, PartialEq, Structural)]
pub struct TempoEstimate {
    pub bpm: Binary64,
    /// Time of the first beat, in seconds.
    pub phase_sec: Binary64,
    /// How strongly the onset envelope agrees with this grid, `0..=1`.
    pub confidence: Binary64,
}

/// The seconds between the beats of a tempo.
pub open spec fn period_of(bpm: Binary64) -> Binary64 {
    quotient(of_int(60), bpm)
}

/// The beats of a grid from zero to the end of a track.
pub open spec fn grid_beats(estimate: TempoEstimate, duration_sec: Binary64) -> Seq<Binary64> {
    let period = period_of(estimate.bpm);
    if !period.finite() || period.spec_le(zero()) || duration_sec.spec_le(zero()) {
        seq![]
    } else {
        let back = product(floored(quotient(estimate.phase_sec, period)), period);
        walk(difference(estimate.phase_sec, back), period, sum(duration_sec, nano()))
    }
}

/// The times from `from` up to `limit` in steps of `step`; the walk ends where
/// a step does not lead on any more.
fn walk_times(from: Binary64, step: Binary64, limit: Binary64) -> (r: Vec<Binary64>)
    ensures
        r@ == walk(from, step, limit),
{
    let ghost goal = walk(from, step, limit);
    let mut out: Vec<Binary64> = Vec::new();
    let mut t: Binary64 = from;
    let mut going: bool = true;
    assert(out@ + goal =~= goal);
    while going && t.le(limit)
        invariant
            going ==> out@ + walk(t, step, limit) == goal,
            !going ==> out@ == goal,
        decreases 0x8000_0000_0000_0000 - t.rank() + (if going {
            1int
        } else {
            0int
        }),
    {
        let next: Binary64 = t.plus(step);
        let ghost earlier = out@;
        out.push(t);
        if t.lt(next) {
            assert(earlier + (seq![t] + walk(next, step, limit)) =~= out@ + walk(next, step, limit));
            t = next;
        } else {
            assert(earlier + seq![t] =~= out@);
            going = false;
        }
    }
    assert(out@ =~= goal);
    out
}

impl TempoEstimate {
    /// Seconds between consecutive beats.
    pub fn beat_period(&self) -> (r: Binary64)
        ensures
            r == period_of(self.bpm),
    {
        Binary64::from_u64(60).over(self.bpm)
    }

    /// Beat times covering `[0, duration_sec]`.
    ///
    /// The phase is wound back to the first beat at or after zero, so a phase
    /// found in the middle of the track still describes the whole grid.
    pub fn beats(&self, duration_sec: Binary64) -> (r: Vec<Binary64>)
        ensures
            r@ == grid_beats(*self, duration_sec),
    {
        let period: Binary64 = self.beat_period();
        if !period.is_finite() || period.le(zero()) || duration_sec.le(zero()) {
            return Vec::new();
        }
        let back: Binary64 = self.phase_sec.over(period).floor().times(period);
        walk_times(self.phase_sec.minus(back), period, duration_sec.plus(nano()))
    }
}

/// Knobs for the tempo search.
#[derive(Debug, Clone, Copy, PartialEq, Structural)]
pub struct TempoOptions {
    /// Lowest tempo to consider.
    pub bpm_min: Binary64,
    /// Highest tempo to consider.
    pub bpm_max: Binary64,
    /// How many autocorrelation peaks to refine.
    pub candidates: usize,
    /// Strength of the pull towards whole-number tempos, `0..1`.
    pub integer_bias: Binary64,
}

impl Default for TempoOptions {
    fn default() -> (r: Self)
        ensures
            r == (TempoOptions {
                bpm_min: Binary64 { bits: 0x405B_8000_0000_0000 },
                bpm_max: Binary64 { bits: 0x406B_8000_0000_0000 },
                candidates: 10,
                integer_bias: Binary64 { bits: 0x3FC3_3333_3333_3333 },
            }),
    {
        TempoOptions {
            bpm_min: Binary64 { bits: 0x405B_8000_0000_0000 },
            bpm_max: Binary64 { bits: 0x406B_8000_0000_0000 },
            candidates: 10,
            integer_bias: Binary64 { bits: 0x3FC3_3333_3333_3333 },
        }
    }
}

/// The lowest tempo of a search.
pub open spec fn lowest_tempo(options: TempoOptions) -> Binary64 {
    larger(smaller(options.bpm_min, options.bpm_max), of_int(20))
}

/// The highest tempo of a search.
pub open spec fn highest_tempo(options: TempoOptions) -> Binary64 {
    larger(
        smaller(larger(options.bpm_max, options.bpm_min), of_int(400)),
        sum(lowest_tempo(options), one()),
    )
}

impl TempoOptions {
    /// The range, ordered and never degenerate.
    pub fn range(&self) -> (r: (Binary64, Binary64))
        ensures
            r == (lowest_tempo(*self), highest_tempo(*self)),
    {
        let lo: Binary64 = self.bpm_min.min(self.bpm_max).max(Binary64::from_u64(20));
        let hi: Binary64 = self.bpm_max.max(self.bpm_min).min(Binary64::from_u64(400));
        (lo, hi.max(lo.plus(one())))
    }
}

/// How far from a whole number a tempo may sit and still count as round: 0.1.
#[verifier::allow_in_spec]
pub fn integer_tolerance() -> Binary64
    returns
        (Binary64 { bits: 0x3FB9_9999_9999_999A }),
{
    Binary64 { bits: 0x3FB9_9999_9999_999A }
}

/// Whether a tempo is close to a whole number.
pub open spec fn near_integer(bpm: Binary64) -> bool {
    absolute(difference(bpm, nearest_integer(bpm))).spec_le(integer_tolerance())
}

/// Whether `bpm` is close enough to a whole number to escape the penalty, on
/// either side of it.
pub fn is_near_integer_tempo(bpm: Binary64) -> (r: bool)
    ensures
        r == near_integer(bpm),
{
    bpm.minus(bpm.round()).abs().le(integer_tolerance())
}

/// The frames in a beat of a tempo.
pub open spec fn beat_frames(bpm: Binary64, frame_dur: Binary64) -> Binary64 {
    quotient(period_of(bpm), frame_dur)
}

/// Whether a beat is long enough to be folded onto.
pub open spec fn foldable(period_frames: Binary64) -> bool {
    period_frames.finite() && !period_frames.spec_lt(of_int(2))
}

/// The phase buckets of a beat.
pub open spec fn bucket_count(period_frames: Binary64) -> nat {
    truncated(larger(nearest_integer(period_frames), of_int(2)), usize::MAX as nat)
}

/// The phase bucket that a frame falls into.
pub open spec fn bucket(index: int, period_frames: Binary64, bins: nat) -> int {
    let turns = quotient(of_int(index), period_frames);
    let at = truncated(product(difference(turns, floored(turns)), of_int(bins as int)), usize::MAX as nat);
    if at < bins - 1 {
        at as int
    } else {
        bins - 1
    }
}

/// The first `n` values folded onto one beat, summed into phase buckets.
pub open spec fn folded(signal: Seq<Binary64>, period_frames: Binary64, bins: nat, n: nat) -> Seq<Binary64>
    decreases n,
{
    if n == 0 {
        Seq::new(bins, |i: int| zero())
    } else {
        let before = folded(signal, period_frames, bins, (n - 1) as nat);
        let at = bucket(n - 1, period_frames, bins);
        before.update(at, sum(before[at], signal[n - 1]))
    }
}

/// The number of phase buckets for a beat, at least two.
fn count_buckets(period_frames: Binary64) -> (r: usize)
    ensures
        r == bucket_count(period_frames),
        r >= 2,
{
    proof {
        lemma_two_buckets(period_frames);
    }
    period_frames.round().max(Binary64::from_u64(2)).truncate(usize::MAX as u64) as usize
}

proof fn lemma_two_buckets(period_frames: Binary64)
    ensures
        bucket_count(period_frames) >= 2,
{
    let two = of_int(2);
    let a = larger(nearest_integer(period_frames), two);
    crate::number::laws::law_small_integers_are_exact(2);
    crate::number::laws::law_small_integers_come_back(2, usize::MAX as nat);
    assert(!a.nan() && two.spec_le(a));
    crate::number::laws::law_cutting_reaches_bounds(a, 2, usize::MAX as nat);
}

/// Folds the signal onto one beat period, summing into `bins` phase buckets.
pub fn phase_histogram(signal: &[Binary64], period_frames: Binary64, bins: usize) -> (r: Vec<Binary64>)
    requires
        bins > 0,
    ensures
        r@ == folded(signal@, period_frames, bins as nat, signal@.len()),
        r@.len() == bins,
{
    let mut out: Vec<Binary64> = Vec::new();
    let mut k: usize = 0;
    while k < bins
        invariant
            k <= bins,
            out@ == Seq::new(k as nat, |i: int| zero()),
        decreases bins - k,
    {
        out.push(zero());
        k = k + 1;
        assert(out@ =~= Seq::new(k as nat, |i: int| zero()));
    }
    let mut i: usize = 0;
    while i < signal.len()
        invariant
            i <= signal@.len(),
            bins > 0,
            out@.len() == bins,
            out@ == folded(signal@, period_frames, bins as nat, i as nat),
        decreases signal@.len() - i,
    {
        let turns: Binary64 = Binary64::from_u64(i as u64).over(period_frames);
        let phase: Binary64 = turns.minus(turns.floor());
        let at: usize = phase.times(Binary64::from_u64(bins as u64)).truncate(usize::MAX as u64) as usize;
        let slot: usize = if at < bins - 1 {
            at
        } else {
            bins - 1
        };
        let value: Binary64 = out[slot].plus(signal[i]);
        out.set(slot, value);
        i = i + 1;
    }
    out
}

/// How peaked a signal looks when folded onto one beat of a tempo.
pub open spec fn peakedness(signal: Seq<Binary64>, frame_dur: Binary64, bpm: Binary64, bias: Binary64) -> Binary64 {
    let period = beat_frames(bpm, frame_dur);
    let bins = bucket_count(period);
    let sorted = ascending(folded(signal, period, bins, signal.len()));
    let score = difference(sorted[bins - 1], sorted[bins as int / 2]);
    if !foldable(period) {
        minus_infinity()
    } else if zero().spec_lt(bias) && !near_integer(bpm) {
        product(score, difference(one(), clamped(bias, zero(), one())))
    } else {
        score
    }
}

/// How peaked the envelope looks when folded onto one beat period.
///
/// A correct tempo concentrates the onsets into one place in the fold; a wrong
/// one smears them out.
pub fn fold_score(signal: &[Binary64], frame_dur: Binary64, bpm: Binary64, integer_bias: Binary64) -> (r: Binary64)
    ensures
        r == peakedness(signal@, frame_dur, bpm, integer_bias),
{
    let period: Binary64 = Binary64::from_u64(60).over(bpm).over(frame_dur);
    if !period.is_finite() || period.lt(Binary64::from_u64(2)) {
        return minus_infinity();
    }
    let bins: usize = count_buckets(period);
    let histogram: Vec<Binary64> = phase_histogram(signal, period, bins);
    let sorted: Vec<Binary64> = sort_ascending(histogram.as_slice());
    let score: Binary64 = sorted[bins - 1].minus(sorted[bins / 2]);
    if zero().lt(integer_bias) && !is_near_integer_tempo(bpm) {
        score.times(one().minus(integer_bias.clamp(zero(), one())))
    } else {
        score
    }
}

/// The best tempo so far and its score.
pub struct Best {
    pub bpm: Binary64,
    pub score: Binary64,
}

/// The best tempo after the first `n` steps of a sweep about `center`.
pub open spec fn swept(
    signal: Seq<Binary64>,
    frame_dur: Binary64,
    options: TempoOptions,
    center: Binary64,
    span: Binary64,
    step: Binary64,
    start: Best,
    n: nat,
) -> Best
    decreases n,
{
    if n == 0 {
        start
    } else {
        let before = swept(signal, frame_dur, options, center, span, step, start, (n - 1) as nat);
        let bpm = sum(difference(center, span), product(step, of_int(n - 1)));
        let score = peakedness(signal, frame_dur, bpm, options.integer_bias);
        if bpm.spec_lt(lowest_tempo(options)) || highest_tempo(options).spec_lt(bpm) || !before.score.spec_lt(score) {
            before
        } else {
            Best { bpm, score }
        }
    }
}

/// The first sweep: 5 BPM either way in steps of 0.05.
#[verifier::allow_in_spec]
pub fn coarse_sweep() -> (Binary64, Binary64, u64)
    returns
        ((Binary64 { bits: 0x4014_0000_0000_0000 }, Binary64 { bits: 0x3FA9_9999_9999_999A }, 201u64)),
{
    (Binary64 { bits: 0x4014_0000_0000_0000 }, Binary64 { bits: 0x3FA9_9999_9999_999A }, 201u64)
}

/// The second sweep: 0.1 BPM either way in steps of 0.01.
#[verifier::allow_in_spec]
pub fn middle_sweep() -> (Binary64, Binary64, u64)
    returns
        ((Binary64 { bits: 0x3FB9_9999_9999_999A }, Binary64 { bits: 0x3F84_7AE1_47AE_147B }, 21u64)),
{
    (Binary64 { bits: 0x3FB9_9999_9999_999A }, Binary64 { bits: 0x3F84_7AE1_47AE_147B }, 21u64)
}

/// The third sweep: 0.02 BPM either way in steps of 0.001.
#[verifier::allow_in_spec]
pub fn fine_sweep() -> (Binary64, Binary64, u64)
    returns
        ((Binary64 { bits: 0x3F94_7AE1_47AE_147B }, Binary64 { bits: 0x3F50_624D_D2F1_A9FC }, 41u64)),
{
    (Binary64 { bits: 0x3F94_7AE1_47AE_147B }, Binary64 { bits: 0x3F50_624D_D2F1_A9FC }, 41u64)
}

/// The best tempo after a sweep about the one so far.
pub open spec fn after_sweep(
    signal: Seq<Binary64>,
    frame_dur: Binary64,
    options: TempoOptions,
    sweep: (Binary64, Binary64, u64),
    start: Best,
) -> Best {
    swept(signal, frame_dur, options, start.bpm, sweep.0, sweep.1, start, sweep.2 as nat)
}

/// The tempo near a coarse one that a signal agrees with most.
#[verifier::opaque]
pub open spec fn refined(signal: Seq<Binary64>, frame_dur: Binary64, coarse: Binary64, options: TempoOptions) -> Best {
    let bpm = clamped(coarse, lowest_tempo(options), highest_tempo(options));
    let start = Best { bpm, score: peakedness(signal, frame_dur, bpm, options.integer_bias) };
    let one = after_sweep(signal, frame_dur, options, coarse_sweep(), start);
    let two = after_sweep(signal, frame_dur, options, middle_sweep(), one);
    after_sweep(signal, frame_dur, options, fine_sweep(), two)
}

/// Sweeps about the best tempo so far.
fn sweep_about(
    signal: &[Binary64],
    frame_dur: Binary64,
    options: &TempoOptions,
    sweep: (Binary64, Binary64, u64),
    start: Best,
) -> (r: Best)
    ensures
        r == after_sweep(signal@, frame_dur, *options, sweep, start),
{
    let (lo, hi) = options.range();
    let center: Binary64 = start.bpm;
    let ghost began = start;
    let mut best: Best = start;
    let mut i: u64 = 0;
    while i < sweep.2
        invariant
            i <= sweep.2,
            lo == lowest_tempo(*options),
            hi == highest_tempo(*options),
            center == began.bpm,
            best == swept(signal@, frame_dur, *options, center, sweep.0, sweep.1, began, i as nat),
        decreases sweep.2 - i,
    {
        let bpm: Binary64 = center.minus(sweep.0).plus(sweep.1.times(Binary64::from_u64(i)));
        if !bpm.lt(lo) && !hi.lt(bpm) {
            let score: Binary64 = fold_score(signal, frame_dur, bpm, options.integer_bias);
            if best.score.lt(score) {
                best = Best { bpm, score };
            }
        }
        i = i + 1;
    }
    best
}

/// Searches around `coarse_bpm` for the tempo the envelope agrees with most.
///
/// Three passes, each an order of magnitude finer than the last.
pub fn refine_tempo(signal: &[Binary64], frame_dur: Binary64, coarse_bpm: Binary64, options: &TempoOptions) -> (r: Best)
    ensures
        r == refined(signal@, frame_dur, coarse_bpm, *options),
{
    reveal(refined);
    let (lo, hi) = options.range();
    let bpm: Binary64 = coarse_bpm.clamp(lo, hi);
    let score: Binary64 = fold_score(signal, frame_dur, bpm, options.integer_bias);
    let start: Best = Best { bpm, score };
    let coarse: Best = sweep_about(signal, frame_dur, options, coarse_sweep(), start);
    let middle: Best = sweep_about(signal, frame_dur, options, middle_sweep(), coarse);
    sweep_about(signal, frame_dur, options, fine_sweep(), middle)
}

/// The place of the peak of a histogram between its buckets, from the winning
/// one and its neighbours all round.
pub open spec fn peak_offset(left: Binary64, best: Binary64, right: Binary64) -> Binary64 {
    let denom = sum(difference(left, product(of_int(2), best)), right);
    if pico().spec_lt(absolute(denom)) {
        clamped(quotient(product(half(), difference(left, right)), denom), negated(half()), half())
    } else {
        zero()
    }
}

/// Where in the beat the values pile up, in frames.
pub open spec fn phase_of(signal: Seq<Binary64>, frame_dur: Binary64, bpm: Binary64) -> Binary64 {
    let period = beat_frames(bpm, frame_dur);
    let bins = bucket_count(period);
    let histogram = folded(signal, period, bins, signal.len());
    let at = last_highest(histogram, bins as int);
    let left = histogram[if at == 0 {
        bins - 1
    } else {
        at - 1
    }];
    let right = histogram[if at + 1 == bins {
        0
    } else {
        at + 1
    }];
    if !foldable(period) {
        zero()
    } else {
        quotient(
            product(sum(of_int(at), peak_offset(left, histogram[at], right)), period),
            of_int(bins as int),
        )
    }
}

/// The place of the last of the highest values.
pub fn place_of_highest(values: &[Binary64]) -> (r: usize)
    requires
        values@.len() > 0,
    ensures
        r == last_highest(values@, values@.len() as int),
        r < values@.len(),
{
    let mut best: usize = 0;
    let mut i: usize = 1;
    while i < values.len()
        invariant
            1 <= i <= values@.len(),
            best < i,
            best == last_highest(values@, i as int),
        decreases values@.len() - i,
    {
        if !values[i].lt(values[best]) {
            best = i;
        }
        i = i + 1;
    }
    best
}

/// Where in the beat period the onsets pile up, measured in frames.
///
/// A parabola across the winning bucket and its neighbours keeps the phase from
/// being quantised to whole frames.
pub fn locate_phase(signal: &[Binary64], frame_dur: Binary64, bpm: Binary64) -> (r: Binary64)
    ensures
        r == phase_of(signal@, frame_dur, bpm),
{
    let period: Binary64 = Binary64::from_u64(60).over(bpm).over(frame_dur);
    if !period.is_finite() || period.lt(Binary64::from_u64(2)) {
        return zero();
    }
    let bins: usize = count_buckets(period);
    let histogram: Vec<Binary64> = phase_histogram(signal, period, bins);
    let at: usize = place_of_highest(histogram.as_slice());
    let best: Binary64 = histogram[at];
    let left: Binary64 = histogram[if at == 0 {
        bins - 1
    } else {
        at - 1
    }];
    let right: Binary64 = histogram[if at + 1 == bins {
        0
    } else {
        at + 1
    }];
    let denom: Binary64 = left.minus(Binary64::from_u64(2).times(best)).plus(right);
    let offset: Binary64 = if pico().lt(denom.abs()) {
        half().times(left.minus(right)).over(denom).clamp(half().negate(), half())
    } else {
        zero()
    };
    Binary64::from_u64(at as u64).plus(offset).times(period).over(Binary64::from_u64(bins as u64))
}

/// How much more of the whole the highest bucket holds than its equal share.
pub open spec fn concentration(strength: Seq<Binary64>, frame_dur: Binary64, bpm: Binary64) -> Binary64 {
    let period = beat_frames(bpm, frame_dur);
    let bins = bucket_count(period);
    let histogram = folded(strength, period, bins, strength.len());
    let uniform = quotient(one(), of_int(bins as int));
    let share = quotient(highest(histogram), total(histogram));
    if !foldable(period) || total(histogram).spec_le(zero()) {
        zero()
    } else {
        clamped(quotient(difference(share, uniform), difference(one(), uniform)), zero(), one())
    }
}

/// How concentrated the onsets are at one phase, `0..=1`.
///
/// Measured on the raw envelope: a curve centred on zero sums to nothing. The
/// winning bucket's share is held against that of a flat distribution, so the
/// score does not drift with the number of buckets.
pub fn phase_confidence(strength: &[Binary64], frame_dur: Binary64, bpm: Binary64) -> (r: Binary64)
    ensures
        r == concentration(strength@, frame_dur, bpm),
{
    let period: Binary64 = Binary64::from_u64(60).over(bpm).over(frame_dur);
    if !period.is_finite() || period.lt(Binary64::from_u64(2)) {
        return zero();
    }
    let bins: usize = count_buckets(period);
    let histogram: Vec<Binary64> = phase_histogram(strength, period, bins);
    let whole: Binary64 = total_of(histogram.as_slice());
    if whole.le(zero()) {
        return zero();
    }
    let peak: Binary64 = highest_of(histogram.as_slice());
    let uniform: Binary64 = one().over(Binary64::from_u64(bins as u64));
    peak.over(whole).minus(uniform).over(one().minus(uniform)).clamp(zero(), one())
}

/// Correlations scaled so lag zero is one; zeros where there is nothing there.
pub open spec fn scaled_correlation(raw: Seq<Binary64>) -> Seq<Binary64> {
    let scale = if pico().spec_lt(absolute(raw[0])) {
        quotient(one(), raw[0])
    } else {
        zero()
    };
    raw.map_values(|v: Binary64| product(v, scale))
}

/// Correlations scaled so lag zero is one; zeros where there is nothing there.
pub fn scale_correlation(raw: &[Binary64]) -> (r: Vec<Binary64>)
    ensures
        r@ == scaled_correlation(raw@),
{
    let ghost want = scaled_correlation(raw@);
    let mut out: Vec<Binary64> = Vec::new();
    if raw.len() == 0 {
        assert(out@ =~= want);
        return out;
    }
    let first: Binary64 = raw[0];
    let scale: Binary64 = if pico().lt(first.abs()) {
        one().over(first)
    } else {
        zero()
    };
    let mut i: usize = 0;
    while i < raw.len()
        invariant
            i <= raw@.len(),
            want == raw@.map_values(|v: Binary64| product(v, scale)),
            out@ == want.take(i as int),
        decreases raw@.len() - i,
    {
        out.push(raw[i].times(scale));
        i = i + 1;
        assert(out@ =~= want.take(i as int));
    }
    assert(out@ =~= want);
    out
}

/// The shortest lag of a search: the fastest tempo has the shortest period.
pub open spec fn shortest_lag(options: TempoOptions, frame_dur: Binary64) -> nat {
    truncated(
        larger(floored(quotient(period_of(highest_tempo(options)), frame_dur)), one()),
        usize::MAX as nat,
    )
}

/// The longest lag of a search in a signal of some length.
pub open spec fn longest_lag(options: TempoOptions, frame_dur: Binary64, n: nat) -> nat {
    let slowest = truncated(ceiled(quotient(period_of(lowest_tempo(options)), frame_dur)), usize::MAX as nat);
    let last: nat = if n == 0 {
        0
    } else {
        (n - 1) as nat
    };
    if slowest < last {
        slowest
    } else {
        last
    }
}

/// The error of a search, if it cannot be made.
pub open spec fn search_fault(envelope: Onsets, options: TempoOptions) -> Option<AnalysisError> {
    let shortest = shortest_lag(options, envelope.step());
    let longest = longest_lag(options, envelope.step(), envelope.strength.len());
    if !energetic(envelope.strength) || envelope.step().spec_le(zero()) {
        Some(AnalysisError::Silent)
    } else if longest < shortest + 2 {
        Some(
            AnalysisError::TempoRangeTooNarrow {
                lo: lowest_tempo(options),
                hi: highest_tempo(options),
                hop: envelope.hop,
            },
        )
    } else {
        None
    }
}

/// The lags in `from + 1..n` at which a correlation peaks above zero.
pub open spec fn peak_lags(correlation: Seq<Binary64>, from: int, n: int) -> Seq<usize>
    decreases n - from,
{
    if n <= from + 1 {
        seq![]
    } else {
        let before = peak_lags(correlation, from, n - 1);
        let value = correlation[n - 1];
        if correlation[n - 2].spec_lt(value) && correlation[n].spec_le(value) && zero().spec_lt(value) {
            before.push((n - 1) as usize)
        } else {
            before
        }
    }
}

/// The candidate lags: the peaks, or the best lag where there is none.
pub open spec fn candidate_lags(correlation: Seq<Binary64>, shortest: int, longest: int) -> Seq<usize> {
    let peaks = peak_lags(correlation, shortest, longest);
    if peaks.len() > 0 {
        peaks
    } else {
        let band = correlation.subrange(shortest, longest + 1);
        seq![(shortest + last_highest(band, band.len() as int)) as usize]
    }
}

/// Sort keys that put the strongest correlation first.
pub open spec fn correlation_keys(correlation: Seq<Binary64>, lags: Seq<usize>) -> Seq<i128> {
    lags.map_values(|lag: usize| (-correlation[lag as int].rank()) as i128)
}

/// The candidate lags, strongest first, as many as asked for.
pub open spec fn ranked_lags(correlation: Seq<Binary64>, options: TempoOptions, shortest: int, longest: int) -> Seq<usize> {
    let lags = candidate_lags(correlation, shortest, longest);
    let ranked = arranged(lags, in_order(correlation_keys(correlation, lags)));
    let most: nat = if options.candidates < 1 {
        1
    } else {
        options.candidates as nat
    };
    if ranked.len() > most {
        ranked.take(most as int)
    } else {
        ranked
    }
}

/// What an envelope says of a tempo.
pub open spec fn estimate_at(envelope: Onsets, signal: Seq<Binary64>, bpm: Binary64) -> TempoEstimate {
    let frame_dur = envelope.step();
    TempoEstimate {
        bpm,
        phase_sec: larger(
            sum(
                product(phase_of(signal, frame_dur, bpm), frame_dur),
                delay_of(envelope.n_fft, envelope.sample_rate),
            ),
            zero(),
        ),
        confidence: concentration(envelope.strength, frame_dur, bpm),
    }
}

/// The tempo near a lag that a signal agrees with most.
pub open spec fn refined_at(signal: Seq<Binary64>, frame_dur: Binary64, lag: usize, options: TempoOptions) -> Best {
    refined(signal, frame_dur, quotient(of_int(60), product(of_int(lag as int), frame_dur)), options)
}

/// The best of the first `n` candidates, the first of equals.
pub open spec fn best_of(
    signal: Seq<Binary64>,
    frame_dur: Binary64,
    options: TempoOptions,
    lags: Seq<usize>,
    n: nat,
) -> Option<Best>
    decreases n,
{
    if n == 0 {
        None
    } else {
        let before = best_of(signal, frame_dur, options, lags, (n - 1) as nat);
        let next = refined_at(signal, frame_dur, lags[n - 1], options);
        let to_beat = match before {
            Some(best) => best.score,
            None => minus_infinity(),
        };
        if to_beat.spec_lt(next.score) {
            Some(next)
        } else {
            before
        }
    }
}

/// The tempo of an envelope with a given autocorrelation.
#[verifier::opaque]
pub open spec fn tempo_of(envelope: Onsets, options: TempoOptions, correlation: Seq<Binary64>) -> Result<
    TempoEstimate,
    AnalysisError,
> {
    let frame_dur = envelope.step();
    let signal = standardized(envelope.strength);
    let shortest = shortest_lag(options, frame_dur);
    let longest = longest_lag(options, frame_dur, envelope.strength.len());
    let lags = ranked_lags(correlation, options, shortest as int, longest as int);
    match search_fault(envelope, options) {
        Some(fault) => Err(fault),
        None => match best_of(signal, frame_dur, options, lags, lags.len()) {
            Some(best) => Ok(estimate_at(envelope, signal, best.bpm)),
            None => Err(AnalysisError::Silent),
        },
    }
}

/// The lags at which a correlation peaks above zero.
fn find_peaks(correlation: &[Binary64], shortest: usize, longest: usize) -> (r: Vec<usize>)
    requires
        shortest < longest < correlation@.len(),
    ensures
        r@ == peak_lags(correlation@, shortest as int, longest as int),
        forall|i: int| 0 <= i < r@.len() ==> (#[trigger] r@[i]) < correlation@.len(),
{
    let mut out: Vec<usize> = Vec::new();
    let mut lag: usize = shortest + 1;
    while lag < longest
        invariant
            shortest < lag <= longest < correlation@.len(),
            out@ == peak_lags(correlation@, shortest as int, lag as int),
            forall|i: int| 0 <= i < out@.len() ==> (#[trigger] out@[i]) < correlation@.len(),
        decreases longest - lag,
    {
        let value: Binary64 = correlation[lag];
        if correlation[lag - 1].lt(value) && correlation[lag + 1].le(value) && zero().lt(value) {
            out.push(lag);
        }
        lag = lag + 1;
    }
    out
}

/// The candidate lags, strongest first, as many as asked for.
fn rank_lags(correlation: &[Binary64], options: &TempoOptions, shortest: usize, longest: usize) -> (r: Vec<usize>)
    requires
        shortest < longest < correlation@.len(),
    ensures
        r@ == ranked_lags(correlation@, *options, shortest as int, longest as int),
{
    let mut lags: Vec<usize> = find_peaks(correlation, shortest, longest);
    if lags.len() == 0 {
        let ghost band = correlation@.subrange(shortest as int, longest + 1);
        let mut best: usize = shortest;
        let mut i: usize = shortest + 1;
        while i <= longest
            invariant
                shortest <= best < i <= longest + 1,
                longest < correlation@.len(),
                band == correlation@.subrange(shortest as int, longest + 1),
                best - shortest == last_highest(band, i - shortest),
            decreases longest + 1 - i,
        {
            if !correlation[i].lt(correlation[best]) {
                best = i;
            }
            i = i + 1;
        }
        lags.push(best);
        assert(lags@ =~= candidate_lags(correlation@, shortest as int, longest as int));
    }
    let mut keys: Vec<i128> = Vec::new();
    let mut k: usize = 0;
    while k < lags.len()
        invariant
            k <= lags@.len(),
            forall|i: int| 0 <= i < lags@.len() ==> (#[trigger] lags@[i]) < correlation@.len(),
            keys@ == correlation_keys(correlation@, lags@).take(k as int),
        decreases lags@.len() - k,
    {
        keys.push(-correlation[lags[k]].rank_key());
        k = k + 1;
        assert(keys@ =~= correlation_keys(correlation@, lags@).take(k as int));
    }
    assert(keys@ =~= correlation_keys(correlation@, lags@));
    let order: Vec<usize> = stable_order(&keys);
    let ghost ranked = arranged(lags@, order@);
    let most: usize = if options.candidates < 1 {
        1
    } else {
        options.candidates
    };
    let mut out: Vec<usize> = Vec::new();
    let mut j: usize = 0;
    while j < order.len() && j < most
        invariant
            j <= order@.len(),
            j <= most,
            visits_each_once(order@, lags@.len()),
            ranked == arranged(lags@, order@),
            out@ == ranked.take(j as int),
        decreases order@.len() - j,
    {
        out.push(lags[order[j]]);
        j = j + 1;
        assert(out@ =~= ranked.take(j as int));
    }
    assert(out@ =~= ranked_lags(correlation@, *options, shortest as int, longest as int));
    out
}

/// The lags to search in an envelope, or why there are none.
fn lag_range(envelope: &OnsetEnvelope, options: &TempoOptions) -> (r: Result<(usize, usize), AnalysisError>)
    ensures
        match r {
            Ok(range) => search_fault(envelope@, *options) is None && range.0 == shortest_lag(*options, envelope.step())
                && range.1 == longest_lag(*options, envelope.step(), envelope.strength@.len()),
            Err(fault) => search_fault(envelope@, *options) == Some(fault),
        },
{
    if !envelope.has_energy() {
        return Err(AnalysisError::Silent);
    }
    let frame_dur: Binary64 = envelope.frame_duration();
    if frame_dur.le(zero()) {
        return Err(AnalysisError::Silent);
    }
    let (lo, hi) = options.range();
    let fastest: Binary64 = Binary64::from_u64(60).over(hi).over(frame_dur);
    let shortest: usize = fastest.floor().max(one()).truncate(usize::MAX as u64) as usize;
    let slowest: Binary64 = Binary64::from_u64(60).over(lo).over(frame_dur);
    let reach: usize = slowest.ceil().truncate(usize::MAX as u64) as usize;
    let count: usize = envelope.len();
    let last: usize = if count == 0 {
        0
    } else {
        count - 1
    };
    let longest: usize = if reach < last {
        reach
    } else {
        last
    };
    if longest <= shortest || longest - shortest < 2 {
        return Err(AnalysisError::TempoRangeTooNarrow { lo, hi, hop: envelope.hop });
    }
    Ok((shortest, longest))
}

/// The best of some candidates, the first of equals.
fn best_candidate(signal: &[Binary64], frame_dur: Binary64, options: &TempoOptions, lags: &Vec<usize>) -> (r: Option<Best>)
    ensures
        r == best_of(signal@, frame_dur, *options, lags@, lags@.len()),
{
    let mut best: Option<Best> = None;
    let mut i: usize = 0;
    while i < lags.len()
        invariant
            i <= lags@.len(),
            best == best_of(signal@, frame_dur, *options, lags@, i as nat),
        decreases lags@.len() - i,
    {
        let coarse: Binary64 = Binary64::from_u64(60).over(Binary64::from_u64(lags[i] as u64).times(frame_dur));
        let next: Best = refine_tempo(signal, frame_dur, coarse, options);
        let to_beat: Binary64 = match &best {
            Some(b) => b.score,
            None => minus_infinity(),
        };
        if to_beat.lt(next.score) {
            best = Some(next);
        }
        i = i + 1;
    }
    best
}

/// Estimates a single tempo and phase for the whole envelope.
///
/// `correlation` is the autocorrelation of the normalised envelope, one value
/// per lag. Frame indices carry the latency of the analysis window, which is
/// added back so the phase is a real position in the track.
pub fn estimate(envelope: &OnsetEnvelope, options: &TempoOptions, correlation: &[Binary64]) -> (r: Result<
    TempoEstimate,
    AnalysisError,
>)
    requires
        correlation@.len() == envelope.strength@.len(),
    ensures
        r == tempo_of(envelope@, *options, correlation@),
{
    reveal(tempo_of);
    let (shortest, longest) = match lag_range(envelope, options) {
        Ok(range) => range,
        Err(fault) => {
            return Err(fault);
        },
    };
    let frame_dur: Binary64 = envelope.frame_duration();
    let signal: Vec<Binary64> = envelope.normalized();
    let lags: Vec<usize> = rank_lags(correlation, options, shortest, longest);
    match best_candidate(signal.as_slice(), frame_dur, options, &lags) {
        Some(found) => {
            let bpm: Binary64 = found.bpm;
            let frames: Binary64 = locate_phase(signal.as_slice(), frame_dur, bpm);
            let phase: Binary64 = frames.times(frame_dur).plus(envelope.group_delay());
            Ok(
                TempoEstimate {
                    bpm,
                    phase_sec: phase.max(zero()),
                    confidence: phase_confidence(envelope.strength.as_slice(), frame_dur, bpm),
                },
            )
        },
        None => Err(AnalysisError::Silent),
    }
}

/// The frames in a window of some seconds, at least 64.
pub open spec fn frames_in_window(window_sec: Binary64, frame_dur: Binary64) -> nat {
    let n = truncated(nearest_integer(quotient(window_sec, frame_dur)), usize::MAX as nat);
    if n < 64 {
        64
    } else {
        n
    }
}

/// The frames in a window of some seconds, at least 64.
pub fn window_frames(envelope: &OnsetEnvelope, window_sec: Binary64) -> (r: usize)
    ensures
        r == frames_in_window(window_sec, envelope.step()),
        r >= 64,
{
    let n: usize = window_sec.over(envelope.frame_duration()).round().truncate(usize::MAX as u64) as usize;
    if n < 64 {
        64
    } else {
        n
    }
}

/// The number of windows, each half its length behind the one before, that
/// start at `start` or later and fit into `n` frames.
pub open spec fn windows_left(n: int, frames: int, start: int) -> nat
    decreases n - start,
{
    if start < 0 || frames < 2 || start + frames > n {
        0
    } else {
        windows_left(n, frames, start + frames / 2) + 1
    }
}

/// A tempo found in a window.
#[derive(Debug, Clone, Copy, PartialEq, Structural)]
pub struct WindowTempo {
    pub start: Binary64,
    pub end: Binary64,
    pub bpm: Binary64,
    pub phase: Binary64,
}

/// What a tempo found in the window at `start` says of the track.
pub open spec fn placed_tempo(step: Binary64, frames: int, start: int, found: TempoEstimate) -> WindowTempo {
    let from = product(of_int(start), step);
    WindowTempo {
        start: from,
        end: product(of_int(start + frames), step),
        bpm: found.bpm,
        phase: sum(from, found.phase_sec),
    }
}

/// The tempos of the windows from number `k` at frame `start` on, those left
/// out that have none.
pub open spec fn tempos_from(
    envelope: Onsets,
    options: TempoOptions,
    frames: int,
    parts: Seq<Seq<Binary64>>,
    k: int,
    start: int,
) -> Seq<WindowTempo>
    decreases parts.len() - k,
{
    if k < 0 || k >= parts.len() {
        seq![]
    } else {
        let rest = tempos_from(envelope, options, frames, parts, k + 1, start + frames / 2);
        match tempo_at(envelope, options, frames, start, parts[k]) {
            Some(found) => seq![found] + rest,
            None => rest,
        }
    }
}

/// The first `n` windows with neighbours of one tempo made one segment.
///
/// The tolerance of half a beat per minute is deliberately loose: the fine
/// sweep resolves far less than what makes a tempo change.
pub open spec fn merged_tempos(windows: Seq<WindowTempo>, n: nat) -> Seq<TempoSegment>
    decreases n,
{
    if n == 0 {
        seq![]
    } else {
        let before = merged_tempos(windows, (n - 1) as nat);
        let next = windows[n - 1];
        let last = before.last();
        if before.len() > 0 && absolute(difference(last.bpm, next.bpm)).spec_le(half()) {
            before.update(before.len() - 1, TempoSegment { end: larger(next.end, last.end), ..last })
        } else {
            before.push(tempo_segment(next.start, next.end, next.bpm, next.phase, 4))
        }
    }
}

/// Segments made to follow each other without a gap, from zero to the end of
/// the track.
pub open spec fn closed_up(segments: Seq<TempoSegment>, duration_sec: Binary64) -> Seq<TempoSegment> {
    Seq::new(
        segments.len(),
        |i: int|
            TempoSegment {
                start: if i == 0 {
                    zero()
                } else {
                    segments[i].start
                },
                end: if i + 1 < segments.len() {
                    segments[i + 1].start
                } else {
                    larger(duration_sec, segments[i].end)
                },
                ..segments[i]
            },
    )
}

/// One segment for a whole track.
pub open spec fn whole_track(found: Result<TempoEstimate, AnalysisError>, duration_sec: Binary64) -> Result<
    Seq<TempoSegment>,
    AnalysisError,
> {
    match found {
        Ok(tempo) => Ok(seq![tempo_segment(zero(), duration_sec, tempo.bpm, tempo.phase_sec, 4)]),
        Err(fault) => Err(fault),
    }
}

/// The tempo segments of a track, window by window.
pub open spec fn tempo_plan(
    envelope: Onsets,
    options: TempoOptions,
    window_sec: Binary64,
    duration_sec: Binary64,
    whole: Seq<Binary64>,
    parts: Seq<Seq<Binary64>>,
) -> Result<Seq<TempoSegment>, AnalysisError> {
    let frames = frames_in_window(window_sec, envelope.step());
    let windows = tempos_from(envelope, options, frames as int, parts, 0, 0);
    if !energetic(envelope.strength) {
        Err(AnalysisError::Silent)
    } else if envelope.strength.len() <= frames || windows.len() == 0 {
        whole_track(tempo_of(envelope, options, whole), duration_sec)
    } else {
        Ok(closed_up(merged_tempos(windows, windows.len()), duration_sec))
    }
}

/// What a tempo found in one window, if any, says of the track.
pub open spec fn tempo_at(
    envelope: Onsets,
    options: TempoOptions,
    frames: int,
    start: int,
    part: Seq<Binary64>,
) -> Option<WindowTempo> {
    match tempo_of(envelope.window(start, start + frames), options, part) {
        Ok(found) => Some(placed_tempo(envelope.step(), frames, start, found)),
        Err(_) => None,
    }
}

/// What the window at `start` says of the track.
fn window_tempo(envelope: &OnsetEnvelope, options: &TempoOptions, frames: usize, start: usize, part: &[Binary64]) -> (r:
    Option<WindowTempo>)
    requires
        start + frames <= envelope.strength@.len(),
        part@.len() == frames,
    ensures
        r == tempo_at(envelope@, *options, frames as int, start as int, part@),
{
    let count: usize = envelope.len();
    assert(start + frames <= count);
    let window: OnsetEnvelope = envelope.window(start, start + frames);
    let frame_dur: Binary64 = envelope.frame_duration();
    match estimate(&window, options, part) {
        Ok(found) => {
            let from: Binary64 = Binary64::from_u64(start as u64).times(frame_dur);
            Some(
                WindowTempo {
                    start: from,
                    end: Binary64::from_u64((start + frames) as u64).times(frame_dur),
                    bpm: found.bpm,
                    phase: from.plus(found.phase_sec),
                },
            )
        },
        Err(_) => None,
    }
}

/// The tempos of all windows, those left out that have none.
fn window_tempos(envelope: &OnsetEnvelope, options: &TempoOptions, frames: usize, parts: &Vec<Vec<Binary64>>) -> (r: Vec<
    WindowTempo,
>)
    requires
        frames >= 64,
        parts@.len() == windows_left(envelope.strength@.len() as int, frames as int, 0),
        forall|k: int| 0 <= k < parts@.len() ==> (#[trigger] parts@[k])@.len() == frames,
    ensures
        r@ == tempos_from(envelope@, *options, frames as int, rows_of(parts@), 0, 0),
{
    let ghost rows = rows_of(parts@);
    let ghost all = tempos_from(envelope@, *options, frames as int, rows, 0, 0);
    let n: usize = envelope.len();
    let mut out: Vec<WindowTempo> = Vec::new();
    let mut k: usize = 0;
    let mut start: usize = 0;
    assert(out@ + all =~= all);
    while k < parts.len()
        invariant
            frames >= 64,
            k <= parts@.len(),
            n == envelope.strength@.len(),
            rows == rows_of(parts@),
            forall|j: int| 0 <= j < parts@.len() ==> (#[trigger] parts@[j])@.len() == frames,
            k + windows_left(n as int, frames as int, start as int) == parts@.len(),
            out@ + tempos_from(envelope@, *options, frames as int, rows, k as int, start as int) == all,
        decreases parts@.len() - k,
    {
        let ghost rest = tempos_from(envelope@, *options, frames as int, rows, k + 1, start + frames as int / 2);
        assert(rows[k as int] == parts@[k as int]@);
        if let Some(next) = window_tempo(envelope, options, frames, start, parts[k].as_slice()) {
            let ghost before = out@;
            out.push(next);
            assert(out@ + rest =~= before + (seq![next] + rest));
        }
        start = start + frames / 2;
        k = k + 1;
    }
    assert(out@ + Seq::<WindowTempo>::empty() =~= out@);
    out
}

/// Neighbouring windows of one tempo made one segment.
fn merge_tempos(windows: &Vec<WindowTempo>) -> (r: Vec<TempoSegment>)
    ensures
        r@ == merged_tempos(windows@, windows@.len()),
{
    let mut out: Vec<TempoSegment> = Vec::new();
    let mut i: usize = 0;
    while i < windows.len()
        invariant
            i <= windows@.len(),
            out@ == merged_tempos(windows@, i as nat),
        decreases windows@.len() - i,
    {
        let next: WindowTempo = windows[i];
        let count: usize = out.len();
        let same: bool = count > 0 && out[count - 1].bpm.minus(next.bpm).abs().le(half());
        if same {
            let last: TempoSegment = out[count - 1];
            out.set(count - 1, TempoSegment { end: next.end.max(last.end), ..last });
        } else {
            out.push(TempoSegment::new(next.start, next.end, next.bpm, next.phase, 4));
        }
        i = i + 1;
    }
    out
}

/// Segments made to follow each other without a gap, from zero to the end of
/// the track.
fn close_up(segments: &Vec<TempoSegment>, duration_sec: Binary64) -> (r: Vec<TempoSegment>)
    ensures
        r@ == closed_up(segments@, duration_sec),
{
    let ghost want = closed_up(segments@, duration_sec);
    let total_count: usize = segments.len();
    let mut out: Vec<TempoSegment> = Vec::new();
    let mut i: usize = 0;
    while i < total_count
        invariant
            i <= total_count == segments@.len(),
            want == closed_up(segments@, duration_sec),
            out@ == want.take(i as int),
        decreases total_count - i,
    {
        let segment: TempoSegment = segments[i];
        let start: Binary64 = if i == 0 {
            zero()
        } else {
            segment.start
        };
        let end: Binary64 = if i + 1 < total_count {
            segments[i + 1].start
        } else {
            duration_sec.max(segment.end)
        };
        out.push(TempoSegment { start, end, ..segment });
        i = i + 1;
        assert(out@ =~= want.take(i as int));
    }
    assert(out@ =~= want);
    out
}

/// The windows of an envelope that tempos are looked for in, each half its
/// length behind the one before.
pub fn tempo_parts(envelope: &OnsetEnvelope, window_sec: Binary64) -> (r: Vec<OnsetEnvelope>)
    ensures
        ({
            let frames = frames_in_window(window_sec, envelope.step());
            &&& r@.len() == windows_left(envelope.strength@.len() as int, frames as int, 0)
            &&& forall|k: int|
                0 <= k < r@.len() ==> (#[trigger] r@[k])@ == envelope@.window(
                    k * (frames / 2),
                    k * (frames / 2) + frames,
                )
            &&& forall|k: int| 0 <= k < r@.len() ==> (#[trigger] r@[k]).strength@.len() == frames
        }),
{
    let frames: usize = window_frames(envelope, window_sec);
    let n: usize = envelope.len();
    let step: usize = frames / 2;
    let mut out: Vec<OnsetEnvelope> = Vec::new();
    let mut start: usize = 0;
    assert(0 * step == 0) by (nonlinear_arith);
    while start <= n && frames <= n - start
        invariant
            n == envelope.strength@.len(),
            frames >= 64,
            step == frames / 2,
            start == out@.len() * step,
            start <= n + step,
            windows_left(n as int, frames as int, start as int) + out@.len() == windows_left(n as int, frames as int, 0),
            forall|k: int|
                0 <= k < out@.len() ==> (#[trigger] out@[k])@ == envelope@.window(k * step, k * step + frames),
            forall|k: int| 0 <= k < out@.len() ==> (#[trigger] out@[k]).strength@.len() == frames,
        decreases n + step - start,
    {
        let part: OnsetEnvelope = envelope.window(start, start + frames);
        assert(part@.strength == part.strength@);
        assert((out@.len() + 1) * step == out@.len() * step + step) by (nonlinear_arith);
        out.push(part);
        start = start + step;
    }
    out
}

/// Estimates a tempo for each window of the track, then merges equal
/// neighbours.
///
/// Tracks that speed up, slow down or change feel get one segment per stretch
/// rather than one average tempo that fits none of it. `whole` and `parts` are
/// the autocorrelations of the whole envelope and of each of [`tempo_parts`].
pub fn estimate_segments(
    envelope: &OnsetEnvelope,
    options: &TempoOptions,
    window_sec: Binary64,
    duration_sec: Binary64,
    whole: &[Binary64],
    parts: &Vec<Vec<Binary64>>,
) -> (r: Result<Vec<TempoSegment>, AnalysisError>)
    requires
        whole@.len() == envelope.strength@.len(),
        ({
            let frames = frames_in_window(window_sec, envelope.step());
            &&& parts@.len() == windows_left(envelope.strength@.len() as int, frames as int, 0)
            &&& forall|k: int| 0 <= k < parts@.len() ==> (#[trigger] parts@[k])@.len() == frames
        }),
    ensures
        match r {
            Ok(segments) => tempo_plan(envelope@, *options, window_sec, duration_sec, whole@, rows_of(parts@)) == Ok::<
                Seq<TempoSegment>,
                AnalysisError,
            >(segments@),
            Err(fault) => tempo_plan(envelope@, *options, window_sec, duration_sec, whole@, rows_of(parts@)) == Err::<
                Seq<TempoSegment>,
                AnalysisError,
            >(fault),
        },
{
    if !envelope.has_energy() {
        return Err(AnalysisError::Silent);
    }
    let frames: usize = window_frames(envelope, window_sec);
    if envelope.len() > frames {
        let windows: Vec<WindowTempo> = window_tempos(envelope, options, frames, parts);
        if windows.len() > 0 {
            return Ok(close_up(&merge_tempos(&windows), duration_sec));
        }
    }
    match estimate(envelope, options, whole) {
        Ok(tempo) => {
            let mut out: Vec<TempoSegment> = Vec::new();
            out.push(TempoSegment::new(zero(), duration_sec, tempo.bpm, tempo.phase_sec, 4));
            assert(out@ =~= seq![tempo_segment(zero(), duration_sec, tempo.bpm, tempo.phase_sec, 4)]);
            Ok(out)
        },
        Err(fault) => Err(fault),
    }
}

/// Tempo segments tile the track: the first starts at zero, each ends where the
/// next starts, and the last ends no earlier than the track. Neighbours differ
/// by more than half a beat per minute.
pub proof fn law_tempo_segments_tile_the_track(windows: Seq<WindowTempo>, duration_sec: Binary64)
    requires
        windows.len() > 0,
    ensures
        ({
            let segments = closed_up(merged_tempos(windows, windows.len()), duration_sec);
            &&& segments.len() > 0
            &&& segments[0].start == zero()
            &&& forall|i: int| 0 <= i < segments.len() - 1 ==> (#[trigger] segments[i]).end == segments[i + 1].start
            &&& !duration_sec.nan() ==> duration_sec.spec_le(segments.last().end)
            &&& forall|i: int|
                0 < i < segments.len() ==> !absolute(
                    difference(segments[i - 1].bpm, (#[trigger] segments[i]).bpm),
                ).spec_le(half())
        }),
{
    lemma_merged_tempos(windows, windows.len());
    let merged = merged_tempos(windows, windows.len());
    let segments = closed_up(merged, duration_sec);
    assert forall|i: int| 0 < i < segments.len() implies !absolute(
        difference(segments[i - 1].bpm, (#[trigger] segments[i]).bpm),
    ).spec_le(half()) by {
        assert(merged[i].bpm == segments[i].bpm && merged[i - 1].bpm == segments[i - 1].bpm);
    }
}

proof fn lemma_merged_tempos(windows: Seq<WindowTempo>, n: nat)
    requires
        n <= windows.len(),
    ensures
        n > 0 ==> merged_tempos(windows, n).len() > 0,
        forall|i: int|
            0 < i < merged_tempos(windows, n).len() ==> !absolute(
                difference(merged_tempos(windows, n)[i - 1].bpm, (#[trigger] merged_tempos(windows, n)[i]).bpm),
            ).spec_le(half()),
    decreases n,
{
    if n > 0 {
        lemma_merged_tempos(windows, (n - 1) as nat);
        let before = merged_tempos(windows, (n - 1) as nat);
        let now = merged_tempos(windows, n);
        assert forall|i: int| 0 < i < now.len() implies !absolute(difference(now[i - 1].bpm, (#[trigger] now[i]).bpm)).spec_le(
            half(),
        ) by {
            assert(now[i - 1].bpm == before[i - 1].bpm);
            if i < before.len() {
                assert(now[i].bpm == before[i].bpm);
            }
        }
    }
}

proof fn lemma_swept_stays(
    signal: Seq<Binary64>,
    frame_dur: Binary64,
    options: TempoOptions,
    center: Binary64,
    span: Binary64,
    step: Binary64,
    start: Best,
    n: nat,
)
    requires
        !start.bpm.spec_lt(lowest_tempo(options)),
        !highest_tempo(options).spec_lt(start.bpm),
    ensures
        !swept(signal, frame_dur, options, center, span, step, start, n).bpm.spec_lt(lowest_tempo(options)),
        !highest_tempo(options).spec_lt(swept(signal, frame_dur, options, center, span, step, start, n).bpm),
    decreases n,
{
    if n > 0 {
        lemma_swept_stays(signal, frame_dur, options, center, span, step, start, (n - 1) as nat);
    }
}

/// The range of a tempo search is ordered.
pub proof fn law_tempo_range_is_ordered(options: TempoOptions)
    ensures
        lowest_tempo(options).spec_le(highest_tempo(options)),
{
    let lo = lowest_tempo(options);
    let up = sum(lo, one());
    crate::number::laws::law_small_integers_are_exact(20);
    crate::number::laws::law_small_integers_keep_their_order(0, 20);
    crate::number::laws::law_small_integers_are_exact(0);
    let twenty = of_int(20);
    assert(twenty.rank() > 0) by {
        crate::number::laws::law_comparison_is_numeric(of_int(0), twenty);
        crate::number::laws::lemma_has_code(0, 1074);
    }
    assert(!lo.nan() && twenty.spec_le(lo));
    if lo.finite() {
        crate::number::laws::law_adding_never_lowers(lo, one());
    }
    assert(lo.spec_le(up));
}

/// No tempo that is returned lies outside the asked-for range.
pub proof fn law_estimates_stay_in_range(
    signal: Seq<Binary64>,
    frame_dur: Binary64,
    coarse: Binary64,
    options: TempoOptions,
)
    ensures
        !refined(signal, frame_dur, coarse, options).bpm.spec_lt(lowest_tempo(options)),
        !highest_tempo(options).spec_lt(refined(signal, frame_dur, coarse, options).bpm),
{
    reveal(refined);
    law_tempo_range_is_ordered(options);
    let bpm = clamped(coarse, lowest_tempo(options), highest_tempo(options));
    let start = Best { bpm, score: peakedness(signal, frame_dur, bpm, options.integer_bias) };
    let a = coarse_sweep();
    lemma_swept_stays(signal, frame_dur, options, start.bpm, a.0, a.1, start, a.2 as nat);
    let one = after_sweep(signal, frame_dur, options, a, start);
    let b = middle_sweep();
    lemma_swept_stays(signal, frame_dur, options, one.bpm, b.0, b.1, one, b.2 as nat);
    let two = after_sweep(signal, frame_dur, options, b, one);
    let c = fine_sweep();
    lemma_swept_stays(signal, frame_dur, options, two.bpm, c.0, c.1, two, c.2 as nat);
}

/// Whether window `k` is the first of its segment.
pub open spec fn opens(place: Seq<int>, k: int) -> bool {
    k == 0 || place[k] != place[k - 1]
}

/// Whether windows are put into segments one after another: each into the
/// segment of the one before, or the first into a new one.
pub open spec fn goes_on(place: Seq<int>, windows: nat, segments: nat) -> bool {
    &&& place.len() == windows
    &&& windows > 0 ==> place[0] == 0 && place.last() == segments - 1
    &&& forall|k: int| 0 <= k < place.len() ==> 0 <= #[trigger] place[k] < segments
    &&& forall|j: int, k: int|
        0 <= j < k < place.len() && k == j + 1 ==> #[trigger] place[k] == #[trigger] place[j] || place[k] == place[j] + 1
}

proof fn lemma_tempo_places(windows: Seq<WindowTempo>, n: nat) -> (place: Seq<int>)
    requires
        n <= windows.len(),
    ensures
        goes_on(place, n, merged_tempos(windows, n).len()),
        forall|k: int|
            0 <= k < n && opens(place, k) ==> {
                let segment = merged_tempos(windows, n)[#[trigger] place[k]];
                &&& segment.start == windows[k].start
                &&& segment.bpm == windows[k].bpm
                &&& segment.inizio == windows[k].phase
                &&& segment.time_signature == 4
            },
        forall|k: int|
            0 <= k < n && !opens(place, k) ==> absolute(
                difference(merged_tempos(windows, n)[#[trigger] place[k]].bpm, windows[k].bpm),
            ).spec_le(half()),
        forall|k: int|
            0 < k < n && opens(place, k) ==> !absolute(
                difference(merged_tempos(windows, n)[place[k - 1]].bpm, windows[k].bpm),
            ).spec_le(half()) && #[trigger] place[k] >= 0,
        forall|k: int|
            0 <= k < n && !windows[k].end.nan() ==> windows[k].end.spec_le(
                merged_tempos(windows, n)[#[trigger] place[k]].end,
            ),
    decreases n,
{
    if n == 0 {
        seq![]
    } else {
        let m = (n - 1) as nat;
        let before_place = lemma_tempo_places(windows, m);
        let before = merged_tempos(windows, m);
        let now = merged_tempos(windows, n);
        let place = before_place.push(now.len() - 1);
        assert(forall|k: int| 0 <= k < m ==> #[trigger] place[k] == before_place[k]);
        assert(m > 0 ==> before_place[m - 1] == before.len() - 1);
        assert forall|k: int| 0 <= k < m implies opens(place, k) == #[trigger] opens(before_place, k) by {}
        assert forall|s: int| 0 <= s < before.len() implies now[s].start == (#[trigger] before[s]).start && now[s].bpm
            == before[s].bpm && now[s].inizio == before[s].inizio && now[s].time_signature == before[s].time_signature
            && (!before[s].end.nan() ==> before[s].end.spec_le(now[s].end)) by {}
        assert forall|k: int| 0 <= k < n && opens(place, k) implies ({
            let segment = now[#[trigger] place[k]];
            &&& segment.start == windows[k].start
            &&& segment.bpm == windows[k].bpm
            &&& segment.inizio == windows[k].phase
            &&& segment.time_signature == 4
        }) by {
            if k < m {
                assert(opens(before_place, k));
                assert(before[before_place[k]].bpm == windows[k].bpm);
            }
        }
        assert forall|k: int| 0 <= k < n && !opens(place, k) implies absolute(
            difference(now[#[trigger] place[k]].bpm, windows[k].bpm),
        ).spec_le(half()) by {
            if k < m {
                assert(!opens(before_place, k));
                assert(now[before_place[k]].bpm == before[before_place[k]].bpm);
            }
        }
        assert forall|k: int| 0 < k < n && opens(place, k) implies !absolute(
            difference(now[place[k - 1]].bpm, windows[k].bpm),
        ).spec_le(half()) && #[trigger] place[k] >= 0 by {
            assert(place[k - 1] == before_place[k - 1]);
            assert(now[before_place[k - 1]].bpm == before[before_place[k - 1]].bpm);
            if k < m {
                assert(opens(before_place, k));
                assert(before_place[k] >= 0);
            }
        }
        assert forall|k: int| 0 <= k < n && !windows[k].end.nan() implies windows[k].end.spec_le(
            now[#[trigger] place[k]].end,
        ) by {
            if k < m {
                assert(windows[k].end.spec_le(before[before_place[k]].end));
                assert(before[before_place[k]].end.spec_le(now[before_place[k]].end));
            }
        }
        place
    }
}

/// Every window is put into a segment of its tempo: one that has that very
/// tempo, or one that is no more than half a beat per minute away. The first
/// window of a segment gives it its tempo and phase, and but for the first
/// segment its start; it starts a segment because its tempo is further from
/// that of the segment before. So no tempo change is lost. Where the windows
/// come in order of time, each starts inside its segment.
pub proof fn law_each_window_is_in_a_segment_of_its_tempo(windows: Seq<WindowTempo>, duration_sec: Binary64) -> (place:
    Seq<int>)
    ensures
        ({
            let segments = closed_up(merged_tempos(windows, windows.len()), duration_sec);
            &&& goes_on(place, windows.len(), segments.len())
            &&& forall|k: int|
                0 <= k < windows.len() ==> segments[#[trigger] place[k]].bpm == windows[k].bpm || absolute(
                    difference(segments[place[k]].bpm, windows[k].bpm),
                ).spec_le(half())
            &&& forall|k: int|
                0 <= k < windows.len() && opens(place, k) ==> segments[#[trigger] place[k]].bpm == windows[k].bpm
                    && segments[place[k]].inizio == windows[k].phase && segments[place[k]].time_signature == 4
            &&& forall|k: int|
                0 < k < windows.len() && opens(place, k) ==> segments[#[trigger] place[k]].start == windows[k].start
                    && segments[place[k - 1]].end == windows[k].start && !absolute(
                    difference(segments[place[k - 1]].bpm, windows[k].bpm),
                ).spec_le(half())
            &&& forall|k: int|
                0 <= k < windows.len() && place[k] == segments.len() - 1 && !windows[k].end.nan()
                    ==> windows[k].end.spec_le(segments[#[trigger] place[k]].end)
        }),
{
    let merged = merged_tempos(windows, windows.len());
    let segments = closed_up(merged, duration_sec);
    let place = lemma_tempo_places(windows, windows.len());
    assert forall|k: int| 0 < k < windows.len() && opens(place, k) implies segments[#[trigger] place[k]].start
        == windows[k].start && segments[place[k - 1]].end == windows[k].start && !absolute(
        difference(segments[place[k - 1]].bpm, windows[k].bpm),
    ).spec_le(half()) by {
        lemma_places_grow(place, windows.len(), segments.len(), 0, k - 1);
        assert(place[k] == place[k - 1] + 1);
        assert(0 <= place[k - 1]);
    }
    place
}

proof fn lemma_places_grow(place: Seq<int>, windows: nat, segments: nat, j: int, k: int)
    requires
        goes_on(place, windows, segments),
        0 <= j <= k < windows,
    ensures
        place[j] <= place[k],
    decreases k - j,
{
    if j < k {
        lemma_places_grow(place, windows, segments, j, k - 1);
        assert(place[k] == place[k - 1] || place[k] == place[k - 1] + 1);
    }
}

/// The first window that is put into a segment.
proof fn lemma_opening(place: Seq<int>, windows: nat, segments: nat, k: int) -> (first: int)
    requires
        goes_on(place, windows, segments),
        0 <= k < windows,
    ensures
        0 <= first <= k,
        place[first] == place[k],
        opens(place, first),
    decreases k,
{
    if opens(place, k) {
        k
    } else {
        lemma_opening(place, windows, segments, k - 1)
    }
}

/// The first window behind window `k` that is put into another segment.
proof fn lemma_next_opening(place: Seq<int>, windows: nat, segments: nat, k: int, upto: int) -> (next: int)
    requires
        goes_on(place, windows, segments),
        0 <= k < upto < windows,
        place[k] < place[upto],
    ensures
        k < next <= upto,
        place[next] == place[k] + 1,
        place[next - 1] == place[k],
        opens(place, next),
    decreases upto,
{
    assert(place[upto] == place[upto - 1] || place[upto] == place[upto - 1] + 1);
    lemma_places_grow(place, windows, segments, k, upto - 1);
    if place[upto - 1] == place[k] {
        upto
    } else {
        lemma_next_opening(place, windows, segments, k, upto - 1)
    }
}

/// Where windows start one after another, from zero on, each starts inside the
/// segment it is put into: not before the segment starts, and before it ends
/// unless that is the last.
pub proof fn law_windows_start_in_their_segments(windows: Seq<WindowTempo>, duration_sec: Binary64) -> (place: Seq<int>)
    requires
        forall|j: int, k: int|
            0 <= j < k < windows.len() ==> (#[trigger] windows[j]).start.spec_lt((#[trigger] windows[k]).start),
        windows.len() > 0 ==> zero().spec_le(windows[0].start),
    ensures
        ({
            let segments = closed_up(merged_tempos(windows, windows.len()), duration_sec);
            &&& goes_on(place, windows.len(), segments.len())
            &&& forall|k: int|
                0 <= k < windows.len() ==> segments[#[trigger] place[k]].bpm == windows[k].bpm || absolute(
                    difference(segments[place[k]].bpm, windows[k].bpm),
                ).spec_le(half())
            &&& forall|k: int|
                0 <= k < windows.len() ==> segments[#[trigger] place[k]].start.spec_le(windows[k].start)
            &&& forall|k: int|
                0 <= k < windows.len() && place[k] < segments.len() - 1 ==> windows[k].start.spec_lt(
                    segments[#[trigger] place[k]].end,
                )
        }),
{
    let segments = closed_up(merged_tempos(windows, windows.len()), duration_sec);
    let place = law_each_window_is_in_a_segment_of_its_tempo(windows, duration_sec);
    let n = windows.len();
    assert forall|k: int| 0 <= k < n implies segments[#[trigger] place[k]].start.spec_le(windows[k].start) by {
        let first = lemma_opening(place, n, segments.len(), k);
        if first == 0 {
            assert(segments[0].start == zero());
            if k > 0 {
                assert(windows[0].start.spec_lt(windows[k].start));
            }
        } else {
            assert(segments[place[first]].start == windows[first].start);
            if first < k {
                assert(windows[first].start.spec_lt(windows[k].start));
            } else {
                assert(windows[k - 1].start.spec_lt(windows[k].start));
            }
        }
    }
    assert forall|k: int| 0 <= k < n && place[k] < segments.len() - 1 implies windows[k].start.spec_lt(
        segments[#[trigger] place[k]].end,
    ) by {
        assert(place[n - 1] == place.last());
        let next = lemma_next_opening(place, n, segments.len(), k, n - 1);
        assert(segments[place[next - 1]].end == windows[next].start && place[next] >= 0);
        assert(windows[k].start.spec_lt(windows[next].start));
    }
    place
}

/// The place of a window's tempo among those found.
proof fn lemma_window_is_found(
    envelope: Onsets,
    options: TempoOptions,
    frames: int,
    parts: Seq<Seq<Binary64>>,
    k: int,
    start: int,
    j: int,
) -> (at: int)
    requires
        0 <= k <= j < parts.len(),
        tempo_of(
            envelope.window(start + (j - k) * (frames / 2), start + (j - k) * (frames / 2) + frames),
            options,
            parts[j],
        ) is Ok,
    ensures
        ({
            let from = start + (j - k) * (frames / 2);
            let found = tempo_of(envelope.window(from, from + frames), options, parts[j])->Ok_0;
            let windows = tempos_from(envelope, options, frames, parts, k, start);
            &&& 0 <= at < windows.len()
            &&& windows[at].bpm == found.bpm
            &&& windows[at].start == product(of_int(from), envelope.step())
            &&& windows[at].end == product(of_int(from + frames), envelope.step())
            &&& windows[at].phase == sum(windows[at].start, found.phase_sec)
        }),
    decreases j - k,
{
    let rest = tempos_from(envelope, options, frames, parts, k + 1, start + frames / 2);
    let all = tempos_from(envelope, options, frames, parts, k, start);
    if j == k {
        assert((j - k) * (frames / 2) == 0) by (nonlinear_arith)
            requires
                j == k,
        ;
        assert(all[0] == placed_tempo(
            envelope.step(),
            frames,
            start,
            tempo_of(envelope.window(start, start + frames), options, parts[k])->Ok_0,
        ));
        0
    } else {
        assert(start + (j - k) * (frames / 2) == start + frames / 2 + (j - (k + 1)) * (frames / 2)) by (nonlinear_arith);
        let at = lemma_window_is_found(envelope, options, frames, parts, k + 1, start + frames / 2, j);
        if all.len() == rest.len() {
            assert(all == rest);
            at
        } else {
            assert(all[at + 1] == rest[at]);
            at + 1
        }
    }
}

/// No window's tempo is swallowed: wherever a tempo is found in a window of
/// the track, the track has a segment of that tempo or one no more than half a
/// beat per minute away.
pub proof fn law_every_window_with_a_tempo_counts(
    envelope: Onsets,
    options: TempoOptions,
    window_sec: Binary64,
    duration_sec: Binary64,
    whole: Seq<Binary64>,
    parts: Seq<Seq<Binary64>>,
    k: int,
) -> (i: int)
    requires
        energetic(envelope.strength),
        envelope.strength.len() > frames_in_window(window_sec, envelope.step()),
        0 <= k < parts.len(),
        ({
            let frames = frames_in_window(window_sec, envelope.step()) as int;
            tempo_of(envelope.window(k * (frames / 2), k * (frames / 2) + frames), options, parts[k]) is Ok
        }),
    ensures
        ({
            let frames = frames_in_window(window_sec, envelope.step()) as int;
            let found = tempo_of(
                envelope.window(k * (frames / 2), k * (frames / 2) + frames),
                options,
                parts[k],
            )->Ok_0;
            let plan = tempo_plan(envelope, options, window_sec, duration_sec, whole, parts);
            &&& plan is Ok
            &&& 0 <= i < plan->Ok_0.len()
            &&& plan->Ok_0[i].bpm == found.bpm || absolute(difference(plan->Ok_0[i].bpm, found.bpm)).spec_le(half())
        }),
{
    let frames = frames_in_window(window_sec, envelope.step()) as int;
    assert(0 + (k - 0) * (frames / 2) == k * (frames / 2)) by (nonlinear_arith);
    let at = lemma_window_is_found(envelope, options, frames, parts, 0, 0, k);
    let windows = tempos_from(envelope, options, frames, parts, 0, 0);
    let place = law_each_window_is_in_a_segment_of_its_tempo(windows, duration_sec);
    assert(place[at] >= 0);
    place[at]
}

proof fn lemma_swept_is_best(
    signal: Seq<Binary64>,
    frame_dur: Binary64,
    options: TempoOptions,
    center: Binary64,
    span: Binary64,
    step: Binary64,
    start: Best,
    n: nat,
)
    requires
        start.score == peakedness(signal, frame_dur, start.bpm, options.integer_bias),
        !start.score.nan(),
    ensures
        ({
            let best = swept(signal, frame_dur, options, center, span, step, start, n);
            &&& best.score == peakedness(signal, frame_dur, best.bpm, options.integer_bias)
            &&& start.score.spec_le(best.score)
            &&& best == start || exists|k: int|
                0 <= k < n && best.bpm == sum(difference(center, span), #[trigger] product(step, of_int(k)))
            &&& forall|k: int|
                0 <= k < n ==> {
                    let bpm = sum(difference(center, span), #[trigger] product(step, of_int(k)));
                    let score = peakedness(signal, frame_dur, bpm, options.integer_bias);
                    bpm.spec_lt(lowest_tempo(options)) || highest_tempo(options).spec_lt(bpm) || score.nan()
                        || score.spec_le(best.score)
                }
        }),
    decreases n,
{
    if n > 0 {
        let m = (n - 1) as nat;
        lemma_swept_is_best(signal, frame_dur, options, center, span, step, start, m);
        let before = swept(signal, frame_dur, options, center, span, step, start, m);
        let best = swept(signal, frame_dur, options, center, span, step, start, n);
        let bpm = sum(difference(center, span), product(step, of_int(n - 1)));
        if best.bpm != bpm && best != start {
            let k = choose|k: int|
                0 <= k < m && before.bpm == sum(difference(center, span), #[trigger] product(step, of_int(k)));
            assert(best.bpm == sum(difference(center, span), product(step, of_int(k))));
        }
    }
}

/// A sweep finds the tempo whose folding is the most peaked: none of the tempos
/// it tries inside the range scores higher than what it returns, which scores
/// no less than where it started.
pub proof fn law_no_tempo_of_a_sweep_scores_higher(
    signal: Seq<Binary64>,
    frame_dur: Binary64,
    options: TempoOptions,
    sweep: (Binary64, Binary64, u64),
    start: Best,
)
    requires
        start.score == peakedness(signal, frame_dur, start.bpm, options.integer_bias),
        !start.score.nan(),
    ensures
        ({
            let best = after_sweep(signal, frame_dur, options, sweep, start);
            &&& best.score == peakedness(signal, frame_dur, best.bpm, options.integer_bias)
            &&& start.score.spec_le(best.score)
            &&& forall|k: int|
                0 <= k < sweep.2 ==> {
                    let bpm = sum(difference(start.bpm, sweep.0), #[trigger] product(sweep.1, of_int(k)));
                    let score = peakedness(signal, frame_dur, bpm, options.integer_bias);
                    bpm.spec_lt(lowest_tempo(options)) || highest_tempo(options).spec_lt(bpm) || score.nan()
                        || score.spec_le(best.score)
                }
        }),
{
    lemma_swept_is_best(
        signal,
        frame_dur,
        options,
        start.bpm,
        sweep.0,
        sweep.1,
        start,
        sweep.2 as nat,
    );
}

/// Refining a tempo never makes it worse: what comes out scores no less than
/// the given tempo kept in range.
pub proof fn law_refining_never_scores_lower(
    signal: Seq<Binary64>,
    frame_dur: Binary64,
    coarse: Binary64,
    options: TempoOptions,
)
    requires
        !peakedness(
            signal,
            frame_dur,
            clamped(coarse, lowest_tempo(options), highest_tempo(options)),
            options.integer_bias,
        ).nan(),
    ensures
        ({
            let best = refined(signal, frame_dur, coarse, options);
            &&& best.score == peakedness(signal, frame_dur, best.bpm, options.integer_bias)
            &&& peakedness(
                signal,
                frame_dur,
                clamped(coarse, lowest_tempo(options), highest_tempo(options)),
                options.integer_bias,
            ).spec_le(best.score)
        }),
{
    reveal(refined);
    let bpm = clamped(coarse, lowest_tempo(options), highest_tempo(options));
    let start = Best { bpm, score: peakedness(signal, frame_dur, bpm, options.integer_bias) };
    law_no_tempo_of_a_sweep_scores_higher(signal, frame_dur, options, coarse_sweep(), start);
    let one = after_sweep(signal, frame_dur, options, coarse_sweep(), start);
    law_no_tempo_of_a_sweep_scores_higher(signal, frame_dur, options, middle_sweep(), one);
    let two = after_sweep(signal, frame_dur, options, middle_sweep(), one);
    law_no_tempo_of_a_sweep_scores_higher(signal, frame_dur, options, fine_sweep(), two);
}

/// The best candidate wins: what is taken of some lags is what one of them
/// refines to, and none of them refines to a higher score. Nothing is taken
/// only where none scores above minus infinity.
pub proof fn law_the_best_candidate_wins(
    signal: Seq<Binary64>,
    frame_dur: Binary64,
    options: TempoOptions,
    lags: Seq<usize>,
    n: nat,
)
    requires
        n <= lags.len(),
    ensures
        ({
            let found = best_of(signal, frame_dur, options, lags, n);
            &&& found is Some ==> exists|k: int|
                0 <= k < n && found->0 == refined_at(signal, frame_dur, #[trigger] lags[k], options)
            &&& forall|k: int|
                0 <= k < n ==> {
                    let score = refined_at(signal, frame_dur, #[trigger] lags[k], options).score;
                    match found {
                        Some(best) => score.nan() || score.spec_le(best.score),
                        None => !minus_infinity().spec_lt(score),
                    }
                }
            &&& found is Some ==> minus_infinity().spec_lt(found->0.score)
        }),
    decreases n,
{
    if n > 0 {
        let m = (n - 1) as nat;
        law_the_best_candidate_wins(signal, frame_dur, options, lags, m);
        let before = best_of(signal, frame_dur, options, lags, m);
        let found = best_of(signal, frame_dur, options, lags, n);
        let next = refined_at(signal, frame_dur, lags[n - 1], options);
        if found is Some {
            if found->0 == next {
                assert(found->0 == refined_at(signal, frame_dur, lags[n - 1], options));
            } else {
                let k = choose|k: int|
                    0 <= k < m && before->0 == refined_at(signal, frame_dur, #[trigger] lags[k], options);
                assert(found->0 == refined_at(signal, frame_dur, lags[k], options));
            }
        }
        assert forall|k: int| 0 <= k < n implies ({
            let score = refined_at(signal, frame_dur, #[trigger] lags[k], options).score;
            match found {
                Some(best) => score.nan() || score.spec_le(best.score),
                None => !minus_infinity().spec_lt(score),
            }
        }) by {
            let score = refined_at(signal, frame_dur, lags[k], options).score;
            if k < m && before is None {
                assert(!minus_infinity().spec_lt(score));
            }
        }
    }
}

/// The lags that are looked at are the peaks of the correlation above zero,
/// all of them between the shortest and the longest.
pub proof fn law_peaks_are_found(correlation: Seq<Binary64>, from: int, n: int, lag: int)
    requires
        0 <= from < n <= usize::MAX,
        from < lag < n,
    ensures
        peak_lags(correlation, from, n).contains(lag as usize) <==> correlation[lag - 1].spec_lt(correlation[lag])
            && correlation[lag + 1].spec_le(correlation[lag]) && zero().spec_lt(correlation[lag]),
    decreases n - from,
{
    let now = peak_lags(correlation, from, n);
    let before = peak_lags(correlation, from, n - 1);
    lemma_peaks_are_inside(correlation, from, n - 1);
    if lag < n - 1 {
        law_peaks_are_found(correlation, from, n - 1, lag);
        if before.contains(lag as usize) {
            assert(now[before.index_of(lag as usize)] == lag as usize);
        }
        if now.contains(lag as usize) {
            let i = now.index_of(lag as usize);
            if i < before.len() {
                assert(before[i] == lag as usize);
            }
        }
    } else {
        if now.len() > before.len() {
            assert(now[before.len() as int] == lag as usize);
        } else if now.contains(lag as usize) {
            let i = now.index_of(lag as usize);
            assert(before[i] == lag as usize);
        }
    }
}

proof fn lemma_peaks_are_inside(correlation: Seq<Binary64>, from: int, n: int)
    requires
        0 <= from <= n <= usize::MAX,
    ensures
        forall|i: int|
            0 <= i < peak_lags(correlation, from, n).len() ==> from < #[trigger] peak_lags(correlation, from, n)[i] < n,
        peak_lags(correlation, from, n).len() <= n,
    decreases n - from,
{
    if n > from + 1 {
        lemma_peaks_are_inside(correlation, from, n - 1);
    }
}

/// The lags that are tried come the most correlated first, and none that is
/// left out is more correlated than one that is tried.
pub proof fn law_the_strongest_lags_are_tried(
    correlation: Seq<Binary64>,
    options: TempoOptions,
    shortest: int,
    longest: int,
    lag: usize,
    i: int,
)
    requires
        0 <= shortest < longest < correlation.len() <= usize::MAX,
        candidate_lags(correlation, shortest, longest).contains(lag),
        !ranked_lags(correlation, options, shortest, longest).contains(lag),
        0 <= i < ranked_lags(correlation, options, shortest, longest).len(),
    ensures
        ranked_lags(correlation, options, shortest, longest).len() == options.candidates || (options.candidates == 0
            && ranked_lags(correlation, options, shortest, longest).len() == 1),
        correlation[lag as int].rank() <= correlation[ranked_lags(
            correlation,
            options,
            shortest,
            longest,
        )[i] as int].rank(),
{
    let lags = candidate_lags(correlation, shortest, longest);
    lemma_peaks_are_inside(correlation, shortest, longest);
    let keys = correlation_keys(correlation, lags);
    law_order_is_stable(keys, keys.len());
    let order = in_order(keys);
    let ranked = arranged(lags, order);
    let out = ranked_lags(correlation, options, shortest, longest);
    let c = lags.index_of(lag);
    assert(order.contains(c as usize));
    let k = order.index_of(c as usize);
    assert(ranked[k] == lag);
    if k < out.len() {
        assert(out[k] == lag);
    }
    assert(out[i] == ranked[i]);
    assert(keys[order[i] as int] <= keys[order[k] as int]);
    let x = correlation[ranked[i] as int];
    let y = correlation[lag as int];
    assert(-0x8000_0000_0000_0000 < x.rank() < 0x8000_0000_0000_0000);
    assert(-0x8000_0000_0000_0000 < y.rank() < 0x8000_0000_0000_0000);
}

proof fn lemma_bucket_is_inside(index: int, period_frames: Binary64, bins: nat)
    requires
        bins > 0,
    ensures
        0 <= bucket(index, period_frames, bins) < bins,
{
}

proof fn lemma_folded_agrees(a: Seq<Binary64>, b: Seq<Binary64>, period_frames: Binary64, bins: nat, n: nat)
    requires
        bins > 0,
        n <= a.len() && n <= b.len(),
        forall|i: int| 0 <= i < n ==> a[i] == #[trigger] b[i],
    ensures
        folded(a, period_frames, bins, n) == folded(b, period_frames, bins, n),
        folded(a, period_frames, bins, n).len() == bins,
    decreases n,
{
    if n > 0 {
        lemma_folded_agrees(a, b, period_frames, bins, (n - 1) as nat);
        lemma_bucket_is_inside(n - 1, period_frames, bins);
        assert(a[n - 1] == b[n - 1]);
    }
}

/// Folding a signal adds every frame to one bucket: a signal that is one frame
/// longer has that frame's value more in the frame's bucket, and the same in
/// every other. Nothing folds to nothing.
pub proof fn law_each_frame_is_folded_once(signal: Seq<Binary64>, value: Binary64, period_frames: Binary64, bins: nat, b: int)
    requires
        0 <= b < bins,
    ensures
        ({
            let longer = signal.push(value);
            let before = folded(signal, period_frames, bins, signal.len());
            let after = folded(longer, period_frames, bins, longer.len());
            let at = bucket(signal.len() as int, period_frames, bins);
            &&& before.len() == bins && after.len() == bins
            &&& 0 <= at < bins
            &&& b == at ==> after[b] == sum(before[b], value)
            &&& b != at ==> after[b] == before[b]
            &&& signal.len() == 0 ==> before[b] == zero()
        }),
{
    let longer = signal.push(value);
    lemma_folded_agrees(signal, longer, period_frames, bins, signal.len());
    lemma_bucket_is_inside(signal.len() as int, period_frames, bins);
}

/// The beats of an estimate go at its tempo: each is sixty seconds over the
/// tempo behind the one before, and none is past the end of the track.
pub proof fn law_estimated_beats_go_at_the_tempo(estimate: TempoEstimate, duration_sec: Binary64)
    ensures
        ({
            let beats = grid_beats(estimate, duration_sec);
            let period = quotient(of_int(60), estimate.bpm);
            &&& forall|j: int, k: int|
                0 <= j < k < beats.len() && k == j + 1 ==> #[trigger] beats[k] == sum(#[trigger] beats[j], period)
            &&& forall|k: int| 0 <= k < beats.len() ==> (#[trigger] beats[k]).spec_le(sum(duration_sec, nano()))
            &&& beats.len() > 0 ==> beats[0] == difference(
                estimate.phase_sec,
                product(floored(quotient(estimate.phase_sec, period)), period),
            )
        }),
{
    let period = period_of(estimate.bpm);
    if period.finite() && !period.spec_le(zero()) && !duration_sec.spec_le(zero()) {
        let back = product(floored(quotient(estimate.phase_sec, period)), period);
        lemma_walk(difference(estimate.phase_sec, back), period, sum(duration_sec, nano()));
    }
}

/// A tempo close to a whole number scores what its folding gives, with or
/// without a bias for such tempos; what folds badly scores nothing at all.
pub proof fn law_whole_tempos_keep_their_score(signal: Seq<Binary64>, frame_dur: Binary64, bpm: Binary64, bias: Binary64)
    ensures
        near_integer(bpm) ==> peakedness(signal, frame_dur, bpm, bias) == peakedness(signal, frame_dur, bpm, zero()),
        !foldable(beat_frames(bpm, frame_dur)) ==> peakedness(signal, frame_dur, bpm, bias) == minus_infinity(),
        foldable(beat_frames(bpm, frame_dur)) && zero().spec_lt(bias) && !near_integer(bpm) ==> peakedness(
            signal,
            frame_dur,
            bpm,
            bias,
        ) == product(
            peakedness(signal, frame_dur, bpm, zero()),
            difference(one(), clamped(bias, zero(), one())),
        ),
{
}

/// The lags of a search stay inside the signal, and a longer signal allows no
/// shorter ones.
pub proof fn law_lags_stay_in_the_signal(options: TempoOptions, frame_dur: Binary64, m: nat, n: nat)
    requires
        m <= n,
    ensures
        n > 0 ==> longest_lag(options, frame_dur, n) < n,
        longest_lag(options, frame_dur, m) <= longest_lag(options, frame_dur, n),
{
}

/// A range of tempos that is supported is searched as it is, whichever way round
/// it is given.
pub proof fn law_a_supported_range_is_searched(options: TempoOptions)
    requires
        of_int(20).spec_le(options.bpm_min),
        options.bpm_min.spec_lt(options.bpm_max),
        sum(options.bpm_min, one()).spec_le(options.bpm_max),
        options.bpm_max.spec_le(of_int(400)),
    ensures
        lowest_tempo(options) == options.bpm_min,
        highest_tempo(options) == options.bpm_max,
        lowest_tempo((TempoOptions { bpm_min: options.bpm_max, bpm_max: options.bpm_min, ..options })) == options.bpm_min,
        highest_tempo((TempoOptions { bpm_min: options.bpm_max, bpm_max: options.bpm_min, ..options })) == options.bpm_max,
{
}

} // verus!
