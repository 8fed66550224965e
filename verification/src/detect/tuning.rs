//! How far a recording is off concert pitch, read from its spectral peaks.

use crate::detect::matrix::Mat;
use crate::number::binary64::{
    absolute, difference, half, negated, of_int, one, product, quotient, smaller, sum, zero, Binary64,
};
use crate::number::integral::{euclidean_remainder, floored, truncated};
use crate::number::lists::{highest, highest_of, median, middle};
use vstd::prelude::*;

verus! {

/// The share of a frame's highest value below which nothing is a peak: 0.1.
#[verifier::allow_in_spec]
pub fn peak_share() -> Binary64
    returns
        (Binary64 { bits: 0x3FB9_9999_9999_999A }),
{
    Binary64 { bits: 0x3FB9_9999_9999_999A }
}

/// The central difference at a place, one-sided at the ends.
pub open spec fn slope(values: Seq<Binary64>, i: int) -> Binary64 {
    let n = values.len();
    if n < 2 {
        zero()
    } else if i == 0 {
        difference(values[1], values[0])
    } else if i == n - 1 {
        difference(values[n - 1], values[n - 2])
    } else {
        product(half(), difference(values[i + 1], values[i - 1]))
    }
}

/// The central difference at a place.
pub fn gradient_at(values: &[Binary64], i: usize) -> (r: Binary64)
    requires
        i < values@.len(),
    ensures
        r == slope(values@, i as int),
{
    let n: usize = values.len();
    if n < 2 {
        zero()
    } else if i == 0 {
        values[1].minus(values[0])
    } else if i == n - 1 {
        values[n - 1].minus(values[n - 2])
    } else {
        half().times(values[i + 1].minus(values[i - 1]))
    }
}

/// How far from a place the peak of the parabola through it and its
/// neighbours lies. Where the curvature is no larger than the slope there is no
/// peak, and the offset is zero.
pub open spec fn peak_offset(values: Seq<Binary64>, i: int) -> Binary64 {
    if i == 0 || i >= values.len() - 1 {
        zero()
    } else {
        let a = difference(sum(values[i + 1], values[i - 1]), product(of_int(2), values[i]));
        let b = product(half(), difference(values[i + 1], values[i - 1]));
        if absolute(a).spec_le(absolute(b)) {
            zero()
        } else {
            quotient(negated(b), a)
        }
    }
}

/// The offset of the peak near a place.
pub fn parabolic_shift_at(values: &[Binary64], i: usize) -> (r: Binary64)
    requires
        i < values@.len(),
    ensures
        r == peak_offset(values@, i as int),
{
    if i == 0 || i >= values.len() - 1 {
        zero()
    } else {
        let a: Binary64 = values[i + 1].plus(values[i - 1]).minus(Binary64::from_u64(2).times(values[i]));
        let b: Binary64 = half().times(values[i + 1].minus(values[i - 1]));
        if a.abs().le(b.abs()) {
            zero()
        } else {
            b.negate().over(a)
        }
    }
}

/// Whether a place is above its left neighbour and not below its right one.
/// The first never is.
pub open spec fn is_local_max(values: Seq<Binary64>, i: int) -> bool {
    let n = values.len();
    if i == 0 {
        false
    } else if i == n - 1 {
        values[i - 1].spec_lt(values[i])
    } else {
        values[i - 1].spec_lt(values[i]) && values[i + 1].spec_le(values[i])
    }
}

/// Whether a place is a local maximum.
pub fn local_max_at(values: &[Binary64], i: usize) -> (r: bool)
    requires
        i < values@.len(),
    ensures
        r == is_local_max(values@, i as int),
{
    let n: usize = values.len();
    if i == 0 {
        false
    } else if i == n - 1 {
        values[i - 1].lt(values[i])
    } else {
        values[i - 1].lt(values[i]) && values[i + 1].le(values[i])
    }
}

/// A frame with everything far below its highest value set to zero.
pub open spec fn gated(column: Seq<Binary64>) -> Seq<Binary64> {
    let least = product(peak_share(), highest(column));
    column.map_values(
        |v: Binary64|
            if least.spec_lt(v) {
                v
            } else {
                zero()
            },
    )
}

/// A frame with everything far below its highest value set to zero.
fn gate(column: &[Binary64]) -> (r: Vec<Binary64>)
    ensures
        r@ == gated(column@),
{
    let least: Binary64 = peak_share().times(highest_of(column));
    let ghost want = gated(column@);
    let mut out: Vec<Binary64> = Vec::new();
    let mut i: usize = 0;
    while i < column.len()
        invariant
            i <= column@.len(),
            least == product(peak_share(), highest(column@)),
            want == gated(column@),
            out@ == want.take(i as int),
        decreases column@.len() - i,
    {
        if least.lt(column[i]) {
            out.push(column[i]);
        } else {
            out.push(zero());
        }
        i = i + 1;
        assert(out@ =~= want.take(i as int));
    }
    assert(out@ =~= want);
    out
}

/// A spectral peak: its pitch in hertz and its height.
#[derive(Debug, Clone, Copy, PartialEq)]
pub struct PitchPeak {
    pub pitch: Binary64,
    pub height: Binary64,
}

/// The highest pitch looked at: 4000 Hz, or the Nyquist frequency.
pub open spec fn highest_pitch(sample_rate: Binary64) -> Binary64 {
    smaller(of_int(4000), quotient(sample_rate, of_int(2)))
}

/// Whether a bin of a frame is a peak that is looked at.
pub open spec fn counts_as_peak(column: Seq<Binary64>, freqs: Seq<Binary64>, sample_rate: Binary64, bin: int) -> bool {
    &&& is_local_max(gated(column), bin)
    &&& !freqs[bin].spec_lt(of_int(150))
    &&& !highest_pitch(sample_rate).spec_le(freqs[bin])
}

/// The peak at a bin of a frame.
pub open spec fn peak_at(column: Seq<Binary64>, sample_rate: Binary64, n_fft: usize, bin: int) -> PitchPeak {
    let shift = peak_offset(column, bin);
    PitchPeak {
        pitch: quotient(product(sum(of_int(bin), shift), sample_rate), of_int(n_fft as int)),
        height: sum(column[bin], product(product(half(), slope(column, bin)), shift)),
    }
}

/// The peaks in the first `n` bins of a frame.
pub open spec fn frame_peaks(
    column: Seq<Binary64>,
    freqs: Seq<Binary64>,
    sample_rate: Binary64,
    n_fft: usize,
    n: nat,
) -> Seq<PitchPeak>
    decreases n,
{
    if n == 0 {
        seq![]
    } else {
        let before = frame_peaks(column, freqs, sample_rate, n_fft, (n - 1) as nat);
        if counts_as_peak(column, freqs, sample_rate, n - 1) {
            before.push(peak_at(column, sample_rate, n_fft, n - 1))
        } else {
            before
        }
    }
}

/// The peaks of a frame.
pub fn find_frame_peaks(column: &[Binary64], freqs: &[Binary64], sample_rate: Binary64, n_fft: usize) -> (r: Vec<PitchPeak>)
    requires
        freqs@.len() >= column@.len(),
    ensures
        r@ == frame_peaks(column@, freqs@, sample_rate, n_fft, column@.len()),
{
    let audible: Vec<Binary64> = gate(column);
    let low: Binary64 = Binary64::from_u64(150);
    let high: Binary64 = Binary64::from_u64(4000).min(sample_rate.over(Binary64::from_u64(2)));
    let mut out: Vec<PitchPeak> = Vec::new();
    let mut bin: usize = 0;
    while bin < column.len()
        invariant
            bin <= column@.len() <= freqs@.len(),
            audible@ == gated(column@),
            low == of_int(150),
            high == highest_pitch(sample_rate),
            out@ == frame_peaks(column@, freqs@, sample_rate, n_fft, bin as nat),
        decreases column@.len() - bin,
    {
        if local_max_at(audible.as_slice(), bin) && !freqs[bin].lt(low) && !high.le(freqs[bin]) {
            let shift: Binary64 = parabolic_shift_at(column, bin);
            let place: Binary64 = Binary64::from_u64(bin as u64).plus(shift);
            let pitch: Binary64 = place.times(sample_rate).over(Binary64::from_u64(n_fft as u64));
            let height: Binary64 = column[bin].plus(half().times(gradient_at(column, bin)).times(shift));
            out.push(PitchPeak { pitch, height });
        }
        bin = bin + 1;
    }
    out
}

/// The peaks of the first `n` frames.
pub open spec fn all_peaks(power: Mat, freqs: Seq<Binary64>, sample_rate: Binary64, n_fft: usize, n: nat) -> Seq<PitchPeak>
    decreases n,
{
    if n == 0 {
        seq![]
    } else {
        all_peaks(power, freqs, sample_rate, n_fft, (n - 1) as nat) + frame_peaks(
            power.column_at(n - 1),
            freqs,
            sample_rate,
            n_fft,
            power.height(),
        )
    }
}

/// The peaks of all frames.
pub fn pitch_peaks(power: &Mat, freqs: &[Binary64], sample_rate: Binary64, n_fft: usize) -> (r: Vec<PitchPeak>)
    requires
        power.wf(),
        freqs@.len() >= power.height(),
    ensures
        r@ == all_peaks(*power, freqs@, sample_rate, n_fft, power.width()),
{
    let mut out: Vec<PitchPeak> = Vec::new();
    let mut frame: usize = 0;
    while frame < power.cols()
        invariant
            frame <= power.width(),
            power.wf(),
            freqs@.len() >= power.height(),
            out@ == all_peaks(*power, freqs@, sample_rate, n_fft, frame as nat),
        decreases power.width() - frame,
    {
        let column: Vec<Binary64> = power.column(frame);
        let mut found: Vec<PitchPeak> = find_frame_peaks(column.as_slice(), freqs, sample_rate, n_fft);
        out.append(&mut found);
        frame = frame + 1;
    }
    out
}

/// The heights of some peaks.
pub open spec fn heights(peaks: Seq<PitchPeak>) -> Seq<Binary64> {
    peaks.map_values(|p: PitchPeak| p.height)
}

/// The pitches of the first `n` peaks that are no lower than `least`.
pub open spec fn loud_pitches(peaks: Seq<PitchPeak>, least: Binary64, n: nat) -> Seq<Binary64>
    decreases n,
{
    if n == 0 {
        seq![]
    } else {
        let before = loud_pitches(peaks, least, (n - 1) as nat);
        if zero().spec_lt(peaks[n - 1].pitch) && least.spec_le(peaks[n - 1].height) {
            before.push(peaks[n - 1].pitch)
        } else {
            before
        }
    }
}

/// The pitches that vote on the tuning: those of the peaks at or above the
/// median height, so that the noise floor does not outvote the loud partials.
pub fn tuning_voters(peaks: &[PitchPeak]) -> (r: Vec<Binary64>)
    ensures
        r@ == loud_pitches(peaks@, middle(heights(peaks@)), peaks@.len()),
{
    let ghost all = heights(peaks@);
    let mut levels: Vec<Binary64> = Vec::new();
    let mut i: usize = 0;
    while i < peaks.len()
        invariant
            i <= peaks@.len(),
            all == heights(peaks@),
            levels@ == all.take(i as int),
        decreases peaks@.len() - i,
    {
        levels.push(peaks[i].height);
        i = i + 1;
        assert(levels@ =~= all.take(i as int));
    }
    assert(levels@ =~= all);
    let least: Binary64 = median(levels.as_slice());
    let mut out: Vec<Binary64> = Vec::new();
    let mut k: usize = 0;
    while k < peaks.len()
        invariant
            k <= peaks@.len(),
            out@ == loud_pitches(peaks@, least, k as nat),
        decreases peaks@.len() - k,
    {
        if zero().lt(peaks[k].pitch) && least.le(peaks[k].height) {
            out.push(peaks[k].pitch);
        }
        k = k + 1;
    }
    out
}

/// The bins of the histogram, each a hundredth of a semitone.
pub const TUNING_BINS: usize = 100;

/// The bin that a pitch in semitones votes for.
pub open spec fn tuning_bin(semitones: Binary64) -> nat {
    let wrapped = euclidean_remainder(semitones, one());
    let residual = if half().spec_le(wrapped) {
        difference(wrapped, one())
    } else {
        wrapped
    };
    truncated(floored(product(sum(residual, half()), of_int(100))), 99)
}

/// How many of the first `n` pitches vote for a bin.
pub open spec fn votes_for(semitones: Seq<Binary64>, bin: nat, n: nat) -> nat
    decreases n,
{
    if n == 0 {
        0
    } else {
        votes_for(semitones, bin, (n - 1) as nat) + if tuning_bin(semitones[n - 1]) == bin {
            1nat
        } else {
            0
        }
    }
}

/// The first of the first `n + 1` bins with the most votes.
pub open spec fn winning_bin(semitones: Seq<Binary64>, n: nat) -> nat
    decreases n,
{
    if n == 0 {
        0
    } else {
        let before = winning_bin(semitones, (n - 1) as nat);
        if votes_for(semitones, before, semitones.len()) < votes_for(semitones, n, semitones.len()) {
            n
        } else {
            before
        }
    }
}

/// The deviation from equal temperament, in semitones.
pub open spec fn tuning(semitones: Seq<Binary64>) -> Binary64 {
    if semitones.len() == 0 {
        zero()
    } else {
        sum(negated(half()), quotient(of_int(winning_bin(semitones, 99) as int), of_int(100)))
    }
}

/// The bin that a pitch in semitones votes for.
fn bin_of(semitones: Binary64) -> (r: usize)
    ensures
        r == tuning_bin(semitones),
        r < TUNING_BINS,
{
    let wrapped: Binary64 = semitones.rem_euclid(one());
    let residual: Binary64 = if half().le(wrapped) {
        wrapped.minus(one())
    } else {
        wrapped
    };
    residual.plus(half()).times(Binary64::from_u64(100)).floor().truncate(99) as usize
}

proof fn lemma_votes_at_most(semitones: Seq<Binary64>, bin: nat, n: nat)
    ensures
        votes_for(semitones, bin, n) <= n,
    decreases n,
{
    if n > 0 {
        lemma_votes_at_most(semitones, bin, (n - 1) as nat);
    }
}

/// The most frequent deviation from equal temperament of some pitches given
/// in semitones. A bin wins over later ones with as many votes.
pub fn pitch_tuning(semitones: &[Binary64]) -> (r: Binary64)
    ensures
        r == tuning(semitones@),
{
    if semitones.len() == 0 {
        return zero();
    }
    let mut counts: Vec<usize> = Vec::new();
    while counts.len() < TUNING_BINS
        invariant
            counts@.len() <= TUNING_BINS,
            forall|b: int| 0 <= b < counts@.len() ==> (#[trigger] counts@[b]) == 0,
        decreases TUNING_BINS - counts@.len(),
    {
        counts.push(0);
    }
    let mut i: usize = 0;
    while i < semitones.len()
        invariant
            i <= semitones@.len(),
            counts@.len() == TUNING_BINS,
            forall|b: int|
                0 <= b < TUNING_BINS ==> (#[trigger] counts@[b]) == votes_for(semitones@, b as nat, i as nat),
        decreases semitones@.len() - i,
    {
        let bin: usize = bin_of(semitones[i]);
        proof {
            lemma_votes_at_most(semitones@, bin as nat, i as nat);
        }
        let ghost before = counts@;
        counts[bin] = counts[bin] + 1;
        i = i + 1;
        assert forall|b: int| 0 <= b < TUNING_BINS implies (#[trigger] counts@[b]) == votes_for(
            semitones@,
            b as nat,
            i as nat,
        ) by {
            assert(before[b] == votes_for(semitones@, b as nat, (i - 1) as nat));
        }
    }
    let mut best: usize = 0;
    let mut b: usize = 1;
    while b < TUNING_BINS
        invariant
            1 <= b <= TUNING_BINS,
            best < TUNING_BINS,
            counts@.len() == TUNING_BINS,
            forall|k: int|
                0 <= k < TUNING_BINS ==> (#[trigger] counts@[k]) == votes_for(
                    semitones@,
                    k as nat,
                    semitones@.len(),
                ),
            best == winning_bin(semitones@, (b - 1) as nat),
        decreases TUNING_BINS - b,
    {
        if counts[best] < counts[b] {
            best = b;
        }
        b = b + 1;
    }
    half().negate().plus(Binary64::from_u64(best as u64).over(Binary64::from_u64(100)))
}

/// No bin has more votes than the one that wins, and of equals the first does.
pub proof fn law_the_winning_bin_has_the_most_votes(semitones: Seq<Binary64>, n: nat, bin: nat)
    requires
        bin <= n,
    ensures
        winning_bin(semitones, n) <= n,
        votes_for(semitones, bin, semitones.len()) <= votes_for(
            semitones,
            winning_bin(semitones, n),
            semitones.len(),
        ),
        bin < winning_bin(semitones, n) ==> votes_for(semitones, bin, semitones.len()) < votes_for(
            semitones,
            winning_bin(semitones, n),
            semitones.len(),
        ),
    decreases n,
{
    if n > 0 {
        if bin < n {
            law_the_winning_bin_has_the_most_votes(semitones, (n - 1) as nat, bin);
        } else {
            law_the_winning_bin_has_the_most_votes(semitones, (n - 1) as nat, 0);
        }
    }
}

/// Each pitch has one vote: a further one adds a vote to its own bin and to no
/// other.
pub proof fn law_each_pitch_votes_once(semitones: Seq<Binary64>, extra: Binary64, bin: nat)
    ensures
        tuning_bin(extra) == bin ==> votes_for(semitones.push(extra), bin, semitones.len() + 1) == votes_for(
            semitones,
            bin,
            semitones.len(),
        ) + 1,
        tuning_bin(extra) != bin ==> votes_for(semitones.push(extra), bin, semitones.len() + 1) == votes_for(
            semitones,
            bin,
            semitones.len(),
        ),
{
    lemma_same_votes(semitones, semitones.push(extra), bin, semitones.len());
}

proof fn lemma_same_votes(a: Seq<Binary64>, b: Seq<Binary64>, bin: nat, n: nat)
    requires
        n <= a.len(),
        n <= b.len(),
        forall|i: int| 0 <= i < n ==> #[trigger] a[i] == b[i],
    ensures
        votes_for(a, bin, n) == votes_for(b, bin, n),
    decreases n,
{
    if n > 0 {
        lemma_same_votes(a, b, bin, (n - 1) as nat);
        assert(a[n - 1] == b[n - 1]);
    }
}

/// Every pitch that is as loud as the middle one votes, and no quieter one does.
pub proof fn law_loud_pitches_vote(peaks: Seq<PitchPeak>, least: Binary64, n: nat) -> (of: Seq<int>)
    requires
        n <= peaks.len(),
    ensures
        of.len() == loud_pitches(peaks, least, n).len(),
        forall|a: int, b: int| 0 <= a < b < of.len() ==> #[trigger] of[a] < #[trigger] of[b],
        forall|m: int|
            0 <= m < of.len() ==> 0 <= #[trigger] of[m] < n && loud_pitches(peaks, least, n)[m] == peaks[of[m]].pitch
                && zero().spec_lt(peaks[of[m]].pitch) && least.spec_le(peaks[of[m]].height),
        forall|i: int|
            0 <= i < n && zero().spec_lt((#[trigger] peaks[i]).pitch) && least.spec_le(peaks[i].height) ==> of.contains(i),
    decreases n,
{
    if n == 0 {
        seq![]
    } else {
        let before = law_loud_pitches_vote(peaks, least, (n - 1) as nat);
        if zero().spec_lt(peaks[n - 1].pitch) && least.spec_le(peaks[n - 1].height) {
            let of = before.push(n - 1);
            assert forall|i: int|
                0 <= i < n && zero().spec_lt((#[trigger] peaks[i]).pitch) && least.spec_le(peaks[i].height) implies of.contains(
                i,
            ) by {
                if i < n - 1 {
                    let m = choose|m: int| 0 <= m < before.len() && before[m] == i;
                    assert(of[m] == i);
                } else {
                    assert(of[before.len() as int] == i);
                }
            }
            of
        } else {
            before
        }
    }
}

} // verus!
