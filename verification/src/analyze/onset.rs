//! The onset envelope: how much the spectrum changes, frame by frame.
//!
//! Everything downstream of it, tempo, phase and the beatgrid, is a reading of
//! this one curve.

use crate::analyze::features::{doubled_to, lemma_doubling_grows, row_mean};
use crate::analyze::report::frame_step;
use crate::number::lists::{rows_of, squares_about, total, total_of, total_squares_about};
use crate::number::binary64::{difference, larger, nano, negated, of_int, pico, product, quotient, sum, zero, Binary64};
use crate::number::integral::{lemma_rounded_exact, nearest_integer, truncated};
use crate::number::laws::{law_addition_keeps_the_order, lemma_no_magnitude};
use crate::number::root::square_root;
use vstd::prelude::*;

verus! {

/// Where in the analysis window a transient sits when the flux peaks: 0.75.
///
/// The window tapers, so a transient entering at the very edge contributes
/// almost nothing; the energy climbs fastest as it crosses the three-quarter
/// point. Reporting the raw frame start would place every onset early.
#[verifier::allow_in_spec]
pub fn window_group_delay() -> Binary64
    returns
        (Binary64 { bits: 0x3FE8_0000_0000_0000 }),
{
    Binary64 { bits: 0x3FE8_0000_0000_0000 }
}

/// Onset strength over time, on a fixed frame grid.
#[derive(Debug, Clone, PartialEq)]
pub struct OnsetEnvelope {
    /// One non-negative strength value per frame.
    pub strength: Vec<Binary64>,
    /// Hop between frames, in samples.
    pub hop: usize,
    /// Analysis window length, in samples. Sets the group delay.
    pub n_fft: usize,
    pub sample_rate: u32,
}

/// The contents of an onset envelope.
#[verifier::ext_equal]
pub struct Onsets {
    pub strength: Seq<Binary64>,
    pub hop: usize,
    pub n_fft: usize,
    pub sample_rate: u32,
}

impl Onsets {
    /// The seconds between consecutive frames.
    pub open spec fn step(self) -> Binary64 {
        frame_step(self.hop, self.sample_rate)
    }

    /// Frames `from..to` alone.
    pub open spec fn window(self, from: int, to: int) -> Onsets {
        Onsets { strength: self.strength.subrange(from, to), ..self }
    }
}

impl View for OnsetEnvelope {
    type V = Onsets;

    open spec fn view(&self) -> Onsets {
        Onsets { strength: self.strength@, hop: self.hop, n_fft: self.n_fft, sample_rate: self.sample_rate }
    }
}

/// Delay between a frame's nominal start and the transient it reports on.
pub open spec fn delay_of(n_fft: usize, sample_rate: u32) -> Binary64 {
    if sample_rate == 0 {
        zero()
    } else {
        quotient(product(window_group_delay(), of_int(n_fft as int)), of_int(sample_rate as int))
    }
}

/// Whether any value stands out from nothing.
pub open spec fn energetic(values: Seq<Binary64>) -> bool {
    exists|i: int| 0 <= i < values.len() && nano().spec_lt(#[trigger] values[i])
}

/// How far values spread about their mean.
pub open spec fn spread_of(values: Seq<Binary64>) -> Binary64 {
    square_root(quotient(total(squares_about(values, row_mean(values))), of_int(values.len() as int)))
}

/// Values moved to mean zero and scaled to unit deviation; zeros where they do
/// not deviate.
pub open spec fn standardized(values: Seq<Binary64>) -> Seq<Binary64> {
    values.map_values(
        |v: Binary64|
            if spread_of(values).spec_lt(pico()) {
                zero()
            } else {
                quotient(difference(v, row_mean(values)), spread_of(values))
            },
    )
}

impl OnsetEnvelope {
    /// The seconds between consecutive frames.
    pub open spec fn step(&self) -> Binary64 {
        frame_step(self.hop, self.sample_rate)
    }

    /// The number of frames.
    pub fn len(&self) -> (r: usize)
        ensures
            r == self.strength@.len(),
    {
        self.strength.len()
    }

    /// Whether there are no frames.
    pub fn is_empty(&self) -> (r: bool)
        ensures
            r == (self.strength@.len() == 0),
    {
        self.strength.len() == 0
    }

    /// Seconds between consecutive frames.
    pub fn frame_duration(&self) -> (r: Binary64)
        ensures
            r == self.step(),
    {
        if self.sample_rate == 0 {
            zero()
        } else {
            Binary64::from_u64(self.hop as u64).over(Binary64::from_u64(self.sample_rate as u64))
        }
    }

    /// Delay between a frame's nominal start and the transient it reports on.
    ///
    /// Anything that converts a frame index back into a track time has to add
    /// this, or every derived time lands early by the same amount.
    pub fn group_delay(&self) -> (r: Binary64)
        ensures
            r == delay_of(self.n_fft, self.sample_rate),
    {
        if self.sample_rate == 0 {
            zero()
        } else {
            let ahead: Binary64 = window_group_delay().times(Binary64::from_u64(self.n_fft as u64));
            ahead.over(Binary64::from_u64(self.sample_rate as u64))
        }
    }

    /// Time of the transient that frame `index` reports on.
    pub fn frame_time(&self, index: usize) -> (r: Binary64)
        ensures
            r == sum(product(of_int(index as int), self.step()), delay_of(self.n_fft, self.sample_rate)),
    {
        Binary64::from_u64(index as u64).times(self.frame_duration()).plus(self.group_delay())
    }

    /// The frame that reports on a time.
    pub open spec fn frame_near(&self, time: Binary64) -> int {
        let at = truncated(
            larger(
                nearest_integer(quotient(difference(time, delay_of(self.n_fft, self.sample_rate)), self.step())),
                zero(),
            ),
            usize::MAX as nat,
        );
        if self.step().spec_le(zero()) || self.strength@.len() == 0 {
            0
        } else if at < self.strength@.len() {
            at as int
        } else {
            self.strength@.len() - 1
        }
    }

    /// Frame reporting on a given time.
    pub fn frame_at(&self, time: Binary64) -> (r: usize)
        ensures
            r == self.frame_near(time),
    {
        let step: Binary64 = self.frame_duration();
        if step.le(zero()) || self.strength.len() == 0 {
            return 0;
        }
        let shifted: Binary64 = time.minus(self.group_delay()).over(step).round().max(zero());
        let at: usize = shifted.truncate(usize::MAX as u64) as usize;
        if at < self.strength.len() {
            at
        } else {
            self.strength.len() - 1
        }
    }

    /// Whether there is any onset energy at all: digital silence has no tempo.
    pub fn has_energy(&self) -> (r: bool)
        ensures
            r == energetic(self.strength@),
    {
        let mut i: usize = 0;
        while i < self.strength.len()
            invariant
                i <= self.strength@.len(),
                forall|k: int| 0 <= k < i ==> !nano().spec_lt(#[trigger] self.strength@[k]),
            decreases self.strength@.len() - i,
        {
            if nano().lt(self.strength[i]) {
                assert(nano().spec_lt(self.strength@[i as int]));
                return true;
            }
            i = i + 1;
        }
        false
    }

    /// Frames `from..to` alone.
    pub fn window(&self, from: usize, to: usize) -> (r: OnsetEnvelope)
        requires
            from <= to <= self.strength@.len(),
        ensures
            r@ == self@.window(from as int, to as int),
    {
        let ghost want = self.strength@.subrange(from as int, to as int);
        let mut strength: Vec<Binary64> = Vec::new();
        let mut i: usize = from;
        while i < to
            invariant
                from <= i <= to <= self.strength@.len(),
                want == self.strength@.subrange(from as int, to as int),
                strength@ == want.take(i - from),
            decreases to - i,
        {
            strength.push(self.strength[i]);
            i = i + 1;
            assert(strength@ =~= want.take(i - from));
        }
        assert(strength@ =~= want);
        OnsetEnvelope { strength, hop: self.hop, n_fft: self.n_fft, sample_rate: self.sample_rate }
    }

    /// Mean-removes and scales to unit standard deviation.
    ///
    /// Autocorrelation of a curve with a large constant part is dominated by it
    /// rather than by its periodicity.
    pub fn normalized(&self) -> (r: Vec<Binary64>)
        ensures
            r@ == standardized(self.strength@),
    {
        standardize(self.strength.as_slice())
    }
}

/// Values moved to mean zero and scaled to unit deviation.
fn standardize(values: &[Binary64]) -> (r: Vec<Binary64>)
    ensures
        r@ == standardized(values@),
{
    let count: Binary64 = Binary64::from_u64(values.len() as u64);
    let mean: Binary64 = total_of(values).over(count);
    let squares: Binary64 = total_squares_about(values, mean);
    let scale: Binary64 = squares.over(count).sqrt();
    let flat: bool = scale.lt(pico());
    let ghost want = standardized(values@);
    let mut out: Vec<Binary64> = Vec::new();
    let mut k: usize = 0;
    while k < values.len()
        invariant
            k <= values@.len(),
            mean == row_mean(values@),
            scale == spread_of(values@),
            flat == scale.spec_lt(pico()),
            want == standardized(values@),
            out@ == want.take(k as int),
        decreases values@.len() - k,
    {
        if flat {
            out.push(zero());
        } else {
            out.push(values[k].minus(mean).over(scale));
        }
        k = k + 1;
        assert(out@ =~= want.take(k as int));
    }
    assert(out@ =~= want);
    out
}

/// How the onset envelope is computed.
#[derive(Debug, Clone, Copy, PartialEq, Structural)]
pub struct OnsetOptions {
    /// FFT size. Must be a power of two for the transform to be fast.
    pub n_fft: usize,
    /// Hop between analysis frames, in samples.
    pub hop: usize,
    /// Number of mel bands.
    pub n_mels: usize,
    /// Lowest mel band edge.
    pub fmin: Binary64,
    /// Highest mel band edge; clamped to Nyquist.
    pub fmax: Binary64,
}

impl Default for OnsetOptions {
    fn default() -> (r: Self)
        ensures
            r == (OnsetOptions {
                n_fft: 2048,
                hop: 128,
                n_mels: 64,
                fmin: Binary64 { bits: 0x403E_0000_0000_0000 },
                fmax: Binary64 { bits: 0x40C5_8880_0000_0000 },
            }),
    {
        OnsetOptions {
            n_fft: 2048,
            hop: 128,
            n_mels: 64,
            fmin: Binary64 { bits: 0x403E_0000_0000_0000 },
            fmax: Binary64 { bits: 0x40C5_8880_0000_0000 },
        }
    }
}

impl OnsetOptions {
    /// The window length in use: the asked-for one, at least 16 samples, made a
    /// power of two.
    pub fn window_length(&self) -> (r: usize)
        requires
            doubled_to(16, self.n_fft as nat) <= usize::MAX,
        ensures
            r == doubled_to(16, self.n_fft as nat),
            r >= 16,
    {
        double_to(16, self.n_fft)
    }

    /// The hop in use, at least one sample.
    pub fn hop_length(&self) -> (r: usize)
        ensures
            r == if self.hop < 1 {
                1
            } else {
                self.hop
            },
    {
        if self.hop < 1 {
            1
        } else {
            self.hop
        }
    }
}

/// The first of `start` and its doubles that reaches a length.
pub fn double_to(start: usize, length: usize) -> (r: usize)
    requires
        start > 0,
        doubled_to(start as nat, length as nat) <= usize::MAX,
    ensures
        r == doubled_to(start as nat, length as nat),
        r >= start,
{
    let mut p: usize = start;
    while p < length
        invariant
            0 < start <= p,
            doubled_to(start as nat, length as nat) == doubled_to(p as nat, length as nat),
            doubled_to(start as nat, length as nat) <= usize::MAX,
        decreases
                if p < length {
                    length - p
                } else {
                    0
                },
    {
        proof {
            lemma_doubling_grows((2 * p) as nat, length as nat);
        }
        p = 2 * p;
    }
    p
}

/// How many whole windows a signal holds; none without a sample rate.
pub fn window_count(samples: usize, n_fft: usize, hop: usize, sample_rate: u32) -> (r: usize)
    requires
        n_fft > 0,
        hop > 0,
    ensures
        r == if samples < n_fft || sample_rate == 0 {
            0
        } else {
            (samples - n_fft) as int / hop as int + 1
        },
{
    if samples < n_fft || sample_rate == 0 {
        return 0;
    }
    assert((samples - n_fft) as int / hop as int <= samples - n_fft) by (nonlinear_arith)
        requires
            hop > 0,
            samples >= n_fft,
    ;
    (samples - n_fft) / hop + 1
}

/// The increases from one frame to the next, band by band.
pub open spec fn increases(before: Seq<Binary64>, now: Seq<Binary64>) -> Seq<Binary64> {
    Seq::new(
        if now.len() < before.len() {
            now.len()
        } else {
            before.len()
        },
        |i: int| larger(difference(now[i], before[i]), zero()),
    )
}

/// The sum of the increases into each frame; nothing into the first.
pub open spec fn flux(frames: Seq<Seq<Binary64>>) -> Seq<Binary64> {
    Seq::new(
        frames.len(),
        |i: int|
            if i == 0 {
                zero()
            } else {
                total(increases(frames[i - 1], frames[i]))
            },
    )
}

/// Sum of the positive frame-to-frame increases in each band.
pub fn spectral_flux(spectrogram: &Vec<Vec<Binary64>>) -> (r: Vec<Binary64>)
    ensures
        r@ == flux(rows_of(spectrogram@)),
{
    let ghost frames = rows_of(spectrogram@);
    let ghost want = flux(frames);
    let mut out: Vec<Binary64> = Vec::new();
    let mut i: usize = 0;
    while i < spectrogram.len()
        invariant
            i <= spectrogram@.len(),
            frames == rows_of(spectrogram@),
            want == flux(frames),
            out@ == want.take(i as int),
        decreases spectrogram@.len() - i,
    {
        let mut value: Binary64 = zero();
        if i > 0 {
            let before: &Vec<Binary64> = &spectrogram[i - 1];
            let now: &Vec<Binary64> = &spectrogram[i];
            let ghost all = increases(before@, now@);
            let mut k: usize = 0;
            while k < now.len() && k < before.len()
                invariant
                    k <= now@.len(),
                    k <= before@.len(),
                    all == increases(before@, now@),
                    value == total(all.take(k as int)),
                decreases now@.len() - k,
            {
                value = value.plus(now[k].minus(before[k]).max(zero()));
                assert(all.take(k + 1).drop_last() == all.take(k as int));
                k = k + 1;
            }
            assert(all.take(k as int) == all);
            assert(value == want[i as int]);
        }
        out.push(value);
        i = i + 1;
        assert(out@ =~= want.take(i as int));
    }
    assert(out@ =~= want);
    out
}

/// The weight of a frequency in a triangular band.
pub open spec fn triangle(freq: Binary64, lo: Binary64, center: Binary64, hi: Binary64) -> Binary64 {
    if lo.spec_le(freq) && freq.spec_le(center) && lo.spec_lt(center) {
        quotient(difference(freq, lo), difference(center, lo))
    } else if center.spec_lt(freq) && freq.spec_le(hi) && center.spec_lt(hi) {
        quotient(difference(hi, freq), difference(hi, center))
    } else {
        zero()
    }
}

/// The bins below `n` that have a weight in a triangular band.
pub open spec fn band_weights(lo: Binary64, center: Binary64, hi: Binary64, bin_hz: Binary64, n: nat) -> Seq<
    (usize, Binary64),
>
    decreases n,
{
    if n == 0 {
        seq![]
    } else {
        let before = band_weights(lo, center, hi, bin_hz, (n - 1) as nat);
        let weight = triangle(product(of_int(n - 1), bin_hz), lo, center, hi);
        if zero().spec_lt(weight) {
            before.push(((n - 1) as usize, weight))
        } else {
            before
        }
    }
}

/// The contents of a list of filters.
pub open spec fn filters_of(filters: Seq<Vec<(usize, Binary64)>>) -> Seq<Seq<(usize, Binary64)>> {
    filters.map_values(|f: Vec<(usize, Binary64)>| f@)
}

/// The triangular filters over a row of band edges: each band spans three.
pub open spec fn filterbank(edges: Seq<Binary64>, n_fft: usize, sample_rate: Binary64) -> Seq<Seq<(usize, Binary64)>> {
    let bin_hz = quotient(sample_rate, of_int(n_fft as int));
    Seq::new(
        if edges.len() < 2 {
            0
        } else {
            (edges.len() - 2) as nat
        },
        |b: int| band_weights(edges[b], edges[b + 1], edges[b + 2], bin_hz, (n_fft / 2 + 1) as nat),
    )
}

/// Triangular filters as `(bin, weight)` pairs, one list per band, over band
/// edges in Hz.
pub fn triangular_filters(edges: &[Binary64], n_fft: usize, sample_rate: Binary64) -> (r: Vec<Vec<(usize, Binary64)>>)
    ensures
        filters_of(r@) == filterbank(edges@, n_fft, sample_rate),
{
    let bin_hz: Binary64 = sample_rate.over(Binary64::from_u64(n_fft as u64));
    let bins: usize = n_fft / 2 + 1;
    let ghost want = filterbank(edges@, n_fft, sample_rate);
    let mut out: Vec<Vec<(usize, Binary64)>> = Vec::new();
    assert(filters_of(out@) =~= want.take(0));
    if edges.len() < 2 {
        return out;
    }
    let mut b: usize = 0;
    while b < edges.len() - 2
        invariant
            2 <= edges@.len(),
            b <= edges@.len() - 2,
            bins == n_fft / 2 + 1,
            bin_hz == quotient(sample_rate, of_int(n_fft as int)),
            want == filterbank(edges@, n_fft, sample_rate),
            filters_of(out@) == want.take(b as int),
        decreases edges@.len() - b,
    {
        let lo: Binary64 = edges[b];
        let center: Binary64 = edges[b + 1];
        let hi: Binary64 = edges[b + 2];
        let mut weights: Vec<(usize, Binary64)> = Vec::new();
        let mut bin: usize = 0;
        while bin < bins
            invariant
                bin <= bins,
                weights@ == band_weights(lo, center, hi, bin_hz, bin as nat),
            decreases bins - bin,
        {
            let freq: Binary64 = Binary64::from_u64(bin as u64).times(bin_hz);
            let weight: Binary64 = if lo.le(freq) && freq.le(center) && lo.lt(center) {
                freq.minus(lo).over(center.minus(lo))
            } else if center.lt(freq) && freq.le(hi) && center.lt(hi) {
                hi.minus(freq).over(hi.minus(center))
            } else {
                zero()
            };
            if zero().lt(weight) {
                weights.push((bin, weight));
            }
            bin = bin + 1;
        }
        let ghost before = out@;
        out.push(weights);
        assert(filters_of(out@) =~= filters_of(before).push(weights@));
        b = b + 1;
        assert(filters_of(out@) =~= want.take(b as int));
    }
    assert(filters_of(out@) =~= want);
    out
}

/// The weighted powers of a band.
pub open spec fn weighted_powers(filter: Seq<(usize, Binary64)>, power: Seq<Binary64>) -> Seq<Binary64> {
    filter.map_values(|w: (usize, Binary64)| product(power[w.0 as int], w.1))
}

/// The energy of a frame in each band.
pub open spec fn energies(filters: Seq<Seq<(usize, Binary64)>>, power: Seq<Binary64>) -> Seq<Binary64> {
    filters.map_values(|f: Seq<(usize, Binary64)>| total(weighted_powers(f, power)))
}

/// The energy of a frame in each band, from the power in each bin.
pub fn band_energies(filters: &Vec<Vec<(usize, Binary64)>>, power: &[Binary64]) -> (r: Vec<Binary64>)
    requires
        forall|b: int, k: int|
            0 <= b < filters@.len() && 0 <= k < filters@[b]@.len() ==> (#[trigger] filters@[b]@[k]).0 < power@.len(),
    ensures
        r@ == energies(filters_of(filters@), power@),
{
    let ghost want = energies(filters_of(filters@), power@);
    let mut out: Vec<Binary64> = Vec::new();
    let mut b: usize = 0;
    while b < filters.len()
        invariant
            b <= filters@.len(),
            forall|c: int, k: int|
                0 <= c < filters@.len() && 0 <= k < filters@[c]@.len() ==> (#[trigger] filters@[c]@[k]).0 < power@.len(),
            want == energies(filters_of(filters@), power@),
            out@ == want.take(b as int),
        decreases filters@.len() - b,
    {
        let filter: &Vec<(usize, Binary64)> = &filters[b];
        let ghost all = weighted_powers(filter@, power@);
        let mut value: Binary64 = zero();
        let mut k: usize = 0;
        while k < filter.len()
            invariant
                k <= filter@.len(),
                b < filters@.len(),
                filter@ == filters@[b as int]@,
                forall|c: int, j: int|
                    0 <= c < filters@.len() && 0 <= j < filters@[c]@.len() ==> (#[trigger] filters@[c]@[j]).0
                        < power@.len(),
                all == weighted_powers(filter@, power@),
                value == total(all.take(k as int)),
            decreases filter@.len() - k,
        {
            assert(filters@[b as int]@[k as int].0 < power@.len());
            value = value.plus(power[filter[k].0].times(filter[k].1));
            assert(all.take(k + 1).drop_last() == all.take(k as int));
            k = k + 1;
        }
        assert(all.take(k as int) == all);
        out.push(value);
        b = b + 1;
        assert(out@ =~= want.take(b as int));
    }
    assert(out@ =~= want);
    out
}

/// The flux of a frame depends on that frame and the one before it alone, and
/// the first frame has none.
pub proof fn law_flux_compares_neighbours(a: Seq<Seq<Binary64>>, b: Seq<Seq<Binary64>>, i: int, j: int)
    requires
        0 <= i < a.len(),
        0 <= j < b.len(),
        a[i] == b[j],
        i > 0 && j > 0,
        a[i - 1] == b[j - 1],
    ensures
        flux(a)[i] == flux(b)[j],
        flux(a)[0] == zero(),
{
}

/// A band that does not rise adds nothing to the flux.
pub proof fn law_only_rises_make_flux(before: Seq<Binary64>, now: Seq<Binary64>, i: int)
    requires
        0 <= i < before.len(),
        0 <= i < now.len(),
        before[i].finite(),
        now[i].spec_le(before[i]),
    ensures
        increases(before, now)[i].spec_le(zero()),
        zero().spec_le(increases(before, now)[i]),
{
    law_addition_keeps_the_order(now[i], before[i], negated(before[i]));
    lemma_nothing_left(before[i]);
}

proof fn lemma_nothing_left(a: Binary64)
    requires
        a.finite(),
    ensures
        difference(a, a).spec_same(zero()),
{
    lemma_rounded_exact(0);
    lemma_no_magnitude();
}

/// Whether a frequency lies on the rising or on the falling side of a filter.
pub open spec fn lies_between(freq: Binary64, lo: Binary64, center: Binary64, hi: Binary64) -> bool {
    lo.spec_le(freq) && freq.spec_le(center) || center.spec_lt(freq) && freq.spec_le(hi)
}

/// A filter weighs bins between its edges alone, each with a positive weight, in
/// order and once.
pub proof fn law_filters_stay_in_their_band(
    lo: Binary64,
    center: Binary64,
    hi: Binary64,
    bin_hz: Binary64,
    n: nat,
)
    requires
        n <= usize::MAX,
    ensures
        forall|k: int|
            0 <= k < band_weights(lo, center, hi, bin_hz, n).len() ==> {
                let w = #[trigger] band_weights(lo, center, hi, bin_hz, n)[k];
                &&& w.0 < n
                &&& zero().spec_lt(w.1)
                &&& lies_between(product(of_int(w.0 as int), bin_hz), lo, center, hi)
            },
        forall|j: int, k: int|
            0 <= j < k < band_weights(lo, center, hi, bin_hz, n).len() ==> (#[trigger] band_weights(
                lo,
                center,
                hi,
                bin_hz,
                n,
            )[j]).0 < (#[trigger] band_weights(lo, center, hi, bin_hz, n)[k]).0,
    decreases n,
{
    if n > 0 {
        law_filters_stay_in_their_band(lo, center, hi, bin_hz, (n - 1) as nat);
        let before = band_weights(lo, center, hi, bin_hz, (n - 1) as nat);
        let now = band_weights(lo, center, hi, bin_hz, n);
        let freq = product(of_int(n - 1), bin_hz);
        let weight = triangle(freq, lo, center, hi);
        assert forall|k: int| 0 <= k < before.len() implies #[trigger] now[k] == before[k] by {}
        if zero().spec_lt(weight) {
            assert(lies_between(freq, lo, center, hi));
            assert(now[before.len() as int] == ((n - 1) as usize, weight));
            assert forall|k: int| 0 <= k < now.len() implies {
                let w = #[trigger] now[k];
                &&& w.0 < n
                &&& zero().spec_lt(w.1)
                &&& lies_between(product(of_int(w.0 as int), bin_hz), lo, center, hi)
            } by {
                if k < before.len() {
                    let w = before[k];
                    assert(w.0 < n - 1);
                }
            }
            assert forall|j: int, k: int| 0 <= j < k < now.len() implies (#[trigger] now[j]).0 < (#[trigger] now[k]).0 by {
                assert(before[j].0 < n - 1);
            }
        }
    }
}

} // verus!
