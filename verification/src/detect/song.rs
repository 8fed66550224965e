//! The song: frame-rate measures of a track, gathered onto its beats.

use crate::detect::contrast::{bins_inside, bins_within};
use crate::detect::matrix::Mat;
use crate::detect::phrases::AcousticFeatures;
use crate::detect::spectrum::{
    bin_energy, bin_salience, bin_values, bins_between, bins_in_band, n_frames, peak_over_mean,
};
use crate::detect::sync::{
    all_profiles, least_power, subdivision_profiles, sync_scalar, sync_to_intervals, synced, synced_row, Reducer,
};
use crate::detect::windows::sample_at;
use crate::number::binary64::{difference, half, larger, of_int, one, product, quotient, smaller, sum, zero, Binary64};
use crate::number::lists::{average, even_rows, mean, rows_of, slice_to_vec, total, total_of};
use crate::number::root::square_root;
use vstd::prelude::*;

verus! {

/// Where the bands of the balance meet, in hertz: low up to the second, then
/// low mid, mid and high.
pub const BAND_EDGES: [u64; 5] = [30, 180, 800, 4000, 11000];

/// The range that a lead voice occupies, in hertz.
pub const VOICE_RANGE: [u64; 2] = [90, 1400];

/// The lowest edge of the mel bands, in hertz.
pub const LOWEST_MEL: u64 = 30;

/// The share of the energy below the rolloff: 0.85.
#[verifier::allow_in_spec]
pub fn rolloff_share() -> Binary64
    returns
        (Binary64 { bits: 0x3FEB_3333_3333_3333 }),
{
    Binary64 { bits: 0x3FEB_3333_3333_3333 }
}

/// How far the spectrum reaches above the first band of the contrast: as a
/// multiple of its 200 hertz.
pub fn contrast_reach(sample_rate: Binary64) -> (r: Binary64)
    ensures
        r == quotient(product(half(), sample_rate), of_int(200)),
{
    half().times(sample_rate).over(Binary64::from_u64(200))
}

/// The share of the sample rate that bright sounds start from at most: 0.45.
#[verifier::allow_in_spec]
pub fn bright_share() -> Binary64
    returns
        (Binary64 { bits: 0x3FDC_CCCC_CCCC_CCCD }),
{
    Binary64 { bits: 0x3FDC_CCCC_CCCC_CCCD }
}

/// Where bright sounds start, in hertz.
pub open spec fn bright_from(sample_rate: Binary64) -> Binary64 {
    smaller(of_int(5000), product(bright_share(), sample_rate))
}

/// Positive infinity.
#[verifier::allow_in_spec]
pub fn endless() -> Binary64
    returns
        (Binary64 { bits: 0x7FF0_0000_0000_0000 }),
{
    Binary64 { bits: 0x7FF0_0000_0000_0000 }
}

/// Mean power across the bins in `[low, high)`, frame by frame.
pub open spec fn energies_in(power: Mat, freqs: Seq<Binary64>, low: Binary64, high: Binary64) -> Seq<Binary64> {
    let bins = bins_between(freqs, low, high, power.height());
    Seq::new(power.width(), |f: int| average(bin_values(power.column_at(f), bins)))
}

/// Mean power in each band of the balance, frame by frame.
pub open spec fn balance_of(power: Mat, freqs: Seq<Binary64>) -> Seq<Seq<Binary64>> {
    Seq::new(
        4,
        |i: int| energies_in(power, freqs, of_int(BAND_EDGES[i] as int), of_int(BAND_EDGES[i + 1] as int)),
    )
}

/// How peaky a harmonic spectrum is between 90 and 1400 hertz, frame by frame.
pub open spec fn salience_of(harmonic: Mat, freqs: Seq<Binary64>) -> Seq<Binary64> {
    let bins = bins_within(freqs, of_int(90), of_int(1400), harmonic.height());
    Seq::new(harmonic.width(), |f: int| peak_over_mean(bin_values(harmonic.column_at(f), bins)))
}

/// Mean power across the bins in `[low, high)`, frame by frame.
pub fn band_energy(power: &Mat, freqs: &[Binary64], low: Binary64, high: Binary64) -> (r: Vec<Binary64>)
    requires
        power.wf(),
        power.height() <= freqs@.len(),
    ensures
        r@ == energies_in(*power, freqs@, low, high),
{
    let ghost want = energies_in(*power, freqs@, low, high);
    let bins: Vec<usize> = bins_in_band(freqs, low, high, power.rows());
    let mut out: Vec<Binary64> = Vec::new();
    let mut k: usize = 0;
    while k < power.cols()
        invariant
            k <= power.width(),
            power.wf(),
            bins@ == bins_between(freqs@, low, high, power.height()),
            forall|j: int| 0 <= j < bins@.len() ==> (#[trigger] bins@[j]) < power.height(),
            want == energies_in(*power, freqs@, low, high),
            out@ == want.take(k as int),
        decreases power.width() - k,
    {
        out.push(bin_energy(power.column(k).as_slice(), &bins));
        k = k + 1;
        assert(out@ =~= want.take(k as int));
    }
    assert(out@ =~= want);
    out
}

/// Mean power across the bright bins, frame by frame.
pub fn bright_energy(power: &Mat, freqs: &[Binary64], sample_rate: Binary64) -> (r: Vec<Binary64>)
    requires
        power.wf(),
        power.height() <= freqs@.len(),
    ensures
        r@ == energies_in(*power, freqs@, bright_from(sample_rate), endless()),
{
    let ghost want = energies_in(*power, freqs@, bright_from(sample_rate), endless());
    let from: Binary64 = Binary64::from_u64(5000).min(bright_share().times(sample_rate));
    let bins: Vec<usize> = bins_in_band(freqs, from, endless(), power.rows());
    let mut out: Vec<Binary64> = Vec::new();
    let mut k: usize = 0;
    while k < power.cols()
        invariant
            k <= power.width(),
            power.wf(),
            bins@ == bins_between(freqs@, bright_from(sample_rate), endless(), power.height()),
            forall|j: int| 0 <= j < bins@.len() ==> (#[trigger] bins@[j]) < power.height(),
            want == energies_in(*power, freqs@, bright_from(sample_rate), endless()),
            out@ == want.take(k as int),
        decreases power.width() - k,
    {
        out.push(bin_energy(power.column(k).as_slice(), &bins));
        k = k + 1;
        assert(out@ =~= want.take(k as int));
    }
    assert(out@ =~= want);
    out
}

/// How peaky the harmonic spectrum is in the range of a lead voice, frame by frame.
pub fn pitch_salience(harmonic: &Mat, freqs: &[Binary64]) -> (r: Vec<Binary64>)
    requires
        harmonic.wf(),
        harmonic.height() <= freqs@.len(),
    ensures
        r@ == salience_of(*harmonic, freqs@),
{
    let ghost want = salience_of(*harmonic, freqs@);
    let low: Binary64 = Binary64::from_u64(VOICE_RANGE[0]);
    let high: Binary64 = Binary64::from_u64(VOICE_RANGE[1]);
    let bins: Vec<usize> = bins_inside(freqs, low, high, harmonic.rows());
    let mut out: Vec<Binary64> = Vec::new();
    let mut k: usize = 0;
    while k < harmonic.cols()
        invariant
            k <= harmonic.width(),
            harmonic.wf(),
            bins@ == bins_within(freqs@, of_int(90), of_int(1400), harmonic.height()),
            forall|j: int| 0 <= j < bins@.len() ==> (#[trigger] bins@[j]) < harmonic.height(),
            want == salience_of(*harmonic, freqs@),
            out@ == want.take(k as int),
        decreases harmonic.width() - k,
    {
        out.push(bin_salience(harmonic.column(k).as_slice(), &bins));
        k = k + 1;
        assert(out@ =~= want.take(k as int));
    }
    assert(out@ =~= want);
    out
}

/// Mean power across all bins, frame by frame.
pub fn frame_energy(power: &Mat) -> (r: Vec<Binary64>)
    requires
        power.wf(),
        power.height() > 0,
    ensures
        r@ == Seq::new(power.width(), |i: int| average(power.column_at(i))),
{
    let ghost want = Seq::new(power.width(), |i: int| average(power.column_at(i)));
    let mut out: Vec<Binary64> = Vec::new();
    let mut k: usize = 0;
    while k < power.cols()
        invariant
            k <= power.width(),
            power.wf(),
            want == Seq::new(power.width(), |i: int| average(power.column_at(i))),
            out@ == want.take(k as int),
        decreases power.width() - k,
    {
        out.push(mean(power.column(k).as_slice()));
        k = k + 1;
        assert(out@ =~= want.take(k as int));
    }
    assert(out@ =~= want);
    out
}

/// Mean power in each band of the balance, frame by frame.
pub fn band_balance(power: &Mat, freqs: &[Binary64]) -> (r: Vec<Vec<Binary64>>)
    requires
        power.wf(),
        power.height() <= freqs@.len(),
    ensures
        rows_of(r@) == balance_of(*power, freqs@),
{
    let ghost want = balance_of(*power, freqs@);
    let mut out: Vec<Vec<Binary64>> = Vec::new();
    let mut k: usize = 0;
    assert(rows_of(out@) =~= want.take(0));
    while k < 4
        invariant
            k <= 4,
            power.wf(),
            power.height() <= freqs@.len(),
            want == balance_of(*power, freqs@),
            rows_of(out@) == want.take(k as int),
        decreases 4 - k,
    {
        let low: Binary64 = Binary64::from_u64(BAND_EDGES[k]);
        let high: Binary64 = Binary64::from_u64(BAND_EDGES[k + 1]);
        let row: Vec<Binary64> = band_energy(power, freqs, low, high);
        let ghost before = out@;
        out.push(row);
        assert(rows_of(out@) =~= rows_of(before).push(row@));
        k = k + 1;
        assert(rows_of(out@) =~= want.take(k as int));
    }
    assert(rows_of(out@) =~= want);
    out
}

/// The squares of the samples of a centred frame.
pub open spec fn centred_squares(signal: Seq<Binary64>, frame_length: usize, hop: usize, frame: int) -> Seq<Binary64> {
    Seq::new(
        frame_length as nat,
        |i: int|
            {
                let s = sample_at(signal, frame * hop + i - frame_length / 2);
                product(s, s)
            },
    )
}

/// The squares of the samples of a centred frame.
fn square_frame(signal: &[Binary64], frame_length: usize, start: usize) -> (r: Vec<Binary64>)
    requires
        start + frame_length <= usize::MAX,
        signal@.len() + frame_length <= usize::MAX,
    ensures
        r@ == Seq::new(
            frame_length as nat,
            |i: int|
                {
                    let s = sample_at(signal@, start + i - frame_length / 2);
                    product(s, s)
                },
        ),
{
    let pad: usize = frame_length / 2;
    let ghost want = Seq::new(
        frame_length as nat,
        |i: int|
            {
                let s = sample_at(signal@, start + i - frame_length / 2);
                product(s, s)
            },
    );
    let mut out: Vec<Binary64> = Vec::new();
    let mut i: usize = 0;
    while i < frame_length
        invariant
            i <= frame_length,
            pad == frame_length / 2,
            start + frame_length <= usize::MAX,
            signal@.len() + frame_length <= usize::MAX,
            want == Seq::new(
                frame_length as nat,
                |j: int|
                    {
                        let s = sample_at(signal@, start + j - frame_length / 2);
                        product(s, s)
                    },
            ),
            out@ == want.take(i as int),
        decreases frame_length - i,
    {
        let s: Binary64 = if start + i >= pad && start + i - pad < signal.len() {
            signal[start + i - pad]
        } else {
            zero()
        };
        out.push(s.times(s));
        i = i + 1;
        assert(out@ =~= want.take(i as int));
    }
    assert(out@ =~= want);
    out
}

/// The level of each centred frame of a signal.
pub open spec fn signal_levels(signal: Seq<Binary64>, frame_length: usize, hop: usize) -> Seq<Binary64> {
    Seq::new(
        (1 + signal.len() as int / hop as int) as nat,
        |f: int|
            square_root(
                quotient(total(centred_squares(signal, frame_length, hop, f)), of_int(frame_length as int)),
            ),
    )
}

/// Root-mean-square of each frame of a signal, the frames centred.
pub fn rms_from_signal(signal: &[Binary64], frame_length: usize, hop: usize) -> (r: Vec<Binary64>)
    requires
        hop > 0,
        signal@.len() + frame_length < usize::MAX,
    ensures
        r@ == signal_levels(signal@, frame_length, hop),
{
    let samples: usize = signal.len();
    let frames: usize = n_frames(samples, hop);
    let ghost want = signal_levels(signal@, frame_length, hop);
    let mut out: Vec<Binary64> = Vec::new();
    let mut f: usize = 0;
    while f < frames
        invariant
            hop > 0,
            samples == signal@.len(),
            signal@.len() + frame_length < usize::MAX,
            f <= frames,
            frames == 1 + samples as int / hop as int,
            want == signal_levels(signal@, frame_length, hop),
            out@ == want.take(f as int),
        decreases frames - f,
    {
        proof {
            vstd::arithmetic::div_mod::lemma_fundamental_div_mod(samples as int, hop as int);
            let q = samples as int / hop as int;
            assert(0 <= f * hop <= samples) by (nonlinear_arith)
                requires
                    f <= q,
                    hop > 0,
                    samples as int == hop as int * q + samples as int % hop as int,
                    samples as int % hop as int >= 0,
            ;
        }
        let squares: Vec<Binary64> = square_frame(signal, frame_length, f * hop);
        assert(squares@ =~= centred_squares(signal@, frame_length, hop, f as int));
        out.push(total_of(squares.as_slice()).over(Binary64::from_u64(frame_length as u64)).sqrt());
        f = f + 1;
        assert(out@ =~= want.take(f as int));
    }
    assert(out@ =~= want);
    out
}

/// The squared powers of a frame, none next to nothing.
pub open spec fn flatness_values(frame: Seq<Binary64>) -> Seq<Binary64> {
    frame.map_values(|v: Binary64| larger(product(v, v), least_power()))
}

/// The squared powers of a frame, none next to nothing.
pub fn flatness_terms(frame: &[Binary64]) -> (r: Vec<Binary64>)
    ensures
        r@ == flatness_values(frame@),
{
    let ghost want = flatness_values(frame@);
    let mut out: Vec<Binary64> = Vec::new();
    let mut k: usize = 0;
    while k < frame.len()
        invariant
            k <= frame@.len(),
            want == flatness_values(frame@),
            out@ == want.take(k as int),
        decreases frame@.len() - k,
    {
        out.push(frame[k].times(frame[k]).max(least_power()));
        k = k + 1;
        assert(out@ =~= want.take(k as int));
    }
    assert(out@ =~= want);
    out
}

/// How flat each frame is, given the geometric mean of its squared powers: that
/// over their arithmetic mean.
pub open spec fn flatness_of(power: Mat, geometric: Seq<Binary64>) -> Seq<Binary64> {
    Seq::new(power.width(), |f: int| quotient(geometric[f], average(flatness_values(power.column_at(f)))))
}

/// How flat each frame is, given the geometric mean of its squared powers.
pub fn spectral_flatness(power: &Mat, geometric: &[Binary64]) -> (r: Vec<Binary64>)
    requires
        power.wf(),
        power.height() > 0,
        geometric@.len() == power.width(),
    ensures
        r@ == flatness_of(*power, geometric@),
{
    let ghost want = flatness_of(*power, geometric@);
    let mut out: Vec<Binary64> = Vec::new();
    let mut f: usize = 0;
    while f < power.cols()
        invariant
            power.wf(),
            f <= power.width() == geometric@.len(),
            want == flatness_of(*power, geometric@),
            out@ == want.take(f as int),
        decreases power.width() - f,
    {
        let terms: Vec<Binary64> = flatness_terms(power.column(f).as_slice());
        out.push(geometric[f].over(mean(terms.as_slice())));
        f = f + 1;
        assert(out@ =~= want.take(f as int));
    }
    assert(out@ =~= want);
    out
}

/// How far each value stands above another.
pub fn differences(upper: &[Binary64], lower: &[Binary64]) -> (r: Vec<Binary64>)
    requires
        lower@.len() == upper@.len(),
    ensures
        r@ == Seq::new(upper@.len(), |i: int| difference(upper@[i], lower@[i])),
{
    let ghost want = Seq::new(upper@.len(), |i: int| difference(upper@[i], lower@[i]));
    let mut out: Vec<Binary64> = Vec::new();
    let mut k: usize = 0;
    while k < upper.len()
        invariant
            k <= upper@.len(),
            lower@.len() == upper@.len(),
            want == Seq::new(upper@.len(), |i: int| difference(upper@[i], lower@[i])),
            out@ == want.take(k as int),
        decreases upper@.len() - k,
    {
        out.push(upper[k].minus(lower[k]));
        k = k + 1;
        assert(out@ =~= want.take(k as int));
    }
    assert(out@ =~= want);
    out
}

/// What is left of one after the odds against it.
pub fn logistic(odds: &[Binary64]) -> (r: Vec<Binary64>)
    ensures
        r@ == Seq::new(odds@.len(), |i: int| quotient(one(), sum(one(), odds@[i]))),
{
    let ghost want = Seq::new(odds@.len(), |i: int| quotient(one(), sum(one(), odds@[i])));
    let mut out: Vec<Binary64> = Vec::new();
    let mut k: usize = 0;
    while k < odds.len()
        invariant
            k <= odds@.len(),
            want == Seq::new(odds@.len(), |i: int| quotient(one(), sum(one(), odds@[i]))),
            out@ == want.take(k as int),
        decreases odds@.len() - k,
    {
        out.push(one().over(one().plus(odds[k])));
        k = k + 1;
        assert(out@ =~= want.take(k as int));
    }
    assert(out@ =~= want);
    out
}

/// Mean levels on the beats, none next to nothing, so that they have
/// logarithms.
pub open spec fn heard(row: Seq<Binary64>, times: Seq<Binary64>, edges: Seq<Binary64>) -> Seq<Binary64> {
    synced_row(row, times, edges, Reducer::Mean).map_values(|v: Binary64| larger(v, least_power()))
}

/// How wide the sound is on the beats: the level of the sides, which a single
/// channel does not have, over that of the middle.
pub open spec fn width_of_sound(middle: Seq<Binary64>, times: Seq<Binary64>, edges: Seq<Binary64>) -> Seq<Binary64> {
    heard(middle, times, edges).map_values(|v: Binary64| quotient(least_power(), v))
}

/// Values, none next to nothing.
fn raise_levels(values: &[Binary64]) -> (r: Vec<Binary64>)
    ensures
        r@ == Seq::new(values@.len(), |i: int| larger(values@[i], least_power())),
{
    let ghost want = Seq::new(values@.len(), |i: int| larger(values@[i], least_power()));
    let mut out: Vec<Binary64> = Vec::new();
    let mut k: usize = 0;
    while k < values.len()
        invariant
            k <= values@.len(),
            want == Seq::new(values@.len(), |i: int| larger(values@[i], least_power())),
            out@ == want.take(k as int),
        decreases values@.len() - k,
    {
        out.push(values[k].max(least_power()));
        k = k + 1;
        assert(out@ =~= want.take(k as int));
    }
    assert(out@ =~= want);
    out
}

/// The least level over each of some levels.
fn under_least(values: &[Binary64]) -> (r: Vec<Binary64>)
    ensures
        r@ == Seq::new(values@.len(), |i: int| quotient(least_power(), values@[i])),
{
    let ghost want = Seq::new(values@.len(), |i: int| quotient(least_power(), values@[i]));
    let mut out: Vec<Binary64> = Vec::new();
    let mut k: usize = 0;
    while k < values.len()
        invariant
            k <= values@.len(),
            want == Seq::new(values@.len(), |i: int| quotient(least_power(), values@[i])),
            out@ == want.take(k as int),
        decreases values@.len() - k,
    {
        out.push(least_power().over(values[k]));
        k = k + 1;
        assert(out@ =~= want.take(k as int));
    }
    assert(out@ =~= want);
    out
}

/// The levels on the beats that logarithms are taken of: each row as it is
/// heard, then the width of the sound.
pub fn beat_levels(levels: &Vec<Vec<Binary64>>, middle: &[Binary64], times: &[Binary64], edges: &[Binary64]) -> (r: Vec<
    Vec<Binary64>,
>)
    requires
        edges@.len() > 0,
        forall|i: int| 0 <= i < levels@.len() ==> (#[trigger] levels@[i])@.len() == times@.len(),
        middle@.len() == times@.len(),
    ensures
        rows_of(r@) == rows_of(levels@).map_values(|row: Seq<Binary64>| heard(row, times@, edges@)).push(
            width_of_sound(middle@, times@, edges@),
        ),
{
    let ghost want = rows_of(levels@).map_values(|row: Seq<Binary64>| heard(row, times@, edges@));
    let mut out: Vec<Vec<Binary64>> = Vec::new();
    let mut i: usize = 0;
    assert(rows_of(out@) =~= want.take(0));
    while i < levels.len()
        invariant
            i <= levels@.len(),
            edges@.len() > 0,
            forall|k: int| 0 <= k < levels@.len() ==> (#[trigger] levels@[k])@.len() == times@.len(),
            want == rows_of(levels@).map_values(|row: Seq<Binary64>| heard(row, times@, edges@)),
            rows_of(out@) == want.take(i as int),
        decreases levels@.len() - i,
    {
        let synced_levels: Vec<Binary64> = sync_scalar(levels[i].as_slice(), times, edges, Reducer::Mean);
        let row: Vec<Binary64> = raise_levels(synced_levels.as_slice());
        assert(row@ =~= heard(levels@[i as int]@, times@, edges@));
        let ghost before = out@;
        out.push(row);
        assert(rows_of(out@) =~= rows_of(before).push(row@));
        i = i + 1;
        assert(rows_of(out@) =~= want.take(i as int));
    }
    assert(rows_of(out@) =~= want);
    let synced_middle: Vec<Binary64> = sync_scalar(middle, times, edges, Reducer::Mean);
    let raised: Vec<Binary64> = raise_levels(synced_middle.as_slice());
    assert(raised@ =~= heard(middle@, times@, edges@));
    let width: Vec<Binary64> = under_least(raised.as_slice());
    assert(width@ =~= width_of_sound(middle@, times@, edges@));
    let ghost before = out@;
    out.push(width);
    assert(rows_of(out@) =~= rows_of(before).push(width@));
    out
}

/// Frame-rate measures of the shape of the spectrum.
#[derive(Debug, Clone)]
pub struct FrameShapes {
    pub centroid: Vec<Binary64>,
    pub bandwidth: Vec<Binary64>,
    pub rolloff: Vec<Binary64>,
    pub flatness: Vec<Binary64>,
    pub salience: Vec<Binary64>,
}

/// Mean frequencies on the beats, as shares of the Nyquist frequency.
pub open spec fn nyquist_shares(row: Seq<Binary64>, sample_rate: Binary64, times: Seq<Binary64>, edges: Seq<Binary64>) -> Seq<
    Binary64,
> {
    synced_row(row, times, edges, Reducer::Mean).map_values(|v: Binary64| quotient(v, product(half(), sample_rate)))
}

/// Mean frequencies on the beats, as shares of the Nyquist frequency.
fn share_of_nyquist(row: &[Binary64], sample_rate: Binary64, times: &[Binary64], edges: &[Binary64]) -> (r: Vec<Binary64>)
    requires
        edges@.len() > 0,
        row@.len() == times@.len(),
    ensures
        r@ == nyquist_shares(row@, sample_rate, times@, edges@),
{
    let on_beats: Vec<Binary64> = sync_scalar(row, times, edges, Reducer::Mean);
    let r: Vec<Binary64> = parts_of(on_beats.as_slice(), half().times(sample_rate));
    assert(r@ =~= nyquist_shares(row@, sample_rate, times@, edges@));
    r
}

/// Values as parts of a whole.
fn parts_of(values: &[Binary64], whole: Binary64) -> (r: Vec<Binary64>)
    ensures
        r@ == Seq::new(values@.len(), |i: int| quotient(values@[i], whole)),
{
    let ghost want = Seq::new(values@.len(), |i: int| quotient(values@[i], whole));
    let mut out: Vec<Binary64> = Vec::new();
    let mut k: usize = 0;
    while k < values.len()
        invariant
            k <= values@.len(),
            want == Seq::new(values@.len(), |i: int| quotient(values@[i], whole)),
            out@ == want.take(k as int),
        decreases values@.len() - k,
    {
        out.push(values[k].over(whole));
        k = k + 1;
        assert(out@ =~= want.take(k as int));
    }
    assert(out@ =~= want);
    out
}

/// The rows of the shapes on the beats: the frequencies as shares of the
/// Nyquist frequency, then flatness and salience.
pub open spec fn shape_rows(shapes: FrameShapes, sample_rate: Binary64, times: Seq<Binary64>, edges: Seq<Binary64>) -> Seq<
    Seq<Binary64>,
> {
    seq![
        nyquist_shares(shapes.centroid@, sample_rate, times, edges),
        nyquist_shares(shapes.bandwidth@, sample_rate, times, edges),
        nyquist_shares(shapes.rolloff@, sample_rate, times, edges),
        synced_row(shapes.flatness@, times, edges, Reducer::Mean),
        synced_row(shapes.salience@, times, edges, Reducer::Mean),
    ]
}

/// The shapes on the beats.
pub fn beat_shapes(shapes: &FrameShapes, sample_rate: Binary64, times: &[Binary64], edges: &[Binary64]) -> (r: Vec<Vec<Binary64>>)
    requires
        edges@.len() > 0,
        shapes.centroid@.len() == times@.len(),
        shapes.bandwidth@.len() == times@.len(),
        shapes.rolloff@.len() == times@.len(),
        shapes.flatness@.len() == times@.len(),
        shapes.salience@.len() == times@.len(),
    ensures
        rows_of(r@) == shape_rows(*shapes, sample_rate, times@, edges@),
{
    let mut out: Vec<Vec<Binary64>> = Vec::new();
    out.push(share_of_nyquist(shapes.centroid.as_slice(), sample_rate, times, edges));
    out.push(share_of_nyquist(shapes.bandwidth.as_slice(), sample_rate, times, edges));
    out.push(share_of_nyquist(shapes.rolloff.as_slice(), sample_rate, times, edges));
    out.push(sync_scalar(shapes.flatness.as_slice(), times, edges, Reducer::Mean));
    out.push(sync_scalar(shapes.salience.as_slice(), times, edges, Reducer::Mean));
    assert(rows_of(out@) =~= shape_rows(*shapes, sample_rate, times@, edges@));
    out
}

/// The texture of the beats, from the logarithms of their levels, the shapes
/// and the vocal proxy. The levels are those of the whole sound, its harmonic
/// and its percussive part, the four bands of the balance and all bins, then
/// the width of the sound.
pub open spec fn texture_rows(logs: Seq<Seq<Binary64>>, shapes: Seq<Seq<Binary64>>, vocal: Seq<Binary64>) -> Seq<Seq<Binary64>> {
    seq![
        logs[0],
        logs[1],
        logs[2],
        logs[3],
        logs[4],
        logs[5],
        logs[6],
        Seq::new(logs[1].len(), |i: int| difference(logs[1][i], logs[2][i])),
        shapes[0],
        shapes[1],
        shapes[2],
        shapes[3],
        logs[8],
        shapes[4],
        vocal,
    ]
}

/// The texture of the beats.
pub fn texture_of(logs: &Vec<Vec<Binary64>>, shapes: &Vec<Vec<Binary64>>, vocal: &[Binary64]) -> (r: Vec<Vec<Binary64>>)
    requires
        logs@.len() == 9,
        shapes@.len() == 5,
        logs@[2]@.len() == logs@[1]@.len(),
    ensures
        rows_of(r@) == texture_rows(rows_of(logs@), rows_of(shapes@), vocal@),
{
    let mut out: Vec<Vec<Binary64>> = Vec::new();
    out.push(slice_to_vec(logs[0].as_slice()));
    out.push(slice_to_vec(logs[1].as_slice()));
    out.push(slice_to_vec(logs[2].as_slice()));
    out.push(slice_to_vec(logs[3].as_slice()));
    out.push(slice_to_vec(logs[4].as_slice()));
    out.push(slice_to_vec(logs[5].as_slice()));
    out.push(slice_to_vec(logs[6].as_slice()));
    out.push(differences(logs[1].as_slice(), logs[2].as_slice()));
    out.push(slice_to_vec(shapes[0].as_slice()));
    out.push(slice_to_vec(shapes[1].as_slice()));
    out.push(slice_to_vec(shapes[2].as_slice()));
    out.push(slice_to_vec(shapes[3].as_slice()));
    out.push(slice_to_vec(logs[8].as_slice()));
    out.push(slice_to_vec(shapes[4].as_slice()));
    out.push(slice_to_vec(vocal));
    assert(rows_of(out@) =~= texture_rows(rows_of(logs@), rows_of(shapes@), vocal@));
    out
}

/// Frame-rate rows that are gathered onto the beats as they are.
#[derive(Debug, Clone)]
pub struct SongFrames {
    /// Mel bands in decibels.
    pub mel: Mat,
    /// Cepstral coefficients.
    pub mfcc: Mat,
    pub contrast: Mat,
    pub chroma: Mat,
    pub tonnetz: Mat,
    /// Onset strength of the whole, of the percussive part and of the bright
    /// bins.
    pub onsets: Vec<Vec<Binary64>>,
}

impl SongFrames {
    /// Whether everything has a value for each frame, and fits.
    pub open spec fn wf(&self, frames: nat, beats: int) -> bool {
        &&& self.mel.wf() && self.mel.width() == frames
        &&& self.mfcc.wf() && self.mfcc.width() == frames
        &&& self.contrast.wf() && self.contrast.width() == frames
        &&& self.chroma.wf() && self.chroma.width() == frames
        &&& self.tonnetz.wf() && self.tonnetz.width() == frames
        &&& self.onsets@.len() == 3
        &&& forall|i: int| 0 <= i < 3 ==> (#[trigger] self.onsets@[i])@.len() == frames
        &&& (self.mel.height() + self.mfcc.height() + self.contrast.height()) * beats <= usize::MAX
        &&& (self.chroma.height() + self.tonnetz.height()) * beats <= usize::MAX
        &&& 27 * beats <= usize::MAX
    }

    /// The timbre of the beats: the median of the mel bands, and the means of
    /// the cepstrum and the contrast.
    pub open spec fn timbre_rows(&self, times: Seq<Binary64>, edges: Seq<Binary64>) -> Seq<Seq<Binary64>> {
        synced(self.mel.grid(), times, edges, Reducer::Median) + synced(self.mfcc.grid(), times, edges, Reducer::Mean) + synced(
            self.contrast.grid(),
            times,
            edges,
            Reducer::Mean,
        )
    }

    /// The harmony of the beats: the means of chroma and tonal centroids.
    pub open spec fn harmony_rows(&self, times: Seq<Binary64>, edges: Seq<Binary64>) -> Seq<Seq<Binary64>> {
        synced(self.chroma.grid(), times, edges, Reducer::Mean) + synced(self.tonnetz.grid(), times, edges, Reducer::Mean)
    }

    /// The rhythm of the beats: where the onsets fall inside them, and their
    /// sums.
    pub open spec fn rhythm_rows(&self, times: Seq<Binary64>, edges: Seq<Binary64>) -> Seq<Seq<Binary64>> {
        all_profiles(rows_of(self.onsets@), times, edges, 3) + rows_of(self.onsets@).map_values(
            |row: Seq<Binary64>| synced_row(row, times, edges, Reducer::Sum),
        )
    }
}

/// The rows of two matrices, one above the next.
fn stack(upper: Mat, lower: Mat) -> (r: Mat)
    requires
        upper.wf(),
        lower.wf(),
        upper.width() == lower.width(),
        (upper.height() + lower.height()) * upper.width() <= usize::MAX,
    ensures
        r.wf(),
        r.height() == upper.height() + lower.height(),
        r.width() == upper.width(),
        r.grid() == upper.grid() + lower.grid(),
{
    let mut rows: Vec<Vec<Binary64>> = upper.to_rows();
    let mut more: Vec<Vec<Binary64>> = lower.to_rows();
    rows.append(&mut more);
    assert(rows_of(rows@) =~= upper.grid() + lower.grid());
    assert(rows@.len() == upper.height() + lower.height());
    assert(even_rows(rows_of(rows@), upper.width()));
    let r: Mat = Mat::of_rows(rows, upper.cols());
    assert(r.grid().len() == upper.height() + lower.height());
    r
}

/// The sums of the onsets on the beats.
fn onset_sums(onsets: &Vec<Vec<Binary64>>, times: &[Binary64], edges: &[Binary64]) -> (r: Mat)
    requires
        edges@.len() > 0,
        onsets@.len() == 3,
        forall|i: int| 0 <= i < 3 ==> (#[trigger] onsets@[i])@.len() == times@.len(),
        3 * (edges@.len() - 1) <= usize::MAX,
    ensures
        r.wf(),
        r.height() == 3,
        r.width() == edges@.len() - 1,
        r.grid() == rows_of(onsets@).map_values(|row: Seq<Binary64>| synced_row(row, times@, edges@, Reducer::Sum)),
{
    let mut out: Vec<Vec<Binary64>> = Vec::new();
    out.push(sync_scalar(onsets[0].as_slice(), times, edges, Reducer::Sum));
    out.push(sync_scalar(onsets[1].as_slice(), times, edges, Reducer::Sum));
    out.push(sync_scalar(onsets[2].as_slice(), times, edges, Reducer::Sum));
    let ghost want = rows_of(onsets@).map_values(|row: Seq<Binary64>| synced_row(row, times@, edges@, Reducer::Sum));
    assert(rows_of(out@) =~= want);
    let cols: usize = edges.len() - 1;
    assert(even_rows(rows_of(out@), cols as nat));
    let r: Mat = Mat::of_rows(out, cols);
    assert(r.grid().len() == 3);
    r
}

/// Gathers frame-rate rows onto the beats and sets the texture beside them.
pub fn gather(
    frames: &SongFrames,
    texture: Vec<Vec<Binary64>>,
    times: &[Binary64],
    edges: &[Binary64],
    audio_duration_sec: Binary64,
) -> (r: AcousticFeatures)
    requires
        edges@.len() > 0,
        frames.wf(times@.len(), edges@.len() - 1),
        texture@.len() * (edges@.len() - 1) <= usize::MAX,
        even_rows(rows_of(texture@), (edges@.len() - 1) as nat),
    ensures
        r.wf(),
        r.timbre.width() == edges@.len() - 1,
        r.timbre.grid() == frames.timbre_rows(times@, edges@),
        r.harmony.grid() == frames.harmony_rows(times@, edges@),
        r.rhythm.grid() == frames.rhythm_rows(times@, edges@),
        r.texture.grid() == rows_of(texture@),
        r.audio_duration_sec == audio_duration_sec,
{
    let cols: usize = edges.len() - 1;
    proof {
        let n = cols as int;
        let (a, b, c) = (frames.mel.height() as int, frames.mfcc.height() as int, frames.contrast.height() as int);
        let (d, e) = (frames.chroma.height() as int, frames.tonnetz.height() as int);
        assert(a * n <= (a + b + c) * n && b * n <= (a + b + c) * n && c * n <= (a + b + c) * n
            && (a + b) * n <= (a + b + c) * n) by (nonlinear_arith)
            requires
                a >= 0,
                b >= 0,
                c >= 0,
                n >= 0,
        ;
        assert(d * n <= (d + e) * n && e * n <= (d + e) * n)
            by (nonlinear_arith)
            requires
                d >= 0,
                e >= 0,
                n >= 0,
        ;
        assert(3 * n <= 27 * n && 24 * n <= 27 * n);
    }
    let mel: Mat = sync_to_intervals(&frames.mel, times, edges, Reducer::Median);
    let mfcc: Mat = sync_to_intervals(&frames.mfcc, times, edges, Reducer::Mean);
    let contrast: Mat = sync_to_intervals(&frames.contrast, times, edges, Reducer::Mean);
    let chroma: Mat = sync_to_intervals(&frames.chroma, times, edges, Reducer::Mean);
    let tonnetz: Mat = sync_to_intervals(&frames.tonnetz, times, edges, Reducer::Mean);
    let profiles: Mat = subdivision_profiles(&frames.onsets, times, edges);
    proof {
        lemma_profile_count(rows_of(frames.onsets@), times@, edges@, 3);
        assert(profiles.grid().len() == 24);
    }
    let sums: Mat = onset_sums(&frames.onsets, times, edges);
    AcousticFeatures {
        timbre: stack(stack(mel, mfcc), contrast),
        harmony: stack(chroma, tonnetz),
        rhythm: stack(profiles, sums),
        texture: Mat::of_rows(texture, cols),
        audio_duration_sec,
    }
}

/// Each envelope has eight slots.
proof fn lemma_profile_count(envelopes: Seq<Seq<Binary64>>, times: Seq<Binary64>, edges: Seq<Binary64>, n: nat)
    ensures
        all_profiles(envelopes, times, edges, n).len() == 8 * n,
    decreases n,
{
    if n > 0 {
        lemma_profile_count(envelopes, times, edges, (n - 1) as nat);
    }
}

/// A track is described by as many numbers per beat as its frames have rows:
/// the mel bands, the cepstrum and the contrast, chroma and tonal centroids,
/// 24 slots and three sums of onsets, and 15 rows of texture.
pub proof fn law_each_beat_has_all_features(
    frames: SongFrames,
    logs: Seq<Seq<Binary64>>,
    shapes: Seq<Seq<Binary64>>,
    vocal: Seq<Binary64>,
    times: Seq<Binary64>,
    edges: Seq<Binary64>,
)
    requires
        frames.wf(times.len(), edges.len() - 1),
    ensures
        frames.timbre_rows(times, edges).len() == frames.mel.height() + frames.mfcc.height() + frames.contrast.height(),
        frames.harmony_rows(times, edges).len() == frames.chroma.height() + frames.tonnetz.height(),
        frames.rhythm_rows(times, edges).len() == 27,
        texture_rows(logs, shapes, vocal).len() == 15,
{
    lemma_profile_count(rows_of(frames.onsets@), times, edges, 3);
}

} // verus!
