//! The beat-synchronous feature matrix, and the mapping back to beats.
//!
//! Each column is some consecutive beats of whitened log-mel energy, stacked
//! into one vector of unit length so that similarity is a plain dot product.
//! Columns are `step` beats apart: 1 for an ordinary track, more for one so
//! long that a column per beat would not fit. Every conversion between a column
//! and a time goes through [`BeatMatrix`].

use crate::number::lists::{rows_of, squares_about, total, total_of, total_squares_about};
use crate::number::binary64::{difference, half, larger, nano, of_int, one, pico, product, quotient, smaller, sum, zero, Binary64};
use crate::number::integral::{ceiled, nearest_integer, truncated};
use crate::number::laws::{law_cutting_keeps_bounds, law_small_integers_are_exact};
use crate::number::root::square_root;
use crate::number::sorting::{sort_ascending, upper_middle};
use vstd::prelude::*;

verus! {

/// How the detection of jump cues is tuned.
#[derive(Debug, Clone, Copy, PartialEq, Structural)]
pub struct JumpCueOptions {
    /// Mel bands in the beat-synchronous feature matrix.
    pub n_mels: usize,
    /// Lowest mel band edge, in Hz.
    pub mel_fmin: Binary64,
    /// Highest mel band edge, in Hz. `None` means Nyquist.
    pub mel_fmax: Option<Binary64>,
    /// Beats stacked into one feature column. One beat alone is too short to
    /// tell a phrase apart from any other phrase over the same drum pattern.
    pub n_beats_seg: usize,
    /// Cap on feature columns. The similarity matrix grows with their square,
    /// so a two-hour mix has to be decimated to stay within reach.
    pub max_cols: usize,
    /// Gaussian smoothing applied to the similarity matrix, in columns.
    pub smooth_sigma: Binary64,
    /// Columns either side of the main diagonal that are suppressed.
    pub diag_band: usize,
    /// Lags nearer than this to either end of the profile are ignored: a few
    /// beats apart is continuation, not a repeat.
    pub margin_beats: Binary64,
    /// How far a lag peak must stand above its surroundings, `0..=1`.
    pub peak_prominence: Binary64,
    /// Most candidate lags to follow up.
    pub max_peaks: usize,
    /// Floor on the cosine similarity a pair of regions must hold to count as
    /// alike. The threshold also rises with how self-similar the track is.
    pub min_score: Binary64,
    /// Shortest region worth jumping to.
    pub min_duration_sec: Binary64,
    /// Most links to keep, best-scoring first.
    pub max_pairs: usize,
    /// Softmax temperature turning link scores into confidences.
    pub score_temperature: Binary64,
}

impl Default for JumpCueOptions {
    fn default() -> (r: Self)
        ensures
            r == (JumpCueOptions {
                n_mels: 128,
                mel_fmin: Binary64 { bits: 0x403E_0000_0000_0000 },
                mel_fmax: None,
                n_beats_seg: 4,
                max_cols: 2000,
                smooth_sigma: one(),
                diag_band: 2,
                margin_beats: Binary64 { bits: 0x4030_0000_0000_0000 },
                peak_prominence: Binary64 { bits: 0x3FB7_0A3D_70A3_D70A },
                max_peaks: 6,
                min_score: Binary64 { bits: 0x3FD3_3333_3333_3333 },
                min_duration_sec: Binary64 { bits: 0x4018_0000_0000_0000 },
                max_pairs: 4,
                score_temperature: Binary64 { bits: 0x3FD6_6666_6666_6666 },
            }),
    {
        JumpCueOptions {
            n_mels: 128,
            mel_fmin: Binary64 { bits: 0x403E_0000_0000_0000 },
            mel_fmax: None,
            n_beats_seg: 4,
            max_cols: 2000,
            smooth_sigma: one(),
            diag_band: 2,
            margin_beats: Binary64 { bits: 0x4030_0000_0000_0000 },
            peak_prominence: Binary64 { bits: 0x3FB7_0A3D_70A3_D70A },
            max_peaks: 6,
            min_score: Binary64 { bits: 0x3FD3_3333_3333_3333 },
            min_duration_sec: Binary64 { bits: 0x4018_0000_0000_0000 },
            max_pairs: 4,
            score_temperature: Binary64 { bits: 0x3FD6_6666_6666_6666 },
        }
    }
}

impl JumpCueOptions {
    /// The number of mel bands in use, at least eight.
    pub fn bands(&self) -> (r: usize)
        ensures
            r == if self.n_mels < 8 {
                8
            } else {
                self.n_mels as int
            },
    {
        if self.n_mels < 8 {
            8
        } else {
            self.n_mels
        }
    }

    /// The highest band edge in use: the asked-for one, or the Nyquist
    /// frequency.
    pub fn highest_edge(&self, sample_rate: u32) -> (r: Binary64)
        ensures
            r == match self.mel_fmax {
                Some(fmax) => fmax,
                None => product(of_int(sample_rate as int), half()),
            },
    {
        match self.mel_fmax {
            Some(fmax) => fmax,
            None => Binary64::from_u64(sample_rate as u64).times(half()),
        }
    }
}

/// The beat-synchronous feature matrix.
#[derive(Debug, Clone)]
pub struct BeatMatrix {
    pub columns: Vec<Vec<Binary64>>,
    /// Beats between one column and the next.
    pub step: usize,
    /// Beats stacked into each column.
    pub span: usize,
    pub beats: Vec<Binary64>,
    pub avg_beat_sec: Binary64,
}

/// Time of a beat, extrapolating past the last one at the final spacing.
pub open spec fn time_of_beat(beats: Seq<Binary64>, beat: int) -> Binary64 {
    let n = beats.len() as int;
    if n == 0 {
        zero()
    } else if n == 1 {
        beats[0]
    } else if beat < n {
        beats[beat]
    } else {
        sum(beats[n - 1], product(difference(beats[n - 1], beats[n - 2]), of_int(beat - (n - 1))))
    }
}

/// The products of two lists, place by place, as far as both go.
pub open spec fn products(a: Seq<Binary64>, b: Seq<Binary64>) -> Seq<Binary64> {
    Seq::new(
        if a.len() < b.len() {
            a.len()
        } else {
            b.len()
        },
        |i: int| product(a[i], b[i]),
    )
}

/// The dot product of two lists.
pub open spec fn dot(a: Seq<Binary64>, b: Seq<Binary64>) -> Binary64 {
    total(products(a, b))
}

/// The dot product of two lists.
pub fn dot_product(a: &[Binary64], b: &[Binary64]) -> (r: Binary64)
    ensures
        r == dot(a@, b@),
{
    let mut out: Binary64 = zero();
    let mut i: usize = 0;
    let ghost all = products(a@, b@);
    while i < a.len() && i < b.len()
        invariant
            i <= a@.len(),
            i <= b@.len(),
            all == products(a@, b@),
            out == total(all.take(i as int)),
        decreases a@.len() - i,
    {
        out = out.plus(a[i].times(b[i]));
        assert(all.take(i + 1).drop_last() == all.take(i as int));
        i = i + 1;
    }
    assert(all.take(i as int) == all);
    out
}

/// How many columns, each some seconds wide, cover a time.
pub open spec fn columns_for(seconds: Binary64, per_column: Binary64) -> nat {
    if per_column.spec_le(zero()) {
        1
    } else {
        let n = truncated(ceiled(quotient(seconds, per_column)), usize::MAX as nat);
        if n < 1 {
            1
        } else {
            n
        }
    }
}

impl BeatMatrix {
    /// The contents of the columns.
    pub open spec fn features(&self) -> Seq<Seq<Binary64>> {
        rows_of(self.columns@)
    }

    /// The number of columns.
    pub fn len(&self) -> (r: usize)
        ensures
            r == self.columns@.len(),
    {
        self.columns.len()
    }

    /// Whether there are no columns.
    pub fn is_empty(&self) -> (r: bool)
        ensures
            r == (self.columns@.len() == 0),
    {
        self.columns.len() == 0
    }

    /// The first beat that `column` covers.
    pub fn first_beat(&self, column: usize) -> (r: usize)
        requires
            column * self.step <= usize::MAX,
        ensures
            r == column * self.step,
    {
        column * self.step
    }

    /// Time of a beat, extrapolating past the last one at the final spacing.
    pub fn beat_time(&self, beat: usize) -> (r: Binary64)
        ensures
            r == time_of_beat(self.beats@, beat as int),
    {
        let n: usize = self.beats.len();
        if n == 0 {
            zero()
        } else if n == 1 {
            self.beats[0]
        } else if beat < n {
            self.beats[beat]
        } else {
            let gap: Binary64 = self.beats[n - 1].minus(self.beats[n - 2]);
            let past: usize = beat - (n - 1);
            self.beats[n - 1].plus(gap.times(Binary64::from_u64(past as u64)))
        }
    }

    /// When `column` starts.
    pub fn start_time(&self, column: usize) -> (r: Binary64)
        requires
            column * self.step <= usize::MAX,
        ensures
            r == time_of_beat(self.beats@, column * self.step),
    {
        self.beat_time(self.first_beat(column))
    }

    /// When `column` ends: the end of the last beat it stacks.
    pub fn end_time(&self, column: usize) -> (r: Binary64)
        requires
            column * self.step + self.span <= usize::MAX,
        ensures
            r == time_of_beat(self.beats@, column * self.step + self.span),
    {
        self.beat_time(self.first_beat(column) + self.span)
    }

    /// Cosine similarity of two columns.
    pub fn similarity(&self, a: usize, b: usize) -> (r: Binary64)
        requires
            a < self.columns@.len(),
            b < self.columns@.len(),
        ensures
            r == dot(self.features()[a as int], self.features()[b as int]),
    {
        dot_product(self.columns[a].as_slice(), self.columns[b].as_slice())
    }

    /// How many columns cover `seconds` of track.
    pub fn columns_spanning(&self, seconds: Binary64) -> (r: usize)
        ensures
            r == columns_for(seconds, product(self.avg_beat_sec, of_int(self.step as int))),
    {
        let per_column: Binary64 = self.avg_beat_sec.times(Binary64::from_u64(self.step as u64));
        if per_column.le(zero()) {
            return 1;
        }
        let n: usize = seconds.over(per_column).ceil().truncate(usize::MAX as u64) as usize;
        if n < 1 {
            1
        } else {
            n
        }
    }
}

/// The first of `p`, `2p`, `4p`, ... that reaches `n`.
pub open spec fn doubled_to(p: nat, n: nat) -> nat
    decreases
            if p < n {
                n - p
            } else {
                0
            },
{
    if p == 0 || p >= n {
        p
    } else {
        doubled_to(2 * p, n)
    }
}

/// Doubling never lowers.
pub proof fn lemma_doubling_grows(p: nat, n: nat)
    ensures
        doubled_to(p, n) >= p,
    decreases
            if p < n {
                n - p
            } else {
                0
            },
{
    if p != 0 && p < n {
        lemma_doubling_grows(2 * p, n);
    }
}

/// The beat lengths in samples.
pub open spec fn beat_lengths(beats: Seq<Binary64>, rate: Binary64) -> Seq<Binary64> {
    Seq::new((beats.len() - 1) as nat, |i: int| product(difference(beats[i + 1], beats[i]), rate))
}

/// Half a beat in samples, kept between 512 and 4096.
pub open spec fn half_beat(beats: Seq<Binary64>, rate: Binary64) -> nat {
    let middle = larger(upper_middle(beat_lengths(beats, rate)), one());
    truncated(smaller(larger(product(middle, half()), of_int(512)), of_int(4096)), usize::MAX as nat)
}

/// The frame length for a track: about half a beat, a power of two.
///
/// A frame much longer than a beat would smear neighbouring beats together and
/// a much shorter one would resolve nothing.
pub fn frame_length(beats: &[Binary64], sample_rate: u32) -> (r: usize)
    requires
        beats@.len() >= 2,
    ensures
        r == doubled_to(32, half_beat(beats@, of_int(sample_rate as int))),
        32 <= r <= 4096,
{
    let rate: Binary64 = Binary64::from_u64(sample_rate as u64);
    let ghost want = beat_lengths(beats@, rate);
    let mut lengths: Vec<Binary64> = Vec::new();
    let mut i: usize = 1;
    while i < beats.len()
        invariant
            1 <= i <= beats@.len(),
            want == beat_lengths(beats@, rate),
            lengths@ == want.take(i - 1),
        decreases beats@.len() - i,
    {
        lengths.push(beats[i].minus(beats[i - 1]).times(rate));
        i = i + 1;
        assert(lengths@ =~= want.take(i - 1));
    }
    assert(lengths@ =~= want);
    let sorted: Vec<Binary64> = sort_ascending(lengths.as_slice());
    let middle: Binary64 = sorted[sorted.len() / 2].max(one());
    let low: Binary64 = Binary64::from_u64(512);
    let high: Binary64 = Binary64::from_u64(4096);
    let clamped: Binary64 = middle.times(half()).max(low).min(high);
    let n: usize = clamped.truncate(usize::MAX as u64) as usize;
    proof {
        law_small_integers_are_exact(4096);
        law_cutting_keeps_bounds(clamped, 4096, usize::MAX as nat);
    }
    let mut p: usize = 32;
    while p < n
        invariant
            32 <= p <= 4096,
            p == 32 || p == 64 || p == 128 || p == 256 || p == 512 || p == 1024 || p == 2048 || p == 4096,
            n <= 4096,
            doubled_to(32, n as nat) == doubled_to(p as nat, n as nat),
        decreases 4096 - p,
    {
        p = 2 * p;
    }
    p
}

/// The hop between frames of a length: a quarter, kept between 128 and 1024.
pub fn frame_hop(n_fft: usize) -> (r: usize)
    ensures
        128 <= r <= 1024,
        r == if n_fft / 4 < 128 {
            128
        } else if n_fft / 4 > 1024 {
            1024
        } else {
            n_fft / 4
        },
{
    let quarter: usize = n_fft / 4;
    if quarter < 128 {
        128
    } else if quarter > 1024 {
        1024
    } else {
        quarter
    }
}

/// How a track was cut into frames.
#[derive(Debug, Clone, Copy, PartialEq, Structural)]
pub struct Framing {
    pub sample_rate: u32,
    /// Samples in a frame.
    pub n_fft: usize,
    /// Samples between frames.
    pub hop: usize,
}

/// The frame that a time falls into, among the first `count`.
///
/// A frame is centred half a window after it starts, so that is where its
/// energy belongs on the timeline.
pub open spec fn frame_at(framing: Framing, count: nat, time: Binary64) -> int {
    let centre = product(of_int(framing.n_fft as int), half());
    let centred = quotient(
        difference(product(time, of_int(framing.sample_rate as int)), centre),
        of_int(framing.hop as int),
    );
    let at = truncated(larger(nearest_integer(centred), zero()), usize::MAX as nat);
    if at < count - 1 {
        at as int
    } else {
        count - 1
    }
}

impl Framing {
    /// The frame that a time falls into, among the first `count`.
    pub fn frame_of(&self, count: usize, time: Binary64) -> (r: usize)
        requires
            count > 0,
        ensures
            r == frame_at(*self, count as nat, time),
            r < count,
    {
        let centre: Binary64 = Binary64::from_u64(self.n_fft as u64).times(half());
        let offset: Binary64 = time.times(Binary64::from_u64(self.sample_rate as u64)).minus(centre);
        let centred: Binary64 = offset.over(Binary64::from_u64(self.hop as u64));
        let at: usize = centred.round().max(zero()).truncate(usize::MAX as u64) as usize;
        if at < count - 1 {
            at
        } else {
            count - 1
        }
    }
}

/// The frames of a beat: from the first up to one behind the last.
pub open spec fn frames_of_beat(framing: Framing, count: nat, beats: Seq<Binary64>, beat: int) -> (int, int) {
    let from = frame_at(framing, count, beats[beat]);
    let next = frame_at(framing, count, beats[beat + 1]);
    (
        from,
        if next > from {
            next
        } else {
            from + 1
        },
    )
}

/// The values of a band in frames `from..to`.
pub open spec fn band_values(power: Seq<Seq<Binary64>>, band: int, from: int, to: int) -> Seq<Binary64> {
    Seq::new((to - from) as nat, |i: int| power[from + i][band])
}

/// The level of a band in a beat: the middle value of its frames.
pub open spec fn level(framing: Framing, power: Seq<Seq<Binary64>>, beats: Seq<Binary64>, band: int, beat: int) -> Binary64 {
    let (from, to) = frames_of_beat(framing, power.len(), beats, beat);
    upper_middle(band_values(power, band, from, to))
}

/// The levels of a band, beat by beat.
pub open spec fn band_levels(framing: Framing, power: Seq<Seq<Binary64>>, beats: Seq<Binary64>, band: int) -> Seq<Binary64> {
    Seq::new((beats.len() - 1) as nat, |beat: int| level(framing, power, beats, band, beat))
}

/// The levels of all bands, beat by beat.
pub open spec fn levels(framing: Framing, power: Seq<Seq<Binary64>>, beats: Seq<Binary64>, n_mels: nat) -> Seq<
    Seq<Binary64>,
> {
    Seq::new(n_mels, |band: int| band_levels(framing, power, beats, band))
}

/// Whether every level is as good as nothing.
pub open spec fn silent(rows: Seq<Seq<Binary64>>) -> bool {
    forall|b: int, i: int| 0 <= b < rows.len() && 0 <= i < rows[b].len() ==> (#[trigger] rows[b][i]).spec_lt(pico())
}

/// The levels of one band, beat by beat. Median rather than mean over the
/// beat: a stray transient inside it should not decide what it sounds like.
fn levels_of_band(framing: Framing, power: &Vec<Vec<Binary64>>, beats: &[Binary64], band: usize) -> (r: Vec<Binary64>)
    requires
        power@.len() > 0,
        beats@.len() >= 2,
        forall|i: int| 0 <= i < power@.len() ==> band < (#[trigger] power@[i])@.len(),
    ensures
        r@ == band_levels(framing, rows_of(power@), beats@, band as int),
{
    let ghost rows = rows_of(power@);
    let ghost want = band_levels(framing, rows, beats@, band as int);
    let count: usize = power.len();
    let mut out: Vec<Binary64> = Vec::new();
    let mut beat: usize = 0;
    while beat < beats.len() - 1
        invariant
            beats@.len() >= 2,
            beat <= beats@.len() - 1,
            count == power@.len(),
            count > 0,
            rows == rows_of(power@),
            forall|i: int| 0 <= i < power@.len() ==> band < (#[trigger] power@[i])@.len(),
            want == band_levels(framing, rows, beats@, band as int),
            out@ == want.take(beat as int),
        decreases beats@.len() - beat,
    {
        let from: usize = framing.frame_of(count, beats[beat]);
        let next: usize = framing.frame_of(count, beats[beat + 1]);
        let to: usize = if next > from {
            next
        } else {
            from + 1
        };
        let ghost values = band_values(rows, band as int, from as int, to as int);
        let mut scratch: Vec<Binary64> = Vec::new();
        let mut i: usize = from;
        while i < to
            invariant
                from <= i <= to <= count,
                count == power@.len(),
                rows == rows_of(power@),
                forall|k: int| 0 <= k < power@.len() ==> band < (#[trigger] power@[k])@.len(),
                values == band_values(rows, band as int, from as int, to as int),
                scratch@ == values.take(i - from),
            decreases to - i,
        {
            scratch.push(power[i][band]);
            i = i + 1;
            assert(scratch@ =~= values.take(i - from));
        }
        assert(scratch@ =~= values);
        let sorted: Vec<Binary64> = sort_ascending(scratch.as_slice());
        out.push(sorted[sorted.len() / 2]);
        beat = beat + 1;
        assert(out@ =~= want.take(beat as int));
    }
    assert(out@ =~= want);
    out
}

/// Whether every level is as good as nothing.
fn is_silent(rows: &Vec<Vec<Binary64>>) -> (r: bool)
    ensures
        r == silent(rows_of(rows@)),
{
    let ghost all = rows_of(rows@);
    let mut b: usize = 0;
    while b < rows.len()
        invariant
            b <= rows@.len(),
            all == rows_of(rows@),
            forall|c: int, k: int| 0 <= c < b && 0 <= k < all[c].len() ==> (#[trigger] all[c][k]).spec_lt(pico()),
        decreases rows@.len() - b,
    {
        let mut i: usize = 0;
        while i < rows[b].len()
            invariant
                b < rows@.len(),
                i <= rows@[b as int]@.len(),
                all == rows_of(rows@),
                forall|k: int| 0 <= k < i ==> (#[trigger] all[b as int][k]).spec_lt(pico()),
            decreases rows@[b as int]@.len() - i,
        {
            if !rows[b][i].lt(pico()) {
                assert(!all[b as int][i as int].spec_lt(pico()));
                return false;
            }
            i = i + 1;
        }
        b = b + 1;
    }
    true
}

/// How loud each mel band is in each beat, band by band, or `None` if there is
/// nothing to tell: too few beats, no frames, or no sound in them.
///
/// `power` holds the mel powers of each frame.
pub fn beat_levels(framing: Framing, power: &Vec<Vec<Binary64>>, beats: &[Binary64], n_mels: usize) -> (r: Option<
    Vec<Vec<Binary64>>,
>)
    requires
        forall|i: int| 0 <= i < power@.len() ==> (#[trigger] power@[i])@.len() == n_mels,
    ensures
        r is Some <==> framing.sample_rate != 0 && beats@.len() >= 2 && power@.len() > 0 && !silent(
            levels(framing, rows_of(power@), beats@, n_mels as nat),
        ),
        r is Some ==> rows_of(r->0@) == levels(framing, rows_of(power@), beats@, n_mels as nat),
{
    if framing.sample_rate == 0 || beats.len() < 2 || power.len() == 0 {
        return None;
    }
    let ghost want = levels(framing, rows_of(power@), beats@, n_mels as nat);
    let mut out: Vec<Vec<Binary64>> = Vec::new();
    let mut band: usize = 0;
    assert(rows_of(out@) =~= want.take(0));
    while band < n_mels
        invariant
            band <= n_mels,
            power@.len() > 0,
            beats@.len() >= 2,
            forall|i: int| 0 <= i < power@.len() ==> (#[trigger] power@[i])@.len() == n_mels,
            want == levels(framing, rows_of(power@), beats@, n_mels as nat),
            rows_of(out@) == want.take(band as int),
        decreases n_mels - band,
    {
        let row: Vec<Binary64> = levels_of_band(framing, power, beats, band);
        let ghost before = out@;
        out.push(row);
        assert(rows_of(out@) =~= rows_of(before).push(row@));
        band = band + 1;
        assert(rows_of(out@) =~= want.take(band as int));
    }
    assert(rows_of(out@) =~= want);
    if is_silent(&out) {
        None
    } else {
        Some(out)
    }
}

/// The mean of a row.
pub open spec fn row_mean(row: Seq<Binary64>) -> Binary64 {
    quotient(total(row), of_int(row.len() as int))
}

/// How far a row spreads, never quite nothing.
pub open spec fn row_scale(row: Seq<Binary64>) -> Binary64 {
    let variance = quotient(total(squares_about(row, row_mean(row))), of_int(row.len() as int));
    sum(square_root(variance), pico())
}

/// A row moved to mean zero and scaled to unit spread.
pub open spec fn whitened(row: Seq<Binary64>) -> Seq<Binary64> {
    row.map_values(|v: Binary64| quotient(difference(v, row_mean(row)), row_scale(row)))
}

/// A row moved to mean zero and scaled to unit spread, so that a band which is
/// always loud contributes no more to similarity than a quiet one.
pub fn whiten(row: &[Binary64]) -> (r: Vec<Binary64>)
    ensures
        r@ == whitened(row@),
{
    let count: Binary64 = Binary64::from_u64(row.len() as u64);
    let mean: Binary64 = total_of(row).over(count);
    let squares: Binary64 = total_squares_about(row, mean);
    let scale: Binary64 = squares.over(count).sqrt().plus(pico());
    let ghost want = whitened(row@);
    let mut out: Vec<Binary64> = Vec::new();
    let mut k: usize = 0;
    while k < row.len()
        invariant
            k <= row@.len(),
            mean == row_mean(row@),
            scale == row_scale(row@),
            want == whitened(row@),
            out@ == want.take(k as int),
        decreases row@.len() - k,
    {
        out.push(row[k].minus(mean).over(scale));
        k = k + 1;
        assert(out@ =~= want.take(k as int));
    }
    assert(out@ =~= want);
    out
}

/// The values of all bands in one beat.
pub open spec fn beat_values(rows: Seq<Seq<Binary64>>, beat: int) -> Seq<Binary64> {
    rows.map_values(|row: Seq<Binary64>| row[beat])
}

/// The values of `span` beats one behind the other.
pub open spec fn stacked(rows: Seq<Seq<Binary64>>, first: int, span: nat) -> Seq<Binary64>
    decreases span,
{
    if span == 0 {
        seq![]
    } else {
        stacked(rows, first, (span - 1) as nat) + beat_values(rows, first + span - 1)
    }
}

/// A list scaled to unit length, unless it is as good as nothing.
pub open spec fn unit(values: Seq<Binary64>) -> Seq<Binary64> {
    let norm = square_root(dot(values, values));
    if nano().spec_lt(norm) {
        values.map_values(|v: Binary64| quotient(v, norm))
    } else {
        values
    }
}

/// The columns that start at beats `first`, `first + step`, ... before `end`.
pub open spec fn columns_from(rows: Seq<Seq<Binary64>>, first: int, end: int, step: int, span: nat) -> Seq<Seq<Binary64>>
    decreases
            if first < end {
                end - first
            } else {
                0
            },
{
    if first >= end || step <= 0 {
        seq![]
    } else {
        seq![unit(stacked(rows, first, span))] + columns_from(rows, first + step, end, step, span)
    }
}

/// Column `c` stacks the beats from `first + c * step` on.
pub proof fn law_columns_are_a_step_apart(rows: Seq<Seq<Binary64>>, first: int, end: int, step: int, span: nat, c: int)
    requires
        step > 0,
        first <= end,
        0 <= c,
    ensures
        c < columns_from(rows, first, end, step, span).len() <==> first + c * step < end,
        c < columns_from(rows, first, end, step, span).len() ==> columns_from(rows, first, end, step, span)[c] == unit(
            stacked(rows, first + c * step, span),
        ),
    decreases c,
{
    if first >= end {
        assert(c * step >= 0) by (nonlinear_arith)
            requires
                c >= 0,
                step > 0,
        ;
    } else if c > 0 {
        assert(c * step == (c - 1) * step + step) by (nonlinear_arith);
        if first + step <= end {
            law_columns_are_a_step_apart(rows, first + step, end, step, span, c - 1);
        } else {
            assert((c - 1) * step >= 0) by (nonlinear_arith)
                requires
                    c >= 1,
                    step > 0,
            ;
        }
    } else {
        assert(c * step == 0) by (nonlinear_arith)
            requires
                c == 0,
        ;
    }
}

/// A list scaled to unit length, unless it is as good as nothing.
fn to_unit(values: Vec<Binary64>) -> (r: Vec<Binary64>)
    ensures
        r@ == unit(values@),
{
    let norm: Binary64 = dot_product(values.as_slice(), values.as_slice()).sqrt();
    if !nano().lt(norm) {
        return values;
    }
    let ghost want = unit(values@);
    let mut out: Vec<Binary64> = Vec::new();
    let mut i: usize = 0;
    while i < values.len()
        invariant
            i <= values@.len(),
            want == values@.map_values(|v: Binary64| quotient(v, norm)),
            out@ == want.take(i as int),
        decreases values@.len() - i,
    {
        out.push(values[i].over(norm));
        i = i + 1;
        assert(out@ =~= want.take(i as int));
    }
    assert(out@ =~= want);
    out
}

/// The values of `span` beats from `first` on, one behind the other.
fn stack(rows: &Vec<Vec<Binary64>>, first: usize, span: usize) -> (r: Vec<Binary64>)
    requires
        first + span <= usize::MAX,
        forall|b: int| 0 <= b < rows@.len() ==> first + span <= (#[trigger] rows@[b])@.len(),
    ensures
        r@ == stacked(rows_of(rows@), first as int, span as nat),
{
    let ghost all = rows_of(rows@);
    let mut out: Vec<Binary64> = Vec::new();
    let mut offset: usize = 0;
    while offset < span
        invariant
            offset <= span,
            first + span <= usize::MAX,
            all == rows_of(rows@),
            forall|b: int| 0 <= b < rows@.len() ==> first + span <= (#[trigger] rows@[b])@.len(),
            out@ == stacked(all, first as int, offset as nat),
        decreases span - offset,
    {
        let ghost start = out@;
        let ghost values = beat_values(all, first + offset);
        let mut b: usize = 0;
        assert(out@ =~= start + values.take(0));
        while b < rows.len()
            invariant
                b <= rows@.len(),
                offset < span,
                first + span <= usize::MAX,
                all == rows_of(rows@),
                values == beat_values(all, first + offset),
                forall|c: int| 0 <= c < rows@.len() ==> first + span <= (#[trigger] rows@[c])@.len(),
                out@ == start + values.take(b as int),
            decreases rows@.len() - b,
        {
            out.push(rows[b][first + offset]);
            b = b + 1;
            assert(out@ =~= start + values.take(b as int));
        }
        assert(values.take(b as int) =~= values);
        offset = offset + 1;
        assert(out@ == stacked(all, first as int, offset as nat));
    }
    out
}

/// The number of beats that a column stacks.
pub open spec fn stack_span(options: JumpCueOptions, beat_count: nat) -> nat {
    let wanted: nat = if options.n_beats_seg < 1 {
        1
    } else {
        options.n_beats_seg as nat
    };
    if wanted < beat_count {
        wanted
    } else {
        beat_count
    }
}

/// The most columns there may be; one at least.
pub open spec fn column_cap(options: JumpCueOptions) -> nat {
    if options.max_cols < 1 {
        1
    } else {
        options.max_cols as nat
    }
}

/// The number of beats from one column to the next, when there could be `full`
/// columns: past the cap, the columns are sampled, just far enough apart to
/// stay within it.
pub open spec fn stack_step(options: JumpCueOptions, full: nat) -> nat {
    if full <= column_cap(options) {
        1
    } else {
        (full + column_cap(options) - 1) as nat / column_cap(options)
    }
}

/// A division rounded up, in two forms.
proof fn lemma_rounded_up(n: int, d: int)
    requires
        n > 0,
        d > 0,
    ensures
        (n + d - 1) / d == (n - 1) / d + 1,
{
    vstd::arithmetic::div_mod::lemma_div_plus_one(n - 1, d);
}

proof fn lemma_column_count(rows: Seq<Seq<Binary64>>, first: int, full: int, step: int, span: nat)
    requires
        0 <= first,
        step > 0,
    ensures
        first < full ==> (columns_from(rows, first, full, step, span).len() - 1) * step < full - first,
        first >= full ==> columns_from(rows, first, full, step, span).len() == 0,
    decreases full - first,
{
    if first < full {
        if first + step < full {
            lemma_column_count(rows, first + step, full, step, span);
        }
        let rest = columns_from(rows, first + step, full, step, span).len() as int;
        assert(columns_from(rows, first, full, step, span).len() == rest + 1);
        if first + step < full {
            assert(rest * step == (rest - 1) * step + step) by (nonlinear_arith);
        } else {
            assert(rest * step == 0) by (nonlinear_arith)
                requires
                    rest == 0,
            ;
        }
    }
}

/// There are never more columns than the cap allows.
pub proof fn law_columns_stay_within_the_cap(
    rows: Seq<Seq<Binary64>>,
    options: JumpCueOptions,
    full: nat,
    span: nat,
)
    ensures
        columns_from(rows, 0, full as int, stack_step(options, full) as int, span).len() <= column_cap(options),
{
    let cap = column_cap(options) as int;
    let step = stack_step(options, full) as int;
    assert(step > 0 && step * cap >= full) by {
        if full > cap {
            vstd::arithmetic::div_mod::lemma_fundamental_div_mod(full + cap - 1, cap);
            let left = (full + cap - 1) % cap;
            assert(cap * step == step * cap) by (nonlinear_arith);
            assert(step > 0) by (nonlinear_arith)
                requires
                    cap > 0,
                    cap * step >= full,
                    full > 0,
            ;
        }
    }
    lemma_column_count(rows, 0, full as int, step, span);
    let count = columns_from(rows, 0, full as int, step, span).len() as int;
    if full > 0 {
        assert(count <= cap) by (nonlinear_arith)
            requires
                (count - 1) * step < full,
                step * cap >= full,
                step > 0,
        ;
    }
}

/// Each band moved to mean zero and unit spread.
pub open spec fn whitened_rows(rows: Seq<Seq<Binary64>>) -> Seq<Seq<Binary64>> {
    rows.map_values(|row: Seq<Binary64>| whitened(row))
}

/// Builds the feature matrix from the log-compressed level of each band in each
/// beat, band by band.
pub fn stack_beats(compressed: &Vec<Vec<Binary64>>, beats: &[Binary64], options: &JumpCueOptions) -> (r: BeatMatrix)
    requires
        beats@.len() >= 2,
        forall|b: int| 0 <= b < compressed@.len() ==> (#[trigger] compressed@[b])@.len() == beats@.len() - 1,
    ensures
        ({
            let beat_count = (beats@.len() - 1) as nat;
            let full = (beat_count - r.span + 1) as nat;
            &&& r.beats@ == beats@
            &&& r.span == stack_span(*options, beat_count)
            &&& r.step == stack_step(*options, full)
            &&& r.features().len() <= column_cap(*options)
            &&& r.features() == columns_from(
                whitened_rows(rows_of(compressed@)),
                0,
                full as int,
                r.step as int,
                r.span as nat,
            )
            &&& r.avg_beat_sec == quotient(difference(beats@[beats@.len() - 1], beats@[0]), of_int(beat_count as int))
        }),
{
    let beat_count: usize = beats.len() - 1;
    let wanted: usize = if options.n_beats_seg < 1 {
        1
    } else {
        options.n_beats_seg
    };
    let span: usize = if wanted < beat_count {
        wanted
    } else {
        beat_count
    };
    let full: usize = beat_count - span + 1;
    let cap: usize = if options.max_cols < 1 {
        1
    } else {
        options.max_cols
    };
    let step: usize = if full <= cap {
        1
    } else {
        proof {
            lemma_rounded_up(full as int, cap as int);
        }
        (full - 1) / cap + 1
    };
    let mut rows: Vec<Vec<Binary64>> = Vec::new();
    let ghost want = whitened_rows(rows_of(compressed@));
    let mut b: usize = 0;
    assert(rows_of(rows@) =~= want.take(0));
    while b < compressed.len()
        invariant
            b <= compressed@.len(),
            want == whitened_rows(rows_of(compressed@)),
            forall|c: int| 0 <= c < compressed@.len() ==> (#[trigger] compressed@[c])@.len() == beat_count,
            rows@.len() == b,
            forall|c: int| 0 <= c < b ==> (#[trigger] rows@[c])@.len() == beat_count,
            rows_of(rows@) == want.take(b as int),
        decreases compressed@.len() - b,
    {
        let row: Vec<Binary64> = whiten(compressed[b].as_slice());
        assert(row@.len() == compressed@[b as int]@.len());
        let ghost before = rows@;
        rows.push(row);
        assert(rows_of(rows@) =~= rows_of(before).push(row@));
        b = b + 1;
        assert(rows_of(rows@) =~= want.take(b as int));
    }
    assert(rows_of(rows@) =~= want);
    let ghost all = columns_from(want, 0, full as int, step as int, span as nat);
    let mut columns: Vec<Vec<Binary64>> = Vec::new();
    let mut first: usize = 0;
    let mut more: bool = true;
    assert(rows_of(columns@) + all =~= all);
    while more
        invariant
            first + span <= beat_count || !more,
            full == beat_count - span + 1,
            more ==> first < full,
            step > 0,
            want == rows_of(rows@),
            forall|c: int| 0 <= c < rows@.len() ==> (#[trigger] rows@[c])@.len() == beat_count,
            all == columns_from(want, 0, full as int, step as int, span as nat),
            more ==> rows_of(columns@) + columns_from(want, first as int, full as int, step as int, span as nat) == all,
            !more ==> rows_of(columns@) == all,
        decreases
                if more {
                    full - first + 1
                } else {
                    0
                },
    {
        let column: Vec<Binary64> = to_unit(stack(&rows, first, span));
        let ghost before = columns@;
        let ghost rest = columns_from(want, first + step, full as int, step as int, span as nat);
        columns.push(column);
        assert(rows_of(columns@) =~= rows_of(before).push(column@));
        assert(rows_of(columns@) + rest =~= rows_of(before) + (seq![column@] + rest));
        if full - first <= step {
            more = false;
            assert(rows_of(columns@) + rest =~= rows_of(columns@));
        } else {
            first = first + step;
        }
    }
    proof {
        law_columns_stay_within_the_cap(want, *options, full as nat, span as nat);
    }
    let mut times: Vec<Binary64> = Vec::new();
    let mut k: usize = 0;
    while k < beats.len()
        invariant
            k <= beats@.len(),
            times@ == beats@.take(k as int),
        decreases beats@.len() - k,
    {
        times.push(beats[k]);
        k = k + 1;
        assert(times@ =~= beats@.take(k as int));
    }
    assert(times@ =~= beats@);
    let avg_beat_sec: Binary64 = beats[beats.len() - 1].minus(beats[0]).over(Binary64::from_u64(beat_count as u64));
    BeatMatrix { columns, step, span, beats: times, avg_beat_sec }
}

/// A column holds the values of its beats one after the other, each beat's bands
/// in order.
pub proof fn law_columns_stack_their_beats(rows: Seq<Seq<Binary64>>, first: int, span: nat, beat: int, band: int)
    requires
        0 <= beat < span,
        0 <= band < rows.len(),
    ensures
        stacked(rows, first, span).len() == span * rows.len(),
        stacked(rows, first, span)[beat * rows.len() + band] == rows[band][first + beat],
    decreases span,
{
    lemma_stacked_len(rows, first, (span - 1) as nat);
    lemma_stacked_len(rows, first, span);
    assert(span * rows.len() == (span - 1) * rows.len() + rows.len()) by (nonlinear_arith);
    if beat < span - 1 {
        law_columns_stack_their_beats(rows, first, (span - 1) as nat, beat, band);
        assert(0 <= beat * rows.len() && beat * rows.len() + band < (span - 1) * rows.len()) by (nonlinear_arith)
            requires
                0 <= beat < span - 1,
                0 <= band < rows.len(),
        ;
    }
}

proof fn lemma_stacked_len(rows: Seq<Seq<Binary64>>, first: int, span: nat)
    ensures
        stacked(rows, first, span).len() == span * rows.len(),
    decreases span,
{
    if span == 0 {
        assert(0 * rows.len() == 0) by (nonlinear_arith);
    } else {
        lemma_stacked_len(rows, first, (span - 1) as nat);
        assert(span * rows.len() == (span - 1) * rows.len() + rows.len()) by (nonlinear_arith);
    }
}

/// Doubling reaches the length that is asked for, and stops as soon as it does.
pub proof fn law_doubling_stops_in_time(p: nat, n: nat)
    requires
        p > 0,
    ensures
        doubled_to(p, n) >= n,
        doubled_to(p, n) >= p,
        doubled_to(p, n) == p || doubled_to(p, n) < 2 * n,
        p >= n ==> doubled_to(p, n) == p,
        p < n ==> doubled_to(p, n) == doubled_to(2 * p, n),
    decreases
            if p < n {
                n - p
            } else {
                0
            },
{
    if p < n {
        law_doubling_stops_in_time(2 * p, n);
    }
}

/// The level of a beat depends on the frames of that beat alone.
pub proof fn law_a_beat_is_measured_in_its_frames(
    framing: Framing,
    a: Seq<Seq<Binary64>>,
    b: Seq<Seq<Binary64>>,
    beats: Seq<Binary64>,
    band: int,
    beat: int,
)
    requires
        a.len() == b.len(),
        forall|f: int|
            frames_of_beat(framing, a.len(), beats, beat).0 <= f < frames_of_beat(framing, a.len(), beats, beat).1
                ==> #[trigger] a[f][band] == b[f][band],
    ensures
        level(framing, a, beats, band, beat) == level(framing, b, beats, band, beat),
{
    let (from, to) = frames_of_beat(framing, a.len(), beats, beat);
    assert forall|i: int| 0 <= i < to - from implies #[trigger] band_values(a, band, from, to)[i] == band_values(
        b,
        band,
        from,
        to,
    )[i] by {
        assert(a[from + i][band] == b[from + i][band]);
    }
    assert(band_values(a, band, from, to) =~= band_values(b, band, from, to));
}

/// Past the last beat the beats go on at the last distance.
pub proof fn law_beats_go_on_at_the_last_distance(beats: Seq<Binary64>, beat: int)
    requires
        beats.len() >= 2,
        0 <= beat,
    ensures
        beat < beats.len() ==> time_of_beat(beats, beat) == beats[beat],
        beat >= beats.len() ==> time_of_beat(beats, beat) == sum(
            beats.last(),
            product(difference(beats.last(), beats[beats.len() - 2]), of_int(beat - (beats.len() - 1))),
        ),
{
}

} // verus!
