//! Key detection on a chromagram.
//!
//! Correlating the twelve pitch-class energies of a frame against the key
//! profiles says which key it sounds like; a Viterbi pass over time turns these
//! opinions into stretches of stable key. All 24 keys are states of one decode,
//! so a change of mode is just another transition.

use crate::analyze::features::doubled_to;
use crate::analyze::onset::double_to;
use crate::number::lists::{rows_of, total, total_of};
use crate::domain::key::{compatible, mode_of, pitch_of, Key, Mode};
use crate::domain::segments::KeySegment;
use crate::number::binary64::{
    absolute, difference, larger, micro, minus_infinity, negated, of_int, one, pico, product, quotient, sum, zero, Binary64,
};
use crate::number::integral::{lemma_rounded_exact, nearest_integer, signed_truncated};
use crate::number::rounding::magnitude;
use crate::number::laws::{
    law_adding_nothing_changes_nothing, law_addition_keeps_the_order, law_codes_are_ordered, law_comparison_is_numeric,
    law_division_keeps_the_order, law_multiplication_keeps_the_order, law_small_integers_are_exact, law_small_integers_come_back,
    law_small_integers_keep_their_order, lemma_no_magnitude, lemma_nothing_rounds_to_nothing,
};
use crate::number::root::square_root;
use vstd::prelude::*;

verus! {

/// Krumhansl-Kessler major profile, the classic probe-tone ratings, as bit
/// patterns: 6.35 2.23 3.48 2.33 4.38 4.09 2.52 5.19 2.39 3.66 2.29 2.88.
pub const MAJOR_PROFILE: [u64; 12] = [
    0x4019_6666_6666_6666,
    0x4001_D70A_3D70_A3D7,
    0x400B_D70A_3D70_A3D7,
    0x4002_A3D7_0A3D_70A4,
    0x4011_851E_B851_EB85,
    0x4010_5C28_F5C2_8F5C,
    0x4004_28F5_C28F_5C29,
    0x4014_C28F_5C28_F5C3,
    0x4003_1EB8_51EB_851F,
    0x400D_47AE_147A_E148,
    0x4002_51EB_851E_B852,
    0x4007_0A3D_70A3_D70A,
];

/// Krumhansl-Kessler minor profile, as bit patterns: 6.33 2.68 3.52 5.38 2.60
/// 3.53 2.54 4.75 3.98 2.69 3.34 3.17.
pub const MINOR_PROFILE: [u64; 12] = [
    0x4019_51EB_851E_B852,
    0x4005_70A3_D70A_3D71,
    0x400C_28F5_C28F_5C29,
    0x4015_851E_B851_EB85,
    0x4004_CCCC_CCCC_CCCD,
    0x400C_3D70_A3D7_0A3D,
    0x4004_51EB_851E_B852,
    0x4013_0000_0000_0000,
    0x400F_D70A_3D70_A3D7,
    0x4005_851E_B851_EB85,
    0x400A_B851_EB85_1EB8,
    0x4009_5C28_F5C2_8F5C,
];

/// A chromagram: twelve pitch-class energies per frame.
#[derive(Debug)]
pub struct Chroma {
    rows: Vec<Vec<Binary64>>,
    /// Time of each frame, in seconds.
    times: Vec<Binary64>,
}

/// Whether every row holds twelve values.
pub open spec fn twelve_each(rows: Seq<Seq<Binary64>>) -> bool {
    forall|i: int| 0 <= i < rows.len() ==> (#[trigger] rows[i]).len() == 12
}

/// The values of one pitch class.
pub open spec fn pitch_values(rows: Seq<Seq<Binary64>>, pitch: int) -> Seq<Binary64> {
    Seq::new(rows.len(), |i: int| rows[i][pitch])
}

/// The sum of each pitch class over some rows.
pub open spec fn pitch_sums(rows: Seq<Seq<Binary64>>) -> Seq<Binary64> {
    Seq::new(12, |pitch: int| total(pitch_values(rows, pitch)))
}

/// A row scaled to sum to one; as it is where it sums to nothing.
pub open spec fn summing_to_one(row: Seq<Binary64>) -> Seq<Binary64> {
    if zero().spec_lt(total(row)) {
        row.map_values(|v: Binary64| quotient(v, total(row)))
    } else {
        row
    }
}

/// The first `n` rows whose time lies in `[start, end)`.
pub open spec fn rows_between(
    rows: Seq<Seq<Binary64>>,
    times: Seq<Binary64>,
    start: Binary64,
    end: Binary64,
    n: nat,
) -> Seq<Seq<Binary64>>
    decreases n,
{
    if n == 0 {
        seq![]
    } else {
        let before = rows_between(rows, times, start, end, (n - 1) as nat);
        if start.spec_le(times[n - 1]) && times[n - 1].spec_lt(end) {
            before.push(rows[n - 1])
        } else {
            before
        }
    }
}

/// The average chroma of the frames between two beats.
pub open spec fn beat_row(rows: Seq<Seq<Binary64>>, times: Seq<Binary64>, start: Binary64, end: Binary64) -> Seq<Binary64> {
    summing_to_one(pitch_sums(rows_between(rows, times, start, end, rows.len())))
}

/// A row scaled to sum to one; as it is where it sums to nothing.
fn sum_to_one(row: Vec<Binary64>) -> (r: Vec<Binary64>)
    ensures
        r@ == summing_to_one(row@),
{
    let whole: Binary64 = total_of(row.as_slice());
    if !zero().lt(whole) {
        return row;
    }
    let ghost want = summing_to_one(row@);
    let mut out: Vec<Binary64> = Vec::new();
    let mut i: usize = 0;
    while i < row.len()
        invariant
            i <= row@.len(),
            want == row@.map_values(|v: Binary64| quotient(v, whole)),
            out@ == want.take(i as int),
        decreases row@.len() - i,
    {
        out.push(row[i].over(whole));
        i = i + 1;
        assert(out@ =~= want.take(i as int));
    }
    assert(out@ =~= want);
    out
}

/// Twelve zeros.
fn twelve_zeros() -> (r: Vec<Binary64>)
    ensures
        r@ == Seq::new(12, |i: int| zero()),
{
    let mut out: Vec<Binary64> = Vec::new();
    let mut i: usize = 0;
    while i < 12
        invariant
            i <= 12,
            out@ == Seq::new(i as nat, |k: int| zero()),
        decreases 12 - i,
    {
        out.push(zero());
        i = i + 1;
        assert(out@ =~= Seq::new(i as nat, |k: int| zero()));
    }
    assert(out@ =~= Seq::new(12, |k: int| zero()));
    out
}

/// Adds a row to the sums over the rows before it.
fn add_row(sums: Vec<Binary64>, row: &Vec<Binary64>, Ghost(rows): Ghost<Seq<Seq<Binary64>>>) -> (r: Vec<Binary64>)
    requires
        sums@ == pitch_sums(rows),
        row@.len() == 12,
    ensures
        r@ == pitch_sums(rows.push(row@)),
{
    let ghost want = pitch_sums(rows.push(row@));
    let mut out: Vec<Binary64> = Vec::new();
    let mut p: usize = 0;
    while p < 12
        invariant
            p <= 12,
            sums@ == pitch_sums(rows),
            row@.len() == 12,
            want == pitch_sums(rows.push(row@)),
            out@ == want.take(p as int),
        decreases 12 - p,
    {
        out.push(sums[p].plus(row[p]));
        proof {
            let now = pitch_values(rows.push(row@), p as int);
            assert(now.drop_last() =~= pitch_values(rows, p as int));
            assert(now.last() == row@[p as int]);
        }
        p = p + 1;
        assert(out@ =~= want.take(p as int));
    }
    assert(out@ =~= want);
    out
}

impl Chroma {
    #[verifier::type_invariant]
    spec fn well_formed(&self) -> bool {
        self.rows@.len() == self.times@.len() && twelve_each(rows_of(self.rows@))
    }

    /// The twelve energies of each frame.
    pub closed spec fn energies(&self) -> Seq<Seq<Binary64>> {
        rows_of(self.rows@)
    }

    /// The time of each frame.
    pub closed spec fn moments(&self) -> Seq<Binary64> {
        self.times@
    }

    /// A chromagram of frames at some times.
    pub fn new(rows: Vec<Vec<Binary64>>, times: Vec<Binary64>) -> (r: Self)
        requires
            rows@.len() == times@.len(),
            twelve_each(rows_of(rows@)),
        ensures
            r.energies() == rows_of(rows@),
            r.moments() == times@,
    {
        Chroma { rows, times }
    }

    /// The number of frames.
    pub fn frames(&self) -> (r: usize)
        ensures
            r == self.energies().len(),
            r == self.moments().len(),
    {
        proof {
            use_type_invariant(self);
        }
        self.rows.len()
    }

    /// Whether there are no frames.
    pub fn is_empty(&self) -> (r: bool)
        ensures
            r == (self.energies().len() == 0),
    {
        self.rows.len() == 0
    }

    /// The twelve values of one frame.
    pub fn frame(&self, index: usize) -> (r: &[Binary64])
        requires
            index < self.energies().len(),
        ensures
            r@ == self.energies()[index as int],
            r@.len() == 12,
    {
        proof {
            use_type_invariant(self);
            assert(rows_of(self.rows@)[index as int].len() == 12);
        }
        self.rows[index].as_slice()
    }

    /// Time of frame `index`; zero past the last frame.
    pub fn time(&self, index: usize) -> (r: Binary64)
        ensures
            r == if index < self.moments().len() {
                self.moments()[index as int]
            } else {
                zero()
            },
    {
        if index < self.times.len() {
            self.times[index]
        } else {
            zero()
        }
    }

    /// Average chroma over the whole piece, normalised to sum to one.
    pub fn mean(&self) -> (r: Vec<Binary64>)
        ensures
            r@ == summing_to_one(pitch_sums(self.energies())),
            r@.len() == 12,
    {
        proof {
            use_type_invariant(self);
        }
        let ghost rows = self.energies();
        let mut sums: Vec<Binary64> = twelve_zeros();
        let mut i: usize = 0;
        assert(sums@ =~= pitch_sums(rows.take(0)));
        while i < self.rows.len()
            invariant
                i <= self.rows@.len(),
                rows == rows_of(self.rows@),
                twelve_each(rows),
                sums@ == pitch_sums(rows.take(i as int)),
            decreases self.rows@.len() - i,
        {
            assert(rows[i as int].len() == 12);
            sums = add_row(sums, &self.rows[i], Ghost(rows.take(i as int)));
            assert(rows.take(i as int).push(rows[i as int]) =~= rows.take(i + 1));
            i = i + 1;
        }
        assert(rows.take(i as int) =~= rows);
        sum_to_one(sums)
    }

    /// The average chroma of the frames between two times.
    fn between(&self, start: Binary64, end: Binary64) -> (r: Vec<Binary64>)
        ensures
            r@ == beat_row(self.energies(), self.moments(), start, end),
            r@.len() == 12,
    {
        proof {
            use_type_invariant(self);
        }
        let ghost rows = self.energies();
        let ghost times = self.moments();
        let mut sums: Vec<Binary64> = twelve_zeros();
        let mut i: usize = 0;
        assert(sums@ =~= pitch_sums(rows_between(rows, times, start, end, 0)));
        while i < self.rows.len()
            invariant
                i <= self.rows@.len(),
                self.rows@.len() == self.times@.len(),
                rows == rows_of(self.rows@),
                times == self.times@,
                twelve_each(rows),
                sums@ == pitch_sums(rows_between(rows, times, start, end, i as nat)),
            decreases self.rows@.len() - i,
        {
            let t: Binary64 = self.times[i];
            if start.le(t) && t.lt(end) {
                assert(rows[i as int].len() == 12);
                sums = add_row(sums, &self.rows[i], Ghost(rows_between(rows, times, start, end, i as nat)));
            }
            i = i + 1;
        }
        sum_to_one(sums)
    }
}

impl Clone for Chroma {
    fn clone(&self) -> (r: Self)
        ensures
            r.energies() == self.energies(),
            r.moments() == self.moments(),
    {
        proof {
            use_type_invariant(self);
        }
        let ghost want = rows_of(self.rows@);
        let mut rows: Vec<Vec<Binary64>> = Vec::new();
        let mut i: usize = 0;
        assert(rows_of(rows@) =~= want.take(0));
        while i < self.rows.len()
            invariant
                i <= self.rows@.len(),
                want == rows_of(self.rows@),
                rows_of(rows@) == want.take(i as int),
            decreases self.rows@.len() - i,
        {
            let row: Vec<Binary64> = self.rows[i].clone();
            assert(row@ =~= self.rows@[i as int]@);
            let ghost before = rows@;
            rows.push(row);
            assert(rows_of(rows@) =~= rows_of(before).push(row@));
            i = i + 1;
            assert(rows_of(rows@) =~= want.take(i as int));
        }
        assert(rows_of(rows@) =~= want);
        let times: Vec<Binary64> = self.times.clone();
        assert(times@ =~= self.times@);
        assert(rows@.len() == rows_of(rows@).len());
        Chroma { rows, times }
    }
}

/// Averages chroma between consecutive beats, one row per beat.
///
/// Chords change on beats far more often than between them, so averaging
/// within a beat removes noise without blurring a real change. With no frames
/// or fewer than two beats the chromagram stays as it is.
pub fn beat_synchronous(chroma: &Chroma, beats: &[Binary64]) -> (r: Chroma)
    ensures
        chroma.energies().len() == 0 || beats@.len() < 2 ==> r.energies() == chroma.energies() && r.moments()
            == chroma.moments(),
        chroma.energies().len() > 0 && beats@.len() >= 2 ==> r.moments() == beats@.drop_last() && r.energies()
            == Seq::new(
            (beats@.len() - 1) as nat,
            |i: int| beat_row(chroma.energies(), chroma.moments(), beats@[i], beats@[i + 1]),
        ),
{
    if chroma.is_empty() || beats.len() < 2 {
        return chroma.clone();
    }
    let ghost want = Seq::new(
        (beats@.len() - 1) as nat,
        |i: int| beat_row(chroma.energies(), chroma.moments(), beats@[i], beats@[i + 1]),
    );
    let mut rows: Vec<Vec<Binary64>> = Vec::new();
    let mut times: Vec<Binary64> = Vec::new();
    let mut i: usize = 0;
    assert(rows_of(rows@) =~= want.take(0));
    while i < beats.len() - 1
        invariant
            beats@.len() >= 2,
            i <= beats@.len() - 1,
            want == Seq::new(
                (beats@.len() - 1) as nat,
                |k: int| beat_row(chroma.energies(), chroma.moments(), beats@[k], beats@[k + 1]),
            ),
            rows_of(rows@) == want.take(i as int),
            twelve_each(rows_of(rows@)),
            times@ == beats@.take(i as int),
        decreases beats@.len() - i,
    {
        let row: Vec<Binary64> = chroma.between(beats[i], beats[i + 1]);
        let ghost before = rows@;
        rows.push(row);
        assert(rows_of(rows@) =~= rows_of(before).push(row@));
        times.push(beats[i]);
        i = i + 1;
        assert(rows_of(rows@) =~= want.take(i as int));
        assert(times@ =~= beats@.take(i as int));
    }
    assert(rows_of(rows@) =~= want);
    assert(times@ =~= beats@.drop_last());
    assert(rows@.len() == rows_of(rows@).len());
    Chroma::new(rows, times)
}

/// How chroma is extracted.
#[derive(Debug, Clone, Copy, PartialEq, Structural)]
pub struct ChromaOptions {
    pub n_fft: usize,
    pub hop: usize,
    /// Lowest frequency to fold in. Below this, pitch is unreliable.
    pub fmin: Binary64,
    /// Highest frequency to fold in.
    pub fmax: Binary64,
}

impl Default for ChromaOptions {
    fn default() -> (r: Self)
        ensures
            r == (ChromaOptions {
                n_fft: 4096,
                hop: 2048,
                fmin: Binary64 { bits: 0x4050_4000_0000_0000 },
                fmax: Binary64 { bits: 0x40A0_6800_0000_0000 },
            }),
    {
        ChromaOptions {
            n_fft: 4096,
            hop: 2048,
            fmin: Binary64 { bits: 0x4050_4000_0000_0000 },
            fmax: Binary64 { bits: 0x40A0_6800_0000_0000 },
        }
    }
}

impl ChromaOptions {
    /// The window length in use: the asked-for one, at least 64 samples, made a
    /// power of two.
    pub fn window_length(&self) -> (r: usize)
        requires
            doubled_to(64, self.n_fft as nat) <= usize::MAX,
        ensures
            r == doubled_to(64, self.n_fft as nat),
            r >= 64,
    {
        double_to(64, self.n_fft)
    }

    /// The hop in use.
    pub open spec fn step(&self) -> nat {
        if self.hop < 1 {
            1
        } else {
            self.hop as nat
        }
    }

    /// The hop in use, at least one sample.
    pub fn hop_length(&self) -> (r: usize)
        ensures
            r == self.step(),
            r > 0,
    {
        if self.hop < 1 {
            1
        } else {
            self.hop
        }
    }
}

/// How strongly a pitch votes: by how close it is to a semitone centre.
pub open spec fn semitone_weight(midi: Binary64) -> Binary64 {
    let off = absolute(difference(midi, nearest_integer(midi)));
    larger(difference(one(), product(of_int(2), off)), zero())
}

/// The pitch class of a fractional note number and its weight, if it has one.
pub open spec fn pitch_vote(midi: Binary64) -> Option<(usize, Binary64)> {
    if semitone_weight(midi).spec_le(zero()) {
        None
    } else {
        Some(((signed_truncated(nearest_integer(midi)) % 12) as usize, semitone_weight(midi)))
    }
}

/// Whether a vote is for one of the twelve pitch classes.
pub open spec fn class_known(vote: Option<(usize, Binary64)>) -> bool {
    match vote {
        Some(v) => v.0 < 12,
        None => true,
    }
}

/// Which pitch class a note number belongs to, and how strongly.
///
/// Energy smeared between two semitones does not vote at full strength.
pub fn fold_pitch(midi: Binary64) -> (r: Option<(usize, Binary64)>)
    ensures
        r == pitch_vote(midi),
        class_known(r),
{
    let nearest: Binary64 = midi.round();
    let off: Binary64 = midi.minus(nearest).abs();
    let weight: Binary64 = one().minus(Binary64::from_u64(2).times(off)).max(zero());
    if weight.le(zero()) {
        return None;
    }
    let note: i64 = nearest.to_i64();
    let rest: i64 = note % 12;
    let class: i64 = if rest < 0 {
        rest + 12
    } else {
        rest
    };
    Some((class as usize, weight))
}

/// The first `n` bins folded onto the twelve pitch classes.
pub open spec fn folded_bins(levels: Seq<Binary64>, votes: Seq<Option<(usize, Binary64)>>, n: nat) -> Seq<Binary64>
    decreases n,
{
    if n == 0 {
        Seq::new(12, |i: int| zero())
    } else {
        let before = folded_bins(levels, votes, (n - 1) as nat);
        match votes[n - 1] {
            Some(vote) => before.update(
                vote.0 as int,
                sum(before[vote.0 as int], product(levels[n - 1], vote.1)),
            ),
            None => before,
        }
    }
}

/// One frame of chroma: the level of each bin folded onto the pitch classes,
/// scaled to sum to one.
pub fn fold_bins(levels: &[Binary64], votes: &Vec<Option<(usize, Binary64)>>) -> (r: Vec<Binary64>)
    requires
        levels@.len() >= votes@.len(),
        forall|i: int| 0 <= i < votes@.len() ==> class_known(#[trigger] votes@[i]),
    ensures
        r@ == summing_to_one(folded_bins(levels@, votes@, votes@.len())),
        r@.len() == 12,
{
    let mut row: Vec<Binary64> = twelve_zeros();
    let mut i: usize = 0;
    while i < votes.len()
        invariant
            i <= votes@.len(),
            levels@.len() >= votes@.len(),
            forall|k: int| 0 <= k < votes@.len() ==> class_known(#[trigger] votes@[k]),
            row@.len() == 12,
            row@ == folded_bins(levels@, votes@, i as nat),
        decreases votes@.len() - i,
    {
        assert(class_known(votes@[i as int]));
        if let Some(vote) = votes[i] {
            let value: Binary64 = row[vote.0].plus(levels[i].times(vote.1));
            row.set(vote.0, value);
        }
        i = i + 1;
    }
    sum_to_one(row)
}

/// The time of a frame: the centre of its window.
pub fn window_centre(start: usize, n_fft: usize, sample_rate: u32) -> (r: Binary64)
    ensures
        r == quotient(
            sum(of_int(start as int), quotient(of_int(n_fft as int), of_int(2))),
            of_int(sample_rate as int),
        ),
{
    let half_window: Binary64 = Binary64::from_u64(n_fft as u64).over(Binary64::from_u64(2));
    Binary64::from_u64(start as u64).plus(half_window).over(Binary64::from_u64(sample_rate as u64))
}

/// The frequency of a bin.
pub open spec fn bin_hertz(bin: int, sample_rate: u32, n_fft: nat) -> Binary64 {
    product(of_int(bin), quotient(of_int(sample_rate as int), of_int(n_fft as int)))
}

/// What a bin votes for, given its fractional note number: nothing outside the
/// usable range.
pub open spec fn bin_vote(midi: Binary64, freq: Binary64, options: ChromaOptions) -> Option<(usize, Binary64)> {
    if freq.spec_lt(options.fmin) || options.fmax.spec_lt(freq) {
        None
    } else {
        pitch_vote(midi)
    }
}

/// What each bin votes for, given their fractional note numbers.
pub open spec fn votes_of(midis: Seq<Binary64>, sample_rate: u32, options: ChromaOptions) -> Seq<Option<(usize, Binary64)>> {
    Seq::new(
        midis.len(),
        |bin: int|
            bin_vote(midis[bin], bin_hertz(bin, sample_rate, doubled_to(64, options.n_fft as nat)), options),
    )
}

/// Which pitch class each bin belongs to, and how strongly, given their
/// fractional note numbers.
pub fn bin_votes(midis: &[Binary64], sample_rate: u32, options: &ChromaOptions) -> (r: Vec<Option<(usize, Binary64)>>)
    requires
        doubled_to(64, options.n_fft as nat) <= usize::MAX,
    ensures
        r@ == votes_of(midis@, sample_rate, *options),
        forall|i: int| 0 <= i < r@.len() ==> class_known(#[trigger] r@[i]),
{
    let n_fft: usize = options.window_length();
    let hertz: Binary64 = Binary64::from_u64(sample_rate as u64).over(Binary64::from_u64(n_fft as u64));
    let ghost want = votes_of(midis@, sample_rate, *options);
    let mut out: Vec<Option<(usize, Binary64)>> = Vec::new();
    let mut bin: usize = 0;
    while bin < midis.len()
        invariant
            bin <= midis@.len(),
            n_fft == doubled_to(64, options.n_fft as nat),
            hertz == quotient(of_int(sample_rate as int), of_int(n_fft as int)),
            want == votes_of(midis@, sample_rate, *options),
            out@ == want.take(bin as int),
            forall|i: int| 0 <= i < out@.len() ==> class_known(#[trigger] out@[i]),
        decreases midis@.len() - bin,
    {
        let freq: Binary64 = Binary64::from_u64(bin as u64).times(hertz);
        if freq.lt(options.fmin) || options.fmax.lt(freq) {
            out.push(None);
        } else {
            out.push(fold_pitch(midis[bin]));
        }
        bin = bin + 1;
        assert(out@ =~= want.take(bin as int));
    }
    assert(out@ =~= want);
    out
}

/// The time of frame `i`.
pub open spec fn frame_moment(i: int, options: ChromaOptions, sample_rate: u32) -> Binary64 {
    quotient(
        sum(
            of_int(i * options.step()),
            quotient(of_int(doubled_to(64, options.n_fft as nat) as int), of_int(2)),
        ),
        of_int(sample_rate as int),
    )
}

/// The chromagram of a signal, given the magnitudes of the bins of each of its
/// windows and the fractional note numbers of the bins.
pub fn chroma(spectra: &Vec<Vec<Binary64>>, midis: &[Binary64], sample_rate: u32, options: &ChromaOptions) -> (r: Chroma)
    requires
        doubled_to(64, options.n_fft as nat) <= usize::MAX,
        forall|i: int| 0 <= i < spectra@.len() ==> (#[trigger] spectra@[i])@.len() >= midis@.len(),
        spectra@.len() * options.step() <= usize::MAX,
    ensures
        r.energies() == rows_of(spectra@).map_values(
            |levels: Seq<Binary64>|
                summing_to_one(folded_bins(levels, votes_of(midis@, sample_rate, *options), midis@.len())),
        ),
        r.moments() == Seq::new(spectra@.len(), |i: int| frame_moment(i, *options, sample_rate)),
{
    let votes: Vec<Option<(usize, Binary64)>> = bin_votes(midis, sample_rate, options);
    let n_fft: usize = options.window_length();
    let hop: usize = options.hop_length();
    let ghost want = rows_of(spectra@).map_values(
        |levels: Seq<Binary64>| summing_to_one(folded_bins(levels, votes@, midis@.len())),
    );
    let ghost moments = Seq::new(spectra@.len(), |i: int| frame_moment(i, *options, sample_rate));
    let mut rows: Vec<Vec<Binary64>> = Vec::new();
    let mut times: Vec<Binary64> = Vec::new();
    let mut i: usize = 0;
    assert(rows_of(rows@) =~= want.take(0));
    while i < spectra.len()
        invariant
            i <= spectra@.len(),
            votes@.len() == midis@.len(),
            n_fft == doubled_to(64, options.n_fft as nat),
            hop == options.step(),
            forall|k: int| 0 <= k < votes@.len() ==> class_known(#[trigger] votes@[k]),
            forall|k: int| 0 <= k < spectra@.len() ==> (#[trigger] spectra@[k])@.len() >= midis@.len(),
            spectra@.len() * options.step() <= usize::MAX,
            want == rows_of(spectra@).map_values(
                |levels: Seq<Binary64>| summing_to_one(folded_bins(levels, votes@, midis@.len())),
            ),
            moments == Seq::new(spectra@.len(), |k: int| frame_moment(k, *options, sample_rate)),
            rows@.len() == i,
            rows_of(rows@) == want.take(i as int),
            twelve_each(rows_of(rows@)),
            times@ == moments.take(i as int),
        decreases spectra@.len() - i,
    {
        proof {
            let n = spectra@.len() as int;
            assert(i * hop <= n * hop) by (nonlinear_arith)
                requires
                    i <= n,
                    hop >= 0,
            ;
        }
        let row: Vec<Binary64> = fold_bins(spectra[i].as_slice(), &votes);
        let ghost before = rows@;
        rows.push(row);
        times.push(window_centre(i * hop, n_fft, sample_rate));
        assert(rows_of(rows@) =~= rows_of(before).push(row@));
        i = i + 1;
        assert(rows_of(rows@) =~= want.take(i as int));
        assert(times@ =~= moments.take(i as int));
    }
    assert(rows_of(rows@) =~= want);
    assert(times@ =~= moments);
    Chroma::new(rows, times)
}

/// How key detection is tuned.
#[derive(Debug, Clone, Copy, PartialEq, Structural)]
pub struct KeyOptions {
    /// Probability of staying in the same key from one frame to the next.
    ///
    /// High, because keys last for tens of seconds; the cost of a low value is
    /// a key track that flickers on every passing chord.
    pub self_transition: Binary64,
    /// Relative weight of a move to a harmonically close key.
    pub near_transition: Binary64,
    /// Relative weight of a move to any other key.
    pub far_transition: Binary64,
}

impl Default for KeyOptions {
    fn default() -> (r: Self)
        ensures
            r == (KeyOptions {
                self_transition: Binary64 { bits: 0x3FEF_5C28_F5C2_8F5C },
                near_transition: Binary64 { bits: 0x3F8E_B851_EB85_1EB8 },
                far_transition: Binary64 { bits: 0x3F74_7AE1_47AE_147B },
            }),
    {
        KeyOptions {
            self_transition: Binary64 { bits: 0x3FEF_5C28_F5C2_8F5C },
            near_transition: Binary64 { bits: 0x3F8E_B851_EB85_1EB8 },
            far_transition: Binary64 { bits: 0x3F74_7AE1_47AE_147B },
        }
    }
}

/// The profile of the mode of a key.
pub open spec fn profile_of(index: nat) -> Seq<u64> {
    match mode_of(index) {
        Mode::Major => MAJOR_PROFILE@,
        Mode::Minor => MINOR_PROFILE@,
    }
}

/// The profile weight of one step above the tonic.
pub open spec fn profile_weight(index: nat, step: int) -> Binary64 {
    Binary64 { bits: profile_of(index)[step] }
}

/// The energy of one step above the tonic.
pub open spec fn heard(frame: Seq<Binary64>, index: nat, step: int) -> Binary64 {
    frame[(pitch_of(index) + step) % 12]
}

/// The frame against the profile, step by step.
pub open spec fn match_steps(frame: Seq<Binary64>, index: nat) -> Seq<Binary64> {
    Seq::new(12, |step: int| product(profile_weight(index, step), heard(frame, index, step)))
}

/// The squares of the profile, step by step.
pub open spec fn profile_steps(index: nat) -> Seq<Binary64> {
    Seq::new(12, |step: int| product(profile_weight(index, step), profile_weight(index, step)))
}

/// The squares of the frame, step by step from the tonic.
pub open spec fn frame_steps(frame: Seq<Binary64>, index: nat) -> Seq<Binary64> {
    Seq::new(12, |step: int| product(heard(frame, index, step), heard(frame, index, step)))
}

/// How well a frame fits a key: the cosine with its rotated profile.
pub open spec fn key_fit(frame: Seq<Binary64>, index: nat) -> Binary64 {
    let denom = square_root(product(total(profile_steps(index)), total(frame_steps(frame, index))));
    if pico().spec_lt(denom) {
        quotient(total(match_steps(frame, index)), denom)
    } else {
        zero()
    }
}

/// The likelihood of each key, sharpened so the decode has something to prefer.
pub open spec fn likelihoods(frame: Seq<Binary64>) -> Seq<Binary64> {
    Seq::new(24, |i: int| product(larger(key_fit(frame, i as nat), micro()), of_int(8)))
}

/// How well a frame fits a key.
fn fit_key(frame: &[Binary64], index: usize) -> (r: Binary64)
    requires
        frame@.len() == 12,
        index < 24,
    ensures
        r == key_fit(frame@, index as nat),
{
    let tonic: usize = index % 12;
    let ghost a = match_steps(frame@, index as nat);
    let ghost b = profile_steps(index as nat);
    let ghost c = frame_steps(frame@, index as nat);
    let mut dot: Binary64 = zero();
    let mut profile_norm: Binary64 = zero();
    let mut frame_norm: Binary64 = zero();
    let mut step: usize = 0;
    while step < 12
        invariant
            step <= 12,
            frame@.len() == 12,
            index < 24,
            tonic == pitch_of(index as nat),
            a == match_steps(frame@, index as nat),
            b == profile_steps(index as nat),
            c == frame_steps(frame@, index as nat),
            dot == total(a.take(step as int)),
            profile_norm == total(b.take(step as int)),
            frame_norm == total(c.take(step as int)),
        decreases 12 - step,
    {
        let bits: u64 = if index < 12 {
            MAJOR_PROFILE[step]
        } else {
            MINOR_PROFILE[step]
        };
        let weight: Binary64 = Binary64::from_bits(bits);
        let observed: Binary64 = frame[(tonic + step) % 12];
        assert(weight == profile_weight(index as nat, step as int));
        assert(observed == heard(frame@, index as nat, step as int));
        dot = dot.plus(weight.times(observed));
        profile_norm = profile_norm.plus(weight.times(weight));
        frame_norm = frame_norm.plus(observed.times(observed));
        assert(a.take(step + 1).drop_last() == a.take(step as int));
        assert(b.take(step + 1).drop_last() == b.take(step as int));
        assert(c.take(step + 1).drop_last() == c.take(step as int));
        step = step + 1;
    }
    assert(a.take(12) == a && b.take(12) == b && c.take(12) == c);
    let denom: Binary64 = profile_norm.times(frame_norm).sqrt();
    if pico().lt(denom) {
        dot.over(denom)
    } else {
        zero()
    }
}

/// Scores every key against one chroma frame; the logarithms of these are the
/// log likelihoods of the keys.
pub fn frame_likelihoods(frame: &[Binary64]) -> (r: Vec<Binary64>)
    requires
        frame@.len() == 12,
    ensures
        r@ == likelihoods(frame@),
{
    let ghost want = likelihoods(frame@);
    let mut out: Vec<Binary64> = Vec::new();
    let mut i: usize = 0;
    while i < 24
        invariant
            i <= 24,
            frame@.len() == 12,
            want == likelihoods(frame@),
            out@ == want.take(i as int),
        decreases 24 - i,
    {
        out.push(fit_key(frame, i).max(micro()).times(Binary64::from_u64(8)));
        i = i + 1;
        assert(out@ =~= want.take(i as int));
    }
    assert(out@ =~= want);
    out
}

/// The weight of a move between two keys.
pub open spec fn move_weight(from: nat, to: nat, options: KeyOptions) -> Binary64 {
    larger(
        if from == to {
            options.self_transition
        } else if compatible(from, to) {
            options.near_transition
        } else {
            options.far_transition
        },
        pico(),
    )
}

/// The weight of a move from one key to another; its logarithm is what the
/// move costs the decode.
pub fn transition_weight(from: usize, to: usize, options: &KeyOptions) -> (r: Binary64)
    requires
        from < 24,
        to < 24,
    ensures
        r == move_weight(from as nat, to as nat, *options),
{
    if from == to {
        return options.self_transition.max(pico());
    }
    let source: Key = Key::from_index(from as i64);
    let near: Vec<Key> = source.harmonic_neighbours();
    let mut found: bool = false;
    let mut i: usize = 0;
    while i < near.len()
        invariant
            i <= near@.len(),
            found == exists|k: int| 0 <= k < i && (#[trigger] near@[k])@ == to,
        decreases near@.len() - i,
    {
        if near[i].index() as usize == to {
            assert(near@[i as int]@ == to);
            found = true;
        }
        i = i + 1;
    }
    proof {
        if found {
            let k = choose|k: int| 0 <= k < near@.len() && (#[trigger] near@[k])@ == to;
            assert(compatible(from as nat, near@[k]@));
        }
    }
    if found {
        options.near_transition.max(pico())
    } else {
        options.far_transition.max(pico())
    }
}

/// The best of the first `n` states to come from, the first of equals, and the
/// score of coming from there.
pub open spec fn best_origin(scores: Seq<Binary64>, moves: Seq<Seq<Binary64>>, to: int, n: nat) -> (int, Binary64)
    decreases n,
{
    if n == 0 {
        (0, minus_infinity())
    } else {
        let before = best_origin(scores, moves, to, (n - 1) as nat);
        let score = sum(scores[n - 1], moves[n - 1][to]);
        if before.1.spec_lt(score) {
            (n - 1, score)
        } else {
            before
        }
    }
}

/// The score of the best way to each state after frame `f`.
pub open spec fn scores_at(emissions: Seq<Seq<Binary64>>, moves: Seq<Seq<Binary64>>, f: nat) -> Seq<Binary64>
    decreases f,
{
    if f == 0 {
        emissions[0]
    } else {
        let before = scores_at(emissions, moves, (f - 1) as nat);
        Seq::new(24, |to: int| sum(best_origin(before, moves, to, 24).1, emissions[f as int][to]))
    }
}

/// The place of the first of the highest among the first `n` scores, and that
/// score.
pub open spec fn first_highest(scores: Seq<Binary64>, n: nat) -> (int, Binary64)
    decreases n,
{
    if n == 0 {
        (0, minus_infinity())
    } else {
        let before = first_highest(scores, (n - 1) as nat);
        if before.1.spec_lt(scores[n - 1]) {
            (n - 1, scores[n - 1])
        } else {
            before
        }
    }
}

/// The state of the best path at frame `f`.
pub open spec fn state_at(emissions: Seq<Seq<Binary64>>, moves: Seq<Seq<Binary64>>, f: int) -> int
    decreases emissions.len() - f,
{
    if f < 0 || f + 1 >= emissions.len() {
        first_highest(scores_at(emissions, moves, (emissions.len() - 1) as nat), 24).0
    } else {
        best_origin(
            scores_at(emissions, moves, f as nat),
            moves,
            state_at(emissions, moves, f + 1),
            24,
        ).0
    }
}

/// The score of a path up to frame `f`, added up from the start.
pub open spec fn path_score(emissions: Seq<Seq<Binary64>>, moves: Seq<Seq<Binary64>>, path: Seq<int>, f: nat) -> Binary64
    decreases f,
{
    if f == 0 {
        emissions[0][path[0]]
    } else {
        sum(
            sum(path_score(emissions, moves, path, (f - 1) as nat), moves[path[f - 1]][path[f as int]]),
            emissions[f as int][path[f as int]],
        )
    }
}

/// Whether rows hold 24 finite numbers each.
pub open spec fn finite_rows(rows: Seq<Seq<Binary64>>) -> bool {
    forall|i: int, j: int|
        0 <= i < rows.len() && 0 <= j < 24 ==> rows[i].len() == 24 && (#[trigger] rows[i][j]).finite()
}

/// The step of the decode into one frame: the best score of each state, and
/// where it comes from.
fn decode_step(scores: &Vec<Binary64>, moves: &Vec<Vec<Binary64>>, emission: &Vec<Binary64>) -> (r: (Vec<Binary64>, Vec<usize>))
    requires
        scores@.len() == 24,
        emission@.len() == 24,
        moves@.len() == 24,
        forall|i: int| 0 <= i < 24 ==> (#[trigger] moves@[i])@.len() == 24,
    ensures
        r.0@ == Seq::new(24, |to: int| sum(best_origin(scores@, rows_of(moves@), to, 24).1, emission@[to])),
        r.1@.len() == 24,
        forall|to: int|
            0 <= to < 24 ==> (#[trigger] r.1@[to]) == best_origin(scores@, rows_of(moves@), to, 24).0 && r.1@[to] < 24,
{
    let ghost table = rows_of(moves@);
    let ghost want = Seq::new(24, |to: int| sum(best_origin(scores@, table, to, 24).1, emission@[to]));
    let mut next: Vec<Binary64> = Vec::new();
    let mut chosen: Vec<usize> = Vec::new();
    let mut to: usize = 0;
    while to < 24
        invariant
            to <= 24,
            scores@.len() == 24,
            emission@.len() == 24,
            moves@.len() == 24,
            forall|i: int| 0 <= i < 24 ==> (#[trigger] moves@[i])@.len() == 24,
            table == rows_of(moves@),
            want == Seq::new(24, |t: int| sum(best_origin(scores@, table, t, 24).1, emission@[t])),
            next@ == want.take(to as int),
            chosen@.len() == to,
            forall|t: int|
                0 <= t < to ==> (#[trigger] chosen@[t]) == best_origin(scores@, table, t, 24).0 && chosen@[t] < 24,
        decreases 24 - to,
    {
        let mut origin: usize = 0;
        let mut best: Binary64 = minus_infinity();
        let mut from: usize = 0;
        while from < 24
            invariant
                from <= 24,
                to < 24,
                origin < 24,
                scores@.len() == 24,
                moves@.len() == 24,
                forall|i: int| 0 <= i < 24 ==> (#[trigger] moves@[i])@.len() == 24,
                table == rows_of(moves@),
                (origin as int, best) == best_origin(scores@, table, to as int, from as nat),
            decreases 24 - from,
        {
            assert(table[from as int] == moves@[from as int]@);
            let score: Binary64 = scores[from].plus(moves[from][to]);
            if best.lt(score) {
                best = score;
                origin = from;
            }
            from = from + 1;
        }
        next.push(best.plus(emission[to]));
        chosen.push(origin);
        to = to + 1;
        assert(next@ =~= want.take(to as int));
    }
    assert(next@ =~= want);
    (next, chosen)
}

/// The place of the first of the highest of 24 scores.
pub fn best_state(scores: &[Binary64]) -> (r: usize)
    requires
        scores@.len() == 24,
    ensures
        r == first_highest(scores@, 24).0,
        r < 24,
{
    let mut at: usize = 0;
    let mut best: Binary64 = minus_infinity();
    let mut i: usize = 0;
    while i < 24
        invariant
            i <= 24,
            at < 24,
            scores@.len() == 24,
            (at as int, best) == first_highest(scores@, i as nat),
        decreases 24 - i,
    {
        if best.lt(scores[i]) {
            best = scores[i];
            at = i;
        }
        i = i + 1;
    }
    at
}

/// Decodes the most likely key path: one key per frame.
///
/// `emissions` holds the log likelihood of each key in each frame, `moves` the
/// log weight of each move.
pub fn decode_key_path(emissions: &Vec<Vec<Binary64>>, moves: &Vec<Vec<Binary64>>) -> (r: Vec<Key>)
    requires
        moves@.len() == 24,
        forall|i: int| 0 <= i < 24 ==> (#[trigger] moves@[i])@.len() == 24,
        forall|f: int| 0 <= f < emissions@.len() ==> (#[trigger] emissions@[f])@.len() == 24,
    ensures
        r@.len() == emissions@.len(),
        forall|f: int|
            0 <= f < r@.len() ==> (#[trigger] r@[f])@ == state_at(rows_of(emissions@), rows_of(moves@), f),
{
    let frames: usize = emissions.len();
    if frames == 0 {
        return Vec::new();
    }
    let ghost rows = rows_of(emissions@);
    let ghost table = rows_of(moves@);
    let mut scores: Vec<Binary64> = emissions[0].clone();
    assert(scores@ =~= emissions@[0]@);
    let mut origins: Vec<Vec<usize>> = Vec::new();
    let mut f: usize = 1;
    while f < frames
        invariant
            1 <= f <= frames == emissions@.len(),
            moves@.len() == 24,
            forall|i: int| 0 <= i < 24 ==> (#[trigger] moves@[i])@.len() == 24,
            forall|k: int| 0 <= k < emissions@.len() ==> (#[trigger] emissions@[k])@.len() == 24,
            rows == rows_of(emissions@),
            table == rows_of(moves@),
            scores@.len() == 24,
            scores@ == scores_at(rows, table, (f - 1) as nat),
            origins@.len() == f - 1,
            forall|k: int|
                0 <= k < f - 1 ==> (#[trigger] origins@[k])@.len() == 24 && forall|to: int|
                    0 <= to < 24 ==> (#[trigger] origins@[k]@[to]) == best_origin(
                        scores_at(rows, table, k as nat),
                        table,
                        to,
                        24,
                    ).0 && origins@[k]@[to] < 24,
        decreases frames - f,
    {
        assert(emissions@[f as int]@.len() == 24);
        let (next, chosen) = decode_step(&scores, moves, &emissions[f]);
        proof {
            let before = scores_at(rows, table, (f - 1) as nat);
            assert(rows[f as int] == emissions@[f as int]@);
            assert(next@ =~= scores_at(rows, table, f as nat));
        }
        scores = next;
        origins.push(chosen);
        f = f + 1;
    }
    let mut state: usize = best_state(scores.as_slice());
    let mut back: Vec<Key> = Vec::new();
    back.push(Key::from_index(state as i64));
    let mut left: usize = frames - 1;
    while left > 0
        invariant
            left < frames == emissions@.len(),
            rows == rows_of(emissions@),
            table == rows_of(moves@),
            origins@.len() == frames - 1,
            forall|k: int|
                0 <= k < frames - 1 ==> (#[trigger] origins@[k])@.len() == 24 && forall|to: int|
                    0 <= to < 24 ==> (#[trigger] origins@[k]@[to]) == best_origin(
                        scores_at(rows, table, k as nat),
                        table,
                        to,
                        24,
                    ).0 && origins@[k]@[to] < 24,
            state < 24,
            state == state_at(rows, table, left as int),
            back@.len() == frames - left,
            forall|k: int| 0 <= k < back@.len() ==> (#[trigger] back@[k])@ == state_at(rows, table, frames - 1 - k),
        decreases left,
    {
        left = left - 1;
        assert(origins@[left as int]@.len() == 24);
        let ghost was = state;
        state = origins[left][state];
        assert(state == best_origin(scores_at(rows, table, left as nat), table, was as int, 24).0);
        back.push(Key::from_index(state as i64));
    }
    let mut path: Vec<Key> = Vec::new();
    let mut i: usize = 0;
    while i < frames
        invariant
            i <= frames,
            back@.len() == frames,
            forall|k: int| 0 <= k < back@.len() ==> (#[trigger] back@[k])@ == state_at(rows, table, frames - 1 - k),
            path@.len() == i,
            forall|k: int| 0 <= k < i ==> (#[trigger] path@[k])@ == state_at(rows, table, k),
        decreases frames - i,
    {
        path.push(back[frames - 1 - i]);
        i = i + 1;
    }
    path
}

proof fn lemma_sum_is_number(a: Binary64, c: Binary64)
    requires
        !a.nan(),
        c.finite(),
    ensures
        !sum(a, c).nan(),
{
    law_addition_keeps_the_order(a, a, c);
}

/// Whether no score is a NaN.
pub open spec fn all_numbers(scores: Seq<Binary64>) -> bool {
    forall|i: int| 0 <= i < scores.len() ==> !(#[trigger] scores[i]).nan()
}

proof fn lemma_best_origin(scores: Seq<Binary64>, moves: Seq<Seq<Binary64>>, to: int, n: nat)
    requires
        n <= 24,
        scores.len() == 24,
        moves.len() == 24,
        0 <= to < 24,
        all_numbers(scores),
        finite_rows(moves),
    ensures
        0 <= best_origin(scores, moves, to, n).0 < 24,
        !best_origin(scores, moves, to, n).1.nan(),
        forall|i: int| 0 <= i < n ==> sum(scores[i], #[trigger] moves[i][to]).spec_le(best_origin(scores, moves, to, n).1),
        n > 0 ==> ({
            let best = best_origin(scores, moves, to, n);
            best.1 == sum(scores[best.0], moves[best.0][to])
        }),
    decreases n,
{
    if n > 0 {
        lemma_best_origin(scores, moves, to, (n - 1) as nat);
        let before = best_origin(scores, moves, to, (n - 1) as nat);
        let score = sum(scores[n - 1], moves[n - 1][to]);
        assert(!scores[n - 1].nan());
        assert(moves[n - 1][to].finite());
        lemma_sum_is_number(scores[n - 1], moves[n - 1][to]);
        if n == 1 && !before.1.spec_lt(score) {
            assert(score.rank() <= minus_infinity().rank());
            assert(score == minus_infinity());
        }
    }
}

proof fn lemma_first_highest(scores: Seq<Binary64>, n: nat)
    requires
        n <= scores.len(),
        all_numbers(scores),
    ensures
        0 <= first_highest(scores, n).0,
        n > 0 ==> first_highest(scores, n).0 < n,
        !first_highest(scores, n).1.nan(),
        forall|i: int| 0 <= i < n ==> (#[trigger] scores[i]).spec_le(first_highest(scores, n).1),
        n > 0 ==> first_highest(scores, n).1 == scores[first_highest(scores, n).0],
    decreases n,
{
    if n > 0 {
        lemma_first_highest(scores, (n - 1) as nat);
        let before = first_highest(scores, (n - 1) as nat);
        assert(!scores[n - 1].nan());
        if n == 1 && !before.1.spec_lt(scores[0]) {
            assert(scores[0].rank() <= minus_infinity().rank());
            assert(scores[0] == minus_infinity());
        }
    }
}

proof fn lemma_scores_are_numbers(emissions: Seq<Seq<Binary64>>, moves: Seq<Seq<Binary64>>, f: nat)
    requires
        f < emissions.len(),
        moves.len() == 24,
        finite_rows(emissions),
        finite_rows(moves),
    ensures
        scores_at(emissions, moves, f).len() == 24,
        all_numbers(scores_at(emissions, moves, f)),
    decreases f,
{
    if f == 0 {
        assert(emissions[0][0].finite());
        assert forall|i: int| 0 <= i < emissions[0].len() implies !(#[trigger] emissions[0][i]).nan() by {
            assert(emissions[0][i].finite());
        }
    } else {
        lemma_scores_are_numbers(emissions, moves, (f - 1) as nat);
        let before = scores_at(emissions, moves, (f - 1) as nat);
        let now = scores_at(emissions, moves, f);
        assert forall|to: int| 0 <= to < now.len() implies !(#[trigger] now[to]).nan() by {
            lemma_best_origin(before, moves, to, 24);
            assert(emissions[f as int][to].finite());
            lemma_sum_is_number(best_origin(before, moves, to, 24).1, emissions[f as int][to]);
        }
    }
}

/// Whether a path goes through known states only.
pub open spec fn is_path(path: Seq<int>, frames: nat) -> bool {
    path.len() == frames && forall|i: int| 0 <= i < frames ==> 0 <= #[trigger] path[i] < 24
}

proof fn lemma_no_path_scores_higher(
    emissions: Seq<Seq<Binary64>>,
    moves: Seq<Seq<Binary64>>,
    path: Seq<int>,
    f: nat,
)
    requires
        f < emissions.len(),
        moves.len() == 24,
        finite_rows(emissions),
        finite_rows(moves),
        is_path(path, emissions.len()),
    ensures
        path_score(emissions, moves, path, f).spec_le(scores_at(emissions, moves, f)[path[f as int]]),
    decreases f,
{
    lemma_scores_are_numbers(emissions, moves, f);
    if f == 0 {
        assert(0 <= path[0] < 24);
        assert(emissions[0][path[0]].finite());
    } else {
        let g = (f - 1) as nat;
        lemma_no_path_scores_higher(emissions, moves, path, g);
        lemma_scores_are_numbers(emissions, moves, g);
        let before = scores_at(emissions, moves, g);
        let from = path[f - 1];
        let to = path[f as int];
        assert(0 <= from < 24 && 0 <= to < 24);
        lemma_best_origin(before, moves, to, 24);
        let step = moves[from][to];
        assert(step.finite());
        let here = path_score(emissions, moves, path, g);
        law_addition_keeps_the_order(here, before[from], step);
        let best = best_origin(before, moves, to, 24).1;
        assert(sum(before[from], step).spec_le(best));
        assert(sum(here, step).spec_le(best));
        assert(emissions[f as int][to].finite());
        law_addition_keeps_the_order(sum(here, step), best, emissions[f as int][to]);
    }
}

/// The path that the decode takes.
pub open spec fn decoded(emissions: Seq<Seq<Binary64>>, moves: Seq<Seq<Binary64>>) -> Seq<int> {
    Seq::new(emissions.len(), |f: int| state_at(emissions, moves, f))
}

proof fn lemma_states_are_known(emissions: Seq<Seq<Binary64>>, moves: Seq<Seq<Binary64>>, f: int)
    requires
        0 <= f < emissions.len(),
        moves.len() == 24,
        finite_rows(emissions),
        finite_rows(moves),
    ensures
        0 <= state_at(emissions, moves, f) < 24,
    decreases emissions.len() - f,
{
    if f + 1 >= emissions.len() {
        lemma_scores_are_numbers(emissions, moves, f as nat);
        lemma_first_highest(scores_at(emissions, moves, f as nat), 24);
    } else {
        lemma_states_are_known(emissions, moves, f + 1);
        lemma_scores_are_numbers(emissions, moves, f as nat);
        lemma_best_origin(scores_at(emissions, moves, f as nat), moves, state_at(emissions, moves, f + 1), 24);
    }
}

proof fn lemma_decoded_path_scores(emissions: Seq<Seq<Binary64>>, moves: Seq<Seq<Binary64>>, f: nat)
    requires
        f < emissions.len(),
        moves.len() == 24,
        finite_rows(emissions),
        finite_rows(moves),
    ensures
        path_score(emissions, moves, decoded(emissions, moves), f) == scores_at(emissions, moves, f)[state_at(
            emissions,
            moves,
            f as int,
        )],
    decreases f,
{
    lemma_states_are_known(emissions, moves, f as int);
    if f > 0 {
        let g = (f - 1) as nat;
        lemma_decoded_path_scores(emissions, moves, g);
        lemma_scores_are_numbers(emissions, moves, g);
        let before = scores_at(emissions, moves, g);
        let to = state_at(emissions, moves, f as int);
        lemma_best_origin(before, moves, to, 24);
        assert(state_at(emissions, moves, g as int) == best_origin(before, moves, to, 24).0);
        assert(decoded(emissions, moves)[g as int] == state_at(emissions, moves, g as int));
        assert(decoded(emissions, moves)[f as int] == to);
    }
}

/// No path through the keys scores higher than the decoded one.
pub proof fn law_the_decoded_path_is_best(emissions: Seq<Seq<Binary64>>, moves: Seq<Seq<Binary64>>, path: Seq<int>)
    requires
        emissions.len() > 0,
        moves.len() == 24,
        finite_rows(emissions),
        finite_rows(moves),
        is_path(path, emissions.len()),
    ensures
        is_path(decoded(emissions, moves), emissions.len()),
        path_score(emissions, moves, path, (emissions.len() - 1) as nat).spec_le(
            path_score(emissions, moves, decoded(emissions, moves), (emissions.len() - 1) as nat),
        ),
{
    let last = (emissions.len() - 1) as nat;
    assert forall|f: int| 0 <= f < emissions.len() implies 0 <= #[trigger] decoded(emissions, moves)[f] < 24 by {
        lemma_states_are_known(emissions, moves, f);
    }
    lemma_no_path_scores_higher(emissions, moves, path, last);
    lemma_decoded_path_scores(emissions, moves, last);
    lemma_scores_are_numbers(emissions, moves, last);
    lemma_first_highest(scores_at(emissions, moves, last), 24);
    assert(0 <= path[last as int] < 24);
    assert(scores_at(emissions, moves, last)[path[last as int]].spec_le(
        first_highest(scores_at(emissions, moves, last), 24).1,
    ));
}

/// What is known of the segments after some frames: those that ended, where the
/// running one started, and its key.
pub struct Running {
    pub ended: Seq<KeySegment>,
    pub start: Binary64,
    pub key: Key,
}

/// A segment, unless it is empty.
pub open spec fn ended_with(ended: Seq<KeySegment>, start: Binary64, end: Binary64, key: Key) -> Seq<KeySegment> {
    if start.spec_lt(end) {
        ended.push(KeySegment { start, end, key })
    } else {
        ended
    }
}

/// The time of a frame; zero past the last.
pub open spec fn time_at(times: Seq<Binary64>, i: int) -> Binary64 {
    if 0 <= i < times.len() {
        times[i]
    } else {
        zero()
    }
}

/// The segments after the first `n` frames of a path.
pub open spec fn running_after(times: Seq<Binary64>, path: Seq<Key>, n: nat) -> Running
    decreases n,
{
    if n <= 1 {
        Running { ended: seq![], start: time_at(times, 0), key: path[0] }
    } else {
        let before = running_after(times, path, (n - 1) as nat);
        if path[n - 1] == before.key {
            before
        } else {
            let boundary = time_at(times, n - 1);
            Running {
                ended: ended_with(before.ended, before.start, boundary, before.key),
                start: boundary,
                key: path[n - 1],
            }
        }
    }
}

/// The segments of a whole path.
pub open spec fn key_runs(times: Seq<Binary64>, path: Seq<Key>, duration_sec: Binary64) -> Seq<KeySegment> {
    let last = running_after(times, path, path.len());
    let end = larger(duration_sec, time_at(times, path.len() - 1));
    if path.len() == 0 {
        seq![]
    } else {
        ended_with(last.ended, last.start, end, last.key)
    }
}

/// Turns a per-frame key path into contiguous segments.
pub fn segments_from_path(chroma: &Chroma, path: &[Key], duration_sec: Binary64) -> (r: Vec<KeySegment>)
    ensures
        r@ == key_runs(chroma.moments(), path@, duration_sec),
{
    let mut out: Vec<KeySegment> = Vec::new();
    let count: usize = path.len();
    if count == 0 {
        return out;
    }
    let ghost times = chroma.moments();
    let mut start: Binary64 = chroma.time(0);
    let mut current: Key = path[0];
    let mut i: usize = 1;
    while i < count
        invariant
            1 <= i <= count == path@.len(),
            times == chroma.moments(),
            out@ == running_after(times, path@, i as nat).ended,
            start == running_after(times, path@, i as nat).start,
            current == running_after(times, path@, i as nat).key,
        decreases count - i,
    {
        if path[i] != current {
            let boundary: Binary64 = chroma.time(i);
            if start.lt(boundary) {
                out.push(KeySegment::new(start, boundary, current));
            }
            start = boundary;
            current = path[i];
        }
        i = i + 1;
    }
    let end: Binary64 = duration_sec.max(chroma.time(count - 1));
    if start.lt(end) {
        out.push(KeySegment::new(start, end, current));
    }
    out
}

/// The single key that best describes the whole piece.
///
/// `scores` holds the log likelihood of each key for the average chroma.
pub fn overall_key(chroma: &Chroma, scores: &[Binary64]) -> (r: Option<Key>)
    requires
        scores@.len() == 24,
    ensures
        r is Some <==> chroma.energies().len() > 0,
        r is Some ==> r->0@ == first_highest(scores@, 24).0,
{
    if chroma.is_empty() {
        return None;
    }
    Some(Key::from_index(best_state(scores) as i64))
}

/// Whether segments go on in time: none is empty, and none starts before the
/// one before it ends.
pub open spec fn in_sequence(segments: Seq<KeySegment>) -> bool {
    &&& forall|i: int| 0 <= i < segments.len() ==> (#[trigger] segments[i]).start.spec_lt(segments[i].end)
    &&& forall|i: int|
        0 <= i < segments.len() - 1 ==> (#[trigger] segments[i]).end.spec_le(segments[i + 1].start)
}

proof fn lemma_running(times: Seq<Binary64>, path: Seq<Key>, n: nat)
    requires
        0 < n <= path.len(),
        path.len() <= times.len(),
        forall|i: int, j: int| 0 <= i <= j < times.len() ==> (#[trigger] times[i]).spec_le(#[trigger] times[j]),
    ensures
        ({
            let now = running_after(times, path, n);
            &&& in_sequence(now.ended)
            &&& exists|k: int| 0 <= k < n && now.start == #[trigger] times[k]
            &&& now.ended.len() > 0 ==> now.ended.last().end.spec_le(now.start)
        }),
    decreases n,
{
    if n > 1 {
        lemma_running(times, path, (n - 1) as nat);
        let before = running_after(times, path, (n - 1) as nat);
        let now = running_after(times, path, n);
        let k = choose|k: int| 0 <= k < n - 1 && before.start == #[trigger] times[k];
        assert(times[k].spec_le(times[n - 1]));
        assert(times[n - 1].spec_le(times[n - 1]));
        if path[n - 1] != before.key {
            assert(now.start == times[n - 1]);
            assert forall|i: int| 0 <= i < now.ended.len() implies (#[trigger] now.ended[i]).start.spec_lt(
                now.ended[i].end,
            ) by {
                if i < before.ended.len() {
                    assert(now.ended[i] == before.ended[i]);
                }
            }
            assert forall|i: int| 0 <= i < now.ended.len() - 1 implies (#[trigger] now.ended[i]).end.spec_le(
                now.ended[i + 1].start,
            ) by {
                assert(now.ended[i] == before.ended[i]);
                if i + 1 < before.ended.len() {
                    assert(now.ended[i + 1] == before.ended[i + 1]);
                }
            }
        }
    } else {
        assert(running_after(times, path, n).start == times[0]);
    }
}

/// On frames in order of time, key segments follow each other without overlap,
/// and none is empty.
pub proof fn law_key_segments_do_not_overlap(times: Seq<Binary64>, path: Seq<Key>, duration_sec: Binary64)
    requires
        path.len() <= times.len(),
        forall|i: int, j: int| 0 <= i <= j < times.len() ==> (#[trigger] times[i]).spec_le(#[trigger] times[j]),
    ensures
        in_sequence(key_runs(times, path, duration_sec)),
{
    if path.len() > 0 {
        lemma_running(times, path, path.len());
        let last = running_after(times, path, path.len());
        let now = key_runs(times, path, duration_sec);
        assert forall|i: int| 0 <= i < now.len() - 1 implies (#[trigger] now[i]).end.spec_le(now[i + 1].start) by {
            assert(now[i] == last.ended[i]);
            if i + 1 < last.ended.len() {
                assert(now[i + 1] == last.ended[i + 1]);
            }
        }
    }
}

/// Whether segments meet: each ends where the next starts, in another key.
pub open spec fn meets(segments: Seq<KeySegment>) -> bool {
    forall|i: int|
        0 <= i < segments.len() - 1 ==> (#[trigger] segments[i]).end == segments[i + 1].start && segments[i].key
            != segments[i + 1].key
}

/// The frame that the running segment started with.
proof fn lemma_run_started(times: Seq<Binary64>, path: Seq<Key>, n: nat) -> (r: int)
    requires
        0 < n <= path.len(),
        path.len() <= times.len(),
        forall|i: int, j: int| 0 <= i < j < path.len() ==> (#[trigger] times[i]).spec_lt(#[trigger] times[j]),
        !times[0].nan(),
    ensures
        ({
            let now = running_after(times, path, n);
            &&& 0 <= r < n
            &&& now.start == times[r]
            &&& forall|i: int| r <= i < n ==> now.key == #[trigger] path[i]
            &&& meets(now.ended)
            &&& now.ended.len() > 0 ==> now.ended[0].start == times[0] && now.ended.last().end == now.start
                && now.ended.last().key != now.key
            &&& now.ended.len() == 0 ==> r == 0
            &&& forall|s: int| 0 <= s < now.ended.len() ==> (#[trigger] now.ended[s]).start.spec_lt(now.ended[s].end)
        }),
    decreases n,
{
    if n == 1 {
        0
    } else {
        let r = lemma_run_started(times, path, (n - 1) as nat);
        let before = running_after(times, path, (n - 1) as nat);
        let now = running_after(times, path, n);
        if path[n - 1] == before.key {
            r
        } else {
            assert(times[r].spec_lt(times[n - 1]));
            assert forall|i: int| 0 <= i < now.ended.len() - 1 implies (#[trigger] now.ended[i]).end == now.ended[i
                + 1].start && now.ended[i].key != now.ended[i + 1].key by {
                assert(now.ended[i] == before.ended[i]);
                if i + 1 < before.ended.len() {
                    assert(now.ended[i + 1] == before.ended[i + 1]);
                }
            }
            n - 1
        }
    }
}

/// The segment that ended and that frame `i` lies in.
proof fn lemma_frame_in_ended(times: Seq<Binary64>, path: Seq<Key>, n: nat, r: int, i: int) -> (s: int)
    requires
        0 < n <= path.len(),
        path.len() <= times.len(),
        forall|i: int, j: int| 0 <= i < j < path.len() ==> (#[trigger] times[i]).spec_lt(#[trigger] times[j]),
        !times[0].nan(),
        0 <= r < n,
        running_after(times, path, n).start == times[r],
        forall|j: int| r <= j < n ==> running_after(times, path, n).key == #[trigger] path[j],
        0 <= i < r,
    ensures
        ({
            let ended = running_after(times, path, n).ended;
            &&& 0 <= s < ended.len()
            &&& ended[s].start.spec_le(times[i])
            &&& times[i].spec_lt(ended[s].end)
            &&& ended[s].key == path[i]
        }),
    decreases n,
{
    let m = (n - 1) as nat;
    let before = running_after(times, path, m);
    let now = running_after(times, path, n);
    let q = lemma_run_started(times, path, m);
    if path[n - 1] == before.key {
        if q != r {
            assert(times[q].spec_lt(times[r]) || times[r].spec_lt(times[q]));
        }
        lemma_frame_in_ended(times, path, m, r, i)
    } else {
        if r != n - 1 {
            assert(times[r].spec_lt(times[n - 1]));
        }
        if i < q {
            let s = lemma_frame_in_ended(times, path, m, q, i);
            assert(now.ended[s] == before.ended[s]);
            s
        } else {
            assert(times[q].spec_lt(times[n - 1]));
            assert(times[i].spec_lt(times[n - 1]));
            if q < i {
                assert(times[q].spec_lt(times[i]));
            }
            assert(now.ended[before.ended.len() as int] == KeySegment { start: times[q], end: times[n - 1], key: before.key });
            before.ended.len() as int
        }
    }
}

/// On frames one after another, every frame lies in a segment of its own key.
/// Only the last frame can be without one: where the track is no longer than up
/// to it.
pub proof fn law_each_frame_lies_in_its_key(times: Seq<Binary64>, path: Seq<Key>, duration_sec: Binary64, i: int) -> (s:
    int)
    requires
        path.len() <= times.len(),
        forall|i: int, j: int| 0 <= i < j < path.len() ==> (#[trigger] times[i]).spec_lt(#[trigger] times[j]),
        0 <= i < path.len(),
        i < path.len() - 1 || times[i].spec_lt(duration_sec),
    ensures
        ({
            let segments = key_runs(times, path, duration_sec);
            &&& 0 <= s < segments.len()
            &&& segments[s].start.spec_le(times[i])
            &&& times[i].spec_lt(segments[s].end)
            &&& segments[s].key == path[i]
        }),
{
    let n = path.len();
    if n > 1 {
        assert(times[0].spec_lt(times[1]));
    }
    let r = lemma_run_started(times, path, n);
    let last = running_after(times, path, n);
    let segments = key_runs(times, path, duration_sec);
    if i < r {
        let s = lemma_frame_in_ended(times, path, n, r, i);
        assert(segments[s] == last.ended[s]);
        s
    } else {
        if r < i {
            assert(times[r].spec_lt(times[i]));
        }
        if i < n - 1 {
            assert(times[i].spec_lt(times[n - 1]));
        }
        last.ended.len() as int
    }
}

/// On frames one after another, key segments run without a gap from the first
/// frame to the end of the track or the last frame, whichever is later, and two
/// that meet have different keys.
pub proof fn law_key_segments_run_through(times: Seq<Binary64>, path: Seq<Key>, duration_sec: Binary64)
    requires
        0 < path.len() <= times.len(),
        forall|i: int, j: int| 0 <= i < j < path.len() ==> (#[trigger] times[i]).spec_lt(#[trigger] times[j]),
        !times[0].nan(),
    ensures
        ({
            let segments = key_runs(times, path, duration_sec);
            &&& meets(segments)
            &&& path.len() > 1 || times[0].spec_lt(duration_sec) ==> segments.len() > 0
            &&& segments.len() > 0 ==> {
                &&& segments[0].start == times[0]
                &&& times[path.len() - 1].spec_le(segments.last().end)
                &&& !duration_sec.nan() ==> duration_sec.spec_le(segments.last().end)
                &&& segments.last().end.spec_same(duration_sec) || segments.last().end == times[path.len() - 1]
            }
        }),
{
    let n = path.len();
    let r = lemma_run_started(times, path, n);
    let last = running_after(times, path, n);
    let segments = key_runs(times, path, duration_sec);
    if n > 1 {
        assert(times[0].spec_lt(times[1]));
        assert(times[n - 2].spec_lt(times[n - 1]));
    }
    if r < n - 1 {
        assert(times[r].spec_lt(times[n - 1]));
    }
    assert forall|i: int| 0 <= i < segments.len() - 1 implies (#[trigger] segments[i]).end == segments[i + 1].start
        && segments[i].key != segments[i + 1].key by {
        assert(segments[i] == last.ended[i]);
        if i + 1 < last.ended.len() {
            assert(segments[i + 1] == last.ended[i + 1]);
        }
    }
}

/// Frames outside of a beat do not count for it: two chromagrams that agree on
/// the frames of a beat give that beat the same row.
pub proof fn law_a_beat_hears_only_its_frames(
    a: Seq<Seq<Binary64>>,
    b: Seq<Seq<Binary64>>,
    times: Seq<Binary64>,
    start: Binary64,
    end: Binary64,
)
    requires
        a.len() == b.len() == times.len(),
        forall|i: int|
            0 <= i < times.len() && start.spec_le(#[trigger] times[i]) && times[i].spec_lt(end) ==> a[i] == b[i],
    ensures
        beat_row(a, times, start, end) == beat_row(b, times, start, end),
{
    lemma_rows_agree(a, b, times, start, end, a.len());
}

proof fn lemma_rows_agree(
    a: Seq<Seq<Binary64>>,
    b: Seq<Seq<Binary64>>,
    times: Seq<Binary64>,
    start: Binary64,
    end: Binary64,
    n: nat,
)
    requires
        n <= times.len(),
        forall|i: int| 0 <= i < n && start.spec_le(#[trigger] times[i]) && times[i].spec_lt(end) ==> a[i] == b[i],
    ensures
        rows_between(a, times, start, end, n) == rows_between(b, times, start, end, n),
    decreases n,
{
    if n > 0 {
        lemma_rows_agree(a, b, times, start, end, (n - 1) as nat);
        assert(start.spec_le(times[n - 1]) && times[n - 1].spec_lt(end) ==> a[n - 1] == b[n - 1]);
    }
}

/// The frames of a beat all count for it, in their order.
pub proof fn law_a_beat_hears_all_its_frames(
    rows: Seq<Seq<Binary64>>,
    times: Seq<Binary64>,
    start: Binary64,
    end: Binary64,
    from: int,
    to: int,
)
    requires
        rows.len() == times.len(),
        0 <= from <= to <= rows.len(),
        forall|i: int|
            0 <= i < times.len() ==> (from <= i < to <==> start.spec_le(#[trigger] times[i]) && times[i].spec_lt(end)),
    ensures
        beat_row(rows, times, start, end) == summing_to_one(
            Seq::new(12, |pitch: int| total(Seq::new((to - from) as nat, |i: int| rows[from + i][pitch]))),
        ),
{
    lemma_rows_inside(rows, times, start, end, from, to, rows.len());
    let inside = rows_between(rows, times, start, end, rows.len());
    assert(inside =~= rows.subrange(from, to));
    assert forall|pitch: int| 0 <= pitch < 12 implies #[trigger] pitch_values(inside, pitch) == Seq::new(
        (to - from) as nat,
        |i: int| rows[from + i][pitch],
    ) by {
        assert(pitch_values(inside, pitch) =~= Seq::new((to - from) as nat, |i: int| rows[from + i][pitch]));
    }
    assert(pitch_sums(inside) =~= Seq::new(
        12,
        |pitch: int| total(Seq::new((to - from) as nat, |i: int| rows[from + i][pitch])),
    )) by {
        assert forall|pitch: int| 0 <= pitch < 12 implies pitch_sums(inside)[pitch] == total(
            Seq::new((to - from) as nat, |i: int| rows[from + i][pitch]),
        ) by {
            assert(pitch_values(inside, pitch) == Seq::new((to - from) as nat, |i: int| rows[from + i][pitch]));
        }
    }
}

proof fn lemma_rows_inside(
    rows: Seq<Seq<Binary64>>,
    times: Seq<Binary64>,
    start: Binary64,
    end: Binary64,
    from: int,
    to: int,
    n: nat,
)
    requires
        n <= rows.len() == times.len(),
        0 <= from <= to <= rows.len(),
        forall|i: int|
            0 <= i < times.len() ==> (from <= i < to <==> start.spec_le(#[trigger] times[i]) && times[i].spec_lt(end)),
    ensures
        n <= from ==> rows_between(rows, times, start, end, n) =~= seq![],
        from <= n <= to ==> rows_between(rows, times, start, end, n) =~= rows.subrange(from, n as int),
        to <= n ==> rows_between(rows, times, start, end, n) =~= rows.subrange(from, to),
    decreases n,
{
    if n > 0 {
        lemma_rows_inside(rows, times, start, end, from, to, (n - 1) as nat);
        assert(from <= n - 1 < to <==> start.spec_le(times[n - 1]) && times[n - 1].spec_lt(end));
    }
}

/// Scaling to a sum of one keeps the order of the pitches.
pub proof fn law_scaling_keeps_the_order_of_pitches(row: Seq<Binary64>, i: int, j: int)
    requires
        0 <= i < row.len() && 0 <= j < row.len(),
        row[i].finite() && row[j].finite() && total(row).finite(),
        row[i].spec_le(row[j]),
    ensures
        summing_to_one(row).len() == row.len(),
        summing_to_one(row)[i].spec_le(summing_to_one(row)[j]),
        zero().spec_lt(total(row)) ==> summing_to_one(row)[i] == quotient(row[i], total(row)),
        !zero().spec_lt(total(row)) ==> summing_to_one(row) == row,
{
    if zero().spec_lt(total(row)) {
        law_division_keeps_the_order(row[i], row[j], total(row));
    }
}

/// A whole semitone votes for its own pitch class with its full weight.
pub proof fn law_whole_semitones_vote_fully(n: nat)
    requires
        n < 0x20_0000_0000_0000,
    ensures
        pitch_vote(of_int(n as int)) is Some,
        (pitch_vote(of_int(n as int))->0).0 == n % 12,
        (pitch_vote(of_int(n as int))->0).1.spec_same(one()),
{
    law_small_integers_come_back(n, n);
    law_small_integers_are_exact(n as int);
    law_small_integers_are_exact(2);
    law_small_integers_are_exact(1);
    let midi = of_int(n as int);
    let off = absolute(difference(midi, nearest_integer(midi)));
    assert(midi.units() + negated(midi).units() == 0);
    assert(off.code() == 0);
    let twice = product(of_int(2), off);
    lemma_nothing_rounds_to_nothing(of_int(2).code());
    assert(twice.code() == 0) by {
        assert(magnitude(of_int(2).code()) * magnitude(0) == magnitude(0) * magnitude(of_int(2).code()))
            by (nonlinear_arith);
    }
    lemma_rounded_exact(one().code());
    lemma_rounded_exact(0);
    lemma_no_magnitude();
    let weight = difference(one(), twice);
    assert(one().units() + negated(twice).units() == magnitude(one().code()));
    law_codes_are_ordered(0, one().code());
    assert(weight == one());
    assert(semitone_weight(midi) == one());
    assert(!midi.negative());
    law_small_integers_come_back(n, 0x7FFF_FFFF_FFFF_FFFF);
    assert(signed_truncated(midi) == n);
}

/// One more bin adds its level, by its vote, to the pitch class it votes for,
/// and changes no other; a bin without a vote changes nothing.
pub proof fn law_each_bin_votes_once(levels: Seq<Binary64>, votes: Seq<Option<(usize, Binary64)>>, n: nat, p: int)
    requires
        0 < n <= votes.len() <= levels.len(),
        0 <= p < 12,
        forall|i: int| 0 <= i < votes.len() ==> class_known(#[trigger] votes[i]),
    ensures
        ({
            let before = folded_bins(levels, votes, (n - 1) as nat);
            let after = folded_bins(levels, votes, n);
            &&& votes[n - 1] is None ==> after[p] == before[p]
            &&& votes[n - 1] is Some && (votes[n - 1]->0).0 != p ==> after[p] == before[p]
            &&& votes[n - 1] is Some && (votes[n - 1]->0).0 == p ==> after[p] == sum(
                before[p],
                product(levels[n - 1], (votes[n - 1]->0).1),
            )
            &&& folded_bins(levels, votes, 0)[p] == zero()
        }),
{
    lemma_twelve_bins(levels, votes, (n - 1) as nat);
    assert(class_known(votes[n - 1]));
}

proof fn lemma_twelve_bins(levels: Seq<Binary64>, votes: Seq<Option<(usize, Binary64)>>, n: nat)
    requires
        n <= votes.len() <= levels.len(),
        forall|i: int| 0 <= i < votes.len() ==> class_known(#[trigger] votes[i]),
    ensures
        folded_bins(levels, votes, n).len() == 12,
    decreases n,
{
    if n > 0 {
        lemma_twelve_bins(levels, votes, (n - 1) as nat);
        assert(class_known(votes[n - 1]));
    }
}

/// A frame that sounds so many semitones higher fits the key that many
/// semitones higher just as well: keys of one mode differ by their pitch alone.
pub proof fn law_keys_move_with_the_pitch(frame: Seq<Binary64>, higher: Seq<Binary64>, up: nat, a: nat, b: nat)
    requires
        frame.len() == 12 && higher.len() == 12,
        forall|p: int| 0 <= p < 12 ==> higher[(p + up) % 12] == #[trigger] frame[p],
        a < 24 && b < 24,
        (a < 12) == (b < 12),
        b % 12 == (a + up) % 12,
    ensures
        key_fit(higher, b) == key_fit(frame, a),
        likelihoods(higher)[b as int] == likelihoods(frame)[a as int],
{
    assert forall|step: int| 0 <= step < 12 implies #[trigger] heard(higher, b, step) == heard(frame, a, step) by {
        let p = (pitch_of(a) + step) % 12;
        assert(higher[(p + up) % 12] == frame[p]);
        assert((pitch_of(b) + step) % 12 == (p + up) % 12) by (nonlinear_arith)
            requires
                pitch_of(a) == a % 12,
                pitch_of(b) == b % 12,
                b % 12 == (a + up) % 12,
                p == (pitch_of(a) + step) % 12,
        ;
    }
    assert(match_steps(higher, b) =~= match_steps(frame, a)) by {
        assert forall|step: int| 0 <= step < 12 implies match_steps(higher, b)[step] == match_steps(frame, a)[step] by {
            assert(heard(higher, b, step) == heard(frame, a, step));
        }
    }
    assert(frame_steps(higher, b) =~= frame_steps(frame, a)) by {
        assert forall|step: int| 0 <= step < 12 implies frame_steps(higher, b)[step] == frame_steps(frame, a)[step] by {
            assert(heard(higher, b, step) == heard(frame, a, step));
        }
    }
    assert(profile_steps(b) =~= profile_steps(a));
}

/// A key that is fitted better is no less likely.
pub proof fn law_better_fits_are_no_less_likely(frame: Seq<Binary64>, a: int, b: int)
    requires
        0 <= a < 24 && 0 <= b < 24,
        key_fit(frame, a as nat).finite() && key_fit(frame, b as nat).finite(),
        key_fit(frame, a as nat).spec_le(key_fit(frame, b as nat)),
    ensures
        likelihoods(frame)[a].spec_le(likelihoods(frame)[b]),
{
    law_small_integers_are_exact(8);
    law_small_integers_keep_their_order(0, 8);
    law_small_integers_are_exact(0);
    law_comparison_is_numeric(of_int(0), of_int(8));
    assert(!of_int(8).negative());
    law_multiplication_keeps_the_order(
        larger(key_fit(frame, a as nat), micro()),
        larger(key_fit(frame, b as nat), micro()),
        of_int(8),
    );
}

/// A key that is kept, one next to it on the wheel and any other each have
/// their own weight, and none is below a trillionth.
pub proof fn law_moves_weigh_by_closeness(from: nat, to: nat, options: KeyOptions)
    ensures
        from == to && pico().spec_le(options.self_transition) ==> move_weight(from, to, options)
            == options.self_transition,
        from != to && compatible(from, to) && pico().spec_le(options.near_transition) ==> move_weight(from, to, options)
            == options.near_transition,
        from != to && !compatible(from, to) && pico().spec_le(options.far_transition) ==> move_weight(from, to, options)
            == options.far_transition,
        pico().spec_le(move_weight(from, to, options)),
{
}

/// The key of a whole piece is the first that no other scores higher than.
pub proof fn law_no_key_scores_higher(scores: Seq<Binary64>, i: int)
    requires
        scores.len() == 24,
        forall|k: int| 0 <= k < 24 ==> !(#[trigger] scores[k]).nan(),
        0 <= i < 24,
    ensures
        0 <= first_highest(scores, 24).0 < 24,
        scores[i].spec_le(scores[first_highest(scores, 24).0]),
        i < first_highest(scores, 24).0 ==> scores[i].spec_lt(scores[first_highest(scores, 24).0]),
{
    lemma_first_highest(scores, 24);
    if i < first_highest(scores, 24).0 {
        lemma_first_highest_is_first(scores, 24, i);
    }
}

proof fn lemma_first_highest_is_first(scores: Seq<Binary64>, n: nat, i: int)
    requires
        n <= scores.len(),
        all_numbers(scores),
        0 <= i < first_highest(scores, n).0,
    ensures
        n > 0,
        scores[i].spec_lt(first_highest(scores, n).1),
    decreases n,
{
    if n > 0 {
        let before = first_highest(scores, (n - 1) as nat);
        lemma_first_highest(scores, (n - 1) as nat);
        if first_highest(scores, n).0 == n - 1 && before.0 != n - 1 {
            assert(scores[i].spec_le(before.1));
        } else if before.0 == first_highest(scores, n).0 {
            lemma_first_highest_is_first(scores, (n - 1) as nat, i);
        }
    }
}

/// The first frame stands in the middle of its window, and a hop of at least one
/// sample is kept.
pub proof fn law_frames_stand_in_their_windows(options: ChromaOptions, sample_rate: u32)
    requires
        ({
            let half_window = quotient(of_int(doubled_to(64, options.n_fft as nat) as int), of_int(2));
            half_window.finite() && zero().spec_lt(half_window)
        }),
    ensures
        frame_moment(0, options, sample_rate) == quotient(
            quotient(of_int(doubled_to(64, options.n_fft as nat) as int), of_int(2)),
            of_int(sample_rate as int),
        ),
        options.hop >= 1 ==> options.step() == options.hop,
        options.step() >= 1,
{
    let half_window = quotient(of_int(doubled_to(64, options.n_fft as nat) as int), of_int(2));
    assert(0 * options.step() == 0) by (nonlinear_arith);
    law_small_integers_are_exact(0);
    let p = vstd::arithmetic::power2::pow2(1074);
    assert(0 * p == 0) by (nonlinear_arith);
    lemma_no_magnitude();
    law_comparison_is_numeric(zero(), half_window);
    law_adding_nothing_changes_nothing(half_window);
    assert(sum(of_int(0), half_window) == sum(zero(), half_window));
}

} // verus!
