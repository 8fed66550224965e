//! Descriptors of a magnitude spectrogram: one row per frequency bin, one
//! column per frame.

use crate::detect::matrix::Mat;
use crate::detect::sync::least_power;
use crate::number::binary64::{
    absolute, difference, half, larger, of_int, one, product, quotient, sum, zero, Binary64,
};
use crate::number::lists::{
    average, even_rows, highest, highest_of, mean, median, middle, rows_of, total, total_of, turn_rows, turned,
};
use crate::number::root::square_root;
use vstd::prelude::*;

verus! {

/// Number of frames for `len` samples with centring on.
pub fn n_frames(len: usize, hop: usize) -> (r: usize)
    requires
        hop > 0,
        len < usize::MAX,
    ensures
        r == 1 + len as int / hop as int,
{
    assert(len as int / hop as int <= len) by (nonlinear_arith)
        requires
            hop > 0,
            len >= 0,
    ;
    1 + len / hop
}

/// The centre frequencies of the bins.
pub open spec fn bin_frequencies(sample_rate: Binary64, n_fft: usize) -> Seq<Binary64> {
    Seq::new(
        (n_fft / 2 + 1) as nat,
        |k: int| quotient(product(of_int(k), sample_rate), of_int(n_fft as int)),
    )
}

/// FFT bin centre frequencies.
pub fn fft_frequencies(sample_rate: Binary64, n_fft: usize) -> (r: Vec<Binary64>)
    ensures
        r@ == bin_frequencies(sample_rate, n_fft),
{
    let bins: usize = n_fft / 2 + 1;
    let ghost want = bin_frequencies(sample_rate, n_fft);
    let mut out: Vec<Binary64> = Vec::new();
    let mut k: usize = 0;
    while k < bins
        invariant
            k <= bins == n_fft / 2 + 1,
            want == bin_frequencies(sample_rate, n_fft),
            out@ == want.take(k as int),
        decreases bins - k,
    {
        out.push(Binary64::from_u64(k as u64).times(sample_rate).over(Binary64::from_u64(n_fft as u64)));
        k = k + 1;
        assert(out@ =~= want.take(k as int));
    }
    assert(out@ =~= want);
    out
}

/// The start times of frames.
pub open spec fn frame_starts(count: nat, sample_rate: Binary64, hop: usize) -> Seq<Binary64> {
    Seq::new(count, |i: int| quotient(product(of_int(i), of_int(hop as int)), sample_rate))
}

/// Frame start times in seconds.
pub fn frames_to_time(count: usize, sample_rate: Binary64, hop: usize) -> (r: Vec<Binary64>)
    ensures
        r@ == frame_starts(count as nat, sample_rate, hop),
{
    let ghost want = frame_starts(count as nat, sample_rate, hop);
    let mut out: Vec<Binary64> = Vec::new();
    let mut i: usize = 0;
    while i < count
        invariant
            i <= count,
            want == frame_starts(count as nat, sample_rate, hop),
            out@ == want.take(i as int),
        decreases count - i,
    {
        out.push(Binary64::from_u64(i as u64).times(Binary64::from_u64(hop as u64)).over(sample_rate));
        i = i + 1;
        assert(out@ =~= want.take(i as int));
    }
    assert(out@ =~= want);
    out
}

/// The length of the median filters, in frames and in bins.
pub const KERNEL: usize = 31;

/// A place reflected into `0..len`, the edge repeated:
/// `(d c b a | a b c d | d c b a)`.
pub open spec fn reflected(i: int, len: int) -> int {
    let k = i % (2 * len);
    if k >= len {
        2 * len - 1 - k
    } else {
        k
    }
}

/// Reflects an index into `0..len`, repeating the edge sample.
pub fn reflect_index(i: i64, len: usize) -> (r: usize)
    requires
        0 < len <= 0x3FFF_FFFF_FFFF_FFFF,
    ensures
        r == reflected(i as int, len as int),
        r < len,
{
    let n: i64 = len as i64;
    let period: i64 = 2 * n;
    let rest: i64 = i % period;
    let k: i64 = if rest < 0 {
        rest + period
    } else {
        rest
    };
    proof {
        let p = period as int;
        if i < 0 {
            assert(k == i as int % p) by {
                if rest < 0 {
                    vstd::arithmetic::div_mod::lemma_fundamental_div_mod(-i as int, p);
                    let q = (-i as int) / p;
                    let m = (-i as int) % p;
                    assert(i as int == -(q + 1) * p + (p - m)) by (nonlinear_arith)
                        requires
                            -i as int == p * q + m,
                    ;
                    vstd::arithmetic::div_mod::lemma_fundamental_div_mod_converse(i as int, p, -(q + 1), p - m);
                } else {
                    vstd::arithmetic::div_mod::lemma_fundamental_div_mod(-i as int, p);
                    let q = (-i as int) / p;
                    assert(i as int == (-q) * p) by (nonlinear_arith)
                        requires
                            -i as int == p * q,
                    ;
                    vstd::arithmetic::div_mod::lemma_fundamental_div_mod_converse(i as int, p, -q, 0);
                }
            }
        }
    }
    if k >= n {
        (period - 1 - k) as usize
    } else {
        k as usize
    }
}

/// The values about a place of a row that the median is taken of.
pub open spec fn median_window(row: Seq<Binary64>, c: int) -> Seq<Binary64> {
    Seq::new(31, |k: int| row[reflected(c - 15 + k, row.len() as int)])
}

/// A row, each value replaced by the median about it.
pub open spec fn median_row(row: Seq<Binary64>) -> Seq<Binary64> {
    Seq::new(row.len(), |c: int| middle(median_window(row, c)))
}

/// Rows, each value replaced by the median about it in its row.
pub open spec fn median_rows(rows: Seq<Seq<Binary64>>) -> Seq<Seq<Binary64>> {
    rows.map_values(|row: Seq<Binary64>| median_row(row))
}

/// A row, each value replaced by the median about it.
fn filter_row(row: &Vec<Binary64>) -> (r: Vec<Binary64>)
    requires
        row@.len() <= 0x3FFF_FFFF_FFFF_FFFF,
    ensures
        r@ == median_row(row@),
{
    let n: usize = row.len();
    let ghost want = median_row(row@);
    let mut out: Vec<Binary64> = Vec::new();
    let mut c: usize = 0;
    while c < n
        invariant
            c <= n == row@.len(),
            n <= 0x3FFF_FFFF_FFFF_FFFF,
            want == median_row(row@),
            out@ == want.take(c as int),
        decreases n - c,
    {
        let ghost wide = median_window(row@, c as int);
        let mut window: Vec<Binary64> = Vec::new();
        let mut k: usize = 0;
        while k < KERNEL
            invariant
                k <= 31,
                c < n == row@.len(),
                n <= 0x3FFF_FFFF_FFFF_FFFF,
                wide == median_window(row@, c as int),
                window@ == wide.take(k as int),
            decreases 31 - k,
        {
            let at: usize = reflect_index(c as i64 - 15 + k as i64, n);
            window.push(row[at]);
            k = k + 1;
            assert(window@ =~= wide.take(k as int));
        }
        assert(window@ =~= wide);
        out.push(median(window.as_slice()));
        c = c + 1;
        assert(out@ =~= want.take(c as int));
    }
    assert(out@ =~= want);
    out
}

/// Median filter along each row.
pub fn median_filter_rows(rows: &Vec<Vec<Binary64>>) -> (r: Vec<Vec<Binary64>>)
    requires
        forall|i: int| 0 <= i < rows@.len() ==> (#[trigger] rows@[i])@.len() <= 0x3FFF_FFFF_FFFF_FFFF,
    ensures
        rows_of(r@) == median_rows(rows_of(rows@)),
        r@.len() == rows@.len(),
{
    let ghost want = median_rows(rows_of(rows@));
    let mut out: Vec<Vec<Binary64>> = Vec::new();
    let mut i: usize = 0;
    assert(rows_of(out@) =~= want.take(0));
    while i < rows.len()
        invariant
            i <= rows@.len(),
            forall|k: int| 0 <= k < rows@.len() ==> (#[trigger] rows@[k])@.len() <= 0x3FFF_FFFF_FFFF_FFFF,
            want == median_rows(rows_of(rows@)),
            out@.len() == i,
            rows_of(out@) == want.take(i as int),
        decreases rows@.len() - i,
    {
        assert(rows@[i as int]@.len() <= 0x3FFF_FFFF_FFFF_FFFF);
        let row: Vec<Binary64> = filter_row(&rows[i]);
        let ghost before = out@;
        out.push(row);
        assert(rows_of(out@) =~= rows_of(before).push(row@));
        i = i + 1;
        assert(rows_of(out@) =~= want.take(i as int));
    }
    assert(rows_of(out@) =~= want);
    out
}

/// The smallest magnitude that counts: the smallest normal binary32 number.
#[verifier::allow_in_spec]
pub fn least_magnitude() -> Binary64
    returns
        (Binary64 { bits: 0x3810_0000_0000_0000 }),
{
    Binary64 { bits: 0x3810_0000_0000_0000 }
}

/// Below this both estimates count as nothing: 1.17549435e-38.
#[verifier::allow_in_spec]
pub fn mask_floor() -> Binary64
    returns
        (Binary64 { bits: 0x380F_FFFF_FF9F_DBA8 }),
{
    Binary64 { bits: 0x380F_FFFF_FF9F_DBA8 }
}

/// The share of one estimate against another, by their squares; a half where
/// both are nothing.
pub open spec fn mask_share(x: Binary64, other: Binary64) -> Binary64 {
    let z = larger(x, other);
    let a = product(quotient(x, z), quotient(x, z));
    let b = product(quotient(other, z), quotient(other, z));
    if z.spec_lt(mask_floor()) {
        half()
    } else {
        quotient(a, sum(a, b))
    }
}

/// The share of one estimate against another.
///
/// Both are scaled by the larger before squaring, so the squares of large
/// magnitudes do not overflow.
pub fn softmask(x: Binary64, other: Binary64) -> (r: Binary64)
    ensures
        r == mask_share(x, other),
{
    let z: Binary64 = x.max(other);
    if z.lt(mask_floor()) {
        return half();
    }
    let a: Binary64 = x.over(z).times(x.over(z));
    let b: Binary64 = other.over(z).times(other.over(z));
    a.over(a.plus(b))
}

/// A row with each value weighed by the share of one estimate against another.
pub open spec fn masked_row(row: Seq<Binary64>, one: Seq<Binary64>, other: Seq<Binary64>) -> Seq<Binary64> {
    Seq::new(row.len(), |c: int| product(row[c], mask_share(one[c], other[c])))
}

/// Rows with each value weighed by the share of one estimate against another.
pub open spec fn masked(
    rows: Seq<Seq<Binary64>>,
    one: Seq<Seq<Binary64>>,
    other: Seq<Seq<Binary64>>,
) -> Seq<Seq<Binary64>> {
    Seq::new(rows.len(), |r: int| masked_row(rows[r], one[r], other[r]))
}

/// Rows with each value weighed by the share of one estimate against another.
fn mask_rows(rows: &Vec<Vec<Binary64>>, cols: usize, one: &Vec<Vec<Binary64>>, other: &Vec<Vec<Binary64>>) -> (r: Vec<
    Vec<Binary64>,
>)
    requires
        even_rows(rows_of(rows@), cols as nat),
        even_rows(rows_of(one@), cols as nat),
        even_rows(rows_of(other@), cols as nat),
        one@.len() == rows@.len(),
        other@.len() == rows@.len(),
    ensures
        rows_of(r@) == masked(rows_of(rows@), rows_of(one@), rows_of(other@)),
        r@.len() == rows@.len(),
        even_rows(rows_of(r@), cols as nat),
{
    let ghost a = rows_of(rows@);
    let ghost b = rows_of(one@);
    let ghost d = rows_of(other@);
    let ghost want = masked(a, b, d);
    let mut out: Vec<Vec<Binary64>> = Vec::new();
    let mut i: usize = 0;
    assert(rows_of(out@) =~= want.take(0));
    while i < rows.len()
        invariant
            i <= rows@.len(),
            a == rows_of(rows@),
            b == rows_of(one@),
            d == rows_of(other@),
            even_rows(a, cols as nat),
            even_rows(b, cols as nat),
            even_rows(d, cols as nat),
            one@.len() == rows@.len(),
            other@.len() == rows@.len(),
            want == masked(a, b, d),
            out@.len() == i,
            rows_of(out@) == want.take(i as int),
            even_rows(rows_of(out@), cols as nat),
        decreases rows@.len() - i,
    {
        assert(a[i as int].len() == cols && b[i as int].len() == cols && d[i as int].len() == cols);
        let mut row: Vec<Binary64> = Vec::new();
        let mut c: usize = 0;
        while c < cols
            invariant
                c <= cols,
                i < rows@.len(),
                one@.len() == rows@.len(),
                other@.len() == rows@.len(),
                rows@[i as int]@ == a[i as int],
                one@[i as int]@ == b[i as int],
                other@[i as int]@ == d[i as int],
                a[i as int].len() == cols,
                b[i as int].len() == cols,
                d[i as int].len() == cols,
                row@ == masked_row(a[i as int], b[i as int], d[i as int]).take(c as int),
            decreases cols - c,
        {
            row.push(rows[i][c].times(softmask(one[i][c], other[i][c])));
            c = c + 1;
            assert(row@ =~= masked_row(a[i as int], b[i as int], d[i as int]).take(c as int));
        }
        assert(row@ =~= want[i as int]);
        let ghost before = out@;
        out.push(row);
        assert(rows_of(out@) =~= rows_of(before).push(row@));
        i = i + 1;
        assert(rows_of(out@) =~= want.take(i as int));
    }
    assert(rows_of(out@) =~= want);
    out
}

/// The median of each value along time.
pub open spec fn steady(rows: Seq<Seq<Binary64>>) -> Seq<Seq<Binary64>> {
    median_rows(rows)
}

/// The median of each value along frequency.
pub open spec fn striking(rows: Seq<Seq<Binary64>>, cols: nat) -> Seq<Seq<Binary64>> {
    turned(median_rows(turned(rows, cols)), rows.len())
}

/// Splits a magnitude spectrogram into harmonic and percussive magnitudes.
///
/// Harmonic content is smooth along time and spiky along frequency; percussive
/// content is the other way round. Median-filtering in each direction gives two
/// rough estimates, and a soft mask built from them splits what came in.
pub fn hpss(magnitude: &Mat) -> (r: (Mat, Mat))
    requires
        magnitude.wf(),
        magnitude.width() <= 0x3FFF_FFFF_FFFF_FFFF,
        magnitude.height() <= 0x3FFF_FFFF_FFFF_FFFF,
        magnitude.height() * magnitude.width() <= usize::MAX,
    ensures
        r.0.wf(),
        r.1.wf(),
        r.0.width() == magnitude.width(),
        r.1.width() == magnitude.width(),
        r.0.grid() == masked(
            magnitude.grid(),
            steady(magnitude.grid()),
            striking(magnitude.grid(), magnitude.width()),
        ),
        r.1.grid() == masked(
            magnitude.grid(),
            striking(magnitude.grid(), magnitude.width()),
            steady(magnitude.grid()),
        ),
{
    let n: usize = magnitude.rows();
    let cols: usize = magnitude.cols();
    let rows: Vec<Vec<Binary64>> = magnitude.to_rows();
    let ghost cells = rows_of(rows@);
    assert forall|i: int| 0 <= i < rows@.len() implies (#[trigger] rows@[i])@.len() <= 0x3FFF_FFFF_FFFF_FFFF by {
        assert(cells[i].len() == cols);
    }
    let harm: Vec<Vec<Binary64>> = median_filter_rows(&rows);
    let across: Vec<Vec<Binary64>> = turn_rows(&rows, cols);
    assert forall|i: int| 0 <= i < across@.len() implies (#[trigger] across@[i])@.len() <= 0x3FFF_FFFF_FFFF_FFFF by {
        assert(rows_of(across@)[i] == turned(cells, cols as nat)[i]);
    }
    let filtered: Vec<Vec<Binary64>> = median_filter_rows(&across);
    proof {
        assert forall|i: int| 0 <= i < rows_of(filtered@).len() implies (#[trigger] rows_of(filtered@)[i]).len() == n by {
            assert(rows_of(across@)[i] == turned(cells, cols as nat)[i]);
        }
    }
    let perc: Vec<Vec<Binary64>> = turn_rows(&filtered, n);
    proof {
        assert forall|i: int| 0 <= i < rows_of(harm@).len() implies (#[trigger] rows_of(harm@)[i]).len() == cols by {
            assert(cells[i].len() == cols);
        }
        assert forall|i: int| 0 <= i < rows_of(perc@).len() implies (#[trigger] rows_of(perc@)[i]).len() == cols by {
            assert(rows_of(perc@)[i] == turned(rows_of(filtered@), n as nat)[i]);
        }
    }
    let harmonic: Vec<Vec<Binary64>> = mask_rows(&rows, cols, &harm, &perc);
    let percussive: Vec<Vec<Binary64>> = mask_rows(&rows, cols, &perc, &harm);
    (Mat::of_rows(harmonic, cols), Mat::of_rows(percussive, cols))
}

/// What to divide a frame by so that its magnitudes sum to one; one where it is
/// silent.
pub open spec fn frame_norm(frame: Seq<Binary64>) -> Binary64 {
    let whole = total(frame.map_values(|v: Binary64| absolute(v)));
    if whole.spec_lt(least_magnitude()) {
        one()
    } else {
        whole
    }
}

/// The parts of the centre of gravity of a frame.
pub open spec fn centroid_parts(frame: Seq<Binary64>, freqs: Seq<Binary64>) -> Seq<Binary64> {
    Seq::new(frame.len(), |r: int| quotient(product(freqs[r], frame[r]), frame_norm(frame)))
}

/// The centre of gravity of a frame, in hertz.
pub open spec fn centroid(frame: Seq<Binary64>, freqs: Seq<Binary64>) -> Binary64 {
    total(centroid_parts(frame, freqs))
}

/// The parts of the spread of a frame about its centre of gravity.
pub open spec fn bandwidth_parts(frame: Seq<Binary64>, freqs: Seq<Binary64>) -> Seq<Binary64> {
    Seq::new(
        frame.len(),
        |r: int|
            {
                let off = absolute(difference(freqs[r], centroid(frame, freqs)));
                product(product(quotient(frame[r], frame_norm(frame)), off), off)
            },
    )
}

/// The spread of a frame about its centre of gravity, in hertz.
pub open spec fn bandwidth(frame: Seq<Binary64>, freqs: Seq<Binary64>) -> Binary64 {
    square_root(total(bandwidth_parts(frame, freqs)))
}

/// What to divide a frame by so that its magnitudes sum to one.
fn norm_of_frame(frame: &[Binary64]) -> (r: Binary64)
    ensures
        r == frame_norm(frame@),
{
    let ghost all = frame@.map_values(|v: Binary64| absolute(v));
    let mut whole: Binary64 = zero();
    let mut i: usize = 0;
    while i < frame.len()
        invariant
            i <= frame@.len(),
            all == frame@.map_values(|v: Binary64| absolute(v)),
            whole == total(all.take(i as int)),
        decreases frame@.len() - i,
    {
        whole = whole.plus(frame[i].abs());
        assert(all.take(i + 1).drop_last() == all.take(i as int));
        i = i + 1;
    }
    assert(all.take(i as int) == all);
    if whole.lt(least_magnitude()) {
        one()
    } else {
        whole
    }
}

/// The centre of gravity of a frame, in hertz.
pub fn frame_centroid(frame: &[Binary64], freqs: &[Binary64]) -> (r: Binary64)
    requires
        frame@.len() <= freqs@.len(),
    ensures
        r == centroid(frame@, freqs@),
{
    let norm: Binary64 = norm_of_frame(frame);
    let ghost all = centroid_parts(frame@, freqs@);
    let mut out: Binary64 = zero();
    let mut i: usize = 0;
    while i < frame.len()
        invariant
            i <= frame@.len() <= freqs@.len(),
            norm == frame_norm(frame@),
            all == centroid_parts(frame@, freqs@),
            out == total(all.take(i as int)),
        decreases frame@.len() - i,
    {
        out = out.plus(freqs[i].times(frame[i]).over(norm));
        assert(all.take(i + 1).drop_last() == all.take(i as int));
        i = i + 1;
    }
    assert(all.take(i as int) == all);
    out
}

/// The spread of a frame about its centre of gravity, in hertz.
pub fn frame_bandwidth(frame: &[Binary64], freqs: &[Binary64]) -> (r: Binary64)
    requires
        frame@.len() <= freqs@.len(),
    ensures
        r == bandwidth(frame@, freqs@),
{
    let norm: Binary64 = norm_of_frame(frame);
    let centre: Binary64 = frame_centroid(frame, freqs);
    let ghost all = bandwidth_parts(frame@, freqs@);
    let mut out: Binary64 = zero();
    let mut i: usize = 0;
    while i < frame.len()
        invariant
            i <= frame@.len() <= freqs@.len(),
            norm == frame_norm(frame@),
            centre == centroid(frame@, freqs@),
            all == bandwidth_parts(frame@, freqs@),
            out == total(all.take(i as int)),
        decreases frame@.len() - i,
    {
        let off: Binary64 = freqs[i].minus(centre).abs();
        out = out.plus(frame[i].over(norm).times(off).times(off));
        assert(all.take(i + 1).drop_last() == all.take(i as int));
        i = i + 1;
    }
    assert(all.take(i as int) == all);
    out.sqrt()
}

/// The first bin from `from` on at which a running sum reaches a threshold.
pub open spec fn reached_at(frame: Seq<Binary64>, threshold: Binary64, from: int) -> int
    decreases frame.len() - from,
{
    if from < 0 || from >= frame.len() {
        frame.len() - 1
    } else if threshold.spec_le(total(frame.take(from + 1))) {
        from
    } else {
        reached_at(frame, threshold, from + 1)
    }
}

/// The frequency below which a share of a frame's magnitude lies.
pub fn frame_rolloff(frame: &[Binary64], freqs: &[Binary64], share: Binary64) -> (r: Binary64)
    requires
        0 < frame@.len() <= freqs@.len(),
    ensures
        r == freqs@[reached_at(frame@, product(share, total(frame@)), 0)],
{
    let threshold: Binary64 = share.times(total_of(frame));
    let mut running: Binary64 = zero();
    let mut i: usize = 0;
    while i < frame.len()
        invariant
            i <= frame@.len() <= freqs@.len(),
            threshold == product(share, total(frame@)),
            running == total(frame@.take(i as int)),
            reached_at(frame@, threshold, 0) == reached_at(frame@, threshold, i as int),
        decreases frame@.len() - i,
    {
        running = running.plus(frame[i]);
        assert(frame@.take(i + 1).drop_last() == frame@.take(i as int));
        if threshold.le(running) {
            return freqs[i];
        }
        i = i + 1;
    }
    freqs[frame.len() - 1]
}

/// The squared magnitudes of a frame, those of the two bins that appear once in
/// the two-sided spectrum halved.
pub open spec fn folded_squares(frame: Seq<Binary64>, frame_length: usize) -> Seq<Binary64> {
    Seq::new(
        frame.len(),
        |r: int|
            {
                let square = product(frame[r], frame[r]);
                if r == 0 || (r == frame.len() - 1 && frame_length % 2 == 0) {
                    product(square, half())
                } else {
                    square
                }
            },
    )
}

/// The root mean square of the signal behind a frame.
pub open spec fn frame_level(frame: Seq<Binary64>, frame_length: usize) -> Binary64 {
    let n = of_int(frame_length as int);
    square_root(quotient(product(of_int(2), total(folded_squares(frame, frame_length))), product(n, n)))
}

/// The root mean square of the signal behind a frame.
pub fn frame_rms(frame: &[Binary64], frame_length: usize) -> (r: Binary64)
    ensures
        r == frame_level(frame@, frame_length),
{
    let ghost all = folded_squares(frame@, frame_length);
    let count: usize = frame.len();
    let mut acc: Binary64 = zero();
    let mut i: usize = 0;
    while i < count
        invariant
            i <= count == frame@.len(),
            all == folded_squares(frame@, frame_length),
            acc == total(all.take(i as int)),
        decreases count - i,
    {
        let square: Binary64 = frame[i].times(frame[i]);
        let once: bool = i == 0 || (i == count - 1 && frame_length % 2 == 0);
        let part: Binary64 = if once {
            square.times(half())
        } else {
            square
        };
        acc = acc.plus(part);
        assert(all.take(i + 1).drop_last() == all.take(i as int));
        i = i + 1;
    }
    assert(all.take(i as int) == all);
    let n: Binary64 = Binary64::from_u64(frame_length as u64);
    Binary64::from_u64(2).times(acc).over(n.times(n)).sqrt()
}

/// The centre of gravity of every frame, in hertz.
pub fn spectral_centroid(magnitude: &Mat, sample_rate: Binary64, n_fft: usize) -> (r: Vec<Binary64>)
    requires
        magnitude.wf(),
        magnitude.height() <= n_fft / 2 + 1,
    ensures
        r@ == Seq::new(magnitude.width(), |f: int| centroid(magnitude.column_at(f), bin_frequencies(sample_rate, n_fft))),
{
    let ghost want = Seq::new(magnitude.width(), |f: int| centroid(magnitude.column_at(f), bin_frequencies(sample_rate, n_fft)));
    let freqs: Vec<Binary64> = fft_frequencies(sample_rate, n_fft);
    let mut out: Vec<Binary64> = Vec::new();
    let mut frame: usize = 0;
    while frame < magnitude.cols()
        invariant
            frame <= magnitude.width(),
            magnitude.wf(),
            magnitude.height() <= freqs@.len(),
            freqs@ == bin_frequencies(sample_rate, n_fft),
            want == Seq::new(magnitude.width(), |f: int| centroid(magnitude.column_at(f), bin_frequencies(sample_rate, n_fft))),
            out@ == want.take(frame as int),
        decreases magnitude.width() - frame,
    {
        let column: Vec<Binary64> = magnitude.column(frame);
        out.push(frame_centroid(column.as_slice(), freqs.as_slice()));
        frame = frame + 1;
        assert(out@ =~= want.take(frame as int));
    }
    assert(out@ =~= want);
    out
}

/// The spread of every frame about its centre of gravity, in hertz.
pub fn spectral_bandwidth(magnitude: &Mat, sample_rate: Binary64, n_fft: usize) -> (r: Vec<Binary64>)
    requires
        magnitude.wf(),
        magnitude.height() <= n_fft / 2 + 1,
    ensures
        r@ == Seq::new(magnitude.width(), |f: int| bandwidth(magnitude.column_at(f), bin_frequencies(sample_rate, n_fft))),
{
    let ghost want = Seq::new(magnitude.width(), |f: int| bandwidth(magnitude.column_at(f), bin_frequencies(sample_rate, n_fft)));
    let freqs: Vec<Binary64> = fft_frequencies(sample_rate, n_fft);
    let mut out: Vec<Binary64> = Vec::new();
    let mut frame: usize = 0;
    while frame < magnitude.cols()
        invariant
            frame <= magnitude.width(),
            magnitude.wf(),
            magnitude.height() <= freqs@.len(),
            freqs@ == bin_frequencies(sample_rate, n_fft),
            want == Seq::new(magnitude.width(), |f: int| bandwidth(magnitude.column_at(f), bin_frequencies(sample_rate, n_fft))),
            out@ == want.take(frame as int),
        decreases magnitude.width() - frame,
    {
        let column: Vec<Binary64> = magnitude.column(frame);
        out.push(frame_bandwidth(column.as_slice(), freqs.as_slice()));
        frame = frame + 1;
        assert(out@ =~= want.take(frame as int));
    }
    assert(out@ =~= want);
    out
}

/// The frequency below which a share of a frame lies.
pub open spec fn rolloff(frame: Seq<Binary64>, freqs: Seq<Binary64>, share: Binary64) -> Binary64 {
    freqs[reached_at(frame, product(share, total(frame)), 0)]
}

/// The frequency below which a share of every frame lies, in hertz.
pub fn spectral_rolloff(magnitude: &Mat, sample_rate: Binary64, n_fft: usize, roll_percent: Binary64) -> (r: Vec<Binary64>)
    requires
        magnitude.wf(),
        0 < magnitude.height() <= n_fft / 2 + 1,
    ensures
        r@ == Seq::new(magnitude.width(), |f: int| rolloff(magnitude.column_at(f), bin_frequencies(sample_rate, n_fft), roll_percent)),
{
    let ghost want = Seq::new(magnitude.width(), |f: int| rolloff(magnitude.column_at(f), bin_frequencies(sample_rate, n_fft), roll_percent));
    let freqs: Vec<Binary64> = fft_frequencies(sample_rate, n_fft);
    let mut out: Vec<Binary64> = Vec::new();
    let mut frame: usize = 0;
    while frame < magnitude.cols()
        invariant
            frame <= magnitude.width(),
            magnitude.wf(),
            0 < magnitude.height() <= freqs@.len(),
            freqs@ == bin_frequencies(sample_rate, n_fft),
            want == Seq::new(magnitude.width(), |f: int| rolloff(magnitude.column_at(f), bin_frequencies(sample_rate, n_fft), roll_percent)),
            out@ == want.take(frame as int),
        decreases magnitude.width() - frame,
    {
        let column: Vec<Binary64> = magnitude.column(frame);
        out.push(frame_rolloff(column.as_slice(), freqs.as_slice(), roll_percent));
        frame = frame + 1;
        assert(out@ =~= want.take(frame as int));
    }
    assert(out@ =~= want);
    out
}

/// The root mean square of the signal behind every frame.
pub fn rms_from_spectrum(magnitude: &Mat, frame_length: usize) -> (r: Vec<Binary64>)
    requires
        magnitude.wf(),
    ensures
        r@ == Seq::new(magnitude.width(), |f: int| frame_level(magnitude.column_at(f), frame_length)),
{
    let ghost want = Seq::new(magnitude.width(), |f: int| frame_level(magnitude.column_at(f), frame_length));
    let mut out: Vec<Binary64> = Vec::new();
    let mut frame: usize = 0;
    while frame < magnitude.cols()
        invariant
            frame <= magnitude.width(),
            magnitude.wf(),
            want == Seq::new(magnitude.width(), |f: int| frame_level(magnitude.column_at(f), frame_length)),
            out@ == want.take(frame as int),
        decreases magnitude.width() - frame,
    {
        let column: Vec<Binary64> = magnitude.column(frame);
        out.push(frame_rms(column.as_slice(), frame_length));
        frame = frame + 1;
        assert(out@ =~= want.take(frame as int));
    }
    assert(out@ =~= want);
    out
}

/// The bins of the first `n` whose frequency lies in `[low, high)`.
pub open spec fn bins_between(freqs: Seq<Binary64>, low: Binary64, high: Binary64, n: nat) -> Seq<usize>
    decreases n,
{
    if n == 0 {
        seq![]
    } else {
        let before = bins_between(freqs, low, high, (n - 1) as nat);
        if low.spec_le(freqs[n - 1]) && freqs[n - 1].spec_lt(high) {
            before.push((n - 1) as usize)
        } else {
            before
        }
    }
}

/// The bins of the first `n` whose frequency lies in `[low, high)`.
pub fn bins_in_band(freqs: &[Binary64], low: Binary64, high: Binary64, n: usize) -> (r: Vec<usize>)
    requires
        n <= freqs@.len(),
    ensures
        r@ == bins_between(freqs@, low, high, n as nat),
        forall|i: int| 0 <= i < r@.len() ==> (#[trigger] r@[i]) < n,
{
    let mut out: Vec<usize> = Vec::new();
    let mut k: usize = 0;
    while k < n
        invariant
            k <= n <= freqs@.len(),
            out@ == bins_between(freqs@, low, high, k as nat),
            forall|i: int| 0 <= i < out@.len() ==> (#[trigger] out@[i]) < k,
        decreases n - k,
    {
        if low.le(freqs[k]) && freqs[k].lt(high) {
            out.push(k);
        }
        k = k + 1;
    }
    out
}

/// The values of some bins of a frame.
pub open spec fn bin_values(frame: Seq<Binary64>, bins: Seq<usize>) -> Seq<Binary64> {
    bins.map_values(|r: usize| frame[r as int])
}

/// The values of some bins of a frame.
fn pick_bins(frame: &[Binary64], bins: &Vec<usize>) -> (r: Vec<Binary64>)
    requires
        forall|i: int| 0 <= i < bins@.len() ==> (#[trigger] bins@[i]) < frame@.len(),
    ensures
        r@ == bin_values(frame@, bins@),
{
    let ghost want = bin_values(frame@, bins@);
    let mut out: Vec<Binary64> = Vec::new();
    let mut i: usize = 0;
    while i < bins.len()
        invariant
            i <= bins@.len(),
            forall|k: int| 0 <= k < bins@.len() ==> (#[trigger] bins@[k]) < frame@.len(),
            want == bin_values(frame@, bins@),
            out@ == want.take(i as int),
        decreases bins@.len() - i,
    {
        out.push(frame[bins[i]]);
        i = i + 1;
        assert(out@ =~= want.take(i as int));
    }
    assert(out@ =~= want);
    out
}

/// Mean power across some bins of a frame; nothing across none.
pub fn bin_energy(frame: &[Binary64], bins: &Vec<usize>) -> (r: Binary64)
    requires
        forall|i: int| 0 <= i < bins@.len() ==> (#[trigger] bins@[i]) < frame@.len(),
    ensures
        r == average(bin_values(frame@, bins@)),
{
    mean(pick_bins(frame, bins).as_slice())
}

/// How far the highest of some bins of a frame stands above their mean; nothing
/// of no bins.
pub open spec fn peak_over_mean(values: Seq<Binary64>) -> Binary64 {
    if values.len() == 0 {
        zero()
    } else {
        quotient(highest(values), larger(quotient(total(values), of_int(values.len() as int)), least_power()))
    }
}

/// How peaky a frame is in some bins: its highest value over the mean.
pub fn bin_salience(frame: &[Binary64], bins: &Vec<usize>) -> (r: Binary64)
    requires
        forall|i: int| 0 <= i < bins@.len() ==> (#[trigger] bins@[i]) < frame@.len(),
    ensures
        r == peak_over_mean(bin_values(frame@, bins@)),
{
    let values: Vec<Binary64> = pick_bins(frame, bins);
    if values.len() == 0 {
        return zero();
    }
    let average_value: Binary64 = total_of(values.as_slice()).over(Binary64::from_u64(values.len() as u64));
    highest_of(values.as_slice()).over(average_value.max(least_power()))
}

/// Zeros at the start of an onset curve.
pub const PAD_FRAMES: usize = 3;

/// The rises of every band from one frame into the next.
pub open spec fn rises(rows: Seq<Seq<Binary64>>, before: int) -> Seq<Binary64> {
    rows.map_values(|row: Seq<Binary64>| larger(difference(row[before + 1], row[before]), zero()))
}

/// The mean rise into each frame, moved back by the padding.
pub open spec fn onset_curve(rows: Seq<Seq<Binary64>>, frames: nat) -> Seq<Binary64> {
    Seq::new(
        frames,
        |i: int|
            if rows.len() == 0 || frames < 2 || i < 3 {
                zero()
            } else {
                quotient(total(rises(rows, i - 3)), of_int(rows.len() as int))
            },
    )
}

/// Mean positive frame-to-frame increase across the mel bands.
///
/// The value at a frame describes the step three frames before it, which is
/// where a centred analysis window puts it.
pub fn onset_strength(mel_db: &Mat) -> (r: Vec<Binary64>)
    requires
        mel_db.wf(),
    ensures
        r@ == onset_curve(mel_db.grid(), mel_db.width()),
{
    let frames: usize = mel_db.cols();
    let bands: usize = mel_db.rows();
    let ghost rows = mel_db.grid();
    let ghost want = onset_curve(rows, frames as nat);
    let mut out: Vec<Binary64> = Vec::new();
    let mut i: usize = 0;
    while i < frames
        invariant
            i <= frames == mel_db.width(),
            bands == mel_db.height(),
            mel_db.wf(),
            rows == mel_db.grid(),
            want == onset_curve(rows, frames as nat),
            out@ == want.take(i as int),
        decreases frames - i,
    {
        let mut value: Binary64 = zero();
        if bands > 0 && frames >= 2 && i >= PAD_FRAMES {
            let before: usize = i - PAD_FRAMES;
            let ghost all = rises(rows, before as int);
            let mut band: usize = 0;
            while band < bands
                invariant
                    band <= bands == mel_db.height(),
                    before + 3 == i,
                    i < frames == mel_db.width(),
                    mel_db.wf(),
                    rows == mel_db.grid(),
                    all == rises(rows, before as int),
                    value == total(all.take(band as int)),
                decreases bands - band,
            {
                value = value.plus(mel_db.get(band, before + 1).minus(mel_db.get(band, before)).max(zero()));
                assert(all.take(band + 1).drop_last() == all.take(band as int));
                band = band + 1;
            }
            assert(all.take(band as int) == all);
            value = value.over(Binary64::from_u64(bands as u64));
        }
        out.push(value);
        i = i + 1;
        assert(out@ =~= want.take(i as int));
    }
    assert(out@ =~= want);
    out
}

/// The rise into each value; nothing into the first.
pub open spec fn positive_steps(values: Seq<Binary64>) -> Seq<Binary64> {
    Seq::new(
        values.len(),
        |i: int|
            if i == 0 {
                zero()
            } else {
                larger(difference(values[i], values[i - 1]), zero())
            },
    )
}

/// The rise into each value; nothing into the first.
pub fn rising_steps(values: &[Binary64]) -> (r: Vec<Binary64>)
    ensures
        r@ == positive_steps(values@),
{
    let ghost want = positive_steps(values@);
    let mut out: Vec<Binary64> = Vec::new();
    let mut i: usize = 0;
    while i < values.len()
        invariant
            i <= values@.len(),
            want == positive_steps(values@),
            out@ == want.take(i as int),
        decreases values@.len() - i,
    {
        if i == 0 {
            out.push(zero());
        } else {
            out.push(values[i].minus(values[i - 1]).max(zero()));
        }
        i = i + 1;
        assert(out@ =~= want.take(i as int));
    }
    assert(out@ =~= want);
    out
}

/// Values raised to within a range of the highest of them.
pub open spec fn raised_to_floor(values: Seq<Binary64>, range: Binary64) -> Seq<Binary64> {
    values.map_values(|v: Binary64| larger(v, difference(highest(values), range)))
}

/// Values raised to within a range of the highest of them.
///
/// The floor is that of the whole spectrogram: one per frame would flatten
/// every quiet bar into the same value.
pub fn raise_to_floor(values: &[Binary64], range: Binary64) -> (r: Vec<Binary64>)
    ensures
        r@ == raised_to_floor(values@, range),
{
    let floor: Binary64 = highest_of(values).minus(range);
    let ghost want = raised_to_floor(values@, range);
    let mut out: Vec<Binary64> = Vec::new();
    let mut i: usize = 0;
    while i < values.len()
        invariant
            i <= values@.len(),
            floor == difference(highest(values@), range),
            want == raised_to_floor(values@, range),
            out@ == want.take(i as int),
        decreases values@.len() - i,
    {
        out.push(values[i].max(floor));
        i = i + 1;
        assert(out@ =~= want.take(i as int));
    }
    assert(out@ =~= want);
    out
}

} // verus!
