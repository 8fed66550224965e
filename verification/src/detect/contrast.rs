//! Spectral contrast: how far the peaks of each octave band stand above its
//! valleys.

use crate::detect::matrix::Mat;
use crate::number::binary64::{absolute, difference, half, larger, of_int, one, product, quotient, zero, Binary64};
use crate::number::integral::{floored, nearest_integer, remainder, truncated};
use crate::number::lists::{even_rows, rows_of, sort_total, sorted, total, total_of};
use vstd::prelude::*;
use vstd::slice::slice_subrange;

verus! {

/// The share of a band that counts as its peak, and as its valley: 0.02.
#[verifier::allow_in_spec]
pub fn band_share() -> Binary64
    returns
        (Binary64 { bits: 0x3F94_7AE1_47AE_147B }),
{
    Binary64 { bits: 0x3F94_7AE1_47AE_147B }
}

/// A number that is not negative, rounded to an integer, ties to even.
pub open spec fn half_to_even(v: Binary64) -> Binary64 {
    let nearest = nearest_integer(v);
    if absolute(difference(v, floored(v))).spec_same(half()) && !remainder(nearest, of_int(2)).spec_same(zero()) {
        difference(nearest, one())
    } else {
        nearest
    }
}

/// Rounds a number that is not negative to an integer, ties to even.
pub fn rint(v: Binary64) -> (r: Binary64)
    requires
        !v.negative(),
    ensures
        r == half_to_even(v),
{
    let nearest: Binary64 = v.round();
    if v.minus(v.floor()).abs().same(half()) && !nearest.rem(Binary64::from_u64(2)).same(zero()) {
        nearest.minus(one())
    } else {
        nearest
    }
}

/// The lower edge of band `k`: octaves above 200 Hz, the first from zero.
pub open spec fn band_edge(k: nat) -> Binary64
    decreases k,
{
    if k == 0 {
        zero()
    } else if k == 1 {
        of_int(200)
    } else {
        product(band_edge((k - 1) as nat), of_int(2))
    }
}

/// The lower edge of band `k`.
fn lower_edge(k: usize) -> (r: Binary64)
    ensures
        r == band_edge(k as nat),
{
    if k == 0 {
        return zero();
    }
    let mut edge: Binary64 = Binary64::from_u64(200);
    let mut at: usize = 1;
    while at < k
        invariant
            1 <= at <= k,
            edge == band_edge(at as nat),
        decreases k - at,
    {
        edge = edge.times(Binary64::from_u64(2));
        at = at + 1;
    }
    edge
}

/// The bins of the first `n` whose frequency lies in `[low, high]`.
pub open spec fn bins_within(freqs: Seq<Binary64>, low: Binary64, high: Binary64, n: nat) -> Seq<usize>
    decreases n,
{
    if n == 0 {
        seq![]
    } else {
        let before = bins_within(freqs, low, high, (n - 1) as nat);
        if low.spec_le(freqs[n - 1]) && freqs[n - 1].spec_le(high) {
            before.push((n - 1) as usize)
        } else {
            before
        }
    }
}

/// The bins of the first `n` whose frequency lies in `[low, high]`.
pub fn bins_inside(freqs: &[Binary64], low: Binary64, high: Binary64, n: usize) -> (r: Vec<usize>)
    requires
        n <= freqs@.len(),
    ensures
        r@ == bins_within(freqs@, low, high, n as nat),
        r@.len() <= n,
        forall|i: int| 0 <= i < r@.len() ==> (#[trigger] r@[i]) < n,
{
    let mut out: Vec<usize> = Vec::new();
    let mut k: usize = 0;
    while k < n
        invariant
            k <= n <= freqs@.len(),
            out@ == bins_within(freqs@, low, high, k as nat),
            out@.len() <= k,
            forall|i: int| 0 <= i < out@.len() ==> (#[trigger] out@[i]) < n,
        decreases n - k,
    {
        if low.le(freqs[k]) && freqs[k].le(high) {
            out.push(k);
        }
        k = k + 1;
    }
    out
}

/// The places from `from` up to `to`.
pub open spec fn places(from: int, to: int) -> Seq<usize> {
    Seq::new(
        if from < to {
            (to - from) as nat
        } else {
            0
        },
        |i: int| (from + i) as usize,
    )
}

/// The bins of band `k` before its top one is dropped: those inside it, one
/// below where there is one, and the last band up to the end.
pub open spec fn wide_band(freqs: Seq<Binary64>, rows: nat, k: int, bands: int) -> Seq<usize> {
    let inside = bins_within(freqs, band_edge(k as nat), band_edge((k + 1) as nat), rows);
    let lower = if k > 0 && inside[0] > 0 {
        seq![(inside[0] - 1) as usize] + inside
    } else {
        inside
    };
    if inside.len() == 0 {
        inside
    } else if k == bands {
        lower + places(lower.last() + 1, rows as int)
    } else {
        lower
    }
}

/// The bins of band `k`.
pub open spec fn band_bins(freqs: Seq<Binary64>, rows: nat, k: int, bands: int) -> Seq<usize> {
    let wide = wide_band(freqs, rows, k, bands);
    if k < bands && wide.len() > 0 {
        wide.drop_last()
    } else {
        wide
    }
}

/// How many bins of band `k` make its peak, and its valley. It is sized from
/// the band before its top bin is dropped.
pub open spec fn band_count(freqs: Seq<Binary64>, rows: nat, k: int, bands: int) -> nat {
    let wide = wide_band(freqs, rows, k, bands).len();
    let count = truncated(
        larger(half_to_even(product(band_share(), of_int(wide as int))), one()),
        usize::MAX as nat,
    );
    let have = band_bins(freqs, rows, k, bands).len();
    if count < have {
        count
    } else {
        have
    }
}

/// The values of a frame in some bins.
pub open spec fn frame_values(rows: Seq<Seq<Binary64>>, bins: Seq<usize>, frame: int) -> Seq<Binary64> {
    bins.map_values(|r: usize| rows[r as int][frame])
}

/// The mean of the lowest of some values.
pub open spec fn valley_mean(values: Seq<Binary64>, count: nat) -> Binary64 {
    quotient(total(sorted(values).take(count as int)), of_int(count as int))
}

/// The mean of the highest of some values.
pub open spec fn peak_mean(values: Seq<Binary64>, count: nat) -> Binary64 {
    quotient(
        total(sorted(values).subrange(values.len() - count, values.len() as int)),
        of_int(count as int),
    )
}

/// The valley of a band in each frame; nothing for a band without bins.
pub open spec fn valley_row(rows: Seq<Seq<Binary64>>, bins: Seq<usize>, count: nat, frames: nat) -> Seq<Binary64> {
    Seq::new(
        frames,
        |f: int|
            if bins.len() == 0 {
                zero()
            } else {
                valley_mean(frame_values(rows, bins, f), count)
            },
    )
}

/// The peak of a band in each frame; nothing for a band without bins.
pub open spec fn peak_row(rows: Seq<Seq<Binary64>>, bins: Seq<usize>, count: nat, frames: nat) -> Seq<Binary64> {
    Seq::new(
        frames,
        |f: int|
            if bins.len() == 0 {
                zero()
            } else {
                peak_mean(frame_values(rows, bins, f), count)
            },
    )
}

/// The bins of band `k`, and how many of them make its peak and its valley.
fn choose_band(freqs: &[Binary64], rows: usize, k: usize, bands: usize) -> (r: (Vec<usize>, usize))
    requires
        k <= bands < usize::MAX,
        rows <= freqs@.len(),
        rows < usize::MAX,
    ensures
        r.0@ == band_bins(freqs@, rows as nat, k as int, bands as int),
        r.1 == band_count(freqs@, rows as nat, k as int, bands as int),
        forall|i: int| 0 <= i < r.0@.len() ==> (#[trigger] r.0@[i]) < rows,
        r.1 <= r.0@.len(),
{
    let low: Binary64 = lower_edge(k);
    let high: Binary64 = lower_edge(k + 1);
    let mut inside: Vec<usize> = bins_inside(freqs, low, high, rows);
    let ghost found = inside@;
    let mut band: Vec<usize> = Vec::new();
    if inside.len() > 0 {
        if k > 0 && inside[0] > 0 {
            band.push(inside[0] - 1);
        }
        let ghost lead = band@;
        band.append(&mut inside);
        assert(band@ =~= lead + found);
        if k == bands {
            let last: usize = band[band.len() - 1];
            let ghost so_far = band@;
            let ghost rest = places(last + 1, rows as int);
            let mut at: usize = last + 1;
            assert(band@ =~= so_far + rest.take(0));
            while at < rows
                invariant
                    last < rows,
                    last + 1 <= at <= rows,
                    rest == places(last + 1, rows as int),
                    band@ == so_far + rest.take(at - last - 1),
                    forall|j: int| 0 <= j < band@.len() ==> (#[trigger] band@[j]) < rows,
                decreases rows - at,
            {
                band.push(at);
                at = at + 1;
                assert(band@ =~= so_far + rest.take(at - last - 1));
            }
            assert(rest.take(at - last - 1) =~= rest);
        }
    }
    let ghost wide = wide_band(freqs@, rows as nat, k as int, bands as int);
    assert(band@ =~= wide);
    let share: Binary64 = band_share().times(Binary64::from_u64(band.len() as u64));
    proof {
        lemma_share_not_negative(band@.len() as int);
    }
    let wanted: usize = rint(share).max(one()).truncate(usize::MAX as u64) as usize;
    if k < bands && band.len() > 0 {
        let _ = band.pop();
        assert(band@ =~= wide.drop_last());
    }
    let count: usize = if wanted < band.len() {
        wanted
    } else {
        band.len()
    };
    (band, count)
}

proof fn lemma_share_not_negative(n: int)
    requires
        n >= 0,
    ensures
        !product(band_share(), of_int(n)).negative(),
{
    let b = of_int(n);
    assert(!b.negative());
}

/// The peaks and valleys of the octave bands, one row per band.
///
/// Every band after the first reaches one bin below its nominal start, the last
/// runs to the end of the spectrum, and every other one drops its top bin.
pub fn contrast_levels(magnitude: &Mat, freqs: &[Binary64], n_bands: usize) -> (r: (Mat, Mat))
    requires
        magnitude.wf(),
        n_bands < usize::MAX,
        magnitude.height() <= freqs@.len(),
        magnitude.height() < usize::MAX,
        (n_bands + 1) * magnitude.width() <= usize::MAX,
    ensures
        r.0.wf(),
        r.1.wf(),
        r.0.width() == magnitude.width(),
        r.1.width() == magnitude.width(),
        r.0.grid() == Seq::new(
            (n_bands + 1) as nat,
            |k: int|
                peak_row(
                    magnitude.grid(),
                    band_bins(freqs@, magnitude.height(), k, n_bands as int),
                    band_count(freqs@, magnitude.height(), k, n_bands as int),
                    magnitude.width(),
                ),
        ),
        r.1.grid() == Seq::new(
            (n_bands + 1) as nat,
            |k: int|
                valley_row(
                    magnitude.grid(),
                    band_bins(freqs@, magnitude.height(), k, n_bands as int),
                    band_count(freqs@, magnitude.height(), k, n_bands as int),
                    magnitude.width(),
                ),
        ),
{
    let rows: usize = magnitude.rows();
    let frames: usize = magnitude.cols();
    let ghost cells = magnitude.grid();
    let ghost high = Seq::new(
        (n_bands + 1) as nat,
        |k: int|
            peak_row(
                cells,
                band_bins(freqs@, rows as nat, k, n_bands as int),
                band_count(freqs@, rows as nat, k, n_bands as int),
                frames as nat,
            ),
    );
    let ghost deep = Seq::new(
        (n_bands + 1) as nat,
        |k: int|
            valley_row(
                cells,
                band_bins(freqs@, rows as nat, k, n_bands as int),
                band_count(freqs@, rows as nat, k, n_bands as int),
                frames as nat,
            ),
    );
    let mut peaks: Vec<Vec<Binary64>> = Vec::new();
    let mut valleys: Vec<Vec<Binary64>> = Vec::new();
    let mut k: usize = 0;
    assert(rows_of(peaks@) =~= high.take(0));
    assert(rows_of(valleys@) =~= deep.take(0));
    while k <= n_bands
        invariant
            k <= n_bands + 1,
            n_bands < usize::MAX,
            magnitude.wf(),
            rows == magnitude.height(),
            frames == magnitude.width(),
            rows <= freqs@.len(),
            rows < usize::MAX,
            cells == magnitude.grid(),
            high == Seq::new(
                (n_bands + 1) as nat,
                |j: int|
                    peak_row(
                        cells,
                        band_bins(freqs@, rows as nat, j, n_bands as int),
                        band_count(freqs@, rows as nat, j, n_bands as int),
                        frames as nat,
                    ),
            ),
            deep == Seq::new(
                (n_bands + 1) as nat,
                |j: int|
                    valley_row(
                        cells,
                        band_bins(freqs@, rows as nat, j, n_bands as int),
                        band_count(freqs@, rows as nat, j, n_bands as int),
                        frames as nat,
                    ),
            ),
            peaks@.len() == k,
            valleys@.len() == k,
            rows_of(peaks@) == high.take(k as int),
            rows_of(valleys@) == deep.take(k as int),
            even_rows(rows_of(peaks@), frames as nat),
            even_rows(rows_of(valleys@), frames as nat),
        decreases n_bands + 1 - k,
    {
        let (bins, count) = choose_band(freqs, rows, k, n_bands);
        let (peak, valley) = band_levels(magnitude, &bins, count);
        let ghost before_peaks = peaks@;
        let ghost before_valleys = valleys@;
        peaks.push(peak);
        valleys.push(valley);
        assert(rows_of(peaks@) =~= rows_of(before_peaks).push(peak@));
        assert(rows_of(valleys@) =~= rows_of(before_valleys).push(valley@));
        k = k + 1;
        assert(rows_of(peaks@) =~= high.take(k as int));
        assert(rows_of(valleys@) =~= deep.take(k as int));
    }
    assert(rows_of(peaks@) =~= high);
    assert(rows_of(valleys@) =~= deep);
    (Mat::of_rows(peaks, frames), Mat::of_rows(valleys, frames))
}

/// The peak and the valley of a band in each frame.
fn band_levels(magnitude: &Mat, bins: &Vec<usize>, count: usize) -> (r: (Vec<Binary64>, Vec<Binary64>))
    requires
        magnitude.wf(),
        forall|i: int| 0 <= i < bins@.len() ==> (#[trigger] bins@[i]) < magnitude.height(),
        count <= bins@.len(),
    ensures
        r.0@ == peak_row(magnitude.grid(), bins@, count as nat, magnitude.width()),
        r.1@ == valley_row(magnitude.grid(), bins@, count as nat, magnitude.width()),
{
    let frames: usize = magnitude.cols();
    let ghost cells = magnitude.grid();
    let ghost high = peak_row(cells, bins@, count as nat, frames as nat);
    let ghost deep = valley_row(cells, bins@, count as nat, frames as nat);
    let mut peak: Vec<Binary64> = Vec::new();
    let mut valley: Vec<Binary64> = Vec::new();
    let mut f: usize = 0;
    while f < frames
        invariant
            f <= frames == magnitude.width(),
            magnitude.wf(),
            forall|i: int| 0 <= i < bins@.len() ==> (#[trigger] bins@[i]) < magnitude.height(),
            count <= bins@.len(),
            cells == magnitude.grid(),
            high == peak_row(cells, bins@, count as nat, frames as nat),
            deep == valley_row(cells, bins@, count as nat, frames as nat),
            peak@ == high.take(f as int),
            valley@ == deep.take(f as int),
        decreases frames - f,
    {
        if bins.len() == 0 {
            peak.push(zero());
            valley.push(zero());
        } else {
            let ghost want = frame_values(cells, bins@, f as int);
            let mut values: Vec<Binary64> = Vec::new();
            let mut i: usize = 0;
            while i < bins.len()
                invariant
                    i <= bins@.len(),
                    f < frames == magnitude.width(),
                    magnitude.wf(),
                    forall|j: int| 0 <= j < bins@.len() ==> (#[trigger] bins@[j]) < magnitude.height(),
                    cells == magnitude.grid(),
                    want == frame_values(cells, bins@, f as int),
                    values@ == want.take(i as int),
                decreases bins@.len() - i,
            {
                values.push(magnitude.get(bins[i], f));
                i = i + 1;
                assert(values@ =~= want.take(i as int));
            }
            assert(values@ =~= want);
            let ordered: Vec<Binary64> = sort_total(values.as_slice());
            let n: usize = ordered.len();
            let share: Binary64 = Binary64::from_u64(count as u64);
            let low: &[Binary64] = slice_subrange(ordered.as_slice(), 0, count);
            let top: &[Binary64] = slice_subrange(ordered.as_slice(), n - count, n);
            assert(low@ =~= ordered@.take(count as int));
            valley.push(total_of(low).over(share));
            peak.push(total_of(top).over(share));
        }
        f = f + 1;
        assert(peak@ =~= high.take(f as int));
        assert(valley@ =~= deep.take(f as int));
    }
    assert(peak@ =~= high);
    assert(valley@ =~= deep);
    (peak, valley)
}

/// The bins of a band are those with a frequency inside it, in order and once.
pub proof fn law_bands_hold_their_bins(freqs: Seq<Binary64>, low: Binary64, high: Binary64, n: nat, bin: usize)
    requires
        n <= freqs.len(),
        n <= usize::MAX,
    ensures
        bins_within(freqs, low, high, n).contains(bin) <==> bin < n && low.spec_le(freqs[bin as int]) && freqs[bin as int].spec_le(
            high,
        ),
        forall|i: int, j: int|
            0 <= i < j < bins_within(freqs, low, high, n).len() ==> #[trigger] bins_within(freqs, low, high, n)[i]
                < #[trigger] bins_within(freqs, low, high, n)[j],
    decreases n,
{
    if n > 0 {
        law_bands_hold_their_bins(freqs, low, high, (n - 1) as nat, bin);
        let before = bins_within(freqs, low, high, (n - 1) as nat);
        let now = bins_within(freqs, low, high, n);
        if low.spec_le(freqs[n - 1]) && freqs[n - 1].spec_le(high) {
            if before.contains(bin) {
                let i = choose|i: int| 0 <= i < before.len() && before[i] == bin;
                assert(now[i] == bin);
            }
            if bin == n - 1 {
                assert(now[before.len() as int] == bin);
            }
            if now.contains(bin) {
                let i = choose|i: int| 0 <= i < now.len() && now[i] == bin;
                if i < before.len() {
                    assert(before[i] == bin);
                }
            }
            assert forall|i: int, j: int| 0 <= i < j < now.len() implies #[trigger] now[i] < #[trigger] now[j] by {
                if j == before.len() {
                    law_bands_hold_their_bins(freqs, low, high, (n - 1) as nat, before[i]);
                    assert(before.contains(before[i]));
                }
            }
        }
    }
}

} // verus!
