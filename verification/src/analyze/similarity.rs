//! Self-similarity: how alike the positions of a track are, as a matrix and as
//! a curve over the distance between them.

use crate::analyze::features::{dot, BeatMatrix};
use crate::number::lists::{rows_of, total, total_of};
use crate::number::binary64::{difference, half, larger, negated, of_int, one, product, quotient, smaller, zero, Binary64};
use crate::number::integral::{ceiled, truncated};
use crate::number::laws::law_division_keeps_the_order;
use vstd::prelude::*;

verus! {

/// A self-similarity matrix: every column compared with every other.
#[derive(Debug, Clone)]
pub struct Ssm {
    pub rows: Vec<Vec<Binary64>>,
}

/// Whether a matrix has as many columns as rows.
pub open spec fn square(cells: Seq<Seq<Binary64>>) -> bool {
    forall|r: int| 0 <= r < cells.len() ==> (#[trigger] cells[r]).len() == cells.len()
}

/// The similarity of every pair of columns.
pub open spec fn similarities(features: Seq<Seq<Binary64>>) -> Seq<Seq<Binary64>> {
    Seq::new(
        features.len(),
        |r: int|
            Seq::new(
                features.len(),
                |c: int|
                    if r <= c {
                        dot(features[r], features[c])
                    } else {
                        dot(features[c], features[r])
                    },
            ),
    )
}

/// The place that lies `offset - radius` behind `at`, held inside `0..size`.
pub open spec fn held(at: int, offset: int, radius: int, size: int) -> int {
    let to = at + offset - radius;
    if to < 0 {
        0
    } else if to < size {
        to
    } else {
        size - 1
    }
}

/// The weighted values about place `at` of a row.
pub open spec fn weighted(row: Seq<Binary64>, kernel: Seq<Binary64>, at: int) -> Seq<Binary64> {
    Seq::new(
        kernel.len(),
        |o: int| product(row[held(at, o, kernel.len() as int / 2, row.len() as int)], kernel[o]),
    )
}

/// A row smoothed with a kernel, the edge values held beyond the ends.
pub open spec fn smoothed_row(row: Seq<Binary64>, kernel: Seq<Binary64>) -> Seq<Binary64> {
    Seq::new(row.len(), |at: int| total(weighted(row, kernel, at)))
}

/// Every row smoothed with a kernel.
pub open spec fn smoothed(cells: Seq<Seq<Binary64>>, kernel: Seq<Binary64>) -> Seq<Seq<Binary64>> {
    cells.map_values(|row: Seq<Binary64>| smoothed_row(row, kernel))
}

/// A square matrix with rows and columns exchanged.
pub open spec fn transposed(cells: Seq<Seq<Binary64>>) -> Seq<Seq<Binary64>> {
    Seq::new(cells.len(), |r: int| Seq::new(cells.len(), |c: int| cells[c][r]))
}

/// A matrix without the band about its main diagonal.
pub open spec fn without_diagonal(cells: Seq<Seq<Binary64>>, band: int) -> Seq<Seq<Binary64>> {
    Seq::new(
        cells.len(),
        |r: int|
            Seq::new(
                cells.len(),
                |c: int|
                    if r - band <= c <= r + band {
                        zero()
                    } else {
                        cells[r][c]
                    },
            ),
    )
}

/// The smoothed similarities without the main diagonal.
pub open spec fn compared(features: Seq<Seq<Binary64>>, kernel: Seq<Binary64>, band: int) -> Seq<Seq<Binary64>> {
    let raw = similarities(features);
    let even = if kernel.len() == 0 {
        raw
    } else {
        transposed(smoothed(transposed(smoothed(raw, kernel)), kernel))
    };
    without_diagonal(even, band)
}

/// The cells `lag` places off the main diagonal.
pub open spec fn diagonal(cells: Seq<Seq<Binary64>>, lag: int) -> Seq<Binary64> {
    Seq::new((cells.len() - lag) as nat, |i: int| cells[i + lag][i])
}

/// The mean of a diagonal; zero outside the matrix.
pub open spec fn diagonal_average(cells: Seq<Seq<Binary64>>, lag: int) -> Binary64 {
    if lag >= cells.len() {
        zero()
    } else {
        quotient(total(diagonal(cells, lag)), of_int(cells.len() - lag))
    }
}

impl Ssm {
    /// The contents of the matrix.
    pub open spec fn cells(&self) -> Seq<Seq<Binary64>> {
        rows_of(self.rows@)
    }

    /// The number of rows, and of columns.
    pub fn size(&self) -> (r: usize)
        ensures
            r == self.cells().len(),
    {
        self.rows.len()
    }

    /// How alike two columns are.
    pub fn get(&self, row: usize, column: usize) -> (r: Binary64)
        requires
            square(self.cells()),
            row < self.cells().len(),
            column < self.cells().len(),
        ensures
            r == self.cells()[row as int][column as int],
    {
        assert(self.cells()[row as int].len() == self.cells().len());
        self.rows[row][column]
    }

    /// Mean of the `lag`-th diagonal: how alike positions that far apart are.
    pub fn diagonal_mean(&self, lag: usize) -> (r: Binary64)
        requires
            square(self.cells()),
        ensures
            r == diagonal_average(self.cells(), lag as int),
    {
        let size: usize = self.rows.len();
        if lag >= size {
            return zero();
        }
        let count: usize = size - lag;
        let ghost all = diagonal(self.cells(), lag as int);
        let mut out: Binary64 = zero();
        let mut i: usize = 0;
        while i < count
            invariant
                i <= count,
                count + lag == size,
                size == self.rows@.len(),
                square(self.cells()),
                all == diagonal(self.cells(), lag as int),
                out == total(all.take(i as int)),
            decreases count - i,
        {
            out = out.plus(self.get(i + lag, i));
            assert(all.take(i + 1).drop_last() == all.take(i as int));
            i = i + 1;
        }
        assert(all.take(i as int) == all);
        out.over(Binary64::from_u64(count as u64))
    }
}

/// The similarity of every pair of columns.
fn compare_all(matrix: &BeatMatrix) -> (r: Vec<Vec<Binary64>>)
    ensures
        rows_of(r@) == similarities(matrix.features()),
{
    let ghost want = similarities(matrix.features());
    let size: usize = matrix.len();
    let mut out: Vec<Vec<Binary64>> = Vec::new();
    let mut r: usize = 0;
    assert(rows_of(out@) =~= want.take(0));
    while r < size
        invariant
            r <= size == matrix.columns@.len(),
            want == similarities(matrix.features()),
            out@.len() == r,
            rows_of(out@) == want.take(r as int),
        decreases size - r,
    {
        let mut row: Vec<Binary64> = Vec::new();
        let mut c: usize = 0;
        while c < size
            invariant
                c <= size == matrix.columns@.len(),
                r < size,
                want == similarities(matrix.features()),
                out@.len() == r,
                rows_of(out@) == want.take(r as int),
                row@ == want[r as int].take(c as int),
            decreases size - c,
        {
            if r <= c {
                row.push(matrix.similarity(r, c));
            } else {
                // The matrix is symmetric, so the lower half repeats the upper.
                assert(rows_of(out@)[c as int] == want[c as int]);
                assert(out@[c as int]@ == want[c as int]);
                row.push(out[c][r]);
            }
            c = c + 1;
            assert(row@ =~= want[r as int].take(c as int));
        }
        assert(row@ =~= want[r as int]);
        let ghost before = out@;
        out.push(row);
        assert(rows_of(out@) =~= rows_of(before).push(row@));
        r = r + 1;
        assert(rows_of(out@) =~= want.take(r as int));
    }
    assert(rows_of(out@) =~= want);
    out
}

/// A row smoothed with a kernel, the edge values held beyond the ends.
fn smooth_row(row: &[Binary64], kernel: &[Binary64]) -> (r: Vec<Binary64>)
    requires
        row@.len() + kernel@.len() <= usize::MAX,
    ensures
        r@ == smoothed_row(row@, kernel@),
{
    let ghost want = smoothed_row(row@, kernel@);
    let size: usize = row.len();
    let radius: usize = kernel.len() / 2;
    let mut out: Vec<Binary64> = Vec::new();
    let mut at: usize = 0;
    while at < size
        invariant
            at <= size == row@.len(),
            row@.len() + kernel@.len() <= usize::MAX,
            radius == kernel@.len() / 2,
            want == smoothed_row(row@, kernel@),
            out@ == want.take(at as int),
        decreases size - at,
    {
        let ghost all = weighted(row@, kernel@, at as int);
        let mut value: Binary64 = zero();
        let mut o: usize = 0;
        while o < kernel.len()
            invariant
                o <= kernel@.len(),
                at < size == row@.len(),
                row@.len() + kernel@.len() <= usize::MAX,
                radius == kernel@.len() / 2,
                all == weighted(row@, kernel@, at as int),
                value == total(all.take(o as int)),
            decreases kernel@.len() - o,
        {
            let to: usize = if at + o < radius {
                0
            } else if at + o - radius < size {
                at + o - radius
            } else {
                size - 1
            };
            assert(to == held(at as int, o as int, radius as int, size as int));
            value = value.plus(row[to].times(kernel[o]));
            assert(all.take(o + 1).drop_last() == all.take(o as int));
            o = o + 1;
        }
        assert(all.take(o as int) == all);
        out.push(value);
        at = at + 1;
        assert(out@ =~= want.take(at as int));
    }
    assert(out@ =~= want);
    out
}

/// Convolves each row with `kernel`, holding the edge value beyond the ends.
pub fn smooth_rows(rows: &Vec<Vec<Binary64>>, kernel: &[Binary64]) -> (r: Vec<Vec<Binary64>>)
    requires
        forall|i: int| 0 <= i < rows@.len() ==> (#[trigger] rows@[i])@.len() + kernel@.len() <= usize::MAX,
    ensures
        rows_of(r@) == smoothed(rows_of(rows@), kernel@),
{
    let ghost want = smoothed(rows_of(rows@), kernel@);
    let mut out: Vec<Vec<Binary64>> = Vec::new();
    let mut i: usize = 0;
    assert(rows_of(out@) =~= want.take(0));
    while i < rows.len()
        invariant
            i <= rows@.len(),
            forall|k: int| 0 <= k < rows@.len() ==> (#[trigger] rows@[k])@.len() + kernel@.len() <= usize::MAX,
            want == smoothed(rows_of(rows@), kernel@),
            rows_of(out@) == want.take(i as int),
        decreases rows@.len() - i,
    {
        assert(rows@[i as int]@.len() + kernel@.len() <= usize::MAX);
        let row: Vec<Binary64> = smooth_row(rows[i].as_slice(), kernel);
        let ghost before = out@;
        out.push(row);
        assert(rows_of(out@) =~= rows_of(before).push(row@));
        i = i + 1;
        assert(rows_of(out@) =~= want.take(i as int));
    }
    assert(rows_of(out@) =~= want);
    out
}

/// A square matrix with rows and columns exchanged.
pub fn transpose(rows: &Vec<Vec<Binary64>>) -> (r: Vec<Vec<Binary64>>)
    requires
        square(rows_of(rows@)),
    ensures
        rows_of(r@) == transposed(rows_of(rows@)),
{
    let ghost cells = rows_of(rows@);
    let ghost want = transposed(cells);
    let size: usize = rows.len();
    let mut out: Vec<Vec<Binary64>> = Vec::new();
    let mut r: usize = 0;
    assert(rows_of(out@) =~= want.take(0));
    while r < size
        invariant
            r <= size == rows@.len(),
            cells == rows_of(rows@),
            square(cells),
            want == transposed(cells),
            rows_of(out@) == want.take(r as int),
        decreases size - r,
    {
        let mut row: Vec<Binary64> = Vec::new();
        let mut c: usize = 0;
        while c < size
            invariant
                c <= size == rows@.len(),
                r < size,
                cells == rows_of(rows@),
                square(cells),
                want == transposed(cells),
                row@ == want[r as int].take(c as int),
            decreases size - c,
        {
            assert(cells[c as int].len() == cells.len());
            row.push(rows[c][r]);
            c = c + 1;
            assert(row@ =~= want[r as int].take(c as int));
        }
        assert(row@ =~= want[r as int]);
        let ghost before = out@;
        out.push(row);
        assert(rows_of(out@) =~= rows_of(before).push(row@));
        r = r + 1;
        assert(rows_of(out@) =~= want.take(r as int));
    }
    assert(rows_of(out@) =~= want);
    out
}

/// A matrix without the band about its main diagonal.
fn drop_diagonal(rows: &Vec<Vec<Binary64>>, band: usize) -> (r: Vec<Vec<Binary64>>)
    requires
        square(rows_of(rows@)),
    ensures
        rows_of(r@) == without_diagonal(rows_of(rows@), band as int),
{
    let ghost cells = rows_of(rows@);
    let ghost want = without_diagonal(cells, band as int);
    let size: usize = rows.len();
    let mut out: Vec<Vec<Binary64>> = Vec::new();
    let mut r: usize = 0;
    assert(rows_of(out@) =~= want.take(0));
    while r < size
        invariant
            r <= size == rows@.len(),
            cells == rows_of(rows@),
            square(cells),
            want == without_diagonal(cells, band as int),
            rows_of(out@) == want.take(r as int),
        decreases size - r,
    {
        let mut row: Vec<Binary64> = Vec::new();
        let mut c: usize = 0;
        assert(cells[r as int].len() == cells.len());
        while c < size
            invariant
                c <= size == rows@.len(),
                r < size,
                cells == rows_of(rows@),
                cells[r as int].len() == cells.len(),
                want == without_diagonal(cells, band as int),
                row@ == want[r as int].take(c as int),
            decreases size - c,
        {
            let apart: usize = if r < c {
                c - r
            } else {
                r - c
            };
            if apart <= band {
                row.push(zero());
            } else {
                row.push(rows[r][c]);
            }
            c = c + 1;
            assert(row@ =~= want[r as int].take(c as int));
        }
        assert(row@ =~= want[r as int]);
        let ghost before = out@;
        out.push(row);
        assert(rows_of(out@) =~= rows_of(before).push(row@));
        r = r + 1;
        assert(rows_of(out@) =~= want.take(r as int));
    }
    assert(rows_of(out@) =~= want);
    out
}

/// Cosine similarity between every pair of columns, smoothed with `kernel`,
/// with the main diagonal band removed. No smoothing with an empty kernel.
///
/// Smoothing along both axes widens the diagonal stripes a repeat makes, so a
/// repeat that drifts by a beat still reads as one ridge. A passage is trivially
/// similar to itself and to its neighbours, which would drown every real repeat.
pub fn self_similarity(matrix: &BeatMatrix, kernel: &[Binary64], diag_band: usize) -> (r: Ssm)
    requires
        matrix.columns@.len() + kernel@.len() <= usize::MAX,
    ensures
        r.cells() == compared(matrix.features(), kernel@, diag_band as int),
        square(r.cells()),
        r.cells().len() == matrix.columns@.len(),
{
    let raw: Vec<Vec<Binary64>> = compare_all(matrix);
    assert(square(rows_of(raw@)));
    let even: Vec<Vec<Binary64>> = if kernel.len() == 0 {
        raw
    } else {
        assert forall|i: int| 0 <= i < raw@.len() implies (#[trigger] raw@[i])@.len() == raw@.len() by {
            assert(rows_of(raw@)[i].len() == raw@.len());
        }
        assert(rows_of(raw@).len() == raw@.len());
        assert(raw@.len() == matrix.columns@.len());
        let first: Vec<Vec<Binary64>> = smooth_rows(&raw, kernel);
        assert(square(rows_of(first@)));
        let turned: Vec<Vec<Binary64>> = transpose(&first);
        assert forall|i: int| 0 <= i < turned@.len() implies (#[trigger] turned@[i])@.len() == turned@.len() by {
            let cells = rows_of(turned@);
            assert(cells.len() == turned@.len());
            assert(cells[i] == transposed(rows_of(first@))[i]);
            assert(cells[i].len() == rows_of(first@).len());
        }
        assert(rows_of(turned@).len() == rows_of(first@).len());
        assert(turned@.len() == matrix.columns@.len());
        let second: Vec<Vec<Binary64>> = smooth_rows(&turned, kernel);
        assert(square(rows_of(second@)));
        transpose(&second)
    };
    Ssm { rows: drop_diagonal(&even, diag_band) }
}

/// The reach of the smoothing kernel: three standard deviations.
pub open spec fn reach(sigma: Binary64) -> nat {
    truncated(larger(ceiled(product(of_int(3), sigma)), one()), usize::MAX as nat)
}

/// The exponents of the Gaussian weights out to three standard deviations.
pub open spec fn gaussian_exponents(sigma: Binary64) -> Seq<Binary64> {
    Seq::new(
        2 * reach(sigma) + 1,
        |i: int|
            {
                let x = difference(of_int(i), of_int(reach(sigma) as int));
                quotient(product(product(negated(half()), x), x), product(sigma, sigma))
            },
    )
}

/// The exponents of the Gaussian weights out to three standard deviations.
pub fn kernel_exponents(sigma: Binary64) -> (r: Vec<Binary64>)
    requires
        2 * reach(sigma) + 1 <= usize::MAX,
    ensures
        r@ == gaussian_exponents(sigma),
{
    let radius: usize = Binary64::from_u64(3).times(sigma).ceil().max(one()).truncate(usize::MAX as u64) as usize;
    let ghost want = gaussian_exponents(sigma);
    let mut out: Vec<Binary64> = Vec::new();
    let mut i: usize = 0;
    while i < 2 * radius + 1
        invariant
            i <= 2 * radius + 1 <= usize::MAX,
            radius == reach(sigma),
            want == gaussian_exponents(sigma),
            out@ == want.take(i as int),
        decreases 2 * radius + 1 - i,
    {
        let x: Binary64 = Binary64::from_u64(i as u64).minus(Binary64::from_u64(radius as u64));
        out.push(half().negate().times(x).times(x).over(sigma.times(sigma)));
        i = i + 1;
        assert(out@ =~= want.take(i as int));
    }
    assert(out@ =~= want);
    out
}

/// The exponents of the weights that a spread asks for; none without one.
pub fn smoothing_exponents(sigma: Binary64) -> (r: Vec<Binary64>)
    requires
        zero().spec_lt(sigma) ==> 2 * reach(sigma) + 1 <= usize::MAX,
    ensures
        r@ == if zero().spec_lt(sigma) {
            gaussian_exponents(sigma)
        } else {
            seq![]
        },
{
    if zero().lt(sigma) {
        kernel_exponents(sigma)
    } else {
        Vec::new()
    }
}

/// Values as shares of their sum.
pub open spec fn shares(values: Seq<Binary64>) -> Seq<Binary64> {
    values.map_values(|v: Binary64| quotient(v, total(values)))
}

/// Values as shares of their sum.
pub fn normalized(values: &[Binary64]) -> (r: Vec<Binary64>)
    ensures
        r@ == shares(values@),
{
    let whole: Binary64 = total_of(values);
    let ghost want = shares(values@);
    let mut out: Vec<Binary64> = Vec::new();
    let mut i: usize = 0;
    while i < values.len()
        invariant
            i <= values@.len(),
            whole == total(values@),
            want == shares(values@),
            out@ == want.take(i as int),
        decreases values@.len() - i,
    {
        out.push(values[i].over(whole));
        i = i + 1;
        assert(out@ =~= want.take(i as int));
    }
    assert(out@ =~= want);
    out
}

/// The largest of zero and some values.
pub open spec fn highest_above_zero(values: Seq<Binary64>) -> Binary64
    decreases values.len(),
{
    if values.len() == 0 {
        zero()
    } else {
        larger(highest_above_zero(values.drop_last()), values.last())
    }
}

/// The width of the trend that is taken off a profile of `size` lags.
pub open spec fn trend_width(size: nat) -> nat {
    let w: nat = size / 50 * 2 + 1;
    if w < 5 {
        5
    } else {
        w
    }
}

/// The values about place `at` that make its trend.
pub open spec fn around(values: Seq<Binary64>, at: int) -> Seq<Binary64> {
    let width = trend_width(values.len());
    Seq::new(width, |o: int| values[held(at, o, width as int / 2, values.len() as int)])
}

/// The mean of each diagonal.
pub open spec fn lag_means(cells: Seq<Seq<Binary64>>) -> Seq<Binary64> {
    Seq::new(cells.len(), |lag: int| diagonal_average(cells, lag))
}

/// What stands above the slow trend.
pub open spec fn above_trend(values: Seq<Binary64>) -> Seq<Binary64> {
    Seq::new(
        values.len(),
        |at: int|
            larger(
                difference(values[at], quotient(total(around(values, at)), of_int(trend_width(values.len()) as int))),
                zero(),
            ),
    )
}

/// Values scaled so the largest reads one; as they are where none is above zero.
pub open spec fn scaled_to_one(values: Seq<Binary64>) -> Seq<Binary64> {
    let peak = highest_above_zero(values);
    if zero().spec_lt(peak) {
        values.map_values(|v: Binary64| quotient(v, peak))
    } else {
        values
    }
}

/// Similarity against repeat distance.
pub open spec fn profile_of(cells: Seq<Seq<Binary64>>) -> Seq<Binary64> {
    scaled_to_one(above_trend(lag_means(cells)))
}

/// What stands above the slow trend.
fn take_off_trend(values: &Vec<Binary64>) -> (r: Vec<Binary64>)
    requires
        2 * values@.len() + 5 <= usize::MAX,
    ensures
        r@ == above_trend(values@),
{
    let size: usize = values.len();
    let wide: usize = size / 50 * 2 + 1;
    let window: usize = if wide < 5 {
        5
    } else {
        wide
    };
    let radius: usize = window / 2;
    let ghost want = above_trend(values@);
    let mut out: Vec<Binary64> = Vec::new();
    let mut at: usize = 0;
    while at < size
        invariant
            at <= size == values@.len(),
            2 * size + 5 <= usize::MAX,
            window == trend_width(size as nat),
            radius == window / 2,
            want == above_trend(values@),
            out@ == want.take(at as int),
        decreases size - at,
    {
        let ghost all = around(values@, at as int);
        let mut sum_about: Binary64 = zero();
        let mut o: usize = 0;
        while o < window
            invariant
                o <= window,
                at < size == values@.len(),
                2 * size + 5 <= usize::MAX,
                window == trend_width(size as nat),
                radius == window / 2,
                all == around(values@, at as int),
                sum_about == total(all.take(o as int)),
            decreases window - o,
        {
            let to: usize = if at + o < radius {
                0
            } else if at + o - radius < size {
                at + o - radius
            } else {
                size - 1
            };
            assert(to == held(at as int, o as int, radius as int, size as int));
            sum_about = sum_about.plus(values[to]);
            assert(all.take(o + 1).drop_last() == all.take(o as int));
            o = o + 1;
        }
        assert(all.take(o as int) == all);
        let trend: Binary64 = sum_about.over(Binary64::from_u64(window as u64));
        out.push(values[at].minus(trend).max(zero()));
        at = at + 1;
        assert(out@ =~= want.take(at as int));
    }
    assert(out@ =~= want);
    out
}

/// Similarity against repeat distance, with its slow trend removed and scaled
/// so the strongest lag reads 1.
///
/// Nearby positions in a track are alike for reasons that have nothing to do
/// with repetition, and that baseline falls off smoothly with distance. What is
/// left after subtracting it is the part that only a repeat explains.
pub fn lag_profile(ssm: &Ssm) -> (r: Vec<Binary64>)
    requires
        square(ssm.cells()),
        2 * ssm.cells().len() + 5 <= usize::MAX,
    ensures
        r@ == profile_of(ssm.cells()),
{
    let size: usize = ssm.size();
    let ghost means = lag_means(ssm.cells());
    let mut raw: Vec<Binary64> = Vec::new();
    let mut lag: usize = 0;
    while lag < size
        invariant
            lag <= size == ssm.cells().len(),
            square(ssm.cells()),
            means == lag_means(ssm.cells()),
            raw@ == means.take(lag as int),
        decreases size - lag,
    {
        raw.push(ssm.diagonal_mean(lag));
        lag = lag + 1;
        assert(raw@ =~= means.take(lag as int));
    }
    assert(raw@ =~= means);
    let residual: Vec<Binary64> = take_off_trend(&raw);
    let mut peak: Binary64 = zero();
    let mut i: usize = 0;
    while i < residual.len()
        invariant
            i <= residual@.len(),
            peak == highest_above_zero(residual@.take(i as int)),
        decreases residual@.len() - i,
    {
        peak = peak.max(residual[i]);
        assert(residual@.take(i + 1).drop_last() == residual@.take(i as int));
        i = i + 1;
    }
    assert(residual@.take(i as int) == residual@);
    if !zero().lt(peak) {
        return residual;
    }
    let ghost want = profile_of(ssm.cells());
    let mut out: Vec<Binary64> = Vec::new();
    let mut k: usize = 0;
    while k < residual.len()
        invariant
            k <= residual@.len(),
            want == residual@.map_values(|v: Binary64| quotient(v, peak)),
            out@ == want.take(k as int),
        decreases residual@.len() - k,
    {
        out.push(residual[k].over(peak));
        k = k + 1;
        assert(out@ =~= want.take(k as int));
    }
    assert(out@ =~= want);
    out
}

/// The lowest value on the way left from place `i`, as far as none is above
/// `height`.
pub open spec fn left_valley(profile: Seq<Binary64>, height: Binary64, i: int, low: Binary64) -> Binary64
    decreases i,
{
    if i <= 0 || height.spec_lt(profile[i - 1]) {
        low
    } else {
        left_valley(profile, height, i - 1, smaller(low, profile[i - 1]))
    }
}

/// The lowest value on the way right from place `i`, as far as none is above
/// `height`.
pub open spec fn right_valley(profile: Seq<Binary64>, height: Binary64, i: int, low: Binary64) -> Binary64
    decreases profile.len() - i,
{
    if i >= profile.len() || height.spec_lt(profile[i]) {
        low
    } else {
        right_valley(profile, height, i + 1, smaller(low, profile[i]))
    }
}

/// The height of a peak above the higher of the two valleys that flank it.
pub open spec fn prominence_at(profile: Seq<Binary64>, peak: int) -> Binary64 {
    let height = profile[peak];
    difference(
        height,
        larger(left_valley(profile, height, peak, height), right_valley(profile, height, peak + 1, height)),
    )
}

/// Height of `peak` above the higher of the two valleys that flank it.
pub fn prominence(profile: &[Binary64], peak: usize) -> (r: Binary64)
    requires
        peak < profile@.len(),
    ensures
        r == prominence_at(profile@, peak as int),
{
    let height: Binary64 = profile[peak];
    let mut left: Binary64 = height;
    let mut i: usize = peak;
    while i > 0 && !height.lt(profile[i - 1])
        invariant
            i <= peak < profile@.len(),
            left_valley(profile@, height, peak as int, height) == left_valley(profile@, height, i as int, left),
        decreases i,
    {
        left = left.min(profile[i - 1]);
        i = i - 1;
    }
    let mut right: Binary64 = height;
    let mut k: usize = peak + 1;
    while k < profile.len() && !height.lt(profile[k])
        invariant
            k <= profile@.len(),
            right_valley(profile@, height, peak + 1, height) == right_valley(profile@, height, k as int, right),
        decreases profile@.len() - k,
    {
        right = right.min(profile[k]);
        k = k + 1;
    }
    height.minus(left.max(right))
}

/// Similarity is symmetric.
pub proof fn law_similarity_is_symmetric(features: Seq<Seq<Binary64>>, a: int, b: int)
    requires
        0 <= a < features.len(),
        0 <= b < features.len(),
    ensures
        similarities(features)[a][b] == similarities(features)[b][a],
{
}

/// Columns near each other are not compared, and without smoothing any other two
/// are as similar as their features.
pub proof fn law_only_columns_apart_are_compared(
    features: Seq<Seq<Binary64>>,
    kernel: Seq<Binary64>,
    band: int,
    a: int,
    b: int,
)
    requires
        0 <= band,
        0 <= a < features.len(),
        0 <= b < features.len(),
    ensures
        -band <= b - a <= band ==> compared(features, kernel, band)[a][b] == zero(),
        a < b - band && kernel.len() == 0 ==> compared(features, kernel, band)[a][b] == dot(features[a], features[b]),
        b < a - band && kernel.len() == 0 ==> compared(features, kernel, band)[a][b] == dot(
            features[b],
            features[a],
        ),
{
}

/// Turning a square over twice gives it back.
pub proof fn law_transposing_twice_is_nothing(cells: Seq<Seq<Binary64>>)
    requires
        square(cells),
    ensures
        transposed(transposed(cells)) == cells,
{
    let twice = transposed(transposed(cells));
    assert forall|r: int| 0 <= r < cells.len() implies #[trigger] twice[r] == cells[r] by {
        assert(cells[r].len() == cells.len());
        assert forall|c: int| 0 <= c < cells.len() implies #[trigger] twice[r][c] == cells[r][c] by {
            assert(transposed(cells)[c][r] == cells[r][c]);
        }
        assert(twice[r] =~= cells[r]);
    }
    assert(twice =~= cells);
}

/// Smoothing hears only the cells within the reach of its kernel.
pub proof fn law_smoothing_is_local(a: Seq<Binary64>, b: Seq<Binary64>, kernel: Seq<Binary64>, at: int)
    requires
        a.len() == b.len(),
        0 <= at < a.len(),
        forall|i: int|
            0 <= i < a.len() && at - kernel.len() as int / 2 <= i < at - kernel.len() as int / 2 + kernel.len()
                ==> #[trigger] a[i] == b[i],
        a[0] == b[0] || at - kernel.len() as int / 2 >= 0,
        a.last() == b.last() || at - kernel.len() as int / 2 + kernel.len() <= a.len(),
    ensures
        smoothed_row(a, kernel)[at] == smoothed_row(b, kernel)[at],
{
    let x = weighted(a, kernel, at);
    let y = weighted(b, kernel, at);
    assert forall|o: int| 0 <= o < x.len() implies #[trigger] x[o] == y[o] by {
        let i = held(at, o, kernel.len() as int / 2, a.len() as int);
        assert(a[i] == b[i]);
    }
    assert(x =~= y);
}

/// The valleys beside a peak are as deep as the lowest point on the way to
/// anything higher.
pub proof fn law_valleys_are_lowest(profile: Seq<Binary64>, peak: int, j: int)
    requires
        0 <= peak < profile.len(),
        0 <= j < profile.len(),
        forall|k: int| 0 <= k < profile.len() ==> !(#[trigger] profile[k]).nan(),
    ensures
        j < peak && (forall|k: int| j <= k < peak ==> !profile[peak].spec_lt(#[trigger] profile[k])) ==> left_valley(
            profile,
            profile[peak],
            peak,
            profile[peak],
        ).spec_le(profile[j]),
        j > peak && (forall|k: int| peak < k <= j ==> !profile[peak].spec_lt(#[trigger] profile[k])) ==> right_valley(
            profile,
            profile[peak],
            peak + 1,
            profile[peak],
        ).spec_le(profile[j]),
{
    let height = profile[peak];
    if j < peak && (forall|k: int| j <= k < peak ==> !profile[peak].spec_lt(#[trigger] profile[k])) {
        lemma_left_valley(profile, height, peak, height, j);
    }
    if j > peak && (forall|k: int| peak < k <= j ==> !profile[peak].spec_lt(#[trigger] profile[k])) {
        lemma_right_valley(profile, height, peak + 1, height, j);
    }
}

proof fn lemma_left_valley(profile: Seq<Binary64>, height: Binary64, i: int, low: Binary64, j: int)
    requires
        0 <= i <= profile.len(),
        !low.nan(),
        forall|k: int| 0 <= k < profile.len() ==> !(#[trigger] profile[k]).nan(),
        j < i ==> 0 <= j && forall|k: int| j <= k < i ==> !height.spec_lt(#[trigger] profile[k]),
    ensures
        left_valley(profile, height, i, low).spec_le(low),
        !left_valley(profile, height, i, low).nan(),
        j < i ==> left_valley(profile, height, i, low).spec_le(profile[j]),
    decreases i,
{
    if i > 0 && !height.spec_lt(profile[i - 1]) {
        assert(!profile[i - 1].nan());
        let next = smaller(low, profile[i - 1]);
        lemma_left_valley(profile, height, i - 1, next, j);
    }
    if j < i {
        assert(!height.spec_lt(profile[i - 1]));
    }
}

proof fn lemma_right_valley(profile: Seq<Binary64>, height: Binary64, i: int, low: Binary64, j: int)
    requires
        0 <= i <= profile.len(),
        !low.nan(),
        forall|k: int| 0 <= k < profile.len() ==> !(#[trigger] profile[k]).nan(),
        i <= j ==> j < profile.len() && forall|k: int| i <= k <= j ==> !height.spec_lt(#[trigger] profile[k]),
    ensures
        right_valley(profile, height, i, low).spec_le(low),
        !right_valley(profile, height, i, low).nan(),
        i <= j ==> right_valley(profile, height, i, low).spec_le(profile[j]),
    decreases profile.len() - i,
{
    if i < profile.len() && !height.spec_lt(profile[i]) {
        assert(!profile[i].nan());
        let next = smaller(low, profile[i]);
        lemma_right_valley(profile, height, i + 1, next, j);
    }
    if i <= j {
        assert(!height.spec_lt(profile[i]));
    }
}

/// A lag that stands out more still does when the profile is scaled.
pub proof fn law_scaling_keeps_the_order_of_lags(values: Seq<Binary64>, a: int, b: int)
    requires
        0 <= a < values.len(),
        0 <= b < values.len(),
        forall|k: int| 0 <= k < values.len() ==> (#[trigger] values[k]).finite(),
        values[a].spec_le(values[b]),
    ensures
        scaled_to_one(values)[a].spec_le(scaled_to_one(values)[b]),
{
    lemma_highest_is_finite(values);
    let peak = highest_above_zero(values);
    if zero().spec_lt(peak) {
        law_division_keeps_the_order(values[a], values[b], peak);
    }
}

proof fn lemma_highest_is_finite(values: Seq<Binary64>)
    requires
        forall|k: int| 0 <= k < values.len() ==> (#[trigger] values[k]).finite(),
    ensures
        highest_above_zero(values).finite(),
        zero().spec_le(highest_above_zero(values)),
        forall|k: int| 0 <= k < values.len() ==> (#[trigger] values[k]).spec_le(highest_above_zero(values)),
    decreases values.len(),
{
    if values.len() > 0 {
        let front = values.drop_last();
        assert forall|k: int| 0 <= k < front.len() implies (#[trigger] front[k]).finite() by {
            assert(front[k] == values[k]);
        }
        lemma_highest_is_finite(front);
        assert(values[values.len() - 1].finite());
        assert forall|k: int| 0 <= k < values.len() implies (#[trigger] values[k]).spec_le(
            highest_above_zero(values),
        ) by {
            if k < front.len() {
                assert(front[k] == values[k]);
            }
        }
    }
}

} // verus!
