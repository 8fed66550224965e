//! Robust scaling of features, and the feature rows that the ensembles read.

use crate::detect::matrix::Mat;
use crate::number::binary64::{
    absolute, difference, nano, negated, of_int, one, product, quotient, sum, zero, Binary64,
};
use crate::number::lists::{
    average, deviation, even_rows, mean, median, middle, rows_of, slice_to_vec, squares_about, std_dev, total, total_of,
    total_squares_about, turn_rows, turned,
};
use crate::number::laws::{law_addition_keeps_the_order, law_division_keeps_the_order};
use crate::number::root::square_root;
use crate::order::{arranged, in_order, law_order_is_stable, stable_order, visits_each_once};
use vstd::prelude::*;

verus! {

/// What makes a median deviation comparable to a standard one: 1.4826.
#[verifier::allow_in_spec]
pub fn median_to_standard() -> Binary64
    returns
        (Binary64 { bits: 0x3FF7_B8BA_C710_CB29 }),
{
    Binary64 { bits: 0x3FF7_B8BA_C710_CB29 }
}

/// The spread from which values count as varied: 1e-8.
#[verifier::allow_in_spec]
pub fn least_spread() -> Binary64
    returns
        (Binary64 { bits: 0x3E45_798E_E230_8C3A }),
{
    Binary64 { bits: 0x3E45_798E_E230_8C3A }
}

/// The largest finite number.
#[verifier::allow_in_spec]
pub fn largest_finite() -> Binary64
    returns
        (Binary64 { bits: 0x7FEF_FFFF_FFFF_FFFF }),
{
    Binary64 { bits: 0x7FEF_FFFF_FFFF_FFFF }
}

/// The distances of values from a centre.
pub open spec fn distances(values: Seq<Binary64>, centre: Binary64) -> Seq<Binary64> {
    values.map_values(|v: Binary64| absolute(difference(v, centre)))
}

/// The median deviation of values, made comparable to a standard one.
pub open spec fn median_deviation(values: Seq<Binary64>) -> Binary64 {
    product(median_to_standard(), middle(distances(values, middle(values))))
}

/// What to scale values by: their median deviation, their standard deviation
/// where that is nothing, one where that is nothing too.
pub open spec fn robust_scale(values: Seq<Binary64>) -> Binary64 {
    if least_spread().spec_lt(median_deviation(values)) {
        median_deviation(values)
    } else if least_spread().spec_lt(deviation(values)) {
        deviation(values)
    } else {
        one()
    }
}

/// Values moved to median zero and scaled to unit spread.
pub open spec fn centred(values: Seq<Binary64>) -> Seq<Binary64> {
    values.map_values(|v: Binary64| quotient(difference(v, middle(values)), robust_scale(values)))
}

/// Each row moved to median zero and scaled to unit spread.
pub open spec fn centred_rows(rows: Seq<Seq<Binary64>>) -> Seq<Seq<Binary64>> {
    rows.map_values(|row: Seq<Binary64>| centred(row))
}

/// The distances of values from a centre.
fn distances_from(values: &[Binary64], centre: Binary64) -> (r: Vec<Binary64>)
    ensures
        r@ == distances(values@, centre),
{
    let ghost want = distances(values@, centre);
    let mut out: Vec<Binary64> = Vec::new();
    let mut i: usize = 0;
    while i < values.len()
        invariant
            i <= values@.len(),
            want == distances(values@, centre),
            out@ == want.take(i as int),
        decreases values@.len() - i,
    {
        out.push(values[i].minus(centre).abs());
        i = i + 1;
        assert(out@ =~= want.take(i as int));
    }
    assert(out@ =~= want);
    out
}

/// Values moved to a centre and scaled.
fn move_and_scale(values: &[Binary64], centre: Binary64, scale: Binary64) -> (r: Vec<Binary64>)
    ensures
        r@ == values@.map_values(|v: Binary64| quotient(difference(v, centre), scale)),
{
    let ghost want = values@.map_values(|v: Binary64| quotient(difference(v, centre), scale));
    let mut out: Vec<Binary64> = Vec::new();
    let mut i: usize = 0;
    while i < values.len()
        invariant
            i <= values@.len(),
            want == values@.map_values(|v: Binary64| quotient(difference(v, centre), scale)),
            out@ == want.take(i as int),
        decreases values@.len() - i,
    {
        out.push(values[i].minus(centre).over(scale));
        i = i + 1;
        assert(out@ =~= want.take(i as int));
    }
    assert(out@ =~= want);
    out
}

/// Values moved to median zero and scaled to unit spread.
pub fn centre_values(values: &[Binary64]) -> (r: Vec<Binary64>)
    ensures
        r@ == centred(values@),
{
    let centre: Binary64 = median(values);
    let spread: Binary64 = median_to_standard().times(median(distances_from(values, centre).as_slice()));
    let scale: Binary64 = if least_spread().lt(spread) {
        spread
    } else {
        let standard: Binary64 = std_dev(values);
        if least_spread().lt(standard) {
            standard
        } else {
            one()
        }
    };
    let out: Vec<Binary64> = move_and_scale(values, centre, scale);
    assert(out@ =~= centred(values@));
    out
}

/// Each row moved to median zero and scaled to unit spread.
pub fn centre_rows(rows: &Vec<Vec<Binary64>>) -> (r: Vec<Vec<Binary64>>)
    ensures
        rows_of(r@) == centred_rows(rows_of(rows@)),
        r@.len() == rows@.len(),
{
    let ghost want = centred_rows(rows_of(rows@));
    let mut out: Vec<Vec<Binary64>> = Vec::new();
    let mut i: usize = 0;
    assert(rows_of(out@) =~= want.take(0));
    while i < rows.len()
        invariant
            i <= rows@.len(),
            want == centred_rows(rows_of(rows@)),
            out@.len() == i,
            rows_of(out@) == want.take(i as int),
        decreases rows@.len() - i,
    {
        let row: Vec<Binary64> = centre_values(rows[i].as_slice());
        let ghost before = out@;
        out.push(row);
        assert(rows_of(out@) =~= rows_of(before).push(row@));
        i = i + 1;
        assert(rows_of(out@) =~= want.take(i as int));
    }
    assert(rows_of(out@) =~= want);
    out
}

/// Median-centres and scales each row, then turns the matrix to one row per
/// beat.
///
/// Standardising per feature rather than per beat is what lets one ensemble
/// work across tracks of wildly different loudness and instrumentation.
pub fn feature_z(stacked: &Mat) -> (r: Mat)
    requires
        stacked.wf(),
        stacked.height() * stacked.width() <= usize::MAX,
    ensures
        r.wf(),
        r.height() == stacked.width(),
        r.width() == stacked.height(),
        r.grid() == turned(centred_rows(stacked.grid()), stacked.width()),
{
    let rows: Vec<Vec<Binary64>> = stacked.to_rows();
    let scaled: Vec<Vec<Binary64>> = centre_rows(&rows);
    let height: usize = stacked.rows();
    let width: usize = stacked.cols();
    proof {
        assert forall|i: int| 0 <= i < rows_of(scaled@).len() implies (#[trigger] rows_of(scaled@)[i]).len() == width by {
            assert(rows_of(rows@)[i].len() == width);
        }
        assert(width * height == height * width) by (nonlinear_arith);
    }
    let across: Vec<Vec<Binary64>> = turn_rows(&scaled, width);
    proof {
        assert forall|i: int| 0 <= i < rows_of(across@).len() implies (#[trigger] rows_of(across@)[i]).len() == height by {
            assert(rows_of(across@)[i] == turned(rows_of(scaled@), width as nat)[i]);
        }
    }
    Mat::of_rows(across, height)
}

/// Each column of some rows moved to median zero and scaled to unit spread.
pub open spec fn centred_columns(rows: Seq<Seq<Binary64>>, cols: nat) -> Seq<Seq<Binary64>> {
    turned(centred_rows(turned(rows, cols)), rows.len())
}

/// Median-centres and scales each column.
pub fn standardize_columns(rows: &Vec<Vec<Binary64>>, cols: usize) -> (r: Vec<Vec<Binary64>>)
    requires
        even_rows(rows_of(rows@), cols as nat),
    ensures
        rows_of(r@) == centred_columns(rows_of(rows@), cols as nat),
        r@.len() == rows@.len(),
        even_rows(rows_of(r@), cols as nat),
{
    let across: Vec<Vec<Binary64>> = turn_rows(rows, cols);
    let scaled: Vec<Vec<Binary64>> = centre_rows(&across);
    let n: usize = rows.len();
    proof {
        assert forall|i: int| 0 <= i < rows_of(scaled@).len() implies (#[trigger] rows_of(scaled@)[i]).len() == n by {
            assert(rows_of(across@)[i] == turned(rows_of(rows@), cols as nat)[i]);
        }
    }
    let out: Vec<Vec<Binary64>> = turn_rows(&scaled, n);
    proof {
        assert(rows_of(rows@).len() == n);
        assert forall|i: int| 0 <= i < rows_of(out@).len() implies (#[trigger] rows_of(out@)[i]).len() == cols by {
            assert(rows_of(out@)[i] == turned(rows_of(scaled@), n as nat)[i]);
        }
    }
    out
}

/// Values moved to median zero and scaled by their median deviation, by their
/// standard deviation where that is nothing, left unscaled where that is too.
pub open spec fn robust(values: Seq<Binary64>) -> Seq<Binary64> {
    let first = median_deviation(values);
    let second = if first.spec_le(least_spread()) {
        deviation(values)
    } else {
        first
    };
    let scale = if second.spec_le(least_spread()) {
        one()
    } else {
        second
    };
    values.map_values(|v: Binary64| quotient(difference(v, middle(values)), scale))
}

/// Median-centred values scaled by their median deviation, falling back to the
/// standard deviation.
pub fn robust_z(values: &[Binary64]) -> (r: Vec<Binary64>)
    ensures
        r@ == robust(values@),
{
    let centre: Binary64 = median(values);
    let first: Binary64 = median_to_standard().times(median(distances_from(values, centre).as_slice()));
    let second: Binary64 = if first.le(least_spread()) {
        std_dev(values)
    } else {
        first
    };
    let scale: Binary64 = if second.le(least_spread()) {
        one()
    } else {
        second
    };
    move_and_scale(values, centre, scale)
}

/// A number that trees can read: nothing for a NaN, the largest finite number
/// for an infinity.
pub open spec fn readable(v: Binary64) -> Binary64 {
    if v.nan() {
        zero()
    } else if v.infinite() {
        if v.negative() {
            negated(largest_finite())
        } else {
            largest_finite()
        }
    } else {
        v
    }
}

/// A row of numbers that trees can read.
pub open spec fn readable_row(row: Seq<Binary64>) -> Seq<Binary64> {
    row.map_values(|v: Binary64| readable(v))
}

/// A row of numbers that trees can read: a constant column standardises to
/// nothing over nothing, and the trees must see a number there.
pub fn make_readable(row: &[Binary64]) -> (r: Vec<Binary64>)
    ensures
        r@ == readable_row(row@),
{
    let ghost want = readable_row(row@);
    let mut out: Vec<Binary64> = Vec::new();
    let mut i: usize = 0;
    while i < row.len()
        invariant
            i <= row@.len(),
            want == readable_row(row@),
            out@ == want.take(i as int),
        decreases row@.len() - i,
    {
        let v: Binary64 = row[i];
        let clean: Binary64 = if v.is_nan() {
            zero()
        } else if v.is_infinite() {
            if v.is_sign_negative() {
                largest_finite().negate()
            } else {
                largest_finite()
            }
        } else {
            v
        };
        out.push(clean);
        i = i + 1;
        assert(out@ =~= want.take(i as int));
    }
    assert(out@ =~= want);
    out
}

/// Every number that trees can read is finite.
pub proof fn law_readable_numbers_are_finite(v: Binary64)
    ensures
        readable(v).finite(),
{
}

/// The values of a column in rows `from..to`.
pub open spec fn block(rows: Seq<Seq<Binary64>>, c: int, from: int, to: int) -> Seq<Binary64> {
    Seq::new((to - from) as nat, |i: int| rows[from + i][c])
}

/// The mean of a block.
pub open spec fn block_mean(rows: Seq<Seq<Binary64>>, c: int, from: int, to: int) -> Binary64 {
    quotient(total(block(rows, c, from, to)), of_int(to - from))
}

/// The spread of a block about its mean.
pub open spec fn block_spread(rows: Seq<Seq<Binary64>>, c: int, from: int, to: int) -> Binary64 {
    square_root(
        quotient(total(squares_about(block(rows, c, from, to), block_mean(rows, c, from, to))), of_int(to - from)),
    )
}

/// The values of a column in rows `from..to`.
fn cut_block(rows: &Vec<Vec<Binary64>>, c: usize, from: usize, to: usize) -> (r: Vec<Binary64>)
    requires
        from <= to <= rows@.len(),
        forall|i: int| 0 <= i < rows@.len() ==> c < (#[trigger] rows@[i])@.len(),
    ensures
        r@ == block(rows_of(rows@), c as int, from as int, to as int),
{
    let ghost want = block(rows_of(rows@), c as int, from as int, to as int);
    let mut out: Vec<Binary64> = Vec::new();
    let mut i: usize = from;
    while i < to
        invariant
            from <= i <= to <= rows@.len(),
            forall|k: int| 0 <= k < rows@.len() ==> c < (#[trigger] rows@[k])@.len(),
            want == block(rows_of(rows@), c as int, from as int, to as int),
            out@ == want.take(i - from),
        decreases to - i,
    {
        out.push(rows[i][c]);
        i = i + 1;
        assert(out@ =~= want.take(i - from));
    }
    assert(out@ =~= want);
    out
}

/// The rows to the left of a beat that a window of `w` looks at.
pub open spec fn left_of(b: int, w: int) -> (int, int) {
    if b == 0 {
        (0, 1)
    } else if b < w {
        (0, b)
    } else {
        (b - w, b)
    }
}

/// The rows to the right of a beat that a window of `w` looks at.
pub open spec fn right_of(b: int, w: int, n: int) -> (int, int) {
    (
        b,
        if b + w < n {
            b + w
        } else {
            n
        },
    )
}

/// How the mean of each feature changes across a beat.
#[verifier::opaque]
pub open spec fn changes(rows: Seq<Seq<Binary64>>, d: nat, b: int, w: int) -> Seq<Binary64> {
    let left = left_of(b, w);
    let right = right_of(b, w, rows.len() as int);
    Seq::new(d, |c: int| difference(block_mean(rows, c, right.0, right.1), block_mean(rows, c, left.0, left.1)))
}

/// How the spread of each feature changes across a beat.
#[verifier::opaque]
pub open spec fn spread_changes(rows: Seq<Seq<Binary64>>, d: nat, b: int, w: int) -> Seq<Binary64> {
    let left = left_of(b, w);
    let right = right_of(b, w, rows.len() as int);
    Seq::new(d, |c: int| difference(block_spread(rows, c, right.0, right.1), block_spread(rows, c, left.0, left.1)))
}

/// Magnitudes.
pub open spec fn magnitudes(values: Seq<Binary64>) -> Seq<Binary64> {
    values.map_values(|v: Binary64| absolute(v))
}

/// The squares of changes in units of the spread of each feature.
pub open spec fn scaled_squares(change: Seq<Binary64>, spreads: Seq<Binary64>) -> Seq<Binary64> {
    Seq::new(
        change.len(),
        |c: int| product(quotient(change[c], spreads[c]), quotient(change[c], spreads[c])),
    )
}

/// The spread of each feature over the track, never quite nothing.
pub open spec fn global_spreads(rows: Seq<Seq<Binary64>>, d: nat) -> Seq<Binary64> {
    Seq::new(d, |c: int| sum(deviation(turned(rows, d)[c]), nano()))
}

/// The three summaries of a change: its mean size, its length, and the mean
/// change of spread.
#[verifier::opaque]
pub open spec fn summaries(rows: Seq<Seq<Binary64>>, d: nat, b: int, w: int) -> Seq<Binary64> {
    let change = changes(rows, d, b, w);
    seq![
        average(magnitudes(change)),
        quotient(
            square_root(total(scaled_squares(change, global_spreads(rows, d)))),
            square_root(of_int(d as int)),
        ),
        average(spread_changes(rows, d, b, w)),
    ]
}

/// The changes across a beat, plain and in size, for the first `n` windows.
pub open spec fn window_changes(rows: Seq<Seq<Binary64>>, d: nat, b: int, wins: Seq<usize>, n: nat) -> Seq<Binary64>
    decreases n,
{
    if n == 0 {
        seq![]
    } else {
        let change = changes(rows, d, b, wins[n - 1] as int);
        window_changes(rows, d, b, wins, (n - 1) as nat) + change + magnitudes(change)
    }
}

/// The summaries of the changes across a beat for the first `n` windows.
pub open spec fn window_summaries(rows: Seq<Seq<Binary64>>, d: nat, b: int, wins: Seq<usize>, n: nat) -> Seq<Binary64>
    decreases n,
{
    if n == 0 {
        seq![]
    } else {
        window_summaries(rows, d, b, wins, (n - 1) as nat) + summaries(rows, d, b, wins[n - 1] as int)
    }
}

/// The step from the beat before into a beat.
pub open spec fn step_into(rows: Seq<Seq<Binary64>>, d: nat, b: int) -> Seq<Binary64> {
    let before = if b == 0 {
        0
    } else {
        b - 1
    };
    Seq::new(d, |c: int| difference(rows[b][c], rows[before][c]))
}

/// What is known of a beat: its features, the step into it, the changes across
/// it in each window, their summaries, and its metrical context.
pub open spec fn beat_description(
    rows: Seq<Seq<Binary64>>,
    d: nat,
    b: int,
    wins: Seq<usize>,
    context: Seq<Binary64>,
) -> Seq<Binary64> {
    rows[b] + step_into(rows, d, b) + magnitudes(step_into(rows, d, b)) + window_changes(rows, d, b, wins, wins.len())
        + window_summaries(rows, d, b, wins, wins.len()) + context
}

/// Widths of at least one.
pub open spec fn at_least_one(windows: Seq<usize>) -> Seq<usize> {
    windows.map_values(
        |w: usize|
            if w < 1 {
                1usize
            } else {
                w
            },
    )
}

/// Sort keys that put widths in order.
pub open spec fn width_keys(widths: Seq<usize>) -> Seq<i128> {
    widths.map_values(|w: usize| w as i128)
}

/// The first `n` of a sorted list, repeats left out.
pub open spec fn without_repeats(sorted: Seq<usize>, n: nat) -> Seq<usize>
    decreases n,
{
    if n == 0 {
        seq![]
    } else {
        let before = without_repeats(sorted, (n - 1) as nat);
        if before.len() > 0 && before.last() == sorted[n - 1] {
            before
        } else {
            before.push(sorted[n - 1])
        }
    }
}

/// The different window widths, in order.
pub open spec fn window_widths(windows: Seq<usize>) -> Seq<usize> {
    let all = at_least_one(windows);
    without_repeats(arranged(all, in_order(width_keys(all))), all.len())
}

/// The different window widths, in order.
fn sort_widths(windows: &[usize]) -> (r: Vec<usize>)
    ensures
        r@ == window_widths(windows@),
        r@.len() <= windows@.len(),
        forall|i: int| 0 <= i < r@.len() ==> (#[trigger] r@[i]) >= 1,
{
    let mut all: Vec<usize> = Vec::new();
    let mut keys: Vec<i128> = Vec::new();
    let mut i: usize = 0;
    while i < windows.len()
        invariant
            i <= windows@.len(),
            all@ == at_least_one(windows@).take(i as int),
            keys@ == width_keys(all@),
            forall|k: int| 0 <= k < all@.len() ==> (#[trigger] all@[k]) >= 1,
        decreases windows@.len() - i,
    {
        let w: usize = if windows[i] < 1 {
            1
        } else {
            windows[i]
        };
        let ghost before = all@;
        all.push(w);
        keys.push(w as i128);
        assert(keys@ =~= width_keys(all@));
        i = i + 1;
        assert(all@ =~= at_least_one(windows@).take(i as int));
    }
    assert(all@ =~= at_least_one(windows@));
    let order: Vec<usize> = stable_order(&keys);
    let ghost sorted = arranged(all@, order@);
    let mut out: Vec<usize> = Vec::new();
    let mut k: usize = 0;
    while k < order.len()
        invariant
            k <= order@.len(),
            visits_each_once(order@, all@.len()),
            sorted == arranged(all@, order@),
            out@ == without_repeats(sorted, k as nat),
            out@.len() <= k,
            forall|j: int| 0 <= j < all@.len() ==> (#[trigger] all@[j]) >= 1,
            forall|j: int| 0 <= j < out@.len() ==> (#[trigger] out@[j]) >= 1,
        decreases order@.len() - k,
    {
        let w: usize = all[order[k]];
        let count: usize = out.len();
        let repeat: bool = count > 0 && out[count - 1] == w;
        if !repeat {
            out.push(w);
        }
        k = k + 1;
    }
    out
}

/// Magnitudes.
fn magnitudes_of(values: &[Binary64]) -> (r: Vec<Binary64>)
    ensures
        r@ == magnitudes(values@),
{
    let ghost want = magnitudes(values@);
    let mut out: Vec<Binary64> = Vec::new();
    let mut i: usize = 0;
    while i < values.len()
        invariant
            i <= values@.len(),
            want == magnitudes(values@),
            out@ == want.take(i as int),
        decreases values@.len() - i,
    {
        out.push(values[i].abs());
        i = i + 1;
        assert(out@ =~= want.take(i as int));
    }
    assert(out@ =~= want);
    out
}

/// The mean of a block and its spread about it.
fn block_stats(rows: &Vec<Vec<Binary64>>, c: usize, from: usize, to: usize) -> (r: (Binary64, Binary64))
    requires
        from <= to <= rows@.len(),
        forall|i: int| 0 <= i < rows@.len() ==> c < (#[trigger] rows@[i])@.len(),
    ensures
        r.0 == block_mean(rows_of(rows@), c as int, from as int, to as int),
        r.1 == block_spread(rows_of(rows@), c as int, from as int, to as int),
{
    let values: Vec<Binary64> = cut_block(rows, c, from, to);
    let count: Binary64 = Binary64::from_u64((to - from) as u64);
    let mean_value: Binary64 = total_of(values.as_slice()).over(count);
    let spread: Binary64 = total_squares_about(values.as_slice(), mean_value).over(count).sqrt();
    (mean_value, spread)
}

/// How the mean and the spread of each feature change across a beat.
fn changes_across(rows: &Vec<Vec<Binary64>>, d: usize, b: usize, w: usize) -> (r: (Vec<Binary64>, Vec<Binary64>))
    requires
        b < rows@.len(),
        w >= 1,
        forall|i: int| 0 <= i < rows@.len() ==> (#[trigger] rows@[i])@.len() == d,
    ensures
        r.0@ == changes(rows_of(rows@), d as nat, b as int, w as int),
        r.1@ == spread_changes(rows_of(rows@), d as nat, b as int, w as int),
{
    reveal(changes);
    reveal(spread_changes);
    let n: usize = rows.len();
    let left_from: usize = if b < w {
        0
    } else {
        b - w
    };
    let left_to: usize = if b == 0 {
        1
    } else {
        b
    };
    let right_to: usize = if w < n - b {
        b + w
    } else {
        n
    };
    let ghost cells = rows_of(rows@);
    let ghost first = changes(cells, d as nat, b as int, w as int);
    let ghost second = spread_changes(cells, d as nat, b as int, w as int);
    let mut change: Vec<Binary64> = Vec::new();
    let mut spread: Vec<Binary64> = Vec::new();
    let mut c: usize = 0;
    while c < d
        invariant
            c <= d,
            b < n == rows@.len(),
            w >= 1,
            left_of(b as int, w as int) == (left_from as int, left_to as int),
            right_of(b as int, w as int, n as int) == (b as int, right_to as int),
            left_from <= left_to <= n,
            b <= right_to <= n,
            forall|i: int| 0 <= i < rows@.len() ==> (#[trigger] rows@[i])@.len() == d,
            cells == rows_of(rows@),
            first == changes(cells, d as nat, b as int, w as int),
            second == spread_changes(cells, d as nat, b as int, w as int),
            first.len() == d,
            second.len() == d,
            change@ == first.take(c as int),
            spread@ == second.take(c as int),
        decreases d - c,
    {
        reveal(changes);
        reveal(spread_changes);
        let left: (Binary64, Binary64) = block_stats(rows, c, left_from, left_to);
        let right: (Binary64, Binary64) = block_stats(rows, c, b, right_to);
        change.push(right.0.minus(left.0));
        spread.push(right.1.minus(left.1));
        c = c + 1;
        assert(change@ =~= first.take(c as int));
        assert(spread@ =~= second.take(c as int));
    }
    assert(change@ =~= first);
    assert(spread@ =~= second);
    (change, spread)
}

/// The spread of each feature over the track, never quite nothing.
fn spreads_of(rows: &Vec<Vec<Binary64>>, d: usize) -> (r: Vec<Binary64>)
    requires
        even_rows(rows_of(rows@), d as nat),
    ensures
        r@ == global_spreads(rows_of(rows@), d as nat),
{
    let columns: Vec<Vec<Binary64>> = turn_rows(rows, d);
    let ghost want = global_spreads(rows_of(rows@), d as nat);
    let mut out: Vec<Binary64> = Vec::new();
    let mut c: usize = 0;
    while c < d
        invariant
            c <= d == columns@.len(),
            rows_of(columns@) == turned(rows_of(rows@), d as nat),
            want == global_spreads(rows_of(rows@), d as nat),
            out@ == want.take(c as int),
        decreases d - c,
    {
        assert(rows_of(columns@)[c as int] == columns@[c as int]@);
        out.push(std_dev(columns[c].as_slice()).plus(nano()));
        c = c + 1;
        assert(out@ =~= want.take(c as int));
    }
    assert(out@ =~= want);
    out
}

/// The length of a change in units of the spread of each feature.
fn scaled_length(change: &[Binary64], spreads: &[Binary64]) -> (r: Binary64)
    requires
        change@.len() == spreads@.len(),
    ensures
        r == square_root(total(scaled_squares(change@, spreads@))),
{
    let ghost all = scaled_squares(change@, spreads@);
    let mut out: Binary64 = zero();
    let mut c: usize = 0;
    while c < change.len()
        invariant
            c <= change@.len() == spreads@.len(),
            all == scaled_squares(change@, spreads@),
            out == total(all.take(c as int)),
        decreases change@.len() - c,
    {
        let scaled: Binary64 = change[c].over(spreads[c]);
        out = out.plus(scaled.times(scaled));
        assert(all.take(c + 1).drop_last() == all.take(c as int));
        c = c + 1;
    }
    assert(all.take(c as int) == all);
    out.sqrt()
}

/// The step from the beat before into a beat.
fn step_at(rows: &Vec<Vec<Binary64>>, d: usize, b: usize) -> (r: Vec<Binary64>)
    requires
        b < rows@.len(),
        forall|i: int| 0 <= i < rows@.len() ==> (#[trigger] rows@[i])@.len() == d,
    ensures
        r@ == step_into(rows_of(rows@), d as nat, b as int),
{
    let before: usize = if b == 0 {
        0
    } else {
        b - 1
    };
    let ghost want = step_into(rows_of(rows@), d as nat, b as int);
    let mut out: Vec<Binary64> = Vec::new();
    let mut c: usize = 0;
    while c < d
        invariant
            c <= d,
            b < rows@.len(),
            before <= b,
            before == (if b == 0 {
                0
            } else {
                b - 1
            }),
            forall|i: int| 0 <= i < rows@.len() ==> (#[trigger] rows@[i])@.len() == d,
            want == step_into(rows_of(rows@), d as nat, b as int),
            out@ == want.take(c as int),
        decreases d - c,
    {
        assert(rows@[b as int]@.len() == d && rows@[before as int]@.len() == d);
        out.push(rows[b][c].minus(rows[before][c]));
        c = c + 1;
        assert(out@ =~= want.take(c as int));
    }
    assert(out@ =~= want);
    out
}

/// The number of values that describe a beat.
pub open spec fn description_width(d: nat, windows: nat, context: nat) -> nat {
    3 * d + 2 * d * windows + 3 * windows + context
}

proof fn lemma_change_lengths(rows: Seq<Seq<Binary64>>, d: nat, b: int, w: int)
    ensures
        changes(rows, d, b, w).len() == d,
        magnitudes(changes(rows, d, b, w)).len() == d,
        summaries(rows, d, b, w).len() == 3,
{
    reveal(changes);
    reveal(summaries);
}

proof fn lemma_window_lengths(rows: Seq<Seq<Binary64>>, d: nat, b: int, wins: Seq<usize>, n: nat)
    ensures
        window_changes(rows, d, b, wins, n).len() == 2 * d * n,
        window_summaries(rows, d, b, wins, n).len() == 3 * n,
    decreases n,
{
    if n == 0 {
        assert(2 * d * n == 0) by (nonlinear_arith)
            requires
                n == 0,
        ;
    } else {
        lemma_window_lengths(rows, d, b, wins, (n - 1) as nat);
        lemma_change_lengths(rows, d, b, wins[n - 1] as int);
        assert(2 * d * n == 2 * d * (n - 1) + 2 * d) by (nonlinear_arith)
            requires
                n > 0,
        ;
    }
}

/// The three summaries of a change.
fn summarize(
    change: &[Binary64],
    sizes: &[Binary64],
    spread_change: &[Binary64],
    spreads: &Vec<Binary64>,
    Ghost(rows): Ghost<Seq<Seq<Binary64>>>,
    Ghost(b): Ghost<int>,
    Ghost(w): Ghost<int>,
) -> (r: Vec<Binary64>)
    requires
        change@ == changes(rows, spreads@.len(), b, w),
        sizes@ == magnitudes(change@),
        spread_change@ == spread_changes(rows, spreads@.len(), b, w),
        spreads@ == global_spreads(rows, spreads@.len()),
    ensures
        r@ == summaries(rows, spreads@.len(), b, w),
{
    reveal(summaries);
    proof {
        lemma_change_lengths(rows, spreads@.len(), b, w);
    }
    let root: Binary64 = Binary64::from_u64(spreads.len() as u64).sqrt();
    let mut out: Vec<Binary64> = Vec::new();
    out.push(mean(sizes));
    out.push(scaled_length(change, spreads.as_slice()).over(root));
    out.push(mean(spread_change));
    assert(out@ =~= summaries(rows, spreads@.len(), b, w));
    out
}

/// What is known of a beat.
fn describe_beat(
    rows: &Vec<Vec<Binary64>>,
    d: usize,
    b: usize,
    wins: &Vec<usize>,
    spreads: &Vec<Binary64>,
    context: &[Binary64],
) -> (r: Vec<Binary64>)
    requires
        b < rows@.len(),
        forall|i: int| 0 <= i < rows@.len() ==> (#[trigger] rows@[i])@.len() == d,
        forall|i: int| 0 <= i < wins@.len() ==> (#[trigger] wins@[i]) >= 1,
        spreads@ == global_spreads(rows_of(rows@), d as nat),
    ensures
        r@ == beat_description(rows_of(rows@), d as nat, b as int, wins@, context@),
{
    let ghost cells = rows_of(rows@);
    let mut out: Vec<Binary64> = slice_to_vec(rows[b].as_slice());
    let mut step: Vec<Binary64> = step_at(rows, d, b);
    let mut step_sizes: Vec<Binary64> = magnitudes_of(step.as_slice());
    out.append(&mut step);
    out.append(&mut step_sizes);
    let ghost head = out@;
    let mut tail: Vec<Binary64> = Vec::new();
    let mut k: usize = 0;
    assert(out@ =~= head + window_changes(cells, d as nat, b as int, wins@, 0));
    assert(tail@ =~= window_summaries(cells, d as nat, b as int, wins@, 0));
    while k < wins.len()
        invariant
            k <= wins@.len(),
            b < rows@.len(),
            forall|i: int| 0 <= i < rows@.len() ==> (#[trigger] rows@[i])@.len() == d,
            forall|i: int| 0 <= i < wins@.len() ==> (#[trigger] wins@[i]) >= 1,
            cells == rows_of(rows@),
            spreads@ == global_spreads(cells, d as nat),
            spreads@.len() == d,
            out@ == head + window_changes(cells, d as nat, b as int, wins@, k as nat),
            tail@ == window_summaries(cells, d as nat, b as int, wins@, k as nat),
        decreases wins@.len() - k,
    {
        let w: usize = wins[k];
        let (mut change, spread_change) = changes_across(rows, d, b, w);
        let mut sizes: Vec<Binary64> = magnitudes_of(change.as_slice());
        let ghost delta = change@;
        let ghost before = out@;
        let ghost tail_before = tail@;
        let mut brief: Vec<Binary64> = summarize(
            change.as_slice(),
            sizes.as_slice(),
            spread_change.as_slice(),
            spreads,
            Ghost(cells),
            Ghost(b as int),
            Ghost(w as int),
        );
        tail.append(&mut brief);
        out.append(&mut change);
        out.append(&mut sizes);
        proof {
            assert(out@ =~= before + (delta + magnitudes(delta)));
            assert(tail@ =~= tail_before + summaries(cells, d as nat, b as int, w as int));
        }
        k = k + 1;
        assert(out@ =~= head + window_changes(cells, d as nat, b as int, wins@, k as nat));
    }
    let ghost whole = out@;
    let mut extra: Vec<Binary64> = slice_to_vec(context);
    out.append(&mut tail);
    out.append(&mut extra);
    assert(out@ =~= beat_description(cells, d as nat, b as int, wins@, context@));
    out
}

/// The metrical context of a beat, where there is one for every beat.
pub open spec fn context_of(context: Mat, n: nat, b: int) -> Seq<Binary64> {
    if context.height() == n {
        context.grid()[b]
    } else {
        seq![]
    }
}

/// The descriptions of all beats.
pub open spec fn descriptions(z: Mat, windows: Seq<usize>, context: Mat) -> Seq<Seq<Binary64>> {
    Seq::new(
        z.height(),
        |b: int|
            beat_description(
                z.grid(),
                z.width(),
                b,
                window_widths(windows),
                context_of(context, z.height(), b),
            ),
    )
}

/// The rows that trees can read.
pub open spec fn readable_rows(rows: Seq<Seq<Binary64>>) -> Seq<Seq<Binary64>> {
    rows.map_values(|row: Seq<Binary64>| readable_row(row))
}

/// The number of values of context for a beat.
pub open spec fn context_width(context: Mat, n: nat) -> nat {
    if context.height() == n {
        context.width()
    } else {
        0
    }
}

/// Builds the boundary ensemble's input, one row per beat.
pub fn boundary_feature_matrix(z: &Mat, windows: &[usize], context: &Mat) -> (r: Mat)
    requires
        z.wf(),
        context.wf(),
        ({
            let width = description_width(
                z.width(),
                window_widths(windows@).len(),
                context_width(*context, z.height()),
            );
            width <= usize::MAX && z.height() * width <= usize::MAX
        }),
    ensures
        r.wf(),
        r.height() == z.height(),
        r.width() == description_width(
            z.width(),
            window_widths(windows@).len(),
            context_width(*context, z.height()),
        ),
        r.grid() == readable_rows(centred_columns(descriptions(*z, windows@, *context), r.width())),
{
    let n: usize = z.rows();
    let d: usize = z.cols();
    let wins: Vec<usize> = sort_widths(windows);
    let rows: Vec<Vec<Binary64>> = z.to_rows();
    let ghost cells = rows_of(rows@);
    assert forall|i: int| 0 <= i < rows@.len() implies (#[trigger] rows@[i])@.len() == d by {
        assert(cells[i].len() == d);
    }
    let spreads: Vec<Binary64> = spreads_of(&rows, d);
    let around: bool = context.rows() == n;
    let extra: usize = if around {
        context.cols()
    } else {
        0
    };
    let count: usize = wins.len();
    let ghost width = description_width(d as nat, count as nat, extra as nat);
    proof {
        assert(d * count <= 2 * d * count && 2 * d <= 3 * d) by (nonlinear_arith)
            requires
                d >= 0,
                count >= 0,
        ;
        assert(2 * (d * count) == 2 * d * count) by (nonlinear_arith);
    }
    let cols: usize = 3 * d + 2 * (d * count) + 3 * count + extra;
    let ghost want = descriptions(*z, windows@, *context);
    let mut out: Vec<Vec<Binary64>> = Vec::new();
    let mut b: usize = 0;
    assert(rows_of(out@) =~= want.take(0));
    while b < n
        invariant
            b <= n == rows@.len(),
            n == z.height(),
            d == z.width(),
            context.wf(),
            around == (context.height() == n),
            cells == z.grid(),
            cells == rows_of(rows@),
            wins@ == window_widths(windows@),
            spreads@ == global_spreads(cells, d as nat),
            forall|i: int| 0 <= i < rows@.len() ==> (#[trigger] rows@[i])@.len() == d,
            forall|i: int| 0 <= i < wins@.len() ==> (#[trigger] wins@[i]) >= 1,
            want == descriptions(*z, windows@, *context),
            cols == description_width(d as nat, wins@.len(), context_width(*context, n as nat)),
            out@.len() == b,
            rows_of(out@) == want.take(b as int),
            even_rows(rows_of(out@), cols as nat),
        decreases n - b,
    {
        let row: Vec<Binary64> = if around {
            describe_beat(&rows, d, b, &wins, &spreads, context.row(b))
        } else {
            let none: Vec<Binary64> = Vec::new();
            assert(none@ =~= seq![]);
            describe_beat(&rows, d, b, &wins, &spreads, none.as_slice())
        };
        proof {
            lemma_window_lengths(cells, d as nat, b as int, wins@, wins@.len());
            assert(cells[b as int] == rows@[b as int]@);
            assert(row@ =~= want[b as int]);
            assert(row@.len() == cols);
        }
        let ghost before = out@;
        out.push(row);
        assert(rows_of(out@) =~= rows_of(before).push(row@));
        b = b + 1;
        assert(rows_of(out@) =~= want.take(b as int));
    }
    assert(rows_of(out@) =~= want);
    let scaled: Vec<Vec<Binary64>> = standardize_columns(&out, cols);
    let ghost goal = readable_rows(rows_of(scaled@));
    let mut clean: Vec<Vec<Binary64>> = Vec::new();
    let mut i: usize = 0;
    assert(rows_of(clean@) =~= goal.take(0));
    while i < scaled.len()
        invariant
            i <= scaled@.len(),
            even_rows(rows_of(scaled@), cols as nat),
            goal == readable_rows(rows_of(scaled@)),
            clean@.len() == i,
            rows_of(clean@) == goal.take(i as int),
            even_rows(rows_of(clean@), cols as nat),
        decreases scaled@.len() - i,
    {
        assert(rows_of(scaled@)[i as int].len() == cols);
        let row: Vec<Binary64> = make_readable(scaled[i].as_slice());
        let ghost before = clean@;
        clean.push(row);
        assert(rows_of(clean@) =~= rows_of(before).push(row@));
        i = i + 1;
        assert(rows_of(clean@) =~= goal.take(i as int));
    }
    assert(rows_of(clean@) =~= goal);
    Mat::of_rows(clean, cols)
}

/// Scaling keeps the order of values.
pub proof fn law_centring_keeps_the_order(values: Seq<Binary64>, a: int, b: int)
    requires
        0 <= a < values.len(),
        0 <= b < values.len(),
        values[a].finite() && values[b].finite(),
        values[a].spec_le(values[b]),
        middle(values).finite(),
        difference(values[a], middle(values)).finite(),
        difference(values[b], middle(values)).finite(),
        robust_scale(values).finite(),
    ensures
        centred(values)[a].spec_le(centred(values)[b]),
{
    law_addition_keeps_the_order(values[a], values[b], negated(middle(values)));
    lemma_scale_is_positive(values);
    law_division_keeps_the_order(
        difference(values[a], middle(values)),
        difference(values[b], middle(values)),
        robust_scale(values),
    );
}

proof fn lemma_scale_is_positive(values: Seq<Binary64>)
    ensures
        zero().spec_lt(robust_scale(values)),
{
}

/// The scaled values of one row do not depend on any other row.
pub proof fn law_rows_are_scaled_apart(a: Seq<Seq<Binary64>>, b: Seq<Seq<Binary64>>, i: int, j: int)
    requires
        0 <= i < a.len(),
        0 <= j < b.len(),
        a[i] == b[j],
    ensures
        centred_rows(a)[i] == centred_rows(b)[j],
{
}

/// The widths of the windows go up, and are those that were asked for, with at
/// least one beat each.
pub proof fn law_window_widths_go_up(windows: Seq<usize>)
    requires
        windows.len() <= usize::MAX,
    ensures
        forall|i: int, j: int|
            0 <= i < j < window_widths(windows).len() ==> #[trigger] window_widths(windows)[i]
                < #[trigger] window_widths(windows)[j],
        forall|k: int| 0 <= k < windows.len() && #[trigger] windows[k] >= 1 ==> window_widths(windows).contains(windows[k]),
        forall|k: int| 0 <= k < windows.len() && #[trigger] windows[k] == 0 ==> window_widths(windows).contains(1),
        forall|i: int|
            0 <= i < window_widths(windows).len() ==> windows.contains(#[trigger] window_widths(windows)[i]) || (
            window_widths(windows)[i] == 1 && windows.contains(0)),
{
    let all = at_least_one(windows);
    let keys = width_keys(all);
    let order = in_order(keys);
    law_order_is_stable(keys, keys.len());
    let sorted = arranged(all, order);
    assert forall|i: int, j: int| 0 <= i < j < sorted.len() implies #[trigger] sorted[i] <= #[trigger] sorted[j] by {
        assert(keys[order[i] as int] <= keys[order[j] as int]);
    }
    lemma_without_repeats(sorted, sorted.len());
    let widths = window_widths(windows);
    assert forall|k: int| 0 <= k < windows.len() implies widths.contains(#[trigger] all[k]) by {
        assert(order.contains(k as usize));
        let p = choose|p: int| 0 <= p < order.len() && order[p] == k as usize;
        assert(sorted[p] == all[k]);
    }
    assert forall|k: int| 0 <= k < windows.len() && #[trigger] windows[k] >= 1 implies widths.contains(windows[k]) by {
        assert(all[k] == windows[k]);
    }
    assert forall|k: int| 0 <= k < windows.len() && #[trigger] windows[k] == 0 implies widths.contains(1) by {
        assert(all[k] == 1);
    }
    assert forall|i: int| 0 <= i < widths.len() implies windows.contains(#[trigger] widths[i]) || (widths[i] == 1
        && windows.contains(0)) by {
        let p = choose|p: int| 0 <= p < sorted.len() && sorted[p] == widths[i];
        let k = order[p] as int;
        assert(all[k] == widths[i]);
        assert(windows[k] == widths[i] || windows[k] == 0);
    }
}

proof fn lemma_without_repeats(sorted: Seq<usize>, n: nat)
    requires
        n <= sorted.len(),
        forall|i: int, j: int| 0 <= i < j < sorted.len() ==> #[trigger] sorted[i] <= #[trigger] sorted[j],
    ensures
        n > 0 ==> without_repeats(sorted, n).len() > 0 && without_repeats(sorted, n).last() == sorted[n - 1],
        forall|i: int, j: int|
            0 <= i < j < without_repeats(sorted, n).len() ==> #[trigger] without_repeats(sorted, n)[i]
                < #[trigger] without_repeats(sorted, n)[j],
        forall|p: int| 0 <= p < n ==> without_repeats(sorted, n).contains(#[trigger] sorted[p]),
        forall|i: int|
            0 <= i < without_repeats(sorted, n).len() ==> exists|p: int|
                0 <= p < sorted.len() && sorted[p] == #[trigger] without_repeats(sorted, n)[i],
    decreases n,
{
    if n > 0 {
        lemma_without_repeats(sorted, (n - 1) as nat);
        let before = without_repeats(sorted, (n - 1) as nat);
        let now = without_repeats(sorted, n);
        assert forall|i: int, j: int| 0 <= i < j < now.len() implies #[trigger] now[i] < #[trigger] now[j] by {
            if j == before.len() {
                assert(before.last() <= now[j]);
                assert(before[i] <= before.last());
            }
        }
        assert forall|p: int| 0 <= p < n implies now.contains(#[trigger] sorted[p]) by {
            if p < n - 1 {
                let i = choose|i: int| 0 <= i < before.len() && before[i] == sorted[p];
                assert(now[i] == sorted[p]);
            } else {
                assert(now[now.len() - 1] == sorted[p]);
            }
        }
        assert forall|i: int| 0 <= i < now.len() implies exists|p: int|
            0 <= p < sorted.len() && sorted[p] == #[trigger] now[i] by {
            if i < before.len() {
                assert(now[i] == before[i]);
            } else {
                assert(sorted[n - 1] == now[i]);
            }
        }
    }
}

/// The change across a boundary hears only the beats within the window on either
/// side of it.
pub proof fn law_changes_hear_only_their_window(a: Seq<Seq<Binary64>>, b: Seq<Seq<Binary64>>, d: nat, at: int, w: int)
    requires
        a.len() == b.len(),
        0 <= at < a.len(),
        w >= 1,
        forall|i: int| 0 <= i < a.len() && at - w <= i < at + w ==> #[trigger] a[i] == b[i],
    ensures
        changes(a, d, at, w) == changes(b, d, at, w),
{
    reveal(changes);
    let left = left_of(at, w);
    let right = right_of(at, w, a.len() as int);
    assert forall|c: int| 0 <= c < d implies #[trigger] changes(a, d, at, w)[c] == changes(b, d, at, w)[c] by {
        assert(block(a, c, left.0, left.1) =~= block(b, c, left.0, left.1)) by {
            assert forall|i: int| 0 <= i < left.1 - left.0 implies #[trigger] block(a, c, left.0, left.1)[i] == block(
                b,
                c,
                left.0,
                left.1,
            )[i] by {
                assert(a[left.0 + i] == b[left.0 + i]);
            }
        }
        assert(block(a, c, right.0, right.1) =~= block(b, c, right.0, right.1)) by {
            assert forall|i: int| 0 <= i < right.1 - right.0 implies #[trigger] block(a, c, right.0, right.1)[i] == block(
                b,
                c,
                right.0,
                right.1,
            )[i] by {
                assert(a[right.0 + i] == b[right.0 + i]);
            }
        }
        assert(block_mean(a, c, left.0, left.1) == block_mean(b, c, left.0, left.1));
        assert(block_mean(a, c, right.0, right.1) == block_mean(b, c, right.0, right.1));
    }
    assert(changes(a, d, at, w) =~= changes(b, d, at, w));
}

/// The windows on the two sides of a boundary touch at it, and are as wide as was
/// asked for where the track is long enough.
pub proof fn law_windows_meet_at_the_boundary(b: int, w: int, n: int)
    requires
        0 < b < n,
        w >= 1,
    ensures
        left_of(b, w).1 == b == right_of(b, w, n).0,
        0 <= left_of(b, w).0 < b < right_of(b, w, n).1 <= n,
        b >= w ==> b - left_of(b, w).0 == w,
        b + w <= n ==> right_of(b, w, n).1 - b == w,
{
}

} // verus!
