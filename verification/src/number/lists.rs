//! Lists of numbers: sums, means, order statistics, spread.

use crate::number::binary64::{
    difference, half, larger, minus_infinity, of_int, product, quotient, sum, zero, Binary64,
};
use crate::number::root::square_root;
use crate::order::{arranged, in_order, stable_order, visits_each_once};
use vstd::prelude::*;

verus! {

/// The values in the total order of bit patterns.
pub open spec fn sorted(values: Seq<Binary64>) -> Seq<Binary64> {
    arranged(values, in_order(total_keys(values)))
}

/// The place of each value in the total order.
pub open spec fn total_keys(values: Seq<Binary64>) -> Seq<i128> {
    Seq::new(values.len(), |i: int| values[i].total_rank() as i128)
}

/// The largest value, ignoring NaNs; negative infinity of nothing.
pub open spec fn highest(values: Seq<Binary64>) -> Binary64
    decreases values.len(),
{
    if values.len() == 0 {
        minus_infinity()
    } else {
        larger(highest(values.drop_last()), values.last())
    }
}

/// The sum from left to right; zero of nothing.
pub open spec fn total(values: Seq<Binary64>) -> Binary64
    decreases values.len(),
{
    if values.len() == 0 {
        zero()
    } else {
        sum(total(values.drop_last()), values.last())
    }
}

/// The middle value, or the mean of the two middle values of an even count;
/// zero of nothing.
pub open spec fn middle(values: Seq<Binary64>) -> Binary64 {
    let s = sorted(values);
    let mid = values.len() as int / 2;
    if values.len() == 0 {
        zero()
    } else if values.len() % 2 == 1 {
        s[mid]
    } else {
        product(half(), sum(highest(s.take(mid)), s[mid]))
    }
}

/// The arithmetic mean; zero of nothing.
pub open spec fn average(values: Seq<Binary64>) -> Binary64 {
    if values.len() == 0 {
        zero()
    } else {
        quotient(total(values), of_int(values.len() as int))
    }
}

/// The distances between neighbouring values.
pub open spec fn gaps(values: Seq<Binary64>) -> Seq<Binary64> {
    if values.len() == 0 {
        seq![]
    } else {
        Seq::new(
            (values.len() - 1) as nat,
            |i: int| difference(values[i + 1], values[i]),
        )
    }
}

/// The values in the total order of bit patterns.
pub fn sort_total(values: &[Binary64]) -> (r: Vec<Binary64>)
    ensures
        r@ == sorted(values@),
        r@.len() == values@.len(),
{
    let mut keys: Vec<i128> = Vec::new();
    let mut i: usize = 0;
    while i < values.len()
        invariant
            i <= values@.len(),
            keys@ == total_keys(values@).take(i as int),
        decreases values@.len() - i,
    {
        keys.push(values[i].total_key());
        i = i + 1;
        assert(keys@ =~= total_keys(values@).take(i as int));
    }
    assert(keys@ =~= total_keys(values@));
    let order: Vec<usize> = stable_order(&keys);
    let ghost want = sorted(values@);
    let mut out: Vec<Binary64> = Vec::new();
    let mut k: usize = 0;
    while k < order.len()
        invariant
            k <= order@.len(),
            visits_each_once(order@, values@.len()),
            want == arranged(values@, order@),
            out@ == want.take(k as int),
        decreases order@.len() - k,
    {
        out.push(values[order[k]]);
        k = k + 1;
        assert(out@ =~= want.take(k as int));
    }
    assert(out@ =~= want);
    out
}

/// Median of a list: the mean of the two middle values when the count is even.
pub fn median(values: &[Binary64]) -> (r: Binary64)
    ensures
        r == middle(values@),
{
    let n: usize = values.len();
    if n == 0 {
        return zero();
    }
    let mut keys: Vec<i128> = Vec::new();
    let mut i: usize = 0;
    while i < n
        invariant
            i <= n == values@.len(),
            keys@ == total_keys(values@).take(i as int),
        decreases n - i,
    {
        keys.push(values[i].total_key());
        i = i + 1;
        assert(keys@ == total_keys(values@).take(i as int));
    }
    assert(total_keys(values@).take(n as int) == total_keys(values@));
    let order: Vec<usize> = stable_order(&keys);
    let mid: usize = n / 2;
    let middle_value: Binary64 = values[order[mid]];
    if n % 2 == 1 {
        return middle_value;
    }
    let mut below: Binary64 = minus_infinity();
    let ghost s = sorted(values@);
    let mut k: usize = 0;
    while k < mid
        invariant
            k <= mid <= n,
            n == values@.len(),
            visits_each_once(order@, n as nat),
            s == arranged(values@, order@),
            below == highest(s.take(k as int)),
        decreases mid - k,
    {
        below = below.max(values[order[k]]);
        assert(s.take(k + 1).drop_last() == s.take(k as int));
        k = k + 1;
    }
    half().times(below.plus(middle_value))
}

/// The sum from left to right.
pub fn total_of(values: &[Binary64]) -> (r: Binary64)
    ensures
        r == total(values@),
{
    let mut out: Binary64 = zero();
    let mut i: usize = 0;
    while i < values.len()
        invariant
            i <= values@.len(),
            out == total(values@.take(i as int)),
        decreases values@.len() - i,
    {
        out = out.plus(values[i]);
        assert(values@.take(i + 1).drop_last() == values@.take(i as int));
        i = i + 1;
    }
    assert(values@.take(values@.len() as int) == values@);
    out
}

/// The arithmetic mean.
pub fn mean(values: &[Binary64]) -> (r: Binary64)
    ensures
        r == average(values@),
{
    if values.len() == 0 {
        return zero();
    }
    total_of(values).over(Binary64::from_u64(values.len() as u64))
}

/// The distances between neighbouring values.
pub fn gaps_of(values: &[Binary64]) -> (r: Vec<Binary64>)
    ensures
        r@ == gaps(values@),
{
    let mut out: Vec<Binary64> = Vec::new();
    if values.len() == 0 {
        return out;
    }
    let mut i: usize = 1;
    while i < values.len()
        invariant
            1 <= i <= values@.len(),
            out@ == gaps(values@).take(i - 1),
        decreases values@.len() - i,
    {
        out.push(values[i].minus(values[i - 1]));
        i = i + 1;
        assert(out@ == gaps(values@).take(i - 1));
    }
    assert(gaps(values@).take(values@.len() - 1) == gaps(values@));
    out
}

/// The contents of a list of rows.
pub open spec fn rows_of(rows: Seq<Vec<Binary64>>) -> Seq<Seq<Binary64>> {
    rows.map_values(|row: Vec<Binary64>| row@)
}

/// Whether every row has the same length.
pub open spec fn even_rows(rows: Seq<Seq<Binary64>>, cols: nat) -> bool {
    forall|i: int| 0 <= i < rows.len() ==> (#[trigger] rows[i]).len() == cols
}

/// Rows and columns exchanged.
pub open spec fn turned(rows: Seq<Seq<Binary64>>, cols: nat) -> Seq<Seq<Binary64>> {
    Seq::new(cols, |c: int| Seq::new(rows.len(), |r: int| rows[r][c]))
}

/// A copy of some values.
pub fn slice_to_vec(values: &[Binary64]) -> (r: Vec<Binary64>)
    ensures
        r@ == values@,
{
    let mut out: Vec<Binary64> = Vec::new();
    let mut i: usize = 0;
    while i < values.len()
        invariant
            i <= values@.len(),
            out@ == values@.take(i as int),
        decreases values@.len() - i,
    {
        out.push(values[i]);
        i = i + 1;
        assert(out@ =~= values@.take(i as int));
    }
    assert(out@ =~= values@);
    out
}

/// Rows and columns exchanged.
pub fn turn_rows(rows: &Vec<Vec<Binary64>>, cols: usize) -> (r: Vec<Vec<Binary64>>)
    requires
        even_rows(rows_of(rows@), cols as nat),
    ensures
        rows_of(r@) == turned(rows_of(rows@), cols as nat),
        r@.len() == cols,
{
    let ghost cells = rows_of(rows@);
    let ghost want = turned(cells, cols as nat);
    let mut out: Vec<Vec<Binary64>> = Vec::new();
    let mut c: usize = 0;
    assert(rows_of(out@) =~= want.take(0));
    while c < cols
        invariant
            c <= cols,
            cells == rows_of(rows@),
            even_rows(cells, cols as nat),
            want == turned(cells, cols as nat),
            out@.len() == c,
            rows_of(out@) == want.take(c as int),
        decreases cols - c,
    {
        let mut line: Vec<Binary64> = Vec::new();
        let mut k: usize = 0;
        while k < rows.len()
            invariant
                k <= rows@.len(),
                c < cols,
                cells == rows_of(rows@),
                even_rows(cells, cols as nat),
                want == turned(cells, cols as nat),
                line@ == want[c as int].take(k as int),
            decreases rows@.len() - k,
        {
            assert(cells[k as int].len() == cols);
            line.push(rows[k][c]);
            k = k + 1;
            assert(line@ =~= want[c as int].take(k as int));
        }
        assert(line@ =~= want[c as int]);
        let ghost before = out@;
        out.push(line);
        assert(rows_of(out@) =~= rows_of(before).push(line@));
        c = c + 1;
        assert(rows_of(out@) =~= want.take(c as int));
    }
    assert(rows_of(out@) =~= want);
    out
}

/// The squared distances of values from one of them or their mean.
pub open spec fn squares_about(values: Seq<Binary64>, mean: Binary64) -> Seq<Binary64> {
    values.map_values(|v: Binary64| product(difference(v, mean), difference(v, mean)))
}

/// The population standard deviation; zero of nothing.
pub open spec fn deviation(values: Seq<Binary64>) -> Binary64 {
    if values.len() == 0 {
        zero()
    } else {
        square_root(quotient(total(squares_about(values, average(values))), of_int(values.len() as int)))
    }
}

/// The sum of the squared distances of values from another.
pub fn total_squares_about(values: &[Binary64], mean: Binary64) -> (r: Binary64)
    ensures
        r == total(squares_about(values@, mean)),
{
    let ghost all = squares_about(values@, mean);
    let mut out: Binary64 = zero();
    let mut i: usize = 0;
    while i < values.len()
        invariant
            i <= values@.len(),
            all == squares_about(values@, mean),
            out == total(all.take(i as int)),
        decreases values@.len() - i,
    {
        out = out.plus(values[i].minus(mean).times(values[i].minus(mean)));
        assert(all.take(i + 1).drop_last() == all.take(i as int));
        i = i + 1;
    }
    assert(all.take(i as int) == all);
    out
}

/// The population standard deviation.
pub fn std_dev(values: &[Binary64]) -> (r: Binary64)
    ensures
        r == deviation(values@),
{
    if values.len() == 0 {
        return zero();
    }
    let mean_value: Binary64 = mean(values);
    total_squares_about(values, mean_value).over(Binary64::from_u64(values.len() as u64)).sqrt()
}

/// The largest value, ignoring NaNs; negative infinity of nothing.
pub fn highest_of(values: &[Binary64]) -> (r: Binary64)
    ensures
        r == highest(values@),
{
    let mut best: Binary64 = minus_infinity();
    let mut i: usize = 0;
    while i < values.len()
        invariant
            i <= values@.len(),
            best == highest(values@.take(i as int)),
        decreases values@.len() - i,
    {
        best = best.max(values[i]);
        assert(values@.take(i + 1).drop_last() == values@.take(i as int));
        i = i + 1;
    }
    assert(values@.take(i as int) == values@);
    best
}

/// No number of a list is larger than its highest, and the highest is one of
/// them, where all are numbers above minus infinity.
pub proof fn law_none_is_higher(values: Seq<Binary64>, i: int)
    requires
        0 <= i < values.len(),
        forall|k: int| 0 <= k < values.len() ==> !(#[trigger] values[k]).nan(),
    ensures
        values[i].spec_le(highest(values)),
        values.contains(highest(values)) || highest(values) == minus_infinity(),
    decreases values.len(),
{
    let front = values.drop_last();
    let n = values.len() - 1;
    assert(!values[n].nan() && values[n] == values.last());
    assert forall|k: int| 0 <= k < front.len() implies !(#[trigger] front[k]).nan() by {
        assert(front[k] == values[k]);
    }
    assert(!minus_infinity().nan());
    if front.len() > 0 {
        law_none_is_higher(
            front,
            if i < n {
                i
            } else {
                0
            },
        );
        if front.contains(highest(front)) {
            let k = choose|k: int| 0 <= k < front.len() && front[k] == highest(front);
            assert(values[k] == highest(front));
            assert(values.contains(highest(front)));
        }
        if i < n {
            assert(front[i] == values[i]);
        }
    }
    assert(values.contains(values[n]));
    assert(highest(values) == values[n] || highest(values) == highest(front));
}

} // verus!
