//! What the label ensemble reads of a segment.

use crate::detect::matrix::Mat;
use crate::detect::scaling::{block, make_readable, readable_row};
use crate::number::binary64::{difference, half, of_int, product, quotient, Binary64};
use crate::number::lists::{
    average, deviation, even_rows, highest, highest_of, mean, rows_of, std_dev,
};
use vstd::prelude::*;

verus! {

/// Beats at each end of a segment that form its head and tail summaries.
pub const EDGE_BEATS: usize = 4;

/// The rows of a segment between two bounds, at least one, inside `n` rows.
pub open spec fn span_of(from: int, to: int, n: int) -> (int, int) {
    let start = if from < n - 1 {
        from
    } else {
        n - 1
    };
    (
        start,
        if to < start + 1 {
            start + 1
        } else if to > n {
            n
        } else {
            to
        },
    )
}

/// The rows of a segment between two bounds, at least one, inside `n` rows.
pub fn segment_span(from: usize, to: usize, n: usize) -> (r: (usize, usize))
    requires
        n > 0,
    ensures
        (r.0 as int, r.1 as int) == span_of(from as int, to as int, n as int),
        r.0 < r.1 <= n,
{
    let start: usize = if from < n - 1 {
        from
    } else {
        n - 1
    };
    let end: usize = if to < start + 1 {
        start + 1
    } else if to > n {
        n
    } else {
        to
    };
    (start, end)
}

/// The beats at each end of a segment of some length that are summarised.
pub open spec fn edge_of(length: int) -> int {
    if length < EDGE_BEATS {
        length
    } else {
        EDGE_BEATS as int
    }
}

/// How a feature changes from the head of a segment to its tail.
pub open spec fn shift_of(values: Seq<Binary64>) -> Binary64 {
    let edge = edge_of(values.len() as int);
    difference(
        average(values.subrange(values.len() - edge, values.len() as int)),
        average(values.take(edge)),
    )
}

/// The four summaries of every feature in a segment: means, spreads, highest
/// values and shifts.
pub open spec fn feature_summaries(rows: Seq<Seq<Binary64>>, d: nat, start: int, end: int) -> Seq<Binary64> {
    Seq::new(d, |c: int| average(block(rows, c, start, end))) + Seq::new(
        d,
        |c: int| deviation(block(rows, c, start, end)),
    ) + Seq::new(d, |c: int| highest(block(rows, c, start, end))) + Seq::new(
        d,
        |c: int| shift_of(block(rows, c, start, end)),
    )
}

/// Where a segment sits and how long it is, in terms of the track.
pub open spec fn placement(log_length: Binary64, start: int, end: int, n: int) -> Seq<Binary64> {
    seq![
        log_length,
        quotient(of_int(end - start), of_int(n)),
        quotient(of_int(start), of_int(n)),
        quotient(of_int(end), of_int(n)),
        quotient(product(half(), of_int(start + end)), of_int(n)),
    ]
}

/// What is known of a segment.
pub open spec fn segment_row(
    rows: Seq<Seq<Binary64>>,
    d: nat,
    from: int,
    to: int,
    log_length: Binary64,
) -> Seq<Binary64> {
    let span = span_of(from, to, rows.len() as int);
    readable_row(
        feature_summaries(rows, d, span.0, span.1) + placement(log_length, span.0, span.1, rows.len() as int),
    )
}

/// What is known of each segment.
pub open spec fn segment_rows(z: Mat, bounds: Seq<usize>, logs: Seq<Binary64>) -> Seq<Seq<Binary64>> {
    Seq::new(
        if bounds.len() == 0 {
            0
        } else {
            (bounds.len() - 1) as nat
        },
        |s: int| segment_row(z.grid(), z.width(), bounds[s] as int, bounds[s + 1] as int, logs[s]),
    )
}

/// How a feature changes from the head of a segment to its tail.
fn shift_across(values: &Vec<Binary64>) -> (r: Binary64)
    ensures
        r == shift_of(values@),
{
    let n: usize = values.len();
    let edge: usize = if n < EDGE_BEATS {
        n
    } else {
        EDGE_BEATS
    };
    let head: &[Binary64] = vstd::slice::slice_subrange(values.as_slice(), 0, edge);
    let tail: &[Binary64] = vstd::slice::slice_subrange(values.as_slice(), n - edge, n);
    assert(head@ =~= values@.take(edge as int));
    mean(tail).minus(mean(head))
}

/// The values of a column in rows `from..to`.
fn column_block(z: &Mat, c: usize, from: usize, to: usize) -> (r: Vec<Binary64>)
    requires
        z.wf(),
        from <= to <= z.height(),
        c < z.width(),
    ensures
        r@ == block(z.grid(), c as int, from as int, to as int),
{
    let ghost want = block(z.grid(), c as int, from as int, to as int);
    let mut out: Vec<Binary64> = Vec::new();
    let mut i: usize = from;
    while i < to
        invariant
            z.wf(),
            from <= i <= to <= z.height(),
            c < z.width(),
            want == block(z.grid(), c as int, from as int, to as int),
            out@ == want.take(i - from),
        decreases to - i,
    {
        out.push(z.get(i, c));
        i = i + 1;
        assert(out@ =~= want.take(i - from));
    }
    assert(out@ =~= want);
    out
}

/// The four summaries of every feature in a segment.
fn summarize_features(z: &Mat, start: usize, end: usize) -> (r: Vec<Binary64>)
    requires
        z.wf(),
        start < end <= z.height(),
    ensures
        r@ == feature_summaries(z.grid(), z.width(), start as int, end as int),
{
    let d: usize = z.cols();
    let ghost rows = z.grid();
    let ghost first = Seq::new(d as nat, |c: int| average(block(rows, c, start as int, end as int)));
    let ghost second = Seq::new(d as nat, |c: int| deviation(block(rows, c, start as int, end as int)));
    let ghost third = Seq::new(d as nat, |c: int| highest(block(rows, c, start as int, end as int)));
    let ghost fourth = Seq::new(d as nat, |c: int| shift_of(block(rows, c, start as int, end as int)));
    let mut means: Vec<Binary64> = Vec::new();
    let mut spreads: Vec<Binary64> = Vec::new();
    let mut peaks: Vec<Binary64> = Vec::new();
    let mut shifts: Vec<Binary64> = Vec::new();
    let mut c: usize = 0;
    while c < d
        invariant
            c <= d == z.width(),
            z.wf(),
            start < end <= z.height(),
            rows == z.grid(),
            first == Seq::new(d as nat, |k: int| average(block(rows, k, start as int, end as int))),
            second == Seq::new(d as nat, |k: int| deviation(block(rows, k, start as int, end as int))),
            third == Seq::new(d as nat, |k: int| highest(block(rows, k, start as int, end as int))),
            fourth == Seq::new(d as nat, |k: int| shift_of(block(rows, k, start as int, end as int))),
            means@ == first.take(c as int),
            spreads@ == second.take(c as int),
            peaks@ == third.take(c as int),
            shifts@ == fourth.take(c as int),
        decreases d - c,
    {
        let values: Vec<Binary64> = column_block(z, c, start, end);
        means.push(mean(values.as_slice()));
        spreads.push(std_dev(values.as_slice()));
        peaks.push(highest_of(values.as_slice()));
        shifts.push(shift_across(&values));
        c = c + 1;
        assert(means@ =~= first.take(c as int));
        assert(spreads@ =~= second.take(c as int));
        assert(peaks@ =~= third.take(c as int));
        assert(shifts@ =~= fourth.take(c as int));
    }
    assert(means@ =~= first && spreads@ =~= second && peaks@ =~= third && shifts@ =~= fourth);
    means.append(&mut spreads);
    means.append(&mut peaks);
    means.append(&mut shifts);
    means
}

/// What is known of a segment.
fn describe_segment(z: &Mat, from: usize, to: usize, log_length: Binary64) -> (r: Vec<Binary64>)
    requires
        z.wf(),
        z.height() > 0,
        2 * z.height() <= usize::MAX,
    ensures
        r@ == segment_row(z.grid(), z.width(), from as int, to as int, log_length),
        r@.len() == 4 * z.width() + 5,
{
    let n: usize = z.rows();
    let (start, end) = segment_span(from, to, n);
    let mut row: Vec<Binary64> = summarize_features(z, start, end);
    let ghost head = row@;
    let scale: Binary64 = Binary64::from_u64(n as u64);
    let length: usize = end - start;
    row.push(log_length);
    row.push(Binary64::from_u64(length as u64).over(scale));
    row.push(Binary64::from_u64(start as u64).over(scale));
    row.push(Binary64::from_u64(end as u64).over(scale));
    row.push(half().times(Binary64::from_u64((start + end) as u64)).over(scale));
    assert(row@ =~= head + placement(log_length, start as int, end as int, n as int));
    make_readable(row.as_slice())
}

/// Builds the label ensemble's input: one row per segment.
///
/// `logs` holds the logarithm of the length of each segment.
pub fn segment_features(z: &Mat, bounds: &[usize], logs: &[Binary64]) -> (r: Mat)
    requires
        z.wf(),
        z.height() > 0,
        2 * z.height() <= usize::MAX,
        bounds@.len() > 0 ==> logs@.len() == bounds@.len() - 1,
        bounds@.len() * (4 * z.width() + 5) <= usize::MAX,
        4 * z.width() + 5 <= usize::MAX,
    ensures
        r.wf(),
        r.width() == 4 * z.width() + 5,
        r.grid() == segment_rows(*z, bounds@, logs@),
{
    let cols: usize = 4 * z.cols() + 5;
    let ghost want = segment_rows(*z, bounds@, logs@);
    let mut rows: Vec<Vec<Binary64>> = Vec::new();
    let mut s: usize = 0;
    assert(rows_of(rows@) =~= want.take(0));
    let count: usize = bounds.len();
    while count > 0 && s < count - 1
        invariant
            count == bounds@.len(),
            s <= count,
            count > 0 ==> s <= count - 1,
            z.wf(),
            z.height() > 0,
            2 * z.height() <= usize::MAX,
            bounds@.len() > 0 ==> logs@.len() == bounds@.len() - 1,
            cols == 4 * z.width() + 5,
            want == segment_rows(*z, bounds@, logs@),
            rows@.len() == s,
            rows_of(rows@) == want.take(s as int),
            even_rows(rows_of(rows@), cols as nat),
        decreases bounds@.len() - s,
    {
        let row: Vec<Binary64> = describe_segment(z, bounds[s], bounds[s + 1], logs[s]);
        let ghost before = rows@;
        rows.push(row);
        assert(rows_of(rows@) =~= rows_of(before).push(row@));
        s = s + 1;
        assert(rows_of(rows@) =~= want.take(s as int));
    }
    assert(rows_of(rows@) =~= want);
    proof {
        assert(rows@.len() * cols <= bounds@.len() * cols) by (nonlinear_arith)
            requires
                rows@.len() <= bounds@.len(),
                cols >= 0,
        ;
    }
    Mat::of_rows(rows, cols)
}

/// A segment inside the track is taken as it is.
pub proof fn law_segments_inside_are_taken_whole(from: int, to: int, n: int)
    requires
        0 <= from < to <= n,
    ensures
        span_of(from, to, n) == (from, to),
{
}

/// What a segment's features are depends on its own beats alone, and on the
/// length of the track.
pub proof fn law_a_segment_is_described_by_its_beats(
    a: Seq<Seq<Binary64>>,
    b: Seq<Seq<Binary64>>,
    d: nat,
    from: int,
    to: int,
    log_length: Binary64,
)
    requires
        a.len() == b.len(),
        0 <= from < to <= a.len(),
        forall|i: int| from <= i < to ==> #[trigger] a[i] == b[i],
    ensures
        segment_row(a, d, from, to, log_length) == segment_row(b, d, from, to, log_length),
{
    assert forall|c: int| #[trigger] block(a, c, from, to) == block(b, c, from, to) by {
        assert forall|i: int| 0 <= i < to - from implies #[trigger] block(a, c, from, to)[i] == block(b, c, from, to)[i] by {
            assert(a[from + i] == b[from + i]);
        }
        assert(block(a, c, from, to) =~= block(b, c, from, to));
    }
    assert(feature_summaries(a, d, from, to) =~= feature_summaries(b, d, from, to));
}

/// The features of a segment are the mean, the spread, the highest value and the
/// shift of each column, in that order.
pub proof fn law_segment_features_are_in_order(rows: Seq<Seq<Binary64>>, d: nat, start: int, end: int, c: int)
    requires
        0 <= c < d,
    ensures
        feature_summaries(rows, d, start, end).len() == 4 * d,
        feature_summaries(rows, d, start, end)[c] == average(block(rows, c, start, end)),
        feature_summaries(rows, d, start, end)[d + c] == deviation(block(rows, c, start, end)),
        feature_summaries(rows, d, start, end)[2 * d + c] == highest(block(rows, c, start, end)),
        feature_summaries(rows, d, start, end)[3 * d + c] == shift_of(block(rows, c, start, end)),
{
}

} // verus!
