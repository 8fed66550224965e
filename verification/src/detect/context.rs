//! Where each beat sits in the bar and in the hypermetre.
//!
//! Phrase edges are overwhelmingly on downbeats and on bars whose index is a
//! multiple of 2, 4, 8 or 16, so the ensemble gets the metrical position
//! directly instead of inferring one from the acoustics.

use crate::detect::grid::PredictorGrid;
use crate::detect::matrix::Mat;
use crate::detect::scaling::{centre_rows, centred_rows};
use crate::number::binary64::{full_turn, larger, of_int, one, product, quotient, smaller, zero, Binary64};
use crate::number::integral::remainder;
use crate::number::lists::{even_rows, rows_of, slice_to_vec, turn_rows, turned};
use vstd::prelude::*;

verus! {

/// The beats in the bar of a beat; four where the bar is not known.
pub open spec fn meter_at(grid: PredictorGrid, b: int) -> Binary64 {
    let bar = grid.bar_index_of_beat@[b] as int;
    if bar < grid.bar_meters@.len() {
        larger(of_int(grid.bar_meters@[bar] as int), one())
    } else {
        of_int(4)
    }
}

/// The beats since the last downbeat, if there was one.
pub open spec fn since_downbeat(mask: Seq<bool>, b: int) -> Option<nat>
    decreases b + 1,
{
    if b < 0 {
        None
    } else if mask[b] {
        Some(0)
    } else {
        match since_downbeat(mask, b - 1) {
            Some(n) => Some(n + 1),
            None => None,
        }
    }
}

/// The beats until the next downbeat, if there is one.
pub open spec fn until_downbeat(mask: Seq<bool>, b: int) -> Option<nat>
    decreases mask.len() - b,
{
    if b >= mask.len() {
        None
    } else if mask[b] {
        Some(0)
    } else {
        match until_downbeat(mask, b + 1) {
            Some(n) => Some(n + 1),
            None => None,
        }
    }
}

/// A count of beats, or that of all where there is none.
pub open spec fn count_or_all(count: Option<nat>, n: nat) -> Binary64 {
    match count {
        Some(k) => of_int(k as int),
        None => of_int(n as int),
    }
}

/// How far a beat is from the nearest downbeat, in bars.
pub open spec fn downbeat_distance(grid: PredictorGrid, n: nat, b: int) -> Binary64 {
    let mask = grid.downbeat_mask@;
    quotient(
        smaller(count_or_all(since_downbeat(mask, b), n), count_or_all(until_downbeat(mask, b), n)),
        larger(meter_at(grid, b), one()),
    )
}

/// One or nothing.
pub open spec fn flag(on: bool) -> Binary64 {
    if on {
        one()
    } else {
        zero()
    }
}

/// One or nothing.
fn flag_of(on: bool) -> (r: Binary64)
    ensures
        r == flag(on),
{
    if on {
        one()
    } else {
        zero()
    }
}

/// How far into its bar each beat is.
pub open spec fn phases(grid: PredictorGrid, n: nat) -> Seq<Binary64> {
    Seq::new(
        n,
        |b: int|
            quotient(
                remainder(of_int(grid.beat_in_bar@[b] as int), meter_at(grid, b)),
                larger(meter_at(grid, b), one()),
            ),
    )
}

/// Whether there is a mark and a place in its bar for every beat.
pub open spec fn fits(grid: PredictorGrid, n: nat) -> bool {
    grid.beat_in_bar@.len() == n && grid.downbeat_mask@.len() == n
}

/// The beats that start a bar, as ones.
pub open spec fn downbeat_flags(grid: PredictorGrid, n: nat) -> Seq<Binary64> {
    Seq::new(n, |b: int| flag(grid.downbeat_mask@[b]))
}

/// The beats that are the first of their bar, as ones.
pub open spec fn first_flags(grid: PredictorGrid, n: nat) -> Seq<Binary64> {
    Seq::new(n, |b: int| flag(grid.beat_in_bar@[b] == 1))
}

/// How far each beat is from the nearest downbeat.
pub open spec fn downbeat_distances(grid: PredictorGrid, n: nat) -> Seq<Binary64> {
    Seq::new(n, |b: int| downbeat_distance(grid, n, b))
}

/// The beats in bars whose index is a multiple of a period, as ones.
pub open spec fn period_flags(grid: PredictorGrid, n: nat, period: int) -> Seq<Binary64> {
    Seq::new(
        n,
        |b: int| flag(remainder(of_int(grid.bar_index_of_beat@[b] as int), of_int(period)).spec_same(zero())),
    )
}

/// The columns of the metrical context, before they are scaled. `turns` holds
/// the sine and cosine of each beat in its bar, and in periods of 2, 4, 8 and
/// 16 bars.
pub open spec fn context_columns(grid: PredictorGrid, n: nat, turns: Seq<Seq<Binary64>>) -> Seq<Seq<Binary64>> {
    seq![
        downbeat_flags(grid, n),
        first_flags(grid, n),
        turns[0],
        turns[1],
        downbeat_distances(grid, n),
        period_flags(grid, n, 2),
        turns[2],
        turns[3],
        period_flags(grid, n, 4),
        turns[4],
        turns[5],
        period_flags(grid, n, 8),
        turns[6],
        turns[7],
        period_flags(grid, n, 16),
        turns[8],
        turns[9],
    ]
}

/// The beats in the bar of a beat.
fn meter_of(grid: &PredictorGrid, b: usize) -> (r: Binary64)
    requires
        b < grid.bar_index_of_beat@.len(),
    ensures
        r == meter_at(*grid, b as int),
{
    let bar: usize = grid.bar_index_of_beat[b];
    if bar < grid.bar_meters.len() {
        Binary64::from_u64(grid.bar_meters[bar] as u64).max(one())
    } else {
        Binary64::from_u64(4)
    }
}

/// How far into its bar each beat is, as a share of the bar.
pub fn bar_phases(grid: &PredictorGrid, n_beats: usize) -> (r: Vec<Binary64>)
    requires
        grid.beat_in_bar@.len() == n_beats,
        grid.bar_index_of_beat@.len() == n_beats,
    ensures
        r@ == phases(*grid, n_beats as nat),
{
    let ghost want = phases(*grid, n_beats as nat);
    let mut out: Vec<Binary64> = Vec::new();
    let mut b: usize = 0;
    while b < n_beats
        invariant
            b <= n_beats,
            grid.beat_in_bar@.len() == n_beats,
            grid.bar_index_of_beat@.len() == n_beats,
            want == phases(*grid, n_beats as nat),
            out@ == want.take(b as int),
        decreases n_beats - b,
    {
        let meter: Binary64 = meter_of(grid, b);
        out.push(Binary64::from_u64(grid.beat_in_bar[b] as u64).rem(meter).over(meter.max(one())));
        b = b + 1;
        assert(out@ =~= want.take(b as int));
    }
    assert(out@ =~= want);
    out
}

/// The bars in each period that beats are placed in.
pub const PERIODS: [u64; 4] = [2, 4, 8, 16];

/// How far each beat has turned in its bar, and in each period.
pub open spec fn turning(grid: PredictorGrid, n: nat) -> Seq<Seq<Binary64>> {
    Seq::new(
        5,
        |row: int|
            Seq::new(
                n,
                |b: int|
                    if row == 0 {
                        product(full_turn(), phases(grid, n)[b])
                    } else {
                        quotient(
                            product(full_turn(), of_int(grid.bar_index_of_beat@[b] as int)),
                            of_int(PERIODS[row - 1] as int),
                        )
                    },
            ),
    )
}

/// How far each beat has turned in a period of some bars.
pub open spec fn in_period(grid: PredictorGrid, period: u64) -> Seq<Binary64> {
    grid.bar_index_of_beat@.map_values(
        |bar: usize| quotient(product(full_turn(), of_int(bar as int)), of_int(period as int)),
    )
}

/// How far each beat has turned in a period.
fn turn_in_period(grid: &PredictorGrid, period: u64) -> (r: Vec<Binary64>)
    ensures
        r@ == in_period(*grid, period),
{
    let ghost want = in_period(*grid, period);
    let mut out: Vec<Binary64> = Vec::new();
    let mut k: usize = 0;
    while k < grid.bar_index_of_beat.len()
        invariant
            k <= grid.bar_index_of_beat@.len(),
            want == in_period(*grid, period),
            out@ == want.take(k as int),
        decreases grid.bar_index_of_beat@.len() - k,
    {
        out.push(full_turn().times(Binary64::from_u64(grid.bar_index_of_beat[k] as u64)).over(Binary64::from_u64(period)));
        k = k + 1;
        assert(out@ =~= want.take(k as int));
    }
    assert(out@ =~= want);
    out
}

/// Shares of a full turn.
fn turn_by(shares: &[Binary64]) -> (r: Vec<Binary64>)
    ensures
        r@ == Seq::new(shares@.len(), |i: int| product(full_turn(), shares@[i])),
{
    let ghost want = Seq::new(shares@.len(), |i: int| product(full_turn(), shares@[i]));
    let mut out: Vec<Binary64> = Vec::new();
    let mut k: usize = 0;
    while k < shares.len()
        invariant
            k <= shares@.len(),
            want == Seq::new(shares@.len(), |i: int| product(full_turn(), shares@[i])),
            out@ == want.take(k as int),
        decreases shares@.len() - k,
    {
        out.push(full_turn().times(shares[k]));
        k = k + 1;
        assert(out@ =~= want.take(k as int));
    }
    assert(out@ =~= want);
    out
}

/// How far each beat has turned in its bar, and in periods of 2, 4, 8 and 16
/// bars, in radians.
pub fn turn_angles(grid: &PredictorGrid, n_beats: usize) -> (r: Vec<Vec<Binary64>>)
    requires
        grid.beat_in_bar@.len() == n_beats,
        grid.bar_index_of_beat@.len() == n_beats,
    ensures
        rows_of(r@) == turning(*grid, n_beats as nat),
{
    let ghost want = turning(*grid, n_beats as nat);
    let mut out: Vec<Vec<Binary64>> = Vec::new();
    let in_bar: Vec<Binary64> = turn_by(bar_phases(grid, n_beats).as_slice());
    assert(in_bar@ =~= want[0]);
    out.push(in_bar);
    let mut i: usize = 0;
    assert(rows_of(out@) =~= want.take(1));
    while i < 4
        invariant
            i <= 4,
            grid.bar_index_of_beat@.len() == n_beats,
            want == turning(*grid, n_beats as nat),
            rows_of(out@) == want.take(i + 1),
        decreases 4 - i,
    {
        let row: Vec<Binary64> = turn_in_period(grid, PERIODS[i]);
        assert(row@ =~= want[i + 1]);
        let ghost before = out@;
        out.push(row);
        assert(rows_of(out@) =~= rows_of(before).push(row@));
        i = i + 1;
        assert(rows_of(out@) =~= want.take(i + 1));
    }
    assert(rows_of(out@) =~= want);
    out
}

/// The beats since the last downbeat, or the number of all beats.
fn count_since(mask: &Vec<bool>, b: usize) -> (r: Binary64)
    requires
        b < mask@.len(),
    ensures
        r == count_or_all(since_downbeat(mask@, b as int), mask@.len()),
{
    let total: usize = mask.len();
    let mut back: usize = 0;
    while back <= b && !mask[b - back]
        invariant
            back <= b + 1,
            b < total == mask@.len(),
            since_downbeat(mask@, b as int) == match since_downbeat(mask@, b - back) {
                Some(n) => Some((n + back) as nat),
                None => None::<nat>,
            },
        decreases b + 1 - back,
    {
        back = back + 1;
    }
    if back <= b {
        Binary64::from_u64(back as u64)
    } else {
        Binary64::from_u64(mask.len() as u64)
    }
}

/// The beats until the next downbeat, or the number of all beats.
fn count_until(mask: &Vec<bool>, b: usize) -> (r: Binary64)
    requires
        b < mask@.len(),
    ensures
        r == count_or_all(until_downbeat(mask@, b as int), mask@.len()),
{
    let mut at: usize = b;
    while at < mask.len() && !mask[at]
        invariant
            b <= at <= mask@.len(),
            until_downbeat(mask@, b as int) == match until_downbeat(mask@, at as int) {
                Some(n) => Some((n + (at - b)) as nat),
                None => None::<nat>,
            },
        decreases mask@.len() - at,
    {
        at = at + 1;
    }
    if at < mask.len() {
        Binary64::from_u64((at - b) as u64)
    } else {
        Binary64::from_u64(mask.len() as u64)
    }
}

/// How far each beat is from the nearest downbeat, in bars.
fn list_distances(grid: &PredictorGrid, n: usize) -> (r: Vec<Binary64>)
    requires
        fits(*grid, n as nat),
        grid.bar_index_of_beat@.len() == n,
    ensures
        r@ == downbeat_distances(*grid, n as nat),
{
    let ghost want = downbeat_distances(*grid, n as nat);
    let mut out: Vec<Binary64> = Vec::new();
    let mut b: usize = 0;
    while b < n
        invariant
            b <= n,
            fits(*grid, n as nat),
            grid.bar_index_of_beat@.len() == n,
            want == downbeat_distances(*grid, n as nat),
            out@ == want.take(b as int),
        decreases n - b,
    {
        let near: Binary64 = count_since(&grid.downbeat_mask, b).min(count_until(&grid.downbeat_mask, b));
        out.push(near.over(meter_of(grid, b).max(one())));
        b = b + 1;
        assert(out@ =~= want.take(b as int));
    }
    assert(out@ =~= want);
    out
}

/// The beats that start a bar, as ones.
fn list_downbeats(grid: &PredictorGrid, n: usize) -> (r: Vec<Binary64>)
    requires
        fits(*grid, n as nat),
    ensures
        r@ == downbeat_flags(*grid, n as nat),
{
    let ghost want = downbeat_flags(*grid, n as nat);
    let mut out: Vec<Binary64> = Vec::new();
    let mut b: usize = 0;
    while b < n
        invariant
            b <= n,
            fits(*grid, n as nat),
            want == downbeat_flags(*grid, n as nat),
            out@ == want.take(b as int),
        decreases n - b,
    {
        out.push(flag_of(grid.downbeat_mask[b]));
        b = b + 1;
        assert(out@ =~= want.take(b as int));
    }
    assert(out@ =~= want);
    out
}

/// The beats that are the first of their bar, as ones.
fn list_firsts(grid: &PredictorGrid, n: usize) -> (r: Vec<Binary64>)
    requires
        fits(*grid, n as nat),
    ensures
        r@ == first_flags(*grid, n as nat),
{
    let ghost want = first_flags(*grid, n as nat);
    let mut out: Vec<Binary64> = Vec::new();
    let mut b: usize = 0;
    while b < n
        invariant
            b <= n,
            fits(*grid, n as nat),
            want == first_flags(*grid, n as nat),
            out@ == want.take(b as int),
        decreases n - b,
    {
        out.push(flag_of(grid.beat_in_bar[b] == 1));
        b = b + 1;
        assert(out@ =~= want.take(b as int));
    }
    assert(out@ =~= want);
    out
}

/// The beats in bars whose index is a multiple of a period, as ones.
fn list_period(grid: &PredictorGrid, n: usize, period: u64) -> (r: Vec<Binary64>)
    requires
        grid.bar_index_of_beat@.len() == n,
    ensures
        r@ == period_flags(*grid, n as nat, period as int),
{
    let ghost want = period_flags(*grid, n as nat, period as int);
    let mut out: Vec<Binary64> = Vec::new();
    let mut b: usize = 0;
    while b < n
        invariant
            b <= n,
            grid.bar_index_of_beat@.len() == n,
            want == period_flags(*grid, n as nat, period as int),
            out@ == want.take(b as int),
        decreases n - b,
    {
        let place: Binary64 = Binary64::from_u64(grid.bar_index_of_beat[b] as u64);
        out.push(flag_of(place.rem(Binary64::from_u64(period)).same(zero())));
        b = b + 1;
        assert(out@ =~= want.take(b as int));
    }
    assert(out@ =~= want);
    out
}

/// The columns of the metrical context, before they are scaled.
fn list_columns(grid: &PredictorGrid, n: usize, turns: &Vec<Vec<Binary64>>) -> (r: Vec<Vec<Binary64>>)
    requires
        fits(*grid, n as nat),
        grid.bar_index_of_beat@.len() == n,
        turns@.len() == 10,
    ensures
        rows_of(r@) == context_columns(*grid, n as nat, rows_of(turns@)),
{
    let ghost t = rows_of(turns@);
    let mut out: Vec<Vec<Binary64>> = Vec::new();
    out.push(list_downbeats(grid, n));
    out.push(list_firsts(grid, n));
    out.push(slice_to_vec(turns[0].as_slice()));
    out.push(slice_to_vec(turns[1].as_slice()));
    out.push(list_distances(grid, n));
    out.push(list_period(grid, n, 2));
    out.push(slice_to_vec(turns[2].as_slice()));
    out.push(slice_to_vec(turns[3].as_slice()));
    out.push(list_period(grid, n, 4));
    out.push(slice_to_vec(turns[4].as_slice()));
    out.push(slice_to_vec(turns[5].as_slice()));
    out.push(list_period(grid, n, 8));
    out.push(slice_to_vec(turns[6].as_slice()));
    out.push(slice_to_vec(turns[7].as_slice()));
    out.push(list_period(grid, n, 16));
    out.push(slice_to_vec(turns[8].as_slice()));
    out.push(slice_to_vec(turns[9].as_slice()));
    assert(rows_of(out@) =~= context_columns(*grid, n as nat, t));
    out
}

/// Where each beat sits in the bar and in the hypermetre, as 17 columns; no
/// columns where the grid does not fit the beats.
///
/// `turns` holds the sine and cosine of each beat in its bar, and in periods of
/// 2, 4, 8 and 16 bars.
pub fn grid_context(grid: &PredictorGrid, n_beats: usize, turns: &Vec<Vec<Binary64>>) -> (r: Mat)
    requires
        fits(*grid, n_beats as nat) ==> grid.bar_index_of_beat@.len() == n_beats,
        turns@.len() == 10,
        forall|i: int| 0 <= i < 10 ==> (#[trigger] turns@[i])@.len() == n_beats,
        17 * n_beats <= usize::MAX,
    ensures
        r.wf(),
        r.height() == n_beats,
        fits(*grid, n_beats as nat) ==> r.width() == 17 && r.grid() == turned(
            centred_rows(context_columns(*grid, n_beats as nat, rows_of(turns@))),
            n_beats as nat,
        ),
        !fits(*grid, n_beats as nat) ==> r.width() == 0,
{
    if grid.beat_in_bar.len() != n_beats || grid.downbeat_mask.len() != n_beats {
        return Mat::zeros(n_beats, 0);
    }
    let columns: Vec<Vec<Binary64>> = list_columns(grid, n_beats, turns);
    let scaled: Vec<Vec<Binary64>> = centre_rows(&columns);
    proof {
        let raw = rows_of(columns@);
        let t = rows_of(turns@);
        assert forall|i: int| 0 <= i < 10 implies (#[trigger] t[i]).len() == n_beats by {
            assert(t[i] == turns@[i]@);
        }
        assert(raw.len() == 17);
        assert(t[0].len() == n_beats && t[1].len() == n_beats && t[2].len() == n_beats && t[3].len() == n_beats);
        assert(t[4].len() == n_beats && t[5].len() == n_beats && t[6].len() == n_beats && t[7].len() == n_beats);
        assert(t[8].len() == n_beats && t[9].len() == n_beats);
        assert(even_rows(raw, n_beats as nat));
        assert forall|i: int| 0 <= i < rows_of(scaled@).len() implies (#[trigger] rows_of(scaled@)[i]).len()
            == n_beats by {
            assert(raw[i].len() == n_beats);
        }
    }
    let rows: Vec<Vec<Binary64>> = turn_rows(&scaled, n_beats);
    proof {
        assert forall|i: int| 0 <= i < rows_of(rows@).len() implies (#[trigger] rows_of(rows@)[i]).len() == 17 by {
            assert(rows_of(rows@)[i] == turned(rows_of(scaled@), n_beats as nat)[i]);
        }
    }
    Mat::of_rows(rows, 17)
}

/// The count to the downbeat before a beat is how far back the last downbeat is.
pub proof fn law_the_last_downbeat_is_counted_from(mask: Seq<bool>, b: int, d: int)
    requires
        0 <= d <= b < mask.len(),
        mask[d],
        forall|k: int| d < k <= b ==> !#[trigger] mask[k],
    ensures
        since_downbeat(mask, b) == Some((b - d) as nat),
    decreases b - d,
{
    if d < b {
        assert(!mask[b]);
        law_the_last_downbeat_is_counted_from(mask, b - 1, d);
    }
}

/// The count to the downbeat behind a beat is how far ahead the next downbeat is.
pub proof fn law_the_next_downbeat_is_counted_to(mask: Seq<bool>, b: int, d: int)
    requires
        0 <= b <= d < mask.len(),
        mask[d],
        forall|k: int| b <= k < d ==> !#[trigger] mask[k],
    ensures
        until_downbeat(mask, b) == Some((d - b) as nat),
    decreases d - b,
{
    if b < d {
        assert(!mask[b]);
        law_the_next_downbeat_is_counted_to(mask, b + 1, d);
    }
}

} // verus!
