//! Decibels: levels against a reference, none far below the loudest.

use crate::detect::matrix::Mat;
use crate::detect::spectrum::{raise_to_floor, raised_to_floor};
use crate::detect::sync::least_power;
use crate::number::binary64::{absolute, difference, larger, negated, of_int, product, Binary64};
use crate::number::laws::{
    law_addition_keeps_the_order, law_comparison_is_numeric, law_multiplication_keeps_the_order,
    law_small_integers_are_exact, law_small_integers_keep_their_order,
};
use crate::number::lists::highest;
use vstd::prelude::*;

verus! {

/// What levels are measured against.
#[derive(Debug, Clone, Copy, PartialEq, Structural)]
pub enum DbRef {
    /// The loudest cell of the whole spectrogram becomes 0 dB.
    Max,
    /// A fixed reference.
    Value(Binary64),
}

/// The level that some powers are measured against, never next to nothing.
pub open spec fn reference_level(power: Seq<Binary64>, reference: DbRef) -> Binary64 {
    let level = match reference {
        DbRef::Max => highest(power),
        DbRef::Value(value) => absolute(value),
    };
    larger(level, least_power())
}

/// The level that a spectrogram is measured against.
pub fn reference_of(power: &Mat, reference: DbRef) -> (r: Binary64)
    ensures
        r == reference_level(power.flat(), reference),
{
    let level: Binary64 = match reference {
        DbRef::Max => power.max(),
        DbRef::Value(value) => value.abs(),
    };
    level.max(least_power())
}

/// Values of at least a least one.
fn raise_each(values: &[Binary64], least: Binary64) -> (r: Vec<Binary64>)
    ensures
        r@ == Seq::new(values@.len(), |i: int| larger(values@[i], least)),
{
    let ghost want = Seq::new(values@.len(), |i: int| larger(values@[i], least));
    let mut out: Vec<Binary64> = Vec::new();
    let mut k: usize = 0;
    while k < values.len()
        invariant
            k <= values@.len(),
            want == Seq::new(values@.len(), |i: int| larger(values@[i], least)),
            out@ == want.take(k as int),
        decreases values@.len() - k,
    {
        out.push(values[k].max(least));
        k = k + 1;
        assert(out@ =~= want.take(k as int));
    }
    assert(out@ =~= want);
    out
}

/// A spectrogram with no power next to nothing, so that it has logarithms.
pub fn audible(power: &Mat) -> (r: Mat)
    ensures
        r.height() == power.height(),
        r.width() == power.width(),
        r.flat() == power.flat().map_values(|v: Binary64| larger(v, least_power())),
{
    let data: Vec<Binary64> = raise_each(power.as_slice(), least_power());
    assert(data@ =~= power.flat().map_values(|v: Binary64| larger(v, least_power())));
    power.with_values(data)
}

/// The decibels of powers from their decimal logarithms and that of the
/// reference.
pub open spec fn decibels(logs: Seq<Binary64>, reference_log: Binary64) -> Seq<Binary64> {
    logs.map_values(|v: Binary64| difference(product(of_int(10), v), product(of_int(10), reference_log)))
}

/// Decibels from the decimal logarithms of powers and of their reference, none
/// more than 80 below the loudest of the whole spectrogram.
pub fn power_to_db(logs: &Mat, reference_log: Binary64) -> (r: Mat)
    ensures
        r.height() == logs.height(),
        r.width() == logs.width(),
        r.flat() == raised_to_floor(decibels(logs.flat(), reference_log), of_int(80)),
{
    let loud: Vec<Binary64> = decibels_of(logs.as_slice(), reference_log);
    logs.with_values(raise_to_floor(loud.as_slice(), Binary64::from_u64(80)))
}

/// The decibels of powers from their decimal logarithms.
fn decibels_of(logs: &[Binary64], reference_log: Binary64) -> (r: Vec<Binary64>)
    ensures
        r@ == decibels(logs@, reference_log),
{
    let ghost want = decibels(logs@, reference_log);
    let ten: Binary64 = Binary64::from_u64(10);
    let offset: Binary64 = ten.times(reference_log);
    let mut out: Vec<Binary64> = Vec::new();
    let mut k: usize = 0;
    while k < logs.len()
        invariant
            k <= logs@.len(),
            ten == of_int(10),
            offset == product(of_int(10), reference_log),
            want == decibels(logs@, reference_log),
            out@ == want.take(k as int),
        decreases logs@.len() - k,
    {
        out.push(ten.times(logs[k]).minus(offset));
        k = k + 1;
        assert(out@ =~= want.take(k as int));
    }
    assert(out@ =~= want);
    out
}

/// Squares of values.
fn squares_of(values: &[Binary64]) -> (r: Vec<Binary64>)
    ensures
        r@ == Seq::new(values@.len(), |i: int| product(values@[i], values@[i])),
{
    let ghost want = Seq::new(values@.len(), |i: int| product(values@[i], values@[i]));
    let mut out: Vec<Binary64> = Vec::new();
    let mut k: usize = 0;
    while k < values.len()
        invariant
            k <= values@.len(),
            want == Seq::new(values@.len(), |i: int| product(values@[i], values@[i])),
            out@ == want.take(k as int),
        decreases values@.len() - k,
    {
        out.push(values[k].times(values[k]));
        k = k + 1;
        assert(out@ =~= want.take(k as int));
    }
    assert(out@ =~= want);
    out
}

/// Squares of all values.
pub fn squared(values: &Mat) -> (r: Mat)
    ensures
        r.height() == values.height(),
        r.width() == values.width(),
        r.flat() == values.flat().map_values(|v: Binary64| product(v, v)),
{
    let data: Vec<Binary64> = squares_of(values.as_slice());
    assert(data@ =~= values.flat().map_values(|v: Binary64| product(v, v)));
    values.with_values(data)
}

/// How far each value of a matrix stands above that of another.
pub fn above(upper: &Mat, lower: &Mat) -> (r: Mat)
    requires
        lower.flat().len() == upper.flat().len(),
    ensures
        r.height() == upper.height(),
        r.width() == upper.width(),
        r.flat() == Seq::new(upper.flat().len(), |i: int| difference(upper.flat()[i], lower.flat()[i])),
{
    let ghost want = Seq::new(upper.flat().len(), |i: int| difference(upper.flat()[i], lower.flat()[i]));
    let peaks: &[Binary64] = upper.as_slice();
    let valleys: &[Binary64] = lower.as_slice();
    let mut data: Vec<Binary64> = Vec::new();
    let mut i: usize = 0;
    while i < peaks.len()
        invariant
            i <= peaks@.len() == valleys@.len(),
            peaks@ == upper.flat(),
            valleys@ == lower.flat(),
            want == Seq::new(upper.flat().len(), |k: int| difference(upper.flat()[k], lower.flat()[k])),
            data@ == want.take(i as int),
        decreases peaks@.len() - i,
    {
        data.push(peaks[i].minus(valleys[i]));
        i = i + 1;
        assert(data@ =~= want.take(i as int));
    }
    assert(data@ =~= want);
    upper.with_values(data)
}

/// A louder value has no fewer decibels.
pub proof fn law_decibels_keep_the_order(logs: Seq<Binary64>, reference_log: Binary64, a: int, b: int)
    requires
        0 <= a < logs.len(),
        0 <= b < logs.len(),
        logs[a].finite() && logs[b].finite(),
        logs[a].spec_le(logs[b]),
        product(of_int(10), reference_log).finite(),
    ensures
        decibels(logs, reference_log)[a].spec_le(decibels(logs, reference_log)[b]),
{
    law_small_integers_are_exact(10);
    law_small_integers_keep_their_order(0, 10);
    law_small_integers_are_exact(0);
    law_comparison_is_numeric(of_int(0), of_int(10));
    assert(!of_int(10).negative());
    law_multiplication_keeps_the_order(logs[a], logs[b], of_int(10));
    law_addition_keeps_the_order(
        product(of_int(10), logs[a]),
        product(of_int(10), logs[b]),
        negated(product(of_int(10), reference_log)),
    );
}

} // verus!
