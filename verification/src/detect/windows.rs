//! Windows on a signal, and the scale that bands are spaced on.

use crate::number::binary64::{difference, full_turn, half, of_int, one, product, quotient, sum, zero, Binary64};
use vstd::prelude::*;

verus! {

/// The angle of place `i` of a periodic window of `n` places.
pub open spec fn place_angle(i: int, n: int) -> Binary64 {
    quotient(product(full_turn(), of_int(i)), of_int(n))
}

/// The angles of the places of a periodic window.
pub fn hann_angles(n: usize) -> (r: Vec<Binary64>)
    ensures
        r@ == Seq::new(n as nat, |i: int| place_angle(i, n as int)),
{
    let ghost want = Seq::new(n as nat, |i: int| place_angle(i, n as int));
    let mut out: Vec<Binary64> = Vec::new();
    let mut k: usize = 0;
    while k < n
        invariant
            k <= n as nat,
            want == Seq::new(n as nat, |i: int| place_angle(i, n as int)),
            out@ == want.take(k as int),
        decreases n as nat - k,
    {
        out.push(full_turn().times(Binary64::from_u64(k as u64)).over(Binary64::from_u64(n as u64)));
        k = k + 1;
        assert(out@ =~= want.take(k as int));
    }
    assert(out@ =~= want);
    out
}

/// Periodic Hann window, given the cosines of the angles of its places.
pub fn hann_periodic(cosines: &[Binary64]) -> (r: Vec<Binary64>)
    ensures
        r@ == Seq::new(cosines@.len(), |i: int| difference(half(), product(half(), cosines@[i]))),
{
    let ghost want = Seq::new(cosines@.len(), |i: int| difference(half(), product(half(), cosines@[i])));
    let mut out: Vec<Binary64> = Vec::new();
    let mut k: usize = 0;
    while k < cosines.len()
        invariant
            k <= cosines@.len(),
            want == Seq::new(cosines@.len(), |i: int| difference(half(), product(half(), cosines@[i]))),
            out@ == want.take(k as int),
        decreases cosines@.len() - k,
    {
        out.push(half().minus(half().times(cosines[k])));
        k = k + 1;
        assert(out@ =~= want.take(k as int));
    }
    assert(out@ =~= want);
    out
}

/// Sample `i` of a signal that is silent outside its bounds.
pub open spec fn sample_at(signal: Seq<Binary64>, i: int) -> Binary64 {
    if 0 <= i < signal.len() {
        signal[i]
    } else {
        zero()
    }
}

/// The samples under a window that starts at `start` in a signal with `pad` silent samples before it.
pub fn windowed(signal: &[Binary64], window: &[Binary64], start: usize, pad: usize) -> (r: Vec<Binary64>)
    requires
        start + window@.len() <= usize::MAX,
    ensures
        r@ == Seq::new(window@.len(), |i: int| product(sample_at(signal@, start + i - pad), window@[i])),
{
    let ghost want = Seq::new(window@.len(), |i: int| product(sample_at(signal@, start + i - pad), window@[i]));
    let mut out: Vec<Binary64> = Vec::new();
    let mut k: usize = 0;
    while k < window.len()
        invariant
            k <= window@.len(),
            start + window@.len() <= usize::MAX,
            want == Seq::new(window@.len(), |i: int| product(sample_at(signal@, start + i - pad), window@[i])),
            out@ == want.take(k as int),
        decreases window@.len() - k,
    {
        out.push(sample_or_silence(signal, start + k, pad).times(window[k]));
        k = k + 1;
        assert(out@ =~= want.take(k as int));
    }
    assert(out@ =~= want);
    out
}

/// Sample `at` of a signal with `pad` silent samples before it, and silence
/// after it.
fn sample_or_silence(signal: &[Binary64], at: usize, pad: usize) -> (r: Binary64)
    ensures
        r == sample_at(signal@, at - pad),
{
    if at >= pad && at - pad < signal.len() {
        signal[at - pad]
    } else {
        zero()
    }
}

/// Hertz per step of the scale up to a kilohertz: 200/3.
pub open spec fn linear_step() -> Binary64 {
    quotient(of_int(200), of_int(3))
}

/// The place of a frequency on a scale that is linear up to a kilohertz and
/// logarithmic above, given the logarithm of the frequency in kilohertz and the
/// step of the scale there.
pub open spec fn place_on_scale(hz: Binary64, log: Binary64, step: Binary64) -> Binary64 {
    if of_int(1000).spec_le(hz) {
        sum(quotient(of_int(1000), linear_step()), quotient(log, step))
    } else {
        quotient(hz, linear_step())
    }
}

/// The place of a frequency on the mel scale.
pub fn hz_to_mel(hz: Binary64, log: Binary64, step: Binary64) -> (r: Binary64)
    ensures
        r == place_on_scale(hz, log, step),
{
    let linear: Binary64 = Binary64::from_u64(200).over(Binary64::from_u64(3));
    let bend: Binary64 = Binary64::from_u64(1000);
    if bend.le(hz) {
        bend.over(linear).plus(log.over(step))
    } else {
        hz.over(linear)
    }
}

/// The exponent of the kilohertz at a place above the bend of the scale.
pub open spec fn exponent_on_scale(mel: Binary64, step: Binary64) -> Binary64 {
    product(step, difference(mel, quotient(of_int(1000), linear_step())))
}

/// The frequency at a place on the scale, given the exponential of its
/// exponent.
pub open spec fn frequency_at(mel: Binary64, exp: Binary64) -> Binary64 {
    if quotient(of_int(1000), linear_step()).spec_le(mel) {
        product(of_int(1000), exp)
    } else {
        product(linear_step(), mel)
    }
}

/// The exponent of the kilohertz at a place above the bend of the scale.
pub fn mel_exponent(mel: Binary64, step: Binary64) -> (r: Binary64)
    ensures
        r == exponent_on_scale(mel, step),
{
    let linear: Binary64 = Binary64::from_u64(200).over(Binary64::from_u64(3));
    step.times(mel.minus(Binary64::from_u64(1000).over(linear)))
}

/// The frequency at a place on the mel scale, given the exponential of its
/// exponent.
pub fn mel_to_hz(mel: Binary64, exp: Binary64) -> (r: Binary64)
    ensures
        r == frequency_at(mel, exp),
{
    let linear: Binary64 = Binary64::from_u64(200).over(Binary64::from_u64(3));
    if Binary64::from_u64(1000).over(linear).le(mel) {
        Binary64::from_u64(1000).times(exp)
    } else {
        linear.times(mel)
    }
}

/// The number whose decimal logarithm places a frequency on the scale with its
/// bend at 700 hertz.
pub open spec fn bent_ratio(hz: Binary64) -> Binary64 {
    sum(one(), quotient(hz, of_int(700)))
}

/// The number whose decimal logarithm places a frequency on the bent scale.
pub fn bend_ratio(hz: Binary64) -> (r: Binary64)
    ensures
        r == bent_ratio(hz),
{
    one().plus(hz.over(Binary64::from_u64(700)))
}

/// The place on the bent scale, given that logarithm.
pub fn bent_place(log: Binary64) -> (r: Binary64)
    ensures
        r == product(of_int(2595), log),
{
    Binary64::from_u64(2595).times(log)
}

/// The exponent of ten for the frequency at a place on the bent scale.
pub fn bent_exponent(place: Binary64) -> (r: Binary64)
    ensures
        r == quotient(place, of_int(2595)),
{
    place.over(Binary64::from_u64(2595))
}

/// The frequency at a place on the bent scale, given that power of ten.
pub fn bent_frequency(power: Binary64) -> (r: Binary64)
    ensures
        r == product(of_int(700), difference(power, one())),
{
    Binary64::from_u64(700).times(power.minus(one()))
}

} // verus!
