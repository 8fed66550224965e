//! The frequency bands that the waveform is drawn from.

use crate::number::binary64::{clamped, difference, half, larger, of_int, one, product, quotient, smaller, sum, zero, Binary64};
use crate::number::root::square_root;
use vstd::prelude::*;

verus! {

/// A band of the spectrum, expressed as a frequency range.
#[derive(Debug, Clone, Copy, PartialEq, Structural)]
pub struct Band {
    pub low_hz: Binary64,
    pub high_hz: Binary64,
}

/// How much of the spectrum below the Nyquist frequency is usable: 0.98.
#[verifier::allow_in_spec]
pub fn usable_share() -> Binary64
    returns
        (Binary64 { bits: 0x3FEF_5C28_F5C2_8F5C }),
{
    Binary64 { bits: 0x3FEF_5C28_F5C2_8F5C }
}

/// The flattest filter: 0.2.
#[verifier::allow_in_spec]
pub fn flattest() -> Binary64
    returns
        (Binary64 { bits: 0x3FC9_9999_9999_999A }),
{
    Binary64 { bits: 0x3FC9_9999_9999_999A }
}

/// The lower edge in use, at least one.
pub open spec fn lower_edge(band: Band) -> Binary64 {
    larger(band.low_hz, one())
}

/// The upper edge in use: below the Nyquist frequency, and above the lower one.
pub open spec fn upper_edge(band: Band, nyquist: Binary64) -> Binary64 {
    larger(smaller(band.high_hz, product(nyquist, usable_share())), sum(lower_edge(band), one()))
}

/// The geometric centre of a band.
pub open spec fn centre_of(band: Band, nyquist: Binary64) -> Binary64 {
    square_root(product(lower_edge(band), upper_edge(band, nyquist)))
}

/// How sharp a filter has to be for a band.
pub open spec fn sharpness_of(band: Band, nyquist: Binary64) -> Binary64 {
    let width = difference(upper_edge(band, nyquist), lower_edge(band));
    if width.spec_le(zero()) {
        one()
    } else {
        clamped(quotient(centre_of(band, nyquist), width), flattest(), of_int(20))
    }
}

impl Band {
    /// A band between two frequencies.
    pub fn new(low_hz: Binary64, high_hz: Binary64) -> (r: Self)
        ensures
            r == (Band { low_hz, high_hz }),
    {
        Band { low_hz, high_hz }
    }

    /// Geometric centre, which is where a bandpass should sit for a log-spaced
    /// band.
    pub fn center(&self, nyquist: Binary64) -> (r: Binary64)
        ensures
            r == centre_of(*self, nyquist),
    {
        let low: Binary64 = self.low_hz.max(one());
        let high: Binary64 = self.high_hz.min(nyquist.times(usable_share())).max(low.plus(one()));
        low.times(high).sqrt()
    }

    /// The Q that makes the -3 dB points land on the band edges.
    pub fn q(&self, nyquist: Binary64) -> (r: Binary64)
        ensures
            r == sharpness_of(*self, nyquist),
    {
        let low: Binary64 = self.low_hz.max(one());
        let high: Binary64 = self.high_hz.min(nyquist.times(usable_share())).max(low.plus(one()));
        let width: Binary64 = high.minus(low);
        if width.le(zero()) {
            one()
        } else {
            low.times(high).sqrt().over(width).clamp(flattest(), Binary64::from_u64(20))
        }
    }
}

/// The Nyquist frequency of a sample rate.
pub fn nyquist_of(sample_rate: u32) -> (r: Binary64)
    ensures
        r == product(of_int(sample_rate as int), half()),
{
    Binary64::from_u64(sample_rate as u64).times(half())
}

/// The filter passes for an order: half of it, rounded up, at least one.
pub fn filter_sections(order: u32) -> (r: u32)
    ensures
        r == if order < 1 {
            1
        } else {
            (order as int + 1) / 2
        },
{
    if order < 1 {
        1
    } else {
        order / 2 + order % 2
    }
}

} // verus!
