//! Decoded audio: averaging its channels, and turning its rate into another.
//!
//! Samples have single precision; each is held as the number it is equal to.

use crate::analyze::error::DecodeError;
use crate::number::binary64::{
    absolute, difference, full_turn, half, half_turn, of_int, one, pico, product, quotient, smaller, sum, zero, Binary64,
};
use crate::number::integral::{ceiled, floored, nearest_integer, signed_truncated, truncated};
use crate::number::lists::slice_to_vec;
use crate::number::single::{single, to_single};
use vstd::prelude::*;

verus! {

/// Decoded audio, interleaved.
#[derive(Debug)]
pub struct Audio {
    samples: Vec<Binary64>,
    channels: usize,
    sample_rate: u32,
}

impl Clone for Audio {
    fn clone(&self) -> (r: Self)
        ensures
            r.interleaved() == self.interleaved(),
            r.width() == self.width(),
            r.rate() == self.rate(),
    {
        proof {
            use_type_invariant(self);
        }
        Audio { samples: slice_to_vec(self.samples.as_slice()), channels: self.channels, sample_rate: self.sample_rate }
    }
}

/// The sum of the first `n` samples of a frame, in single precision.
pub open spec fn frame_total(samples: Seq<Binary64>, start: int, n: nat) -> Binary64
    decreases n,
{
    if n == 0 {
        zero()
    } else {
        single(sum(frame_total(samples, start, (n - 1) as nat), samples[start + n - 1]))
    }
}

/// What one channel of so many counts for, in single precision.
pub open spec fn channel_share(channels: usize) -> Binary64 {
    single(quotient(one(), single(of_int(channels as int))))
}

/// The channels of each whole frame averaged; a single channel as it is.
pub open spec fn averaged(samples: Seq<Binary64>, channels: usize) -> Seq<Binary64> {
    if channels == 1 {
        samples
    } else {
        Seq::new(
            (samples.len() as int / channels as int) as nat,
            |f: int| single(product(frame_total(samples, f * channels, channels as nat), channel_share(channels))),
        )
    }
}

impl Audio {
    #[verifier::type_invariant]
    spec fn well_formed(&self) -> bool {
        self.channels >= 1
    }

    /// The interleaved samples.
    pub closed spec fn interleaved(&self) -> Seq<Binary64> {
        self.samples@
    }

    /// Samples per frame.
    pub closed spec fn width(&self) -> usize {
        self.channels
    }

    /// Frames per second.
    pub closed spec fn rate(&self) -> u32 {
        self.sample_rate
    }

    /// Wraps raw interleaved samples, of one channel at least.
    pub fn new(samples: Vec<Binary64>, channels: usize, sample_rate: u32) -> (r: Self)
        ensures
            r.interleaved() == samples@,
            r.width() == if channels < 1 {
                1
            } else {
                channels
            },
            r.rate() == sample_rate,
    {
        let channels: usize = if channels < 1 {
            1
        } else {
            channels
        };
        Audio { samples, channels, sample_rate }
    }

    /// Audio of one channel.
    pub fn mono(samples: Vec<Binary64>, sample_rate: u32) -> (r: Self)
        ensures
            r.interleaved() == samples@,
            r.width() == 1,
            r.rate() == sample_rate,
    {
        Audio::new(samples, 1, sample_rate)
    }

    /// Samples per frame.
    pub fn channels(&self) -> (r: usize)
        ensures
            r == self.width(),
            r >= 1,
    {
        proof {
            use_type_invariant(self);
        }
        self.channels
    }

    /// Frames per second.
    pub fn sample_rate(&self) -> (r: u32)
        ensures
            r == self.rate(),
    {
        self.sample_rate
    }

    /// Interleaved sample data.
    pub fn samples(&self) -> (r: &[Binary64])
        ensures
            r@ == self.interleaved(),
    {
        self.samples.as_slice()
    }

    /// Number of frames: samples per channel.
    pub fn frames(&self) -> (r: usize)
        ensures
            r == self.interleaved().len() as int / self.width() as int,
    {
        proof {
            use_type_invariant(self);
        }
        self.samples.len() / self.channels
    }

    /// The length in seconds; nothing without a sample rate.
    pub fn duration_sec(&self) -> (r: Binary64)
        ensures
            r == if self.rate() == 0 {
                zero()
            } else {
                quotient(of_int(self.interleaved().len() as int / self.width() as int), of_int(self.rate() as int))
            },
    {
        if self.sample_rate == 0 {
            return zero();
        }
        Binary64::from_u64(self.frames() as u64).over(Binary64::from_u64(self.sample_rate as u64))
    }

    /// Whether there are no samples.
    pub fn is_empty(&self) -> (r: bool)
        ensures
            r == (self.interleaved().len() == 0),
    {
        self.samples.len() == 0
    }

    /// Averages the channels down to mono.
    pub fn to_mono(&self) -> (r: Vec<Binary64>)
        ensures
            r@ == averaged(self.interleaved(), self.width()),
    {
        proof {
            use_type_invariant(self);
        }
        if self.channels == 1 {
            return slice_to_vec(self.samples.as_slice());
        }
        let count: usize = self.samples.len();
        let frames: usize = count / self.channels;
        let share: Binary64 = to_single(one().over(to_single(Binary64::from_u64(self.channels as u64))));
        let ghost want = averaged(self.interleaved(), self.width());
        let mut out: Vec<Binary64> = Vec::new();
        let mut f: usize = 0;
        while f < frames
            invariant
                f <= frames,
                self.channels > 1,
                count == self.samples@.len(),
                frames == count as int / self.channels as int,
                share == channel_share(self.channels),
                want == averaged(self.samples@, self.channels),
                out@ == want.take(f as int),
            decreases frames - f,
        {
            proof {
                lemma_frame_inside(count as int, self.channels as int, f as int);
            }
            out.push(to_single(self.total_of_frame(f * self.channels).times(share)));
            f = f + 1;
            assert(out@ =~= want.take(f as int));
        }
        assert(out@ =~= want);
        out
    }

    /// The sum of a frame, in single precision.
    fn total_of_frame(&self, start: usize) -> (r: Binary64)
        requires
            start + self.width() <= self.interleaved().len() <= usize::MAX,
        ensures
            r == frame_total(self.interleaved(), start as int, self.width() as nat),
    {
        let mut out: Binary64 = zero();
        let mut c: usize = 0;
        while c < self.channels
            invariant
                c <= self.channels,
                start + self.channels <= self.samples@.len() <= usize::MAX,
                out == frame_total(self.samples@, start as int, c as nat),
            decreases self.channels - c,
        {
            out = to_single(out.plus(self.samples[start + c]));
            c = c + 1;
        }
        out
    }

    /// How to turn the rate into another: not at all where they are the same,
    /// and an error where either is none.
    pub fn resampler(&self, target_rate: u32) -> (r: Result<Option<Resampler>, DecodeError>)
        ensures
            r == if target_rate == 0 || self.rate() == 0 {
                Err::<Option<Resampler>, DecodeError>(
                    DecodeError::BadSampleRate { from: self.rate(), to: target_rate },
                )
            } else if self.rate() == target_rate {
                Ok::<Option<Resampler>, DecodeError>(None)
            } else {
                Ok::<Option<Resampler>, DecodeError>(Some(Resampler::between(self.rate(), target_rate)))
            },
    {
        if target_rate == 0 || self.sample_rate == 0 {
            return Err(DecodeError::BadSampleRate { from: self.sample_rate, to: target_rate });
        }
        if self.sample_rate == target_rate {
            return Ok(None);
        }
        Ok(Some(Resampler::new(self.sample_rate, target_rate)))
    }
}

/// A frame of a signal lies inside it.
proof fn lemma_frame_inside(count: int, channels: int, f: int)
    requires
        channels > 0,
        0 <= f < count / channels,
    ensures
        0 <= f * channels,
        f * channels + channels <= count,
{
    let n = count / channels;
    vstd::arithmetic::div_mod::lemma_fundamental_div_mod(count, channels);
    assert(0 <= f * channels && f * channels + channels <= n * channels) by (nonlinear_arith)
        requires
            0 <= f < n,
            channels > 0,
    ;
    assert(n * channels == channels * n) by (nonlinear_arith);
}

/// How one rate is turned into another: band-limited, with a windowed sinc
/// kernel.
///
/// When the rate goes down, the kernel is stretched to the band of the output,
/// so that it filters before it decimates. When it goes up, the band of the
/// input is kept.
#[derive(Debug, Clone, Copy, PartialEq, Structural)]
pub struct Resampler {
    /// Samples of the output per sample of the input.
    pub ratio: Binary64,
    /// The band that is kept, at most all of it.
    pub cutoff: Binary64,
    /// Samples of the input per sample of the output.
    pub step: Binary64,
    /// How many samples the kernel reaches to either side.
    pub width: i64,
}

/// The half-width of the kernel, in samples of the band that is kept.
pub const HALF_WIDTH: u64 = 16;

/// The weights of a Blackman window: 0.42 and 0.08, about a half.
pub const BLACKMAN: [u64; 2] = [0x3FDA_E147_AE14_7AE1, 0x3FB4_7AE1_47AE_147B];

/// `n` cut to between 0 and `len`.
pub open spec fn inside(n: int, len: nat) -> nat {
    if n < 0 {
        0
    } else if n > len {
        len
    } else {
        n as nat
    }
}

/// The sine of an angle over the angle, given the sine of half a turn times
/// `x`.
pub open spec fn cardinal_sine(x: Binary64, sine: Binary64) -> Binary64 {
    if absolute(x).spec_lt(pico()) {
        one()
    } else {
        quotient(sine, product(half_turn(), x))
    }
}

/// The angle at `x` of a window that reaches `half_width` to either side.
pub open spec fn angle_in_window(x: Binary64, half_width: Binary64) -> Binary64 {
    product(full_turn(), product(sum(quotient(x, half_width), one()), half()))
}

/// The window at `x`, given the cosines of its angle and of twice that; nothing
/// outside its support.
pub open spec fn window_at(x: Binary64, half_width: Binary64, cosine: Binary64, second: Binary64) -> Binary64 {
    if half_width.spec_lt(absolute(x)) {
        zero()
    } else {
        sum(
            difference(Binary64 { bits: BLACKMAN@[0] }, product(half(), cosine)),
            product(Binary64 { bits: BLACKMAN@[1] }, second),
        )
    }
}

/// The angle at `x` of a window that reaches `half_width` to either side.
pub fn window_angle(x: Binary64, half_width: Binary64) -> (r: Binary64)
    ensures
        r == angle_in_window(x, half_width),
{
    full_turn().times(x.over(half_width).plus(one()).times(half()))
}

/// The sine of an angle over the angle.
pub fn sinc(x: Binary64, sine: Binary64) -> (r: Binary64)
    ensures
        r == cardinal_sine(x, sine),
{
    if x.abs().lt(pico()) {
        one()
    } else {
        sine.over(half_turn().times(x))
    }
}

/// The Blackman window at `x`, given the cosines of its angle and of twice that.
pub fn blackman(x: Binary64, half_width: Binary64, cosine: Binary64, second: Binary64) -> (r: Binary64)
    ensures
        r == window_at(x, half_width, cosine, second),
{
    if half_width.lt(x.abs()) {
        return zero();
    }
    Binary64::from_bits(BLACKMAN[0]).minus(half().times(cosine)).plus(Binary64::from_bits(BLACKMAN[1]).times(second))
}

/// The weighted sum of the first `n` samples from `start` on, and the sum of
/// their weights.
pub open spec fn weighed(input: Seq<Binary64>, start: int, weights: Seq<Binary64>, n: nat) -> (Binary64, Binary64)
    decreases n,
{
    if n == 0 {
        (zero(), zero())
    } else {
        let before = weighed(input, start, weights, (n - 1) as nat);
        (
            sum(before.0, product(input[start + n - 1], weights[n - 1])),
            sum(before.1, weights[n - 1]),
        )
    }
}

impl Resampler {
    /// How one rate is turned into another.
    pub open spec fn between(from: u32, to: u32) -> Resampler {
        let ratio = quotient(of_int(to as int), of_int(from as int));
        let cutoff = smaller(ratio, one());
        Resampler {
            ratio,
            cutoff,
            step: quotient(one(), ratio),
            width: signed_truncated(ceiled(quotient(of_int(16), cutoff))) as i64,
        }
    }

    /// How many samples come of some.
    pub open spec fn length(self, samples: nat) -> nat {
        truncated(nearest_integer(product(of_int(samples as int), self.ratio)), usize::MAX as nat)
    }

    /// Where sample `i` of the output falls in the input.
    pub open spec fn centre(self, i: int) -> Binary64 {
        product(of_int(i), self.step)
    }

    /// The samples of the input that sample `i` of the output is made of: from
    /// the first up to before the second.
    pub open spec fn reach(self, i: int, samples: nat) -> (nat, nat) {
        let base = signed_truncated(floored(self.centre(i)));
        let start = inside(base - self.width, samples);
        let end = inside(base + self.width + 1, samples);
        (
            start,
            if end < start {
                start
            } else {
                end
            },
        )
    }

    /// How far the samples that sample `i` is made of lie from it.
    pub open spec fn apart(self, i: int, samples: nat) -> Seq<Binary64> {
        let span = self.reach(i, samples);
        Seq::new(
            (span.1 - span.0) as nat,
            |k: int| product(difference(of_int(span.0 + k), self.centre(i)), self.cutoff),
        )
    }

    /// Sample `i` of the output, given the weights of the samples that it is
    /// made of.
    ///
    /// Dividing by the weights that were met keeps the gain flat where part of
    /// the kernel hangs off the end of the signal.
    pub open spec fn value(self, input: Seq<Binary64>, i: int, weights: Seq<Binary64>) -> Binary64 {
        let span = self.reach(i, input.len());
        let both = weighed(input, span.0 as int, weights, (span.1 - span.0) as nat);
        single(
            if pico().spec_lt(absolute(both.1)) {
                quotient(both.0, both.1)
            } else {
                zero()
            },
        )
    }

    /// How one rate is turned into another.
    pub fn new(from: u32, to: u32) -> (r: Self)
        ensures
            r == Resampler::between(from, to),
    {
        let ratio: Binary64 = Binary64::from_u64(to as u64).over(Binary64::from_u64(from as u64));
        let cutoff: Binary64 = ratio.min(one());
        Resampler {
            ratio,
            cutoff,
            step: one().over(ratio),
            width: Binary64::from_u64(HALF_WIDTH).over(cutoff).ceil().to_i64(),
        }
    }

    /// How one rate is turned into another, where there is anything to turn: not
    /// where they are the same, nor where either is none.
    pub fn for_rates(from: u32, to: u32) -> (r: Option<Self>)
        ensures
            r == if from == to || from == 0 || to == 0 {
                None::<Resampler>
            } else {
                Some(Resampler::between(from, to))
            },
    {
        if from == to || from == 0 || to == 0 {
            None
        } else {
            Some(Resampler::new(from, to))
        }
    }

    /// How many samples come of some.
    pub fn output_length(&self, samples: usize) -> (r: usize)
        ensures
            r == self.length(samples as nat),
    {
        Binary64::from_u64(samples as u64).times(self.ratio).round().truncate(usize::MAX as u64) as usize
    }

    /// The samples of the input that sample `i` of the output is made of.
    fn span(&self, i: usize, samples: usize) -> (r: (usize, usize))
        ensures
            (r.0 as nat, r.1 as nat) == self.reach(i as int, samples as nat),
            r.0 <= r.1 <= samples,
    {
        let base: i128 = Binary64::from_u64(i as u64).times(self.step).floor().to_i64() as i128;
        let low: i128 = base - self.width as i128;
        let high: i128 = base + self.width as i128 + 1;
        let start: usize = cut(low, samples);
        let end: usize = cut(high, samples);
        if end < start {
            (start, start)
        } else {
            (start, end)
        }
    }

    /// How far the samples that sample `i` of the output is made of lie from
    /// it.
    pub fn distances(&self, i: usize, samples: usize) -> (r: Vec<Binary64>)
        ensures
            r@ == self.apart(i as int, samples as nat),
    {
        let (start, end): (usize, usize) = self.span(i, samples);
        let centre: Binary64 = Binary64::from_u64(i as u64).times(self.step);
        let ghost want = self.apart(i as int, samples as nat);
        let mut out: Vec<Binary64> = Vec::new();
        let mut at: usize = start;
        while at < end
            invariant
                start <= at <= end,
                centre == self.centre(i as int),
                (start as nat, end as nat) == self.reach(i as int, samples as nat),
                want == self.apart(i as int, samples as nat),
                out@ == want.take(at - start),
            decreases end - at,
        {
            out.push(Binary64::from_u64(at as u64).minus(centre).times(self.cutoff));
            at = at + 1;
            assert(out@ =~= want.take(at - start));
        }
        assert(out@ =~= want);
        out
    }

    /// Sample `i` of the output, given a weight for each distance.
    pub fn resample_at(&self, input: &[Binary64], i: usize, weights: &[Binary64]) -> (r: Binary64)
        requires
            weights@.len() == self.apart(i as int, input@.len()).len(),
        ensures
            r == self.value(input@, i as int, weights@),
    {
        let samples: usize = input.len();
        let (start, end): (usize, usize) = self.span(i, samples);
        let mut acc: Binary64 = zero();
        let mut norm: Binary64 = zero();
        let mut k: usize = 0;
        while k < end - start
            invariant
                start <= end <= samples == input@.len(),
                k <= end - start == weights@.len(),
                (acc, norm) == weighed(input@, start as int, weights@, k as nat),
            decreases end - start - k,
        {
            acc = acc.plus(input[start + k].times(weights[k]));
            norm = norm.plus(weights[k]);
            k = k + 1;
        }
        if pico().lt(norm.abs()) {
            to_single(acc.over(norm))
        } else {
            to_single(zero())
        }
    }
}

/// `n` cut to between 0 and `len`.
fn cut(n: i128, len: usize) -> (r: usize)
    ensures
        r == inside(n as int, len as nat),
{
    if n < 0 {
        0
    } else if n > len as i128 {
        len
    } else {
        n as usize
    }
}

/// Each frame is mixed down from its own samples alone, and one channel is left
/// as it is.
pub proof fn law_each_frame_is_mixed_alone(a: Seq<Binary64>, b: Seq<Binary64>, channels: usize, f: int)
    requires
        channels >= 1,
        a.len() == b.len(),
        0 <= f,
        (f + 1) * channels <= a.len(),
        forall|i: int| f * channels <= i < (f + 1) * channels ==> #[trigger] a[i] == b[i],
    ensures
        f < averaged(a, channels).len(),
        averaged(a, channels)[f] == averaged(b, channels)[f],
        averaged(a, 1) == a,
{
    let n = channels as int;
    assert((f + 1) * n == f * n + n) by (nonlinear_arith);
    vstd::arithmetic::div_mod::lemma_div_is_ordered((f + 1) * n, a.len() as int, n);
    vstd::arithmetic::div_mod::lemma_div_multiples_vanish(f + 1, n);
    assert((f + 1) * n == n * (f + 1)) by (nonlinear_arith);
    if channels == 1 {
        assert(a[f] == b[f]);
    } else {
        lemma_same_total(a, b, f * n, channels as nat);
    }
}

proof fn lemma_same_total(a: Seq<Binary64>, b: Seq<Binary64>, start: int, n: nat)
    requires
        forall|i: int| start <= i < start + n ==> #[trigger] a[i] == b[i],
    ensures
        frame_total(a, start, n) == frame_total(b, start, n),
    decreases n,
{
    if n > 0 {
        lemma_same_total(a, b, start, (n - 1) as nat);
        assert(a[start + n - 1] == b[start + n - 1]);
    }
}

/// A resampled value hears only the samples within its reach.
pub proof fn law_resampling_is_local(r: Resampler, a: Seq<Binary64>, b: Seq<Binary64>, i: int, weights: Seq<Binary64>)
    requires
        a.len() == b.len(),
        forall|k: int| r.reach(i, a.len()).0 <= k < r.reach(i, a.len()).1 ==> #[trigger] a[k] == b[k],
    ensures
        r.value(a, i, weights) == r.value(b, i, weights),
{
    let span = r.reach(i, a.len());
    lemma_same_weighed(a, b, span.0 as int, weights, (span.1 - span.0) as nat);
}

proof fn lemma_same_weighed(a: Seq<Binary64>, b: Seq<Binary64>, start: int, weights: Seq<Binary64>, n: nat)
    requires
        forall|k: int| start <= k < start + n ==> #[trigger] a[k] == b[k],
    ensures
        weighed(a, start, weights, n) == weighed(b, start, weights, n),
    decreases n,
{
    if n > 0 {
        lemma_same_weighed(a, b, start, weights, (n - 1) as nat);
        assert(a[start + n - 1] == b[start + n - 1]);
    }
}

/// The reach of a value goes as far to the one side of its centre as to the
/// other, as far as there are samples.
pub proof fn law_the_reach_is_even(r: Resampler, i: int, samples: nat)
    requires
        r.width >= 0,
    ensures
        ({
            let base = signed_truncated(floored(r.centre(i)));
            let span = r.reach(i, samples);
            &&& span.0 <= span.1 <= samples
            &&& 0 <= base - r.width <= samples ==> span.0 == base - r.width
            &&& 0 <= base + r.width + 1 <= samples ==> span.1 == base + r.width + 1
        }),
{
}

} // verus!
