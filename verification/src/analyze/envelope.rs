//! Band envelopes: the low, mid and high energy curves the waveform is drawn
//! from.
//!
//! Each band is a bandpass of second-order sections applied forwards and then
//! backwards, which cancels the phase response so that a transient stays where
//! it belongs. The result is framed into levels, next to the extreme samples
//! of each frame.

use crate::analyze::bands::{centre_of, filter_sections, nyquist_of, sharpness_of, Band};
use crate::analyze::report::Envelopes;
use crate::number::binary64::{
    difference, full_turn, half, larger, negated, of_int, one, product, quotient, smaller, sum, zero, Binary64,
};
use crate::number::lists::{slice_to_vec, total, total_of};
use crate::number::root::square_root;
use crate::number::single::{single, to_single};
use vstd::prelude::*;

verus! {

/// The largest finite sample.
#[verifier::allow_in_spec]
pub fn largest_sample() -> Binary64
    returns
        (Binary64 { bits: 0x47EF_FFFF_E000_0000 }),
{
    Binary64 { bits: 0x47EF_FFFF_E000_0000 }
}

/// The smallest finite sample.
#[verifier::allow_in_spec]
pub fn smallest_sample() -> Binary64
    returns
        (Binary64 { bits: 0xC7EF_FFFF_E000_0000 }),
{
    Binary64 { bits: 0xC7EF_FFFF_E000_0000 }
}

/// The angle that the centre of a band turns by in one sample.
pub open spec fn angle_of(band: Band, sample_rate: u32) -> Binary64 {
    let rate = of_int(sample_rate as int);
    quotient(product(full_turn(), centre_of(band, product(rate, half()))), rate)
}

/// The angle that the centre of a band turns by in one sample.
pub fn centre_angle(band: &Band, sample_rate: u32) -> (r: Binary64)
    ensures
        r == angle_of(*band, sample_rate),
{
    full_turn().times(band.center(nyquist_of(sample_rate))).over(Binary64::from_u64(sample_rate as u64))
}

/// The sine and the cosine of an angle.
#[derive(Debug, Clone, Copy, PartialEq, Structural)]
pub struct Turn {
    pub sin: Binary64,
    pub cos: Binary64,
}

/// One second-order section of a filter.
#[derive(Debug, Clone, Copy, PartialEq, Structural)]
pub struct Biquad {
    pub b0: Binary64,
    pub b1: Binary64,
    pub b2: Binary64,
    pub a1: Binary64,
    pub a2: Binary64,
}

/// The value `back` places before place `i`; nothing before the start.
pub open spec fn earlier(values: Seq<Binary64>, i: int, back: int) -> Binary64 {
    if i < back {
        zero()
    } else {
        values[i - back]
    }
}

impl Biquad {
    /// Bandpass with unity peak gain, from the sine and the cosine of its
    /// centre angle.
    pub open spec fn passing(turn: Turn, q: Binary64) -> Biquad {
        let alpha = quotient(turn.sin, product(of_int(2), q));
        let a0 = sum(one(), alpha);
        Biquad {
            b0: quotient(alpha, a0),
            b1: zero(),
            b2: quotient(negated(alpha), a0),
            a1: quotient(product(of_int(-2), turn.cos), a0),
            a2: quotient(difference(one(), alpha), a0),
        }
    }

    /// What comes out at the place of the last value that came in, after what
    /// came out before.
    pub open spec fn step(self, signal: Seq<Binary64>, out: Seq<Binary64>) -> Binary64 {
        let i = out.len() as int;
        let heard = sum(
            sum(product(self.b0, signal[i]), product(self.b1, earlier(signal, i, 1))),
            product(self.b2, earlier(signal, i, 2)),
        );
        difference(
            difference(heard, product(self.a1, earlier(out, i, 1))),
            product(self.a2, earlier(out, i, 2)),
        )
    }

    /// What comes out for the first `n` values.
    pub open spec fn response(self, signal: Seq<Binary64>, n: nat) -> Seq<Binary64>
        decreases n,
    {
        if n == 0 {
            seq![]
        } else {
            let before = self.response(signal, (n - 1) as nat);
            before.push(self.step(signal, before))
        }
    }

    /// A signal filtered forwards and backwards a number of times.
    pub open spec fn there_and_back(self, signal: Seq<Binary64>, times: nat) -> Seq<Binary64>
        decreases times,
    {
        if times == 0 {
            signal
        } else {
            let before = self.there_and_back(signal, (times - 1) as nat);
            let forwards = self.response(before, before.len()).reverse();
            self.response(forwards, forwards.len()).reverse()
        }
    }

    /// Bandpass with unity peak gain, from the sine and the cosine of its
    /// centre angle.
    pub fn bandpass(turn: Turn, q: Binary64) -> (r: Self)
        ensures
            r == Biquad::passing(turn, q),
    {
        let alpha: Binary64 = turn.sin.over(Binary64::from_u64(2).times(q));
        let a0: Binary64 = one().plus(alpha);
        Biquad {
            b0: alpha.over(a0),
            b1: zero(),
            b2: alpha.negate().over(a0),
            a1: Binary64::from_i64(-2).times(turn.cos).over(a0),
            a2: one().minus(alpha).over(a0),
        }
    }

    /// Filters forwards, carrying state across the whole signal.
    pub fn run(&self, signal: &[Binary64]) -> (r: Vec<Binary64>)
        ensures
            r@ == self.response(signal@, signal@.len()),
            r@.len() == signal@.len(),
    {
        let mut out: Vec<Binary64> = Vec::new();
        let mut x1: Binary64 = zero();
        let mut x2: Binary64 = zero();
        let mut y1: Binary64 = zero();
        let mut y2: Binary64 = zero();
        let mut i: usize = 0;
        while i < signal.len()
            invariant
                i <= signal@.len(),
                out@.len() == i,
                out@ == self.response(signal@, i as nat),
                x1 == earlier(signal@, i as int, 1),
                x2 == earlier(signal@, i as int, 2),
                y1 == earlier(out@, i as int, 1),
                y2 == earlier(out@, i as int, 2),
            decreases signal@.len() - i,
        {
            let x0: Binary64 = signal[i];
            let heard: Binary64 = self.b0.times(x0).plus(self.b1.times(x1)).plus(self.b2.times(x2));
            let y0: Binary64 = heard.minus(self.a1.times(y1)).minus(self.a2.times(y2));
            out.push(y0);
            x2 = x1;
            x1 = x0;
            y2 = y1;
            y1 = y0;
            i = i + 1;
        }
        out
    }
}

/// Values in reverse order.
fn turn_around(values: &[Binary64]) -> (r: Vec<Binary64>)
    ensures
        r@ == values@.reverse(),
{
    let mut out: Vec<Binary64> = Vec::new();
    let mut i: usize = values.len();
    while i > 0
        invariant
            i <= values@.len(),
            out@ == values@.reverse().take(values@.len() - i),
        decreases i,
    {
        i = i - 1;
        out.push(values[i]);
        assert(out@ =~= values@.reverse().take(values@.len() - i));
    }
    assert(out@ =~= values@.reverse());
    out
}

/// A signal filtered forwards and backwards a number of times.
pub fn filter_band(signal: &[Binary64], filter: &Biquad, sections: u32) -> (r: Vec<Binary64>)
    ensures
        r@ == filter.there_and_back(signal@, sections as nat),
        r@.len() == signal@.len(),
{
    let mut buffer: Vec<Binary64> = slice_to_vec(signal);
    let mut i: u32 = 0;
    while i < sections
        invariant
            i <= sections,
            buffer@ == filter.there_and_back(signal@, i as nat),
            buffer@.len() == signal@.len(),
        decreases sections - i,
    {
        let forwards: Vec<Binary64> = filter.run(buffer.as_slice());
        let turned: Vec<Binary64> = turn_around(forwards.as_slice());
        let backwards: Vec<Binary64> = filter.run(turned.as_slice());
        buffer = turn_around(backwards.as_slice());
        i = i + 1;
    }
    buffer
}

/// Frame `f` of a signal cut into frames of `hop` samples.
pub open spec fn frame_of(signal: Seq<Binary64>, hop: usize, f: int) -> Seq<Binary64> {
    signal.subrange(f * hop, (f + 1) * hop)
}

/// How many whole frames of `hop` samples a signal holds.
pub open spec fn whole_frames(samples: nat, hop: usize) -> nat {
    (samples as int / hop as int) as nat
}

/// The level of a frame: the root of the mean square, in single precision.
pub open spec fn level_of(frame: Seq<Binary64>) -> Binary64 {
    let squares = frame.map_values(|s: Binary64| product(s, s));
    single(square_root(quotient(total(squares), of_int(frame.len() as int))))
}

/// The least sample of the first `n` of a frame.
pub open spec fn least_of(frame: Seq<Binary64>, n: nat) -> Binary64
    decreases n,
{
    if n == 0 {
        largest_sample()
    } else {
        smaller(least_of(frame, (n - 1) as nat), frame[n - 1])
    }
}

/// The greatest sample of the first `n` of a frame.
pub open spec fn greatest_of(frame: Seq<Binary64>, n: nat) -> Binary64
    decreases n,
{
    if n == 0 {
        smallest_sample()
    } else {
        larger(greatest_of(frame, (n - 1) as nat), frame[n - 1])
    }
}

/// Where frames start and end.
proof fn lemma_frame_bounds(samples: nat, hop: usize, f: nat)
    requires
        hop > 0,
        f < whole_frames(samples, hop),
    ensures
        0 <= f * hop <= (f + 1) * hop <= samples,
        (f + 1) * hop - f * hop == hop,
{
    let n = whole_frames(samples, hop);
    assert((f + 1) * hop == f * hop + hop && f * hop >= 0) by (nonlinear_arith);
    assert((f + 1) * hop <= n * hop) by (nonlinear_arith)
        requires
            f < n,
    ;
    vstd::arithmetic::div_mod::lemma_fundamental_div_mod(samples as int, hop as int);
    assert(n * hop <= samples) by (nonlinear_arith)
        requires
            samples as int == hop as int * (samples as int / hop as int) + samples as int % hop as int,
            samples as int % hop as int >= 0,
            n == samples as int / hop as int,
    ;
}

/// The level of a frame, in single precision.
fn frame_level(frame: &[Binary64]) -> (r: Binary64)
    ensures
        r == level_of(frame@),
{
    let ghost want = frame@.map_values(|s: Binary64| product(s, s));
    let mut squares: Vec<Binary64> = Vec::new();
    let mut i: usize = 0;
    while i < frame.len()
        invariant
            i <= frame@.len(),
            want == frame@.map_values(|s: Binary64| product(s, s)),
            squares@ == want.take(i as int),
        decreases frame@.len() - i,
    {
        squares.push(frame[i].times(frame[i]));
        i = i + 1;
        assert(squares@ =~= want.take(i as int));
    }
    assert(squares@ =~= want);
    to_single(total_of(squares.as_slice()).over(Binary64::from_u64(frame.len() as u64)).sqrt())
}

/// The extreme samples of a frame, the least first.
fn frame_extremes(frame: &[Binary64]) -> (r: (Binary64, Binary64))
    ensures
        r == (least_of(frame@, frame@.len()), greatest_of(frame@, frame@.len())),
{
    let mut least: Binary64 = largest_sample();
    let mut greatest: Binary64 = smallest_sample();
    let mut i: usize = 0;
    while i < frame.len()
        invariant
            i <= frame@.len(),
            least == least_of(frame@, i as nat),
            greatest == greatest_of(frame@, i as nat),
        decreases frame@.len() - i,
    {
        least = least.min(frame[i]);
        greatest = greatest.max(frame[i]);
        i = i + 1;
    }
    (least, greatest)
}

/// The level of each whole frame of a signal.
pub open spec fn levels_of(signal: Seq<Binary64>, hop: usize) -> Seq<Binary64> {
    Seq::new(whole_frames(signal.len(), hop), |f: int| level_of(frame_of(signal, hop, f)))
}

/// Root-mean-square of each frame of `hop` samples that do not overlap.
pub fn frame_rms(signal: &[Binary64], hop: usize) -> (r: Vec<Binary64>)
    requires
        hop > 0,
    ensures
        r@ == levels_of(signal@, hop),
{
    let samples: usize = signal.len();
    let frames: usize = samples / hop;
    let ghost want = levels_of(signal@, hop);
    let mut out: Vec<Binary64> = Vec::new();
    let mut f: usize = 0;
    while f < frames
        invariant
            hop > 0,
            f <= frames,
            samples == signal@.len(),
            frames == whole_frames(signal@.len(), hop),
            want == levels_of(signal@, hop),
            out@ == want.take(f as int),
        decreases frames - f,
    {
        proof {
            lemma_frame_bounds(signal@.len(), hop, f as nat);
        }
        let start: usize = f * hop;
        let frame: &[Binary64] = vstd::slice::slice_subrange(signal, start, start + hop);
        out.push(frame_level(frame));
        f = f + 1;
        assert(out@ =~= want.take(f as int));
    }
    assert(out@ =~= want);
    out
}

/// The least sample of each whole frame of a signal.
pub open spec fn lower_outline(signal: Seq<Binary64>, hop: usize) -> Seq<Binary64> {
    Seq::new(whole_frames(signal.len(), hop), |f: int| least_of(frame_of(signal, hop, f), hop as nat))
}

/// The greatest sample of each whole frame of a signal.
pub open spec fn upper_outline(signal: Seq<Binary64>, hop: usize) -> Seq<Binary64> {
    Seq::new(whole_frames(signal.len(), hop), |f: int| greatest_of(frame_of(signal, hop, f), hop as nat))
}

/// The extreme samples of each frame of `hop` samples, the least first.
pub fn outline(signal: &[Binary64], hop: usize) -> (r: (Vec<Binary64>, Vec<Binary64>))
    requires
        hop > 0,
    ensures
        r.0@ == lower_outline(signal@, hop),
        r.1@ == upper_outline(signal@, hop),
{
    let samples: usize = signal.len();
    let frames: usize = samples / hop;
    let ghost below = lower_outline(signal@, hop);
    let ghost above = upper_outline(signal@, hop);
    let mut min: Vec<Binary64> = Vec::new();
    let mut max: Vec<Binary64> = Vec::new();
    let mut f: usize = 0;
    while f < frames
        invariant
            hop > 0,
            f <= frames,
            samples == signal@.len(),
            frames == whole_frames(signal@.len(), hop),
            below == lower_outline(signal@, hop),
            above == upper_outline(signal@, hop),
            min@ == below.take(f as int),
            max@ == above.take(f as int),
        decreases frames - f,
    {
        proof {
            lemma_frame_bounds(signal@.len(), hop, f as nat);
        }
        let start: usize = f * hop;
        let frame: &[Binary64] = vstd::slice::slice_subrange(signal, start, start + hop);
        let (least, greatest): (Binary64, Binary64) = frame_extremes(frame);
        min.push(least);
        max.push(greatest);
        f = f + 1;
        assert(min@ =~= below.take(f as int));
        assert(max@ =~= above.take(f as int));
    }
    assert(min@ =~= below);
    assert(max@ =~= above);
    (min, max)
}

/// The passes of a filter for an order.
pub open spec fn sections_for(order: u32) -> nat {
    if order < 1 {
        1
    } else {
        (order as nat + 1) / 2
    }
}

/// The levels of a signal in a band.
pub open spec fn band_curve(signal: Seq<Binary64>, sample_rate: u32, hop: usize, band: Band, turn: Turn, order: u32) -> Seq<
    Binary64,
> {
    let nyquist = product(of_int(sample_rate as int), half());
    let filter = Biquad::passing(turn, sharpness_of(band, nyquist));
    levels_of(filter.there_and_back(signal, sections_for(order)), hop)
}

/// The levels of a signal in a band.
fn band_rms(signal: &[Binary64], sample_rate: u32, hop: usize, band: &Band, turn: Turn, order: u32) -> (r: Vec<Binary64>)
    requires
        hop > 0,
    ensures
        r@ == band_curve(signal@, sample_rate, hop, *band, turn, order),
{
    let filter: Biquad = Biquad::bandpass(turn, band.q(nyquist_of(sample_rate)));
    frame_rms(filter_band(signal, &filter, filter_sections(order)).as_slice(), hop)
}

/// Computes the band envelopes and the waveform outline of a signal.
///
/// `hop` is both the frame length and the step, so frames tile the signal
/// without overlap. The turns are the sine and the cosine of the centre angle
/// of each band.
pub fn compute(
    signal: &[Binary64],
    sample_rate: u32,
    hop: usize,
    bands: [Band; 3],
    turns: [Turn; 3],
    order: u32,
) -> (r: Envelopes)
    ensures
        ({
            let step: usize = if hop < 1 {
                1
            } else {
                hop
            };
            &&& r.hop == step
            &&& r.sample_rate == sample_rate
            &&& r.low@ == band_curve(signal@, sample_rate, step, bands[0], turns[0], order)
            &&& r.mid@ == band_curve(signal@, sample_rate, step, bands[1], turns[1], order)
            &&& r.high@ == band_curve(signal@, sample_rate, step, bands[2], turns[2], order)
            &&& r.min@ == lower_outline(signal@, step)
            &&& r.max@ == upper_outline(signal@, step)
        }),
{
    let step: usize = if hop < 1 {
        1
    } else {
        hop
    };
    let (min, max): (Vec<Binary64>, Vec<Binary64>) = outline(signal, step);
    Envelopes {
        low: band_rms(signal, sample_rate, step, &bands[0], turns[0], order),
        mid: band_rms(signal, sample_rate, step, &bands[1], turns[1], order),
        high: band_rms(signal, sample_rate, step, &bands[2], turns[2], order),
        min,
        max,
        hop: step,
        sample_rate,
    }
}

/// What the filter puts out has the length of what went in.
proof fn lemma_lengths(filter: Biquad, signal: Seq<Binary64>, times: nat)
    ensures
        filter.there_and_back(signal, times).len() == signal.len(),
    decreases times,
{
    if times > 0 {
        lemma_lengths(filter, signal, (times - 1) as nat);
        let before = filter.there_and_back(signal, (times - 1) as nat);
        lemma_response_length(filter, before, before.len());
        let forwards = filter.response(before, before.len()).reverse();
        lemma_response_length(filter, forwards, forwards.len());
    }
}

proof fn lemma_response_length(filter: Biquad, signal: Seq<Binary64>, n: nat)
    ensures
        filter.response(signal, n).len() == n,
    decreases n,
{
    if n > 0 {
        lemma_response_length(filter, signal, (n - 1) as nat);
    }
}

/// The envelopes and the outline of a signal are on the same frames: as many
/// as the signal holds whole ones.
pub proof fn law_envelopes_share_their_frames(
    signal: Seq<Binary64>,
    sample_rate: u32,
    hop: usize,
    band: Band,
    turn: Turn,
    order: u32,
)
    requires
        hop > 0,
    ensures
        band_curve(signal, sample_rate, hop, band, turn, order).len() == signal.len() as int / hop as int,
        lower_outline(signal, hop).len() == signal.len() as int / hop as int,
        upper_outline(signal, hop).len() == signal.len() as int / hop as int,
{
    let nyquist = product(of_int(sample_rate as int), half());
    lemma_lengths(Biquad::passing(turn, sharpness_of(band, nyquist)), signal, sections_for(order));
    vstd::arithmetic::div_mod::lemma_div_pos_is_pos(signal.len() as int, hop as int);
}

/// The extremes of the first samples of a frame hold each of them.
proof fn lemma_extremes_hold(frame: Seq<Binary64>, n: nat, i: int)
    requires
        0 <= i < n <= frame.len(),
        forall|k: int| 0 <= k < n ==> !(#[trigger] frame[k]).nan(),
    ensures
        !least_of(frame, n).nan(),
        !greatest_of(frame, n).nan(),
        least_of(frame, n).spec_le(frame[i]),
        frame[i].spec_le(greatest_of(frame, n)),
    decreases n,
{
    let m = (n - 1) as nat;
    assert(!frame[m as int].nan());
    if m == 0 {
        assert(least_of(frame, 0) == largest_sample());
        assert(greatest_of(frame, 0) == smallest_sample());
    } else if i < m {
        lemma_extremes_hold(frame, m, i);
    } else {
        lemma_extremes_hold(frame, m, 0);
    }
}

/// The outline of a frame holds every sample of it: none lies below the lower
/// curve or above the upper one, where all samples are numbers.
pub proof fn law_the_outline_holds_every_sample(signal: Seq<Binary64>, hop: usize, f: int, i: int)
    requires
        hop > 0,
        0 <= f < whole_frames(signal.len(), hop),
        0 <= i < hop,
        forall|k: int| 0 <= k < signal.len() ==> !(#[trigger] signal[k]).nan(),
    ensures
        lower_outline(signal, hop)[f].spec_le(frame_of(signal, hop, f)[i]),
        frame_of(signal, hop, f)[i].spec_le(upper_outline(signal, hop)[f]),
{
    lemma_frame_bounds(signal.len(), hop, f as nat);
    let frame = frame_of(signal, hop, f);
    assert forall|k: int| 0 <= k < hop implies !(#[trigger] frame[k]).nan() by {
        assert(frame[k] == signal[f * hop + k]);
    }
    lemma_extremes_hold(frame, hop as nat, i);
}

/// Each level is that of its own frame.
pub proof fn law_levels_are_of_their_frames(a: Seq<Binary64>, b: Seq<Binary64>, hop: usize, f: int)
    requires
        hop > 0,
        a.len() == b.len(),
        0 <= f < whole_frames(a.len(), hop),
        forall|i: int| f * hop <= i < (f + 1) * hop ==> #[trigger] a[i] == b[i],
    ensures
        levels_of(a, hop)[f] == levels_of(b, hop)[f],
{
    let n = hop as int;
    let last = a.len() as int / n;
    assert(n * last <= a.len()) by {
        vstd::arithmetic::div_mod::lemma_fundamental_div_mod(a.len() as int, n);
        vstd::arithmetic::div_mod::lemma_mod_bound(a.len() as int, n);
    }
    assert(0 <= f * n && f * n + n == (f + 1) * n && (f + 1) * n <= n * last) by (nonlinear_arith)
        requires
            0 <= f < last,
            n > 0,
    ;
    assert(frame_of(a, hop, f) =~= frame_of(b, hop, f));
}

/// What a filter has given so far depends only on what it has heard so far.
pub proof fn law_filters_do_not_look_ahead(filter: Biquad, a: Seq<Binary64>, b: Seq<Binary64>, n: nat)
    requires
        n <= a.len(),
        n <= b.len(),
        forall|i: int| 0 <= i < n ==> #[trigger] a[i] == b[i],
    ensures
        filter.response(a, n) == filter.response(b, n),
        filter.response(a, n).len() == n,
    decreases n,
{
    if n > 0 {
        law_filters_do_not_look_ahead(filter, a, b, (n - 1) as nat);
        assert(a[n - 1] == b[n - 1]);
        if n >= 2 {
            assert(a[n - 2] == b[n - 2]);
        }
        if n >= 3 {
            assert(a[n - 3] == b[n - 3]);
        }
    }
}

/// What a filter gives first stays when it hears more.
pub proof fn law_filters_go_on(filter: Biquad, signal: Seq<Binary64>, m: nat, n: nat)
    requires
        m <= n <= signal.len(),
    ensures
        filter.response(signal, n).len() == n,
        filter.response(signal, n).take(m as int) == filter.response(signal, m),
    decreases n,
{
    if m < n {
        law_filters_go_on(filter, signal, m, (n - 1) as nat);
        let before = filter.response(signal, (n - 1) as nat);
        assert(filter.response(signal, n).take(m as int) =~= before.take(m as int));
    } else {
        lemma_response_len(filter, signal, n);
        assert(filter.response(signal, n).take(n as int) =~= filter.response(signal, n));
    }
}

proof fn lemma_response_len(filter: Biquad, signal: Seq<Binary64>, n: nat)
    ensures
        filter.response(signal, n).len() == n,
    decreases n,
{
    if n > 0 {
        lemma_response_len(filter, signal, (n - 1) as nat);
    }
}

} // verus!
