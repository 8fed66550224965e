//! IEEE 754 binary64 numbers, held as their bit patterns.
//!
//! Times, scores and probabilities are binary64 numbers. Holding the bit
//! pattern keeps every value that a file or a measurement can carry, and the
//! arithmetic below is decided on integers, so that a contract can say exactly
//! which number comes out.

use crate::number::rounding::{
    code_scale, code_significand, excess, lemma_excess_bounds, lemma_excess_unique, lemma_nearest_even_scale, lemma_pow2_monotone, lemma_pow2_step,
    lemma_pow2_sum, lemma_rounded_scale, lemma_rounded_scaled_at, lemma_rounded_scaled_shift, magnitude, nearest_even,
    round_scaled, rounded, rounded_scaled, INFINITE_CODE, TWO_52, TWO_53,
};
use vstd::arithmetic::power2::pow2;
use vstd::prelude::*;

verus! {

/// The sign bit.
pub const SIGN_BIT: u64 = 0x8000_0000_0000_0000;

/// The bit pattern that arithmetic returns for "not a number".
pub const NAN_BITS: u64 = 0x7FF8_0000_0000_0000;

/// A binary64 number. `==` compares bit patterns; the numeric comparisons are
/// [`Binary64::lt`], [`Binary64::le`] and [`Binary64::same`].
#[derive(Clone, Copy, Debug, PartialEq, Eq, Structural)]
pub struct Binary64 {
    /// The bit pattern: sign, eleven exponent bits, fifty-two fraction bits.
    pub bits: u64,
}

/// Zero.
#[verifier::allow_in_spec]
pub fn zero() -> Binary64
    returns
        (Binary64 { bits: 0 }),
{
    Binary64 { bits: 0 }
}

/// One.
#[verifier::allow_in_spec]
pub fn one() -> Binary64
    returns
        (Binary64 { bits: 0x3FF0_0000_0000_0000 }),
{
    Binary64 { bits: 0x3FF0_0000_0000_0000 }
}

/// The number nearest to 1e-6.
#[verifier::allow_in_spec]
pub fn micro() -> Binary64
    returns
        (Binary64 { bits: 0x3EB0_C6F7_A0B5_ED8D }),
{
    Binary64 { bits: 0x3EB0_C6F7_A0B5_ED8D }
}

/// The number nearest to 1e-9.
#[verifier::allow_in_spec]
pub fn nano() -> Binary64
    returns
        (Binary64 { bits: 0x3E11_2E0B_E826_D695 }),
{
    Binary64 { bits: 0x3E11_2E0B_E826_D695 }
}

/// The number nearest to 1e-12.
#[verifier::allow_in_spec]
pub fn pico() -> Binary64
    returns
        (Binary64 { bits: 0x3D71_9799_812D_EA11 }),
{
    Binary64 { bits: 0x3D71_9799_812D_EA11 }
}

/// The number nearest to 1e-3.
#[verifier::allow_in_spec]
pub fn milli() -> Binary64
    returns
        (Binary64 { bits: 0x3F50_624D_D2F1_A9FC }),
{
    Binary64 { bits: 0x3F50_624D_D2F1_A9FC }
}

/// One half.
#[verifier::allow_in_spec]
pub fn half() -> Binary64
    returns
        (Binary64 { bits: 0x3FE0_0000_0000_0000 }),
{
    Binary64 { bits: 0x3FE0_0000_0000_0000 }
}

/// A full turn in radians, 2 pi.
#[verifier::allow_in_spec]
pub fn full_turn() -> Binary64
    returns
        (Binary64 { bits: 0x4019_21FB_5444_2D18 }),
{
    Binary64 { bits: 0x4019_21FB_5444_2D18 }
}

/// Half a turn in radians, pi.
#[verifier::allow_in_spec]
pub fn half_turn() -> Binary64
    returns
        (Binary64 { bits: 0x4009_21FB_5444_2D18 }),
{
    Binary64 { bits: 0x4009_21FB_5444_2D18 }
}

/// Negative infinity.
#[verifier::allow_in_spec]
pub fn minus_infinity() -> Binary64
    returns
        (Binary64 { bits: 0xFFF0_0000_0000_0000 }),
{
    Binary64 { bits: 0xFFF0_0000_0000_0000 }
}

/// The number with sign `negative` and magnitude code `code`.
pub open spec fn signed(negative: bool, code: nat) -> Binary64 {
    Binary64 {
        bits: (if negative {
            SIGN_BIT + code
        } else {
            code as int
        }) as u64,
    }
}

/// The sum of two numbers.
pub open spec fn sum(a: Binary64, b: Binary64) -> Binary64 {
    if a.nan() || b.nan() || (a.infinite() && b.infinite() && a.negative() != b.negative()) {
        Binary64 { bits: NAN_BITS }
    } else if a.infinite() {
        a
    } else if b.infinite() {
        b
    } else {
        let exact = a.units() + b.units();
        if exact == 0 {
            signed(a.negative() && b.negative(), 0)
        } else if exact > 0 {
            signed(false, rounded(exact as nat, 1))
        } else {
            signed(true, rounded((-exact) as nat, 1))
        }
    }
}

/// The difference of two numbers.
pub open spec fn difference(a: Binary64, b: Binary64) -> Binary64 {
    sum(a, negated(b))
}

/// The number with the opposite sign.
pub open spec fn negated(a: Binary64) -> Binary64 {
    signed(!a.negative(), a.code())
}

/// The number without its sign.
pub open spec fn absolute(a: Binary64) -> Binary64 {
    signed(false, a.code())
}

/// The product of two numbers.
pub open spec fn product(a: Binary64, b: Binary64) -> Binary64 {
    let negative = a.negative() != b.negative();
    if a.nan() || b.nan() || (a.infinite() && b.code() == 0) || (a.code() == 0 && b.infinite()) {
        Binary64 { bits: NAN_BITS }
    } else if a.infinite() || b.infinite() {
        signed(negative, INFINITE_CODE as nat)
    } else {
        signed(negative, rounded(magnitude(a.code()) * magnitude(b.code()), pow2(1074)))
    }
}

/// The quotient of two numbers.
pub open spec fn quotient(a: Binary64, b: Binary64) -> Binary64 {
    let negative = a.negative() != b.negative();
    if a.nan() || b.nan() || (a.infinite() && b.infinite()) || (a.code() == 0 && b.code() == 0) {
        Binary64 { bits: NAN_BITS }
    } else if a.infinite() || b.code() == 0 {
        signed(negative, INFINITE_CODE as nat)
    } else if b.infinite() {
        signed(negative, 0)
    } else {
        signed(negative, rounded(magnitude(a.code()) * pow2(1074), magnitude(b.code())))
    }
}

/// The larger of two numbers; a NaN loses, and of two equals the first stays.
pub open spec fn larger(a: Binary64, b: Binary64) -> Binary64 {
    if a.nan() || a.spec_lt(b) {
        b
    } else {
        a
    }
}

/// The smaller of two numbers; a NaN loses, and of two equals the first stays.
pub open spec fn smaller(a: Binary64, b: Binary64) -> Binary64 {
    if a.nan() || b.spec_lt(a) {
        b
    } else {
        a
    }
}

/// A number kept between two others; a NaN stays.
pub open spec fn clamped(a: Binary64, low: Binary64, high: Binary64) -> Binary64 {
    if a.spec_lt(low) {
        low
    } else if high.spec_lt(a) {
        high
    } else {
        a
    }
}

/// The number nearest to an integer.
pub open spec fn of_int(n: int) -> Binary64 {
    if n >= 0 {
        signed(false, rounded(n as nat * pow2(1074), 1))
    } else {
        signed(true, rounded((-n) as nat * pow2(1074), 1))
    }
}

/// The binary64 number equal to a binary32 bit pattern.
pub open spec fn widened(bits: u32) -> Binary64 {
    let negative = bits >= 0x8000_0000;
    let code = if negative {
        bits - 0x8000_0000
    } else {
        bits as int
    };
    let scale = if code < 0x100_0000 {
        0
    } else {
        code / 0x80_0000 - 1
    };
    if code > 0x7F80_0000 {
        Binary64 { bits: NAN_BITS }
    } else if code == 0x7F80_0000 {
        signed(negative, INFINITE_CODE as nat)
    } else {
        signed(negative, rounded_scaled((code - scale * 0x80_0000) as nat, scale + 925))
    }
}

impl Binary64 {
    /// Whether the sign bit is set.
    pub open spec fn negative(self) -> bool {
        self.bits >= SIGN_BIT
    }

    /// The bit pattern without the sign, as an integer.
    pub open spec fn code(self) -> nat {
        if self.bits >= SIGN_BIT {
            (self.bits - SIGN_BIT) as nat
        } else {
            self.bits as nat
        }
    }

    /// Whether this is no number at all.
    pub open spec fn nan(self) -> bool {
        self.code() > INFINITE_CODE
    }

    /// Whether this is one of the two infinities.
    pub open spec fn infinite(self) -> bool {
        self.code() == INFINITE_CODE
    }

    /// Whether this is a finite number.
    pub open spec fn finite(self) -> bool {
        self.code() < INFINITE_CODE
    }

    /// The exact value of a finite number, in units of 2^-1074.
    pub open spec fn units(self) -> int {
        if self.negative() {
            -(magnitude(self.code()) as int)
        } else {
            magnitude(self.code()) as int
        }
    }

    /// The place of a number on the number line; both zeros stand at 0.
    pub open spec fn rank(self) -> int {
        if self.negative() {
            -(self.code() as int)
        } else {
            self.code() as int
        }
    }

    /// Numerically less.
    pub open spec fn spec_lt(self, other: Binary64) -> bool {
        !self.nan() && !other.nan() && self.rank() < other.rank()
    }

    /// Numerically less or equal.
    pub open spec fn spec_le(self, other: Binary64) -> bool {
        !self.nan() && !other.nan() && self.rank() <= other.rank()
    }

    /// Numerically equal.
    pub open spec fn spec_same(self, other: Binary64) -> bool {
        !self.nan() && !other.nan() && self.rank() == other.rank()
    }

    /// The place in the total order of all bit patterns: negative NaNs, the
    /// numbers with -0 before +0, positive NaNs.
    pub open spec fn total_rank(self) -> int {
        if self.negative() {
            -1 - self.code()
        } else {
            self.code() as int
        }
    }

    /// The number with the given bit pattern.
    pub fn from_bits(bits: u64) -> (r: Binary64)
        ensures
            r.bits == bits,
    {
        Binary64 { bits }
    }

    /// The bit pattern.
    pub fn to_bits(&self) -> (bits: u64)
        ensures
            bits == self.bits,
    {
        self.bits
    }

    /// Whether the sign bit is set.
    pub fn is_sign_negative(&self) -> (r: bool)
        ensures
            r == self.negative(),
    {
        self.bits >= SIGN_BIT
    }

    /// The bit pattern without the sign.
    pub fn magnitude_code(&self) -> (code: u64)
        ensures
            code == self.code(),
            code < SIGN_BIT,
    {
        if self.bits >= SIGN_BIT {
            self.bits - SIGN_BIT
        } else {
            self.bits
        }
    }

    /// Whether this is no number at all.
    pub fn is_nan(&self) -> (r: bool)
        ensures
            r == self.nan(),
    {
        self.magnitude_code() > INFINITE_CODE
    }

    /// Whether this is one of the two infinities.
    pub fn is_infinite(&self) -> (r: bool)
        ensures
            r == self.infinite(),
    {
        self.magnitude_code() == INFINITE_CODE
    }

    /// Whether this is a finite number.
    pub fn is_finite(&self) -> (r: bool)
        ensures
            r == self.finite(),
    {
        self.magnitude_code() < INFINITE_CODE
    }

    /// Numerically less.
    pub fn lt(&self, other: Binary64) -> (r: bool)
        ensures
            r == self.spec_lt(other),
    {
        let a: u64 = self.magnitude_code();
        let b: u64 = other.magnitude_code();
        if a > INFINITE_CODE || b > INFINITE_CODE {
            false
        } else if self.bits >= SIGN_BIT {
            if other.bits >= SIGN_BIT {
                a > b
            } else {
                a > 0 || b > 0
            }
        } else if other.bits >= SIGN_BIT {
            false
        } else {
            a < b
        }
    }

    /// Numerically less or equal.
    pub fn le(&self, other: Binary64) -> (r: bool)
        ensures
            r == self.spec_le(other),
    {
        !self.is_nan() && !other.is_nan() && !other.lt(*self)
    }

    /// Numerically equal.
    pub fn same(&self, other: Binary64) -> (r: bool)
        ensures
            r == self.spec_same(other),
    {
        self.le(other) && other.le(*self)
    }

    /// Before `other` in the total order of bit patterns.
    pub fn total_lt(&self, other: Binary64) -> (r: bool)
        ensures
            r == (self.total_rank() < other.total_rank()),
    {
        let a: u64 = self.magnitude_code();
        let b: u64 = other.magnitude_code();
        if self.bits >= SIGN_BIT {
            if other.bits >= SIGN_BIT {
                a > b
            } else {
                true
            }
        } else if other.bits >= SIGN_BIT {
            false
        } else {
            a < b
        }
    }

    /// The place on the number line, as a sort key.
    pub fn rank_key(&self) -> (r: i128)
        ensures
            r == self.rank(),
            -0x8000_0000_0000_0000 < r < 0x8000_0000_0000_0000,
    {
        if self.bits >= SIGN_BIT {
            -((self.bits - SIGN_BIT) as i128)
        } else {
            self.bits as i128
        }
    }

    /// The place in the total order of bit patterns, as a sort key.
    pub fn total_key(&self) -> (r: i128)
        ensures
            r == self.total_rank(),
            -0x8000_0000_0000_0000 <= r < 0x8000_0000_0000_0000,
    {
        if self.bits >= SIGN_BIT {
            -1 - (self.bits - SIGN_BIT) as i128
        } else {
            self.bits as i128
        }
    }

    /// The number with the opposite sign.
    pub fn negate(&self) -> (r: Binary64)
        ensures
            r == negated(*self),
    {
        if self.bits >= SIGN_BIT {
            Binary64 { bits: self.bits - SIGN_BIT }
        } else {
            Binary64 { bits: self.bits + SIGN_BIT }
        }
    }

    /// The number without its sign.
    pub fn abs(&self) -> (r: Binary64)
        ensures
            r == absolute(*self),
    {
        Binary64 { bits: self.magnitude_code() }
    }

    /// The larger of two numbers.
    pub fn max(&self, other: Binary64) -> (r: Binary64)
        ensures
            r == larger(*self, other),
    {
        if self.is_nan() || self.lt(other) {
            other
        } else {
            *self
        }
    }

    /// The number kept between two others.
    pub fn clamp(&self, low: Binary64, high: Binary64) -> (r: Binary64)
        ensures
            r == clamped(*self, low, high),
    {
        if self.lt(low) {
            low
        } else if high.lt(*self) {
            high
        } else {
            *self
        }
    }

    /// The smaller of two numbers.
    pub fn min(&self, other: Binary64) -> (r: Binary64)
        ensures
            r == smaller(*self, other),
    {
        if self.is_nan() || other.lt(*self) {
            other
        } else {
            *self
        }
    }

    /// The sum of two numbers.
    pub fn plus(&self, other: Binary64) -> (r: Binary64)
        ensures
            r == sum(*self, other),
    {
        if self.is_nan() || other.is_nan() || (self.is_infinite() && other.is_infinite() && self.is_sign_negative()
            != other.is_sign_negative()) {
            return Binary64 { bits: NAN_BITS };
        }
        if self.is_infinite() {
            return *self;
        }
        if other.is_infinite() {
            return other;
        }
        let (qa, ea) = split(self.magnitude_code());
        let (qb, eb) = split(other.magnitude_code());
        if ea >= eb {
            sum_finite(*self, other, qa, ea, qb, eb)
        } else {
            sum_finite(other, *self, qb, eb, qa, ea)
        }
    }

    /// The difference of two numbers.
    pub fn minus(&self, other: Binary64) -> (r: Binary64)
        ensures
            r == difference(*self, other),
    {
        self.plus(other.negate())
    }

    /// The product of two numbers.
    pub fn times(&self, other: Binary64) -> (r: Binary64)
        ensures
            r == product(*self, other),
    {
        let a: u64 = self.magnitude_code();
        let b: u64 = other.magnitude_code();
        let negative: bool = self.is_sign_negative() != other.is_sign_negative();
        if self.is_nan() || other.is_nan() || (self.is_infinite() && b == 0) || (a == 0 && other.is_infinite()) {
            return Binary64 { bits: NAN_BITS };
        }
        if self.is_infinite() || other.is_infinite() {
            return with_sign(negative, INFINITE_CODE);
        }
        let (qa, ea) = split(a);
        let (qb, eb) = split(b);
        assert(qa * qb < 0x400_0000_0000_0000_0000_0000_0000) by (nonlinear_arith)
            requires
                qa < TWO_53,
                qb < TWO_53,
        ;
        let m: u128 = qa as u128 * qb as u128;
        let code: u64 = round_scaled(m, ea as i64 + eb as i64 - 1074);
        proof {
            let pa = pow2(ea as nat);
            let pb = pow2(eb as nat);
            lemma_pow2_sum(ea as nat, eb as nat);
            assert((qa * pa) * (qb * pb) == (qa * qb) * (pa * pb)) by (nonlinear_arith);
            lemma_rounded_scaled_shift(m as nat, ea + eb - 1074, (ea + eb) as nat);
        }
        with_sign(negative, code)
    }

    /// The quotient of two numbers.
    pub fn over(&self, other: Binary64) -> (r: Binary64)
        ensures
            r == quotient(*self, other),
    {
        let a: u64 = self.magnitude_code();
        let b: u64 = other.magnitude_code();
        let negative: bool = self.is_sign_negative() != other.is_sign_negative();
        if self.is_nan() || other.is_nan() || (self.is_infinite() && other.is_infinite()) || (a == 0 && b == 0) {
            return Binary64 { bits: NAN_BITS };
        }
        if self.is_infinite() || b == 0 {
            return with_sign(negative, INFINITE_CODE);
        }
        if other.is_infinite() {
            return with_sign(negative, 0);
        }
        let (qa, ea) = split(a);
        let (qb, eb) = split(b);
        let code: u64 = quotient_code(qa, ea, qb, eb);
        with_sign(negative, code)
    }

    /// The number nearest to `n`.
    pub fn from_u64(n: u64) -> (r: Binary64)
        ensures
            r == of_int(n as int),
    {
        let code: u64 = round_scaled(n as u128, 1074);
        Binary64 { bits: code }
    }

    /// The number nearest to `n`.
    pub fn from_i64(n: i64) -> (r: Binary64)
        ensures
            r == of_int(n as int),
    {
        let magnitude: u128 = if n >= 0 {
            n as u128
        } else {
            (-(n as i128)) as u128
        };
        let code: u64 = round_scaled(magnitude, 1074);
        with_sign(n < 0, code)
    }
}

/// The binary64 number equal to a binary32 bit pattern.
pub fn widen(bits: u32) -> (r: Binary64)
    ensures
        r == widened(bits),
{
    let negative: bool = bits >= 0x8000_0000;
    let code: u32 = if negative {
        bits - 0x8000_0000
    } else {
        bits
    };
    if code > 0x7F80_0000 {
        return Binary64 { bits: NAN_BITS };
    }
    if code == 0x7F80_0000 {
        return with_sign(negative, INFINITE_CODE);
    }
    let scale: u32 = if code < 0x100_0000 {
        0
    } else {
        code / 0x80_0000 - 1
    };
    let out: u64 = round_scaled((code - scale * 0x80_0000) as u128, scale as i64 + 925);
    with_sign(negative, out)
}

/// The number with the given sign and magnitude code.
pub(crate) fn with_sign(negative: bool, code: u64) -> (r: Binary64)
    requires
        code < SIGN_BIT,
    ensures
        r == signed(negative, code as nat),
{
    if negative {
        Binary64 { bits: SIGN_BIT + code }
    } else {
        Binary64 { bits: code }
    }
}

/// The significand and scale of a finite magnitude.
pub(crate) fn split(code: u64) -> (r: (u64, u64))
    requires
        code < INFINITE_CODE,
    ensures
        r.0 == code_significand(code as nat),
        r.1 == code_scale(code as nat),
        magnitude(code as nat) == r.0 * pow2(r.1 as nat),
        r.0 < TWO_53,
        r.1 <= 2045,
        r.1 > 0 ==> r.0 >= TWO_52,
        code == r.1 * TWO_52 + r.0,
        r.0 == 0 <==> code == 0,
{
    if code < TWO_53 {
        (code, 0)
    } else {
        let scale: u64 = code / TWO_52 - 1;
        (code - scale * TWO_52, scale)
    }
}

/// Adding something far below the last place changes nothing.
proof fn lemma_absorbs(q: nat, e: nat, delta: nat)
    requires
        TWO_52 <= q < TWO_53,
        2 <= e <= 2045,
        4 * delta < pow2(e),
    ensures
        rounded(q * pow2(e) + delta, 1) == e * TWO_52 + q,
        q * pow2(e) >= delta,
        rounded((q * pow2(e) - delta) as nat, 1) == e * TWO_52 + q,
{
    let p = pow2(e);
    let h = pow2((e - 1) as nat);
    lemma_pow2_step((e - 1) as nat);
    lemma_pow2_step(e);
    assert(p == 2 * h);
    assert(1 * p == p && 1 * h == h);
    assert(e * TWO_52 + q < INFINITE_CODE) by (nonlinear_arith)
        requires
            e <= 2045,
            q < TWO_53,
    ;
    let base = q * p;
    assert(base + delta < p * TWO_53) by (nonlinear_arith)
        requires
            base == q * p,
            q <= TWO_53 - 1,
            4 * delta < p,
    ;
    assert(base >= h * TWO_53) by (nonlinear_arith)
        requires
            base == q * p,
            p == 2 * h,
            q >= TWO_52,
    ;
    lemma_excess_unique(base + delta, 1, e);
    vstd::arithmetic::div_mod::lemma_fundamental_div_mod_converse((base + delta) as int, p as int, q as int, delta as int);
    assert(nearest_even(base + delta, p) == q);
    // below
    let n = (base - delta) as nat;
    if delta == 0 {
        assert(n == base + delta);
    } else if q > TWO_52 {
        assert(n >= h * TWO_53) by (nonlinear_arith)
            requires
                n == base - delta,
                base == q * p,
                p == 2 * h,
                q >= TWO_52 + 1,
                4 * delta < p,
        ;
        lemma_excess_unique(n, 1, e);
        assert(n == (q - 1) * p + (p - delta)) by (nonlinear_arith)
            requires
                n == base - delta,
                base == q * p,
        ;
        vstd::arithmetic::div_mod::lemma_fundamental_div_mod_converse(n as int, p as int, q - 1, p - delta);
        assert(nearest_even(n, p) == q);
    } else {
        let g = pow2((e - 2) as nat);
        lemma_pow2_step((e - 2) as nat);
        assert(1 * g == g);
        assert(n < h * TWO_53 && n >= g * TWO_53) by (nonlinear_arith)
            requires
                n == base - delta,
                base == q * p,
                p == 2 * h,
                h == 2 * g,
                q == TWO_52,
                0 < delta,
                4 * delta < p,
        ;
        lemma_excess_unique(n, 1, (e - 1) as nat);
        assert(n == (TWO_53 - 1) * h + (h - delta)) by (nonlinear_arith)
            requires
                n == base - delta,
                base == q * p,
                p == 2 * h,
                q == TWO_52,
        ;
        vstd::arithmetic::div_mod::lemma_fundamental_div_mod_converse(n as int, h as int, TWO_53 - 1, h - delta);
        assert(nearest_even(n, h) == TWO_53);
        assert((e - 1) * TWO_52 + TWO_53 == e * TWO_52 + q) by (nonlinear_arith)
            requires
                q == TWO_52,
        ;
    }
}

/// The sum of two finite numbers, the first with the larger scale.
fn sum_finite(a: Binary64, b: Binary64, qa: u64, ea: u64, qb: u64, eb: u64) -> (r: Binary64)
    requires
        a.finite(),
        b.finite(),
        magnitude(a.code()) == qa * pow2(ea as nat),
        magnitude(b.code()) == qb * pow2(eb as nat),
        a.code() == ea * TWO_52 + qa,
        qa < TWO_53,
        qb < TWO_53,
        eb <= ea <= 2045,
        ea > 0 ==> qa >= TWO_52,
    ensures
        r == sum(a, b),
        r == sum(b, a),
{
    let d: u64 = ea - eb;
    if d > 64 {
        proof {
            let p = pow2(ea as nat);
            let small = pow2(eb as nat);
            let gap = pow2(d as nat);
            lemma_pow2_sum(eb as nat, d as nat);
            vstd::arithmetic::power2::lemma2_to64();
            vstd::arithmetic::power2::lemma2_to64_rest();
            lemma_pow2_monotone(64, d as nat);
            assert((eb + d) as nat == ea as nat);
            let delta = (qb * small) as nat;
            assert(4 * delta < p) by (nonlinear_arith)
                requires
                    delta == qb * small,
                    p == small * gap,
                    gap >= 0x1_0000_0000_0000_0000,
                    qb < TWO_53,
                    small > 0,
            ;
            lemma_absorbs(qa as nat, ea as nat, delta);
            assert(qa * p > 0) by (nonlinear_arith)
                requires
                    qa > 0,
                    p > 0,
            ;
        }
        return a;
    }
    let mut big: u128 = qa as u128;
    let mut k: u64 = 0;
    proof {
        lemma_pow2_step(0);
        assert(qa * 1 == qa);
    }
    while k < d
        invariant
            k <= d <= 64,
            qa < TWO_53,
            big == qa * pow2(k as nat),
            big < TWO_53 * pow2(k as nat),
        decreases d - k,
    {
        proof {
            lemma_pow2_step(k as nat);
            lemma_pow2_monotone(k as nat, 64);
            vstd::arithmetic::power2::lemma2_to64();
            vstd::arithmetic::power2::lemma2_to64_rest();
            let p = pow2(k as nat);
            assert(qa * (2 * p) == 2 * (qa * p)) by (nonlinear_arith);
        }
        big = big * 2;
        k = k + 1;
    }
    proof {
        lemma_pow2_monotone(d as nat, 64);
        vstd::arithmetic::power2::lemma2_to64();
        vstd::arithmetic::power2::lemma2_to64_rest();
        let s = pow2(eb as nat);
        let g = pow2(d as nat);
        lemma_pow2_sum(d as nat, eb as nat);
        assert((d + eb) as nat == ea as nat);
        assert(big * s == qa * (g * s)) by (nonlinear_arith)
            requires
                big == qa * g,
        ;
        assert(big * s + qb * s == (big + qb) * s) by (nonlinear_arith);
        assert(big * s - qb * s == (big - qb) * s) by (nonlinear_arith);
        assert(s > 0);
        assert(big + qb > 0 ==> (big + qb) * s > 0) by (nonlinear_arith)
            requires
                s > 0,
        ;
        assert(big > qb ==> (big - qb) * s > 0) by (nonlinear_arith)
            requires
                s > 0,
        ;
        assert(big < qb ==> (big - qb) * s < 0) by (nonlinear_arith)
            requires
                s > 0,
        ;
        assert(-((big - qb) * s) == (qb - big) * s) by (nonlinear_arith);
        assert(0 * s == 0);
    }
    let low: u128 = qb as u128;
    if a.is_sign_negative() == b.is_sign_negative() {
        let code: u64 = round_scaled(big + low, eb as i64);
        proof {
            if big + qb == 0 {
                lemma_rounded_nothing(eb as nat);
            }
        }
        with_sign(a.is_sign_negative(), code)
    } else if big > low {
        let code: u64 = round_scaled(big - low, eb as i64);
        with_sign(a.is_sign_negative(), code)
    } else if big < low {
        let code: u64 = round_scaled(low - big, eb as i64);
        with_sign(b.is_sign_negative(), code)
    } else {
        Binary64 { bits: 0 }
    }
}

proof fn lemma_rounded_nothing(e: nat)
    ensures
        rounded_scaled(0, e as int) == 0,
{
    lemma_pow2_step(0);
    assert(0 * pow2(e) == 0);
    lemma_excess_unique(0, 1, 0);
    assert(1 * pow2(0) == 1);
}

/// Rounding sees of a division only the quotient and whether anything was left.
proof fn lemma_sticky(n: nat, d: nat, drop: nat)
    requires
        d > 0,
        drop >= 1,
    ensures
        nearest_even(n, d * pow2(drop)) == nearest_even(2 * (n / d) + (if n % d == 0 {
            0nat
        } else {
            1nat
        }), pow2(drop + 1)),
{
    let floor = n / d;
    let rest = n % d;
    let left: nat = if rest == 0 {
        0
    } else {
        1
    };
    let p = pow2(drop);
    let h = pow2((drop - 1) as nat);
    lemma_pow2_step(drop);
    lemma_pow2_step((drop - 1) as nat);
    vstd::arithmetic::div_mod::lemma_fundamental_div_mod(n as int, d as int);
    vstd::arithmetic::div_mod::lemma_fundamental_div_mod(floor as int, p as int);
    let q = floor / p;
    let t = floor % p;
    // n = q (d p) + (t d + rest)
    let dp = d * p;
    assert(n == q * dp + (t * d + rest)) by (nonlinear_arith)
        requires
            n == d * floor + rest,
            floor == p * q + t,
            dp == d * p,
    ;
    assert(0 <= t * d + rest < dp) by (nonlinear_arith)
        requires
            0 <= t <= p - 1,
            0 <= rest < d,
            dp == d * p,
    ;
    vstd::arithmetic::div_mod::lemma_fundamental_div_mod_converse(n as int, dp as int, q as int, (t * d + rest) as int);
    let m = 2 * floor + left;
    assert(m == q * (2 * p) + (2 * t + left)) by (nonlinear_arith)
        requires
            m == 2 * floor + left,
            floor == p * q + t,
    ;
    vstd::arithmetic::div_mod::lemma_fundamental_div_mod_converse(m as int, (2 * p) as int, q as int, (2 * t + left) as int);
    // compare t d + rest with d h, and 2 t + left with 2 h
    assert(dp == 2 * (d * h)) by (nonlinear_arith)
        requires
            dp == d * p,
            p == 2 * h,
    ;
    let dh = d * h;
    let r = t * d + rest;
    assert(t > h ==> r > dh) by (nonlinear_arith)
        requires
            r == t * d + rest,
            dh == d * h,
            rest >= 0,
            d > 0,
    ;
    assert(t < h ==> r < dh) by (nonlinear_arith)
        requires
            r == t * d + rest,
            dh == d * h,
            rest < d,
            d > 0,
    ;
    assert(t == h ==> r == dh + rest) by (nonlinear_arith)
        requires
            r == t * d + rest,
            dh == d * h,
    ;
}

/// Rounding `n / d * 2^x` from the quotient and whether anything was left.
proof fn lemma_sticky_rounded(n: nat, d: nat, x: int, m: nat)
    requires
        d > 0,
        n >= d * TWO_53,
        m == 2 * (n / d) + (if n % d == 0 {
            0nat
        } else {
            1nat
        }),
    ensures
        x >= 0 ==> rounded(n * pow2(x as nat), d) == rounded_scaled(m, x - 1),
        x < 0 ==> rounded(n, d * pow2((-x) as nat)) == rounded_scaled(m, x - 1),
{
    let c = excess(n, d);
    lemma_excess_bounds(n, d);
    assert(c > 0);
    let drop: nat = if c + x >= 0 {
        c
    } else {
        (-x) as nat
    };
    let s = (drop + x) as nat;
    lemma_sticky(n, d, drop);
    let floor = n / d;
    let pc = pow2(c);
    let pd = pow2(drop);
    lemma_pow2_monotone(c, drop);
    lemma_pow2_step(drop);
    lemma_pow2_step(c);
    vstd::arithmetic::div_mod::lemma_fundamental_div_mod(n as int, d as int);
    assert(floor < pc * TWO_53) by (nonlinear_arith)
        requires
            n == d * floor + n % d,
            n % d >= 0,
            n < d * pc * TWO_53,
            d > 0,
    ;
    assert(m < pow2(drop + 1) * TWO_53);
    let h = pow2((c - 1) as nat);
    lemma_pow2_step((c - 1) as nat);
    assert(floor >= h * TWO_53) by (nonlinear_arith)
        requires
            n == d * floor + n % d,
            n % d < d,
            n >= d * h * TWO_53,
            d > 0,
    ;
    lemma_rounded_scaled_at(m, x - 1, drop + 1);
    let dpd = d * pd;
    assert(dpd > 0) by (nonlinear_arith)
        requires
            d > 0,
            pd > 0,
            dpd == d * pd,
    ;
    if x >= 0 {
        let a = pow2(x as nat);
        lemma_pow2_sum(c, x as nat);
        assert(c + x as nat == s);
        assert(d * (pc * a) == (d * pc) * a) by (nonlinear_arith);
        assert(n * a < (d * pc) * a * TWO_53) by (nonlinear_arith)
            requires
                n < d * pc * TWO_53,
                a > 0,
        ;
        lemma_pow2_sum((c - 1) as nat, x as nat);
        assert(((c - 1) as nat + x as nat) as nat == (s - 1) as nat);
        assert(d * (h * a) == (d * h) * a) by (nonlinear_arith);
        assert(n * a >= (d * h) * a * TWO_53) by (nonlinear_arith)
            requires
                n >= d * h * TWO_53,
                a > 0,
        ;
        lemma_excess_unique(n * a, d, s);
        lemma_nearest_even_scale(n, dpd, a);
    } else {
        let a = pow2((-x) as nat);
        lemma_pow2_sum((-x) as nat, s);
        assert((-x) as nat + s == drop);
        let da = d * a;
        assert(da > 0) by (nonlinear_arith)
            requires
                d > 0,
                a > 0,
                da == d * a,
        ;
        let ps = pow2(s);
        assert(da * ps == d * pd) by (nonlinear_arith)
            requires
                da == d * a,
                pd == a * ps,
        ;
        assert(n < d * pd * TWO_53) by (nonlinear_arith)
            requires
                n < d * pc * TWO_53,
                pc <= pd,
                d > 0,
        ;
        if s > 0 {
            assert(drop == c);
            let hs = pow2((s - 1) as nat);
            lemma_pow2_step((s - 1) as nat);
            lemma_pow2_sum((-x) as nat, (s - 1) as nat);
            assert((-x) as nat + (s - 1) as nat == (c - 1) as nat);
            assert(da * hs == d * h) by (nonlinear_arith)
                requires
                    da == d * a,
                    h == a * hs,
            ;
        }
        lemma_excess_unique(n, da, s);
    }
}

/// The code of the quotient of two finite magnitudes.
fn quotient_code(qa: u64, ea: u64, qb: u64, eb: u64) -> (code: u64)
    requires
        qa < TWO_53,
        0 < qb < TWO_53,
        ea <= 2045,
        eb <= 2045,
    ensures
        code == rounded((qa * pow2(ea as nat)) as nat * pow2(1074), (qb * pow2(eb as nat)) as nat),
        code <= INFINITE_CODE,
{
    let ghost pa = pow2(ea as nat);
    let ghost pb = pow2(eb as nat);
    proof {
        lemma_pow2_step(ea as nat);
        lemma_pow2_step(eb as nat);
        lemma_pow2_step(0);
        assert(qb * pb > 0) by (nonlinear_arith)
            requires
                qb > 0,
                pb > 0,
        ;
    }
    if qa == 0 {
        proof {
            let d = (qb * pb) as nat;
            assert(0 * pa == 0);
            assert(0 * pow2(1074) == 0);
            assert(d * pow2(0) == d);
            lemma_excess_unique(0, d, 0);
            vstd::arithmetic::div_mod::lemma_div_of0(d as int);
            vstd::arithmetic::div_mod::lemma_small_mod(0, d);
        }
        return 0;
    }
    let mut q: u64 = qa;
    let mut j: u64 = 0;
    assert(qa * 1 == qa);
    while q < TWO_52
        invariant
            0 < q < TWO_53,
            q == qa * pow2(j as nat),
            j <= 52,
            pow2(j as nat) <= q,
        decreases TWO_53 - q,
    {
        proof {
            lemma_pow2_step(j as nat);
            let p = pow2(j as nat);
            assert(qa * (2 * p) == 2 * (qa * p)) by (nonlinear_arith);
            if j >= 52 {
                vstd::arithmetic::power2::lemma2_to64();
                vstd::arithmetic::power2::lemma2_to64_rest();
                lemma_pow2_monotone(52, j as nat);
            }
        }
        q = q * 2;
        j = j + 1;
    }
    let n: u128 = q as u128 * 0x1_0000_0000_0000_0000u128;
    let floor: u128 = n / qb as u128;
    let left: u128 = if n % qb as u128 == 0 {
        0
    } else {
        1
    };
    assert(floor <= n) by (nonlinear_arith)
        requires
            floor == n / qb as u128,
            qb > 0,
    ;
    let m: u128 = 2 * floor + left;
    let x: i64 = ea as i64 + 1010 - eb as i64 - j as i64;
    let code: u64 = round_scaled(m, x - 1);
    proof {
        lemma_sticky_rounded(n as nat, qb as nat, x as int, m as nat);
        vstd::arithmetic::power2::lemma2_to64();
        vstd::arithmetic::power2::lemma2_to64_rest();
        let w = pow2((j + 64) as nat);
        lemma_pow2_sum(j as nat, 64);
        assert((j as nat + 64) as nat == (j + 64) as nat);
        assert(n == qa * w) by (nonlinear_arith)
            requires
                n == q * 0x1_0000_0000_0000_0000,
                q == qa * pow2(j as nat),
                w == pow2(j as nat) * 0x1_0000_0000_0000_0000,
        ;
        let top = pow2((ea + 1074) as nat);
        lemma_pow2_sum(ea as nat, 1074);
        assert((ea as nat + 1074) as nat == (ea + 1074) as nat);
        let a_n = (qa * pa) as nat * pow2(1074);
        assert(a_n == qa * top) by (nonlinear_arith)
            requires
                a_n == (qa * pa) * pow2(1074),
                top == pa * pow2(1074),
        ;
        let b_n = (qb * pb) as nat;
        lemma_pow2_step((ea + 1074) as nat);
        lemma_pow2_step((j + 64) as nat);
        lemma_rounded_scale(a_n, b_n, w);
        if x >= 0 {
            let px = pow2(x as nat);
            lemma_pow2_step(x as nat);
            let n_n = n as nat * px;
            assert(pb * w > 0) by (nonlinear_arith)
                requires
                    pb > 0,
                    w > 0,
            ;
            lemma_rounded_scale(n_n, qb as nat, pb * w);
            // n 2^x 2^eb = qa 2^(ea + 1074)
            lemma_pow2_sum((j + 64) as nat, x as nat);
            lemma_pow2_sum(((j + 64) as nat + x as nat) as nat, eb as nat);
            assert((((j + 64) as nat + x as nat) as nat + eb as nat) as nat == (ea + 1074) as nat);
            assert(top == (w * px) * pb);
            assert(n_n * (pb * w) == a_n * w) by (nonlinear_arith)
                requires
                    n_n == n as nat * px,
                    n == qa * w,
                    a_n == qa * top,
                    top == (w * px) * pb,
            ;
            assert(qb as nat * (pb * w) == b_n * w) by (nonlinear_arith)
                requires
                    b_n == qb * pb,
            ;
        } else {
            let px = pow2((-x) as nat);
            lemma_pow2_step((-x) as nat);
            let d_n = qb as nat * px;
            assert(d_n > 0) by (nonlinear_arith)
                requires
                    d_n == qb as nat * px,
                    qb > 0,
                    px > 0,
            ;
            lemma_rounded_scale(n as nat, d_n, top);
            // 2^(-x) 2^(ea + 1074) = 2^(j + 64 + eb)
            lemma_pow2_sum((-x) as nat, (ea + 1074) as nat);
            lemma_pow2_sum((j + 64) as nat, eb as nat);
            assert(((-x) as nat + (ea + 1074) as nat) as nat == ((j + 64) as nat + eb as nat) as nat);
            assert(px * top == w * pb);
            assert(n as nat * top == a_n * w) by (nonlinear_arith)
                requires
                    n == qa * w,
                    a_n == qa * top,
            ;
            assert(d_n * top == b_n * w) by (nonlinear_arith)
                requires
                    d_n == qb as nat * px,
                    px * top == w * pb,
                    b_n == qb * pb,
            ;
        }
    }
    code
}

} // verus!
