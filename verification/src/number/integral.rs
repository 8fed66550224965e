//! Integer parts, roundings to an integer, and remainders of binary64 numbers.

use crate::number::binary64::{absolute, signed, split, sum, with_sign, Binary64};
use crate::number::rounding::{
    code_scale, code_significand, lemma_excess_unique, lemma_pow2_monotone, lemma_pow2_step, lemma_pow2_sum, magnitude,
    nearest_even, round_scaled, rounded, INFINITE_CODE, TWO_52, TWO_53,
};
use vstd::arithmetic::power2::pow2;
use vstd::prelude::*;

verus! {

/// The integer part of a magnitude code.
pub open spec fn whole(code: nat) -> nat {
    magnitude(code) / pow2(1074)
}

/// What a magnitude code has beyond its integer part, in units of 2^-1074.
pub open spec fn fraction(code: nat) -> nat {
    magnitude(code) % pow2(1074)
}

/// The integer magnitude `n` as a code.
pub open spec fn integer_code(n: nat) -> nat {
    rounded(n * pow2(1074), 1)
}

/// The integer part of a number cut into `0..=limit`; zero for a NaN.
pub open spec fn truncated(a: Binary64, limit: nat) -> nat {
    if a.nan() || a.negative() {
        0
    } else if a.infinite() {
        limit
    } else if whole(a.code()) < limit {
        whole(a.code())
    } else {
        limit
    }
}

/// The integer part of a number cut into the range of `i64`; zero for a NaN.
pub open spec fn signed_truncated(a: Binary64) -> int {
    if a.negative() {
        -(truncated(absolute(a), 0x8000_0000_0000_0000) as int)
    } else {
        truncated(a, 0x7FFF_FFFF_FFFF_FFFF) as int
    }
}

/// The magnitude of a finite number after rounding up or down to an integer.
pub open spec fn stepped(a: Binary64, away: bool) -> Binary64 {
    if !a.finite() {
        a
    } else if away && fraction(a.code()) > 0 {
        signed(a.negative(), integer_code(whole(a.code()) + 1))
    } else {
        signed(a.negative(), integer_code(whole(a.code())))
    }
}

/// The largest integer that is not above a number.
pub open spec fn floored(a: Binary64) -> Binary64 {
    stepped(a, a.negative())
}

/// The smallest integer that is not below a number.
pub open spec fn ceiled(a: Binary64) -> Binary64 {
    stepped(a, !a.negative())
}

/// The nearest integer, ties away from zero.
pub open spec fn nearest_integer(a: Binary64) -> Binary64 {
    stepped(a, 2 * fraction(a.code()) >= pow2(1074))
}

/// The remainder of a truncating division, with the sign of the dividend.
pub open spec fn remainder(a: Binary64, b: Binary64) -> Binary64 {
    if a.nan() || b.nan() || a.infinite() || b.code() == 0 {
        Binary64 { bits: crate::number::binary64::NAN_BITS }
    } else if b.infinite() {
        a
    } else {
        signed(a.negative(), rounded(magnitude(a.code()) % magnitude(b.code()), 1))
    }
}

/// The non-negative remainder.
pub open spec fn euclidean_remainder(a: Binary64, b: Binary64) -> Binary64 {
    let r = remainder(a, b);
    if r.spec_lt(Binary64 { bits: 0 }) {
        sum(r, absolute(b))
    } else {
        r
    }
}

/// A magnitude that has a code rounds to it.
pub proof fn lemma_rounded_exact(code: nat)
    requires
        code < INFINITE_CODE,
    ensures
        rounded(magnitude(code), 1) == code,
{
    let s = code_scale(code);
    let q = code_significand(code);
    let p = pow2(s);
    lemma_pow2_step(s);
    lemma_pow2_step(0);
    assert(q < TWO_53 && (s > 0 ==> q >= TWO_52) && code == s * TWO_52 + q);
    assert(q * p < p * TWO_53) by (nonlinear_arith)
        requires
            q < TWO_53,
            p > 0,
    ;
    assert(1 * p == p);
    if s > 0 {
        let h = pow2((s - 1) as nat);
        lemma_pow2_step((s - 1) as nat);
        assert(1 * h == h);
        assert(q * p >= h * TWO_53) by (nonlinear_arith)
            requires
                q >= TWO_52,
                p == 2 * h,
        ;
    }
    lemma_excess_unique(q * p, 1, s);
    vstd::arithmetic::div_mod::lemma_fundamental_div_mod_converse((q * p) as int, p as int, q as int, 0);
    assert(nearest_even(q * p, p) == q);
}

/// From 2^52 on every number is an integer.
proof fn lemma_large_is_integer(code: nat)
    requires
        code < INFINITE_CODE,
        code_scale(code) >= 1074,
    ensures
        fraction(code) == 0,
        whole(code) == code_significand(code) * pow2((code_scale(code) - 1074) as nat),
        integer_code(whole(code)) == code,
{
    let s = code_scale(code);
    let q = code_significand(code);
    let up = pow2((s - 1074) as nat);
    let one = pow2(1074);
    lemma_pow2_step(1074);
    lemma_pow2_sum((s - 1074) as nat, 1074);
    assert(((s - 1074) as nat + 1074) as nat == s);
    assert(q * (up * one) == (q * up) * one) by (nonlinear_arith);
    vstd::arithmetic::div_mod::lemma_fundamental_div_mod_converse(
        magnitude(code) as int,
        one as int,
        (q * up) as int,
        0,
    );
    lemma_rounded_exact(code);
}

/// The integer part of a small magnitude, and how its fraction compares with
/// zero and with a half.
fn integer_part(code: u64) -> (r: (u64, bool, bool))
    requires
        code < INFINITE_CODE,
        code_scale(code as nat) < 1074,
    ensures
        r.0 == whole(code as nat),
        r.1 == (fraction(code as nat) > 0),
        r.2 == (2 * fraction(code as nat) >= pow2(1074)),
        r.0 < TWO_53,
{
    let (q, e) = split(code);
    let down: u64 = 1074 - e;
    let ghost one = pow2(1074);
    let ghost pe = pow2(e as nat);
    let ghost pd = pow2(down as nat);
    proof {
        lemma_pow2_step(1074);
        lemma_pow2_step(e as nat);
        lemma_pow2_sum(e as nat, down as nat);
        assert((e as nat + down as nat) as nat == 1074);
        lemma_pow2_step(0);
    }
    if down > 54 {
        proof {
            vstd::arithmetic::power2::lemma2_to64();
            vstd::arithmetic::power2::lemma2_to64_rest();
            lemma_pow2_monotone(54, down as nat);
            assert(2 * (q * pe) < one) by (nonlinear_arith)
                requires
                    q < TWO_53,
                    one == pe * pd,
                    pe > 0,
                    pd >= 0x40_0000_0000_0000,
            ;
            assert(q > 0 ==> q * pe > 0) by (nonlinear_arith)
                requires
                    pe > 0,
            ;
            assert(0 * pe == 0);
            vstd::arithmetic::div_mod::lemma_small_mod((q * pe) as nat, one);
            vstd::arithmetic::div_mod::lemma_basic_div((q * pe) as int, one as int);
        }
        return (0, q > 0, false);
    }
    let mut power: u64 = 1;
    let mut k: u64 = 0;
    while k < down
        invariant
            k <= down <= 54,
            power == pow2(k as nat),
        decreases down - k,
    {
        proof {
            lemma_pow2_step(k as nat);
            vstd::arithmetic::power2::lemma2_to64();
            vstd::arithmetic::power2::lemma2_to64_rest();
            lemma_pow2_monotone((k + 1) as nat, 54);
        }
        power = power * 2;
        k = k + 1;
    }
    proof {
        lemma_pow2_monotone(down as nat, 54);
        vstd::arithmetic::power2::lemma2_to64();
        vstd::arithmetic::power2::lemma2_to64_rest();
        lemma_pow2_step(down as nat);
    }
    let floor: u64 = q / power;
    let rest: u64 = q % power;
    proof {
        vstd::arithmetic::div_mod::lemma_fundamental_div_mod(q as int, power as int);
        let r = (rest * pe) as int;
        assert(q * pe == floor * one + r) by (nonlinear_arith)
            requires
                q == power * floor + rest,
                one == pe * power,
                r == rest * pe,
        ;
        assert(0 <= r < one) by (nonlinear_arith)
            requires
                r == rest * pe,
                0 <= rest < power,
                one == pe * power,
                pe > 0,
        ;
        vstd::arithmetic::div_mod::lemma_fundamental_div_mod_converse((q * pe) as int, one as int, floor as int, r);
        assert(r > 0 <==> rest > 0) by (nonlinear_arith)
            requires
                r == rest * pe,
                pe > 0,
                rest >= 0,
        ;
        assert(2 * r >= one <==> 2 * rest >= power) by (nonlinear_arith)
            requires
                r == rest * pe,
                one == pe * power,
                pe > 0,
        ;
        assert(floor <= q) by (nonlinear_arith)
            requires
                q == power * floor + rest,
                rest >= 0,
                power >= 1,
                floor >= 0,
        ;
    }
    (floor, rest > 0, rest >= power - rest)
}

impl Binary64 {
    /// The number rounded to an integer towards zero, or away from it where
    /// `away` says so and there is a fraction to round.
    fn step(&self, away_below_half: bool, away_from_half: bool) -> (r: Binary64)
        requires
            away_below_half ==> away_from_half,
        ensures
            r == stepped(
                *self,
                if 2 * fraction(self.code()) >= pow2(1074) {
                    away_from_half
                } else {
                    away_below_half
                },
            ),
    {
        let code: u64 = self.magnitude_code();
        if code >= INFINITE_CODE {
            return *self;
        }
        let (q, e) = split(code);
        if e >= 1074 {
            proof {
                lemma_large_is_integer(code as nat);
                lemma_pow2_step(1074);
            }
            return *self;
        }
        let (floor, some, half) = integer_part(code);
        let n: u64 = if some && ((half && away_from_half) || (!half && away_below_half)) {
            floor + 1
        } else {
            floor
        };
        let out: u64 = round_scaled(n as u128, 1074);
        proof {
            lemma_pow2_step(1074);
        }
        with_sign(self.is_sign_negative(), out)
    }

    /// The largest integer that is not above this number.
    pub fn floor(&self) -> (r: Binary64)
        ensures
            r == floored(*self),
    {
        self.step(self.is_sign_negative(), self.is_sign_negative())
    }

    /// The smallest integer that is not below this number.
    pub fn ceil(&self) -> (r: Binary64)
        ensures
            r == ceiled(*self),
    {
        self.step(!self.is_sign_negative(), !self.is_sign_negative())
    }

    /// The nearest integer, ties away from zero.
    pub fn round(&self) -> (r: Binary64)
        ensures
            r == nearest_integer(*self),
    {
        self.step(false, true)
    }

    /// The integer part, cut into `0..=limit`; zero for a NaN.
    pub fn truncate(&self, limit: u64) -> (r: u64)
        ensures
            r == truncated(*self, limit as nat),
    {
        if self.is_nan() || self.is_sign_negative() {
            return 0;
        }
        if self.is_infinite() {
            return limit;
        }
        let code: u64 = self.magnitude_code();
        let (q, e) = split(code);
        if e < 1074 {
            let (floor, _some, _half) = integer_part(code);
            return if floor < limit {
                floor
            } else {
                limit
            };
        }
        proof {
            lemma_large_is_integer(code as nat);
            lemma_pow2_step(0);
            assert(q * 1 == q);
        }
        let up: u64 = e - 1074;
        if up >= 12 {
            proof {
                let p = pow2(up as nat);
                vstd::arithmetic::power2::lemma2_to64();
                lemma_pow2_monotone(12, up as nat);
                assert(q * p >= 0x1_0000_0000_0000_0000) by (nonlinear_arith)
                    requires
                        q >= TWO_52,
                        p >= 0x1000,
                ;
            }
            return limit;
        }
        let mut value: u128 = q as u128;
        let mut k: u64 = 0;
        while k < up
            invariant
                k <= up < 12,
                q < TWO_53,
                value == q * pow2(k as nat),
                value < TWO_53 * pow2(k as nat),
            decreases up - k,
        {
            proof {
                lemma_pow2_step(k as nat);
                vstd::arithmetic::power2::lemma2_to64();
                lemma_pow2_monotone(k as nat, 12);
                let p = pow2(k as nat);
                assert(q * (2 * p) == 2 * (q * p)) by (nonlinear_arith);
            }
            value = value * 2;
            k = k + 1;
        }
        if value < limit as u128 {
            value as u64
        } else {
            limit
        }
    }

    /// The integer part, cut into the range of `i64`; zero for a NaN.
    pub fn to_i64(&self) -> (r: i64)
        ensures
            r == signed_truncated(*self),
    {
        if self.is_sign_negative() {
            let n: u64 = self.abs().truncate(0x8000_0000_0000_0000);
            (-(n as i128)) as i64
        } else {
            self.truncate(0x7FFF_FFFF_FFFF_FFFF) as i64
        }
    }

    /// The remainder of a truncating division, with the sign of the dividend.
    pub fn rem(&self, other: Binary64) -> (r: Binary64)
        ensures
            r == remainder(*self, other),
    {
        let a: u64 = self.magnitude_code();
        let b: u64 = other.magnitude_code();
        if self.is_nan() || other.is_nan() || self.is_infinite() || b == 0 {
            return Binary64 { bits: crate::number::binary64::NAN_BITS };
        }
        if other.is_infinite() {
            return *self;
        }
        let (qa, ea) = split(a);
        let (qb, eb) = split(b);
        let ghost pa = pow2(ea as nat);
        let ghost pb = pow2(eb as nat);
        proof {
            lemma_pow2_step(ea as nat);
            lemma_pow2_step(eb as nat);
            lemma_pow2_step(0);
            lemma_rounded_exact(a as nat);
        }
        if ea < eb {
            proof {
                lemma_pow2_monotone((ea + 1) as nat, eb as nat);
                assert(qa * pa < qb * pb) by (nonlinear_arith)
                    requires
                        qa < TWO_53,
                        qb >= TWO_52,
                        2 * pa <= pb,
                        pa > 0,
                ;
                vstd::arithmetic::div_mod::lemma_small_mod((qa * pa) as nat, (qb * pb) as nat);
            }
            return *self;
        }
        let up: u64 = ea - eb;
        let mut m: u64 = qa % qb;
        let mut k: u64 = 0;
        assert(qa * 1 == qa);
        while k < up
            invariant
                k <= up,
                0 < qb < TWO_53,
                m < qb,
                m == (qa * pow2(k as nat)) % (qb as int),
            decreases up - k,
        {
            proof {
                lemma_pow2_step(k as nat);
                let p = pow2(k as nat);
                let n = (qa * p) as int;
                assert(qa * (2 * p) == n * 2) by (nonlinear_arith)
                    requires
                        n == qa * p,
                ;
                vstd::arithmetic::div_mod::lemma_mul_mod_noop_left(n, 2, qb as int);
            }
            m = (m * 2) % qb;
            k = k + 1;
        }
        let code: u64 = round_scaled(m as u128, eb as i64);
        proof {
            let pu = pow2(up as nat);
            lemma_pow2_sum(up as nat, eb as nat);
            assert((up as nat + eb as nat) as nat == ea as nat);
            let n = (qa * pu) as nat;
            assert(qa * pa == pb * n) by (nonlinear_arith)
                requires
                    pa == pu * pb,
                    n == qa * pu,
            ;
            assert(qb * pb == pb * qb) by (nonlinear_arith);
            vstd::arithmetic::div_mod::lemma_truncate_middle(n as int, pb as int, qb as int);
            assert(pb * (n % (qb as nat)) == m * pb) by (nonlinear_arith)
                requires
                    m == n % (qb as nat),
            ;
        }
        with_sign(self.is_sign_negative(), code)
    }

    /// The non-negative remainder.
    pub fn rem_euclid(&self, other: Binary64) -> (r: Binary64)
        ensures
            r == euclidean_remainder(*self, other),
    {
        let r: Binary64 = self.rem(other);
        if r.lt(Binary64 { bits: 0 }) {
            r.plus(other.abs())
        } else {
            r
        }
    }
}

} // verus!
