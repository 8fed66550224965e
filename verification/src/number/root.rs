//! Square roots of binary64 numbers.

use crate::number::binary64::{signed, split, Binary64, NAN_BITS};
use crate::number::rounding::{
    lemma_excess_unique, lemma_pow2_monotone, lemma_pow2_step, lemma_pow2_sum, lemma_rounded_scaled_at, magnitude,
    nearest_even, round_scaled, rounded, rounded_scaled, TWO_53,
};
use vstd::arithmetic::power2::pow2;
use vstd::prelude::*;

verus! {

/// Whether `r` is the integer part of the square root of `x`.
pub open spec fn is_floor_root(x: nat, r: nat) -> bool {
    r * r <= x && x < (r + 1) * (r + 1)
}

/// The integer part of a square root.
pub open spec fn floor_root(x: nat) -> nat {
    choose|r: nat| is_floor_root(x, r)
}

/// The code nearest to the square root of a magnitude. The root is taken in
/// units of 2^-1074 as well, to its integer part and whether anything is left;
/// a root is never halfway between two codes.
pub open spec fn root_code(m: nat) -> nat {
    let x = m * pow2(1074);
    let r = floor_root(x);
    rounded(2 * r + (if r * r == x {
        0nat
    } else {
        1nat
    }), 2)
}

/// The square root of a number; a NaN of a negative one.
pub open spec fn square_root(a: Binary64) -> Binary64 {
    if a.nan() {
        Binary64 { bits: NAN_BITS }
    } else if a.code() == 0 {
        a
    } else if a.negative() {
        Binary64 { bits: NAN_BITS }
    } else if a.infinite() {
        a
    } else {
        signed(false, root_code(magnitude(a.code())))
    }
}

proof fn lemma_floor_root_unique(x: nat, r: nat)
    requires
        is_floor_root(x, r),
    ensures
        floor_root(x) == r,
{
    let s = floor_root(x);
    assert(is_floor_root(x, s));
    if s < r {
        assert((s + 1) * (s + 1) <= r * r) by (nonlinear_arith)
            requires
                s + 1 <= r,
        ;
    } else if r < s {
        assert((r + 1) * (r + 1) <= s * s) by (nonlinear_arith)
            requires
                r + 1 <= s,
        ;
    }
}

/// Every natural number has a square root with an integer part.
proof fn lemma_floor_root_exists(x: nat)
    ensures
        exists|r: nat| #[trigger] is_floor_root(x, r),
    decreases x,
{
    if x == 0 {
        assert(is_floor_root(0, 0)) by (nonlinear_arith);
    } else {
        lemma_floor_root_exists((x - 1) as nat);
        let r = choose|r: nat| #[trigger] is_floor_root((x - 1) as nat, r);
        if x < (r + 1) * (r + 1) {
            assert(is_floor_root(x, r));
        } else {
            assert((r + 1) * (r + 1) < (r + 2) * (r + 2)) by (nonlinear_arith);
            assert(is_floor_root(x, r + 1));
        }
    }
}

/// Rounding a root needs only the first places of it and whether anything is
/// left behind them.
proof fn lemma_root_from_head(head: nat, h: nat, r1: nat, m: nat)
    requires
        is_floor_root(head, r1),
        0x100_0000_0000_0000 <= r1 < 0x200_0000_0000_0000,
        m == 2 * r1 + (if r1 * r1 == head {
            0nat
        } else {
            1nat
        }),
        h >= 1,
    ensures
        ({
            let x = head * (pow2(h) * pow2(h));
            let r = floor_root(x);
            rounded(2 * r + (if r * r == x {
                0nat
            } else {
                1nat
            }), 2) == rounded_scaled(m, h - 1)
        }),
{
    let p = pow2(h);
    lemma_pow2_step(h);
    let x = head * (p * p);
    lemma_floor_root_exists(x);
    let r = floor_root(x);
    assert(is_floor_root(x, r));
    let s: nat = if r * r == x {
        0
    } else {
        1
    };
    let base = r1 * p;
    assert(base * base <= x) by (nonlinear_arith)
        requires
            base == r1 * p,
            x == head * (p * p),
            r1 * r1 <= head,
            p >= 0,
    ;
    let top = (r1 + 1) * p;
    assert(x < top * top) by (nonlinear_arith)
        requires
            top == (r1 + 1) * p,
            x == head * (p * p),
            head < (r1 + 1) * (r1 + 1),
            p > 0,
    ;
    assert(r >= base) by {
        if r < base {
            assert((r + 1) * (r + 1) <= base * base) by (nonlinear_arith)
                requires
                    r + 1 <= base,
            ;
        }
    }
    assert(r < top) by {
        if r >= top {
            assert(top * top <= r * r) by (nonlinear_arith)
                requires
                    top <= r,
            ;
        }
    }
    assert(top == base + p) by (nonlinear_arith)
        requires
            top == (r1 + 1) * p,
            base == r1 * p,
    ;
    let w = (r - base) as nat;
    // the rest of the root beyond its head is nothing exactly if nothing is left
    assert((w > 0 || s > 0) <==> r1 * r1 != head) by {
        if r1 * r1 == head {
            assert(base * base == x) by (nonlinear_arith)
                requires
                    base == r1 * p,
                    x == head * (p * p),
                    r1 * r1 == head,
            ;
            assert(is_floor_root(x, base)) by (nonlinear_arith)
                requires
                    base * base == x,
            ;
            lemma_floor_root_unique(x, base);
        } else {
            assert(base * base < x) by (nonlinear_arith)
                requires
                    base == r1 * p,
                    x == head * (p * p),
                    r1 * r1 < head,
                    p > 0,
            ;
        }
    }
    let n = 2 * r + s;
    let t = r1 % 16;
    let q = r1 / 16;
    // the scale of the result
    lemma_pow2_step(h + 1);
    lemma_pow2_step(h + 2);
    lemma_pow2_step(h + 3);
    let d = pow2(h + 4);
    assert(d == 16 * p);
    assert(n >= 2 * (8 * p) * TWO_53) by {
        assert(base >= 0x100_0000_0000_0000 * p) by (nonlinear_arith)
            requires
                base == r1 * p,
                r1 >= 0x100_0000_0000_0000,
        ;
    }
    assert(n < 2 * d * TWO_53) by {
        assert(top <= 0x200_0000_0000_0000 * p) by (nonlinear_arith)
            requires
                top == (r1 + 1) * p,
                r1 + 1 <= 0x200_0000_0000_0000,
        ;
    }
    lemma_excess_unique(n, 2, h + 4);
    // the significand
    let rest = 2 * (t * p + w) + s;
    assert(n == q * (32 * p) + rest) by (nonlinear_arith)
        requires
            n == 2 * r + s,
            r == r1 * p + w,
            r1 == 16 * q + t,
            rest == 2 * (t * p + w) + s,
    ;
    assert(t * p + w + 1 <= 16 * p) by (nonlinear_arith)
        requires
            t <= 15,
            w + 1 <= p,
    ;
    vstd::arithmetic::div_mod::lemma_fundamental_div_mod_converse(n as int, (32 * p) as int, q as int, rest as int);
    assert(2 * d == 32 * p);
    assert(t > 8 ==> t * p >= 9 * p) by (nonlinear_arith)
        requires
            p > 0,
    ;
    assert(t < 8 ==> t * p <= 7 * p) by (nonlinear_arith)
        requires
            p > 0,
    ;
    assert(m == q * 32 + (2 * t + (m - 2 * r1)));
    vstd::arithmetic::div_mod::lemma_fundamental_div_mod_converse(m as int, 32, q as int, (2 * t + (m - 2 * r1)) as int);
    assert(nearest_even(n, 2 * d) == nearest_even(m, 32));
    vstd::arithmetic::power2::lemma2_to64();
    lemma_rounded_scaled_at(m, h - 1, 5);
}

/// The integer part of the square root of a number below 2^116.
fn integer_root(x: u128) -> (r: u128)
    requires
        x < 0x10_0000_0000_0000_0000_0000_0000_0000,
    ensures
        is_floor_root(x as nat, r as nat),
{
    let mut r: u128 = 0;
    let mut step: u128 = 0x400_0000_0000_0000;
    proof {
        vstd::arithmetic::power2::lemma2_to64();
        vstd::arithmetic::power2::lemma2_to64_rest();
        assert(step == pow2(58));
        assert((r + 2 * step) * (r + 2 * step) == 0x40_0000_0000_0000_0000_0000_0000_0000) by (nonlinear_arith)
            requires
                r == 0,
                step == 0x400_0000_0000_0000,
        ;
    }
    while step > 0
        invariant
            x < 0x10_0000_0000_0000_0000_0000_0000_0000,
            step <= 0x400_0000_0000_0000,
            r <= 0x800_0000_0000_0000,
            r * r <= x,
            step > 0 ==> x < (r + 2 * step) * (r + 2 * step),
            step == 0 ==> x < (r + 1) * (r + 1),
            is_power(step as nat),
        decreases step,
    {
        let next: u128 = r + step;
        assert(next <= 0xC00_0000_0000_0000);
        assert(next * next <= 0xC00_0000_0000_0000 * 0xC00_0000_0000_0000) by (nonlinear_arith)
            requires
                next <= 0xC00_0000_0000_0000,
        ;
        proof {
            lemma_halved(step as nat);
        }
        if next * next <= x {
            assert(next < 0x400_0000_0000_0000) by (nonlinear_arith)
                requires
                    next * next <= x,
                    x < 0x10_0000_0000_0000_0000_0000_0000_0000,
            ;
            assert((next + step) * (next + step) == (r + 2 * step) * (r + 2 * step));
            r = next;
        }
        step = step / 2;
    }
    r
}

/// Zero or a power of two below 2^59.
spec fn is_power(n: nat) -> bool {
    n == 0 || exists|e: nat| e <= 58 && n == #[trigger] pow2(e)
}

proof fn lemma_halved(n: nat)
    requires
        is_power(n),
    ensures
        is_power(n / 2),
        n > 1 ==> n % 2 == 0,
{
    if n > 0 {
        let e = choose|e: nat| e <= 58 && n == #[trigger] pow2(e);
        vstd::arithmetic::power2::lemma2_to64();
        if e > 0 {
            lemma_pow2_step((e - 1) as nat);
            assert(n / 2 == pow2((e - 1) as nat));
        } else {
            lemma_pow2_step(0);
        }
    }
}

impl Binary64 {
    /// The square root; a NaN of a negative number.
    pub fn sqrt(&self) -> (r: Binary64)
        ensures
            r == square_root(*self),
    {
        let code: u64 = self.magnitude_code();
        if code == 0 && !self.is_nan() {
            return *self;
        }
        if self.is_nan() || self.is_sign_negative() {
            return Binary64 { bits: NAN_BITS };
        }
        if self.is_infinite() {
            return *self;
        }
        let (q, e) = split(code);
        let mut head: u128 = q as u128;
        let mut rest: u64 = e + 1074;
        proof {
            let pe = pow2(e as nat);
            let one = pow2(1074);
            lemma_pow2_sum(e as nat, 1074);
            assert((e as nat + 1074) as nat == rest as nat);
            assert((q * pe) * one == q * (pe * one)) by (nonlinear_arith);
        }
        let ghost x = (magnitude(code as nat) * pow2(1074)) as nat;
        let ghost start = rest;
        let mut done: u64 = 0;
        proof {
            lemma_pow2_step(0);
        }
        while head < 0x1_0000_0000_0000_0000_0000_0000_0000 || rest % 2 == 1
            invariant
                0 < head < 0x4_0000_0000_0000_0000_0000_0000_0000,
                head >= 0x2_0000_0000_0000_0000_0000_0000_0000 ==> rest % 2 == 0,
                head * pow2(rest as nat) == x,
                start >= 1074,
                rest == start - done,
                pow2(done as nat) <= head,
                done <= 113,
                rest <= 4000,
            decreases rest,
        {
            proof {
                lemma_pow2_step((rest - 1) as nat);
                let p = pow2((rest - 1) as nat);
                assert(head * (2 * p) == (2 * head) * p) by (nonlinear_arith);
                lemma_pow2_step(done as nat);
                if done >= 113 {
                    lemma_pow2_113();
                    lemma_pow2_monotone(113, done as nat);
                }
            }
            head = head * 2;
            rest = rest - 1;
            done = done + 1;
        }
        let h: u64 = rest / 2;
        let root: u128 = integer_root(head);
        assert(0x100_0000_0000_0000 <= root < 0x200_0000_0000_0000) by (nonlinear_arith)
            requires
                root * root <= head,
                head < (root + 1) * (root + 1),
                0x1_0000_0000_0000_0000_0000_0000_0000 <= head < 0x4_0000_0000_0000_0000_0000_0000_0000,
        ;
        assert(root * root < 0x4_0000_0000_0000_0000_0000_0000_0000);
        let m: u128 = if root * root == head {
            2 * root
        } else {
            2 * root + 1
        };
        let out: u64 = round_scaled(m, h as i64 - 1);
        proof {
            lemma_pow2_sum(h as nat, h as nat);
            assert((h as nat + h as nat) as nat == rest as nat);
            lemma_root_from_head(head as nat, h as nat, root as nat, m as nat);
        }
        Binary64 { bits: out }
    }
}

proof fn lemma_pow2_113()
    ensures
        pow2(113) == 0x2_0000_0000_0000_0000_0000_0000_0000,
{
    vstd::arithmetic::power2::lemma2_to64();
    vstd::arithmetic::power2::lemma2_to64_rest();
    lemma_pow2_sum(64, 49);
}

} // verus!
