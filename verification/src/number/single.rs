//! Narrowing a binary64 number to the nearest binary32 one.

use crate::number::binary64::{split, widen, widened, Binary64};
use crate::number::fixed::round_shift;
use crate::number::integral::lemma_rounded_exact;
use crate::number::laws::{law_codes_are_ordered, lemma_has_code};
use crate::number::rounding::{
    code_scale, code_significand, lemma_nearest_even_scale, lemma_pow2_monotone, lemma_pow2_step, lemma_pow2_sum, magnitude,
    nearest_even, rounded_scaled, INFINITE_CODE, TWO_52, TWO_53,
};
use vstd::arithmetic::power2::pow2;
use vstd::prelude::*;

verus! {

/// The code of 2^-126, the least binary32 magnitude with a full significand.
pub const LEAST_NORMAL: u64 = 0x3810_0000_0000_0000;

/// The binary32 code of infinity.
pub const SINGLE_INFINITE: u32 = 0x7F80_0000;

/// The binary32 code nearest to the magnitude that a binary64 code stands for,
/// ties to even. Below 2^-126 the binary32 magnitudes are the multiples of
/// 2^-149; from there on a binary32 code is a binary64 one without its last 29
/// places, counted from another start.
pub open spec fn narrowed_code(code: nat) -> nat {
    if code > INFINITE_CODE {
        0x7FC0_0000
    } else if code < LEAST_NORMAL {
        nearest_even(magnitude(code), pow2(925))
    } else {
        let kept = nearest_even(code, 0x2000_0000) - 0x1_C000_0000;
        if kept < SINGLE_INFINITE {
            kept as nat
        } else {
            SINGLE_INFINITE as nat
        }
    }
}

/// The bit pattern of the binary32 number nearest to a binary64 one.
pub open spec fn narrowed(a: Binary64) -> u32 {
    if a.negative() {
        (0x8000_0000 + narrowed_code(a.code())) as u32
    } else {
        narrowed_code(a.code()) as u32
    }
}

/// A number in the precision of binary32.
pub open spec fn single(a: Binary64) -> Binary64 {
    widened(narrowed(a))
}

/// Dividing a significand by a large power of two leaves a small integer.
proof fn lemma_small_quotient(q: nat, shift: nat)
    requires
        q < TWO_53,
        shift >= 29,
    ensures
        nearest_even(q, pow2(shift)) <= 0x100_0000,
{
    vstd::arithmetic::power2::lemma2_to64();
    vstd::arithmetic::power2::lemma2_to64_rest();
    lemma_pow2_monotone(29, shift);
    let d = pow2(shift);
    assert(pow2(29) == 0x2000_0000);
    assert(q / d < 0x100_0000) by (nonlinear_arith)
        requires
            q < 0x20_0000_0000_0000,
            d >= 0x2000_0000,
    ;
}

/// The binary32 code nearest to a magnitude below 2^-126.
fn narrow_small(code: u64) -> (r: u32)
    requires
        code < LEAST_NORMAL,
    ensures
        r == nearest_even(magnitude(code as nat), pow2(925)),
        r <= 0x100_0000,
{
    let (q, e): (u64, u64) = split(code);
    let shift: u32 = (925 - e) as u32;
    proof {
        lemma_pow2_sum(shift as nat, e as nat);
        lemma_nearest_even_scale(q as nat, pow2(shift as nat), pow2(e as nat));
        lemma_small_quotient(q as nat, shift as nat);
    }
    round_shift(q as u128, shift) as u32
}

/// The bit pattern of the binary32 number nearest to a binary64 one, as for a
/// cast between the two.
pub fn narrow(a: Binary64) -> (r: u32)
    ensures
        r == narrowed(a),
        narrowed_code(a.code()) < 0x8000_0000,
{
    let code: u64 = a.magnitude_code();
    let kept: u32 = if code > INFINITE_CODE {
        0x7FC0_0000
    } else if code < LEAST_NORMAL {
        narrow_small(code)
    } else {
        let floor: u64 = code / 0x2000_0000;
        let rest: u64 = code % 0x2000_0000;
        let near: u64 = if 2 * rest > 0x2000_0000 || (2 * rest == 0x2000_0000 && floor % 2 == 1) {
            floor + 1
        } else {
            floor
        };
        let moved: u64 = near - 0x1_C000_0000;
        if moved < SINGLE_INFINITE as u64 {
            moved as u32
        } else {
            SINGLE_INFINITE
        }
    };
    if a.is_sign_negative() {
        0x8000_0000 + kept
    } else {
        kept
    }
}

/// A number in the precision of binary32.
pub fn to_single(a: Binary64) -> (r: Binary64)
    ensures
        r == single(a),
{
    widen(narrow(a))
}

/// A binary32 magnitude with a full significand, as a binary64 code.
proof fn lemma_full_code(m: nat, scale: nat)
    requires
        0x80_0000 <= m < 0x100_0000,
        scale <= 253,
    ensures
        rounded_scaled(m, (scale + 925) as int) == (scale + 896) * TWO_52 + m * 0x2000_0000,
        narrowed_code(rounded_scaled(m, (scale + 925) as int)) == scale * 0x80_0000 + m,
{
    let s = (scale + 896) as nat;
    let q = (m * 0x2000_0000) as nat;
    let code = (s * TWO_52 + q) as nat;
    assert(code_scale(code) == s && code_significand(code) == q) by {
        vstd::arithmetic::div_mod::lemma_fundamental_div_mod_converse(
            code as int,
            TWO_52 as int,
            (s + 1) as int,
            q - TWO_52,
        );
    }
    lemma_pow2_sum(29, s);
    vstd::arithmetic::power2::lemma2_to64();
    let p = pow2(s);
    assert(m * (0x2000_0000 * p) == (m * 0x2000_0000) * p) by (nonlinear_arith);
    assert(magnitude(code) == m * pow2((scale + 925) as nat));
    lemma_rounded_exact(code);
    assert(code % 0x2000_0000 == 0 && code / 0x2000_0000 == s * 0x80_0000 + m);
    assert(nearest_even(code, 0x2000_0000) == s * 0x80_0000 + m);
}

/// A binary32 magnitude below 2^-126, narrowed after it was widened.
proof fn lemma_small_code(m: nat)
    requires
        m < 0x80_0000,
    ensures
        narrowed_code(rounded_scaled(m, 925)) == m,
        rounded_scaled(m, 925) < LEAST_NORMAL,
{
    let code = lemma_has_code(m, 925);
    lemma_rounded_exact(code);
    assert(rounded_scaled(m, 925) == code);
    lemma_full_code(0x80_0000, 0);
    let least = rounded_scaled(0x80_0000, 925);
    assert(least == LEAST_NORMAL);
    let p = pow2(925);
    lemma_pow2_step(925);
    assert(m * p < 0x80_0000 * p) by (nonlinear_arith)
        requires
            m < 0x80_0000,
            p > 0,
    ;
    let full = lemma_has_code(0x80_0000, 925);
    lemma_rounded_exact(full);
    assert(full == least);
    if code > full {
        law_codes_are_ordered(full, code);
    }
    assert(code < full);
    vstd::arithmetic::div_mod::lemma_fundamental_div_mod_converse((m * p) as int, p as int, m as int, 0);
    assert(nearest_even(m * p, p) == m);
}

/// A binary32 number that is widened and narrowed again comes back, unless it
/// is no number at all.
pub proof fn law_singles_come_back(bits: u32)
    requires
        !widened(bits).nan(),
    ensures
        narrowed(widened(bits)) == bits,
{
    let negative = bits >= 0x8000_0000;
    let code = if negative {
        bits - 0x8000_0000
    } else {
        bits as int
    };
    if code > 0x7F80_0000 {
        assert(widened(bits).nan());
    } else if code == 0x7F80_0000 {
        assert(nearest_even(INFINITE_CODE as nat, 0x2000_0000) == 0x3_FF80_0000);
    } else if code < 0x80_0000 {
        lemma_small_code(code as nat);
    } else if code < 0x100_0000 {
        lemma_full_code(code as nat, 0);
    } else {
        let scale = code / 0x80_0000 - 1;
        lemma_full_code((code - scale * 0x80_0000) as nat, scale as nat);
    }
}

} // verus!
