//! Numbers as text with a fixed number of decimal places.

use crate::number::binary64::{split, Binary64};
use crate::number::rounding::{
    code_scale, code_significand, lemma_nearest_even_scale, lemma_pow2_monotone, lemma_pow2_step, lemma_pow2_sum,
    magnitude, nearest_even, TWO_53,
};
use crate::text::{decimal, digit, push_wide_decimal};
use vstd::arithmetic::power2::pow2;
use vstd::prelude::*;

verus! {

/// A power of ten.
pub open spec fn power10(n: nat) -> nat
    decreases n,
{
    if n == 0 {
        1
    } else {
        10 * power10((n - 1) as nat)
    }
}

/// The last `width` decimal digits of a number.
pub open spec fn last_digits(n: nat, width: nat) -> Seq<char>
    decreases width,
{
    if width == 0 {
        seq![]
    } else {
        last_digits(n / 10, (width - 1) as nat).push(digit(n % 10))
    }
}

/// `n / 10^places` with all its decimal places.
pub open spec fn with_point(n: nat, places: nat) -> Seq<char> {
    if places == 0 {
        decimal(n)
    } else {
        decimal(n / power10(places)).push('.') + last_digits(n, places)
    }
}

/// A magnitude in units of `10^-places`, rounded to the nearest, ties to even.
pub open spec fn in_places(code: nat, places: nat) -> nat {
    nearest_even(magnitude(code) * power10(places), pow2(1074))
}

/// A number with `places` decimal places.
pub open spec fn fixed(a: Binary64, places: nat) -> Seq<char> {
    if a.nan() {
        "NaN"@
    } else {
        (if a.negative() {
            seq!['-']
        } else {
            seq![]
        }) + (if a.infinite() {
            "inf"@
        } else {
            with_point(in_places(a.code(), places), places)
        })
    }
}

/// The number that the first `n` digits spell, the least significant first.
spec fn low(digits: Seq<u8>, n: nat) -> nat
    decreases n,
{
    if n == 0 {
        0
    } else {
        low(digits, (n - 1) as nat) + digits[n - 1] as nat * power10((n - 1) as nat)
    }
}

/// The number that the digits from `i` on spell, the least significant first.
spec fn high(digits: Seq<u8>, i: nat) -> nat
    decreases digits.len() - i,
{
    if i >= digits.len() {
        0
    } else {
        digits[i as int] as nat + 10 * high(digits, i + 1)
    }
}

/// Whether these are decimal digits without a leading zero.
spec fn are_digits(digits: Seq<u8>) -> bool {
    &&& digits.len() > 0
    &&& forall|i: int| 0 <= i < digits.len() ==> (#[trigger] digits[i]) < 10
    &&& digits.len() > 1 ==> digits.last() > 0
}

proof fn lemma_low_and_high(digits: Seq<u8>, i: nat)
    requires
        i <= digits.len(),
    ensures
        low(digits, digits.len()) == low(digits, i) + power10(i) * high(digits, i),
    decreases digits.len() - i,
{
    if i < digits.len() {
        lemma_low_and_high(digits, i + 1);
        let p = power10(i);
        let d = digits[i as int] as nat;
        let h = high(digits, i + 1);
        assert(d * p + (10 * p) * h == p * (d + 10 * h)) by (nonlinear_arith);
    } else {
        assert(power10(i) * 0 == 0);
    }
}

proof fn lemma_low_prefix(a: Seq<u8>, b: Seq<u8>, n: nat)
    requires
        n <= a.len(),
        n <= b.len(),
        forall|i: int| 0 <= i < n ==> a[i] == b[i],
    ensures
        low(a, n) == low(b, n),
    decreases n,
{
    if n > 0 {
        lemma_low_prefix(a, b, (n - 1) as nat);
    }
}

/// Twice the number that some digits spell.
fn double_digits(digits: &Vec<u8>) -> (r: Vec<u8>)
    requires
        are_digits(digits@),
    ensures
        are_digits(r@),
        low(r@, r@.len()) == 2 * low(digits@, digits@.len()),
{
    let mut out: Vec<u8> = Vec::new();
    let mut carry: u8 = 0;
    let mut i: usize = 0;
    assert(0 * power10(0) == 0);
    while i < digits.len()
        invariant
            i <= digits@.len(),
            are_digits(digits@),
            out@.len() == i,
            carry <= 1,
            forall|k: int| 0 <= k < i ==> (#[trigger] out@[k]) < 10,
            low(out@, i as nat) + carry as nat * power10(i as nat) == 2 * low(digits@, i as nat),
            i > 1 && i == digits@.len() ==> carry > 0 || out@[i - 1] > 0,
        decreases digits@.len() - i,
    {
        assert(digits@[i as int] < 10);
        let both: u8 = 2 * digits[i] + carry;
        let ghost was = out@;
        let ghost old_carry = carry;
        let here: u8 = both % 10;
        carry = both / 10;
        out.push(here);
        proof {
            lemma_low_prefix(was, out@, i as nat);
            let p = power10(i as nat);
            let d = digits@[i as int] as nat;
            let c0 = old_carry as nat;
            let c1 = carry as nat;
            let h = here as nat;
            assert(h * p + c1 * (10 * p) == 2 * (d * p) + c0 * p) by (nonlinear_arith)
                requires
                    2 * d + c0 == 10 * c1 + h,
            ;
        }
        i = i + 1;
    }
    if carry > 0 {
        let ghost was = out@;
        out.push(carry);
        proof {
            lemma_low_prefix(was, out@, i as nat);
        }
    } else {
        assert(0 * power10(i as nat) == 0);
    }
    out
}

/// Puts a number given by its digits at the end of a text.
fn push_digits(out: &mut String, digits: &Vec<u8>)
    requires
        are_digits(digits@),
    ensures
        final(out)@ == old(out)@ + decimal(low(digits@, digits@.len())),
{
    let ghost was = out@;
    let total: usize = digits.len();
    out.push((48 + digits[total - 1]) as char);
    let mut i: usize = total - 1;
    proof {
        reveal_with_fuel(high, 2);
        assert(high(digits@, i as nat) == digits@[i as int]);
        assert(out@ =~= was + decimal(high(digits@, i as nat)));
    }
    while i > 0
        invariant
            i < total == digits@.len(),
            are_digits(digits@),
            i + 1 < total ==> high(digits@, i as nat) > 0,
            i + 1 == total && total > 1 ==> high(digits@, i as nat) > 0,
            out@ == was + decimal(high(digits@, i as nat)),
        decreases i,
    {
        i = i - 1;
        assert(digits@[i as int] < 10);
        out.push((48 + digits[i]) as char);
        assert(high(digits@, i as nat) == digits@[i as int] as nat + 10 * high(digits@, (i + 1) as nat));
        assert(out@ =~= was + decimal(high(digits@, i as nat)));
    }
    proof {
        lemma_low_and_high(digits@, 0);
    }
}

/// The digits of a machine integer.
fn digits_of(n: u64) -> (r: Vec<u8>)
    ensures
        are_digits(r@),
        low(r@, r@.len()) == n,
{
    let mut out: Vec<u8> = Vec::new();
    out.push((n % 10) as u8);
    let mut rest: u64 = n / 10;
    proof {
        reveal_with_fuel(power10, 2);
        reveal_with_fuel(low, 2);
        assert(low(out@, 1) == n % 10);
        let p = power10(1);
        let r = rest as nat;
        assert(r * p == 10 * r) by (nonlinear_arith)
            requires
                p == 10,
        ;
    }
    while rest > 0
        invariant
            out@.len() > 0,
            forall|k: int| 0 <= k < out@.len() ==> (#[trigger] out@[k]) < 10,
            low(out@, out@.len()) + rest as nat * power10(out@.len()) == n,
            rest == 0 ==> out@.len() == 1 || out@.last() > 0,
        decreases rest,
    {
        let ghost was = out@;
        let ghost before = rest;
        let d: u8 = (rest % 10) as u8;
        out.push(d);
        rest = rest / 10;
        proof {
            lemma_low_prefix(was, out@, was.len());
            let p = power10(was.len());
            let h = d as nat;
            let r0 = before as nat;
            let r1 = rest as nat;
            assert(r0 * p == h * p + r1 * (10 * p)) by (nonlinear_arith)
                requires
                    r0 == 10 * r1 + h,
            ;
        }
    }
    assert(0 * power10(out@.len()) == 0);
    out
}

/// Puts `m * 2^e` in decimal at the end of a text.
fn push_scaled(out: &mut String, m: u64, e: u32)
    ensures
        final(out)@ == old(out)@ + decimal(m as nat * pow2(e as nat)),
{
    let mut digits: Vec<u8> = digits_of(m);
    let mut i: u32 = 0;
    proof {
        lemma_pow2_step(0);
        assert(m * 1 == m);
    }
    while i < e
        invariant
            i <= e,
            are_digits(digits@),
            low(digits@, digits@.len()) == m as nat * pow2(i as nat),
        decreases e - i,
    {
        digits = double_digits(&digits);
        proof {
            lemma_pow2_step(i as nat);
            let p = pow2(i as nat);
            let n = m as nat;
            assert(n * (2 * p) == 2 * (n * p)) by (nonlinear_arith);
        }
        i = i + 1;
    }
    push_digits(out, &digits);
}

/// Puts the last `width` digits of a number at the end of a text.
pub fn push_last_digits(out: &mut String, n: u128, width: u32)
    ensures
        final(out)@ == old(out)@ + last_digits(n as nat, width as nat),
    decreases width,
{
    if width > 0 {
        push_last_digits(out, n / 10, width - 1);
        let d: u8 = (n % 10) as u8;
        out.push((48 + d) as char);
    }
    assert(out@ =~= old(out)@ + last_digits(n as nat, width as nat));
}

proof fn lemma_power10_bound(n: nat)
    requires
        n <= 9,
    ensures
        0 < power10(n) <= 1_000_000_000,
{
    reveal_with_fuel(power10, 10);
}

/// Ten to the power `places`.
fn ten_to(places: u32) -> (r: u128)
    requires
        places <= 9,
    ensures
        r == power10(places as nat),
        0 < r <= 1_000_000_000,
{
    let mut r: u128 = 1;
    let mut i: u32 = 0;
    while i < places
        invariant
            i <= places <= 9,
            r == power10(i as nat),
        decreases places - i,
    {
        proof {
            lemma_power10_bound((i + 1) as nat);
        }
        r = r * 10;
        i = i + 1;
    }
    proof {
        lemma_power10_bound(places as nat);
    }
    r
}

proof fn lemma_zero_last_digits(k: nat, width: nat)
    ensures
        last_digits(k * power10(width), width) == last_digits(0, width),
    decreases width,
{
    if width > 0 {
        let w = (width - 1) as nat;
        let p = power10(w);
        assert(k * (10 * p) == 10 * (k * p)) by (nonlinear_arith);
        lemma_zero_last_digits(k, w);
    }
}

/// What a magnitude is in decimal places, with its power of two taken out.
proof fn lemma_in_places(code: nat, places: nat)
    ensures
        code_scale(code) < 1074 ==> in_places(code, places) == nearest_even(
            code_significand(code) * power10(places),
            pow2((1074 - code_scale(code)) as nat),
        ),
        code_scale(code) >= 1074 ==> in_places(code, places) == code_significand(code) * pow2(
            (code_scale(code) - 1074) as nat,
        ) * power10(places),
{
    let s = code_scale(code);
    let q = code_significand(code);
    let t = power10(places);
    if s < 1074 {
        let a = pow2(s);
        let b = pow2((1074 - s) as nat);
        lemma_pow2_sum(s, (1074 - s) as nat);
        assert(a * b == b * a) by (nonlinear_arith);
        assert((q * a) * t == (q * t) * a) by (nonlinear_arith);
        lemma_nearest_even_scale(q * t, b, a);
    } else {
        let a = pow2(1074);
        let b = pow2((s - 1074) as nat);
        lemma_pow2_sum((s - 1074) as nat, 1074);
        assert((q * (b * a)) * t == (q * b * t) * a) by (nonlinear_arith);
        vstd::arithmetic::div_mod::lemma_fundamental_div_mod_converse(
            ((q * b * t) * a) as int,
            a as int,
            (q * b * t) as int,
            0,
        );
    }
}

/// `n / 2^shift` rounded to the nearest integer, ties to even.
pub(crate) fn round_shift(n: u128, shift: u32) -> (r: u128)
    requires
        n < 0x100_0000_0000_0000_0000_0000,
    ensures
        r == nearest_even(n as nat, pow2(shift as nat)),
        r <= n + 1,
{
    if shift > 100 {
        proof {
            vstd::arithmetic::power2::lemma2_to64_rest();
            lemma_pow2_sum(44, 56);
            lemma_pow2_monotone(101, shift as nat);
            lemma_pow2_step(100);
            assert(pow2(100) == 0x10_0000_0000_0000_0000_0000_0000) by {
                assert(pow2(44) == 0x1000_0000_0000 && pow2(56) == 0x100_0000_0000_0000);
            }
            vstd::arithmetic::div_mod::lemma_small_mod(n as nat, pow2(shift as nat));
            vstd::arithmetic::div_mod::lemma_basic_div(n as int, pow2(shift as nat) as int);
        }
        return 0;
    }
    let mut d: u128 = 1;
    let mut i: u32 = 0;
    proof {
        lemma_pow2_step(0);
    }
    while i < shift
        invariant
            i <= shift <= 100,
            d == pow2(i as nat),
        decreases shift - i,
    {
        proof {
            lemma_pow2_step(i as nat);
            vstd::arithmetic::power2::lemma2_to64_rest();
            lemma_pow2_sum(44, 56);
            lemma_pow2_monotone((i + 1) as nat, 100);
            assert(pow2(44) == 0x1000_0000_0000 && pow2(56) == 0x100_0000_0000_0000);
        }
        d = d * 2;
        i = i + 1;
    }
    proof {
        lemma_pow2_step(shift as nat);
        vstd::arithmetic::power2::lemma2_to64_rest();
        lemma_pow2_sum(44, 56);
        lemma_pow2_monotone(shift as nat, 100);
        assert(pow2(44) == 0x1000_0000_0000 && pow2(56) == 0x100_0000_0000_0000);
        assert(n / d <= n) by (nonlinear_arith)
            requires
                d >= 1,
        ;
    }
    let floor: u128 = n / d;
    let rest: u128 = n % d;
    if 2 * rest > d || (2 * rest == d && floor % 2 == 1) {
        floor + 1
    } else {
        floor
    }
}

/// A number with `places` decimal places.
pub fn fixed_text(a: Binary64, places: u32) -> (r: String)
    requires
        places <= 9,
    ensures
        r@ == fixed(a, places as nat),
{
    let mut out: String = String::new();
    if a.is_nan() {
        out.push_str("NaN");
        assert(out@ =~= "NaN"@);
        return out;
    }
    if a.is_sign_negative() {
        out.push('-');
    }
    let ghost sign = out@;
    assert(sign =~= if a.negative() {
        seq!['-']
    } else {
        seq![]
    });
    if a.is_infinite() {
        out.push_str("inf");
        return out;
    }
    let (significand, scale): (u64, u64) = split(a.magnitude_code());
    let ten: u128 = ten_to(places);
    proof {
        lemma_in_places(a.code(), places as nat);
    }
    if scale >= 1074 {
        let ghost n = significand as nat * pow2((scale - 1074) as nat);
        push_scaled(&mut out, significand, (scale - 1074) as u32);
        if places > 0 {
            out.push('.');
            push_last_digits(&mut out, 0, places);
            proof {
                lemma_zero_last_digits(n, places as nat);
                vstd::arithmetic::div_mod::lemma_fundamental_div_mod_converse(
                    (n * ten) as int,
                    ten as int,
                    n as int,
                    0,
                );
            }
        } else {
            assert(n * 1 == n);
        }
        assert(out@ =~= fixed(a, places as nat));
    } else {
        assert(significand * ten < 0x100_0000_0000_0000_0000_0000) by (nonlinear_arith)
            requires
                significand < TWO_53,
                ten <= 1_000_000_000,
        ;
        let n: u128 = round_shift(significand as u128 * ten, (1074 - scale) as u32);
        push_wide_decimal(&mut out, n / ten);
        if places > 0 {
            out.push('.');
            push_last_digits(&mut out, n, places);
        } else {
            assert(n / 1 == n);
        }
        assert(out@ =~= fixed(a, places as nat));
    }
    out
}

} // verus!
