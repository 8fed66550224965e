//! What holds of binary64 numbers as a whole: their order, their integers, and
//! that rounding gives the nearest number.

use crate::number::binary64::{
    difference, negated, of_int, product, quotient, signed, sum, zero, Binary64,
};
use crate::number::integral::{fraction, integer_code, lemma_rounded_exact, nearest_integer, truncated, whole};
use crate::number::rounding::{
    code_scale, code_significand, excess, lemma_excess_bounds, lemma_pow2_monotone, lemma_pow2_step, lemma_pow2_sum,
    lemma_rounded_scale, magnitude, nearest_even, rounded, INFINITE_CODE, TWO_52, TWO_53,
};
use vstd::arithmetic::power2::pow2;
use vstd::prelude::*;

verus! {

/// Larger codes stand for larger magnitudes.
pub proof fn law_codes_are_ordered(a: nat, b: nat)
    requires
        a < b,
    ensures
        magnitude(a) < magnitude(b),
    decreases b - a,
{
    let c = (b - 1) as nat;
    let s = code_scale(c);
    let q = code_significand(c);
    let p = pow2(s);
    lemma_pow2_step(s);
    assert(c == s * TWO_52 + q && q < TWO_53);
    if q + 1 < TWO_53 {
        assert(code_scale(b) == s && code_significand(b) == q + 1);
        assert((q + 1) * p > q * p) by (nonlinear_arith)
            requires
                p > 0,
        ;
    } else {
        assert(code_scale(b) == s + 1 && code_significand(b) == TWO_52);
        assert(TWO_52 * (2 * p) > q * p) by (nonlinear_arith)
            requires
                p > 0,
                q + 1 == TWO_53,
                2 * TWO_52 == TWO_53,
        ;
    }
    if a < c {
        law_codes_are_ordered(a, c);
    }
}

/// Comparing two finite numbers compares their exact values.
pub proof fn law_comparison_is_numeric(a: Binary64, b: Binary64)
    requires
        a.finite(),
        b.finite(),
    ensures
        a.spec_lt(b) <==> a.units() < b.units(),
        a.spec_le(b) <==> a.units() <= b.units(),
        a.spec_same(b) <==> a.units() == b.units(),
{
    if a.code() < b.code() {
        law_codes_are_ordered(a.code(), b.code());
    } else if b.code() < a.code() {
        law_codes_are_ordered(b.code(), a.code());
    }
    lemma_pow2_step(0);
    assert(magnitude(0) == 0) by {
        assert(0 * pow2(0) == 0);
    }
    if a.code() > 0 {
        law_codes_are_ordered(0, a.code());
    }
    if b.code() > 0 {
        law_codes_are_ordered(0, b.code());
    }
}

/// A significand and a scale have a code.
pub proof fn lemma_has_code(m: nat, x: nat) -> (code: nat)
    requires
        m < TWO_53,
        x <= 2045,
    ensures
        code < INFINITE_CODE,
        magnitude(code) == m * pow2(x),
    decreases x,
{
    if m >= TWO_52 || x == 0 {
        let code = (x * TWO_52 + m) as nat;
        assert(code_scale(code) == x && code_significand(code) == m) by {
            if x > 0 {
                assert(code / (TWO_52 as nat) == x + 1) by {
                    vstd::arithmetic::div_mod::lemma_fundamental_div_mod_converse(
                        code as int,
                        TWO_52 as int,
                        (x + 1) as int,
                        m - TWO_52,
                    );
                }
            }
        }
        code
    } else {
        let y = (x - 1) as nat;
        lemma_pow2_step(y);
        let p = pow2(y);
        assert(m * (2 * p) == (2 * m) * p) by (nonlinear_arith);
        lemma_has_code(2 * m, y)
    }
}

/// Integers below 2^53 are held exactly.
pub proof fn law_small_integers_are_exact(n: int)
    requires
        -TWO_53 < n < TWO_53,
    ensures
        of_int(n).finite(),
        of_int(n).units() == n * pow2(1074),
{
    let m = if n >= 0 {
        n as nat
    } else {
        (-n) as nat
    };
    let code = lemma_has_code(m, 1074);
    lemma_rounded_exact(code);
    let p = pow2(1074);
    assert(of_int(n).code() == code);
    if n < 0 {
        assert(-(m * p) == n * p) by (nonlinear_arith)
            requires
                m == -n,
        ;
    }
}

/// Small integers keep their order.
pub proof fn law_small_integers_keep_their_order(m: int, n: int)
    requires
        -TWO_53 < m < n < TWO_53,
    ensures
        of_int(m).spec_lt(of_int(n)),
{
    law_small_integers_are_exact(m);
    law_small_integers_are_exact(n);
    law_comparison_is_numeric(of_int(m), of_int(n));
    let p = pow2(1074);
    lemma_pow2_step(1074);
    assert(m * p < n * p) by (nonlinear_arith)
        requires
            m < n,
            p > 0,
    ;
}

/// Rounding a small integer to an integer and cutting it gives it back.
pub proof fn law_small_integers_come_back(n: nat, limit: nat)
    requires
        n < TWO_53,
        n <= limit,
    ensures
        nearest_integer(of_int(n as int)) == of_int(n as int),
        truncated(of_int(n as int), limit) == n,
{
    law_small_integers_are_exact(n as int);
    let a = of_int(n as int);
    let p = pow2(1074);
    lemma_pow2_step(1074);
    assert(magnitude(a.code()) == n * p);
    vstd::arithmetic::div_mod::lemma_fundamental_div_mod_converse((n * p) as int, p as int, n as int, 0);
    assert(whole(a.code()) == n && fraction(a.code()) == 0);
    assert(signed(false, integer_code(n)) == a);
}

/// Cutting a number that is not above a small integer gives none above it.
pub proof fn law_cutting_keeps_bounds(a: Binary64, n: nat, limit: nat)
    requires
        n < TWO_53,
        a.spec_le(of_int(n as int)),
    ensures
        truncated(a, limit) <= n,
{
    law_small_integers_are_exact(n as int);
    if !a.negative() && a.finite() {
        law_comparison_is_numeric(a, of_int(n as int));
        let p = pow2(1074);
        lemma_pow2_step(1074);
        vstd::arithmetic::div_mod::lemma_div_is_ordered(magnitude(a.code()) as int, (n * p) as int, p as int);
        vstd::arithmetic::div_mod::lemma_div_multiples_vanish(n as int, p as int);
        assert(n * p == p * n) by (nonlinear_arith);
    }
}

/// Cutting a number that is not below a small integer gives none below it.
pub proof fn law_cutting_reaches_bounds(a: Binary64, n: nat, limit: nat)
    requires
        n < TWO_53,
        n <= limit,
        of_int(n as int).spec_le(a),
    ensures
        truncated(a, limit) >= n,
{
    law_small_integers_are_exact(n as int);
    if n > 0 {
        law_small_integers_keep_their_order(0, n as int);
        law_small_integers_are_exact(0);
        law_comparison_is_numeric(of_int(0), of_int(n as int));
    }
    if !a.negative() && a.finite() {
        law_comparison_is_numeric(of_int(n as int), a);
        let p = pow2(1074);
        lemma_pow2_step(1074);
        vstd::arithmetic::div_mod::lemma_div_is_ordered((n * p) as int, magnitude(a.code()) as int, p as int);
        vstd::arithmetic::div_mod::lemma_div_multiples_vanish(n as int, p as int);
        assert(n * p == p * n) by (nonlinear_arith);
    }
}

proof fn lemma_nearest_even_grows(m: nat, n: nat, d: nat)
    requires
        d > 0,
        m <= n,
    ensures
        nearest_even(m, d) <= nearest_even(n, d),
{
    vstd::arithmetic::div_mod::lemma_div_is_ordered(m as int, n as int, d as int);
    vstd::arithmetic::div_mod::lemma_fundamental_div_mod(m as int, d as int);
    vstd::arithmetic::div_mod::lemma_fundamental_div_mod(n as int, d as int);
    if m / d == n / d {
        assert(m % d <= n % d);
    }
}

/// The nearest integer to a quotient is at most half away.
proof fn lemma_nearest_even_near(n: nat, d: nat)
    requires
        d > 0,
    ensures
        2 * (nearest_even(n, d) * d - n) <= d,
        2 * (n - nearest_even(n, d) * d) <= d,
{
    vstd::arithmetic::div_mod::lemma_fundamental_div_mod(n as int, d as int);
    let f = n / d;
    assert((f + 1) * d == f * d + d) by (nonlinear_arith);
    assert(d * f == f * d) by (nonlinear_arith);
    vstd::arithmetic::div_mod::lemma_mod_bound(n as int, d as int);
}

/// A quotient from `k` to `j` rounds to an integer from `k` to `j`.
proof fn lemma_nearest_even_between(n: nat, d: nat, k: nat, j: nat)
    requires
        d > 0,
        k * d <= n <= j * d,
    ensures
        k <= nearest_even(n, d) <= j,
{
    lemma_nearest_even_grows(k * d, n, d);
    lemma_nearest_even_grows(n, j * d, d);
    vstd::arithmetic::div_mod::lemma_fundamental_div_mod_converse((k * d) as int, d as int, k as int, 0);
    vstd::arithmetic::div_mod::lemma_fundamental_div_mod_converse((j * d) as int, d as int, j as int, 0);
}

/// The significand that rounding finds.
proof fn lemma_rounded_parts(n: nat, d: nat)
    requires
        d > 0,
    ensures
        nearest_even(n, d * pow2(excess(n, d))) <= TWO_53,
        excess(n, d) > 0 ==> nearest_even(n, d * pow2(excess(n, d))) >= TWO_52,
        d * pow2(excess(n, d)) > 0,
        excess(n, d) > 0 ==> n >= TWO_52 * (d * pow2(excess(n, d))),
{
    let s = excess(n, d);
    lemma_excess_bounds(n, d);
    lemma_pow2_step(s);
    let e = d * pow2(s);
    assert(e > 0) by (nonlinear_arith)
        requires
            d > 0,
            pow2(s) > 0,
            e == d * pow2(s),
    ;
    assert(n <= TWO_53 * e) by (nonlinear_arith)
        requires
            n < e * TWO_53,
    ;
    if s > 0 {
        let h = pow2((s - 1) as nat);
        lemma_pow2_step((s - 1) as nat);
        assert(TWO_52 * e <= n) by (nonlinear_arith)
            requires
                n >= d * h * TWO_53,
                e == d * (2 * h),
                TWO_53 == 2 * TWO_52,
        ;
        lemma_nearest_even_between(n, e, TWO_52 as nat, TWO_53 as nat);
    } else {
        assert(0 * e == 0);
        lemma_nearest_even_between(n, e, 0, TWO_53 as nat);
    }
}

proof fn lemma_excess_grows(m: nat, n: nat, d: nat)
    requires
        d > 0,
        m <= n,
    ensures
        excess(m, d) <= excess(n, d),
{
    let s = excess(m, d);
    let t = excess(n, d);
    if t < s {
        lemma_excess_bounds(m, d);
        lemma_excess_bounds(n, d);
        lemma_pow2_monotone(t, (s - 1) as nat);
        let a = pow2(t);
        let b = pow2((s - 1) as nat);
        assert(d * a * TWO_53 <= d * b * TWO_53) by (nonlinear_arith)
            requires
                a <= b,
                d > 0,
        ;
    }
}

/// Rounding keeps the order.
pub proof fn law_rounding_keeps_the_order(m: nat, n: nat, d: nat)
    requires
        d > 0,
        m <= n,
    ensures
        rounded(m, d) <= rounded(n, d),
{
    let s = excess(m, d);
    let t = excess(n, d);
    lemma_excess_grows(m, n, d);
    lemma_rounded_parts(m, d);
    lemma_rounded_parts(n, d);
    if s == t {
        lemma_nearest_even_grows(m, n, d * pow2(s));
    } else {
        assert((s + 1) * TWO_52 <= t * TWO_52) by (nonlinear_arith)
            requires
                s + 1 <= t,
        ;
    }
}

/// The code that rounding finds, before it is cut off at infinity.
spec fn uncut(n: nat, d: nat) -> nat {
    (excess(n, d) * TWO_52 + nearest_even(n, d * pow2(excess(n, d)))) as nat
}

/// What the code that rounding finds stands for.
proof fn lemma_uncut_magnitude(n: nat, d: nat)
    requires
        d > 0,
    ensures
        magnitude(uncut(n, d)) == nearest_even(n, d * pow2(excess(n, d))) * pow2(excess(n, d)),
{
    let s = excess(n, d);
    let p = pow2(s);
    let q = nearest_even(n, d * p);
    lemma_rounded_parts(n, d);
    lemma_pow2_step(s);
    let code = uncut(n, d);
    if q < TWO_53 {
        assert(code_scale(code) == s && code_significand(code) == q) by {
            if s > 0 {
                vstd::arithmetic::div_mod::lemma_fundamental_div_mod_converse(
                    code as int,
                    TWO_52 as int,
                    (s + 1) as int,
                    q - TWO_52,
                );
            }
        }
    } else {
        assert(code == (s + 2) * TWO_52);
        vstd::arithmetic::div_mod::lemma_fundamental_div_mod_converse(
            code as int,
            TWO_52 as int,
            (s + 2) as int,
            0,
        );
        assert(code_scale(code) == s + 1 && code_significand(code) == TWO_52);
        assert(TWO_52 * (2 * p) == q * p) by (nonlinear_arith)
            requires
                q == TWO_53,
                TWO_53 == 2 * TWO_52,
        ;
    }
}

/// How far the magnitude of a code is from `n / d`, in units of `1 / d`.
pub open spec fn gap(n: nat, d: nat, code: nat) -> int {
    let over = magnitude(code) * d - n;
    if over >= 0 {
        over
    } else {
        -over
    }
}

/// Rounding finds the nearest number: no finite magnitude is closer to `n / d`
/// than the one that comes out.
pub proof fn law_rounding_finds_the_nearest(n: nat, d: nat, other: nat)
    requires
        d > 0,
        rounded(n, d) < INFINITE_CODE,
    ensures
        gap(n, d, rounded(n, d)) <= gap(n, d, other),
{
    let s = excess(n, d);
    let p = pow2(s);
    let e = d * p;
    let q = nearest_even(n, e);
    lemma_rounded_parts(n, d);
    lemma_uncut_magnitude(n, d);
    lemma_pow2_step(s);
    assert(rounded(n, d) == uncut(n, d));
    assert((q * p) * d == q * e) by (nonlinear_arith)
        requires
            e == d * p,
    ;
    lemma_nearest_even_near(n, e);
    let t = code_scale(other);
    let m = code_significand(other);
    if t >= s {
        // a multiple of the same step: at least half a step away, or the same
        lemma_pow2_sum(s, (t - s) as nat);
        let w = pow2((t - s) as nat);
        let k = m * w;
        assert(magnitude(other) * d == k * e) by (nonlinear_arith)
            requires
                magnitude(other) == m * (p * w),
                k == m * w,
                e == d * p,
        ;
        lemma_nearest_multiple(n, e, q, k);
    } else {
        // below the range of this step, whose end is a multiple too
        lemma_pow2_monotone((t + 1) as nat, s);
        lemma_pow2_step(t);
        let u = pow2(t);
        assert(m < TWO_53);
        assert(m * u <= TWO_52 * p) by (nonlinear_arith)
            requires
                m < TWO_53,
                2 * u <= p,
                TWO_53 == 2 * TWO_52,
        ;
        assert(magnitude(other) * d <= TWO_52 * e) by (nonlinear_arith)
            requires
                magnitude(other) == m * u,
                m * u <= TWO_52 * p,
                e == d * p,
        ;
        lemma_nearest_multiple(n, e, q, TWO_52 as nat);
    }
}

/// No multiple is closer than one that is at most half a step away.
proof fn lemma_nearest_multiple(n: nat, e: nat, q: nat, k: nat)
    requires
        e > 0,
        2 * (q * e - n) <= e,
        2 * (n - q * e) <= e,
    ensures
        q * e - n <= k * e - n || q * e - n <= n - k * e,
        n - q * e <= k * e - n || n - q * e <= n - k * e,
{
    if k < q {
        assert((q - k) * e >= e) by (nonlinear_arith)
            requires
                q - k >= 1,
                e > 0,
        ;
        assert(q * e - k * e == (q - k) * e) by (nonlinear_arith);
    } else if k > q {
        assert((k - q) * e >= e) by (nonlinear_arith)
            requires
                k - q >= 1,
                e > 0,
        ;
        assert(k * e - q * e == (k - q) * e) by (nonlinear_arith);
    }
}

/// Adding a number that is not negative to another such number never gives
/// less.
pub proof fn law_adding_never_lowers(a: Binary64, b: Binary64)
    requires
        a.finite(),
        b.finite(),
        !a.negative(),
        !b.negative(),
    ensures
        a.spec_le(sum(a, b)),
{
    let exact = (magnitude(a.code()) + magnitude(b.code())) as nat;
    law_rounding_keeps_the_order(magnitude(a.code()), exact, 1);
    lemma_rounded_exact(a.code());
    let code = rounded(exact, 1);
    if exact == 0 {
        lemma_rounded_exact(0);
        assert(magnitude(0) == 0) by {
            lemma_pow2_step(0);
        }
        assert(a.code() == 0);
    } else {
        assert(sum(a, b) == signed(false, code));
    }
}

/// Where the number nearest to some units stands on the number line.
pub open spec fn rank_of_units(exact: int) -> int {
    if exact >= 0 {
        rounded(exact as nat, 1) as int
    } else {
        -(rounded((-exact) as nat, 1) as int)
    }
}

proof fn lemma_rank_of_units_grows(m: int, n: int)
    requires
        m <= n,
    ensures
        rank_of_units(m) <= rank_of_units(n),
{
    if m >= 0 {
        law_rounding_keeps_the_order(m as nat, n as nat, 1);
    } else if n < 0 {
        law_rounding_keeps_the_order((-n) as nat, (-m) as nat, 1);
    }
}

proof fn lemma_sum_rank(a: Binary64, c: Binary64)
    requires
        a.finite(),
        c.finite(),
    ensures
        !sum(a, c).nan(),
        sum(a, c).rank() == rank_of_units(a.units() + c.units()),
{
    let exact = a.units() + c.units();
    if exact == 0 {
        lemma_rounded_exact(0);
        assert(magnitude(0) == 0) by {
            lemma_pow2_step(0);
        }
    } else if exact > 0 {
        assert(sum(a, c) == signed(false, rounded(exact as nat, 1)));
    } else {
        assert(sum(a, c) == signed(true, rounded((-exact) as nat, 1)));
    }
}

/// Adding the same finite number to two others keeps their order.
pub proof fn law_addition_keeps_the_order(a: Binary64, b: Binary64, c: Binary64)
    requires
        a.spec_le(b),
        c.finite(),
    ensures
        sum(a, c).spec_le(sum(b, c)),
{
    if a.finite() {
        lemma_sum_rank(a, c);
    }
    if b.finite() {
        lemma_sum_rank(b, c);
    }
    if a.finite() && b.finite() {
        law_comparison_is_numeric(a, b);
        lemma_rank_of_units_grows(a.units() + c.units(), b.units() + c.units());
    }
}

proof fn lemma_magnitudes_are_ordered(a: nat, b: nat)
    requires
        a <= b,
    ensures
        magnitude(a) <= magnitude(b),
{
    if a < b {
        law_codes_are_ordered(a, b);
    }
}

proof fn lemma_product_code_grows(a: nat, b: nat, c: nat)
    requires
        a <= b,
    ensures
        rounded(magnitude(a) * magnitude(c), pow2(1074)) <= rounded(magnitude(b) * magnitude(c), pow2(1074)),
{
    lemma_magnitudes_are_ordered(a, b);
    lemma_pow2_step(1074);
    let x = magnitude(a);
    let y = magnitude(b);
    let z = magnitude(c);
    assert(x * z <= y * z) by (nonlinear_arith)
        requires
            x <= y,
    ;
    law_rounding_keeps_the_order(x * z, y * z, pow2(1074));
}

/// The code zero stands for nothing.
pub proof fn lemma_no_magnitude()
    ensures
        magnitude(0) == 0,
{
    assert(code_significand(0) == 0);
    assert(0 * pow2(code_scale(0)) == 0) by (nonlinear_arith);
}

/// Multiplying by the same finite number that is not negative keeps the order
/// of finite numbers.
pub proof fn law_multiplication_keeps_the_order(a: Binary64, b: Binary64, c: Binary64)
    requires
        a.spec_le(b),
        a.finite() && b.finite() && c.finite(),
        !c.negative(),
    ensures
        product(a, c).spec_le(product(b, c)),
        product(c, a).spec_le(product(c, b)),
{
    let x = rounded(magnitude(a.code()) * magnitude(c.code()), pow2(1074));
    let y = rounded(magnitude(b.code()) * magnitude(c.code()), pow2(1074));
    assert(magnitude(a.code()) * magnitude(c.code()) == magnitude(c.code()) * magnitude(a.code())) by (nonlinear_arith);
    assert(magnitude(b.code()) * magnitude(c.code()) == magnitude(c.code()) * magnitude(b.code())) by (nonlinear_arith);
    assert(product(a, c) == signed(a.negative(), x) && product(c, a) == signed(a.negative(), x));
    assert(product(b, c) == signed(b.negative(), y) && product(c, b) == signed(b.negative(), y));
    if a.negative() && b.negative() {
        lemma_product_code_grows(b.code(), a.code(), c.code());
    } else if !a.negative() && !b.negative() {
        lemma_product_code_grows(a.code(), b.code(), c.code());
    } else if !a.negative() {
        assert(a.code() == 0 && b.code() == 0);
        lemma_nothing_rounds_to_nothing(c.code());
    }
}

/// Nothing times a number is nothing.
pub proof fn lemma_nothing_rounds_to_nothing(c: nat)
    ensures
        rounded(magnitude(0) * magnitude(c), pow2(1074)) == 0,
{
    lemma_rounded_exact(0);
    lemma_no_magnitude();
    lemma_pow2_step(1074);
    assert(0 * magnitude(c) == 0) by (nonlinear_arith);
    lemma_rounded_scale(0, 1, pow2(1074));
    assert(0 * pow2(1074) == 0 && 1 * pow2(1074) == pow2(1074)) by (nonlinear_arith);
}

/// Dividing by the same positive finite number keeps the order of finite
/// numbers.
pub proof fn law_division_keeps_the_order(a: Binary64, b: Binary64, c: Binary64)
    requires
        a.spec_le(b),
        a.finite() && b.finite() && c.finite(),
        zero().spec_lt(c),
    ensures
        quotient(a, c).spec_le(quotient(b, c)),
{
    lemma_pow2_step(1074);
    let p = pow2(1074);
    let z = magnitude(c.code());
    law_codes_are_ordered(0, c.code());
    let m = magnitude(a.code());
    let n = magnitude(b.code());
    let x = rounded(m * p, z);
    let y = rounded(n * p, z);
    assert(quotient(a, c) == signed(a.negative(), x));
    assert(quotient(b, c) == signed(b.negative(), y));
    if a.code() <= b.code() {
        lemma_magnitudes_are_ordered(a.code(), b.code());
        assert(m * p <= n * p) by (nonlinear_arith)
            requires
                m <= n,
        ;
        law_rounding_keeps_the_order(m * p, n * p, z);
    } else {
        lemma_magnitudes_are_ordered(b.code(), a.code());
        assert(n * p <= m * p) by (nonlinear_arith)
            requires
                n <= m,
        ;
        law_rounding_keeps_the_order(n * p, m * p, z);
    }
    if !a.negative() && b.negative() {
        assert(a.code() == 0 && b.code() == 0);
        lemma_no_magnitude();
        lemma_rounded_exact(0);
        assert(0 * p == 0) by (nonlinear_arith);
        lemma_rounded_scale(0, 1, z);
        assert(0 * z == 0 && 1 * z == z) by (nonlinear_arith);
    }
}

/// A larger divisor gives no more of a number that is not negative.
pub proof fn law_larger_divisors_give_no_more(a: Binary64, b: Binary64, c: Binary64)
    requires
        a.finite() && b.finite() && c.finite(),
        !a.negative(),
        zero().spec_lt(b),
        b.spec_le(c),
    ensures
        quotient(a, c).spec_le(quotient(a, b)),
{
    lemma_pow2_step(1074);
    let n = magnitude(a.code()) * pow2(1074);
    let x = magnitude(b.code());
    let y = magnitude(c.code());
    law_codes_are_ordered(0, b.code());
    lemma_magnitudes_are_ordered(b.code(), c.code());
    assert(n * x <= n * y) by (nonlinear_arith)
        requires
            x <= y,
    ;
    lemma_rounded_scale(n, x, y);
    lemma_rounded_scale(n, y, x);
    assert(x * y == y * x) by (nonlinear_arith);
    law_rounding_keeps_the_order(n * x, n * y, x * y);
}

/// Adding goes either way round.
pub proof fn law_addition_commutes(a: Binary64, b: Binary64)
    ensures
        a.finite() || b.finite() ==> sum(a, b) == sum(b, a),
{
}

/// Adding nothing changes nothing.
pub proof fn law_adding_nothing_changes_nothing(a: Binary64)
    requires
        a.finite(),
    ensures
        sum(a, zero()).spec_same(a),
        sum(zero(), a).spec_same(a),
        zero().spec_lt(a) ==> sum(zero(), a) == a,
{
    lemma_no_magnitude();
    lemma_rounded_exact(a.code());
    lemma_rounded_exact(0);
    if a.code() > 0 {
        law_codes_are_ordered(0, a.code());
    }
}

/// Taking away what is not negative leaves no more.
pub proof fn law_taking_away_leaves_no_more(a: Binary64, b: Binary64)
    requires
        a.finite(),
        b.finite(),
        zero().spec_le(b),
    ensures
        difference(a, b).spec_le(a),
        a.spec_le(sum(a, b)),
{
    lemma_no_magnitude();
    law_comparison_is_numeric(zero(), b);
    law_comparison_is_numeric(negated(b), zero());
    law_addition_keeps_the_order(negated(b), zero(), a);
    law_addition_keeps_the_order(zero(), b, a);
    law_adding_nothing_changes_nothing(a);
    law_addition_commutes(a, negated(b));
    law_addition_commutes(a, b);
}

} // verus!
