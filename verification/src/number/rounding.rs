//! Rounding an exact non-negative rational to the nearest binary64 magnitude.
//!
//! Magnitudes are counted in units of 2^-1074, the smallest positive binary64
//! number. The *code* of a magnitude is its bit pattern without the sign, read
//! as an integer; codes are ordered as the magnitudes they stand for.

use vstd::arithmetic::power2::pow2;
use vstd::prelude::*;

verus! {

/// 2^52: the first code with a non-zero exponent field.
pub const TWO_52: u64 = 0x10_0000_0000_0000;

/// 2^53: every significand is below this.
pub const TWO_53: u64 = 0x20_0000_0000_0000;

/// The code of infinity.
pub const INFINITE_CODE: u64 = 0x7FF0_0000_0000_0000;

/// The power of two that the significand of `code` is scaled by.
pub open spec fn code_scale(code: nat) -> nat {
    if code < TWO_53 {
        0
    } else {
        (code / (TWO_52 as nat) - 1) as nat
    }
}

/// The integer significand of `code`, below 2^53.
pub open spec fn code_significand(code: nat) -> nat {
    (code - code_scale(code) * TWO_52) as nat
}

/// The magnitude that `code` stands for, in units of 2^-1074.
pub open spec fn magnitude(code: nat) -> nat {
    code_significand(code) * pow2(code_scale(code))
}

/// `n / d` rounded to the nearest integer, ties to the even one.
pub open spec fn nearest_even(n: nat, d: nat) -> nat {
    let floor = n / d;
    let rest = n % d;
    if 2 * rest > d || (2 * rest == d && floor % 2 == 1) {
        floor + 1
    } else {
        floor
    }
}

/// The least `s` with `n / d < 2^(53 + s)`: how many binary places the
/// quotient has beyond a significand.
pub open spec fn excess(n: nat, d: nat) -> nat
    decreases n - d,
{
    if d == 0 || n < d * TWO_53 {
        0
    } else {
        1 + excess(n, 2 * d)
    }
}

/// The code of the binary64 magnitude nearest to `n / d` units, ties to even;
/// infinite from the halfway point above the largest finite magnitude.
pub open spec fn rounded(n: nat, d: nat) -> nat {
    let s = excess(n, d);
    let code = s * TWO_52 + nearest_even(n, d * pow2(s));
    if code < INFINITE_CODE {
        code as nat
    } else {
        INFINITE_CODE as nat
    }
}

/// The code nearest to `m * 2^x` units.
pub open spec fn rounded_scaled(m: nat, x: int) -> nat {
    if x >= 0 {
        rounded(m * pow2(x as nat), 1)
    } else {
        rounded(m, pow2((-x) as nat))
    }
}

pub proof fn lemma_pow2_step(e: nat)
    ensures
        pow2(e + 1) == 2 * pow2(e),
        pow2(e) > 0,
        pow2(0) == 1,
{
    vstd::arithmetic::power2::lemma_pow2_unfold(e + 1);
    vstd::arithmetic::power2::lemma_pow2_pos(e);
    vstd::arithmetic::power2::lemma2_to64();
}

pub proof fn lemma_pow2_sum(a: nat, b: nat)
    ensures
        pow2(a + b) == pow2(a) * pow2(b),
        pow2(a) > 0,
        pow2(b) > 0,
{
    vstd::arithmetic::power2::lemma_pow2_adds(a, b);
    vstd::arithmetic::power2::lemma_pow2_pos(a);
    vstd::arithmetic::power2::lemma_pow2_pos(b);
}

pub proof fn lemma_pow2_monotone(a: nat, b: nat)
    requires
        a <= b,
    ensures
        pow2(a) <= pow2(b),
{
    if a < b {
        vstd::arithmetic::power2::lemma_pow2_strictly_increases(a, b);
    }
}

/// What pins `excess` down.
pub proof fn lemma_excess_unique(n: nat, d: nat, s: nat)
    requires
        d > 0,
        n < d * pow2(s) * TWO_53,
        s > 0 ==> n >= d * pow2((s - 1) as nat) * TWO_53,
    ensures
        excess(n, d) == s,
    decreases s,
{
    lemma_pow2_step(0);
    if s == 0 {
        assert(d * pow2(0) == d) by (nonlinear_arith)
            requires
                pow2(0) == 1,
        ;
    } else {
        let p = pow2((s - 1) as nat);
        lemma_pow2_step((s - 1) as nat);
        assert(d * (2 * p) == (2 * d) * p) by (nonlinear_arith);
        assert(d * p >= d) by (nonlinear_arith)
            requires
                p >= 1,
                d > 0,
        ;
        if s > 1 {
            let p2 = pow2((s - 2) as nat);
            lemma_pow2_step((s - 2) as nat);
            assert(d * (2 * p2) == (2 * d) * p2) by (nonlinear_arith);
        }
        lemma_excess_unique(n, 2 * d, (s - 1) as nat);
    }
}

/// `excess` has the property that pins it down.
pub proof fn lemma_excess_bounds(n: nat, d: nat)
    requires
        d > 0,
    ensures
        n < d * pow2(excess(n, d)) * TWO_53,
        excess(n, d) > 0 ==> n >= d * pow2((excess(n, d) - 1) as nat) * TWO_53,
    decreases n - d,
{
    lemma_pow2_step(0);
    assert(d * pow2(0) == d) by (nonlinear_arith)
        requires
            pow2(0) == 1,
    ;
    if n < d * TWO_53 {
    } else {
        let s = excess(n, 2 * d);
        lemma_excess_bounds(n, 2 * d);
        lemma_pow2_step(s);
        let p = pow2(s);
        assert(d * (2 * p) == (2 * d) * p) by (nonlinear_arith);
        if s > 0 {
            lemma_pow2_step((s - 1) as nat);
            let p2 = pow2((s - 1) as nat);
            assert(d * (2 * p2) == (2 * d) * p2) by (nonlinear_arith);
        }
    }
}

/// Rounding to an integer only sees the quotient.
pub proof fn lemma_nearest_even_scale(n: nat, d: nat, c: nat)
    requires
        d > 0,
        c > 0,
    ensures
        nearest_even(n * c, d * c) == nearest_even(n, d),
        d * c > 0,
{
    vstd::arithmetic::div_mod::lemma_truncate_middle(n as int, c as int, d as int);
    vstd::arithmetic::div_mod::lemma_div_multiples_vanish_quotient(c as int, n as int, d as int);
    assert(n * c == c * n && d * c == c * d) by (nonlinear_arith);
    let r = (n % d) as int;
    assert(2 * (c * r) > c * d <==> 2 * r > d) by (nonlinear_arith)
        requires
            c > 0,
    ;
    assert(2 * (c * r) == c * d <==> 2 * r == d) by (nonlinear_arith)
        requires
            c > 0,
    ;
}

/// Rounding only sees the quotient.
pub proof fn lemma_rounded_scale(n: nat, d: nat, c: nat)
    requires
        d > 0,
        c > 0,
    ensures
        rounded(n * c, d * c) == rounded(n, d),
        d * c > 0,
{
    let s = excess(n, d);
    lemma_excess_bounds(n, d);
    let p = pow2(s);
    assert(d * c > 0) by (nonlinear_arith)
        requires
            d > 0,
            c > 0,
    ;
    assert((d * c) * p == (d * p) * c) by (nonlinear_arith);
    let dp = d * p;
    assert(n * c < (dp * c) * TWO_53) by (nonlinear_arith)
        requires
            n < dp * TWO_53,
            c > 0,
    ;
    if s > 0 {
        let p2 = pow2((s - 1) as nat);
        assert((d * c) * p2 == (d * p2) * c) by (nonlinear_arith);
        let dp2 = d * p2;
        assert(n * c >= (dp2 * c) * TWO_53) by (nonlinear_arith)
            requires
                n >= dp2 * TWO_53,
                c > 0,
        ;
    }
    lemma_excess_unique(n * c, d * c, s);
    lemma_pow2_step(s);
    assert(dp > 0) by (nonlinear_arith)
        requires
            d > 0,
            p > 0,
            dp == d * p,
    ;
    lemma_nearest_even_scale(n, dp, c);
}

/// Moving a power of two between significand and scale changes nothing.
pub proof fn lemma_rounded_scaled_shift(m: nat, x: int, k: nat)
    ensures
        rounded_scaled(m * pow2(k), x - k) == rounded_scaled(m, x),
{
    lemma_pow2_step(0);
    let p = pow2(k);
    lemma_pow2_step(k);
    if x >= k {
        lemma_pow2_sum(k, (x - k) as nat);
        let r = pow2((x - k) as nat);
        assert(k + (x - k) as nat == x as nat);
        assert((m * p) * r == m * (p * r)) by (nonlinear_arith);
    } else if x >= 0 {
        // m 2^x over 1, against m 2^k over 2^(k - x)
        let a = pow2(x as nat);
        let b = pow2((k - x) as nat);
        lemma_pow2_sum(x as nat, (k - x) as nat);
        assert(x as nat + (k - x) as nat == k);
        assert((m * a) * b == m * p) by (nonlinear_arith)
            requires
                p == a * b,
        ;
        lemma_rounded_scale(m * a, 1, b);
        assert(1 * b == b);
    } else {
        let a = pow2((-x) as nat);
        lemma_pow2_sum((-x) as nat, k);
        lemma_pow2_step((-x) as nat);
        assert((-x) as nat + k == (k - x) as nat);
        lemma_rounded_scale(m, a, p);
    }
}

/// What `rounded_scaled` is, once the number of dropped places is known.
pub proof fn lemma_rounded_scaled_at(m: nat, x: int, drop: nat)
    requires
        drop + x >= 0,
        m < pow2(drop) * TWO_53,
        drop + x > 0 ==> 2 * m >= pow2(drop) * TWO_53,
    ensures
        rounded_scaled(m, x) == {
            let code = (drop + x) * TWO_52 + nearest_even(m, pow2(drop));
            if code < INFINITE_CODE {
                code
            } else {
                INFINITE_CODE as int
            }
        },
{
    let s = (drop + x) as nat;
    let p = pow2(drop);
    lemma_pow2_step(drop);
    lemma_pow2_step(s);
    if s > 0 {
        lemma_pow2_step((s - 1) as nat);
    }
    if x >= 0 {
        let a = pow2(x as nat);
        lemma_pow2_step(x as nat);
        lemma_pow2_sum(drop, x as nat);
        assert(drop + x as nat == s);
        assert(pow2(s) == p * a);
        assert(m * a < (p * a) * TWO_53) by (nonlinear_arith)
            requires
                m < p * TWO_53,
                a > 0,
        ;
        assert(1 * pow2(s) == pow2(s));
        if s > 0 {
            let h = pow2((s - 1) as nat);
            assert(2 * (m * a) >= (p * a) * TWO_53) by (nonlinear_arith)
                requires
                    2 * m >= p * TWO_53,
                    a > 0,
            ;
            assert(1 * h == h);
        }
        lemma_excess_unique(m * a, 1, s);
        lemma_nearest_even_scale(m, p, a);
    } else {
        let a = pow2((-x) as nat);
        lemma_pow2_step((-x) as nat);
        lemma_pow2_sum((-x) as nat, s);
        assert((-x) as nat + s == drop);
        if s > 0 {
            let h = pow2((s - 1) as nat);
            assert(a * (2 * h) == 2 * (a * h)) by (nonlinear_arith);
        }
        lemma_excess_unique(m, a, s);
    }
}

proof fn lemma_rounded_zero(x: int)
    ensures
        rounded_scaled(0, x) == 0,
{
    let drop: nat = if x >= 0 {
        0
    } else {
        (-x) as nat
    };
    lemma_pow2_step(drop);
    lemma_pow2_step(0);
    if x > 0 {
        assert(0 * pow2(x as nat) == 0);
        lemma_excess_unique(0, 1, 0);
    } else {
        lemma_rounded_scaled_at(0, x, drop);
    }
    vstd::arithmetic::div_mod::lemma_div_of0(pow2(drop) as int);
    vstd::arithmetic::div_mod::lemma_small_mod(0, pow2(drop));
}

proof fn lemma_pow2_67()
    ensures
        pow2(67) == 0x8_0000_0000_0000_0000,
{
    vstd::arithmetic::power2::lemma2_to64();
    vstd::arithmetic::power2::lemma2_to64_rest();
    lemma_pow2_step(64);
    lemma_pow2_step(65);
    lemma_pow2_step(66);
}

proof fn lemma_pow2_120()
    ensures
        pow2(120) == 0x1_0000_0000_0000_0000_0000_0000_0000_00,
{
    lemma_pow2_67();
    vstd::arithmetic::power2::lemma2_to64();
    vstd::arithmetic::power2::lemma2_to64_rest();
    lemma_pow2_sum(67, 53);
}

/// A magnitude under half a unit rounds to zero.
proof fn lemma_rounded_tiny(m: nat, x: int)
    requires
        m < pow2(120),
        x <= -121,
    ensures
        rounded_scaled(m, x) == 0,
{
    let d = pow2((-x) as nat);
    lemma_pow2_monotone(121, (-x) as nat);
    lemma_pow2_step(120);
    lemma_rounded_scaled_at(m, x, (-x) as nat);
    vstd::arithmetic::div_mod::lemma_small_mod(m, d);
    vstd::arithmetic::div_mod::lemma_basic_div(m as int, d as int);
}

/// The code nearest to `m * 2^x` units.
pub fn round_scaled(m: u128, x: i64) -> (code: u64)
    requires
        m < 0x1_0000_0000_0000_0000_0000_0000_0000_00u128,
        -100_000 <= x <= 100_000,
    ensures
        code == rounded_scaled(m as nat, x as int),
        code <= INFINITE_CODE,
{
    proof {
        lemma_pow2_step(0);
    }
    if m == 0 {
        proof {
            lemma_rounded_zero(x as int);
        }
        return 0;
    }
    let ghost m0 = m as nat;
    let ghost x0 = x as int;
    let mut m: u128 = m;
    let mut x: i64 = x;
    while m < TWO_52 as u128 && x > 0
        invariant
            0 < m < 0x1_0000_0000_0000_0000_0000_0000_0000_00u128,
            -100_000 <= x <= 100_000,
            rounded_scaled(m as nat, x as int) == rounded_scaled(m0, x0),
        decreases x,
    {
        proof {
            lemma_rounded_scaled_shift(m as nat, x as int, 1);
            lemma_pow2_step(0);
        }
        m = m * 2;
        x = x - 1;
    }
    let mut power: u128 = 1;
    let mut drop: i64 = 0;
    while m / power >= TWO_53 as u128
        invariant
            0 <= drop <= 67,
            power == pow2(drop as nat),
            0 < power <= 0x8_0000_0000_0000_0000u128,
            0 < m < 0x1_0000_0000_0000_0000_0000_0000_0000_00u128,
            drop > 0 ==> 2 * m >= power * TWO_53,
        decreases 68 - drop,
    {
        proof {
            lemma_pow2_step(drop as nat);
            assert(m >= power * TWO_53) by (nonlinear_arith)
                requires
                    m / power >= TWO_53,
                    power > 0,
            ;
            lemma_pow2_67();
            if drop >= 67 {
                lemma_pow2_monotone(67, drop as nat);
            }
            lemma_pow2_monotone((drop + 1) as nat, 67);
        }
        power = power * 2;
        drop = drop + 1;
    }
    assert(m < power * TWO_53) by (nonlinear_arith)
        requires
            m / power < TWO_53,
            power > 0,
    ;
    let ghost settled = drop;
    let ghost settled_power = power;
    proof {
        lemma_pow2_67();
        lemma_pow2_monotone(drop as nat, 67);
    }
    while drop + x < 0 && drop < 121
        invariant
            0 <= settled <= 67,
            settled <= drop <= 121,
            -100_000 <= x <= 100_000,
            power == pow2(drop as nat),
            settled_power == pow2(settled as nat),
            settled_power <= power,
            drop > settled ==> drop + x <= 0,
        decreases 121 - drop,
    {
        proof {
            lemma_pow2_step(drop as nat);
            lemma_pow2_monotone(drop as nat, 120);
            lemma_pow2_120();
        }
        power = power * 2;
        drop = drop + 1;
    }
    if drop + x < 0 {
        proof {
            lemma_pow2_120();
            lemma_rounded_tiny(m as nat, x as int);
        }
        return 0;
    }
    proof {
        assert(m < power * TWO_53) by (nonlinear_arith)
            requires
                m < settled_power * TWO_53,
                settled_power <= power,
        ;
        lemma_rounded_scaled_at(m as nat, x as int, drop as nat);
        lemma_pow2_monotone(drop as nat, 121);
        lemma_pow2_120();
        lemma_pow2_step(120);
        lemma_pow2_step(drop as nat);
    }
    let floor: u128 = m / power;
    let rest: u128 = m % power;
    let up: bool = rest > power - rest || (rest == power - rest && floor % 2 == 1);
    assert(floor < TWO_53) by (nonlinear_arith)
        requires
            m < power * TWO_53,
            floor == m / power,
            power > 0,
    ;
    let significand: u64 = if up {
        floor as u64 + 1
    } else {
        floor as u64
    };
    if drop + x >= 2047 {
        assert((drop + x) * TWO_52 >= INFINITE_CODE) by (nonlinear_arith)
            requires
                drop + x >= 2047,
        ;
        return INFINITE_CODE;
    }
    assert(0 <= (drop + x) * TWO_52 <= 2046 * TWO_52) by (nonlinear_arith)
        requires
            0 <= drop + x <= 2046,
    ;
    let code: u64 = (drop + x) as u64 * TWO_52 + significand;
    if code < INFINITE_CODE {
        code
    } else {
        INFINITE_CODE
    }
}

} // verus!
