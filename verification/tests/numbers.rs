//! Arithmetic on bit patterns, held against the machine's own.

use mixlyzer::number::binary64::{half, micro, milli, minus_infinity, nano, one, pico, widen, zero, Binary64};
use mixlyzer::number::fixed::fixed_text;
use mixlyzer::number::lists::{gaps_of, highest_of, mean, median, sort_total, std_dev, total_of, turn_rows};
use mixlyzer::number::sorting::sort_ascending;

fn f(x: f64) -> Binary64 {
    Binary64::from_bits(x.to_bits())
}

fn v(b: Binary64) -> f64 {
    f64::from_bits(b.to_bits())
}

fn all(values: &[f64]) -> Vec<Binary64> {
    values.iter().map(|x| f(*x)).collect()
}

fn same(a: f64, b: f64) -> bool {
    (a.is_nan() && b.is_nan()) || a.to_bits() == b.to_bits()
}

fn samples() -> Vec<f64> {
    let mut out = vec![
        0.0,
        -0.0,
        1.0,
        -1.0,
        0.5,
        1.5,
        2.5,
        -2.5,
        0.1,
        1.0 / 3.0,
        -7.25,
        1e-6,
        123456.789,
        9007199254740991.0,
        9007199254740993.0,
        1e300,
        -1e300,
        1e-300,
        f64::MIN_POSITIVE,
        5e-324,
        -5e-324,
        2.2250738585072011e-308,
        f64::MAX,
        f64::MIN,
        f64::INFINITY,
        f64::NEG_INFINITY,
        f64::NAN,
    ];
    let mut state: u64 = 0x9E37_79B9_7F4A_7C15;
    for _ in 0..60 {
        state ^= state << 13;
        state ^= state >> 7;
        state ^= state << 17;
        out.push(f64::from_bits(state));
        out.push((state % 100_000) as f64 / 64.0 - 700.0);
    }
    out
}

#[test]
fn the_four_operations_agree_with_the_machine() {
    let values = samples();
    for a in &values {
        for b in &values {
            assert!(same(v(f(*a).plus(f(*b))), a + b), "{a:e} + {b:e}");
            assert!(same(v(f(*a).minus(f(*b))), a - b), "{a:e} - {b:e}");
            assert!(same(v(f(*a).times(f(*b))), a * b), "{a:e} * {b:e}");
            assert!(same(v(f(*a).over(f(*b))), a / b), "{a:e} / {b:e}");
        }
    }
}

#[test]
fn comparisons_agree_with_the_machine() {
    let values = samples();
    for a in &values {
        for b in &values {
            assert_eq!(f(*a).lt(f(*b)), a < b, "{a:e} < {b:e}");
            assert_eq!(f(*a).le(f(*b)), a <= b, "{a:e} <= {b:e}");
            assert_eq!(f(*a).same(f(*b)), a == b, "{a:e} == {b:e}");
            assert_eq!(f(*a).total_lt(f(*b)), a.total_cmp(b).is_lt(), "{a:e} {b:e}");
            if !(a.is_nan() || b.is_nan() || *a == 0.0 && *b == 0.0) {
                assert_eq!(v(f(*a).max(f(*b))), a.max(*b), "max {a:e} {b:e}");
                assert_eq!(v(f(*a).min(f(*b))), a.min(*b), "min {a:e} {b:e}");
            }
        }
        assert_eq!(f(*a).is_finite(), a.is_finite());
        assert_eq!(f(*a).is_nan(), a.is_nan());
        assert_eq!(f(*a).is_infinite(), a.is_infinite());
        assert_eq!(f(*a).is_sign_negative(), a.is_sign_negative());
        assert!(same(v(f(*a).abs()), a.abs()));
        assert!(same(v(f(*a).negate()), -a));
    }
    assert_eq!(v(f(f64::NAN).max(f(2.0))), 2.0);
    assert_eq!(v(f(2.0).min(f(f64::NAN))), 2.0);
}

#[test]
fn roots_and_integers_agree_with_the_machine() {
    for a in samples() {
        assert!(same(v(f(a).sqrt()), a.sqrt()), "sqrt {a:e}");
        assert!(same(v(f(a).floor()), a.floor()), "floor {a:e}");
        assert!(same(v(f(a).ceil()), a.ceil()), "ceil {a:e}");
        assert!(same(v(f(a).round()), a.round()), "round {a:e}");
        assert_eq!(f(a).to_i64(), a as i64, "to_i64 {a:e}");
        assert_eq!(f(a).truncate(u64::MAX), a as u64, "truncate {a:e}");
        assert_eq!(f(a).truncate(99), (a as u64).min(99), "truncate to 99 {a:e}");
    }
}

#[test]
fn remainders_agree_with_the_machine() {
    for a in [0.0, -0.0, 1.0, -1.0, 5.5, -5.5, 0.1, 123456.789, -3.25, 1e9, f64::NAN, f64::INFINITY] {
        for b in [1.0, 0.5, 4.0, -4.0, 0.1, 60.0 / 128.0, f64::INFINITY, 0.0] {
            assert!(same(v(f(a).rem(f(b))), a % b), "{a} % {b}");
            assert!(same(v(f(a).rem_euclid(f(b))), a.rem_euclid(b)), "{a} rem {b}");
        }
    }
}

#[test]
fn conversions_agree_with_the_machine() {
    for n in [0u64, 1, 2, 99, 1 << 53, (1 << 53) + 1, u64::MAX, 0x8000_0000_0000_0400, 12345678901234567] {
        assert_eq!(v(Binary64::from_u64(n)), n as f64, "{n}");
    }
    for n in [0i64, -1, 7, i64::MIN, i64::MAX, -9007199254740993] {
        assert_eq!(v(Binary64::from_i64(n)), n as f64, "{n}");
    }
    for x in [0.0f32, -0.0, 1.5, -3.25, f32::MIN_POSITIVE, 1e-45, f32::MAX, f32::INFINITY] {
        assert!(same(v(widen(x.to_bits())), f64::from(x)), "{x}");
    }
    assert!(v(widen(f32::NAN.to_bits())).is_nan());
}

#[test]
fn constants_are_what_they_say() {
    assert_eq!(v(zero()), 0.0);
    assert_eq!(v(one()), 1.0);
    assert_eq!(v(half()), 0.5);
    assert_eq!(v(milli()), 1e-3);
    assert_eq!(v(micro()), 1e-6);
    assert_eq!(v(nano()), 1e-9);
    assert_eq!(v(pico()), 1e-12);
    assert_eq!(v(minus_infinity()), f64::NEG_INFINITY);
}

#[test]
fn fixed_point_text_agrees_with_the_machine() {
    for a in [
        0.0, -0.0, 0.5, 1.5, 2.5, 0.125, 0.375, 127.996, 128.005, 1.005, -1.25, 0.0005, 0.0015, 12.3456, 99.995,
        1e-9, 123456789.987, f64::NAN, f64::INFINITY, f64::NEG_INFINITY, 1e15, 0.1, 999.9995, -0.0004,
    ] {
        for places in [0u32, 1, 2, 3] {
            let expected = match places {
                0 => format!("{a:.0}"),
                1 => format!("{a:.1}"),
                2 => format!("{a:.2}"),
                _ => format!("{a:.3}"),
            };
            assert_eq!(fixed_text(f(a), places), expected, "{a:e} to {places}");
        }
    }
}

#[test]
fn clamping_keeps_to_the_bounds() {
    assert_eq!(v(f(5.0).clamp(f(0.0), f(1.0))), 1.0);
    assert_eq!(v(f(-5.0).clamp(f(0.0), f(1.0))), 0.0);
    assert_eq!(v(f(0.25).clamp(f(0.0), f(1.0))), 0.25);
    assert!(v(f(f64::NAN).clamp(f(0.0), f(1.0))).is_nan());
}

#[test]
fn cutting_off_the_fraction_reaches_the_integers_below() {
    assert_eq!(f(7.999).truncate(100), 7);
    assert_eq!(f(-3.0).truncate(100), 0);
    assert_eq!(f(1e30).truncate(100), 100);
    assert_eq!(f(f64::NAN).truncate(100), 0);
}

#[test]
fn adding_something_positive_never_lowers() {
    for a in [0.0, 1.0, 1e16, -3.5, 1e-320] {
        for b in [0.0, 1e-300, 0.5, 7.0] {
            assert!(f(a).le(f(a).plus(f(b))));
        }
    }
}

#[test]
fn lists_are_summed_from_the_left() {
    let values = [0.1, 0.2, 0.3, 1e16, -1e16];
    let mut expected = 0.0;
    for x in values {
        expected += x;
    }
    assert_eq!(v(total_of(&all(&values))), expected);
    assert_eq!(v(mean(&all(&[1.0, 2.0, 6.0]))), 3.0);
    assert_eq!(v(std_dev(&all(&[2.0, 4.0, 4.0, 4.0, 5.0, 5.0, 7.0, 9.0]))), 2.0);
    assert_eq!(v(highest_of(&all(&[1.0, f64::NAN, 3.0]))), 3.0);
    assert_eq!(v(highest_of(&[])), f64::NEG_INFINITY);
    let gaps: Vec<f64> = gaps_of(&all(&[1.0, 1.5, 4.0])).iter().map(|x| v(*x)).collect();
    assert_eq!(gaps, vec![0.5, 2.5]);
}

#[test]
fn median_of_an_even_count_averages_the_middle_pair() {
    assert_eq!(v(median(&all(&[1.0, 2.0, 3.0, 4.0]))), 2.5);
    assert_eq!(v(median(&all(&[3.0, 1.0]))), 2.0);
    assert_eq!(v(median(&all(&[3.0, 1.0, 2.0]))), 2.0);
    assert_eq!(v(median(&[])), 0.0);
}

#[test]
fn sorting_puts_numbers_in_order() {
    let values = [3.0, -1.0, 2.0, 0.0, -0.0, 5.5];
    let sorted: Vec<f64> = sort_ascending(&all(&values)).iter().map(|x| v(*x)).collect();
    assert!(sorted.windows(2).all(|w| w[0] <= w[1]), "{sorted:?}");
    assert_eq!(sorted.len(), 6);
    let total: Vec<u64> = sort_total(&all(&values)).iter().map(|x| x.to_bits()).collect();
    let mut expected = values.to_vec();
    expected.sort_by(f64::total_cmp);
    assert_eq!(total, expected.iter().map(|x| x.to_bits()).collect::<Vec<u64>>());
}

#[test]
fn turning_rows_makes_columns() {
    let rows = vec![all(&[1.0, 2.0, 3.0]), all(&[4.0, 5.0, 6.0])];
    let turned = turn_rows(&rows, 3);
    assert_eq!(turned, vec![all(&[1.0, 4.0]), all(&[2.0, 5.0]), all(&[3.0, 6.0])]);
}
