//! Band envelopes and the waveform outline.

use mixlyzer::analyze::bands::Band;
use mixlyzer::analyze::envelope::{self, centre_angle, frame_rms, Biquad, Turn};
use mixlyzer::analyze::report::Envelopes;
use mixlyzer::number::binary64::{widen, Binary64};

fn f(x: f64) -> Binary64 {
    Binary64::from_bits(x.to_bits())
}

fn v(b: Binary64) -> f64 {
    f64::from_bits(b.to_bits())
}

fn singles(values: &[f32]) -> Vec<Binary64> {
    values.iter().map(|x| widen(x.to_bits())).collect()
}

fn back(values: &[Binary64]) -> Vec<f64> {
    values.iter().map(|x| v(*x)).collect()
}

fn sine(freq: f64, seconds: f64, rate: u32) -> Vec<Binary64> {
    let n = (seconds * f64::from(rate)) as usize;
    let samples: Vec<f32> = (0..n)
        .map(|i| {
            let t = i as f64 / f64::from(rate);
            (2.0 * std::f64::consts::PI * freq * t).sin() as f32
        })
        .collect();
    singles(&samples)
}

fn bands() -> [Band; 3] {
    [
        Band { low_hz: f(20.0), high_hz: f(200.0) },
        Band { low_hz: f(200.0), high_hz: f(3_000.0) },
        Band { low_hz: f(3_000.0), high_hz: f(11_025.0) },
    ]
}

fn compute(signal: &[Binary64], sample_rate: u32, hop: usize, bands: [Band; 3], order: u32) -> Envelopes {
    let turns = [0, 1, 2].map(|i| {
        let (sin, cos) = v(centre_angle(&bands[i], sample_rate)).sin_cos();
        Turn { sin: f(sin), cos: f(cos) }
    });
    envelope::compute(signal, sample_rate, hop, bands, turns, order)
}

fn mean(values: &[Binary64]) -> f64 {
    back(values).iter().sum::<f64>() / values.len() as f64
}

#[test]
fn frame_count_follows_the_hop() {
    let signal = vec![f(0.0); 1000];
    let env = compute(&signal, 22_050, 100, bands(), 4);
    assert_eq!(env.len(), 10);
    assert_eq!(env.min.len(), 10);
    assert_eq!(env.max.len(), 10);
}

#[test]
fn a_signal_shorter_than_one_frame_yields_nothing() {
    let env = compute(&singles(&[0.1, 0.2]), 22_050, 100, bands(), 4);
    assert!(env.is_empty());
    assert_eq!(env.len(), 0);
}

#[test]
fn silence_gives_zero_energy_in_every_band() {
    let env = compute(&vec![f(0.0); 4410], 22_050, 441, bands(), 4);
    assert!(env.low.iter().all(|x| v(*x) < 1e-9));
    assert!(env.mid.iter().all(|x| v(*x) < 1e-9));
    assert!(env.high.iter().all(|x| v(*x) < 1e-9));
}

#[test]
fn a_bass_tone_lands_in_the_low_band() {
    let signal = sine(80.0, 1.0, 22_050);
    let env = compute(&signal, 22_050, 441, bands(), 4);
    let (low, mid, high) = (mean(&env.low), mean(&env.mid), mean(&env.high));
    assert!(low > mid * 4.0, "low {low} should dominate mid {mid}");
    assert!(low > high * 4.0, "low {low} should dominate high {high}");
}

#[test]
fn a_mid_tone_lands_in_the_mid_band() {
    let signal = sine(1_000.0, 1.0, 22_050);
    let env = compute(&signal, 22_050, 441, bands(), 4);
    let (low, mid, high) = (mean(&env.low), mean(&env.mid), mean(&env.high));
    assert!(mid > low * 4.0, "mid {mid} should dominate low {low}");
    assert!(mid > high * 4.0, "mid {mid} should dominate high {high}");
}

#[test]
fn a_treble_tone_lands_in_the_high_band() {
    let signal = sine(6_000.0, 1.0, 22_050);
    let env = compute(&signal, 22_050, 441, bands(), 4);
    let (low, mid, high) = (mean(&env.low), mean(&env.mid), mean(&env.high));
    assert!(high > low * 4.0, "high {high} should dominate low {low}");
    assert!(high > mid * 2.0, "high {high} should dominate mid {mid}");
}

#[test]
fn the_outline_tracks_the_sample_extremes() {
    let mut signal = vec![0.0f32; 300];
    signal[50] = 0.9;
    signal[150] = -0.7;
    let env = compute(&singles(&signal), 22_050, 100, bands(), 4);
    assert!((v(env.max[0]) - 0.9).abs() < 1e-6);
    assert!((v(env.min[1]) + 0.7).abs() < 1e-6);
    assert_eq!(v(env.max[2]), 0.0);
}

#[test]
fn filtering_does_not_shift_a_transient() {
    let mut signal = vec![0.0f32; 4410];
    let spike = 2205;
    for offset in 0..20 {
        signal[spike + offset] = 1.0;
    }
    let env = compute(&singles(&signal), 22_050, 64, bands(), 4);
    let mid = back(&env.mid);
    let peak_frame =
        mid.iter().enumerate().max_by(|a, b| a.1.partial_cmp(b.1).unwrap()).map(|(i, _)| i).unwrap();
    let expected = spike / 64;
    assert!(
        (peak_frame as i64 - expected as i64).abs() <= 2,
        "peak landed at frame {peak_frame}, expected near {expected}"
    );
}

#[test]
fn frame_timing_matches_the_hop() {
    let env = compute(&vec![f(0.0); 22_050], 22_050, 441, bands(), 4);
    assert!((v(env.frame_duration()) - 0.02).abs() < 1e-9);
    assert!((v(env.frame_time(10)) - 0.2).abs() < 1e-9);
}

#[test]
fn a_zero_hop_is_treated_as_one_sample() {
    let env = compute(&singles(&[0.5, -0.5]), 22_050, 0, bands(), 4);
    assert_eq!(env.hop, 1);
    assert_eq!(env.len(), 2);
}

#[test]
fn rms_of_a_constant_frame_is_its_magnitude() {
    let values = vec![f(0.5); 100];
    let rms = frame_rms(&values, 100);
    assert!((v(rms[0]) - 0.5).abs() < 1e-6);
}

#[test]
fn a_section_answers_as_the_recurrence_says() {
    let turn = Turn { sin: f(0.6), cos: f(0.8) };
    let filter = Biquad::bandpass(turn, f(0.5));
    // alpha is 0.6, so everything is divided by 1.6.
    assert!((v(filter.b0) - 0.375).abs() < 1e-15);
    assert_eq!(v(filter.b1), 0.0);
    assert!((v(filter.b2) + 0.375).abs() < 1e-15);
    assert!((v(filter.a1) + 1.0).abs() < 1e-15);
    assert!((v(filter.a2) - 0.25).abs() < 1e-15);
    let out = back(&filter.run(&[f(1.0), f(0.0), f(0.0), f(0.0)]));
    let (b0, b2, a1, a2) = (v(filter.b0), v(filter.b2), v(filter.a1), v(filter.a2));
    let second = -a1 * b0;
    let third = b2 - a1 * second - a2 * b0;
    assert!((out[0] - b0).abs() < 1e-15);
    assert!((out[1] - second).abs() < 1e-15);
    assert!((out[2] - third).abs() < 1e-15);
}

#[test]
fn all_curves_are_on_the_same_frames() {
    let env = compute(&sine(440.0, 0.1, 22_050), 22_050, 300, bands(), 3);
    assert_eq!(env.len(), 2205 / 300);
    for curve in [&env.mid, &env.high, &env.min, &env.max] {
        assert_eq!(curve.len(), env.len());
    }
}
