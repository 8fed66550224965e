//! Decoded audio: its shape, its channels and its rate.

use mixlyzer::analyze::audio::{blackman, sinc, window_angle, Audio, Resampler, HALF_WIDTH};
use mixlyzer::analyze::error::DecodeError;
use mixlyzer::number::single::{narrow, to_single};
use mixlyzer::number::binary64::{widen, Binary64};

fn f(x: f64) -> Binary64 {
    Binary64::from_bits(x.to_bits())
}

fn v(b: Binary64) -> f64 {
    f64::from_bits(b.to_bits())
}

fn singles(values: &[f32]) -> Vec<Binary64> {
    values.iter().map(|x| widen(x.to_bits())).collect()
}

fn back(values: &[Binary64]) -> Vec<f64> {
    values.iter().map(|x| v(*x)).collect()
}

fn sine(freq: f64, seconds: f64, rate: u32) -> Vec<Binary64> {
    let n = (seconds * f64::from(rate)) as usize;
    let samples: Vec<f32> = (0..n)
        .map(|i| {
            let t = i as f64 / f64::from(rate);
            (2.0 * std::f64::consts::PI * freq * t).sin() as f32
        })
        .collect();
    singles(&samples)
}

fn sinc_at(x: f64) -> f64 {
    v(sinc(f(x), f((std::f64::consts::PI * x).sin())))
}

fn blackman_at(x: f64, half_width: f64) -> f64 {
    let angle = v(window_angle(f(x), f(half_width)));
    v(blackman(f(x), f(half_width), f(angle.cos()), f((2.0 * angle).cos())))
}

fn run(resampler: &Resampler, input: &[Binary64]) -> Vec<Binary64> {
    (0..resampler.output_length(input.len()))
        .map(|i| {
            let weights: Vec<Binary64> = resampler
                .distances(i, input.len())
                .iter()
                .map(|d| f(sinc_at(v(*d)) * blackman_at(v(*d), HALF_WIDTH as f64)))
                .collect();
            resampler.resample_at(input, i, &weights)
        })
        .collect()
}

fn to_mono_resampled(audio: &Audio, target_rate: u32) -> Result<Vec<Binary64>, DecodeError> {
    let resampler = audio.resampler(target_rate)?;
    let mono = audio.to_mono();
    Ok(match resampler {
        Some(resampler) => run(&resampler, &mono),
        None => mono,
    })
}

#[test]
fn mono_audio_reports_its_shape() {
    let audio = Audio::mono(vec![f(0.0); 4410], 44_100);
    assert_eq!(audio.channels(), 1);
    assert_eq!(audio.frames(), 4410);
    assert!((v(audio.duration_sec()) - 0.1).abs() < 1e-9);
}

#[test]
fn stereo_frames_count_pairs_not_samples() {
    let audio = Audio::new(vec![f(0.0); 200], 2, 44_100);
    assert_eq!(audio.frames(), 100);
}

#[test]
fn to_mono_averages_the_channels() {
    // Left is 1.0, right is -1.0, so the mono mix cancels to zero.
    let interleaved: Vec<f32> = (0..10).flat_map(|_| [1.0f32, -1.0f32]).collect();
    let audio = Audio::new(singles(&interleaved), 2, 44_100);
    let mono = audio.to_mono();
    assert_eq!(mono.len(), 10);
    assert!(mono.iter().all(|s| v(*s).abs() < 1e-6));
}

#[test]
fn to_mono_on_mono_audio_is_a_copy() {
    let audio = Audio::mono(vec![f(0.25); 8], 22_050);
    assert_eq!(audio.to_mono(), vec![f(0.25); 8]);
}

#[test]
fn averaging_rounds_as_single_precision_does() {
    let left: Vec<f32> = (0..50).map(|i| (i as f32 * 0.37).sin()).collect();
    let middle: Vec<f32> = (0..50).map(|i| (i as f32 * 1.91).cos()).collect();
    let right: Vec<f32> = (0..50).map(|i| (i as f32 * 0.053).exp().sin()).collect();
    let interleaved: Vec<f32> = (0..50).flat_map(|i| [left[i], middle[i], right[i]]).collect();
    let scale = 1.0 / 3.0f32;
    let expected: Vec<f32> = (0..50).map(|i| (left[i] + middle[i] + right[i]) * scale).collect();
    let mono = Audio::new(singles(&interleaved), 3, 44_100).to_mono();
    assert_eq!(mono, singles(&expected));
}

#[test]
fn no_channels_are_taken_for_one() {
    let audio = Audio::new(singles(&[0.5, -0.5]), 0, 44_100);
    assert_eq!(audio.channels(), 1);
    assert_eq!(audio.frames(), 2);
    assert_eq!(audio.sample_rate(), 44_100);
    assert!(!audio.is_empty());
    assert_eq!(v(Audio::mono(singles(&[0.5]), 0).duration_sec()), 0.0);
}

#[test]
fn resampling_to_the_same_rate_changes_nothing() {
    let audio = Audio::mono(sine(440.0, 0.05, 44_100), 44_100);
    let out = to_mono_resampled(&audio, 44_100).unwrap();
    assert_eq!(out, audio.samples());
    assert!(Resampler::for_rates(44_100, 44_100).is_none());
    assert!(Resampler::for_rates(0, 44_100).is_none());
    assert!(Resampler::for_rates(44_100, 0).is_none());
    assert!(Resampler::for_rates(44_100, 22_050).is_some());
}

#[test]
fn downsampling_produces_the_expected_length() {
    let audio = Audio::mono(sine(440.0, 1.0, 44_100), 44_100);
    let out = to_mono_resampled(&audio, 22_050).unwrap();
    assert!((out.len() as i64 - 22_050).abs() <= 1, "expected about 22050 samples, got {}", out.len());
}

#[test]
fn downsampling_preserves_a_tone_below_the_new_nyquist() {
    // 440 Hz survives a trip to 22.05 kHz; measure by zero crossings.
    let audio = Audio::mono(sine(440.0, 1.0, 44_100), 44_100);
    let out = back(&to_mono_resampled(&audio, 22_050).unwrap());
    let crossings = out.windows(2).filter(|w| (w[0] <= 0.0) != (w[1] <= 0.0)).count();
    // A 440 Hz sine crosses zero 880 times per second.
    assert!((crossings as i64 - 880).abs() < 12, "expected ~880 zero crossings, saw {crossings}");
}

/// Peak magnitude away from the signal edges, where the kernel is only
/// partly covered and the gain correction is deliberately looser.
fn interior_peak(signal: &[f64]) -> f64 {
    let margin = signal.len() / 8;
    signal[margin..signal.len() - margin].iter().fold(0.0f64, |m, s| m.max(s.abs()))
}

#[test]
fn downsampling_removes_content_above_the_new_nyquist() {
    // 15 kHz cannot exist at 22.05 kHz. Left in, it would fold down to
    // 7 kHz and land right on top of the transients the onset detector
    // keys on, so it has to be filtered out rather than decimated.
    for freq in [15_000.0, 18_000.0, 20_000.0] {
        let audio = Audio::mono(sine(freq, 0.5, 44_100), 44_100);
        let out = back(&to_mono_resampled(&audio, 22_050).unwrap());
        let peak = interior_peak(&out);
        assert!(peak < 0.01, "{freq} Hz survived downsampling at {peak}");
    }
}

#[test]
fn downsampling_keeps_the_passband_flat() {
    // Everything below the new Nyquist should come through at full level;
    // a sagging passband would quietly dull the high end.
    for freq in [440.0, 2_000.0, 5_000.0, 9_000.0] {
        let audio = Audio::mono(sine(freq, 0.5, 44_100), 44_100);
        let out = back(&to_mono_resampled(&audio, 22_050).unwrap());
        let peak = interior_peak(&out);
        assert!((peak - 1.0).abs() < 0.1, "{freq} Hz came through at {peak}, expected about 1.0");
    }
}

#[test]
fn upsampling_preserves_amplitude() {
    let audio = Audio::mono(sine(200.0, 0.2, 22_050), 22_050);
    let out = back(&to_mono_resampled(&audio, 44_100).unwrap());
    let peak = out.iter().fold(0.0f64, |m, s| m.max(s.abs()));
    assert!((peak - 1.0).abs() < 0.05, "peak drifted to {peak}");
    assert!((out.len() as i64 - 8820).abs() <= 2);
}

#[test]
fn empty_audio_resamples_to_empty() {
    let audio = Audio::mono(Vec::new(), 44_100);
    assert!(to_mono_resampled(&audio, 22_050).unwrap().is_empty());
}

#[test]
fn a_zero_target_rate_is_an_error_not_a_panic() {
    let audio = Audio::mono(vec![f(0.0); 10], 44_100);
    assert!(matches!(to_mono_resampled(&audio, 0), Err(DecodeError::BadSampleRate { .. })));
    assert!(matches!(audio.resampler(0), Err(DecodeError::BadSampleRate { from: 44_100, to: 0 })));
}

#[test]
fn the_sinc_kernel_is_one_at_zero_and_zero_at_integers() {
    assert!((sinc_at(0.0) - 1.0).abs() < 1e-12);
    for k in 1..8 {
        assert!(sinc_at(k as f64).abs() < 1e-12, "sinc({k}) should vanish");
    }
}

#[test]
fn the_window_vanishes_outside_its_support() {
    assert!(blackman_at(9.0, 8.0).abs() < 1e-12);
    assert!(blackman_at(0.0, 8.0) > 0.9);
}

#[test]
fn the_kernel_reaches_as_far_as_the_band_asks() {
    let down = Resampler::new(44_100, 22_050);
    assert_eq!(down.width, 32);
    assert_eq!(v(down.cutoff), 0.5);
    assert_eq!(down.output_length(1001), 501);
    // Sample 10 stands at 20, and the kernel starts before the signal.
    let near = back(&down.distances(10, 1000));
    assert_eq!(near.len(), 53);
    assert_eq!((near[0], near[20], near[52]), (-10.0, 0.0, 16.0));
    let up = Resampler::new(22_050, 44_100);
    assert_eq!(up.width, 16);
    assert_eq!(v(up.cutoff), 1.0);
    assert_eq!(back(&up.distances(1, 4)), vec![-0.5, 0.5, 1.5, 2.5]);
}

#[test]
fn narrowing_agrees_with_the_machine() {
    let mut values: Vec<f64> = vec![0.0, -0.0, 1.0, 0.1, -0.3, 1e-40, 1.1e-45, 7e-46, 1e-320, 3.4028235e38, 3.4028236e38, 1e300];
    values.extend([f64::INFINITY, f64::NEG_INFINITY, 16_777_217.0, 16_777_219.0, 1.17549435e-38, 1.1754942e-38]);
    values.extend((0..200).map(|i| (i as f64 * 0.77).sin() * 10f64.powi(i % 80 - 45)));
    for x in values {
        assert_eq!(narrow(f(x)), (x as f32).to_bits(), "{x:e}");
        assert_eq!(v(to_single(f(x))), f64::from(x as f32), "{x:e}");
    }
    assert!(v(to_single(f(f64::NAN))).is_nan());
    for bits in [0u32, 1, 0x7F_FFFF, 0x80_0000, 0x3F80_0001, 0x7F7F_FFFF, 0x7F80_0000, 0x8000_0001, 0xFF80_0000] {
        assert_eq!(narrow(widen(bits)), bits);
    }
}
