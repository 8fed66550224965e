//! Onset strength over time.

use mixlyzer::analyze::onset::{
    band_energies, spectral_flux, triangular_filters, window_count, OnsetEnvelope, OnsetOptions,
};
use mixlyzer::number::binary64::Binary64;
use rustfft::num_complex::Complex;
use rustfft::FftPlanner;
use std::f64::consts::PI;

fn f(x: f64) -> Binary64 {
    Binary64::from_bits(x.to_bits())
}

fn v(b: Binary64) -> f64 {
    f64::from_bits(b.to_bits())
}

fn all(values: &[f64]) -> Vec<Binary64> {
    values.iter().map(|x| f(*x)).collect()
}

fn back(values: &[Binary64]) -> Vec<f64> {
    values.iter().map(|x| v(*x)).collect()
}

fn frames(signal: &[f32], n_fft: usize, hop: usize, count: usize, measure: fn(&Complex<f64>) -> f64) -> Vec<Vec<f64>> {
    let window: Vec<f64> =
        (0..n_fft).map(|i| 0.5 - 0.5 * (2.0 * PI * i as f64 / n_fft as f64).cos()).collect();
    let fft = FftPlanner::<f64>::new().plan_fft_forward(n_fft);
    let mut scratch = vec![Complex::new(0.0, 0.0); n_fft];
    (0..count)
        .map(|frame| {
            let start = frame * hop;
            for (i, slot) in scratch.iter_mut().enumerate() {
                *slot = Complex::new(f64::from(signal[start + i]) * window[i], 0.0);
            }
            fft.process(&mut scratch);
            scratch[..n_fft / 2 + 1].iter().map(measure).collect()
        })
        .collect()
}

fn band_edges(n_mels: usize, sample_rate: f64, fmin: f64, fmax: f64) -> Vec<f64> {
    let fmin = fmin.max(0.0);
    let fmax = fmax.min(sample_rate * 0.5).max(fmin + 1.0);
    let low = 2595.0 * (1.0 + fmin / 700.0).log10();
    let high = 2595.0 * (1.0 + fmax / 700.0).log10();
    (0..n_mels + 2)
        .map(|i| {
            let mel = low + (high - low) * i as f64 / (n_mels + 1) as f64;
            700.0 * (10f64.powf(mel / 2595.0) - 1.0)
        })
        .collect()
}

fn mel_filterbank(n_mels: usize, n_fft: usize, sample_rate: f64, fmin: f64, fmax: f64) -> Vec<Vec<(usize, f64)>> {
    let edges = all(&band_edges(n_mels, sample_rate, fmin, fmax));
    triangular_filters(&edges, n_fft, f(sample_rate))
        .iter()
        .map(|band| band.iter().map(|(bin, weight)| (*bin, v(*weight))).collect())
        .collect()
}

fn mel_powers(samples: &[f32], rate: u32, n_fft: usize, hop: usize, n_mels: usize, fmin: f64, fmax: f64) -> Vec<Vec<Binary64>> {
    let edges = all(&band_edges(n_mels, f64::from(rate), fmin, fmax));
    let filters = triangular_filters(&edges, n_fft, f(f64::from(rate)));
    let count = window_count(samples.len(), n_fft, hop, rate);
    frames(samples, n_fft, hop, count, |bin| bin.norm_sqr())
        .iter()
        .map(|power| band_energies(&filters, &all(power)))
        .collect()
}

fn onset_envelope(samples: &[f32], sample_rate: u32, options: OnsetOptions) -> OnsetEnvelope {
    let n_fft = options.window_length();
    let hop = options.hop_length();
    let powers = mel_powers(samples, sample_rate, n_fft, hop, options.n_mels, v(options.fmin), v(options.fmax));
    let compressed: Vec<Vec<Binary64>> =
        powers.iter().map(|row| row.iter().map(|e| f((1.0 + v(*e)).ln())).collect()).collect();
    OnsetEnvelope { strength: spectral_flux(&compressed), hop, n_fft, sample_rate }
}

fn click_track(bpm: f64, seconds: f64, rate: u32) -> Vec<f32> {
    let n = (seconds * f64::from(rate)) as usize;
    let period = (60.0 / bpm * f64::from(rate)) as usize;
    let mut signal = vec![0.0f32; n];
    let mut at = 0usize;
    while at < n {
        for offset in 0..64.min(n - at) {
            let decay = 1.0 - offset as f32 / 64.0;
            signal[at + offset] = decay * if offset % 2 == 0 { 1.0 } else { -1.0 };
        }
        at += period;
    }
    signal
}

#[test]
fn a_signal_shorter_than_the_window_gives_nothing() {
    let env = onset_envelope(&vec![0.1f32; 100], 22_050, OnsetOptions::default());
    assert!(env.is_empty());
    assert!(!env.has_energy());
}

#[test]
fn silence_has_no_onset_energy() {
    let env = onset_envelope(&vec![0.0f32; 22_050], 22_050, OnsetOptions::default());
    assert!(!env.is_empty(), "frames should still be produced");
    assert!(!env.has_energy(), "but none of them should carry energy");
}

#[test]
fn strength_is_never_negative() {
    let signal = click_track(128.0, 4.0, 22_050);
    let env = onset_envelope(&signal, 22_050, OnsetOptions::default());
    assert!(env.strength.iter().all(|x| v(*x) >= 0.0));
}

#[test]
fn clicks_produce_peaks_at_the_click_positions() {
    let bpm = 120.0;
    let rate = 22_050;
    let signal = click_track(bpm, 8.0, rate);
    let env = onset_envelope(&signal, rate, OnsetOptions::default());
    assert!(env.has_energy());

    // The largest peaks should sit a beat period apart.
    let period_frames = (60.0 / bpm) / v(env.frame_duration());
    let mut peaks: Vec<usize> = Vec::new();
    let threshold = back(&env.strength).iter().cloned().fold(0.0f64, f64::max) * 0.5;
    for (i, value) in env.strength.iter().enumerate() {
        if v(*value) > threshold
            && peaks
                .last()
                .is_none_or(|last| i - last > period_frames as usize / 2)
        {
            peaks.push(i);
        }
    }
    assert!(peaks.len() >= 4, "expected several peaks, found {}", peaks.len());
    for pair in peaks.windows(2) {
        let gap = (pair[1] - pair[0]) as f64;
        assert!(
            (gap - period_frames).abs() < period_frames * 0.25,
            "peak gap {gap} frames is not near the beat period {period_frames}"
        );
    }
}

#[test]
fn frame_timing_follows_the_hop() {
    let env = OnsetEnvelope {
        strength: all(&vec![0.0; 100]),
        hop: 128,
        n_fft: 2048,
        sample_rate: 22_050,
    };
    let expected = 128.0 / 22_050.0;
    assert!((v(env.frame_duration()) - expected).abs() < 1e-12);
    // frame_time and frame_at must be inverses of each other.
    for frame in [0usize, 1, 10, 99] {
        assert_eq!(env.frame_at(env.frame_time(frame)), frame);
    }
}

#[test]
fn frame_lookup_is_clamped_to_the_available_frames() {
    let env = OnsetEnvelope {
        strength: all(&vec![0.0; 10]),
        hop: 128,
        n_fft: 2048,
        sample_rate: 22_050,
    };
    assert_eq!(env.frame_at(f(-5.0)), 0);
    assert_eq!(env.frame_at(f(1e6)), 9);
}

#[test]
fn normalization_centres_and_scales() {
    let env = OnsetEnvelope {
        strength: all(&vec![1.0, 2.0, 3.0, 4.0]),
        hop: 128,
        n_fft: 2048,
        sample_rate: 22_050,
    };
    let norm = back(&env.normalized());
    let mean = norm.iter().sum::<f64>() / norm.len() as f64;
    assert!(mean.abs() < 1e-12, "mean should vanish, got {mean}");
    let var = norm.iter().map(|v| v * v).sum::<f64>() / norm.len() as f64;
    assert!((var - 1.0).abs() < 1e-9, "variance should be 1, got {var}");
}

#[test]
fn normalizing_a_flat_curve_gives_zeros_rather_than_dividing_by_zero() {
    let env = OnsetEnvelope {
        strength: all(&vec![5.0; 16]),
        hop: 128,
        n_fft: 2048,
        sample_rate: 22_050,
    };
    assert!(back(&env.normalized()).iter().all(|x| *x == 0.0));
}

#[test]
fn reported_onset_times_land_on_the_clicks() {
    let rate = 22_050u32;
    let bpm = 120.0;
    let signal = click_track(bpm, 8.0, rate);
    let env = onset_envelope(&signal, rate, OnsetOptions::default());

    let threshold = back(&env.strength).iter().cloned().fold(0.0f64, f64::max) * 0.5;
    let period = 60.0 / bpm;
    let mut checked = 0;
    let mut previous: Option<usize> = None;
    for (frame, value) in env.strength.iter().enumerate() {
        if v(*value) <= threshold {
            continue;
        }
        if previous.is_some_and(|p| frame - p < 20) {
            continue;
        }
        previous = Some(frame);
        let time = v(env.frame_time(frame));
        let offset = (time / period).fract();
        let error = offset.min(1.0 - offset) * period;
        assert!(
            error < 0.02,
            "onset reported at {time:.4}s is {error:.4}s off the click grid"
        );
        checked += 1;
    }
    assert!(checked >= 4, "expected several onsets, checked {checked}");
}

#[test]
fn the_filterbank_has_one_entry_per_band_and_covers_the_spectrum() {
    let filters = mel_filterbank(32, 2048, 22_050.0, 30.0, 11_025.0);
    assert_eq!(filters.len(), 32);
    assert!(
        filters.iter().all(|f| !f.is_empty()),
        "every band should touch at least one bin"
    );
    // Bands ascend: the first band's bins sit below the last band's.
    let first_max = filters[0].iter().map(|(b, _)| *b).max().unwrap();
    let last_min = filters[31].iter().map(|(b, _)| *b).min().unwrap();
    assert!(first_max < last_min);
}

#[test]
fn filter_weights_are_a_triangle_peaking_at_one() {
    let filters = mel_filterbank(8, 1024, 22_050.0, 30.0, 11_025.0);
    for band in &filters {
        let peak = band.iter().map(|(_, w)| *w).fold(0.0f64, f64::max);
        assert!(peak <= 1.0 + 1e-9 && peak > 0.3, "peak weight {peak}");
    }
}

#[test]
fn flux_ignores_decreases() {
    // Rising then falling: only the rise should register.
    let spectrogram = vec![all(&[0.0, 0.0]), all(&[1.0, 1.0]), all(&[0.0, 0.0])];
    let flux = back(&spectral_flux(&spectrogram));
    assert_eq!(flux[0], 0.0);
    assert!((flux[1] - 2.0).abs() < 1e-12);
    assert_eq!(flux[2], 0.0, "a fall must not count as an onset");
}

#[test]
fn windows_are_powers_of_two() {
    let mut options = OnsetOptions::default();
    options.n_fft = 1000;
    options.hop = 0;
    assert_eq!(options.window_length(), 1024);
    assert_eq!(options.hop_length(), 1);
    options.n_fft = 3;
    assert_eq!(options.window_length(), 16);
    assert_eq!(window_count(1024 + 256, 1024, 128, 22_050), 3);
    assert_eq!(window_count(1023, 1024, 128, 22_050), 0);
}
