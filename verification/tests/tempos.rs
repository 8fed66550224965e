//! Tempo and phase, for a track and for stretches of it.

use mixlyzer::analyze::error::AnalysisError;
use mixlyzer::analyze::onset::{
    band_energies, spectral_flux, triangular_filters, window_count, OnsetEnvelope, OnsetOptions,
};
use mixlyzer::analyze::tempo::{
    estimate, estimate_segments, fold_score, is_near_integer_tempo, scale_correlation, tempo_parts, TempoEstimate,
    TempoOptions,
};
use mixlyzer::domain::segments::TempoSegment;
use mixlyzer::number::binary64::Binary64;
use rustfft::num_complex::Complex;
use rustfft::FftPlanner;
use std::f64::consts::PI;

fn f(x: f64) -> Binary64 {
    Binary64::from_bits(x.to_bits())
}

fn v(b: Binary64) -> f64 {
    f64::from_bits(b.to_bits())
}

fn all(values: &[f64]) -> Vec<Binary64> {
    values.iter().map(|x| f(*x)).collect()
}

fn back(values: &[Binary64]) -> Vec<f64> {
    values.iter().map(|x| v(*x)).collect()
}

fn frames(signal: &[f32], n_fft: usize, hop: usize, count: usize, measure: fn(&Complex<f64>) -> f64) -> Vec<Vec<f64>> {
    let window: Vec<f64> =
        (0..n_fft).map(|i| 0.5 - 0.5 * (2.0 * PI * i as f64 / n_fft as f64).cos()).collect();
    let fft = FftPlanner::<f64>::new().plan_fft_forward(n_fft);
    let mut scratch = vec![Complex::new(0.0, 0.0); n_fft];
    (0..count)
        .map(|frame| {
            let start = frame * hop;
            for (i, slot) in scratch.iter_mut().enumerate() {
                *slot = Complex::new(f64::from(signal[start + i]) * window[i], 0.0);
            }
            fft.process(&mut scratch);
            scratch[..n_fft / 2 + 1].iter().map(measure).collect()
        })
        .collect()
}

fn band_edges(n_mels: usize, sample_rate: f64, fmin: f64, fmax: f64) -> Vec<f64> {
    let fmin = fmin.max(0.0);
    let fmax = fmax.min(sample_rate * 0.5).max(fmin + 1.0);
    let low = 2595.0 * (1.0 + fmin / 700.0).log10();
    let high = 2595.0 * (1.0 + fmax / 700.0).log10();
    (0..n_mels + 2)
        .map(|i| {
            let mel = low + (high - low) * i as f64 / (n_mels + 1) as f64;
            700.0 * (10f64.powf(mel / 2595.0) - 1.0)
        })
        .collect()
}

fn mel_powers(samples: &[f32], rate: u32, n_fft: usize, hop: usize, n_mels: usize, fmin: f64, fmax: f64) -> Vec<Vec<Binary64>> {
    let edges = all(&band_edges(n_mels, f64::from(rate), fmin, fmax));
    let filters = triangular_filters(&edges, n_fft, f(f64::from(rate)));
    let count = window_count(samples.len(), n_fft, hop, rate);
    frames(samples, n_fft, hop, count, |bin| bin.norm_sqr())
        .iter()
        .map(|power| band_energies(&filters, &all(power)))
        .collect()
}

fn onset_envelope(samples: &[f32], sample_rate: u32, options: OnsetOptions) -> OnsetEnvelope {
    let n_fft = options.window_length();
    let hop = options.hop_length();
    let powers = mel_powers(samples, sample_rate, n_fft, hop, options.n_mels, v(options.fmin), v(options.fmax));
    let compressed: Vec<Vec<Binary64>> =
        powers.iter().map(|row| row.iter().map(|e| f((1.0 + v(*e)).ln())).collect()).collect();
    OnsetEnvelope { strength: spectral_flux(&compressed), hop, n_fft, sample_rate }
}

fn autocorrelation(signal: &[f64]) -> Vec<f64> {
    let n = signal.len();
    if n == 0 {
        return Vec::new();
    }
    let size = (2 * n).next_power_of_two();
    let mut buffer: Vec<Complex<f64>> = signal.iter().map(|x| Complex::new(*x, 0.0)).collect();
    buffer.resize(size, Complex::new(0.0, 0.0));
    let mut planner = FftPlanner::<f64>::new();
    planner.plan_fft_forward(size).process(&mut buffer);
    for slot in buffer.iter_mut() {
        *slot = Complex::new(slot.norm_sqr(), 0.0);
    }
    planner.plan_fft_inverse(size).process(&mut buffer);
    buffer.iter().take(n).map(|c| c.re).collect()
}

fn autocorrelate(signal: &[f64]) -> Vec<f64> {
    back(&scale_correlation(&all(&autocorrelation(signal))))
}

fn correlation_of(envelope: &OnsetEnvelope) -> Vec<Binary64> {
    all(&autocorrelate(&back(&envelope.normalized())))
}

fn window_correlations(envelope: &OnsetEnvelope, window_sec: f64) -> Vec<Vec<Binary64>> {
    tempo_parts(envelope, f(window_sec)).iter().map(correlation_of).collect()
}

fn tempo_of(envelope: &OnsetEnvelope, options: TempoOptions) -> Result<TempoEstimate, AnalysisError> {
    estimate(envelope, &options, &correlation_of(envelope))
}

fn segments_of(
    envelope: &OnsetEnvelope,
    options: TempoOptions,
    window_sec: f64,
    duration_sec: f64,
) -> Result<Vec<TempoSegment>, AnalysisError> {
    let parts = window_correlations(envelope, window_sec);
    estimate_segments(envelope, &options, f(window_sec), f(duration_sec), &correlation_of(envelope), &parts)
}

const RATE: u32 = 22_050;

fn click_track(bpm: f64, seconds: f64) -> Vec<f32> {
    let n = (seconds * f64::from(RATE)) as usize;
    let period = 60.0 / bpm * f64::from(RATE);
    let mut signal = vec![0.0f32; n];
    let mut beat = 0usize;
    loop {
        let at = (beat as f64 * period).round() as usize;
        if at >= n {
            break;
        }
        // A short noisy burst: broadband, so every mel band sees it.
        for offset in 0..128.min(n - at) {
            let decay = (1.0 - offset as f32 / 128.0).powi(2);
            let noise = if (at + offset) % 3 == 0 { 1.0 } else { -0.7 };
            signal[at + offset] = decay * noise;
        }
        beat += 1;
    }
    signal
}

fn envelope_of(signal: &[f32]) -> OnsetEnvelope {
    onset_envelope(signal, RATE, OnsetOptions::default())
}

#[test]
fn recovers_the_tempo_of_a_click_track() {
    for bpm in [120.0, 128.0, 140.0, 174.0] {
        let envelope = envelope_of(&click_track(bpm, 20.0));
        let estimate = tempo_of(&envelope, TempoOptions::default()).unwrap();
        assert!(
            (v(estimate.bpm) - bpm).abs() < 1.0,
            "expected {bpm} BPM, estimated {}",
            v(estimate.bpm)
        );
    }
}

#[test]
fn a_narrow_tempo_range_still_works() {
    let envelope = envelope_of(&click_track(128.0, 20.0));
    let options = TempoOptions {
        bpm_min: f(120.0),
        bpm_max: f(140.0),
        ..TempoOptions::default()
    };
    let estimate = tempo_of(&envelope, options).unwrap();
    assert!((v(estimate.bpm) - 128.0).abs() < 1.0, "got {}", v(estimate.bpm));
}

#[test]
fn a_tempo_outside_the_range_is_not_returned() {
    let envelope = envelope_of(&click_track(128.0, 20.0));
    let options = TempoOptions {
        bpm_min: f(150.0),
        bpm_max: f(180.0),
        ..TempoOptions::default()
    };
    let estimate = tempo_of(&envelope, options).unwrap();
    assert!(
        v(estimate.bpm) >= 150.0 && v(estimate.bpm) <= 180.0,
        "estimate {} escaped the requested range",
        v(estimate.bpm)
    );
}

#[test]
fn silence_is_reported_as_silence_not_as_a_crash() {
    let envelope = envelope_of(&vec![0.0f32; RATE as usize * 5]);
    assert!(matches!(
        tempo_of(&envelope, TempoOptions::default()),
        Err(AnalysisError::Silent)
    ));
}

#[test]
fn an_impossibly_narrow_range_is_reported_as_such() {
    let envelope = envelope_of(&click_track(128.0, 20.0));
    // A one-BPM-wide band high up maps to fewer than two distinct lags.
    let options = TempoOptions {
        bpm_min: f(399.0),
        bpm_max: f(400.0),
        ..TempoOptions::default()
    };
    assert!(matches!(
        tempo_of(&envelope, options),
        Err(AnalysisError::TempoRangeTooNarrow { .. })
    ));
}

#[test]
fn the_phase_lands_on_the_clicks() {
    let bpm = 120.0;
    let envelope = envelope_of(&click_track(bpm, 20.0));
    let estimate = tempo_of(&envelope, TempoOptions::default()).unwrap();
    let period = 60.0 / bpm;
    // Clicks start at t=0, so the phase should be near a whole period.
    let distance = (v(estimate.phase_sec) / period).fract();
    let error = distance.min(1.0 - distance) * period;
    assert!(
        error < 0.05,
        "phase {} is {error:.3}s off the click grid",
        v(estimate.phase_sec)
    );
}

#[test]
fn confidence_is_higher_for_a_clean_grid_than_for_noise() {
    let clean = envelope_of(&click_track(128.0, 20.0));
    let clean_estimate = tempo_of(&clean, TempoOptions::default()).unwrap();

    // Deterministic pseudo-noise: no periodicity to lock onto.
    let noise: Vec<f32> = (0..RATE as usize * 20)
        .map(|i| ((i as f64 * 12.9898).sin() * 43758.5453).fract() as f32 * 2.0 - 1.0)
        .collect();
    let noisy = envelope_of(&noise);
    let noisy_estimate = tempo_of(&noisy, TempoOptions::default()).unwrap();

    assert!(
        v(clean_estimate.confidence) > v(noisy_estimate.confidence),
        "clean {} should beat noise {}",
        v(clean_estimate.confidence),
        v(noisy_estimate.confidence)
    );
}

#[test]
fn beats_tile_the_track_at_the_beat_period() {
    let estimate = TempoEstimate {
        bpm: f(120.0),
        phase_sec: f(0.25),
        confidence: f(1.0),
    };
    let beats = back(&estimate.beats(f(10.0)));
    assert!(!beats.is_empty());
    assert!((beats[0] - 0.25).abs() < 1e-9);
    for pair in beats.windows(2) {
        assert!((pair[1] - pair[0] - 0.5).abs() < 1e-9);
    }
    assert!(*beats.last().unwrap() <= 10.0 + 1e-9);
}

#[test]
fn a_phase_past_the_first_beat_still_describes_the_whole_grid() {
    // A phase found deep in the track must be wound back to the start.
    let estimate = TempoEstimate {
        bpm: f(120.0),
        phase_sec: f(30.25),
        confidence: f(1.0),
    };
    let beats = back(&estimate.beats(f(10.0)));
    assert!((beats[0] - 0.25).abs() < 1e-9, "first beat at {}", beats[0]);
}

#[test]
fn a_zero_length_track_has_no_beats() {
    let estimate = TempoEstimate {
        bpm: f(120.0),
        phase_sec: f(0.0),
        confidence: f(1.0),
    };
    assert!(estimate.beats(f(0.0)).is_empty());
}

#[test]
fn the_integer_preference_is_symmetric() {
    for delta in [0.0, 0.01, 0.05, 0.099] {
        assert!(
            is_near_integer_tempo(f(128.0 - delta)),
            "128 - {delta} should count as a round tempo"
        );
        assert!(
            is_near_integer_tempo(f(128.0 + delta)),
            "128 + {delta} should count as a round tempo"
        );
    }
    for delta in [0.11, 0.25, 0.5] {
        assert!(!is_near_integer_tempo(f(128.0 - delta)));
        assert!(!is_near_integer_tempo(f(128.0 + delta)));
    }
}

#[test]
fn a_tempo_off_the_integer_grid_scores_lower_than_one_on_it() {
    // A signal whose period is exactly 128 BPM at the default frame rate.
    let frame_dur = 128.0 / f64::from(RATE);
    let period_frames = (60.0 / 128.0) / frame_dur;
    let signal: Vec<f64> = (0..4000)
        .map(|i| {
            let phase = (i as f64 / period_frames).fract();
            if phase < 0.05 {
                1.0
            } else {
                0.0
            }
        })
        .collect();
    let on_grid = v(fold_score(&all(&signal), f(frame_dur), f(128.0), f(0.15)));
    let off_grid = v(fold_score(&all(&signal), f(frame_dur), f(128.5), f(0.15)));
    assert!(
        off_grid < on_grid,
        "128.5 scored {off_grid}, which should be below 128.0 at {on_grid}"
    );
}

#[test]
fn autocorrelation_peaks_at_the_period() {
    let period = 16usize;
    let signal: Vec<f64> = (0..1024)
        .map(|i| if i % period == 0 { 1.0 } else { 0.0 })
        .collect();
    let acf = autocorrelate(&signal);
    assert!((acf[0] - 1.0).abs() < 1e-9, "lag zero should be 1");
    // The period and its multiples should stand above their neighbours.
    for multiple in 1..4 {
        let lag = period * multiple;
        assert!(
            acf[lag] > acf[lag - 1] && acf[lag] > acf[lag + 1],
            "no peak at lag {lag}"
        );
    }
}

#[test]
fn autocorrelation_of_nothing_is_nothing() {
    assert!(autocorrelate(&[]).is_empty());
}

#[test]
fn segmentation_of_a_steady_track_yields_one_segment() {
    let envelope = envelope_of(&click_track(128.0, 30.0));
    let segments = segments_of(&envelope, TempoOptions::default(), 5.0, 30.0).unwrap();
    assert_eq!(segments.len(), 1, "a steady tempo should not be split");
    assert!((v(segments[0].bpm) - 128.0).abs() < 1.0);
    assert_eq!(v(segments[0].start), 0.0);
    assert!((v(segments[0].end) - 30.0).abs() < 1e-9);
}

#[test]
fn segments_cover_the_track_without_gaps() {
    let mut signal = click_track(120.0, 15.0);
    signal.extend(click_track(150.0, 15.0));
    let envelope = envelope_of(&signal);
    let segments = segments_of(&envelope, TempoOptions::default(), 5.0, 30.0).unwrap();
    assert!(!segments.is_empty());
    assert_eq!(v(segments[0].start), 0.0);
    for pair in segments.windows(2) {
        assert!(
            (v(pair[0].end) - v(pair[1].start)).abs() < 1e-9,
            "gap between {:?} and {:?}",
            pair[0],
            pair[1]
        );
    }
    assert!((v(segments.last().unwrap().end) - 30.0).abs() < 1e-6);
}

#[test]
fn segmentation_of_silence_reports_silence() {
    let envelope = envelope_of(&vec![0.0f32; RATE as usize * 10]);
    assert!(matches!(
        segments_of(&envelope, TempoOptions::default(), 5.0, 10.0),
        Err(AnalysisError::Silent)
    ));
}

#[test]
fn a_track_shorter_than_the_window_gets_one_segment() {
    let envelope = envelope_of(&click_track(128.0, 6.0));
    let segments = segments_of(&envelope, TempoOptions::default(), 30.0, 6.0).unwrap();
    assert_eq!(segments.len(), 1);
    assert!((v(segments[0].end) - 6.0).abs() < 1e-9);
}
