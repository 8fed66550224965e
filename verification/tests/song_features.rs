//! What a beat sounds like: windows, scales, weights and the features of a song.

use mixlyzer::detect::basis::{
    chroma_stft, class_exponents, class_weights, contrast_bands, cosine_angles, dct_ortho_rows, even_places, band_limits,
    mel_weights, normalize_columns, project, semitone_places, taper_exponents, tonal_angles, tonnetz, Norm,
};
use mixlyzer::detect::contrast::contrast_levels;
use mixlyzer::detect::decibels::{above, audible, power_to_db, reference_of, squared, DbRef};
use mixlyzer::detect::error::PhraseError;
use mixlyzer::detect::grid::{build_predictor_grid, PredictorGrid};
use mixlyzer::detect::matrix::Mat;
use mixlyzer::detect::model::ModelSettings;
use mixlyzer::detect::noise::Xorshift;
use mixlyzer::detect::phrases::{vocal_exponents, AcousticFeatures};
use mixlyzer::detect::scaling::robust_z;
use mixlyzer::detect::song::{
    band_balance, band_energy, beat_levels, beat_shapes, bright_energy, contrast_reach, differences, flatness_terms,
    frame_energy, gather, logistic, pitch_salience, rms_from_signal, rolloff_share, spectral_flatness, texture_of,
    FrameShapes, SongFrames, LOWEST_MEL,
};
use mixlyzer::detect::spectrum::{
    fft_frequencies, frames_to_time, hpss, n_frames, onset_strength, rising_steps, rms_from_spectrum, spectral_bandwidth,
    spectral_centroid, spectral_rolloff,
};
use mixlyzer::detect::sync::{check_audio, clamp_edges, sync_scalar, Reducer};
use mixlyzer::detect::tuning::{pitch_peaks, pitch_tuning, tuning_voters};
use mixlyzer::detect::windows::{
    self, bend_ratio, bent_exponent, bent_frequency, bent_place, hann_angles, hann_periodic, mel_exponent, windowed,
};
use mixlyzer::domain::segments::TempoSegment;
use mixlyzer::number::binary64::{widen, Binary64};
use mixlyzer::number::lists::turn_rows;
use rustfft::num_complex::Complex;
use rustfft::FftPlanner;
use std::f64::consts::PI;

fn f(x: f64) -> Binary64 {
    Binary64::from_bits(x.to_bits())
}

fn v(b: Binary64) -> f64 {
    f64::from_bits(b.to_bits())
}

fn all(values: &[f64]) -> Vec<Binary64> {
    values.iter().map(|x| f(*x)).collect()
}

fn back(values: &[Binary64]) -> Vec<f64> {
    values.iter().map(|x| v(*x)).collect()
}

fn put(values: &[Binary64], change: fn(f64) -> f64) -> Vec<Binary64> {
    values.iter().map(|x| f(change(v(*x)))).collect()
}

fn singles(values: &[f32]) -> Vec<Binary64> {
    values.iter().map(|x| widen(x.to_bits())).collect()
}

fn grid_of(rows: &[Vec<f64>]) -> Mat {
    Mat::from_rows(rows.iter().map(|row| all(row)).collect())
}

fn hann(n: usize) -> Vec<Binary64> {
    hann_periodic(&put(&hann_angles(n), f64::cos))
}

fn hz_to_mel(hz: f64) -> f64 {
    v(windows::hz_to_mel(f(hz), f((hz / 1000.0).ln()), f(6.4f64.ln() / 27.0)))
}

fn mel_to_hz(mel: f64) -> f64 {
    let exponent = v(mel_exponent(f(mel), f(6.4f64.ln() / 27.0)));
    v(windows::mel_to_hz(f(mel), f(exponent.exp())))
}

fn stft_magnitude(signal: &[Binary64], n_fft: usize, hop: usize) -> Mat {
    let window = hann(n_fft);
    let fft = FftPlanner::<f64>::new().plan_fft_forward(n_fft);
    let rows: Vec<Vec<Binary64>> = (0..n_frames(signal.len(), hop))
        .map(|frame| {
            let mut scratch: Vec<Complex<f64>> = windowed(signal, &window, frame * hop, n_fft / 2)
                .iter()
                .map(|x| Complex::new(v(*x), 0.0))
                .collect();
            fft.process(&mut scratch);
            scratch[..n_fft / 2 + 1].iter().map(|bin| f(bin.norm())).collect()
        })
        .collect();
    Mat::from_rows(turn_rows(&rows, n_fft / 2 + 1))
}

fn decibels(power: &Mat, reference: DbRef) -> Mat {
    let logs = audible(power).map(|x| f(v(x).log10()));
    power_to_db(&logs, f(v(reference_of(power, reference)).log10()))
}

fn cepstrum(input: &Mat, count: usize) -> Mat {
    let n = input.rows();
    let rows = (0..count.min(n)).map(|k| put(&cosine_angles(k, n), f64::cos)).collect();
    dct_ortho_rows(input, &rows)
}

fn tonal(chroma: &Mat) -> Mat {
    let axes = (0..6).map(|p| put(&tonal_angles(p, chroma.rows()), f64::cos)).collect();
    tonnetz(chroma, &axes)
}

fn chroma_basis(sr: f64, n_fft: usize, tuning: f64) -> Vec<Vec<Binary64>> {
    let octave = |hz: f64| (hz / (440.0 * 2.0f64.powf(tuning / 12.0) / 16.0)).log2();
    let octaves: Vec<f64> = (0..n_fft).map(|k| octave(k.max(1) as f64 * sr / n_fft as f64)).collect();
    let places = semitone_places(&all(&octaves));
    let bells = (0..12).map(|c| put(&class_exponents(&places, c), f64::exp)).collect();
    let tapers = put(&taper_exponents(&places), f64::exp);
    (0..12).map(|c| class_weights(&bells, &tapers, c, n_fft / 2 + 1)).collect()
}

fn estimate_tuning(power: &Mat, sr: f64, n_fft: usize) -> f64 {
    let freqs = fft_frequencies(f(sr), n_fft);
    let peaks = pitch_peaks(power, &freqs, f(sr), n_fft);
    let semitones: Vec<f64> =
        back(&tuning_voters(&peaks)).iter().map(|hz| 12.0 * (hz / (440.0 / 16.0)).log2()).collect();
    v(pitch_tuning(&all(&semitones)))
}

fn mel_basis(sr: f64, n_fft: usize, n_mels: usize) -> Vec<Vec<Binary64>> {
    let (low, high) = (f(hz_to_mel(LOWEST_MEL as f64)), f(hz_to_mel(0.5 * sr)));
    let edges: Vec<f64> = back(&even_places(low, high, n_mels)).iter().map(|mel| mel_to_hz(*mel)).collect();
    mel_weights(&all(&edges), &fft_frequencies(f(sr), n_fft))
}

fn geometric_means(power: &Mat) -> Vec<Binary64> {
    (0..power.cols())
        .map(|frame| {
            let terms = back(&flatness_terms(&power.column(frame)));
            f((terms.iter().map(|x| x.ln()).sum::<f64>() / terms.len() as f64).exp())
        })
        .collect()
}

fn extract_song_features(
    samples: &[Binary64],
    settings: &ModelSettings,
    grid: &PredictorGrid,
) -> Result<AcousticFeatures, PhraseError> {
    let duration = check_audio(samples.len(), settings.sample_rate, &grid.beat_times_sec)?;
    let rate = f64::from(settings.sample_rate);
    let sr = f(rate);
    let (n_fft, hop) = (settings.n_fft, settings.hop_length);
    let magnitude = stft_magnitude(samples, n_fft, hop);
    let power = squared(&magnitude);
    let (harmonic, percussive) = hpss(&magnitude);
    let harmonic_power = squared(&harmonic);
    let times = frames_to_time(magnitude.cols(), sr, hop);
    let edges = clamp_edges(&grid.beat_edges_sec, &grid.beat_times_sec, duration);
    let freqs = fft_frequencies(sr, n_fft);
    let basis = mel_basis(rate, n_fft, settings.n_mels);
    let mel = decibels(&project(&basis, &power, true), DbRef::Max);
    let percussive_mel = decibels(&project(&basis, &squared(&percussive), true), DbRef::Max);
    let tuning = estimate_tuning(&harmonic_power, rate, n_fft);
    let chroma = chroma_stft(&harmonic_power, &chroma_basis(rate, n_fft, tuning));
    let bands = contrast_bands(f(v(contrast_reach(sr)).log2()));
    let (peaks, valleys) = contrast_levels(&magnitude, &freqs, bands);
    let fixed = DbRef::Value(f(1.0));
    let onset_high = rising_steps(&put(&bright_energy(&power, &freqs, sr), f64::ln_1p));
    let frames = SongFrames {
        mfcc: cepstrum(&mel, settings.n_mfcc),
        contrast: above(&decibels(&peaks, fixed), &decibels(&valleys, fixed)),
        tonnetz: tonal(&chroma),
        chroma,
        onsets: vec![onset_strength(&mel), onset_strength(&percussive_mel), onset_high],
        mel,
    };
    let mut levels = vec![
        rms_from_spectrum(&magnitude, n_fft),
        rms_from_spectrum(&harmonic, n_fft),
        rms_from_spectrum(&percussive, n_fft),
    ];
    levels.extend(band_balance(&power, &freqs));
    levels.push(frame_energy(&power));
    let middle = rms_from_signal(samples, n_fft, hop);
    let logs: Vec<Vec<Binary64>> =
        beat_levels(&levels, &middle, &times, &edges).iter().map(|row| put(row, f64::ln)).collect();
    let shapes = FrameShapes {
        centroid: spectral_centroid(&magnitude, sr, n_fft),
        bandwidth: spectral_bandwidth(&magnitude, sr, n_fft),
        rolloff: spectral_rolloff(&magnitude, sr, n_fft, rolloff_share()),
        flatness: spectral_flatness(&power, &geometric_means(&power)),
        salience: put(&pitch_salience(&harmonic, &freqs), f64::ln_1p),
    };
    let shapes = beat_shapes(&shapes, sr, &times, &edges);
    let logits = vocal_exponents(
        &robust_z(&shapes[4]),
        &robust_z(&put(&differences(&logs[5], &logs[7]), f64::exp)),
        &robust_z(&differences(&logs[1], &logs[2])),
        &robust_z(&shapes[3]),
        &robust_z(&sync_scalar(&frames.onsets[1], &times, &edges, Reducer::Sum)),
    );
    let texture = texture_of(&logs, &shapes, &logistic(&put(&logits, |x| (-x).exp())));
    Ok(gather(&frames, texture, &times, &edges, duration))
}

/// A short signal with bass, a chord, hats and a level change part-way through.
fn parity_signal(sample_rate: u32, seconds: f64) -> Vec<f32> {
    let n = (seconds * f64::from(sample_rate)) as usize;
    let mut rng = Xorshift::new(0x9E37_79B9);
    let two_pi = 2.0 * PI;
    (0..n)
        .map(|i| {
            let t = i as f64 / f64::from(sample_rate);
            let bass = 0.45 * (two_pi * 55.0 * t).sin();
            let chord = 0.18 * (two_pi * 220.0 * t).sin()
                + 0.14 * (two_pi * 277.18 * t).sin()
                + 0.11 * (two_pi * 329.63 * t).sin();
            let since_hat = (t * 8.0).fract() / 8.0;
            let hat = 0.30 * (-since_hat / 0.03).exp() * v(rng.next_unit());
            let since_kick = (t * 2.0).fract() / 2.0;
            let kick = 0.5 * (-since_kick / 0.08).exp() * (two_pi * 60.0 * since_kick).sin();
            let level = if t > seconds * 0.5 { 1.0 } else { 0.45 };
            ((bass + chord + hat + kick) * level * 0.5) as f32
        })
        .collect()
}

/// A longer signal with an obvious structural change every `section` seconds.
fn structured_signal(sample_rate: u32, seconds: f64, section: f64) -> Vec<f32> {
    let n = (seconds * f64::from(sample_rate)) as usize;
    let mut rng = Xorshift::new(0x0BAD_C0DE);
    let two_pi = 2.0 * PI;
    (0..n)
        .map(|i| {
            let t = i as f64 / f64::from(sample_rate);
            let loud = (t / section) as usize % 2 == 1;
            let root = if loud { 110.0 } else { 82.41 };
            let bass = 0.5 * (two_pi * root * t).sin();
            let chord = if loud {
                0.25 * (two_pi * root * 4.0 * t).sin() + 0.2 * (two_pi * root * 5.0 * t).sin()
            } else {
                0.1 * (two_pi * root * 3.0 * t).sin()
            };
            let since_hat = (t * 8.0).fract() / 8.0;
            let hat_gain = if loud { 0.35 } else { 0.08 };
            let hat = hat_gain * (-since_hat / 0.02).exp() * v(rng.next_unit());
            let since_kick = (t * 2.0).fract() / 2.0;
            let kick = 0.6 * (-since_kick / 0.06).exp() * (two_pi * 55.0 * since_kick).sin();
            let level = if loud { 1.0 } else { 0.4 };
            ((bass + chord + hat + kick) * level * 0.45) as f32
        })
        .collect()
}

fn grid_for(seconds: f64, period: f64) -> PredictorGrid {
    let beats: Vec<f64> = (0..(seconds / period) as usize).map(|i| i as f64 * period).collect();
    let segments = vec![TempoSegment::new(f(0.0), f(seconds), f(60.0 / period), f(0.0), 4)];
    build_predictor_grid(&all(&beats), &segments).unwrap()
}

fn finite(features: &AcousticFeatures) -> bool {
    features.stacked().as_slice().iter().all(|x| v(*x).is_finite())
}

#[test]
fn the_stacked_feature_vector_is_the_expected_133_dimensions() {
    let settings = ModelSettings::default();
    let grid = grid_for(20.0, 0.5);
    let samples = singles(&parity_signal(settings.sample_rate, 20.0));
    let features = extract_song_features(&samples, &settings, &grid).unwrap();
    assert_eq!(features.timbre.rows(), 73, "48 mel + 20 mfcc + 5 contrast");
    assert_eq!(features.harmony.rows(), 18, "12 chroma + 6 tonnetz");
    assert_eq!(features.rhythm.rows(), 27, "24 subdivisions + 3 onset sums");
    assert_eq!(features.texture.rows(), 15);
    assert_eq!(features.stacked().rows(), 133);
    assert_eq!(features.stacked().cols(), grid.n_beats());
}

#[test]
fn every_feature_is_finite_for_ordinary_audio() {
    let settings = ModelSettings::default();
    let grid = grid_for(12.0, 0.5);
    let samples = singles(&structured_signal(settings.sample_rate, 12.0, 4.0));
    let features = extract_song_features(&samples, &settings, &grid).unwrap();
    assert!(finite(&features));
}

#[test]
fn digital_silence_produces_finite_features_rather_than_nan() {
    let settings = ModelSettings::default();
    let grid = grid_for(12.0, 0.5);
    let samples = vec![f(0.0); 12 * 22_050];
    let features = extract_song_features(&samples, &settings, &grid).unwrap();
    assert!(finite(&features));
}

#[test]
fn the_parity_signal_is_reproducible_and_bounded() {
    let a = parity_signal(22_050, 0.5);
    let b = parity_signal(22_050, 0.5);
    assert_eq!(a, b);
    assert!(a.iter().all(|x| x.abs() <= 1.0));
    assert_eq!(a.len(), 11_025);
}

#[test]
fn a_concert_pitch_tone_reports_near_zero_detuning() {
    let n_fft = 2048;
    let sr = 22_050.0;
    let signal: Vec<f32> = (0..22_050).map(|i| (2.0 * PI * 440.0 * i as f64 / sr).sin() as f32).collect();
    let mag = stft_magnitude(&singles(&signal), n_fft, 512);
    let tuning = estimate_tuning(&mag.map(|x| x.times(x)), sr, n_fft);
    assert!(tuning.abs() <= 0.05, "tuning was {tuning}");
}

#[test]
fn chroma_columns_are_unit_length() {
    let mut power = Mat::zeros(1025, 3);
    for frame in 0..3 {
        power.set(41, frame, f(1.0));
        power.set(82, frame, f(0.5));
    }
    let chroma = chroma_stft(&power, &chroma_basis(22_050.0, 2048, 0.0));
    for frame in 0..3 {
        let norm: f64 = (0..12).map(|c| v(chroma.get(c, frame)).powi(2)).sum::<f64>().sqrt();
        assert!((norm - 1.0).abs() < 1e-9);
    }
}

#[test]
fn a_tone_weighs_most_in_its_own_pitch_class() {
    let basis = chroma_basis(22_050.0, 2048, 0.0);
    // Bin 41 stands at 441 Hz, an A.
    let at: Vec<f64> = (0..12).map(|c| v(basis[c][41])).collect();
    let best = (0..12).max_by(|a, b| at[*a].total_cmp(&at[*b])).unwrap();
    assert_eq!(best, 9);
    for row in &basis {
        assert!(back(row).iter().all(|w| *w == f64::from(*w as f32)), "weights have single precision");
    }
}

#[test]
fn tonnetz_of_a_flat_chroma_is_near_zero() {
    let mut chroma = Mat::zeros(12, 1);
    for c in 0..12 {
        chroma.set(c, 0, f(1.0));
    }
    let ton = tonal(&chroma);
    for p in 0..6 {
        assert!(v(ton.get(p, 0)).abs() < 1e-12, "dimension {p}");
    }
}

#[test]
fn mel_scale_is_linear_below_a_kilohertz_and_round_trips() {
    assert!((hz_to_mel(500.0) - 500.0 / (200.0 / 3.0)).abs() < 1e-12);
    for hz in [0.0, 30.0, 440.0, 999.0, 1000.0, 4000.0, 11025.0] {
        assert!((mel_to_hz(hz_to_mel(hz)) - hz).abs() < 1e-9, "{hz}");
    }
}

#[test]
fn the_mel_scale_round_trips() {
    for hz in [0.0, 100.0, 1_000.0, 8_000.0, 11_025.0] {
        let place = bent_place(f(v(bend_ratio(f(hz))).log10()));
        let back = v(bent_frequency(f(10f64.powf(v(bent_exponent(place))))));
        assert!((back - hz).abs() < 1e-6, "{hz} Hz round-tripped to {back}");
    }
    assert_eq!(v(bend_ratio(f(6300.0))), 10.0);
    assert_eq!(v(bent_place(f(1.0))), 2595.0);
}

#[test]
fn mel_weights_carry_the_same_energy_in_every_band() {
    let freqs: Vec<f64> = (0..101).map(|i| i as f64).collect();
    let basis = mel_weights(&all(&[10.0, 20.0, 40.0, 80.0]), &all(&freqs));
    assert_eq!(basis.len(), 2);
    // The peak of the first band is 2 / (40 - 10).
    assert_eq!(v(basis[0][20]), f64::from((2.0f64 / 30.0) as f32));
    assert_eq!(v(basis[0][15]), f64::from((0.5 * (2.0f64 / 30.0)) as f32));
    assert_eq!(v(basis[0][40]), 0.0);
    for row in &basis {
        let area: f64 = back(row).iter().sum();
        assert!((area - 1.0).abs() < 1e-6);
    }
}

#[test]
fn bands_stay_inside_the_spectrum() {
    let both = |lo, hi| {
        let (a, b) = band_limits(f(lo), f(hi), f(22_050.0));
        (v(a), v(b))
    };
    assert_eq!(both(-5.0, 20_000.0), (0.0, 11_025.0));
    assert_eq!(both(30.0, 8_000.0), (30.0, 8_000.0));
    assert_eq!(both(9_000.0, 100.0), (9_000.0, 9_001.0));
    assert_eq!(back(&even_places(f(0.0), f(6.0), 2)), vec![0.0, 2.0, 4.0, 6.0]);
}

#[test]
fn power_to_db_floors_against_the_global_maximum() {
    let mat = grid_of(&[vec![1.0, 1e-30], vec![1e-30, 1e-30]]);
    let db = decibels(&mat, DbRef::Max);
    assert!((v(db.get(0, 0)) - 0.0).abs() < 1e-12);
    assert!((v(db.get(0, 1)) - -80.0).abs() < 1e-12, "clamped 80 dB below the peak");
}

#[test]
fn decibels_go_by_their_reference() {
    let mat = grid_of(&[vec![100.0, 10.0, 1.0]]);
    assert_eq!(back(decibels(&mat, DbRef::Value(f(1.0))).as_slice()), vec![20.0, 10.0, 0.0]);
    assert_eq!(back(decibels(&mat, DbRef::Value(f(-10.0))).as_slice()), vec![10.0, 0.0, -10.0]);
    assert_eq!(back(decibels(&mat, DbRef::Max).as_slice()), vec![0.0, -10.0, -20.0]);
    assert_eq!(v(reference_of(&Mat::zeros(1, 1), DbRef::Max)), 1e-10);
    let gap = above(&mat, &grid_of(&[vec![1.0, 2.0, 3.0]]));
    assert_eq!(back(gap.as_slice()), vec![99.0, 8.0, -2.0]);
}

#[test]
fn dct_of_a_constant_column_puts_everything_in_the_first_coefficient() {
    let mat = grid_of(&[vec![2.0], vec![2.0], vec![2.0], vec![2.0]]);
    let out = cepstrum(&mat, 4);
    assert!((v(out.get(0, 0)) - 4.0).abs() < 1e-12);
    for k in 1..4 {
        assert!(v(out.get(k, 0)).abs() < 1e-12);
    }
}

#[test]
fn hann_is_periodic_so_the_last_sample_is_not_zero() {
    let w = back(&hann(8));
    assert!((w[0]).abs() < 1e-15);
    assert!(w[7] > 0.1, "a symmetric window would end at exactly 0");
    assert!((w[4] - 1.0).abs() < 1e-15);
}

#[test]
fn the_hann_window_is_zero_at_the_edges_and_one_in_the_middle() {
    let window = back(&hann(64));
    assert!(window[0].abs() < 1e-12);
    assert!((window[32] - 1.0).abs() < 1e-12);
}

#[test]
fn a_window_off_the_signal_meets_silence() {
    let signal = all(&[1.0, 2.0, 3.0]);
    let window = all(&[10.0, 10.0, 10.0, 10.0]);
    assert_eq!(back(&windowed(&signal, &window, 0, 2)), vec![0.0, 0.0, 10.0, 20.0]);
    assert_eq!(back(&windowed(&signal, &window, 4, 2)), vec![30.0, 0.0, 0.0, 0.0]);
    assert_eq!(back(&windowed(&signal, &window, 0, 0)), vec![10.0, 20.0, 30.0, 0.0]);
}

#[test]
fn a_pure_tone_peaks_in_its_own_bin() {
    let sr = 22050.0;
    let freq = 22050.0 / 2048.0 * 100.0;
    let signal: Vec<f32> = (0..22050).map(|i| (2.0 * PI * freq * i as f64 / sr).sin() as f32).collect();
    let mag = stft_magnitude(&singles(&signal), 2048, 512);
    let middle = mag.cols() / 2;
    let peak =
        (0..mag.rows()).max_by(|a, b| v(mag.get(*a, middle)).total_cmp(&v(mag.get(*b, middle)))).unwrap();
    assert_eq!(peak, 100);
}

#[test]
fn columns_are_scaled_by_either_length() {
    let mat = grid_of(&[vec![3.0, 0.0], vec![-4.0, 0.0]]);
    assert_eq!(back(normalize_columns(&mat, Norm::Root).as_slice()), vec![0.6, 0.0, -0.8, 0.0]);
    let by_sum = back(normalize_columns(&mat, Norm::Sum).as_slice());
    assert_eq!(by_sum, vec![3.0 / 7.0, 0.0, -4.0 / 7.0, 0.0]);
}

#[test]
fn the_contrast_has_as_many_bands_as_fit() {
    let count = |sr: f64| contrast_bands(f(v(contrast_reach(f(sr))).log2()));
    assert_eq!(count(22_050.0), 4);
    assert_eq!(count(44_100.0), 5);
    assert_eq!(count(192_000.0), 6);
    assert_eq!(count(500.0), 1);
}

#[test]
fn energies_are_means_over_their_bins() {
    let power = grid_of(&[vec![1.0], vec![2.0], vec![4.0], vec![8.0], vec![16.0]]);
    let freqs = all(&[0.0, 100.0, 200.0, 5_000.0, 6_000.0]);
    assert_eq!(back(&band_energy(&power, &freqs, f(100.0), f(5_000.0))), vec![3.0]);
    assert_eq!(back(&band_energy(&power, &freqs, f(300.0), f(400.0))), vec![0.0]);
    let balance = band_balance(&power, &freqs);
    assert_eq!(balance.iter().map(|row| v(row[0])).collect::<Vec<f64>>(), vec![2.0, 4.0, 0.0, 12.0]);
    assert_eq!(back(&bright_energy(&power, &freqs, f(22_050.0))), vec![12.0]);
    assert_eq!(back(&frame_energy(&power)), vec![31.0 / 5.0]);
    // Bins at 100 and 200 Hz: the peak is 4, the mean 3.
    assert_eq!(back(&pitch_salience(&power, &freqs)), vec![4.0 / 3.0]);
}

#[test]
fn the_level_of_a_signal_is_measured_about_each_frame() {
    let signal = all(&[3.0, 3.0, 3.0, 3.0]);
    // Frames of four are centred on samples 0, 2 and 4.
    let levels = back(&rms_from_signal(&signal, 4, 2));
    assert_eq!(levels, vec![(18.0f64 / 4.0).sqrt(), 3.0, (18.0f64 / 4.0).sqrt()]);
}

#[test]
fn flat_spectra_have_a_flatness_of_one() {
    let power = grid_of(&[vec![2.0, 1.0], vec![2.0, 0.0]]);
    let flatness = back(&spectral_flatness(&power, &geometric_means(&power)));
    assert!((flatness[0] - 1.0).abs() < 1e-12);
    assert!((flatness[1] - 1e-5 / 0.5).abs() < 1e-9);
}

#[test]
fn every_cell_goes_through_the_function() {
    let mut mat = grid_of(&[vec![1.0, 2.0], vec![3.0, 4.0]]);
    let doubled = mat.map(|x| x.plus(x));
    assert_eq!(back(doubled.as_slice()), vec![2.0, 4.0, 6.0, 8.0]);
    mat.row_mut(1)[0] = f(9.0);
    mat.as_mut_slice()[0] = f(7.0);
    assert_eq!(back(mat.as_slice()), vec![7.0, 2.0, 9.0, 4.0]);
}

#[test]
fn sparse_weights_leave_out_nothing_but_nothing() {
    let weights = vec![all(&[0.0, 2.0])];
    let power = grid_of(&[vec![f64::INFINITY], vec![3.0]]);
    assert_eq!(back(project(&weights, &power, true).as_slice()), vec![6.0]);
    assert!(v(project(&weights, &power, false).get(0, 0)).is_nan());
}

#[test]
fn a_single_channel_has_no_width() {
    let times = all(&[0.0, 0.5, 1.0, 1.5]);
    let edges = all(&[0.0, 1.0, 2.0]);
    let levels = vec![all(&[1.0, 3.0, 0.0, 0.0])];
    let rows = beat_levels(&levels, &all(&[2.0, 2.0, 0.0, 0.0]), &times, &edges);
    assert_eq!(back(&rows[0]), vec![2.0, 1e-10]);
    assert_eq!(back(&rows[1]), vec![1e-10 / 2.0, 1.0]);
}

#[test]
fn a_beat_without_a_frame_takes_the_nearest_one() {
    let values: Vec<Binary64> = [10.0, 20.0, 30.0].iter().map(|x| f(*x)).collect();
    let times: Vec<Binary64> = [0.0, 1.0, 2.0].iter().map(|x| f(*x)).collect();
    for (from, to, expected) in [(0.3, 0.5, 10.0), (0.6, 0.8, 20.0), (0.4, 0.6, 20.0), (2.5, 2.75, 30.0)] {
        let synced = sync_scalar(&values, &times, &[f(from), f(to)], Reducer::Mean);
        assert_eq!(synced.iter().map(|x| v(*x)).collect::<Vec<_>>(), vec![expected], "{from} to {to}");
    }
}
