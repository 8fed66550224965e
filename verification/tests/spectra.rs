//! Descriptors of spectrograms, and how they are brought to the beats.

use mixlyzer::detect::contrast::{contrast_levels, rint};
use mixlyzer::detect::error::PhraseError;
use mixlyzer::detect::matrix::Mat;
use mixlyzer::detect::phrases::{vocal_exponents, AcousticFeatures};
use mixlyzer::detect::scaling::{feature_z, make_readable, robust_z};
use mixlyzer::detect::spectrum::{
    bins_in_band, fft_frequencies, frames_to_time, hpss, n_frames, onset_strength, reflect_index, rms_from_spectrum,
    spectral_bandwidth, spectral_centroid, spectral_rolloff,
};
use mixlyzer::detect::sync::{
    check_audio, clamp_edges, search_sorted, subdivision_profiles, sync_scalar, Reducer, BEAT_SUBDIVISIONS,
};
use mixlyzer::detect::tuning::{pitch_peaks, pitch_tuning, tuning_voters};
use mixlyzer::number::binary64::Binary64;

fn f(x: f64) -> Binary64 {
    Binary64::from_bits(x.to_bits())
}

fn v(b: Binary64) -> f64 {
    f64::from_bits(b.to_bits())
}

fn all(values: &[f64]) -> Vec<Binary64> {
    values.iter().map(|x| f(*x)).collect()
}

fn back(values: &[Binary64]) -> Vec<f64> {
    values.iter().map(|x| v(*x)).collect()
}

#[test]
fn reflect_repeats_the_edge_sample_like_scipy() {
    assert_eq!(reflect_index(-1, 4), 0);
    assert_eq!(reflect_index(-2, 4), 1);
    assert_eq!(reflect_index(4, 4), 3);
    assert_eq!(reflect_index(5, 4), 2);
    assert_eq!(reflect_index(2, 4), 2);
}

#[test]
fn the_two_masks_sum_to_the_original_magnitude() {
    let mut mat = Mat::zeros(40, 40);
    for r in 0..40 {
        for c in 0..40 {
            mat.set(r, c, f(((r * 7 + c * 3) % 11) as f64));
        }
    }
    let (h, p) = hpss(&mat);
    for i in 0..mat.as_slice().len() {
        let sum = v(h.as_slice()[i]) + v(p.as_slice()[i]);
        assert!((sum - v(mat.as_slice()[i])).abs() < 1e-9);
    }
}

#[test]
fn a_steady_tone_lands_almost_entirely_in_the_harmonic_part() {
    let mut mat = Mat::zeros(64, 64);
    for c in 0..64 {
        mat.set(20, c, f(1.0));
    }
    let (h, p) = hpss(&mat);
    assert!(v(h.get(20, 32)) > 0.9, "got {}", v(h.get(20, 32)));
    assert!(v(p.get(20, 32)) < 0.1);
}

#[test]
fn the_first_three_frames_are_always_zero() {
    let mut mel = Mat::zeros(4, 10);
    for band in 0..4 {
        for frame in 0..10 {
            mel.set(band, frame, f(frame as f64));
        }
    }
    let onset = onset_strength(&mel);
    assert_eq!(back(&onset[..3]), vec![0.0, 0.0, 0.0]);
    assert!((v(onset[3]) - 1.0).abs() < 1e-12);
}

#[test]
fn a_falling_spectrum_produces_no_onset() {
    let mut mel = Mat::zeros(4, 8);
    for band in 0..4 {
        for frame in 0..8 {
            mel.set(band, frame, f(-(frame as f64)));
        }
    }
    assert!(onset_strength(&mel).iter().all(|x| v(*x) == 0.0));
}

fn single_bin(bin: usize, value: f64) -> Mat {
    let mut mat = Mat::zeros(1025, 1);
    mat.set(bin, 0, f(value));
    mat
}

#[test]
fn centroid_of_a_single_bin_is_that_bin_frequency() {
    let freqs = fft_frequencies(f(22_050.0), 2048);
    let centroid = spectral_centroid(&single_bin(100, 3.0), f(22_050.0), 2048);
    assert!((v(centroid[0]) - v(freqs[100])).abs() < 1e-9);
}

#[test]
fn bandwidth_of_a_single_bin_is_zero() {
    let bandwidth = spectral_bandwidth(&single_bin(100, 3.0), f(22_050.0), 2048);
    assert!(v(bandwidth[0]).abs() < 1e-9);
}

#[test]
fn rolloff_returns_the_first_bin_reaching_the_energy_share() {
    let mut mat = Mat::zeros(1025, 1);
    for r in 0..10 {
        mat.set(r, 0, f(1.0));
    }
    let freqs = fft_frequencies(f(22_050.0), 2048);
    let rolloff = spectral_rolloff(&mat, f(22_050.0), 2048, f(0.85));
    assert!((v(rolloff[0]) - v(freqs[8])).abs() < 1e-9, "85% of 10 units lands in bin 8");
}

#[test]
fn an_empty_frame_does_not_divide_by_zero() {
    let mat = Mat::zeros(1025, 1);
    assert_eq!(v(spectral_centroid(&mat, f(22_050.0), 2048)[0]), 0.0);
    assert_eq!(v(spectral_bandwidth(&mat, f(22_050.0), 2048)[0]), 0.0);
}

#[test]
fn frame_count_matches_librosa_centring() {
    assert_eq!(n_frames(22050, 512), 1 + 22050 / 512);
    assert_eq!(n_frames(0, 512), 1);
}

#[test]
fn a_beat_grid_running_past_the_audio_is_rejected() {
    let beats: Vec<f64> = (0..120).map(|i| i as f64 * 0.5).collect();
    assert!(matches!(
        check_audio(5 * 22_050, 22_050, &all(&beats)),
        Err(PhraseError::GridPastAudio { .. })
    ));
}

#[test]
fn empty_audio_is_rejected() {
    let beats: Vec<f64> = (0..24).map(|i| i as f64 * 0.5).collect();
    assert!(matches!(check_audio(0, 22_050, &all(&beats)), Err(PhraseError::EmptyAudio)));
    assert_eq!(v(check_audio(22_050 * 12, 22_050, &all(&beats)).unwrap()), 12.0);
}

#[test]
fn the_subdivision_profile_of_each_beat_sums_to_one() {
    let frame_times: Vec<f64> = (0..100).map(|i| i as f64 * 0.01).collect();
    let envelope: Vec<f64> = (0..100).map(|i| (i % 7) as f64).collect();
    let edges = vec![0.0, 0.25, 0.5, 0.75];
    let profiles = subdivision_profiles(&vec![all(&envelope)], &all(&frame_times), &all(&edges));
    for beat in 0..3 {
        let total: f64 = (0..BEAT_SUBDIVISIONS).map(|s| v(profiles.get(s, beat))).sum();
        assert!((total - 1.0).abs() < 1e-6, "beat {beat} summed to {total}");
    }
}

#[test]
fn robust_z_falls_back_when_the_median_deviation_is_zero() {
    let z = robust_z(&all(&[5.0, 5.0, 5.0, 5.0]));
    assert!(z.iter().all(|x| v(*x).abs() < 1e-12));
    let z = robust_z(&all(&[5.0, 5.0, 5.0, 9.0]));
    assert!(z.iter().all(|x| v(*x).is_finite()));
}

#[test]
fn vstack_concatenates_rows_and_keeps_columns() {
    let a = Mat::from_rows(vec![all(&[1.0, 2.0])]);
    let b = Mat::from_rows(vec![all(&[3.0, 4.0]), all(&[5.0, 6.0])]);
    let stacked = Mat::vstack(&vec![a, b]);
    assert_eq!((stacked.rows(), stacked.cols()), (3, 2));
    assert_eq!(back(stacked.row(2)), vec![5.0, 6.0]);
}

#[test]
fn the_four_families_stack_in_their_order() {
    let one = |x: f64| Mat::from_rows(vec![all(&[x, x + 0.5])]);
    let features = AcousticFeatures {
        timbre: one(1.0),
        harmony: one(2.0),
        rhythm: one(3.0),
        texture: one(4.0),
        audio_duration_sec: f(1.0),
    };
    let stacked = features.stacked();
    assert_eq!(back(stacked.as_slice()), vec![1.0, 1.5, 2.0, 2.5, 3.0, 3.5, 4.0, 4.5]);
}

#[test]
fn halves_round_to_the_even_neighbour() {
    for (value, expected) in [(0.5, 0.0), (1.5, 2.0), (2.5, 2.0), (3.5, 4.0), (2.4, 2.0), (2.6, 3.0), (0.0, 0.0)] {
        assert_eq!(v(rint(f(value))), expected, "{value}");
    }
}

#[test]
fn contrast_separates_the_peaks_of_a_band_from_its_valleys() {
    let sr = 22_050.0;
    let n_fft = 512;
    let freqs = fft_frequencies(f(sr), n_fft);
    let mut magnitude = Mat::zeros(257, 1);
    for r in 0..257 {
        magnitude.set(r, 0, f(1.0));
    }
    magnitude.set(12, 0, f(9.0));
    let (peaks, valleys) = contrast_levels(&magnitude, &freqs, 4);
    assert_eq!((peaks.rows(), peaks.cols()), (5, 1));
    let band = (0..5).filter(|k| v(peaks.get(*k, 0)) > v(valleys.get(*k, 0))).collect::<Vec<usize>>();
    assert_eq!(band, vec![2], "bin 12 is at {} Hz", v(freqs[12]));
    assert_eq!(v(peaks.get(2, 0)), 9.0);
    assert_eq!(v(valleys.get(2, 0)), 1.0);
}

#[test]
fn a_peak_between_bins_is_found_and_votes() {
    let sr = 22_050.0;
    let n_fft = 2048;
    let freqs = fft_frequencies(f(sr), n_fft);
    let mut power = Mat::zeros(1025, 2);
    for frame in 0..2 {
        power.set(40, frame, f(0.5));
        power.set(41, frame, f(1.0));
        power.set(42, frame, f(0.5));
    }
    let peaks = pitch_peaks(&power, &freqs, f(sr), n_fft);
    assert_eq!(peaks.len(), 2);
    assert_eq!(v(peaks[0].pitch), 41.0 * sr / n_fft as f64);
    assert_eq!(v(peaks[0].height), 1.0);
    assert_eq!(tuning_voters(&peaks).len(), 2);
}

#[test]
fn a_concert_pitch_reports_no_detuning() {
    let semitones: Vec<f64> = vec![48.0, 60.0, 52.0, 60.2];
    assert_eq!(v(pitch_tuning(&all(&semitones))), 0.0);
    assert!((v(pitch_tuning(&all(&[48.215, 60.215, 12.0]))) - 0.21).abs() < 1e-12);
    assert_eq!(v(pitch_tuning(&[])), 0.0);
}

#[test]
fn frames_start_a_hop_apart() {
    assert_eq!(back(&frames_to_time(3, f(100.0), 25)), vec![0.0, 0.25, 0.5]);
    let freqs = fft_frequencies(f(100.0), 8);
    assert_eq!(back(&freqs), vec![0.0, 12.5, 25.0, 37.5, 50.0]);
    assert_eq!(bins_in_band(&freqs, f(12.5), f(37.5), 5), vec![1, 2]);
}

#[test]
fn the_level_of_a_spectrum_counts_the_ends_once() {
    let magnitude = Mat::from_rows(vec![all(&[4.0]), all(&[2.0]), all(&[4.0])]);
    let expected = (2.0 * (8.0 + 4.0 + 8.0) / 16.0f64).sqrt();
    assert_eq!(back(&rms_from_spectrum(&magnitude, 4)), vec![expected]);
}

#[test]
fn beats_without_frames_take_the_nearest() {
    let times = all(&[0.0, 1.0, 2.0]);
    let values = all(&[5.0, 7.0, 9.0]);
    let edges = all(&[0.0, 0.1, 0.2, 3.0]);
    assert_eq!(back(&sync_scalar(&values, &times, &edges, Reducer::Mean)), vec![5.0, 5.0, 8.0]);
    assert_eq!(back(&sync_scalar(&values, &times, &edges, Reducer::Sum)), vec![5.0, 5.0, 16.0]);
    assert_eq!(search_sorted(&times, f(1.0)), 1);
    assert_eq!(search_sorted(&times, f(9.0)), 3);
}

#[test]
fn edges_do_not_run_past_the_audio() {
    let edges = clamp_edges(&all(&[0.0, 1.0, 2.5]), &all(&[0.0, 1.0]), f(2.0));
    assert_eq!(back(&edges), vec![0.0, 1.0, 2.0]);
}

#[test]
fn unreadable_numbers_are_replaced() {
    let out = back(&make_readable(&all(&[1.5, f64::NAN, f64::INFINITY, f64::NEG_INFINITY])));
    assert_eq!(out, vec![1.5, 0.0, f64::MAX, f64::MIN]);
}

#[test]
fn features_are_centred_on_the_beats() {
    let z = feature_z(&Mat::from_rows(vec![all(&[1.0, 2.0, 3.0, 4.0, 5.0])]));
    assert_eq!((z.rows(), z.cols()), (5, 1));
    assert!(v(z.get(2, 0)).abs() < 1e-12);
    assert!(v(z.get(4, 0)) > 0.0);
}

#[test]
fn the_vocal_proxy_weighs_its_five_parts() {
    let unit = all(&[1.0]);
    let got = v(vocal_exponents(&unit, &unit, &unit, &unit, &unit)[0]);
    assert_eq!(got, 0.85 + 0.70 + 0.45 - 0.35 - 0.20);
}
