//! Repeats within a track, and the cues to jump between them.

use mixlyzer::analyze::features::{
    beat_levels, frame_hop, frame_length, stack_beats, BeatMatrix, Framing, JumpCueOptions,
};
use mixlyzer::analyze::links::{graph_from_links, Region, SimilarLink};
use mixlyzer::analyze::onset::{band_energies, triangular_filters, window_count};
use mixlyzer::analyze::repeats::{find_links, softmax_confidence, softmax_exponents, weigh_links};
use mixlyzer::analyze::similarity::{lag_profile, normalized, prominence, self_similarity, smoothing_exponents, Ssm};
use mixlyzer::domain::jumpcue::JumpCueGraph;
use mixlyzer::number::binary64::Binary64;
use rustfft::num_complex::Complex;
use rustfft::FftPlanner;
use std::f64::consts::PI;

fn f(x: f64) -> Binary64 {
    Binary64::from_bits(x.to_bits())
}

fn v(b: Binary64) -> f64 {
    f64::from_bits(b.to_bits())
}

fn all(values: &[f64]) -> Vec<Binary64> {
    values.iter().map(|x| f(*x)).collect()
}

fn back(values: &[Binary64]) -> Vec<f64> {
    values.iter().map(|x| v(*x)).collect()
}

fn frames(signal: &[f32], n_fft: usize, hop: usize, count: usize, measure: fn(&Complex<f64>) -> f64) -> Vec<Vec<f64>> {
    let window: Vec<f64> =
        (0..n_fft).map(|i| 0.5 - 0.5 * (2.0 * PI * i as f64 / n_fft as f64).cos()).collect();
    let fft = FftPlanner::<f64>::new().plan_fft_forward(n_fft);
    let mut scratch = vec![Complex::new(0.0, 0.0); n_fft];
    (0..count)
        .map(|frame| {
            let start = frame * hop;
            for (i, slot) in scratch.iter_mut().enumerate() {
                *slot = Complex::new(f64::from(signal[start + i]) * window[i], 0.0);
            }
            fft.process(&mut scratch);
            scratch[..n_fft / 2 + 1].iter().map(measure).collect()
        })
        .collect()
}

fn band_edges(n_mels: usize, sample_rate: f64, fmin: f64, fmax: f64) -> Vec<f64> {
    let fmin = fmin.max(0.0);
    let fmax = fmax.min(sample_rate * 0.5).max(fmin + 1.0);
    let low = 2595.0 * (1.0 + fmin / 700.0).log10();
    let high = 2595.0 * (1.0 + fmax / 700.0).log10();
    (0..n_mels + 2)
        .map(|i| {
            let mel = low + (high - low) * i as f64 / (n_mels + 1) as f64;
            700.0 * (10f64.powf(mel / 2595.0) - 1.0)
        })
        .collect()
}

fn mel_powers(samples: &[f32], rate: u32, n_fft: usize, hop: usize, n_mels: usize, fmin: f64, fmax: f64) -> Vec<Vec<Binary64>> {
    let edges = all(&band_edges(n_mels, f64::from(rate), fmin, fmax));
    let filters = triangular_filters(&edges, n_fft, f(f64::from(rate)));
    let count = window_count(samples.len(), n_fft, hop, rate);
    frames(samples, n_fft, hop, count, |bin| bin.norm_sqr())
        .iter()
        .map(|power| band_energies(&filters, &all(power)))
        .collect()
}

fn beat_matrix(samples: &[f32], rate: u32, beats: &[f64], options: &JumpCueOptions) -> Option<BeatMatrix> {
    if rate == 0 || beats.len() < 2 || samples.is_empty() {
        return None;
    }
    let beats = all(beats);
    let n_fft = frame_length(&beats, rate);
    let framing = Framing { sample_rate: rate, n_fft, hop: frame_hop(n_fft) };
    let n_mels = options.bands();
    let fmax = v(options.highest_edge(rate));
    let powers = mel_powers(samples, rate, n_fft, framing.hop, n_mels, v(options.mel_fmin), fmax);
    let levels = beat_levels(framing, &powers, &beats, n_mels)?;
    let compressed =
        levels.iter().map(|row| row.iter().map(|x| f(v(*x).max(0.0).ln_1p())).collect()).collect();
    Some(stack_beats(&compressed, &beats, options))
}

fn gaussian_kernel(sigma: f64) -> Vec<Binary64> {
    let weights: Vec<f64> = back(&smoothing_exponents(f(sigma))).iter().map(|x| x.exp()).collect();
    normalized(&all(&weights))
}

fn similarity_of(matrix: &BeatMatrix, options: &JumpCueOptions) -> Ssm {
    self_similarity(matrix, &gaussian_kernel(v(options.smooth_sigma)), options.diag_band)
}

fn softmax(scores: &[f64], temperature: f64) -> Vec<f64> {
    let weights: Vec<f64> = back(&softmax_exponents(&all(scores), f(temperature))).iter().map(|x| x.exp()).collect();
    back(&softmax_confidence(&all(&weights)))
}

fn links_of(samples: &[f32], rate: u32, beats: &[f64], options: JumpCueOptions) -> Vec<SimilarLink> {
    let Some(matrix) = beat_matrix(samples, rate, beats, &options) else {
        return Vec::new();
    };
    let links = find_links(&matrix, &gaussian_kernel(v(options.smooth_sigma)), &options);
    let scores: Vec<Binary64> = links.iter().map(|link| link.score).collect();
    let weights: Vec<f64> =
        back(&softmax_exponents(&scores, options.score_temperature)).iter().map(|x| x.exp()).collect();
    weigh_links(&links, &all(&weights))
}

fn graph_of(samples: &[f32], beats: &[f64]) -> JumpCueGraph {
    graph_from_links(&links_of(samples, RATE, beats, JumpCueOptions::default()))
}

const RATE: u32 = 8_000;
const BEAT_SEC: f64 = 0.5;

fn pitch(index: usize) -> f64 {
    // Hashed rather than cyclic: a sequence that repeated every so many
    // beats would put repeats in the material the test says has none.
    let mixed = (index as u64).wrapping_mul(2_654_435_761) ^ 0x9E37_79B9;
    110.0 * 2f64.powf((mixed >> 11) as f64 % 36.0 / 12.0)
}

fn track(pitches: &[f64], beat_sec: f64, rate: u32) -> (Vec<f32>, Vec<f64>) {
    let period = (beat_sec * f64::from(rate)) as usize;
    let mut samples = vec![0.0f32; pitches.len() * period];
    for (beat, hz) in pitches.iter().enumerate() {
        for offset in 0..period {
            let t = offset as f64 / f64::from(rate);
            let decay = (-6.0 * t / beat_sec).exp();
            let tone = (2.0 * std::f64::consts::PI * hz * t).sin() * decay;
            // A short broadband click gives the beat a drum-like transient.
            let click = if offset < 24 {
                1.0 - offset as f64 / 24.0
            } else {
                0.0
            };
            samples[beat * period + offset] = (0.7 * tone + 0.5 * click) as f32;
        }
    }
    let beats = (0..=pitches.len()).map(|i| i as f64 * beat_sec).collect();
    (samples, beats)
}

fn a_b_a() -> (Vec<f32>, Vec<f64>) {
    let section_a: Vec<f64> = (0..32).map(pitch).collect();
    let section_b: Vec<f64> = (0..32).map(|i| pitch(i + 5) * 2.0).collect();
    let pitches: Vec<f64> = section_a
        .iter()
        .chain(&section_b)
        .chain(&section_a)
        .copied()
        .collect();
    track(&pitches, BEAT_SEC, RATE)
}

fn region(start: f64, end: f64) -> Region {
    Region { start: f(start), end: f(end), point: f(start) }
}

fn link(earlier: Region, later: Region, score: f64) -> SimilarLink {
    SimilarLink {
        earlier,
        later,
        lag_beats: f(0.0),
        lag_sec: later.point.minus(earlier.point),
        score: f(score),
        confidence: f(0.0),
    }
}

#[test]
fn a_section_that_returns_is_found_at_both_its_positions() {
    let (samples, beats) = a_b_a();
    let links = links_of(&samples, RATE, &beats, JumpCueOptions::default());
    assert_eq!(links.len(), 1, "expected the one A-to-A repeat: {links:#?}");

    let found = &links[0];
    // A runs 0-16s and again 32-48s.
    assert!(
        (v(found.earlier.start) - 0.0).abs() < 2.0 && (v(found.earlier.end) - 16.0).abs() < 2.0,
        "earlier region {:?} is not the first A",
        found.earlier
    );
    assert!(
        (v(found.later.start) - 32.0).abs() < 2.0 && (v(found.later.end) - 48.0).abs() < 2.0,
        "later region {:?} is not the returning A",
        found.later
    );
    assert!((v(found.lag_sec) - 32.0).abs() < 2.0, "lag {}s", v(found.lag_sec));
    assert!(
        (v(found.lag_beats) - 64.0).abs() < 4.0,
        "lag {} beats",
        v(found.lag_beats)
    );
    assert!(
        v(found.score) > 0.8,
        "a literal repeat should score high, got {}",
        v(found.score)
    );
}

#[test]
fn the_jump_point_lies_inside_its_own_region() {
    let (samples, beats) = a_b_a();
    let graph = graph_of(&samples, &beats);
    assert!(!graph.is_empty());
    for cue in graph.cues() {
        assert!(
            v(cue.point) >= v(cue.start) && v(cue.point) <= v(cue.end),
            "jump point {} is outside [{}, {}]",
            v(cue.point),
            v(cue.start),
            v(cue.end)
        );
    }
}

#[test]
fn the_two_ends_of_a_repeat_share_one_component() {
    let (samples, beats) = a_b_a();
    let graph = graph_of(&samples, &beats);
    assert_eq!(graph.cues().len(), 2);
    assert_eq!(graph.components().len(), 1, "both ends must be reachable");
    assert!(!graph.links().is_empty());
}

#[test]
fn labels_are_unique_single_letters() {
    let (samples, beats) = a_b_a();
    let graph = graph_of(&samples, &beats);
    assert!(graph.validate_labels().is_ok());
    let labels: Vec<&str> = graph.cues().iter().map(|c| c.label.as_str()).collect();
    assert_eq!(labels, vec!["A", "B"], "labels run in track order");
}

#[test]
fn a_track_with_no_repeats_yields_an_empty_graph() {
    // A rising sequence: every beat differs from every other.
    let pitches: Vec<f64> = (0..96)
        .map(|i| 110.0 * 2f64.powf(i as f64 / 32.0))
        .collect();
    let (samples, beats) = track(&pitches, BEAT_SEC, RATE);
    let graph = graph_of(&samples, &beats);
    assert!(
        graph.is_empty(),
        "found cues in a track with no repeats: {graph:#?}"
    );
}

#[test]
fn silence_yields_an_empty_graph_rather_than_an_error() {
    let samples = vec![0.0f32; RATE as usize * 48];
    let beats: Vec<f64> = (0..96).map(|i| i as f64 * BEAT_SEC).collect();
    let graph = graph_of(&samples, &beats);
    assert!(graph.is_empty());
}

#[test]
fn a_track_with_no_beats_yields_an_empty_graph() {
    let (samples, _) = a_b_a();
    for beats in [vec![], vec![0.0]] {
        let graph = graph_of(&samples, &beats);
        assert!(graph.is_empty());
    }
}

#[test]
fn a_track_shorter_than_one_analysis_window_yields_an_empty_graph() {
    let (samples, beats) = track(&[220.0, 330.0], BEAT_SEC, RATE);
    let graph = graph_of(&samples[..100], &beats);
    assert!(graph.is_empty());
}

#[test]
fn cues_land_on_the_repeat_even_when_the_matrix_is_decimated() {
    // Over four thousand beats, so the feature matrix has to be decimated.
    // Indexing it with full-resolution beat numbers would put every cue at a
    // fraction of its true position.
    const LONG_RATE: u32 = 2_000;
    const LONG_BEAT: f64 = 0.2;
    let half: Vec<f64> = (0..2_100).map(pitch).collect();
    let pitches: Vec<f64> = half.iter().chain(&half).copied().collect();
    assert!(pitches.len() > 4_000, "the regression needs a long track");
    let (samples, beats) = track(&pitches, LONG_BEAT, LONG_RATE);

    let options = JumpCueOptions {
        // Smaller than the default only to keep the test quick; decimation
        // is what is under test, and a lower cap decimates harder.
        n_mels: 8,
        max_cols: 700,
        ..JumpCueOptions::default()
    };
    let links = links_of(&samples, LONG_RATE, &beats, options);
    assert_eq!(
        links.len(),
        1,
        "expected the one half-track repeat: {links:#?}"
    );

    let found = &links[0];
    let half_sec = 2_100.0 * LONG_BEAT;
    assert!(
        v(found.earlier.start) < 5.0 && (v(found.earlier.end) - half_sec).abs() < 5.0,
        "earlier region {:?} should be the first half (0-{half_sec}s)",
        found.earlier
    );
    assert!(
        (v(found.later.start) - half_sec).abs() < 5.0
            && (v(found.later.end) - 2.0 * half_sec).abs() < 5.0,
        "later region {:?} should be the second half",
        found.later
    );
    assert!(
        (v(found.lag_sec) - half_sec).abs() < 2.0,
        "lag {}s should be half the track",
        v(found.lag_sec)
    );
    assert!(
        (v(found.lag_beats) - 2_100.0).abs() < 10.0,
        "lag {} should be 2100 beats",
        v(found.lag_beats)
    );
}

#[test]
fn a_decimated_column_reports_the_time_of_its_own_beat() {
    let beats: Vec<f64> = (0..40).map(|i| i as f64 * 0.5).collect();
    let matrix = BeatMatrix {
        columns: vec![all(&[1.0]); 8],
        step: 5,
        span: 4,
        beats: all(&beats),
        avg_beat_sec: f(0.5),
    };
    // Column 3 starts at beat 15, not at beat 3.
    assert_eq!(matrix.first_beat(3), 15);
    assert_eq!(v(matrix.start_time(3)), beats[15]);
    assert_eq!(v(matrix.end_time(3)), beats[19]);
    // Past the last beat, times extrapolate at the final spacing.
    assert!((v(matrix.beat_time(41)) - 20.5).abs() < 1e-9);
}

#[test]
fn a_column_spans_the_beats_it_stacks() {
    let (samples, beats) = a_b_a();
    let matrix = beat_matrix(&samples, RATE, &beats, &JumpCueOptions::default()).unwrap();
    assert_eq!(matrix.step, 1, "a short track needs no decimation");
    assert_eq!(matrix.span, 4);
    assert_eq!(matrix.len(), beats.len() - 1 - 4 + 1);
    assert!((v(matrix.end_time(0)) - v(matrix.start_time(0)) - 4.0 * BEAT_SEC).abs() < 1e-9);
}

#[test]
fn features_are_normalised_so_similarity_is_a_dot_product() {
    let (samples, beats) = a_b_a();
    let matrix = beat_matrix(&samples, RATE, &beats, &JumpCueOptions::default()).unwrap();
    for column in 0..matrix.len() {
        assert!(
            (v(matrix.similarity(column, column)) - 1.0).abs() < 1e-9,
            "column {column} is not unit length"
        );
    }
}

#[test]
fn the_main_diagonal_band_is_suppressed() {
    let (samples, beats) = a_b_a();
    let options = JumpCueOptions::default();
    let matrix = beat_matrix(&samples, RATE, &beats, &options).unwrap();
    let ssm = similarity_of(&matrix, &options);
    for row in 0..ssm.size() {
        for column in
            row.saturating_sub(options.diag_band)..=(row + options.diag_band).min(ssm.size() - 1)
        {
            assert_eq!(v(ssm.get(row, column)), 0.0, "({row}, {column}) survived");
        }
    }
}

#[test]
fn the_lag_profile_peaks_at_the_repeat_distance() {
    let (samples, beats) = a_b_a();
    let options = JumpCueOptions::default();
    let matrix = beat_matrix(&samples, RATE, &beats, &options).unwrap();
    let ssm = similarity_of(&matrix, &options);
    let profile = back(&lag_profile(&ssm));
    let peak = profile
        .iter()
        .enumerate()
        .max_by(|a, b| a.1.partial_cmp(b.1).unwrap())
        .map(|(index, _)| index)
        .unwrap();
    assert!(
        peak.abs_diff(64) <= 2,
        "the profile peaks at lag {peak}, not at the 64-beat repeat"
    );
    assert!(profile.iter().all(|v| (0.0..=1.0).contains(v)));
}

#[test]
fn prominence_measures_height_above_the_flanking_valleys() {
    let profile = [0.0, 0.2, 1.0, 0.4, 0.9, 0.1];
    // The 1.0 peak drops to 0.0 on the left and, past the lower 0.9, to
    // 0.1 on the right; the shallower of the two descents is what counts.
    assert!((v(prominence(&all(&profile), 2)) - 0.9).abs() < 1e-12);
    // The 0.9 peak is flanked by 0.4 and 0.1.
    assert!((v(prominence(&all(&profile), 4)) - 0.5).abs() < 1e-12);
}

#[test]
fn the_smoothing_kernel_conserves_energy() {
    let kernel = back(&gaussian_kernel(1.0));
    assert!((kernel.iter().sum::<f64>() - 1.0).abs() < 1e-12);
    assert_eq!(kernel.len() % 2, 1, "a symmetric kernel needs a centre");
}

#[test]
fn confidence_is_computed_over_the_links_that_are_emitted() {
    // Five candidates, four kept: the confidences of the four must be a
    // distribution on their own. Normalised over all five and then cut, they
    // would sum to less than one.
    let scores = [0.9, 0.8, 0.7, 0.6];
    let confidences = softmax(&scores, 0.35);
    let total: f64 = confidences.iter().sum();
    assert!(
        (total - 1.0).abs() < 1e-12,
        "emitted confidences sum to {total}"
    );
    assert!(
        confidences[0] > confidences[3],
        "a better score must carry more confidence"
    );
}

#[test]
fn confidences_of_a_detected_track_sum_to_one() {
    let (samples, beats) = a_b_a();
    let links = links_of(&samples, RATE, &beats, JumpCueOptions::default());
    let total: f64 = links.iter().map(|l| v(l.confidence)).sum();
    assert!((total - 1.0).abs() < 1e-9, "confidences sum to {total}");
}

#[test]
fn softmax_of_no_links_is_empty() {
    assert!(softmax(&[], 0.35).is_empty());
}

#[test]
fn regions_that_mostly_overlap_are_the_same_region() {
    assert!(region(10.0, 20.0).is_same_as(&region(11.0, 21.0)));
    assert!(!region(10.0, 20.0).is_same_as(&region(18.0, 28.0)));
    assert!(!region(10.0, 20.0).is_same_as(&region(30.0, 40.0)));
}

#[test]
fn links_that_share_a_region_become_one_cue_in_one_component() {
    // A repeats at 0s, 30s and 60s: two links, three regions, one group.
    // Labelling the ends of each link separately would make the region at 0s
    // two cues, and two unrelated pairs of the group.
    let links = vec![
        link(region(0.0, 10.0), region(30.0, 40.0), 0.9),
        link(region(0.0, 10.0), region(60.0, 70.0), 0.8),
    ];
    let graph = graph_from_links(&links);
    assert_eq!(
        graph.cues().len(),
        3,
        "the shared region must not be duplicated"
    );
    assert_eq!(
        graph.components().len(),
        1,
        "all three are mutually reachable"
    );
    // Every pair is jumpable in both directions: 3 pairs, 6 links.
    assert_eq!(graph.links().len(), 6);
}

#[test]
fn unrelated_links_stay_in_separate_components() {
    let links = vec![
        link(region(0.0, 10.0), region(30.0, 40.0), 0.9),
        link(region(80.0, 90.0), region(120.0, 130.0), 0.8),
    ];
    let graph = graph_from_links(&links);
    assert_eq!(graph.cues().len(), 4);
    assert_eq!(graph.components().len(), 2);
    assert!(graph.validate_labels().is_ok());
}

#[test]
fn a_cue_says_which_cues_it_can_reach() {
    let links = vec![link(region(0.0, 10.0), region(30.0, 40.0), 0.9)];
    let graph = graph_from_links(&links);
    assert!(graph.by_label("A").unwrap().comment.contains('B'));
    assert!(graph.by_label("B").unwrap().comment.contains('A'));
}

#[test]
fn no_links_make_an_empty_graph() {
    let graph = graph_from_links(&vec![]);
    assert!(graph.is_empty());
    assert!(graph.links().is_empty());
}

#[test]
fn only_the_best_pairs_are_kept() {
    let (samples, beats) = a_b_a();
    let options = JumpCueOptions {
        max_pairs: 1,
        min_score: f(0.0),
        peak_prominence: f(0.0),
        ..JumpCueOptions::default()
    };
    let links = links_of(&samples, RATE, &beats, options);
    assert!(
        links.len() <= 1,
        "max_pairs was not honoured: {}",
        links.len()
    );
}

#[test]
fn a_region_shorter_than_the_minimum_is_dropped() {
    let (samples, beats) = a_b_a();
    let options = JumpCueOptions {
        min_duration_sec: f(60.0), // longer than the whole track
        ..JumpCueOptions::default()
    };
    assert!(links_of(&samples, RATE, &beats, options)
        .is_empty());
}

#[test]
fn the_columns_stay_within_their_cap() {
    for (beat_count, cap) in [(3000, 2000), (2003, 2000), (2004, 2000), (7, 3), (50, 0), (9, 100)] {
        let levels: Vec<Binary64> = (0..beat_count).map(|b| f(((b * 7) % 13) as f64)).collect();
        let beats: Vec<Binary64> = (0..=beat_count).map(|b| f(b as f64 * 0.5)).collect();
        let options = JumpCueOptions { max_cols: cap, ..JumpCueOptions::default() };
        let matrix = stack_beats(&vec![levels], &beats, &options);
        let full: usize = beat_count - 3;
        assert!(matrix.len() <= cap.max(1), "{} columns of at most {cap}", matrix.len());
        assert_eq!(matrix.step, full.div_ceil(cap.max(1)));
        assert_eq!(matrix.len(), full.div_ceil(matrix.step));
    }
}
