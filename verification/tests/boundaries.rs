//! Picking and refining phrase boundaries.

use mixlyzer::detect::boundary::{suppress_calls, valid_mask};
use mixlyzer::detect::model::ModelSettings;
use mixlyzer::detect::phrases::boundary_probability;
use mixlyzer::detect::refine::{floor_probability, length_prior, refine_boundaries};
use mixlyzer::number::binary64::Binary64;

fn f(x: f64) -> Binary64 {
    Binary64::from_bits(x.to_bits())
}

fn v(b: Binary64) -> f64 {
    f64::from_bits(b.to_bits())
}

fn all(values: &[f64]) -> Vec<Binary64> {
    values.iter().map(|x| f(*x)).collect()
}

fn prior(length: usize, targets: &[usize]) -> f64 {
    let logs: Vec<f64> = targets.iter().map(|t| (*t as f64).ln()).collect();
    v(length_prior(f((length.max(1) as f64).ln()), &all(&logs)))
}

fn refine(raw: &[usize], probability: &[f64], valid: &[bool], downbeats: &[bool], settings: &ModelSettings) -> Vec<usize> {
    let logs: Vec<Binary64> = probability.iter().map(|p| f(v(floor_probability(f(*p))).ln())).collect();
    let beats = raw[raw.len() - 1];
    let scores: Vec<Binary64> =
        (0..=beats).map(|length| f(prior(length, &settings.boundary_lengths_beats))).collect();
    refine_boundaries(raw, &logs, valid, downbeats, &scores, settings)
}

#[test]
fn the_edge_guard_blanks_both_ends_and_never_the_whole_track() {
    let valid = valid_mask(40, 8);
    assert!(!valid[7] && valid[8] && valid[31] && !valid[32]);
    // A guard wider than half the track would leave nothing; it is clamped.
    let valid = valid_mask(10, 40);
    assert_eq!(valid.iter().filter(|v| **v).count(), 0);
    assert_eq!(valid.len(), 10);
}

#[test]
fn the_length_prior_peaks_exactly_on_a_target_length() {
    let targets = [16, 32, 64, 128];
    assert!((prior(32, &targets)).abs() < 1e-12);
    assert!(prior(24, &targets) < 0.0);
    assert!(
        prior(32, &targets) > prior(40, &targets),
        "closer to a target must score higher"
    );
}

#[test]
fn the_length_prior_is_symmetric_in_log_space() {
    let targets = [32];
    let half = prior(16, &targets);
    let double = prior(64, &targets);
    assert!((half - double).abs() < 1e-12);
}

fn suppress(candidates: &[(usize, f64)], min_distance: usize, cap: Option<usize>) -> Vec<usize> {
    let mut hard = vec![false; 128];
    let mut probability = vec![0.0; 128];
    for (beat, p) in candidates {
        hard[*beat] = true;
        probability[*beat] = *p;
    }
    let bounds = suppress_calls(&hard, &all(&probability), min_distance, cap);
    bounds[1..bounds.len() - 1].to_vec()
}

#[test]
fn suppression_keeps_the_more_confident_of_two_close_candidates() {
    let selected = suppress(&[(20, 0.6), (28, 0.9), (60, 0.5)], 16, None);
    assert_eq!(selected, vec![28, 60]);
}

#[test]
fn suppression_stops_at_the_cap() {
    let selected = suppress(&[(20, 0.6), (60, 0.9), (100, 0.7)], 16, Some(2));
    assert_eq!(selected, vec![60, 100]);
}

fn refine_settings() -> ModelSettings {
    ModelSettings::default()
}

#[test]
fn refinement_pulls_a_boundary_onto_a_nearby_downbeat() {
    let n = 128;
    let mut probability = vec![0.01; n];
    // The model is most confident at beat 62, but 64 is a downbeat and
    // makes both phrases exactly 64 beats long.
    probability[62] = 0.9;
    probability[64] = 0.8;
    let valid = valid_mask(n, 8);
    let downbeats: Vec<bool> = (0..n).map(|b| b % 4 == 0).collect();
    let refined = refine(&[0, 62, n], &probability, &valid, &downbeats, &refine_settings());
    assert_eq!(refined, vec![0, 64, n]);
}

#[test]
fn refinement_leaves_a_confident_boundary_where_it_is() {
    let n = 128;
    let mut probability = vec![0.001; n];
    probability[64] = 0.99;
    let valid = valid_mask(n, 8);
    let downbeats: Vec<bool> = (0..n).map(|b| b % 4 == 0).collect();
    let refined = refine(&[0, 64, n], &probability, &valid, &downbeats, &refine_settings());
    assert_eq!(refined, vec![0, 64, n]);
}

#[test]
fn refinement_never_reorders_or_collapses_boundaries() {
    let n = 200;
    let probability = vec![0.5; n];
    let valid = valid_mask(n, 8);
    let downbeats: Vec<bool> = (0..n).map(|b| b % 4 == 0).collect();
    let refined = refine(
        &[0, 40, 44, 120, n],
        &probability,
        &valid,
        &downbeats,
        &refine_settings(),
    );
    assert!(refined.windows(2).all(|w| w[1] > w[0]), "got {refined:?}");
    assert_eq!(refined.len(), 5);
}

#[test]
fn refinement_with_no_interior_boundary_is_a_no_op() {
    let probability = vec![0.5; 64];
    let valid = valid_mask(64, 8);
    let downbeats = vec![false; 64];
    assert_eq!(
        refine(&[0, 64], &probability, &valid, &downbeats, &refine_settings()),
        vec![0, 64]
    );
}

#[test]
fn refinement_cannot_move_a_boundary_beyond_its_window() {
    let n = 128;
    let mut probability = vec![0.01; n];
    // Far more confident 36 beats away, but the window is only 8 wide.
    probability[100] = 0.99;
    let valid = valid_mask(n, 8);
    let downbeats = vec![false; n];
    let mut settings = refine_settings();
    settings.boundary_shift_penalty = f(0.0);
    settings.boundary_length_weight = f(0.0);
    let refined = refine(&[0, 64, n], &probability, &valid, &downbeats, &settings);
    assert!(
        (56..=72).contains(&refined[1]),
        "moved to {} from 64 with a window of 8",
        refined[1]
    );
}

#[test]
fn refinement_prefers_the_more_confident_beat_inside_the_window() {
    let n = 128;
    let mut probability = vec![0.01; n];
    probability[70] = 0.99;
    let valid = valid_mask(n, 8);
    let downbeats = vec![false; n];
    let mut settings = refine_settings();
    settings.boundary_length_weight = f(0.0);
    let refined = refine(&[0, 64, n], &probability, &valid, &downbeats, &settings);
    assert_eq!(refined[1], 70);
}

#[test]
fn a_run_of_calls_gives_its_most_confident_beat() {
    let selected = suppress(&[(40, 0.4), (41, 0.8), (42, 0.6)], 4, None);
    assert_eq!(selected, vec![41]);
}

#[test]
fn probabilities_are_zero_where_no_boundary_may_stand() {
    let p = all(&[0.5, 0.0, 1.0, 0.7, 0.9]);
    let valid = [true, true, true, false, true];
    let out: Vec<f64> = boundary_probability(&p, &valid).iter().map(|x| v(*x)).collect();
    assert_eq!(out, vec![0.0, 1e-6, 1.0 - 1e-6, 0.0, 0.0]);
}

#[test]
fn a_cap_of_zero_keeps_nothing() {
    assert_eq!(suppress(&[(20, 0.6), (60, 0.9)], 16, Some(0)), Vec::<usize>::new());
    assert_eq!(suppress(&[(20, 0.6), (60, 0.9)], 16, Some(1)), vec![60]);
}

/// The merit of a choice of two boundaries.
fn merit(way: [usize; 2], raw: [usize; 2], n: usize, probability: &[f64], settings: &ModelSettings) -> f64 {
    let own = |k: usize| {
        let shift = (way[k] as f64 - raw[k] as f64).abs();
        let bonus = v(settings.boundary_downbeat_bonus) * if way[k] % 4 == 0 { 1.0 } else { 0.0 };
        probability[way[k]].ln() - v(settings.boundary_shift_penalty) * shift + bonus
    };
    let span = |length: usize| v(settings.boundary_length_weight) * prior(length, &settings.boundary_lengths_beats);
    (own(1) + ((own(0) + span(way[0])) + span(way[1] - way[0]))) + span(n - way[1])
}

#[test]
fn no_other_boundaries_within_the_windows_score_higher() {
    let n = 96;
    let settings = refine_settings();
    let window = settings.boundary_refine_window_beats;
    let probability: Vec<f64> = (0..n).map(|b| 0.05 + ((b * 37) % 89) as f64 / 100.0).collect();
    let valid = valid_mask(n, 8);
    let downbeats: Vec<bool> = (0..n).map(|b| b % 4 == 0).collect();
    for raw in [[30, 62], [33, 40], [20, 70], [45, 47]] {
        let refined = refine(&[0, raw[0], raw[1], n], &probability, &valid, &downbeats, &settings);
        let taken = merit([refined[1], refined[2]], raw, n, &probability, &settings);
        for a in raw[0] - window..=raw[0] + window {
            for b in raw[1] - window..=raw[1] + window {
                if a < b && valid[a] && valid[b] {
                    assert!(merit([a, b], raw, n, &probability, &settings) <= taken, "{a} {b} against {refined:?}");
                }
            }
        }
    }
}

#[test]
fn a_boundary_past_the_end_moves_to_a_beat_in_reach() {
    let n = 32;
    let mut probability = vec![0.01; n];
    probability[27] = 0.99;
    let valid = vec![true; n];
    let downbeats = vec![false; n];
    let mut settings = refine_settings();
    settings.boundary_length_weight = f(0.0);
    settings.boundary_shift_penalty = f(0.0);
    assert_eq!(settings.boundary_refine_window_beats, 8);
    assert_eq!(refine(&[0, 32, n], &probability, &valid, &downbeats, &settings), vec![0, 27, n]);
    assert_eq!(refine(&[0, 35, n], &probability, &valid, &downbeats, &settings), vec![0, 27, n]);
    // Beat 27 is out of reach from here; of equal beats the first is taken.
    assert_eq!(refine(&[0, 36, n], &probability, &valid, &downbeats, &settings), vec![0, 28, n]);
    assert_eq!(refine(&[0, 39, n], &probability, &valid, &downbeats, &settings), vec![0, 31, n]);
}
