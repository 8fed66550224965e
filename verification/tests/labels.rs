//! Labelling segments.

use mixlyzer::detect::gbm::HistGradientBoosting;
use mixlyzer::detect::label::{
    decode_labels, floor_sigma, label_spreads, length_log_likelihood, length_terms, segment_length, LabelOptions,
};
use mixlyzer::detect::matrix::Mat;
use mixlyzer::detect::model::{ModelSettings, PhraseModel};
use mixlyzer::detect::npz::{NpyArray, Npz};
use mixlyzer::detect::phrases::floor_label_probability;
use mixlyzer::detect::segments::{segment_features, segment_span};
use mixlyzer::number::binary64::Binary64;

fn f(x: f64) -> Binary64 {
    Binary64::from_bits(x.to_bits())
}

fn v(b: Binary64) -> f64 {
    f64::from_bits(b.to_bits())
}

fn all(values: &[f64]) -> Vec<Binary64> {
    values.iter().map(|x| f(*x)).collect()
}

fn matrix(rows: Vec<Vec<f64>>) -> Mat {
    Mat::from_rows(rows.iter().map(|r| all(r)).collect())
}

fn likelihood(mu: f64, sigma: f64, length: usize) -> f64 {
    let spread = floor_sigma(Some(f(sigma)));
    let log_length = f((length.max(1) as f64).ln());
    v(length_log_likelihood(log_length, f(mu), spread, f(v(spread).ln())))
}

fn decode(model: &PhraseModel, scores: &Mat, bounds: &[usize], options: &LabelOptions) -> Vec<String> {
    let log_lengths: Vec<f64> =
        (0..scores.rows()).map(|s| (segment_length(bounds, s).max(1) as f64).ln()).collect();
    let log_spreads: Vec<f64> = label_spreads(model).iter().map(|s| v(*s).ln()).collect();
    let terms = length_terms(model, &all(&log_lengths), &all(&log_spreads), options.length_weight);
    decode_labels(model, scores, &terms, options)
}

fn described(feature_z: &Mat, bounds: &[usize]) -> Mat {
    let logs: Vec<Binary64> = bounds
        .windows(2)
        .map(|pair| {
            let (start, end) = segment_span(pair[0], pair[1], feature_z.rows());
            f(((end - start).max(1) as f64).ln())
        })
        .collect();
    segment_features(feature_z, bounds, &logs)
}

fn toy_model(labels: &[&str], transition: Vec<Vec<f64>>) -> PhraseModel {
    let n = labels.len();
    let mut archive = Npz::new();
    archive.insert("t_classes".to_string(), NpyArray::Str(vec!["0".to_string()]));
    archive.insert("t_baseline".to_string(), NpyArray::F64(all(&[0.0])));
    archive.insert("t_tree_classes".to_string(), NpyArray::I64(vec![]));
    archive.insert("t_tree_offsets".to_string(), NpyArray::I64(vec![0]));
    archive.insert("t_node_value".to_string(), NpyArray::F64(all(&[])));
    archive.insert("t_node_feature_idx".to_string(), NpyArray::I64(vec![]));
    archive.insert("t_node_num_threshold".to_string(), NpyArray::F64(all(&[])));
    archive.insert("t_node_missing_go_to_left".to_string(), NpyArray::U8(vec![]));
    archive.insert("t_node_left".to_string(), NpyArray::I64(vec![]));
    archive.insert("t_node_right".to_string(), NpyArray::I64(vec![]));
    archive.insert("t_node_is_leaf".to_string(), NpyArray::U8(vec![]));
    let stub = HistGradientBoosting::from_npz(&archive, "t").unwrap();
    PhraseModel {
        settings: ModelSettings::default(),
        boundary: stub.clone(),
        label: stub,
        labels: labels.iter().map(|s| (*s).to_string()).collect(),
        transition: transition.iter().map(|r| all(r)).collect(),
        length_mu: all(&vec![3.4; n]),
        length_sigma: all(&vec![0.4; n]),
    }
}

fn outro_silence_model() -> PhraseModel {
    let labels = ["OUTRO", "SILENCE"];
    let n = labels.len();
    let mut transition = vec![vec![-0.7; n + 2]; n + 2];
    transition[0][n + 1] = -5.9402; // OUTRO -> END
    transition[1][n + 1] = -0.1468; // SILENCE -> END
    transition[0][1] = -0.4015; // OUTRO -> SILENCE
    toy_model(&labels, transition)
}

fn options(end_state_weight: f64) -> LabelOptions {
    LabelOptions {
        label_weight: f(1.0),
        transition_weight: f(1.0),
        length_weight: f(0.0),
        end_state_weight: f(end_state_weight),
    }
}

fn outro_scores() -> Mat {
    matrix(vec![vec![(0.80f64).ln(), (0.20f64).ln()]])
}

#[test]
fn a_final_outro_is_not_rewritten_to_silence_by_default() {
    let model = outro_silence_model();
    let labels = decode(&model, &outro_scores(), &[0, 64], &options(0.0));
    assert_eq!(labels, vec!["OUTRO"]);
}

#[test]
fn the_end_state_prior_at_full_weight_would_override_the_classifier() {
    let model = outro_silence_model();
    let labels = decode(&model, &outro_scores(), &[0, 64], &options(1.0));
    assert_eq!(
        labels,
        vec!["SILENCE"],
        "documents why end_state_weight defaults to 0"
    );
}

#[test]
fn the_start_prior_still_applies_with_the_end_prior_off() {
    let labels = ["INTRO", "CHORUS"];
    let mut transition = vec![vec![-0.7; 4]; 4];
    transition[2][0] = -0.05; // START -> INTRO is overwhelmingly likely
    transition[2][1] = -6.0;
    let model = toy_model(&labels, transition);
    // The classifier marginally prefers CHORUS; the start prior wins.
    let scores = matrix(vec![vec![(0.45f64).ln(), (0.55f64).ln()]]);
    assert_eq!(
        decode(&model, &scores, &[0, 32], &options(0.0)),
        vec!["INTRO"]
    );
}

#[test]
fn transitions_shape_the_sequence_not_just_each_segment() {
    let labels = ["VERSE", "CHORUS"];
    let mut transition = vec![vec![-0.7; 4]; 4];
    // Repeating a label is heavily penalised, so the run must alternate.
    transition[0][0] = -8.0;
    transition[1][1] = -8.0;
    let model = toy_model(&labels, transition);
    let flat = (0.5f64).ln();
    let scores = matrix(vec![vec![flat; 2], vec![flat; 2], vec![flat; 2]]);
    let decoded = decode(&model, &scores, &[0, 16, 32, 48], &options(0.0));
    assert_ne!(decoded[0], decoded[1]);
    assert_ne!(decoded[1], decoded[2]);
}

#[test]
fn no_segments_decodes_to_no_labels() {
    let model = outro_silence_model();
    assert!(decode(&model, &Mat::zeros(0, 2), &[0], &options(0.0)).is_empty());
}

#[test]
fn segment_features_have_the_expected_537_columns() {
    let feature_z = Mat::zeros(64, 133);
    let features = described(&feature_z, &[0, 32, 64]);
    assert_eq!(features.rows(), 2);
    assert_eq!(features.cols(), 4 * 133 + 5);
}

#[test]
fn a_one_beat_segment_still_produces_a_head_and_a_tail() {
    let mut feature_z = Mat::zeros(8, 2);
    for r in 0..8 {
        feature_z.set(r, 0, f(r as f64));
    }
    let features = described(&feature_z, &[0, 1, 8]);
    assert_eq!(features.rows(), 2);
    assert!(features.as_slice().iter().all(|v| v.is_finite()));
    // With one beat, tail and head are the same value, so the shift is 0.
    assert_eq!(v(features.get(0, 6)), 0.0);
}

#[test]
fn the_length_prior_favours_the_length_a_label_usually_has() {
    let mu = (32.0f64).ln();
    let sigma = 0.4;
    let near = likelihood(mu, sigma, 32);
    let far = likelihood(mu, sigma, 4);
    assert!(near > far);
}

#[test]
fn label_probabilities_keep_off_zero() {
    assert_eq!(v(floor_label_probability(f(0.0))), 1e-7);
    assert_eq!(v(floor_label_probability(f(0.4))), 0.4);
    assert_eq!(v(floor_label_probability(f(1.5))), 1.0);
}

#[test]
fn a_label_seen_at_one_length_is_not_a_hard_constraint() {
    assert_eq!(v(floor_sigma(Some(f(0.0)))), 0.25);
    assert_eq!(v(floor_sigma(None)), 0.25);
    assert_eq!(v(floor_sigma(Some(f(0.4)))), 0.4);
}

#[test]
fn lengths_count_only_where_they_have_weight() {
    let mut model = toy_model(&["A", "B"], vec![vec![0.0; 4]; 4]);
    model.length_mu = all(&[2.0, 3.0]);
    model.length_sigma = all(&[0.5]);
    let spreads: Vec<f64> = label_spreads(&model).iter().map(|s| v(*s)).collect();
    assert_eq!(spreads, vec![0.5, 0.25]);
    let none = length_terms(&model, &all(&[2.5]), &all(&[]), f(0.0));
    assert_eq!((v(none.get(0, 0)), v(none.get(0, 1))), (0.0, 0.0));
    let terms = length_terms(&model, &all(&[2.5]), &all(&[0.5f64.ln(), 0.25f64.ln()]), f(1.0));
    assert_eq!(v(terms.get(0, 0)), -0.5 - 0.5f64.ln());
    assert_eq!(v(terms.get(0, 1)), -2.0 - 0.25f64.ln());
}

#[test]
fn no_other_labels_score_higher() {
    let names = ["INTRO", "VERSE", "CHORUS"];
    let step = |a: usize, b: usize| -0.1 - ((a * 7 + b * 13) % 11) as f64 / 4.0;
    let mut transition: Vec<Vec<f64>> = (0..5).map(|a| (0..5).map(|b| step(a, b)).collect()).collect();
    transition[1][2] = f64::NEG_INFINITY;
    let model = toy_model(&names, transition.clone());
    let rows: Vec<Vec<f64>> =
        (0..5).map(|s| (0..3).map(|l| -0.2 - ((s * 5 + l * 3) % 7) as f64 / 3.0).collect()).collect();
    let decoded = decode(&model, &matrix(rows.clone()), &[0, 8, 16, 24, 32, 40], &options(0.5));
    let places: Vec<usize> = decoded.iter().map(|l| names.iter().position(|n| n == l).unwrap()).collect();
    let merit = |way: &[usize]| {
        let mut sum = rows[0][way[0]] + transition[3][way[0]];
        for s in 1..way.len() {
            sum = rows[s][way[s]] + (sum + transition[way[s - 1]][way[s]]);
        }
        sum + 0.5 * transition[way[way.len() - 1]][4]
    };
    for code in 0..243usize {
        let way: Vec<usize> = (0..5).map(|s| code / 3usize.pow(s) % 3).collect();
        assert!(merit(&way) <= merit(&places), "{way:?} against {places:?}");
    }
}

#[test]
fn a_label_of_unknown_length_counts_for_nothing_where_lengths_count() {
    let mut model = toy_model(&["A", "B"], vec![vec![0.0; 4]; 4]);
    model.length_mu = all(&[2.0]);
    model.length_sigma = all(&[0.5]);
    let mut options = options(0.0);
    options.length_weight = f(1.0);
    let terms = length_terms(&model, &all(&[2.0]), &all(&[0.5f64.ln(), 0.25f64.ln()]), f(1.0));
    assert_eq!((v(terms.get(0, 0)), v(terms.get(0, 1))), (-(0.5f64.ln()), 0.0));
    // The first label has a merit of its own, the other none whatever its score.
    assert_eq!(decode_labels(&model, &matrix(vec![vec![-0.5, 9.0]]), &terms, &options), vec!["A"]);
    assert_eq!(decode_labels(&model, &matrix(vec![vec![-1.0, -9.0]]), &terms, &options), vec!["B"]);
    assert_eq!(decode_labels(&model, &matrix(vec![vec![-1.0]]), &terms, &options), vec!["B"]);
}

#[test]
fn the_known_lengths_do_not_matter_without_weight() {
    let mut model = toy_model(&["A", "B"], vec![vec![0.0; 4]; 4]);
    model.length_mu = all(&[1.0, 2.0, 3.0]);
    let scores = matrix(vec![vec![-2.0, -1.0], vec![-1.0, -2.0]]);
    assert_eq!(decode(&model, &scores, &[0, 8, 16], &options(0.0)), vec!["B", "A"]);
}
