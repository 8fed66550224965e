//! Gradient-boosted ensembles: reading and predicting.

use mixlyzer::detect::error::PhraseError;
use mixlyzer::detect::gbm::{link_exponents, link_probabilities, HistGradientBoosting};
use mixlyzer::detect::npz::{NpyArray, Npz};
use mixlyzer::number::binary64::Binary64;

fn f(x: f64) -> Binary64 {
    Binary64::from_bits(x.to_bits())
}

fn v(b: Binary64) -> f64 {
    f64::from_bits(b.to_bits())
}

fn all(values: &[f64]) -> Vec<Binary64> {
    values.iter().map(|x| f(*x)).collect()
}

fn probabilities(model: &HistGradientBoosting, row: &[f64]) -> Vec<f64> {
    let raw = model.raw_predict_row(&all(row));
    let exps: Vec<Binary64> = link_exponents(&raw).iter().map(|x| f(v(*x).exp())).collect();
    link_probabilities(&exps).iter().map(|x| v(*x)).collect()
}

fn stump() -> Npz {
    let mut archive = Npz::new();
    archive.insert("m_classes".to_string(), NpyArray::Str(vec!["0".to_string(), "1".to_string()]));
    archive.insert("m_baseline".to_string(), NpyArray::F64(all(&[0.0])));
    archive.insert("m_tree_classes".to_string(), NpyArray::I64(vec![0]));
    archive.insert("m_tree_offsets".to_string(), NpyArray::I64(vec![0, 3]));
    archive.insert("m_node_value".to_string(), NpyArray::F64(all(&[0.0, -1.0, 1.0])));
    archive.insert("m_node_feature_idx".to_string(), NpyArray::I64(vec![0, 0, 0]));
    archive.insert("m_node_num_threshold".to_string(), NpyArray::F64(all(&[0.5, 0.0, 0.0])));
    archive.insert("m_node_missing_go_to_left".to_string(), NpyArray::U8(vec![1, 0, 0]));
    archive.insert("m_node_left".to_string(), NpyArray::I64(vec![1, 0, 0]));
    archive.insert("m_node_right".to_string(), NpyArray::I64(vec![2, 0, 0]));
    archive.insert("m_node_is_leaf".to_string(), NpyArray::U8(vec![0, 1, 1]));
    archive
}

#[test]
fn a_stump_splits_at_its_threshold_with_the_boundary_going_left() {
    let model = HistGradientBoosting::from_npz(&stump(), "m").unwrap();
    assert_eq!(model.predict_row(&all(&[0.0])), 0);
    assert_eq!(model.predict_row(&all(&[0.5])), 0, "<= threshold goes left");
    assert_eq!(model.predict_row(&all(&[0.51])), 1);
}

#[test]
fn a_missing_value_follows_the_flag_rather_than_the_threshold() {
    let model = HistGradientBoosting::from_npz(&stump(), "m").unwrap();
    assert_eq!(model.predict_row(&all(&[f64::NAN])), 0, "missing_go_to_left is set");
}

#[test]
fn binary_probabilities_are_the_sigmoid_of_the_raw_score() {
    let model = HistGradientBoosting::from_npz(&stump(), "m").unwrap();
    let p = probabilities(&model, &[1.0]);
    let expected = 1.0 / (1.0 + (-1.0f64).exp());
    assert!((p[1] - expected).abs() < 1e-12);
    assert!((p[0] + p[1] - 1.0).abs() < 1e-12);
}

#[test]
fn mismatched_node_arrays_are_reported_rather_than_indexed_past() {
    let mut archive = stump();
    archive.insert("m_node_left".to_string(), NpyArray::I64(vec![1, 0]));
    let err = HistGradientBoosting::from_npz(&archive, "m").unwrap_err();
    assert!(matches!(err, PhraseError::ModelField { .. }));
}

#[test]
fn a_missing_array_names_the_field() {
    let mut archive = stump();
    archive.remove("m_baseline");
    let err = HistGradientBoosting::from_npz(&archive, "m").unwrap_err();
    assert!(matches!(err, PhraseError::MissingModelField(f) if f == "m_baseline"));
}

#[test]
fn an_ensemble_says_what_it_is_made_of() {
    let model = HistGradientBoosting::from_npz(&stump(), "m").unwrap();
    assert!(model.is_ready());
    assert_eq!(model.n_classes(), 2);
    assert_eq!(model.n_raw(), 1);
    assert_eq!(model.predict_label(&all(&[0.9])), "1");
    assert_eq!(model.raw_predict_row(&all(&[0.9])), all(&[1.0]));
}

#[test]
fn many_classes_share_one_hundred_percent() {
    let exps = all(&[1.0, 2.0, 5.0]);
    let p: Vec<f64> = link_probabilities(&exps).iter().map(|x| v(*x)).collect();
    assert_eq!(p, vec![0.125, 0.25, 0.625]);
}
