//! Jump cues: labels, links between cues, and merging.

use mixlyzer::domain::error::DomainError;
use mixlyzer::domain::jumpcue::{
    component_color, label_from_index, merge_coincident, Direction, JumpCue, JumpCueGraph, PAIR_COLORS,
};
use mixlyzer::number::binary64::Binary64;

fn f(x: f64) -> Binary64 {
    Binary64::from_bits(x.to_bits())
}

fn v(b: Binary64) -> f64 {
    f64::from_bits(b.to_bits())
}

fn cue(id: usize, point: f64, component: usize) -> JumpCue {
    let label = label_from_index(id).unwrap_or_else(|| "?".to_string());
    JumpCue::new(id, &label, f(point), f(point + 8.0), f(point), component)
}

#[test]
fn labels_run_a_to_z_then_stop() {
    assert_eq!(label_from_index(0).as_deref(), Some("A"));
    assert_eq!(label_from_index(7).as_deref(), Some("H"));
    assert_eq!(label_from_index(25).as_deref(), Some("Z"));
    assert_eq!(label_from_index(26), None, "must not wrap onto A again");
}

#[test]
fn colors_cycle_through_the_palette() {
    assert_eq!(component_color(0), PAIR_COLORS[0]);
    assert_eq!(component_color(PAIR_COLORS.len()), PAIR_COLORS[0]);
    assert_eq!(component_color(PAIR_COLORS.len() + 2), PAIR_COLORS[2]);
}

#[test]
fn cues_are_sorted_by_point() {
    let graph = JumpCueGraph::new(vec![cue(0, 90.0, 0), cue(1, 30.0, 0)]);
    let points: Vec<f64> = graph.cues().iter().map(|c| v(c.point)).collect();
    assert_eq!(points, vec![30.0, 90.0]);
}

#[test]
fn links_join_every_pair_in_a_component_both_ways() {
    let graph = JumpCueGraph::new(vec![cue(0, 30.0, 0), cue(1, 90.0, 0), cue(2, 150.0, 0)]);
    let links = graph.links();
    // 3 cues in one component -> 3 unordered pairs -> 6 directed links.
    assert_eq!(links.len(), 6);
    assert_eq!(links.iter().filter(|l| l.direction == Direction::Forward).count(), 3);
    assert_eq!(links.iter().filter(|l| l.direction == Direction::Backward).count(), 3);
}

#[test]
fn separate_components_are_not_linked() {
    let graph = JumpCueGraph::new(vec![cue(0, 30.0, 0), cue(1, 90.0, 1)]);
    assert!(graph.links().is_empty());
}

#[test]
fn link_lag_is_the_absolute_distance() {
    let graph = JumpCueGraph::new(vec![cue(0, 30.0, 0), cue(1, 90.0, 0)]);
    for link in graph.links() {
        assert!((v(link.lag_sec) - 60.0).abs() < 1e-12);
        assert!(v(link.lag_sec) > 0.0);
    }
}

#[test]
fn components_group_cues() {
    let graph = JumpCueGraph::new(vec![
        cue(0, 10.0, 0),
        cue(1, 20.0, 1),
        cue(2, 30.0, 0),
    ]);
    let comps = graph.components();
    assert_eq!(comps.len(), 2);
    assert_eq!(comps[0].len(), 2);
    assert_eq!(comps[1].len(), 1);
}

#[test]
fn lookup_by_label_is_case_insensitive() {
    let graph = JumpCueGraph::new(vec![cue(0, 10.0, 0), cue(1, 20.0, 0)]);
    assert_eq!(graph.by_label("a").map(|c| v(c.point)), Some(10.0));
    assert_eq!(graph.by_label("B").map(|c| v(c.point)), Some(20.0));
    assert!(graph.by_label("Z").is_none());
}

#[test]
fn label_validation_accepts_unique_single_letters() {
    let graph = JumpCueGraph::new(vec![cue(0, 10.0, 0), cue(1, 20.0, 0)]);
    assert!(graph.validate_labels().is_ok());
}

#[test]
fn label_validation_rejects_duplicates_and_non_letters() {
    let mut dup = vec![cue(0, 10.0, 0), cue(1, 20.0, 0)];
    dup[1].label = "A".to_string();
    assert!(matches!(
        JumpCueGraph::new(dup).validate_labels(),
        Err(DomainError::DuplicateJumpCueLabel(_))
    ));

    let mut bad = vec![cue(0, 10.0, 0)];
    bad[0].label = "AA".to_string();
    assert!(matches!(
        JumpCueGraph::new(bad).validate_labels(),
        Err(DomainError::InvalidJumpCueLabel(_))
    ));
}

#[test]
fn coincident_cues_merge_and_renumber() {
    let cues = vec![
        cue(0, 30.0, 0),
        cue(1, 30.0, 0), // same spot as the first
        cue(2, 90.0, 0),
    ];
    let merged = merge_coincident(&cues);
    assert_eq!(merged.len(), 2);
    assert_eq!(merged[0].id, 0);
    assert_eq!(merged[1].id, 1);
    assert_eq!(v(merged[1].point), 90.0);
}

#[test]
fn cues_a_hair_apart_are_kept() {
    let cues = vec![cue(0, 30.0, 0), cue(1, 30.001, 0)];
    assert_eq!(merge_coincident(&cues).len(), 2);
}

#[test]
fn an_empty_graph_has_no_links_or_components() {
    let graph = JumpCueGraph::default();
    assert!(graph.is_empty());
    assert!(graph.links().is_empty());
    assert!(graph.components().is_empty());
    assert!(graph.validate_labels().is_ok());
}

#[test]
fn every_label_fault_names_the_label() {
    let mut twice = vec![cue(0, 10.0, 0), cue(1, 20.0, 0)];
    twice[1].label = "a".to_string();
    assert_eq!(
        JumpCueGraph::new(twice).validate_labels(),
        Err(DomainError::DuplicateJumpCueLabel("A".to_string()))
    );
    let mut digit = vec![cue(0, 10.0, 0)];
    digit[0].label = "7".to_string();
    assert_eq!(
        JumpCueGraph::new(digit).validate_labels(),
        Err(DomainError::InvalidJumpCueLabel("7".to_string()))
    );
}

#[test]
fn a_cue_has_a_length_and_its_component_colour() {
    let c = cue(3, 10.0, 1);
    assert_eq!(v(c.duration()), 8.0);
    assert_eq!(c.color(), PAIR_COLORS[1]);
    assert_eq!(c.numbered(9).id, 9);
}

#[test]
fn links_go_by_their_source() {
    let graph = JumpCueGraph::new(vec![cue(2, 150.0, 0), cue(0, 30.0, 0), cue(1, 90.0, 0)]);
    let from: Vec<usize> = graph.links().iter().map(|l| l.from_id).collect();
    assert_eq!(from, vec![0, 0, 1, 1, 2, 2]);
    let to: Vec<usize> = graph.links().iter().map(|l| l.to_id).collect();
    assert_eq!(to, vec![1, 2, 0, 2, 0, 1]);
}

#[test]
fn a_graph_keeps_one_cue_per_spot() {
    let graph = JumpCueGraph::new(vec![cue(0, 30.0, 0), cue(1, 30.0, 0)]);
    let labels: Vec<&str> = graph.cues().iter().map(|c| c.label.as_str()).collect();
    assert_eq!(labels, vec!["A"]);
    assert!(graph.links().is_empty());
}
