//! Hot cues and memory cues.

use mixlyzer::domain::cue::CuePoint;
use mixlyzer::domain::jumpcue::JumpCue;
use mixlyzer::export::marks::{hot_cue_slot, position_marks, PositionMark, HOT_CUE_SLOTS, MEMORY_CUE_NUM};
use mixlyzer::number::binary64::Binary64;

fn f(x: f64) -> Binary64 {
    Binary64::from_bits(x.to_bits())
}

fn cue(id: usize, label: &str, point: f64) -> JumpCue {
    JumpCue::new(id, label, f(point), f(point + 8.0), f(point), id)
}

fn cues(labels: &[&str]) -> Vec<JumpCue> {
    labels
        .iter()
        .enumerate()
        .map(|(i, label)| cue(i, label, 10.0 * (i as f64 + 1.0)))
        .collect()
}

fn hot_nums(marks: &[PositionMark]) -> Vec<i32> {
    marks.iter().filter(|m| m.is_hot_cue()).map(|m| m.num).collect()
}

fn assert_hot_cues_are_unique(marks: &[PositionMark]) {
    let mut nums = hot_nums(marks);
    let count = nums.len();
    nums.sort_unstable();
    nums.dedup();
    assert_eq!(nums.len(), count, "two hot cues share a Num: {marks:#?}");
}

#[test]
fn a_label_naming_a_button_gets_that_button() {
    assert_eq!(hot_cue_slot("A"), Some(0));
    assert_eq!(hot_cue_slot("h"), Some(7));
    assert_eq!(hot_cue_slot("Drop C"), Some(2));
    assert_eq!(hot_cue_slot("D (breakdown)"), Some(3));
    assert_eq!(hot_cue_slot("Ahead"), Some(0));
    assert_eq!(hot_cue_slot("I"), None);
    assert_eq!(hot_cue_slot("intro"), None);
    assert_eq!(hot_cue_slot(""), None);
}

#[test]
fn three_cues_take_the_buttons_their_labels_name() {
    let marks = position_marks(&cues(&["A", "B", "C"]), &vec![]);
    assert_eq!(marks.len(), 3);
    assert_eq!(hot_nums(&marks), vec![0, 1, 2]);
    assert_hot_cues_are_unique(&marks);
}

#[test]
fn eight_cues_fill_every_button_exactly_once() {
    let marks = position_marks(&cues(&["A", "B", "C", "D", "E", "F", "G", "H"]), &vec![]);
    assert_eq!(hot_nums(&marks), (0..8).collect::<Vec<i32>>());
    assert_hot_cues_are_unique(&marks);
}

#[test]
fn more_than_eight_cues_never_share_a_hot_cue_button() {
    let labels = ["A", "B", "C", "D", "E", "F", "G", "H", "I", "J", "K", "L"];
    let marks = position_marks(&cues(&labels), &vec![]);
    assert_eq!(marks.len(), 12);
    assert_hot_cues_are_unique(&marks);
    assert_eq!(hot_nums(&marks).len(), HOT_CUE_SLOTS);
    assert_eq!(marks.iter().filter(|m| !m.is_hot_cue()).count(), 4);
    // The first eight, in time order, keep the buttons.
    for mark in marks.iter().take(8) {
        assert!(mark.is_hot_cue(), "{} lost its button", mark.name);
    }
}

#[test]
fn cues_that_name_no_button_fill_the_ones_left_over() {
    let marks = position_marks(&cues(&["C", "intro", "A", "outro"]), &vec![]);
    let by_name = |name: &str| marks.iter().find(|m| m.name == name).unwrap().num;
    assert_eq!(by_name("C"), 2);
    assert_eq!(by_name("A"), 0);
    assert_eq!(by_name("intro"), 1);
    assert_eq!(by_name("outro"), 3);
    assert_hot_cues_are_unique(&marks);
}

#[test]
fn two_cues_wanting_the_same_button_do_not_collide() {
    let marks = position_marks(&cues(&["A", "A", "A"]), &vec![]);
    assert_eq!(hot_nums(&marks), vec![0, 1, 2]);
    assert_hot_cues_are_unique(&marks);
}

#[test]
fn an_unlabelled_cue_is_named_after_the_button_it_lands_on() {
    let marks = position_marks(&cues(&["", "B"]), &vec![]);
    assert_eq!(marks[0].name, "Jump A");
    assert_eq!(marks[0].num, 0);
    assert_eq!(marks[1].name, "B");
}

#[test]
fn structural_cue_points_are_exported_as_memory_cues() {
    let points = vec![
        CuePoint::new(0, f(32.0), "CHORUS_IN", "chorus 1"),
        CuePoint::new(1, f(96.0), "OUTRO", ""),
    ];
    let marks = position_marks(&cues(&["A"]), &points);
    assert_eq!(marks.len(), 3);
    let memory: Vec<&PositionMark> = marks.iter().filter(|m| !m.is_hot_cue()).collect();
    assert_eq!(memory.len(), 2);
    assert_eq!(memory[0].name, "CHORUS_IN");
    assert_eq!(memory[0].num, MEMORY_CUE_NUM);
    assert_eq!(memory[1].name, "OUTRO");
}

#[test]
fn marks_come_out_in_time_order_with_hot_cues_first_on_a_tie() {
    let jumps = vec![cue(0, "A", 30.0), cue(1, "B", 10.0)];
    let points = vec![CuePoint::new(0, f(30.0), "OUTRO", "")];
    let marks = position_marks(&jumps, &points);
    let order: Vec<(&str, i32)> = marks.iter().map(|m| (m.name.as_str(), m.num)).collect();
    assert_eq!(order, vec![("B", 1), ("A", 0), ("OUTRO", -1)]);
}

#[test]
fn marks_with_impossible_times_are_dropped() {
    let jumps = vec![cue(0, "A", f64::NAN), cue(1, "B", -5.0), cue(2, "C", 4.0)];
    let points = vec![
        CuePoint::new(0, f(f64::INFINITY), "BAD", ""),
        CuePoint::new(1, f(8.0), "OK", ""),
    ];
    let marks = position_marks(&jumps, &points);
    assert_eq!(marks.len(), 2);
    assert_eq!(marks[0].name, "C");
    assert_eq!(marks[1].name, "OK");
}

#[test]
fn no_cues_at_all_yields_no_marks() {
    assert!(position_marks(&vec![], &vec![]).is_empty());
}

#[test]
fn the_element_carries_the_component_colour_and_a_millisecond_start() {
    let jumps = vec![cue(0, "A", 12.3456)];
    let element = position_marks(&jumps, &vec![])[0].to_element();
    assert_eq!(element.name(), "POSITION_MARK");
    assert_eq!(element.attribute("Start"), Some("12.346"));
    assert_eq!(element.attribute("Type"), Some("0"));
    assert_eq!(element.attribute("Num"), Some("0"));
    let (r, g, b) = jumps[0].color();
    assert_eq!(element.attribute("Red"), Some(r.to_string().as_str()));
    assert_eq!(element.attribute("Green"), Some(g.to_string().as_str()));
    assert_eq!(element.attribute("Blue"), Some(b.to_string().as_str()));
}
