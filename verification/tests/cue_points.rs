//! Cue points derived from phrases.

use mixlyzer::domain::cue::{dedupe, from_phrases, CuePoint};
use mixlyzer::domain::phrase::Phrase;
use mixlyzer::number::binary64::Binary64;

fn f(x: f64) -> Binary64 {
    Binary64::from_bits(x.to_bits())
}

fn v(b: Binary64) -> f64 {
    f64::from_bits(b.to_bits())
}

fn p(start: f64, end: f64, label: &str) -> Phrase {
    Phrase::new(f(start), f(end), label)
}

fn labels(points: &[CuePoint]) -> Vec<&str> {
    points.iter().map(|c| c.label.as_str()).collect()
}

#[test]
fn interlude_and_outro_get_a_start_cue() {
    let phrases = vec![
        p(0.0, 10.0, "INTRO"),
        p(10.0, 20.0, "INTERLUDE"),
        p(20.0, 30.0, "OUTRO"),
    ];
    let cues = from_phrases(&phrases);
    assert_eq!(labels(&cues), vec!["INTERLUDE", "OUTRO"]);
    assert_eq!(v(cues[0].time_sec), 10.0);
    assert_eq!(v(cues[1].time_sec), 20.0);
}

#[test]
fn a_lone_chorus_gets_entry_and_exit_only() {
    let phrases = vec![
        p(0.0, 10.0, "VERSE"),
        p(10.0, 20.0, "CHORUS"),
        p(20.0, 30.0, "VERSE"),
    ];
    let cues = from_phrases(&phrases);
    assert_eq!(labels(&cues), vec!["CHORUS_IN", "CHORUS_OUT"]);
    assert_eq!(v(cues[0].time_sec), 10.0);
    assert_eq!(v(cues[1].time_sec), 20.0);
}

#[test]
fn a_chorus_run_gets_internal_and_pre_exit_cues() {
    let phrases = vec![
        p(0.0, 10.0, "VERSE"),
        p(10.0, 20.0, "CHORUS"),
        p(20.0, 30.0, "CHORUS"),
        p(30.0, 40.0, "CHORUS"),
        p(40.0, 50.0, "OUTRO"),
    ];
    let cues = from_phrases(&phrases);
    // The chorus exit and the outro start are the same instant, so they
    // arrive as one cue carrying both labels.
    assert_eq!(
        labels(&cues),
        vec!["CHORUS_IN", "CHORUS_NEXT", "CHORUS_PRE_OUT", "CHORUS_OUT/OUTRO"]
    );
    assert_eq!(v(cues[0].time_sec), 10.0);
    assert_eq!(v(cues[1].time_sec), 20.0);
    assert_eq!(v(cues[2].time_sec), 30.0);
    assert_eq!(v(cues[3].time_sec), 40.0);
}

#[test]
fn a_chorus_that_ends_the_track_has_no_exit_cue() {
    let phrases = vec![p(0.0, 10.0, "VERSE"), p(10.0, 20.0, "CHORUS")];
    assert_eq!(labels(&from_phrases(&phrases)), vec!["CHORUS_IN"]);
}

#[test]
fn coincident_cues_merge_their_labels() {
    // A chorus exit that lands exactly where the outro begins.
    let phrases = vec![
        p(0.0, 10.0, "VERSE"),
        p(10.0, 20.0, "CHORUS"),
        p(20.0, 30.0, "OUTRO"),
    ];
    let cues = from_phrases(&phrases);
    let merged = cues.iter().find(|c| v(c.time_sec) == 20.0).unwrap();
    assert_eq!(merged.label, "CHORUS_OUT/OUTRO");
    assert!(merged.comment.contains("Outro start"));
    assert!(merged.comment.contains("Chorus exit"));
}

#[test]
fn ids_are_renumbered_contiguously_after_merging() {
    let phrases = vec![
        p(0.0, 10.0, "VERSE"),
        p(10.0, 20.0, "CHORUS"),
        p(20.0, 30.0, "OUTRO"),
    ];
    let cues = from_phrases(&phrases);
    for (index, cue) in cues.iter().enumerate() {
        assert_eq!(cue.id, index);
    }
}

#[test]
fn cues_two_hours_in_stay_distinct() {
    let points = vec![
        CuePoint::new(0, f(7200.0), "A", ""),
        CuePoint::new(1, f(7200.002), "B", ""),
    ];
    let out = dedupe(&points);
    assert_eq!(out.len(), 2, "2 ms apart should not merge");
    assert_ne!(v(out[0].time_sec), v(out[1].time_sec));
}

#[test]
fn cues_within_the_epsilon_do_merge() {
    let points = vec![
        CuePoint::new(0, f(10.0), "A", "first"),
        CuePoint::new(1, f(10.0005), "B", "second"),
    ];
    let out = dedupe(&points);
    assert_eq!(out.len(), 1);
    assert_eq!(out[0].label, "A/B");
    assert_eq!(out[0].comment, "first / second");
}

#[test]
fn duplicate_labels_are_not_repeated_when_merging() {
    let points = vec![
        CuePoint::new(0, f(5.0), "CHORUS_IN", "Chorus start"),
        CuePoint::new(1, f(5.0), "CHORUS_IN", "Chorus start"),
    ];
    let out = dedupe(&points);
    assert_eq!(out.len(), 1);
    assert_eq!(out[0].label, "CHORUS_IN");
    assert_eq!(out[0].comment, "Chorus start");
}

#[test]
fn negative_and_non_finite_times_are_dropped() {
    let points = vec![
        CuePoint::new(0, f(-1.0), "A", ""),
        CuePoint::new(1, f(f64::NAN), "B", ""),
        CuePoint::new(2, f(5.0), "C", ""),
    ];
    let out = dedupe(&points);
    assert_eq!(out.len(), 1);
    assert_eq!(out[0].label, "C");
}

#[test]
fn no_phrases_means_no_cues() {
    assert!(from_phrases(&vec![]).is_empty());
}

#[test]
fn cues_come_out_in_time_order() {
    let phrases = vec![
        p(0.0, 10.0, "INTRO"),
        p(10.0, 20.0, "CHORUS"),
        p(20.0, 30.0, "CHORUS"),
        p(30.0, 40.0, "INTERLUDE"),
        p(40.0, 50.0, "CHORUS"),
        p(50.0, 60.0, "OUTRO"),
    ];
    let cues = from_phrases(&phrases);
    assert!(
        cues.windows(2).all(|w| v(w[0].time_sec) <= v(w[1].time_sec)),
        "cues must be sorted: {:?}",
        cues.iter().map(|c| v(c.time_sec)).collect::<Vec<_>>()
    );
}

#[test]
fn merging_twice_is_merging_once() {
    let points = vec![
        CuePoint::new(4, f(5.0), " CHORUS_OUT ", "  "),
        CuePoint::new(1, f(5.0005), "OUTRO", "Outro start"),
        CuePoint::new(9, f(5.0015), "", "late"),
        CuePoint::new(2, f(1.0), "A", ""),
    ];
    let once = dedupe(&points);
    assert_eq!(once.iter().map(|c| c.label.as_str()).collect::<Vec<_>>(), vec!["A", "CHORUS_OUT/OUTRO", ""]);
    assert_eq!(dedupe(&once), once);
    for point in &points {
        assert!(once.iter().any(|c| {
            let late = v(point.time_sec) - v(c.time_sec);
            (0.0..=1e-3).contains(&late) && c.label.contains(point.label.trim()) && c.comment.contains(point.comment.trim())
        }));
    }
}
