//! Phrases: normalising, labelling, editing and displaying them.

use mixlyzer::domain::error::DomainError;
use mixlyzer::domain::phrase::{
    abbreviated_labels, assign_to_selection, clear_selection, fill_markers, fnv1a, merge_fills_for_display, normalize,
    numbered_labels, phrase_color, FillDirection, Phrase, PHRASE_LABELS,
};
use mixlyzer::number::binary64::Binary64;

fn f(x: f64) -> Binary64 {
    Binary64::from_bits(x.to_bits())
}

fn v(b: Binary64) -> f64 {
    f64::from_bits(b.to_bits())
}

fn p(start: f64, end: f64, label: &str) -> Phrase {
    Phrase::new(f(start), f(end), label)
}

#[test]
fn normalize_sorts_and_drops_degenerate_phrases() {
    let rows = normalize(&vec![
        p(10.0, 20.0, "CHORUS"),
        p(0.0, 0.0, "VERSE"),
        p(0.0, 10.0, "INTRO"),
        p(30.0, 20.0, "OUTRO"),
    ]);
    assert_eq!(rows.len(), 2);
    assert_eq!(rows[0].label, "INTRO");
    assert_eq!(rows[1].label, "CHORUS");
}

#[test]
fn repeated_labels_are_numbered_and_singletons_are_not() {
    let rows = vec![
        p(0.0, 10.0, "INTRO"),
        p(10.0, 20.0, "VERSE"),
        p(20.0, 30.0, "CHORUS"),
        p(30.0, 40.0, "VERSE"),
    ];
    assert_eq!(
        numbered_labels(&rows),
        vec!["INTRO", "VERSE1", "CHORUS", "VERSE2"]
    );
}

#[test]
fn abbreviations_do_not_collide() {
    let rows = vec![
        p(0.0, 10.0, "INTRO"),
        p(10.0, 20.0, "INTERLUDE"),
        p(20.0, 30.0, "BRIDGE"),
        p(30.0, 40.0, "BREAK_CHORUS"),
    ];
    let abbrevs = abbreviated_labels(&rows);
    assert_eq!(abbrevs, vec!["I", "IL", "B", "BC"]);
    let mut unique = abbrevs.clone();
    unique.sort();
    unique.dedup();
    assert_eq!(unique.len(), abbrevs.len(), "abbreviations must stay distinct");
}

#[test]
fn abbreviations_keep_the_number_suffix() {
    let rows = vec![p(0.0, 10.0, "CHORUS"), p(10.0, 20.0, "CHORUS")];
    assert_eq!(abbreviated_labels(&rows), vec!["C1", "C2"]);
}

#[test]
fn custom_labels_keep_their_full_form() {
    let rows = vec![p(0.0, 10.0, "DROP"), p(10.0, 20.0, "DROP")];
    assert_eq!(abbreviated_labels(&rows), vec!["DROP1", "DROP2"]);
}

#[test]
fn custom_label_colors_are_stable_across_runs() {
    let first = phrase_color("MY SECTION");
    for _ in 0..100 {
        assert_eq!(phrase_color("MY SECTION"), first);
    }
    let palette = [(200, 80, 40), (40, 160, 160), (160, 100, 200), (120, 160, 40), (200, 120, 160), (80, 120, 200)];
    assert!(palette.contains(&first));
}

#[test]
fn known_labels_have_fixed_colors_and_are_case_insensitive() {
    assert_eq!(phrase_color("CHORUS"), (220, 60, 90));
    assert_eq!(phrase_color("chorus"), (220, 60, 90));
    assert_eq!(phrase_color("  Chorus  "), (220, 60, 90));
    assert_eq!(phrase_color(""), (110, 110, 110));
}

#[test]
fn assign_splits_an_overlapping_phrase_on_both_sides() {
    let rows = vec![p(0.0, 100.0, "VERSE")];
    let out = assign_to_selection(&rows, f(40.0), f(60.0), "CHORUS").unwrap();
    assert_eq!(out.len(), 3);
    assert_eq!((v(out[0].start), v(out[0].end), out[0].label.as_str()), (0.0, 40.0, "VERSE"));
    assert_eq!((v(out[1].start), v(out[1].end), out[1].label.as_str()), (40.0, 60.0, "CHORUS"));
    assert_eq!((v(out[2].start), v(out[2].end), out[2].label.as_str()), (60.0, 100.0, "VERSE"));
}

#[test]
fn assign_into_a_gap_inserts_in_time_order() {
    let rows = vec![p(0.0, 10.0, "INTRO"), p(50.0, 60.0, "OUTRO")];
    let out = assign_to_selection(&rows, f(20.0), f(30.0), "VERSE").unwrap();
    assert_eq!(out.len(), 3);
    assert_eq!(out[1].label, "VERSE");
    assert!(out.windows(2).all(|w| v(w[0].start) <= v(w[1].start)));
}

#[test]
fn assign_rejects_an_empty_selection_or_label() {
    let rows = vec![p(0.0, 10.0, "INTRO")];
    assert!(matches!(
        assign_to_selection(&rows, f(10.0), f(10.0), "VERSE"),
        Err(DomainError::EmptySelection { .. })
    ));
    assert!(matches!(
        assign_to_selection(&rows, f(0.0), f(5.0), "   "),
        Err(DomainError::EmptyPhraseLabel)
    ));
}

#[test]
fn adjacent_same_label_phrases_stay_separate_so_numbering_survives() {
    let rows = vec![p(0.0, 10.0, "CHORUS")];
    let out = assign_to_selection(&rows, f(10.0), f(20.0), "CHORUS").unwrap();
    assert_eq!(out.len(), 2, "merging here would collapse CHORUS1/CHORUS2");
    assert_eq!(numbered_labels(&out), vec!["CHORUS1", "CHORUS2"]);
}

#[test]
fn clear_punches_a_hole_and_keeps_both_sides() {
    let rows = vec![p(0.0, 100.0, "VERSE")];
    let out = clear_selection(&rows, f(40.0), f(60.0));
    assert_eq!(out.len(), 2);
    assert_eq!((v(out[0].start), v(out[0].end)), (0.0, 40.0));
    assert_eq!((v(out[1].start), v(out[1].end)), (60.0, 100.0));
}

#[test]
fn clear_with_an_empty_range_changes_nothing() {
    let rows = vec![p(0.0, 10.0, "INTRO")];
    assert_eq!(clear_selection(&rows, f(5.0), f(5.0)), normalize(&rows));
}

#[test]
fn fill_in_joins_the_following_phrase() {
    let rows = vec![
        p(0.0, 10.0, "VERSE"),
        p(10.0, 12.0, "FILL_IN"),
        p(12.0, 30.0, "CHORUS"),
    ];
    let display = merge_fills_for_display(&rows);
    assert_eq!(display.len(), 2);
    assert_eq!(display[0].label, "VERSE");
    assert_eq!(display[1].label, "CHORUS");
    assert_eq!(v(display[1].start), 10.0, "the fill is drawn as part of the chorus");
    assert_eq!(v(display[1].end), 30.0);
}

#[test]
fn fill_out_joins_the_preceding_phrase() {
    let rows = vec![
        p(0.0, 10.0, "CHORUS"),
        p(10.0, 12.0, "FILL_OUT"),
        p(12.0, 30.0, "VERSE"),
    ];
    let display = merge_fills_for_display(&rows);
    assert_eq!(display.len(), 2);
    assert_eq!((display[0].label.as_str(), v(display[0].end)), ("CHORUS", 12.0));
    assert_eq!(v(display[1].start), 12.0);
}

#[test]
fn an_orphan_fill_is_dropped() {
    let rows = vec![p(0.0, 2.0, "FILL_IN")];
    assert!(merge_fills_for_display(&rows).is_empty());
}

#[test]
fn legacy_fill_label_behaves_like_fill_out() {
    let rows = vec![p(0.0, 10.0, "CHORUS"), p(10.0, 12.0, "FILL")];
    let display = merge_fills_for_display(&rows);
    assert_eq!(display.len(), 1);
    assert_eq!(v(display[0].end), 12.0);
}

#[test]
fn fill_markers_report_direction() {
    let rows = vec![
        p(0.0, 10.0, "VERSE"),
        p(10.0, 12.0, "FILL_IN"),
        p(20.0, 22.0, "FILL_OUT"),
        p(30.0, 32.0, "FILL"),
    ];
    let markers = fill_markers(&rows);
    assert_eq!(markers.len(), 3);
    assert_eq!(markers[0].direction, FillDirection::In);
    assert_eq!(markers[1].direction, FillDirection::Out);
    assert_eq!(markers[2].direction, FillDirection::Out);
}

#[test]
fn every_known_label_has_a_color_and_an_abbreviation() {
    let colors = [
        ("INTRO", (70, 130, 180)),
        ("VERSE", (46, 139, 87)),
        ("CHORUS", (220, 60, 90)),
        ("BREAK_CHORUS", (235, 140, 120)),
        ("BRIDGE", (148, 0, 211)),
        ("OUTRO", (95, 95, 110)),
        ("INTERLUDE", (218, 165, 32)),
        ("SILENCE", (110, 110, 110)),
        ("FILL_IN", (0, 180, 200)),
        ("FILL_OUT", (0, 120, 150)),
        ("FILL", (0, 153, 204)),
    ];
    let short = ["I", "V", "C", "BC", "B", "O", "IL", "S", "FI", "FO", "F"];
    for label in PHRASE_LABELS {
        assert!(colors.iter().any(|(name, _)| *name == label), "{label} has no colour");
        let place = colors.iter().position(|(name, _)| *name == label).unwrap();
        assert_eq!(phrase_color(label), colors[place].1);
        assert_eq!(abbreviated_labels(&vec![p(0.0, 1.0, label)]), vec![short[place]]);
    }
    assert_eq!(phrase_color("FILL"), colors[10].1);
    assert_eq!(abbreviated_labels(&vec![p(0.0, 1.0, "fill")]), vec!["F"]);
}

#[test]
fn the_label_hash_is_the_published_one() {
    assert_eq!(fnv1a(""), 0xcbf2_9ce4_8422_2325);
    assert_eq!(fnv1a("a"), 0xaf63_dc4c_8601_ec8c);
    assert_eq!(fnv1a("foobar"), 0x8594_4171_f739_67e8);
}

#[test]
fn normalizing_twice_is_normalizing_once() {
    let rows = vec![p(10.0, 20.0, "B"), p(0.0, 5.0, " a "), p(3.0, 3.0, "x"), p(f64::NAN, 2.0, "y")];
    let once = normalize(&rows);
    assert_eq!(once.len(), 2);
    assert_eq!(once[0].label, "a");
    assert_eq!(normalize(&once), once);
}

#[test]
fn a_selection_without_length_names_its_bounds() {
    match assign_to_selection(&vec![], f(10.0), f(10.0), "VERSE") {
        Err(DomainError::EmptySelection { start, end }) => assert_eq!((v(start), v(end)), (10.0, 10.0)),
        other => panic!("{other:?}"),
    }
}

#[test]
fn nothing_is_left_inside_a_cleared_range() {
    let rows = vec![p(0.0, 30.0, "A"), p(30.0, 45.0, "B"), p(45.0, 80.0, "C")];
    let out = clear_selection(&rows, f(20.0), f(60.0));
    let spans: Vec<(f64, f64)> = out.iter().map(|x| (v(x.start), v(x.end))).collect();
    assert_eq!(spans, vec![(0.0, 20.0), (60.0, 80.0)]);
}

#[test]
fn a_phrase_has_a_length_and_a_kind() {
    let row = p(2.0, 5.5, " chorus ");
    assert_eq!(row.label, "chorus");
    assert_eq!(v(row.duration()), 3.5);
    assert_eq!(v(p(5.0, 2.0, "x").duration()), 0.0);
    assert_eq!(row.color(), (220, 60, 90));
    assert!(!row.is_fill());
    assert!(p(0.0, 1.0, "fill_in").is_fill());
}

#[test]
fn only_the_fill_joins_its_section() {
    let rows = vec![p(0.0, 10.0, "CHORUS"), p(10.0, 12.0, "FILL_OUT"), p(12.0, 30.0, "CHORUS")];
    let display = merge_fills_for_display(&rows);
    let times: Vec<(f64, f64)> = display.iter().map(|r| (v(r.start), v(r.end))).collect();
    assert_eq!(times, vec![(0.0, 12.0), (12.0, 30.0)]);
    assert!(display.iter().all(|r| r.label == "CHORUS"));
}

#[test]
fn a_lead_joins_the_section_behind_it_alone() {
    let rows = vec![
        p(0.0, 10.0, "VERSE"),
        p(10.0, 11.0, "FILL_IN"),
        p(11.0, 12.0, "FILL_IN"),
        p(12.0, 30.0, "VERSE"),
        p(30.0, 31.0, "FILL_OUT"),
        p(31.0, 32.0, "FILL_OUT"),
    ];
    let display = merge_fills_for_display(&rows);
    let times: Vec<(f64, f64)> = display.iter().map(|r| (v(r.start), v(r.end))).collect();
    assert_eq!(times, vec![(0.0, 10.0), (10.0, 32.0)]);
}

#[test]
fn assigning_is_clearing_and_putting_the_new_phrase_in() {
    let rows = vec![
        p(30.0, 50.0, "CHORUS"),
        p(0.0, 20.0, "INTRO"),
        p(45.0, 70.0, "VERSE"),
        p(10.0, 60.0, "BRIDGE"),
        p(80.0, 90.0, "OUTRO"),
    ];
    for (start, end) in [(40.0, 55.0), (0.0, 100.0), (95.0, 99.0), (70.0, 80.0), (5.0, 10.0)] {
        let out = assign_to_selection(&rows, f(start), f(end), "DROP").unwrap();
        let mut parts = clear_selection(&rows, f(start), f(end));
        let new: Vec<usize> = (0..out.len()).filter(|i| out[*i].label == "DROP").collect();
        assert_eq!(new.len(), 1);
        assert_eq!((v(out[new[0]].start), v(out[new[0]].end)), (start, end));
        parts.push(p(start, end, "DROP"));
        parts.sort_by(|a, b| v(a.start).total_cmp(&v(b.start)));
        assert_eq!(out, parts);
        assert!(out.windows(2).all(|w| v(w[0].start) <= v(w[1].start)));
    }
}
