//! Grid anchors of the exported document.

use mixlyzer::domain::segments::TempoSegment;
use mixlyzer::export::tempo::{tempo_entries, TempoEntry};
use mixlyzer::number::binary64::Binary64;

fn f(x: f64) -> Binary64 {
    Binary64::from_bits(x.to_bits())
}

fn v(b: Binary64) -> f64 {
    f64::from_bits(b.to_bits())
}

fn segment(start: f64, end: f64, bpm: f64, inizio: f64, ts: u8) -> TempoSegment {
    TempoSegment::new(f(start), f(end), f(bpm), f(inizio), ts)
}

#[test]
fn battito_counts_beats_from_the_downbeat_one_based() {
    for (n, expected) in [(0, 1), (1, 2), (2, 3), (3, 4), (4, 1), (5, 2)] {
        let start = f64::from(n) * 0.5;
        let entry = TempoEntry::from_segment(&segment(start, start + 10.0, 120.0, 0.0, 4)).unwrap();
        assert_eq!(entry.battito, expected, "n={n}");
        assert!((v(entry.inizio) - start).abs() < 1e-9, "n={n}");
    }
}

#[test]
fn the_anchor_is_the_first_grid_beat_at_or_after_the_start() {
    // Start falls between beats 2 and 3 of the grid, so beat 3 anchors.
    let entry = TempoEntry::from_segment(&segment(1.2, 20.0, 120.0, 0.0, 4)).unwrap();
    assert!((v(entry.inizio) - 1.5).abs() < 1e-9);
    assert_eq!(entry.battito, 4);
}

#[test]
fn a_downbeat_after_the_start_still_anchors_on_a_grid_beat() {
    // Downbeat is later than the segment start: stepping back by whole
    // beats lands before the start, so `ceil` gives a negative count.
    let entry = TempoEntry::from_segment(&segment(0.0, 10.0, 120.0, 1.25, 4)).unwrap();
    assert!((v(entry.inizio) - 0.25).abs() < 1e-9);
    assert_eq!(entry.battito, 3);
}

#[test]
fn grid_anchors_are_not_pushed_a_beat_late_by_floating_point_noise() {
    let entry = TempoEntry::from_segment(&segment(1.0, 9.0, 180.0, 0.0, 4)).unwrap();
    assert!((v(entry.inizio) - 1.0).abs() < 1e-9, "anchored at {}", v(entry.inizio));
    assert_eq!(entry.battito, 4);
}

#[test]
fn non_four_four_meters_wrap_battito_at_their_own_bar_length() {
    let entry = TempoEntry::from_segment(&segment(1.0, 9.0, 180.0, 0.0, 3)).unwrap();
    // 180 bpm -> 1/3 s beat; start 1.0 s is beat 3 after the downbeat.
    assert_eq!(entry.time_signature, 3);
    assert_eq!(entry.battito, 1);
    assert_eq!(entry.to_element().attribute("Metro"), Some("3/4"));
}

#[test]
fn a_segment_with_a_degenerate_inizio_still_exports() {
    let from_row = TempoSegment::from_row(&[f(4.0), f(8.0), f(128.0), f(f64::NAN), f(4.0)]).unwrap();
    let entry = TempoEntry::from_segment(&from_row).unwrap();
    assert!((v(entry.inizio) - 4.0).abs() < 1e-9);
    assert_eq!(entry.battito, 1);

    // A hand-built segment carrying NaN directly is repaired here too.
    let direct = TempoEntry::from_segment(&segment(4.0, 8.0, 128.0, f64::NAN, 4)).unwrap();
    assert_eq!(v(direct.inizio), 4.0);
    assert_eq!(direct.battito, 1);

    let negative = TempoSegment::from_row(&[f(4.0), f(8.0), f(128.0), f(-3.0), f(4.0)]).unwrap();
    assert_eq!(v(TempoEntry::from_segment(&negative).unwrap().inizio), 4.0);
}

#[test]
fn invalid_segments_are_skipped() {
    assert!(TempoEntry::from_segment(&segment(-1.0, 5.0, 120.0, 0.0, 4)).is_none());
    assert!(TempoEntry::from_segment(&segment(f64::NAN, 5.0, 120.0, 0.0, 4)).is_none());
    assert!(TempoEntry::from_segment(&segment(0.0, 5.0, 0.0, 0.0, 4)).is_none());
    assert!(TempoEntry::from_segment(&segment(0.0, 5.0, f64::NAN, 0.0, 4)).is_none());
}

#[test]
fn entries_come_out_sorted_by_time() {
    let segments = vec![
        segment(60.0, 90.0, 130.0, 60.0, 4),
        segment(0.0, 30.0, 120.0, 0.0, 4),
        segment(30.0, 60.0, 125.0, 30.0, 4),
    ];
    let times: Vec<f64> = tempo_entries(&segments, f(0.0)).iter().map(|e| v(e.inizio)).collect();
    assert_eq!(times, vec![0.0, 30.0, 60.0]);
}

#[test]
fn with_no_segments_a_flat_grid_falls_back_to_the_average_bpm() {
    let entries = tempo_entries(&vec![], f(128.0));
    assert_eq!(entries.len(), 1);
    assert_eq!(v(entries[0].inizio), 0.0);
    assert_eq!(v(entries[0].bpm), 128.0);
    assert_eq!(entries[0].battito, 1);
}

#[test]
fn with_no_segments_and_no_tempo_no_anchor_is_emitted() {
    assert!(tempo_entries(&vec![], f(0.0)).is_empty());
    assert!(tempo_entries(&vec![], f(f64::NAN)).is_empty());
}

#[test]
fn the_element_formats_bpm_to_two_places_and_time_to_three() {
    let entry = TempoEntry::from_segment(&segment(1.0 / 3.0, 9.0, 128.456, 1.0 / 3.0, 4)).unwrap();
    let element = entry.to_element();
    assert_eq!(element.name(), "TEMPO");
    assert_eq!(element.attribute("Inizio"), Some("0.333"));
    assert_eq!(element.attribute("Bpm"), Some("128.46"));
    assert_eq!(element.attribute("Battito"), Some("1"));
}
