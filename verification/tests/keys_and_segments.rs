//! Keys, tempo and key segments, and the rows the search index keeps of them.

use mixlyzer::domain::key::{Key, Mode};
use mixlyzer::domain::linear::{build_bpm_segments, build_key_segments, key_value_to_label};
use mixlyzer::domain::segments::{
    key_segments_from_flat, tempo_segments_from_flat, KeySegment, TempoSegment, DEFAULT_TIME_SIGNATURE,
};
use mixlyzer::number::binary64::Binary64;

fn f(x: f64) -> Binary64 {
    Binary64::from_bits(x.to_bits())
}

fn v(b: Binary64) -> f64 {
    f64::from_bits(b.to_bits())
}

fn row(values: &[f64]) -> Vec<Binary64> {
    values.iter().map(|x| f(*x)).collect()
}

fn tempo(start: f64, end: f64, bpm: f64, inizio: f64, time_signature: u8) -> TempoSegment {
    TempoSegment::new(f(start), f(end), f(bpm), f(inizio), time_signature)
}

fn key(start: f64, end: f64, key: Key) -> KeySegment {
    KeySegment::new(f(start), f(end), key)
}

#[test]
fn index_conventions_match_python() {
    assert_eq!(Key::from_index(0).camelot(), "8B");
    assert_eq!(Key::from_index(0).classical(), "C");
    assert_eq!(Key::from_index(12).camelot(), "5A");
    assert_eq!(Key::from_index(12).classical(), "Cm");
    assert_eq!(Key::from_index(23).camelot(), "10A");
    assert_eq!(Key::from_index(23).classical(), "Bm");
    assert_eq!(Key::from_index(0).mode(), Mode::Major);
    assert_eq!(Key::from_index(12).mode(), Mode::Minor);
}

#[test]
fn key_value_is_pitch_plus_twelve_times_mode() {
    for pitch in 0u8..12 {
        assert_eq!(Key::new(pitch, Mode::Major).index(), pitch);
        assert_eq!(Key::new(pitch, Mode::Minor).index(), pitch + 12);
    }
}

#[test]
fn negative_and_large_indices_wrap() {
    assert_eq!(Key::from_index(-1), Key::from_index(23));
    assert_eq!(Key::from_index(24), Key::from_index(0));
    assert_eq!(Key::from_index(-24), Key::from_index(0));
}

#[test]
fn relative_key_shares_camelot_number() {
    for idx in 0..24 {
        let key = Key::from_index(idx);
        let rel = key.relative();
        assert_eq!(key.camelot_number(), rel.camelot_number());
        assert_ne!(key.mode(), rel.mode());
        assert_eq!(rel.relative(), key, "relative is an involution");
    }
}

#[test]
fn harmonic_neighbours_are_wheel_adjacent_plus_relative() {
    let c_major = Key::from_index(0);
    let labels: Vec<&str> = c_major.harmonic_neighbours().iter().map(|k| k.camelot()).collect();
    let mut sorted = labels.clone();
    sorted.sort_unstable();
    assert_eq!(sorted, vec!["7B", "8A", "8B", "9B"]);
}

#[test]
fn harmonic_neighbours_wrap_around_the_wheel() {
    let key = Key::from_camelot(1, Mode::Major).unwrap();
    let mut labels: Vec<&str> = key.harmonic_neighbours().iter().map(|k| k.camelot()).collect();
    labels.sort_unstable();
    assert_eq!(labels, vec!["12B", "1A", "1B", "2B"]);
}

#[test]
fn every_key_has_exactly_four_neighbours_including_itself() {
    for idx in 0..24 {
        let key = Key::from_index(idx);
        let n = key.harmonic_neighbours();
        assert_eq!(n.len(), 4, "key {} ({})", idx, key.camelot());
        assert!(n.contains(&key));
    }
}

#[test]
fn labels_are_unique() {
    let mut cam: Vec<&str> = (0..24).map(|i| Key::from_index(i).camelot()).collect();
    cam.sort_unstable();
    cam.dedup();
    assert_eq!(cam.len(), 24);
    let mut cls: Vec<&str> = (0..24).map(|i| Key::from_index(i).classical()).collect();
    cls.sort_unstable();
    cls.dedup();
    assert_eq!(cls.len(), 24);
}

#[test]
fn there_is_no_camelot_number_past_twelve() {
    assert_eq!(Key::from_camelot(0, Mode::Major), None);
    assert_eq!(Key::from_camelot(13, Mode::Minor), None);
    for number in 1..=12 {
        for mode in [Mode::Major, Mode::Minor] {
            let key = Key::from_camelot(number, mode).unwrap();
            assert_eq!(key.camelot_number(), number);
            assert_eq!(key.mode(), mode);
            assert_eq!(key.camelot(), format!("{}{}", number, mode.camelot_letter()));
        }
    }
}

#[test]
fn a_key_displays_both_its_names() {
    assert_eq!(Key::from_index(21).display(), "Am (8A)");
    assert_eq!(Key::from_index(21).pitch_class(), 9);
    assert_eq!(Mode::from_flag(Mode::Minor.flag()), Mode::Minor);
    assert_eq!(Mode::from_flag(0), Mode::Major);
    assert_eq!(Mode::from_flag(7), Mode::Minor);
}

#[test]
fn merges_adjacent_rows_with_the_same_tempo() {
    let segs = vec![
        tempo(0.0, 10.0, 128.0, 0.0, 4),
        tempo(10.0, 20.0, 128.0, 10.0, 4),
        tempo(20.0, 30.0, 140.0, 20.0, 4),
    ];
    let rows = build_bpm_segments(&segs);
    assert_eq!(rows.len(), 2);
    assert_eq!(v(rows[0].start_sec), 0.0);
    assert_eq!(v(rows[0].end_sec), 20.0);
    assert_eq!(v(rows[0].duration_sec), 20.0);
    assert_eq!(v(rows[1].bpm), 140.0);
    assert_eq!(rows[0].seq_index, 0);
    assert_eq!(rows[1].seq_index, 1);
}

#[test]
fn a_meter_change_prevents_merging() {
    let segs = vec![tempo(0.0, 10.0, 120.0, 0.0, 4), tempo(10.0, 20.0, 120.0, 10.0, 3)];
    assert_eq!(build_bpm_segments(&segs).len(), 2);
}

#[test]
fn merging_ignores_time_gaps_between_segments() {
    let segs = vec![tempo(0.0, 10.0, 128.0, 0.0, 4), tempo(50.0, 60.0, 128.0, 50.0, 4)];
    let rows = build_bpm_segments(&segs);
    assert_eq!(rows.len(), 1);
    assert_eq!(v(rows[0].end_sec), 60.0);
    assert_eq!(v(rows[0].duration_sec), 60.0);
}

#[test]
fn zero_length_segments_are_dropped() {
    let segs = vec![tempo(0.0, 0.0, 128.0, 0.0, 4), tempo(0.0, 10.0, 128.0, 0.0, 4)];
    let rows = build_bpm_segments(&segs);
    assert_eq!(rows.len(), 1);
    assert_eq!(v(rows[0].end_sec), 10.0);
}

#[test]
fn bpm_is_rounded_for_the_search_index() {
    let segs = vec![tempo(0.0, 10.0, 127.6, 0.0, 4)];
    assert_eq!(build_bpm_segments(&segs)[0].bpm_rounded, 128);
}

#[test]
fn key_rows_merge_and_carry_camelot_labels() {
    let segs = vec![
        key(0.0, 10.0, Key::new(9, Mode::Minor)),
        key(10.0, 20.0, Key::new(9, Mode::Minor)),
        key(20.0, 30.0, Key::new(0, Mode::Major)),
    ];
    let rows = build_key_segments(&segs);
    assert_eq!(rows.len(), 2);
    assert_eq!(v(rows[0].end_sec), 20.0);
    assert_eq!(rows[0].key_value, 21);
    assert_eq!(rows[0].key_label, "8A");
    assert_eq!(rows[1].key_label, "8B");
}

#[test]
fn key_label_lookup_rejects_out_of_range_values() {
    assert_eq!(key_value_to_label(Some(0)), "8B");
    assert_eq!(key_value_to_label(Some(23)), "10A");
    assert_eq!(key_value_to_label(Some(24)), "");
    assert_eq!(key_value_to_label(Some(-1)), "");
    assert_eq!(key_value_to_label(None), "");
}

#[test]
fn empty_input_produces_no_rows() {
    assert!(build_bpm_segments(&vec![]).is_empty());
    assert!(build_key_segments(&vec![]).is_empty());
}

#[test]
fn parses_five_column_rows() {
    let seg = TempoSegment::from_row(&row(&[0.0, 60.0, 128.0, 0.5, 3.0])).unwrap();
    assert_eq!(v(seg.start), 0.0);
    assert_eq!(v(seg.end), 60.0);
    assert_eq!(v(seg.bpm), 128.0);
    assert_eq!(v(seg.inizio), 0.5);
    assert_eq!(seg.time_signature, 3);
}

#[test]
fn legacy_rows_default_inizio_and_time_signature() {
    let three = TempoSegment::from_row(&row(&[10.0, 20.0, 120.0])).unwrap();
    assert_eq!(v(three.inizio), 10.0, "inizio defaults to the segment start");
    assert_eq!(three.time_signature, DEFAULT_TIME_SIGNATURE);

    let four = TempoSegment::from_row(&row(&[10.0, 20.0, 120.0, 11.0])).unwrap();
    assert_eq!(v(four.inizio), 11.0);
    assert_eq!(four.time_signature, DEFAULT_TIME_SIGNATURE);
}

#[test]
fn non_finite_or_negative_inizio_falls_back_to_start() {
    for bad in [f64::NAN, f64::INFINITY, -1.0] {
        let seg = TempoSegment::from_row(&row(&[5.0, 10.0, 120.0, bad])).unwrap();
        assert_eq!(v(seg.inizio), 5.0, "inizio {bad} should fall back to start");
    }
}

#[test]
fn rejects_unusable_rows() {
    assert!(TempoSegment::from_row(&row(&[0.0, 1.0])).is_none(), "too few columns");
    assert!(TempoSegment::from_row(&row(&[f64::NAN, 1.0, 120.0])).is_none());
    assert!(TempoSegment::from_row(&row(&[0.0, 1.0, 0.0])).is_none(), "zero bpm");
    assert!(TempoSegment::from_row(&row(&[0.0, 1.0, -120.0])).is_none(), "negative bpm");
}

#[test]
fn zero_time_signature_falls_back_to_four() {
    let seg = TempoSegment::from_row(&row(&[0.0, 1.0, 120.0, 0.0, 0.0])).unwrap();
    assert_eq!(seg.time_signature, DEFAULT_TIME_SIGNATURE);
}

#[test]
fn row_round_trips() {
    let seg = tempo(1.0, 2.0, 130.5, 1.25, 3);
    assert_eq!(TempoSegment::from_row(&seg.to_row()).unwrap(), seg);
}

#[test]
fn periods_follow_bpm_and_meter() {
    let seg = tempo(0.0, 60.0, 120.0, 0.0, 4);
    assert!((v(seg.beat_period()) - 0.5).abs() < 1e-12);
    assert!((v(seg.bar_period()) - 2.0).abs() < 1e-12);
    let waltz = tempo(0.0, 60.0, 120.0, 0.0, 3);
    assert!((v(waltz.bar_period()) - 1.5).abs() < 1e-12);
}

#[test]
fn flat_buffer_parses_and_skips_bad_rows() {
    let flat = row(&[
        0.0, 10.0, 120.0, 0.0, 4.0, 10.0, 20.0, 0.0, 0.0, 4.0, 20.0, 30.0, 128.0, 20.5, 4.0,
    ]);
    let segs = tempo_segments_from_flat(&flat, 5);
    assert_eq!(segs.len(), 2);
    assert_eq!(v(segs[1].bpm), 128.0);
}

#[test]
fn key_rows_use_pitch_mode_start_end_order() {
    let seg = KeySegment::from_row(&row(&[9.0, 1.0, 0.0, 30.0])).unwrap();
    assert_eq!(seg.key.index(), 21, "A minor is index 21");
    assert_eq!(seg.key.camelot(), "8A");
    assert_eq!(v(seg.start), 0.0);
    assert_eq!(v(seg.end), 30.0);
    assert_eq!(KeySegment::from_row(&seg.to_row()).unwrap(), seg);
}

#[test]
fn key_row_mode_flag_other_than_one_is_major() {
    let seg = KeySegment::from_row(&row(&[0.0, 0.0, 0.0, 1.0])).unwrap();
    assert_eq!(seg.key.mode(), Mode::Major);
    let nan_mode = KeySegment::from_row(&row(&[0.0, f64::NAN, 0.0, 1.0])).unwrap();
    assert_eq!(nan_mode.key.mode(), Mode::Major);
}

#[test]
fn flat_key_rows_parse_and_skip_bad_ones() {
    let flat = row(&[9.0, 1.0, 0.0, 30.0, f64::NAN, 0.0, 30.0, 40.0, 0.0, 0.0, 40.0, 50.0]);
    let segs = key_segments_from_flat(&flat, 4);
    assert_eq!(segs.len(), 2);
    assert_eq!(segs[1].key.camelot(), "8B");
    assert_eq!(v(segs[1].duration()), 10.0);
}

#[test]
fn a_segment_contains_its_start_and_not_its_end() {
    let seg = tempo(1.0, 2.0, 120.0, 1.0, 4);
    assert!(seg.contains(f(1.0)));
    assert!(seg.contains(f(1.5)));
    assert!(!seg.contains(f(2.0)));
    assert!(!seg.contains(f(0.5)));
}
