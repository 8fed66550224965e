//! The beat grid that phrase detection works on.

use mixlyzer::detect::error::PhraseError;
use mixlyzer::detect::grid::build_predictor_grid;
use mixlyzer::domain::segments::TempoSegment;
use mixlyzer::number::binary64::Binary64;

fn f(x: f64) -> Binary64 {
    Binary64::from_bits(x.to_bits())
}

fn v(b: Binary64) -> f64 {
    f64::from_bits(b.to_bits())
}

fn all(values: &[f64]) -> Vec<Binary64> {
    values.iter().map(|x| f(*x)).collect()
}

fn tempo(start: f64, end: f64, bpm: f64, inizio: f64, time_signature: u8) -> TempoSegment {
    TempoSegment::new(f(start), f(end), f(bpm), f(inizio), time_signature)
}

fn steady_beats(count: usize, period: f64) -> Vec<f64> {
    (0..count).map(|i| i as f64 * period).collect()
}

fn four_four(end: f64, inizio: f64) -> Vec<TempoSegment> {
    vec![tempo(0.0, end, 120.0, inizio, 4)]
}

#[test]
fn every_fourth_beat_is_a_downbeat_in_four_four() {
    let beats = steady_beats(32, 0.5);
    let grid = build_predictor_grid(&all(&beats), &four_four(16.0, 0.0)).unwrap();
    assert_eq!(grid.n_beats(), 32);
    assert_eq!(grid.n_bars(), 8);
    for (index, is_downbeat) in grid.downbeat_mask.iter().enumerate() {
        assert_eq!(*is_downbeat, index % 4 == 0, "beat {index}");
    }
    assert!(grid.bar_meters.iter().all(|m| *m == 4));
    assert!(!grid.bar_is_partial.iter().any(|p| *p));
}

#[test]
fn the_downbeat_anchor_shifts_the_whole_phase() {
    let beats = steady_beats(32, 0.5);
    let grid = build_predictor_grid(&all(&beats), &four_four(16.0, 1.0)).unwrap();
    for (index, is_downbeat) in grid.downbeat_mask.iter().enumerate() {
        assert_eq!(*is_downbeat, index % 4 == 2, "beat {index}");
    }
    assert!(grid.bar_is_partial[0], "the opening two beats are a part bar");
}

#[test]
fn a_downbeat_far_from_any_beat_is_an_error_not_a_silent_snap() {
    let beats = steady_beats(32, 0.5);
    let err = build_predictor_grid(&all(&beats), &four_four(16.0, 0.25)).unwrap_err();
    match err {
        PhraseError::DownbeatNotOnBeat { error, tolerance, .. } => {
            assert!(v(error) > v(tolerance));
        }
        other => panic!("expected DownbeatNotOnBeat, got {other:?}"),
    }
}

#[test]
fn a_downbeat_inside_the_tolerance_snaps_to_the_nearest_beat() {
    let beats = steady_beats(32, 0.5);
    // 0.48 * 0.5 = 0.24s of slack; 0.2 is inside it.
    let grid = build_predictor_grid(&all(&beats), &four_four(16.0, 4.2)).unwrap();
    assert!(grid.downbeat_mask[8], "4.0s is beat 8");
}

#[test]
fn fewer_than_eight_beats_is_rejected() {
    let beats = steady_beats(7, 0.5);
    assert!(matches!(
        build_predictor_grid(&all(&beats), &four_four(4.0, 0.0)),
        Err(PhraseError::BeatGridTooShort)
    ));
}

#[test]
fn beats_that_do_not_advance_are_rejected_with_the_offending_index() {
    let mut beats = steady_beats(16, 0.5);
    beats[9] = beats[8];
    match build_predictor_grid(&all(&beats), &four_four(8.0, 0.0)) {
        Err(PhraseError::BeatsNotIncreasing { index }) => assert_eq!(index, 9),
        other => panic!("expected BeatsNotIncreasing, got {other:?}"),
    }
}

#[test]
fn no_usable_tempo_segment_is_reported() {
    let beats = steady_beats(16, 0.5);
    assert!(matches!(
        build_predictor_grid(&all(&beats), &[]),
        Err(PhraseError::NoTempoSegments)
    ));
    // A zero-length row carries no meter information and is dropped.
    let empty = vec![tempo(4.0, 4.0, 120.0, 4.0, 4)];
    assert!(matches!(
        build_predictor_grid(&all(&beats), &empty),
        Err(PhraseError::NoTempoSegments)
    ));
}

#[test]
fn a_meter_change_mid_track_is_honoured_by_each_segment() {
    let beats = steady_beats(24, 0.5);
    let segments = vec![
        tempo(0.0, 6.0, 120.0, 0.0, 4),
        tempo(6.0, 12.0, 120.0, 6.0, 3),
    ];
    let grid = build_predictor_grid(&all(&beats), &segments).unwrap();
    assert!(grid.downbeat_mask[0] && grid.downbeat_mask[4] && grid.downbeat_mask[8]);
    // From beat 12 (6.0s) onwards the bar is three beats long.
    assert!(grid.downbeat_mask[12] && grid.downbeat_mask[15] && grid.downbeat_mask[18]);
    assert!(!grid.downbeat_mask[16]);
}

#[test]
fn beats_beyond_the_last_segment_inherit_the_nearest_meter() {
    let beats = steady_beats(32, 0.5);
    // The segments stop at 4s but the beats run to 15.5s.
    let grid = build_predictor_grid(&all(&beats), &four_four(4.0, 0.0)).unwrap();
    assert!(grid.bar_meters.iter().all(|m| *m == 4));
    assert!(grid.downbeat_mask[28], "the phase carries on past the segment");
}

#[test]
fn the_last_beat_gets_an_edge_a_beat_wide() {
    let beats = steady_beats(16, 0.5);
    let grid = build_predictor_grid(&all(&beats), &four_four(20.0, 0.0)).unwrap();
    assert_eq!(grid.beat_edges_sec.len(), 17);
    assert!((v(grid.beat_edges_sec[16]) - 8.0).abs() < 1e-9);
}

#[test]
fn bars_tile_the_beats_without_gaps_or_overlap() {
    let beats = steady_beats(30, 0.5);
    let grid = build_predictor_grid(&all(&beats), &four_four(15.0, 1.0)).unwrap();
    assert_eq!(grid.bar_starts_beat[0], 0);
    assert_eq!(*grid.bar_ends_beat.last().unwrap(), 30);
    for pair in 0..grid.n_bars() - 1 {
        assert_eq!(grid.bar_ends_beat[pair], grid.bar_starts_beat[pair + 1]);
    }
}

#[test]
fn beats_without_a_finite_time_are_rejected() {
    let mut beats = steady_beats(16, 0.5);
    beats[3] = f64::NAN;
    assert!(matches!(
        build_predictor_grid(&all(&beats), &four_four(8.0, 0.0)),
        Err(PhraseError::BeatTimesNotFinite)
    ));
    let mut early = steady_beats(16, 0.5);
    early[0] = -0.1;
    assert!(matches!(
        build_predictor_grid(&all(&early), &four_four(8.0, 0.0)),
        Err(PhraseError::BeatTimesNotFinite)
    ));
}

#[test]
fn segments_away_from_every_beat_are_reported() {
    let beats: Vec<f64> = steady_beats(16, 0.5).iter().map(|t| t + 100.0).collect();
    let outcome = build_predictor_grid(&all(&beats), &vec![tempo(0.0, 8.0, 120.0, 100.0, 4)]);
    assert!(matches!(outcome, Err(PhraseError::SegmentsMissTheGrid)), "{outcome:?}");
}
