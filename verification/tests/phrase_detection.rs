//! Which tracks are looked at for phrases, and how phrases are put together.

use mixlyzer::detect::error::PhraseError;
use mixlyzer::detect::gbm::HistGradientBoosting;
use mixlyzer::detect::grid::build_predictor_grid;
use mixlyzer::detect::model::{ModelSettings, PhraseModel};
use mixlyzer::detect::noise::{matrix_checksum, random_matrix, Xorshift};
use mixlyzer::detect::phrases::{admit_track, assemble, PhraseOptions, MIN_BEATS_FOR_DETECTION};
use mixlyzer::detect::sync::check_audio;
use mixlyzer::domain::segments::TempoSegment;
use mixlyzer::number::binary64::Binary64;

fn f(x: f64) -> Binary64 {
    Binary64::from_bits(x.to_bits())
}

fn v(b: Binary64) -> f64 {
    f64::from_bits(b.to_bits())
}

fn all(values: &[f64]) -> Vec<Binary64> {
    values.iter().map(|x| f(*x)).collect()
}

fn tempo(start: f64, end: f64, bpm: f64, inizio: f64, time_signature: u8) -> TempoSegment {
    TempoSegment::new(f(start), f(end), f(bpm), f(inizio), time_signature)
}

fn steady_beats(count: usize, period: f64) -> Vec<Binary64> {
    (0..count).map(|i| f(i as f64 * period)).collect()
}

fn ensemble() -> HistGradientBoosting {
    HistGradientBoosting {
        classes: vec![],
        baseline: vec![],
        tree_classes: vec![],
        tree_offsets: vec![],
        value: vec![],
        feature_idx: vec![],
        threshold: vec![],
        missing_go_to_left: vec![],
        left: vec![],
        right: vec![],
        is_leaf: vec![],
    }
}

fn model() -> PhraseModel {
    PhraseModel {
        settings: ModelSettings::default(),
        boundary: ensemble(),
        label: ensemble(),
        labels: vec![],
        transition: vec![],
        length_mu: vec![],
        length_sigma: vec![],
    }
}

#[test]
fn a_short_track_yields_no_phrases_rather_than_an_error() {
    let options = PhraseOptions::new(model());
    let beats = steady_beats(16, 0.5);
    let segments = vec![tempo(0.0, 8.0, 120.0, 0.0, 4)];
    let grid = admit_track(22_050, &beats, &segments, &options.model.settings).unwrap();
    assert!(grid.is_none(), "16 beats is below the 17-beat floor");
    let enough = steady_beats(MIN_BEATS_FOR_DETECTION, 0.5);
    let grid = admit_track(22_050, &enough, &segments, &options.model.settings).unwrap();
    assert_eq!(grid.unwrap().n_beats(), 17);
}

#[test]
fn a_sample_rate_the_model_was_not_trained_on_is_refused() {
    let options = PhraseOptions::new(model());
    let beats = steady_beats(64, 0.5);
    let segments = vec![tempo(0.0, 32.0, 120.0, 0.0, 4)];
    assert!(matches!(
        admit_track(44_100, &beats, &segments, &options.model.settings),
        Err(PhraseError::SampleRateMismatch { found: 44_100, expected: 22_050 })
    ));
}

#[test]
fn a_missing_tempo_map_is_an_error_not_a_guess() {
    let options = PhraseOptions::new(model());
    let beats = steady_beats(64, 0.5);
    assert!(matches!(
        admit_track(22_050, &beats, &[], &options.model.settings),
        Err(PhraseError::NoTempoSegments)
    ));
}

#[test]
fn matching_python_turns_the_end_state_prior_back_on() {
    let strict = PhraseOptions::matching_python(model());
    assert_eq!(strict.end_state_weight, strict.model.settings.transition_weight);
    assert_eq!(v(PhraseOptions::new(model()).end_state_weight), 0.0);
}

#[test]
fn a_track_whose_beat_grid_outruns_the_audio_is_refused() {
    let beats = steady_beats(240, 0.5);
    let tempo = vec![tempo(0.0, 120.0, 120.0, 0.0, 4)];
    let options = PhraseOptions::new(model());
    assert!(admit_track(22_050, &beats, &tempo, &options.model.settings).unwrap().is_some());
    assert!(matches!(
        check_audio(10 * 22_050, 22_050, &beats),
        Err(PhraseError::GridPastAudio { .. })
    ));
}

#[test]
fn a_downbeat_that_matches_no_beat_is_refused_before_any_audio_is_touched() {
    let beats = steady_beats(64, 0.5);
    let tempo = vec![tempo(0.0, 32.0, 120.0, 0.25, 4)];
    let options = PhraseOptions::new(model());
    assert!(matches!(
        admit_track(22_050, &beats, &tempo, &options.model.settings),
        Err(PhraseError::DownbeatNotOnBeat { .. })
    ));
}

#[test]
fn phrases_tile_the_track_in_order() {
    let beats = steady_beats(32, 0.5);
    let grid = build_predictor_grid(&beats, &vec![tempo(0.0, 16.0, 120.0, 0.0, 4)]).unwrap();
    let labels = vec!["INTRO".to_string(), " CHORUS ".to_string(), "OUTRO".to_string()];
    let phrases = assemble(&grid, f(20.0), &[0, 8, 24, 32], &labels);
    let spans: Vec<(f64, f64, &str)> = phrases.iter().map(|p| (v(p.start), v(p.end), p.label.as_str())).collect();
    assert_eq!(spans, vec![(0.0, 4.0, "INTRO"), (4.0, 12.0, "CHORUS"), (12.0, 20.0, "OUTRO")]);
}

#[test]
fn a_grid_that_outlasts_the_audio_ends_a_beat_past_the_last() {
    let beats = steady_beats(32, 0.5);
    let grid = build_predictor_grid(&beats, &vec![tempo(0.0, 16.0, 120.0, 0.0, 4)]).unwrap();
    let phrases = assemble(&grid, f(10.0), &[0, 16, 16, 32], &vec!["A".to_string(); 3]);
    assert_eq!(phrases.len(), 2, "a phrase without length is dropped");
    assert_eq!(v(phrases[1].end), 16.0);
}

#[test]
fn noise_is_reproducible_and_bounded() {
    let mut a = Xorshift::new(0);
    let mut b = Xorshift::new(0x1234_5678);
    let mut state: u32 = 0x1234_5678;
    for _ in 0..200 {
        state ^= state << 13;
        state ^= state >> 17;
        state ^= state << 5;
        let expected = f64::from(state) / f64::from(u32::MAX) * 2.0 - 1.0;
        let got = v(a.next_unit());
        assert_eq!(got, expected);
        assert_eq!(got, v(b.next_unit()));
        assert!((-1.0..=1.0).contains(&got));
    }
}

#[test]
fn a_random_matrix_misses_every_97th_cell() {
    let rows = random_matrix(7, 20, 10);
    let cells: Vec<f64> = rows.iter().flatten().map(|x| v(*x)).collect();
    for (i, cell) in cells.iter().enumerate() {
        assert_eq!(cell.is_nan(), (i + 1) % 97 == 0, "cell {i}");
    }
    let mut expected = 0.0;
    for cell in cells.iter().filter(|c| c.is_finite()) {
        expected += cell;
    }
    assert_eq!(v(matrix_checksum(&rows)), expected);
}

#[test]
fn noise_stays_below_one() {
    // The next state of this seed is the largest there is.
    let mut source = Xorshift::new(0x5E6C_FCE7);
    let mut state: u32 = 0x5E6C_FCE7;
    state ^= state << 13;
    state ^= state >> 17;
    state ^= state << 5;
    assert_eq!(state, u32::MAX);
    let got = v(source.next_unit());
    assert!((-1.0..1.0).contains(&got));
    assert_eq!(got.to_bits(), 1.0f64.to_bits() - 1);
}

#[test]
fn too_few_beats_come_before_any_fault_of_the_grid() {
    let options = PhraseOptions::new(model());
    let few = steady_beats(7, 0.5);
    assert!(admit_track(22_050, &few, &[], &options.model.settings).unwrap().is_none());
    assert!(admit_track(22_050, &[], &[], &options.model.settings).unwrap().is_none());
}

#[test]
fn phrases_meet_where_none_is_too_short() {
    let beats = steady_beats(32, 0.5);
    let grid = build_predictor_grid(&beats, &vec![tempo(0.0, 16.0, 120.0, 0.0, 4)]).unwrap();
    let labels: Vec<String> = ["INTRO", "VERSE", "CHORUS"].iter().map(|l| l.to_string()).collect();
    let phrases = assemble(&grid, f(16.0), &[0, 8, 20, 32], &labels);
    let times: Vec<(f64, f64)> = phrases.iter().map(|p| (v(p.start), v(p.end))).collect();
    assert_eq!(times, vec![(0.0, 4.0), (4.0, 10.0), (10.0, 16.0)]);
}
