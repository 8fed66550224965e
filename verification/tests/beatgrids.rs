//! Beat grids: downbeats, positions and lookups.

use mixlyzer::domain::beatgrid::{synthesize_downbeat_times, BarBeat, Beatgrid};
use mixlyzer::domain::segments::TempoSegment;
use mixlyzer::number::binary64::Binary64;

fn f(x: f64) -> Binary64 {
    Binary64::from_bits(x.to_bits())
}

fn v(b: Binary64) -> f64 {
    f64::from_bits(b.to_bits())
}

fn all(times: &[f64]) -> Vec<Binary64> {
    times.iter().map(|t| f(*t)).collect()
}

fn back(times: &[Binary64]) -> Vec<f64> {
    times.iter().map(|t| v(*t)).collect()
}

fn tempo(start: f64, end: f64, bpm: f64, inizio: f64, time_signature: u8) -> TempoSegment {
    TempoSegment::new(f(start), f(end), f(bpm), f(inizio), time_signature)
}

fn uniform_grid(bpm: f64, beats: usize, ts: u8) -> Beatgrid {
    let period = 60.0 / bpm;
    let times: Vec<f64> = (0..beats).map(|i| i as f64 * period).collect();
    let seg = tempo(0.0, times[beats - 1] + period, bpm, 0.0, ts);
    Beatgrid::new(all(&times), vec![seg])
}

#[test]
fn downbeats_land_every_time_signature_beats() {
    let grid = uniform_grid(120.0, 16, 4);
    assert_eq!(grid.downbeat_indices(), vec![0, 4, 8, 12]);
    let waltz = uniform_grid(120.0, 12, 3);
    assert_eq!(waltz.downbeat_indices(), vec![0, 3, 6, 9]);
}

#[test]
fn downbeat_times_are_always_real_beats() {
    let grid = uniform_grid(128.0, 64, 4);
    let beats = back(grid.beats());
    for t in back(&grid.downbeat_times()) {
        assert!(
            beats.iter().any(|b| (b - t).abs() < 1e-12),
            "downbeat {t} is not on a beat"
        );
    }
}

#[test]
fn downbeats_do_not_drift_on_a_jittered_grid() {
    let bpm = 128.0;
    let period = 60.0 / bpm;
    let n = 7680; // one hour at 128 BPM
    let mut times: Vec<f64> = Vec::with_capacity(n);
    let mut t = 0.0;
    // Deterministic pseudo-jitter, a few milliseconds either way.
    for i in 0..n {
        let jitter = ((i as f64 * 12.9898).sin() * 43758.5453).fract() * 0.008 - 0.004;
        times.push(t);
        t += period + jitter;
    }
    let seg = tempo(0.0, *times.last().unwrap() + period, bpm, times[0], 4);
    let grid = Beatgrid::new(all(&times), vec![seg]);

    let index_based = back(&grid.downbeat_times());
    for (k, t) in index_based.iter().enumerate() {
        let expected = times[k * 4];
        assert!(
            (t - expected).abs() < 1e-12,
            "bar {k} landed at {t}, not on beat {}",
            expected
        );
    }

    // The seconds-accumulating fallback is the one that drifts; show that
    // it really does, so this test documents the difference rather than
    // asserting both are fine.
    let accumulated = back(&synthesize_downbeat_times(&grid.segments().to_vec()));
    let pairs = index_based.len().min(accumulated.len());
    let worst = (0..pairs)
        .map(|i| (index_based[i] - accumulated[i]).abs())
        .fold(0.0f64, f64::max);
    assert!(
        worst > 0.05,
        "expected the accumulating definition to drift, saw only {worst}s"
    );
}

#[test]
fn bar_beat_counts_from_one() {
    let grid = uniform_grid(120.0, 16, 4);
    let p = 0.5; // beat period
    assert_eq!(grid.bar_beat_at(f(0.0)).unwrap(), BarBeat { bar: 1, beat: 1 });
    assert_eq!(grid.bar_beat_at(f(p)).unwrap(), BarBeat { bar: 1, beat: 2 });
    assert_eq!(grid.bar_beat_at(f(3.0 * p)).unwrap(), BarBeat { bar: 1, beat: 4 });
    assert_eq!(grid.bar_beat_at(f(4.0 * p)).unwrap(), BarBeat { bar: 2, beat: 1 });
    assert_eq!(grid.bar_beat_label(f(4.0 * p)), "2.1");
}

#[test]
fn before_the_first_beat_reports_bar_zero() {
    let grid = Beatgrid::new(
        all(&[1.0, 1.5, 2.0, 2.5]),
        vec![tempo(0.0, 3.0, 120.0, 1.0, 4)],
    );
    let pos = grid.bar_beat_at(f(0.1)).unwrap();
    assert_eq!(pos.bar, 0);
}

#[test]
fn empty_grid_has_no_position() {
    let grid = Beatgrid::default();
    assert!(grid.bar_beat_at(f(1.0)).is_none());
    assert!(grid.downbeat_indices().is_empty());
    assert!(grid.downbeat_times().is_empty());
    assert_eq!(grid.bar_beat_label(f(1.0)), "");
}

#[test]
fn without_segments_assumes_four_four_from_the_first_beat() {
    let times: Vec<f64> = (0..10).map(|i| i as f64 * 0.5).collect();
    let grid = Beatgrid::new(all(&times), Vec::new());
    assert_eq!(grid.downbeat_indices(), vec![0, 4, 8]);
}

#[test]
fn tempo_change_restarts_the_bar_count_at_its_own_inizio() {
    // 8 beats at 120 BPM, then 8 beats at 140 BPM whose bar starts on the
    // 9th beat overall.
    let mut times: Vec<f64> = (0..8).map(|i| i as f64 * 0.5).collect();
    let switch = 4.0;
    for i in 0..8 {
        times.push(switch + i as f64 * (60.0 / 140.0));
    }
    let segs = vec![
        tempo(0.0, switch, 120.0, 0.0, 4),
        tempo(switch, times[15] + 0.4, 140.0, switch, 4),
    ];
    let grid = Beatgrid::new(all(&times), segs);
    assert_eq!(grid.downbeat_indices(), vec![0, 4, 8, 12]);
}

#[test]
fn nearest_beat_prefers_the_closer_side() {
    let grid = Beatgrid::new(all(&[0.0, 1.0, 2.0]), Vec::new());
    assert_eq!(grid.nearest_beat_index(f(0.4)), Some(0));
    assert_eq!(grid.nearest_beat_index(f(0.6)), Some(1));
    assert_eq!(grid.nearest_beat_index(f(-5.0)), Some(0));
    assert_eq!(grid.nearest_beat_index(f(99.0)), Some(2));
}

#[test]
fn beats_between_counts_a_half_open_range() {
    let grid = uniform_grid(120.0, 16, 4);
    assert_eq!(grid.beats_between(f(0.0), f(2.0)), 4);
    assert_eq!(grid.beats_between(f(2.0), f(2.0)), 0);
    assert_eq!(grid.beats_between(f(5.0), f(1.0)), 0, "reversed range is empty");
}

#[test]
fn non_finite_beats_are_dropped_and_order_is_restored() {
    let grid = Beatgrid::new(all(&[2.0, f64::NAN, 0.0, 1.0, f64::INFINITY]), Vec::new());
    assert_eq!(back(grid.beats()), vec![0.0, 1.0, 2.0]);
}

#[test]
fn a_position_reads_as_bar_dot_beat() {
    assert_eq!(BarBeat { bar: 12, beat: 3 }.to_string(), "12.3");
}

#[test]
fn a_beat_starts_its_own_interval() {
    let grid = Beatgrid::new(all(&[1.0, 2.0, 3.0]), Vec::new());
    assert_eq!(grid.beat_index_at(f(0.5)), None);
    assert_eq!(grid.beat_index_at(f(1.0)), Some(0));
    assert_eq!(grid.beat_index_at(f(2.9)), Some(1));
    assert_eq!(grid.beat_index_at(f(50.0)), Some(2));
    assert_eq!(grid.len(), 3);
    assert!(!grid.is_empty());
}

#[test]
fn synthesized_downbeats_step_by_the_bar() {
    let times = synthesize_downbeat_times(&vec![tempo(0.0, 6.0, 120.0, 0.0, 4)]);
    assert_eq!(back(&times), vec![0.0, 2.0, 4.0, 6.0]);
}

#[test]
fn the_segment_at_a_time_is_the_first_that_covers_it() {
    let segments = vec![tempo(0.0, 10.0, 120.0, 0.0, 4), tempo(10.0, 20.0, 100.0, 10.0, 4)];
    let grid = Beatgrid::new(all(&[0.0, 0.5, 1.0]), segments);
    assert_eq!(grid.segment_at(f(0.0)), Some(0));
    assert_eq!(grid.segment_at(f(9.99)), Some(0));
    assert_eq!(grid.segment_at(f(10.0)), Some(1));
    assert_eq!(grid.segment_at(f(20.0)), None);
    assert_eq!(grid.segment_at(f(-0.1)), None);
}

#[test]
fn segments_that_cover_no_beat_count_as_none() {
    let times = all(&[0.0, 0.5, 1.0, 1.5, 2.0]);
    let empty = Beatgrid::new(times.clone(), vec![tempo(4.0, 4.0, 120.0, 4.0, 4)]);
    assert_eq!(empty.downbeat_indices(), vec![0, 4]);
    let late = Beatgrid::new(times.clone(), vec![tempo(4.0, 8.0, 120.0, 4.0, 3)]);
    assert_eq!(late.downbeat_indices(), vec![0, 4]);
    let used = Beatgrid::new(times, vec![tempo(4.0, 4.0, 120.0, 4.0, 4), tempo(0.0, 2.5, 120.0, 0.5, 3)]);
    assert_eq!(used.downbeat_indices(), vec![1, 4]);
}
