//! What the command line prints.

use mixlyzer::analyze::report::{Analysis, Envelopes};
use mixlyzer::cli::render::{
    analysis_text, display_title, format_duration, side_label, track_table, transition_table, truncate, Transition, TransitionSide,
};
use mixlyzer::domain::beatgrid::Beatgrid;
use mixlyzer::domain::cue::CuePoint;
use mixlyzer::domain::jumpcue::{JumpCue, JumpCueGraph};
use mixlyzer::domain::key::Key;
use mixlyzer::domain::phrase::Phrase;
use mixlyzer::domain::segments::{KeySegment, TempoSegment};
use mixlyzer::domain::track::Track;
use mixlyzer::number::binary64::Binary64;

fn f(x: f64) -> Binary64 {
    Binary64::from_bits(x.to_bits())
}

fn track(title: &str, artist: &str) -> Track {
    let mut track = Track::new("/music/song.flac", false);
    track.title = title.to_string();
    track.artist = artist.to_string();
    track
}

#[test]
fn a_title_with_an_artist_reads_as_artist_dash_title() {
    assert_eq!(display_title(&track("Song", "Artist")), "Artist - Song");
}

#[test]
fn a_title_without_an_artist_stands_alone() {
    assert_eq!(display_title(&track("Song", "")), "Song");
}

#[test]
fn a_track_with_no_title_falls_back_to_its_path() {
    assert_eq!(display_title(&track("", "")), "/music/song.flac");
}

#[test]
fn durations_read_as_minutes_and_seconds() {
    assert_eq!(format_duration(f(0.0)), "0:00");
    assert_eq!(format_duration(f(9.4)), "0:09");
    assert_eq!(format_duration(f(61.0)), "1:01");
    assert_eq!(format_duration(f(3599.0)), "59:59");
    assert_eq!(format_duration(f(3600.0)), "60:00");
}

#[test]
fn an_unknown_duration_is_marked_rather_than_shown_as_zero() {
    assert_eq!(format_duration(f(f64::NAN)), "--:--");
    assert_eq!(format_duration(f(-1.0)), "--:--");
}

#[test]
fn truncation_marks_where_it_cut() {
    assert_eq!(truncate("short", 10), "short");
    assert_eq!(truncate("exactlyten", 10), "exactlyten");
    assert_eq!(truncate("this is far too long", 10), "this is f…");
}

#[test]
fn truncation_counts_characters_not_bytes() {
    // Multi-byte titles must not be cut mid-character.
    let title = "한국어 제목이 아주 깁니다";
    let cut = truncate(title, 5);
    assert_eq!(cut.chars().count(), 5);
}

#[test]
fn the_track_table_has_a_row_per_track_and_a_total() {
    let mut first = track("One", "A");
    first.bpm = Some(f(128.0));
    first.key = Some(Key::from_index(0));
    first.duration = Some(f(200.0));
    let second = track("", "");
    let rendered = track_table(&vec![first, second]);
    assert!(rendered.contains("A - One"));
    assert!(rendered.contains("128.00"));
    assert!(rendered.contains("8B"));
    assert!(rendered.contains("3:20"));
    assert!(rendered.contains("--"), "a missing BPM should be marked");
    assert!(rendered.contains("2 track(s)"));
}

#[test]
fn an_empty_table_still_has_headings() {
    let rendered = track_table(&vec![]);
    assert!(rendered.contains("TITLE"));
    assert!(rendered.contains("0 track(s)"));
}

fn analysis() -> Analysis {
    let beats = (0..8).map(|i| f(i as f64 * 0.5)).collect();
    Analysis {
        duration_sec: f(125.678),
        analysis_sample_rate: 22_050,
        beatgrid: Beatgrid::new(beats, vec![TempoSegment::new(f(0.0), f(4.0), f(120.0), f(0.25), 4)]),
        tempo_global: f(120.0),
        key_segments: (0..14)
            .map(|i| KeySegment::new(f(i as f64 * 8.0), f(i as f64 * 8.0 + 8.0), Key::from_index(i)))
            .collect(),
        overall_key: Some(Key::from_index(21)),
        envelopes: Envelopes {
            low: vec![],
            mid: vec![],
            high: vec![],
            min: vec![],
            max: vec![],
            hop: 88,
            sample_rate: 22_050,
        },
        beat_confidence: f(0.876),
        jump_cues: JumpCueGraph::new(vec![
            JumpCue::new(0, "A", f(10.0), f(18.0), f(12.0), 0),
            JumpCue::new(1, "B", f(70.0), f(78.0), f(72.0), 0),
        ]),
        phrases: vec![Phrase::new(f(0.0), f(32.0), "INTRO")],
        cue_points: vec![CuePoint::new(0, f(32.0), "CHORUS_IN", "Chorus start")],
    }
}

#[test]
fn the_summary_of_an_analysis_shows_every_section() {
    let mut expected = String::new();
    expected.push_str("file       song.flac\n");
    expected.push_str("duration   2:06 (125.68s)\n");
    expected.push_str("tempo      120.00 BPM\n");
    expected.push_str("key        Am (8A)\n");
    expected.push_str("beats      8 (2 bars)\n");
    expected.push_str("confidence 88%\n");
    expected.push_str("\ntempo segments (1)\n");
    expected.push_str(&format!(
        "  {:>3}  {:>8} - {:<8}  {:>7.2} BPM  {}/4  bar starts {:.3}s\n",
        0, "0:00", "0:04", 120.0, 4, 0.25
    ));
    expected.push_str("\njump cues (2)\n");
    for (label, start, end, point) in [("A", "0:10", "0:18", "0:12"), ("B", "1:10", "1:18", "1:12")] {
        expected.push_str(&format!("  {label}  {start:>8} - {end:<8}  jump at {point:>8}  pair 1\n"));
    }
    expected.push_str(&format!("\nphrases (1)\n  {:>8} - {:<8}  INTRO\n", "0:00", "0:32"));
    expected.push_str(&format!("\ncue points (1)\n  {:>2}  {:>8}  CHORUS_IN\n", 0, "0:32"));
    expected.push_str("\nkey segments (14)\n");
    for i in 0..12 {
        expected.push_str(&format!(
            "  {:>8} - {:<8}  {}\n",
            format_duration(f(i as f64 * 8.0)),
            format_duration(f(i as f64 * 8.0 + 8.0)),
            Key::from_index(i).display()
        ));
    }
    expected.push_str("  ... 2 more\n");
    assert_eq!(analysis_text("song.flac", &analysis()), expected);
}

#[test]
fn sections_with_nothing_in_them_are_left_out() {
    let mut bare = analysis();
    bare.overall_key = None;
    bare.key_segments.clear();
    bare.phrases.clear();
    bare.cue_points.clear();
    bare.jump_cues = JumpCueGraph::default();
    let text = analysis_text("x", &bare);
    assert!(text.contains("key        unknown\n"));
    for heading in ["jump cues", "phrases", "cue points", "key segments"] {
        assert!(!text.contains(heading), "{heading}");
    }
}

#[test]
fn a_row_of_the_track_table_is_padded_into_columns() {
    let mut row = track("One", "A");
    row.bpm = Some(f(128.0));
    row.key = Some(Key::from_index(0));
    row.duration = Some(f(200.0));
    let rendered = track_table(&vec![row]);
    let expected = format!("{:<40}  {:>7}  {:>5}  {:>8}", "A - One", "128.00", "8B", "3:20");
    assert_eq!(rendered.lines().nth(2), Some(expected.as_str()));
}

#[test]
fn a_transition_shows_what_it_was_matched_on() {
    let by_tempo = Transition {
        path: "/music/song.flac".to_string(),
        title: String::new(),
        from: TransitionSide { start_sec: f(10.0), bpm: Some(f(128.0)), key: None },
        to: TransitionSide { start_sec: f(70.0), bpm: None, key: Some(Key::from_index(0)) },
    };
    assert_eq!(side_label(&by_tempo.from), "128.00");
    assert_eq!(side_label(&by_tempo.to), "8B");
    assert_eq!(side_label(&TransitionSide { start_sec: f(0.0), bpm: None, key: None }), "--");
    let expected = format!(
        "{:<40}  {:>16}  {:>16}\n{}\n{:<40}  {:>7} @ {:>5}  {:>7} @ {:>5}\n\n1 transition(s)\n",
        "TITLE",
        "FROM",
        "TO",
        "-".repeat(78),
        "/music/song.flac",
        "128.00",
        "0:10",
        "8B",
        "1:10",
    );
    assert_eq!(transition_table(&vec![by_tempo]), expected);
}
