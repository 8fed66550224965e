//! Library rows: paths, uids and labels.

use mixlyzer::domain::error::DomainError;
use mixlyzer::domain::key::Key;
use mixlyzer::domain::track::{normalize_track_path, Track};
use mixlyzer::domain::uid::{canonical_uid, new_uid};

#[test]
fn path_separators_are_unified() {
    assert_eq!(normalize_track_path("a\\b\\c.flac", false), "a/b/c.flac");
}

#[test]
fn redundant_components_are_collapsed() {
    assert_eq!(normalize_track_path("a//b/./c.flac", false), "a/b/c.flac");
    assert_eq!(normalize_track_path("a/b/../c.flac", false), "a/c.flac");
    assert_eq!(normalize_track_path("/music/./x.wav", false), "/music/x.wav");
}

#[test]
fn leading_parent_components_are_kept() {
    assert_eq!(normalize_track_path("../a.flac", false), "../a.flac");
    assert_eq!(normalize_track_path("../../a.flac", false), "../../a.flac");
}

#[test]
fn absolute_paths_keep_their_root() {
    assert!(normalize_track_path("/music/a.flac", false).starts_with('/'));
    assert!(!normalize_track_path("music/a.flac", false).starts_with('/'));
}

#[test]
fn empty_and_blank_paths_normalize_to_empty() {
    assert_eq!(normalize_track_path("", false), "");
    assert_eq!(normalize_track_path("   ", false), "");
}

#[test]
fn normalization_is_idempotent() {
    let once = normalize_track_path("a\\b/../c//d.flac", false);
    assert_eq!(normalize_track_path(&once, false), once);
}

#[test]
fn uid_round_trips_and_rejects_other_versions() {
    let uid = new_uid();
    assert_eq!(canonical_uid(&uid).unwrap(), uid);
    assert_eq!(canonical_uid(&format!("  {uid}  ")).unwrap(), uid);

    // A v1 UUID must be refused: the library assumes v4 everywhere.
    assert!(matches!(
        canonical_uid("2c5ea4c0-4067-11e9-8bad-9b1deb4d3b7d"),
        Err(DomainError::InvalidUid(_))
    ));
    assert!(canonical_uid("not-a-uuid").is_err());
    assert!(canonical_uid("").is_err());
}

#[test]
fn generated_uids_are_canonical_and_distinct() {
    let a = new_uid();
    let b = new_uid();
    assert_ne!(a, b);
    assert!(canonical_uid(&a).is_ok());
}

#[test]
fn a_new_track_normalizes_its_path_and_gets_a_uid() {
    let track = Track::new("Music\\Song.flac", false);
    assert_eq!(track.path, "Music/Song.flac");
    assert!(track.require_uid().is_ok());
}

#[test]
fn a_row_without_a_uid_reports_a_typed_error() {
    let mut track = Track::new("a.flac", false);
    track.uid = None;
    assert_eq!(track.require_uid(), Err(DomainError::MissingUid));
}

#[test]
fn key_label_is_camelot_or_empty() {
    let mut track = Track::new("a.flac", false);
    assert_eq!(track.key_label(), "");
    track.key = Some(Key::from_index(21));
    assert_eq!(track.key_label(), "8A");
}

#[test]
fn a_uid_is_made_canonical() {
    assert_eq!(
        canonical_uid("936DA01F-9ABD-4D9D-80C7-02AF85C822A8").unwrap(),
        "936da01f-9abd-4d9d-80c7-02af85c822a8"
    );
    assert_eq!(
        canonical_uid("936da01f9abd4d9d80c702af85c822a8").unwrap(),
        "936da01f-9abd-4d9d-80c7-02af85c822a8"
    );
    match canonical_uid(" nonsense ") {
        Err(DomainError::InvalidUid(text)) => assert!(text.contains("nonsense")),
        other => panic!("{other:?}"),
    }
}

#[test]
fn case_is_lowered_where_the_filesystem_ignores_it() {
    assert_eq!(normalize_track_path("C:\\Music\\Song.FLAC", true), "c:/music/song.flac");
    assert_eq!(normalize_track_path("C:\\Music\\Song.FLAC", false), "C:/Music/Song.FLAC");
    assert_eq!(normalize_track_path("/\u{c4}rger.wav", true), "/\u{e4}rger.wav");
    assert_eq!(Track::new("A/B.flac", true).path, "a/b.flac");
    assert_eq!(Track::new("A/B.flac", false).path, "A/B.flac");
}

#[test]
fn one_file_has_one_key_where_case_is_ignored() {
    let key = "d:/music/a.flac";
    for spelling in ["D:\\Music\\a.flac", "d:/music/a.flac", " D:/MUSIC/./x/..//A.FLAC "] {
        assert_eq!(normalize_track_path(spelling, true), key);
        assert_eq!(normalize_track_path(&spelling.to_lowercase(), false), key);
        assert_eq!(normalize_track_path(&spelling.replace('\\', "/"), true), key);
    }
    assert_eq!(normalize_track_path(key, true), key);
}
