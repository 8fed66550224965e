//! Settings: defaults and what is derived from them.

use mixlyzer::domain::config::{AnalysisConfig, ChromaMethod, KeyConfig, LibraryConfig};
use mixlyzer::number::binary64::Binary64;

fn f(x: f64) -> Binary64 {
    Binary64::from_bits(x.to_bits())
}

fn v(b: Binary64) -> f64 {
    f64::from_bits(b.to_bits())
}

fn range(config: &AnalysisConfig) -> (f64, f64) {
    let (low, high) = config.bpm_range();
    (v(low), v(high))
}

#[test]
fn defaults_match_the_python_schema() {
    let libconfig = LibraryConfig::default();
    let analysisconfig = AnalysisConfig::default();
    let keyconfig = KeyConfig::default();
    assert_eq!(libconfig.libpath, "library");
    assert_eq!(analysisconfig.analysis_samp_rate, 22_050);
    assert_eq!(analysisconfig.bpm_hop_length, 128);
    assert_eq!(analysisconfig.bpm_min, 110);
    assert_eq!(analysisconfig.bpm_max, 220);
    assert_eq!(analysisconfig.chroma_method, ChromaMethod::Cens);
    assert!(analysisconfig.bpm_dynamic);
    assert_eq!(v(keyconfig.pitch_self), 0.9);
}

#[test]
fn bpm_range_is_ordered_and_never_degenerate() {
    let mut cfg = AnalysisConfig::default();
    assert_eq!(range(&cfg), (110.0, 220.0));

    cfg.bpm_min = 220;
    cfg.bpm_max = 110;
    assert_eq!(range(&cfg), (110.0, 220.0), "reversed bounds are sorted");

    cfg.bpm_min = 128;
    cfg.bpm_max = 128;
    let (lo, hi) = range(&cfg);
    assert!(hi > lo, "a zero-width range would break the tempo search");
}

#[test]
fn env_hop_is_at_least_one_sample() {
    let mut cfg = AnalysisConfig::default();
    assert_eq!(cfg.env_hop_samples(), 88);
    cfg.env_frame_ms = f(0.0);
    assert_eq!(cfg.env_hop_samples(), 1);
}

#[test]
fn key_weights_are_checked_before_use() {
    let mut cfg = KeyConfig::default();
    assert!(cfg.weights_are_usable());
    cfg.pitch_self = f(0.0);
    cfg.pitch_semitone = f(0.0);
    cfg.pitch_fifth = f(0.0);
    cfg.pitch_others = f(0.0);
    assert!(!cfg.weights_are_usable(), "all-zero weights must be caught");
}

#[test]
fn beatgrid_offset_converts_to_seconds() {
    let cfg = AnalysisConfig { beatgrid_offset_msec: f(25.0), ..AnalysisConfig::default() };
    assert!((v(cfg.beatgrid_offset_sec()) - 0.025).abs() < 1e-12);
}
