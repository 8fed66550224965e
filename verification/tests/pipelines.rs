//! The stages together, from samples to a description of the track.

use mixlyzer::analyze::bands::Band;
use mixlyzer::analyze::decode::{pick_track, PacketEvent, Progress, Step};
use mixlyzer::analyze::envelope::{self, centre_angle, Turn};
use mixlyzer::analyze::error::{AnalysisError, DecodeError};
use mixlyzer::analyze::features::{
    beat_levels, frame_hop, frame_length, stack_beats, BeatMatrix, Framing, JumpCueOptions,
};
use mixlyzer::analyze::keys::{
    self, beat_synchronous, decode_key_path, frame_likelihoods, overall_key, segments_from_path,
    transition_weight, Chroma, ChromaOptions, KeyOptions,
};
use mixlyzer::analyze::links::{graph_from_links, SimilarLink};
use mixlyzer::analyze::onset::{
    band_energies, spectral_flux, triangular_filters, window_count, OnsetEnvelope, OnsetOptions,
};
use mixlyzer::analyze::pipeline::{
    assemble, beats_from_segments, dominant_tempo, grid_of, onset_options, plan_tempo, tempo_confidence, tempo_window,
    track_seconds, KeyFindings,
};
use mixlyzer::analyze::repeats::{find_links, softmax_exponents, weigh_links};
use mixlyzer::analyze::report::{Analysis, Envelopes};
use mixlyzer::analyze::similarity::{normalized, smoothing_exponents};
use mixlyzer::analyze::tempo::{scale_correlation, tempo_parts};
use mixlyzer::domain::config::AnalysisConfig;
use mixlyzer::domain::key::Key;
use mixlyzer::domain::segments::TempoSegment;
use mixlyzer::number::binary64::{widen, Binary64};
use rustfft::num_complex::Complex;
use rustfft::FftPlanner;
use std::f64::consts::PI;

fn f(x: f64) -> Binary64 {
    Binary64::from_bits(x.to_bits())
}

fn v(b: Binary64) -> f64 {
    f64::from_bits(b.to_bits())
}

fn all(values: &[f64]) -> Vec<Binary64> {
    values.iter().map(|x| f(*x)).collect()
}

fn back(values: &[Binary64]) -> Vec<f64> {
    values.iter().map(|x| v(*x)).collect()
}

fn frames(signal: &[f32], n_fft: usize, hop: usize, count: usize, measure: fn(&Complex<f64>) -> f64) -> Vec<Vec<f64>> {
    let window: Vec<f64> =
        (0..n_fft).map(|i| 0.5 - 0.5 * (2.0 * PI * i as f64 / n_fft as f64).cos()).collect();
    let fft = FftPlanner::<f64>::new().plan_fft_forward(n_fft);
    let mut scratch = vec![Complex::new(0.0, 0.0); n_fft];
    (0..count)
        .map(|frame| {
            let start = frame * hop;
            for (i, slot) in scratch.iter_mut().enumerate() {
                *slot = Complex::new(f64::from(signal[start + i]) * window[i], 0.0);
            }
            fft.process(&mut scratch);
            scratch[..n_fft / 2 + 1].iter().map(measure).collect()
        })
        .collect()
}

fn band_edges(n_mels: usize, sample_rate: f64, fmin: f64, fmax: f64) -> Vec<f64> {
    let fmin = fmin.max(0.0);
    let fmax = fmax.min(sample_rate * 0.5).max(fmin + 1.0);
    let low = 2595.0 * (1.0 + fmin / 700.0).log10();
    let high = 2595.0 * (1.0 + fmax / 700.0).log10();
    (0..n_mels + 2)
        .map(|i| {
            let mel = low + (high - low) * i as f64 / (n_mels + 1) as f64;
            700.0 * (10f64.powf(mel / 2595.0) - 1.0)
        })
        .collect()
}

fn mel_powers(samples: &[f32], rate: u32, n_fft: usize, hop: usize, n_mels: usize, fmin: f64, fmax: f64) -> Vec<Vec<Binary64>> {
    let edges = all(&band_edges(n_mels, f64::from(rate), fmin, fmax));
    let filters = triangular_filters(&edges, n_fft, f(f64::from(rate)));
    let count = window_count(samples.len(), n_fft, hop, rate);
    frames(samples, n_fft, hop, count, |bin| bin.norm_sqr())
        .iter()
        .map(|power| band_energies(&filters, &all(power)))
        .collect()
}

fn onset_envelope(samples: &[f32], sample_rate: u32, options: OnsetOptions) -> OnsetEnvelope {
    let n_fft = options.window_length();
    let hop = options.hop_length();
    let powers = mel_powers(samples, sample_rate, n_fft, hop, options.n_mels, v(options.fmin), v(options.fmax));
    let compressed: Vec<Vec<Binary64>> =
        powers.iter().map(|row| row.iter().map(|e| f((1.0 + v(*e)).ln())).collect()).collect();
    OnsetEnvelope { strength: spectral_flux(&compressed), hop, n_fft, sample_rate }
}

fn autocorrelation(signal: &[f64]) -> Vec<f64> {
    let n = signal.len();
    if n == 0 {
        return Vec::new();
    }
    let size = (2 * n).next_power_of_two();
    let mut buffer: Vec<Complex<f64>> = signal.iter().map(|x| Complex::new(*x, 0.0)).collect();
    buffer.resize(size, Complex::new(0.0, 0.0));
    let mut planner = FftPlanner::<f64>::new();
    planner.plan_fft_forward(size).process(&mut buffer);
    for slot in buffer.iter_mut() {
        *slot = Complex::new(slot.norm_sqr(), 0.0);
    }
    planner.plan_fft_inverse(size).process(&mut buffer);
    buffer.iter().take(n).map(|c| c.re).collect()
}

fn autocorrelate(signal: &[f64]) -> Vec<f64> {
    back(&scale_correlation(&all(&autocorrelation(signal))))
}

fn correlation_of(envelope: &OnsetEnvelope) -> Vec<Binary64> {
    all(&autocorrelate(&back(&envelope.normalized())))
}

fn window_correlations(envelope: &OnsetEnvelope, window_sec: f64) -> Vec<Vec<Binary64>> {
    tempo_parts(envelope, f(window_sec)).iter().map(correlation_of).collect()
}

fn chroma(samples: &[f32], sample_rate: u32, options: ChromaOptions) -> Chroma {
    let (n_fft, hop) = (options.window_length(), options.hop_length());
    let bin_hz = f64::from(sample_rate) / n_fft as f64;
    let midis: Vec<f64> =
        (0..n_fft / 2 + 1).map(|bin| 69.0 + 12.0 * (bin as f64 * bin_hz / 440.0).log2()).collect();
    let count = window_count(samples.len(), n_fft, hop, sample_rate);
    let spectra: Vec<Vec<Binary64>> =
        frames(samples, n_fft, hop, count, |bin| bin.norm()).iter().map(|levels| all(levels)).collect();
    keys::chroma(&spectra, &all(&midis), sample_rate, &options)
}

fn emission(frame: &[Binary64]) -> Vec<Binary64> {
    frame_likelihoods(frame).iter().map(|x| f(v(*x).ln())).collect()
}

fn transition_log(from: usize, to: usize, options: KeyOptions) -> f64 {
    v(transition_weight(from, to, &options)).ln()
}

fn key_path(chroma: &Chroma, options: KeyOptions) -> Vec<Key> {
    let emissions = (0..chroma.frames()).map(|i| emission(chroma.frame(i))).collect();
    let moves =
        (0..24).map(|from| (0..24).map(|to| f(transition_log(from, to, options))).collect()).collect();
    decode_key_path(&emissions, &moves)
}

fn track_key(chroma: &Chroma) -> Option<Key> {
    overall_key(chroma, &emission(&chroma.mean()))
}

fn beat_matrix(samples: &[f32], rate: u32, beats: &[f64], options: &JumpCueOptions) -> Option<BeatMatrix> {
    if rate == 0 || beats.len() < 2 || samples.is_empty() {
        return None;
    }
    let beats = all(beats);
    let n_fft = frame_length(&beats, rate);
    let framing = Framing { sample_rate: rate, n_fft, hop: frame_hop(n_fft) };
    let n_mels = options.bands();
    let fmax = v(options.highest_edge(rate));
    let powers = mel_powers(samples, rate, n_fft, framing.hop, n_mels, v(options.mel_fmin), fmax);
    let levels = beat_levels(framing, &powers, &beats, n_mels)?;
    let compressed =
        levels.iter().map(|row| row.iter().map(|x| f(v(*x).max(0.0).ln_1p())).collect()).collect();
    Some(stack_beats(&compressed, &beats, options))
}

fn gaussian_kernel(sigma: f64) -> Vec<Binary64> {
    let weights: Vec<f64> = back(&smoothing_exponents(f(sigma))).iter().map(|x| x.exp()).collect();
    normalized(&all(&weights))
}

fn links_of(samples: &[f32], rate: u32, beats: &[f64], options: JumpCueOptions) -> Vec<SimilarLink> {
    let Some(matrix) = beat_matrix(samples, rate, beats, &options) else {
        return Vec::new();
    };
    let links = find_links(&matrix, &gaussian_kernel(v(options.smooth_sigma)), &options);
    let scores: Vec<Binary64> = links.iter().map(|link| link.score).collect();
    let weights: Vec<f64> =
        back(&softmax_exponents(&scores, options.score_temperature)).iter().map(|x| x.exp()).collect();
    weigh_links(&links, &all(&weights))
}

fn envelopes_of(samples: &[f32], rate: u32, config: &AnalysisConfig) -> Envelopes {
    let bands = [config.env_lo, config.env_mid, config.env_hi].map(|(low, high)| Band::new(low, high));
    let turns = bands.map(|band| {
        let (sin, cos) = v(centre_angle(&band, rate)).sin_cos();
        Turn { sin: f(sin), cos: f(cos) }
    });
    let signal: Vec<Binary64> = samples.iter().map(|x| widen(x.to_bits())).collect();
    envelope::compute(&signal, rate, config.env_hop_samples(), bands, turns, config.env_order)
}

fn analyze_samples(samples: &[f32], rate: u32, config: &AnalysisConfig) -> Result<Analysis, AnalysisError> {
    let duration = track_seconds(samples.len(), rate)?;
    let onsets = onset_envelope(samples, rate, onset_options(config));
    let whole = correlation_of(&onsets);
    let parts =
        if config.bpm_dynamic { window_correlations(&onsets, v(tempo_window(config))) } else { Vec::new() };
    let segments = plan_tempo(&onsets, config, duration, &whole, &parts)?;
    let confidence = tempo_confidence(&onsets, config, &whole);
    let grid = grid_of(segments, duration, config.beatgrid_offset_sec());
    let pitches = chroma(samples, rate, ChromaOptions::default());
    let synced = beat_synchronous(&pitches, grid.beats());
    let path = key_path(&synced, KeyOptions::default());
    let keys = KeyFindings {
        segments: segments_from_path(&synced, &path, duration),
        overall: track_key(&pitches),
    };
    let links = links_of(samples, rate, &back(grid.beats()), JumpCueOptions::default());
    let envelopes = Envelopes {
        low: vec![],
        mid: vec![],
        high: vec![],
        min: vec![],
        max: vec![],
        hop: config.env_hop_samples(),
        sample_rate: rate,
    };
    Ok(assemble(duration, rate, grid, confidence, keys, envelopes, graph_from_links(&links)))
}

const RATE: u32 = 22_050;

fn config() -> AnalysisConfig {
    AnalysisConfig {
        analysis_samp_rate: RATE,
        ..AnalysisConfig::default()
    }
}

fn click_track(bpm: f64, seconds: f64) -> Vec<f32> {
    let n = (seconds * f64::from(RATE)) as usize;
    let period = 60.0 / bpm * f64::from(RATE);
    let mut signal = vec![0.0f32; n];
    let mut beat = 0usize;
    loop {
        let at = (beat as f64 * period).round() as usize;
        if at >= n {
            break;
        }
        for offset in 0..128.min(n - at) {
            let decay = (1.0 - offset as f32 / 128.0).powi(2);
            let noise = if (at + offset) % 3 == 0 { 1.0 } else { -0.7 };
            signal[at + offset] = decay * noise;
        }
        beat += 1;
    }
    signal
}

#[test]
fn a_click_track_analyses_to_its_own_tempo() {
    let analysis = analyze_samples(&click_track(128.0, 30.0), RATE, &config()).unwrap();
    assert!(
        (v(analysis.tempo_global) - 128.0).abs() < 1.0,
        "estimated {} BPM",
        v(analysis.tempo_global)
    );
    assert!((v(analysis.duration_sec) - 30.0).abs() < 0.01);
    assert_eq!(analysis.analysis_sample_rate, RATE);
}

#[test]
fn the_beatgrid_spans_the_track_at_the_beat_period() {
    let analysis = analyze_samples(&click_track(120.0, 30.0), RATE, &config()).unwrap();
    let beats = back(analysis.beats());
    assert!(beats.len() > 50, "only {} beats", beats.len());
    assert!(beats[0] >= 0.0);
    assert!(*beats.last().unwrap() <= v(analysis.duration_sec) + 1e-6);
    let gaps: Vec<f64> = beats.windows(2).map(|w| w[1] - w[0]).collect();
    let mean_gap = gaps.iter().sum::<f64>() / gaps.len() as f64;
    assert!(
        (mean_gap - 0.5).abs() < 0.02,
        "mean beat gap {mean_gap}s, expected 0.5s"
    );
}

#[test]
fn beats_land_on_the_clicks() {
    let bpm = 120.0;
    let analysis = analyze_samples(&click_track(bpm, 30.0), RATE, &config()).unwrap();
    let period = 60.0 / bpm;
    // Every beat should sit near a multiple of the click period.
    let worst = back(analysis.beats())
        .iter()
        .map(|beat| {
            let offset = (beat / period).fract();
            offset.min(1.0 - offset) * period
        })
        .fold(0.0f64, f64::max);
    assert!(worst < 0.05, "worst beat was {worst:.4}s off the clicks");
}

#[test]
fn downbeats_are_a_subset_of_the_beats_every_four_beats() {
    let analysis = analyze_samples(&click_track(128.0, 30.0), RATE, &config()).unwrap();
    let beats = back(analysis.beats());
    let downbeats = back(&analysis.downbeats());
    assert!(!downbeats.is_empty());
    for downbeat in &downbeats {
        assert!(
            beats.iter().any(|b| (b - downbeat).abs() < 1e-9),
            "downbeat {downbeat} is not on a beat"
        );
    }
    // Four beats to a bar by default.
    assert!(
        (beats.len() as f64 / downbeats.len() as f64 - 4.0).abs() < 0.5,
        "{} beats over {} bars",
        beats.len(),
        downbeats.len()
    );
}

#[test]
fn a_short_track_is_reported_as_too_short() {
    let err = analyze_samples(&click_track(128.0, 1.0), RATE, &config()).unwrap_err();
    match err {
        AnalysisError::TooShort { duration_sec, needed_sec } => assert!(v(duration_sec) < v(needed_sec)),
        other => panic!("{other:?}"),
    }
}

#[test]
fn silence_is_reported_as_silence() {
    let silence = vec![0.0f32; RATE as usize * 10];
    assert!(matches!(
        analyze_samples(&silence, RATE, &config()),
        Err(AnalysisError::Silent)
    ));
}

#[test]
fn a_static_tempo_run_produces_exactly_one_segment() {
    let cfg = AnalysisConfig {
        bpm_dynamic: false,
        ..config()
    };
    let analysis = analyze_samples(&click_track(128.0, 30.0), RATE, &cfg).unwrap();
    assert_eq!(analysis.tempo_segments().len(), 1);
    assert_eq!(v(analysis.tempo_segments()[0].start), 0.0);
}

#[test]
fn the_grid_offset_shifts_every_beat() {
    let base = analyze_samples(&click_track(120.0, 20.0), RATE, &config()).unwrap();
    let shifted_cfg = AnalysisConfig {
        beatgrid_offset_msec: f(50.0),
        ..config()
    };
    let shifted = analyze_samples(&click_track(120.0, 20.0), RATE, &shifted_cfg).unwrap();
    let common = base.beats().len().min(shifted.beats().len()) - 1;
    let deltas: Vec<f64> = (1..common)
        .map(|i| v(shifted.beats()[i]) - v(base.beats()[i]))
        .collect();
    let mean = deltas.iter().sum::<f64>() / deltas.len() as f64;
    assert!(
        (mean - 0.05).abs() < 0.01,
        "expected a 50 ms shift, measured {mean:.4}s"
    );
}

#[test]
fn confidence_is_reported_and_bounded() {
    let analysis = analyze_samples(&click_track(128.0, 20.0), RATE, &config()).unwrap();
    assert!((0.0..=1.0).contains(&v(analysis.beat_confidence)));
    assert!(
        v(analysis.beat_confidence) > 0.0,
        "a clean click track should not score zero"
    );
}

#[test]
fn key_segments_come_back_for_tonal_material() {
    // A sustained C major triad under a click track.
    let clicks = click_track(120.0, 20.0);
    let mut signal = Vec::with_capacity(clicks.len());
    for (i, click) in clicks.iter().enumerate() {
        let t = i as f64 / f64::from(RATE);
        let tone: f64 = [261.63, 329.63, 392.0]
            .iter()
            .map(|f| (2.0 * std::f64::consts::PI * f * t).sin() * 0.2)
            .sum();
        signal.push(click * 0.5 + tone as f32);
    }
    let analysis = analyze_samples(&signal, RATE, &config()).unwrap();
    assert!(!analysis.key_segments.is_empty());
    assert!(analysis.overall_key.is_some());
    assert!(analysis
        .key_segments
        .iter()
        .all(|segment| v(segment.duration()) > 0.0));
}

#[test]
fn beats_generated_per_segment_meet_exactly_at_the_boundary() {
    let segments = vec![
        TempoSegment::new(f(0.0), f(10.0), f(120.0), f(0.0), 4),
        TempoSegment::new(f(10.0), f(20.0), f(140.0), f(10.0), 4),
    ];
    let beats = back(&beats_from_segments(&segments, f(20.0), f(0.0)));
    assert!(beats.windows(2).all(|w| w[1] > w[0]), "beats must ascend");
    // No duplicate at the shared boundary.
    assert!(
        beats.windows(2).all(|w| (w[1] - w[0]) > 1e-6),
        "a beat was emitted twice at the segment boundary"
    );
    // The first segment's beats run at 0.5s, the second's at ~0.4286s.
    let first_gap = beats[1] - beats[0];
    let last_gap = beats[beats.len() - 1] - beats[beats.len() - 2];
    assert!((first_gap - 0.5).abs() < 1e-6);
    assert!((last_gap - 60.0 / 140.0).abs() < 1e-6);
}

#[test]
fn beats_outside_the_track_are_dropped() {
    let segments = vec![TempoSegment::new(f(0.0), f(10.0), f(120.0), f(0.0), 4)];
    let beats = back(&beats_from_segments(&segments, f(5.0), f(0.0)));
    assert!(beats.iter().all(|b| *b <= 5.0));
}

#[test]
fn a_negative_offset_does_not_produce_beats_before_zero() {
    let segments = vec![TempoSegment::new(f(0.0), f(10.0), f(120.0), f(0.0), 4)];
    let beats = back(&beats_from_segments(&segments, f(10.0), f(-0.2)));
    assert!(beats.iter().all(|b| *b >= 0.0));
}

#[test]
fn the_representative_tempo_is_the_one_that_lasts_longest() {
    let segments = vec![
        TempoSegment::new(f(0.0), f(10.0), f(90.0), f(0.0), 4),
        TempoSegment::new(f(10.0), f(250.0), f(128.0), f(10.0), 4),
    ];
    assert_eq!(dominant_tempo(&segments).map(v), Some(128.0));
    assert_eq!(dominant_tempo(&[]), None);
}

fn pitched_track(pitches: &[f64], beat_sec: f64) -> Vec<f32> {
    let period = (beat_sec * f64::from(RATE)) as usize;
    let mut samples = vec![0.0f32; pitches.len() * period];
    for (beat, hz) in pitches.iter().enumerate() {
        for offset in 0..period {
            let t = offset as f64 / f64::from(RATE);
            let decay = (-6.0 * t / beat_sec).exp();
            let tone = (2.0 * std::f64::consts::PI * hz * t).sin() * decay;
            let click = if offset < 64 {
                1.0 - offset as f64 / 64.0
            } else {
                0.0
            };
            samples[beat * period + offset] = (0.7 * tone + 0.5 * click) as f32;
        }
    }
    samples
}

#[test]
fn a_returning_section_becomes_a_pair_of_jump_cues() {
    // Eight bars of A, eight of B, then A again, at 120 BPM.
    let section_a: Vec<f64> = (0..32)
        .map(|i: usize| {
            let mixed = (i as u64).wrapping_mul(2_654_435_761) ^ 0x9E37_79B9;
            110.0 * 2f64.powf((mixed >> 11) as f64 % 36.0 / 12.0)
        })
        .collect();
    let section_b: Vec<f64> = section_a.iter().map(|hz| hz * 2.0).collect();
    let pitches: Vec<f64> = section_a
        .iter()
        .chain(&section_b)
        .chain(&section_a)
        .copied()
        .collect();
    let analysis = analyze_samples(&pitched_track(&pitches, 0.5), RATE, &config()).unwrap();

    let cues = analysis.jump_cues.cues();
    assert_eq!(
        cues.len(),
        2,
        "expected the two ends of the A repeat: {cues:#?}"
    );
    assert!(analysis.jump_cues.validate_labels().is_ok());
    assert_eq!(analysis.jump_cues.components().len(), 1);
    assert!(
        (v(cues[0].point) - 0.0).abs() < 18.0
            && (v(cues[1].point) - v(cues[0].point) - 32.0).abs() < 3.0,
        "cues at {} and {} do not describe a 32s repeat",
        v(cues[0].point),
        v(cues[1].point)
    );
}

#[test]
fn a_track_with_nothing_that_repeats_has_no_jump_cues() {
    let analysis = analyze_samples(&click_track(128.0, 30.0), RATE, &config()).unwrap();
    // Every beat of a click track is the same beat, so no stretch of it is
    // a repeat of any other in particular.
    assert!(analysis.jump_cues.is_empty());
    assert!(analysis.jump_cues.links().is_empty());
}

#[test]
fn envelopes_are_produced_alongside_the_grid() {
    let samples = click_track(128.0, 20.0);
    let config = config();
    let mut analysis = analyze_samples(&samples, RATE, &config).unwrap();
    analysis.envelopes = envelopes_of(&samples, RATE, &config);
    assert!(!analysis.envelopes.is_empty());
    assert_eq!(analysis.envelopes.len(), analysis.envelopes.min.len());
    assert!(analysis.envelopes.low.iter().any(|x| v(*x) > 0.0));
}

#[test]
fn a_truncated_file_keeps_what_decoded() {
    let mut progress = Progress::new();
    assert!(matches!(progress.take_in(&PacketEvent::OtherTrack, "x"), Step::Continue));
    let first = PacketEvent::Decoded { channels: 2, sample_rate: 44_100, samples: 100 };
    assert!(matches!(progress.take_in(&first, "x"), Step::Continue));
    assert!(matches!(progress.take_in(&PacketEvent::BadPacket, "x"), Step::Continue));
    let broken = PacketEvent::ReadFailed { reason: "cut off".to_string() };
    assert!(matches!(progress.take_in(&broken, "x"), Step::Stop));
    assert_eq!((progress.samples, progress.channels, progress.sample_rate), (100, 2, 44_100));
    assert!(progress.finish("x").is_ok());
}

#[test]
fn a_file_that_never_decodes_is_reported() {
    let mut progress = Progress::new();
    let broken = PacketEvent::DecodeFailed { reason: "bad".to_string() };
    match progress.take_in(&broken, "x.flac") {
        Step::Fail(DecodeError::Corrupt { path, reason }) => assert_eq!((path.as_str(), reason.as_str()), ("x.flac", "bad")),
        other => panic!("{other:?}"),
    }
    assert_eq!(Progress::new().finish("y"), Err(DecodeError::Empty { path: "y".to_string() }));
    assert_eq!(pick_track(&vec![false, true, true], "z"), Ok(1));
    assert_eq!(pick_track(&vec![false], "z"), Err(DecodeError::NoAudioTrack { path: "z".to_string() }));
}

#[test]
fn a_tempo_counts_all_the_segments_it_covers() {
    let segments = vec![
        TempoSegment::new(f(0.0), f(10.0), f(128.0), f(0.0), 4),
        TempoSegment::new(f(10.0), f(25.0), f(90.0), f(10.0), 4),
        TempoSegment::new(f(25.0), f(35.0), f(128.0), f(25.0), 4),
    ];
    assert_eq!(dominant_tempo(&segments).map(v), Some(128.0));
    assert_eq!(dominant_tempo(&segments[..2]).map(v), Some(90.0));
}
