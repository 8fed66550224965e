//! Chroma and the keys it points to.

use mixlyzer::analyze::keys::{
    self, beat_synchronous, decode_key_path, fold_pitch, frame_likelihoods, overall_key, segments_from_path,
    transition_weight, Chroma, ChromaOptions, KeyOptions,
};
use mixlyzer::analyze::onset::window_count;
use mixlyzer::domain::key::{Key, Mode};
use mixlyzer::number::binary64::Binary64;
use rustfft::num_complex::Complex;
use rustfft::FftPlanner;
use std::f64::consts::PI;

fn f(x: f64) -> Binary64 {
    Binary64::from_bits(x.to_bits())
}

fn v(b: Binary64) -> f64 {
    f64::from_bits(b.to_bits())
}

fn all(values: &[f64]) -> Vec<Binary64> {
    values.iter().map(|x| f(*x)).collect()
}

fn back(values: &[Binary64]) -> Vec<f64> {
    values.iter().map(|x| v(*x)).collect()
}

fn frames(signal: &[f32], n_fft: usize, hop: usize, count: usize, measure: fn(&Complex<f64>) -> f64) -> Vec<Vec<f64>> {
    let window: Vec<f64> =
        (0..n_fft).map(|i| 0.5 - 0.5 * (2.0 * PI * i as f64 / n_fft as f64).cos()).collect();
    let fft = FftPlanner::<f64>::new().plan_fft_forward(n_fft);
    let mut scratch = vec![Complex::new(0.0, 0.0); n_fft];
    (0..count)
        .map(|frame| {
            let start = frame * hop;
            for (i, slot) in scratch.iter_mut().enumerate() {
                *slot = Complex::new(f64::from(signal[start + i]) * window[i], 0.0);
            }
            fft.process(&mut scratch);
            scratch[..n_fft / 2 + 1].iter().map(measure).collect()
        })
        .collect()
}

fn chroma(samples: &[f32], sample_rate: u32, options: ChromaOptions) -> Chroma {
    let (n_fft, hop) = (options.window_length(), options.hop_length());
    let bin_hz = f64::from(sample_rate) / n_fft as f64;
    let midis: Vec<f64> =
        (0..n_fft / 2 + 1).map(|bin| 69.0 + 12.0 * (bin as f64 * bin_hz / 440.0).log2()).collect();
    let count = window_count(samples.len(), n_fft, hop, sample_rate);
    let spectra: Vec<Vec<Binary64>> =
        frames(samples, n_fft, hop, count, |bin| bin.norm()).iter().map(|levels| all(levels)).collect();
    keys::chroma(&spectra, &all(&midis), sample_rate, &options)
}

fn emission(frame: &[Binary64]) -> Vec<Binary64> {
    frame_likelihoods(frame).iter().map(|x| f(v(*x).ln())).collect()
}

fn transition_log(from: usize, to: usize, options: KeyOptions) -> f64 {
    v(transition_weight(from, to, &options)).ln()
}

fn key_path(chroma: &Chroma, options: KeyOptions) -> Vec<Key> {
    let emissions = (0..chroma.frames()).map(|i| emission(chroma.frame(i))).collect();
    let moves =
        (0..24).map(|from| (0..24).map(|to| f(transition_log(from, to, options))).collect()).collect();
    decode_key_path(&emissions, &moves)
}

fn track_key(chroma: &Chroma) -> Option<Key> {
    overall_key(chroma, &emission(&chroma.mean()))
}

const RATE: u32 = 22_050;

fn note(midi: f64, seconds: f64, amplitude: f64) -> Vec<f32> {
    let freq = 440.0 * 2f64.powf((midi - 69.0) / 12.0);
    let n = (seconds * f64::from(RATE)) as usize;
    (0..n)
        .map(|i| {
            let t = i as f64 / f64::from(RATE);
            let fundamental = (2.0 * std::f64::consts::PI * freq * t).sin();
            let octave = 0.4 * (2.0 * std::f64::consts::PI * freq * 2.0 * t).sin();
            let fifth = 0.2 * (2.0 * std::f64::consts::PI * freq * 3.0 * t).sin();
            (amplitude * (fundamental + octave + fifth)) as f32
        })
        .collect()
}

fn chord(midis: &[f64], seconds: f64) -> Vec<f32> {
    let voices: Vec<Vec<f32>> = midis.iter().map(|m| note(*m, seconds, 0.3)).collect();
    let len = voices[0].len();
    (0..len)
        .map(|i| voices.iter().map(|v| v[i]).sum::<f32>())
        .collect()
}

#[test]
fn a_signal_shorter_than_the_window_gives_no_chroma() {
    let c = chroma(&vec![0.1f32; 100], RATE, ChromaOptions::default());
    assert!(c.is_empty());
    assert_eq!(c.frames(), 0);
}

#[test]
fn every_frame_is_normalized_to_sum_to_one() {
    let signal = chord(&[60.0, 64.0, 67.0], 2.0);
    let c = chroma(&signal, RATE, ChromaOptions::default());
    assert!(c.frames() > 0);
    for frame in 0..c.frames() {
        let total: f64 = back(c.frame(frame)).iter().sum();
        assert!(
            (total - 1.0).abs() < 1e-9,
            "frame {frame} summed to {total}"
        );
    }
}

#[test]
fn a_single_note_lights_up_its_own_pitch_class() {
    // MIDI 60 is C, pitch class 0.
    let signal = note(60.0, 2.0, 0.5);
    let c = chroma(&signal, RATE, ChromaOptions::default());
    let mean = back(&c.mean());
    let brightest = mean
        .iter()
        .enumerate()
        .max_by(|a, b| a.1.partial_cmp(b.1).unwrap())
        .map(|(i, _)| i)
        .unwrap();
    assert_eq!(brightest, 0, "C should dominate, saw {mean:?}");
}

#[test]
fn a_transposed_note_moves_the_bright_pitch_class() {
    // MIDI 62 is D, pitch class 2.
    let signal = note(62.0, 2.0, 0.5);
    let c = chroma(&signal, RATE, ChromaOptions::default());
    let mean = back(&c.mean());
    let brightest = mean
        .iter()
        .enumerate()
        .max_by(|a, b| a.1.partial_cmp(b.1).unwrap())
        .map(|(i, _)| i)
        .unwrap();
    assert_eq!(brightest, 2, "D should dominate, saw {mean:?}");
}

#[test]
fn silence_produces_flat_chroma_without_dividing_by_zero() {
    let c = chroma(
        &vec![0.0f32; RATE as usize * 2],
        RATE,
        ChromaOptions::default(),
    );
    assert!(c.frames() > 0);
    for frame in 0..c.frames() {
        assert!(back(c.frame(frame)).iter().all(|x| *x == 0.0));
    }
    assert!(back(&c.mean()).iter().all(|x| *x == 0.0));
}

#[test]
fn a_c_major_triad_is_detected_as_c_major() {
    // C4 E4 G4.
    let signal = chord(&[60.0, 64.0, 67.0], 4.0);
    let c = chroma(&signal, RATE, ChromaOptions::default());
    let key = track_key(&c).unwrap();
    assert_eq!(key.mode(), Mode::Major, "detected {}", key.classical());
    assert_eq!(key.pitch_class(), 0, "detected {}", key.classical());
}

#[test]
fn an_a_minor_triad_is_detected_as_a_minor_not_its_relative_major() {
    // A3 C4 E4.
    let signal = chord(&[57.0, 60.0, 64.0], 4.0);
    let c = chroma(&signal, RATE, ChromaOptions::default());
    let key = track_key(&c).unwrap();
    assert_eq!(key.mode(), Mode::Minor, "detected {}", key.classical());
    assert_eq!(key.pitch_class(), 9, "detected {}", key.classical());
}

#[test]
fn the_key_path_has_one_entry_per_frame() {
    let signal = chord(&[60.0, 64.0, 67.0], 3.0);
    let c = chroma(&signal, RATE, ChromaOptions::default());
    let path = key_path(&c, KeyOptions::default());
    assert_eq!(path.len(), c.frames());
}

#[test]
fn a_steady_piece_decodes_to_one_key_throughout() {
    let signal = chord(&[60.0, 64.0, 67.0], 6.0);
    let c = chroma(&signal, RATE, ChromaOptions::default());
    let path = key_path(&c, KeyOptions::default());
    let first = path[0];
    assert!(
        path.iter().all(|k| *k == first),
        "a steady chord should not wander between keys"
    );
}

#[test]
fn segments_cover_the_track_and_do_not_overlap() {
    let signal = chord(&[60.0, 64.0, 67.0], 6.0);
    let c = chroma(&signal, RATE, ChromaOptions::default());
    let path = key_path(&c, KeyOptions::default());
    let segments = segments_from_path(&c, &path, f(6.0));
    assert!(!segments.is_empty());
    for pair in segments.windows(2) {
        assert!(v(pair[0].end) <= v(pair[1].start) + 1e-9);
    }
    assert!((v(segments.last().unwrap().end) - 6.0).abs() < 0.2);
    assert!(segments.iter().all(|s| v(s.duration()) > 0.0));
}

#[test]
fn an_empty_chromagram_yields_no_path_no_segments_and_no_key() {
    let empty = Chroma::new(Vec::new(), Vec::new());
    assert!(key_path(&empty, KeyOptions::default()).is_empty());
    assert!(segments_from_path(&empty, &[], f(10.0)).is_empty());
    assert!(track_key(&empty).is_none());
}

#[test]
fn beat_synchronous_chroma_has_one_row_per_beat_interval() {
    let signal = chord(&[60.0, 64.0, 67.0], 4.0);
    let c = chroma(&signal, RATE, ChromaOptions::default());
    let beats: Vec<f64> = (0..9).map(|i| i as f64 * 0.5).collect();
    let synced = beat_synchronous(&c, &all(&beats));
    assert_eq!(synced.frames(), beats.len() - 1);
    assert!((v(synced.time(0)) - beats[0]).abs() < 1e-9);
}

#[test]
fn beat_synchronous_chroma_falls_back_when_there_are_too_few_beats() {
    let signal = chord(&[60.0, 64.0, 67.0], 2.0);
    let c = chroma(&signal, RATE, ChromaOptions::default());
    assert_eq!(beat_synchronous(&c, &[]).frames(), c.frames());
    assert_eq!(beat_synchronous(&c, &all(&[1.0])).frames(), c.frames());
}

#[test]
fn staying_put_is_cheaper_than_moving_and_near_beats_far() {
    let options = KeyOptions::default();
    let stay = transition_log(0, 0, options);
    // 8B -> 8A is the relative minor, a near move; 8B -> 2A is not.
    let near_target = usize::from(Key::from_index(0).relative().index());
    let near = transition_log(0, near_target, options);
    let far = transition_log(0, 6, options);
    assert!(stay > near, "staying should be preferred");
    assert!(near > far, "a harmonic neighbour should beat a distant key");
}

#[test]
fn every_key_scores_against_a_chroma_frame() {
    let frame = [1.0f64 / 12.0; 12];
    let scores = back(&emission(&all(&frame)));
    assert_eq!(scores.len(), 24);
    assert!(scores.iter().all(|s| s.is_finite()));
}

#[test]
fn a_note_between_two_semitones_does_not_vote() {
    assert_eq!(fold_pitch(f(60.0)).map(|(class, weight)| (class, v(weight))), Some((0, 1.0)));
    assert_eq!(fold_pitch(f(61.25)).map(|(class, weight)| (class, v(weight))), Some((1, 0.5)));
    assert_eq!(fold_pitch(f(61.5)), None);
}
