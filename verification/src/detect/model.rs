//! The phrase model: two ensembles plus the label decoder's priors.

use crate::detect::error::PhraseError;
use crate::detect::gbm::{
    field_fault, first_of, is_stored, load_fault, load_number_list, load_texts, reports, HistGradientBoosting, LoadFault,
    Use,
};
use crate::detect::npz::{archive_of, is_malformed, numbers, parse, single_text, Npy, Npz};
use crate::number::binary64::{of_int, one, zero, Binary64};
use crate::number::integral::truncated;
use crate::number::laws::law_small_integers_come_back;
use crate::text::{
    copy_text, decimal, join_texts, joined, lemma_views_push, pieces, push_decimal, push_wide_decimal, same_text,
    split_text, views,
};
use vstd::prelude::*;

verus! {

/// The training-time settings the detector has to reproduce at inference.
#[derive(Debug, Clone, PartialEq)]
pub struct ModelSettings {
    pub sample_rate: u32,
    pub hop_length: usize,
    pub n_fft: usize,
    pub n_mels: usize,
    pub n_mfcc: usize,
    /// Half-widths, in beats, of the context windows compared at a candidate.
    pub boundary_context_beats: Vec<usize>,
    /// Beats at each end of the track that can never be a boundary.
    pub edge_beats: usize,
    /// Non-maximum suppression radius between accepted boundaries.
    pub min_distance_beats: usize,
    /// Cap on how many boundaries survive suppression, if any.
    pub max_boundaries: Option<usize>,
    /// How far the refinement pass may move a boundary.
    pub boundary_refine_window_beats: usize,
    /// Phrase lengths the refinement prefers, in beats.
    pub boundary_lengths_beats: Vec<usize>,
    pub boundary_length_weight: Binary64,
    pub boundary_shift_penalty: Binary64,
    pub boundary_downbeat_bonus: Binary64,
    pub label_weight: Binary64,
    pub transition_weight: Binary64,
    pub length_weight: Binary64,
}

/// The contents of settings.
pub struct Settings {
    pub sample_rate: nat,
    pub hop_length: nat,
    pub n_fft: nat,
    pub n_mels: nat,
    pub n_mfcc: nat,
    pub boundary_context_beats: Seq<usize>,
    pub edge_beats: nat,
    pub min_distance_beats: nat,
    pub max_boundaries: Option<usize>,
    pub boundary_refine_window_beats: nat,
    pub boundary_lengths_beats: Seq<usize>,
    pub boundary_length_weight: Binary64,
    pub boundary_shift_penalty: Binary64,
    pub boundary_downbeat_bonus: Binary64,
    pub label_weight: Binary64,
    pub transition_weight: Binary64,
    pub length_weight: Binary64,
}

impl View for ModelSettings {
    type V = Settings;

    open spec fn view(&self) -> Settings {
        Settings {
            sample_rate: self.sample_rate as nat,
            hop_length: self.hop_length as nat,
            n_fft: self.n_fft as nat,
            n_mels: self.n_mels as nat,
            n_mfcc: self.n_mfcc as nat,
            boundary_context_beats: self.boundary_context_beats@,
            edge_beats: self.edge_beats as nat,
            min_distance_beats: self.min_distance_beats as nat,
            max_boundaries: self.max_boundaries,
            boundary_refine_window_beats: self.boundary_refine_window_beats as nat,
            boundary_lengths_beats: self.boundary_lengths_beats@,
            boundary_length_weight: self.boundary_length_weight,
            boundary_shift_penalty: self.boundary_shift_penalty,
            boundary_downbeat_bonus: self.boundary_downbeat_bonus,
            label_weight: self.label_weight,
            transition_weight: self.transition_weight,
            length_weight: self.length_weight,
        }
    }
}

/// The production settings.
pub open spec fn default_settings() -> Settings {
    Settings {
        sample_rate: 22_050,
        hop_length: 512,
        n_fft: 2048,
        n_mels: 48,
        n_mfcc: 20,
        boundary_context_beats: seq![1, 2, 4, 8, 16],
        edge_beats: 8,
        min_distance_beats: 16,
        max_boundaries: None,
        boundary_refine_window_beats: 8,
        boundary_lengths_beats: seq![16, 32, 64, 128],
        // 0.45, 0.015 and 0.35
        boundary_length_weight: Binary64 { bits: 0x3FDC_CCCC_CCCC_CCCD },
        boundary_shift_penalty: Binary64 { bits: 0x3F8E_B851_EB85_1EB8 },
        boundary_downbeat_bonus: Binary64 { bits: 0x3FD6_6666_6666_6666 },
        label_weight: one(),
        transition_weight: one(),
        length_weight: zero(),
    }
}

impl Default for ModelSettings {
    fn default() -> (r: Self)
        ensures
            r@ == default_settings(),
    {
        let r = ModelSettings {
            sample_rate: 22_050,
            hop_length: 512,
            n_fft: 2048,
            n_mels: 48,
            n_mfcc: 20,
            boundary_context_beats: vec![1, 2, 4, 8, 16],
            edge_beats: 8,
            min_distance_beats: 16,
            max_boundaries: None,
            boundary_refine_window_beats: 8,
            boundary_lengths_beats: vec![16, 32, 64, 128],
            boundary_length_weight: Binary64 { bits: 0x3FDC_CCCC_CCCC_CCCD },
            boundary_shift_penalty: Binary64 { bits: 0x3F8E_B851_EB85_1EB8 },
            boundary_downbeat_bonus: Binary64 { bits: 0x3FD6_6666_6666_6666 },
            label_weight: one(),
            transition_weight: one(),
            length_weight: zero(),
        };
        assert(r.boundary_context_beats@ =~= seq![1, 2, 4, 8, 16]);
        assert(r.boundary_lengths_beats@ =~= seq![16, 32, 64, 128]);
        r
    }
}

/// The number that the member `key` of a JSON object text holds, as `serde_json`
/// reads it: the bit pattern of `Value::as_f64`.
pub uninterp spec fn json_number(text: Seq<char>, key: Seq<char>) -> Option<u64>;

/// The unsigned integer that the member `key` of a JSON object text holds, as
/// `serde_json` reads it: `Value::as_u64`.
pub uninterp spec fn json_natural(text: Seq<char>, key: Seq<char>) -> Option<u64>;

/// The items of the array that the member `key` of a JSON object text holds,
/// each by `Value::as_u64`, as `serde_json` reads them.
pub uninterp spec fn json_naturals(text: Seq<char>, key: Seq<char>) -> Option<Seq<Option<u64>>>;

/// The number at a member of a JSON object text: `serde_json::from_str`, then
/// `Value::get` and `Value::as_f64`. It claims only that the same text and key
/// always give the same number.
#[verifier::external_body]
fn number_member(text: &str, key: &str) -> (r: Option<Binary64>)
    ensures
        r is Some <==> json_number(text@, key@) is Some,
        r is Some ==> r->0.bits == json_number(text@, key@)->0,
{
    let parsed: serde_json::Value = serde_json::from_str(text).ok()?;
    let number = parsed.get(key)?.as_f64()?;
    Some(Binary64 { bits: number.to_bits() })
}

/// The unsigned integer at a member of a JSON object text: `serde_json::from_str`,
/// then `Value::get` and `Value::as_u64`. It claims only that the same text and
/// key always give the same integer.
#[verifier::external_body]
fn natural_member(text: &str, key: &str) -> (r: Option<u64>)
    ensures
        r == json_natural(text@, key@),
{
    let parsed: serde_json::Value = serde_json::from_str(text).ok()?;
    parsed.get(key)?.as_u64()
}

/// The items of the array at a member of a JSON object text, each by
/// `Value::as_u64`: `serde_json::from_str`, then `Value::get` and
/// `Value::as_array`. It claims only that the same text and key always give the
/// same items.
#[verifier::external_body]
fn naturals_member(text: &str, key: &str) -> (r: Option<Vec<Option<u64>>>)
    ensures
        r is Some <==> json_naturals(text@, key@) is Some,
        r is Some ==> r->0@ == json_naturals(text@, key@)->0,
{
    let parsed: serde_json::Value = serde_json::from_str(text).ok()?;
    Some(parsed.get(key)?.as_array()?.iter().map(serde_json::Value::as_u64).collect())
}

/// What a settings text says, member by member; `None` where it says nothing.
#[derive(Debug)]
pub struct SettingsFields {
    pub sr: Option<Binary64>,
    pub hop_length: Option<Binary64>,
    pub n_fft: Option<Binary64>,
    pub n_mels: Option<Binary64>,
    pub n_mfcc: Option<Binary64>,
    pub boundary_context_beats: Option<Vec<Option<u64>>>,
    pub edge_beats: Option<Binary64>,
    pub min_distance_beats: Option<Binary64>,
    pub max_boundaries: Option<u64>,
    pub boundary_refine_window_beats: Option<Binary64>,
    pub boundary_lengths_beats: Option<Vec<Option<u64>>>,
    pub boundary_length_weight: Option<Binary64>,
    pub boundary_shift_penalty: Option<Binary64>,
    pub boundary_downbeat_bonus: Option<Binary64>,
    pub label_weight: Option<Binary64>,
    pub transition_weight: Option<Binary64>,
    pub length_weight: Option<Binary64>,
}

/// The number that a text holds at a key.
pub open spec fn number_at(text: Seq<char>, key: Seq<char>) -> Option<Binary64> {
    match json_number(text, key) {
        Some(bits) => Some(Binary64 { bits }),
        None => None,
    }
}

/// Whether fields are what a settings text says.
pub open spec fn are_fields(text: Seq<char>, f: SettingsFields) -> bool {
    &&& f.sr == number_at(text, "sr"@)
    &&& f.hop_length == number_at(text, "hop_length"@)
    &&& f.n_fft == number_at(text, "n_fft"@)
    &&& f.n_mels == number_at(text, "n_mels"@)
    &&& f.n_mfcc == number_at(text, "n_mfcc"@)
    &&& f.boundary_context_beats is Some <==> json_naturals(text, "boundary_context_beats"@) is Some
    &&& f.boundary_context_beats is Some ==> f.boundary_context_beats->0@ == json_naturals(
        text,
        "boundary_context_beats"@,
    )->0
    &&& f.edge_beats == number_at(text, "edge_beats"@)
    &&& f.min_distance_beats == number_at(text, "min_distance_beats"@)
    &&& f.max_boundaries == json_natural(text, "max_boundaries"@)
    &&& f.boundary_refine_window_beats == number_at(text, "boundary_refine_window_beats"@)
    &&& f.boundary_lengths_beats is Some <==> json_naturals(text, "boundary_lengths_beats"@) is Some
    &&& f.boundary_lengths_beats is Some ==> f.boundary_lengths_beats->0@ == json_naturals(
        text,
        "boundary_lengths_beats"@,
    )->0
    &&& f.boundary_length_weight == number_at(text, "boundary_length_weight"@)
    &&& f.boundary_shift_penalty == number_at(text, "boundary_shift_penalty"@)
    &&& f.boundary_downbeat_bonus == number_at(text, "boundary_downbeat_bonus"@)
    &&& f.label_weight == number_at(text, "label_weight"@)
    &&& f.transition_weight == number_at(text, "transition_weight"@)
    &&& f.length_weight == number_at(text, "length_weight"@)
}

/// A count that a settings field gives: its integer part, cut to `limit`.
pub open spec fn count_or(field: Option<Binary64>, fallback: nat, limit: nat) -> nat {
    match field {
        Some(v) => truncated(v, limit),
        None => truncated(of_int(fallback as int), limit),
    }
}

/// A number that a settings field gives.
pub open spec fn number_or(field: Option<Binary64>, fallback: Binary64) -> Binary64 {
    match field {
        Some(v) => v,
        None => fallback,
    }
}

/// The integers among the items of a list.
pub open spec fn integers_of(items: Seq<Option<u64>>) -> Seq<usize>
    decreases items.len(),
{
    if items.len() == 0 {
        seq![]
    } else {
        match items.last() {
            Some(n) => integers_of(items.drop_last()).push(low_bits(n)),
            None => integers_of(items.drop_last()),
        }
    }
}

/// The part of a 64-bit number that an index can hold.
pub open spec fn low_bits(n: u64) -> usize {
    (n as int % (usize::MAX + 1)) as usize
}

/// A list that a settings field gives.
pub open spec fn list_or(field: Option<Vec<Option<u64>>>, fallback: Seq<usize>) -> Seq<usize> {
    match field {
        Some(items) => integers_of(items@),
        None => fallback,
    }
}

/// The settings that fields give, each with its production value as fallback.
pub open spec fn settings_of(f: SettingsFields) -> Settings {
    let d = default_settings();
    let top = usize::MAX as nat;
    Settings {
        sample_rate: count_or(f.sr, d.sample_rate, u32::MAX as nat),
        hop_length: count_or(f.hop_length, d.hop_length, top),
        n_fft: count_or(f.n_fft, d.n_fft, top),
        n_mels: count_or(f.n_mels, d.n_mels, top),
        n_mfcc: count_or(f.n_mfcc, d.n_mfcc, top),
        boundary_context_beats: list_or(f.boundary_context_beats, d.boundary_context_beats),
        edge_beats: count_or(f.edge_beats, d.edge_beats, top),
        min_distance_beats: count_or(f.min_distance_beats, d.min_distance_beats, top),
        max_boundaries: match f.max_boundaries {
            Some(n) => Some(low_bits(n)),
            None => None,
        },
        boundary_refine_window_beats: count_or(f.boundary_refine_window_beats, d.boundary_refine_window_beats, top),
        boundary_lengths_beats: list_or(f.boundary_lengths_beats, d.boundary_lengths_beats),
        boundary_length_weight: number_or(f.boundary_length_weight, d.boundary_length_weight),
        boundary_shift_penalty: number_or(f.boundary_shift_penalty, d.boundary_shift_penalty),
        boundary_downbeat_bonus: number_or(f.boundary_downbeat_bonus, d.boundary_downbeat_bonus),
        label_weight: number_or(f.label_weight, d.label_weight),
        transition_weight: number_or(f.transition_weight, d.transition_weight),
        length_weight: number_or(f.length_weight, d.length_weight),
    }
}

fn read_count(field: Option<Binary64>, fallback: u64, limit: u64) -> (r: u64)
    ensures
        r == count_or(field, fallback as nat, limit as nat),
{
    match field {
        Some(v) => v.truncate(limit),
        None => Binary64::from_u64(fallback).truncate(limit),
    }
}

fn read_number(field: Option<Binary64>, fallback: Binary64) -> (r: Binary64)
    ensures
        r == number_or(field, fallback),
{
    match field {
        Some(v) => v,
        None => fallback,
    }
}

fn index_part(n: u64) -> (r: usize)
    ensures
        r == low_bits(n),
{
    (n as u128 % (usize::MAX as u128 + 1)) as usize
}

fn read_list(field: Option<Vec<Option<u64>>>, fallback: Vec<usize>) -> (r: Vec<usize>)
    ensures
        r@ == list_or(field, fallback@),
{
    match field {
        Some(items) => {
            let mut out: Vec<usize> = Vec::new();
            let mut i: usize = 0;
            while i < items.len()
                invariant
                    i <= items@.len(),
                    out@ == integers_of(items@.take(i as int)),
                decreases items@.len() - i,
            {
                assert(items@.take(i + 1).drop_last() =~= items@.take(i as int));
                match items[i] {
                    Some(n) => {
                        out.push(index_part(n));
                    },
                    None => {},
                }
                i = i + 1;
            }
            assert(items@.take(items@.len() as int) =~= items@);
            out
        },
        None => fallback,
    }
}

impl ModelSettings {
    /// What a settings text says, member by member.
    fn read_fields(text: &str) -> (f: SettingsFields)
        ensures
            are_fields(text@, f),
    {
        SettingsFields {
            sr: number_member(text, "sr"),
            hop_length: number_member(text, "hop_length"),
            n_fft: number_member(text, "n_fft"),
            n_mels: number_member(text, "n_mels"),
            n_mfcc: number_member(text, "n_mfcc"),
            boundary_context_beats: naturals_member(text, "boundary_context_beats"),
            edge_beats: number_member(text, "edge_beats"),
            min_distance_beats: number_member(text, "min_distance_beats"),
            max_boundaries: natural_member(text, "max_boundaries"),
            boundary_refine_window_beats: number_member(text, "boundary_refine_window_beats"),
            boundary_lengths_beats: naturals_member(text, "boundary_lengths_beats"),
            boundary_length_weight: number_member(text, "boundary_length_weight"),
            boundary_shift_penalty: number_member(text, "boundary_shift_penalty"),
            boundary_downbeat_bonus: number_member(text, "boundary_downbeat_bonus"),
            label_weight: number_member(text, "label_weight"),
            transition_weight: number_member(text, "transition_weight"),
            length_weight: number_member(text, "length_weight"),
        }
    }

    /// The settings that fields give, each with its production value as fallback.
    pub fn from_fields(f: SettingsFields) -> (r: Self)
        ensures
            r@ == settings_of(f),
    {
        let d: ModelSettings = ModelSettings::default();
        let top: u64 = usize::MAX as u64;
        ModelSettings {
            sample_rate: read_count(f.sr, d.sample_rate as u64, u32::MAX as u64) as u32,
            hop_length: read_count(f.hop_length, d.hop_length as u64, top) as usize,
            n_fft: read_count(f.n_fft, d.n_fft as u64, top) as usize,
            n_mels: read_count(f.n_mels, d.n_mels as u64, top) as usize,
            n_mfcc: read_count(f.n_mfcc, d.n_mfcc as u64, top) as usize,
            boundary_context_beats: read_list(f.boundary_context_beats, d.boundary_context_beats),
            edge_beats: read_count(f.edge_beats, d.edge_beats as u64, top) as usize,
            min_distance_beats: read_count(f.min_distance_beats, d.min_distance_beats as u64, top) as usize,
            max_boundaries: match f.max_boundaries {
                Some(n) => Some(index_part(n)),
                None => None,
            },
            boundary_refine_window_beats: read_count(
                f.boundary_refine_window_beats,
                d.boundary_refine_window_beats as u64,
                top,
            ) as usize,
            boundary_lengths_beats: read_list(f.boundary_lengths_beats, d.boundary_lengths_beats),
            boundary_length_weight: read_number(f.boundary_length_weight, d.boundary_length_weight),
            boundary_shift_penalty: read_number(f.boundary_shift_penalty, d.boundary_shift_penalty),
            boundary_downbeat_bonus: read_number(f.boundary_downbeat_bonus, d.boundary_downbeat_bonus),
            label_weight: read_number(f.label_weight, d.label_weight),
            transition_weight: read_number(f.transition_weight, d.transition_weight),
            length_weight: read_number(f.length_weight, d.length_weight),
        }
    }

    /// The settings in a JSON text; what it does not say keeps its production
    /// value.
    pub fn from_json(text: &str) -> (r: Self)
        ensures
            exists|f: SettingsFields| #[trigger] are_fields(text@, f) && r@ == settings_of(f),
    {
        let f: SettingsFields = ModelSettings::read_fields(text);
        ModelSettings::from_fields(f)
    }
}

/// The only artifact layout this reader understands.
pub const NPZ_FORMAT: &'static str = "mixlyzer_phrase_weight_v1";

/// Where an installation keeps the weights, relative to its root.
pub const DEFAULT_MODEL_RELATIVE_PATH: &'static str = "assets/weights/phrase_analyzer.npz";

/// The steps from a directory's root, or from where a relative path starts,
/// among the first `n` pieces of its path: an empty piece is none, nor is `.`
/// anywhere but in front.
pub open spec fn steps_of(parts: Seq<Seq<char>>, n: nat) -> Seq<Seq<char>>
    decreases n,
{
    if n == 0 {
        seq![]
    } else {
        let before = steps_of(parts, (n - 1) as nat);
        let part = parts[n - 1];
        if part.len() == 0 || (part == "."@ && n > 1) {
            before
        } else {
            before.push(part)
        }
    }
}

/// The steps to a directory, whose separators are all `/`.
pub open spec fn steps_to(start: Seq<char>) -> Seq<Seq<char>> {
    steps_of(pieces(start, '/'), pieces(start, '/').len())
}

/// The directory that some steps lead to.
pub open spec fn directory_at(rooted: bool, steps: Seq<Seq<char>>) -> Seq<char> {
    (if rooted {
        seq!['/']
    } else {
        seq![]
    }) + joined(steps, seq!['/'])
}

/// Where a directory would hold the default model.
pub open spec fn model_under(directory: Seq<char>) -> Seq<char> {
    if directory.len() == 0 || directory == seq!['/'] {
        directory + DEFAULT_MODEL_RELATIVE_PATH@
    } else {
        directory + seq!['/'] + DEFAULT_MODEL_RELATIVE_PATH@
    }
}

/// Where the default model is looked for: under a directory, then under each
/// of its parents in turn.
pub open spec fn candidates(start: Seq<char>) -> Seq<Seq<char>> {
    let steps = steps_to(start);
    let rooted = start.len() > 0 && start[0] == '/';
    Seq::new(steps.len() + 1, |i: int| model_under(directory_at(rooted, steps.take(steps.len() - i))))
}

/// The steps to a directory.
fn split_steps(start: &str) -> (r: Vec<String>)
    ensures
        views(r@) == steps_to(start@),
{
    let parts: Vec<String> = split_text(start, '/');
    let ghost all = views(parts@);
    let mut steps: Vec<String> = Vec::new();
    assert(views(steps@) =~= steps_of(all, 0));
    let mut i: usize = 0;
    while i < parts.len()
        invariant
            i <= parts@.len(),
            all == views(parts@),
            views(steps@) == steps_of(all, i as nat),
        decreases parts@.len() - i,
    {
        let part: &str = parts[i].as_str();
        assert(all[i as int] == part@);
        if !part.is_empty() && (i == 0 || !same_text(part, ".")) {
            let copy: String = copy_text(part);
            proof {
                lemma_views_push(steps@, copy);
            }
            steps.push(copy);
        }
        i = i + 1;
    }
    steps
}

/// Where a directory that some steps lead to would hold the default model.
fn candidate_at(rooted: bool, steps: &Vec<String>) -> (r: String)
    ensures
        r@ == model_under(directory_at(rooted, views(steps@))),
{
    proof {
        reveal_strlit("/");
        assert("/"@ =~= seq!['/']);
    }
    let mut out: String = String::new();
    if rooted {
        out.push('/');
    }
    let rest: String = join_texts(steps, "/");
    out.push_str(rest.as_str());
    let ghost directory = directory_at(rooted, views(steps@));
    assert(out@ =~= directory);
    if !out.as_str().is_empty() && !same_text(out.as_str(), "/") {
        out.push('/');
    }
    out.push_str(DEFAULT_MODEL_RELATIVE_PATH);
    assert(out@ =~= model_under(directory));
    out
}

/// The places to try for the default model, walking up from a directory whose
/// separators are all `/`: the directory itself, then each parent in turn.
///
/// Which of them is a file only the filesystem can say.
pub fn model_candidates(start: &str) -> (r: Vec<String>)
    ensures
        views(r@) == candidates(start@),
{
    let rooted: bool = !start.is_empty() && start.get_char(0) == '/';
    let mut steps: Vec<String> = split_steps(start);
    let ghost all = views(steps@);
    let ghost want = candidates(start@);
    let mut out: Vec<String> = Vec::new();
    assert(all.take(all.len() as int) =~= all);
    assert(views(out@) =~= want.take(0));
    while steps.len() > 0
        invariant
            all == steps_to(start@),
            rooted == (start@.len() > 0 && start@[0] == '/'),
            want == candidates(start@),
            steps@.len() + out@.len() == all.len(),
            views(steps@) == all.take(steps@.len() as int),
            views(out@) == want.take(out@.len() as int),
        decreases steps@.len(),
    {
        let place: String = candidate_at(rooted, &steps);
        let ghost count = out@.len() as int;
        let ghost before = views(steps@);
        proof {
            lemma_views_push(out@, place);
            assert(want[count] == place@);
            assert(want.take(count).push(want[count]) =~= want.take(count + 1));
        }
        out.push(place);
        steps.pop();
        assert(views(steps@) =~= before.drop_last());
        assert(before.drop_last() =~= all.take(steps@.len() as int));
    }
    let place: String = candidate_at(rooted, &steps);
    proof {
        let count = out@.len() as int;
        lemma_views_push(out@, place);
        assert(want[count] == place@);
        assert(want.take(count).push(want[count]) =~= want);
    }
    out.push(place);
    out
}

/// A loaded two-stage phrase model.
#[derive(Debug, Clone)]
pub struct PhraseModel {
    pub settings: ModelSettings,
    pub boundary: HistGradientBoosting,
    pub label: HistGradientBoosting,
    /// Segment labels, in the order the label ensemble scores them.
    pub labels: Vec<String>,
    /// Log transition probabilities between labels; the two extra states are
    /// START (row `n_labels`) and END (column `n_labels + 1`).
    pub transition: Vec<Vec<Binary64>>,
    /// Mean of log segment length, per label.
    pub length_mu: Vec<Binary64>,
    /// Standard deviation of log segment length, per label.
    pub length_sigma: Vec<Binary64>,
}

/// Why the array of a name gives no single text.
pub open spec fn text_fault(archive: Map<Seq<char>, Npy>, name: Seq<char>) -> Option<LoadFault> {
    if !archive.contains_key(name) {
        Some(LoadFault::Missing(name))
    } else if single_text(archive[name]) is None {
        Some(LoadFault::Unusable(name, "expected a single string"@))
    } else {
        None
    }
}

/// The layout of a model must be the known one.
pub open spec fn layout_fault(archive: Map<Seq<char>, Npy>) -> Option<LoadFault> {
    let layout = single_text(archive["format"@])->0;
    if layout != NPZ_FORMAT@ {
        Some(LoadFault::Layout(layout, NPZ_FORMAT@))
    } else {
        None
    }
}

/// How many labels a model has.
pub open spec fn label_count(archive: Map<Seq<char>, Npy>) -> nat {
    archive["label_labels"@]->Str_0.len()
}

/// The transitions must be a square with two extra states.
pub open spec fn transition_fault(archive: Map<Seq<char>, Npy>) -> Option<LoadFault> {
    let n = label_count(archive);
    let found = numbers(archive["label_transition"@]).len();
    let need = (n + 2) * (n + 2);
    if found != need {
        Some(
            LoadFault::Unusable(
                "label_transition"@,
                "has "@ + decimal(found) + " entries; "@ + decimal(n) + " labels need "@ + decimal(need),
            ),
        )
    } else {
        None
    }
}

/// Why no model can be read.
pub open spec fn model_fault(archive: Map<Seq<char>, Npy>) -> Option<LoadFault> {
    first_of(
        text_fault(archive, "format"@),
        first_of(
            layout_fault(archive),
            first_of(
                text_fault(archive, "settings_json"@),
                first_of(
                    field_fault(archive, "label_labels"@, Use::Texts),
                    first_of(
                        field_fault(archive, "label_transition"@, Use::Numbers),
                        first_of(transition_fault(archive), priors_fault(archive)),
                    ),
                ),
            ),
        ),
    )
}

/// Why the length priors or the ensembles cannot be read.
pub open spec fn priors_fault(archive: Map<Seq<char>, Npy>) -> Option<LoadFault> {
    first_of(
        field_fault(archive, "label_length_mu"@, Use::Numbers),
        first_of(
            field_fault(archive, "label_length_sigma"@, Use::Numbers),
            first_of(load_fault(archive, "boundary"@), load_fault(archive, "label"@)),
        ),
    )
}

/// Whether rows are a flat list cut into rows of `width`.
pub open spec fn cut_into_rows(flat: Seq<Binary64>, width: int, rows: Seq<Vec<Binary64>>) -> bool {
    &&& rows.len() * width == flat.len()
    &&& forall|r: int| 0 <= r < rows.len() ==> (#[trigger] rows[r])@ == flat.subrange(r * width, (r + 1) * width)
}

/// Whether a model is the one stored in an archive.
pub open spec fn is_model(archive: Map<Seq<char>, Npy>, m: PhraseModel) -> bool {
    &&& exists|f: SettingsFields|
        #[trigger] are_fields(single_text(archive["settings_json"@])->0, f) && m.settings@ == settings_of(f)
    &&& Npy::Str(views(m.labels@)) == archive["label_labels"@]
    &&& cut_into_rows(numbers(archive["label_transition"@]), (m.labels@.len() + 2) as int, m.transition@)
    &&& m.length_mu@ == numbers(archive["label_length_mu"@])
    &&& m.length_sigma@ == numbers(archive["label_length_sigma"@])
    &&& is_stored(archive, "boundary"@, m.boundary)
    &&& is_stored(archive, "label"@, m.label)
    &&& m.boundary.fits()
    &&& m.label.fits()
}

fn load_text(archive: &Npz, name: &str) -> (r: Result<String, PhraseError>)
    ensures
        r is Ok <==> text_fault(archive@, name@) is None,
        r is Ok ==> r->Ok_0@ == single_text(archive@[name@])->0,
        r is Err ==> reports(r->Err_0, text_fault(archive@, name@)->0),
{
    match archive.get(name) {
        Some(array) => array.to_scalar_string(name),
        None => Err(PhraseError::MissingModelField(copy_text(name))),
    }
}

/// Cuts a flat list into rows of `width`.
fn cut_rows(flat: &Vec<Binary64>, width: usize) -> (rows: Vec<Vec<Binary64>>)
    requires
        width > 0,
        flat@.len() == width * width,
    ensures
        cut_into_rows(flat@, width as int, rows@),
        rows@.len() == width,
{
    let mut rows: Vec<Vec<Binary64>> = Vec::new();
    let total: usize = flat.len();
    let mut at: usize = 0;
    assert(rows@.len() * width == 0) by (nonlinear_arith)
        requires
            rows@.len() == 0,
    ;
    while rows.len() < width
        invariant
            total == flat@.len(),
            total == width * width,
            at == rows@.len() * width,
            rows@.len() <= width,
            forall|r: int| 0 <= r < rows@.len() ==> (#[trigger] rows@[r])@ == flat@.subrange(r * width, (r + 1) * width),
        decreases width - rows@.len(),
    {
        assert((rows@.len() + 1) * width == at + width && at + width <= width * width) by (nonlinear_arith)
            requires
                at == rows@.len() * width,
                rows@.len() + 1 <= width,
        ;
        let row: Vec<Binary64> = vstd::slice::slice_to_vec(
            vstd::slice::slice_subrange(flat.as_slice(), at, at + width),
        );
        rows.push(row);
        at = at + width;
    }
    rows
}

impl PhraseModel {
    /// Reads a model from an in-memory `.npz`.
    pub fn from_bytes(bytes: &[u8]) -> (r: Result<Self, PhraseError>)
        ensures
            archive_of(bytes@) is Err ==> r is Err && is_malformed(r->Err_0, archive_of(bytes@)->Err_0),
            archive_of(bytes@) is Ok ==> {
                &&& r is Err <==> model_fault(archive_of(bytes@)->Ok_0) is Some
                &&& r is Err ==> reports(r->Err_0, model_fault(archive_of(bytes@)->Ok_0)->0)
                &&& r is Ok ==> is_model(archive_of(bytes@)->Ok_0, r->Ok_0)
            },
    {
        let archive: Npz = parse(bytes)?;
        PhraseModel::from_npz(&archive)
    }

    /// Reads a model from an archive.
    #[verifier::spinoff_prover]
    #[verifier::rlimit(60)]
    pub fn from_npz(archive: &Npz) -> (r: Result<Self, PhraseError>)
        ensures
            r is Err <==> model_fault(archive@) is Some,
            r is Err ==> reports(r->Err_0, model_fault(archive@)->0),
            r is Ok ==> is_model(archive@, r->Ok_0),
    {
        let layout: String = load_text(archive, "format")?;
        if !same_text(layout.as_str(), NPZ_FORMAT) {
            return Err(
                PhraseError::UnsupportedModelFormat { found: layout, expected: copy_text(NPZ_FORMAT) },
            );
        }
        let settings_text: String = load_text(archive, "settings_json")?;
        let settings: ModelSettings = ModelSettings::from_json(settings_text.as_str());
        let labels: Vec<String> = load_texts(archive, "label_labels")?;
        let n: usize = labels.len();
        assert(views(labels@).len() == label_count(archive@));
        let flat: Vec<Binary64> = load_number_list(archive, "label_transition")?;
        let (front, last): (u128, u8) = square_with_ends(n);
        let count: u128 = flat.len() as u128;
        if !(count / 10 == front && count % 10 == last as u128) {
            let mut why: String = copy_text("has ");
            push_decimal(&mut why, flat.len() as u64);
            why.push_str(" entries; ");
            push_decimal(&mut why, n as u64);
            why.push_str(" labels need ");
            if front > 0 {
                push_wide_decimal(&mut why, front);
            }
            why.push((48 + last) as char);
            assert(why@ =~= "has "@ + decimal(flat@.len()) + " entries; "@ + decimal(n as nat) + " labels need "@ + decimal(
                ((n + 2) * (n + 2)) as nat,
            ));
            return Err(PhraseError::ModelField { field: copy_text("label_transition"), reason: why });
        }
        assert(n + 2 <= usize::MAX) by (nonlinear_arith)
            requires
                (n + 2) * (n + 2) <= usize::MAX,
        ;
        let transition: Vec<Vec<Binary64>> = cut_rows(&flat, n + 2);
        let length_mu: Vec<Binary64> = load_number_list(archive, "label_length_mu")?;
        let length_sigma: Vec<Binary64> = load_number_list(archive, "label_length_sigma")?;
        let boundary: HistGradientBoosting = HistGradientBoosting::from_npz(archive, "boundary")?;
        let label: HistGradientBoosting = HistGradientBoosting::from_npz(archive, "label")?;
        Ok(PhraseModel { settings, boundary, label, labels, transition, length_mu, length_sigma })
    }

    /// Index of the START state in [`Self::transition`].
    pub fn start_state(&self) -> (r: usize)
        ensures
            r == self.labels@.len(),
    {
        self.labels.len()
    }

    /// Index of the END state in [`Self::transition`].
    pub fn end_state(&self) -> (r: usize)
        requires
            self.labels@.len() < usize::MAX,
        ensures
            r == self.labels@.len() + 1,
    {
        self.labels.len() + 1
    }
}

/// How many transitions `n` labels and the two extra states have: all digits
/// but the last, and the last.
fn square_with_ends(n: usize) -> (r: (u128, u8))
    ensures
        (n + 2) * (n + 2) == 10 * r.0 + r.1,
        r.1 < 10,
{
    let side: u128 = n as u128 + 2;
    let t: u128 = side / 10;
    let u: u128 = side % 10;
    assert(10 * (t * t) + 2 * (t * u) + 9 < 0x1_0000_0000_0000_0000_0000_0000_0000_0000 && u * u <= 81) by (nonlinear_arith)
        requires
            t <= 0x2000_0000_0000_0000,
            u <= 9,
    ;
    assert(0 <= t * t <= 10 * (t * t) && 0 <= t * u <= 2 * (t * u)) by (nonlinear_arith)
        requires
            t >= 0,
            u >= 0,
    ;
    assert(side * side == 10 * (10 * (t * t) + 2 * (t * u)) + u * u) by (nonlinear_arith)
        requires
            side == 10 * t + u,
    ;
    (10 * (t * t) + 2 * (t * u) + (u * u) / 10, ((u * u) % 10) as u8)
}

/// Settings that an artifact does not give have their defaults.
pub proof fn law_missing_settings_have_defaults(f: SettingsFields)
    requires
        f.sr is None && f.hop_length is None && f.n_fft is None && f.n_mels is None && f.n_mfcc is None,
        f.boundary_context_beats is None && f.edge_beats is None && f.min_distance_beats is None,
        f.max_boundaries is None && f.boundary_refine_window_beats is None && f.boundary_lengths_beats is None,
        f.boundary_length_weight is None && f.boundary_shift_penalty is None && f.boundary_downbeat_bonus is None,
        f.label_weight is None && f.transition_weight is None && f.length_weight is None,
    ensures
        settings_of(f) == default_settings(),
{
    let top = usize::MAX as nat;
    law_small_integers_come_back(22_050, u32::MAX as nat);
    law_small_integers_come_back(512, top);
    law_small_integers_come_back(2048, top);
    law_small_integers_come_back(48, top);
    law_small_integers_come_back(20, top);
    law_small_integers_come_back(8, top);
    law_small_integers_come_back(16, top);
}

/// Settings that an artifact gives are taken as they are.
pub proof fn law_given_settings_are_kept(f: SettingsFields, n: nat, w: Binary64)
    requires
        n < 0x1_0000_0000,
    ensures
        f.sr == Some(of_int(n as int)) ==> settings_of(f).sample_rate == n,
        f.hop_length == Some(of_int(n as int)) ==> settings_of(f).hop_length == n,
        f.n_fft == Some(of_int(n as int)) ==> settings_of(f).n_fft == n,
        f.n_mels == Some(of_int(n as int)) ==> settings_of(f).n_mels == n,
        f.n_mfcc == Some(of_int(n as int)) ==> settings_of(f).n_mfcc == n,
        f.edge_beats == Some(of_int(n as int)) ==> settings_of(f).edge_beats == n,
        f.min_distance_beats == Some(of_int(n as int)) ==> settings_of(f).min_distance_beats == n,
        f.boundary_refine_window_beats == Some(of_int(n as int)) ==> settings_of(f).boundary_refine_window_beats == n,
        f.max_boundaries is None ==> settings_of(f).max_boundaries is None,
        f.boundary_length_weight == Some(w) ==> settings_of(f).boundary_length_weight == w,
        f.boundary_shift_penalty == Some(w) ==> settings_of(f).boundary_shift_penalty == w,
        f.boundary_downbeat_bonus == Some(w) ==> settings_of(f).boundary_downbeat_bonus == w,
        f.label_weight == Some(w) ==> settings_of(f).label_weight == w,
        f.transition_weight == Some(w) ==> settings_of(f).transition_weight == w,
        f.length_weight == Some(w) ==> settings_of(f).length_weight == w,
{
    law_small_integers_come_back(n, u32::MAX as nat);
    law_small_integers_come_back(n, usize::MAX as nat);
}

/// The model is looked for first under the directory that is given, and then
/// where it would be looked for from the directory above.
pub proof fn law_the_model_is_sought_upwards(start: Seq<char>, above: Seq<char>, i: int)
    requires
        steps_to(start).len() > 0,
        steps_to(above) == steps_to(start).drop_last(),
        start.len() > 0 && above.len() > 0,
        start[0] == above[0],
        0 <= i < candidates(above).len(),
    ensures
        candidates(start).len() == candidates(above).len() + 1,
        candidates(start)[i + 1] == candidates(above)[i],
        candidates(start)[0] == model_under(
            (if start[0] == '/' {
                seq!['/']
            } else {
                seq![]
            }) + joined(steps_to(start), seq!['/']),
        ),
{
    let steps = steps_to(start);
    let up = steps_to(above);
    assert(steps.take(steps.len() - (i + 1)) =~= up.take(up.len() - i));
    assert(steps.take(steps.len() as int) =~= steps);
}

} // verus!
