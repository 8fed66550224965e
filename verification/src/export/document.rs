//! The `DJ_PLAYLISTS` document of one track.
//!
//! One `COLLECTION` with a single `TRACK`, carrying the beatgrid as `TEMPO`
//! children and the cues as `POSITION_MARK` children. The document is returned
//! as text, so the caller decides where it goes.

use crate::domain::cue::{marks, CuePoint, Mark};
use crate::domain::jumpcue::{regions, JumpCue, Region};
use crate::domain::key::camelot_label;
use crate::domain::segments::TempoSegment;
use crate::domain::track::Track;
use crate::domain::uid::{parse_uuid, uuid_value};
use crate::export::date::{date_of, format_date};
use crate::export::marks::{marker_node, markers, position_marks, sorted_markers, PositionMark};
use crate::export::names::{
    file_url, kind_from_path, kind_of, location, location_path, path_used, safe_name, sanitize_filename, song_title,
    title_of,
};
use crate::export::tempo::{anchors_or_flat, by_inizio, entry_node, tempo_entries, TempoEntry};
use crate::export::xml::{all_xml, clean_names, document_text, law_documents_hold_only_xml_characters, Element, Node};
use crate::number::binary64::{larger, milli, of_int, product, quotient, sum, zero, Binary64};
use crate::number::fixed::{fixed, fixed_text};
use crate::number::integral::{nearest_integer, signed_truncated};
use crate::text::{copy_text, decimal, decimal_text, push_signed_decimal, push_wide_decimal, signed_decimal};
use vstd::prelude::*;

verus! {

/// Schema version written to `DJ_PLAYLISTS` and to `PRODUCT` by default.
pub const DJ_PLAYLISTS_VERSION: &'static str = "1.0.0";

/// Sample rate written when the caller does not override it.
pub const DEFAULT_SAMPLE_RATE: u32 = 44_100;

/// Everything that can stop an export.
#[derive(Debug, Clone, PartialEq)]
pub enum ExportError {
    /// The track has no uid, so there is nothing to derive a `TrackID` from.
    MissingUid { path: String },
    /// The uid is not a UUID, so it has no integer form.
    InvalidUid { uid: String },
}

/// Knobs the caller can turn.
#[derive(Debug, Clone, PartialEq)]
pub struct ExportOptions {
    /// Written to `PRODUCT/@Name`.
    pub product_name: String,
    /// Written to `PRODUCT/@Version`.
    pub product_version: String,
    /// Written to `TRACK/@SampleRate`; the export never inspects the audio.
    pub sample_rate: u32,
    /// Absolute path to the audio file, when the caller has resolved one.
    ///
    /// Used for `Location`, `Kind` and the title fallback in place of the
    /// track's stored (possibly relative) path.
    pub audio_path: Option<String>,
    /// File size in bytes, when the caller knows it. Falls back to the size
    /// stored on the track.
    pub file_size: Option<u64>,
}

impl Default for ExportOptions {
    fn default() -> (r: Self)
        ensures
            r.product_name@ == "Mixlyzer"@,
            r.product_version@ == DJ_PLAYLISTS_VERSION@,
            r.sample_rate == DEFAULT_SAMPLE_RATE,
            r.audio_path is None,
            r.file_size is None,
    {
        ExportOptions {
            product_name: copy_text("Mixlyzer"),
            product_version: copy_text(DJ_PLAYLISTS_VERSION),
            sample_rate: DEFAULT_SAMPLE_RATE,
            audio_path: None,
            file_size: None,
        }
    }
}

/// A finished export: the document text and the name to save it under.
#[derive(Debug, Clone, PartialEq)]
pub struct RekordboxXml {
    /// The complete `DJ_PLAYLISTS` document, including the XML declaration.
    pub document: String,
    /// Suggested file name, `{sanitised title}_rekordbox.xml`.
    pub filename: String,
}

/// Whether a segment counts for the tempo of the track.
pub open spec fn counts(segment: TempoSegment) -> bool {
    segment.bpm.finite() && zero().spec_lt(segment.bpm) && segment.start.finite() && segment.end.finite()
}

/// The weight of a segment: its length, at least a millisecond.
pub open spec fn weight_of(segment: TempoSegment) -> Binary64 {
    larger(segment.spec_duration(), milli())
}

/// The tempo of the first `n` segments times their weights, added up.
pub open spec fn weighted_tempo(segments: Seq<TempoSegment>, n: nat) -> Binary64
    decreases n,
{
    if n == 0 {
        zero()
    } else {
        let before = weighted_tempo(segments, (n - 1) as nat);
        if counts(segments[n - 1]) {
            sum(before, product(segments[n - 1].bpm, weight_of(segments[n - 1])))
        } else {
            before
        }
    }
}

/// The weights of the first `n` segments, added up.
pub open spec fn total_weight(segments: Seq<TempoSegment>, n: nat) -> Binary64
    decreases n,
{
    if n == 0 {
        zero()
    } else {
        let before = total_weight(segments, (n - 1) as nat);
        if counts(segments[n - 1]) {
            sum(before, weight_of(segments[n - 1]))
        } else {
            before
        }
    }
}

/// The tempo of a track: the weighted mean of its segments, else the stored
/// one where that is positive, else zero.
pub open spec fn mean_tempo(stored: Option<Binary64>, segments: Seq<TempoSegment>) -> Binary64 {
    let weight = total_weight(segments, segments.len());
    if zero().spec_lt(weight) {
        quotient(weighted_tempo(segments, segments.len()), weight)
    } else {
        match stored {
            Some(bpm) => if bpm.finite() && zero().spec_lt(bpm) {
                bpm
            } else {
                zero()
            },
            None => zero(),
        }
    }
}

/// The track's tempo, as a duration-weighted mean of the beatgrid segments.
///
/// The segments are the beatgrid, so they win; the stored column is only the
/// fallback when there is no grid.
pub fn average_bpm(track: &Track, segments: &Vec<TempoSegment>) -> (r: Binary64)
    ensures
        r == mean_tempo(track.bpm, segments@),
{
    let mut weighted: Binary64 = zero();
    let mut weight: Binary64 = zero();
    let mut i: usize = 0;
    while i < segments.len()
        invariant
            i <= segments@.len(),
            weighted == weighted_tempo(segments@, i as nat),
            weight == total_weight(segments@, i as nat),
        decreases segments@.len() - i,
    {
        let s: TempoSegment = segments[i];
        if s.bpm.is_finite() && zero().lt(s.bpm) && s.start.is_finite() && s.end.is_finite() {
            let w: Binary64 = s.duration().max(milli());
            weighted = weighted.plus(s.bpm.times(w));
            weight = weight.plus(w);
        }
        i = i + 1;
    }
    if zero().lt(weight) {
        return weighted.over(weight);
    }
    match track.bpm {
        Some(bpm) => if bpm.is_finite() && zero().lt(bpm) {
            bpm
        } else {
            zero()
        },
        None => zero(),
    }
}

/// The latest finite positive end among the first `n` segments; zero where
/// there is none.
pub open spec fn latest_end(segments: Seq<TempoSegment>, n: nat) -> Binary64
    decreases n,
{
    if n == 0 {
        zero()
    } else {
        let before = latest_end(segments, (n - 1) as nat);
        let end = segments[n - 1].end;
        if end.finite() && zero().spec_lt(end) {
            larger(before, end)
        } else {
            before
        }
    }
}

/// The playing time of a track: its own, else the end of its grid.
pub open spec fn playing_time(stored: Option<Binary64>, segments: Seq<TempoSegment>) -> Binary64 {
    match stored {
        Some(time) => if time.finite() && zero().spec_lt(time) {
            time
        } else {
            latest_end(segments, segments.len())
        },
        None => latest_end(segments, segments.len()),
    }
}

/// Playing time in seconds: the track's own duration, else the end of the last
/// beatgrid segment, else zero.
pub fn duration(track: &Track, segments: &Vec<TempoSegment>) -> (r: Binary64)
    ensures
        r == playing_time(track.duration, segments@),
{
    match track.duration {
        Some(time) => {
            if time.is_finite() && zero().lt(time) {
                return time;
            }
        },
        None => {},
    }
    let mut latest: Binary64 = zero();
    let mut i: usize = 0;
    while i < segments.len()
        invariant
            i <= segments@.len(),
            latest == latest_end(segments@, i as nat),
        decreases segments@.len() - i,
    {
        let end: Binary64 = segments[i].end;
        if end.is_finite() && zero().lt(end) {
            latest = latest.max(end);
        }
        i = i + 1;
    }
    latest
}

/// `TrackID`: the uid's 128-bit integer value in decimal, as Rekordbox wants a
/// numeric id.
pub fn track_id(track: &Track) -> (r: Result<String, ExportError>)
    ensures
        track.uid is None ==> (r matches Err(ExportError::MissingUid { path }) && path@ == track.path@),
        track.uid is Some && uuid_value(track.uid->0@) is None ==> (r matches Err(ExportError::InvalidUid { uid }) && uid@
            == track.uid->0@),
        track.uid is Some && uuid_value(track.uid->0@) is Some ==> r is Ok && r->Ok_0@ == decimal(
            uuid_value(track.uid->0@)->0,
        ),
{
    match &track.uid {
        None => Err(ExportError::MissingUid { path: copy_text(track.path.as_str()) }),
        Some(uid) => match parse_uuid(uid.as_str()) {
            None => Err(ExportError::InvalidUid { uid: copy_text(uid.as_str()) }),
            Some(number) => {
                let mut out: String = String::new();
                push_wide_decimal(&mut out, number);
                assert(out@ =~= decimal(number as nat));
                Ok(out)
            },
        },
    }
}

/// `TotalTime` of a playing time: whole seconds, rounded.
pub open spec fn whole_seconds(time: Binary64) -> int {
    if time.finite() && zero().spec_lt(time) {
        signed_truncated(nearest_integer(time))
    } else {
        0
    }
}

/// `TotalTime`: whole seconds, rounded.
pub fn total_time(duration: Binary64) -> (r: i64)
    ensures
        r == whole_seconds(duration),
{
    if duration.is_finite() && zero().lt(duration) {
        duration.round().to_i64()
    } else {
        0
    }
}

/// `BitRate` in kbit/s of a file size and a playing time; 0 when either is unknown.
pub open spec fn kilobits(file_size: u64, time: Binary64) -> int {
    if file_size == 0 || !time.finite() || time.spec_le(zero()) {
        0
    } else {
        signed_truncated(
            nearest_integer(quotient(quotient(product(of_int(file_size as int), of_int(8)), time), of_int(1000))),
        )
    }
}

/// `BitRate` in kbit/s, inferred from size and duration; 0 when either is
/// unknown, which is how Rekordbox reads "not stated".
pub fn bit_rate(file_size: u64, duration: Binary64) -> (r: i64)
    ensures
        r == kilobits(file_size, duration),
{
    if file_size == 0 || !duration.is_finite() || duration.le(zero()) {
        return 0;
    }
    Binary64::from_u64(file_size).times(Binary64::from_u64(8)).over(duration).over(
        Binary64::from_u64(1000),
    ).round().to_i64()
}

/// The file size written: the one the caller knows, else the stored one.
pub open spec fn size_used(track: Track, options: ExportOptions) -> u64 {
    match options.file_size {
        Some(size) => size,
        None => if track.file_size >= 0 {
            track.file_size as u64
        } else {
            0
        },
    }
}

/// The path that an export speaks of.
pub open spec fn path_of(track: Track, options: ExportOptions) -> Seq<char> {
    path_used(
        track.path@,
        match options.audio_path {
            Some(path) => Some(path@),
            None => None,
        },
    )
}

/// The label of a stored key; empty where there is none.
pub open spec fn tonality(track: Track) -> Seq<char> {
    match track.key {
        Some(key) => camelot_label(key@),
        None => seq![],
    }
}

/// The attributes of the `TRACK` element.
pub open spec fn track_attributes(
    track: Track,
    segments: Seq<TempoSegment>,
    options: ExportOptions,
    id: nat,
) -> Seq<(Seq<char>, Seq<char>)> {
    let path = path_of(track, options);
    let time = playing_time(track.duration, segments);
    seq![
        ("TrackID"@, decimal(id)),
        ("Name"@, title_of(track.title@, path)),
        ("Artist"@, track.artist@),
        ("Composer"@, ""@),
        ("Album"@, track.album@),
        ("Grouping"@, ""@),
        ("Genre"@, ""@),
        ("Kind"@, kind_of(path)),
        ("Size"@, decimal(size_used(track, options) as nat)),
        ("TotalTime"@, signed_decimal(whole_seconds(time))),
        ("DiscNumber"@, "1"@),
        ("TrackNumber"@, "1"@),
        ("Year"@, "0"@),
        ("AverageBpm"@, fixed(larger(mean_tempo(track.bpm, segments), zero()), 2)),
        ("DateAdded"@, date_of(track.added_ts as int)),
        ("BitRate"@, signed_decimal(kilobits(size_used(track, options), time))),
        ("SampleRate"@, decimal(options.sample_rate as nat)),
        ("Comments"@, track.comment@),
        ("PlayCount"@, "0"@),
        ("Rating"@, signed_decimal(track.rating as int)),
        ("Location"@, location(path)),
        ("Remixer"@, ""@),
        ("Tonality"@, tonality(track)),
        ("Label"@, ""@),
        ("Mix"@, ""@),
    ]
}

/// The children of the `TRACK` element: its anchors, then its marks.
pub open spec fn track_children(
    track: Track,
    segments: Seq<TempoSegment>,
    cues: Seq<Region>,
    points: Seq<Mark>,
) -> Seq<Node> {
    by_inizio(anchors_or_flat(segments, mean_tempo(track.bpm, segments))).map_values(|e: TempoEntry| entry_node(e))
        + sorted_markers(cues, points).map_values(|m: crate::export::marks::Marker| marker_node(m))
}

/// The whole `DJ_PLAYLISTS` element.
pub open spec fn playlists_node(
    track: Track,
    segments: Seq<TempoSegment>,
    cues: Seq<Region>,
    points: Seq<Mark>,
    options: ExportOptions,
    id: nat,
) -> Node {
    Node {
        name: "DJ_PLAYLISTS"@,
        attributes: seq![("Version"@, DJ_PLAYLISTS_VERSION@)],
        children: seq![
            Node {
                name: "PRODUCT"@,
                attributes: seq![
                    ("Name"@, options.product_name@),
                    ("Version"@, options.product_version@),
                    ("Company"@, options.product_name@),
                ],
                children: seq![],
            },
            Node {
                name: "COLLECTION"@,
                attributes: seq![("Entries"@, "1"@)],
                children: seq![
                    Node {
                        name: "TRACK"@,
                        attributes: track_attributes(track, segments, options, id),
                        children: track_children(track, segments, cues, points),
                    },
                ],
            },
        ],
    }
}

/// The first names of a track's attributes hold only letters.
proof fn lemma_first_names()
    ensures
        all_xml("TrackID"@),
        all_xml("Name"@),
        all_xml("Artist"@),
        all_xml("Composer"@),
        all_xml("Album"@),
        all_xml("Grouping"@),
        all_xml("Genre"@),
        all_xml("Kind"@),
        all_xml("Size"@),
        all_xml("TotalTime"@),
        all_xml("DiscNumber"@),
        all_xml("TrackNumber"@),
        all_xml("Year"@),
{
    reveal_strlit("TrackID");
    reveal_strlit("Name");
    reveal_strlit("Artist");
    reveal_strlit("Composer");
    reveal_strlit("Album");
    reveal_strlit("Grouping");
    reveal_strlit("Genre");
    reveal_strlit("Kind");
    reveal_strlit("Size");
    reveal_strlit("TotalTime");
    reveal_strlit("DiscNumber");
    reveal_strlit("TrackNumber");
    reveal_strlit("Year");
}

/// The other names of a track's attributes hold only letters.
proof fn lemma_other_names()
    ensures
        all_xml("AverageBpm"@),
        all_xml("DateAdded"@),
        all_xml("BitRate"@),
        all_xml("SampleRate"@),
        all_xml("Comments"@),
        all_xml("PlayCount"@),
        all_xml("Rating"@),
        all_xml("Location"@),
        all_xml("Remixer"@),
        all_xml("Tonality"@),
        all_xml("Label"@),
        all_xml("Mix"@),
{
    reveal_strlit("AverageBpm");
    reveal_strlit("DateAdded");
    reveal_strlit("BitRate");
    reveal_strlit("SampleRate");
    reveal_strlit("Comments");
    reveal_strlit("PlayCount");
    reveal_strlit("Rating");
    reveal_strlit("Location");
    reveal_strlit("Remixer");
    reveal_strlit("Tonality");
    reveal_strlit("Label");
    reveal_strlit("Mix");
}

/// The names inside a track hold only letters and underscores.
proof fn lemma_child_names()
    ensures
        all_xml("TEMPO"@),
        all_xml("Inizio"@),
        all_xml("Bpm"@),
        all_xml("Metro"@),
        all_xml("Battito"@),
        all_xml("POSITION_MARK"@),
        all_xml("Name"@),
        all_xml("Type"@),
        all_xml("Start"@),
        all_xml("Num"@),
        all_xml("Red"@),
        all_xml("Green"@),
        all_xml("Blue"@),
{
    reveal_strlit("TEMPO");
    reveal_strlit("Inizio");
    reveal_strlit("Bpm");
    reveal_strlit("Metro");
    reveal_strlit("Battito");
    reveal_strlit("POSITION_MARK");
    reveal_strlit("Name");
    reveal_strlit("Type");
    reveal_strlit("Start");
    reveal_strlit("Num");
    reveal_strlit("Red");
    reveal_strlit("Green");
    reveal_strlit("Blue");
}

/// The names around a track hold only letters and underscores.
proof fn lemma_outer_names()
    ensures
        all_xml("DJ_PLAYLISTS"@),
        all_xml("PRODUCT"@),
        all_xml("COLLECTION"@),
        all_xml("TRACK"@),
        all_xml("Version"@),
        all_xml("Name"@),
        all_xml("Company"@),
        all_xml("Entries"@),
{
    reveal_strlit("DJ_PLAYLISTS");
    reveal_strlit("PRODUCT");
    reveal_strlit("COLLECTION");
    reveal_strlit("TRACK");
    reveal_strlit("Version");
    reveal_strlit("Name");
    reveal_strlit("Company");
    reveal_strlit("Entries");
}

/// Every name in the document is one that XML permits.
proof fn lemma_names_are_clean(
    track: Track,
    segments: Seq<TempoSegment>,
    cues: Seq<Region>,
    points: Seq<Mark>,
    options: ExportOptions,
    id: nat,
)
    ensures
        clean_names(playlists_node(track, segments, cues, points, options, id)),
{
    let root = playlists_node(track, segments, cues, points, options, id);
    lemma_outer_names();
    assert(clean_names(root.children[0]));
    let collection = root.children[1];
    let inner = collection.children[0];
    let entries = by_inizio(anchors_or_flat(segments, mean_tempo(track.bpm, segments)));
    let position = sorted_markers(cues, points);
    assert(inner.children == track_children(track, segments, cues, points));
    assert forall|i: int| 0 <= i < inner.children.len() implies clean_names(#[trigger] inner.children[i]) by {
        lemma_child_names();
        if i < entries.len() {
            assert(inner.children[i] == entry_node(entries[i]));
        } else {
            assert(inner.children[i] == marker_node(position[i - entries.len()]));
        }
    }
    assert forall|i: int| 0 <= i < inner.attributes.len() implies all_xml((#[trigger] inner.attributes[i]).0) by {
        lemma_first_names();
        lemma_other_names();
    }
    assert(clean_names(inner));
    assert(clean_names(collection));
}

/// The document holds only characters that XML 1.0 permits, whatever the track,
/// the cues and the options hold.
pub proof fn law_exports_hold_only_xml_characters(
    track: Track,
    segments: Seq<TempoSegment>,
    cues: Seq<Region>,
    points: Seq<Mark>,
    options: ExportOptions,
    id: nat,
)
    ensures
        all_xml(document_text(playlists_node(track, segments, cues, points, options, id))),
{
    lemma_names_are_clean(track, segments, cues, points, options, id);
    law_documents_hold_only_xml_characters(playlists_node(track, segments, cues, points, options, id));
}

/// An integer in decimal.
fn signed_text(n: i64) -> (r: String)
    ensures
        r@ == signed_decimal(n as int),
{
    let mut out: String = String::new();
    push_signed_decimal(&mut out, n);
    assert(out@ =~= signed_decimal(n as int));
    out
}

/// The `TRACK` element without its children.
#[verifier::rlimit(40)]
fn track_element(track: &Track, segments: &Vec<TempoSegment>, options: &ExportOptions, id: &str, Ghost(number): Ghost<nat>) -> (r:
    Element)
    requires
        id@ == decimal(number),
    ensures
        r@ == (Node {
            name: "TRACK"@,
            attributes: track_attributes(*track, segments@, *options, number),
            children: seq![],
        }),
{
    let path: String = location_path(track, &options.audio_path);
    assert(path@ == path_of(*track, *options));
    let title: String = song_title(track, path.as_str());
    let time: Binary64 = duration(track, segments);
    let average: Binary64 = average_bpm(track, segments);
    let file_size: u64 = match options.file_size {
        Some(size) => size,
        None => if track.file_size >= 0 {
            track.file_size as u64
        } else {
            0
        },
    };
    let kind: String = kind_from_path(path.as_str());
    let size: String = decimal_text(file_size);
    let seconds: String = signed_text(total_time(time));
    let bpm: String = fixed_text(average.max(zero()), 2);
    let date: String = format_date(track.added_ts);
    let rate: String = signed_text(bit_rate(file_size, time));
    let samples: String = decimal_text(options.sample_rate as u64);
    let rating: String = signed_text(track.rating as i64);
    let url: String = file_url(path.as_str());
    let key: String = track.key_label();
    assert(key@ =~= tonality(*track));
    let r: Element = Element::new("TRACK").attr("TrackID", id).attr("Name", title.as_str()).attr(
        "Artist",
        track.artist.as_str(),
    ).attr("Composer", "").attr("Album", track.album.as_str()).attr("Grouping", "").attr("Genre", "").attr(
        "Kind",
        kind.as_str(),
    ).attr("Size", size.as_str()).attr("TotalTime", seconds.as_str()).attr("DiscNumber", "1").attr("TrackNumber", "1").attr(
        "Year",
        "0",
    ).attr("AverageBpm", bpm.as_str()).attr("DateAdded", date.as_str()).attr("BitRate", rate.as_str()).attr(
        "SampleRate",
        samples.as_str(),
    ).attr("Comments", track.comment.as_str()).attr("PlayCount", "0").attr("Rating", rating.as_str()).attr(
        "Location",
        url.as_str(),
    ).attr("Remixer", "").attr("Tonality", key.as_str()).attr("Label", "").attr("Mix", "");
    assert(r@.attributes =~= track_attributes(*track, segments@, *options, number));
    r
}

/// Builds the Rekordbox XML document for one track.
///
/// `tempo_segments` is the beatgrid, `jump_cues` the jump cues competing for
/// the eight hot-cue buttons, and `cue_points` the structural cues, which are
/// exported as memory cues.
pub fn build_rekordbox_xml(
    track: &Track,
    tempo_segments: &Vec<TempoSegment>,
    jump_cues: &Vec<JumpCue>,
    cue_points: &Vec<CuePoint>,
    options: &ExportOptions,
) -> (r: Result<RekordboxXml, ExportError>)
    ensures
        track.uid is None ==> (r matches Err(ExportError::MissingUid { path }) && path@ == track.path@),
        track.uid is Some && uuid_value(track.uid->0@) is None ==> (r matches Err(ExportError::InvalidUid { uid }) && uid@
            == track.uid->0@),
        track.uid is Some && uuid_value(track.uid->0@) is Some ==> {
            &&& r is Ok
            &&& r->Ok_0.document@ == document_text(
                playlists_node(
                    *track,
                    tempo_segments@,
                    regions(jump_cues@),
                    marks(cue_points@),
                    *options,
                    uuid_value(track.uid->0@)->0,
                ),
            )
            &&& all_xml(r->Ok_0.document@)
            &&& r->Ok_0.filename@ == safe_name(title_of(track.title@, path_of(*track, *options))) + "_rekordbox.xml"@
        },
{
    let id: String = match track_id(track) {
        Ok(id) => id,
        Err(e) => {
            return Err(e);
        },
    };
    let ghost number = uuid_value(track.uid->0@)->0;
    let ghost segments = tempo_segments@;
    let ghost cues = regions(jump_cues@);
    let ghost points = marks(cue_points@);
    let mut track_elem: Element = track_element(track, tempo_segments, options, id.as_str(), Ghost(number));
    let ghost bare = track_elem@;
    let average: Binary64 = average_bpm(track, tempo_segments);
    let entries: Vec<TempoEntry> = tempo_entries(tempo_segments, average);
    let ghost entry_nodes = entries@.map_values(|e: TempoEntry| entry_node(e));
    let mut i: usize = 0;
    assert(track_elem@.children =~= entry_nodes.take(0));
    while i < entries.len()
        invariant
            i <= entries@.len(),
            entry_nodes == entries@.map_values(|e: TempoEntry| entry_node(e)),
            track_elem@.name == bare.name,
            track_elem@.attributes == bare.attributes,
            track_elem@.children == entry_nodes.take(i as int),
        decreases entries@.len() - i,
    {
        track_elem.push(entries[i].to_element());
        i = i + 1;
        assert(track_elem@.children =~= entry_nodes.take(i as int));
    }
    assert(track_elem@.children =~= entry_nodes);
    let position: Vec<PositionMark> = position_marks(jump_cues, cue_points);
    let ghost mark_nodes = markers(position@).map_values(|m: crate::export::marks::Marker| marker_node(m));
    let mut k: usize = 0;
    assert(track_elem@.children =~= entry_nodes + mark_nodes.take(0));
    while k < position.len()
        invariant
            k <= position@.len(),
            mark_nodes == markers(position@).map_values(|m: crate::export::marks::Marker| marker_node(m)),
            track_elem@.name == bare.name,
            track_elem@.attributes == bare.attributes,
            track_elem@.children == entry_nodes + mark_nodes.take(k as int),
        decreases position@.len() - k,
    {
        track_elem.push(position[k].to_element());
        k = k + 1;
        assert(track_elem@.children =~= entry_nodes + mark_nodes.take(k as int));
    }
    assert(track_elem@.children =~= track_children(*track, segments, cues, points));
    let product: Element = Element::new("PRODUCT").attr("Name", options.product_name.as_str()).attr(
        "Version",
        options.product_version.as_str(),
    ).attr("Company", options.product_name.as_str());
    let collection: Element = Element::new("COLLECTION").attr("Entries", "1").child(track_elem);
    let root: Element = Element::new("DJ_PLAYLISTS").attr("Version", DJ_PLAYLISTS_VERSION).child(product).child(
        collection,
    );
    proof {
        let want = playlists_node(*track, segments, cues, points, *options, number);
        assert(product@.attributes =~= want.children[0].attributes);
        assert(collection@.attributes =~= want.children[1].attributes);
        assert(collection@.children =~= want.children[1].children);
        assert(root@.attributes =~= want.attributes);
        assert(root@.children =~= want.children);
    }
    proof {
        law_exports_hold_only_xml_characters(*track, segments, cues, points, *options, number);
    }
    let path: String = location_path(track, &options.audio_path);
    let title: String = song_title(track, path.as_str());
    let mut filename: String = sanitize_filename(title.as_str());
    filename.push_str("_rekordbox.xml");
    Ok(RekordboxXml { document: root.to_document(), filename })
}

/// Without a stored duration a track lasts to the last end of its segments.
pub proof fn law_the_track_lasts_to_its_last_end(segments: Seq<TempoSegment>, n: nat)
    requires
        n <= segments.len(),
    ensures
        latest_end(segments, n).finite(),
        zero().spec_le(latest_end(segments, n)),
        forall|i: int|
            0 <= i < n && (#[trigger] segments[i]).end.finite() ==> segments[i].end.spec_le(latest_end(segments, n)),
        latest_end(segments, n) == zero() || exists|i: int|
            0 <= i < n && (#[trigger] segments[i]).end == latest_end(segments, n),
    decreases n,
{
    if n > 0 {
        law_the_track_lasts_to_its_last_end(segments, (n - 1) as nat);
        let before = latest_end(segments, (n - 1) as nat);
        let now = latest_end(segments, n);
        assert(segments[n - 1].end == segments[n - 1].end);
        if before != zero() {
            let i = choose|i: int| 0 <= i < n - 1 && (#[trigger] segments[i]).end == before;
            assert(segments[i].end == before);
        }
    }
}

/// A segment whose tempo or times are no use leaves the mean tempo as it is.
pub proof fn law_useless_segments_do_not_weigh(stored: Option<Binary64>, segments: Seq<TempoSegment>, extra: TempoSegment)
    requires
        !extra.bpm.finite() || extra.bpm.spec_le(zero()) || !extra.start.finite() || !extra.end.finite(),
    ensures
        mean_tempo(stored, segments.push(extra)) == mean_tempo(stored, segments),
{
    lemma_same_weights(segments, segments.push(extra), segments.len());
}

proof fn lemma_same_weights(a: Seq<TempoSegment>, b: Seq<TempoSegment>, n: nat)
    requires
        n <= a.len(),
        n <= b.len(),
        forall|i: int| 0 <= i < n ==> #[trigger] a[i] == b[i],
    ensures
        weighted_tempo(a, n) == weighted_tempo(b, n),
        total_weight(a, n) == total_weight(b, n),
    decreases n,
{
    if n > 0 {
        lemma_same_weights(a, b, (n - 1) as nat);
        assert(a[n - 1] == b[n - 1]);
    }
}

/// Where no segment has a tempo to give, the mean is the stored tempo.
pub proof fn law_without_tempos_the_stored_one_counts(stored: Binary64, segments: Seq<TempoSegment>)
    requires
        stored.finite(),
        zero().spec_lt(stored),
        forall|i: int| 0 <= i < segments.len() ==> !counts(#[trigger] segments[i]),
    ensures
        mean_tempo(Some(stored), segments) == stored,
{
    lemma_no_weight(segments, segments.len());
}

proof fn lemma_no_weight(segments: Seq<TempoSegment>, n: nat)
    requires
        n <= segments.len(),
        forall|i: int| 0 <= i < n ==> !counts(#[trigger] segments[i]),
    ensures
        total_weight(segments, n) == zero(),
    decreases n,
{
    if n > 0 {
        lemma_no_weight(segments, (n - 1) as nat);
        assert(!counts(segments[n - 1]));
    }
}

} // verus!
