//! Turning analysis results into something readable in a terminal.

use crate::analyze::report::Analysis;
use crate::domain::beatgrid::downbeats;
use crate::domain::cue::CuePoint;
use crate::domain::jumpcue::{regions, JumpCue, Region};
use crate::domain::key::{camelot_label, classical_label, Key};
use crate::domain::phrase::{sections, Phrase, Section};
use crate::domain::segments::{KeySegment, TempoSegment};
use crate::domain::track::Track;
use crate::number::binary64::{of_int, product, zero, Binary64};
use crate::number::fixed::{fixed, fixed_text, last_digits, push_last_digits};
use crate::number::integral::{nearest_integer, truncated};
use crate::number::laws::{law_comparison_is_numeric, law_small_integers_are_exact, law_small_integers_come_back};
use crate::text::{chars_of, copy_text, decimal, decimal_text, push_decimal, text_between};
use vstd::prelude::*;

verus! {

/// A text cut to `width` characters, the cut marked.
pub open spec fn cut(text: Seq<char>, width: nat) -> Seq<char> {
    if text.len() <= width {
        text
    } else if width == 0 {
        seq!['…']
    } else {
        text.subrange(0, width - 1).push('…')
    }
}

/// Cuts a string to `width`, marking the cut so nothing looks complete when it is not.
pub fn truncate(text: &str, width: usize) -> (r: String)
    ensures
        r@ == cut(text@, width as nat),
{
    let chars: Vec<char> = chars_of(text);
    if chars.len() <= width {
        return copy_text(text);
    }
    let keep: usize = if width == 0 {
        0
    } else {
        width - 1
    };
    let mut out: String = text_between(chars.as_slice(), 0, keep);
    out.push('…');
    assert(out@ =~= cut(text@, width as nat));
    out
}

/// A cut text is never longer than asked for, except that the mark stays.
pub proof fn law_cut_text_fits(text: Seq<char>, width: nat)
    ensures
        width > 0 ==> cut(text, width).len() <= width,
        text.len() > width ==> cut(text, width).last() == '…',
        text.len() <= width ==> cut(text, width) == text,
{
}

/// Some spaces.
pub open spec fn spaces(n: nat) -> Seq<char> {
    Seq::new(n, |i: int| ' ')
}

/// A text with spaces in front of it, to `width` characters.
pub open spec fn to_right(text: Seq<char>, width: nat) -> Seq<char> {
    if text.len() >= width {
        text
    } else {
        spaces((width - text.len()) as nat) + text
    }
}

/// A text with spaces behind it, to `width` characters.
pub open spec fn to_left(text: Seq<char>, width: nat) -> Seq<char> {
    if text.len() >= width {
        text
    } else {
        text + spaces((width - text.len()) as nat)
    }
}

/// Puts spaces at the end of a text.
fn push_spaces(out: &mut String, n: usize)
    ensures
        final(out)@ == old(out)@ + spaces(n as nat),
{
    let ghost was = out@;
    let mut i: usize = 0;
    assert(out@ =~= was + spaces(0));
    while i < n
        invariant
            i <= n,
            out@ == was + spaces(i as nat),
        decreases n - i,
    {
        out.push(' ');
        i = i + 1;
        assert(out@ =~= was + spaces(i as nat));
    }
}

/// Puts a text at the end of another, with spaces in front, to `width` characters.
fn push_right(out: &mut String, text: &str, width: usize)
    ensures
        final(out)@ == old(out)@ + to_right(text@, width as nat),
{
    let length: usize = chars_of(text).len();
    let ghost was = out@;
    if length < width {
        push_spaces(out, width - length);
    }
    out.push_str(text);
    assert(out@ =~= was + to_right(text@, width as nat));
}

/// Puts a text at the end of another, with spaces behind, to `width` characters.
fn push_left(out: &mut String, text: &str, width: usize)
    ensures
        final(out)@ == old(out)@ + to_left(text@, width as nat),
{
    let length: usize = chars_of(text).len();
    let ghost was = out@;
    out.push_str(text);
    if length < width {
        push_spaces(out, width - length);
    }
    assert(out@ =~= was + to_left(text@, width as nat));
}

/// A track's title with its artist, or its path where it has no title.
pub open spec fn shown_title(title: Seq<char>, artist: Seq<char>, path: Seq<char>) -> Seq<char> {
    if title.len() == 0 {
        path
    } else if artist.len() == 0 {
        title
    } else {
        artist + " - "@ + title
    }
}

/// A track's title, falling back to its path when there is none.
pub fn display_title(track: &Track) -> (r: String)
    ensures
        r@ == shown_title(track.title@, track.artist@, track.path@),
{
    if track.title.as_str().is_empty() {
        copy_text(track.path.as_str())
    } else if track.artist.as_str().is_empty() {
        copy_text(track.title.as_str())
    } else {
        let mut out: String = copy_text(track.artist.as_str());
        out.push_str(" - ");
        out.push_str(track.title.as_str());
        out
    }
}

/// `m:ss` of a time in seconds; `--:--` where it is none.
pub open spec fn minutes(seconds: Binary64) -> Seq<char> {
    if !seconds.finite() || seconds.spec_lt(zero()) {
        "--:--"@
    } else {
        let total = truncated(nearest_integer(seconds), u64::MAX as nat);
        decimal(total / 60).push(':') + last_digits(total % 60, 2)
    }
}

/// `m:ss`, the form a DJ reads track lengths in.
pub fn format_duration(seconds: Binary64) -> (r: String)
    ensures
        r@ == minutes(seconds),
{
    if !seconds.is_finite() || seconds.lt(zero()) {
        return copy_text("--:--");
    }
    let total: u64 = seconds.round().truncate(u64::MAX);
    let mut out: String = String::new();
    push_decimal(&mut out, total / 60);
    out.push(':');
    push_last_digits(&mut out, (total % 60) as u128, 2);
    assert(out@ =~= minutes(seconds));
    out
}

/// `start - end` of a stretch, both as `m:ss` in eight characters.
pub open spec fn stretch(start: Binary64, end: Binary64) -> Seq<char> {
    "  "@ + to_right(minutes(start), 8) + " - "@ + to_left(minutes(end), 8) + "  "@
}

/// Puts `start - end` of a stretch at the end of a text.
fn push_stretch(out: &mut String, start: Binary64, end: Binary64)
    ensures
        final(out)@ == old(out)@ + stretch(start, end),
{
    let ghost was = out@;
    out.push_str("  ");
    push_right(out, format_duration(start).as_str(), 8);
    out.push_str(" - ");
    push_left(out, format_duration(end).as_str(), 8);
    out.push_str("  ");
    assert(out@ =~= was + stretch(start, end));
}

/// A heading with a count.
pub open spec fn heading(name: Seq<char>, count: nat) -> Seq<char> {
    "\n"@ + name + " ("@ + decimal(count) + ")\n"@
}

/// Puts a heading with a count at the end of a text.
fn push_heading(out: &mut String, name: &str, count: usize)
    ensures
        final(out)@ == old(out)@ + heading(name@, count as nat),
{
    let ghost was = out@;
    out.push_str("\n");
    out.push_str(name);
    out.push_str(" (");
    push_decimal(out, count as u64);
    out.push_str(")\n");
    assert(out@ =~= was + heading(name@, count as nat));
}

/// The line of tempo segment `index`.
pub open spec fn tempo_line(index: nat, segment: TempoSegment) -> Seq<char> {
    "  "@ + to_right(decimal(index), 3) + stretch(segment.start, segment.end) + to_right(fixed(segment.bpm, 2), 7)
        + " BPM  "@ + decimal(segment.time_signature as nat) + "/4  bar starts "@ + fixed(segment.inizio, 3) + "s\n"@
}

/// The lines of the first `n` tempo segments.
pub open spec fn tempo_lines(segments: Seq<TempoSegment>, n: nat) -> Seq<char>
    decreases n,
{
    if n == 0 {
        seq![]
    } else {
        tempo_lines(segments, (n - 1) as nat) + tempo_line((n - 1) as nat, segments[n - 1])
    }
}

/// The line of a jump cue.
pub open spec fn cue_line(cue: Region) -> Seq<char> {
    "  "@ + cue.label + stretch(cue.start, cue.end) + "jump at "@ + to_right(minutes(cue.point), 8) + "  pair "@ + decimal(
        cue.component as nat + 1,
    ) + "\n"@
}

/// The lines of the first `n` jump cues.
pub open spec fn cue_lines(cues: Seq<Region>, n: nat) -> Seq<char>
    decreases n,
{
    if n == 0 {
        seq![]
    } else {
        cue_lines(cues, (n - 1) as nat) + cue_line(cues[n - 1])
    }
}

/// The lines of the first `n` phrases.
pub open spec fn phrase_lines(rows: Seq<Section>, n: nat) -> Seq<char>
    decreases n,
{
    if n == 0 {
        seq![]
    } else {
        phrase_lines(rows, (n - 1) as nat) + stretch(rows[n - 1].start, rows[n - 1].end) + rows[n - 1].label + "\n"@
    }
}

/// The lines of the first `n` cue points.
pub open spec fn point_lines(points: Seq<CuePoint>, n: nat) -> Seq<char>
    decreases n,
{
    if n == 0 {
        seq![]
    } else {
        point_lines(points, (n - 1) as nat) + "  "@ + to_right(decimal(points[n - 1].id as nat), 2) + "  "@ + to_right(
            minutes(points[n - 1].time_sec),
            8,
        ) + "  "@ + points[n - 1].label@ + "\n"@
    }
}

/// A key in both notations.
pub open spec fn key_text(index: nat) -> Seq<char> {
    classical_label(index) + seq![' ', '('] + camelot_label(index) + seq![')']
}

/// The lines of the first `n` key segments.
pub open spec fn key_lines(segments: Seq<KeySegment>, n: nat) -> Seq<char>
    decreases n,
{
    if n == 0 {
        seq![]
    } else {
        key_lines(segments, (n - 1) as nat) + stretch(segments[n - 1].start, segments[n - 1].end) + key_text(
            segments[n - 1].key@,
        ) + "\n"@
    }
}

/// The first lines of a summary: file, length, tempo, key, beats, confidence.
pub open spec fn overview(file: Seq<char>, analysis: Analysis) -> Seq<char> {
    let times = analysis.beatgrid.times();
    let bars = downbeats(times, analysis.beatgrid.tempo(), times.len()).len();
    "file       "@ + file + "\nduration   "@ + minutes(analysis.duration_sec) + " ("@ + fixed(analysis.duration_sec, 2)
        + "s)\ntempo      "@ + fixed(analysis.tempo_global, 2) + " BPM\nkey        "@ + (match analysis.overall_key {
        Some(key) => key_text(key@),
        None => "unknown"@,
    }) + "\nbeats      "@ + decimal(times.len()) + " ("@ + decimal(bars) + " bars)\nconfidence "@ + fixed(
        product(analysis.beat_confidence, of_int(100)),
        0,
    ) + "%\n"@
}

/// The part of a summary that lists the key segments: the first twelve.
pub open spec fn key_part(segments: Seq<KeySegment>) -> Seq<char> {
    if segments.len() == 0 {
        seq![]
    } else if segments.len() <= 12 {
        heading("key segments"@, segments.len()) + key_lines(segments, segments.len())
    } else {
        heading("key segments"@, segments.len()) + key_lines(segments, 12) + "  ... "@ + decimal(
            (segments.len() - 12) as nat,
        ) + " more\n"@
    }
}

/// The part of a summary that lists the jump cues.
pub open spec fn cue_part(cues: Seq<Region>) -> Seq<char> {
    if cues.len() == 0 {
        seq![]
    } else {
        heading("jump cues"@, cues.len()) + cue_lines(cues, cues.len())
    }
}

/// The part of a summary that lists the phrases.
pub open spec fn phrase_part(rows: Seq<Section>) -> Seq<char> {
    if rows.len() == 0 {
        seq![]
    } else {
        heading("phrases"@, rows.len()) + phrase_lines(rows, rows.len())
    }
}

/// The part of a summary that lists the cue points.
pub open spec fn point_part(points: Seq<CuePoint>) -> Seq<char> {
    if points.len() == 0 {
        seq![]
    } else {
        heading("cue points"@, points.len()) + point_lines(points, points.len())
    }
}

/// A whole summary.
pub open spec fn summary(file: Seq<char>, analysis: Analysis) -> Seq<char> {
    let tempo = analysis.beatgrid.tempo();
    overview(file, analysis) + heading("tempo segments"@, tempo.len()) + tempo_lines(tempo, tempo.len()) + cue_part(
        analysis.jump_cues@,
    ) + phrase_part(sections(analysis.phrases@)) + point_part(analysis.cue_points@) + key_part(analysis.key_segments@)
}

/// The first lines of a summary.
fn overview_text(file: &str, analysis: &Analysis) -> (r: String)
    ensures
        r@ == overview(file@, *analysis),
{
    let mut out: String = copy_text("file       ");
    out.push_str(file);
    out.push_str("\nduration   ");
    out.push_str(format_duration(analysis.duration_sec).as_str());
    out.push_str(" (");
    out.push_str(fixed_text(analysis.duration_sec, 2).as_str());
    out.push_str("s)\ntempo      ");
    out.push_str(fixed_text(analysis.tempo_global, 2).as_str());
    out.push_str(" BPM\nkey        ");
    let key: String = match analysis.overall_key {
        Some(key) => key.display(),
        None => copy_text("unknown"),
    };
    out.push_str(key.as_str());
    out.push_str("\nbeats      ");
    push_decimal(&mut out, analysis.beats().len() as u64);
    out.push_str(" (");
    push_decimal(&mut out, analysis.downbeats().len() as u64);
    out.push_str(" bars)\nconfidence ");
    let percent: Binary64 = analysis.beat_confidence.times(Binary64::from_u64(100));
    out.push_str(fixed_text(percent, 0).as_str());
    out.push_str("%\n");
    out
}

/// The line of tempo segment `index`.
fn tempo_text(index: usize, segment: TempoSegment) -> (r: String)
    ensures
        r@ == tempo_line(index as nat, segment),
{
    let mut out: String = copy_text("  ");
    push_right(&mut out, decimal_text(index as u64).as_str(), 3);
    push_stretch(&mut out, segment.start, segment.end);
    push_right(&mut out, fixed_text(segment.bpm, 2).as_str(), 7);
    out.push_str(" BPM  ");
    push_decimal(&mut out, segment.time_signature as u64);
    out.push_str("/4  bar starts ");
    out.push_str(fixed_text(segment.inizio, 3).as_str());
    out.push_str("s\n");
    out
}

/// Puts the lines of the tempo segments at the end of a text.
fn push_tempo_lines(out: &mut String, segments: &[TempoSegment])
    ensures
        final(out)@ == old(out)@ + tempo_lines(segments@, segments@.len()),
{
    let ghost was = out@;
    let mut i: usize = 0;
    assert(out@ =~= was + tempo_lines(segments@, 0));
    while i < segments.len()
        invariant
            i <= segments@.len(),
            out@ == was + tempo_lines(segments@, i as nat),
        decreases segments@.len() - i,
    {
        out.push_str(tempo_text(i, segments[i]).as_str());
        i = i + 1;
        assert(out@ =~= was + tempo_lines(segments@, i as nat));
    }
}

/// The line of a jump cue.
fn cue_text(cue: &JumpCue) -> (r: String)
    requires
        cue.component < usize::MAX,
    ensures
        r@ == cue_line(cue@),
{
    let mut out: String = copy_text("  ");
    out.push_str(cue.label.as_str());
    push_stretch(&mut out, cue.start, cue.end);
    out.push_str("jump at ");
    push_right(&mut out, format_duration(cue.point).as_str(), 8);
    out.push_str("  pair ");
    push_decimal(&mut out, (cue.component + 1) as u64);
    out.push_str("\n");
    out
}

/// Puts the part that lists the jump cues at the end of a text.
fn push_cue_part(out: &mut String, cues: &[JumpCue])
    requires
        forall|i: int| 0 <= i < cues@.len() ==> (#[trigger] cues@[i]).component < usize::MAX,
    ensures
        final(out)@ == old(out)@ + cue_part(regions(cues@)),
{
    let ghost was = out@;
    let ghost all = regions(cues@);
    if cues.len() == 0 {
        assert(out@ =~= was + cue_part(all));
        return;
    }
    push_heading(out, "jump cues", cues.len());
    let ghost start = out@;
    let mut i: usize = 0;
    assert(out@ =~= start + cue_lines(all, 0));
    while i < cues.len()
        invariant
            i <= cues@.len(),
            all == regions(cues@),
            forall|k: int| 0 <= k < cues@.len() ==> (#[trigger] cues@[k]).component < usize::MAX,
            out@ == start + cue_lines(all, i as nat),
        decreases cues@.len() - i,
    {
        assert(all[i as int] == cues@[i as int]@);
        out.push_str(cue_text(&cues[i]).as_str());
        i = i + 1;
        assert(out@ =~= start + cue_lines(all, i as nat));
    }
    assert(out@ =~= was + cue_part(all));
}

/// Puts the part that lists the phrases at the end of a text.
fn push_phrase_part(out: &mut String, phrases: &Vec<Phrase>)
    ensures
        final(out)@ == old(out)@ + phrase_part(sections(phrases@)),
{
    let ghost was = out@;
    let ghost all = sections(phrases@);
    if phrases.len() == 0 {
        assert(out@ =~= was + phrase_part(all));
        return;
    }
    push_heading(out, "phrases", phrases.len());
    let ghost start = out@;
    let mut i: usize = 0;
    assert(out@ =~= start + phrase_lines(all, 0));
    while i < phrases.len()
        invariant
            i <= phrases@.len(),
            all == sections(phrases@),
            out@ == start + phrase_lines(all, i as nat),
        decreases phrases@.len() - i,
    {
        let phrase: &Phrase = &phrases[i];
        assert(all[i as int] == phrase@);
        push_stretch(out, phrase.start, phrase.end);
        out.push_str(phrase.label.as_str());
        out.push_str("\n");
        i = i + 1;
        assert(out@ =~= start + phrase_lines(all, i as nat));
    }
    assert(out@ =~= was + phrase_part(all));
}

/// Puts the part that lists the cue points at the end of a text.
fn push_point_part(out: &mut String, points: &Vec<CuePoint>)
    ensures
        final(out)@ == old(out)@ + point_part(points@),
{
    let ghost was = out@;
    if points.len() == 0 {
        assert(out@ =~= was + point_part(points@));
        return;
    }
    push_heading(out, "cue points", points.len());
    let ghost start = out@;
    let mut i: usize = 0;
    assert(out@ =~= start + point_lines(points@, 0));
    while i < points.len()
        invariant
            i <= points@.len(),
            out@ == start + point_lines(points@, i as nat),
        decreases points@.len() - i,
    {
        let point: &CuePoint = &points[i];
        out.push_str("  ");
        push_right(out, decimal_text(point.id as u64).as_str(), 2);
        out.push_str("  ");
        push_right(out, format_duration(point.time_sec).as_str(), 8);
        out.push_str("  ");
        out.push_str(point.label.as_str());
        out.push_str("\n");
        i = i + 1;
        assert(out@ =~= start + point_lines(points@, i as nat));
    }
    assert(out@ =~= was + point_part(points@));
}

/// Puts the part that lists the key segments at the end of a text.
///
/// A long track can hold dozens; the first twelve show the shape.
fn push_key_part(out: &mut String, segments: &Vec<KeySegment>)
    ensures
        final(out)@ == old(out)@ + key_part(segments@),
{
    let ghost was = out@;
    let total: usize = segments.len();
    if total == 0 {
        assert(out@ =~= was + key_part(segments@));
        return;
    }
    push_heading(out, "key segments", total);
    let ghost start = out@;
    let shown: usize = if total > 12 {
        12
    } else {
        total
    };
    let mut i: usize = 0;
    assert(out@ =~= start + key_lines(segments@, 0));
    while i < shown
        invariant
            i <= shown <= segments@.len(),
            out@ == start + key_lines(segments@, i as nat),
        decreases shown - i,
    {
        let segment: KeySegment = segments[i];
        push_stretch(out, segment.start, segment.end);
        out.push_str(segment.key.display().as_str());
        out.push_str("\n");
        i = i + 1;
        assert(out@ =~= start + key_lines(segments@, i as nat));
    }
    if total > 12 {
        out.push_str("  ... ");
        push_decimal(out, (total - 12) as u64);
        out.push_str(" more\n");
    }
    assert(out@ =~= was + key_part(segments@));
}

/// A one-screen summary of an analysis.
pub fn analysis_text(file: &str, analysis: &Analysis) -> (r: String)
    requires
        forall|i: int| 0 <= i < analysis.jump_cues@.len() ==> (#[trigger] analysis.jump_cues@[i]).component < usize::MAX,
    ensures
        r@ == summary(file@, *analysis),
{
    let mut out: String = overview_text(file, analysis);
    let segments: &[TempoSegment] = analysis.tempo_segments();
    push_heading(&mut out, "tempo segments", segments.len());
    push_tempo_lines(&mut out, segments);
    let cues: &[JumpCue] = analysis.jump_cues.cues();
    assert forall|i: int| 0 <= i < cues@.len() implies (#[trigger] cues@[i]).component < usize::MAX by {
        assert(regions(cues@)[i].component < usize::MAX);
    }
    push_cue_part(&mut out, cues);
    push_phrase_part(&mut out, &analysis.phrases);
    push_point_part(&mut out, &analysis.cue_points);
    push_key_part(&mut out, &analysis.key_segments);
    assert(out@ =~= summary(file@, *analysis));
    out
}

/// Some dashes.
pub open spec fn dashes(n: nat) -> Seq<char> {
    Seq::new(n, |i: int| '-')
}

/// Puts a line of dashes at the end of a text.
fn push_rule(out: &mut String, n: usize)
    ensures
        final(out)@ == old(out)@ + dashes(n as nat).push('\n'),
{
    let ghost was = out@;
    let mut i: usize = 0;
    assert(out@ =~= was + dashes(0));
    while i < n
        invariant
            i <= n,
            out@ == was + dashes(i as nat),
        decreases n - i,
    {
        out.push('-');
        i = i + 1;
        assert(out@ =~= was + dashes(i as nat));
    }
    out.push('\n');
    assert(out@ =~= was + dashes(n as nat).push('\n'));
}

/// A row of the track listing.
pub open spec fn table_row(title: Seq<char>, bpm: Seq<char>, key: Seq<char>, length: Seq<char>) -> Seq<char> {
    to_left(title, 40) + "  "@ + to_right(bpm, 7) + "  "@ + to_right(key, 5) + "  "@ + to_right(length, 8) + "\n"@
}

/// Puts a row of the track listing at the end of a text.
fn push_row(out: &mut String, title: &str, bpm: &str, key: &str, length: &str)
    ensures
        final(out)@ == old(out)@ + table_row(title@, bpm@, key@, length@),
{
    let ghost was = out@;
    push_left(out, title, 40);
    out.push_str("  ");
    push_right(out, bpm, 7);
    out.push_str("  ");
    push_right(out, key, 5);
    out.push_str("  ");
    push_right(out, length, 8);
    out.push_str("\n");
    assert(out@ =~= was + table_row(title@, bpm@, key@, length@));
}

/// The row of a track.
pub open spec fn track_row(track: Track) -> Seq<char> {
    table_row(
        cut(shown_title(track.title@, track.artist@, track.path@), 40),
        match track.bpm {
            Some(bpm) => fixed(bpm, 2),
            None => "--"@,
        },
        match track.key {
            Some(key) => camelot_label(key@),
            None => seq![],
        },
        minutes(
            match track.duration {
                Some(time) => time,
                None => zero(),
            },
        ),
    )
}

/// The rows of the first `n` tracks.
pub open spec fn track_rows(tracks: Seq<Track>, n: nat) -> Seq<char>
    decreases n,
{
    if n == 0 {
        seq![]
    } else {
        track_rows(tracks, (n - 1) as nat) + track_row(tracks[n - 1])
    }
}

/// The whole track listing.
pub open spec fn listing(tracks: Seq<Track>) -> Seq<char> {
    table_row("TITLE"@, "BPM"@, "KEY"@, "LENGTH"@) + dashes(65).push('\n') + track_rows(tracks, tracks.len()) + "\n"@
        + decimal(tracks.len()) + " track(s)\n"@
}

/// A fixed-width listing of library tracks.
pub fn track_table(tracks: &Vec<Track>) -> (r: String)
    ensures
        r@ == listing(tracks@),
{
    let mut out: String = String::new();
    push_row(&mut out, "TITLE", "BPM", "KEY", "LENGTH");
    push_rule(&mut out, 65);
    let ghost start = out@;
    let mut i: usize = 0;
    assert(out@ =~= start + track_rows(tracks@, 0));
    while i < tracks.len()
        invariant
            i <= tracks@.len(),
            out@ == start + track_rows(tracks@, i as nat),
        decreases tracks@.len() - i,
    {
        let track: &Track = &tracks[i];
        let title: String = truncate(display_title(track).as_str(), 40);
        let bpm: String = match track.bpm {
            Some(bpm) => fixed_text(bpm, 2),
            None => copy_text("--"),
        };
        let key: String = track.key_label();
        assert(track.key is None ==> key@ =~= seq![]);
        let time: Binary64 = match track.duration {
            Some(time) => time,
            None => zero(),
        };
        let length: String = format_duration(time);
        push_row(&mut out, title.as_str(), bpm.as_str(), key.as_str(), length.as_str());
        i = i + 1;
        assert(out@ =~= start + track_rows(tracks@, i as nat));
    }
    out.push_str("\n");
    push_decimal(&mut out, tracks.len() as u64);
    out.push_str(" track(s)\n");
    assert(out@ =~= listing(tracks@));
    out
}

/// One side of a transition: the stretch before or after it.
#[derive(Debug, Clone, Copy, PartialEq)]
pub struct TransitionSide {
    pub start_sec: Binary64,
    /// Set when tempos were searched for.
    pub bpm: Option<Binary64>,
    /// Set when keys were searched for.
    pub key: Option<Key>,
}

/// A place in a library track where the tempo or the key changes as asked for.
#[derive(Debug, Clone, PartialEq)]
pub struct Transition {
    pub path: String,
    pub title: String,
    pub from: TransitionSide,
    pub to: TransitionSide,
}

/// What a transition side is matched on: a tempo, else a key.
pub open spec fn side_text(side: TransitionSide) -> Seq<char> {
    match side.bpm {
        Some(bpm) => fixed(bpm, 2),
        None => match side.key {
            Some(key) => camelot_label(key@),
            None => "--"@,
        },
    }
}

/// What a transition side is matched on: a tempo for tempo searches, a key for
/// harmonic ones. Exactly one of the two is set.
pub fn side_label(side: &TransitionSide) -> (r: String)
    ensures
        r@ == side_text(*side),
{
    match side.bpm {
        Some(bpm) => fixed_text(bpm, 2),
        None => match side.key {
            Some(key) => copy_text(key.camelot()),
            None => copy_text("--"),
        },
    }
}

/// The row of a transition.
pub open spec fn transition_row(item: Transition) -> Seq<char> {
    to_left(
        cut(
            if item.title@.len() == 0 {
                item.path@
            } else {
                item.title@
            },
            40,
        ),
        40,
    ) + "  "@ + to_right(side_text(item.from), 7) + " @ "@ + to_right(minutes(item.from.start_sec), 5) + "  "@ + to_right(
        side_text(item.to),
        7,
    ) + " @ "@ + to_right(minutes(item.to.start_sec), 5) + "\n"@
}

/// The rows of the first `n` transitions.
pub open spec fn transition_rows(items: Seq<Transition>, n: nat) -> Seq<char>
    decreases n,
{
    if n == 0 {
        seq![]
    } else {
        transition_rows(items, (n - 1) as nat) + transition_row(items[n - 1])
    }
}

/// The whole listing of transitions.
pub open spec fn transition_listing(items: Seq<Transition>) -> Seq<char> {
    to_left("TITLE"@, 40) + "  "@ + to_right("FROM"@, 16) + "  "@ + to_right("TO"@, 16) + "\n"@ + dashes(78).push('\n')
        + transition_rows(items, items.len()) + "\n"@ + decimal(items.len()) + " transition(s)\n"@
}

/// The row of a transition.
fn transition_text(item: &Transition) -> (r: String)
    ensures
        r@ == transition_row(*item),
{
    let title: &str = if item.title.as_str().is_empty() {
        item.path.as_str()
    } else {
        item.title.as_str()
    };
    let mut out: String = String::new();
    push_left(&mut out, truncate(title, 40).as_str(), 40);
    assert(out@ =~= to_left(cut(title@, 40), 40));
    out.push_str("  ");
    push_right(&mut out, side_label(&item.from).as_str(), 7);
    out.push_str(" @ ");
    push_right(&mut out, format_duration(item.from.start_sec).as_str(), 5);
    out.push_str("  ");
    push_right(&mut out, side_label(&item.to).as_str(), 7);
    out.push_str(" @ ");
    push_right(&mut out, format_duration(item.to.start_sec).as_str(), 5);
    out.push_str("\n");
    out
}

/// A listing of tempo transitions found in the library.
pub fn transition_table(transitions: &Vec<Transition>) -> (r: String)
    ensures
        r@ == transition_listing(transitions@),
{
    let mut out: String = String::new();
    push_left(&mut out, "TITLE", 40);
    assert(out@ =~= to_left("TITLE"@, 40));
    out.push_str("  ");
    push_right(&mut out, "FROM", 16);
    out.push_str("  ");
    push_right(&mut out, "TO", 16);
    out.push_str("\n");
    push_rule(&mut out, 78);
    let ghost start = out@;
    let mut i: usize = 0;
    assert(out@ =~= start + transition_rows(transitions@, 0));
    while i < transitions.len()
        invariant
            i <= transitions@.len(),
            out@ == start + transition_rows(transitions@, i as nat),
        decreases transitions@.len() - i,
    {
        out.push_str(transition_text(&transitions[i]).as_str());
        i = i + 1;
        assert(out@ =~= start + transition_rows(transitions@, i as nat));
    }
    out.push_str("\n");
    push_decimal(&mut out, transitions.len() as u64);
    out.push_str(" transition(s)\n");
    assert(out@ =~= transition_listing(transitions@));
    out
}

/// A column is as wide as was asked for or as its text, and holds the text whole
/// on its own side.
pub proof fn law_columns_hold_their_text(text: Seq<char>, width: nat)
    ensures
        text.len() <= width ==> to_left(text, width).len() == width && to_right(text, width).len() == width,
        text.len() > width ==> to_left(text, width) == text && to_right(text, width) == text,
        to_left(text, width).take(text.len() as int) == text,
        to_right(text, width).skip(to_right(text, width).len() - text.len()) == text,
        forall|i: int| text.len() <= i < to_left(text, width).len() ==> #[trigger] to_left(text, width)[i] == ' ',
        forall|i: int|
            0 <= i < to_right(text, width).len() - text.len() ==> #[trigger] to_right(text, width)[i] == ' ',
{
    assert(to_left(text, width).take(text.len() as int) =~= text);
    assert(to_right(text, width).skip(to_right(text, width).len() - text.len()) =~= text);
}

/// A whole number of minutes and seconds is shown as that.
pub proof fn law_whole_seconds_are_shown(m: nat, s: nat)
    requires
        s < 60,
        60 * m + s < 0x20_0000_0000_0000,
    ensures
        minutes(of_int((60 * m + s) as int)) == decimal(m).push(':') + last_digits(s, 2),
{
    let total = 60 * m + s;
    law_small_integers_come_back(total, u64::MAX as nat);
    law_small_integers_are_exact(total as int);
    law_small_integers_are_exact(0);
    law_comparison_is_numeric(of_int(total as int), zero());
    assert(total / 60 == m && total % 60 == s);
}

/// The rows of a listing follow each other: what comes first stays first, and
/// each track adds its own row.
pub proof fn law_each_track_adds_its_row(tracks: Seq<Track>, n: nat)
    requires
        n < tracks.len(),
    ensures
        track_rows(tracks, n + 1) == track_rows(tracks, n) + track_row(tracks[n as int]),
        track_rows(tracks, 0).len() == 0,
{
}

} // verus!
