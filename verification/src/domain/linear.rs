//! Flattened segment rows for the library database.
//!
//! The database stores a lossy projection of the analysis segments: adjacent
//! rows carrying the same value are merged, and the bar-phase reference is
//! dropped because nothing queries it.

use crate::domain::key::{camelot_label, Key};
use crate::domain::segments::{KeySegment, TempoSegment};
use crate::number::binary64::{absolute, difference, micro, Binary64};
use crate::number::integral::{nearest_integer, signed_truncated};
use crate::order::{grouped, lemma_group_grows, lemma_group_opens, lemma_group_skips};
use crate::text::copy_text;
use vstd::prelude::*;

verus! {

/// A database row for a stretch of constant tempo and meter.
#[derive(Debug, Clone, Copy, PartialEq, Structural)]
pub struct BpmSegmentRow {
    pub seq_index: usize,
    pub start_sec: Binary64,
    pub end_sec: Binary64,
    pub duration_sec: Binary64,
    pub bpm: Binary64,
    pub bpm_rounded: i64,
    pub time_signature: u8,
}

/// A database row for a stretch of constant key.
#[derive(Debug, Clone, PartialEq)]
pub struct KeySegmentRow {
    pub seq_index: usize,
    pub start_sec: Binary64,
    pub end_sec: Binary64,
    pub duration_sec: Binary64,
    pub key_value: u8,
    pub key_label: String,
}

/// The contents of a key row.
pub struct KeyRow {
    pub seq_index: usize,
    pub start: Binary64,
    pub end: Binary64,
    pub duration: Binary64,
    pub key: nat,
    pub label: Seq<char>,
}

impl View for KeySegmentRow {
    type V = KeyRow;

    open spec fn view(&self) -> KeyRow {
        KeyRow {
            seq_index: self.seq_index,
            start: self.start_sec,
            end: self.end_sec,
            duration: self.duration_sec,
            key: self.key_value as nat,
            label: self.key_label@,
        }
    }
}

/// The contents of some key rows.
pub open spec fn key_rows(rows: Seq<KeySegmentRow>) -> Seq<KeyRow> {
    Seq::new(rows.len(), |i: int| rows[i]@)
}

/// Whether a stretch from `start` to `end` is long enough to keep.
pub open spec fn lasts(start: Binary64, end: Binary64) -> bool {
    difference(end, start).finite() && !difference(end, start).spec_le(micro())
}

/// Whether a row and a segment have one tempo and meter.
pub open spec fn same_tempo(bpm: Binary64, time_signature: u8, segment: TempoSegment) -> bool {
    absolute(difference(bpm, segment.bpm)).spec_lt(micro()) && time_signature == segment.time_signature
}

/// The tempo rows of the first `n` segments.
pub open spec fn bpm_rows(segments: Seq<TempoSegment>, n: nat) -> Seq<BpmSegmentRow>
    decreases n,
{
    if n == 0 {
        seq![]
    } else {
        let before = bpm_rows(segments, (n - 1) as nat);
        let segment = segments[n - 1];
        if !lasts(segment.start, segment.end) {
            before
        } else if before.len() > 0 && same_tempo(before.last().bpm, before.last().time_signature, segment) {
            before.drop_last().push(
                BpmSegmentRow {
                    end_sec: segment.end,
                    duration_sec: difference(segment.end, before.last().start_sec),
                    ..before.last()
                },
            )
        } else {
            before.push(
                BpmSegmentRow {
                    seq_index: before.len() as usize,
                    start_sec: segment.start,
                    end_sec: segment.end,
                    duration_sec: difference(segment.end, segment.start),
                    bpm: segment.bpm,
                    bpm_rounded: signed_truncated(nearest_integer(segment.bpm)) as i64,
                    time_signature: segment.time_signature,
                },
            )
        }
    }
}

/// Builds the database rows for a track's tempo segments.
///
/// Consecutive segments with the same tempo and time signature are merged into
/// one row, so `seq_index` here is not the index of the analysis segment.
pub fn build_bpm_segments(segments: &Vec<TempoSegment>) -> (r: Vec<BpmSegmentRow>)
    ensures
        r@ == bpm_rows(segments@, segments@.len()),
{
    let mut rows: Vec<BpmSegmentRow> = Vec::new();
    let mut i: usize = 0;
    while i < segments.len()
        invariant
            i <= segments@.len(),
            rows@ == bpm_rows(segments@, i as nat),
        decreases segments@.len() - i,
    {
        let seg: TempoSegment = segments[i];
        let ghost before = rows@;
        let duration: Binary64 = seg.end.minus(seg.start);
        if duration.is_finite() && !duration.le(micro()) {
            let count: usize = rows.len();
            if count > 0 && rows[count - 1].bpm.minus(seg.bpm).abs().lt(micro()) && rows[count - 1].time_signature
                == seg.time_signature {
                let last: BpmSegmentRow = rows[count - 1];
                rows.set(
                    count - 1,
                    BpmSegmentRow {
                        seq_index: last.seq_index,
                        start_sec: last.start_sec,
                        end_sec: seg.end,
                        duration_sec: seg.end.minus(last.start_sec),
                        bpm: last.bpm,
                        bpm_rounded: last.bpm_rounded,
                        time_signature: last.time_signature,
                    },
                );
                assert(rows@ =~= bpm_rows(segments@, (i + 1) as nat));
            } else {
                rows.push(
                    BpmSegmentRow {
                        seq_index: count,
                        start_sec: seg.start,
                        end_sec: seg.end,
                        duration_sec: duration,
                        bpm: seg.bpm,
                        bpm_rounded: seg.bpm.round().to_i64(),
                        time_signature: seg.time_signature,
                    },
                );
            }
        }
        i = i + 1;
    }
    rows
}

/// The key rows of the first `n` segments.
pub open spec fn key_segment_rows(segments: Seq<KeySegment>, n: nat) -> Seq<KeyRow>
    decreases n,
{
    if n == 0 {
        seq![]
    } else {
        let before = key_segment_rows(segments, (n - 1) as nat);
        let segment = segments[n - 1];
        if !lasts(segment.start, segment.end) {
            before
        } else if before.len() > 0 && before.last().key == segment.key@ {
            before.drop_last().push(
                KeyRow {
                    end: segment.end,
                    duration: difference(segment.end, before.last().start),
                    ..before.last()
                },
            )
        } else {
            before.push(
                KeyRow {
                    seq_index: before.len() as usize,
                    start: segment.start,
                    end: segment.end,
                    duration: difference(segment.end, segment.start),
                    key: segment.key@,
                    label: camelot_label(segment.key@),
                },
            )
        }
    }
}

/// Builds the database rows for a track's key segments.
///
/// Consecutive segments with the same key are merged.
pub fn build_key_segments(segments: &Vec<KeySegment>) -> (r: Vec<KeySegmentRow>)
    ensures
        key_rows(r@) == key_segment_rows(segments@, segments@.len()),
{
    let mut rows: Vec<KeySegmentRow> = Vec::new();
    assert(key_rows(rows@) =~= seq![]);
    let mut i: usize = 0;
    while i < segments.len()
        invariant
            i <= segments@.len(),
            key_rows(rows@) == key_segment_rows(segments@, i as nat),
        decreases segments@.len() - i,
    {
        let seg: KeySegment = segments[i];
        let ghost before = key_rows(rows@);
        let duration: Binary64 = seg.end.minus(seg.start);
        if duration.is_finite() && !duration.le(micro()) {
            let count: usize = rows.len();
            assert(count > 0 ==> before.last() == rows@[count - 1]@);
            if count > 0 && rows[count - 1].key_value == seg.key.index() {
                let row: KeySegmentRow = KeySegmentRow {
                    seq_index: rows[count - 1].seq_index,
                    start_sec: rows[count - 1].start_sec,
                    end_sec: seg.end,
                    duration_sec: seg.end.minus(rows[count - 1].start_sec),
                    key_value: rows[count - 1].key_value,
                    key_label: copy_text(rows[count - 1].key_label.as_str()),
                };
                rows.set(count - 1, row);
                assert(key_rows(rows@) =~= key_segment_rows(segments@, (i + 1) as nat));
            } else {
                rows.push(
                    KeySegmentRow {
                        seq_index: count,
                        start_sec: seg.start,
                        end_sec: seg.end,
                        duration_sec: duration,
                        key_value: seg.key.index(),
                        key_label: copy_text(seg.key.camelot()),
                    },
                );
                assert(key_rows(rows@) =~= key_segment_rows(segments@, (i + 1) as nat));
            }
        }
        i = i + 1;
    }
    rows
}

/// The label for a stored key value; empty where there is none.
pub fn key_value_to_label(key_value: Option<i64>) -> (r: String)
    ensures
        key_value is Some && 0 <= key_value->0 < 24 ==> r@ == camelot_label(key_value->0 as nat),
        !(key_value is Some && 0 <= key_value->0 < 24) ==> r@.len() == 0,
{
    match key_value {
        Some(v) => if 0 <= v && v < 24 {
            copy_text(Key::from_index(v).camelot())
        } else {
            String::new()
        },
        None => String::new(),
    }
}

/// Tempo rows are numbered from zero, each is as long as its ends are apart,
/// and two neighbours never have one tempo and meter.
pub proof fn law_tempo_rows_differ(segments: Seq<TempoSegment>, n: nat)
    requires
        n <= segments.len() <= usize::MAX,
    ensures
        bpm_rows(segments, n).len() <= n,
        forall|i: int|
            0 <= i < bpm_rows(segments, n).len() ==> (#[trigger] bpm_rows(segments, n)[i]).seq_index == i && bpm_rows(
                segments,
                n,
            )[i].duration_sec == difference(bpm_rows(segments, n)[i].end_sec, bpm_rows(segments, n)[i].start_sec),
        forall|i: int|
            0 < i < bpm_rows(segments, n).len() ==> !(absolute(
                difference(bpm_rows(segments, n)[i - 1].bpm, (#[trigger] bpm_rows(segments, n)[i]).bpm),
            ).spec_lt(micro()) && bpm_rows(segments, n)[i - 1].time_signature == bpm_rows(segments, n)[i].time_signature),
    decreases n,
{
    if n > 0 {
        law_tempo_rows_differ(segments, (n - 1) as nat);
        let before = bpm_rows(segments, (n - 1) as nat);
        let now = bpm_rows(segments, n);
        assert forall|i: int| 0 <= i < now.len() implies (#[trigger] now[i]).seq_index == i && now[i].duration_sec
            == difference(now[i].end_sec, now[i].start_sec) by {
            if i < before.len() {
                assert(before[i].seq_index == i);
            }
        }
        assert forall|i: int| 0 < i < now.len() implies !(absolute(
            difference(now[i - 1].bpm, (#[trigger] now[i]).bpm),
        ).spec_lt(micro()) && now[i - 1].time_signature == now[i].time_signature) by {
            assert(now[i - 1].bpm == before[i - 1].bpm && now[i - 1].time_signature == before[i - 1].time_signature);
            if i < before.len() {
                assert(now[i].bpm == before[i].bpm && now[i].time_signature == before[i].time_signature);
            }
        }
    }
}

/// Key rows are numbered from zero, each is as long as its ends are apart, and
/// two neighbours never have one key.
pub proof fn law_key_rows_differ(segments: Seq<KeySegment>, n: nat)
    requires
        n <= segments.len() <= usize::MAX,
    ensures
        key_segment_rows(segments, n).len() <= n,
        forall|i: int|
            0 <= i < key_segment_rows(segments, n).len() ==> (#[trigger] key_segment_rows(segments, n)[i]).seq_index == i
                && key_segment_rows(segments, n)[i].label == camelot_label(key_segment_rows(segments, n)[i].key)
                && key_segment_rows(segments, n)[i].duration == difference(
                key_segment_rows(segments, n)[i].end,
                key_segment_rows(segments, n)[i].start,
            ),
        forall|i: int|
            0 < i < key_segment_rows(segments, n).len() ==> key_segment_rows(segments, n)[i - 1].key != (
            #[trigger] key_segment_rows(segments, n)[i]).key,
    decreases n,
{
    if n > 0 {
        law_key_rows_differ(segments, (n - 1) as nat);
        let before = key_segment_rows(segments, (n - 1) as nat);
        let now = key_segment_rows(segments, n);
        assert forall|i: int| 0 <= i < now.len() implies (#[trigger] now[i]).seq_index == i && now[i].label
            == camelot_label(now[i].key) && now[i].duration == difference(now[i].end, now[i].start) by {
            if i < before.len() {
                assert(before[i].seq_index == i);
            }
        }
        assert forall|i: int| 0 < i < now.len() implies now[i - 1].key != (#[trigger] now[i]).key by {
            assert(now[i - 1].key == before[i - 1].key);
            if i < before.len() {
                assert(now[i].key == before[i].key);
            }
        }
    }
}

/// The tempo rows go over the track: each segment that lasts is in one row of its
/// tempo and time signature, the rows follow each other and are numbered, and a
/// row begins where its first segment begins and ends where its last one ends.
pub proof fn law_each_segment_is_in_a_tempo_row(segments: Seq<TempoSegment>, n: nat) -> (r: (
    Seq<int>,
    Seq<int>,
    Seq<int>,
))
    requires
        n <= segments.len(),
        n <= usize::MAX,
    ensures
        r.0.len() == n,
        r.1.len() == bpm_rows(segments, n).len(),
        bpm_rows(segments, n).len() <= n,
        grouped(r.0, r.1, r.2),
        forall|i: int|
            0 <= i < n ==> (#[trigger] r.0[i] >= 0 <==> difference(segments[i].end, segments[i].start).finite()
                && !difference(segments[i].end, segments[i].start).spec_le(micro())),
        forall|i: int|
            0 <= i < n && #[trigger] r.0[i] >= 0 ==> {
                let row = bpm_rows(segments, n)[r.0[i]];
                &&& row.time_signature == segments[i].time_signature
                &&& row.bpm == segments[i].bpm || absolute(difference(row.bpm, segments[i].bpm)).spec_lt(micro())
            },
        forall|k: int|
            0 <= k < r.1.len() ==> {
                let row = #[trigger] bpm_rows(segments, n)[k];
                &&& row.seq_index == k
                &&& row.start_sec == segments[r.1[k]].start
                &&& row.bpm == segments[r.1[k]].bpm
                &&& row.end_sec == segments[r.2[k]].end
                &&& row.duration_sec == difference(row.end_sec, row.start_sec)
            },
    decreases n,
{
    if n == 0 {
        (seq![], seq![], seq![])
    } else {
        let (place, first, last) = law_each_segment_is_in_a_tempo_row(segments, (n - 1) as nat);
        let before = bpm_rows(segments, (n - 1) as nat);
        let segment = segments[n - 1];
        if !lasts(segment.start, segment.end) {
            lemma_group_skips(place, first, last);
            (place.push(-1), first, last)
        } else if before.len() > 0 && same_tempo(before.last().bpm, before.last().time_signature, segment) {
            lemma_group_grows(place, first, last);
            (place.push(first.len() - 1), first, last.update(last.len() - 1, place.len() as int))
        } else {
            lemma_group_opens(place, first, last);
            (place.push(first.len() as int), first.push(place.len() as int), last.push(place.len() as int))
        }
    }
}

/// The key rows go over the track: each segment that lasts is in one row of its
/// key, the rows follow each other, are numbered and named on the wheel, and a
/// row begins where its first segment begins and ends where its last one ends.
pub proof fn law_each_segment_is_in_a_key_row(segments: Seq<KeySegment>, n: nat) -> (r: (Seq<int>, Seq<int>, Seq<int>))
    requires
        n <= segments.len(),
        n <= usize::MAX,
    ensures
        r.0.len() == n,
        r.1.len() == key_segment_rows(segments, n).len(),
        key_segment_rows(segments, n).len() <= n,
        grouped(r.0, r.1, r.2),
        forall|i: int|
            0 <= i < n ==> (#[trigger] r.0[i] >= 0 <==> difference(segments[i].end, segments[i].start).finite()
                && !difference(segments[i].end, segments[i].start).spec_le(micro())),
        forall|i: int|
            0 <= i < n && #[trigger] r.0[i] >= 0 ==> {
                let row = key_segment_rows(segments, n)[r.0[i]];
                &&& row.key == segments[i].key@
                &&& row.label == camelot_label(segments[i].key@)
            },
        forall|k: int|
            0 <= k < r.1.len() ==> {
                let row = #[trigger] key_segment_rows(segments, n)[k];
                &&& row.seq_index == k
                &&& row.label == camelot_label(row.key)
                &&& row.start == segments[r.1[k]].start
                &&& row.end == segments[r.2[k]].end
                &&& row.duration == difference(row.end, row.start)
            },
    decreases n,
{
    if n == 0 {
        (seq![], seq![], seq![])
    } else {
        let (place, first, last) = law_each_segment_is_in_a_key_row(segments, (n - 1) as nat);
        let before = key_segment_rows(segments, (n - 1) as nat);
        let segment = segments[n - 1];
        if !lasts(segment.start, segment.end) {
            lemma_group_skips(place, first, last);
            (place.push(-1), first, last)
        } else if before.len() > 0 && before.last().key == segment.key@ {
            lemma_group_grows(place, first, last);
            (place.push(first.len() - 1), first, last.update(last.len() - 1, place.len() as int))
        } else {
            lemma_group_opens(place, first, last);
            (place.push(first.len() as int), first.push(place.len() as int), last.push(place.len() as int))
        }
    }
}

} // verus!
