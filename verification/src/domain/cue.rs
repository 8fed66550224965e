//! Cue points derived from the detected song structure.
//!
//! These are single points in time. They mark the places a DJ typically wants
//! to drop into or out of: the start of an interlude or outro, and the
//! boundaries of a chorus run.

use crate::domain::phrase::{kinds, kinds_of, normalize, normalized, sections, Phrase, Section};
use crate::number::binary64::{absolute, difference, milli, negated, zero, Binary64};
use crate::order::{
    arranged, in_order, join_keys, joint_key, law_joint_keys_order_pairs, law_order_is_stable,
    law_sorted_keys_keep_their_places, stable_order, visits_each_once,
};
use crate::text::{
    copy_text, is_white, join_texts, joined, lemma_joined_holds_each, lemma_joined_is_clean, lemma_trimmed_already,
    lemma_trimmed_is_clean, lemma_views_push, occurs_at, same_text, trim_text, trimmed, views,
};
use vstd::prelude::*;

verus! {

/// A single marked position in the track.
#[derive(Debug, Clone, PartialEq)]
pub struct CuePoint {
    /// Position in the list, assigned after sorting and deduplication.
    pub id: usize,
    pub time_sec: Binary64,
    /// What the cue marks, e.g. `CHORUS_IN`. Merged cues join labels with `/`.
    pub label: String,
    /// Human-readable note. Merged cues join comments with ` / `.
    pub comment: String,
}

/// The contents of a cue point.
pub struct Mark {
    pub id: usize,
    pub time: Binary64,
    pub label: Seq<char>,
    pub comment: Seq<char>,
}

impl View for CuePoint {
    type V = Mark;

    open spec fn view(&self) -> Mark {
        Mark { id: self.id, time: self.time_sec, label: self.label@, comment: self.comment@ }
    }
}

/// The contents of some cue points.
pub open spec fn marks(points: Seq<CuePoint>) -> Seq<Mark> {
    Seq::new(points.len(), |i: int| points[i]@)
}

/// Putting a cue point at the end puts its contents at the end.
proof fn lemma_marks_push(points: Seq<CuePoint>, point: CuePoint)
    ensures
        marks(points.push(point)) == marks(points).push(point@),
{
    assert(marks(points.push(point)) =~= marks(points).push(point@));
}

impl Mark {
    /// Whether the time is one that a track has.
    pub open spec fn timely(self) -> bool {
        self.time.finite() && zero().spec_le(self.time)
    }
}

impl CuePoint {
    /// A cue point.
    pub fn new(id: usize, time_sec: Binary64, label: &str, comment: &str) -> (r: Self)
        ensures
            r@ == (Mark { id, time: time_sec, label: label@, comment: comment@ }),
    {
        CuePoint { id, time_sec, label: copy_text(label), comment: copy_text(comment) }
    }
}

/// The marks with a valid time, as they come.
pub open spec fn timely_ones(all: Seq<Mark>) -> Seq<Mark>
    decreases all.len(),
{
    if all.len() == 0 {
        seq![]
    } else if all.last().timely() {
        timely_ones(all.drop_last()).push(all.last())
    } else {
        timely_ones(all.drop_last())
    }
}

/// Sort keys that go by time, then by id.
pub open spec fn time_keys(all: Seq<Mark>) -> Seq<i128> {
    Seq::new(all.len(), |i: int| joint_key(all[i].time.rank(), all[i].id as nat) as i128)
}

/// The marks with a valid time, by time and then by id.
pub open spec fn in_time(all: Seq<Mark>) -> Seq<Mark> {
    arranged(timely_ones(all), in_order(time_keys(timely_ones(all))))
}

/// Cues that land on one instant.
pub struct Instant {
    pub time: Binary64,
    pub labels: Seq<Seq<char>>,
    pub comments: Seq<Seq<char>>,
}

/// Some texts with one more, trimmed, unless that is empty or there already.
pub open spec fn with_text(parts: Seq<Seq<char>>, text: Seq<char>) -> Seq<Seq<char>> {
    if trimmed(text).len() == 0 || parts.contains(trimmed(text)) {
        parts
    } else {
        parts.push(trimmed(text))
    }
}

/// Whether two times are the same point.
pub open spec fn coincide(a: Binary64, b: Binary64) -> bool {
    absolute(difference(a, b)).spec_le(milli())
}

/// Instants with one more mark: merged into the last one where they coincide.
pub open spec fn with_mark(before: Seq<Instant>, mark: Mark) -> Seq<Instant> {
    if before.len() > 0 && coincide(before.last().time, mark.time) {
        let last = before.last();
        before.drop_last().push(
            Instant {
                time: last.time,
                labels: with_text(last.labels, mark.label),
                comments: with_text(last.comments, mark.comment),
            },
        )
    } else {
        before.push(
            Instant {
                time: mark.time,
                labels: with_text(seq![], mark.label),
                comments: with_text(seq![], mark.comment),
            },
        )
    }
}

/// The instants of the first `n` marks.
pub open spec fn instants(all: Seq<Mark>, n: nat) -> Seq<Instant>
    decreases n,
{
    if n == 0 {
        seq![]
    } else {
        with_mark(instants(all, (n - 1) as nat), all[n - 1])
    }
}

/// The cue that an instant becomes at place `id`.
pub open spec fn merged_mark(id: usize, instant: Instant) -> Mark {
    Mark {
        id,
        time: instant.time,
        label: joined(instant.labels, "/"@),
        comment: joined(instant.comments, " / "@),
    }
}

/// The marks in time order, those on one instant merged.
pub open spec fn deduped(all: Seq<Mark>) -> Seq<Mark> {
    let merged = instants(in_time(all), in_time(all).len());
    Seq::new(merged.len(), |i: int| merged_mark(i as usize, merged[i]))
}

/// Cues that land on one instant.
struct Group {
    time: Binary64,
    labels: Vec<String>,
    comments: Vec<String>,
}

impl View for Group {
    type V = Instant;

    closed spec fn view(&self) -> Instant {
        Instant { time: self.time, labels: views(self.labels@), comments: views(self.comments@) }
    }
}

spec fn groups_view(groups: Seq<Group>) -> Seq<Instant> {
    Seq::new(groups.len(), |i: int| groups[i]@)
}

/// Adds a text to some texts, trimmed, unless it is empty or there already.
fn push_unique(parts: &mut Vec<String>, value: &str)
    ensures
        views(final(parts)@) == with_text(views(old(parts)@), value@),
{
    let text: String = trim_text(value);
    if text.as_str().is_empty() {
        return;
    }
    let mut i: usize = 0;
    while i < parts.len()
        invariant
            i <= parts@.len(),
            *parts == *old(parts),
            text@ == trimmed(value@),
            forall|k: int| 0 <= k < i ==> (#[trigger] parts@[k])@ != text@,
        decreases parts@.len() - i,
    {
        if same_text(parts[i].as_str(), text.as_str()) {
            assert(views(parts@)[i as int] == text@);
            return;
        }
        i = i + 1;
    }
    assert(!views(parts@).contains(text@)) by {
        if views(parts@).contains(text@) {
            let k = choose|k: int| 0 <= k < views(parts@).len() && views(parts@)[k] == text@;
            assert(parts@[k]@ == text@);
        }
    }
    proof {
        lemma_views_push(parts@, text);
    }
    parts.push(text);
}

/// The points with a valid time, by time and then by id.
fn sort_by_time(points: &Vec<CuePoint>) -> (r: Vec<CuePoint>)
    ensures
        marks(r@) == in_time(marks(points@)),
{
    let mut kept: Vec<CuePoint> = Vec::new();
    let mut keys: Vec<i128> = Vec::new();
    let mut i: usize = 0;
    while i < points.len()
        invariant
            i <= points@.len(),
            marks(kept@) == timely_ones(marks(points@).take(i as int)),
            keys@ == time_keys(marks(kept@)),
        decreases points@.len() - i,
    {
        let p: &CuePoint = &points[i];
        let ghost now = marks(points@).take(i + 1);
        assert(now.drop_last() =~= marks(points@).take(i as int));
        assert(now.last() == p@);
        if p.time_sec.is_finite() && zero().le(p.time_sec) {
            let row: CuePoint = CuePoint::new(p.id, p.time_sec, p.label.as_str(), p.comment.as_str());
            let ghost before = marks(kept@);
            keys.push(join_keys(row.time_sec.rank_key(), row.id as u64));
            kept.push(row);
            assert(marks(kept@) =~= before.push(row@));
            assert(keys@ =~= time_keys(marks(kept@)));
        }
        i = i + 1;
    }
    assert(marks(points@).take(points@.len() as int) =~= marks(points@));
    let order: Vec<usize> = stable_order(&keys);
    let ghost want = in_time(marks(points@));
    let mut out: Vec<CuePoint> = Vec::new();
    let mut k: usize = 0;
    while k < order.len()
        invariant
            k <= order@.len(),
            visits_each_once(order@, kept@.len()),
            want == arranged(marks(kept@), order@),
            marks(out@) == want.take(k as int),
        decreases order@.len() - k,
    {
        let from: &CuePoint = &kept[order[k]];
        let row: CuePoint = CuePoint::new(from.id, from.time_sec, from.label.as_str(), from.comment.as_str());
        proof {
            lemma_marks_push(out@, row);
        }
        out.push(row);
        k = k + 1;
        assert(marks(out@) =~= want.take(k as int));
    }
    assert(marks(out@) =~= want);
    out
}

/// Sorts, drops invalid entries, and merges cues that land on the same instant.
///
/// Labels and comments of merged cues are combined rather than discarded, so
/// a point that is both a chorus exit and an outro start says so.
pub fn dedupe(points: &Vec<CuePoint>) -> (r: Vec<CuePoint>)
    ensures
        marks(r@) == deduped(marks(points@)),
{
    let rows: Vec<CuePoint> = sort_by_time(points);
    let ghost all = marks(rows@);
    let mut groups: Vec<Group> = Vec::new();
    let mut i: usize = 0;
    while i < rows.len()
        invariant
            i <= rows@.len(),
            all == marks(rows@),
            groups_view(groups@) == instants(all, i as nat),
        decreases rows@.len() - i,
    {
        let ghost before = instants(all, i as nat);
        let point: &CuePoint = &rows[i];
        assert(all[i as int] == point@);
        let count: usize = groups.len();
        if count > 0 && groups[count - 1].time.minus(point.time_sec).abs().le(milli()) {
            let ghost old_groups = groups@;
            assert(before.last() == groups@[count - 1]@);
            let popped: Option<Group> = groups.pop();
            let mut group: Group = popped.unwrap();
            let mut labels: Vec<String> = group.labels;
            let mut comments: Vec<String> = group.comments;
            push_unique(&mut labels, point.label.as_str());
            push_unique(&mut comments, point.comment.as_str());
            groups.push(Group { time: group.time, labels, comments });
            assert(groups_view(groups@) =~= with_mark(before, point@));
        } else {
            assert(count > 0 ==> before.last() == groups@[count - 1]@);
            let mut labels: Vec<String> = Vec::new();
            let mut comments: Vec<String> = Vec::new();
            assert(views(labels@) =~= seq![]);
            push_unique(&mut labels, point.label.as_str());
            push_unique(&mut comments, point.comment.as_str());
            groups.push(Group { time: point.time_sec, labels, comments });
            assert(groups_view(groups@) =~= with_mark(before, point@));
        }
        i = i + 1;
    }
    let ghost want = deduped(marks(points@));
    let mut out: Vec<CuePoint> = Vec::new();
    let mut k: usize = 0;
    while k < groups.len()
        invariant
            k <= groups@.len(),
            groups_view(groups@) == instants(in_time(marks(points@)), in_time(marks(points@)).len()),
            want == deduped(marks(points@)),
            marks(out@) == want.take(k as int),
        decreases groups@.len() - k,
    {
        assert(groups_view(groups@)[k as int] == groups@[k as int]@);
        let label: String = join_texts(&groups[k].labels, "/");
        let comment: String = join_texts(&groups[k].comments, " / ");
        let row: CuePoint = CuePoint { id: k, time_sec: groups[k].time, label, comment };
        proof {
            lemma_marks_push(out@, row);
        }
        out.push(row);
        k = k + 1;
        assert(marks(out@) =~= want.take(k as int));
    }
    assert(marks(out@) =~= want);
    out
}

/// A place to mark.
pub struct Spot {
    pub time: Binary64,
    pub label: Seq<char>,
    pub comment: Seq<char>,
}

/// Spots as marks with their places as ids.
pub open spec fn spot_marks(spots: Seq<Spot>) -> Seq<Mark> {
    Seq::new(
        spots.len(),
        |i: int| Mark { id: i as usize, time: spots[i].time, label: spots[i].label, comment: spots[i].comment },
    )
}

/// The end of the run of choruses that goes on at `i`.
pub open spec fn run_end(rows: Seq<Section>, i: int) -> int
    decreases rows.len() - i,
{
    if 0 <= i < rows.len() && rows[i].kind() == "CHORUS"@ {
        run_end(rows, i + 1)
    } else {
        i
    }
}

/// The spots of the run of choruses in `rows[from..to]`.
pub open spec fn chorus_spots(rows: Seq<Section>, from: int, to: int) -> Seq<Spot> {
    let first = seq![Spot { time: rows[from].start, label: "CHORUS_IN"@, comment: "Chorus start"@ }];
    let inner = if to - from >= 2 {
        seq![
            Spot { time: rows[from + 1].start, label: "CHORUS_NEXT"@, comment: "Chorus internal boundary"@ },
            Spot { time: rows[to - 1].start, label: "CHORUS_PRE_OUT"@, comment: "Chorus pre-exit boundary"@ },
        ]
    } else {
        seq![]
    };
    let last = if to < rows.len() {
        seq![Spot { time: rows[to - 1].end, label: "CHORUS_OUT"@, comment: "Chorus exit"@ }]
    } else {
        seq![]
    };
    first + inner + last
}

/// The spots from section `i` on.
pub open spec fn spots_from(rows: Seq<Section>, i: int) -> Seq<Spot>
    decreases rows.len() - i,
{
    if i < 0 || i >= rows.len() {
        seq![]
    } else if rows[i].kind() == "CHORUS"@ {
        let to = run_end(rows, i);
        if i < to <= rows.len() {
            chorus_spots(rows, i, to) + spots_from(rows, to)
        } else {
            seq![]
        }
    } else if rows[i].kind() == "INTERLUDE"@ {
        seq![Spot { time: rows[i].start, label: "INTERLUDE"@, comment: "Interlude start"@ }] + spots_from(rows, i + 1)
    } else if rows[i].kind() == "OUTRO"@ {
        seq![Spot { time: rows[i].start, label: "OUTRO"@, comment: "Outro start"@ }] + spots_from(rows, i + 1)
    } else {
        spots_from(rows, i + 1)
    }
}

/// Puts a spot at the end of a list of cue points.
fn add_spot(points: &mut Vec<CuePoint>, Ghost(spots): Ghost<Seq<Spot>>, time: Binary64, label: &str, comment: &str)
    requires
        marks(old(points)@) == spot_marks(spots),
    ensures
        marks(final(points)@) == spot_marks(spots.push(Spot { time, label: label@, comment: comment@ })),
{
    let ghost spot = Spot { time, label: label@, comment: comment@ };
    let total: usize = points.len();
    assert(marks(points@).len() == spots.len());
    let row: CuePoint = CuePoint::new(total, time, label, comment);
    proof {
        lemma_marks_push(points@, row);
    }
    points.push(row);
    assert(spot_marks(spots).push(row@) =~= spot_marks(spots.push(spot)));
}

proof fn lemma_run_end(rows: Seq<Section>, i: int)
    ensures
        i <= run_end(rows, i),
        0 <= i <= rows.len() ==> run_end(rows, i) <= rows.len(),
    decreases rows.len() - i,
{
    if 0 <= i < rows.len() && rows[i].kind() == "CHORUS"@ {
        lemma_run_end(rows, i + 1);
    }
}

/// Derives cue points from detected phrases.
///
/// Interludes and outros get a cue at their start. A run of consecutive
/// choruses gets an entry cue, an internal boundary and a pre-exit cue when it
/// is more than one phrase long, and an exit cue when something follows it.
pub fn from_phrases(phrases: &Vec<Phrase>) -> (r: Vec<CuePoint>)
    ensures
        marks(r@) == cues_of_sections(normalized(sections(phrases@))),
{
    let rows: Vec<Phrase> = normalize(phrases);
    let upper: Vec<String> = kinds_of(&rows);
    let ghost all = sections(rows@);
    let ghost goal = spots_from(all, 0);
    assert(views(upper@).len() == kinds(all).len());
    let ghost mut spots: Seq<Spot> = seq![];
    let total: usize = rows.len();
    let mut points: Vec<CuePoint> = Vec::new();
    assert(marks(points@) =~= spot_marks(spots));
    assert(spots + goal =~= goal);
    let mut index: usize = 0;
    while index < total
        invariant
            index <= total == rows@.len(),
            all == sections(rows@),
            views(upper@) == kinds(all),
            upper@.len() == total,
            marks(points@) == spot_marks(spots),
            spots + spots_from(all, index as int) == goal,
        decreases total - index,
    {
        assert(views(upper@)[index as int] == all[index as int].kind());
        assert(all[index as int] == rows@[index as int]@);
        let ghost before = spots;
        if same_text(upper[index].as_str(), "CHORUS") {
            let from: usize = index;
            let mut to: usize = index + 1;
            while to < total && same_text(upper[to].as_str(), "CHORUS")
                invariant
                    index < to <= total == rows@.len(),
                    all == sections(rows@),
                    views(upper@) == kinds(all),
                    upper@.len() == total,
                    run_end(all, index as int) == run_end(all, to as int),
                decreases total - to,
            {
                assert(views(upper@)[to as int] == all[to as int].kind());
                to = to + 1;
            }
            proof {
                if to < total {
                    assert(views(upper@)[to as int] == all[to as int].kind());
                }
                lemma_run_end(all, to as int);
            }
            assert(run_end(all, index as int) == to);
            assert(all[to - 1] == rows@[to - 1]@);
            add_spot(&mut points, Ghost(spots), rows[from].start, "CHORUS_IN", "Chorus start");
            proof {
                spots = spots.push(Spot { time: all[from as int].start, label: "CHORUS_IN"@, comment: "Chorus start"@ });
            }
            if to - from >= 2 {
                assert(all[from + 1] == rows@[from + 1]@);
                add_spot(
                    &mut points,
                    Ghost(spots),
                    rows[from + 1].start,
                    "CHORUS_NEXT",
                    "Chorus internal boundary",
                );
                proof {
                    spots = spots.push(
                        Spot {
                            time: all[from + 1].start,
                            label: "CHORUS_NEXT"@,
                            comment: "Chorus internal boundary"@,
                        },
                    );
                }
                add_spot(
                    &mut points,
                    Ghost(spots),
                    rows[to - 1].start,
                    "CHORUS_PRE_OUT",
                    "Chorus pre-exit boundary",
                );
                proof {
                    spots = spots.push(
                        Spot {
                            time: all[to - 1].start,
                            label: "CHORUS_PRE_OUT"@,
                            comment: "Chorus pre-exit boundary"@,
                        },
                    );
                }
            }
            if to < total {
                add_spot(&mut points, Ghost(spots), rows[to - 1].end, "CHORUS_OUT", "Chorus exit");
                proof {
                    spots = spots.push(
                        Spot { time: all[to - 1].end, label: "CHORUS_OUT"@, comment: "Chorus exit"@ },
                    );
                }
            }
            assert(spots =~= before + chorus_spots(all, from as int, to as int));
            assert(before + (chorus_spots(all, from as int, to as int) + spots_from(all, to as int)) =~= spots
                + spots_from(all, to as int));
            index = to;
        } else {
            if same_text(upper[index].as_str(), "INTERLUDE") {
                add_spot(&mut points, Ghost(spots), rows[index].start, "INTERLUDE", "Interlude start");
                proof {
                    let spot = Spot {
                        time: all[index as int].start,
                        label: "INTERLUDE"@,
                        comment: "Interlude start"@,
                    };
                    spots = spots.push(spot);
                    assert(before + (seq![spot] + spots_from(all, index + 1)) =~= spots + spots_from(all, index + 1));
                }
            } else if same_text(upper[index].as_str(), "OUTRO") {
                add_spot(&mut points, Ghost(spots), rows[index].start, "OUTRO", "Outro start");
                proof {
                    let spot = Spot { time: all[index as int].start, label: "OUTRO"@, comment: "Outro start"@ };
                    spots = spots.push(spot);
                    assert(before + (seq![spot] + spots_from(all, index + 1)) =~= spots + spots_from(all, index + 1));
                }
            }
            index = index + 1;
        }
    }
    assert(spots =~= goal);
    dedupe(&points)
}

/// Whether cues are in time order, at valid times, and any two neighbours are
/// more than a millisecond apart.
spec fn well_spaced(merged: Seq<Instant>) -> bool {
    &&& forall|i: int, j: int| 0 <= i < j < merged.len() ==> merged[i].time.rank() <= merged[j].time.rank()
    &&& forall|i: int| 0 <= i < merged.len() ==> (#[trigger] merged[i]).time.finite() && zero().spec_le(merged[i].time)
    &&& forall|i: int| 0 < i < merged.len() ==> !coincide(merged[i - 1].time, (#[trigger] merged[i]).time)
}

proof fn lemma_timely_ones(all: Seq<Mark>)
    ensures
        forall|i: int| 0 <= i < timely_ones(all).len() ==> (#[trigger] timely_ones(all)[i]).timely(),
        timely_ones(all).len() <= all.len(),
    decreases all.len(),
{
    if all.len() > 0 {
        lemma_timely_ones(all.drop_last());
    }
}

#[verifier::spinoff_prover]
proof fn lemma_well_spaced(all: Seq<Mark>, n: nat)
    requires
        n <= all.len(),
        forall|i: int| 0 <= i < all.len() ==> (#[trigger] all[i]).timely(),
        forall|i: int, j: int| 0 <= i < j < all.len() ==> all[i].time.rank() <= all[j].time.rank(),
    ensures
        well_spaced(instants(all, n)),
        n == 0 <==> instants(all, n).len() == 0,
        n > 0 ==> instants(all, n).last().time.rank() <= all[n - 1].time.rank(),
        instants(all, n).len() <= n,
    decreases n,
{
    if n > 0 {
        lemma_well_spaced(all, (n - 1) as nat);
        let before = instants(all, (n - 1) as nat);
        let now = instants(all, n);
        assert(all[n - 1].timely());
        if n > 1 {
            assert(all[n - 2].time.rank() <= all[n - 1].time.rank());
        }
        assert forall|i: int, j: int| 0 <= i < j < now.len() implies now[i].time.rank() <= now[j].time.rank() by {
            assert(now[i].time == before[i].time);
            if j < before.len() {
                assert(now[j].time == before[j].time);
            } else {
                assert(now[j].time == all[n - 1].time);
                if i < before.len() - 1 {
                    assert(before[i].time.rank() <= before[before.len() - 1].time.rank());
                }
            }
        }
        assert forall|i: int| 0 <= i < now.len() implies (#[trigger] now[i]).time.finite() && zero().spec_le(
            now[i].time,
        ) by {
            if i < before.len() {
                assert(now[i].time == before[i].time);
            }
        }
        assert forall|i: int| 0 < i < now.len() implies !coincide(now[i - 1].time, (#[trigger] now[i]).time) by {
            assert(now[i - 1].time == before[i - 1].time);
            if i < before.len() {
                assert(now[i].time == before[i].time);
            }
        }
    }
}

/// Whether some texts are trimmed and not empty.
spec fn all_clean(parts: Seq<Seq<char>>) -> bool {
    forall|i: int|
        0 <= i < parts.len() ==> (#[trigger] parts[i]).len() > 0 && !is_white(parts[i][0]) && !is_white(parts[i].last())
}

proof fn lemma_with_text(parts: Seq<Seq<char>>, text: Seq<char>)
    requires
        all_clean(parts),
    ensures
        all_clean(with_text(parts, text)),
        forall|i: int| 0 <= i < parts.len() ==> with_text(parts, text)[i] == #[trigger] parts[i],
        parts.len() <= with_text(parts, text).len(),
        trimmed(text).len() == 0 || with_text(parts, text).contains(trimmed(text)),
{
    lemma_trimmed_is_clean(text);
    let after = with_text(parts, text);
    if trimmed(text).len() > 0 && !parts.contains(trimmed(text)) {
        assert(after[parts.len() as int] == trimmed(text));
    }
}

/// Whether an instant took a mark in: the mark comes at most a millisecond
/// behind it, and its texts are among the instant's.
spec fn took(instant: Instant, mark: Mark) -> bool {
    &&& instant.time.rank() <= mark.time.rank()
    &&& coincide(instant.time, mark.time)
    &&& trimmed(mark.label).len() == 0 || instant.labels.contains(trimmed(mark.label))
    &&& trimmed(mark.comment).len() == 0 || instant.comments.contains(trimmed(mark.comment))
}

/// A number less itself is zero.
proof fn lemma_coincides_with_itself(a: Binary64)
    requires
        a.finite(),
    ensures
        coincide(a, a),
{
    assert(a.units() + negated(a).units() == 0);
}

/// The place of the instant that took a mark in.
proof fn lemma_taken(all: Seq<Mark>, n: nat, j: int) -> (i: int)
    requires
        0 <= j < n <= all.len(),
        forall|i: int| 0 <= i < all.len() ==> (#[trigger] all[i]).timely(),
        forall|i: int, j: int| 0 <= i < j < all.len() ==> all[i].time.rank() <= all[j].time.rank(),
    ensures
        0 <= i < instants(all, n).len(),
        took(instants(all, n)[i], all[j]),
    decreases n,
{
    let before = instants(all, (n - 1) as nat);
    let now = instants(all, n);
    lemma_all_clean(all, (n - 1) as nat);
    lemma_well_spaced(all, (n - 1) as nat);
    let none: Seq<Seq<char>> = seq![];
    lemma_with_text(none, all[n - 1].label);
    lemma_with_text(none, all[n - 1].comment);
    if before.len() > 0 {
        lemma_with_text(before.last().labels, all[n - 1].label);
        lemma_with_text(before.last().comments, all[n - 1].comment);
    }
    if j == n - 1 {
        assert(all[j].timely());
        lemma_coincides_with_itself(all[j].time);
        if n > 1 {
            assert(all[n - 2].time.rank() <= all[n - 1].time.rank());
        }
        now.len() - 1
    } else {
        let i = lemma_taken(all, (n - 1) as nat, j);
        if i == now.len() - 1 && before.len() == now.len() {
            lemma_still_holds(before[i].labels, now[i].labels, trimmed(all[j].label));
            lemma_still_holds(before[i].comments, now[i].comments, trimmed(all[j].comment));
        } else {
            assert(now[i] == before[i]);
        }
        i
    }
}

/// What a list holds, a longer one that starts with it holds.
proof fn lemma_still_holds(before: Seq<Seq<char>>, after: Seq<Seq<char>>, text: Seq<char>)
    requires
        before.len() <= after.len(),
        forall|i: int| 0 <= i < before.len() ==> after[i] == #[trigger] before[i],
    ensures
        before.contains(text) ==> after.contains(text),
{
    if before.contains(text) {
        let k = choose|k: int| 0 <= k < before.len() && before[k] == text;
        assert(after[k] == text);
    }
}

proof fn lemma_all_clean(all: Seq<Mark>, n: nat)
    requires
        n <= all.len(),
    ensures
        forall|i: int|
            0 <= i < instants(all, n).len() ==> all_clean((#[trigger] instants(all, n)[i]).labels) && all_clean(
                instants(all, n)[i].comments,
            ),
    decreases n,
{
    if n > 0 {
        lemma_all_clean(all, (n - 1) as nat);
        let before = instants(all, (n - 1) as nat);
        let none: Seq<Seq<char>> = seq![];
        lemma_with_text(none, all[n - 1].label);
        lemma_with_text(none, all[n - 1].comment);
        if before.len() > 0 {
            assert(all_clean(before[before.len() - 1].labels));
            lemma_with_text(before.last().labels, all[n - 1].label);
            lemma_with_text(before.last().comments, all[n - 1].comment);
        }
    }
}

/// The marks that are put in order are those with a valid time, in time order.
proof fn lemma_in_time(all: Seq<Mark>)
    requires
        all.len() <= usize::MAX,
    ensures
        in_time(all).len() <= all.len(),
        forall|i: int| 0 <= i < in_time(all).len() ==> (#[trigger] in_time(all)[i]).timely(),
        forall|i: int, j: int|
            0 <= i < j < in_time(all).len() ==> in_time(all)[i].time.rank() <= in_time(all)[j].time.rank(),
{
    let kept = timely_ones(all);
    lemma_timely_ones(all);
    let keys = time_keys(kept);
    let order = in_order(keys);
    law_order_is_stable(keys, keys.len());
    let sorted = in_time(all);
    assert forall|i: int| 0 <= i < sorted.len() implies (#[trigger] sorted[i]).timely() by {
        assert(sorted[i] == kept[order[i] as int]);
    }
    assert forall|i: int, j: int| 0 <= i < j < sorted.len() implies sorted[i].time.rank() <= sorted[j].time.rank() by {
        let a = kept[order[i] as int];
        let b = kept[order[j] as int];
        assert(keys[order[i] as int] <= keys[order[j] as int]);
        law_joint_keys_order_pairs(a.time.rank(), b.time.rank(), a.id as nat, b.id as nat);
        law_joint_keys_order_pairs(b.time.rank(), a.time.rank(), b.id as nat, a.id as nat);
        lemma_key_fits(a);
        lemma_key_fits(b);
    }
}

/// A mark with a valid time keeps its place among those.
proof fn lemma_timely_kept(all: Seq<Mark>, j: int) -> (k: int)
    requires
        0 <= j < all.len(),
        all[j].timely(),
    ensures
        0 <= k < timely_ones(all).len(),
        timely_ones(all)[k] == all[j],
    decreases all.len(),
{
    if j == all.len() - 1 {
        timely_ones(all).len() - 1
    } else {
        lemma_timely_kept(all.drop_last(), j)
    }
}

/// Whether a cue stands for a mark: the mark comes at most a millisecond behind
/// the cue, and its label and comment stand in the cue's.
pub open spec fn stands_for(cue: Mark, mark: Mark) -> bool {
    &&& cue.time.rank() <= mark.time.rank()
    &&& coincide(cue.time, mark.time)
    &&& exists|at: int| #[trigger] occurs_at(cue.label, trimmed(mark.label), at)
    &&& exists|at: int| #[trigger] occurs_at(cue.comment, trimmed(mark.comment), at)
}

proof fn lemma_texts_joined(parts: Seq<Seq<char>>, separator: Seq<char>, text: Seq<char>)
    requires
        text.len() == 0 || parts.contains(text),
    ensures
        exists|at: int| #[trigger] occurs_at(joined(parts, separator), text, at),
{
    if text.len() == 0 {
        assert(joined(parts, separator).subrange(0, 0) =~= text);
        assert(occurs_at(joined(parts, separator), text, 0));
    } else {
        let i = choose|i: int| 0 <= i < parts.len() && parts[i] == text;
        let at = lemma_joined_holds_each(parts, separator, i);
        assert(occurs_at(joined(parts, separator), text, at));
    }
}

/// Nothing is lost: every point with a valid time is stood for by a cue.
pub proof fn law_every_point_is_kept(all: Seq<Mark>, j: int) -> (i: int)
    requires
        all.len() <= usize::MAX,
        0 <= j < all.len(),
        all[j].timely(),
    ensures
        0 <= i < deduped(all).len(),
        stands_for(deduped(all)[i], all[j]),
{
    let kept = timely_ones(all);
    let k = lemma_timely_kept(all, j);
    lemma_timely_ones(all);
    let keys = time_keys(kept);
    let order = in_order(keys);
    law_order_is_stable(keys, keys.len());
    assert(order.contains(k as usize));
    let p = choose|p: int| 0 <= p < order.len() && order[p] == k as usize;
    let sorted = in_time(all);
    lemma_in_time(all);
    assert(sorted[p] == all[j]);
    let i = lemma_taken(sorted, sorted.len(), p);
    let instant = instants(sorted, sorted.len())[i];
    lemma_texts_joined(instant.labels, "/"@, trimmed(all[j].label));
    lemma_texts_joined(instant.comments, " / "@, trimmed(all[j].comment));
    let cue = deduped(all)[i];
    assert(cue.time == instant.time);
    assert(cue.label == joined(instant.labels, "/"@) && cue.comment == joined(instant.comments, " / "@));
    assert(stands_for(cue, all[j]));
    i
}

/// Marks that are all timely are all kept.
proof fn lemma_all_timely(all: Seq<Mark>)
    requires
        forall|i: int| 0 <= i < all.len() ==> (#[trigger] all[i]).timely(),
    ensures
        timely_ones(all) == all,
    decreases all.len(),
{
    if all.len() > 0 {
        let front = all.drop_last();
        assert forall|i: int| 0 <= i < front.len() implies (#[trigger] front[i]).timely() by {
            assert(front[i] == all[i]);
        }
        lemma_all_timely(front);
        assert(all[all.len() - 1].timely());
        assert(front.push(all.last()) =~= all);
    } else {
        assert(timely_ones(all) =~= all);
    }
}

/// Marks of which no two neighbours coincide are instants of their own.
proof fn lemma_instants_apart(all: Seq<Mark>, n: nat)
    requires
        n <= all.len(),
        forall|i: int| 0 < i < all.len() ==> !coincide(all[i - 1].time, (#[trigger] all[i]).time),
    ensures
        instants(all, n) == Seq::new(
            n,
            |i: int|
                Instant {
                    time: all[i].time,
                    labels: with_text(seq![], all[i].label),
                    comments: with_text(seq![], all[i].comment),
                },
        ),
    decreases n,
{
    if n > 0 {
        lemma_instants_apart(all, (n - 1) as nat);
        assert(all[n - 1] == all[n - 1]);
    }
    assert(instants(all, n) =~= Seq::new(
        n,
        |i: int|
            Instant {
                time: all[i].time,
                labels: with_text(seq![], all[i].label),
                comments: with_text(seq![], all[i].comment),
            },
    ));
}

/// A text that is trimmed already, taken in and joined, is itself.
proof fn lemma_single_text(text: Seq<char>, separator: Seq<char>)
    requires
        trimmed(text) == text,
    ensures
        joined(with_text(seq![], text), separator) == text,
{
    let none: Seq<Seq<char>> = seq![];
    assert(!none.contains(text));
    if text.len() == 0 {
        assert(joined(none, separator) =~= text);
    } else {
        assert(none.push(text) =~= seq![text]);
    }
}

/// Merging twice is merging once.
pub proof fn law_merging_cues_twice_is_once(all: Seq<Mark>)
    requires
        all.len() <= usize::MAX,
    ensures
        deduped(deduped(all)) == deduped(all),
{
    let out = deduped(all);
    law_cues_are_in_order_and_apart(all);
    lemma_in_time(all);
    let sorted = in_time(all);
    lemma_well_spaced(sorted, sorted.len());
    lemma_all_timely(out);
    let keys = time_keys(out);
    assert forall|i: int, j: int| 0 <= i < j < keys.len() implies keys[i] <= keys[j] by {
        let a = out[i];
        let b = out[j];
        assert(a.id == i && b.id == j);
        law_joint_keys_order_pairs(a.time.rank(), b.time.rank(), a.id as nat, b.id as nat);
        lemma_key_fits(a);
        lemma_key_fits(b);
    }
    law_sorted_keys_keep_their_places(keys, keys.len());
    assert(in_time(out) =~= out);
    lemma_instants_apart(out, out.len());
    lemma_all_clean(sorted, sorted.len());
    let merged = instants(sorted, sorted.len());
    let again = deduped(out);
    assert forall|i: int| 0 <= i < out.len() implies again[i] == #[trigger] out[i] by {
        lemma_joined_is_clean(merged[i].labels, "/"@);
        lemma_joined_is_clean(merged[i].comments, " / "@);
        lemma_single_text(out[i].label, "/"@);
        lemma_single_text(out[i].comment, " / "@);
    }
    assert(again =~= out);
}

/// Cues come out numbered from zero, in time order, at valid times, and any
/// two neighbours are more than a millisecond apart.
pub proof fn law_cues_are_in_order_and_apart(all: Seq<Mark>)
    requires
        all.len() <= usize::MAX,
    ensures
        forall|i: int| 0 <= i < deduped(all).len() ==> (#[trigger] deduped(all)[i]).id == i && deduped(all)[i].timely(),
        forall|i: int, j: int|
            0 <= i < j < deduped(all).len() ==> deduped(all)[i].time.rank() <= deduped(all)[j].time.rank(),
        forall|i: int|
            0 < i < deduped(all).len() ==> !coincide(deduped(all)[i - 1].time, (#[trigger] deduped(all)[i]).time),
{
    let sorted = in_time(all);
    lemma_in_time(all);
    lemma_well_spaced(sorted, sorted.len());
    let merged = instants(sorted, sorted.len());
    let out = deduped(all);
    assert forall|i: int, j: int| 0 <= i < j < out.len() implies out[i].time.rank() <= out[j].time.rank() by {
        assert(merged[i].time.rank() <= merged[j].time.rank());
    }
    assert forall|i: int| 0 <= i < out.len() implies (#[trigger] out[i]).id == i && out[i].timely() by {
        assert(merged[i].time.finite());
    }
    assert forall|i: int| 0 < i < out.len() implies !coincide(out[i - 1].time, (#[trigger] out[i]).time) by {
        assert(!coincide(merged[i - 1].time, merged[i].time));
    }
}

/// The sort key of a mark is a machine integer.
proof fn lemma_key_fits(mark: Mark)
    ensures
        joint_key(mark.time.rank(), mark.id as nat) as i128 == joint_key(mark.time.rank(), mark.id as nat),
{
    let bits = mark.time.bits;
    assert(-0x8000_0000_0000_0000 < mark.time.rank() < 0x8000_0000_0000_0000);
}

/// Whether there is a section `j`, and it is of a kind.
pub open spec fn is_kind(rows: Seq<Section>, j: int, kind: Seq<char>) -> bool {
    0 <= j < rows.len() && rows[j].kind() == kind
}

/// Whether section `j` calls for a label at a time.
spec fn calls_for(rows: Seq<Section>, j: int, time: Binary64, label: Seq<char>) -> bool {
    let chorus = "CHORUS"@;
    &&& 0 <= j < rows.len()
    &&& {
        ||| label == "INTERLUDE"@ && time == rows[j].start && is_kind(rows, j, "INTERLUDE"@)
        ||| label == "OUTRO"@ && time == rows[j].start && is_kind(rows, j, "OUTRO"@)
        ||| label == "CHORUS_IN"@ && time == rows[j].start && is_kind(rows, j, chorus) && !is_kind(rows, j - 1, chorus)
        ||| label == "CHORUS_NEXT"@ && time == rows[j].start && is_kind(rows, j, chorus) && is_kind(rows, j - 1, chorus)
            && !is_kind(rows, j - 2, chorus)
        ||| label == "CHORUS_PRE_OUT"@ && time == rows[j].start && is_kind(rows, j, chorus) && is_kind(
            rows,
            j - 1,
            chorus,
        ) && !is_kind(rows, j + 1, chorus)
        ||| label == "CHORUS_OUT"@ && time == rows[j].end && is_kind(rows, j, chorus) && j + 1 < rows.len() && !is_kind(
            rows,
            j + 1,
            chorus,
        )
    }
}

/// A run of choruses ends at the first section that is none.
proof fn lemma_run_of_choruses(rows: Seq<Section>, i: int)
    requires
        0 <= i <= rows.len(),
    ensures
        i <= run_end(rows, i) <= rows.len(),
        forall|k: int| i <= k < run_end(rows, i) ==> (#[trigger] rows[k]).kind() == "CHORUS"@,
        !is_kind(rows, run_end(rows, i), "CHORUS"@),
    decreases rows.len() - i,
{
    if i < rows.len() && rows[i].kind() == "CHORUS"@ {
        lemma_run_of_choruses(rows, i + 1);
    }
}

proof fn lemma_kinds_differ()
    ensures
        "CHORUS"@ != "INTERLUDE"@,
        "CHORUS"@ != "OUTRO"@,
        "INTERLUDE"@ != "OUTRO"@,
{
    reveal_strlit("CHORUS");
    reveal_strlit("INTERLUDE");
    reveal_strlit("OUTRO");
    assert("CHORUS"@.len() == 6 && "INTERLUDE"@.len() == 9 && "OUTRO"@.len() == 5);
}

/// The place of what section `j` calls for, among the spots from `i` on.
proof fn lemma_called_is_marked(rows: Seq<Section>, i: int, j: int, time: Binary64, label: Seq<char>) -> (at: int)
    requires
        0 <= i <= j < rows.len(),
        !(is_kind(rows, i - 1, "CHORUS"@) && is_kind(rows, i, "CHORUS"@)),
        calls_for(rows, j, time, label),
    ensures
        0 <= at < spots_from(rows, i).len(),
        spots_from(rows, i)[at].time == time,
        spots_from(rows, i)[at].label == label,
    decreases rows.len() - i,
{
    lemma_kinds_differ();
    let all = spots_from(rows, i);
    if rows[i].kind() == "CHORUS"@ {
        let to = run_end(rows, i);
        lemma_run_of_choruses(rows, i);
        assert(i < to);
        let here = chorus_spots(rows, i, to);
        if j >= to {
            let at = lemma_called_is_marked(rows, to, j, time, label);
            assert(all[here.len() + at] == spots_from(rows, to)[at]);
            here.len() + at
        } else {
            assert(rows[j].kind() == "CHORUS"@);
            if j > i {
                assert(rows[j - 1].kind() == "CHORUS"@);
            }
            if j > i + 1 {
                assert(rows[j - 2].kind() == "CHORUS"@);
            }
            if j + 1 < to {
                assert(rows[j + 1].kind() == "CHORUS"@);
            }
            let at = if label == "CHORUS_IN"@ && time == rows[j].start && !is_kind(rows, j - 1, "CHORUS"@) {
                0
            } else if label == "CHORUS_NEXT"@ && time == rows[j].start && is_kind(rows, j - 1, "CHORUS"@) && !is_kind(
                rows,
                j - 2,
                "CHORUS"@,
            ) {
                1
            } else if label == "CHORUS_PRE_OUT"@ && time == rows[j].start && is_kind(rows, j - 1, "CHORUS"@) {
                2
            } else {
                here.len() - 1
            };
            assert(here[at].time == time && here[at].label == label);
            assert(all[at] == here[at]);
            at
        }
    } else if i == j {
        assert(all[0].time == time && all[0].label == label);
        0
    } else {
        let at = lemma_called_is_marked(rows, i + 1, j, time, label);
        let rest = spots_from(rows, i + 1);
        if all.len() == rest.len() {
            assert(all == rest);
            at
        } else {
            assert(all[at + 1] == rest[at]);
            at + 1
        }
    }
}

/// The section that calls for spot `at` of those from `i` on.
proof fn lemma_marked_is_called(rows: Seq<Section>, i: int, at: int) -> (j: int)
    requires
        0 <= i <= rows.len(),
        !(is_kind(rows, i - 1, "CHORUS"@) && is_kind(rows, i, "CHORUS"@)),
        0 <= at < spots_from(rows, i).len(),
    ensures
        i <= j < rows.len(),
        calls_for(rows, j, spots_from(rows, i)[at].time, spots_from(rows, i)[at].label),
    decreases rows.len() - i,
{
    lemma_kinds_differ();
    let all = spots_from(rows, i);
    let spot = all[at];
    if rows[i].kind() == "CHORUS"@ {
        let to = run_end(rows, i);
        lemma_run_of_choruses(rows, i);
        let here = chorus_spots(rows, i, to);
        let rest = spots_from(rows, to);
        if at >= here.len() {
            assert(spot == rest[at - here.len()]);
            lemma_marked_is_called(rows, to, at - here.len())
        } else {
            assert(spot == here[at]);
            assert(rows[to - 1].kind() == "CHORUS"@);
            if to - i >= 2 {
                assert(rows[i + 1].kind() == "CHORUS"@);
                assert(rows[to - 2].kind() == "CHORUS"@);
                if at == 0 {
                    i
                } else if at == 1 {
                    i + 1
                } else {
                    to - 1
                }
            } else if at == 0 {
                i
            } else {
                to - 1
            }
        }
    } else {
        let rest = spots_from(rows, i + 1);
        if all.len() == rest.len() {
            assert(all == rest);
            lemma_marked_is_called(rows, i + 1, at)
        } else if at == 0 {
            i
        } else {
            assert(spot == rest[at - 1]);
            lemma_marked_is_called(rows, i + 1, at - 1)
        }
    }
}

/// Whether some cue says a label at a time: one no more than a millisecond
/// before it, whose label holds that label.
pub open spec fn is_said(cues: Seq<Mark>, time: Binary64, label: Seq<char>) -> bool {
    exists|i: int, at: int|
        0 <= i < cues.len() && cues[i].time.spec_le(time) && absolute(difference(cues[i].time, time)).spec_le(milli())
            && #[trigger] occurs_at(cues[i].label, label, at)
}

/// The cues of some sections.
pub open spec fn cues_of_sections(rows: Seq<Section>) -> Seq<Mark> {
    deduped(spot_marks(spots_from(rows, 0)))
}

proof fn lemma_spots_are_few(rows: Seq<Section>, i: int)
    requires
        0 <= i <= rows.len(),
    ensures
        spots_from(rows, i).len() <= 4 * (rows.len() - i),
    decreases rows.len() - i,
{
    if i < rows.len() {
        if rows[i].kind() == "CHORUS"@ {
            lemma_run_of_choruses(rows, i);
            lemma_spots_are_few(rows, run_end(rows, i));
        } else {
            lemma_spots_are_few(rows, i + 1);
        }
    }
}

/// A label of capitals, as the cues have them.
spec fn is_word(label: Seq<char>) -> bool {
    label.len() > 0 && !is_white(label[0]) && !is_white(label.last())
}

proof fn lemma_labels_are_words()
    ensures
        is_word("INTERLUDE"@),
        is_word("OUTRO"@),
        is_word("CHORUS_IN"@),
        is_word("CHORUS_NEXT"@),
        is_word("CHORUS_PRE_OUT"@),
        is_word("CHORUS_OUT"@),
{
    reveal_strlit("INTERLUDE");
    reveal_strlit("OUTRO");
    reveal_strlit("CHORUS_IN");
    reveal_strlit("CHORUS_NEXT");
    reveal_strlit("CHORUS_PRE_OUT");
    reveal_strlit("CHORUS_OUT");
}

proof fn lemma_called_is_said(rows: Seq<Section>, j: int, time: Binary64, label: Seq<char>)
    requires
        4 * rows.len() <= usize::MAX,
        calls_for(rows, j, time, label),
        can_be_marked(time),
    ensures
        is_said(cues_of_sections(rows), time, label),
{
    let spots = spots_from(rows, 0);
    let all = spot_marks(spots);
    lemma_spots_are_few(rows, 0);
    let at = lemma_called_is_marked(rows, 0, j, time, label);
    assert(all[at].time == time && all[at].label == label);
    assert(all[at].timely());
    let i = law_every_point_is_kept(all, at);
    let cue = deduped(all)[i];
    lemma_labels_are_words();
    lemma_trimmed_already(label);
    let spot = choose|spot: int| #[trigger] occurs_at(cue.label, trimmed(label), spot);
    assert(occurs_at(cue.label, label, spot));
    law_cues_are_in_order_and_apart(all);
    assert(deduped(all)[i].timely());
    assert(cue.time.spec_le(time));
}

/// Whether a time can be marked: finite and not before the track.
pub open spec fn can_be_marked(time: Binary64) -> bool {
    time.finite() && zero().spec_le(time)
}

/// A run of choruses is marked where it is entered, at its first inner boundary
/// and at its last, and where it is left for another section.
pub proof fn law_chorus_runs_are_marked(rows: Seq<Section>, j: int)
    requires
        4 * rows.len() <= usize::MAX,
        is_kind(rows, j, "CHORUS"@),
    ensures
        can_be_marked(rows[j].start) && !is_kind(rows, j - 1, "CHORUS"@) ==> is_said(
            cues_of_sections(rows),
            rows[j].start,
            "CHORUS_IN"@,
        ),
        can_be_marked(rows[j].start) && is_kind(rows, j - 1, "CHORUS"@) && !is_kind(rows, j - 2, "CHORUS"@) ==> is_said(
            cues_of_sections(rows),
            rows[j].start,
            "CHORUS_NEXT"@,
        ),
        can_be_marked(rows[j].start) && is_kind(rows, j - 1, "CHORUS"@) && !is_kind(rows, j + 1, "CHORUS"@) ==> is_said(
            cues_of_sections(rows),
            rows[j].start,
            "CHORUS_PRE_OUT"@,
        ),
        can_be_marked(rows[j].end) && j + 1 < rows.len() && !is_kind(rows, j + 1, "CHORUS"@) ==> is_said(
            cues_of_sections(rows),
            rows[j].end,
            "CHORUS_OUT"@,
        ),
{
    if can_be_marked(rows[j].start) {
        if !is_kind(rows, j - 1, "CHORUS"@) {
            lemma_called_is_said(rows, j, rows[j].start, "CHORUS_IN"@);
        } else {
            if !is_kind(rows, j - 2, "CHORUS"@) {
                lemma_called_is_said(rows, j, rows[j].start, "CHORUS_NEXT"@);
            }
            if !is_kind(rows, j + 1, "CHORUS"@) {
                lemma_called_is_said(rows, j, rows[j].start, "CHORUS_PRE_OUT"@);
            }
        }
    }
    if can_be_marked(rows[j].end) && j + 1 < rows.len() && !is_kind(rows, j + 1, "CHORUS"@) {
        lemma_called_is_said(rows, j, rows[j].end, "CHORUS_OUT"@);
    }
}

/// Interludes and outros are marked where they start.
pub proof fn law_interludes_and_outros_are_marked(rows: Seq<Section>, j: int)
    requires
        4 * rows.len() <= usize::MAX,
        0 <= j < rows.len(),
        can_be_marked(rows[j].start),
    ensures
        is_kind(rows, j, "INTERLUDE"@) ==> is_said(cues_of_sections(rows), rows[j].start, "INTERLUDE"@),
        is_kind(rows, j, "OUTRO"@) ==> is_said(cues_of_sections(rows), rows[j].start, "OUTRO"@),
{
    if is_kind(rows, j, "INTERLUDE"@) {
        lemma_called_is_said(rows, j, rows[j].start, "INTERLUDE"@);
    }
    if is_kind(rows, j, "OUTRO"@) {
        lemma_called_is_said(rows, j, rows[j].start, "OUTRO"@);
    }
}

/// Whether an instant is made of marks: its time is that of one of the first
/// `n`, and each of its labels is that of one it coincides with.
spec fn is_made_of(instant: Instant, all: Seq<Mark>, n: int) -> bool {
    &&& exists|j: int| 0 <= j < n && (#[trigger] all[j]).time == instant.time
    &&& forall|p: int|
        0 <= p < instant.labels.len() ==> exists|j: int|
            0 <= j < n && #[trigger] instant.labels[p] == trimmed((#[trigger] all[j]).label) && (all[j].time
                == instant.time || coincide(instant.time, all[j].time))
}

proof fn lemma_instants_are_made(all: Seq<Mark>, n: nat, i: int)
    requires
        n <= all.len(),
        0 <= i < instants(all, n).len(),
    ensures
        is_made_of(instants(all, n)[i], all, n as int),
    decreases n,
{
    let m = (n - 1) as nat;
    let before = instants(all, m);
    let now = instants(all, n);
    let mark = all[n - 1];
    if i < before.len() {
        lemma_instants_are_made(all, m, i);
        let j = choose|j: int| 0 <= j < m && (#[trigger] all[j]).time == before[i].time;
        assert(all[j].time == now[i].time);
        assert forall|p: int| 0 <= p < now[i].labels.len() implies exists|j: int|
            0 <= j < n && #[trigger] now[i].labels[p] == trimmed((#[trigger] all[j]).label) && (all[j].time == now[i].time
                || coincide(now[i].time, all[j].time)) by {
            if p < before[i].labels.len() {
                assert(now[i].labels[p] == before[i].labels[p]);
                let q = choose|q: int|
                    0 <= q < m && before[i].labels[p] == trimmed((#[trigger] all[q]).label) && (all[q].time
                        == before[i].time || coincide(before[i].time, all[q].time));
                assert(now[i].labels[p] == trimmed(all[q].label));
            } else {
                assert(now[i].labels[p] == trimmed(all[n - 1].label));
            }
        }
    } else {
        assert(now[i].time == all[n - 1].time);
        assert forall|p: int| 0 <= p < now[i].labels.len() implies exists|j: int|
            0 <= j < n && #[trigger] now[i].labels[p] == trimmed((#[trigger] all[j]).label) && (all[j].time == now[i].time
                || coincide(now[i].time, all[j].time)) by {
            assert(now[i].labels[p] == trimmed(all[n - 1].label));
        }
    }
}

proof fn lemma_timely_is_given(all: Seq<Mark>, k: int) -> (j: int)
    requires
        0 <= k < timely_ones(all).len(),
    ensures
        0 <= j < all.len(),
        all[j] == timely_ones(all)[k],
    decreases all.len(),
{
    let front = all.drop_last();
    if k < timely_ones(front).len() {
        let j = lemma_timely_is_given(front, k);
        assert(front[j] == all[j]);
        j
    } else {
        all.len() - 1
    }
}

/// The given mark that stands at a place of those in time order.
proof fn lemma_sorted_is_given(all: Seq<Mark>, k: int) -> (j: int)
    requires
        all.len() <= usize::MAX,
        0 <= k < in_time(all).len(),
    ensures
        0 <= j < all.len(),
        all[j] == in_time(all)[k],
{
    let kept = timely_ones(all);
    lemma_timely_ones(all);
    let keys = time_keys(kept);
    law_order_is_stable(keys, keys.len());
    lemma_timely_is_given(all, in_order(keys)[k] as int)
}

/// Nothing is made up: every cue is at the time of a given point, and its label
/// is made of labels of points on that instant, with slashes between them.
pub proof fn law_every_cue_comes_from_points(all: Seq<Mark>, i: int) -> (parts: Seq<Seq<char>>)
    requires
        all.len() <= usize::MAX,
        0 <= i < deduped(all).len(),
    ensures
        exists|j: int| 0 <= j < all.len() && (#[trigger] all[j]).time == deduped(all)[i].time,
        deduped(all)[i].label == joined(parts, "/"@),
        forall|p: int|
            0 <= p < parts.len() ==> exists|j: int|
                0 <= j < all.len() && #[trigger] parts[p] == trimmed((#[trigger] all[j]).label) && (all[j].time
                    == deduped(all)[i].time || absolute(difference(deduped(all)[i].time, all[j].time)).spec_le(milli())),
{
    let sorted = in_time(all);
    lemma_instants_are_made(sorted, sorted.len(), i);
    let instant = instants(sorted, sorted.len())[i];
    let cue = deduped(all)[i];
    let k = choose|k: int| 0 <= k < sorted.len() && (#[trigger] sorted[k]).time == instant.time;
    let j = lemma_sorted_is_given(all, k);
    assert(all[j].time == cue.time);
    let parts = instant.labels;
    assert forall|p: int| 0 <= p < parts.len() implies exists|j: int|
        0 <= j < all.len() && #[trigger] parts[p] == trimmed((#[trigger] all[j]).label) && (all[j].time == cue.time
            || absolute(difference(cue.time, all[j].time)).spec_le(milli())) by {
        let q = choose|q: int|
            0 <= q < sorted.len() && parts[p] == trimmed((#[trigger] sorted[q]).label) && (sorted[q].time == instant.time
                || coincide(instant.time, sorted[q].time));
        let j = lemma_sorted_is_given(all, q);
        assert(parts[p] == trimmed(all[j].label));
    }
    parts
}

/// Cues stand only where sections of those kinds start, and where choruses are
/// left: every cue is at the start of an interlude, an outro or a chorus, or
/// where a chorus ends and something else follows.
pub proof fn law_cues_stand_at_their_sections(rows: Seq<Section>, i: int) -> (j: int)
    requires
        4 * rows.len() <= usize::MAX,
        0 <= i < cues_of_sections(rows).len(),
    ensures
        0 <= j < rows.len(),
        ({
            let time = cues_of_sections(rows)[i].time;
            ||| time == rows[j].start && (is_kind(rows, j, "INTERLUDE"@) || is_kind(rows, j, "OUTRO"@) || is_kind(
                rows,
                j,
                "CHORUS"@,
            ))
            ||| time == rows[j].end && is_kind(rows, j, "CHORUS"@) && j + 1 < rows.len() && !is_kind(
                rows,
                j + 1,
                "CHORUS"@,
            )
        }),
{
    let spots = spots_from(rows, 0);
    let all = spot_marks(spots);
    lemma_spots_are_few(rows, 0);
    let parts = law_every_cue_comes_from_points(all, i);
    let at = choose|at: int| 0 <= at < all.len() && (#[trigger] all[at]).time == deduped(all)[i].time;
    assert(all[at].time == spots[at].time);
    lemma_marked_is_called(rows, 0, at)
}

} // verus!
