//! The beat and bar grid that the phrase features are measured on.
//!
//! The detector sees only what a library already has: beat times and tempo
//! segments. Each segment's downbeat is anchored to the nearest beat and the
//! meter is counted out from there.

use crate::detect::error::PhraseError;
use crate::number::lists::{gaps, gaps_of, highest, median, middle};
use crate::domain::segments::TempoSegment;
use crate::number::binary64::{absolute, difference, larger, minus_infinity, of_int, product, smaller, sum, zero, Binary64};
use crate::number::integral::truncated;
use crate::number::laws::law_taking_away_leaves_no_more;
use crate::order::{arranged, in_order, law_order_is_stable, stable_order, visits_each_once};
use vstd::prelude::*;

verus! {

/// A tempo segment reduced to what the grid needs: when it runs, where its
/// downbeat is, and how many beats there are to a bar.
#[derive(Debug, Clone, Copy, PartialEq, Eq, Structural)]
pub struct MeterSegment {
    pub start_sec: Binary64,
    pub end_sec: Binary64,
    pub inizio_sec: Binary64,
    pub meter: usize,
}

/// The beat and bar grid, in the shape the feature extractor consumes.
#[derive(Debug, Clone)]
pub struct PredictorGrid {
    pub beat_times_sec: Vec<Binary64>,
    /// One more entry than there are beats: the trailing edge of the last beat.
    pub beat_edges_sec: Vec<Binary64>,
    pub meter_segments: Vec<MeterSegment>,
    pub downbeat_mask: Vec<bool>,
    /// Position of each beat inside its bar, counting from 0.
    pub beat_in_bar: Vec<usize>,
    /// Which bar each beat belongs to.
    pub bar_index_of_beat: Vec<usize>,
    pub bar_starts_beat: Vec<usize>,
    pub bar_ends_beat: Vec<usize>,
    pub bar_starts_sec: Vec<Binary64>,
    pub bar_ends_sec: Vec<Binary64>,
    pub bar_meters: Vec<usize>,
    /// Bars that do not start on a downbeat or do not hold a full meter.
    pub bar_is_partial: Vec<bool>,
}

/// The number nearest to 0.48: a share of a beat that is just under half.
#[verifier::allow_in_spec]
pub fn tolerance_share() -> Binary64
    returns
        (Binary64 { bits: 0x3FDE_B851_EB85_1EB8 }),
{
    Binary64 { bits: 0x3FDE_B851_EB85_1EB8 }
}

/// The number nearest to 0.08: the least tolerance, in seconds.
#[verifier::allow_in_spec]
pub fn tolerance_floor() -> Binary64
    returns
        (Binary64 { bits: 0x3FB4_7AE1_47AE_147B }),
{
    Binary64 { bits: 0x3FB4_7AE1_47AE_147B }
}

/// The number nearest to 1e-5: the least length of the last beat, in seconds.
#[verifier::allow_in_spec]
pub fn shortest_beat() -> Binary64
    returns
        (Binary64 { bits: 0x3EE4_F8B5_88E3_68F1 }),
{
    Binary64 { bits: 0x3EE4_F8B5_88E3_68F1 }
}

/// The first beat from `from` on that is not after the one before it.
pub open spec fn first_stall(beats: Seq<Binary64>, from: int) -> Option<int>
    decreases beats.len() - from,
{
    if from >= beats.len() {
        None
    } else if beats[from].spec_le(beats[from - 1]) {
        Some(from)
    } else {
        first_stall(beats, from + 1)
    }
}

/// Why a list of beats describes no playable grid.
pub open spec fn beat_fault(beats: Seq<Binary64>) -> Option<PhraseError> {
    if beats.len() < 8 {
        Some(PhraseError::BeatGridTooShort)
    } else if (exists|i: int| 0 <= i < beats.len() && !(#[trigger] beats[i]).finite()) || beats[0].spec_lt(zero()) {
        Some(PhraseError::BeatTimesNotFinite)
    } else {
        match first_stall(beats, 1) {
            Some(i) => Some(PhraseError::BeatsNotIncreasing { index: i as usize }),
            None => None,
        }
    }
}

/// Whether a segment describes a real span with a real meter.
pub open spec fn usable(segment: TempoSegment) -> bool {
    segment.start.finite() && segment.end.finite() && segment.inizio.finite() && segment.start.spec_lt(segment.end)
        && segment.time_signature >= 1
}

/// What the grid needs of a segment.
pub open spec fn reduced(segment: TempoSegment) -> MeterSegment {
    MeterSegment {
        start_sec: segment.start,
        end_sec: segment.end,
        inizio_sec: segment.inizio,
        meter: segment.time_signature as usize,
    }
}

/// The usable segments, as they come.
pub open spec fn usable_segments(segments: Seq<TempoSegment>) -> Seq<MeterSegment>
    decreases segments.len(),
{
    if segments.len() == 0 {
        seq![]
    } else if usable(segments.last()) {
        usable_segments(segments.drop_last()).push(reduced(segments.last()))
    } else {
        usable_segments(segments.drop_last())
    }
}

/// Sort keys that order segments by start and then by end.
pub open spec fn span_keys(segments: Seq<MeterSegment>) -> Seq<i128> {
    Seq::new(
        segments.len(),
        |i: int|
            (segments[i].start_sec.total_rank() * 0x1_0000_0000_0000_0000 + segments[i].end_sec.total_rank()) as i128,
    )
}

/// The usable segments in time order.
pub open spec fn meter_segments(segments: Seq<TempoSegment>) -> Seq<MeterSegment> {
    let kept = usable_segments(segments);
    arranged(kept, in_order(span_keys(kept)))
}

/// How far a downbeat may be from a beat, in seconds.
pub open spec fn tolerance(beats: Seq<Binary64>) -> Binary64 {
    larger(product(tolerance_share(), middle(gaps(beats))), tolerance_floor())
}

/// The distance of two times.
pub open spec fn apart(a: Binary64, b: Binary64) -> Binary64 {
    absolute(difference(a, b))
}

/// The first of the nearest among the first `n` beats.
pub open spec fn nearest_beat(beats: Seq<Binary64>, time: Binary64, n: nat) -> int
    decreases n,
{
    if n <= 1 {
        0
    } else {
        let best = nearest_beat(beats, time, (n - 1) as nat);
        if apart(beats[n - 1], time).total_rank() < apart(beats[best], time).total_rank() {
            n - 1
        } else {
            best
        }
    }
}

/// The beat that the downbeat of a segment is anchored to.
pub open spec fn anchor(beats: Seq<Binary64>, segment: MeterSegment) -> int {
    nearest_beat(beats, segment.inizio_sec, beats.len())
}

/// The first segment from `from` on whose downbeat is too far from every beat.
pub open spec fn anchor_fault(beats: Seq<Binary64>, segments: Seq<MeterSegment>, from: int) -> Option<PhraseError>
    decreases segments.len() - from,
{
    if from >= segments.len() {
        None
    } else {
        let error = apart(beats[anchor(beats, segments[from])], segments[from].inizio_sec);
        if tolerance(beats).spec_lt(error) {
            Some(
                PhraseError::DownbeatNotOnBeat {
                    inizio: segments[from].inizio_sec,
                    error,
                    tolerance: tolerance(beats),
                },
            )
        } else {
            anchor_fault(beats, segments, from + 1)
        }
    }
}

/// Whether a segment covers a beat time.
pub open spec fn covers(segment: MeterSegment, beat: Binary64, slack: Binary64) -> bool {
    difference(segment.start_sec, slack).spec_le(beat) && beat.spec_lt(sum(segment.end_sec, slack))
}

/// The last of the first `n` segments that covers a beat time.
pub open spec fn last_cover(segments: Seq<MeterSegment>, beat: Binary64, slack: Binary64, n: nat) -> Option<int>
    decreases n,
{
    if n == 0 {
        None
    } else if covers(segments[n - 1], beat, slack) {
        Some(n - 1)
    } else {
        last_cover(segments, beat, slack, (n - 1) as nat)
    }
}

/// Whether beat `i` falls on a bar line counted out from a segment's anchor.
pub open spec fn on_bar_line(beats: Seq<Binary64>, segment: MeterSegment, i: int) -> bool {
    (i - anchor(beats, segment)) % (segment.meter as int) == 0
}

/// Whether one of the first `n` segments covers beat `i` and puts a bar line on it.
pub open spec fn bar_line_within(beats: Seq<Binary64>, segments: Seq<MeterSegment>, i: int, n: nat) -> bool {
    exists|k: int|
        0 <= k < n && covers(#[trigger] segments[k], beats[i], tolerance(beats)) && on_bar_line(beats, segments[k], i)
}

/// Which beats some segment covers.
pub open spec fn covered(beats: Seq<Binary64>, segments: Seq<MeterSegment>) -> Seq<bool> {
    Seq::new(beats.len(), |i: int| last_cover(segments, beats[i], tolerance(beats), segments.len()) is Some)
}

/// The first of the marked places nearest to `i` among the first `n`.
pub open spec fn nearest_marked(mask: Seq<bool>, i: int, n: nat) -> Option<int>
    decreases n,
{
    if n == 0 {
        None
    } else {
        match nearest_marked(mask, i, (n - 1) as nat) {
            None => if mask[n - 1] {
                Some(n - 1)
            } else {
                None
            },
            Some(best) => if mask[n - 1] && distance(n - 1, i) < distance(best, i) {
                Some(n - 1)
            } else {
                Some(best)
            },
        }
    }
}

/// The distance of two integers.
pub open spec fn distance(a: int, b: int) -> int {
    if a < b {
        b - a
    } else {
        a - b
    }
}

/// The segment that governs beat `i`: the last that covers it, or else the one
/// that governs the nearest covered beat.
pub open spec fn governor(beats: Seq<Binary64>, segments: Seq<MeterSegment>, i: int) -> MeterSegment {
    let mask = covered(beats, segments);
    let source = if mask[i] {
        i
    } else {
        nearest_marked(mask, i, mask.len())->0
    };
    segments[last_cover(segments, beats[source], tolerance(beats), segments.len())->0]
}

/// Whether beat `i` starts a bar.
pub open spec fn is_downbeat(beats: Seq<Binary64>, segments: Seq<MeterSegment>, i: int) -> bool {
    if covered(beats, segments)[i] {
        bar_line_within(beats, segments, i, segments.len())
    } else {
        on_bar_line(beats, governor(beats, segments, i), i)
    }
}

/// Which beats start a bar.
pub open spec fn downbeats(beats: Seq<Binary64>, segments: Seq<MeterSegment>) -> Seq<bool> {
    Seq::new(beats.len(), |i: int| is_downbeat(beats, segments, i))
}

/// Why no grid can be built.
pub open spec fn grid_fault(beats: Seq<Binary64>, segments: Seq<TempoSegment>) -> Option<PhraseError> {
    let meters = meter_segments(segments);
    if beat_fault(beats) is Some {
        beat_fault(beats)
    } else if meters.len() == 0 {
        Some(PhraseError::NoTempoSegments)
    } else if anchor_fault(beats, meters, 0) is Some {
        anchor_fault(beats, meters, 0)
    } else if nearest_marked(covered(beats, meters), 0, beats.len()) is None {
        Some(PhraseError::SegmentsMissTheGrid)
    } else {
        None
    }
}

/// The bars among the first `n` beats: beat 0 and every downbeat opens one.
pub open spec fn bar_starts(mask: Seq<bool>, n: nat) -> Seq<usize>
    decreases n,
{
    if n == 0 {
        seq![]
    } else if n == 1 || mask[n - 1] {
        bar_starts(mask, (n - 1) as nat).push((n - 1) as usize)
    } else {
        bar_starts(mask, (n - 1) as nat)
    }
}

/// Where each bar ends: where the next one starts.
pub open spec fn bar_ends(mask: Seq<bool>) -> Seq<usize> {
    bar_starts(mask, mask.len()).drop_first().push(mask.len() as usize)
}

/// The meters of the beats in `from..to`.
pub open spec fn meters_between(
    beats: Seq<Binary64>,
    segments: Seq<MeterSegment>,
    from: int,
    to: int,
) -> Seq<Binary64> {
    Seq::new((to - from) as nat, |k: int| of_int(governor(beats, segments, from + k).meter as int))
}

/// Where the last beat ends, since no later beat marks it.
pub open spec fn final_edge(beats: Seq<Binary64>, segment_end: Binary64) -> Binary64 {
    let last = beats.last();
    let ibi = middle(gaps(beats));
    let plain = sum(last, ibi);
    let capped = if segment_end.finite() && last.spec_lt(segment_end) {
        smaller(plain, segment_end)
    } else {
        plain
    };
    if capped.spec_le(sum(last, shortest_beat())) {
        plain
    } else {
        capped
    }
}

/// The ends of the segments.
pub open spec fn segment_ends(segments: Seq<MeterSegment>) -> Seq<Binary64> {
    Seq::new(segments.len(), |i: int| segments[i].end_sec)
}

/// Whether a grid is the one of these beats and meter segments.
pub open spec fn is_grid(beats: Seq<Binary64>, segments: Seq<MeterSegment>, grid: PredictorGrid) -> bool {
    let mask = downbeats(beats, segments);
    let starts = bar_starts(mask, mask.len());
    let ends = bar_ends(mask);
    let edges = beats.push(final_edge(beats, highest(segment_ends(segments))));
    &&& grid.beat_times_sec@ == beats
    &&& grid.beat_edges_sec@ == edges
    &&& grid.meter_segments@ == segments
    &&& grid.downbeat_mask@ == mask
    &&& grid.bar_starts_beat@ == starts
    &&& grid.bar_ends_beat@ == ends
    &&& grid.bar_index_of_beat@.len() == beats.len()
    &&& grid.beat_in_bar@.len() == beats.len()
    &&& forall|i: int|
        0 <= i < beats.len() ==> {
            &&& #[trigger] grid.bar_index_of_beat@[i] == bar_starts(mask, (i + 1) as nat).len() - 1
            &&& grid.beat_in_bar@[i] == i - starts[grid.bar_index_of_beat@[i] as int]
        }
    &&& grid.bar_starts_sec@ == Seq::new(starts.len(), |k: int| beats[starts[k] as int])
    &&& grid.bar_ends_sec@ == Seq::new(starts.len(), |k: int| edges[ends[k] as int])
    &&& grid.bar_meters@ == Seq::new(
        starts.len(),
        |k: int|
            truncated(
                middle(meters_between(beats, segments, starts[k] as int, ends[k] as int)),
                usize::MAX as nat,
            ) as usize,
    )
    &&& grid.bar_is_partial@ == Seq::new(
        starts.len(),
        |k: int| !mask[starts[k] as int] || ends[k] - starts[k] != grid.bar_meters@[k],
    )
}

impl PredictorGrid {
    /// How many beats the grid has.
    pub fn n_beats(&self) -> (r: usize)
        ensures
            r == self.beat_times_sec@.len(),
    {
        self.beat_times_sec.len()
    }

    /// How many bars the grid has.
    pub fn n_bars(&self) -> (r: usize)
        ensures
            r == self.bar_starts_beat@.len(),
    {
        self.bar_starts_beat.len()
    }
}

/// Rejects a list of beats that describes no playable grid.
fn validate_beats(beats: &[Binary64]) -> (r: Result<(), PhraseError>)
    ensures
        r is Ok <==> beat_fault(beats@) is None,
        r is Err ==> r->Err_0 == beat_fault(beats@)->0,
{
    if beats.len() < 8 {
        return Err(PhraseError::BeatGridTooShort);
    }
    let mut i: usize = 0;
    while i < beats.len()
        invariant
            8 <= beats@.len(),
            i <= beats@.len(),
            forall|j: int| 0 <= j < i ==> (#[trigger] beats@[j]).finite(),
        decreases beats@.len() - i,
    {
        if !beats[i].is_finite() {
            return Err(PhraseError::BeatTimesNotFinite);
        }
        i = i + 1;
    }
    if beats[0].lt(zero()) {
        return Err(PhraseError::BeatTimesNotFinite);
    }
    let mut k: usize = 1;
    while k < beats.len()
        invariant
            8 <= beats@.len(),
            1 <= k <= beats@.len(),
            forall|j: int| 0 <= j < beats@.len() ==> (#[trigger] beats@[j]).finite(),
            !beats@[0].spec_lt(zero()),
            first_stall(beats@, 1) == first_stall(beats@, k as int),
        decreases beats@.len() - k,
    {
        if beats[k].le(beats[k - 1]) {
            return Err(PhraseError::BeatsNotIncreasing { index: k });
        }
        k = k + 1;
    }
    Ok(())
}

proof fn lemma_usable_segments(segments: Seq<TempoSegment>)
    ensures
        forall|i: int| 0 <= i < usable_segments(segments).len() ==> 1 <= (#[trigger] usable_segments(segments)[i]).meter <= 255,
        usable_segments(segments).len() <= segments.len(),
    decreases segments.len(),
{
    if segments.len() > 0 {
        lemma_usable_segments(segments.drop_last());
    }
}

/// The usable segments in time order.
fn parse_meter_segments(segments: &[TempoSegment]) -> (r: Vec<MeterSegment>)
    ensures
        r@ == meter_segments(segments@),
        forall|i: int| 0 <= i < r@.len() ==> 1 <= (#[trigger] r@[i]).meter <= 255,
{
    let mut kept: Vec<MeterSegment> = Vec::new();
    let mut keys: Vec<i128> = Vec::new();
    let mut i: usize = 0;
    while i < segments.len()
        invariant
            i <= segments@.len(),
            kept@ == usable_segments(segments@.take(i as int)),
            keys@ == span_keys(kept@),
        decreases segments@.len() - i,
    {
        let s: TempoSegment = segments[i];
        let ghost before = kept@;
        assert(segments@.take(i + 1).drop_last() == segments@.take(i as int));
        if s.start.is_finite() && s.end.is_finite() && s.inizio.is_finite() && s.start.lt(s.end) && s.time_signature >= 1 {
            kept.push(
                MeterSegment {
                    start_sec: s.start,
                    end_sec: s.end,
                    inizio_sec: s.inizio,
                    meter: s.time_signature as usize,
                },
            );
            keys.push(s.start.total_key() * 0x1_0000_0000_0000_0000 + s.end.total_key());
            assert(keys@ =~= span_keys(kept@));
        }
        i = i + 1;
    }
    assert(segments@.take(segments@.len() as int) == segments@);
    let order: Vec<usize> = stable_order(&keys);
    proof {
        lemma_usable_segments(segments@);
    }
    let mut out: Vec<MeterSegment> = Vec::new();
    let mut k: usize = 0;
    while k < order.len()
        invariant
            k <= order@.len(),
            visits_each_once(order@, kept@.len()),
            out@ == arranged(kept@, order@).take(k as int),
            forall|j: int| 0 <= j < kept@.len() ==> 1 <= (#[trigger] kept@[j]).meter <= 255,
            forall|j: int| 0 <= j < out@.len() ==> 1 <= (#[trigger] out@[j]).meter <= 255,
        decreases order@.len() - k,
    {
        out.push(kept[order[k]]);
        assert(arranged(kept@, order@).take(k + 1) == arranged(kept@, order@).take(k as int).push(kept@[order@[k as int] as int]));
        k = k + 1;
    }
    assert(arranged(kept@, order@).take(order@.len() as int) == arranged(kept@, order@));
    out
}

/// The first of the beats nearest to a time.
fn nearest_beat_to(beats: &[Binary64], time: Binary64) -> (r: usize)
    requires
        beats@.len() > 0,
    ensures
        r == nearest_beat(beats@, time, beats@.len()),
        r < beats@.len(),
{
    let mut best: usize = 0;
    let mut i: usize = 1;
    while i < beats.len()
        invariant
            1 <= i <= beats@.len(),
            best < i,
            best == nearest_beat(beats@, time, i as nat),
        decreases beats@.len() - i,
    {
        if beats[i].minus(time).abs().total_lt(beats[best].minus(time).abs()) {
            best = i;
        }
        i = i + 1;
    }
    best
}

/// Whether beat `i` is a multiple of `meter` beats from beat `anchor`.
fn is_multiple(i: usize, anchor: usize, meter: usize) -> (r: bool)
    requires
        1 <= meter <= 255,
    ensures
        r == ((i - anchor) % (meter as int) == 0),
{
    if i >= anchor {
        (i - anchor) % meter == 0
    } else {
        proof {
            let m = meter as int;
            let d = (anchor - i) as int;
            vstd::arithmetic::div_mod::lemma_fundamental_div_mod(d, m);
            vstd::arithmetic::div_mod::lemma_fundamental_div_mod(-d, m);
            if d % m == 0 {
                assert(-d == (-(d / m)) * m + 0) by (nonlinear_arith)
                    requires
                        d == m * (d / m),
                ;
                vstd::arithmetic::div_mod::lemma_fundamental_div_mod_converse(-d, m, -(d / m), 0);
            }
            if (-d) % m == 0 {
                assert(d == (-((-d) / m)) * m + 0) by (nonlinear_arith)
                    requires
                        -d == m * ((-d) / m),
                ;
                vstd::arithmetic::div_mod::lemma_fundamental_div_mod_converse(d, m, -((-d) / m), 0);
            }
        }
        (anchor - i) % meter == 0
    }
}

/// The first of the marked places nearest to `i`.
fn nearest_marked_to(mask: &Vec<bool>, i: usize) -> (r: Option<usize>)
    ensures
        r is Some <==> nearest_marked(mask@, i as int, mask@.len()) is Some,
        r is Some ==> r->0 == nearest_marked(mask@, i as int, mask@.len())->0 && r->0 < mask@.len() && mask@[r->0 as int],
{
    let mut best: Option<usize> = None;
    let mut n: usize = 0;
    while n < mask.len()
        invariant
            n <= mask@.len(),
            best is Some <==> nearest_marked(mask@, i as int, n as nat) is Some,
            best is Some ==> best->0 == nearest_marked(mask@, i as int, n as nat)->0 && best->0 < n && mask@[best->0 as int],
        decreases mask@.len() - n,
    {
        if mask[n] {
            match best {
                None => {
                    best = Some(n);
                },
                Some(b) => {
                    let near: usize = if n < i {
                        i - n
                    } else {
                        n - i
                    };
                    let held: usize = if b < i {
                        i - b
                    } else {
                        b - i
                    };
                    if near < held {
                        best = Some(n);
                    }
                },
            }
        }
        n = n + 1;
    }
    best
}

/// Lays one segment over the beats it covers.
fn lay_segment(
    beats: &[Binary64],
    segment: MeterSegment,
    anchor_beat: usize,
    slack: Binary64,
    meters: &mut Vec<usize>,
    anchors: &mut Vec<usize>,
    mask: &mut Vec<bool>,
)
    requires
        old(meters)@.len() == beats@.len(),
        old(anchors)@.len() == beats@.len(),
        old(mask)@.len() == beats@.len(),
        1 <= segment.meter <= 255,
        anchor_beat == anchor(beats@, segment),
    ensures
        final(meters)@.len() == beats@.len(),
        final(anchors)@.len() == beats@.len(),
        final(mask)@.len() == beats@.len(),
        forall|i: int|
            #![trigger final(meters)@[i]]
            #![trigger final(anchors)@[i]]
            #![trigger final(mask)@[i]]
            0 <= i < beats@.len() ==> if covers(segment, beats@[i], slack) {
                &&& final(meters)@[i] == segment.meter
                &&& final(anchors)@[i] == anchor_beat
                &&& final(mask)@[i] == (old(mask)@[i] || on_bar_line(beats@, segment, i))
            } else {
                &&& final(meters)@[i] == old(meters)@[i]
                &&& final(anchors)@[i] == old(anchors)@[i]
                &&& final(mask)@[i] == old(mask)@[i]
            },
{
    let from: Binary64 = segment.start_sec.minus(slack);
    let to: Binary64 = segment.end_sec.plus(slack);
    let mut i: usize = 0;
    while i < beats.len()
        invariant
            i <= beats@.len(),
            meters@.len() == beats@.len(),
            anchors@.len() == beats@.len(),
            mask@.len() == beats@.len(),
            1 <= segment.meter <= 255,
            anchor_beat == anchor(beats@, segment),
            old(meters)@.len() == beats@.len(),
            old(anchors)@.len() == beats@.len(),
            old(mask)@.len() == beats@.len(),
            from == difference(segment.start_sec, slack),
            to == sum(segment.end_sec, slack),
            forall|j: int|
                #![trigger meters@[j]]
                #![trigger anchors@[j]]
                #![trigger mask@[j]]
                0 <= j < i ==> if covers(segment, beats@[j], slack) {
                    &&& meters@[j] == segment.meter
                    &&& anchors@[j] == anchor_beat
                    &&& mask@[j] == (old(mask)@[j] || on_bar_line(beats@, segment, j))
                } else {
                    &&& meters@[j] == old(meters)@[j]
                    &&& anchors@[j] == old(anchors)@[j]
                    &&& mask@[j] == old(mask)@[j]
                },
            forall|j: int|
                #![trigger meters@[j]]
                #![trigger anchors@[j]]
                #![trigger mask@[j]]
                i <= j < beats@.len() ==> {
                    &&& meters@[j] == old(meters)@[j]
                    &&& anchors@[j] == old(anchors)@[j]
                    &&& mask@[j] == old(mask)@[j]
                },
        decreases beats@.len() - i,
    {
        if from.le(beats[i]) && beats[i].lt(to) {
            meters.set(i, segment.meter);
            anchors.set(i, anchor_beat);
            if is_multiple(i, anchor_beat, segment.meter) {
                mask.set(i, true);
            }
        }
        i = i + 1;
    }
}

/// Whether the meter, anchor and mark of beat `j` are right for the first `n`
/// segments.
spec fn laid(
    beats: Seq<Binary64>,
    segments: Seq<MeterSegment>,
    n: nat,
    j: int,
    meter: usize,
    anchor_beat: usize,
    mark: bool,
) -> bool {
    &&& match last_cover(segments, beats[j], tolerance(beats), n) {
        Some(c) => 0 <= c < n && meter == segments[c].meter && anchor_beat == anchor(beats, segments[c]),
        None => meter == 0,
    }
    &&& mark == bar_line_within(beats, segments, j, n)
}

proof fn lemma_laid_step(
    beats: Seq<Binary64>,
    segments: Seq<MeterSegment>,
    n: nat,
    j: int,
    before: (usize, usize, bool),
    after: (usize, usize, bool),
)
    requires
        n < segments.len(),
        laid(beats, segments, n, j, before.0, before.1, before.2),
        if covers(segments[n as int], beats[j], tolerance(beats)) {
            after.0 == segments[n as int].meter && after.1 == anchor(beats, segments[n as int]) && after.2 == (before.2
                || on_bar_line(beats, segments[n as int], j))
        } else {
            after == before
        },
    ensures
        laid(beats, segments, n + 1, j, after.0, after.1, after.2),
{
    if bar_line_within(beats, segments, j, n) {
        let c = choose|c: int|
            0 <= c < n && covers(#[trigger] segments[c], beats[j], tolerance(beats)) && on_bar_line(
                beats,
                segments[c],
                j,
            );
        assert(0 <= c < n + 1 && covers(segments[c], beats[j], tolerance(beats)));
        assert(bar_line_within(beats, segments, j, n + 1));
    }
    if covers(segments[n as int], beats[j], tolerance(beats)) && on_bar_line(beats, segments[n as int], j) {
        assert(bar_line_within(beats, segments, j, n + 1));
    }
    if bar_line_within(beats, segments, j, n + 1) {
        let c = choose|c: int|
            0 <= c < n + 1 && covers(#[trigger] segments[c], beats[j], tolerance(beats)) && on_bar_line(
                beats,
                segments[c],
                j,
            );
        if c < n {
            assert(bar_line_within(beats, segments, j, n));
        }
    }
}

/// The meter and downbeat of every beat, or why there are none.
fn lay_segments(beats: &[Binary64], segments: &Vec<MeterSegment>) -> (r: Result<(Vec<usize>, Vec<bool>), PhraseError>)
    requires
        beats@.len() > 0,
        forall|i: int| 0 <= i < segments@.len() ==> 1 <= (#[trigger] segments@[i]).meter <= 255,
    ensures
        r is Err <==> anchor_fault(beats@, segments@, 0) is Some || nearest_marked(
            covered(beats@, segments@),
            0,
            beats@.len(),
        ) is None,
        r is Err ==> r->Err_0 == (if anchor_fault(beats@, segments@, 0) is Some {
            anchor_fault(beats@, segments@, 0)->0
        } else {
            PhraseError::SegmentsMissTheGrid
        }),
        r is Ok ==> {
            &&& r->Ok_0.0@.len() == beats@.len()
            &&& r->Ok_0.1@ == downbeats(beats@, segments@)
            &&& forall|i: int| 0 <= i < beats@.len() ==> #[trigger] r->Ok_0.0@[i] == governor(beats@, segments@, i).meter
        },
{
    let slack: Binary64 = tolerance_share().times(median(gaps_of(beats).as_slice())).max(tolerance_floor());
    let n: usize = beats.len();
    let mut meters: Vec<usize> = Vec::new();
    let mut anchors: Vec<usize> = Vec::new();
    let mut mask: Vec<bool> = Vec::new();
    let mut i: usize = 0;
    while i < n
        invariant
            i <= n == beats@.len(),
            meters@.len() == i,
            anchors@.len() == i,
            mask@.len() == i,
            forall|j: int| 0 <= j < i ==> #[trigger] meters@[j] == 0,
            forall|j: int| 0 <= j < i ==> !#[trigger] mask@[j],
        decreases n - i,
    {
        meters.push(0);
        anchors.push(0);
        mask.push(false);
        i = i + 1;
    }
    let mut k: usize = 0;
    while k < segments.len()
        invariant
            k <= segments@.len(),
            n == beats@.len(),
            n > 0,
            slack == tolerance(beats@),
            meters@.len() == n,
            anchors@.len() == n,
            mask@.len() == n,
            forall|j: int| 0 <= j < segments@.len() ==> 1 <= (#[trigger] segments@[j]).meter <= 255,
            anchor_fault(beats@, segments@, 0) == anchor_fault(beats@, segments@, k as int),
            forall|j: int|
                0 <= j < n ==> #[trigger] laid(
                    beats@,
                    segments@,
                    k as nat,
                    j,
                    meters@[j],
                    anchors@[j],
                    mask@[j],
                ),
        decreases segments@.len() - k,
    {
        let segment: MeterSegment = segments[k];
        let anchor_beat: usize = nearest_beat_to(beats, segment.inizio_sec);
        let error: Binary64 = beats[anchor_beat].minus(segment.inizio_sec).abs();
        if slack.lt(error) {
            return Err(
                PhraseError::DownbeatNotOnBeat { inizio: segment.inizio_sec, error, tolerance: slack },
            );
        }
        let ghost before = (meters@, anchors@, mask@);
        lay_segment(beats, segment, anchor_beat, slack, &mut meters, &mut anchors, &mut mask);
        let ghost done = k as nat;
        k = k + 1;
        assert forall|j: int| 0 <= j < n implies #[trigger] laid(
            beats@,
            segments@,
            k as nat,
            j,
            meters@[j],
            anchors@[j],
            mask@[j],
        ) by {
            assert(laid(beats@, segments@, done, j, before.0[j], before.1[j], before.2[j]));
            lemma_laid_step(
                beats@,
                segments@,
                done,
                j,
                (before.0[j], before.1[j], before.2[j]),
                (meters@[j], anchors@[j], mask@[j]),
            );
        }
    }
    let mut marks: Vec<bool> = Vec::new();
    let mut m: usize = 0;
    while m < n
        invariant
            m <= n,
            n == beats@.len(),
            slack == tolerance(beats@),
            meters@.len() == n,
            anchors@.len() == n,
            mask@.len() == n,
            forall|j: int| 0 <= j < segments@.len() ==> 1 <= (#[trigger] segments@[j]).meter <= 255,
            forall|j: int|
                0 <= j < n ==> #[trigger] laid(
                    beats@,
                    segments@,
                    segments@.len(),
                    j,
                    meters@[j],
                    anchors@[j],
                    mask@[j],
                ),
            marks@ == covered(beats@, segments@).take(m as int),
        decreases n - m,
    {
        assert(laid(beats@, segments@, segments@.len(), m as int, meters@[m as int], anchors@[m as int], mask@[m as int]));
        marks.push(meters[m] > 0);
        m = m + 1;
        assert(marks@ =~= covered(beats@, segments@).take(m as int));
    }
    assert(marks@ =~= covered(beats@, segments@));
    if nearest_marked_to(&marks, 0).is_none() {
        return Err(PhraseError::SegmentsMissTheGrid);
    }
    let mut all_meters: Vec<usize> = Vec::new();
    let mut all_mask: Vec<bool> = Vec::new();
    let mut b: usize = 0;
    while b < n
        invariant
            b <= n,
            n == beats@.len(),
            slack == tolerance(beats@),
            marks@ == covered(beats@, segments@),
            marks@.len() == n,
            meters@.len() == n,
            anchors@.len() == n,
            mask@.len() == n,
            nearest_marked(marks@, 0, n as nat) is Some,
            forall|j: int| 0 <= j < segments@.len() ==> 1 <= (#[trigger] segments@[j]).meter <= 255,
            forall|j: int|
                0 <= j < n ==> #[trigger] laid(
                    beats@,
                    segments@,
                    segments@.len(),
                    j,
                    meters@[j],
                    anchors@[j],
                    mask@[j],
                ),
            all_meters@.len() == b,
            all_mask@.len() == b,
            forall|j: int| 0 <= j < b ==> #[trigger] all_meters@[j] == governor(beats@, segments@, j).meter,
            forall|j: int| 0 <= j < b ==> #[trigger] all_mask@[j] == is_downbeat(beats@, segments@, j),
        decreases n - b,
    {
        let now: usize = meters[b];
        assert(laid(beats@, segments@, segments@.len(), b as int, meters@[b as int], anchors@[b as int], mask@[b as int]));
        if marks[b] {
            all_meters.push(now);
            all_mask.push(mask[b]);
        } else {
            proof {
                lemma_marked_anywhere(marks@, 0, b as int, n as nat);
            }
            match nearest_marked_to(&marks, b) {
                Some(near) => {
                    assert(laid(
                        beats@,
                        segments@,
                        segments@.len(),
                        near as int,
                        meters@[near as int],
                        anchors@[near as int],
                        mask@[near as int],
                    ));
                    let meter: usize = meters[near];
                    let anchor_beat: usize = anchors[near];
                    all_meters.push(meter);
                    all_mask.push(is_multiple(b, anchor_beat, meter));
                },
                None => {},
            }
        }
        b = b + 1;
    }
    assert(all_mask@ =~= downbeats(beats@, segments@));
    Ok((all_meters, all_mask))
}

/// Whether anything is marked does not depend on where one looks from.
proof fn lemma_marked_anywhere(mask: Seq<bool>, i: int, j: int, n: nat)
    ensures
        nearest_marked(mask, i, n) is Some <==> nearest_marked(mask, j, n) is Some,
    decreases n,
{
    if n > 0 {
        lemma_marked_anywhere(mask, i, j, (n - 1) as nat);
    }
}

/// Bars start at increasing beats, the first at beat 0, and what is known of
/// the first beats stays.
proof fn lemma_bar_starts(mask: Seq<bool>, m: nat, n: nat)
    requires
        m <= n <= mask.len(),
        mask.len() <= usize::MAX,
    ensures
        m > 0 ==> bar_starts(mask, m).len() > 0 && bar_starts(mask, m)[0] == 0,
        bar_starts(mask, m).len() <= bar_starts(mask, n).len() <= n,
        bar_starts(mask, n).take(bar_starts(mask, m).len() as int) == bar_starts(mask, m),
        forall|k: int| 0 <= k < bar_starts(mask, m).len() ==> #[trigger] bar_starts(mask, m)[k] < m,
        forall|k: int| bar_starts(mask, m).len() <= k < bar_starts(mask, n).len() ==> #[trigger] bar_starts(mask, n)[k] >= m,
        forall|k: int, l: int|
            0 <= k < l < bar_starts(mask, n).len() ==> bar_starts(mask, n)[k] < bar_starts(mask, n)[l],
    decreases n, n - m,
{
    if n > 0 {
        let p = (n - 1) as nat;
        if m < n {
            lemma_bar_starts(mask, m, p);
            lemma_bar_starts(mask, p, p);
        } else {
            lemma_bar_starts(mask, p, p);
            assert(bar_starts(mask, n).take(bar_starts(mask, n).len() as int) == bar_starts(mask, n));
        }
        assert(bar_starts(mask, n).take(bar_starts(mask, m).len() as int) =~= bar_starts(mask, m));
    }
}

/// Bars tile the beats: the first starts at beat 0, each holds at least one
/// beat and ends where the next starts, and the last ends with the beats.
pub proof fn law_bars_tile_the_beats(mask: Seq<bool>)
    requires
        0 < mask.len() <= usize::MAX,
    ensures
        bar_starts(mask, mask.len()).len() > 0,
        bar_ends(mask).len() == bar_starts(mask, mask.len()).len(),
        bar_starts(mask, mask.len())[0] == 0,
        bar_ends(mask).last() == mask.len(),
        forall|k: int| 0 <= k < bar_ends(mask).len() - 1 ==> #[trigger] bar_ends(mask)[k] == bar_starts(mask, mask.len())[k + 1],
        forall|k: int| 0 <= k < bar_ends(mask).len() ==> bar_starts(mask, mask.len())[k] < #[trigger] bar_ends(mask)[k],
{
    lemma_bar_starts(mask, mask.len(), mask.len());
}

/// Where each beat stands in its bar.
fn number_beats(mask: &Vec<bool>) -> (r: (Vec<usize>, Vec<usize>, Vec<usize>))
    ensures
        r.0@ == bar_starts(mask@, mask@.len()),
        r.1@.len() == mask@.len(),
        r.2@.len() == mask@.len(),
        forall|i: int|
            0 <= i < mask@.len() ==> {
                &&& #[trigger] r.1@[i] == bar_starts(mask@, (i + 1) as nat).len() - 1
                &&& r.2@[i] == i - r.0@[r.1@[i] as int]
            },
{
    let mut starts: Vec<usize> = Vec::new();
    let mut bar: Vec<usize> = Vec::new();
    let mut within: Vec<usize> = Vec::new();
    let mut b: usize = 0;
    let n: usize = mask.len();
    while b < n
        invariant
            b <= n == mask@.len(),
            starts@ == bar_starts(mask@, b as nat),
            bar@.len() == b,
            within@.len() == b,
            forall|i: int|
                0 <= i < b ==> {
                    &&& #[trigger] bar@[i] == bar_starts(mask@, (i + 1) as nat).len() - 1
                    &&& within@[i] == i - bar_starts(mask@, n as nat)[bar@[i] as int]
                },
        decreases n - b,
    {
        if b == 0 || mask[b] {
            starts.push(b);
        }
        proof {
            lemma_bar_starts(mask@, (b + 1) as nat, n as nat);
            let now = bar_starts(mask@, (b + 1) as nat);
            assert(bar_starts(mask@, n as nat)[now.len() - 1] == bar_starts(mask@, n as nat).take(now.len() as int)[now.len() - 1]);
        }
        let open: usize = starts.len() - 1;
        bar.push(open);
        within.push(b - starts[open]);
        b = b + 1;
    }
    (starts, bar, within)
}

/// Where the last beat ends.
fn estimate_final_beat_edge(beats: &[Binary64], segment_end: Binary64) -> (r: Binary64)
    requires
        beats@.len() > 0,
    ensures
        r == final_edge(beats@, segment_end),
{
    let last: Binary64 = beats[beats.len() - 1];
    let ibi: Binary64 = median(gaps_of(beats).as_slice());
    let plain: Binary64 = last.plus(ibi);
    let capped: Binary64 = if segment_end.is_finite() && last.lt(segment_end) {
        plain.min(segment_end)
    } else {
        plain
    };
    if capped.le(last.plus(shortest_beat())) {
        plain
    } else {
        capped
    }
}

/// Builds the grid from beat times and tempo segments.
pub fn build_predictor_grid(beats: &[Binary64], segments: &[TempoSegment]) -> (r: Result<PredictorGrid, PhraseError>)
    ensures
        r is Ok <==> grid_fault(beats@, segments@) is None,
        r is Err ==> r->Err_0 == grid_fault(beats@, segments@)->0,
        r is Ok ==> is_grid(beats@, meter_segments(segments@), r->Ok_0),
{
    match validate_beats(beats) {
        Ok(()) => {},
        Err(fault) => {
            return Err(fault);
        },
    }
    let meters: Vec<MeterSegment> = parse_meter_segments(segments);
    if meters.len() == 0 {
        return Err(PhraseError::NoTempoSegments);
    }
    let (beat_meter, mask) = match lay_segments(beats, &meters) {
        Ok(laid) => laid,
        Err(fault) => {
            return Err(fault);
        },
    };
    let n: usize = beats.len();
    let ghost beat_seq = beats@;
    let (starts, bar_index, within) = number_beats(&mask);
    let ghost all = bar_starts(mask@, n as nat);
    proof {
        lemma_bar_starts(mask@, n as nat, n as nat);
    }
    let mut latest: Binary64 = minus_infinity();
    let mut s: usize = 0;
    while s < meters.len()
        invariant
            s <= meters@.len(),
            latest == highest(segment_ends(meters@).take(s as int)),
        decreases meters@.len() - s,
    {
        latest = latest.max(meters[s].end_sec);
        assert(segment_ends(meters@).take(s + 1).drop_last() == segment_ends(meters@).take(s as int));
        s = s + 1;
    }
    assert(segment_ends(meters@).take(meters@.len() as int) == segment_ends(meters@));
    let edge: Binary64 = estimate_final_beat_edge(beats, latest);
    let mut edges: Vec<Binary64> = Vec::new();
    let mut times: Vec<Binary64> = Vec::new();
    let mut e: usize = 0;
    while e < n
        invariant
            e <= n == beats@.len(),
            edges@ == beats@.take(e as int),
            times@ == beats@.take(e as int),
        decreases n - e,
    {
        edges.push(beats[e]);
        times.push(beats[e]);
        e = e + 1;
        assert(edges@ =~= beats@.take(e as int));
        assert(times@ =~= beats@.take(e as int));
    }
    assert(beats@.take(n as int) == beats@);
    edges.push(edge);
    let mut ends: Vec<usize> = Vec::new();
    let mut starts_sec: Vec<Binary64> = Vec::new();
    let mut ends_sec: Vec<Binary64> = Vec::new();
    let mut bar_meters: Vec<usize> = Vec::new();
    let mut partial: Vec<bool> = Vec::new();
    let mut k: usize = 0;
    while k < starts.len()
        invariant
            k <= starts@.len(),
            n == beats@.len(),
            starts@ == all,
            all == bar_starts(mask@, n as nat),
            mask@.len() == n,
            mask@ == downbeats(beats@, meters@),
            beat_meter@.len() == n,
            forall|i: int| 0 <= i < n ==> #[trigger] beat_meter@[i] == governor(beats@, meters@, i).meter,
            edges@ == beats@.push(edge),
            forall|i: int| 0 <= i < all.len() ==> #[trigger] all[i] < n,
            forall|i: int, j: int| 0 <= i < j < all.len() ==> all[i] < all[j],
            ends@.len() == k,
            starts_sec@.len() == k,
            ends_sec@.len() == k,
            bar_meters@.len() == k,
            partial@.len() == k,
            forall|i: int|
                #![trigger ends@[i]]
                #![trigger starts_sec@[i]]
                #![trigger ends_sec@[i]]
                #![trigger bar_meters@[i]]
                #![trigger partial@[i]]
                0 <= i < k ==> {
                    &&& ends@[i] == bar_ends(mask@)[i]
                    &&& starts_sec@[i] == beats@[all[i] as int]
                    &&& ends_sec@[i] == edges@[bar_ends(mask@)[i] as int]
                    &&& bar_meters@[i] == truncated(
                        middle(meters_between(beats@, meters@, all[i] as int, bar_ends(mask@)[i] as int)),
                        usize::MAX as nat,
                    ) as usize
                    &&& partial@[i] == (!mask@[all[i] as int] || bar_ends(mask@)[i] - all[i] != bar_meters@[i])
                },
        decreases starts@.len() - k,
    {
        let from: usize = starts[k];
        let to: usize = if k + 1 < starts.len() {
            starts[k + 1]
        } else {
            n
        };
        assert(to == bar_ends(mask@)[k as int]);
        let mut held: Vec<Binary64> = Vec::new();
        let mut b: usize = from;
        while b < to
            invariant
                from <= b <= to <= n,
                n == beats@.len(),
                beat_meter@.len() == n,
                forall|i: int| 0 <= i < n ==> #[trigger] beat_meter@[i] == governor(beats@, meters@, i).meter,
                held@ == meters_between(beats@, meters@, from as int, to as int).take(b - from),
            decreases to - b,
        {
            held.push(Binary64::from_u64(beat_meter[b] as u64));
            b = b + 1;
            assert(held@ =~= meters_between(beats@, meters@, from as int, to as int).take(b - from));
        }
        assert(held@ =~= meters_between(beats@, meters@, from as int, to as int));
        let meter: usize = median(held.as_slice()).truncate(usize::MAX as u64) as usize;
        ends.push(to);
        starts_sec.push(beats[from]);
        ends_sec.push(edges[to]);
        bar_meters.push(meter);
        partial.push(!mask[from] || to - from != meter);
        k = k + 1;
    }
    let grid = PredictorGrid {
        beat_times_sec: times,
        beat_edges_sec: edges,
        meter_segments: meters,
        downbeat_mask: mask,
        beat_in_bar: within,
        bar_index_of_beat: bar_index,
        bar_starts_beat: starts,
        bar_ends_beat: ends,
        bar_starts_sec: starts_sec,
        bar_ends_sec: ends_sec,
        bar_meters,
        bar_is_partial: partial,
    };
    proof {
        let ends_all = bar_ends(mask@);
        assert(grid.bar_ends_beat@ =~= ends_all);
        assert(grid.bar_starts_sec@ =~= Seq::new(all.len(), |i: int| beats@[all[i] as int]));
        assert(grid.bar_ends_sec@ =~= Seq::new(all.len(), |i: int| grid.beat_edges_sec@[ends_all[i] as int]));
        assert(grid.bar_meters@ =~= Seq::new(
            all.len(),
            |i: int|
                truncated(
                    middle(meters_between(beats@, grid.meter_segments@, all[i] as int, ends_all[i] as int)),
                    usize::MAX as nat,
                ) as usize,
        ));
        assert(grid.bar_is_partial@ =~= Seq::new(
            all.len(),
            |i: int| !mask@[all[i] as int] || ends_all[i] - all[i] != grid.bar_meters@[i],
        ));
    }
    Ok(grid)
}

/// Beats without a fault are at least eight, finite, not before the track, and
/// each behind the one before.
pub proof fn law_faultless_beats_increase(beats: Seq<Binary64>, i: int, j: int)
    requires
        beat_fault(beats) is None,
        0 <= i < j < beats.len(),
    ensures
        beats.len() >= 8,
        beats[i].finite() && beats[j].finite(),
        zero().spec_le(beats[i]),
        beats[i].spec_lt(beats[j]),
    decreases j,
{
    assert forall|k: int| 0 <= k < beats.len() implies (#[trigger] beats[k]).finite() by {}
    lemma_no_stall(beats, 1, j);
    assert(beats[j - 1].finite() && beats[j].finite() && beats[0].finite());
    if i < j - 1 {
        law_faultless_beats_increase(beats, i, j - 1);
    } else if i > 0 {
        law_faultless_beats_increase(beats, 0, i);
    }
}

proof fn lemma_no_stall(beats: Seq<Binary64>, from: int, j: int)
    requires
        1 <= from <= j < beats.len(),
        first_stall(beats, from) is None,
    ensures
        !beats[j].spec_le(beats[j - 1]),
    decreases j - from,
{
    if from < j {
        lemma_no_stall(beats, from + 1, j);
    }
}

/// The anchor of a segment is the first of the beats nearest to its downbeat.
pub proof fn law_the_anchor_is_the_nearest_beat(beats: Seq<Binary64>, time: Binary64, n: nat, i: int)
    requires
        0 <= i < n <= beats.len(),
    ensures
        0 <= nearest_beat(beats, time, n) < n,
        absolute(difference(beats[nearest_beat(beats, time, n)], time)).total_rank() <= absolute(difference(beats[i], time)).total_rank(),
        i < nearest_beat(beats, time, n) ==> absolute(difference(beats[nearest_beat(beats, time, n)], time)).total_rank() < absolute(
            difference(beats[i], time),
        ).total_rank(),
    decreases n,
{
    if n > 1 {
        if i < n - 1 {
            law_the_anchor_is_the_nearest_beat(beats, time, (n - 1) as nat, i);
        } else {
            law_the_anchor_is_the_nearest_beat(beats, time, (n - 1) as nat, 0);
        }
    }
}

/// A tempo segment counts exactly if its times are finite, it lasts and it has a
/// time signature, and it counts with the times and the signature it was given.
pub proof fn law_usable_segments_count(segments: Seq<TempoSegment>, i: int)
    requires
        segments.len() <= usize::MAX,
        0 <= i < segments.len(),
        segments[i].start.finite() && segments[i].end.finite() && segments[i].inizio.finite(),
        segments[i].start.spec_lt(segments[i].end),
        segments[i].time_signature >= 1,
    ensures
        meter_segments(segments).contains(
            (MeterSegment {
                start_sec: segments[i].start,
                end_sec: segments[i].end,
                inizio_sec: segments[i].inizio,
                meter: segments[i].time_signature as usize,
            }),
        ),
{
    let kept = usable_segments(segments);
    let k = lemma_usable_kept(segments, i);
    lemma_usable_len(segments);
    let keys = span_keys(kept);
    let order = in_order(keys);
    law_order_is_stable(keys, keys.len());
    assert(order.contains(k as usize));
    let p = choose|p: int| 0 <= p < order.len() && order[p] == k as usize;
    assert(meter_segments(segments)[p] == reduced(segments[i]));
}

proof fn lemma_usable_kept(segments: Seq<TempoSegment>, i: int) -> (k: int)
    requires
        0 <= i < segments.len(),
        usable(segments[i]),
    ensures
        0 <= k < usable_segments(segments).len(),
        usable_segments(segments)[k] == reduced(segments[i]),
    decreases segments.len(),
{
    if i == segments.len() - 1 {
        usable_segments(segments).len() - 1
    } else {
        assert(segments.drop_last()[i] == segments[i]);
        lemma_usable_kept(segments.drop_last(), i)
    }
}

proof fn lemma_usable_len(segments: Seq<TempoSegment>)
    ensures
        usable_segments(segments).len() <= segments.len(),
    decreases segments.len(),
{
    if segments.len() > 0 {
        lemma_usable_len(segments.drop_last());
    }
}

/// A beat goes by the last segment that reaches over it.
pub proof fn law_the_last_segment_over_a_beat_governs(beats: Seq<Binary64>, segments: Seq<MeterSegment>, i: int, k: int)
    requires
        0 <= i < beats.len(),
        0 <= k < segments.len(),
        covers(segments[k], beats[i], tolerance(beats)),
        forall|m: int| k < m < segments.len() ==> !covers(#[trigger] segments[m], beats[i], tolerance(beats)),
    ensures
        covered(beats, segments)[i],
        governor(beats, segments, i) == segments[k],
{
    lemma_last_cover(segments, beats[i], tolerance(beats), segments.len(), k);
}

proof fn lemma_last_cover(segments: Seq<MeterSegment>, beat: Binary64, slack: Binary64, n: nat, k: int)
    requires
        0 <= k < n <= segments.len(),
        covers(segments[k], beat, slack),
        forall|m: int| k < m < n ==> !covers(#[trigger] segments[m], beat, slack),
    ensures
        last_cover(segments, beat, slack, n) == Some(k),
    decreases n,
{
    if k < n - 1 {
        assert(!covers(segments[n - 1], beat, slack));
        lemma_last_cover(segments, beat, slack, (n - 1) as nat, k);
    }
}

/// Where a segment reaches over a beat that is a whole number of its bars away
/// from its anchor, that beat is a downbeat.
pub proof fn law_bars_count_from_the_anchor(
    beats: Seq<Binary64>,
    segments: Seq<MeterSegment>,
    k: int,
    i: int,
    bars: int,
)
    requires
        0 <= k < segments.len(),
        segments[k].meter >= 1,
        0 <= i < beats.len(),
        i == anchor(beats, segments[k]) + bars * segments[k].meter,
        covers(segments[k], beats[i], tolerance(beats)),
    ensures
        is_downbeat(beats, segments, i),
{
    let meter = segments[k].meter as int;
    vstd::arithmetic::div_mod::lemma_mod_multiples_basic(bars, meter);
    assert(i - anchor(beats, segments[k]) == bars * meter);
    assert(on_bar_line(beats, segments[k], i));
    assert(bar_line_within(beats, segments, i, segments.len()));
    lemma_some_cover(segments, beats[i], tolerance(beats), segments.len(), k);
}

proof fn lemma_some_cover(segments: Seq<MeterSegment>, beat: Binary64, slack: Binary64, n: nat, k: int)
    requires
        0 <= k < n <= segments.len(),
        covers(segments[k], beat, slack),
    ensures
        last_cover(segments, beat, slack, n) is Some,
    decreases n,
{
    if k < n - 1 {
        lemma_some_cover(segments, beat, slack, (n - 1) as nat, k);
    }
}

/// A marked beat that is found from another one is no farther away than any other
/// that is marked.
pub proof fn law_the_nearest_marked_beat_is_found(mask: Seq<bool>, i: int, n: nat, j: int)
    requires
        0 <= j < n <= mask.len(),
        mask[j],
    ensures
        nearest_marked(mask, i, n) is Some,
        0 <= nearest_marked(mask, i, n)->0 < n,
        mask[nearest_marked(mask, i, n)->0],
        distance(nearest_marked(mask, i, n)->0, i) <= distance(j, i),
    decreases n,
{
    if j < n - 1 {
        law_the_nearest_marked_beat_is_found(mask, i, (n - 1) as nat, j);
    } else {
        lemma_marked(mask, i, (n - 1) as nat);
    }
}

proof fn lemma_marked(mask: Seq<bool>, i: int, n: nat)
    requires
        n <= mask.len(),
    ensures
        nearest_marked(mask, i, n) is Some ==> 0 <= nearest_marked(mask, i, n)->0 < n && mask[nearest_marked(mask, i, n)->0],
    decreases n,
{
    if n > 0 {
        lemma_marked(mask, i, (n - 1) as nat);
    }
}

/// In a grid the beats of a bar are counted from nought: a downbeat starts the
/// next bar, and any other beat is one further in the bar of the beat before.
pub proof fn law_beats_are_counted_in_their_bar(
    beats: Seq<Binary64>,
    segments: Seq<MeterSegment>,
    grid: PredictorGrid,
    i: int,
)
    requires
        is_grid(beats, segments, grid),
        beats.len() <= usize::MAX,
        0 < i < beats.len(),
    ensures
        grid.beat_in_bar@[0] == 0 && grid.bar_index_of_beat@[0] == 0,
        is_downbeat(beats, segments, i) ==> grid.beat_in_bar@[i] == 0 && grid.bar_index_of_beat@[i]
            == grid.bar_index_of_beat@[i - 1] + 1,
        !is_downbeat(beats, segments, i) ==> grid.beat_in_bar@[i] == grid.beat_in_bar@[i - 1] + 1
            && grid.bar_index_of_beat@[i] == grid.bar_index_of_beat@[i - 1],
{
    let mask = downbeats(beats, segments);
    let starts = bar_starts(mask, mask.len());
    assert(bar_starts(mask, 0).len() == 0);
    assert(bar_starts(mask, 1) == bar_starts(mask, 0).push(0usize));
    lemma_starts_go_on(mask, 1, mask.len());
    lemma_starts_go_on(mask, (i + 1) as nat, mask.len());
    assert(grid.bar_index_of_beat@[0] == bar_starts(mask, 1).len() - 1);
    assert(starts[0] == 0);
    assert(grid.bar_index_of_beat@[i] == bar_starts(mask, (i + 1) as nat).len() - 1);
    assert(grid.bar_index_of_beat@[i - 1] == bar_starts(mask, i as nat).len() - 1);
    assert(mask[i] == is_downbeat(beats, segments, i));
    if mask[i] {
        let now = bar_starts(mask, (i + 1) as nat);
        assert(now[now.len() - 1] == i as usize);
        assert(starts[now.len() - 1] == i as usize);
    }
}

proof fn lemma_starts_go_on(mask: Seq<bool>, m: nat, n: nat)
    requires
        m <= n <= mask.len(),
    ensures
        bar_starts(mask, m).len() <= bar_starts(mask, n).len(),
        forall|k: int| 0 <= k < bar_starts(mask, m).len() ==> #[trigger] bar_starts(mask, n)[k] == bar_starts(mask, m)[k],
    decreases n - m,
{
    if m < n {
        lemma_starts_go_on(mask, m, (n - 1) as nat);
    }
}

/// A segment reaches over every beat between its start and its end.
pub proof fn law_segments_reach_over_their_beats(segment: MeterSegment, beat: Binary64, slack: Binary64)
    requires
        segment.start_sec.finite() && segment.end_sec.finite() && beat.finite() && slack.finite(),
        zero().spec_le(slack),
        segment.start_sec.spec_le(beat),
        beat.spec_lt(segment.end_sec),
    ensures
        covers(segment, beat, slack),
{
    law_taking_away_leaves_no_more(segment.start_sec, slack);
    law_taking_away_leaves_no_more(segment.end_sec, slack);
}

/// The last edge of a grid is a middle beat behind the last beat, or where the
/// last segment ends if that is sooner.
pub proof fn law_the_grid_ends_with_its_segments(
    beats: Seq<Binary64>,
    segments: Seq<MeterSegment>,
    grid: PredictorGrid,
    k: int,
)
    requires
        is_grid(beats, segments, grid),
        beats.len() > 0,
        0 <= k < segments.len(),
        forall|i: int| 0 <= i < segments.len() ==> (#[trigger] segments[i]).end_sec.finite(),
        forall|i: int| 0 <= i < segments.len() ==> (#[trigger] segments[i]).end_sec.rank() <= segments[k].end_sec.rank(),
    ensures
        ({
            let last = beats.last();
            let plain = sum(last, middle(gaps(beats)));
            let edge = grid.beat_edges_sec@.last();
            &&& grid.beat_edges_sec@.len() == beats.len() + 1
            &&& segments[k].end_sec.spec_le(last) ==> edge == plain
            &&& !plain.nan() && !segments[k].end_sec.spec_lt(plain) ==> edge == plain
            &&& segments[k].end_sec.spec_lt(plain) && sum(last, shortest_beat()).spec_lt(segments[k].end_sec)
                && last.spec_lt(segments[k].end_sec) ==> edge.rank() == segments[k].end_sec.rank()
        }),
{
    let ends = segment_ends(segments);
    lemma_last_end(ends, k);
    assert(ends[k] == segments[k].end_sec);
}

proof fn lemma_last_end(values: Seq<Binary64>, k: int)
    requires
        0 <= k < values.len(),
        forall|i: int| 0 <= i < values.len() ==> (#[trigger] values[i]).finite(),
        forall|i: int| 0 <= i < values.len() ==> (#[trigger] values[i]).rank() <= values[k].rank(),
    ensures
        highest(values).finite(),
        highest(values).rank() == values[k].rank(),
{
    lemma_highest_value(values);
    let i = choose|i: int| 0 <= i < values.len() && #[trigger] values[i] == highest(values);
    assert(values[i].rank() <= values[k].rank());
    assert(values[k].rank() <= highest(values).rank());
}

proof fn lemma_highest_value(values: Seq<Binary64>)
    requires
        values.len() > 0,
        forall|i: int| 0 <= i < values.len() ==> (#[trigger] values[i]).finite(),
    ensures
        forall|i: int| 0 <= i < values.len() ==> (#[trigger] values[i]).rank() <= highest(values).rank(),
        exists|i: int| 0 <= i < values.len() && #[trigger] values[i] == highest(values),
    decreases values.len(),
{
    let front = values.drop_last();
    assert(values[values.len() - 1] == values.last());
    if front.len() > 0 {
        assert forall|i: int| 0 <= i < front.len() implies (#[trigger] front[i]).finite() by {
            assert(front[i] == values[i]);
        }
        lemma_highest_value(front);
        let j = choose|j: int| 0 <= j < front.len() && #[trigger] front[j] == highest(front);
        assert(values[j] == front[j]);
        assert forall|i: int| 0 <= i < values.len() implies (#[trigger] values[i]).rank() <= highest(values).rank() by {
            if i < front.len() {
                assert(front[i] == values[i]);
            }
        }
    } else {
        assert(highest(front) == minus_infinity());
    }
}

} // verus!
