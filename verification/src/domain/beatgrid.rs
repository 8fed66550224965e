//! The beatgrid: beat times plus the tempo segments that give them bar structure.
//!
//! Bars are counted in beats, never in seconds, so a bar line is always drawn
//! on a real beat however long the track is.

use crate::domain::segments::{TempoSegment, DEFAULT_TIME_SIGNATURE};
use crate::number::binary64::{
    absolute, difference, larger, micro, nano, negated, of_int, product, quotient, sum, zero, Binary64,
};
use crate::number::laws::{law_addition_keeps_the_order, law_comparison_is_numeric};
use crate::number::sorting::{ascending, ranks};
use crate::order::{arranged, in_order, law_order_is_stable, stable_order, visits_each_once};
use crate::text::{decimal, push_decimal};
use vstd::prelude::*;

verus! {

/// A musical position: which bar, and which beat inside that bar.
///
/// Both are 1-based. Before the first downbeat the bar is 0 and `beat` counts
/// the beats remaining until the first bar starts.
#[derive(Debug, Clone, Copy, PartialEq, Eq, Structural)]
pub struct BarBeat {
    pub bar: usize,
    pub beat: usize,
}

impl BarBeat {
    /// `bar.beat`.
    pub open spec fn text(self) -> Seq<char> {
        decimal(self.bar as nat).push('.') + decimal(self.beat as nat)
    }

    /// `bar.beat`.
    pub fn to_string(&self) -> (r: String)
        ensures
            r@ == self.text(),
    {
        let mut out: String = String::new();
        push_decimal(&mut out, self.bar as u64);
        out.push('.');
        push_decimal(&mut out, self.beat as u64);
        assert(out@ =~= self.text());
        out
    }
}

/// The finite times among the first `n`, as they come.
pub open spec fn finite_ones(times: Seq<Binary64>, n: nat) -> Seq<Binary64>
    decreases n,
{
    if n == 0 {
        seq![]
    } else if times[n - 1].finite() {
        finite_ones(times, (n - 1) as nat).push(times[n - 1])
    } else {
        finite_ones(times, (n - 1) as nat)
    }
}

/// Whether times are finite and in order.
pub open spec fn is_timeline(times: Seq<Binary64>) -> bool {
    &&& forall|i: int| 0 <= i < times.len() ==> (#[trigger] times[i]).finite()
    &&& forall|i: int, j: int| 0 <= i < j < times.len() ==> times[i].rank() <= times[j].rank()
}

/// How many of the first `n` times are before `time`.
pub open spec fn count_before(times: Seq<Binary64>, time: Binary64, n: nat) -> nat
    decreases n,
{
    if n == 0 {
        0
    } else {
        count_before(times, time, (n - 1) as nat) + (if times[n - 1].spec_lt(time) {
            1nat
        } else {
            0nat
        })
    }
}

/// How many of the first `n` times are at or before `time`.
pub open spec fn count_until(times: Seq<Binary64>, time: Binary64, n: nat) -> nat
    decreases n,
{
    if n == 0 {
        0
    } else {
        count_until(times, time, (n - 1) as nat) + (if times[n - 1].spec_le(time) {
            1nat
        } else {
            0nat
        })
    }
}

/// How many times are before `time`.
pub open spec fn before(times: Seq<Binary64>, time: Binary64) -> nat {
    count_before(times, time, times.len())
}

/// How many times are at or before `time`.
pub open spec fn until(times: Seq<Binary64>, time: Binary64) -> nat {
    count_until(times, time, times.len())
}

/// The beat closest to `time`; the earlier one of two that are equally close.
pub open spec fn nearest(times: Seq<Binary64>, time: Binary64) -> nat {
    let place = before(times, time);
    let a = if place == 0 {
        0
    } else {
        (place - 1) as nat
    };
    let b = if place < times.len() {
        place
    } else {
        (times.len() - 1) as nat
    };
    if absolute(difference(times[b as int], time)).spec_lt(absolute(difference(times[a as int], time))) {
        b
    } else {
        a
    }
}

/// The beats per bar of a segment, at least one.
pub open spec fn meter(segment: TempoSegment) -> int {
    if segment.time_signature >= 1 {
        segment.time_signature as int
    } else {
        1
    }
}

/// Whether a bar of the segment starts on beat `j`: the beat is inside the
/// segment, a whole number of bars away from its reference beat.
pub open spec fn starts_bar(times: Seq<Binary64>, segment: TempoSegment, j: int) -> bool {
    &&& before(times, segment.start) <= j < before(times, segment.end)
    &&& (j - nearest(times, segment.inizio)) % meter(segment) == 0
}

/// Whether a segment covers any beat.
pub open spec fn usable(times: Seq<Binary64>, segment: TempoSegment) -> bool {
    before(times, segment.start) < before(times, segment.end)
}

/// Whether any segment covers a beat.
pub open spec fn any_usable(times: Seq<Binary64>, segments: Seq<TempoSegment>) -> bool {
    exists|s: int| 0 <= s < segments.len() && usable(times, #[trigger] segments[s])
}

/// Whether beat `j` is a downbeat: one of the first beats of four where no
/// segment covers a beat.
pub open spec fn is_downbeat(times: Seq<Binary64>, segments: Seq<TempoSegment>, j: int) -> bool {
    if !any_usable(times, segments) {
        j % 4 == 0
    } else {
        exists|s: int| 0 <= s < segments.len() && #[trigger] starts_bar(times, segments[s], j)
    }
}

/// The downbeats among the first `n` beats.
pub open spec fn downbeats(times: Seq<Binary64>, segments: Seq<TempoSegment>, n: nat) -> Seq<usize>
    decreases n,
{
    if n == 0 {
        seq![]
    } else {
        let earlier = downbeats(times, segments, (n - 1) as nat);
        if is_downbeat(times, segments, n - 1) {
            earlier.push((n - 1) as usize)
        } else {
            earlier
        }
    }
}

/// How many of the first `n` indices are at or before `limit`.
pub open spec fn indices_until(indices: Seq<usize>, limit: int, n: nat) -> nat
    decreases n,
{
    if n == 0 {
        0
    } else {
        indices_until(indices, limit, (n - 1) as nat) + (if indices[n - 1] <= limit {
            1nat
        } else {
            0nat
        })
    }
}

/// The position of beat `current` among bars that start on the given beats;
/// -1 stands for before the first beat.
pub open spec fn position(bars: Seq<usize>, current: int) -> BarBeat {
    let bar = indices_until(bars, current, bars.len());
    if bar == 0 {
        BarBeat { bar: 0, beat: (bars[0] - current) as usize }
    } else {
        BarBeat { bar: bar as usize, beat: (current - bars[bar - 1] + 1) as usize }
    }
}

/// The position at `time`, if there are beats and bars.
pub open spec fn position_at(times: Seq<Binary64>, bars: Seq<usize>, time: Binary64) -> Option<BarBeat> {
    if times.len() == 0 || bars.len() == 0 {
        None
    } else {
        Some(position(bars, until(times, time) - 1))
    }
}

/// Beat times together with the tempo segments that organise them into bars.
#[derive(Debug, PartialEq)]
pub struct Beatgrid {
    beats: Vec<Binary64>,
    segments: Vec<TempoSegment>,
}

proof fn lemma_finite_ones(times: Seq<Binary64>, n: nat)
    requires
        n <= times.len(),
    ensures
        forall|i: int| 0 <= i < finite_ones(times, n).len() ==> (#[trigger] finite_ones(times, n)[i]).finite(),
        finite_ones(times, n).len() <= n,
    decreases n,
{
    if n > 0 {
        lemma_finite_ones(times, (n - 1) as nat);
    }
}

/// Where exactly the first `place` times are before `time`, that many are.
proof fn lemma_count_before(times: Seq<Binary64>, time: Binary64, place: int, n: nat)
    requires
        n <= times.len(),
        forall|i: int| 0 <= i < n && i < place ==> (#[trigger] times[i]).spec_lt(time),
        forall|i: int| place <= i < n ==> !(#[trigger] times[i]).spec_lt(time),
    ensures
        0 <= place <= n ==> count_before(times, time, n) == place,
        n < place ==> count_before(times, time, n) == n,
    decreases n,
{
    if n > 0 {
        lemma_count_before(times, time, place, (n - 1) as nat);
    }
}

/// Where exactly the first `place` times are at or before `time`, that many are.
proof fn lemma_count_until(times: Seq<Binary64>, time: Binary64, place: int, n: nat)
    requires
        n <= times.len(),
        forall|i: int| 0 <= i < n && i < place ==> (#[trigger] times[i]).spec_le(time),
        forall|i: int| place <= i < n ==> !(#[trigger] times[i]).spec_le(time),
    ensures
        0 <= place <= n ==> count_until(times, time, n) == place,
        n < place ==> count_until(times, time, n) == n,
    decreases n,
{
    if n > 0 {
        lemma_count_until(times, time, place, (n - 1) as nat);
    }
}

proof fn lemma_counts_bounded(times: Seq<Binary64>, time: Binary64, n: nat)
    ensures
        count_before(times, time, n) <= n,
        count_until(times, time, n) <= n,
    decreases n,
{
    if n > 0 {
        lemma_counts_bounded(times, time, (n - 1) as nat);
    }
}

/// The later the time, the more times are before it.
proof fn lemma_count_before_grows(times: Seq<Binary64>, from: Binary64, to: Binary64, n: nat)
    requires
        from.nan() || from.spec_lt(to),
    ensures
        count_before(times, from, n) <= count_before(times, to, n),
    decreases n,
{
    if n > 0 {
        lemma_count_before_grows(times, from, to, (n - 1) as nat);
    }
}

impl Beatgrid {
    /// The beat times.
    pub closed spec fn times(&self) -> Seq<Binary64> {
        self.beats@
    }

    /// The tempo segments.
    pub closed spec fn tempo(&self) -> Seq<TempoSegment> {
        self.segments@
    }

    #[verifier::type_invariant]
    spec fn well_formed(&self) -> bool {
        is_timeline(self.beats@)
    }

    /// Builds a grid, dropping non-finite beats and sorting what remains.
    pub fn new(beats: Vec<Binary64>, segments: Vec<TempoSegment>) -> (r: Self)
        ensures
            r.times() == ascending(finite_ones(beats@, beats@.len())),
            r.tempo() == segments@,
            is_timeline(r.times()),
    {
        let mut kept: Vec<Binary64> = Vec::new();
        let mut keys: Vec<i128> = Vec::new();
        let mut i: usize = 0;
        while i < beats.len()
            invariant
                i <= beats@.len(),
                kept@ == finite_ones(beats@, i as nat),
                keys@ == ranks(kept@),
            decreases beats@.len() - i,
        {
            if beats[i].is_finite() {
                keys.push(beats[i].rank_key());
                kept.push(beats[i]);
                assert(keys@ =~= ranks(kept@));
            }
            i = i + 1;
        }
        let order: Vec<usize> = stable_order(&keys);
        let ghost want = ascending(kept@);
        let mut sorted: Vec<Binary64> = Vec::new();
        let mut k: usize = 0;
        while k < order.len()
            invariant
                k <= order@.len(),
                visits_each_once(order@, kept@.len()),
                want == arranged(kept@, order@),
                sorted@ == want.take(k as int),
            decreases order@.len() - k,
        {
            sorted.push(kept[order[k]]);
            k = k + 1;
            assert(sorted@ =~= want.take(k as int));
        }
        assert(sorted@ =~= want);
        proof {
            lemma_finite_ones(beats@, beats@.len());
            let total: usize = kept.len();
            assert forall|m: int| 0 <= m < sorted@.len() implies (#[trigger] sorted@[m]).finite() by {
                assert(sorted@[m] == kept@[order@[m] as int]);
            }
            assert forall|a: int, b: int| 0 <= a < b < sorted@.len() implies sorted@[a].rank() <= sorted@[b].rank() by {
                assert(keys@[order@[a] as int] <= keys@[order@[b] as int]);
            }
        }
        Beatgrid { beats: sorted, segments }
    }

    /// The beat times, in order.
    pub fn beats(&self) -> (r: &[Binary64])
        ensures
            r@ == self.times(),
    {
        self.beats.as_slice()
    }

    /// The tempo segments.
    pub fn segments(&self) -> (r: &[TempoSegment])
        ensures
            r@ == self.tempo(),
    {
        self.segments.as_slice()
    }

    /// Whether there are no beats.
    pub fn is_empty(&self) -> (r: bool)
        ensures
            r == (self.times().len() == 0),
    {
        self.beats.len() == 0
    }

    /// The number of beats.
    pub fn len(&self) -> (r: usize)
        ensures
            r == self.times().len(),
    {
        self.beats.len()
    }

    /// The number of beats strictly before `time`.
    fn partition_point_left(&self, time: Binary64) -> (r: usize)
        ensures
            r == before(self.times(), time),
            r <= self.times().len(),
    {
        proof {
            use_type_invariant(self);
        }
        let total: usize = self.beats.len();
        let mut lo: usize = 0;
        let mut hi: usize = total;
        while lo < hi
            invariant
                lo <= hi <= total == self.beats@.len(),
                is_timeline(self.beats@),
                forall|i: int| 0 <= i < lo ==> (#[trigger] self.beats@[i]).spec_lt(time),
                forall|i: int| hi <= i < total ==> !(#[trigger] self.beats@[i]).spec_lt(time),
            decreases hi - lo,
        {
            let mid: usize = lo + (hi - lo) / 2;
            if self.beats[mid].lt(time) {
                lo = mid + 1;
            } else {
                hi = mid;
            }
        }
        proof {
            lemma_count_before(self.beats@, time, lo as int, total as nat);
        }
        lo
    }

    /// The number of beats at or before `time`.
    fn partition_point_right(&self, time: Binary64) -> (r: usize)
        ensures
            r == until(self.times(), time),
            r <= self.times().len(),
    {
        proof {
            use_type_invariant(self);
        }
        let total: usize = self.beats.len();
        let mut lo: usize = 0;
        let mut hi: usize = total;
        while lo < hi
            invariant
                lo <= hi <= total == self.beats@.len(),
                is_timeline(self.beats@),
                forall|i: int| 0 <= i < lo ==> (#[trigger] self.beats@[i]).spec_le(time),
                forall|i: int| hi <= i < total ==> !(#[trigger] self.beats@[i]).spec_le(time),
            decreases hi - lo,
        {
            let mid: usize = lo + (hi - lo) / 2;
            if self.beats[mid].le(time) {
                lo = mid + 1;
            } else {
                hi = mid;
            }
        }
        proof {
            lemma_count_until(self.beats@, time, lo as int, total as nat);
        }
        lo
    }

    /// Index of the last beat at or before `time`, or `None` before the first beat.
    pub fn beat_index_at(&self, time: Binary64) -> (r: Option<usize>)
        ensures
            r is None <==> until(self.times(), time) == 0,
            r is Some ==> r->0 == until(self.times(), time) - 1 && r->0 < self.times().len(),
    {
        let place: usize = self.partition_point_right(time);
        if place == 0 {
            None
        } else {
            Some(place - 1)
        }
    }

    /// Index of the beat closest to `time`, or `None` when there are no beats.
    pub fn nearest_beat_index(&self, time: Binary64) -> (r: Option<usize>)
        ensures
            r is None <==> self.times().len() == 0,
            r is Some ==> r->0 == nearest(self.times(), time) && r->0 < self.times().len(),
    {
        if self.beats.len() == 0 {
            return None;
        }
        let place: usize = self.partition_point_left(time);
        let a: usize = if place == 0 {
            0
        } else {
            place - 1
        };
        let b: usize = if place < self.beats.len() {
            place
        } else {
            self.beats.len() - 1
        };
        let da: Binary64 = self.beats[a].minus(time).abs();
        let db: Binary64 = self.beats[b].minus(time).abs();
        if db.lt(da) {
            Some(b)
        } else {
            Some(a)
        }
    }

    /// Marks the beats on which a bar of the segment starts.
    fn mark_bars(&self, segment: TempoSegment, marked: &mut Vec<bool>)
        requires
            old(marked)@.len() == self.times().len(),
        ensures
            final(marked)@ == Seq::new(
                self.times().len(),
                |j: int| old(marked)@[j] || starts_bar(self.times(), segment, j),
            ),
    {
        let ghost times = self.times();
        let ghost was = marked@;
        let ghost want = Seq::new(times.len(), |j: int| was[j] || starts_bar(times, segment, j));
        let lo: usize = self.partition_point_left(segment.start);
        let hi: usize = self.partition_point_left(segment.end);
        if hi <= lo {
            assert(marked@ =~= want);
            return;
        }
        let reference: usize = match self.nearest_beat_index(segment.inizio) {
            Some(reference) => reference,
            None => {
                assert(marked@ =~= want);
                return;
            },
        };
        let ts: usize = if segment.time_signature >= 1 {
            segment.time_signature as usize
        } else {
            1
        };
        let offset: usize = if reference >= lo {
            (reference - lo) % ts
        } else {
            (ts - (lo - reference) % ts) % ts
        };
        proof {
            lemma_offset(lo as int, reference as int, ts as int, offset as int);
        }
        assert forall|j: int| lo <= j < lo + offset implies !starts_bar(times, segment, j) by {
            if starts_bar(times, segment, j) {
                lemma_apart(j, lo + offset, reference as int, ts as int);
            }
        }
        if offset >= hi - lo {
            assert forall|j: int| 0 <= j < times.len() implies marked@[j] == want[j] by {
                if starts_bar(times, segment, j) {
                    assert(lo <= j < lo + offset);
                }
            }
            assert(marked@ =~= want);
            return;
        }
        let mut j: usize = lo + offset;
        loop
            invariant_except_break
                lo + offset <= j < hi,
                (j - reference) % (ts as int) == 0,
                forall|k: int| lo <= k < j ==> (#[trigger] marked@[k]) == want[k],
                forall|k: int| j <= k < times.len() ==> (#[trigger] marked@[k]) == was[k],
            invariant
                1 <= ts == meter(segment),
                hi <= times.len(),
                0 <= offset < ts,
                marked@.len() == times.len(),
                was.len() == times.len(),
                want == Seq::new(times.len(), |k: int| was[k] || starts_bar(times, segment, k)),
                lo == before(times, segment.start),
                hi == before(times, segment.end),
                reference == nearest(times, segment.inizio),
                forall|k: int| 0 <= k < lo ==> (#[trigger] marked@[k]) == was[k],
            ensures
                forall|k: int| lo <= k < hi ==> (#[trigger] marked@[k]) == want[k],
                forall|k: int| hi <= k < times.len() ==> (#[trigger] marked@[k]) == was[k],
            decreases hi - j,
        {
            marked.set(j, true);
            assert(starts_bar(times, segment, j as int));
            proof {
                assert forall|k: int| j < k < hi && k < j + ts implies !starts_bar(times, segment, k) by {
                    if starts_bar(times, segment, k) {
                        lemma_apart(j as int, k, reference as int, ts as int);
                    }
                }
            }
            if hi - j <= ts {
                break;
            }
            j = j + ts;
            proof {
                lemma_next(j - ts, reference as int, ts as int);
            }
        }
        assert forall|k: int| 0 <= k < times.len() implies marked@[k] == want[k] by {
            if k < lo {
                assert(marked@[k] == was[k]);
            }
        }
        assert(marked@ =~= want);
    }

    /// Whether any tempo segment covers a beat.
    fn has_usable_segment(&self) -> (r: bool)
        ensures
            r == any_usable(self.times(), self.tempo()),
    {
        let mut s: usize = 0;
        while s < self.segments.len()
            invariant
                s <= self.segments@.len(),
                forall|k: int| 0 <= k < s ==> !usable(self.times(), #[trigger] self.tempo()[k]),
            decreases self.segments@.len() - s,
        {
            let segment: TempoSegment = self.segments[s];
            assert(self.tempo()[s as int] == segment);
            if self.partition_point_left(segment.start) < self.partition_point_left(segment.end) {
                return true;
            }
            s = s + 1;
        }
        false
    }

    /// Indices of the beats that start a bar, in order.
    ///
    /// Within each tempo segment a downbeat falls every `time_signature` beats,
    /// counted from the beat nearest that segment's `inizio`. Where no tempo
    /// segment covers a beat this assumes a 4/4 grid anchored on the first beat.
    pub fn downbeat_indices(&self) -> (r: Vec<usize>)
        ensures
            r@ == downbeats(self.times(), self.tempo(), self.times().len()),
    {
        let ghost times = self.times();
        let ghost tempo = self.tempo();
        let total: usize = self.beats.len();
        let mut marked: Vec<bool> = Vec::new();
        let mut i: usize = 0;
        while i < total
            invariant
                i <= total,
                marked@.len() == i,
                forall|j: int| 0 <= j < i ==> !(#[trigger] marked@[j]),
            decreases total - i,
        {
            marked.push(false);
            i = i + 1;
        }
        let mut s: usize = 0;
        while s < self.segments.len()
            invariant
                s <= self.segments@.len(),
                times == self.times(),
                tempo == self.segments@,
                total == times.len(),
                marked@.len() == total,
                forall|j: int|
                    0 <= j < total ==> (#[trigger] marked@[j]) == exists|k: int|
                        0 <= k < s && #[trigger] starts_bar(times, tempo[k], j),
            decreases self.segments@.len() - s,
        {
            let ghost was = marked@;
            self.mark_bars(self.segments[s], &mut marked);
            assert forall|j: int| 0 <= j < total implies (#[trigger] marked@[j]) == exists|k: int|
                0 <= k < s + 1 && #[trigger] starts_bar(times, tempo[k], j) by {
                assert(marked@[j] == (was[j] || starts_bar(times, tempo[s as int], j)));
                if was[j] {
                    let k = choose|k: int| 0 <= k < s && #[trigger] starts_bar(times, tempo[k], j);
                    assert(starts_bar(times, tempo[k], j));
                }
            }
            s = s + 1;
        }
        let mut out: Vec<usize> = Vec::new();
        let plain: bool = !self.has_usable_segment();
        let mut j: usize = 0;
        while j < total
            invariant
                j <= total == times.len(),
                marked@.len() == total,
                plain == !any_usable(times, tempo),
                forall|m: int|
                    0 <= m < total ==> (#[trigger] marked@[m]) == exists|k: int|
                        0 <= k < tempo.len() && #[trigger] starts_bar(times, tempo[k], m),
                out@ == downbeats(times, tempo, j as nat),
            decreases total - j,
        {
            let here: bool = if plain {
                j % (DEFAULT_TIME_SIGNATURE as usize) == 0
            } else {
                marked[j]
            };
            assert(here == is_downbeat(times, tempo, j as int));
            if here {
                out.push(j);
            }
            j = j + 1;
        }
        out
    }

    /// Times of the bar starts: always times of beats.
    pub fn downbeat_times(&self) -> (r: Vec<Binary64>)
        ensures
            r@ == downbeats(self.times(), self.tempo(), self.times().len()).map_values(
                |i: usize| self.times()[i as int],
            ),
    {
        let bars: Vec<usize> = self.downbeat_indices();
        let total: usize = self.beats.len();
        let ghost want = bars@.map_values(|i: usize| self.times()[i as int]);
        proof {
            law_downbeats_are_beats_in_order(self.times(), self.tempo(), self.times().len());
        }
        let mut out: Vec<Binary64> = Vec::new();
        let mut k: usize = 0;
        while k < bars.len()
            invariant
                k <= bars@.len(),
                want == bars@.map_values(|i: usize| self.times()[i as int]),
                forall|i: int| 0 <= i < bars@.len() ==> #[trigger] bars@[i] < self.times().len(),
                out@ == want.take(k as int),
            decreases bars@.len() - k,
        {
            out.push(self.beats[bars[k]]);
            k = k + 1;
            assert(out@ =~= want.take(k as int));
        }
        assert(out@ =~= want);
        out
    }

    /// Musical position at `time`, or `None` without beat or downbeat data.
    pub fn bar_beat_at(&self, time: Binary64) -> (r: Option<BarBeat>)
        ensures
            r == position_at(
                self.times(),
                downbeats(self.times(), self.tempo(), self.times().len()),
                time,
            ),
    {
        let bars: Vec<usize> = self.downbeat_indices();
        let total: usize = self.beats.len();
        proof {
            law_downbeats_are_beats_in_order(self.times(), self.tempo(), self.times().len());
        }
        self.bar_beat_with_downbeats(time, bars.as_slice())
    }

    /// Same as `bar_beat_at` but reusing precomputed downbeat indices.
    pub fn bar_beat_with_downbeats(&self, time: Binary64, downbeats: &[usize]) -> (r: Option<BarBeat>)
        requires
            forall|i: int, j: int| 0 <= i < j < downbeats@.len() ==> downbeats@[i] <= downbeats@[j],
            downbeats@.len() > 0 ==> downbeats@[0] < usize::MAX,
        ensures
            r == position_at(self.times(), downbeats@, time),
    {
        if self.beats.len() == 0 || downbeats.len() == 0 {
            return None;
        }
        let current: usize = match self.beat_index_at(time) {
            Some(current) => current,
            None => {
                proof {
                    lemma_indices_until(downbeats@, -1, 0, downbeats@.len());
                }
                return Some(BarBeat { bar: 0, beat: downbeats[0] + 1 });
            },
        };
        let total: usize = downbeats.len();
        let mut bar: usize = 0;
        while bar < total && downbeats[bar] <= current
            invariant
                bar <= total == downbeats@.len(),
                forall|i: int| 0 <= i < bar ==> #[trigger] downbeats@[i] <= current,
            decreases total - bar,
        {
            bar = bar + 1;
        }
        proof {
            assert forall|i: int| bar <= i < total implies #[trigger] downbeats@[i] > current by {
                if bar < i {
                    assert(downbeats@[bar as int] <= downbeats@[i]);
                }
            }
            lemma_indices_until(downbeats@, current as int, bar as int, total as nat);
        }
        if bar == 0 {
            Some(BarBeat { bar: 0, beat: downbeats[0] - current })
        } else {
            Some(BarBeat { bar, beat: current - downbeats[bar - 1] + 1 })
        }
    }

    /// `"bar.beat"`, or an empty string when the position is unknown.
    pub fn bar_beat_label(&self, time: Binary64) -> (r: String)
        ensures
            r@ == (match position_at(
                self.times(),
                downbeats(self.times(), self.tempo(), self.times().len()),
                time,
            ) {
                Some(place) => place.text(),
                None => seq![],
            }),
    {
        match self.bar_beat_at(time) {
            Some(place) => place.to_string(),
            None => {
                let out: String = String::new();
                assert(out@ =~= seq![]);
                out
            },
        }
    }

    /// Index of the first tempo segment covering `time`.
    pub fn segment_at(&self, time: Binary64) -> (r: Option<usize>)
        ensures
            r is None <==> forall|i: int| 0 <= i < self.tempo().len() ==> !(#[trigger] self.tempo()[i]).spec_contains(time),
            r is Some ==> r->0 < self.tempo().len() && self.tempo()[r->0 as int].spec_contains(time) && forall|i: int|
                0 <= i < r->0 ==> !(#[trigger] self.tempo()[i]).spec_contains(time),
    {
        let mut i: usize = 0;
        while i < self.segments.len()
            invariant
                i <= self.segments@.len(),
                forall|k: int| 0 <= k < i ==> !(#[trigger] self.tempo()[k]).spec_contains(time),
            decreases self.segments@.len() - i,
        {
            if self.segments[i].contains(time) {
                assert(self.tempo()[i as int].spec_contains(time));
                return Some(i);
            }
            i = i + 1;
        }
        None
    }

    /// Number of beats in `[from, to)`.
    pub fn beats_between(&self, from: Binary64, to: Binary64) -> (r: usize)
        requires
            to.nan() ==> before(self.times(), from) == 0,
        ensures
            r == if to.spec_le(from) {
                0int
            } else {
                before(self.times(), to) - before(self.times(), from)
            },
    {
        if to.le(from) {
            return 0;
        }
        let upper: usize = self.partition_point_left(to);
        let lower: usize = self.partition_point_left(from);
        proof {
            if !to.nan() {
                lemma_count_before_grows(self.times(), from, to, self.times().len());
            }
        }
        upper - lower
    }
}

impl Clone for Beatgrid {
    fn clone(&self) -> (r: Self)
        ensures
            r.times() == self.times(),
            r.tempo() == self.tempo(),
    {
        proof {
            use_type_invariant(self);
        }
        let beats: Vec<Binary64> = self.beats.clone();
        let segments: Vec<TempoSegment> = self.segments.clone();
        assert(beats@ =~= self.beats@);
        assert(segments@ =~= self.segments@);
        Beatgrid { beats, segments }
    }
}

impl Default for Beatgrid {
    fn default() -> (r: Self)
        ensures
            r.times() == Seq::<Binary64>::empty(),
            r.tempo() == Seq::<TempoSegment>::empty(),
    {
        Beatgrid { beats: Vec::new(), segments: Vec::new() }
    }
}

proof fn lemma_indices_until(indices: Seq<usize>, limit: int, place: int, n: nat)
    requires
        n <= indices.len(),
        forall|i: int| 0 <= i < n && i < place ==> #[trigger] indices[i] <= limit,
        forall|i: int| place <= i < n ==> #[trigger] indices[i] > limit,
    ensures
        0 <= place <= n ==> indices_until(indices, limit, n) == place,
        n < place ==> indices_until(indices, limit, n) == n,
    decreases n,
{
    if n > 0 {
        lemma_indices_until(indices, limit, place, (n - 1) as nat);
    }
}

/// `offset` is the least step from `lo` to a whole number of bars from `reference`.
proof fn lemma_offset(lo: int, reference: int, ts: int, offset: int)
    requires
        ts >= 1,
        reference >= lo ==> offset == (reference - lo) % ts,
        reference < lo ==> offset == (ts - (lo - reference) % ts) % ts,
    ensures
        0 <= offset < ts,
        (lo + offset - reference) % ts == 0,
{
    if reference >= lo {
        let d = reference - lo;
        vstd::arithmetic::div_mod::lemma_fundamental_div_mod(d, ts);
        vstd::arithmetic::div_mod::lemma_mod_bound(d, ts);
        assert(lo + offset - reference == ts * (-(d / ts))) by (nonlinear_arith)
            requires
                d == reference - lo,
                d == ts * (d / ts) + offset,
        ;
        vstd::arithmetic::div_mod::lemma_mod_multiples_basic(-(d / ts), ts);
        assert(ts * (-(d / ts)) == (-(d / ts)) * ts) by (nonlinear_arith);
    } else {
        let d = lo - reference;
        let m = d % ts;
        vstd::arithmetic::div_mod::lemma_fundamental_div_mod(d, ts);
        vstd::arithmetic::div_mod::lemma_mod_bound(d, ts);
        if m == 0 {
            vstd::arithmetic::div_mod::lemma_mod_self_0(ts);
            assert(offset == 0);
        } else {
            vstd::arithmetic::div_mod::lemma_small_mod((ts - m) as nat, ts as nat);
            assert(lo + offset - reference == ts * (d / ts + 1)) by (nonlinear_arith)
                requires
                    d == lo - reference,
                    d == ts * (d / ts) + m,
                    offset == ts - m,
            ;
            vstd::arithmetic::div_mod::lemma_mod_multiples_basic(d / ts + 1, ts);
            assert(ts * (d / ts + 1) == (d / ts + 1) * ts) by (nonlinear_arith);
        }
    }
}

proof fn lemma_multiple(d: int, ts: int)
    requires
        ts >= 1,
        d % ts == 0,
    ensures
        d == (d / ts) * ts,
{
    vstd::arithmetic::div_mod::lemma_fundamental_div_mod(d, ts);
    assert(ts * (d / ts) == (d / ts) * ts) by (nonlinear_arith);
}

/// Two bar starts are at least a bar apart.
proof fn lemma_apart(j: int, k: int, reference: int, ts: int)
    requires
        ts >= 1,
        j < k,
        (j - reference) % ts == 0,
        (k - reference) % ts == 0,
    ensures
        j + ts <= k,
{
    lemma_multiple(j - reference, ts);
    lemma_multiple(k - reference, ts);
    let a = (j - reference) / ts;
    let b = (k - reference) / ts;
    assert(b - a >= 1) by (nonlinear_arith)
        requires
            ts >= 1,
            j < k,
            j - reference == a * ts,
            k - reference == b * ts,
    ;
    assert((b - a) * ts >= ts) by (nonlinear_arith)
        requires
            b - a >= 1,
            ts >= 1,
    ;
    assert(k - j == (b - a) * ts) by (nonlinear_arith)
        requires
            j - reference == a * ts,
            k - reference == b * ts,
    ;
}

/// A bar behind a bar start is a bar start.
proof fn lemma_next(j: int, reference: int, ts: int)
    requires
        ts >= 1,
        (j - reference) % ts == 0,
    ensures
        (j + ts - reference) % ts == 0,
{
    lemma_multiple(j - reference, ts);
    let a = (j - reference) / ts;
    assert(j + ts - reference == (a + 1) * ts) by (nonlinear_arith)
        requires
            j - reference == a * ts,
    ;
    vstd::arithmetic::div_mod::lemma_mod_multiples_basic(a + 1, ts);
}

/// Downbeats are places of real beats, in order, none twice.
pub proof fn law_downbeats_are_beats_in_order(times: Seq<Binary64>, segments: Seq<TempoSegment>, n: nat)
    requires
        n <= times.len() <= usize::MAX,
    ensures
        forall|i: int| 0 <= i < downbeats(times, segments, n).len() ==> #[trigger] downbeats(times, segments, n)[i] < n,
        forall|i: int, j: int|
            0 <= i < j < downbeats(times, segments, n).len() ==> downbeats(times, segments, n)[i] < downbeats(
                times,
                segments,
                n,
            )[j],
    decreases n,
{
    if n > 0 {
        law_downbeats_are_beats_in_order(times, segments, (n - 1) as nat);
        let earlier = downbeats(times, segments, (n - 1) as nat);
        let now = downbeats(times, segments, n);
        assert forall|i: int| 0 <= i < now.len() implies #[trigger] now[i] < n by {
            if i < earlier.len() {
                assert(now[i] == earlier[i]);
            }
        }
        assert forall|i: int, j: int| 0 <= i < j < now.len() implies now[i] < now[j] by {
            assert(now[i] == earlier[i]);
            if j < earlier.len() {
                assert(now[j] == earlier[j]);
            }
        }
    }
}

/// Bars are counted from one: a beat inside bar `k` is as many beats into it as
/// it is behind its downbeat, and before the first downbeat the bar is 0 and
/// the beats that remain are counted.
pub proof fn law_bars_count_from_one(bars: Seq<usize>, k: int, current: int)
    requires
        0 <= k < bars.len() <= usize::MAX,
        forall|i: int, j: int| 0 <= i < j < bars.len() ==> bars[i] < bars[j],
        -1 <= current < usize::MAX,
    ensures
        bars[k] <= current && (k + 1 < bars.len() ==> current < bars[k + 1]) ==> position(bars, current).bar == k + 1
            && position(bars, current).beat == current - bars[k] + 1,
        current < bars[0] && bars[0] - current <= usize::MAX ==> position(bars, current).bar == 0 && position(
            bars,
            current,
        ).beat == bars[0] - current,
{
    if bars[k] <= current && (k + 1 < bars.len() ==> current < bars[k + 1]) {
        assert forall|i: int| 0 <= i < bars.len() && i < k + 1 implies #[trigger] bars[i] <= current by {
            if i < k {
                assert(bars[i] < bars[k]);
            }
        }
        assert forall|i: int| k + 1 <= i < bars.len() implies #[trigger] bars[i] > current by {
            if k + 1 < i {
                assert(bars[k + 1] < bars[i]);
            }
        }
        lemma_indices_until(bars, current, k + 1, bars.len());
    }
    if current < bars[0] {
        assert forall|i: int| 0 <= i < bars.len() implies #[trigger] bars[i] > current by {
            if 0 < i {
                assert(bars[0] < bars[i]);
            }
        }
        lemma_indices_until(bars, current, 0, bars.len());
    }
}

/// Whether a bar length is one to walk in.
pub open spec fn walkable(bar: Binary64) -> bool {
    bar.finite() && !bar.spec_le(zero())
}

/// The times from `t` up to `limit` in steps of `bar`; the walk ends where a
/// step does not lead on any more.
pub open spec fn walk(t: Binary64, bar: Binary64, limit: Binary64) -> Seq<Binary64>
    decreases 0x8000_0000_0000_0000 - t.rank(),
{
    if !t.spec_le(limit) {
        seq![]
    } else if !t.spec_lt(sum(t, bar)) {
        seq![t]
    } else {
        seq![t] + walk(sum(t, bar), bar, limit)
    }
}

/// The bar starts of a segment, by its tempo alone.
pub open spec fn tempo_bars(segment: TempoSegment) -> Seq<Binary64> {
    let first = larger(segment.inizio, zero());
    if walkable(segment.spec_bar_period()) {
        walk(first, segment.spec_bar_period(), sum(larger(segment.end, first), micro()))
    } else {
        seq![]
    }
}

/// The bar starts of the first `n` segments, by their tempo alone.
pub open spec fn all_tempo_bars(segments: Seq<TempoSegment>, n: nat) -> Seq<Binary64>
    decreases n,
{
    if n == 0 {
        seq![]
    } else {
        all_tempo_bars(segments, (n - 1) as nat) + tempo_bars(segments[n - 1])
    }
}

/// The first `n` times, without those less than a nanosecond from the one kept
/// before them.
pub open spec fn thinned(times: Seq<Binary64>, n: nat) -> Seq<Binary64>
    decreases n,
{
    if n == 0 {
        seq![]
    } else {
        let kept = thinned(times, (n - 1) as nat);
        if kept.len() > 0 && absolute(difference(times[n - 1], kept.last())).spec_lt(nano()) {
            kept
        } else {
            kept.push(times[n - 1])
        }
    }
}

/// Puts the bar starts of a segment, by its tempo alone, behind others.
fn push_tempo_bars(out: &mut Vec<Binary64>, segment: TempoSegment)
    ensures
        final(out)@ == old(out)@ + tempo_bars(segment),
{
    let ghost was = out@;
    let ghost goal = was + tempo_bars(segment);
    let bar: Binary64 = segment.bar_period();
    if !bar.is_finite() || bar.le(zero()) {
        assert(out@ =~= goal);
        return;
    }
    let first: Binary64 = segment.inizio.max(zero());
    let limit: Binary64 = segment.end.max(first).plus(micro());
    let mut t: Binary64 = first;
    let mut going: bool = true;
    while going && t.le(limit)
        invariant
            going ==> out@ + walk(t, bar, limit) == goal,
            !going ==> out@ == goal,
        decreases 0x8000_0000_0000_0000 - t.rank() + (if going {
            1int
        } else {
            0int
        }),
    {
        let next: Binary64 = t.plus(bar);
        let ghost earlier = out@;
        out.push(t);
        if t.lt(next) {
            assert(earlier + (seq![t] + walk(next, bar, limit)) =~= out@ + walk(next, bar, limit));
            t = next;
        } else {
            assert(earlier + seq![t] =~= out@);
            going = false;
        }
    }
    assert(out@ =~= goal);
}

/// Downbeat times synthesised from tempo alone, for when no beats were detected.
///
/// This walks forward in seconds and therefore accumulates error: it is a
/// fallback for when there is no beat array to index into.
pub fn synthesize_downbeat_times(segments: &Vec<TempoSegment>) -> (r: Vec<Binary64>)
    ensures
        r@ == thinned(
            ascending(all_tempo_bars(segments@, segments@.len())),
            all_tempo_bars(segments@, segments@.len()).len(),
        ),
{
    let mut all: Vec<Binary64> = Vec::new();
    let mut i: usize = 0;
    while i < segments.len()
        invariant
            i <= segments@.len(),
            all@ == all_tempo_bars(segments@, i as nat),
        decreases segments@.len() - i,
    {
        push_tempo_bars(&mut all, segments[i]);
        i = i + 1;
    }
    let mut keys: Vec<i128> = Vec::new();
    let mut k: usize = 0;
    while k < all.len()
        invariant
            k <= all@.len(),
            keys@ == ranks(all@).take(k as int),
        decreases all@.len() - k,
    {
        keys.push(all[k].rank_key());
        k = k + 1;
        assert(keys@ =~= ranks(all@).take(k as int));
    }
    assert(keys@ =~= ranks(all@));
    let order: Vec<usize> = stable_order(&keys);
    let ghost sorted = ascending(all@);
    let mut out: Vec<Binary64> = Vec::new();
    let mut j: usize = 0;
    while j < order.len()
        invariant
            j <= order@.len(),
            visits_each_once(order@, all@.len()),
            sorted == arranged(all@, order@),
            out@ == thinned(sorted, j as nat),
        decreases order@.len() - j,
    {
        let t: Binary64 = all[order[j]];
        let count: usize = out.len();
        let near: bool = count > 0 && t.minus(out[count - 1]).abs().lt(nano());
        if !near {
            out.push(t);
        }
        j = j + 1;
    }
    out
}

proof fn lemma_split(times: Seq<Binary64>, time: Binary64, n: nat) -> (r: (int, int))
    requires
        is_timeline(times),
        n <= times.len(),
    ensures
        0 <= r.0 <= r.1 <= n,
        forall|i: int| 0 <= i < r.0 ==> (#[trigger] times[i]).spec_lt(time),
        forall|i: int| r.0 <= i < n ==> !(#[trigger] times[i]).spec_lt(time),
        forall|i: int| 0 <= i < r.1 ==> (#[trigger] times[i]).spec_le(time),
        forall|i: int| r.1 <= i < n ==> !(#[trigger] times[i]).spec_le(time),
    decreases n,
{
    if n == 0 {
        (0, 0)
    } else {
        let (a, b) = lemma_split(times, time, (n - 1) as nat);
        let last = times[n - 1];
        assert forall|i: int| 0 <= i < n implies (#[trigger] times[i]).rank() <= last.rank() by {
            if i < n - 1 {
                assert(times[i].rank() <= times[n - 1].rank());
            }
        }
        assert(last.finite());
        (
            if last.spec_lt(time) {
                n as int
            } else {
                a
            },
            if last.spec_le(time) {
                n as int
            } else {
                b
            },
        )
    }
}

/// A time splits the beats: those before it come first, and likewise those not
/// behind it. So the beat that a time is on is the last one not behind it.
pub proof fn law_a_time_splits_the_beats(times: Seq<Binary64>, time: Binary64)
    requires
        is_timeline(times),
    ensures
        before(times, time) <= until(times, time) <= times.len(),
        forall|i: int| 0 <= i < times.len() ==> (i < before(times, time) <==> (#[trigger] times[i]).spec_lt(time)),
        forall|i: int| 0 <= i < times.len() ==> (i < until(times, time) <==> (#[trigger] times[i]).spec_le(time)),
{
    let (a, b) = lemma_split(times, time, times.len());
    lemma_count_before(times, time, a, times.len());
    lemma_count_until(times, time, b, times.len());
}

/// The distance of numbers on one side of another grows away from it.
proof fn lemma_distance_grows(a: Binary64, b: Binary64, time: Binary64)
    requires
        a.finite() && b.finite() && time.finite(),
        a.spec_le(b) && b.spec_le(time) || time.spec_le(b) && b.spec_le(a),
    ensures
        absolute(difference(b, time)).spec_le(absolute(difference(a, time))),
{
    let c = negated(time);
    law_comparison_is_numeric(b, time);
    law_comparison_is_numeric(time, b);
    assert(c.finite() && c.units() == -time.units());
    if a.spec_le(b) {
        law_addition_keeps_the_order(a, b, c);
    }
    if b.spec_le(a) {
        law_addition_keeps_the_order(b, a, c);
    }
    assert(b.units() + c.units() <= 0 ==> difference(b, time).rank() <= 0);
    assert(b.units() + c.units() >= 0 ==> difference(b, time).rank() >= 0);
    law_comparison_is_numeric(a, time);
    law_comparison_is_numeric(time, a);
    assert(a.units() + c.units() <= 0 ==> difference(a, time).rank() <= 0);
    assert(a.units() + c.units() >= 0 ==> difference(a, time).rank() >= 0);
}

/// No beat is nearer to a time than the nearest one.
pub proof fn law_no_beat_is_nearer(times: Seq<Binary64>, time: Binary64, i: int)
    requires
        is_timeline(times),
        time.finite(),
        0 <= i < times.len(),
    ensures
        nearest(times, time) < times.len(),
        absolute(difference(times[nearest(times, time) as int], time)).spec_le(absolute(difference(times[i], time))),
{
    law_a_time_splits_the_beats(times, time);
    let place = before(times, time) as int;
    let n = times.len() as int;
    assert forall|k: int| 0 <= k < n implies (#[trigger] times[k]).finite() by {}
    assert(times[i].finite());
    if place > 0 {
        let a = times[place - 1];
        assert(a.spec_lt(time));
        if i < place {
            if i < place - 1 {
                assert(times[i].rank() <= times[place - 1].rank());
            }
            lemma_distance_grows(times[i], a, time);
        }
        lemma_distance_grows(a, a, time);
    }
    if place < n {
        let b = times[place];
        assert(!b.spec_lt(time));
        if i >= place {
            if i > place {
                assert(times[place].rank() <= times[i].rank());
            }
            lemma_distance_grows(times[i], b, time);
        }
        lemma_distance_grows(b, b, time);
    }
}

/// The beat nearest to the reference of a segment starts a bar, where it is a
/// beat of the segment.
pub proof fn law_the_reference_starts_a_bar(times: Seq<Binary64>, segments: Seq<TempoSegment>, s: int)
    requires
        0 <= s < segments.len(),
        before(times, segments[s].start) <= nearest(times, segments[s].inizio) < before(times, segments[s].end),
    ensures
        is_downbeat(times, segments, nearest(times, segments[s].inizio) as int),
{
    let j = nearest(times, segments[s].inizio) as int;
    assert(usable(times, segments[s]));
    assert(0int % meter(segments[s]) == 0) by {
        vstd::arithmetic::div_mod::lemma_small_mod(0, meter(segments[s]) as nat);
    }
    assert(starts_bar(times, segments[s], j));
}

/// In a track of one segment, a beat of that segment starts a bar just when it
/// is a whole number of bars from the beat nearest to the reference; no beat
/// outside of the segment does.
pub proof fn law_bars_repeat_by_the_meter(times: Seq<Binary64>, segment: TempoSegment, j: int)
    requires
        before(times, segment.start) < before(times, segment.end),
        segment.time_signature >= 1,
    ensures
        before(times, segment.start) <= j < before(times, segment.end) ==> (is_downbeat(times, seq![segment], j) <==> (j
            - nearest(times, segment.inizio)) % (segment.time_signature as int) == 0),
        !(before(times, segment.start) <= j < before(times, segment.end)) ==> !is_downbeat(times, seq![segment], j),
{
    let all = seq![segment];
    assert(all[0] == segment);
    assert(usable(times, all[0]));
    if is_downbeat(times, all, j) {
        let s = choose|s: int| 0 <= s < all.len() && #[trigger] starts_bar(times, all[s], j);
        assert(s == 0);
    }
    if starts_bar(times, segment, j) {
        assert(starts_bar(times, all[0], j));
    }
}

/// Without a segment that has beats, every fourth beat starts a bar, from the
/// first on.
pub proof fn law_bars_of_four_by_default(times: Seq<Binary64>, segments: Seq<TempoSegment>, j: int)
    requires
        forall|s: int|
            0 <= s < segments.len() ==> before(times, (#[trigger] segments[s]).start) >= before(times, segments[s].end),
    ensures
        is_downbeat(times, segments, j) <==> j % 4 == 0,
{
    if any_usable(times, segments) {
        let s = choose|s: int| 0 <= s < segments.len() && usable(times, #[trigger] segments[s]);
        assert(before(times, segments[s].start) >= before(times, segments[s].end));
    }
}

/// The downbeats are the beats that start a bar, and no others.
pub proof fn law_downbeats_start_bars(times: Seq<Binary64>, segments: Seq<TempoSegment>, n: nat, j: usize)
    requires
        n <= times.len() <= usize::MAX,
        j < n,
    ensures
        downbeats(times, segments, n).contains(j) <==> is_downbeat(times, segments, j as int),
    decreases n,
{
    let earlier = downbeats(times, segments, (n - 1) as nat);
    let now = downbeats(times, segments, n);
    if j < n - 1 {
        law_downbeats_start_bars(times, segments, (n - 1) as nat, j);
        if earlier.contains(j) {
            assert(now[earlier.index_of(j)] == j);
        }
        if now.contains(j) {
            let i = now.index_of(j);
            if i < earlier.len() {
                assert(earlier[i] == j);
            }
        }
    } else {
        law_downbeats_are_beats_in_order(times, segments, (n - 1) as nat);
        if is_downbeat(times, segments, n - 1) {
            assert(now[earlier.len() as int] == j);
        } else if now.contains(j) {
            assert(earlier[now.index_of(j)] == j);
        }
    }
}

/// A grid keeps every beat that is a finite time, and only those.
pub proof fn law_grids_keep_the_finite_beats(beats: Seq<Binary64>, n: nat, t: Binary64)
    requires
        n <= beats.len() <= usize::MAX,
    ensures
        ascending(finite_ones(beats, n)).contains(t) <==> t.finite() && beats.take(n as int).contains(t),
{
    lemma_finite_ones(beats, n);
    lemma_finite_kept(beats, n, t);
    let kept = finite_ones(beats, n);
    let keys = ranks(kept);
    law_order_is_stable(keys, keys.len());
    let order = in_order(keys);
    let sorted = ascending(kept);
    if sorted.contains(t) {
        let i = sorted.index_of(t);
        assert(kept[order[i] as int] == t);
    }
    if kept.contains(t) {
        let k = kept.index_of(t);
        assert(order.contains(k as usize));
        let i = order.index_of(k as usize);
        assert(sorted[i] == t);
    }
}

proof fn lemma_finite_kept(beats: Seq<Binary64>, n: nat, t: Binary64)
    requires
        n <= beats.len(),
    ensures
        finite_ones(beats, n).contains(t) <==> t.finite() && beats.take(n as int).contains(t),
    decreases n,
{
    if n > 0 {
        let m = (n - 1) as nat;
        lemma_finite_kept(beats, m, t);
        let earlier = finite_ones(beats, m);
        let now = finite_ones(beats, n);
        assert(beats.take(n as int) =~= beats.take(m as int).push(beats[n - 1]));
        if earlier.contains(t) {
            assert(now[earlier.index_of(t)] == t);
        }
        if beats.take(m as int).contains(t) {
            assert(beats.take(n as int)[beats.take(m as int).index_of(t)] == t);
        }
        if beats[n - 1] == t {
            assert(beats.take(n as int)[n - 1] == t);
            if t.finite() {
                assert(now[earlier.len() as int] == t);
            }
        }
        if now.contains(t) && t != beats[n - 1] {
            assert(earlier[now.index_of(t)] == t);
        }
        if beats.take(n as int).contains(t) && t != beats[n - 1] {
            assert(beats.take(m as int)[beats.take(n as int).index_of(t)] == t);
        }
    }
}

/// Bars that are laid by tempo alone start at the reference, or at zero where
/// that is before the track, and go on a bar at a time.
pub proof fn law_tempo_bars_are_a_bar_apart(segment: TempoSegment)
    ensures
        ({
            let bars = tempo_bars(segment);
            let bar = product(quotient(of_int(60), segment.bpm), of_int(segment.time_signature as int));
            &&& bars.len() > 0 ==> bars[0] == larger(segment.inizio, zero())
            &&& forall|j: int, k: int|
                0 <= j < k < bars.len() && k == j + 1 ==> #[trigger] bars[k] == sum(#[trigger] bars[j], bar)
            &&& forall|k: int|
                0 <= k < bars.len() ==> (#[trigger] bars[k]).spec_le(
                    sum(larger(segment.end, larger(segment.inizio, zero())), micro()),
                )
        }),
{
    let first = larger(segment.inizio, zero());
    if walkable(segment.spec_bar_period()) {
        lemma_walk(first, segment.spec_bar_period(), sum(larger(segment.end, first), micro()));
    }
}

/// Times from `t` on are a step apart and not past the limit.
pub proof fn lemma_walk(t: Binary64, bar: Binary64, limit: Binary64)
    ensures
        walk(t, bar, limit).len() > 0 ==> walk(t, bar, limit)[0] == t,
        forall|j: int, k: int|
            0 <= j < k < walk(t, bar, limit).len() && k == j + 1 ==> #[trigger] walk(t, bar, limit)[k] == sum(
                #[trigger] walk(t, bar, limit)[j],
                bar,
            ),
        forall|k: int| 0 <= k < walk(t, bar, limit).len() ==> (#[trigger] walk(t, bar, limit)[k]).spec_le(limit),
    decreases 0x8000_0000_0000_0000 - t.rank(),
{
    if t.spec_le(limit) && t.spec_lt(sum(t, bar)) {
        let next = sum(t, bar);
        lemma_walk(next, bar, limit);
        let rest = walk(next, bar, limit);
        let now = walk(t, bar, limit);
        assert(now =~= seq![t] + rest);
        assert forall|j: int, k: int| 0 <= j < k < now.len() && k == j + 1 implies #[trigger] now[k] == sum(
            #[trigger] now[j],
            bar,
        ) by {
            assert(now[k] == rest[k - 1]);
            if j > 0 {
                assert(now[j] == rest[j - 1]);
            }
        }
        assert forall|k: int| 0 <= k < now.len() implies (#[trigger] now[k]).spec_le(limit) by {
            if k > 0 {
                assert(now[k] == rest[k - 1]);
            }
        }
    }
}

} // verus!
