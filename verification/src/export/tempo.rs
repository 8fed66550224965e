//! `TEMPO` elements: the beatgrid Rekordbox draws over the waveform.
//!
//! Rekordbox describes a beatgrid as a list of anchors. Each anchor says
//! "at time `Inizio` there is a beat, the tempo from here is `Bpm`, the bar has
//! `Metro` beats, and this beat is number `Battito` within its bar". One
//! tempo segment becomes exactly one anchor.

use crate::domain::segments::{TempoSegment, DEFAULT_TIME_SIGNATURE};
use crate::export::xml::{Element, Node};
use crate::number::binary64::{absolute, difference, nano, of_int, product, quotient, sum, zero, Binary64};
use crate::number::fixed::{fixed, fixed_text};
use crate::number::integral::{ceiled, nearest_integer, signed_truncated};
use crate::order::{arranged, in_order, law_order_is_stable, stable_order, visits_each_once};
use crate::text::{decimal, decimal_text};
use vstd::prelude::*;

verus! {

/// One `TEMPO` anchor.
#[derive(Debug, Clone, Copy, PartialEq, Structural)]
pub struct TempoEntry {
    /// Time of the first grid beat at or after the segment start, in seconds.
    pub inizio: Binary64,
    /// Tempo from this anchor onwards.
    pub bpm: Binary64,
    /// Beats per bar; written as `Metro="{time_signature}/4"`.
    pub time_signature: u8,
    /// Which beat of the bar `inizio` is, 1-based.
    pub battito: u8,
}

/// Whether a segment can describe a grid: its start is a time of the track and
/// its tempo is positive.
pub open spec fn has_grid(segment: TempoSegment) -> bool {
    segment.start.finite() && !segment.start.spec_lt(zero()) && segment.bpm.finite() && !segment.bpm.spec_le(zero())
}

/// The reference downbeat; the start where it is no time of the track.
pub open spec fn downbeat_of(segment: TempoSegment) -> Binary64 {
    if segment.inizio.finite() && zero().spec_le(segment.inizio) {
        segment.inizio
    } else {
        segment.start
    }
}

/// An offset in beats as a whole number: the nearest one where it is a rounding
/// error away, the next one above otherwise.
pub open spec fn snapped(offset: Binary64) -> Binary64 {
    if absolute(difference(offset, nearest_integer(offset))).spec_le(nano()) {
        nearest_integer(offset)
    } else {
        ceiled(offset)
    }
}

/// An integer cut into the range of `i32`.
pub open spec fn cut_to_i32(n: int) -> int {
    if n < -0x8000_0000 {
        -0x8000_0000
    } else if n > 0x7FFF_FFFF {
        0x7FFF_FFFF
    } else {
        n
    }
}

/// The whole beats from the reference downbeat to the first beat of a segment.
pub open spec fn beats_to_start(segment: TempoSegment) -> int {
    let offset = quotient(difference(segment.start, downbeat_of(segment)), segment.spec_beat_period());
    if offset.finite() {
        cut_to_i32(signed_truncated(snapped(offset)))
    } else {
        0
    }
}

/// The beats per bar of a segment, at least one.
pub open spec fn bar_length(segment: TempoSegment) -> u8 {
    if segment.time_signature >= 1 {
        segment.time_signature
    } else {
        1
    }
}

/// The anchor of a segment that can describe a grid.
pub open spec fn anchor(segment: TempoSegment) -> TempoEntry {
    TempoEntry {
        inizio: sum(downbeat_of(segment), product(of_int(beats_to_start(segment)), segment.spec_beat_period())),
        bpm: segment.bpm,
        time_signature: bar_length(segment),
        battito: (beats_to_start(segment) % (bar_length(segment) as int) + 1) as u8,
    }
}

/// An anchor is on a beat of its bar, counted from one.
pub proof fn law_anchor_is_inside_its_bar(segment: TempoSegment)
    ensures
        1 <= anchor(segment).battito <= anchor(segment).time_signature,
        anchor(segment).battito == beats_to_start(segment) % (bar_length(segment) as int) + 1,
{
    vstd::arithmetic::div_mod::lemma_mod_bound(beats_to_start(segment), bar_length(segment) as int);
}

/// The `TEMPO` element of an anchor.
pub open spec fn entry_node(entry: TempoEntry) -> Node {
    Node {
        name: "TEMPO"@,
        attributes: seq![
            ("Inizio"@, fixed(entry.inizio, 3)),
            ("Bpm"@, fixed(entry.bpm, 2)),
            ("Metro"@, decimal(entry.time_signature as nat) + "/4"@),
            ("Battito"@, decimal(entry.battito as nat)),
        ],
        children: seq![],
    }
}

impl TempoEntry {
    /// Derives the anchor for one segment, or `None` when the segment cannot
    /// describe a grid (non-finite or negative start, non-positive tempo).
    ///
    /// The anchor beat is found by stepping from the segment's downbeat in
    /// whole beats until reaching the segment start.
    pub fn from_segment(segment: &TempoSegment) -> (r: Option<Self>)
        ensures
            r is Some <==> has_grid(*segment),
            r is Some ==> r->0 == anchor(*segment),
    {
        if !segment.start.is_finite() || segment.start.lt(zero()) || !segment.bpm.is_finite() || segment.bpm.le(zero()) {
            return None;
        }
        let period: Binary64 = segment.beat_period();
        let downbeat: Binary64 = if segment.inizio.is_finite() && zero().le(segment.inizio) {
            segment.inizio
        } else {
            segment.start
        };
        let offset: Binary64 = segment.start.minus(downbeat).over(period);
        let beats: i64 = if offset.is_finite() {
            let near: Binary64 = offset.round();
            let whole: Binary64 = if offset.minus(near).abs().le(nano()) {
                near
            } else {
                offset.ceil()
            };
            let n: i64 = whole.to_i64();
            if n < -0x8000_0000 {
                -0x8000_0000
            } else if n > 0x7FFF_FFFF {
                0x7FFF_FFFF
            } else {
                n
            }
        } else {
            0
        };
        assert(beats == beats_to_start(*segment));
        let first_beat: Binary64 = downbeat.plus(Binary64::from_i64(beats).times(period));
        let time_signature: u8 = if segment.time_signature >= 1 {
            segment.time_signature
        } else {
            1
        };
        let bar: i64 = time_signature as i64;
        let rest: i64 = if beats >= 0 {
            beats % bar
        } else {
            bar - 1 - (-1 - beats) % bar
        };
        proof {
            lemma_euclid(beats as int, bar as int, rest as int);
        }
        Some(TempoEntry { inizio: first_beat, bpm: segment.bpm, time_signature, battito: (rest + 1) as u8 })
    }

    /// Renders as a `TEMPO` element.
    pub fn to_element(self) -> (r: Element)
        ensures
            r@ == entry_node(self),
    {
        let inizio: String = fixed_text(self.inizio, 3);
        let bpm: String = fixed_text(self.bpm, 2);
        let mut metro: String = decimal_text(self.time_signature as u64);
        metro.push_str("/4");
        let battito: String = decimal_text(self.battito as u64);
        let r: Element = Element::new("TEMPO").attr("Inizio", inizio.as_str()).attr("Bpm", bpm.as_str()).attr(
            "Metro",
            metro.as_str(),
        ).attr("Battito", battito.as_str());
        assert(r@.attributes =~= entry_node(self).attributes);
        r
    }
}

proof fn lemma_euclid(n: int, bar: int, rest: int)
    requires
        bar >= 1,
        n >= 0 ==> rest == n % bar,
        n < 0 ==> rest == bar - 1 - (-1 - n) % bar,
    ensures
        rest == n % bar,
        0 <= rest < bar,
{
    vstd::arithmetic::div_mod::lemma_mod_bound(n, bar);
    if n < 0 {
        let m = -1 - n;
        vstd::arithmetic::div_mod::lemma_mod_bound(m, bar);
        vstd::arithmetic::div_mod::lemma_fundamental_div_mod(m, bar);
        let q = m / bar;
        assert(n == bar * (-1 - q) + rest) by (nonlinear_arith)
            requires
                m == -1 - n,
                m == bar * q + m % bar,
                rest == bar - 1 - m % bar,
        ;
        vstd::arithmetic::div_mod::lemma_fundamental_div_mod_converse(n, bar, -1 - q, rest);
    }
}

/// The anchors of the first `n` segments, as they come.
pub open spec fn anchors(segments: Seq<TempoSegment>, n: nat) -> Seq<TempoEntry>
    decreases n,
{
    if n == 0 {
        seq![]
    } else {
        let before = anchors(segments, (n - 1) as nat);
        if has_grid(segments[n - 1]) {
            before.push(anchor(segments[n - 1]))
        } else {
            before
        }
    }
}

/// The anchors of a track, or a flat grid where no segment yields one and there
/// is a tempo to fall back on.
pub open spec fn anchors_or_flat(segments: Seq<TempoSegment>, fallback_bpm: Binary64) -> Seq<TempoEntry> {
    let all = anchors(segments, segments.len());
    if all.len() == 0 && fallback_bpm.finite() && zero().spec_lt(fallback_bpm) {
        seq![
            TempoEntry {
                inizio: zero(),
                bpm: fallback_bpm,
                time_signature: DEFAULT_TIME_SIGNATURE,
                battito: 1,
            },
        ]
    } else {
        all
    }
}

/// Sort keys that put anchors in the order of their times.
pub open spec fn anchor_keys(entries: Seq<TempoEntry>) -> Seq<i128> {
    Seq::new(entries.len(), |i: int| entries[i].inizio.total_rank() as i128)
}

/// The anchors by time, equal times as they come.
pub open spec fn by_inizio(entries: Seq<TempoEntry>) -> Seq<TempoEntry> {
    arranged(entries, in_order(anchor_keys(entries)))
}

/// Builds the anchors for a track, sorted by time.
///
/// When no segment yields an anchor, a single flat-grid anchor at 0 s is
/// emitted for `fallback_bpm`, where that is positive, so the track still has
/// a usable grid.
pub fn tempo_entries(segments: &Vec<TempoSegment>, fallback_bpm: Binary64) -> (r: Vec<TempoEntry>)
    ensures
        r@ == by_inizio(anchors_or_flat(segments@, fallback_bpm)),
{
    let mut all: Vec<TempoEntry> = Vec::new();
    let mut i: usize = 0;
    while i < segments.len()
        invariant
            i <= segments@.len(),
            all@ == anchors(segments@, i as nat),
        decreases segments@.len() - i,
    {
        match TempoEntry::from_segment(&segments[i]) {
            Some(entry) => {
                all.push(entry);
            },
            None => {},
        }
        i = i + 1;
    }
    if all.len() == 0 && fallback_bpm.is_finite() && zero().lt(fallback_bpm) {
        all.push(
            TempoEntry {
                inizio: zero(),
                bpm: fallback_bpm,
                time_signature: DEFAULT_TIME_SIGNATURE,
                battito: 1,
            },
        );
    }
    assert(all@ =~= anchors_or_flat(segments@, fallback_bpm));
    let mut keys: Vec<i128> = Vec::new();
    let mut k: usize = 0;
    while k < all.len()
        invariant
            k <= all@.len(),
            keys@ == anchor_keys(all@).take(k as int),
        decreases all@.len() - k,
    {
        keys.push(all[k].inizio.total_key());
        k = k + 1;
        assert(keys@ =~= anchor_keys(all@).take(k as int));
    }
    assert(keys@ =~= anchor_keys(all@));
    let order: Vec<usize> = stable_order(&keys);
    let ghost want = by_inizio(all@);
    let mut out: Vec<TempoEntry> = Vec::new();
    let mut j: usize = 0;
    while j < order.len()
        invariant
            j <= order@.len(),
            visits_each_once(order@, all@.len()),
            want == arranged(all@, order@),
            out@ == want.take(j as int),
        decreases order@.len() - j,
    {
        out.push(all[order[j]]);
        j = j + 1;
        assert(out@ =~= want.take(j as int));
    }
    assert(out@ =~= want);
    out
}

/// Anchors come out in the order of their times.
pub proof fn law_anchors_go_by_time(entries: Seq<TempoEntry>)
    requires
        entries.len() <= usize::MAX,
    ensures
        by_inizio(entries).len() == entries.len(),
        forall|i: int, j: int|
            0 <= i < j < entries.len() ==> by_inizio(entries)[i].inizio.total_rank() <= by_inizio(
                entries,
            )[j].inizio.total_rank(),
{
    let keys = anchor_keys(entries);
    let order = in_order(keys);
    law_order_is_stable(keys, keys.len());
    let out = by_inizio(entries);
    assert forall|i: int, j: int| 0 <= i < j < entries.len() implies out[i].inizio.total_rank()
        <= out[j].inizio.total_rank() by {
        assert(keys[order[i] as int] <= keys[order[j] as int]);
    }
}

proof fn lemma_anchor_kept(segments: Seq<TempoSegment>, n: nat, i: int) -> (k: int)
    requires
        0 <= i < n <= segments.len(),
        has_grid(segments[i]),
    ensures
        0 <= k < anchors(segments, n).len(),
        anchors(segments, n)[k] == anchor(segments[i]),
    decreases n,
{
    if i == n - 1 {
        anchors(segments, n).len() - 1
    } else {
        lemma_anchor_kept(segments, (n - 1) as nat, i)
    }
}

proof fn lemma_anchor_from(segments: Seq<TempoSegment>, n: nat, k: int) -> (i: int)
    requires
        n <= segments.len(),
        0 <= k < anchors(segments, n).len(),
    ensures
        0 <= i < n,
        has_grid(segments[i]),
        anchors(segments, n)[k] == anchor(segments[i]),
    decreases n,
{
    if n == 0 {
        0
    } else if has_grid(segments[n - 1]) && k == anchors(segments, n).len() - 1 {
        n - 1
    } else {
        lemma_anchor_from(segments, (n - 1) as nat, k)
    }
}

proof fn lemma_anchors_len(segments: Seq<TempoSegment>, n: nat)
    requires
        n <= segments.len(),
    ensures
        anchors(segments, n).len() <= n,
    decreases n,
{
    if n > 0 {
        lemma_anchors_len(segments, (n - 1) as nat);
    }
}

/// Each segment with a start on the track and a positive tempo has an entry of
/// its tempo and time signature.
pub proof fn law_each_tempo_is_exported(segments: Seq<TempoSegment>, fallback_bpm: Binary64, i: int) -> (entry: TempoEntry)
    requires
        segments.len() <= usize::MAX,
        0 <= i < segments.len(),
        segments[i].start.finite() && !segments[i].start.spec_lt(zero()),
        segments[i].bpm.finite() && !segments[i].bpm.spec_le(zero()),
    ensures
        by_inizio(anchors_or_flat(segments, fallback_bpm)).contains(entry),
        entry.bpm == segments[i].bpm,
        segments[i].time_signature >= 1 ==> entry.time_signature == segments[i].time_signature,
        1 <= entry.battito <= entry.time_signature,
{
    let all = anchors_or_flat(segments, fallback_bpm);
    let k = lemma_anchor_kept(segments, segments.len(), i);
    lemma_anchors_len(segments, segments.len());
    let keys = anchor_keys(all);
    let order = in_order(keys);
    law_order_is_stable(keys, keys.len());
    assert(order.contains(k as usize));
    let p = choose|p: int| 0 <= p < order.len() && order[p] == k as usize;
    assert(by_inizio(all)[p] == anchor(segments[i]));
    law_anchor_is_inside_its_bar(segments[i]);
    anchor(segments[i])
}

/// Each entry has the tempo of a segment, or the fallback where no segment has a
/// tempo to give.
pub proof fn law_exported_tempos_are_given(segments: Seq<TempoSegment>, fallback_bpm: Binary64, k: int)
    requires
        segments.len() <= usize::MAX,
        0 <= k < by_inizio(anchors_or_flat(segments, fallback_bpm)).len(),
    ensures
        ({
            let entry = by_inizio(anchors_or_flat(segments, fallback_bpm))[k];
            ||| exists|i: int| 0 <= i < segments.len() && has_grid(#[trigger] segments[i]) && entry.bpm == segments[i].bpm
            ||| entry.bpm == fallback_bpm && entry.inizio == zero() && entry.battito == 1 && (forall|i: int|
                0 <= i < segments.len() ==> !has_grid(#[trigger] segments[i]))
        }),
{
    let all = anchors_or_flat(segments, fallback_bpm);
    lemma_anchors_len(segments, segments.len());
    let order = in_order(anchor_keys(all));
    law_order_is_stable(anchor_keys(all), anchor_keys(all).len());
    let entry = by_inizio(all)[k];
    let a = order[k] as int;
    assert(entry == all[a]);
    let found = anchors(segments, segments.len());
    if found.len() > 0 {
        let i = lemma_anchor_from(segments, segments.len(), a);
        assert(has_grid(segments[i]) && entry.bpm == segments[i].bpm);
    } else {
        assert forall|i: int| 0 <= i < segments.len() implies !has_grid(#[trigger] segments[i]) by {
            if has_grid(segments[i]) {
                let w = lemma_anchor_kept(segments, segments.len(), i);
            }
        }
    }
}

} // verus!
