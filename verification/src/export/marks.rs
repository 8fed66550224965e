//! `POSITION_MARK` elements: hot cues and memory cues.
//!
//! Rekordbox stores both kinds in the same element. `Num` distinguishes them:
//! `0..=7` are the eight hot-cue buttons A-H, and `-1` is a memory cue, an
//! unlimited list of markers the player can cycle through.
//!
//! Each jump cue takes the button its label names when that button is still
//! free, the remaining cues fill the buttons still unused, and anything left
//! over is written as a memory cue instead of colliding. Structural cue points
//! are always memory cues.

use crate::domain::cue::{CuePoint, Mark};
use crate::domain::jumpcue::{regions, JumpCue, Region, PAIR_COLORS};
use crate::export::xml::{Element, Node};
use crate::number::binary64::{zero, Binary64};
use crate::number::fixed::{fixed, fixed_text};
use crate::order::{
    arranged, in_order, join_keys, joint_key, law_joint_keys_order_pairs, law_order_is_stable, stable_order,
    visits_each_once,
};
use crate::text::{
    chars_of, copy_text, decimal, decimal_text, push_decimal, push_signed_decimal, signed_decimal, trim_text, trimmed,
};
use crate::unicode::{is_alphanumeric, to_upper, unicode_alphanumeric, unicode_upper};
use vstd::prelude::*;

verus! {

/// Number of hot-cue buttons a Rekordbox player has.
pub const HOT_CUE_SLOTS: usize = 8;

/// The button letters, in `Num` order.
pub const HOT_CUE_LETTERS: [char; 8] = ['A', 'B', 'C', 'D', 'E', 'F', 'G', 'H'];

/// The `Num` value Rekordbox uses for a memory cue.
pub const MEMORY_CUE_NUM: i32 = -1;

/// Colour for marks that carry none of their own.
pub const DEFAULT_MARK_COLOR: (u8, u8, u8) = (40, 226, 20);

/// One `POSITION_MARK`.
#[derive(Debug, PartialEq)]
pub struct PositionMark {
    /// Label shown on the player.
    pub name: String,
    /// Position in seconds from the start of the track.
    pub start: Binary64,
    /// Hot-cue button index `0..8`, or [`MEMORY_CUE_NUM`] for a memory cue.
    pub num: i32,
    /// RGB triple drawn on the waveform.
    pub color: (u8, u8, u8),
}

/// The contents of a position mark.
pub struct Marker {
    pub name: Seq<char>,
    pub start: Binary64,
    pub num: int,
    pub color: (u8, u8, u8),
}

impl View for PositionMark {
    type V = Marker;

    open spec fn view(&self) -> Marker {
        Marker { name: self.name@, start: self.start, num: self.num as int, color: self.color }
    }
}

impl Clone for PositionMark {
    fn clone(&self) -> (r: Self)
        ensures
            r@ == self@,
    {
        PositionMark { name: copy_text(self.name.as_str()), start: self.start, num: self.num, color: self.color }
    }
}

/// The contents of some position marks.
pub open spec fn markers(marks: Seq<PositionMark>) -> Seq<Marker> {
    Seq::new(marks.len(), |i: int| marks[i]@)
}

proof fn lemma_markers_push(marks: Seq<PositionMark>, mark: PositionMark)
    ensures
        markers(marks.push(mark)) == markers(marks).push(mark@),
{
    assert(markers(marks.push(mark)) =~= markers(marks).push(mark@));
}

/// The `POSITION_MARK` element of a mark.
pub open spec fn marker_node(marker: Marker) -> Node {
    Node {
        name: "POSITION_MARK"@,
        attributes: seq![
            ("Name"@, marker.name),
            ("Type"@, "0"@),
            ("Start"@, fixed(marker.start, 3)),
            ("Num"@, signed_decimal(marker.num)),
            ("Red"@, decimal(marker.color.0 as nat)),
            ("Green"@, decimal(marker.color.1 as nat)),
            ("Blue"@, decimal(marker.color.2 as nat)),
        ],
        children: seq![],
    }
}

impl PositionMark {
    /// Whether this mark occupies a hot-cue button.
    pub fn is_hot_cue(&self) -> (r: bool)
        ensures
            r == (self@.num >= 0),
    {
        self.num >= 0
    }

    /// Renders as a `POSITION_MARK` element; `Type="0"` is Rekordbox's plain cue.
    pub fn to_element(&self) -> (r: Element)
        ensures
            r@ == marker_node(self@),
    {
        let start: String = fixed_text(self.start, 3);
        let mut num: String = String::new();
        push_signed_decimal(&mut num, self.num as i64);
        assert(num@ =~= signed_decimal(self.num as int));
        let red: String = decimal_text(self.color.0 as u64);
        let green: String = decimal_text(self.color.1 as u64);
        let blue: String = decimal_text(self.color.2 as u64);
        let r: Element = Element::new("POSITION_MARK").attr("Name", self.name.as_str()).attr("Type", "0").attr(
            "Start",
            start.as_str(),
        ).attr("Num", num.as_str()).attr("Red", red.as_str()).attr("Green", green.as_str()).attr("Blue", blue.as_str());
        assert(r@.attributes =~= marker_node(self@).attributes);
        r
    }
}

/// Whether a character is one of the button letters.
pub open spec fn button_letter(c: char) -> bool {
    'A' <= c && c <= 'H'
}

/// Whether a character is part of a word.
pub open spec fn word_char(c: char) -> bool {
    unicode_alphanumeric(c) || c == '_'
}

/// Whether a button letter stands alone at place `i`.
pub open spec fn stands_alone(s: Seq<char>, i: int) -> bool {
    &&& button_letter(s[i])
    &&& !(i > 0 && word_char(s[i - 1]))
    &&& !(i + 1 < s.len() && word_char(s[i + 1]))
}

/// The button of a letter.
pub open spec fn button_of(c: char) -> usize {
    (c as nat - 65) as usize
}

/// The first place from `i` on where a button letter stands alone; the length
/// of the label where there is none.
pub open spec fn first_alone(s: Seq<char>, i: int) -> int
    decreases s.len() - i,
{
    if i < 0 || i >= s.len() {
        s.len() as int
    } else if stands_alone(s, i) {
        i
    } else {
        first_alone(s, i + 1)
    }
}

/// The button that an upper-case label names: that of the first letter A-H that
/// stands alone, else that of a letter A-H it starts with.
pub open spec fn button_named(s: Seq<char>) -> Option<usize> {
    let place = first_alone(s, 0);
    if place < s.len() {
        Some(button_of(s[place]))
    } else if s.len() > 0 && button_letter(s[0]) {
        Some(button_of(s[0]))
    } else {
        None
    }
}

/// The hot-cue button an upper-case label asks for, if it names one.
pub fn upper_label_slot(upper: &str) -> (r: Option<usize>)
    ensures
        r == button_named(upper@),
        r is Some ==> r->0 < HOT_CUE_SLOTS,
{
    let chars: Vec<char> = chars_of(upper);
    let mut i: usize = 0;
    while i < chars.len()
        invariant
            i <= chars@.len(),
            chars@ == upper@,
            first_alone(chars@, 0) == first_alone(chars@, i as int),
        decreases chars@.len() - i,
    {
        let c: char = chars[i];
        if 'A' <= c && c <= 'H' {
            let before: bool = i > 0 && (is_alphanumeric(chars[i - 1]) || chars[i - 1] == '_');
            let after: bool = i + 1 < chars.len() && (is_alphanumeric(chars[i + 1]) || chars[i + 1] == '_');
            if !before && !after {
                assert(stands_alone(chars@, i as int));
                return Some((c as u8 - 65) as usize);
            }
        }
        assert(!stands_alone(chars@, i as int));
        i = i + 1;
    }
    if chars.len() > 0 && 'A' <= chars[0] && chars[0] <= 'H' {
        Some((chars[0] as u8 - 65) as usize)
    } else {
        None
    }
}

/// The button that a label asks for.
pub open spec fn wanted_button(label: Seq<char>) -> Option<usize> {
    button_named(unicode_upper(trimmed(label)))
}

/// The hot-cue button a label asks for, if it names one.
///
/// A label is usually just `"A"`, but `"Drop A"` and `"A (intro)"` name a
/// button too: a standalone letter A-H anywhere in the label, else a letter
/// A-H the label starts with.
pub fn hot_cue_slot(label: &str) -> (r: Option<usize>)
    ensures
        r == wanted_button(label@),
        r is Some ==> r->0 < HOT_CUE_SLOTS,
{
    let text: String = trim_text(label);
    let upper: String = to_upper(text.as_str());
    upper_label_slot(upper.as_str())
}

/// Whether a time is one that a track has.
pub open spec fn on_track(time: Binary64) -> bool {
    time.finite() && zero().spec_le(time)
}

/// The regions to jump to at a valid time, as they come.
pub open spec fn placeable(all: Seq<Region>, n: nat) -> Seq<Region>
    decreases n,
{
    if n == 0 {
        seq![]
    } else if on_track(all[n - 1].point) {
        placeable(all, (n - 1) as nat).push(all[n - 1])
    } else {
        placeable(all, (n - 1) as nat)
    }
}

/// Sort keys that go by point, then by id.
pub open spec fn cue_keys(all: Seq<Region>) -> Seq<i128> {
    Seq::new(all.len(), |i: int| joint_key(all[i].point.total_rank(), all[i].id as nat) as i128)
}

/// The regions at a valid time, by point and then by id.
pub open spec fn placed_cues(all: Seq<Region>) -> Seq<Region> {
    let kept = placeable(all, all.len());
    arranged(kept, in_order(cue_keys(kept)))
}

/// The buttons that the labels of some regions ask for.
pub open spec fn wishes(all: Seq<Region>) -> Seq<Option<usize>> {
    Seq::new(all.len(), |i: int| wanted_button(all[i].label))
}

/// Whether wish `i` is the first for its button.
pub open spec fn first_to_ask(wanted: Seq<Option<usize>>, i: int) -> bool {
    wanted[i] is Some && forall|j: int| 0 <= j < i ==> #[trigger] wanted[j] != wanted[i]
}

/// The buttons below `n` that nobody asks for.
pub open spec fn unasked(wanted: Seq<Option<usize>>, n: nat) -> Seq<usize>
    decreases n,
{
    if n == 0 {
        seq![]
    } else if wanted.contains(Some((n - 1) as usize)) {
        unasked(wanted, (n - 1) as nat)
    } else {
        unasked(wanted, (n - 1) as nat).push((n - 1) as usize)
    }
}

/// How many of the first `i` have not got the button they asked for.
pub open spec fn left_over(wanted: Seq<Option<usize>>, i: nat) -> nat
    decreases i,
{
    if i == 0 {
        0
    } else {
        left_over(wanted, (i - 1) as nat) + (if first_to_ask(wanted, i - 1) {
            0nat
        } else {
            1nat
        })
    }
}

/// The button that cue `i` gets: the one it asked for first, or the next one
/// that nobody asks for, as long as there is one.
pub open spec fn button_for(wanted: Seq<Option<usize>>, i: int) -> Option<usize> {
    let spare = unasked(wanted, 8);
    if first_to_ask(wanted, i) {
        wanted[i]
    } else if left_over(wanted, i as nat) < spare.len() {
        Some(spare[left_over(wanted, i as nat) as int])
    } else {
        None
    }
}

proof fn lemma_unasked(wanted: Seq<Option<usize>>, n: nat)
    requires
        n <= 8,
    ensures
        unasked(wanted, n).len() <= n,
        forall|i: int|
            0 <= i < unasked(wanted, n).len() ==> (#[trigger] unasked(wanted, n)[i]) < n && !wanted.contains(
                Some(unasked(wanted, n)[i]),
            ),
        forall|i: int, j: int| 0 <= i < j < unasked(wanted, n).len() ==> unasked(wanted, n)[i] < unasked(wanted, n)[j],
    decreases n,
{
    if n > 0 {
        lemma_unasked(wanted, (n - 1) as nat);
        let before = unasked(wanted, (n - 1) as nat);
        let now = unasked(wanted, n);
        assert forall|i: int| 0 <= i < now.len() implies (#[trigger] now[i]) < n && !wanted.contains(Some(now[i])) by {
            if i < before.len() {
                assert(now[i] == before[i]);
            }
        }
        assert forall|i: int, j: int| 0 <= i < j < now.len() implies now[i] < now[j] by {
            assert(now[i] == before[i]);
            if j < before.len() {
                assert(now[j] == before[j]);
            }
        }
    }
}

proof fn lemma_left_over_grows(wanted: Seq<Option<usize>>, i: nat, j: nat)
    requires
        i < j,
        !first_to_ask(wanted, i as int),
    ensures
        left_over(wanted, i) < left_over(wanted, j),
    decreases j - i,
{
    if i + 1 < j {
        lemma_left_over_grows(wanted, i, (j - 1) as nat);
    }
}

/// No two cues get one button, and every button is one of the eight.
pub proof fn law_buttons_are_never_shared(wanted: Seq<Option<usize>>, i: int, j: int)
    requires
        0 <= i < j < wanted.len(),
        forall|k: int| 0 <= k < wanted.len() && (#[trigger] wanted[k]) is Some ==> wanted[k]->0 < 8,
    ensures
        button_for(wanted, i) is Some && button_for(wanted, j) is Some ==> button_for(wanted, i) != button_for(wanted, j),
        button_for(wanted, i) is Some ==> button_for(wanted, i)->0 < 8,
        button_for(wanted, j) is Some ==> button_for(wanted, j)->0 < 8,
{
    lemma_unasked(wanted, 8);
    let spare = unasked(wanted, 8);
    assert(wanted.contains(wanted[i]) && wanted.contains(wanted[j]));
    if !first_to_ask(wanted, i) && !first_to_ask(wanted, j) {
        lemma_left_over_grows(wanted, i as nat, j as nat);
    }
}

/// The jump cues get all eight buttons before one becomes a memory cue.
pub proof fn law_buttons_run_out_first(wanted: Seq<Option<usize>>, i: int, button: usize)
    requires
        0 <= i < wanted.len(),
        button < 8,
        button_for(wanted, i) is None,
    ensures
        exists|k: int| 0 <= k < wanted.len() && #[trigger] button_for(wanted, k) == Some(button),
{
    let spare = unasked(wanted, 8);
    if wanted.contains(Some(button)) {
        let w = choose|w: int| 0 <= w < wanted.len() && wanted[w] == Some(button);
        let k = lemma_first_wish(wanted, button, w);
        assert(button_for(wanted, k) == Some(button));
    } else {
        lemma_unasked_holds(wanted, button, 8);
        let p = choose|p: int| 0 <= p < spare.len() && spare[p] == button;
        let k = lemma_left_over_takes(wanted, p as nat, i as nat);
        assert(button_for(wanted, k) == Some(button));
    }
}

proof fn lemma_first_wish(wanted: Seq<Option<usize>>, button: usize, w: int) -> (k: int)
    requires
        0 <= w < wanted.len(),
        wanted[w] == Some(button),
    ensures
        0 <= k <= w,
        first_to_ask(wanted, k),
        wanted[k] == Some(button),
    decreases w,
{
    if first_to_ask(wanted, w) {
        w
    } else {
        let j = choose|j: int| 0 <= j < w && #[trigger] wanted[j] == wanted[w];
        lemma_first_wish(wanted, button, j)
    }
}

proof fn lemma_unasked_holds(wanted: Seq<Option<usize>>, button: usize, n: nat)
    requires
        button < n <= 8,
        !wanted.contains(Some(button)),
    ensures
        unasked(wanted, n).contains(button),
    decreases n,
{
    if button < n - 1 {
        lemma_unasked_holds(wanted, button, (n - 1) as nat);
        let before = unasked(wanted, (n - 1) as nat);
        let p = choose|p: int| 0 <= p < before.len() && before[p] == button;
        assert(unasked(wanted, n)[p] == button);
    } else {
        let before = unasked(wanted, (n - 1) as nat);
        assert(unasked(wanted, n)[before.len() as int] == button);
    }
}

/// Whoever has not got the button they asked for takes the next spare one, so
/// each number of them up to the present one was somebody's.
proof fn lemma_left_over_takes(wanted: Seq<Option<usize>>, p: nat, i: nat) -> (k: int)
    requires
        i <= wanted.len(),
        p < left_over(wanted, i),
    ensures
        0 <= k < i,
        !first_to_ask(wanted, k),
        left_over(wanted, k as nat) == p,
    decreases i,
{
    if p < left_over(wanted, (i - 1) as nat) {
        lemma_left_over_takes(wanted, p, (i - 1) as nat)
    } else {
        i - 1
    }
}

/// The mark of jump cue `i`: a hot cue where it gets a button.
pub open spec fn jump_marker(cues: Seq<Region>, i: int) -> Marker {
    let label = trimmed(cues[i].label);
    let button = button_for(wishes(cues), i);
    Marker {
        name: if label.len() > 0 {
            label
        } else if button is Some {
            "Jump "@ + seq![HOT_CUE_LETTERS@[button->0 as int]]
        } else {
            "Jump "@ + decimal((i + 1) as nat)
        },
        start: cues[i].point,
        num: if button is Some {
            button->0 as int
        } else {
            MEMORY_CUE_NUM as int
        },
        color: PAIR_COLORS@[cues[i].component as int % 6],
    }
}

/// The mark of a structural cue point: a memory cue.
pub open spec fn memory_marker(point: Mark) -> Marker {
    Marker {
        name: if trimmed(point.label).len() > 0 {
            trimmed(point.label)
        } else {
            "Memory"@
        },
        start: point.time,
        num: MEMORY_CUE_NUM as int,
        color: DEFAULT_MARK_COLOR,
    }
}

/// The marks of the first `n` structural cue points that are at a valid time.
pub open spec fn memory_markers(points: Seq<Mark>, n: nat) -> Seq<Marker>
    decreases n,
{
    if n == 0 {
        seq![]
    } else if on_track(points[n - 1].time) {
        memory_markers(points, (n - 1) as nat).push(memory_marker(points[n - 1]))
    } else {
        memory_markers(points, (n - 1) as nat)
    }
}

/// All marks of a track: those of the jump cues, then those of the cue points.
pub open spec fn all_markers(cues: Seq<Region>, points: Seq<Mark>) -> Seq<Marker> {
    let placed = placed_cues(cues);
    Seq::new(placed.len(), |i: int| jump_marker(placed, i)) + memory_markers(points, points.len())
}

/// Sort keys that go by time, hot cues before memory cues, then by button.
pub open spec fn marker_keys(all: Seq<Marker>) -> Seq<i128> {
    Seq::new(
        all.len(),
        |i: int|
            joint_key(
                all[i].start.total_rank(),
                if all[i].num >= 0 {
                    all[i].num as nat
                } else {
                    8
                },
            ) as i128,
    )
}

/// The marks of a track by time, hot cues before memory cues, then by button.
pub open spec fn sorted_markers(cues: Seq<Region>, points: Seq<Mark>) -> Seq<Marker> {
    arranged(all_markers(cues, points), in_order(marker_keys(all_markers(cues, points))))
}

/// The cues at a valid time, by point and then by id.
fn place_cues(cues: &Vec<JumpCue>) -> (r: Vec<JumpCue>)
    ensures
        regions(r@) == placed_cues(regions(cues@)),
        forall|i: int| 0 <= i < r@.len() ==> on_track((#[trigger] r@[i]).point),
{
    let ghost all = regions(cues@);
    let mut kept: Vec<JumpCue> = Vec::new();
    let mut keys: Vec<i128> = Vec::new();
    assert(regions(kept@) =~= seq![]);
    let mut i: usize = 0;
    while i < cues.len()
        invariant
            i <= cues@.len(),
            all == regions(cues@),
            regions(kept@) == placeable(all, i as nat),
            keys@ == cue_keys(regions(kept@)),
            forall|k: int| 0 <= k < kept@.len() ==> on_track((#[trigger] kept@[k]).point),
        decreases cues@.len() - i,
    {
        let cue: &JumpCue = &cues[i];
        assert(all[i as int] == cue@);
        if cue.point.is_finite() && zero().le(cue.point) {
            let row: JumpCue = cue.numbered(cue.id);
            let ghost before = regions(kept@);
            keys.push(join_keys(row.point.total_key(), row.id as u64));
            kept.push(row);
            assert(regions(kept@) =~= before.push(cue@));
            assert(keys@ =~= cue_keys(regions(kept@)));
        }
        i = i + 1;
    }
    let order: Vec<usize> = stable_order(&keys);
    let ghost want = placed_cues(all);
    let mut out: Vec<JumpCue> = Vec::new();
    let mut k: usize = 0;
    while k < order.len()
        invariant
            k <= order@.len(),
            visits_each_once(order@, kept@.len()),
            want == arranged(regions(kept@), order@),
            regions(out@) == want.take(k as int),
            forall|m: int| 0 <= m < kept@.len() ==> on_track((#[trigger] kept@[m]).point),
            forall|m: int| 0 <= m < out@.len() ==> on_track((#[trigger] out@[m]).point),
        decreases order@.len() - k,
    {
        let row: JumpCue = kept[order[k]].numbered(kept[order[k]].id);
        let ghost before = regions(out@);
        assert(on_track(kept@[order@[k as int] as int].point));
        out.push(row);
        assert(regions(out@) =~= before.push(row@));
        k = k + 1;
        assert(regions(out@) =~= want.take(k as int));
    }
    assert(regions(out@) =~= want);
    out
}

/// The buttons that the labels of some cues ask for.
fn wishes_of(cues: &Vec<JumpCue>) -> (r: Vec<Option<usize>>)
    ensures
        r@ == wishes(regions(cues@)),
        forall|i: int| 0 <= i < r@.len() && (#[trigger] r@[i]) is Some ==> r@[i]->0 < 8,
{
    let mut out: Vec<Option<usize>> = Vec::new();
    let mut i: usize = 0;
    while i < cues.len()
        invariant
            i <= cues@.len(),
            out@ == wishes(regions(cues@)).take(i as int),
            forall|k: int| 0 <= k < out@.len() && (#[trigger] out@[k]) is Some ==> out@[k]->0 < 8,
        decreases cues@.len() - i,
    {
        out.push(hot_cue_slot(cues[i].label.as_str()));
        i = i + 1;
        assert(out@ =~= wishes(regions(cues@)).take(i as int));
    }
    assert(out@ =~= wishes(regions(cues@)));
    out
}

/// Whether wish `i` is the first for its button.
fn asks_first(wanted: &Vec<Option<usize>>, i: usize) -> (r: bool)
    requires
        i < wanted@.len(),
    ensures
        r == first_to_ask(wanted@, i as int),
{
    match wanted[i] {
        None => false,
        Some(button) => {
            let mut j: usize = 0;
            while j < i
                invariant
                    j <= i < wanted@.len(),
                    wanted@[i as int] == Some(button),
                    forall|k: int| 0 <= k < j ==> #[trigger] wanted@[k] != wanted@[i as int],
                decreases i - j,
            {
                match wanted[j] {
                    Some(other) => {
                        if other == button {
                            assert(wanted@[j as int] == wanted@[i as int]);
                            return false;
                        }
                    },
                    None => {},
                }
                j = j + 1;
            }
            true
        },
    }
}

/// The buttons that nobody asks for.
fn spare_buttons(wanted: &Vec<Option<usize>>) -> (r: Vec<usize>)
    ensures
        r@ == unasked(wanted@, 8),
{
    let mut out: Vec<usize> = Vec::new();
    let mut b: usize = 0;
    while b < 8
        invariant
            b <= 8,
            out@ == unasked(wanted@, b as nat),
        decreases 8 - b,
    {
        let mut asked: bool = false;
        let mut j: usize = 0;
        while j < wanted.len() && !asked
            invariant
                j <= wanted@.len(),
                asked ==> wanted@.contains(Some(b)),
                !asked ==> forall|k: int| 0 <= k < j ==> #[trigger] wanted@[k] != Some(b),
            decreases wanted@.len() - j + (if asked {
                0int
            } else {
                1int
            }),
        {
            match wanted[j] {
                Some(other) => {
                    if other == b {
                        assert(wanted@[j as int] == Some(b));
                        asked = true;
                    }
                },
                None => {},
            }
            if !asked {
                j = j + 1;
            }
        }
        assert(asked == wanted@.contains(Some(b)));
        if !asked {
            out.push(b);
        }
        b = b + 1;
    }
    out
}

/// The button that each cue gets.
fn assign_buttons(wanted: &Vec<Option<usize>>) -> (r: Vec<Option<usize>>)
    requires
        forall|i: int| 0 <= i < wanted@.len() && (#[trigger] wanted@[i]) is Some ==> wanted@[i]->0 < 8,
    ensures
        r@.len() == wanted@.len(),
        forall|i: int| 0 <= i < r@.len() ==> #[trigger] r@[i] == button_for(wanted@, i),
        forall|i: int| 0 <= i < r@.len() && (#[trigger] r@[i]) is Some ==> r@[i]->0 < 8,
{
    let spare: Vec<usize> = spare_buttons(wanted);
    proof {
        lemma_unasked(wanted@, 8);
    }
    let mut out: Vec<Option<usize>> = Vec::new();
    let mut next: usize = 0;
    let mut i: usize = 0;
    while i < wanted.len()
        invariant
            i <= wanted@.len(),
            out@.len() == i,
            spare@ == unasked(wanted@, 8),
            forall|k: int| 0 <= k < spare@.len() ==> (#[trigger] spare@[k]) < 8,
            forall|k: int| 0 <= k < wanted@.len() && (#[trigger] wanted@[k]) is Some ==> wanted@[k]->0 < 8,
            next == left_over(wanted@, i as nat),
            next <= i,
            forall|k: int| 0 <= k < i ==> #[trigger] out@[k] == button_for(wanted@, k),
            forall|k: int| 0 <= k < i && (#[trigger] out@[k]) is Some ==> out@[k]->0 < 8,
        decreases wanted@.len() - i,
    {
        if asks_first(wanted, i) {
            out.push(wanted[i]);
        } else {
            if next < spare.len() {
                out.push(Some(spare[next]));
            } else {
                out.push(None);
            }
            next = next + 1;
        }
        assert(out@[i as int] == button_for(wanted@, i as int));
        i = i + 1;
    }
    out
}

/// The mark of a jump cue that gets a button, or none.
fn mark_jump(cue: &JumpCue, index: usize, button: Option<usize>) -> (r: PositionMark)
    requires
        button is Some ==> button->0 < 8,
        index < usize::MAX,
    ensures
        forall|cues: Seq<Region>|
            index < cues.len() && cues[index as int] == cue@ && button_for(wishes(cues), index as int) == button ==> r@
                == #[trigger] jump_marker(cues, index as int),
{
    let label: String = trim_text(cue.label.as_str());
    let num: i32 = match button {
        Some(slot) => slot as i32,
        None => MEMORY_CUE_NUM,
    };
    let mut name: String = String::new();
    if label.as_str().is_empty() {
        name.push_str("Jump ");
        match button {
            Some(slot) => {
                name.push(HOT_CUE_LETTERS[slot]);
                assert(name@ =~= "Jump "@ + seq![HOT_CUE_LETTERS@[slot as int]]);
            },
            None => {
                push_decimal(&mut name, (index + 1) as u64);
                assert(name@ =~= "Jump "@ + decimal((index + 1) as nat));
            },
        }
    } else {
        name = label;
    }
    PositionMark { name, start: cue.point, num, color: cue.color() }
}

/// Builds every `POSITION_MARK` for a track, in time order.
///
/// Jump cues compete for the eight hot-cue buttons; structural cue points are
/// always memory cues. Marks with a non-finite or negative time are dropped:
/// Rekordbox refuses the whole file over one bad `Start`.
pub fn position_marks(jump_cues: &Vec<JumpCue>, cue_points: &Vec<CuePoint>) -> (r: Vec<PositionMark>)
    ensures
        markers(r@) == sorted_markers(regions(jump_cues@), crate::domain::cue::marks(cue_points@)),
{
    let ghost points = crate::domain::cue::marks(cue_points@);
    let cues: Vec<JumpCue> = place_cues(jump_cues);
    let ghost placed = regions(cues@);
    let wanted: Vec<Option<usize>> = wishes_of(&cues);
    let buttons: Vec<Option<usize>> = assign_buttons(&wanted);
    let mut all: Vec<PositionMark> = Vec::new();
    let total: usize = cues.len();
    let ghost jumps = Seq::new(placed.len(), |k: int| jump_marker(placed, k));
    assert(markers(all@) =~= jumps.take(0));
    let mut i: usize = 0;
    while i < total
        invariant
            i <= total == cues@.len(),
            placed == regions(cues@),
            wanted@ == wishes(placed),
            buttons@.len() == total,
            forall|k: int| 0 <= k < total ==> #[trigger] buttons@[k] == button_for(wanted@, k),
            forall|k: int| 0 <= k < total && (#[trigger] buttons@[k]) is Some ==> buttons@[k]->0 < 8,
            forall|k: int| 0 <= k < cues@.len() ==> on_track((#[trigger] cues@[k]).point),
            forall|k: int| 0 <= k < all@.len() ==> on_track((#[trigger] all@[k]).start) && all@[k].num < 8,
            jumps == Seq::new(placed.len(), |k: int| jump_marker(placed, k)),
            markers(all@) == jumps.take(i as int),
        decreases total - i,
    {
        assert(placed[i as int] == cues@[i as int]@);
        assert(buttons@[i as int] == button_for(wishes(placed), i as int));
        assert(on_track(cues@[i as int].point));
        let mark: PositionMark = mark_jump(&cues[i], i, buttons[i]);
        assert(mark@ == jump_marker(placed, i as int));
        proof {
            lemma_markers_push(all@, mark);
        }
        all.push(mark);
        i = i + 1;
        assert(markers(all@) =~= jumps.take(i as int));
    }
    let mut k: usize = 0;
    assert(markers(all@) =~= jumps + memory_markers(points, 0));
    while k < cue_points.len()
        invariant
            k <= cue_points@.len(),
            points == crate::domain::cue::marks(cue_points@),
            forall|m: int| 0 <= m < all@.len() ==> on_track((#[trigger] all@[m]).start) && all@[m].num < 8,
            markers(all@) == jumps + memory_markers(points, k as nat),
        decreases cue_points@.len() - k,
    {
        let point: &CuePoint = &cue_points[k];
        assert(points[k as int] == point@);
        let ghost before = markers(all@);
        if point.time_sec.is_finite() && zero().le(point.time_sec) {
            let label: String = trim_text(point.label.as_str());
            let name: String = if label.as_str().is_empty() {
                copy_text("Memory")
            } else {
                label
            };
            let mark: PositionMark = PositionMark {
                name,
                start: point.time_sec,
                num: MEMORY_CUE_NUM,
                color: DEFAULT_MARK_COLOR,
            };
            proof {
                lemma_markers_push(all@, mark);
            }
            all.push(mark);
            assert(markers(all@) =~= jumps + memory_markers(points, (k + 1) as nat));
        }
        k = k + 1;
    }
    assert(markers(all@) == all_markers(regions(jump_cues@), points));
    sort_marks(&all)
}

/// The marks by time, hot cues before memory cues, then by button.
fn sort_marks(all: &Vec<PositionMark>) -> (r: Vec<PositionMark>)
    requires
        forall|m: int| 0 <= m < all@.len() ==> on_track((#[trigger] all@[m]).start) && all@[m].num < 8,
    ensures
        markers(r@) == arranged(markers(all@), in_order(marker_keys(markers(all@)))),
{
    let ghost values = markers(all@);
    let mut keys: Vec<i128> = Vec::new();
    let mut i: usize = 0;
    while i < all.len()
        invariant
            i <= all@.len(),
            values == markers(all@),
            forall|m: int| 0 <= m < all@.len() ==> on_track((#[trigger] all@[m]).start) && all@[m].num < 8,
            keys@ == marker_keys(values).take(i as int),
        decreases all@.len() - i,
    {
        assert(on_track(all@[i as int].start));
        assert(values[i as int] == all@[i as int]@);
        let place: u64 = if all[i].num >= 0 {
            all[i].num as u64
        } else {
            8
        };
        keys.push(join_keys(all[i].start.total_key(), place));
        i = i + 1;
        assert(keys@ =~= marker_keys(values).take(i as int));
    }
    assert(keys@ =~= marker_keys(values));
    let order: Vec<usize> = stable_order(&keys);
    let ghost want = arranged(values, order@);
    let mut out: Vec<PositionMark> = Vec::new();
    let mut k: usize = 0;
    while k < order.len()
        invariant
            k <= order@.len(),
            values == markers(all@),
            visits_each_once(order@, all@.len()),
            want == arranged(values, order@),
            markers(out@) == want.take(k as int),
        decreases order@.len() - k,
    {
        let mark: PositionMark = all[order[k]].clone();
        assert(values[order@[k as int] as int] == all@[order@[k as int] as int]@);
        proof {
            lemma_markers_push(out@, mark);
        }
        out.push(mark);
        k = k + 1;
        assert(markers(out@) =~= want.take(k as int));
    }
    assert(markers(out@) =~= want);
    out
}

proof fn lemma_named_button_exists(s: Seq<char>, i: int)
    ensures
        0 <= i && first_alone(s, i) < s.len() ==> stands_alone(s, first_alone(s, i)) && 0 <= first_alone(s, i),
    decreases s.len() - i,
{
    if 0 <= i < s.len() && !stands_alone(s, i) {
        lemma_named_button_exists(s, i + 1);
    }
}

proof fn lemma_memory_markers(points: Seq<Mark>, n: nat)
    requires
        n <= points.len(),
    ensures
        forall|i: int| 0 <= i < memory_markers(points, n).len() ==> (#[trigger] memory_markers(points, n)[i]).num == -1,
    decreases n,
{
    if n > 0 {
        lemma_memory_markers(points, (n - 1) as nat);
        let before = memory_markers(points, (n - 1) as nat);
        let now = memory_markers(points, n);
        assert forall|i: int| 0 <= i < now.len() implies (#[trigger] now[i]).num == -1 by {
            if i < before.len() {
                assert(now[i] == before[i]);
            }
        }
    }
}

/// Marks come out in time order, and no two hot cues share a button, of which
/// there are eight.
pub proof fn law_hot_cues_are_unique(cues: Seq<Region>, points: Seq<Mark>, i: int, j: int)
    requires
        all_markers(cues, points).len() <= usize::MAX,
        0 <= i < j < sorted_markers(cues, points).len(),
    ensures
        sorted_markers(cues, points)[i].num >= 0 ==> sorted_markers(cues, points)[i].num < 8,
        sorted_markers(cues, points)[i].num >= 0 && sorted_markers(cues, points)[j].num >= 0 ==> sorted_markers(
            cues,
            points,
        )[i].num != sorted_markers(cues, points)[j].num,
        sorted_markers(cues, points)[i].start.total_rank() <= sorted_markers(cues, points)[j].start.total_rank(),
{
    let all = all_markers(cues, points);
    let placed = placed_cues(cues);
    let wanted = wishes(placed);
    let keys = marker_keys(all);
    let order = in_order(keys);
    law_order_is_stable(keys, keys.len());
    lemma_memory_markers(points, points.len());
    assert forall|k: int| 0 <= k < wanted.len() && (#[trigger] wanted[k]) is Some implies wanted[k]->0 < 8 by {
        lemma_named_button_exists(unicode_upper(trimmed(placed[k].label)), 0);
    }
    lemma_unasked(wanted, 8);
    let a = order[i] as int;
    let b = order[j] as int;
    assert(a != b);
    assert forall|k: int| 0 <= k < all.len() implies (#[trigger] all[k]).num >= -1 && all[k].num < 8 && (all[k].num >= 0
        ==> k < placed.len() && button_for(wanted, k) == Some(all[k].num as usize)) by {
        if k < placed.len() {
            assert(all[k] == jump_marker(placed, k));
        } else {
            assert(all[k] == memory_markers(points, points.len())[k - placed.len()]);
        }
    }
    assert(all[a].num < 8 && all[b].num < 8);
    if all[a].num >= 0 && all[b].num >= 0 {
        if a < b {
            law_buttons_are_never_shared(wanted, a, b);
        } else {
            law_buttons_are_never_shared(wanted, b, a);
        }
    }
    assert(keys[a] <= keys[b]);
    let p = if all[a].num >= 0 {
        all[a].num as nat
    } else {
        8
    };
    let q = if all[b].num >= 0 {
        all[b].num as nat
    } else {
        8
    };
    let x = all[a].start.total_rank();
    let y = all[b].start.total_rank();
    assert(-0x8000_0000_0000_0000 <= x < 0x8000_0000_0000_0000 && -0x8000_0000_0000_0000 <= y < 0x8000_0000_0000_0000);
    law_joint_keys_order_pairs(x, y, p, q);
    law_joint_keys_order_pairs(y, x, q, p);
}

/// A cue on the track stays, and is found among those that are placed.
proof fn lemma_placed(all: Seq<Region>, n: nat, i: int) -> (k: int)
    requires
        0 <= i < n <= all.len(),
        on_track(all[i].point),
    ensures
        0 <= k < placeable(all, n).len(),
        placeable(all, n)[k] == all[i],
    decreases n,
{
    if i == n - 1 {
        placeable(all, n).len() - 1
    } else {
        lemma_placed(all, (n - 1) as nat, i)
    }
}

proof fn lemma_placeable_len(all: Seq<Region>, n: nat)
    requires
        n <= all.len(),
    ensures
        placeable(all, n).len() <= n,
        forall|k: int| 0 <= k < placeable(all, n).len() ==> all.contains(#[trigger] placeable(all, n)[k]) && on_track(
            placeable(all, n)[k].point,
        ),
    decreases n,
{
    if n > 0 {
        lemma_placeable_len(all, (n - 1) as nat);
        assert(all[n - 1] == all[n - 1]);
    }
}

proof fn lemma_memory_kept(points: Seq<Mark>, n: nat, i: int) -> (k: int)
    requires
        0 <= i < n <= points.len(),
        on_track(points[i].time),
    ensures
        0 <= k < memory_markers(points, n).len(),
        memory_markers(points, n)[k] == memory_marker(points[i]),
    decreases n,
{
    if i == n - 1 {
        memory_markers(points, n).len() - 1
    } else {
        lemma_memory_kept(points, (n - 1) as nat, i)
    }
}

proof fn lemma_markers_sorted(cues: Seq<Region>, points: Seq<Mark>)
    requires
        all_markers(cues, points).len() <= usize::MAX,
    ensures
        sorted_markers(cues, points).len() == all_markers(cues, points).len(),
        forall|m: int|
            0 <= m < all_markers(cues, points).len() ==> sorted_markers(cues, points).contains(
                #[trigger] all_markers(cues, points)[m],
            ),
{
    let all = all_markers(cues, points);
    let keys = marker_keys(all);
    let order = in_order(keys);
    law_order_is_stable(keys, keys.len());
    assert forall|m: int| 0 <= m < all.len() implies sorted_markers(cues, points).contains(#[trigger] all[m]) by {
        assert(order.contains(m as usize));
        let p = choose|p: int| 0 <= p < order.len() && order[p] == m as usize;
        assert(sorted_markers(cues, points)[p] == all[m]);
    }
}

/// Each jump cue on the track is marked at its point, in the colour of its group
/// and, where it has a label, under that label.
pub proof fn law_each_cue_is_marked(cues: Seq<Region>, points: Seq<Mark>, i: int) -> (marker: Marker)
    requires
        cues.len() + points.len() <= usize::MAX,
        0 <= i < cues.len(),
        cues[i].point.finite(),
        zero().spec_le(cues[i].point),
    ensures
        sorted_markers(cues, points).contains(marker),
        marker.start == cues[i].point,
        marker.color == PAIR_COLORS@[cues[i].component as int % 6],
        trimmed(cues[i].label).len() > 0 ==> marker.name == trimmed(cues[i].label),
{
    let kept = placeable(cues, cues.len());
    let k = lemma_placed(cues, cues.len(), i);
    lemma_placeable_len(cues, cues.len());
    let keys = cue_keys(kept);
    let order = in_order(keys);
    law_order_is_stable(keys, keys.len());
    assert(order.contains(k as usize));
    let p = choose|p: int| 0 <= p < order.len() && order[p] == k as usize;
    let placed = placed_cues(cues);
    assert(placed[p] == cues[i]);
    lemma_memory_len(points, points.len());
    lemma_markers_sorted(cues, points);
    assert(all_markers(cues, points)[p] == jump_marker(placed, p));
    jump_marker(placed, p)
}

proof fn lemma_memory_len(points: Seq<Mark>, n: nat)
    requires
        n <= points.len(),
    ensures
        memory_markers(points, n).len() <= n,
    decreases n,
{
    if n > 0 {
        lemma_memory_len(points, (n - 1) as nat);
    }
}

/// Each cue point on the track is marked at its time as a memory cue, under its
/// label where it has one.
pub proof fn law_each_point_is_marked(cues: Seq<Region>, points: Seq<Mark>, i: int) -> (marker: Marker)
    requires
        cues.len() + points.len() <= usize::MAX,
        0 <= i < points.len(),
        points[i].time.finite(),
        zero().spec_le(points[i].time),
    ensures
        sorted_markers(cues, points).contains(marker),
        marker.start == points[i].time,
        marker.num < 0,
        trimmed(points[i].label).len() > 0 ==> marker.name == trimmed(points[i].label),
{
    let k = lemma_memory_kept(points, points.len(), i);
    lemma_placeable_len(cues, cues.len());
    let kept = placeable(cues, cues.len());
    law_order_is_stable(cue_keys(kept), cue_keys(kept).len());
    lemma_memory_len(points, points.len());
    lemma_markers_sorted(cues, points);
    assert(all_markers(cues, points)[placed_cues(cues).len() + k] == memory_marker(points[i]));
    memory_marker(points[i])
}

/// Nothing else is marked: each marker stands at a jump cue on the track, or is a
/// memory cue and stands at a cue point on it.
pub proof fn law_markers_stand_at_cues(cues: Seq<Region>, points: Seq<Mark>, m: int)
    requires
        cues.len() + points.len() <= usize::MAX,
        0 <= m < sorted_markers(cues, points).len(),
    ensures
        ({
            let marker = sorted_markers(cues, points)[m];
            ||| exists|i: int|
                0 <= i < cues.len() && (#[trigger] cues[i]).point == marker.start && PAIR_COLORS@[cues[i].component as int % 6]
                    == marker.color
            ||| marker.num < 0 && exists|i: int| 0 <= i < points.len() && (#[trigger] points[i]).time == marker.start
        }),
{
    lemma_placeable_len(cues, cues.len());
    let kept = placeable(cues, cues.len());
    let order = in_order(cue_keys(kept));
    law_order_is_stable(cue_keys(kept), cue_keys(kept).len());
    lemma_memory_len(points, points.len());
    let all = all_markers(cues, points);
    let by = in_order(marker_keys(all));
    law_order_is_stable(marker_keys(all), marker_keys(all).len());
    let marker = sorted_markers(cues, points)[m];
    let a = by[m] as int;
    assert(marker == all[a]);
    let placed = placed_cues(cues);
    if a < placed.len() {
        assert(placed[a] == kept[order[a] as int]);
        assert(cues.contains(placed[a]));
        let i = choose|i: int| 0 <= i < cues.len() && cues[i] == placed[a];
        assert(cues[i].point == marker.start);
    } else {
        let i = lemma_memory_from(points, points.len(), a - placed.len());
        assert(points[i].time == marker.start);
    }
}

proof fn lemma_memory_from(points: Seq<Mark>, n: nat, k: int) -> (i: int)
    requires
        n <= points.len(),
        0 <= k < memory_markers(points, n).len(),
    ensures
        0 <= i < n,
        memory_markers(points, n)[k] == memory_marker(points[i]),
    decreases n,
{
    if n == 0 {
        0
    } else if on_track(points[n - 1].time) && k == memory_markers(points, n).len() - 1 {
        n - 1
    } else {
        lemma_memory_from(points, (n - 1) as nat, k)
    }
}

/// The first cue to ask for a button gets it.
pub proof fn law_the_first_to_ask_is_served(wanted: Seq<Option<usize>>, i: int)
    requires
        0 <= i < wanted.len(),
        wanted[i] is Some,
        forall|j: int| 0 <= j < i ==> #[trigger] wanted[j] != wanted[i],
    ensures
        button_for(wanted, i) == wanted[i],
{
}

/// A label names the button of the first letter from A to H that stands alone in
/// it.
pub proof fn law_a_letter_alone_names_its_button(s: Seq<char>, i: int)
    requires
        0 <= i < s.len(),
        'A' <= s[i] <= 'H',
        i == 0 || !(unicode_alphanumeric(s[i - 1]) || s[i - 1] == '_'),
        i == s.len() - 1 || !(unicode_alphanumeric(s[i + 1]) || s[i + 1] == '_'),
        forall|j: int| 0 <= j < i ==> !#[trigger] stands_alone(s, j),
    ensures
        button_named(s) == Some((s[i] as nat - 65) as usize),
{
    lemma_first_alone(s, 0, i);
}

proof fn lemma_first_alone(s: Seq<char>, from: int, i: int)
    requires
        0 <= from <= i < s.len(),
        stands_alone(s, i),
        forall|j: int| 0 <= j < i ==> !#[trigger] stands_alone(s, j),
    ensures
        first_alone(s, from) == i,
    decreases i - from,
{
    if from < i {
        assert(!stands_alone(s, from));
        lemma_first_alone(s, from + 1, i);
    }
}

} // verus!
