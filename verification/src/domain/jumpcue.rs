//! JumpCUEs: regions of a track that sound alike, so a DJ can jump between them.
//!
//! Cues that land on the same spot are merged, and cues reachable from one
//! another form a component, drawn in one colour. Any two cues in the same
//! component can be jumped between in either direction.

use crate::domain::error::DomainError;
use crate::number::binary64::{absolute, difference, larger, micro, zero, Binary64};
use crate::order::{
    arranged, in_order, join_keys, joint_key, law_joint_keys_order_pairs, law_order_is_stable,
    law_sorted_keys_keep_their_places, stable_order, visits_each_once,
};
use crate::text::{chars_of, copy_text, same_text, trim_text, trimmed, uppercase_text, uppercased};
use vstd::prelude::*;

verus! {

/// Colours cycled through, one per component.
pub const PAIR_COLORS: [(u8, u8, u8); 6] = [
    (34, 139, 34),
    (0, 153, 204),
    (220, 120, 20),
    (148, 0, 211),
    (210, 105, 30),
    (0, 128, 128),
];

/// Colour for the component at `index`.
pub fn component_color(index: usize) -> (r: (u8, u8, u8))
    ensures
        r == PAIR_COLORS@[index as int % 6],
{
    PAIR_COLORS[index % 6]
}

/// One jumpable region.
#[derive(Debug, Clone, PartialEq)]
pub struct JumpCue {
    pub id: usize,
    /// A single letter A-Z, unique within the track.
    pub label: String,
    pub comment: String,
    /// Start of the similar region.
    pub start: Binary64,
    /// End of the similar region.
    pub end: Binary64,
    /// The exact instant to jump to, somewhere inside `[start, end]`.
    pub point: Binary64,
    /// Which component this cue belongs to.
    pub component: usize,
}

/// The contents of a jump cue.
pub struct Region {
    pub id: usize,
    pub label: Seq<char>,
    pub comment: Seq<char>,
    pub start: Binary64,
    pub end: Binary64,
    pub point: Binary64,
    pub component: usize,
}

impl View for JumpCue {
    type V = Region;

    open spec fn view(&self) -> Region {
        Region {
            id: self.id,
            label: self.label@,
            comment: self.comment@,
            start: self.start,
            end: self.end,
            point: self.point,
            component: self.component,
        }
    }
}

/// The contents of some jump cues.
pub open spec fn regions(cues: Seq<JumpCue>) -> Seq<Region> {
    Seq::new(cues.len(), |i: int| cues[i]@)
}

proof fn lemma_regions_push(cues: Seq<JumpCue>, cue: JumpCue)
    ensures
        regions(cues.push(cue)) == regions(cues).push(cue@),
{
    assert(regions(cues.push(cue)) =~= regions(cues).push(cue@));
}

impl JumpCue {
    /// A jump cue without a comment.
    pub fn new(id: usize, label: &str, start: Binary64, end: Binary64, point: Binary64, component: usize) -> (r: Self)
        ensures
            r@ == (Region { id, label: label@, comment: seq![], start, end, point, component }),
    {
        let comment: String = String::new();
        assert(comment@ =~= seq![]);
        JumpCue { id, label: copy_text(label), comment, start, end, point, component }
    }

    /// The colour of the component this cue belongs to.
    pub fn color(&self) -> (r: (u8, u8, u8))
        ensures
            r == PAIR_COLORS@[self.component as int % 6],
    {
        component_color(self.component)
    }

    /// The length of the region in seconds, never negative.
    pub fn duration(&self) -> (r: Binary64)
        ensures
            r == larger(difference(self.end, self.start), zero()),
    {
        self.end.minus(self.start).max(zero())
    }

    /// A copy of this cue under another number.
    pub fn numbered(&self, id: usize) -> (r: JumpCue)
        ensures
            r@ == (Region { id, ..self@ }),
    {
        JumpCue {
            id,
            label: copy_text(self.label.as_str()),
            comment: copy_text(self.comment.as_str()),
            start: self.start,
            end: self.end,
            point: self.point,
            component: self.component,
        }
    }
}

/// Sort keys that go by point, then by id.
pub open spec fn point_keys(all: Seq<Region>) -> Seq<i128> {
    Seq::new(all.len(), |i: int| joint_key(all[i].point.rank(), all[i].id as nat) as i128)
}

/// The regions by point, then by id.
pub open spec fn by_point(all: Seq<Region>) -> Seq<Region> {
    arranged(all, in_order(point_keys(all)))
}

/// The cues by point, then by id.
fn sort_by_point(cues: &Vec<JumpCue>) -> (r: Vec<JumpCue>)
    ensures
        regions(r@) == by_point(regions(cues@)),
{
    let ghost all = regions(cues@);
    let mut keys: Vec<i128> = Vec::new();
    let mut i: usize = 0;
    while i < cues.len()
        invariant
            i <= cues@.len(),
            all == regions(cues@),
            keys@ == point_keys(all).take(i as int),
        decreases cues@.len() - i,
    {
        keys.push(join_keys(cues[i].point.rank_key(), cues[i].id as u64));
        i = i + 1;
        assert(keys@ =~= point_keys(all).take(i as int));
    }
    assert(keys@ =~= point_keys(all));
    let order: Vec<usize> = stable_order(&keys);
    let ghost want = by_point(all);
    let mut out: Vec<JumpCue> = Vec::new();
    let mut k: usize = 0;
    while k < order.len()
        invariant
            k <= order@.len(),
            all == regions(cues@),
            visits_each_once(order@, cues@.len()),
            want == arranged(all, order@),
            regions(out@) == want.take(k as int),
        decreases order@.len() - k,
    {
        let row: JumpCue = cues[order[k]].numbered(cues[order[k]].id);
        assert(all[order@[k as int] as int] == cues@[order@[k as int] as int]@);
        proof {
            lemma_regions_push(out@, row);
        }
        out.push(row);
        k = k + 1;
        assert(regions(out@) =~= want.take(k as int));
    }
    assert(regions(out@) =~= want);
    out
}

/// Sorting by point puts no point behind a larger one, and keeps every cue.
pub proof fn law_cues_go_by_point(all: Seq<Region>)
    requires
        all.len() <= usize::MAX,
    ensures
        by_point(all).len() == all.len(),
        forall|i: int| 0 <= i < all.len() ==> by_point(all).contains(#[trigger] all[i]),
        forall|i: int, j: int|
            0 <= i < j < all.len() ==> by_point(all)[i].point.rank() <= by_point(all)[j].point.rank(),
{
    let keys = point_keys(all);
    let order = in_order(keys);
    law_order_is_stable(keys, keys.len());
    let out = by_point(all);
    assert forall|i: int| 0 <= i < all.len() implies out.contains(#[trigger] all[i]) by {
        assert(order.contains(i as usize));
        let k = choose|k: int| 0 <= k < order.len() && order[k] == i as usize;
        assert(out[k] == all[i]);
    }
    assert forall|i: int, j: int| 0 <= i < j < all.len() implies out[i].point.rank() <= out[j].point.rank() by {
        let a = all[order[i] as int];
        let b = all[order[j] as int];
        assert(keys[order[i] as int] <= keys[order[j] as int]);
        assert(-0x8000_0000_0000_0000 < a.point.rank() < 0x8000_0000_0000_0000);
        assert(-0x8000_0000_0000_0000 < b.point.rank() < 0x8000_0000_0000_0000);
        law_joint_keys_order_pairs(a.point.rank(), b.point.rank(), a.id as nat, b.id as nat);
        law_joint_keys_order_pairs(b.point.rank(), a.point.rank(), b.id as nat, a.id as nat);
    }
}

/// Which way a jump runs.
#[derive(Debug, Clone, Copy, PartialEq, Eq, Structural)]
pub enum Direction {
    /// Later in the track.
    Forward,
    /// Earlier in the track.
    Backward,
}

/// A jump that can be performed between two cues.
#[derive(Debug, Clone, Copy, PartialEq, Structural)]
pub struct JumpLink {
    pub from_id: usize,
    pub to_id: usize,
    pub direction: Direction,
    /// Distance skipped, in seconds.
    pub lag_sec: Binary64,
}

/// The jump from the earlier region to the later one.
pub open spec fn forward_link(a: Region, b: Region) -> JumpLink {
    JumpLink {
        from_id: a.id,
        to_id: b.id,
        direction: Direction::Forward,
        lag_sec: absolute(difference(b.point, a.point)),
    }
}

/// The jump from the later region back to the earlier one.
pub open spec fn backward_link(a: Region, b: Region) -> JumpLink {
    JumpLink {
        from_id: b.id,
        to_id: a.id,
        direction: Direction::Backward,
        lag_sec: absolute(difference(b.point, a.point)),
    }
}

/// The jump from region `i` to region `j`.
pub open spec fn link_between(all: Seq<Region>, i: int, j: int) -> JumpLink {
    if i < j {
        forward_link(all[i], all[j])
    } else {
        backward_link(all[j], all[i])
    }
}

/// Whether there is a jump from region `i` to region `j`: they are two of one
/// component.
pub open spec fn linked(all: Seq<Region>, i: int, j: int) -> bool {
    i != j && all[i].component == all[j].component
}

/// The jumps from region `i` to the others among the first `n`, in order.
pub open spec fn links_from(all: Seq<Region>, i: int, n: nat) -> Seq<JumpLink>
    decreases n,
{
    if n == 0 {
        seq![]
    } else {
        let before = links_from(all, i, (n - 1) as nat);
        if linked(all, i, n - 1) {
            before.push(link_between(all, i, n - 1))
        } else {
            before
        }
    }
}

/// The jumps from each of the first `n` regions, one region behind the other.
pub open spec fn links_of(all: Seq<Region>, n: nat) -> Seq<JumpLink>
    decreases n,
{
    if n == 0 {
        seq![]
    } else {
        links_of(all, (n - 1) as nat) + links_from(all, n - 1, all.len())
    }
}

/// The region that each of those jumps starts from.
pub open spec fn sources_of(all: Seq<Region>, n: nat) -> Seq<int>
    decreases n,
{
    if n == 0 {
        seq![]
    } else {
        sources_of(all, (n - 1) as nat) + Seq::new(links_from(all, n - 1, all.len()).len(), |k: int| n - 1)
    }
}

/// The regions of a component among the first `n`.
pub open spec fn members(all: Seq<Region>, component: usize, n: nat) -> Seq<Region>
    decreases n,
{
    if n == 0 {
        seq![]
    } else {
        let before = members(all, component, (n - 1) as nat);
        if all[n - 1].component == component {
            before.push(all[n - 1])
        } else {
            before
        }
    }
}

/// The number of components: one more than the largest in use.
pub open spec fn component_count(all: Seq<Region>, n: nat) -> nat
    decreases n,
{
    if n == 0 {
        0
    } else {
        let before = component_count(all, (n - 1) as nat);
        let here = all[n - 1].component as nat + 1;
        if here > before {
            here
        } else {
            before
        }
    }
}

/// The contents of borrowed cues.
pub open spec fn borrowed(cues: Seq<&JumpCue>) -> Seq<Region> {
    Seq::new(cues.len(), |i: int| (*cues[i])@)
}

/// Whether a text is a single letter A-Z.
pub open spec fn single_letter(s: Seq<char>) -> bool {
    s.len() == 1 && 'A' <= s[0] && s[0] <= 'Z'
}

/// The label under which a region is kept.
pub open spec fn label_key(region: Region) -> Seq<char> {
    uppercased(trimmed(region.label))
}

/// Whether the first `n` regions have distinct single letters as labels.
pub open spec fn well_labelled(all: Seq<Region>, n: int) -> bool {
    &&& forall|i: int| 0 <= i < n ==> single_letter(label_key(#[trigger] all[i]))
    &&& forall|i: int, j: int| 0 <= i < j < n ==> label_key(#[trigger] all[i]) != label_key(#[trigger] all[j])
}

/// Whether region `k` is the first with a bad label and `e` reports it.
pub open spec fn reports_label(all: Seq<Region>, k: int, e: DomainError) -> bool {
    &&& 0 <= k < all.len()
    &&& well_labelled(all, k)
    &&& !well_labelled(all, k + 1)
    &&& if single_letter(label_key(all[k])) {
        e matches DomainError::DuplicateJumpCueLabel(text) && text@ == label_key(all[k])
    } else {
        e matches DomainError::InvalidJumpCueLabel(text) && text@ == all[k].label
    }
}

/// The full set of cues plus every jump they permit.
#[derive(Debug, Clone, PartialEq)]
pub struct JumpCueGraph {
    cues: Vec<JumpCue>,
}

impl View for JumpCueGraph {
    type V = Seq<Region>;

    closed spec fn view(&self) -> Seq<Region> {
        regions(self.cues@)
    }
}

impl Default for JumpCueGraph {
    fn default() -> (r: Self)
        ensures
            r@ == Seq::<Region>::empty(),
    {
        let r: JumpCueGraph = JumpCueGraph { cues: Vec::new() };
        assert(r@ =~= Seq::<Region>::empty());
        r
    }
}

impl JumpCueGraph {
    /// Builds a graph, merging coincident cues: the cues by point, the first
    /// of each that sit on the same spot.
    pub fn new(cues: Vec<JumpCue>) -> (r: Self)
        ensures
            r@ == one_per_spot(by_point(regions(cues@)), cues@.len()),
    {
        JumpCueGraph { cues: keep_one_per_spot(&cues) }
    }

    /// The cues, by point.
    pub fn cues(&self) -> (r: &[JumpCue])
        ensures
            regions(r@) == self@,
    {
        self.cues.as_slice()
    }

    /// Whether there are no cues.
    pub fn is_empty(&self) -> (r: bool)
        ensures
            r == (self@.len() == 0),
    {
        self.cues.len() == 0
    }

    /// The first cue with this label, if any; case and white space around it
    /// do not count.
    pub fn by_label(&self, label: &str) -> (r: Option<&JumpCue>)
        ensures
            r is None <==> forall|i: int|
                0 <= i < self@.len() ==> uppercased((#[trigger] self@[i]).label) != uppercased(trimmed(label@)),
            r is Some ==> exists|k: int|
                0 <= k < self@.len() && (*r->0)@ == #[trigger] self@[k] && uppercased(self@[k].label) == uppercased(
                    trimmed(label@),
                ) && forall|i: int| 0 <= i < k ==> uppercased((#[trigger] self@[i]).label) != uppercased(trimmed(label@)),
    {
        let wanted: String = uppercase_text(trim_text(label).as_str());
        let mut i: usize = 0;
        while i < self.cues.len()
            invariant
                i <= self.cues@.len(),
                wanted@ == uppercased(trimmed(label@)),
                forall|k: int| 0 <= k < i ==> uppercased((#[trigger] self@[k]).label) != wanted@,
            decreases self.cues@.len() - i,
        {
            let here: String = uppercase_text(self.cues[i].label.as_str());
            assert(self@[i as int] == self.cues@[i as int]@);
            if same_text(here.as_str(), wanted.as_str()) {
                return Some(&self.cues[i]);
            }
            i = i + 1;
        }
        None
    }

    /// Every jump the graph permits, both directions, sorted by source point.
    pub fn links(&self) -> (r: Vec<JumpLink>)
        ensures
            r@ == links_of(self@, self@.len()),
    {
        let ghost all = self@;
        let mut out: Vec<JumpLink> = Vec::new();
        let total: usize = self.cues.len();
        let mut i: usize = 0;
        while i < total
            invariant
                i <= total == self.cues@.len(),
                all == regions(self.cues@),
                out@ == links_of(all, i as nat),
            decreases total - i,
        {
            let ghost before = out@;
            let a: &JumpCue = &self.cues[i];
            assert(all[i as int] == a@);
            let mut j: usize = 0;
            assert(out@ =~= before + links_from(all, i as int, 0));
            while j < total
                invariant
                    i < total,
                    j <= total == self.cues@.len(),
                    all == regions(self.cues@),
                    all[i as int] == a@,
                    out@ == before + links_from(all, i as int, j as nat),
                decreases total - j,
            {
                let b: &JumpCue = &self.cues[j];
                assert(all[j as int] == b@);
                if i != j && a.component == b.component {
                    if i < j {
                        let lag: Binary64 = b.point.minus(a.point).abs();
                        out.push(
                            JumpLink { from_id: a.id, to_id: b.id, direction: Direction::Forward, lag_sec: lag },
                        );
                    } else {
                        let lag: Binary64 = a.point.minus(b.point).abs();
                        out.push(
                            JumpLink { from_id: a.id, to_id: b.id, direction: Direction::Backward, lag_sec: lag },
                        );
                    }
                }
                j = j + 1;
                assert(out@ =~= before + links_from(all, i as int, j as nat));
            }
            i = i + 1;
        }
        out
    }

    /// Cues grouped by component, in component order.
    pub fn components(&self) -> (r: Vec<Vec<&JumpCue>>)
        requires
            forall|i: int| 0 <= i < self@.len() ==> (#[trigger] self@[i]).component < usize::MAX,
        ensures
            r@.len() == component_count(self@, self@.len()),
            forall|c: int| 0 <= c < r@.len() ==> borrowed((#[trigger] r@[c])@) == members(self@, c as usize, self@.len()),
    {
        let ghost all = self@;
        let total: usize = self.cues.len();
        let mut count: usize = 0;
        let mut i: usize = 0;
        while i < total
            invariant
                i <= total == self.cues@.len(),
                all == regions(self.cues@),
                forall|k: int| 0 <= k < all.len() ==> (#[trigger] all[k]).component < usize::MAX,
                count == component_count(all, i as nat),
            decreases total - i,
        {
            assert(all[i as int] == self.cues@[i as int]@);
            if self.cues[i].component + 1 > count {
                count = self.cues[i].component + 1;
            }
            i = i + 1;
        }
        let mut out: Vec<Vec<&JumpCue>> = Vec::new();
        let mut c: usize = 0;
        while c < count
            invariant
                c <= count,
                total == self.cues@.len(),
                all == regions(self.cues@),
                out@.len() == c,
                forall|k: int| 0 <= k < c ==> borrowed((#[trigger] out@[k])@) == members(all, k as usize, all.len()),
            decreases count - c,
        {
            let mut group: Vec<&JumpCue> = Vec::new();
            let mut k: usize = 0;
            assert(borrowed(group@) =~= seq![]);
            while k < total
                invariant
                    k <= total == self.cues@.len(),
                    all == regions(self.cues@),
                    borrowed(group@) == members(all, c, k as nat),
                decreases total - k,
            {
                let cue: &JumpCue = &self.cues[k];
                assert(all[k as int] == cue@);
                if cue.component == c {
                    let ghost before = group@;
                    group.push(cue);
                    assert(borrowed(group@) =~= borrowed(before).push(cue@));
                }
                k = k + 1;
            }
            out.push(group);
            c = c + 1;
        }
        out
    }

    /// Rejects labels that are not unique single letters A-Z.
    ///
    /// Cues are keyed by label, so a duplicate or multi-character label would
    /// silently lose a cue.
    pub fn validate_labels(&self) -> (r: Result<(), DomainError>)
        ensures
            r is Ok <==> well_labelled(self@, self@.len() as int),
            r is Err ==> exists|k: int| reports_label(self@, k, r->Err_0),
    {
        let ghost all = self@;
        let total: usize = self.cues.len();
        let mut seen: Vec<String> = Vec::new();
        let mut i: usize = 0;
        while i < total
            invariant
                i <= total == self.cues@.len(),
                all == self@,
                all == regions(self.cues@),
                well_labelled(all, i as int),
                seen@.len() == i,
                forall|k: int| 0 <= k < i ==> (#[trigger] seen@[k])@ == label_key(all[k]),
            decreases total - i,
        {
            assert(all[i as int] == self.cues@[i as int]@);
            let label: String = uppercase_text(trim_text(self.cues[i].label.as_str()).as_str());
            let chars: Vec<char> = chars_of(label.as_str());
            if !(chars.len() == 1 && 'A' <= chars[0] && chars[0] <= 'Z') {
                let e: DomainError = DomainError::InvalidJumpCueLabel(copy_text(self.cues[i].label.as_str()));
                assert(!single_letter(label_key(all[i as int])));
                assert(!well_labelled(all, i + 1));
                assert(!well_labelled(all, all.len() as int));
                let r: Result<(), DomainError> = Err(e);
                assert(reports_label(self@, i as int, r->Err_0));
                return r;
            }
            let mut k: usize = 0;
            while k < i
                invariant
                    k <= i < total == all.len(),
                    all == self@,
                    seen@.len() == i,
                    well_labelled(all, i as int),
                    single_letter(label_key(all[i as int])),
                    label@ == label_key(all[i as int]),
                    forall|m: int| 0 <= m < i ==> (#[trigger] seen@[m])@ == label_key(all[m]),
                    forall|m: int| 0 <= m < k ==> label_key(#[trigger] all[m]) != label@,
                decreases i - k,
            {
                if same_text(seen[k].as_str(), label.as_str()) {
                    let e: DomainError = DomainError::DuplicateJumpCueLabel(label);
                    assert(label_key(all[k as int]) == label_key(all[i as int]));
                    assert(!well_labelled(all, i + 1));
                    assert(!well_labelled(all, all.len() as int));
                    let r: Result<(), DomainError> = Err(e);
                    assert(reports_label(self@, i as int, r->Err_0));
                    return r;
                }
                k = k + 1;
            }
            seen.push(label);
            i = i + 1;
        }
        Ok(())
    }
}

/// Whether a jump goes from region `i` to one of the first `n` others.
pub open spec fn goes_from(all: Seq<Region>, i: int, n: int, link: JumpLink) -> bool {
    exists|j: int| 0 <= j < n && #[trigger] linked(all, i, j) && link == link_between(all, i, j)
}

proof fn lemma_links_from(all: Seq<Region>, i: int, n: nat)
    requires
        0 <= i < all.len(),
        n <= all.len(),
    ensures
        forall|j: int|
            0 <= j < n && #[trigger] linked(all, i, j) ==> links_from(all, i, n).contains(link_between(all, i, j)),
        forall|k: int|
            0 <= k < links_from(all, i, n).len() ==> goes_from(all, i, n as int, #[trigger] links_from(all, i, n)[k]),
    decreases n,
{
    if n > 0 {
        let m = (n - 1) as nat;
        lemma_links_from(all, i, m);
        let before = links_from(all, i, m);
        let now = links_from(all, i, n);
        assert forall|j: int| 0 <= j < n && #[trigger] linked(all, i, j) implies now.contains(
            link_between(all, i, j),
        ) by {
            if j < m {
                let f = choose|f: int| 0 <= f < before.len() && before[f] == link_between(all, i, j);
                assert(now[f] == before[f]);
            } else {
                assert(now[before.len() as int] == link_between(all, i, j));
            }
        }
        assert forall|k: int| 0 <= k < now.len() implies goes_from(all, i, n as int, #[trigger] now[k]) by {
            if k < before.len() {
                assert(now[k] == before[k]);
                let j = choose|j: int|
                    0 <= j < m && #[trigger] linked(all, i, j) && before[k] == link_between(all, i, j);
                assert(linked(all, i, j) && now[k] == link_between(all, i, j));
            } else {
                assert(linked(all, i, m as int) && now[k] == link_between(all, i, m as int));
            }
        }
    }
}

/// Every jump from one of the first `n` regions is among their links.
proof fn lemma_links_hold(all: Seq<Region>, n: nat, i: int, j: int)
    requires
        n <= all.len(),
        0 <= i < n,
        0 <= j < all.len(),
        linked(all, i, j),
    ensures
        links_of(all, n).contains(link_between(all, i, j)),
    decreases n,
{
    let m = (n - 1) as nat;
    let before = links_of(all, m);
    let here = links_from(all, n - 1, all.len());
    let now = links_of(all, n);
    let f = link_between(all, i, j);
    if i < m {
        lemma_links_hold(all, m, i, j);
        let p = choose|p: int| 0 <= p < before.len() && before[p] == f;
        assert(now[p] == f);
    } else {
        lemma_links_from(all, n - 1, all.len());
        let p = choose|p: int| 0 <= p < here.len() && here[p] == f;
        assert(now[before.len() + p] == f);
    }
}

/// Every link goes from its source to another region.
proof fn lemma_links_go(all: Seq<Region>, n: nat)
    requires
        n <= all.len(),
    ensures
        sources_of(all, n).len() == links_of(all, n).len(),
        forall|k: int|
            0 <= k < links_of(all, n).len() ==> 0 <= #[trigger] sources_of(all, n)[k] < n && goes_from(
                all,
                sources_of(all, n)[k],
                all.len() as int,
                links_of(all, n)[k],
            ),
    decreases n,
{
    if n > 0 {
        let m = (n - 1) as nat;
        lemma_links_go(all, m);
        lemma_links_from(all, n - 1, all.len());
        let before = links_of(all, m);
        let here = links_from(all, n - 1, all.len());
        let now = links_of(all, n);
        assert(now == before + here);
        assert forall|k: int| 0 <= k < now.len() implies 0 <= #[trigger] sources_of(all, n)[k] < n && goes_from(
            all,
            sources_of(all, n)[k],
            all.len() as int,
            now[k],
        ) by {
            if k < before.len() {
                assert(now[k] == before[k]);
                assert(sources_of(all, n)[k] == sources_of(all, m)[k]);
            } else {
                assert(now[k] == here[k - before.len()]);
                assert(sources_of(all, n)[k] == n - 1);
            }
        }
    }
}

/// Any two cues of one component are joined both ways, and nothing else is:
/// among the links that start from the first `n` cues.
pub proof fn law_links_join_each_component(all: Seq<Region>, n: nat)
    requires
        n <= all.len(),
    ensures
        forall|i: int, j: int|
            0 <= i < n && 0 <= j < all.len() && #[trigger] linked(all, i, j) ==> links_of(all, n).contains(
                link_between(all, i, j),
            ),
        sources_of(all, n).len() == links_of(all, n).len(),
        forall|k: int|
            0 <= k < links_of(all, n).len() ==> 0 <= #[trigger] sources_of(all, n)[k] < n && goes_from(
                all,
                sources_of(all, n)[k],
                all.len() as int,
                links_of(all, n)[k],
            ),
{
    lemma_links_go(all, n);
    assert forall|i: int, j: int| 0 <= i < n && 0 <= j < all.len() && #[trigger] linked(all, i, j) implies links_of(
        all,
        n,
    ).contains(link_between(all, i, j)) by {
        lemma_links_hold(all, n, i, j);
    }
}

/// The cues that the links start from never go back: each link starts from its
/// source, and no source stands before that of an earlier link.
pub proof fn law_links_go_by_source(all: Seq<Region>, n: nat)
    requires
        n <= all.len(),
    ensures
        sources_of(all, n).len() == links_of(all, n).len(),
        forall|k: int|
            0 <= k < links_of(all, n).len() ==> 0 <= #[trigger] sources_of(all, n)[k] < n && links_of(all, n)[k].from_id
                == all[sources_of(all, n)[k]].id,
        forall|k: int, l: int|
            0 <= k < l < links_of(all, n).len() ==> #[trigger] sources_of(all, n)[k] <= #[trigger] sources_of(all, n)[l],
    decreases n,
{
    lemma_links_go(all, n);
    assert forall|k: int| 0 <= k < links_of(all, n).len() implies links_of(all, n)[k].from_id
        == all[#[trigger] sources_of(all, n)[k]].id by {
        assert(goes_from(all, sources_of(all, n)[k], all.len() as int, links_of(all, n)[k]));
    }
    if n > 0 {
        let m = (n - 1) as nat;
        law_links_go_by_source(all, m);
        let before = sources_of(all, m);
        let now = sources_of(all, n);
        assert forall|k: int, l: int| 0 <= k < l < now.len() implies #[trigger] now[k] <= #[trigger] now[l] by {
            if l < before.len() {
                assert(now[k] == before[k] && now[l] == before[l]);
            } else {
                assert(now[l] == n - 1);
                if k < before.len() {
                    assert(now[k] == before[k]);
                }
            }
        }
    }
}

/// The links of a graph are sorted by the point they start from.
pub proof fn law_links_go_by_point(all: Seq<Region>)
    requires
        forall|i: int, j: int| 0 <= i < j < all.len() ==> (#[trigger] all[i]).point.rank() <= (#[trigger] all[j]).point.rank(),
    ensures
        forall|k: int, l: int|
            0 <= k < l < links_of(all, all.len()).len() ==> all[#[trigger] sources_of(all, all.len())[k]].point.rank()
                <= all[#[trigger] sources_of(all, all.len())[l]].point.rank(),
{
    law_links_go_by_source(all, all.len());
    let sources = sources_of(all, all.len());
    assert forall|k: int, l: int| 0 <= k < l < sources.len() implies all[#[trigger] sources[k]].point.rank()
        <= all[#[trigger] sources[l]].point.rank() by {
        assert(0 <= sources[k] <= sources[l] < all.len());
    }
}

/// The letter at a place of the alphabet.
pub open spec fn letter_at(index: nat) -> char {
    (65 + index) as char
}

/// The label for the cue at `index`: `A`, `B`, ... `Z`.
///
/// There is none past 26 cues: labels key the cues, and a wrapped label would
/// collide with an existing cue.
pub fn label_from_index(index: usize) -> (r: Option<String>)
    ensures
        r is Some <==> index < 26,
        r is Some ==> r->0@ == seq![letter_at(index as nat)],
{
    if index < 26 {
        let mut text: String = String::new();
        text.push((65 + index as u8) as char);
        assert(text@ =~= seq![letter_at(index as nat)]);
        Some(text)
    } else {
        None
    }
}

/// No two cues share a label, and every label is a single letter.
pub proof fn law_labels_are_distinct_letters(i: nat, j: nat)
    requires
        i < j < 26,
    ensures
        seq![letter_at(i)] != seq![letter_at(j)],
        single_letter(seq![letter_at(i)]),
        single_letter(seq![letter_at(j)]),
{
    assert(seq![letter_at(i)][0] != seq![letter_at(j)][0]);
}

/// Whether two regions sit on the same spot.
pub open spec fn same_spot(a: Region, b: Region) -> bool {
    &&& absolute(difference(a.point, b.point)).spec_le(micro())
    &&& absolute(difference(a.start, b.start)).spec_le(micro())
    &&& absolute(difference(a.end, b.end)).spec_le(micro())
}

/// The first `n` regions, each that sits on the spot of one before it left out.
pub open spec fn one_per_spot(all: Seq<Region>, n: nat) -> Seq<Region>
    decreases n,
{
    if n == 0 {
        seq![]
    } else {
        let before = one_per_spot(all, (n - 1) as nat);
        if exists|i: int| 0 <= i < before.len() && same_spot(#[trigger] before[i], all[n - 1]) {
            before
        } else {
            before.push(all[n - 1])
        }
    }
}

/// Regions with their places as ids.
pub open spec fn renumbered(all: Seq<Region>) -> Seq<Region> {
    Seq::new(all.len(), |i: int| Region { id: i as usize, ..all[i] })
}

/// The cues by point, the first of each that sit on the same spot.
fn keep_one_per_spot(cues: &Vec<JumpCue>) -> (r: Vec<JumpCue>)
    ensures
        regions(r@) == one_per_spot(by_point(regions(cues@)), cues@.len()),
{
    let sorted: Vec<JumpCue> = sort_by_point(cues);
    let ghost all = regions(sorted@);
    let total: usize = cues.len();
    proof {
        law_order_is_stable(point_keys(regions(cues@)), total as nat);
        assert(all.len() == cues@.len());
    }
    let mut kept: Vec<JumpCue> = Vec::new();
    let mut i: usize = 0;
    while i < sorted.len()
        invariant
            i <= sorted@.len() == cues@.len(),
            all == regions(sorted@),
            regions(kept@) == one_per_spot(all, i as nat),
        decreases sorted@.len() - i,
    {
        let cue: &JumpCue = &sorted[i];
        assert(all[i as int] == cue@);
        let ghost before = one_per_spot(all, i as nat);
        let mut duplicate: bool = false;
        let mut k: usize = 0;
        while k < kept.len() && !duplicate
            invariant
                k <= kept@.len(),
                regions(kept@) == before,
                all[i as int] == cue@,
                duplicate ==> exists|m: int| 0 <= m < before.len() && same_spot(#[trigger] before[m], cue@),
                !duplicate ==> forall|m: int| 0 <= m < k ==> !same_spot(#[trigger] before[m], cue@),
            decreases kept@.len() - k + (if duplicate {
                0int
            } else {
                1int
            }),
        {
            assert(before[k as int] == kept@[k as int]@);
            if kept[k].point.minus(cue.point).abs().le(micro()) && kept[k].start.minus(cue.start).abs().le(micro())
                && kept[k].end.minus(cue.end).abs().le(micro()) {
                assert(same_spot(before[k as int], cue@));
                duplicate = true;
            } else {
                k = k + 1;
            }
        }
        if !duplicate {
            let row: JumpCue = cue.numbered(cue.id);
            proof {
                lemma_regions_push(kept@, row);
            }
            kept.push(row);
        }
        i = i + 1;
    }
    kept
}

/// Merges cues that sit on the same spot, keeping the first of each cluster.
/// The surviving cues are renumbered from zero.
pub fn merge_coincident(cues: &Vec<JumpCue>) -> (r: Vec<JumpCue>)
    ensures
        regions(r@) == renumbered(one_per_spot(by_point(regions(cues@)), cues@.len())),
{
    let kept: Vec<JumpCue> = keep_one_per_spot(cues);
    let ghost want = renumbered(regions(kept@));
    let mut out: Vec<JumpCue> = Vec::new();
    let mut j: usize = 0;
    while j < kept.len()
        invariant
            j <= kept@.len(),
            want == renumbered(regions(kept@)),
            regions(out@) == want.take(j as int),
        decreases kept@.len() - j,
    {
        let row: JumpCue = kept[j].numbered(j);
        proof {
            lemma_regions_push(out@, row);
        }
        out.push(row);
        j = j + 1;
        assert(regions(out@) =~= want.take(j as int));
    }
    assert(regions(out@) =~= want);
    out
}

/// No two cues that are left after merging sit on the same spot.
pub proof fn law_merged_cues_are_apart(all: Seq<Region>, n: nat)
    requires
        n <= all.len(),
    ensures
        forall|i: int, j: int|
            0 <= i < j < one_per_spot(all, n).len() ==> !same_spot(
                #[trigger] one_per_spot(all, n)[i],
                #[trigger] one_per_spot(all, n)[j],
            ),
        one_per_spot(all, n).len() <= n,
    decreases n,
{
    if n > 0 {
        law_merged_cues_are_apart(all, (n - 1) as nat);
        let before = one_per_spot(all, (n - 1) as nat);
        let now = one_per_spot(all, n);
        assert forall|i: int, j: int| 0 <= i < j < now.len() implies !same_spot(
            #[trigger] now[i],
            #[trigger] now[j],
        ) by {
            assert(now[i] == before[i]);
            if j < before.len() {
                assert(now[j] == before[j]);
            }
        }
    }
}

/// Every cue that is left after merging is one of the given cues.
pub proof fn lemma_merged_are_given(all: Seq<Region>, n: nat, i: int) -> (k: int)
    requires
        n <= all.len(),
        0 <= i < one_per_spot(all, n).len(),
    ensures
        0 <= k < n,
        one_per_spot(all, n)[i] == all[k],
    decreases n,
{
    if i < one_per_spot(all, (n - 1) as nat).len() {
        lemma_merged_are_given(all, (n - 1) as nat, i)
    } else {
        n - 1
    }
}

/// Cues that are left after merging keep their order.
pub proof fn lemma_merged_keep_their_order(all: Seq<Region>, n: nat, i: int, j: int) -> (r: (int, int))
    requires
        n <= all.len(),
        0 <= i < j < one_per_spot(all, n).len(),
    ensures
        0 <= r.0 < r.1 < n,
        one_per_spot(all, n)[i] == all[r.0],
        one_per_spot(all, n)[j] == all[r.1],
    decreases n,
{
    let before = one_per_spot(all, (n - 1) as nat);
    if j < before.len() {
        lemma_merged_keep_their_order(all, (n - 1) as nat, i, j)
    } else {
        (lemma_merged_are_given(all, (n - 1) as nat, i), n - 1)
    }
}

/// No cue is lost by merging: each of the first `n` is left, or one on its spot
/// is.
pub proof fn law_merging_keeps_every_spot(all: Seq<Region>, n: nat, k: int) -> (i: int)
    requires
        0 <= k < n <= all.len(),
    ensures
        0 <= i < one_per_spot(all, n).len(),
        one_per_spot(all, n)[i] == all[k] || same_spot(one_per_spot(all, n)[i], all[k]),
    decreases n,
{
    let before = one_per_spot(all, (n - 1) as nat);
    let now = one_per_spot(all, n);
    if k < n - 1 {
        let i = law_merging_keeps_every_spot(all, (n - 1) as nat, k);
        assert(now[i] == before[i]);
        i
    } else if exists|i: int| 0 <= i < before.len() && same_spot(#[trigger] before[i], all[n - 1]) {
        choose|i: int| 0 <= i < before.len() && same_spot(#[trigger] before[i], all[n - 1])
    } else {
        now.len() - 1
    }
}

/// Cues of which no two sit on one spot are all left.
pub proof fn lemma_cues_apart_stay(all: Seq<Region>, n: nat)
    requires
        n <= all.len(),
        forall|i: int, j: int| 0 <= i < j < all.len() ==> !same_spot(#[trigger] all[i], #[trigger] all[j]),
    ensures
        one_per_spot(all, n) == all.take(n as int),
    decreases n,
{
    if n > 0 {
        lemma_cues_apart_stay(all, (n - 1) as nat);
        let before = one_per_spot(all, (n - 1) as nat);
        assert forall|i: int| 0 <= i < before.len() implies !same_spot(#[trigger] before[i], all[n - 1]) by {
            assert(before[i] == all[i]);
        }
        assert(all.take(n - 1).push(all[n - 1]) =~= all.take(n as int));
    } else {
        assert(all.take(0) =~= seq![]);
    }
}

/// The given cue that stands at a place of those by point.
pub proof fn lemma_sorted_cue_is_given(all: Seq<Region>, i: int) -> (k: int)
    requires
        all.len() <= usize::MAX,
        0 <= i < by_point(all).len(),
    ensures
        0 <= k < all.len(),
        by_point(all)[i] == all[k],
{
    let keys = point_keys(all);
    law_order_is_stable(keys, keys.len());
    in_order(keys)[i] as int
}

/// Cues that stand by point, and by id where points are equal, stay in place.
pub proof fn lemma_sorted_cues_stay(all: Seq<Region>)
    requires
        all.len() <= usize::MAX,
        forall|i: int, j: int|
            0 <= i < j < all.len() ==> (#[trigger] all[i]).point.rank() < (#[trigger] all[j]).point.rank() || (
            all[i].point.rank() == all[j].point.rank() && all[i].id <= all[j].id),
    ensures
        by_point(all) == all,
{
    let keys = point_keys(all);
    assert forall|i: int, j: int| 0 <= i < j < keys.len() implies keys[i] <= keys[j] by {
        let a = all[i];
        let b = all[j];
        assert(-0x8000_0000_0000_0000 < a.point.rank() < 0x8000_0000_0000_0000);
        assert(-0x8000_0000_0000_0000 < b.point.rank() < 0x8000_0000_0000_0000);
        law_joint_keys_order_pairs(a.point.rank(), b.point.rank(), a.id as nat, b.id as nat);
    }
    law_sorted_keys_keep_their_places(keys, keys.len());
    assert(by_point(all) =~= all);
}

/// A link goes from its first cue to its second, forwards exactly if the second
/// comes later, and the link back is as long and goes the other way.
pub proof fn law_links_can_be_retraced(all: Seq<Region>, i: int, j: int)
    requires
        0 <= i < j < all.len(),
    ensures
        link_between(all, i, j).from_id == all[i].id && link_between(all, i, j).to_id == all[j].id,
        link_between(all, j, i).from_id == all[j].id && link_between(all, j, i).to_id == all[i].id,
        link_between(all, i, j).direction == Direction::Forward,
        link_between(all, j, i).direction == Direction::Backward,
        link_between(all, i, j).lag_sec == link_between(all, j, i).lag_sec,
        link_between(all, i, j).lag_sec == absolute(difference(all[j].point, all[i].point)),
{
}

/// The members of a component are its cues, in their order, and no others.
pub proof fn law_members_are_the_cues_of_a_component(all: Seq<Region>, component: usize, n: nat) -> (of: Seq<int>)
    requires
        n <= all.len(),
    ensures
        of.len() == members(all, component, n).len(),
        forall|a: int, b: int| 0 <= a < b < of.len() ==> #[trigger] of[a] < #[trigger] of[b],
        forall|m: int|
            0 <= m < of.len() ==> 0 <= #[trigger] of[m] < n && all[of[m]].component == component && members(
                all,
                component,
                n,
            )[m] == all[of[m]],
        forall|i: int| 0 <= i < n && (#[trigger] all[i]).component == component ==> of.contains(i),
    decreases n,
{
    if n == 0 {
        seq![]
    } else {
        let before = law_members_are_the_cues_of_a_component(all, component, (n - 1) as nat);
        if all[n - 1].component == component {
            let of = before.push(n - 1);
            assert forall|i: int| 0 <= i < n && (#[trigger] all[i]).component == component implies of.contains(i) by {
                if i < n - 1 {
                    let m = choose|m: int| 0 <= m < before.len() && before[m] == i;
                    assert(of[m] == i);
                } else {
                    assert(of[before.len() as int] == i);
                }
            }
            of
        } else {
            before
        }
    }
}

/// There are as many components as the highest of them needs.
pub proof fn law_components_are_counted_to_the_highest(all: Seq<Region>, n: nat)
    requires
        n <= all.len(),
    ensures
        forall|i: int| 0 <= i < n ==> (#[trigger] all[i]).component < component_count(all, n),
        n == 0 ==> component_count(all, n) == 0,
        n > 0 ==> exists|i: int| 0 <= i < n && (#[trigger] all[i]).component + 1 == component_count(all, n),
    decreases n,
{
    if n > 0 {
        law_components_are_counted_to_the_highest(all, (n - 1) as nat);
        let before = component_count(all, (n - 1) as nat);
        if all[n - 1].component + 1 > before {
            assert(all[n - 1].component + 1 == component_count(all, n));
        } else {
            let i = choose|i: int| 0 <= i < n - 1 && (#[trigger] all[i]).component + 1 == before;
            assert(all[i].component + 1 == component_count(all, n));
        }
    }
}

} // verus!
