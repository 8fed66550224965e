//! Links between stretches of a track that sound alike, and the jump graph
//! that a list of links makes.
//!
//! Two links that name the same stretch share one cue, so a passage that comes
//! three times is one group of three cues that can all be jumped between.

use crate::analyze::groups::{united, Groups};
use crate::domain::jumpcue::{
    by_point, label_from_index, law_cues_go_by_point, law_merged_cues_are_apart, law_merging_keeps_every_spot,
    lemma_cues_apart_stay, lemma_merged_are_given, lemma_merged_keep_their_order, lemma_sorted_cue_is_given,
    lemma_sorted_cues_stay, letter_at, merge_coincident, one_per_spot, regions, renumbered, same_spot, JumpCue, JumpCueGraph,
};
use crate::number::binary64::{
    absolute, difference, half, larger, micro, negated, of_int, product, smaller, zero, Binary64,
};
use crate::number::laws::law_comparison_is_numeric;
use crate::number::fixed::{fixed, fixed_text};
use crate::order::{in_order, law_order_is_stable, stable_order};
use crate::text::{copy_text, join_texts, joined, views};
use vstd::prelude::*;

verus! {

/// One end of a link: a stretch of track, and the instant to jump to inside it.
#[derive(Debug, Clone, Copy, PartialEq, Structural)]
pub struct Region {
    pub start: Binary64,
    pub end: Binary64,
    /// The beat inside `[start, end]` where the two regions are most alike.
    pub point: Binary64,
}

/// Two regions of a track that sound alike.
#[derive(Debug, Clone, Copy, PartialEq, Structural)]
pub struct SimilarLink {
    /// The earlier of the two regions.
    pub earlier: Region,
    /// The later of the two regions.
    pub later: Region,
    /// Repeat distance, in beats.
    pub lag_beats: Binary64,
    /// Repeat distance, in seconds.
    pub lag_sec: Binary64,
    /// Mean cosine similarity over the overlapping run, `-1..=1`.
    pub score: Binary64,
    /// This link's share of the emitted links' scores, `0..=1`.
    pub confidence: Binary64,
}

/// The length of a region, never negative.
pub open spec fn length(a: Region) -> Binary64 {
    larger(difference(a.end, a.start), zero())
}

/// The seconds that two regions have in common.
pub open spec fn common(a: Region, b: Region) -> Binary64 {
    larger(difference(smaller(a.end, b.end), larger(a.start, b.start)), zero())
}

/// Whether two regions share more than half of the shorter one.
pub open spec fn same_stretch(a: Region, b: Region) -> bool {
    let shortest = smaller(length(a), length(b));
    zero().spec_lt(shortest) && product(half(), shortest).spec_lt(common(a, b))
}

impl Region {
    /// The length of the region, never negative.
    pub fn duration(&self) -> (r: Binary64)
        ensures
            r == length(*self),
    {
        self.end.minus(self.start).max(zero())
    }

    /// Seconds these two regions have in common.
    pub fn overlap(&self, other: &Region) -> (r: Binary64)
        ensures
            r == common(*self, *other),
    {
        self.end.min(other.end).minus(self.start.max(other.start)).max(zero())
    }

    /// Whether these describe the same stretch of track.
    ///
    /// Two lag peaks, a repeat and its double, say, routinely land on the same
    /// passage.
    pub fn is_same_as(&self, other: &Region) -> (r: bool)
        ensures
            r == same_stretch(*self, *other),
    {
        let shortest: Binary64 = self.duration().min(other.duration());
        zero().lt(shortest) && half().times(shortest).lt(self.overlap(other))
    }
}

/// The regions that links have named so far, how sure the best link of each
/// is, and the name of the group each is in.
#[verifier::ext_equal]
pub struct Found {
    pub nodes: Seq<Region>,
    pub confidence: Seq<Binary64>,
    pub names: Seq<usize>,
}

/// Where a region stands among the nodes: the first that is the same stretch,
/// or the place behind the last.
pub open spec fn place_of(nodes: Seq<Region>, region: Region) -> int {
    place_from(nodes, region, 0)
}

/// The first place from `from` on that holds the same stretch, else the end.
pub open spec fn place_from(nodes: Seq<Region>, region: Region, from: int) -> int
    decreases nodes.len() - from,
{
    if from < 0 || from >= nodes.len() {
        nodes.len() as int
    } else if same_stretch(nodes[from], region) {
        from
    } else {
        place_from(nodes, region, from + 1)
    }
}

/// What is found after a link named a region.
pub open spec fn interned(found: Found, region: Region, confidence: Binary64) -> Found {
    let at = place_of(found.nodes, region);
    if at < found.nodes.len() {
        Found { confidence: found.confidence.update(at, larger(found.confidence[at], confidence)), ..found }
    } else {
        Found {
            nodes: found.nodes.push(region),
            confidence: found.confidence.push(confidence),
            names: found.names.push(at as usize),
        }
    }
}

/// What is found after one more link.
pub open spec fn with_link(found: Found, link: SimilarLink) -> Found {
    let earlier = place_of(found.nodes, link.earlier);
    let one = interned(found, link.earlier, link.confidence);
    let later = place_of(one.nodes, link.later);
    let both = interned(one, link.later, link.confidence);
    Found { names: united(both.names, earlier, later), ..both }
}

/// What the first `n` links name.
pub open spec fn gathered(links: Seq<SimilarLink>, n: nat) -> Found
    decreases n,
{
    if n == 0 {
        Found { nodes: seq![], confidence: seq![], names: seq![] }
    } else {
        with_link(gathered(links, (n - 1) as nat), links[n - 1])
    }
}

/// Sort keys that go by the jump point.
pub open spec fn jump_keys(nodes: Seq<Region>) -> Seq<i128> {
    nodes.map_values(|a: Region| a.point.rank() as i128)
}

/// The places of the nodes by jump point, as many as there are letters.
pub open spec fn lettered(nodes: Seq<Region>) -> Seq<usize> {
    let order = in_order(jump_keys(nodes));
    if order.len() > 26 {
        order.take(26)
    } else {
        order
    }
}

/// The different group names of the first `n` cues, as they first come.
pub open spec fn group_list(found: Found, shown: Seq<usize>, n: nat) -> Seq<usize>
    decreases n,
{
    if n == 0 {
        seq![]
    } else {
        let before = group_list(found, shown, (n - 1) as nat);
        let name = found.names[shown[n - 1] as int];
        if before.contains(name) {
            before
        } else {
            before.push(name)
        }
    }
}

/// The labels of the cues before `n` that share the group of cue `p`.
pub open spec fn peers(found: Found, shown: Seq<usize>, p: int, n: nat) -> Seq<Seq<char>>
    decreases n,
{
    if n == 0 {
        seq![]
    } else {
        let before = peers(found, shown, p, (n - 1) as nat);
        if shown[n - 1] != shown[p] && found.names[shown[n - 1] as int] == found.names[shown[p] as int] {
            before.push(seq![letter_at((n - 1) as nat)])
        } else {
            before
        }
    }
}

/// What a cue says of itself: where it can jump to.
pub open spec fn remark(others: Seq<Seq<char>>, confidence: Binary64) -> Seq<char> {
    if others.len() == 0 {
        "jump cue"@
    } else {
        "jump to "@ + joined(others, ", "@) + " ("@ + fixed(product(confidence, of_int(100)), 0) + "% confidence)"@
    }
}

/// The cue at place `p`.
pub open spec fn cue_at(found: Found, shown: Seq<usize>, p: int) -> crate::domain::jumpcue::Region {
    let node = shown[p] as int;
    crate::domain::jumpcue::Region {
        id: p as usize,
        label: seq![letter_at(p as nat)],
        comment: remark(peers(found, shown, p, shown.len()), found.confidence[node]),
        start: found.nodes[node].start,
        end: found.nodes[node].end,
        point: found.nodes[node].point,
        component: group_list(found, shown, shown.len()).index_of(found.names[node]) as usize,
    }
}

/// The cues that links make, before those on one spot are merged.
pub open spec fn cues_of(links: Seq<SimilarLink>) -> Seq<crate::domain::jumpcue::Region> {
    let found = gathered(links, links.len());
    let shown = lettered(found.nodes);
    Seq::new(shown.len(), |p: int| cue_at(found, shown, p))
}

/// The graph that links make.
pub open spec fn graph_of(links: Seq<SimilarLink>) -> Seq<crate::domain::jumpcue::Region> {
    let cues = cues_of(links);
    let merged = renumbered(one_per_spot(by_point(cues), cues.len()));
    one_per_spot(by_point(merged), merged.len())
}

/// The regions named so far, with the groups they are in.
pub struct Collection {
    nodes: Vec<Region>,
    confidence: Vec<Binary64>,
    groups: Groups,
}

impl View for Collection {
    type V = Found;

    closed spec fn view(&self) -> Found {
        Found { nodes: self.nodes@, confidence: self.confidence@, names: self.groups@ }
    }
}

impl Collection {
    /// Whether there is a confidence and a group for every region.
    pub closed spec fn wf(&self) -> bool {
        &&& self.groups.wf()
        &&& self.nodes@.len() == self.confidence@.len()
        &&& self.nodes@.len() == self.groups@.len()
    }

    /// No regions yet.
    pub fn new() -> (r: Self)
        ensures
            r.wf(),
            r@ == (Found { nodes: seq![], confidence: seq![], names: seq![] }),
    {
        let r: Collection = Collection { nodes: Vec::new(), confidence: Vec::new(), groups: Groups::new() };
        assert(r@ =~= Found { nodes: seq![], confidence: seq![], names: seq![] });
        r
    }

    /// Finds the node for `region`, adding one if no existing node is that
    /// region.
    pub fn intern_region(&mut self, region: Region, link_confidence: Binary64) -> (r: usize)
        requires
            old(self).wf(),
        ensures
            final(self).wf(),
            final(self)@ == interned(old(self)@, region, link_confidence),
            r == place_of(old(self)@.nodes, region),
            r < final(self)@.nodes.len(),
    {
        let mut i: usize = 0;
        while i < self.nodes.len()
            invariant
                i <= self.nodes@.len(),
                self.wf(),
                *self == *old(self),
                place_of(self.nodes@, region) == place_from(self.nodes@, region, i as int),
            decreases self.nodes@.len() - i,
        {
            if self.nodes[i].is_same_as(&region) {
                let better: Binary64 = self.confidence[i].max(link_confidence);
                self.confidence.set(i, better);
                return i;
            }
            i = i + 1;
        }
        let at: usize = self.nodes.len();
        self.nodes.push(region);
        self.confidence.push(link_confidence);
        let _ = self.groups.add_member();
        at
    }

    /// Takes in a link: both its regions, in one group.
    pub fn add_link(&mut self, link: &SimilarLink)
        requires
            old(self).wf(),
        ensures
            final(self).wf(),
            final(self)@ == with_link(old(self)@, *link),
    {
        let earlier: usize = self.intern_region(link.earlier, link.confidence);
        let later: usize = self.intern_region(link.later, link.confidence);
        self.groups.union(earlier, later);
    }
}

/// The list of different groups names each once, and every group of the first
/// `n` cues.
proof fn lemma_group_list(found: Found, shown: Seq<usize>, n: nat)
    requires
        n <= shown.len(),
    ensures
        group_list(found, shown, n).no_duplicates(),
        group_list(found, shown, n).len() <= n,
        forall|q: int|
            0 <= q < n ==> group_list(found, shown, n).contains(found.names[#[trigger] shown[q] as int]),
    decreases n,
{
    if n > 0 {
        lemma_group_list(found, shown, (n - 1) as nat);
        let before = group_list(found, shown, (n - 1) as nat);
        let now = group_list(found, shown, n);
        let name = found.names[shown[n - 1] as int];
        if !before.contains(name) {
            assert(now[before.len() as int] == name);
            assert forall|q: int| 0 <= q < n implies now.contains(found.names[#[trigger] shown[q] as int]) by {
                if q < n - 1 {
                    let at = before.index_of(found.names[shown[q] as int]);
                    assert(now[at] == found.names[shown[q] as int]);
                }
            }
        }
    }
}

/// The first place of a name in a list, or its length.
fn place_in(list: &Vec<usize>, name: usize) -> (r: usize)
    ensures
        r <= list@.len(),
        r < list@.len() ==> list@[r as int] == name,
        r == list@.len() ==> !list@.contains(name),
{
    let mut i: usize = 0;
    while i < list.len()
        invariant
            i <= list@.len(),
            forall|k: int| 0 <= k < i ==> list@[k] != name,
        decreases list@.len() - i,
    {
        if list[i] == name {
            return i;
        }
        i = i + 1;
    }
    i
}

impl Collection {
    /// The name of the group that each region is in.
    fn names(&mut self) -> (r: Vec<usize>)
        requires
            old(self).wf(),
        ensures
            final(self).wf(),
            final(self)@ == old(self)@,
            r@ == old(self)@.names,
    {
        let total: usize = self.nodes.len();
        let mut out: Vec<usize> = Vec::new();
        let mut i: usize = 0;
        while i < total
            invariant
                i <= total,
                total == self.nodes@.len(),
                self.wf(),
                self@ == old(self)@,
                out@ == self.groups@.take(i as int),
            decreases total - i,
        {
            out.push(self.groups.find(i));
            i = i + 1;
            assert(out@ =~= self.groups@.take(i as int));
        }
        assert(out@ =~= self.groups@);
        out
    }

    /// The places of the regions by jump point, as many as there are letters.
    fn lettered(&self) -> (r: Vec<usize>)
        requires
            self.wf(),
        ensures
            r@ == lettered(self@.nodes),
            forall|i: int| 0 <= i < r@.len() ==> (#[trigger] r@[i]) < self@.nodes.len(),
            r@.len() <= 26,
    {
        let mut keys: Vec<i128> = Vec::new();
        let mut i: usize = 0;
        while i < self.nodes.len()
            invariant
                i <= self.nodes@.len(),
                keys@ == jump_keys(self.nodes@).take(i as int),
            decreases self.nodes@.len() - i,
        {
            keys.push(self.nodes[i].point.rank_key());
            i = i + 1;
            assert(keys@ =~= jump_keys(self.nodes@).take(i as int));
        }
        assert(keys@ =~= jump_keys(self.nodes@));
        let order: Vec<usize> = stable_order(&keys);
        let mut out: Vec<usize> = Vec::new();
        let mut k: usize = 0;
        while k < order.len() && k < 26
            invariant
                k <= order@.len(),
                k <= 26,
                out@ == order@.take(k as int),
            decreases order@.len() - k,
        {
            out.push(order[k]);
            k = k + 1;
            assert(out@ =~= order@.take(k as int));
        }
        assert(out@ =~= lettered(self@.nodes));
        out
    }
}

/// The different group names of the cues, as they first come.
fn list_groups(names: &Vec<usize>, shown: &Vec<usize>, Ghost(found): Ghost<Found>) -> (r: Vec<usize>)
    requires
        names@ == found.names,
        forall|i: int| 0 <= i < shown@.len() ==> (#[trigger] shown@[i]) < names@.len(),
    ensures
        r@ == group_list(found, shown@, shown@.len()),
{
    let mut out: Vec<usize> = Vec::new();
    let mut i: usize = 0;
    while i < shown.len()
        invariant
            i <= shown@.len(),
            names@ == found.names,
            forall|k: int| 0 <= k < shown@.len() ==> (#[trigger] shown@[k]) < names@.len(),
            out@ == group_list(found, shown@, i as nat),
        decreases shown@.len() - i,
    {
        let name: usize = names[shown[i]];
        let at: usize = place_in(&out, name);
        if at == out.len() {
            out.push(name);
        }
        i = i + 1;
    }
    out
}

/// The labels of the cues that share the group of cue `p`.
fn list_peers(names: &Vec<usize>, shown: &Vec<usize>, p: usize, Ghost(found): Ghost<Found>) -> (r: Vec<String>)
    requires
        names@ == found.names,
        p < shown@.len() <= 26,
        forall|i: int| 0 <= i < shown@.len() ==> (#[trigger] shown@[i]) < names@.len(),
    ensures
        views(r@) == peers(found, shown@, p as int, shown@.len()),
{
    let mut out: Vec<String> = Vec::new();
    let mut i: usize = 0;
    assert(views(out@) =~= peers(found, shown@, p as int, 0));
    while i < shown.len()
        invariant
            i <= shown@.len() <= 26,
            p < shown@.len(),
            names@ == found.names,
            forall|k: int| 0 <= k < shown@.len() ==> (#[trigger] shown@[k]) < names@.len(),
            views(out@) == peers(found, shown@, p as int, i as nat),
        decreases shown@.len() - i,
    {
        if shown[i] != shown[p] && names[shown[i]] == names[shown[p]] {
            match label_from_index(i) {
                Some(label) => {
                    let ghost before = out@;
                    out.push(label);
                    assert(views(out@) =~= views(before).push(label@));
                },
                None => {},
            }
        }
        i = i + 1;
    }
    out
}

/// What a cue says of itself: where it can jump to.
fn remark_text(others: &Vec<String>, confidence: Binary64) -> (r: String)
    ensures
        r@ == remark(views(others@), confidence),
{
    if others.len() == 0 {
        return copy_text("jump cue");
    }
    let mut out: String = copy_text("jump to ");
    out.push_str(join_texts(others, ", ").as_str());
    out.push_str(" (");
    out.push_str(fixed_text(confidence.times(Binary64::from_u64(100)), 0).as_str());
    out.push_str("% confidence)");
    out
}

/// Turns links into labelled cues grouped into reachable components.
///
/// Two links that name the same region share one cue. Components are numbered
/// in the order their first cue appears, so the colours run down the track.
/// Labels are single letters, so there are no more cues than letters.
pub fn graph_from_links(links: &Vec<SimilarLink>) -> (r: JumpCueGraph)
    ensures
        r@ == graph_of(links@),
{
    let mut all: Collection = Collection::new();
    let mut i: usize = 0;
    while i < links.len()
        invariant
            i <= links@.len(),
            all.wf(),
            all@ == gathered(links@, i as nat),
        decreases links@.len() - i,
    {
        all.add_link(&links[i]);
        i = i + 1;
    }
    let ghost found = gathered(links@, links@.len());
    let names: Vec<usize> = all.names();
    let shown: Vec<usize> = all.lettered();
    let list: Vec<usize> = list_groups(&names, &shown, Ghost(found));
    proof {
        lemma_group_list(found, shown@, shown@.len());
    }
    let ghost want = cues_of(links@);
    let mut cues: Vec<JumpCue> = Vec::new();
    let mut p: usize = 0;
    assert(regions(cues@) =~= want.take(0));
    while p < shown.len()
        invariant
            p <= shown@.len() <= 26,
            all.wf(),
            all@ == found,
            names@ == found.names,
            shown@ == lettered(found.nodes),
            want == Seq::new(shown@.len(), |q: int| cue_at(found, shown@, q)),
            list@ == group_list(found, shown@, shown@.len()),
            list@.no_duplicates(),
            forall|q: int| 0 <= q < shown@.len() ==> list@.contains(found.names[#[trigger] shown@[q] as int]),
            forall|k: int| 0 <= k < shown@.len() ==> (#[trigger] shown@[k]) < names@.len(),
            regions(cues@) == want.take(p as int),
        decreases shown@.len() - p,
    {
        let node: usize = shown[p];
        let component: usize = place_in(&list, names[node]);
        assert(list@.contains(found.names[shown@[p as int] as int]));
        assert(component == list@.index_of(names@[node as int]));
        let others: Vec<String> = list_peers(&names, &shown, p, Ghost(found));
        let region: Region = all.nodes[node];
        match label_from_index(p) {
            Some(label) => {
                let cue: JumpCue = JumpCue {
                    id: p,
                    label,
                    comment: remark_text(&others, all.confidence[node]),
                    start: region.start,
                    end: region.end,
                    point: region.point,
                    component,
                };
                let ghost before = cues@;
                cues.push(cue);
                assert(cue@ == want[p as int]);
                assert(regions(cues@) =~= regions(before).push(cue@));
            },
            None => {},
        }
        p = p + 1;
        assert(regions(cues@) =~= want.take(p as int));
    }
    assert(regions(cues@) =~= want);
    JumpCueGraph::new(merge_coincident(&cues))
}

/// Naming a region keeps the places of those named before.
proof fn lemma_interned_keeps(found: Found, region: Region, confidence: Binary64)
    requires
        found.names.len() == found.nodes.len(),
        found.nodes.len() < usize::MAX,
    ensures
        interned(found, region, confidence).names.len() == interned(found, region, confidence).nodes.len(),
        interned(found, region, confidence).nodes.len() <= found.nodes.len() + 1,
        found.nodes.len() <= interned(found, region, confidence).nodes.len(),
        0 <= place_of(found.nodes, region) < interned(found, region, confidence).nodes.len(),
        forall|i: int|
            0 <= i < found.names.len() ==> #[trigger] interned(found, region, confidence).names[i] == found.names[i],
{
    lemma_place(found.nodes, region, 0);
}

proof fn lemma_place(nodes: Seq<Region>, region: Region, from: int)
    requires
        0 <= from <= nodes.len(),
    ensures
        from <= place_from(nodes, region, from) <= nodes.len(),
    decreases nodes.len() - from,
{
    if from < nodes.len() && !same_stretch(nodes[from], region) {
        lemma_place(nodes, region, from + 1);
    }
}

/// The two places that link `k` joins.
pub open spec fn ends_of(links: Seq<SimilarLink>, k: int) -> (int, int) {
    let found = gathered(links, k as nat);
    let one = interned(found, links[k].earlier, links[k].confidence);
    (place_of(found.nodes, links[k].earlier), place_of(one.nodes, links[k].later))
}

proof fn lemma_gathered(links: Seq<SimilarLink>, n: nat)
    requires
        n <= links.len(),
        2 * links.len() < usize::MAX,
    ensures
        gathered(links, n).names.len() == gathered(links, n).nodes.len(),
        gathered(links, n).nodes.len() <= 2 * n,
        forall|k: int|
            0 <= k < n ==> 0 <= (#[trigger] ends_of(links, k)).0 < gathered(links, n).nodes.len() && 0 <= ends_of(
                links,
                k,
            ).1 < gathered(links, n).nodes.len(),
        forall|k: int|
            0 <= k < n ==> gathered(links, n).names[(#[trigger] ends_of(links, k)).0] == gathered(
                links,
                n,
            ).names[ends_of(links, k).1],
    decreases n,
{
    if n > 0 {
        let m = (n - 1) as nat;
        lemma_gathered(links, m);
        let found = gathered(links, m);
        let link = links[n - 1];
        let one = interned(found, link.earlier, link.confidence);
        let both = interned(one, link.later, link.confidence);
        lemma_interned_keeps(found, link.earlier, link.confidence);
        lemma_interned_keeps(one, link.later, link.confidence);
        let now = gathered(links, n);
        let (a, b) = ends_of(links, m as int);
        assert(now.names == united(both.names, a, b));
        assert forall|k: int| 0 <= k < n implies now.names[(#[trigger] ends_of(links, k)).0] == now.names[ends_of(
            links,
            k,
        ).1] by {
            if k < m {
                let (c, d) = ends_of(links, k);
                assert(found.names[c] == found.names[d]);
                assert(one.names[c] == found.names[c] && one.names[d] == found.names[d]);
                assert(both.names[c] == one.names[c] && both.names[d] == one.names[d]);
            }
        }
    }
}

/// The two regions of every link end up in one group.
pub proof fn law_a_link_joins_its_regions(links: Seq<SimilarLink>, k: int)
    requires
        0 <= k < links.len(),
        2 * links.len() < usize::MAX,
    ensures
        ({
            let found = gathered(links, links.len());
            let (a, b) = ends_of(links, k);
            0 <= a < found.nodes.len() && 0 <= b < found.nodes.len() && found.names[a] == found.names[b]
        }),
{
    lemma_gathered(links, links.len());
    assert(0 <= ends_of(links, k).0);
}

/// Whether a labelling of the nodes gives the two ends of the first `n` links
/// one label.
pub open spec fn respects(links: Seq<SimilarLink>, n: int, mark: spec_fn(int) -> int) -> bool {
    forall|k: int| 0 <= k < n ==> mark((#[trigger] ends_of(links, k)).0) == mark(ends_of(links, k).1)
}

/// Nothing but links joins regions: whatever the two ends of every link have
/// in common, all members of a group have in common.
pub proof fn law_only_links_join_regions(links: Seq<SimilarLink>, n: nat, mark: spec_fn(int) -> int)
    requires
        n <= links.len(),
        2 * links.len() < usize::MAX,
        respects(links, n as int, mark),
    ensures
        forall|i: int, j: int|
            0 <= i < gathered(links, n).nodes.len() && 0 <= j < gathered(links, n).nodes.len() && #[trigger] gathered(
                links,
                n,
            ).names[i] == #[trigger] gathered(links, n).names[j] ==> mark(i) == mark(j),
    decreases n,
{
    if n > 0 {
        let m = (n - 1) as nat;
        law_only_links_join_regions(links, m, mark);
        lemma_gathered(links, m);
        lemma_names_are_members(links, m);
        let found = gathered(links, m);
        let link = links[n - 1];
        let one = interned(found, link.earlier, link.confidence);
        let both = interned(one, link.later, link.confidence);
        lemma_interned_keeps(found, link.earlier, link.confidence);
        lemma_interned_keeps(one, link.later, link.confidence);
        let now = gathered(links, n);
        let (a, b) = ends_of(links, m as int);
        assert(mark(a) == mark(b));
        assert(now.names == united(both.names, a, b));
        assert forall|i: int, j: int|
            0 <= i < both.nodes.len() && 0 <= j < both.nodes.len() && #[trigger] both.names[i]
                == #[trigger] both.names[j] implies mark(i) == mark(j) by {
            if i < found.nodes.len() && j < found.nodes.len() {
                assert(one.names[i] == found.names[i] && one.names[j] == found.names[j]);
                assert(both.names[i] == one.names[i] && both.names[j] == one.names[j]);
                assert(found.names[i] == found.names[j]);
            } else {
                lemma_new_names(found, link.earlier, link.confidence);
                lemma_new_names(one, link.later, link.confidence);
            }
        }
        assert forall|i: int, j: int|
            0 <= i < now.nodes.len() && 0 <= j < now.nodes.len() && #[trigger] now.names[i] == #[trigger] now.names[j] implies mark(
            i,
        ) == mark(j) by {
            let x = both.names[i];
            let y = both.names[j];
            if x != y {
                if x == both.names[b] {
                    assert(mark(i) == mark(b));
                    assert(y == both.names[a]);
                    assert(mark(j) == mark(a));
                } else {
                    assert(y == both.names[b]);
                    assert(mark(j) == mark(b));
                    assert(x == both.names[a]);
                    assert(mark(i) == mark(a));
                }
            }
        }
    }
}

/// A name below the number of nodes never names a node that is yet to come.
proof fn lemma_new_names(found: Found, region: Region, confidence: Binary64)
    requires
        found.names.len() == found.nodes.len(),
        found.nodes.len() < usize::MAX,
        forall|i: int| 0 <= i < found.names.len() ==> (#[trigger] found.names[i]) < found.nodes.len(),
    ensures
        ({
            let one = interned(found, region, confidence);
            &&& forall|i: int| 0 <= i < one.names.len() ==> (#[trigger] one.names[i]) < one.nodes.len()
            &&& forall|i: int|
                found.nodes.len() <= i < one.names.len() ==> #[trigger] one.names[i] == i && i == found.nodes.len()
        }),
{
    lemma_place(found.nodes, region, 0);
}

proof fn lemma_names_are_members(links: Seq<SimilarLink>, n: nat)
    requires
        n <= links.len(),
        2 * links.len() < usize::MAX,
    ensures
        forall|i: int|
            0 <= i < gathered(links, n).names.len() ==> (#[trigger] gathered(links, n).names[i]) < gathered(
                links,
                n,
            ).nodes.len(),
    decreases n,
{
    if n > 0 {
        let m = (n - 1) as nat;
        lemma_names_are_members(links, m);
        lemma_gathered(links, m);
        let found = gathered(links, m);
        let link = links[n - 1];
        let one = interned(found, link.earlier, link.confidence);
        lemma_interned_keeps(found, link.earlier, link.confidence);
        lemma_interned_keeps(one, link.later, link.confidence);
        lemma_new_names(found, link.earlier, link.confidence);
        lemma_new_names(one, link.later, link.confidence);
    }
}

/// Two cues are in one component just when their regions are in one group.
pub proof fn law_components_are_groups(links: Seq<SimilarLink>, p: int, q: int)
    requires
        2 * links.len() < usize::MAX,
        0 <= p < cues_of(links).len(),
        0 <= q < cues_of(links).len(),
    ensures
        ({
            let found = gathered(links, links.len());
            let shown = lettered(found.nodes);
            cues_of(links)[p].component == cues_of(links)[q].component <==> found.names[shown[p] as int]
                == found.names[shown[q] as int]
        }),
{
    let found = gathered(links, links.len());
    let shown = lettered(found.nodes);
    lemma_group_list(found, shown, shown.len());
    let list = group_list(found, shown, shown.len());
    assert(list.contains(found.names[shown[p] as int]));
    assert(list.contains(found.names[shown[q] as int]));
    assert(shown.len() <= 26);
}

/// The link that names a region that is found, and whether it is the later one.
proof fn lemma_nodes_are_named(links: Seq<SimilarLink>, n: nat, i: int) -> (k: int)
    requires
        n <= links.len(),
        0 <= i < gathered(links, n).nodes.len(),
    ensures
        0 <= k < n,
        gathered(links, n).nodes[i] == links[k].earlier || gathered(links, n).nodes[i] == links[k].later,
    decreases n,
{
    let found = gathered(links, (n - 1) as nat);
    let link = links[n - 1];
    let one = interned(found, link.earlier, link.confidence);
    if i < found.nodes.len() {
        lemma_nodes_are_named(links, (n - 1) as nat, i)
    } else {
        n - 1
    }
}

/// A region that is found keeps its place.
proof fn lemma_nodes_stay(links: Seq<SimilarLink>, m: nat, n: nat)
    requires
        m <= n <= links.len(),
    ensures
        gathered(links, m).nodes.len() <= gathered(links, n).nodes.len(),
        forall|i: int|
            0 <= i < gathered(links, m).nodes.len() ==> gathered(links, n).nodes[i] == #[trigger] gathered(
                links,
                m,
            ).nodes[i],
    decreases n,
{
    if m < n {
        lemma_nodes_stay(links, m, (n - 1) as nat);
    }
}

/// The place of a region names the region itself or the same stretch.
proof fn lemma_place_holds(nodes: Seq<Region>, region: Region, from: int)
    requires
        0 <= from <= nodes.len(),
    ensures
        place_from(nodes, region, from) < nodes.len() ==> same_stretch(nodes[place_from(nodes, region, from)], region),
    decreases nodes.len() - from,
{
    if from < nodes.len() && !same_stretch(nodes[from], region) {
        lemma_place_holds(nodes, region, from + 1);
    }
}

/// The place among those shown of a region that is found.
proof fn lemma_is_shown(nodes: Seq<Region>, i: int) -> (p: int)
    requires
        0 <= i < nodes.len() <= 26,
    ensures
        0 <= p < lettered(nodes).len(),
        lettered(nodes)[p] == i,
{
    let keys = jump_keys(nodes);
    law_order_is_stable(keys, keys.len());
    let order = in_order(keys);
    assert(order.contains(i as usize));
    order.index_of(i as usize)
}

proof fn lemma_shown_are_nodes(nodes: Seq<Region>)
    requires
        nodes.len() <= usize::MAX,
    ensures
        lettered(nodes).len() <= nodes.len(),
        lettered(nodes).len() <= 26,
        nodes.len() <= 26 ==> lettered(nodes).len() == nodes.len(),
        forall|p: int| 0 <= p < lettered(nodes).len() ==> (#[trigger] lettered(nodes)[p]) < nodes.len(),
        forall|p: int, q: int|
            0 <= p < q < lettered(nodes).len() ==> {
                let a = nodes[#[trigger] lettered(nodes)[p] as int].point.rank();
                let b = nodes[#[trigger] lettered(nodes)[q] as int].point.rank();
                a < b || (a == b && lettered(nodes)[p] < lettered(nodes)[q])
            },
{
    let keys = jump_keys(nodes);
    law_order_is_stable(keys, keys.len());
    let order = in_order(keys);
    let shown = lettered(nodes);
    assert forall|p: int, q: int| 0 <= p < q < shown.len() implies ({
        let a = nodes[#[trigger] shown[p] as int].point.rank();
        let b = nodes[#[trigger] shown[q] as int].point.rank();
        a < b || (a == b && shown[p] < shown[q])
    }) by {
        assert(shown[p] == order[p] && shown[q] == order[q]);
        let x = nodes[order[p] as int].point;
        let y = nodes[order[q] as int].point;
        assert(-0x8000_0000_0000_0000 < x.rank() < 0x8000_0000_0000_0000);
        assert(-0x8000_0000_0000_0000 < y.rank() < 0x8000_0000_0000_0000);
        assert(keys[order[p] as int] == x.rank() && keys[order[q] as int] == y.rank());
    }
}

/// The cue that a cue of the graph is, but for its number.
proof fn lemma_graph_cue_is_made(links: Seq<SimilarLink>, i: int) -> (p: int)
    requires
        2 * links.len() < usize::MAX,
        0 <= i < graph_of(links).len(),
    ensures
        0 <= p < cues_of(links).len(),
        graph_of(links)[i].start == cues_of(links)[p].start,
        graph_of(links)[i].end == cues_of(links)[p].end,
        graph_of(links)[i].point == cues_of(links)[p].point,
        graph_of(links)[i].label == cues_of(links)[p].label,
        graph_of(links)[i].comment == cues_of(links)[p].comment,
        graph_of(links)[i].component == cues_of(links)[p].component,
{
    lemma_gathered(links, links.len());
    let cues = cues_of(links);
    lemma_shown_are_nodes(gathered(links, links.len()).nodes);
    law_cues_go_by_point(cues);
    let first = one_per_spot(by_point(cues), cues.len());
    law_merged_cues_are_apart(by_point(cues), cues.len());
    let merged = renumbered(first);
    law_cues_go_by_point(merged);
    let a = lemma_merged_are_given(by_point(merged), merged.len(), i);
    let b = lemma_sorted_cue_is_given(merged, a);
    let c = lemma_merged_are_given(by_point(cues), cues.len(), b);
    lemma_sorted_cue_is_given(cues, c)
}

/// Every cue of a graph is a whole region of a link: its start, its end and its
/// jump point are those of one and the same region that link `k` names.
pub proof fn law_cues_are_whole_regions(links: Seq<SimilarLink>, i: int) -> (k: int)
    requires
        2 * links.len() < usize::MAX,
        0 <= i < graph_of(links).len(),
    ensures
        0 <= k < links.len(),
        ({
            let cue = graph_of(links)[i];
            let a = links[k].earlier;
            let b = links[k].later;
            ||| cue.start == a.start && cue.end == a.end && cue.point == a.point
            ||| cue.start == b.start && cue.end == b.end && cue.point == b.point
        }),
{
    lemma_gathered(links, links.len());
    let found = gathered(links, links.len());
    lemma_shown_are_nodes(found.nodes);
    let p = lemma_graph_cue_is_made(links, i);
    lemma_nodes_are_named(links, links.len(), lettered(found.nodes)[p] as int)
}

/// The cues of a graph go by jump point, and no two sit on one spot.
pub proof fn law_graph_cues_go_by_point(links: Seq<SimilarLink>, i: int, j: int)
    requires
        2 * links.len() < usize::MAX,
        0 <= i < j < graph_of(links).len(),
    ensures
        graph_of(links)[i].point.rank() <= graph_of(links)[j].point.rank(),
        !same_spot(graph_of(links)[i], graph_of(links)[j]),
        graph_of(links).len() <= 26,
{
    lemma_gathered(links, links.len());
    let cues = cues_of(links);
    lemma_shown_are_nodes(gathered(links, links.len()).nodes);
    law_cues_go_by_point(cues);
    law_merged_cues_are_apart(by_point(cues), cues.len());
    let merged = renumbered(one_per_spot(by_point(cues), cues.len()));
    law_cues_go_by_point(merged);
    let sorted = by_point(merged);
    law_merged_cues_are_apart(sorted, merged.len());
    let (a, b) = lemma_merged_keep_their_order(sorted, merged.len(), i, j);
    assert(sorted[a].point.rank() <= sorted[b].point.rank());
}

/// Whether a cue is a region: of its start, its end and its jump point.
pub open spec fn is_region(cue: crate::domain::jumpcue::Region, region: Region) -> bool {
    cue.start == region.start && cue.end == region.end && cue.point == region.point
}

/// The merging of cues is done in one go: what it leaves is in order, apart and
/// numbered already.
proof fn lemma_graph_is_merged_once(links: Seq<SimilarLink>)
    requires
        2 * links.len() < usize::MAX,
    ensures
        graph_of(links) == renumbered(one_per_spot(by_point(cues_of(links)), cues_of(links).len())),
        by_point(cues_of(links)) == cues_of(links),
{
    lemma_gathered(links, links.len());
    let found = gathered(links, links.len());
    let shown = lettered(found.nodes);
    lemma_shown_are_nodes(found.nodes);
    let cues = cues_of(links);
    assert forall|i: int, j: int| 0 <= i < j < cues.len() implies (#[trigger] cues[i]).point.rank() < (
    #[trigger] cues[j]).point.rank() || (cues[i].point.rank() == cues[j].point.rank() && cues[i].id <= cues[j].id) by {
        assert(shown[i] < found.nodes.len() && shown[j] < found.nodes.len());
    }
    lemma_sorted_cues_stay(cues);
    law_merged_cues_are_apart(cues, cues.len());
    let first = one_per_spot(cues, cues.len());
    let merged = renumbered(first);
    assert forall|i: int, j: int| 0 <= i < j < merged.len() implies (#[trigger] merged[i]).point.rank() < (
    #[trigger] merged[j]).point.rank() || (merged[i].point.rank() == merged[j].point.rank() && merged[i].id
        <= merged[j].id) by {
        let (a, b) = lemma_merged_keep_their_order(cues, cues.len(), i, j);
        assert(first[j] == cues[b] && first[i] == cues[a]);
    }
    lemma_sorted_cues_stay(merged);
    assert forall|i: int, j: int| 0 <= i < j < merged.len() implies !same_spot(
        #[trigger] merged[i],
        #[trigger] merged[j],
    ) by {
        assert(!same_spot(first[i], first[j]));
    }
    lemma_cues_apart_stay(merged, merged.len());
    assert(merged.take(merged.len() as int) =~= merged);
}

/// The cues of a graph are numbered from zero.
pub proof fn law_graph_cues_are_numbered(links: Seq<SimilarLink>, i: int)
    requires
        2 * links.len() < usize::MAX,
        0 <= i < graph_of(links).len(),
    ensures
        graph_of(links)[i].id == i,
{
    lemma_graph_is_merged_once(links);
    lemma_gathered(links, links.len());
    lemma_shown_are_nodes(gathered(links, links.len()).nodes);
    law_merged_cues_are_apart(cues_of(links), cues_of(links).len());
}

/// The region that is found for one end of a link, and its place.
proof fn lemma_end_is_found(links: Seq<SimilarLink>, k: int)
    requires
        0 <= k < links.len(),
        2 * links.len() < usize::MAX,
    ensures
        ({
            let nodes = gathered(links, links.len()).nodes;
            let (a, b) = ends_of(links, k);
            &&& 0 <= a < nodes.len() && 0 <= b < nodes.len()
            &&& nodes[a] == links[k].earlier || same_stretch(nodes[a], links[k].earlier)
            &&& nodes[b] == links[k].later || same_stretch(nodes[b], links[k].later)
        }),
{
    lemma_gathered(links, links.len());
    lemma_gathered(links, k as nat);
    let found = gathered(links, k as nat);
    let link = links[k];
    let one = interned(found, link.earlier, link.confidence);
    let both = interned(one, link.later, link.confidence);
    lemma_interned_keeps(found, link.earlier, link.confidence);
    lemma_interned_keeps(one, link.later, link.confidence);
    lemma_place(found.nodes, link.earlier, 0);
    lemma_place_holds(found.nodes, link.earlier, 0);
    lemma_place(one.nodes, link.later, 0);
    lemma_place_holds(one.nodes, link.later, 0);
    lemma_nodes_stay(links, (k + 1) as nat, links.len());
    let next = gathered(links, (k + 1) as nat);
    let (a, b) = ends_of(links, k);
    assert(0 <= ends_of(links, k).0);
    assert(next.nodes == both.nodes);
    assert(gathered(links, links.len()).nodes[a] == next.nodes[a]);
    assert(gathered(links, links.len()).nodes[b] == next.nodes[b]);
}

/// Every link can be jumped along: where there are no more regions than
/// letters, both its regions have a cue, for the region itself or for one that
/// is the same stretch of track, and the two cues share a component.
pub proof fn law_a_link_can_be_jumped(links: Seq<SimilarLink>, k: int) -> (r: (int, int))
    requires
        0 <= k < links.len() <= 13,
    ensures
        ({
            let cues = cues_of(links);
            let nodes = gathered(links, links.len()).nodes;
            let (a, b) = ends_of(links, k);
            &&& 0 <= r.0 < cues.len() && 0 <= r.1 < cues.len()
            &&& is_region(cues[r.0], nodes[a])
            &&& nodes[a] == links[k].earlier || same_stretch(nodes[a], links[k].earlier)
            &&& is_region(cues[r.1], nodes[b])
            &&& nodes[b] == links[k].later || same_stretch(nodes[b], links[k].later)
            &&& cues[r.0].component == cues[r.1].component
        }),
{
    lemma_gathered(links, links.len());
    lemma_end_is_found(links, k);
    let nodes = gathered(links, links.len()).nodes;
    let (a, b) = ends_of(links, k);
    let p = lemma_is_shown(nodes, a);
    let q = lemma_is_shown(nodes, b);
    law_components_are_groups(links, p, q);
    law_a_link_joins_its_regions(links, k);
    (p, q)
}

/// Merging drops a cue only for one on its spot: each cue that links make is in
/// the graph, but for its number, or a cue within a microsecond of it in start,
/// end and jump point is.
pub proof fn law_the_graph_keeps_every_spot(links: Seq<SimilarLink>, p: int) -> (i: int)
    requires
        2 * links.len() < usize::MAX,
        0 <= p < cues_of(links).len(),
    ensures
        ({
            let cue = cues_of(links)[p];
            let kept = graph_of(links)[i];
            &&& 0 <= i < graph_of(links).len()
            &&& {
                ||| kept.start == cue.start && kept.end == cue.end && kept.point == cue.point && kept.label == cue.label
                    && kept.comment == cue.comment && kept.component == cue.component
                ||| absolute(difference(kept.point, cue.point)).spec_le(micro()) && absolute(
                    difference(kept.start, cue.start),
                ).spec_le(micro()) && absolute(difference(kept.end, cue.end)).spec_le(micro())
            }
        }),
{
    lemma_graph_is_merged_once(links);
    lemma_gathered(links, links.len());
    lemma_shown_are_nodes(gathered(links, links.len()).nodes);
    let cues = cues_of(links);
    let i = law_merging_keeps_every_spot(cues, cues.len(), p);
    assert(graph_of(links)[i].point == one_per_spot(cues, cues.len())[i].point);
    i
}

/// Whether two regions lie on one spot: within a microsecond in start, end and
/// jump point.
pub open spec fn on_one_spot(a: Region, b: Region) -> bool {
    &&& absolute(difference(a.point, b.point)).spec_le(micro())
    &&& absolute(difference(a.start, b.start)).spec_le(micro())
    &&& absolute(difference(a.end, b.end)).spec_le(micro())
}

/// A single link of two separate regions makes two cues of one component, `A`
/// and `B`: one is the earlier region and one the later, and the one that jumps
/// to the smaller point comes first.
pub proof fn law_one_link_makes_two_cues(link: SimilarLink)
    requires
        !same_stretch(link.earlier, link.later),
        !on_one_spot(link.earlier, link.later),
        !on_one_spot(link.later, link.earlier),
    ensures
        ({
            let graph = graph_of(seq![link]);
            &&& graph.len() == 2
            &&& if link.later.point.rank() < link.earlier.point.rank() {
                is_region(graph[0], link.later) && is_region(graph[1], link.earlier)
            } else {
                is_region(graph[0], link.earlier) && is_region(graph[1], link.later)
            }
            &&& graph[0].label == seq!['A'] && graph[1].label == seq!['B']
            &&& graph[0].component == 0 && graph[1].component == 0
        }),
{
    let links = seq![link];
    lemma_graph_is_merged_once(links);
    lemma_gathered(links, 1);
    reveal_with_fuel(gathered, 2);
    reveal_with_fuel(place_from, 2);
    let found = gathered(links, 1);
    assert(found.nodes =~= seq![link.earlier, link.later]);
    let shown = lettered(found.nodes);
    lemma_shown_are_nodes(found.nodes);
    assert(shown.len() == 2);
    assert(shown[0] < 2 && shown[1] < 2);
    let cues = cues_of(links);
    assert(cues[0] == cue_at(found, shown, 0) && cues[1] == cue_at(found, shown, 1));
    assert forall|i: int, j: int| 0 <= i < j < cues.len() implies !same_spot(#[trigger] cues[i], #[trigger] cues[j]) by {
        assert(i == 0 && j == 1);
        assert(shown[0] != shown[1]);
    }
    lemma_cues_apart_stay(cues, cues.len());
    assert(cues.take(2) =~= cues);
    assert(ends_of(links, 0) == (0int, 1int));
    assert(found.names[0] == found.names[1]);
    reveal_with_fuel(group_list, 3);
    let list = group_list(found, shown, 2);
    assert(list =~= seq![found.names[0]]);
    lemma_group_list(found, shown, 2);
    assert(list.contains(found.names[shown[0] as int]) && list.contains(found.names[shown[1] as int]));
    assert(letter_at(0) == 'A' && letter_at(1) == 'B');
}

/// Regions one behind the other are never the same stretch.
pub proof fn law_same_stretches_overlap(a: Region, b: Region)
    requires
        a.start.finite() && a.end.finite() && b.start.finite() && b.end.finite(),
        a.end.spec_le(b.start) || b.end.spec_le(a.start),
    ensures
        !same_stretch(a, b),
{
    let last = smaller(a.end, b.end);
    let first = larger(a.start, b.start);
    assert(last.spec_le(first));
    law_comparison_is_numeric(last, first);
    assert(last.units() + negated(first).units() <= 0);
    assert(common(a, b).rank() <= 0);
    let shortest = smaller(length(a), length(b));
    if zero().spec_lt(shortest) {
        assert(product(half(), shortest).rank() >= 0);
    }
}

} // verus!
