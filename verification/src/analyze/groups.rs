//! Groups of things that belong together, kept as a forest: everything points
//! to another member of its group, and the one that points to itself stands
//! for the group.

use vstd::prelude::*;

verus! {

/// A division of `0..n` into groups, each named by one of its members.
pub struct Groups {
    parent: Vec<usize>,
    names: Ghost<Seq<usize>>,
    rank: Ghost<Seq<nat>>,
    top: Ghost<nat>,
}

/// The names after the group of `b` joined the group of `a`.
pub open spec fn united(names: Seq<usize>, a: int, b: int) -> Seq<usize> {
    names.map_values(
        |name: usize|
            if name == names[b] {
                names[a]
            } else {
                name
            },
    )
}

impl View for Groups {
    type V = Seq<usize>;

    /// The name of the group that each member is in.
    closed spec fn view(&self) -> Seq<usize> {
        self.names@
    }
}

impl Groups {
    /// Whether every way up leads to the member that names the group.
    pub closed spec fn wf(&self) -> bool {
        let n = self.parent@.len();
        &&& self.names@.len() == n
        &&& self.rank@.len() == n
        &&& forall|i: int| 0 <= i < n ==> (#[trigger] self.parent@[i]) < n
        &&& forall|i: int| 0 <= i < n ==> (#[trigger] self.names@[i]) < n
        &&& forall|i: int| 0 <= i < n ==> self.names@[#[trigger] self.parent@[i] as int] == self.names@[i]
        &&& forall|i: int| 0 <= i < n && #[trigger] self.parent@[i] == i ==> self.names@[i] == i
        &&& forall|i: int| 0 <= i < n ==> self.parent@[#[trigger] self.names@[i] as int] == self.names@[i]
        &&& forall|i: int|
            0 <= i < n && self.parent@[i] != i ==> self.rank@[i] < self.rank@[#[trigger] self.parent@[i] as int]
        &&& forall|i: int| 0 <= i < n ==> (#[trigger] self.rank@[i]) <= self.top@
    }

    /// No members yet.
    pub fn new() -> (r: Self)
        ensures
            r.wf(),
            r@ == Seq::<usize>::empty(),
    {
        Groups { parent: Vec::new(), names: Ghost(Seq::empty()), rank: Ghost(Seq::empty()), top: Ghost(0) }
    }

    /// The number of members.
    pub fn len(&self) -> (r: usize)
        requires
            self.wf(),
        ensures
            r == self@.len(),
    {
        self.parent.len()
    }

    /// Takes in a new member, in a group of its own.
    pub fn add_member(&mut self) -> (r: usize)
        requires
            old(self).wf(),
        ensures
            final(self).wf(),
            r == old(self)@.len(),
            final(self)@ == old(self)@.push(r),
    {
        let at: usize = self.parent.len();
        self.parent.push(at);
        proof {
            self.names@ = self.names@.push(at);
            self.rank@ = self.rank@.push(0);
        }
        at
    }

    /// The name of the group that `node` is in.
    ///
    /// On the way up every other step is shortened to its grandparent.
    pub fn find(&mut self, node: usize) -> (r: usize)
        requires
            old(self).wf(),
            node < old(self)@.len(),
        ensures
            final(self).wf(),
            final(self)@ == old(self)@,
            r == old(self)@[node as int],
    {
        let ghost was = *self;
        let mut at: usize = node;
        while self.parent[at] != at
            invariant
                self.wf(),
                at < self@.len(),
                self@ == was@,
                self@[at as int] == was@[node as int],
            decreases self.top@ - self.rank@[at as int],
        {
            let above: usize = self.parent[at];
            let ghost before = *self;
            let next: usize = self.parent[above];
            assert(self.rank@[at as int] < self.rank@[above as int]);
            assert(self.rank@[above as int] <= self.rank@[next as int]);
            self.parent.set(at, next);
            assert(self.wf()) by {
                assert forall|i: int| 0 <= i < self.parent@.len() implies self.names@[#[trigger] self.parent@[i] as int]
                    == self.names@[i] by {
                    assert(before.names@[before.parent@[i] as int] == before.names@[i]);
                    if i == at {
                        assert(before.names@[before.parent@[above as int] as int] == before.names@[above as int]);
                    }
                }
                assert forall|i: int| 0 <= i < self.parent@.len() && self.parent@[i] != i implies self.rank@[i]
                    < self.rank@[#[trigger] self.parent@[i] as int] by {
                    if i != at {
                        assert(before.rank@[i] < before.rank@[before.parent@[i] as int]);
                    }
                }
                assert forall|i: int| 0 <= i < self.parent@.len() && #[trigger] self.parent@[i] == i implies self.names@[i]
                    == i by {
                    if i != at {
                        assert(before.parent@[i] == i);
                    }
                }
                assert forall|i: int| 0 <= i < self.parent@.len() implies self.parent@[#[trigger] self.names@[i] as int]
                    == self.names@[i] by {
                    assert(before.parent@[before.names@[i] as int] == before.names@[i]);
                }
            }
            assert(before.names@[before.parent@[above as int] as int] == before.names@[above as int]);
            at = next;
        }
        at
    }

    /// Joins the group of `b` to the group of `a`.
    pub fn union(&mut self, a: usize, b: usize)
        requires
            old(self).wf(),
            a < old(self)@.len(),
            b < old(self)@.len(),
        ensures
            final(self).wf(),
            final(self)@ == united(old(self)@, a as int, b as int),
    {
        let ghost was = *self;
        let root_a: usize = self.find(a);
        let root_b: usize = self.find(b);
        assert(self.names@[a as int] == root_a && self.names@[b as int] == root_b);
        if root_a != root_b {
            let ghost before = *self;
            assert(before.parent@[root_a as int] == root_a && before.parent@[root_b as int] == root_b);
            self.parent.set(root_b, root_a);
            proof {
                let high: nat = if self.rank@[root_a as int] > self.rank@[root_b as int] {
                    self.rank@[root_a as int]
                } else {
                    self.rank@[root_b as int] + 1
                };
                self.rank@ = self.rank@.update(root_a as int, high);
                self.names@ = united(self.names@, a as int, b as int);
                self.top@ = if high > self.top@ {
                    high
                } else {
                    self.top@
                };
                assert(before.names@[root_a as int] == root_a) by {
                    assert(before.parent@[root_a as int] == root_a as int);
                }
                assert(before.names@[root_b as int] == root_b) by {
                    assert(before.parent@[root_b as int] == root_b as int);
                }
                assert forall|i: int| 0 <= i < self.parent@.len() implies self.names@[#[trigger] self.parent@[i] as int]
                    == self.names@[i] by {
                    assert(before.names@[before.parent@[i] as int] == before.names@[i]);
                }
                assert forall|i: int| 0 <= i < self.parent@.len() && self.parent@[i] != i implies self.rank@[i]
                    < self.rank@[#[trigger] self.parent@[i] as int] by {
                    if i != root_b {
                        assert(before.rank@[i] < before.rank@[before.parent@[i] as int]);
                    }
                }
                assert forall|i: int| 0 <= i < self.parent@.len() && #[trigger] self.parent@[i] == i implies self.names@[i]
                    == i by {
                    assert(before.parent@[i] == i);
                }
                assert forall|i: int| 0 <= i < self.parent@.len() implies self.parent@[#[trigger] self.names@[i] as int]
                    == self.names@[i] by {
                    assert(before.parent@[before.names@[i] as int] == before.names@[i]);
                }
                assert forall|i: int| 0 <= i < self.parent@.len() implies (#[trigger] self.names@[i])
                    < self.parent@.len() by {
                    assert(before.names@[i] < before.parent@.len());
                }
            }
        } else {
            assert(united(was@, a as int, b as int) =~= was@);
        }
    }
}

} // verus!
