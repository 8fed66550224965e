//! Stable sorting: the order in which a list is visited when its items are
//! arranged by an integer key and equal keys keep their places.

use vstd::prelude::*;

verus! {

/// `item` put into an order, behind every item whose key is not larger.
pub open spec fn placed(order: Seq<usize>, keys: Seq<i128>, item: usize) -> Seq<usize>
    decreases order.len(),
{
    if order.len() == 0 || keys[order.last() as int] <= keys[item as int] {
        order.push(item)
    } else {
        placed(order.drop_last(), keys, item).push(order.last())
    }
}

/// The places of the first `n` keys, arranged by key, equal keys as they come.
pub open spec fn first_in_order(keys: Seq<i128>, n: nat) -> Seq<usize>
    decreases n,
{
    if n == 0 {
        seq![]
    } else {
        placed(first_in_order(keys, (n - 1) as nat), keys, (n - 1) as usize)
    }
}

/// The places of all keys, arranged by key, equal keys as they come.
pub open spec fn in_order(keys: Seq<i128>) -> Seq<usize> {
    first_in_order(keys, keys.len())
}

/// The items of a list in the given order.
pub open spec fn arranged<T>(items: Seq<T>, order: Seq<usize>) -> Seq<T> {
    Seq::new(order.len(), |i: int| items[order[i] as int])
}

/// Whether an order visits each of the first `n` places exactly once.
pub open spec fn visits_each_once(order: Seq<usize>, n: nat) -> bool {
    &&& order.len() == n
    &&& forall|i: int| 0 <= i < order.len() ==> #[trigger] order[i] < n
    &&& forall|i: int, j: int| 0 <= i < j < order.len() ==> order[i] != order[j]
    &&& forall|p: usize| p < n ==> #[trigger] order.contains(p)
}

/// Whether an order goes by key, and by place where the keys are equal.
pub open spec fn goes_by_key(order: Seq<usize>, keys: Seq<i128>) -> bool {
    forall|i: int, j: int|
        0 <= i < j < order.len() ==> keys[#[trigger] order[i] as int] < keys[#[trigger] order[j] as int] || (
        keys[order[i] as int] == keys[order[j] as int] && order[i] < order[j])
}

proof fn lemma_placed_at(order: Seq<usize>, keys: Seq<i128>, item: usize, at: int)
    requires
        0 <= at <= order.len(),
        forall|i: int| at <= i < order.len() ==> keys[#[trigger] order[i] as int] > keys[item as int],
        at > 0 ==> keys[order[at - 1] as int] <= keys[item as int],
    ensures
        placed(order, keys, item) == order.insert(at, item),
    decreases order.len(),
{
    if at == order.len() {
        assert(order.insert(at, item) == order.push(item));
    } else {
        lemma_placed_at(order.drop_last(), keys, item, at);
        assert(order.drop_last().insert(at, item).push(order.last()) == order.insert(at, item));
    }
}

proof fn lemma_placed_split(order: Seq<usize>, keys: Seq<i128>, item: usize) -> (at: int)
    requires
        goes_by_key(order, keys),
    ensures
        0 <= at <= order.len(),
        placed(order, keys, item) == order.insert(at, item),
        forall|i: int| at <= i < order.len() ==> keys[#[trigger] order[i] as int] > keys[item as int],
        forall|i: int| 0 <= i < at ==> keys[#[trigger] order[i] as int] <= keys[item as int],
    decreases order.len(),
{
    if order.len() == 0 || keys[order.last() as int] <= keys[item as int] {
        assert(order.insert(order.len() as int, item) == order.push(item));
        order.len() as int
    } else {
        let at = lemma_placed_split(order.drop_last(), keys, item);
        assert(order.drop_last().insert(at, item).push(order.last()) == order.insert(at, item));
        assert forall|i: int| at <= i < order.len() implies keys[#[trigger] order[i] as int] > keys[item as int] by {
            if i < order.len() - 1 {
                assert(order.drop_last()[i] == order[i]);
            }
        }
        assert forall|i: int| 0 <= i < at implies keys[#[trigger] order[i] as int] <= keys[item as int] by {
            assert(order.drop_last()[i] == order[i]);
        }
        at
    }
}

/// Keys that are in order already keep their places.
pub proof fn law_sorted_keys_keep_their_places(keys: Seq<i128>, n: nat)
    requires
        n <= keys.len(),
        n <= usize::MAX,
        forall|i: int, j: int| 0 <= i < j < keys.len() ==> keys[i] <= keys[j],
    ensures
        first_in_order(keys, n) == Seq::new(n, |i: int| i as usize),
    decreases n,
{
    if n > 0 {
        law_sorted_keys_keep_their_places(keys, (n - 1) as nat);
        if n > 1 {
            assert(keys[n - 2] <= keys[n - 1]);
        }
        assert(first_in_order(keys, n) =~= Seq::new(n, |i: int| i as usize));
    }
}

/// Arranging visits every place once, goes by key, and keeps equal keys as
/// they came.
pub proof fn law_order_is_stable(keys: Seq<i128>, n: nat)
    requires
        n <= keys.len(),
        n <= usize::MAX,
    ensures
        visits_each_once(first_in_order(keys, n), n),
        goes_by_key(first_in_order(keys, n), keys),
    decreases n,
{
    if n > 0 {
        let m = (n - 1) as nat;
        law_order_is_stable(keys, m);
        let before = first_in_order(keys, m);
        let item = m as usize;
        let at = lemma_placed_split(before, keys, item);
        let after = before.insert(at, item);
        assert forall|i: int, j: int| 0 <= i < j < after.len() implies keys[#[trigger] after[i] as int]
            < keys[#[trigger] after[j] as int] || (keys[after[i] as int] == keys[after[j] as int] && after[i] < after[j]) by {
            let a = if i < at {
                i
            } else {
                i - 1
            };
            let b = if j < at {
                j
            } else {
                j - 1
            };
            if i != at {
                assert(after[i] == before[a]);
            }
            if j != at {
                assert(after[j] == before[b]);
            }
        }
        assert forall|i: int| 0 <= i < after.len() implies #[trigger] after[i] < n by {
            if i < at {
                assert(after[i] == before[i]);
            } else if i > at {
                assert(after[i] == before[i - 1]);
            }
        }
        assert forall|i: int, j: int| 0 <= i < j < after.len() implies after[i] != after[j] by {
            let a = if i < at {
                i
            } else {
                i - 1
            };
            let b = if j < at {
                j
            } else {
                j - 1
            };
            if i != at {
                assert(after[i] == before[a] && before[a] < m);
            }
            if j != at {
                assert(after[j] == before[b] && before[b] < m);
            }
        }
        assert forall|p: usize| p < n implies #[trigger] after.contains(p) by {
            if p == m {
                assert(after[at] == p);
            } else {
                assert(before.contains(p));
                let k = before.index_of(p);
                if k < at {
                    assert(after[k] == p);
                } else {
                    assert(after[k + 1] == p);
                }
            }
        }
    }
}

/// The places of all keys, arranged by key, equal keys as they come.
pub fn stable_order(keys: &Vec<i128>) -> (order: Vec<usize>)
    ensures
        order@ == in_order(keys@),
        visits_each_once(order@, keys@.len()),
        goes_by_key(order@, keys@),
{
    let mut order: Vec<usize> = Vec::new();
    let mut n: usize = 0;
    while n < keys.len()
        invariant
            n <= keys@.len(),
            order@ == first_in_order(keys@, n as nat),
        decreases keys@.len() - n,
    {
        proof {
            law_order_is_stable(keys@, n as nat);
        }
        let mut at: usize = order.len();
        while at > 0 && keys[order[at - 1]] > keys[n]
            invariant
                n < keys@.len(),
                at <= order@.len(),
                forall|i: int| 0 <= i < order@.len() ==> (#[trigger] order@[i]) < keys@.len(),
                forall|i: int| at <= i < order@.len() ==> keys@[#[trigger] order@[i] as int] > keys@[n as int],
            decreases at,
        {
            at = at - 1;
        }
        proof {
            lemma_placed_at(order@, keys@, n, at as int);
        }
        order.insert(at, n);
        n = n + 1;
    }
    proof {
        law_order_is_stable(keys@, keys@.len());
    }
    order
}

/// A key that goes by `first`, and by `second` where that is equal.
pub open spec fn joint_key(first: int, second: nat) -> int {
    first * 0x1_0000_0000_0000_0000 + second
}

/// A key that goes by `first`, and by `second` where that is equal.
pub fn join_keys(first: i128, second: u64) -> (r: i128)
    requires
        -0x8000_0000_0000_0000 < first < 0x8000_0000_0000_0000,
    ensures
        r == joint_key(first as int, second as nat),
{
    first * 0x1_0000_0000_0000_0000 + second as i128
}

/// Joint keys are ordered by their first part, then by their second.
pub proof fn law_joint_keys_order_pairs(a: int, b: int, m: nat, n: nat)
    requires
        m < 0x1_0000_0000_0000_0000,
        n < 0x1_0000_0000_0000_0000,
    ensures
        joint_key(a, m) < joint_key(b, n) <==> a < b || (a == b && m < n),
        joint_key(a, m) == joint_key(b, n) <==> a == b && m == n,
{
}

/// Whether a list is cut into groups that follow each other: `place` gives the
/// group of each item, or `-1` for an item that is left out, and `first` and
/// `last` give the items at which each group begins and ends.
pub open spec fn grouped(place: Seq<int>, first: Seq<int>, last: Seq<int>) -> bool {
    &&& first.len() == last.len()
    &&& forall|i: int| 0 <= i < place.len() ==> -1 <= #[trigger] place[i] < first.len()
    &&& forall|i: int| 0 <= i < place.len() && #[trigger] place[i] >= 0 ==> first[place[i]] <= i <= last[place[i]]
    &&& forall|r: int|
        0 <= r < first.len() ==> 0 <= #[trigger] first[r] <= last[r] < place.len() && place[first[r]] == r
            && place[last[r]] == r
    &&& forall|i: int, j: int|
        0 <= i < j < place.len() && place[i] >= 0 && place[j] >= 0 ==> #[trigger] place[i] <= #[trigger] place[j]
}

/// An item that is left out leaves the groups as they are.
pub proof fn lemma_group_skips(place: Seq<int>, first: Seq<int>, last: Seq<int>)
    requires
        grouped(place, first, last),
    ensures
        grouped(place.push(-1), first, last),
{
    let now = place.push(-1);
    assert forall|r: int| 0 <= r < first.len() implies 0 <= #[trigger] first[r] <= last[r] < now.len() && now[first[r]]
        == r && now[last[r]] == r by {
        assert(place[first[r]] == r && place[last[r]] == r);
    }
}

/// A further item may join the last group.
pub proof fn lemma_group_grows(place: Seq<int>, first: Seq<int>, last: Seq<int>)
    requires
        grouped(place, first, last),
        first.len() > 0,
    ensures
        grouped(place.push(first.len() - 1), first, last.update(last.len() - 1, place.len() as int)),
{
    let now = place.push(first.len() - 1);
    let end = last.update(last.len() - 1, place.len() as int);
    assert forall|r: int| 0 <= r < first.len() implies 0 <= #[trigger] first[r] <= end[r] < now.len() && now[first[r]]
        == r && now[end[r]] == r by {
        assert(place[first[r]] == r && place[last[r]] == r);
    }
    assert forall|i: int| 0 <= i < now.len() && #[trigger] now[i] >= 0 implies first[now[i]] <= i <= end[now[i]] by {
        if i < place.len() {
            assert(first[place[i]] <= i <= last[place[i]]);
        } else {
            assert(first[first.len() - 1] <= last[first.len() - 1]);
        }
    }
}

/// A further item may open a group of its own.
pub proof fn lemma_group_opens(place: Seq<int>, first: Seq<int>, last: Seq<int>)
    requires
        grouped(place, first, last),
    ensures
        grouped(place.push(first.len() as int), first.push(place.len() as int), last.push(place.len() as int)),
{
    let now = place.push(first.len() as int);
    let begin = first.push(place.len() as int);
    let end = last.push(place.len() as int);
    assert forall|r: int| 0 <= r < begin.len() implies 0 <= #[trigger] begin[r] <= end[r] < now.len() && now[begin[r]]
        == r && now[end[r]] == r by {
        if r < first.len() {
            assert(first[r] == begin[r]);
            assert(place[first[r]] == r && place[last[r]] == r);
        }
    }
    assert forall|i: int| 0 <= i < now.len() && #[trigger] now[i] >= 0 implies begin[now[i]] <= i <= end[now[i]] by {
        if i < place.len() {
            assert(first[place[i]] <= i <= last[place[i]]);
        }
    }
}

} // verus!
