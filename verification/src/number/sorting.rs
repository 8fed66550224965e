//! Numbers put in numeric order.

use crate::number::binary64::Binary64;
use crate::order::{arranged, in_order, law_order_is_stable, stable_order, visits_each_once};
use vstd::prelude::*;

verus! {

/// Sort keys that put numbers in order.
pub open spec fn ranks(values: Seq<Binary64>) -> Seq<i128> {
    Seq::new(values.len(), |i: int| values[i].rank() as i128)
}

/// The numbers in order, equal ones as they come.
pub open spec fn ascending(values: Seq<Binary64>) -> Seq<Binary64> {
    arranged(values, in_order(ranks(values)))
}

/// The middle one of the numbers in order, the upper one of two.
pub open spec fn upper_middle(values: Seq<Binary64>) -> Binary64 {
    ascending(values)[values.len() as int / 2]
}

/// The numbers in order, equal ones as they come.
pub fn sort_ascending(values: &[Binary64]) -> (r: Vec<Binary64>)
    ensures
        r@ == ascending(values@),
        r@.len() == values@.len(),
{
    let mut keys: Vec<i128> = Vec::new();
    let mut i: usize = 0;
    while i < values.len()
        invariant
            i <= values@.len(),
            keys@ == ranks(values@).take(i as int),
        decreases values@.len() - i,
    {
        keys.push(values[i].rank_key());
        i = i + 1;
        assert(keys@ =~= ranks(values@).take(i as int));
    }
    assert(keys@ =~= ranks(values@));
    let order: Vec<usize> = stable_order(&keys);
    let ghost want = ascending(values@);
    let mut out: Vec<Binary64> = Vec::new();
    let mut k: usize = 0;
    while k < order.len()
        invariant
            k <= order@.len(),
            visits_each_once(order@, values@.len()),
            want == arranged(values@, order@),
            out@ == want.take(k as int),
        decreases order@.len() - k,
    {
        out.push(values[order[k]]);
        k = k + 1;
        assert(out@ =~= want.take(k as int));
    }
    assert(out@ =~= want);
    out
}

/// Sorting keeps every number, and puts none behind a larger one.
pub proof fn law_sorting_orders_the_numbers(values: Seq<Binary64>)
    requires
        values.len() <= usize::MAX,
    ensures
        ascending(values).len() == values.len(),
        forall|i: int| 0 <= i < values.len() ==> ascending(values).contains(#[trigger] values[i]),
        forall|i: int| 0 <= i < values.len() ==> values.contains(#[trigger] ascending(values)[i]),
        forall|i: int, j: int|
            0 <= i < j < values.len() ==> (#[trigger] ascending(values)[i]).rank() <= (#[trigger] ascending(
                values,
            )[j]).rank(),
{
    let keys = ranks(values);
    let order = in_order(keys);
    let out = ascending(values);
    law_order_is_stable(keys, keys.len());
    assert forall|i: int| 0 <= i < values.len() implies out.contains(#[trigger] values[i]) by {
        assert(order.contains(i as usize));
        let k = order.index_of(i as usize);
        assert(out[k] == values[i]);
    }
    assert forall|i: int| 0 <= i < values.len() implies values.contains(#[trigger] out[i]) by {
        assert(order[i] < values.len());
        assert(values[order[i] as int] == out[i]);
    }
    assert forall|i: int, j: int| 0 <= i < j < values.len() implies (#[trigger] out[i]).rank() <= (
    #[trigger] out[j]).rank() by {
        assert(keys[order[i] as int] <= keys[order[j] as int]);
    }
}

} // verus!
