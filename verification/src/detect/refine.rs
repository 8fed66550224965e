//! Sliding each boundary within a window to a jointly better set of positions.
//!
//! The ensemble is good at spotting that something changed and vague about
//! exactly which beat. This pass is a dynamic program over the beats near each
//! boundary: it weighs the confidence at a beat, how far it is from the first
//! choice, whether it is a downbeat, and how the phrase lengths compare with
//! the preferred ones.

use crate::detect::model::ModelSettings;
use crate::number::binary64::{
    absolute, difference, half, minus_infinity, negated, of_int, one, product, smaller, sum, zero, Binary64,
};
use crate::number::laws::law_addition_keeps_the_order;
use vstd::prelude::*;
use vstd::slice::slice_to_vec;

verus! {

/// The number nearest to 1e-7: the least probability that goes into a logarithm.
#[verifier::allow_in_spec]
pub fn least_probability() -> Binary64
    returns
        (Binary64 { bits: 0x3E7A_D7F2_9ABC_AF48 }),
{
    Binary64 { bits: 0x3E7A_D7F2_9ABC_AF48 }
}

/// A probability cut into `1e-7..=1`, so that its logarithm is finite.
pub open spec fn floored_probability(p: Binary64) -> Binary64 {
    if p.spec_lt(least_probability()) {
        least_probability()
    } else if one().spec_lt(p) {
        one()
    } else {
        p
    }
}

/// A probability cut into `1e-7..=1`.
pub fn floor_probability(p: Binary64) -> (r: Binary64)
    ensures
        r == floored_probability(p),
{
    if p.lt(least_probability()) {
        least_probability()
    } else if one().lt(p) {
        one()
    } else {
        p
    }
}

/// Positive infinity.
#[verifier::allow_in_spec]
pub fn plus_infinity() -> Binary64
    returns
        (Binary64 { bits: 0x7FF0_0000_0000_0000 }),
{
    Binary64 { bits: 0x7FF0_0000_0000_0000 }
}

/// The least squared distance of a logarithm from some others.
pub open spec fn least_square(log_length: Binary64, log_targets: Seq<Binary64>) -> Binary64
    decreases log_targets.len(),
{
    if log_targets.len() == 0 {
        plus_infinity()
    } else {
        let z = difference(log_length, log_targets.last());
        smaller(least_square(log_length, log_targets.drop_last()), product(z, z))
    }
}

/// How well a phrase length matches the preferred ones, on logarithms: minus
/// half the least squared distance; zero where none is preferred.
pub open spec fn length_score(log_length: Binary64, log_targets: Seq<Binary64>) -> Binary64 {
    if log_targets.len() == 0 {
        zero()
    } else {
        product(negated(half()), least_square(log_length, log_targets))
    }
}

/// How well a phrase of a length matches the preferred lengths, all given by
/// their natural logarithms.
pub fn length_prior(log_length: Binary64, log_targets: &[Binary64]) -> (r: Binary64)
    ensures
        r == length_score(log_length, log_targets@),
{
    if log_targets.len() == 0 {
        return zero();
    }
    let mut best: Binary64 = plus_infinity();
    let mut i: usize = 0;
    while i < log_targets.len()
        invariant
            i <= log_targets@.len(),
            best == least_square(log_length, log_targets@.take(i as int)),
        decreases log_targets@.len() - i,
    {
        let z: Binary64 = log_length.minus(log_targets[i]);
        best = best.min(z.times(z));
        assert(log_targets@.take(i + 1).drop_last() =~= log_targets@.take(i as int));
        i = i + 1;
    }
    assert(log_targets@.take(log_targets@.len() as int) =~= log_targets@);
    half().negate().times(best)
}

/// The valid beats in `from..to`.
pub open spec fn valid_between(valid: Seq<bool>, from: int, to: int) -> Seq<usize>
    decreases to - from,
{
    if to <= from {
        seq![]
    } else if valid[to - 1] {
        valid_between(valid, from, to - 1).push((to - 1) as usize)
    } else {
        valid_between(valid, from, to - 1)
    }
}

/// What a refinement works on.
pub struct Refinement {
    /// The boundaries, with both ends.
    pub raw: Seq<usize>,
    /// The logarithm of the probability of each beat.
    pub log_probability: Seq<Binary64>,
    pub valid: Seq<bool>,
    pub downbeats: Seq<bool>,
    /// How well each length matches the preferred ones.
    pub length_scores: Seq<Binary64>,
    pub window: nat,
    pub length_weight: Binary64,
    pub shift_penalty: Binary64,
    pub downbeat_bonus: Binary64,
}

impl Refinement {
    /// How many beats there are.
    pub open spec fn n(self) -> int {
        self.raw.last() as int
    }

    /// How many boundaries may move.
    pub open spec fn inner(self) -> nat {
        (self.raw.len() - 2) as nat
    }

    /// Where boundary `k` was first put.
    pub open spec fn centre(self, k: int) -> int {
        self.raw[k + 1] as int
    }

    /// The first beat that boundary `k` may move to.
    pub open spec fn low(self, k: int) -> int {
        if self.centre(k) - self.window > 1 {
            self.centre(k) - self.window
        } else {
            1
        }
    }

    /// The last beat that boundary `k` may move to.
    pub open spec fn high(self, k: int) -> int {
        if self.centre(k) + self.window < self.n() - 1 {
            self.centre(k) + self.window
        } else {
            self.n() - 1
        }
    }

    /// The beats that boundary `k` may move to: the valid ones in its window,
    /// or where it is if there are none.
    pub open spec fn choices(self, k: int) -> Seq<usize> {
        let near = valid_between(self.valid, self.low(k), self.high(k) + 1);
        if near.len() == 0 {
            seq![self.raw[k + 1]]
        } else {
            near
        }
    }

    /// The merit of beat `c` for boundary `k` by itself.
    pub open spec fn emission(self, k: int, c: int) -> Binary64 {
        sum(
            difference(
                self.log_probability[c],
                product(self.shift_penalty, absolute(difference(of_int(c), of_int(self.centre(k))))),
            ),
            product(
                self.downbeat_bonus,
                of_int(
                    if self.downbeats[c] {
                        1
                    } else {
                        0
                    },
                ),
            ),
        )
    }

    /// The merit of a phrase length.
    pub open spec fn length_term(self, length: int) -> Binary64 {
        product(self.length_weight, self.length_scores[length])
    }

    /// The merit of the best way to choice `j` of boundary `k`.
    pub open spec fn score(self, k: int, j: int) -> Binary64
        decreases k, 2int, 0int,
    {
        let c = self.choices(k)[j] as int;
        if k <= 0 {
            sum(self.emission(k, c), self.length_term(c))
        } else {
            match self.best_from(k, j, self.choices(k - 1).len()) {
                Some(p) => sum(self.emission(k, c), self.value_from(k, j, p)),
                None => minus_infinity(),
            }
        }
    }

    /// The merit of coming to choice `j` of boundary `k` from choice `p` of the
    /// one before.
    pub open spec fn value_from(self, k: int, j: int, p: int) -> Binary64
        decreases k, 0int, 0int,
    {
        if k <= 0 {
            minus_infinity()
        } else {
            sum(self.score(k - 1, p), self.length_term(self.choices(k)[j] - self.choices(k - 1)[p]))
        }
    }

    /// The first best of the first `m` choices of the boundary before to come
    /// from; only earlier beats count, and only merits above minus infinity.
    pub open spec fn best_from(self, k: int, j: int, m: nat) -> Option<int>
        decreases k, 1int, m,
    {
        if m == 0 || k <= 0 {
            None
        } else {
            let before = self.best_from(k, j, (m - 1) as nat);
            let held = match before {
                Some(q) => self.value_from(k, j, q),
                None => minus_infinity(),
            };
            if self.choices(k - 1)[m - 1] < self.choices(k)[j] && held.spec_lt(self.value_from(k, j, m - 1)) {
                Some(m - 1)
            } else {
                before
            }
        }
    }

    /// The merit of ending with choice `j` of the last boundary.
    pub open spec fn end_value(self, j: int) -> Binary64 {
        let last = self.inner() - 1;
        sum(self.score(last, j), self.length_term(self.n() - self.choices(last)[j]))
    }

    /// The first best of the first `m` choices of the last boundary.
    pub open spec fn best_end(self, m: nat) -> Option<int>
        decreases m,
    {
        if m == 0 {
            None
        } else {
            let last = self.inner() - 1;
            let before = self.best_end((m - 1) as nat);
            let held = match before {
                Some(q) => self.end_value(q),
                None => minus_infinity(),
            };
            if self.choices(last)[m - 1] < self.n() && self.score(last, m - 1).finite() && held.spec_lt(
                self.end_value(m - 1),
            ) {
                Some(m - 1)
            } else {
                before
            }
        }
    }

    /// The beats on the best way to choice `j` of boundary `k`.
    pub open spec fn path(self, k: int, j: int) -> Option<Seq<usize>>
        decreases k,
    {
        if k <= 0 {
            Some(seq![self.choices(k)[j]])
        } else {
            match self.best_from(k, j, self.choices(k - 1).len()) {
                Some(p) => match self.path(k - 1, p) {
                    Some(s) => Some(s.push(self.choices(k)[j])),
                    None => None,
                },
                None => None,
            }
        }
    }

    /// Whether there is anything to refine.
    pub open spec fn applies(self) -> bool {
        self.raw.len() > 2 && self.window > 0 && self.log_probability.len() == self.n() && self.valid.len() == self.n()
    }

    /// The refined boundaries; the given ones where there is no better way.
    pub open spec fn refined(self) -> Seq<usize> {
        let last = self.inner() - 1;
        if !self.applies() {
            self.raw
        } else {
            match self.best_end(self.choices(last).len()) {
                Some(j) => match self.path(last, j) {
                    Some(s) => {
                        let out = seq![0usize] + s + seq![self.raw.last()];
                        if increasing(out) {
                            out
                        } else {
                            self.raw
                        }
                    },
                    None => self.raw,
                },
                None => self.raw,
            }
        }
    }

    /// Whether there is a beat for boundary `k`: a valid one in its window, or
    /// the one where it is.
    pub open spec fn has_choice(self, k: int) -> bool {
        self.centre(k) < self.n() || valid_between(self.valid, self.low(k), self.high(k) + 1).len() > 0
    }

    /// Whether every beat and length that is looked at exists.
    pub open spec fn in_range(self) -> bool {
        &&& self.downbeats.len() == self.n()
        &&& self.length_scores.len() > self.n()
        &&& self.n() > 0
        &&& forall|k: int| 0 <= k < self.raw.len() - 2 ==> #[trigger] self.has_choice(k)
    }
}

/// Whether each entry is above the one before it.
pub open spec fn increasing(s: Seq<usize>) -> bool {
    forall|i: int| 0 <= i < s.len() - 1 ==> #[trigger] s[i] < s[i + 1]
}

proof fn lemma_valid_between(valid: Seq<bool>, from: int, to: int)
    requires
        0 <= from,
        to <= valid.len() <= usize::MAX,
    ensures
        forall|i: int|
            0 <= i < valid_between(valid, from, to).len() ==> from <= #[trigger] valid_between(valid, from, to)[i] < to
                && valid[valid_between(valid, from, to)[i] as int],
    decreases to - from,
{
    if to > from {
        lemma_valid_between(valid, from, to - 1);
        let before = valid_between(valid, from, to - 1);
        let now = valid_between(valid, from, to);
        assert forall|i: int| 0 <= i < now.len() implies from <= #[trigger] now[i] < to && valid[now[i] as int] by {
            if i < before.len() {
                assert(now[i] == before[i]);
            }
        }
    }
}

impl Refinement {
    proof fn lemma_choices(self, k: int)
        requires
            self.applies(),
            self.in_range(),
            0 <= k < self.inner(),
        ensures
            self.choices(k).len() > 0,
            forall|j: int|
                0 <= j < self.choices(k).len() ==> {
                    let c = #[trigger] self.choices(k)[j];
                    c < self.n() && c - self.centre(k) <= self.window && self.centre(k) - c <= self.window
                },
    {
        lemma_valid_between(self.valid, self.low(k), self.high(k) + 1);
        assert(self.has_choice(k));
    }

    proof fn lemma_best_from(self, k: int, j: int, m: nat)
        ensures
            self.best_from(k, j, m) is Some ==> 0 <= self.best_from(k, j, m)->0 < m && self.choices(k - 1)[self.best_from(
                k,
                j,
                m,
            )->0] < self.choices(k)[j],
        decreases m,
    {
        if m > 0 && k > 0 {
            self.lemma_best_from(k, j, (m - 1) as nat);
        }
    }

    proof fn lemma_best_end(self, m: nat)
        ensures
            self.best_end(m) is Some ==> 0 <= self.best_end(m)->0 < m,
        decreases m,
    {
        if m > 0 {
            self.lemma_best_end((m - 1) as nat);
        }
    }

    proof fn lemma_path(self, k: int, j: int)
        requires
            self.applies(),
            self.in_range(),
            0 <= k < self.inner(),
            0 <= j < self.choices(k).len(),
            self.path(k, j) is Some,
        ensures
            self.path(k, j)->0.len() == k + 1,
            self.path(k, j)->0.last() == self.choices(k)[j],
            forall|i: int|
                0 <= i <= k ==> {
                    let c = #[trigger] self.path(k, j)->0[i];
                    c < self.n() && c - self.centre(i) <= self.window && self.centre(i) - c <= self.window
                },
        decreases k,
    {
        self.lemma_choices(k);
        if k > 0 {
            self.lemma_best_from(k, j, self.choices(k - 1).len());
            let p = self.best_from(k, j, self.choices(k - 1).len())->0;
            self.lemma_path(k - 1, p);
        }
    }
}

/// Adding keeps the order of numbers below infinity.
pub proof fn lemma_sums_keep_the_order(a: Binary64, b: Binary64, c: Binary64)
    requires
        a.spec_le(b),
        b.spec_lt(plus_infinity()),
        c.spec_lt(plus_infinity()),
    ensures
        sum(a, c).spec_le(sum(b, c)),
        sum(c, a).spec_le(sum(c, b)),
        sum(c, a) == sum(a, c),
{
    if c.finite() {
        law_addition_keeps_the_order(a, b, c);
    }
}

/// What sums up below infinity with a number below infinity is below it.
pub proof fn lemma_below_infinity(a: Binary64, b: Binary64)
    requires
        a.spec_lt(plus_infinity()),
        sum(a, b).spec_lt(plus_infinity()),
    ensures
        b.spec_lt(plus_infinity()),
{
}

/// Nothing but minus infinity comes before minus infinity.
pub proof fn lemma_nothing_is_less(a: Binary64)
    requires
        a.spec_le(minus_infinity()),
    ensures
        a == minus_infinity(),
{
}

impl Refinement {
    /// Whether some beats are a way through the windows: each one of the choices
    /// of its boundary, and each behind the one before.
    pub open spec fn is_way(self, way: Seq<usize>) -> bool {
        &&& way.len() == self.inner()
        &&& forall|k: int| 0 <= k < way.len() ==> #[trigger] self.choices(k).contains(way[k])
        &&& increasing(way)
    }

    /// The merit of a way up to boundary `k`: how good each beat is by itself,
    /// and each phrase length between them.
    pub open spec fn merit_up_to(self, way: Seq<usize>, k: int) -> Binary64
        decreases k,
    {
        if k <= 0 {
            sum(self.emission(k, way[k] as int), self.length_term(way[k] as int))
        } else {
            sum(
                self.emission(k, way[k] as int),
                sum(self.merit_up_to(way, k - 1), self.length_term(way[k] - way[k - 1])),
            )
        }
    }

    /// The merit of a way: up to its last boundary, and of the phrase behind it.
    pub open spec fn merit(self, way: Seq<usize>) -> Binary64 {
        sum(self.merit_up_to(way, self.inner() - 1), self.length_term(self.n() - way.last()))
    }

    /// Whether every merit is a number below infinity.
    pub open spec fn weighs(self) -> bool {
        &&& forall|k: int, c: int|
            0 <= k < self.inner() && 0 <= c < self.n() ==> (#[trigger] self.emission(k, c)).spec_lt(plus_infinity())
        &&& forall|length: int|
            0 <= length <= self.n() ==> (#[trigger] self.length_term(length)).spec_lt(plus_infinity())
        &&& forall|k: int, j: int|
            0 <= k < self.inner() && 0 <= j < self.choices(k).len() ==> (#[trigger] self.score(k, j)).spec_lt(
                plus_infinity(),
            )
    }

    /// The merit of coming from a choice is a number, and adding to it keeps
    /// its order.
    proof fn lemma_value_from(self, k: int, j: int, p: int, less: Binary64)
        requires
            self.applies(),
            self.in_range(),
            self.weighs(),
            0 < k < self.inner(),
            0 <= j < self.choices(k).len(),
            0 <= p < self.choices(k - 1).len(),
            self.choices(k - 1)[p] < self.choices(k)[j],
            less.spec_le(self.score(k - 1, p)),
        ensures
            sum(less, self.length_term(self.choices(k)[j] - self.choices(k - 1)[p])).spec_le(self.value_from(k, j, p)),
    {
        self.lemma_choices(k);
        self.lemma_choices(k - 1);
        let length = self.choices(k)[j] - self.choices(k - 1)[p];
        assert(0 <= length <= self.n());
        assert(self.score(k - 1, p).spec_lt(plus_infinity()));
        assert(self.length_term(length).spec_lt(plus_infinity()));
        lemma_sums_keep_the_order(less, self.score(k - 1, p), self.length_term(length));
    }

    /// The best choice to come from is no worse than any other.
    proof fn lemma_best_from_is_best(self, k: int, j: int, m: nat)
        requires
            self.applies(),
            self.in_range(),
            self.weighs(),
            0 < k < self.inner(),
            0 <= j < self.choices(k).len(),
            m <= self.choices(k - 1).len(),
        ensures
            self.best_from(k, j, m) is Some ==> minus_infinity().spec_lt(self.value_from(k, j, self.best_from(k, j, m)->0)),
            forall|p: int|
                0 <= p < m && self.choices(k - 1)[p] < self.choices(k)[j] ==> (#[trigger] self.value_from(k, j, p)).spec_le(
                    match self.best_from(k, j, m) {
                        Some(q) => self.value_from(k, j, q),
                        None => minus_infinity(),
                    },
                ),
        decreases m,
    {
        if m > 0 {
            let p = m - 1;
            self.lemma_best_from_is_best(k, j, p as nat);
            if self.choices(k - 1)[p] < self.choices(k)[j] {
                assert(self.score(k - 1, p).spec_lt(plus_infinity()));
                self.lemma_value_from(k, j, p, self.score(k - 1, p));
            }
        }
    }

    /// No way scores higher than the best way to its beat.
    proof fn lemma_no_way_scores_higher(self, way: Seq<usize>, k: int) -> (j: int)
        requires
            self.applies(),
            self.in_range(),
            self.weighs(),
            self.is_way(way),
            0 <= k < self.inner(),
        ensures
            0 <= j < self.choices(k).len(),
            self.choices(k)[j] == way[k],
            self.merit_up_to(way, k).spec_le(self.score(k, j)),
        decreases k,
    {
        self.lemma_choices(k);
        assert(self.choices(k).contains(way[k]));
        let j = choose|j: int| 0 <= j < self.choices(k).len() && self.choices(k)[j] == way[k];
        let c = way[k] as int;
        assert(self.choices(k)[j] == c);
        assert(self.score(k, j).spec_lt(plus_infinity()));
        assert(self.emission(k, c).spec_lt(plus_infinity()));
        if k > 0 {
            let p = self.lemma_no_way_scores_higher(way, k - 1);
            assert(way[k - 1] < way[k]);
            self.lemma_value_from(k, j, p, self.merit_up_to(way, k - 1));
            self.lemma_best_from_is_best(k, j, self.choices(k - 1).len());
            self.lemma_best_from(k, j, self.choices(k - 1).len());
            let here = sum(self.merit_up_to(way, k - 1), self.length_term(way[k] - way[k - 1]));
            match self.best_from(k, j, self.choices(k - 1).len()) {
                Some(q) => {
                    let best = self.value_from(k, j, q);
                    assert(here.spec_le(best));
                    assert(best.spec_lt(plus_infinity())) by {
                        lemma_below_infinity(self.emission(k, c), best);
                    }
                    lemma_sums_keep_the_order(here, best, self.emission(k, c));
                },
                None => {
                    assert(here.spec_le(minus_infinity()));
                    lemma_sums_keep_the_order(here, minus_infinity(), self.emission(k, c));
                },
            }
        }
        j
    }

    /// Two ways that agree up to a boundary have one merit up to it.
    proof fn lemma_merit_of_start(self, a: Seq<usize>, b: Seq<usize>, k: int)
        requires
            0 <= k,
            forall|i: int| 0 <= i <= k ==> a[i] == #[trigger] b[i],
        ensures
            self.merit_up_to(a, k) == self.merit_up_to(b, k),
        decreases k,
    {
        if k > 0 {
            self.lemma_merit_of_start(a, b, k - 1);
            assert(a[k] == b[k] && a[k - 1] == b[k - 1]);
        } else {
            assert(a[0] == b[0]);
        }
    }

    /// The way that is followed back scores what the table says.
    proof fn lemma_path_scores(self, k: int, j: int)
        requires
            self.applies(),
            self.in_range(),
            self.weighs(),
            0 <= k < self.inner(),
            0 <= j < self.choices(k).len(),
            minus_infinity().spec_lt(self.score(k, j)),
        ensures
            self.path(k, j) is Some,
            self.path(k, j)->0.len() == k + 1,
            self.path(k, j)->0.last() == self.choices(k)[j],
            increasing(self.path(k, j)->0),
            forall|i: int| 0 <= i <= k ==> #[trigger] self.choices(i).contains(self.path(k, j)->0[i]),
            self.merit_up_to(self.path(k, j)->0, k) == self.score(k, j),
        decreases k,
    {
        self.lemma_choices(k);
        if k > 0 {
            let m = self.choices(k - 1).len();
            self.lemma_best_from(k, j, m);
            self.lemma_best_from_is_best(k, j, m);
            let q = self.best_from(k, j, m)->0;
            assert(self.best_from(k, j, m) is Some);
            self.lemma_choices(k - 1);
            let length = self.choices(k)[j] - self.choices(k - 1)[q];
            assert(self.length_term(length).spec_lt(plus_infinity()));
            assert(self.score(k - 1, q).spec_lt(plus_infinity()));
            assert(minus_infinity().spec_lt(self.score(k - 1, q))) by {
                if self.score(k - 1, q).spec_le(minus_infinity()) {
                    lemma_nothing_is_less(self.score(k - 1, q));
                }
            }
            self.lemma_path_scores(k - 1, q);
            let before = self.path(k - 1, q)->0;
            let now = self.path(k, j)->0;
            assert(now == before.push(self.choices(k)[j]));
            assert(now[k - 1] == before.last());
            assert forall|i: int| 0 <= i < now.len() - 1 implies #[trigger] now[i] < now[i + 1] by {
                if i + 1 < before.len() {
                    assert(before[i] < before[i + 1]);
                }
            }
            assert forall|i: int| 0 <= i <= k implies #[trigger] self.choices(i).contains(now[i]) by {
                if i < k {
                    assert(self.choices(i).contains(before[i]));
                }
            }
            self.lemma_merit_of_start(now, before, k - 1);
        } else {
            let now = self.path(k, j)->0;
            assert(now[0] == self.choices(0)[j]);
        }
    }

    /// The best choice to end with is no worse than any other.
    proof fn lemma_best_end_is_best(self, m: nat)
        requires
            self.applies(),
            self.in_range(),
            self.weighs(),
            m <= self.choices(self.inner() - 1).len(),
        ensures
            self.best_end(m) is Some ==> self.score(self.inner() - 1, self.best_end(m)->0).finite(),
            forall|j: int|
                0 <= j < m ==> (#[trigger] self.end_value(j)).spec_le(
                    match self.best_end(m) {
                        Some(q) => self.end_value(q),
                        None => minus_infinity(),
                    },
                ),
        decreases m,
    {
        if m > 0 {
            let last = self.inner() - 1;
            let j = m - 1;
            self.lemma_best_end_is_best(j as nat);
            self.lemma_choices(last);
            let length = self.n() - self.choices(last)[j];
            assert(self.score(last, j).spec_lt(plus_infinity()));
            assert(self.length_term(length).spec_lt(plus_infinity()));
            lemma_sums_keep_the_order(self.score(last, j), self.score(last, j), self.length_term(length));
            self.lemma_best_end(j as nat);
            if !self.score(last, j).finite() {
                assert(self.score(last, j) == minus_infinity());
                assert(self.end_value(j) == minus_infinity());
            }
        }
    }
}

proof fn lemma_ends_keep_the_order(s: Seq<usize>, last: usize)
    requires
        s.len() > 0,
        increasing(s),
        s[0] > 0,
        s[s.len() - 1] < last,
    ensures
        increasing(seq![0usize] + s + seq![last]),
{
    let out = seq![0usize] + s + seq![last];
    assert forall|i: int| 0 <= i < out.len() - 1 implies #[trigger] out[i] < out[i + 1] by {
        if 0 < i < out.len() - 2 {
            assert(out[i] == s[i - 1] && out[i + 1] == s[i]);
            assert(s[i - 1] < s[i - 1 + 1]);
        }
    }
}

/// What refinement takes, where some way scores above minus infinity, is a way
/// with the merit of the best end.
#[verifier::spinoff_prover]
proof fn lemma_taken_way(r: Refinement, q: int)
    requires
        r.applies(),
        r.in_range(),
        r.weighs(),
        r.raw[1] > 0,
        r.best_end(r.choices(r.inner() - 1).len()) == Some(q),
        0 <= q < r.choices(r.inner() - 1).len(),
        r.score(r.inner() - 1, q).finite(),
    ensures
        r.is_way(r.refined().subrange(1, r.raw.len() - 1)),
        r.merit(r.refined().subrange(1, r.raw.len() - 1)) == r.end_value(q),
{
    let last = r.inner() - 1;
    r.lemma_path_scores(last, q);
    let s = r.path(last, q)->0;
    let out = seq![0usize] + s + seq![r.raw.last()];
    assert(s[last] == r.choices(last)[q]);
    assert(s[last] < r.n()) by {
        r.lemma_choices(last);
    }
    assert(s[0] > 0) by {
        assert(r.choices(0).contains(s[0]));
        lemma_valid_between(r.valid, r.low(0), r.high(0) + 1);
    }
    lemma_ends_keep_the_order(s, r.raw.last());
    assert(r.refined() == out);
    assert(out.subrange(1, r.raw.len() - 1) =~= s);
}

/// No way through the windows scores higher than the one that refinement takes.
/// The given boundaries stay only where no way scores above minus infinity.
#[verifier::spinoff_prover]
pub proof fn law_no_way_scores_higher(r: Refinement, way: Seq<usize>)
    requires
        r.applies(),
        r.in_range(),
        r.weighs(),
        r.raw[1] > 0,
        r.is_way(way),
    ensures
        ({
            let taken = r.refined().subrange(1, r.raw.len() - 1);
            if r.best_end(r.choices(r.inner() - 1).len()) is Some {
                r.is_way(taken) && r.merit(way).spec_le(r.merit(taken))
            } else {
                r.refined() == r.raw && r.merit(way) == minus_infinity()
            }
        }),
{
    let last = r.inner() - 1;
    let end = r.choices(last).len();
    let j = r.lemma_no_way_scores_higher(way, last);
    r.lemma_choices(last);
    r.lemma_best_end(end);
    r.lemma_best_end_is_best(end);
    let length = r.n() - way.last();
    assert(way.last() == way[last] && way[last] == r.choices(last)[j]);
    assert(r.score(last, j).spec_lt(plus_infinity()));
    assert(r.length_term(length).spec_lt(plus_infinity()));
    lemma_sums_keep_the_order(r.merit_up_to(way, last), r.score(last, j), r.length_term(length));
    assert(r.merit(way).spec_le(r.end_value(j)));
    match r.best_end(end) {
        Some(q) => {
            lemma_taken_way(r, q);
        },
        None => {
            lemma_nothing_is_less(r.merit(way));
        },
    }
}

/// Boundaries within a window of the given ones, with both ends put back.
proof fn lemma_with_ends(raw: Seq<usize>, s: Seq<usize>, window: nat)
    requires
        raw.len() >= 2,
        raw[0] == 0,
        s.len() == raw.len() - 2,
        forall|i: int|
            0 <= i < s.len() ==> #[trigger] s[i] - raw[i + 1] <= window && raw[i + 1] - s[i] <= window,
    ensures
        ({
            let out = seq![0usize] + s + seq![raw.last()];
            &&& out.len() == raw.len()
            &&& out[0] == 0
            &&& out.last() == raw.last()
            &&& forall|i: int|
                0 <= i < raw.len() ==> #[trigger] out[i] - raw[i] <= window && raw[i] - out[i] <= window
        }),
{
    let out = seq![0usize] + s + seq![raw.last()];
    assert forall|i: int| 0 <= i < raw.len() implies #[trigger] out[i] - raw[i] <= window && raw[i] - out[i] <= window by {
        if 0 < i < raw.len() - 1 {
            assert(out[i] == s[i - 1]);
        }
    }
}

/// The path that refinement takes stays within the window.
proof fn lemma_best_path(r: Refinement, j: int)
    requires
        r.applies(),
        r.in_range(),
        r.raw[0] == 0,
        0 <= j < r.choices(r.inner() - 1).len(),
        r.path(r.inner() - 1, j) is Some,
    ensures
        ({
            let out = seq![0usize] + r.path(r.inner() - 1, j)->0 + seq![r.raw.last()];
            &&& out.len() == r.raw.len()
            &&& out[0] == 0
            &&& out.last() == r.raw.last()
            &&& forall|i: int|
                0 <= i < r.raw.len() ==> #[trigger] out[i] - r.raw[i] <= r.window && r.raw[i] - out[i] <= r.window
        }),
{
    let last = r.inner() - 1;
    r.lemma_path(last, j);
    let s = r.path(last, j)->0;
    assert forall|i: int| 0 <= i < s.len() implies #[trigger] s[i] - r.raw[i + 1] <= r.window && r.raw[i + 1] - s[i]
        <= r.window by {
        assert(r.centre(i) == r.raw[i + 1]);
    }
    lemma_with_ends(r.raw, s, r.window);
}

/// Refinement keeps the number of boundaries and both ends, moves none beyond
/// its window, and never lets boundaries meet or change places.
pub proof fn law_refinement_is_bounded(r: Refinement)
    requires
        r.applies() ==> r.in_range(),
        r.raw.len() >= 2,
        r.raw[0] == 0,
        increasing(r.raw),
    ensures
        r.refined().len() == r.raw.len(),
        r.refined()[0] == 0,
        r.refined().last() == r.raw.last(),
        increasing(r.refined()),
        forall|i: int|
            0 <= i < r.raw.len() ==> #[trigger] r.refined()[i] - r.raw[i] <= r.window && r.raw[i] - r.refined()[i] <= r.window,
{
    if r.applies() {
        let end = r.choices(r.inner() - 1).len();
        r.lemma_best_end(end);
        if r.best_end(end) is Some && r.path(r.inner() - 1, r.best_end(end)->0) is Some {
            lemma_best_path(r, r.best_end(end)->0);
        }
    }
}

/// What refinement works on, as given to [`refine_boundaries`]; downbeats of
/// another length count as none.
pub open spec fn refinement(
    raw: Seq<usize>,
    log_probability: Seq<Binary64>,
    valid: Seq<bool>,
    downbeats: Seq<bool>,
    length_scores: Seq<Binary64>,
    settings: ModelSettings,
) -> Refinement {
    Refinement {
        raw,
        log_probability,
        valid,
        downbeats: if downbeats.len() == raw.last() {
            downbeats
        } else {
            Seq::new(raw.last() as nat, |i: int| false)
        },
        length_scores,
        window: settings.boundary_refine_window_beats as nat,
        length_weight: settings.boundary_length_weight,
        shift_penalty: settings.boundary_shift_penalty,
        downbeat_bonus: settings.boundary_downbeat_bonus,
    }
}

/// The valid beats in `from..to`.
fn collect_valid(valid: &[bool], from: usize, to: usize) -> (r: Vec<usize>)
    requires
        to <= valid@.len(),
    ensures
        r@ == valid_between(valid@, from as int, to as int),
{
    let mut out: Vec<usize> = Vec::new();
    let mut i: usize = from;
    if to <= from {
        return out;
    }
    while i < to
        invariant
            from <= i <= to <= valid@.len(),
            out@ == valid_between(valid@, from as int, i as int),
        decreases to - i,
    {
        if valid[i] {
            out.push(i);
        }
        i = i + 1;
    }
    out
}

/// The choices and the merit of each by itself, for boundary `k`.
fn weigh_choices(
    raw: &[usize],
    log_probability: &[Binary64],
    valid: &[bool],
    downbeats: &Vec<bool>,
    settings: &ModelSettings,
    k: usize,
    Ghost(r): Ghost<Refinement>,
) -> (out: (Vec<usize>, Vec<Binary64>))
    requires
        r.applies(),
        r.in_range(),
        r.raw == raw@,
        r.log_probability == log_probability@,
        r.valid == valid@,
        r.downbeats == downbeats@,
        r.window == settings.boundary_refine_window_beats,
        r.shift_penalty == settings.boundary_shift_penalty,
        r.downbeat_bonus == settings.boundary_downbeat_bonus,
        k < r.inner(),
    ensures
        out.0@ == r.choices(k as int),
        out.1@.len() == out.0@.len(),
        forall|j: int| 0 <= j < out.0@.len() ==> #[trigger] out.1@[j] == r.emission(k as int, out.0@[j] as int),
{
    let n: usize = raw[raw.len() - 1];
    let centre: usize = raw[k + 1];
    let window: usize = settings.boundary_refine_window_beats;
    assert(r.has_choice(k as int));
    let low: usize = if centre > window && centre - window > 1 {
        centre - window
    } else {
        1
    };
    let high: usize = if centre < n && window < n - 1 - centre {
        centre + window
    } else {
        n - 1
    };
    let mut choices: Vec<usize> = collect_valid(valid, low, high + 1);
    if choices.len() == 0 {
        choices.push(centre);
        assert(choices@ =~= seq![r.raw[k + 1]]);
    }
    proof {
        r.lemma_choices(k as int);
    }
    let mut merits: Vec<Binary64> = Vec::new();
    let mut j: usize = 0;
    while j < choices.len()
        invariant
            j <= choices@.len(),
            choices@ == r.choices(k as int),
            merits@.len() == j,
            n == r.n(),
            centre == r.centre(k as int),
            r.log_probability == log_probability@,
            r.downbeats == downbeats@,
            log_probability@.len() == n,
            downbeats@.len() == n,
            r.shift_penalty == settings.boundary_shift_penalty,
            r.downbeat_bonus == settings.boundary_downbeat_bonus,
            forall|i: int| 0 <= i < choices@.len() ==> #[trigger] choices@[i] < n,
            forall|i: int| 0 <= i < j ==> #[trigger] merits@[i] == r.emission(k as int, choices@[i] as int),
        decreases choices@.len() - j,
    {
        let c: usize = choices[j];
        let far: Binary64 = Binary64::from_u64(c as u64).minus(Binary64::from_u64(centre as u64)).abs();
        let on: Binary64 = if downbeats[c] {
            Binary64::from_u64(1)
        } else {
            Binary64::from_u64(0)
        };
        let merit: Binary64 = log_probability[c].minus(settings.boundary_shift_penalty.times(far)).plus(
            settings.boundary_downbeat_bonus.times(on),
        );
        merits.push(merit);
        j = j + 1;
    }
    (choices, merits)
}

/// The scores and the best predecessors of the choices of one boundary.
fn score_choices(
    choices: &Vec<usize>,
    merits: &Vec<Binary64>,
    earlier: &Vec<usize>,
    held: &Vec<Binary64>,
    length_scores: &[Binary64],
    weight: Binary64,
    k: usize,
    Ghost(r): Ghost<Refinement>,
) -> (out: (Vec<Binary64>, Vec<Option<usize>>))
    requires
        r.applies(),
        r.in_range(),
        r.length_scores == length_scores@,
        r.length_weight == weight,
        k < r.inner(),
        choices@ == r.choices(k as int),
        merits@.len() == choices@.len(),
        forall|j: int| 0 <= j < choices@.len() ==> #[trigger] merits@[j] == r.emission(k as int, choices@[j] as int),
        k > 0 ==> earlier@ == r.choices(k - 1) && held@.len() == earlier@.len() && forall|p: int|
            0 <= p < earlier@.len() ==> #[trigger] held@[p] == r.score(k - 1, p),
    ensures
        out.0@.len() == choices@.len(),
        out.1@.len() == choices@.len(),
        forall|j: int| 0 <= j < choices@.len() ==> #[trigger] out.0@[j] == r.score(k as int, j),
        k > 0 ==> forall|j: int|
            0 <= j < choices@.len() ==> match r.best_from(k as int, j, r.choices(k - 1).len()) {
                Some(p) => #[trigger] out.1@[j] == Some(p as usize) && 0 <= p < r.choices(k - 1).len(),
                None => out.1@[j] is None,
            },
{
    let mut scores: Vec<Binary64> = Vec::new();
    let mut from: Vec<Option<usize>> = Vec::new();
    proof {
        r.lemma_choices(k as int);
        if k > 0 {
            r.lemma_choices(k - 1);
        }
    }
    let mut j: usize = 0;
    while j < choices.len()
        invariant
            r.applies(),
            r.in_range(),
            r.length_scores == length_scores@,
            r.length_weight == weight,
            k < r.inner(),
            choices@ == r.choices(k as int),
            merits@.len() == choices@.len(),
            forall|i: int| 0 <= i < choices@.len() ==> #[trigger] merits@[i] == r.emission(k as int, choices@[i] as int),
            k > 0 ==> earlier@ == r.choices(k - 1) && held@.len() == earlier@.len() && forall|p: int|
                0 <= p < earlier@.len() ==> #[trigger] held@[p] == r.score(k - 1, p),
            forall|i: int| 0 <= i < choices@.len() ==> #[trigger] choices@[i] < r.n(),
            j <= choices@.len(),
            scores@.len() == j,
            from@.len() == j,
            forall|i: int| 0 <= i < j ==> #[trigger] scores@[i] == r.score(k as int, i),
            k > 0 ==> forall|i: int|
                0 <= i < j ==> match r.best_from(k as int, i, r.choices(k - 1).len()) {
                    Some(p) => #[trigger] from@[i] == Some(p as usize) && 0 <= p < r.choices(k - 1).len(),
                    None => from@[i] is None,
                },
        decreases choices@.len() - j,
    {
        let c: usize = choices[j];
        if k == 0 {
            scores.push(merits[j].plus(weight.times(length_scores[c])));
            from.push(None);
        } else {
            let mut best: Binary64 = minus_infinity();
            let mut choice: Option<usize> = None;
            let mut p: usize = 0;
            while p < earlier.len()
                invariant
                    r.applies(),
                    r.in_range(),
                    0 < k < r.inner(),
                    j < choices@.len(),
                    choices@ == r.choices(k as int),
                    c == choices@[j as int],
                    c < r.n(),
                    r.length_scores == length_scores@,
                    r.length_weight == weight,
                    earlier@ == r.choices(k - 1),
                    held@.len() == earlier@.len(),
                    forall|q: int| 0 <= q < earlier@.len() ==> #[trigger] held@[q] == r.score(k - 1, q),
                    p <= earlier@.len(),
                    match r.best_from(k as int, j as int, p as nat) {
                        Some(q) => choice == Some(q as usize) && 0 <= q < p && best == r.value_from(k as int, j as int, q),
                        None => choice is None && best == minus_infinity(),
                    },
                decreases earlier@.len() - p,
            {
                let ghost held_merit = match r.best_from(k as int, j as int, p as nat) {
                    Some(q) => r.value_from(k as int, j as int, q),
                    None => minus_infinity(),
                };
                assert(best == held_merit);
                assert(r.value_from(k as int, j as int, p as int) == sum(
                    r.score(k - 1, p as int),
                    r.length_term(r.choices(k as int)[j as int] - r.choices(k - 1)[p as int]),
                ));
                assert(r.best_from(k as int, j as int, (p + 1) as nat) == if r.choices(k - 1)[p as int] < r.choices(
                    k as int,
                )[j as int] && held_merit.spec_lt(r.value_from(k as int, j as int, p as int)) {
                    Some(p as int)
                } else {
                    r.best_from(k as int, j as int, p as nat)
                });
                if earlier[p] < c {
                    let value: Binary64 = held[p].plus(weight.times(length_scores[c - earlier[p]]));
                    assert(value == r.value_from(k as int, j as int, p as int));
                    if best.lt(value) {
                        best = value;
                        choice = Some(p);
                    }
                }
                p = p + 1;
            }
            match choice {
                Some(_) => {
                    scores.push(merits[j].plus(best));
                },
                None => {
                    scores.push(minus_infinity());
                },
            }
            from.push(choice);
        }
        j = j + 1;
    }
    (scores, from)
}

/// Slides each boundary within a window to a jointly better set of positions.
///
/// `log_probability` holds the natural logarithm of each beat's probability, cut
/// by [`floor_probability`]; `length_scores` holds [`length_prior`] of each
/// length from 0 to the number of beats.
pub fn refine_boundaries(
    raw: &[usize],
    log_probability: &[Binary64],
    valid: &[bool],
    downbeats: &[bool],
    length_scores: &[Binary64],
    settings: &ModelSettings,
) -> (out: Vec<usize>)
    requires
        refinement(raw@, log_probability@, valid@, downbeats@, length_scores@, *settings).applies() ==> refinement(
            raw@,
            log_probability@,
            valid@,
            downbeats@,
            length_scores@,
            *settings,
        ).in_range(),
    ensures
        out@ == refinement(raw@, log_probability@, valid@, downbeats@, length_scores@, *settings).refined(),
{
    let ghost r = refinement(raw@, log_probability@, valid@, downbeats@, length_scores@, *settings);
    let window: usize = settings.boundary_refine_window_beats;
    if raw.len() <= 2 || window == 0 {
        return slice_to_vec(raw);
    }
    let n: usize = raw[raw.len() - 1];
    if log_probability.len() != n || valid.len() != n {
        return slice_to_vec(raw);
    }
    let mut on: Vec<bool> = Vec::new();
    let known: bool = downbeats.len() == n;
    let mut b: usize = 0;
    while b < n
        invariant
            b <= n,
            known == (downbeats@.len() == n),
            on@ == Seq::new(b as nat, |i: int| known && downbeats@[i]),
        decreases n - b,
    {
        on.push(known && downbeats[b]);
        b = b + 1;
        assert(on@ =~= Seq::new(b as nat, |i: int| known && downbeats@[i]));
    }
    assert(on@ =~= r.downbeats);
    let inner: usize = raw.len() - 2;
    let mut sets: Vec<Vec<usize>> = Vec::new();
    let mut dp: Vec<Vec<Binary64>> = Vec::new();
    let mut back: Vec<Vec<Option<usize>>> = Vec::new();
    let mut k: usize = 0;
    while k < inner
        invariant
            k <= inner,
            inner == r.inner(),
            r == refinement(raw@, log_probability@, valid@, downbeats@, length_scores@, *settings),
            r.applies(),
            r.in_range(),
            r.downbeats == on@,
            sets@.len() == k,
            dp@.len() == k,
            back@.len() == k,
            forall|i: int| 0 <= i < k ==> (#[trigger] sets@[i])@ == r.choices(i),
            forall|i: int|
                0 <= i < k ==> (#[trigger] dp@[i])@.len() == r.choices(i).len() && forall|j: int|
                    0 <= j < r.choices(i).len() ==> #[trigger] dp@[i]@[j] == r.score(i, j),
            forall|i: int| 0 <= i < k ==> #[trigger] tells_best(r, i, back@[i]@),
        decreases inner - k,
    {
        let (choices, merits) = weigh_choices(raw, log_probability, valid, &on, settings, k, Ghost(r));
        let (scores, from) = if k == 0 {
            score_choices(&choices, &merits, &choices, &merits, length_scores, settings.boundary_length_weight, k, Ghost(r))
        } else {
            score_choices(
                &choices,
                &merits,
                &sets[k - 1],
                &dp[k - 1],
                length_scores,
                settings.boundary_length_weight,
                k,
                Ghost(r),
            )
        };
        assert(tells_best(r, k as int, from@));
        sets.push(choices);
        dp.push(scores);
        back.push(from);
        k = k + 1;
    }
    let last: usize = inner - 1;
    let mut best: Binary64 = minus_infinity();
    let mut choice: Option<usize> = None;
    let mut j: usize = 0;
    proof {
        r.lemma_choices(last as int);
    }
    while j < sets[last].len()
        invariant
            last == r.inner() - 1,
            n == r.n(),
            r.length_scores == length_scores@,
            r.length_weight == settings.boundary_length_weight,
            length_scores@.len() > n,
            sets@.len() == inner,
            dp@.len() == inner,
            last < inner,
            sets@[last as int]@ == r.choices(last as int),
            dp@[last as int]@.len() == r.choices(last as int).len(),
            forall|i: int| 0 <= i < r.choices(last as int).len() ==> #[trigger] dp@[last as int]@[i] == r.score(last as int, i),
            j <= r.choices(last as int).len(),
            match r.best_end(j as nat) {
                Some(q) => choice == Some(q as usize) && 0 <= q < j && best == r.end_value(q),
                None => choice is None && best == minus_infinity(),
            },
        decreases r.choices(last as int).len() - j,
    {
        let c: usize = sets[last][j];
        if c < n && dp[last][j].is_finite() {
            let value: Binary64 = dp[last][j].plus(settings.boundary_length_weight.times(length_scores[n - c]));
            if best.lt(value) {
                best = value;
                choice = Some(j);
            }
        }
        j = j + 1;
    }
    let end: usize = match choice {
        Some(q) => q,
        None => {
            return slice_to_vec(raw);
        },
    };
    let beats: Vec<usize> = match trace_back(&sets, &back, last, end, Ghost(r)) {
        Some(beats) => beats,
        None => {
            return slice_to_vec(raw);
        },
    };
    let mut out: Vec<usize> = vec![0];
    let mut i: usize = 0;
    while i < beats.len()
        invariant
            i <= beats@.len(),
            out@ == seq![0usize] + beats@.take(i as int),
        decreases beats@.len() - i,
    {
        out.push(beats[i]);
        i = i + 1;
        assert(out@ =~= seq![0usize] + beats@.take(i as int));
    }
    out.push(n);
    assert(out@ =~= seq![0usize] + beats@ + seq![raw@.last()]);
    if is_increasing(&out) {
        out
    } else {
        slice_to_vec(raw)
    }
}

/// Whether a list names the best predecessor of each choice of boundary `k`.
spec fn tells_best(r: Refinement, k: int, from: Seq<Option<usize>>) -> bool {
    &&& from.len() == r.choices(k).len()
    &&& k > 0 ==> forall|j: int|
        0 <= j < from.len() ==> match r.best_from(k, j, r.choices(k - 1).len()) {
            Some(p) => #[trigger] from[j] == Some(p as usize) && 0 <= p < r.choices(k - 1).len(),
            None => from[j] is None,
        }
}

/// The beats on the best way to choice `end` of boundary `last`.
fn trace_back(
    sets: &Vec<Vec<usize>>,
    back: &Vec<Vec<Option<usize>>>,
    last: usize,
    end: usize,
    Ghost(r): Ghost<Refinement>,
) -> (out: Option<Vec<usize>>)
    requires
        last < sets@.len(),
        sets@.len() == back@.len(),
        forall|i: int| 0 <= i <= last ==> (#[trigger] sets@[i])@ == r.choices(i),
        forall|i: int| 0 <= i <= last ==> #[trigger] tells_best(r, i, back@[i]@),
        end < r.choices(last as int).len(),
    ensures
        out is Some <==> r.path(last as int, end as int) is Some,
        out is Some ==> out->0@ == r.path(last as int, end as int)->0,
    decreases last,
{
    assert(sets@[last as int]@ == r.choices(last as int));
    if last == 0 {
        let out: Vec<usize> = vec![sets[0][end]];
        assert(out@ =~= seq![r.choices(0)[end as int]]);
        return Some(out);
    }
    assert(tells_best(r, last as int, back@[last as int]@));
    let step: Option<usize> = back[last][end];
    assert(sets@[last - 1]@ == r.choices(last - 1));
    assert(sets@[last - 1].len() <= usize::MAX);
    assert(step == back@[last as int]@[end as int]);
    match step {
        Some(p) => {
            assert(r.best_from(last as int, end as int, r.choices(last - 1).len()) == Some(p as int));
            match trace_back(sets, back, last - 1, p, Ghost(r)) {
                Some(mut out) => {
                    out.push(sets[last][end]);
                    Some(out)
                },
                None => None,
            }
        },
        None => None,
    }
}

/// Whether each entry is above the one before it.
fn is_increasing(s: &Vec<usize>) -> (r: bool)
    ensures
        r == increasing(s@),
{
    let mut i: usize = 1;
    while i < s.len()
        invariant
            1 <= i,
            s@.len() > 0 ==> i <= s@.len(),
            forall|j: int| 0 <= j < i - 1 && j < s@.len() - 1 ==> #[trigger] s@[j] < s@[j + 1],
        decreases s@.len() - i,
    {
        if s[i - 1] >= s[i] {
            assert(!(s@[i - 1] < s@[i - 1 + 1]));
            return false;
        }
        i = i + 1;
    }
    true
}

/// The length of a section is held against the target nearest to it.
pub proof fn law_the_nearest_target_counts(log_length: Binary64, log_targets: Seq<Binary64>, i: int)
    requires
        0 <= i < log_targets.len(),
        forall|k: int|
            0 <= k < log_targets.len() ==> !product(
                difference(log_length, #[trigger] log_targets[k]),
                difference(log_length, log_targets[k]),
            ).nan(),
    ensures
        least_square(log_length, log_targets).spec_le(
            product(difference(log_length, log_targets[i]), difference(log_length, log_targets[i])),
        ),
        exists|k: int|
            0 <= k < log_targets.len() && least_square(log_length, log_targets) == product(
                difference(log_length, #[trigger] log_targets[k]),
                difference(log_length, log_targets[k]),
            ) || least_square(log_length, log_targets) == plus_infinity(),
    decreases log_targets.len(),
{
    let front = log_targets.drop_last();
    let last = log_targets.len() - 1;
    assert(log_targets[last] == log_targets.last());
    let z = difference(log_length, log_targets.last());
    assert forall|k: int| 0 <= k < front.len() implies !product(
        difference(log_length, #[trigger] front[k]),
        difference(log_length, front[k]),
    ).nan() by {
        assert(front[k] == log_targets[k]);
    }
    if front.len() > 0 {
        law_the_nearest_target_counts(
            log_length,
            front,
            if i < front.len() {
                i
            } else {
                0
            },
        );
        if i < front.len() {
            assert(front[i] == log_targets[i]);
        }
        if exists|k: int|
            0 <= k < front.len() && least_square(log_length, front) == product(
                difference(log_length, #[trigger] front[k]),
                difference(log_length, front[k]),
            ) {
            let k = choose|k: int|
                0 <= k < front.len() && least_square(log_length, front) == product(
                    difference(log_length, #[trigger] front[k]),
                    difference(log_length, front[k]),
                );
            assert(log_targets[k] == front[k]);
        }
    }
}

/// A boundary may move to any allowed beat within the window, and to no other;
/// where there is none it stays.
pub proof fn law_choices_lie_in_the_window(r: Refinement, k: int, c: usize)
    requires
        0 <= k < r.inner(),
        r.raw.len() > 2,
        r.n() <= r.valid.len(),
    ensures
        1 <= c < r.n() && r.centre(k) - r.window <= c <= r.centre(k) + r.window && r.valid[c as int] ==> r.choices(
            k,
        ).contains(c),
        r.choices(k).contains(c) ==> c == r.raw[k + 1] || (1 <= c < r.n() && r.centre(k) - r.window <= c <= r.centre(k)
            + r.window && r.valid[c as int]),
        r.choices(k).len() > 0,
{
    lemma_valid_found(r.valid, r.low(k), r.high(k) + 1, c);
}

proof fn lemma_valid_found(valid: Seq<bool>, from: int, to: int, c: usize)
    requires
        0 <= from,
        to <= valid.len(),
        to <= usize::MAX,
    ensures
        valid_between(valid, from, to).contains(c) <==> from <= c < to && valid[c as int],
    decreases to - from,
{
    if from < to {
        lemma_valid_found(valid, from, to - 1, c);
        let before = valid_between(valid, from, to - 1);
        if valid[to - 1] {
            let now = before.push((to - 1) as usize);
            if before.contains(c) {
                let i = choose|i: int| 0 <= i < before.len() && before[i] == c;
                assert(now[i] == c);
            }
            if c == to - 1 {
                assert(now[before.len() as int] == c);
            }
            if now.contains(c) {
                let i = choose|i: int| 0 <= i < now.len() && now[i] == c;
                if i < before.len() {
                    assert(before[i] == c);
                }
            }
        }
    }
}

/// Where everything else is equal, a beat that is likelier to be a boundary
/// weighs no less.
pub proof fn law_likelier_boundaries_weigh_no_less(r: Refinement, q: Refinement, k: int, c: int)
    requires
        r.raw == q.raw && r.downbeats == q.downbeats,
        r.shift_penalty == q.shift_penalty && r.downbeat_bonus == q.downbeat_bonus,
        r.log_probability[c].spec_le(q.log_probability[c]),
        product(r.shift_penalty, absolute(difference(of_int(c), of_int(r.centre(k))))).finite(),
        product(r.downbeat_bonus, of_int(1)).finite(),
        product(r.downbeat_bonus, of_int(0)).finite(),
    ensures
        r.emission(k, c).spec_le(q.emission(k, c)),
{
    let shift = product(r.shift_penalty, absolute(difference(of_int(c), of_int(r.centre(k)))));
    law_addition_keeps_the_order(r.log_probability[c], q.log_probability[c], negated(shift));
    law_addition_keeps_the_order(
        difference(r.log_probability[c], shift),
        difference(q.log_probability[c], shift),
        product(
            r.downbeat_bonus,
            of_int(
                if r.downbeats[c] {
                    1
                } else {
                    0
                },
            ),
        ),
    );
}

/// A probability is kept between the least one and one.
pub proof fn law_probabilities_stay_in_range(p: Binary64)
    requires
        !p.nan(),
    ensures
        least_probability().spec_le(floored_probability(p)),
        floored_probability(p).spec_le(one()),
        least_probability().spec_le(p) && p.spec_le(one()) ==> floored_probability(p) == p,
{
}

} // verus!
