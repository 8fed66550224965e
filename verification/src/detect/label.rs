//! Naming each segment: the best label sequence under the transition priors.
//!
//! The label ensemble scores each segment on its own; the decoder then picks
//! the sequence that also reads like a song, using the transition matrix
//! learned from the training annotations.

use crate::detect::matrix::Mat;
use crate::detect::model::PhraseModel;
use crate::detect::refine::{lemma_below_infinity, lemma_nothing_is_less, lemma_sums_keep_the_order, plus_infinity};
use crate::number::binary64::{difference, half, larger, minus_infinity, negated, product, quotient, sum, zero, Binary64};
use crate::number::laws::{law_addition_commutes, law_addition_keeps_the_order, law_multiplication_keeps_the_order};
use crate::number::lists::{even_rows, rows_of};
use crate::text::{copy_text, views};
use vstd::prelude::*;

verus! {

/// Options for the label decoder that are not baked into the model artifact.
#[derive(Debug, Clone, Copy, PartialEq, Eq, Structural)]
pub struct LabelOptions {
    /// Weight on the per-segment classifier scores.
    pub label_weight: Binary64,
    /// Weight on the label-to-label transition log-probabilities.
    pub transition_weight: Binary64,
    /// Weight on the per-label log-length prior.
    pub length_weight: Binary64,
    /// Weight on the prior for the final segment's label.
    pub end_state_weight: Binary64,
}

/// One quarter: the least spread of a length prior.
#[verifier::allow_in_spec]
pub fn least_sigma() -> Binary64
    returns
        (Binary64 { bits: 0x3FD0_0000_0000_0000 }),
{
    Binary64 { bits: 0x3FD0_0000_0000_0000 }
}

/// The spread of a label's length prior: never under a quarter, which is also
/// taken where none is known.
pub open spec fn spread(sigma: Option<Binary64>) -> Binary64 {
    match sigma {
        Some(s) => larger(s, least_sigma()),
        None => least_sigma(),
    }
}

/// The spread of a label's length prior.
pub fn floor_sigma(sigma: Option<Binary64>) -> (r: Binary64)
    ensures
        r == spread(sigma),
{
    match sigma {
        Some(s) => s.max(least_sigma()),
        None => least_sigma(),
    }
}

/// Log-likelihood of a segment length under a length prior: given the
/// logarithms of the length and of the spread.
pub open spec fn likelihood(log_length: Binary64, mu: Binary64, sigma: Binary64, log_sigma: Binary64) -> Binary64 {
    let z = quotient(difference(log_length, mu), sigma);
    difference(product(product(negated(half()), z), z), log_sigma)
}

/// Log-likelihood of a segment length under one label's length prior: given
/// the logarithms of the length and of the spread.
pub fn length_log_likelihood(log_length: Binary64, mu: Binary64, sigma: Binary64, log_sigma: Binary64) -> (r: Binary64)
    ensures
        r == likelihood(log_length, mu, sigma, log_sigma),
{
    let z: Binary64 = log_length.minus(mu).over(sigma);
    half().negate().times(z).times(z).minus(log_sigma)
}

/// The spread that is known of label `l`.
pub open spec fn known_spread(sigmas: Seq<Binary64>, l: int) -> Option<Binary64> {
    if 0 <= l < sigmas.len() {
        Some(sigmas[l])
    } else {
        None
    }
}

/// The spreads of the length priors of the labels of a model.
pub fn label_spreads(model: &PhraseModel) -> (r: Vec<Binary64>)
    ensures
        r@ == Seq::new(model.labels@.len(), |l: int| spread(known_spread(model.length_sigma@, l))),
{
    let ghost want = Seq::new(model.labels@.len(), |l: int| spread(known_spread(model.length_sigma@, l)));
    let mut out: Vec<Binary64> = Vec::new();
    let mut l: usize = 0;
    while l < model.labels.len()
        invariant
            l <= model.labels@.len(),
            want == Seq::new(model.labels@.len(), |k: int| spread(known_spread(model.length_sigma@, k))),
            out@ == want.take(l as int),
        decreases model.labels@.len() - l,
    {
        if l < model.length_sigma.len() {
            out.push(floor_sigma(Some(model.length_sigma[l])));
        } else {
            out.push(floor_sigma(None));
        }
        l = l + 1;
        assert(out@ =~= want.take(l as int));
    }
    assert(out@ =~= want);
    out
}

/// The length term of label `l` for a segment, given the logarithms of its
/// length and of the spread of the label: nothing where lengths do not count or
/// none are known of the label.
pub open spec fn length_term(
    model: PhraseModel,
    log_length: Binary64,
    log_spreads: Seq<Binary64>,
    weight: Binary64,
    l: int,
) -> Binary64 {
    if weight.spec_same(zero()) || l >= model.length_mu@.len() {
        zero()
    } else {
        likelihood(log_length, model.length_mu@[l], spread(known_spread(model.length_sigma@, l)), log_spreads[l])
    }
}

/// The length terms of all labels for each segment, given the logarithms of the
/// lengths and of the spreads of the labels.
pub fn length_terms(
    model: &PhraseModel,
    log_lengths: &[Binary64],
    log_spreads: &[Binary64],
    weight: Binary64,
) -> (r: Mat)
    requires
        !weight.spec_same(zero()) ==> model.length_mu@.len() <= model.labels@.len() && log_spreads@.len()
            == model.labels@.len(),
        log_lengths@.len() * model.labels@.len() <= usize::MAX,
    ensures
        r.wf(),
        r.height() == log_lengths@.len(),
        r.width() == model.labels@.len(),
        r.grid() == Seq::new(
            log_lengths@.len(),
            |s: int|
                Seq::new(model.labels@.len(), |l: int| length_term(*model, log_lengths@[s], log_spreads@, weight, l)),
        ),
{
    let n: usize = model.labels.len();
    let spreads: Vec<Binary64> = label_spreads(model);
    let ghost want = Seq::new(
        log_lengths@.len(),
        |s: int| Seq::new(n as nat, |l: int| length_term(*model, log_lengths@[s], log_spreads@, weight, l)),
    );
    let mut rows: Vec<Vec<Binary64>> = Vec::new();
    let mut s: usize = 0;
    assert(rows_of(rows@) =~= want.take(0));
    while s < log_lengths.len()
        invariant
            s <= log_lengths@.len(),
            n == model.labels@.len(),
            !weight.spec_same(zero()) ==> model.length_mu@.len() <= n && log_spreads@.len() == n,
            spreads@ == Seq::new(n as nat, |l: int| spread(known_spread(model.length_sigma@, l))),
            want == Seq::new(
                log_lengths@.len(),
                |t: int| Seq::new(n as nat, |l: int| length_term(*model, log_lengths@[t], log_spreads@, weight, l)),
            ),
            rows@.len() == s,
            rows_of(rows@) == want.take(s as int),
            even_rows(rows_of(rows@), n as nat),
        decreases log_lengths@.len() - s,
    {
        let mut row: Vec<Binary64> = Vec::new();
        let mut l: usize = 0;
        while l < n
            invariant
                l <= n == model.labels@.len(),
                !weight.spec_same(zero()) ==> model.length_mu@.len() <= n && log_spreads@.len() == n,
                s < log_lengths@.len(),
                spreads@ == Seq::new(n as nat, |k: int| spread(known_spread(model.length_sigma@, k))),
                want[s as int] == Seq::new(
                    n as nat,
                    |k: int| length_term(*model, log_lengths@[s as int], log_spreads@, weight, k),
                ),
                row@ == want[s as int].take(l as int),
            decreases n - l,
        {
            if weight.same(zero()) || l >= model.length_mu.len() {
                row.push(zero());
            } else {
                row.push(length_log_likelihood(log_lengths[s], model.length_mu[l], spreads[l], log_spreads[l]));
            }
            l = l + 1;
            assert(row@ =~= want[s as int].take(l as int));
        }
        assert(row@ =~= want[s as int]);
        let ghost before = rows@;
        rows.push(row);
        assert(rows_of(rows@) =~= rows_of(before).push(row@));
        s = s + 1;
        assert(rows_of(rows@) =~= want.take(s as int));
    }
    assert(rows_of(rows@) =~= want);
    let r: Mat = Mat::of_rows(rows, n);
    assert(r.grid().len() == log_lengths@.len());
    r
}

/// How many beats segment `s` has; one where the bounds do not say.
pub open spec fn segment_beats(bounds: Seq<usize>, s: int) -> nat {
    if 0 <= s && s + 1 < bounds.len() {
        if bounds[s] < bounds[s + 1] {
            (bounds[s + 1] - bounds[s]) as nat
        } else {
            0
        }
    } else {
        1
    }
}

/// How many beats segment `s` has.
pub fn segment_length(bounds: &[usize], s: usize) -> (r: usize)
    ensures
        r == segment_beats(bounds@, s as int),
{
    let n: usize = bounds.len();
    if n > 0 && s < n - 1 {
        if bounds[s] < bounds[s + 1] {
            bounds[s + 1] - bounds[s]
        } else {
            0
        }
    } else {
        1
    }
}

/// What the decoder works on.
pub struct Decoder {
    pub scores: Mat,
    pub length_terms: Mat,
    pub transition: Seq<Vec<Binary64>>,
    pub labels: nat,
    /// How many of the labels are weighed on each segment; the others count
    /// for nothing there.
    pub weighed: nat,
    pub options: LabelOptions,
}

impl Decoder {
    /// How many segments there are.
    pub open spec fn segments(self) -> nat {
        self.scores.height()
    }

    /// The merit of label `l` for segment `s` by itself.
    pub open spec fn emission(self, s: int, l: int) -> Binary64 {
        if l < self.weighed {
            sum(
                product(self.options.label_weight, self.scores.at(s, l)),
                product(self.options.length_weight, self.length_terms.at(s, l)),
            )
        } else {
            zero()
        }
    }

    /// The weighted prior of going from state `a` to state `b`.
    pub open spec fn prior(self, a: int, b: int) -> Binary64 {
        product(self.options.transition_weight, self.transition[a]@[b])
    }

    /// The merit of the best labels up to segment `s` that end with label `l`.
    pub open spec fn score(self, s: int, l: int) -> Binary64
        decreases s, 2int, 0int,
    {
        if s <= 0 {
            sum(self.emission(s, l), self.prior(self.labels as int, l))
        } else {
            sum(self.emission(s, l), self.held(s, l, self.labels))
        }
    }

    /// The merit of coming to label `l` of segment `s` from label `a`.
    pub open spec fn value_from(self, s: int, l: int, a: int) -> Binary64
        decreases s, 0int, 0int,
    {
        if s <= 0 {
            minus_infinity()
        } else {
            sum(self.score(s - 1, a), self.prior(a, l))
        }
    }

    /// The largest merit of coming from one of the first `m` labels.
    pub open spec fn held(self, s: int, l: int, m: nat) -> Binary64
        decreases s, 1int, m,
    {
        if m == 0 {
            minus_infinity()
        } else {
            let before = self.held(s, l, (m - 1) as nat);
            let value = self.value_from(s, l, m - 1);
            if before.spec_lt(value) {
                value
            } else {
                before
            }
        }
    }

    /// The first of the first `m` labels that has the largest merit to come
    /// from; the first label where none is above minus infinity.
    pub open spec fn pick(self, s: int, l: int, m: nat) -> int
        decreases m,
    {
        if m == 0 {
            0
        } else if self.held(s, l, (m - 1) as nat).spec_lt(self.value_from(s, l, m - 1)) {
            m - 1
        } else {
            self.pick(s, l, (m - 1) as nat)
        }
    }

    /// The merit of ending with label `l`.
    pub open spec fn end_value(self, l: int) -> Binary64 {
        sum(
            self.score(self.segments() - 1, l),
            product(self.options.end_state_weight, self.transition[l]@[self.labels as int + 1]),
        )
    }

    /// The largest merit of ending with one of the first `m` labels.
    pub open spec fn end_held(self, m: nat) -> Binary64
        decreases m,
    {
        if m == 0 {
            minus_infinity()
        } else if self.end_held((m - 1) as nat).spec_lt(self.end_value(m - 1)) {
            self.end_value(m - 1)
        } else {
            self.end_held((m - 1) as nat)
        }
    }

    /// The first of the first `m` labels that has the largest merit to end with.
    pub open spec fn end_pick(self, m: nat) -> int
        decreases m,
    {
        if m == 0 {
            0
        } else if self.end_held((m - 1) as nat).spec_lt(self.end_value(m - 1)) {
            m - 1
        } else {
            self.end_pick((m - 1) as nat)
        }
    }

    /// The labels up to segment `s` on the best way to label `l`.
    pub open spec fn trace(self, s: int, l: int) -> Seq<int>
        decreases s,
    {
        if s <= 0 {
            seq![l]
        } else {
            self.trace(s - 1, self.pick(s, l, self.labels)).push(l)
        }
    }

    /// The decoded labels, one per segment.
    pub open spec fn decoded(self) -> Seq<int> {
        if self.segments() == 0 || self.labels == 0 {
            seq![]
        } else {
            self.trace(self.segments() - 1, self.end_pick(self.labels))
        }
    }

    /// Whether every score and transition that is looked at exists.
    pub open spec fn in_range(self) -> bool {
        &&& self.scores.wf()
        &&& self.length_terms.wf()
        &&& self.weighed <= self.labels
        &&& self.scores.width() >= self.weighed
        &&& self.length_terms.width() >= self.weighed
        &&& self.length_terms.height() == self.scores.height()
        &&& self.transition.len() >= self.labels + 2
        &&& self.labels + 2 <= usize::MAX
        &&& forall|i: int| 0 <= i < self.transition.len() ==> (#[trigger] self.transition[i])@.len() >= self.labels + 2
    }

    proof fn lemma_pick(self, s: int, l: int, m: nat)
        requires
            self.labels > 0,
            m <= self.labels,
        ensures
            0 <= self.pick(s, l, m) < self.labels,
        decreases m,
    {
        if m > 0 {
            self.lemma_pick(s, l, (m - 1) as nat);
        }
    }

    proof fn lemma_end_pick(self, m: nat)
        requires
            self.labels > 0,
            m <= self.labels,
        ensures
            0 <= self.end_pick(m) < self.labels,
        decreases m,
    {
        if m > 0 {
            self.lemma_end_pick((m - 1) as nat);
        }
    }

    proof fn lemma_trace(self, s: int, l: int)
        requires
            self.labels > 0,
            0 <= s,
            0 <= l < self.labels,
        ensures
            self.trace(s, l).len() == s + 1,
            forall|i: int| 0 <= i <= s ==> 0 <= #[trigger] self.trace(s, l)[i] < self.labels,
        decreases s,
    {
        if s > 0 {
            self.lemma_pick(s, l, self.labels);
            self.lemma_trace(s - 1, self.pick(s, l, self.labels));
        }
    }
}

/// Every segment gets one of the model's labels.
pub proof fn law_every_segment_is_labelled(d: Decoder)
    requires
        d.labels > 0,
    ensures
        d.decoded().len() == d.segments(),
        forall|s: int| 0 <= s < d.segments() ==> 0 <= #[trigger] d.decoded()[s] < d.labels,
{
    if d.segments() > 0 {
        d.lemma_end_pick(d.labels);
        d.lemma_trace(d.segments() - 1, d.end_pick(d.labels));
    }
}

impl Decoder {
    /// Whether some labels are a way through the segments: one of the model's
    /// labels for each.
    pub open spec fn is_way(self, way: Seq<int>) -> bool {
        way.len() == self.segments() && forall|s: int| 0 <= s < way.len() ==> 0 <= #[trigger] way[s] < self.labels
    }

    /// The merit of a way up to segment `s`: how well each label suits its
    /// segment, and each step from label to label.
    pub open spec fn merit_up_to(self, way: Seq<int>, s: int) -> Binary64
        decreases s,
    {
        if s <= 0 {
            sum(self.emission(s, way[s]), self.prior(self.labels as int, way[s]))
        } else {
            sum(self.emission(s, way[s]), sum(self.merit_up_to(way, s - 1), self.prior(way[s - 1], way[s])))
        }
    }

    /// The weighted prior of ending with label `l`.
    pub open spec fn end_prior(self, l: int) -> Binary64 {
        product(self.options.end_state_weight, self.transition[l]@[self.labels as int + 1])
    }

    /// The merit of a way: up to its last segment, and of ending there.
    pub open spec fn merit(self, way: Seq<int>) -> Binary64 {
        sum(self.merit_up_to(way, self.segments() - 1), self.end_prior(way.last()))
    }

    /// Whether every merit is a number below infinity.
    pub open spec fn weighs(self) -> bool {
        &&& forall|s: int, l: int|
            0 <= s < self.segments() && 0 <= l < self.labels ==> (#[trigger] self.emission(s, l)).spec_lt(plus_infinity())
        &&& forall|a: int, b: int|
            0 <= a <= self.labels && 0 <= b < self.labels ==> (#[trigger] self.prior(a, b)).spec_lt(plus_infinity())
        &&& forall|l: int| 0 <= l < self.labels ==> (#[trigger] self.end_prior(l)).spec_lt(plus_infinity())
        &&& forall|s: int, l: int|
            0 <= s < self.segments() && 0 <= l < self.labels ==> (#[trigger] self.score(s, l)).spec_lt(plus_infinity())
    }

    /// The largest merit of coming from a label is no less than any other, and
    /// is the one of the label picked.
    proof fn lemma_held_is_best(self, s: int, l: int, m: nat)
        requires
            self.weighs(),
            0 < s < self.segments(),
            0 <= l < self.labels,
            m <= self.labels,
        ensures
            minus_infinity().spec_le(self.held(s, l, m)),
            forall|a: int| 0 <= a < m ==> (#[trigger] self.value_from(s, l, a)).spec_le(self.held(s, l, m)),
            self.held(s, l, m) == minus_infinity() && self.pick(s, l, m) == 0 || (0 <= self.pick(s, l, m) < m && self.held(
                s,
                l,
                m,
            ) == self.value_from(s, l, self.pick(s, l, m))),
        decreases m,
    {
        if m > 0 {
            let a = m - 1;
            self.lemma_held_is_best(s, l, a as nat);
            assert(self.score(s - 1, a).spec_lt(plus_infinity()));
            assert(self.prior(a, l).spec_lt(plus_infinity()));
            lemma_sums_keep_the_order(self.score(s - 1, a), self.score(s - 1, a), self.prior(a, l));
        }
    }

    /// No way scores higher than the best way to its label.
    proof fn lemma_no_way_scores_higher(self, way: Seq<int>, s: int)
        requires
            self.weighs(),
            self.is_way(way),
            0 <= s < self.segments(),
        ensures
            self.merit_up_to(way, s).spec_le(self.score(s, way[s])),
        decreases s,
    {
        let l = way[s];
        assert(self.score(s, l).spec_lt(plus_infinity()));
        assert(self.emission(s, l).spec_lt(plus_infinity()));
        if s > 0 {
            let a = way[s - 1];
            self.lemma_no_way_scores_higher(way, s - 1);
            self.lemma_held_is_best(s, l, self.labels);
            assert(self.score(s - 1, a).spec_lt(plus_infinity()));
            assert(self.prior(a, l).spec_lt(plus_infinity()));
            lemma_sums_keep_the_order(self.merit_up_to(way, s - 1), self.score(s - 1, a), self.prior(a, l));
            assert(self.value_from(s, l, a).spec_le(self.held(s, l, self.labels)));
            let here = sum(self.merit_up_to(way, s - 1), self.prior(a, l));
            lemma_below_infinity(self.emission(s, l), self.held(s, l, self.labels));
            lemma_sums_keep_the_order(here, self.held(s, l, self.labels), self.emission(s, l));
        }
    }

    /// Two ways that agree up to a segment have one merit up to it.
    proof fn lemma_merit_of_start(self, a: Seq<int>, b: Seq<int>, s: int)
        requires
            0 <= s,
            forall|i: int| 0 <= i <= s ==> a[i] == #[trigger] b[i],
        ensures
            self.merit_up_to(a, s) == self.merit_up_to(b, s),
        decreases s,
    {
        if s > 0 {
            self.lemma_merit_of_start(a, b, s - 1);
            assert(a[s] == b[s] && a[s - 1] == b[s - 1]);
        } else {
            assert(a[0] == b[0]);
        }
    }

    /// The way that is followed back scores what the table says.
    proof fn lemma_trace_scores(self, s: int, l: int)
        requires
            self.weighs(),
            0 <= s < self.segments(),
            0 <= l < self.labels,
        ensures
            self.merit_up_to(self.trace(s, l), s) == self.score(s, l),
            self.trace(s, l).len() == s + 1,
            self.trace(s, l).last() == l,
        decreases s,
    {
        if s > 0 {
            let a = self.pick(s, l, self.labels);
            self.lemma_pick(s, l, self.labels);
            self.lemma_held_is_best(s, l, self.labels);
            self.lemma_trace_scores(s - 1, a);
            let before = self.trace(s - 1, a);
            let now = self.trace(s, l);
            assert(now == before.push(l));
            self.lemma_merit_of_start(now, before, s - 1);
            assert(now[s - 1] == before.last());
            if self.held(s, l, self.labels) == minus_infinity() {
                assert(self.value_from(s, l, a).spec_le(minus_infinity()));
                lemma_nothing_is_less(self.value_from(s, l, a));
            }
            assert(self.held(s, l, self.labels) == self.value_from(s, l, a));
        }
    }

    /// The largest merit to end with is no less than any other, and is the one
    /// of the label picked.
    proof fn lemma_end_is_best(self, m: nat)
        requires
            self.weighs(),
            self.segments() > 0,
            m <= self.labels,
        ensures
            minus_infinity().spec_le(self.end_held(m)),
            forall|l: int| 0 <= l < m ==> (#[trigger] self.end_value(l)).spec_le(self.end_held(m)),
            self.end_held(m) == minus_infinity() && self.end_pick(m) == 0 || (0 <= self.end_pick(m) < m && self.end_held(m)
                == self.end_value(self.end_pick(m))),
        decreases m,
    {
        if m > 0 {
            let l = m - 1;
            self.lemma_end_is_best(l as nat);
            let s = self.segments() - 1;
            assert(self.score(s, l).spec_lt(plus_infinity()));
            assert(self.end_prior(l).spec_lt(plus_infinity()));
            lemma_sums_keep_the_order(self.score(s, l), self.score(s, l), self.end_prior(l));
        }
    }
}

/// No sequence of labels scores higher than the decoded one.
pub proof fn law_no_labels_score_higher(d: Decoder, way: Seq<int>)
    requires
        d.labels > 0,
        d.segments() > 0,
        d.weighs(),
        d.is_way(way),
    ensures
        d.is_way(d.decoded()),
        d.merit(way).spec_le(d.merit(d.decoded())),
{
    let s = d.segments() - 1;
    law_every_segment_is_labelled(d);
    d.lemma_end_pick(d.labels);
    let best = d.end_pick(d.labels);
    d.lemma_end_is_best(d.labels);
    d.lemma_trace_scores(s, best);
    d.lemma_no_way_scores_higher(way, s);
    let l = way[s];
    assert(way.last() == l);
    assert(d.score(s, l).spec_lt(plus_infinity()));
    assert(d.end_prior(l).spec_lt(plus_infinity()));
    lemma_sums_keep_the_order(d.merit_up_to(way, s), d.score(s, l), d.end_prior(l));
    assert(d.end_value(l).spec_le(d.end_held(d.labels)));
    if d.end_held(d.labels) == minus_infinity() {
        assert(d.end_value(best).spec_le(minus_infinity()));
        lemma_nothing_is_less(d.end_value(best));
    }
    assert(d.merit(d.decoded()) == d.end_value(best));
}

/// How many labels are weighed on each segment: all of them, or those of known
/// length where lengths count.
pub open spec fn weighed_labels(model: PhraseModel, weight: Binary64) -> nat {
    if weight.spec_same(zero()) {
        model.labels@.len()
    } else {
        model.length_mu@.len()
    }
}

/// The decoder's input, as given to [`decode_labels`].
pub open spec fn decoder(model: PhraseModel, scores: Mat, length_terms: Mat, options: LabelOptions) -> Decoder {
    Decoder {
        scores,
        length_terms,
        transition: model.transition@,
        labels: model.labels@.len(),
        weighed: weighed_labels(model, options.length_weight),
        options,
    }
}

/// The scores and the best predecessors for the labels of one segment.
fn score_segment(
    model: &PhraseModel,
    scores: &Mat,
    length_terms: &Mat,
    options: &LabelOptions,
    before: &Vec<Binary64>,
    s: usize,
) -> (out: (Vec<Binary64>, Vec<usize>))
    requires
        decoder(*model, *scores, *length_terms, *options).in_range(),
        s < scores.height(),
        model.labels@.len() > 0,
        s > 0 ==> before@.len() == model.labels@.len() && forall|l: int|
            0 <= l < before@.len() ==> #[trigger] before@[l] == decoder(*model, *scores, *length_terms, *options).score(
                s - 1,
                l,
            ),
    ensures
        out.0@.len() == model.labels@.len(),
        out.1@.len() == model.labels@.len(),
        forall|l: int|
            0 <= l < out.0@.len() ==> #[trigger] out.0@[l] == decoder(*model, *scores, *length_terms, *options).score(
                s as int,
                l,
            ),
        s > 0 ==> forall|l: int|
            0 <= l < out.1@.len() ==> #[trigger] out.1@[l] == decoder(*model, *scores, *length_terms, *options).pick(
                s as int,
                l,
                model.labels@.len(),
            ) && out.1@[l] < model.labels@.len(),
{
    let ghost d = decoder(*model, *scores, *length_terms, *options);
    let n: usize = model.labels.len();
    let weighed: usize = if options.length_weight.same(zero()) {
        n
    } else {
        model.length_mu.len()
    };
    let mut row: Vec<Binary64> = Vec::new();
    let mut from: Vec<usize> = Vec::new();
    let mut l: usize = 0;
    while l < n
        invariant
            d == decoder(*model, *scores, *length_terms, *options),
            d.in_range(),
            s < scores.height(),
            n == model.labels@.len(),
            n > 0,
            weighed == d.weighed,
            s > 0 ==> before@.len() == n && forall|k: int| 0 <= k < n ==> #[trigger] before@[k] == d.score(s - 1, k),
            l <= n,
            row@.len() == l,
            from@.len() == l,
            forall|k: int| 0 <= k < l ==> #[trigger] row@[k] == d.score(s as int, k),
            s > 0 ==> forall|k: int|
                0 <= k < l ==> #[trigger] from@[k] == d.pick(s as int, k, n as nat) && from@[k] < n,
        decreases n - l,
    {
        let own: Binary64 = if l < weighed {
            options.label_weight.times(scores.get(s, l)).plus(options.length_weight.times(length_terms.get(s, l)))
        } else {
            zero()
        };
        if s == 0 {
            row.push(own.plus(options.transition_weight.times(model.transition[n][l])));
            from.push(0);
        } else {
            let mut best: Binary64 = minus_infinity();
            let mut best_from: usize = 0;
            let mut a: usize = 0;
            while a < n
                invariant
                    d == decoder(*model, *scores, *length_terms, *options),
                    d.in_range(),
                    n == model.labels@.len(),
                    n > 0,
                    l < n,
                    s > 0,
                    before@.len() == n,
                    forall|k: int| 0 <= k < n ==> #[trigger] before@[k] == d.score(s - 1, k),
                    a <= n,
                    best == d.held(s as int, l as int, a as nat),
                    best_from == d.pick(s as int, l as int, a as nat),
                    best_from < n,
                decreases n - a,
            {
                let value: Binary64 = before[a].plus(options.transition_weight.times(model.transition[a][l]));
                assert(value == d.value_from(s as int, l as int, a as int));
                if best.lt(value) {
                    best = value;
                    best_from = a;
                }
                a = a + 1;
            }
            row.push(own.plus(best));
            from.push(best_from);
        }
        l = l + 1;
    }
    (row, from)
}

/// The best label sequence, one label name per segment.
///
/// `scores` holds the log-probability of each label for each segment and
/// `length_terms` the log-likelihood of each segment's length under each label.
pub fn decode_labels(model: &PhraseModel, scores: &Mat, length_terms: &Mat, options: &LabelOptions) -> (r: Vec<String>)
    requires
        scores.height() > 0 && model.labels@.len() > 0 ==> decoder(*model, *scores, *length_terms, *options).in_range(),
    ensures
        views(r@) == Seq::new(
            decoder(*model, *scores, *length_terms, *options).decoded().len(),
            |s: int| model.labels@[decoder(*model, *scores, *length_terms, *options).decoded()[s]]@,
        ),
{
    let ghost d = decoder(*model, *scores, *length_terms, *options);
    let segments: usize = scores.rows();
    let n: usize = model.labels.len();
    let mut out: Vec<String> = Vec::new();
    if segments == 0 || n == 0 {
        assert(views(out@) =~= seq![]);
        return out;
    }
    let mut row: Vec<Binary64> = Vec::new();
    let mut back: Vec<Vec<usize>> = Vec::new();
    let mut s: usize = 0;
    while s < segments
        invariant
            d == decoder(*model, *scores, *length_terms, *options),
            d.in_range(),
            segments == scores.height(),
            n == model.labels@.len(),
            n > 0,
            s <= segments,
            back@.len() == s,
            s > 0 ==> row@.len() == n && forall|l: int| 0 <= l < n ==> #[trigger] row@[l] == d.score(s - 1, l),
            forall|t: int| 0 <= t < s ==> #[trigger] names_picks(d, t, back@[t]@),
        decreases segments - s,
    {
        let (next, from) = score_segment(model, scores, length_terms, options, &row, s);
        assert(names_picks(d, s as int, from@));
        row = next;
        back.push(from);
        s = s + 1;
    }
    let mut best: Binary64 = minus_infinity();
    let mut label: usize = 0;
    let mut l: usize = 0;
    while l < n
        invariant
            d == decoder(*model, *scores, *length_terms, *options),
            d.in_range(),
            segments == scores.height(),
            n == model.labels@.len(),
            n > 0,
            row@.len() == n,
            forall|k: int| 0 <= k < n ==> #[trigger] row@[k] == d.score(segments - 1, k),
            l <= n,
            label < n,
            best == d.end_held(l as nat),
            label == d.end_pick(l as nat),
        decreases n - l,
    {
        let value: Binary64 = row[l].plus(options.end_state_weight.times(model.transition[l][n + 1]));
        if best.lt(value) {
            best = value;
            label = l;
        }
        l = l + 1;
    }
    let path: Vec<usize> = follow_back(&back, segments - 1, label, Ghost(d));
    let mut i: usize = 0;
    let ghost want = Seq::new(d.decoded().len(), |k: int| model.labels@[d.decoded()[k]]@);
    while i < path.len()
        invariant
            i <= path@.len(),
            path@.len() == d.decoded().len(),
            n == model.labels@.len(),
            forall|k: int| 0 <= k < path@.len() ==> #[trigger] path@[k] == d.decoded()[k] && path@[k] < n,
            want == Seq::new(d.decoded().len(), |k: int| model.labels@[d.decoded()[k]]@),
            views(out@) == want.take(i as int),
        decreases path@.len() - i,
    {
        let name: String = copy_text(model.labels[path[i]].as_str());
        proof {
            crate::text::lemma_views_push(out@, name);
        }
        out.push(name);
        i = i + 1;
        assert(views(out@) =~= want.take(i as int));
    }
    assert(views(out@) =~= want);
    out
}

/// Whether a list names the best predecessor of each label of segment `s`.
spec fn names_picks(d: Decoder, s: int, from: Seq<usize>) -> bool {
    &&& from.len() == d.labels
    &&& s > 0 ==> forall|l: int|
        0 <= l < from.len() ==> #[trigger] from[l] == d.pick(s, l, d.labels) && from[l] < d.labels
}

/// The labels up to segment `s` on the best way to label `l`.
fn follow_back(back: &Vec<Vec<usize>>, s: usize, l: usize, Ghost(d): Ghost<Decoder>) -> (out: Vec<usize>)
    requires
        s < back@.len(),
        l < d.labels,
        forall|t: int| 0 <= t <= s ==> #[trigger] names_picks(d, t, back@[t]@),
    ensures
        out@.len() == d.trace(s as int, l as int).len(),
        forall|k: int| 0 <= k < out@.len() ==> #[trigger] out@[k] == d.trace(s as int, l as int)[k] && out@[k] < d.labels,
    decreases s,
{
    if s == 0 {
        return vec![l];
    }
    assert(names_picks(d, s as int, back@[s as int]@));
    let from: usize = back[s][l];
    assert(from == back@[s as int]@[l as int]);
    let mut out: Vec<usize> = follow_back(back, s - 1, from, Ghost(d));
    out.push(l);
    out
}

/// A label that scores higher in a segment weighs no less there.
pub proof fn law_higher_scores_weigh_no_less(d: Decoder, s: int, a: int, b: int)
    requires
        0 <= a < d.weighed,
        0 <= b < d.weighed,
        d.scores.at(s, a).finite() && d.scores.at(s, b).finite(),
        d.scores.at(s, a).spec_le(d.scores.at(s, b)),
        d.length_terms.at(s, a) == d.length_terms.at(s, b),
        d.options.label_weight.finite() && !d.options.label_weight.negative(),
        product(d.options.length_weight, d.length_terms.at(s, a)).finite(),
    ensures
        d.emission(s, a).spec_le(d.emission(s, b)),
{
    law_multiplication_keeps_the_order(d.scores.at(s, a), d.scores.at(s, b), d.options.label_weight);
    law_addition_keeps_the_order(
        product(d.options.label_weight, d.scores.at(s, a)),
        product(d.options.label_weight, d.scores.at(s, b)),
        product(d.options.length_weight, d.length_terms.at(s, a)),
    );
}

/// A label whose usual length fits a segment better weighs no less there.
pub proof fn law_fitting_lengths_weigh_no_less(d: Decoder, s: int, a: int, b: int)
    requires
        0 <= a < d.weighed,
        0 <= b < d.weighed,
        d.scores.at(s, a) == d.scores.at(s, b),
        d.length_terms.at(s, a).finite() && d.length_terms.at(s, b).finite(),
        d.length_terms.at(s, a).spec_le(d.length_terms.at(s, b)),
        d.options.length_weight.finite() && !d.options.length_weight.negative(),
        product(d.options.label_weight, d.scores.at(s, a)).finite(),
    ensures
        d.emission(s, a).spec_le(d.emission(s, b)),
{
    law_multiplication_keeps_the_order(d.length_terms.at(s, a), d.length_terms.at(s, b), d.options.length_weight);
    let merit = product(d.options.label_weight, d.scores.at(s, a));
    let x = product(d.options.length_weight, d.length_terms.at(s, a));
    let y = product(d.options.length_weight, d.length_terms.at(s, b));
    law_addition_keeps_the_order(x, y, merit);
    law_addition_commutes(merit, x);
    law_addition_commutes(merit, y);
}

/// The length of a segment is the number of beats between its boundaries.
pub proof fn law_segments_run_between_their_bounds(bounds: Seq<usize>, s: int)
    requires
        0 <= s < bounds.len() - 1,
        bounds[s] <= bounds[s + 1],
    ensures
        bounds[s] + segment_beats(bounds, s) == bounds[s + 1],
{
}

} // verus!
