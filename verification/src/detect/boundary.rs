//! Deciding which beats start a new phrase.
//!
//! The boundary ensemble makes a hard call per beat, and each run of positives
//! collapses to its most confident beat. A dynamic program may then slide each
//! surviving boundary, trading a small penalty for landing on a downbeat and
//! for phrase lengths near a preferred one.

use crate::detect::gbm::{predicted, HistGradientBoosting};
use crate::detect::grid::distance;
use crate::detect::matrix::Mat;
use crate::number::binary64::Binary64;
use crate::order::{arranged, in_order, stable_order, visits_each_once};
use crate::text::{parse_integer, parsed_integer};
use vstd::prelude::*;

verus! {

/// How many beats at each end are kept free: never more than half the track.
pub open spec fn guard(n: nat, edge_beats: nat) -> nat {
    if edge_beats < n / 2 {
        edge_beats
    } else {
        n / 2
    }
}

/// Beats that may be a boundary: never the first or last `edge_beats`.
pub fn valid_mask(n: usize, edge_beats: usize) -> (r: Vec<bool>)
    ensures
        r@ == Seq::new(
            n as nat,
            |i: int| guard(n as nat, edge_beats as nat) <= i < n - guard(n as nat, edge_beats as nat),
        ),
{
    let edge: usize = if edge_beats < n / 2 {
        edge_beats
    } else {
        n / 2
    };
    let mut out: Vec<bool> = Vec::new();
    let mut i: usize = 0;
    while i < n
        invariant
            i <= n,
            edge == guard(n as nat, edge_beats as nat),
            out@ == Seq::new(i as nat, |k: int| edge <= k < n - edge),
        decreases n - i,
    {
        out.push(edge <= i && i < n - edge);
        i = i + 1;
        assert(out@ =~= Seq::new(i as nat, |k: int| edge <= k < n - edge));
    }
    out
}

/// Whether a predicted class stands for a boundary: by the value of its label
/// where that is an integer, by its index otherwise.
pub open spec fn is_positive(classes: Seq<String>, index: int) -> bool {
    if 0 <= index < classes.len() && parsed_integer(classes[index]@) is Some {
        parsed_integer(classes[index]@)->0 > 0
    } else {
        index > 0
    }
}

/// The beats that are called boundaries: valid, not at either end, and positive.
pub open spec fn hard_calls(model: HistGradientBoosting, features: Mat, valid: Seq<bool>) -> Seq<bool> {
    Seq::new(
        features.height(),
        |r: int|
            0 < r < features.height() - 1 && valid[r] && is_positive(
                model.classes@,
                predicted(model.raw(features.row_at(r))),
            ),
    )
}

/// The start of the run of marks that `n` is the end of.
pub open spec fn open_run(hard: Seq<bool>, n: nat) -> Option<int>
    decreases n,
{
    if n == 0 || n > hard.len() || !hard[n - 1] {
        None
    } else {
        match open_run(hard, (n - 1) as nat) {
            Some(start) => Some(start),
            None => Some(n - 1),
        }
    }
}

/// The first of the most confident beats in `from..to`.
pub open spec fn most_confident(probability: Seq<Binary64>, from: int, to: int) -> int
    decreases to - from,
{
    if to <= from + 1 {
        from
    } else {
        let best = most_confident(probability, from, to - 1);
        if probability[best].spec_lt(probability[to - 1]) {
            to - 1
        } else {
            best
        }
    }
}

/// One candidate for each run of marks that ends before `n`.
pub open spec fn candidates(hard: Seq<bool>, probability: Seq<Binary64>, n: nat) -> Seq<usize>
    decreases n,
{
    if n == 0 {
        seq![]
    } else {
        let before = candidates(hard, probability, (n - 1) as nat);
        match open_run(hard, (n - 1) as nat) {
            Some(start) if open_run(hard, n) is None => before.push(
                most_confident(probability, start, n - 1) as usize,
            ),
            _ => before,
        }
    }
}

/// Sort keys that put the most confident candidate first.
pub open spec fn confidence_keys(beats: Seq<usize>, probability: Seq<Binary64>) -> Seq<i128> {
    Seq::new(beats.len(), |i: int| (-probability[beats[i] as int].total_rank()) as i128)
}

/// Whether a beat is at least `gap` beats from each of the others.
pub open spec fn clear_of(beats: Seq<usize>, beat: usize, gap: nat) -> bool {
    forall|i: int| 0 <= i < beats.len() ==> distance(beat as int, #[trigger] beats[i] as int) >= gap
}

/// Whether enough have been selected.
pub open spec fn is_full(selected: Seq<usize>, cap: Option<usize>) -> bool {
    cap is Some && selected.len() >= cap->0
}

/// What greedy suppression keeps of the first `n` candidates.
pub open spec fn kept(ranked: Seq<usize>, gap: nat, cap: Option<usize>, n: nat) -> Seq<usize>
    decreases n,
{
    if n == 0 {
        seq![]
    } else {
        let before = kept(ranked, gap, cap, (n - 1) as nat);
        if !is_full(before, cap) && clear_of(before, ranked[n - 1], gap) {
            before.push(ranked[n - 1])
        } else {
            before
        }
    }
}

/// Sort keys that put beats in order.
pub open spec fn beat_keys(beats: Seq<usize>) -> Seq<i128> {
    Seq::new(beats.len(), |i: int| beats[i] as i128)
}

/// The beats in order.
pub open spec fn ascending(beats: Seq<usize>) -> Seq<usize> {
    arranged(beats, in_order(beat_keys(beats)))
}

/// The candidates, the most confident first.
pub open spec fn ranked(hard: Seq<bool>, probability: Seq<Binary64>) -> Seq<usize> {
    let all = candidates(hard, probability, hard.len() + 1);
    arranged(all, in_order(confidence_keys(all, probability)))
}

/// The boundaries picked from hard calls: beat 0, what suppression keeps in
/// order, and the end.
pub open spec fn picked(
    hard: Seq<bool>,
    probability: Seq<Binary64>,
    gap: nat,
    cap: Option<usize>,
) -> Seq<usize> {
    let order = ranked(hard, probability);
    seq![0usize] + ascending(kept(order, gap, cap, order.len())) + seq![hard.len() as usize]
}

/// Candidates are marked beats in order.
proof fn lemma_candidates(hard: Seq<bool>, probability: Seq<Binary64>, n: nat)
    requires
        n <= hard.len() + 1,
        hard.len() < usize::MAX,
    ensures
        candidates(hard, probability, n).len() <= n,
        open_run(hard, n) is Some ==> 0 <= open_run(hard, n)->0 < n && (forall|k: int|
            open_run(hard, n)->0 <= k < n ==> #[trigger] hard[k]),
        forall|i: int|
            0 <= i < candidates(hard, probability, n).len() ==> {
                let beat = #[trigger] candidates(hard, probability, n)[i];
                beat < hard.len() && hard[beat as int] && beat < n && (open_run(hard, n) is Some ==> beat < open_run(hard, n)->0)
            },
        forall|i: int, j: int|
            0 <= i < j < candidates(hard, probability, n).len() ==> candidates(hard, probability, n)[i] < candidates(
                hard,
                probability,
                n,
            )[j],
    decreases n,
{
    if n > 0 {
        let m = (n - 1) as nat;
        lemma_candidates(hard, probability, m);
        match open_run(hard, m) {
            Some(start) => {
                if open_run(hard, n) is None {
                    lemma_most_confident(probability, start, m as int);
                    let best = most_confident(probability, start, m as int);
                    assert(hard[best]);
                }
            },
            None => {},
        }
    }
}

proof fn lemma_most_confident(probability: Seq<Binary64>, from: int, to: int)
    requires
        from < to,
    ensures
        from <= most_confident(probability, from, to) < to,
    decreases to - from,
{
    if to > from + 1 {
        lemma_most_confident(probability, from, to - 1);
    }
}

/// What suppression keeps are candidates, at least the gap apart.
proof fn lemma_kept(ranked: Seq<usize>, gap: nat, cap: Option<usize>, n: nat)
    requires
        n <= ranked.len(),
    ensures
        kept(ranked, gap, cap, n).len() <= n,
        forall|i: int|
            0 <= i < kept(ranked, gap, cap, n).len() ==> exists|k: int|
                0 <= k < n && ranked[k] == #[trigger] kept(ranked, gap, cap, n)[i],
        forall|i: int, j: int|
            0 <= i < j < kept(ranked, gap, cap, n).len() ==> distance(
                #[trigger] kept(ranked, gap, cap, n)[i] as int,
                #[trigger] kept(ranked, gap, cap, n)[j] as int,
            ) >= gap,
        cap is Some ==> kept(ranked, gap, cap, n).len() <= cap->0,
        (forall|i: int, j: int| 0 <= i < j < ranked.len() ==> ranked[i] != ranked[j]) ==> forall|i: int, j: int|
            0 <= i < j < kept(ranked, gap, cap, n).len() ==> #[trigger] kept(ranked, gap, cap, n)[i] != #[trigger] kept(
                ranked,
                gap,
                cap,
                n,
            )[j],
    decreases n,
{
    if n > 0 {
        let m = (n - 1) as nat;
        lemma_kept(ranked, gap, cap, m);
        let before = kept(ranked, gap, cap, m);
        let now = kept(ranked, gap, cap, n);
        assert forall|i: int| 0 <= i < now.len() implies exists|k: int| 0 <= k < n && ranked[k] == #[trigger] now[i] by {
            if i < before.len() {
                let k = choose|k: int| 0 <= k < m && ranked[k] == before[i];
                assert(ranked[k] == now[i]);
            } else {
                assert(ranked[n - 1] == now[i]);
            }
        }
    }
}

/// The picked boundaries run from 0 to the end without standing still; each
/// one between is a marked beat, any two of these are at least the gap apart,
/// and there are no more than the cap allows.
pub proof fn law_picked_boundaries(hard: Seq<bool>, probability: Seq<Binary64>, gap: nat, cap: Option<usize>)
    requires
        0 < hard.len() < usize::MAX,
        !hard[0],
    ensures
        picked(hard, probability, gap, cap)[0] == 0,
        picked(hard, probability, gap, cap).last() == hard.len(),
        forall|i: int, j: int|
            0 <= i < j < picked(hard, probability, gap, cap).len() ==> picked(hard, probability, gap, cap)[i] < picked(
                hard,
                probability,
                gap,
                cap,
            )[j],
        forall|i: int|
            0 < i < picked(hard, probability, gap, cap).len() - 1 ==> hard[#[trigger] picked(
                hard,
                probability,
                gap,
                cap,
            )[i] as int],
        forall|i: int, j: int|
            0 < i < j < picked(hard, probability, gap, cap).len() - 1 ==> #[trigger] picked(hard, probability, gap, cap)[j]
                - #[trigger] picked(hard, probability, gap, cap)[i] >= gap,
        cap is Some ==> picked(hard, probability, gap, cap).len() <= cap->0 + 2,
{
    let all = candidates(hard, probability, hard.len() + 1);
    lemma_candidates(hard, probability, hard.len() + 1);
    let keys = confidence_keys(all, probability);
    crate::order::law_order_is_stable(keys, keys.len());
    let order = in_order(keys);
    let best = ranked(hard, probability);
    assert forall|i: int, j: int| 0 <= i < j < best.len() implies best[i] != best[j] by {
        let a = order[i] as int;
        let b = order[j] as int;
        assert(best[i] == all[a] && best[j] == all[b]);
        if a < b {
            assert(all[a] < all[b]);
        } else {
            assert(all[b] < all[a]);
        }
    }
    let chosen = kept(best, gap, cap, best.len());
    lemma_kept(best, gap, cap, best.len());
    let beat_order = in_order(beat_keys(chosen));
    crate::order::law_order_is_stable(beat_keys(chosen), chosen.len());
    let sorted = ascending(chosen);
    let out = picked(hard, probability, gap, cap);
    assert forall|i: int| 0 <= i < sorted.len() implies (#[trigger] sorted[i]) < hard.len() && hard[sorted[i] as int] by {
        let a = beat_order[i] as int;
        assert(sorted[i] == chosen[a]);
        let k = choose|k: int| 0 <= k < best.len() && best[k] == chosen[a];
        assert(best[k] == all[order[k] as int]);
    }
    assert forall|i: int, j: int| 0 <= i < j < sorted.len() implies sorted[i] < sorted[j] && sorted[j] - sorted[i] >= gap by {
        let a = beat_order[i] as int;
        let b = beat_order[j] as int;
        assert(sorted[i] == chosen[a] && sorted[j] == chosen[b]);
        assert(beat_keys(chosen)[a] <= beat_keys(chosen)[b]);
        if a < b {
            assert(chosen[a] != chosen[b]);
            assert(distance(chosen[a] as int, chosen[b] as int) >= gap);
        } else {
            assert(chosen[b] != chosen[a]);
            assert(distance(chosen[b] as int, chosen[a] as int) >= gap);
        }
    }
    assert forall|i: int| 0 < i < out.len() - 1 implies out[i] == sorted[i - 1] by {}
}

/// A hard call for one row.
fn call_row(model: &HistGradientBoosting, row: &[Binary64]) -> (r: bool)
    requires
        model.ready(),
    ensures
        r == is_positive(model.classes@, predicted(model.raw(row@))),
{
    let index: usize = model.predict_row(row);
    if index < model.classes.len() {
        match parse_integer(model.classes[index].as_str()) {
            Some(value) => {
                return value > 0;
            },
            None => {},
        }
    }
    index > 0
}

/// Picks boundaries from hard calls, with non-maximum suppression.
pub fn suppress_calls(
    hard: &Vec<bool>,
    probability: &[Binary64],
    min_distance_beats: usize,
    max_boundaries: Option<usize>,
) -> (r: Vec<usize>)
    requires
        probability@.len() >= hard@.len(),
        hard@.len() < usize::MAX,
    ensures
        r@ == picked(hard@, probability@, min_distance_beats as nat, max_boundaries),
{
    let n: usize = hard.len();
    let mut found: Vec<usize> = Vec::new();
    let mut keys: Vec<i128> = Vec::new();
    let mut run_start: Option<usize> = None;
    let mut k: usize = 0;
    while k < n + 1
        invariant
            k <= n + 1,
            n == hard@.len(),
            n < usize::MAX,
            probability@.len() >= n,
            found@ == candidates(hard@, probability@, k as nat),
            keys@ == confidence_keys(found@, probability@),
            run_start is Some <==> open_run(hard@, k as nat) is Some,
            run_start is Some ==> run_start->0 == open_run(hard@, k as nat)->0,
        decreases n + 1 - k,
    {
        proof {
            lemma_candidates(hard@, probability@, k as nat);
        }
        let inside: bool = k < n && hard[k];
        match (inside, run_start) {
            (true, None) => {
                run_start = Some(k);
            },
            (false, Some(start)) => {
                let mut best: usize = start;
                let mut beat: usize = start + 1;
                while beat < k
                    invariant
                        start < beat <= k <= n,
                        probability@.len() >= n,
                        start <= best < beat,
                        best == most_confident(probability@, start as int, beat as int),
                    decreases k - beat,
                {
                    if probability[best].lt(probability[beat]) {
                        best = beat;
                    }
                    beat = beat + 1;
                }
                found.push(best);
                keys.push(-probability[best].total_key());
                assert(keys@ =~= confidence_keys(found@, probability@));
                run_start = None;
            },
            _ => {},
        }
        k = k + 1;
    }
    proof {
        lemma_candidates(hard@, probability@, (n + 1) as nat);
    }
    let order: Vec<usize> = stable_order(&keys);
    let ghost best_first = ranked(hard@, probability@);
    let mut selected: Vec<usize> = Vec::new();
    let mut chosen: Vec<i128> = Vec::new();
    let mut i: usize = 0;
    while i < order.len()
        invariant
            i <= order@.len(),
            visits_each_once(order@, found@.len()),
            best_first == arranged(found@, order@),
            selected@ == kept(best_first, min_distance_beats as nat, max_boundaries, i as nat),
            chosen@ == beat_keys(selected@),
        decreases order@.len() - i,
    {
        let full: bool = match max_boundaries {
            Some(cap) => selected.len() >= cap,
            None => false,
        };
        let beat: usize = found[order[i]];
        if !full && is_clear(&selected, beat, min_distance_beats) {
            selected.push(beat);
            chosen.push(beat as i128);
            assert(chosen@ =~= beat_keys(selected@));
        }
        i = i + 1;
    }
    let by_beat: Vec<usize> = stable_order(&chosen);
    let mut bounds: Vec<usize> = vec![0];
    let mut b: usize = 0;
    while b < by_beat.len()
        invariant
            b <= by_beat@.len(),
            visits_each_once(by_beat@, selected@.len()),
            by_beat@ == in_order(beat_keys(selected@)),
            bounds@ == seq![0usize] + ascending(selected@).take(b as int),
        decreases by_beat@.len() - b,
    {
        bounds.push(selected[by_beat[b]]);
        b = b + 1;
        assert(bounds@ =~= seq![0usize] + ascending(selected@).take(b as int));
    }
    bounds.push(n);
    assert(bounds@ =~= picked(hard@, probability@, min_distance_beats as nat, max_boundaries));
    bounds
}

/// Whether a beat is at least `gap` beats from each of the others.
fn is_clear(beats: &Vec<usize>, beat: usize, gap: usize) -> (r: bool)
    ensures
        r == clear_of(beats@, beat, gap as nat),
{
    let mut i: usize = 0;
    while i < beats.len()
        invariant
            i <= beats@.len(),
            forall|j: int| 0 <= j < i ==> distance(beat as int, #[trigger] beats@[j] as int) >= gap,
        decreases beats@.len() - i,
    {
        let other: usize = beats[i];
        let d: usize = if beat < other {
            other - beat
        } else {
            beat - other
        };
        if d < gap {
            return false;
        }
        i = i + 1;
    }
    true
}

/// Picks boundaries from the ensemble's hard calls, with non-maximum
/// suppression. The result holds the bookends `0` and `n`, so that consecutive
/// pairs are the segments.
pub fn pick_boundaries(
    model: &HistGradientBoosting,
    features: &Mat,
    valid: &[bool],
    probability: &[Binary64],
    min_distance_beats: usize,
    max_boundaries: Option<usize>,
) -> (r: Vec<usize>)
    requires
        model.ready(),
        features.wf(),
        features.height() < usize::MAX,
        valid@.len() >= features.height(),
        probability@.len() >= features.height(),
    ensures
        r@ == picked(hard_calls(*model, *features, valid@), probability@, min_distance_beats as nat, max_boundaries),
{
    let n: usize = features.rows();
    let mut hard: Vec<bool> = Vec::new();
    let mut r: usize = 0;
    while r < n
        invariant
            r <= n == features.height(),
            model.ready(),
            features.wf(),
            valid@.len() >= n,
            hard@ == hard_calls(*model, *features, valid@).take(r as int),
        decreases n - r,
    {
        let called: bool = 0 < r && r < n - 1 && valid[r] && call_row(model, features.row(r));
        hard.push(called);
        r = r + 1;
        assert(hard@ =~= hard_calls(*model, *features, valid@).take(r as int));
    }
    assert(hard@ =~= hard_calls(*model, *features, valid@));
    suppress_calls(&hard, probability, min_distance_beats, max_boundaries)
}

proof fn lemma_most_confident_is_best(probability: Seq<Binary64>, from: int, to: int)
    requires
        from < to,
        forall|k: int| from <= k < to ==> !(#[trigger] probability[k]).nan(),
    ensures
        forall|k: int|
            from <= k < to ==> (#[trigger] probability[k]).spec_le(probability[most_confident(probability, from, to)]),
        forall|k: int|
            from <= k < most_confident(probability, from, to) ==> (#[trigger] probability[k]).spec_lt(
                probability[most_confident(probability, from, to)],
            ),
    decreases to - from,
{
    if to > from + 1 {
        lemma_most_confident_is_best(probability, from, to - 1);
        lemma_most_confident(probability, from, to - 1);
        assert(!probability[to - 1].nan());
    } else {
        assert(!probability[from].nan());
    }
}

proof fn lemma_run_is_open(hard: Seq<bool>, a: int, n: nat)
    requires
        0 <= a < n <= hard.len(),
        forall|k: int| a <= k < n ==> #[trigger] hard[k],
        a == 0 || !hard[a - 1],
    ensures
        open_run(hard, n) == Some(a),
    decreases n,
{
    assert(hard[n - 1]);
    if n - 1 > a {
        lemma_run_is_open(hard, a, (n - 1) as nat);
    }
}

proof fn lemma_candidate_stays(hard: Seq<bool>, probability: Seq<Binary64>, m: nat, n: nat, i: int)
    requires
        m <= n,
        0 <= i < candidates(hard, probability, m).len(),
    ensures
        i < candidates(hard, probability, n).len(),
        candidates(hard, probability, n)[i] == candidates(hard, probability, m)[i],
    decreases n,
{
    if m < n {
        lemma_candidate_stays(hard, probability, m, (n - 1) as nat, i);
    }
}

/// Each run of called beats has one candidate: the first of its most confident
/// beats.
pub proof fn law_each_run_gives_its_most_confident_beat(
    hard: Seq<bool>,
    probability: Seq<Binary64>,
    a: int,
    b: int,
) -> (i: int)
    requires
        0 <= a < b <= hard.len() < usize::MAX,
        forall|k: int| a <= k < b ==> #[trigger] hard[k],
        a == 0 || !hard[a - 1],
        b == hard.len() || !hard[b],
        forall|k: int| a <= k < b ==> !(#[trigger] probability[k]).nan(),
    ensures
        0 <= i < candidates(hard, probability, hard.len() + 1).len(),
        ({
            let best = candidates(hard, probability, hard.len() + 1)[i] as int;
            &&& a <= best < b
            &&& forall|k: int| a <= k < b ==> (#[trigger] probability[k]).spec_le(probability[best])
            &&& forall|k: int| a <= k < best ==> (#[trigger] probability[k]).spec_lt(probability[best])
        }),
{
    lemma_run_is_open(hard, a, b as nat);
    lemma_most_confident(probability, a, b);
    lemma_most_confident_is_best(probability, a, b);
    let n = (b + 1) as nat;
    let i = candidates(hard, probability, b as nat).len() as int;
    assert(open_run(hard, n) is None);
    assert(candidates(hard, probability, n)[i] == most_confident(probability, a, b));
    lemma_candidate_stays(hard, probability, n, hard.len() + 1, i);
    i
}

/// What suppression leaves out of the first `n` candidates it leaves out for
/// one before it that is too near, or because enough are selected.
proof fn lemma_left_out(ranked: Seq<usize>, gap: nat, cap: Option<usize>, n: nat, k: int)
    requires
        0 <= k < n <= ranked.len(),
    ensures
        ({
            let all = kept(ranked, gap, cap, n);
            ||| all.contains(ranked[k])
            ||| is_full(all, cap)
            ||| exists|j: int|
                0 <= j < k && #[trigger] all.contains(ranked[j]) && distance(ranked[k] as int, ranked[j] as int) < gap
        }),
    decreases n,
{
    let m = (n - 1) as nat;
    let before = kept(ranked, gap, cap, m);
    let now = kept(ranked, gap, cap, n);
    assert forall|x: usize| before.contains(x) implies now.contains(x) by {
        let i = before.index_of(x);
        assert(now[i] == x);
    }
    if k < m {
        lemma_left_out(ranked, gap, cap, m, k);
        if exists|j: int|
            0 <= j < k && #[trigger] before.contains(ranked[j]) && distance(ranked[k] as int, ranked[j] as int) < gap {
            let j = choose|j: int|
                0 <= j < k && #[trigger] before.contains(ranked[j]) && distance(ranked[k] as int, ranked[j] as int) < gap;
            assert(now.contains(ranked[j]));
        }
    } else if !is_full(before, cap) {
        if clear_of(before, ranked[k], gap) {
            assert(now[before.len() as int] == ranked[k]);
        } else {
            let i = choose|i: int|
                0 <= i < before.len() && !(distance(ranked[k] as int, #[trigger] before[i] as int) >= gap);
            lemma_kept(ranked, gap, cap, m);
            let j = choose|j: int| 0 <= j < m && ranked[j] == before[i];
            assert(before.contains(ranked[j]));
            assert(now.contains(ranked[j]));
        }
    }
}

/// No candidate is dropped for a less confident one: each is picked, or one at
/// least as confident within the gap is, or as many as allowed are picked.
pub proof fn law_only_weaker_calls_are_dropped(
    hard: Seq<bool>,
    probability: Seq<Binary64>,
    gap: nat,
    cap: Option<usize>,
    c: int,
)
    requires
        hard.len() < usize::MAX,
        0 <= c < candidates(hard, probability, hard.len() + 1).len(),
    ensures
        ({
            let beat = candidates(hard, probability, hard.len() + 1)[c];
            let out = picked(hard, probability, gap, cap);
            let inner = out.subrange(1, out.len() - 1);
            ||| inner.contains(beat)
            ||| cap is Some && inner.len() == cap->0
            ||| exists|i: int|
                0 <= i < inner.len() && distance(beat as int, #[trigger] inner[i] as int) < gap
                    && probability[beat as int].total_rank() <= probability[inner[i] as int].total_rank()
        }),
{
    let all = candidates(hard, probability, hard.len() + 1);
    lemma_candidates(hard, probability, hard.len() + 1);
    let keys = confidence_keys(all, probability);
    crate::order::law_order_is_stable(keys, keys.len());
    let order = in_order(keys);
    let best = ranked(hard, probability);
    assert(order.contains(c as usize));
    let k = order.index_of(c as usize);
    assert(best[k] == all[c]);
    let chosen = kept(best, gap, cap, best.len());
    lemma_kept(best, gap, cap, best.len());
    lemma_left_out(best, gap, cap, best.len(), k);
    let beat_order = in_order(beat_keys(chosen));
    crate::order::law_order_is_stable(beat_keys(chosen), chosen.len());
    let sorted = ascending(chosen);
    let out = picked(hard, probability, gap, cap);
    let inner = out.subrange(1, out.len() - 1);
    assert(inner =~= sorted);
    assert forall|x: usize| chosen.contains(x) implies inner.contains(x) by {
        let i = chosen.index_of(x);
        assert(beat_order.contains(i as usize));
        let j = beat_order.index_of(i as usize);
        assert(sorted[j] == x);
    }
    if !chosen.contains(best[k]) && !is_full(chosen, cap) {
        let j = choose|j: int|
            0 <= j < k && #[trigger] chosen.contains(best[j]) && distance(best[k] as int, best[j] as int) < gap;
        assert(inner.contains(best[j]));
        let i = inner.index_of(best[j]);
        assert(best[j] == all[order[j] as int]);
        assert(keys[order[j] as int] <= keys[order[k] as int]);
        let x = probability[best[j] as int];
        let y = probability[best[k] as int];
        assert(-0x8000_0000_0000_0000 <= x.total_rank() < 0x8000_0000_0000_0000);
        assert(-0x8000_0000_0000_0000 <= y.total_rank() < 0x8000_0000_0000_0000);
        assert(distance(best[k] as int, inner[i] as int) < gap);
    }
}

/// Beats as near to an end as the guard are never boundaries, all others may
/// be; the guard is the asked-for number of beats, but half the track at most.
pub proof fn law_the_guard_is_as_asked(n: nat, edge_beats: nat)
    ensures
        2 * edge_beats <= n ==> guard(n, edge_beats) == edge_beats,
        2 * edge_beats > n ==> guard(n, edge_beats) == n / 2,
{
}

} // verus!
