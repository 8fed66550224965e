//! Repeats: the distances at which a track sounds like itself, and the pairs of
//! regions they describe.

use crate::analyze::features::{columns_for, dot, time_of_beat, BeatMatrix, JumpCueOptions};
use crate::analyze::links::{length, same_stretch, Region, SimilarLink};
use crate::analyze::similarity::{compared, lag_profile, profile_of, prominence, prominence_at, self_similarity, Ssm};
use crate::number::lists::{highest, highest_of, total, total_of};
use crate::number::binary64::{difference, larger, micro, of_int, one, product, quotient, sum, zero, Binary64};
use crate::number::laws::law_division_keeps_the_order;
use crate::number::sorting::{sort_ascending, upper_middle};
use crate::order::{in_order, law_order_is_stable, stable_order, visits_each_once};
use vstd::prelude::*;

verus! {

/// The smallest length that a diagonal needs to count as evidence.
pub open spec fn usable_overlap(min_overlap: nat) -> nat {
    if min_overlap < 2 {
        2
    } else {
        min_overlap
    }
}

/// Whether a lag is a candidate repeat distance: far enough from both ends, a
/// local maximum, and standing out.
pub open spec fn is_candidate(
    profile: Seq<Binary64>,
    step: int,
    min_overlap: nat,
    options: JumpCueOptions,
    lag: int,
) -> bool {
    let size = profile.len() as int;
    let beats = of_int(lag * step);
    &&& !beats.spec_lt(options.margin_beats)
    &&& !difference(of_int((size - 1) * step), options.margin_beats).spec_lt(beats)
    &&& size - lag >= usable_overlap(min_overlap)
    &&& profile[lag - 1].spec_lt(profile[lag])
    &&& profile[lag + 1].spec_le(profile[lag])
    &&& options.peak_prominence.spec_le(prominence_at(profile, lag))
}

/// The candidate lags in `1..n`.
pub open spec fn candidates(
    profile: Seq<Binary64>,
    step: int,
    min_overlap: nat,
    options: JumpCueOptions,
    n: int,
) -> Seq<usize>
    decreases n,
{
    if n <= 1 {
        seq![]
    } else {
        let before = candidates(profile, step, min_overlap, options, n - 1);
        if is_candidate(profile, step, min_overlap, options, n - 1) {
            before.push((n - 1) as usize)
        } else {
            before
        }
    }
}

/// Sort keys that put the strongest lag first.
pub open spec fn strength_keys(profile: Seq<Binary64>, lags: Seq<usize>) -> Seq<i128> {
    lags.map_values(|lag: usize| (-profile[lag as int].rank()) as i128)
}

/// Whether a lag keeps its distance from all others.
pub open spec fn keeps_apart(chosen: Seq<usize>, lag: usize, separation: int) -> bool {
    forall|i: int|
        0 <= i < chosen.len() ==> lag - #[trigger] chosen[i] >= separation || chosen[i] - lag >= separation
}

/// The lags taken from the first `n` in an order, as far as there is room and
/// each keeps its distance.
pub open spec fn spread(lags: Seq<usize>, order: Seq<usize>, separation: int, most: int, n: nat) -> Seq<usize>
    decreases n,
{
    if n == 0 {
        seq![]
    } else {
        let before = spread(lags, order, separation, most, (n - 1) as nat);
        let lag = lags[order[n - 1] as int];
        if before.len() < most && keeps_apart(before, lag, separation) {
            before.push(lag)
        } else {
            before
        }
    }
}

/// The candidate repeat distances, strongest first.
pub open spec fn picked(profile: Seq<Binary64>, step: int, min_overlap: nat, options: JumpCueOptions) -> Seq<usize> {
    let size = profile.len() as int;
    let lags = candidates(profile, step, min_overlap, options, size - 1);
    let order = in_order(strength_keys(profile, lags));
    let separation = if size / 50 < 1 {
        1
    } else {
        size / 50
    };
    if size < 3 {
        seq![]
    } else {
        spread(lags, order, separation, options.max_peaks as int, lags.len())
    }
}

proof fn lemma_candidates(profile: Seq<Binary64>, step: int, min_overlap: nat, options: JumpCueOptions, n: int)
    requires
        n <= usize::MAX,
    ensures
        ({
            let lags = candidates(profile, step, min_overlap, options, n);
            &&& lags.len() <= usize::MAX
            &&& lags.len() <= n || n < 0
            &&& forall|i: int| 0 <= i < lags.len() ==> 1 <= #[trigger] lags[i] < n
            &&& forall|i: int|
                0 <= i < lags.len() ==> is_candidate(profile, step, min_overlap, options, #[trigger] lags[i] as int)
        }),
    decreases n,
{
    if n > 1 {
        lemma_candidates(profile, step, min_overlap, options, n - 1);
        let before = candidates(profile, step, min_overlap, options, n - 1);
        let lags = candidates(profile, step, min_overlap, options, n);
        assert forall|i: int| 0 <= i < lags.len() implies 1 <= #[trigger] lags[i] < n && is_candidate(
            profile,
            step,
            min_overlap,
            options,
            lags[i] as int,
        ) by {
            if i < before.len() {
                assert(lags[i] == before[i]);
            }
        }
    }
}

proof fn lemma_spread(lags: Seq<usize>, order: Seq<usize>, separation: int, most: int, n: nat)
    requires
        n <= order.len(),
        forall|i: int| 0 <= i < order.len() ==> (#[trigger] order[i]) < lags.len(),
    ensures
        ({
            let chosen = spread(lags, order, separation, most, n);
            &&& chosen.len() <= most || chosen.len() == 0
            &&& forall|i: int| 0 <= i < chosen.len() ==> lags.contains(#[trigger] chosen[i])
            &&& forall|i: int, j: int|
                0 <= i < j < chosen.len() ==> #[trigger] chosen[i] - #[trigger] chosen[j] >= separation || chosen[j]
                    - chosen[i] >= separation
        }),
    decreases n,
{
    if n > 0 {
        lemma_spread(lags, order, separation, most, (n - 1) as nat);
        let before = spread(lags, order, separation, most, (n - 1) as nat);
        let chosen = spread(lags, order, separation, most, n);
        let lag = lags[order[n - 1] as int];
        if chosen.len() > before.len() {
            assert forall|i: int| 0 <= i < chosen.len() implies lags.contains(#[trigger] chosen[i]) by {
                if i < before.len() {
                    assert(chosen[i] == before[i]);
                }
            }
            assert forall|i: int, j: int| 0 <= i < j < chosen.len() implies #[trigger] chosen[i] - #[trigger] chosen[j]
                >= separation || chosen[j] - chosen[i] >= separation by {
                assert(chosen[i] == before[i]);
                if j < before.len() {
                    assert(chosen[j] == before[j]);
                }
            }
        }
    }
}

/// Every lag that is picked is a candidate, there are no more than asked for,
/// and no two lie closer together than a fiftieth of the profile.
pub proof fn law_picked_lags_are_spread(
    profile: Seq<Binary64>,
    step: int,
    min_overlap: nat,
    options: JumpCueOptions,
)
    requires
        profile.len() <= usize::MAX,
    ensures
        ({
            let lags = picked(profile, step, min_overlap, options);
            &&& lags.len() <= options.max_peaks
            &&& forall|i: int| 0 <= i < lags.len() ==> 1 <= #[trigger] lags[i] < profile.len() - 1
            &&& forall|i: int|
                0 <= i < lags.len() ==> is_candidate(profile, step, min_overlap, options, #[trigger] lags[i] as int)
            &&& forall|i: int, j: int|
                0 <= i < j < lags.len() ==> {
                    let gap = if #[trigger] lags[i] < #[trigger] lags[j] {
                        lags[j] - lags[i]
                    } else {
                        lags[i] - lags[j]
                    };
                    gap >= 1 && gap >= profile.len() as int / 50
                }
        }),
{
    let size = profile.len() as int;
    if size >= 3 {
        let lags = candidates(profile, step, min_overlap, options, size - 1);
        lemma_candidates(profile, step, min_overlap, options, size - 1);
        let keys = strength_keys(profile, lags);
        let order = in_order(keys);
        law_order_is_stable(keys, keys.len());
        let separation = if size / 50 < 1 {
            1
        } else {
            size / 50
        };
        lemma_spread(lags, order, separation, options.max_peaks as int, lags.len());
        let out = picked(profile, step, min_overlap, options);
        assert forall|i: int| 0 <= i < out.len() implies 1 <= #[trigger] out[i] < size - 1 && is_candidate(
            profile,
            step,
            min_overlap,
            options,
            out[i] as int,
        ) by {
            assert(lags.contains(out[i]));
            let k = lags.index_of(out[i]);
            assert(lags[k] == out[i]);
        }
    }
}

/// The candidate repeat distances, in columns, strongest first.
///
/// A diagonal shorter than the shortest link would be averaged over a handful
/// of cells: noise, not evidence.
pub fn pick_peaks(profile: &[Binary64], matrix: &BeatMatrix, min_overlap: usize, options: &JumpCueOptions) -> (r: Vec<
    usize,
>)
    requires
        profile@.len() * matrix.step <= usize::MAX,
    ensures
        r@ == picked(profile@, matrix.step as int, min_overlap as nat, *options),
{
    let size: usize = profile.len();
    if size < 3 {
        return Vec::new();
    }
    let ghost step = matrix.step as int;
    proof {
        lemma_step_bound(size as int, (size - 1) as int, step);
    }
    let longest: Binary64 = Binary64::from_u64(matrix.first_beat(size - 1) as u64);
    let limit: Binary64 = longest.minus(options.margin_beats);
    let usable: usize = if min_overlap < 2 {
        2
    } else {
        min_overlap
    };
    let mut lags: Vec<usize> = Vec::new();
    let mut keys: Vec<i128> = Vec::new();
    let mut lag: usize = 1;
    while lag < size - 1
        invariant
            3 <= size == profile@.len(),
            1 <= lag <= size - 1,
            step == matrix.step,
            size * step <= usize::MAX,
            usable == usable_overlap(min_overlap as nat),
            limit == difference(of_int((size - 1) * step), options.margin_beats),
            lags@ == candidates(profile@, step, min_overlap as nat, *options, lag as int),
            keys@ == strength_keys(profile@, lags@),
        decreases size - lag,
    {
        proof {
            lemma_step_bound(size as int, lag as int, step);
        }
        let beats: Binary64 = Binary64::from_u64(matrix.first_beat(lag) as u64);
        let inside: bool = !beats.lt(options.margin_beats) && !limit.lt(beats) && size - lag >= usable;
        if inside && profile[lag - 1].lt(profile[lag]) && profile[lag + 1].le(profile[lag])
            && options.peak_prominence.le(prominence(profile, lag)) {
            assert(is_candidate(profile@, step, min_overlap as nat, *options, lag as int));
            let ghost before = lags@;
            lags.push(lag);
            keys.push(-profile[lag].rank_key());
            assert(keys@ =~= strength_keys(profile@, lags@));
        }
        lag = lag + 1;
    }
    let order: Vec<usize> = stable_order(&keys);
    let separation: usize = if size / 50 < 1 {
        1
    } else {
        size / 50
    };
    let mut chosen: Vec<usize> = Vec::new();
    let mut k: usize = 0;
    while k < order.len()
        invariant
            k <= order@.len(),
            visits_each_once(order@, lags@.len()),
            chosen@ == spread(lags@, order@, separation as int, options.max_peaks as int, k as nat),
        decreases order@.len() - k,
    {
        let next: usize = lags[order[k]];
        let mut apart: bool = true;
        let mut i: usize = 0;
        while i < chosen.len()
            invariant
                i <= chosen@.len(),
                apart == keeps_apart(chosen@.take(i as int), next, separation as int),
            decreases chosen@.len() - i,
        {
            let other: usize = chosen[i];
            let gap: usize = if next < other {
                other - next
            } else {
                next - other
            };
            proof {
                let now = chosen@.take(i + 1);
                let was = chosen@.take(i as int);
                assert(forall|j: int| 0 <= j < i ==> now[j] == was[j]);
                if gap >= separation {
                    assert(apart == keeps_apart(now, next, separation as int)) by {
                        if apart {
                            assert forall|j: int| 0 <= j < now.len() implies next - #[trigger] now[j] >= separation || now[j]
                                - next >= separation by {
                                if j < i {
                                    assert(was[j] == now[j]);
                                }
                            }
                        } else {
                            let j = choose|j: int|
                                0 <= j < was.len() && !(next - #[trigger] was[j] >= separation || was[j] - next
                                    >= separation);
                            assert(now[j] == was[j]);
                        }
                    }
                } else {
                    assert(now[i as int] == other);
                    assert(!keeps_apart(now, next, separation as int));
                }
            }
            if gap < separation {
                apart = false;
            }
            i = i + 1;
        }
        assert(chosen@.take(i as int) == chosen@);
        if chosen.len() < options.max_peaks && apart {
            chosen.push(next);
        }
        k = k + 1;
    }
    chosen
}

proof fn lemma_step_bound(size: int, at: int, step: int)
    requires
        0 <= at <= size,
        0 <= step,
        size * step <= usize::MAX,
    ensures
        0 <= at * step <= size * step,
{
    assert(0 <= at * step <= size * step) by (nonlinear_arith)
        requires
            0 <= at <= size,
            0 <= step,
    ;
}

/// The similarities of one column with those at `at`, `at + stride`, ... that
/// are more than `separation` away.
pub open spec fn row_samples(
    features: Seq<Seq<Binary64>>,
    row: int,
    at: int,
    stride: int,
    separation: int,
) -> Seq<Binary64>
    decreases
            if at < features.len() {
                features.len() - at
            } else {
                0
            },
{
    if at >= features.len() || stride <= 0 {
        seq![]
    } else {
        let rest = row_samples(features, row, at + stride, stride, separation);
        if row - at > separation || at - row > separation {
            seq![dot(features[row], features[at])] + rest
        } else {
            rest
        }
    }
}

/// The similarities over a coarse grid of well-separated columns.
pub open spec fn grid_samples(features: Seq<Seq<Binary64>>, row: int, stride: int, separation: int) -> Seq<Binary64>
    decreases
            if row < features.len() {
                features.len() - row
            } else {
                0
            },
{
    if row >= features.len() || stride <= 0 {
        seq![]
    } else {
        row_samples(features, row, 0, stride, separation) + grid_samples(features, row + stride, stride, separation)
    }
}

/// How alike two unrelated parts of a track are: the middle value over a coarse
/// grid.
pub open spec fn baseline(features: Seq<Seq<Binary64>>, span: int) -> Binary64 {
    let stride = if features.len() as int / 40 < 1 {
        1
    } else {
        features.len() as int / 40
    };
    let separation = if span < 1 {
        1
    } else {
        span
    };
    let sampled = grid_samples(features, 0, stride, separation);
    if sampled.len() == 0 {
        zero()
    } else {
        upper_middle(sampled)
    }
}

/// The similarities of one column with every `stride`-th that is more than
/// `separation` away.
fn sample_row(matrix: &BeatMatrix, row: usize, stride: usize, separation: usize) -> (r: Vec<Binary64>)
    requires
        row < matrix.columns@.len(),
        stride > 0,
        matrix.columns@.len() + stride <= usize::MAX,
    ensures
        r@ == row_samples(matrix.features(), row as int, 0, stride as int, separation as int),
{
    let ghost features = matrix.features();
    let ghost all = row_samples(features, row as int, 0, stride as int, separation as int);
    let mut out: Vec<Binary64> = Vec::new();
    let mut at: usize = 0;
    assert(out@ + all =~= all);
    while at < matrix.len()
        invariant
            row < matrix.columns@.len(),
            stride > 0,
            matrix.columns@.len() + stride <= usize::MAX,
            features == matrix.features(),
            out@ + row_samples(features, row as int, at as int, stride as int, separation as int) == all,
        decreases
                if at < matrix.columns@.len() {
                    matrix.columns@.len() - at
                } else {
                    0
                },
    {
        let gap: usize = if row < at {
            at - row
        } else {
            row - at
        };
        let ghost rest = row_samples(features, row as int, at + stride, stride as int, separation as int);
        if gap > separation {
            let value: Binary64 = matrix.similarity(row, at);
            let ghost before = out@;
            out.push(value);
            assert(out@ + rest =~= before + (seq![value] + rest));
        }
        at = at + stride;
    }
    assert(out@ + Seq::<Binary64>::empty() =~= out@);
    out
}

/// How alike two unrelated parts of *this* track are.
///
/// A track played on one drum kit from end to end is similar to itself
/// everywhere, and a fixed threshold would accept all of it or none of it. The
/// median over a coarse grid of well-separated column pairs is a robust
/// estimate of that floor.
pub fn baseline_similarity(matrix: &BeatMatrix) -> (r: Binary64)
    requires
        2 * matrix.columns@.len() + 1 <= usize::MAX,
    ensures
        r == baseline(matrix.features(), matrix.span as int),
{
    let size: usize = matrix.len();
    let stride: usize = if size / 40 < 1 {
        1
    } else {
        size / 40
    };
    let separation: usize = if matrix.span < 1 {
        1
    } else {
        matrix.span
    };
    let ghost features = matrix.features();
    let ghost all = grid_samples(features, 0, stride as int, separation as int);
    let mut sampled: Vec<Binary64> = Vec::new();
    let mut row: usize = 0;
    assert(sampled@ + all =~= all);
    while row < size
        invariant
            size == matrix.columns@.len(),
            0 < stride <= size || stride == 1,
            2 * size + 1 <= usize::MAX,
            features == matrix.features(),
            sampled@ + grid_samples(features, row as int, stride as int, separation as int) == all,
        decreases
                if row < size {
                    size - row
                } else {
                    0
                },
    {
        let mut part: Vec<Binary64> = sample_row(matrix, row, stride, separation);
        let ghost rest = grid_samples(features, row + stride, stride as int, separation as int);
        let ghost before = sampled@;
        let ghost new = part@;
        sampled.append(&mut part);
        assert(sampled@ + rest =~= before + (new + rest));
        row = row + stride;
    }
    assert(sampled@ + Seq::<Binary64>::empty() =~= sampled@);
    if sampled.len() == 0 {
        return zero();
    }
    let sorted: Vec<Binary64> = sort_ascending(sampled.as_slice());
    sorted[sorted.len() / 2]
}

/// Where between the track's own baseline and a perfect match two regions
/// count as alike: 0.65.
#[verifier::allow_in_spec]
pub fn alike_above_baseline() -> Binary64
    returns
        (Binary64 { bits: 0x3FE4_CCCC_CCCC_CCCD }),
{
    Binary64 { bits: 0x3FE4_CCCC_CCCC_CCCD }
}

/// The similarity from which two positions count as alike.
pub open spec fn alike_from(options: JumpCueOptions, floor: Binary64) -> Binary64 {
    larger(options.min_score, sum(floor, product(alike_above_baseline(), difference(one(), floor))))
}

/// How alike positions a lag apart are, along the track.
pub open spec fn lag_curve(features: Seq<Seq<Binary64>>, lag: int) -> Seq<Binary64> {
    Seq::new((features.len() - lag) as nat, |i: int| dot(features[i + lag], features[i]))
}

/// The first place of the window about `i`.
pub open spec fn window_from(i: int) -> int {
    if i == 0 {
        0
    } else {
        i - 1
    }
}

/// The place behind the window about `i`.
pub open spec fn window_to(i: int, n: int) -> int {
    if i + 2 < n {
        i + 2
    } else {
        n
    }
}

/// The three-point moving average of a curve; a shorter curve as it is.
pub open spec fn smoothed_curve(curve: Seq<Binary64>) -> Seq<Binary64> {
    let n = curve.len() as int;
    if n < 3 {
        curve
    } else {
        Seq::new(
            curve.len(),
            |i: int|
                quotient(
                    total(curve.subrange(window_from(i), window_to(i, n))),
                    of_int(window_to(i, n) - window_from(i)),
                ),
        )
    }
}

/// Three-point moving average, so that one dull beat does not split a run.
pub fn smooth_curve(curve: Vec<Binary64>) -> (r: Vec<Binary64>)
    ensures
        r@ == smoothed_curve(curve@),
{
    let n: usize = curve.len();
    if n < 3 {
        return curve;
    }
    let ghost want = smoothed_curve(curve@);
    let mut out: Vec<Binary64> = Vec::new();
    let mut i: usize = 0;
    while i < n
        invariant
            i <= n,
            3 <= n == curve@.len(),
            want == smoothed_curve(curve@),
            out@ == want.take(i as int),
        decreases n - i,
    {
        let from: usize = if i == 0 {
            0
        } else {
            i - 1
        };
        let to: usize = if i < n - 2 {
            i + 2
        } else {
            n
        };
        let ghost all = curve@.subrange(from as int, to as int);
        let mut value: Binary64 = zero();
        let mut k: usize = from;
        while k < to
            invariant
                from <= k <= to <= n,
                n == curve@.len(),
                all == curve@.subrange(from as int, to as int),
                value == total(all.take(k - from)),
            decreases to - k,
        {
            value = value.plus(curve[k]);
            assert(all.take(k + 1 - from).drop_last() == all.take(k - from));
            k = k + 1;
        }
        assert(all.take(k - from) == all);
        out.push(value.over(Binary64::from_u64((to - from) as u64)));
        i = i + 1;
        assert(out@ =~= want.take(i as int));
    }
    assert(out@ =~= want);
    out
}

/// The length of the run of values from `from_value` up that ends before `n`.
pub open spec fn run_before(curve: Seq<Binary64>, from_value: Binary64, n: int) -> int
    decreases n,
{
    if n <= 0 || !from_value.spec_le(curve[n - 1]) {
        0
    } else {
        run_before(curve, from_value, n - 1) + 1
    }
}

/// The longest run among the first `n` values, the first of equals: where it
/// starts, and its length.
pub open spec fn longest(curve: Seq<Binary64>, from_value: Binary64, n: int) -> (int, int)
    decreases n,
{
    if n <= 0 {
        (0, 0)
    } else {
        let before = longest(curve, from_value, n - 1);
        let here = run_before(curve, from_value, n);
        if here > before.1 {
            (n - here, here)
        } else {
            before
        }
    }
}

/// Whether all of `len` values from `start` on reach a value.
pub open spec fn is_run(curve: Seq<Binary64>, from_value: Binary64, start: int, len: int) -> bool {
    &&& 0 <= start
    &&& 0 <= len
    &&& start + len <= curve.len()
    &&& forall|i: int| start <= i < start + len ==> from_value.spec_le(#[trigger] curve[i])
}

proof fn lemma_run_before(curve: Seq<Binary64>, from_value: Binary64, n: int)
    requires
        0 <= n <= curve.len(),
    ensures
        0 <= run_before(curve, from_value, n) <= n,
        is_run(curve, from_value, n - run_before(curve, from_value, n), run_before(curve, from_value, n)),
        forall|s: int|
            0 <= s <= n && #[trigger] is_run(curve, from_value, s, n - s) ==> n - s <= run_before(curve, from_value, n),
    decreases n,
{
    if n > 0 {
        lemma_run_before(curve, from_value, n - 1);
        let here = run_before(curve, from_value, n);
        if from_value.spec_le(curve[n - 1]) {
            assert forall|s: int| 0 <= s <= n && #[trigger] is_run(curve, from_value, s, n - s) implies n - s
                <= here by {
                if s < n {
                    assert(is_run(curve, from_value, s, n - 1 - s));
                }
            }
        } else {
            assert forall|s: int| 0 <= s <= n && #[trigger] is_run(curve, from_value, s, n - s) implies n - s
                <= here by {
                if s < n {
                    assert(from_value.spec_le(curve[n - 1]));
                }
            }
        }
    }
}

/// The run that is taken is a run, no other run is longer, and none of the same
/// length starts before it.
pub proof fn law_the_longest_run_is_taken(curve: Seq<Binary64>, from_value: Binary64, n: int, start: int, len: int)
    requires
        0 <= n <= curve.len(),
        is_run(curve, from_value, start, len),
        start + len <= n,
    ensures
        is_run(curve, from_value, longest(curve, from_value, n).0, longest(curve, from_value, n).1),
        longest(curve, from_value, n).0 + longest(curve, from_value, n).1 <= n,
        len <= longest(curve, from_value, n).1,
        len == longest(curve, from_value, n).1 && len > 0 ==> longest(curve, from_value, n).0 <= start,
    decreases n,
{
    if n > 0 {
        lemma_run_before(curve, from_value, n);
        if start + len == n {
            assert(is_run(curve, from_value, start, n - start));
            law_the_longest_run_is_taken(curve, from_value, n - 1, 0, 0);
            if len > 0 {
                let before = longest(curve, from_value, n - 1);
                if len <= before.1 {
                    assert(before.0 + before.1 <= n - 1);
                    if start < before.0 {
                        assert(is_run(curve, from_value, start, before.1));
                        law_the_longest_run_is_taken(curve, from_value, n - 1, start, before.1);
                    }
                }
            }
        } else {
            law_the_longest_run_is_taken(curve, from_value, n - 1, start, len);
        }
    }
}

/// The place of the last of the highest among the first `n` values.
pub open spec fn last_highest(values: Seq<Binary64>, n: int) -> int
    decreases n,
{
    if n <= 1 {
        0
    } else {
        let before = last_highest(values, n - 1);
        if values[n - 1].spec_lt(values[before]) {
            before
        } else {
            n - 1
        }
    }
}

/// The longest run of values from `from_value` up, the first of equals: where
/// it starts, and its length.
pub fn longest_run(curve: &[Binary64], from_value: Binary64) -> (r: (usize, usize))
    ensures
        r.0 == longest(curve@, from_value, curve@.len() as int).0,
        r.1 == longest(curve@, from_value, curve@.len() as int).1,
        r.0 + r.1 <= curve@.len(),
{
    let mut best_start: usize = 0;
    let mut best_len: usize = 0;
    let mut run: usize = 0;
    let mut i: usize = 0;
    while i < curve.len()
        invariant
            i <= curve@.len(),
            run <= i,
            best_start + best_len <= i,
            run == run_before(curve@, from_value, i as int),
            (best_start as int, best_len as int) == longest(curve@, from_value, i as int),
        decreases curve@.len() - i,
    {
        if from_value.le(curve[i]) {
            run = run + 1;
        } else {
            run = 0;
        }
        i = i + 1;
        if run > best_len {
            best_len = run;
            best_start = i - run;
        }
    }
    (best_start, best_len)
}

/// The region of `len` columns from `first` on, with the jump at a column.
pub open spec fn region_of(beats: Seq<Binary64>, step: int, span: int, first: int, len: int, jump: int) -> Region {
    Region {
        start: time_of_beat(beats, first * step),
        end: time_of_beat(beats, (first + len - 1) * step + span),
        point: time_of_beat(beats, jump * step),
    }
}

/// The pair of regions that a repeat distance describes, if it holds up.
pub open spec fn link_of(
    matrix: BeatMatrix,
    lag: int,
    min_overlap: nat,
    floor: Binary64,
    options: JumpCueOptions,
) -> Option<SimilarLink> {
    let features = matrix.features();
    let size = features.len() as int;
    let curve = smoothed_curve(lag_curve(features, lag));
    let (start, len) = longest(curve, alike_from(options, floor), curve.len() as int);
    let run = curve.subrange(start, start + len);
    let at = start + last_highest(run, len);
    let step = matrix.step as int;
    let span = matrix.span as int;
    let later = region_of(matrix.beats@, step, span, start + lag, len, at + lag);
    let earlier = region_of(matrix.beats@, step, span, start, len, at);
    if lag == 0 || lag >= size || len < 1 || len < min_overlap {
        None
    } else if length(later).spec_lt(options.min_duration_sec) || length(earlier).spec_lt(options.min_duration_sec) {
        None
    } else if same_stretch(later, earlier) {
        None
    } else {
        Some(
            SimilarLink {
                earlier,
                later,
                lag_beats: of_int(lag * step),
                lag_sec: difference(later.point, earlier.point),
                score: quotient(total(run), of_int(len)),
                confidence: zero(),
            },
        )
    }
}

/// How alike positions a lag apart are, along the track, evened out.
fn curve_at_lag(matrix: &BeatMatrix, lag: usize) -> (r: Vec<Binary64>)
    requires
        lag <= matrix.columns@.len(),
    ensures
        r@ == smoothed_curve(lag_curve(matrix.features(), lag as int)),
{
    let ghost want = lag_curve(matrix.features(), lag as int);
    let size: usize = matrix.len();
    let mut curve: Vec<Binary64> = Vec::new();
    let mut i: usize = lag;
    while i < size
        invariant
            lag <= i <= size == matrix.columns@.len(),
            want == lag_curve(matrix.features(), lag as int),
            curve@ == want.take(i - lag),
        decreases size - i,
    {
        curve.push(matrix.similarity(i, i - lag));
        i = i + 1;
        assert(curve@ =~= want.take(i - lag));
    }
    assert(curve@ =~= want);
    smooth_curve(curve)
}

/// The region of `len` columns from `first` on, with the jump at a column.
fn region_at(matrix: &BeatMatrix, first: usize, len: usize, jump: usize) -> (r: Region)
    requires
        len > 0,
        first + len <= matrix.columns@.len(),
        jump <= matrix.columns@.len(),
        matrix.columns@.len() <= usize::MAX,
        matrix.columns@.len() * matrix.step + matrix.span <= usize::MAX,
    ensures
        r == region_of(
            matrix.beats@,
            matrix.step as int,
            matrix.span as int,
            first as int,
            len as int,
            jump as int,
        ),
{
    proof {
        let size = matrix.columns@.len() as int;
        let step = matrix.step as int;
        lemma_step_bound(size, first as int, step);
        lemma_step_bound(size, first + len - 1, step);
        lemma_step_bound(size, jump as int, step);
    }
    Region {
        start: matrix.start_time(first),
        end: matrix.end_time(first + (len - 1)),
        point: matrix.start_time(jump),
    }
}

/// The pair of regions a repeat distance describes, if it holds up.
///
/// The similarity is recomputed from the features rather than read off the
/// smoothed matrix: smoothing finds *where* a repeat is, but the score has to
/// say how alike the two regions really are. A run longer than the lag itself
/// means the two regions are largely the same stretch of track: a loop, not
/// somewhere to jump to.
pub fn link_at_lag(
    matrix: &BeatMatrix,
    lag: usize,
    min_overlap: usize,
    floor: Binary64,
    options: &JumpCueOptions,
) -> (r: Option<SimilarLink>)
    requires
        matrix.columns@.len() * matrix.step + matrix.span <= usize::MAX,
    ensures
        r == link_of(*matrix, lag as int, min_overlap as nat, floor, *options),
{
    let size: usize = matrix.len();
    if lag == 0 || lag >= size {
        return None;
    }
    let curve: Vec<Binary64> = curve_at_lag(matrix, lag);
    let wanted: Binary64 = floor.plus(alike_above_baseline().times(one().minus(floor)));
    let threshold: Binary64 = options.min_score.max(wanted);
    let (start, len) = longest_run(curve.as_slice(), threshold);
    if len < 1 || len < min_overlap {
        return None;
    }
    let ghost run = curve@.subrange(start as int, start + len);
    let count: usize = curve.len();
    let mut whole: Binary64 = zero();
    let mut best: usize = 0;
    let mut i: usize = 0;
    while i < len
        invariant
            i <= len,
            len > 0,
            start + len <= count == curve@.len(),
            run == curve@.subrange(start as int, start + len),
            whole == total(run.take(i as int)),
            best == last_highest(run, i as int),
            best < len,
            i > 0 ==> best < i,
        decreases len - i,
    {
        let value: Binary64 = curve[start + i];
        whole = whole.plus(value);
        assert(run.take(i + 1).drop_last() == run.take(i as int));
        if i > 0 && !value.lt(curve[start + best]) {
            best = i;
        }
        i = i + 1;
    }
    assert(run.take(i as int) == run);
    let at: usize = start + best;
    let later: Region = region_at(matrix, start + lag, len, at + lag);
    let earlier: Region = region_at(matrix, start, len, at);
    if later.duration().lt(options.min_duration_sec) || earlier.duration().lt(options.min_duration_sec) {
        return None;
    }
    if later.is_same_as(&earlier) {
        return None;
    }
    proof {
        lemma_step_bound(size as int, lag as int, matrix.step as int);
    }
    Some(
        SimilarLink {
            earlier,
            later,
            lag_beats: Binary64::from_u64(matrix.first_beat(lag) as u64),
            lag_sec: later.point.minus(earlier.point),
            score: whole.over(Binary64::from_u64(len as u64)),
            confidence: zero(),
        },
    )
}

/// The links that the first `n` lags describe.
pub open spec fn links_at(
    matrix: BeatMatrix,
    lags: Seq<usize>,
    min_overlap: nat,
    floor: Binary64,
    options: JumpCueOptions,
    n: nat,
) -> Seq<SimilarLink>
    decreases n,
{
    if n == 0 {
        seq![]
    } else {
        let before = links_at(matrix, lags, min_overlap, floor, options, (n - 1) as nat);
        match link_of(matrix, lags[n - 1] as int, min_overlap, floor, options) {
            Some(link) => before.push(link),
            None => before,
        }
    }
}

/// Sort keys that put the best score first.
pub open spec fn score_keys(links: Seq<SimilarLink>) -> Seq<i128> {
    links.map_values(|link: SimilarLink| (-link.score.rank()) as i128)
}

/// Whether two links describe the same pair of regions.
pub open spec fn same_pair(a: SimilarLink, b: SimilarLink) -> bool {
    same_stretch(a.later, b.later) && same_stretch(a.earlier, b.earlier)
}

/// Whether a pair of regions is among some links already.
pub open spec fn pair_known(kept: Seq<SimilarLink>, link: SimilarLink) -> bool {
    exists|i: int| 0 <= i < kept.len() && same_pair(link, #[trigger] kept[i])
}

/// The first `n` links in an order, no pair of regions twice, and no more than
/// `most`.
pub open spec fn best_links(links: Seq<SimilarLink>, order: Seq<usize>, most: int, n: nat) -> Seq<SimilarLink>
    decreases n,
{
    if n == 0 {
        seq![]
    } else {
        let before = best_links(links, order, most, (n - 1) as nat);
        let link = links[order[n - 1] as int];
        if before.len() < most && !pair_known(before, link) {
            before.push(link)
        } else {
            before
        }
    }
}

/// The links kept of those found: the best-scoring, no pair of regions twice.
pub open spec fn kept_links(links: Seq<SimilarLink>, most: int) -> Seq<SimilarLink> {
    best_links(links, in_order(score_keys(links)), most, links.len())
}

/// The links of a feature matrix, without their confidences.
pub open spec fn found_links(matrix: BeatMatrix, kernel: Seq<Binary64>, options: JumpCueOptions) -> Seq<SimilarLink> {
    let features = matrix.features();
    let step = matrix.step as int;
    let profile = profile_of(compared(features, kernel, options.diag_band as int));
    let min_overlap = columns_for(options.min_duration_sec, product(matrix.avg_beat_sec, of_int(step)));
    let lags = picked(profile, step, min_overlap, options);
    let floor = baseline(features, matrix.span as int);
    kept_links(links_at(matrix, lags, min_overlap, floor, options, lags.len()), options.max_pairs as int)
}

/// The links kept of those found: the best-scoring, no pair of regions twice.
///
/// A repeat and its double describe the same pair of regions; the better one
/// stays, so the two do not become two cues on one spot.
pub fn keep_best(links: &Vec<SimilarLink>, max_pairs: usize) -> (r: Vec<SimilarLink>)
    ensures
        r@ == kept_links(links@, max_pairs as int),
{
    let mut keys: Vec<i128> = Vec::new();
    let mut i: usize = 0;
    while i < links.len()
        invariant
            i <= links@.len(),
            keys@ == score_keys(links@).take(i as int),
        decreases links@.len() - i,
    {
        keys.push(-links[i].score.rank_key());
        i = i + 1;
        assert(keys@ =~= score_keys(links@).take(i as int));
    }
    assert(keys@ =~= score_keys(links@));
    let order: Vec<usize> = stable_order(&keys);
    let mut kept: Vec<SimilarLink> = Vec::new();
    let mut k: usize = 0;
    while k < order.len()
        invariant
            k <= order@.len(),
            visits_each_once(order@, links@.len()),
            kept@ == best_links(links@, order@, max_pairs as int, k as nat),
        decreases order@.len() - k,
    {
        let link: SimilarLink = links[order[k]];
        let mut known: bool = false;
        let mut j: usize = 0;
        while j < kept.len()
            invariant
                j <= kept@.len(),
                known == exists|m: int| 0 <= m < j && same_pair(link, #[trigger] kept@[m]),
            decreases kept@.len() - j,
        {
            let other: SimilarLink = kept[j];
            if link.later.is_same_as(&other.later) && link.earlier.is_same_as(&other.earlier) {
                assert(same_pair(link, kept@[j as int]));
                known = true;
            }
            j = j + 1;
        }
        if kept.len() < max_pairs && !known {
            kept.push(link);
        }
        k = k + 1;
    }
    kept
}

/// The links at some lags, in their order.
fn follow_lags(
    matrix: &BeatMatrix,
    lags: &Vec<usize>,
    min_overlap: usize,
    floor: Binary64,
    options: &JumpCueOptions,
) -> (r: Vec<SimilarLink>)
    requires
        matrix.columns@.len() * matrix.step + matrix.span <= usize::MAX,
    ensures
        r@ == links_at(*matrix, lags@, min_overlap as nat, floor, *options, lags@.len()),
{
    let mut links: Vec<SimilarLink> = Vec::new();
    let mut i: usize = 0;
    while i < lags.len()
        invariant
            i <= lags@.len(),
            matrix.columns@.len() * matrix.step + matrix.span <= usize::MAX,
            links@ == links_at(*matrix, lags@, min_overlap as nat, floor, *options, i as nat),
        decreases lags@.len() - i,
    {
        if let Some(link) = link_at_lag(matrix, lags[i], min_overlap, floor, options) {
            links.push(link);
        }
        i = i + 1;
    }
    links
}

/// The links of a feature matrix, best-scoring first, without their
/// confidences. `kernel` smooths the similarity matrix; an empty one does not.
#[verifier::spinoff_prover]
pub fn find_links(matrix: &BeatMatrix, kernel: &[Binary64], options: &JumpCueOptions) -> (r: Vec<SimilarLink>)
    requires
        2 * matrix.columns@.len() + 5 <= usize::MAX,
        matrix.columns@.len() + kernel@.len() <= usize::MAX,
        matrix.columns@.len() * matrix.step + matrix.span <= usize::MAX,
    ensures
        r@ == found_links(*matrix, kernel@, *options),
{
    let ssm: Ssm = self_similarity(matrix, kernel, options.diag_band);
    let profile: Vec<Binary64> = lag_profile(&ssm);
    let min_overlap: usize = matrix.columns_spanning(options.min_duration_sec);
    let lags: Vec<usize> = pick_peaks(profile.as_slice(), matrix, min_overlap, options);
    let floor: Binary64 = baseline_similarity(matrix);
    let links: Vec<SimilarLink> = follow_lags(matrix, &lags, min_overlap, floor, options);
    keep_best(&links, options.max_pairs)
}

/// The exponents of the softmax weights of some scores.
pub open spec fn softmax_powers(scores: Seq<Binary64>, temperature: Binary64) -> Seq<Binary64> {
    let heat = larger(temperature, micro());
    let top = larger(highest(scores), zero());
    scores.map_values(|score: Binary64| quotient(difference(larger(score, zero()), top), heat))
}

/// The exponents of the softmax weights of some scores.
pub fn softmax_exponents(scores: &[Binary64], temperature: Binary64) -> (r: Vec<Binary64>)
    ensures
        r@ == softmax_powers(scores@, temperature),
{
    let heat: Binary64 = temperature.max(micro());
    let best: Binary64 = highest_of(scores);
    let top: Binary64 = best.max(zero());
    let ghost want = softmax_powers(scores@, temperature);
    let mut out: Vec<Binary64> = Vec::new();
    let mut k: usize = 0;
    while k < scores.len()
        invariant
            k <= scores@.len(),
            heat == larger(temperature, micro()),
            top == larger(highest(scores@), zero()),
            want == softmax_powers(scores@, temperature),
            out@ == want.take(k as int),
        decreases scores@.len() - k,
    {
        out.push(scores[k].max(zero()).minus(top).over(heat));
        k = k + 1;
        assert(out@ =~= want.take(k as int));
    }
    assert(out@ =~= want);
    out
}

/// Weights as shares of their sum, equal shares where they sum to nothing.
pub open spec fn confidences_of(weights: Seq<Binary64>) -> Seq<Binary64> {
    let whole = total(weights);
    weights.map_values(
        |w: Binary64|
            if whole.spec_le(zero()) {
                quotient(one(), of_int(weights.len() as int))
            } else {
                quotient(w, whole)
            },
    )
}

/// Turns softmax weights into a distribution over the links that were emitted.
pub fn softmax_confidence(weights: &[Binary64]) -> (r: Vec<Binary64>)
    ensures
        r@ == confidences_of(weights@),
{
    let whole: Binary64 = total_of(weights);
    let ghost want = confidences_of(weights@);
    let mut out: Vec<Binary64> = Vec::new();
    let mut i: usize = 0;
    while i < weights.len()
        invariant
            i <= weights@.len(),
            whole == total(weights@),
            want == confidences_of(weights@),
            out@ == want.take(i as int),
        decreases weights@.len() - i,
    {
        if whole.le(zero()) {
            out.push(one().over(Binary64::from_u64(weights.len() as u64)));
        } else {
            out.push(weights[i].over(whole));
        }
        i = i + 1;
        assert(out@ =~= want.take(i as int));
    }
    assert(out@ =~= want);
    out
}

/// Links with their confidences.
pub open spec fn with_confidences(links: Seq<SimilarLink>, weights: Seq<Binary64>) -> Seq<SimilarLink> {
    Seq::new(links.len(), |i: int| SimilarLink { confidence: confidences_of(weights)[i], ..links[i] })
}

/// Links with their confidences, from one softmax weight each.
pub fn weigh_links(links: &Vec<SimilarLink>, weights: &[Binary64]) -> (r: Vec<SimilarLink>)
    requires
        weights@.len() == links@.len(),
    ensures
        r@ == with_confidences(links@, weights@),
{
    let confidences: Vec<Binary64> = softmax_confidence(weights);
    let ghost want = with_confidences(links@, weights@);
    let mut out: Vec<SimilarLink> = Vec::new();
    let mut i: usize = 0;
    while i < links.len()
        invariant
            i <= links@.len(),
            confidences@ == confidences_of(weights@),
            weights@.len() == links@.len(),
            want == with_confidences(links@, weights@),
            out@ == want.take(i as int),
        decreases links@.len() - i,
    {
        let link: SimilarLink = links[i];
        out.push(SimilarLink { confidence: confidences[i], ..link });
        i = i + 1;
        assert(out@ =~= want.take(i as int));
    }
    assert(out@ =~= want);
    out
}

/// No more links are kept than asked for, and no two describe the same pair of
/// regions.
pub proof fn law_kept_links_differ(links: Seq<SimilarLink>, order: Seq<usize>, most: int, n: nat)
    requires
        most >= 0,
        n <= order.len(),
    ensures
        best_links(links, order, most, n).len() <= most,
        forall|i: int, j: int|
            0 <= i < j < best_links(links, order, most, n).len() ==> !same_pair(
                #[trigger] best_links(links, order, most, n)[j],
                #[trigger] best_links(links, order, most, n)[i],
            ),
    decreases n,
{
    if n > 0 {
        law_kept_links_differ(links, order, most, (n - 1) as nat);
        let before = best_links(links, order, most, (n - 1) as nat);
        let now = best_links(links, order, most, n);
        assert forall|i: int, j: int| 0 <= i < j < now.len() implies !same_pair(#[trigger] now[j], #[trigger] now[i]) by {
            assert(now[i] == before[i]);
            if j < before.len() {
                assert(now[j] == before[j]);
            }
        }
    }
}

/// Whether times never go back.
pub open spec fn never_back(times: Seq<Binary64>) -> bool {
    forall|i: int, j: int| 0 <= i <= j < times.len() ==> (#[trigger] times[i]).spec_le(#[trigger] times[j])
}

/// Whether the jump point of a region lies inside it.
pub open spec fn point_inside(region: Region) -> bool {
    region.start.spec_le(region.point) && region.point.spec_le(region.end)
}

proof fn lemma_last_highest(values: Seq<Binary64>, n: int)
    ensures
        0 <= last_highest(values, n),
        n >= 1 ==> last_highest(values, n) < n,
    decreases n,
{
    if n > 1 {
        lemma_last_highest(values, n - 1);
    }
}

proof fn lemma_point_inside(beats: Seq<Binary64>, step: int, span: int, first: int, len: int, jump: int, size: int)
    requires
        never_back(beats),
        0 <= step,
        0 <= span,
        0 <= first <= jump < first + len <= size,
        (size - 1) * step + span < beats.len(),
    ensures
        point_inside(region_of(beats, step, span, first, len, jump)),
{
    assert(0 <= first * step <= jump * step <= (first + len - 1) * step <= (size - 1) * step) by (nonlinear_arith)
        requires
            0 <= step,
            0 <= first <= jump < first + len <= size,
    ;
    assert(beats[first * step].spec_le(beats[jump * step]));
    assert(beats[jump * step].spec_le(beats[(first + len - 1) * step + span]));
}

/// On beats that never go back, the jump point of each region of a link lies
/// inside that region.
pub proof fn law_jump_points_lie_inside(
    matrix: BeatMatrix,
    lag: int,
    min_overlap: nat,
    floor: Binary64,
    options: JumpCueOptions,
)
    requires
        never_back(matrix.beats@),
        matrix.beats@.len() >= 2,
        (matrix.columns@.len() - 1) * matrix.step + matrix.span < matrix.beats@.len(),
        0 <= lag,
        link_of(matrix, lag, min_overlap, floor, options) is Some,
    ensures
        point_inside(link_of(matrix, lag, min_overlap, floor, options)->0.earlier),
        point_inside(link_of(matrix, lag, min_overlap, floor, options)->0.later),
{
    let features = matrix.features();
    let size = features.len() as int;
    let curve = smoothed_curve(lag_curve(features, lag));
    let from_value = alike_from(options, floor);
    law_the_longest_run_is_taken(curve, from_value, curve.len() as int, 0, 0);
    let (start, len) = longest(curve, from_value, curve.len() as int);
    let run = curve.subrange(start, start + len);
    lemma_last_highest(run, len);
    let at = start + last_highest(run, len);
    lemma_point_inside(matrix.beats@, matrix.step as int, matrix.span as int, start, len, at, size);
    lemma_point_inside(matrix.beats@, matrix.step as int, matrix.span as int, start + lag, len, at + lag, size);
}

proof fn lemma_last_highest_is_best(values: Seq<Binary64>, n: int, i: int)
    requires
        0 <= i < n <= values.len(),
        forall|k: int| 0 <= k < n ==> !(#[trigger] values[k]).nan(),
    ensures
        values[i].spec_le(values[last_highest(values, n)]),
    decreases n,
{
    lemma_last_highest(values, n);
    assert(!values[n - 1].nan());
    if n > 1 {
        lemma_last_highest(values, n - 1);
        lemma_last_highest_is_best(
            values,
            n - 1,
            if i < n - 1 {
                i
            } else {
                0
            },
        );
        assert(!values[last_highest(values, n - 1)].nan());
    }
}

/// A link at a lag is two regions as long as each other, the lag apart: from
/// column `first` to column `first + len`, all positions of which are alike
/// enough, and no longer run of such positions is there. It jumps where the two
/// are most alike, and its score is the mean over the run.
pub proof fn law_a_link_is_the_longest_alike_run(
    matrix: BeatMatrix,
    lag: int,
    min_overlap: nat,
    floor: Binary64,
    options: JumpCueOptions,
) -> (r: (int, int, int))
    requires
        0 <= lag,
        link_of(matrix, lag, min_overlap, floor, options) is Some,
    ensures
        ({
            let (first, len, jump) = r;
            let link = link_of(matrix, lag, min_overlap, floor, options)->0;
            let curve = smoothed_curve(lag_curve(matrix.features(), lag));
            let threshold = alike_from(options, floor);
            let step = matrix.step as int;
            let span = matrix.span as int;
            let beats = matrix.beats@;
            &&& 0 < lag < matrix.features().len()
            &&& 0 <= first <= jump < first + len <= matrix.features().len() - lag
            &&& len >= 1 && len >= min_overlap
            &&& forall|i: int| first <= i < first + len ==> threshold.spec_le(#[trigger] curve[i])
            &&& forall|start: int, other: int| #[trigger] is_run(curve, threshold, start, other) ==> other <= len
            &&& forall|i: int| first <= i < first + len ==> (#[trigger] curve[i]).spec_le(curve[jump])
            &&& link.earlier.start == time_of_beat(beats, first * step)
            &&& link.earlier.end == time_of_beat(beats, (first + len - 1) * step + span)
            &&& link.earlier.point == time_of_beat(beats, jump * step)
            &&& link.later.start == time_of_beat(beats, (first + lag) * step)
            &&& link.later.end == time_of_beat(beats, (first + lag + len - 1) * step + span)
            &&& link.later.point == time_of_beat(beats, (jump + lag) * step)
            &&& link.score == quotient(total(curve.subrange(first, first + len)), of_int(len))
            &&& link.lag_beats == of_int(lag * step)
            &&& link.lag_sec == difference(link.later.point, link.earlier.point)
            &&& !length(link.earlier).spec_lt(options.min_duration_sec)
            &&& !length(link.later).spec_lt(options.min_duration_sec)
            &&& !same_stretch(link.later, link.earlier)
        }),
{
    let curve = smoothed_curve(lag_curve(matrix.features(), lag));
    let threshold = alike_from(options, floor);
    law_the_longest_run_is_taken(curve, threshold, curve.len() as int, 0, 0);
    let (first, len) = longest(curve, threshold, curve.len() as int);
    let run = curve.subrange(first, first + len);
    lemma_last_highest(run, len);
    let jump = first + last_highest(run, len);
    assert forall|k: int| 0 <= k < len implies !(#[trigger] run[k]).nan() by {
        assert(threshold.spec_le(curve[first + k]));
    }
    assert forall|i: int| first <= i < first + len implies (#[trigger] curve[i]).spec_le(curve[jump]) by {
        lemma_last_highest_is_best(run, len, i - first);
        assert(run[i - first] == curve[i] && run[jump - first] == curve[jump]);
    }
    assert forall|start: int, other: int| #[trigger] is_run(curve, threshold, start, other) implies other <= len by {
        law_the_longest_run_is_taken(curve, threshold, curve.len() as int, start, other);
    }
    (first, len, jump)
}

/// Every lag that stands out is a candidate: far enough from both ends, a peak
/// of the profile, and as prominent as asked for.
pub proof fn law_each_peak_is_a_candidate(
    profile: Seq<Binary64>,
    step: int,
    min_overlap: nat,
    options: JumpCueOptions,
    n: int,
    lag: int,
)
    requires
        1 <= lag < n <= usize::MAX,
        !of_int(lag * step).spec_lt(options.margin_beats),
        !difference(of_int((profile.len() - 1) * step), options.margin_beats).spec_lt(of_int(lag * step)),
        profile.len() - lag >= 2 && profile.len() - lag >= min_overlap,
        profile[lag - 1].spec_lt(profile[lag]),
        profile[lag + 1].spec_le(profile[lag]),
        options.peak_prominence.spec_le(prominence_at(profile, lag)),
    ensures
        candidates(profile, step, min_overlap, options, n).contains(lag as usize),
    decreases n,
{
    let now = candidates(profile, step, min_overlap, options, n);
    let before = candidates(profile, step, min_overlap, options, n - 1);
    if lag == n - 1 {
        assert(now[before.len() as int] == lag as usize);
    } else {
        law_each_peak_is_a_candidate(profile, step, min_overlap, options, n - 1, lag);
        assert(now[before.index_of(lag as usize)] == lag as usize);
    }
}

/// A candidate is a peak of the profile, far enough from both ends and as
/// prominent as asked for.
pub proof fn law_candidates_are_peaks(
    profile: Seq<Binary64>,
    step: int,
    min_overlap: nat,
    options: JumpCueOptions,
    lag: int,
)
    requires
        is_candidate(profile, step, min_overlap, options, lag),
    ensures
        profile[lag - 1].spec_lt(profile[lag]),
        profile[lag + 1].spec_le(profile[lag]),
        options.peak_prominence.spec_le(prominence_at(profile, lag)),
        !of_int(lag * step).spec_lt(options.margin_beats),
        !difference(of_int((profile.len() - 1) * step), options.margin_beats).spec_lt(of_int(lag * step)),
        profile.len() - lag >= 2 && profile.len() - lag >= min_overlap,
{
}

/// What is left out of the first `n` in an order is left out for one before it
/// that is too near, or because there is no room.
proof fn lemma_lag_left_out(lags: Seq<usize>, order: Seq<usize>, separation: int, most: int, n: nat, k: int)
    requires
        0 <= k < n <= order.len(),
    ensures
        ({
            let all = spread(lags, order, separation, most, n);
            let lag = lags[order[k] as int];
            ||| all.contains(lag)
            ||| all.len() >= most
            ||| exists|j: int|
                0 <= j < k && all.contains(#[trigger] lags[order[j] as int]) && -separation < lag - lags[order[j] as int]
                    < separation
        }),
    decreases n,
{
    let m = (n - 1) as nat;
    let before = spread(lags, order, separation, most, m);
    let now = spread(lags, order, separation, most, n);
    let lag = lags[order[k] as int];
    assert forall|x: usize| before.contains(x) implies now.contains(x) by {
        assert(now[before.index_of(x)] == x);
    }
    if k < m {
        lemma_lag_left_out(lags, order, separation, most, m, k);
        if !before.contains(lag) && before.len() < most {
            let j = choose|j: int|
                0 <= j < k && before.contains(#[trigger] lags[order[j] as int]) && -separation < lag
                    - lags[order[j] as int] < separation;
            assert(now.contains(lags[order[j] as int]));
        }
    } else if before.len() < most {
        if keeps_apart(before, lag, separation) {
            assert(now[before.len() as int] == lag);
        } else {
            let i = choose|i: int|
                0 <= i < before.len() && !(lag - #[trigger] before[i] >= separation || before[i] - lag >= separation);
            let j = lemma_spread_comes_from(lags, order, separation, most, m, i);
            assert(before.contains(lags[order[j] as int]));
            assert(now.contains(lags[order[j] as int]));
        }
    }
}

proof fn lemma_spread_comes_from(lags: Seq<usize>, order: Seq<usize>, separation: int, most: int, n: nat, i: int) -> (j: int)
    requires
        n <= order.len(),
        0 <= i < spread(lags, order, separation, most, n).len(),
    ensures
        0 <= j < n,
        spread(lags, order, separation, most, n)[i] == lags[order[j] as int],
    decreases n,
{
    if i < spread(lags, order, separation, most, (n - 1) as nat).len() {
        lemma_spread_comes_from(lags, order, separation, most, (n - 1) as nat, i)
    } else {
        n - 1
    }
}

/// No candidate is dropped for a weaker one: each is picked, or one at least as
/// strong and too near is, or as many as asked for are picked.
pub proof fn law_only_weaker_lags_are_dropped(
    profile: Seq<Binary64>,
    step: int,
    min_overlap: nat,
    options: JumpCueOptions,
    c: int,
)
    requires
        3 <= profile.len() <= usize::MAX,
        0 <= c < candidates(profile, step, min_overlap, options, profile.len() - 1).len(),
    ensures
        ({
            let lag = candidates(profile, step, min_overlap, options, profile.len() - 1)[c];
            let out = picked(profile, step, min_overlap, options);
            ||| out.contains(lag)
            ||| out.len() == options.max_peaks
            ||| exists|i: int|
                0 <= i < out.len() && profile[lag as int].rank() <= profile[#[trigger] out[i] as int].rank() && (-1 < lag
                    - out[i] < 1 || -(profile.len() as int / 50) < lag - out[i] < profile.len() as int / 50)
        }),
{
    let size = profile.len() as int;
    let lags = candidates(profile, step, min_overlap, options, size - 1);
    lemma_candidates(profile, step, min_overlap, options, size - 1);
    let keys = strength_keys(profile, lags);
    let order = in_order(keys);
    law_order_is_stable(keys, keys.len());
    law_picked_lags_are_spread(profile, step, min_overlap, options);
    let separation = if size / 50 < 1 {
        1
    } else {
        size / 50
    };
    let out = picked(profile, step, min_overlap, options);
    assert(order.contains(c as usize));
    let k = order.index_of(c as usize);
    lemma_lag_left_out(lags, order, separation, options.max_peaks as int, lags.len(), k);
    let lag = lags[c];
    if !out.contains(lag) && out.len() < options.max_peaks {
        let j = choose|j: int|
            0 <= j < k && out.contains(#[trigger] lags[order[j] as int]) && -separation < lag - lags[order[j] as int]
                < separation;
        let i = out.index_of(lags[order[j] as int]);
        assert(keys[order[j] as int] <= keys[order[k] as int]);
        let x = profile[out[i] as int];
        let y = profile[lag as int];
        assert(-0x8000_0000_0000_0000 < x.rank() < 0x8000_0000_0000_0000);
        assert(-0x8000_0000_0000_0000 < y.rank() < 0x8000_0000_0000_0000);
        assert(y.rank() <= x.rank());
    }
}

proof fn lemma_link_left_out(links: Seq<SimilarLink>, order: Seq<usize>, most: int, n: nat, k: int)
    requires
        0 <= k < n <= order.len(),
    ensures
        ({
            let all = best_links(links, order, most, n);
            let link = links[order[k] as int];
            ||| all.contains(link)
            ||| all.len() >= most
            ||| exists|j: int|
                0 <= j < k && all.contains(#[trigger] links[order[j] as int]) && same_pair(link, links[order[j] as int])
        }),
    decreases n,
{
    let m = (n - 1) as nat;
    let before = best_links(links, order, most, m);
    let now = best_links(links, order, most, n);
    let link = links[order[k] as int];
    assert forall|x: SimilarLink| before.contains(x) implies now.contains(x) by {
        assert(now[before.index_of(x)] == x);
    }
    if k < m {
        lemma_link_left_out(links, order, most, m, k);
        if !before.contains(link) && before.len() < most {
            let j = choose|j: int|
                0 <= j < k && before.contains(#[trigger] links[order[j] as int]) && same_pair(
                    link,
                    links[order[j] as int],
                );
            assert(now.contains(links[order[j] as int]));
        }
    } else if before.len() < most {
        if pair_known(before, link) {
            let i = choose|i: int| 0 <= i < before.len() && same_pair(link, #[trigger] before[i]);
            let j = lemma_kept_link_comes_from(links, order, most, m, i);
            assert(before.contains(links[order[j] as int]));
            assert(now.contains(links[order[j] as int]));
        } else {
            assert(now[before.len() as int] == link);
        }
    }
}

proof fn lemma_kept_link_comes_from(links: Seq<SimilarLink>, order: Seq<usize>, most: int, n: nat, i: int) -> (j: int)
    requires
        n <= order.len(),
        0 <= i < best_links(links, order, most, n).len(),
    ensures
        i <= j < n,
        best_links(links, order, most, n)[i] == links[order[j] as int],
    decreases n,
{
    let before = best_links(links, order, most, (n - 1) as nat);
    lemma_kept_are_no_more(links, order, most, (n - 1) as nat);
    if i < before.len() {
        lemma_kept_link_comes_from(links, order, most, (n - 1) as nat, i)
    } else {
        n - 1
    }
}

proof fn lemma_kept_are_no_more(links: Seq<SimilarLink>, order: Seq<usize>, most: int, n: nat)
    ensures
        best_links(links, order, most, n).len() <= n,
    decreases n,
{
    if n > 0 {
        lemma_kept_are_no_more(links, order, most, (n - 1) as nat);
    }
}

proof fn lemma_kept_links_in_order(links: Seq<SimilarLink>, order: Seq<usize>, most: int, n: nat, i: int, j: int) -> (r: (
    int,
    int,
))
    requires
        n <= order.len(),
        0 <= i < j < best_links(links, order, most, n).len(),
    ensures
        0 <= r.0 < r.1 < n,
        best_links(links, order, most, n)[i] == links[order[r.0] as int],
        best_links(links, order, most, n)[j] == links[order[r.1] as int],
    decreases n,
{
    let before = best_links(links, order, most, (n - 1) as nat);
    if j < before.len() {
        lemma_kept_links_in_order(links, order, most, (n - 1) as nat, i, j)
    } else {
        (lemma_kept_link_comes_from(links, order, most, (n - 1) as nat, i), n - 1)
    }
}

/// The links that are kept are given ones, the best score first. No link is
/// dropped for a worse one: each is kept, or one with at least its score on the
/// same pair of regions is, or as many as asked for are kept.
pub proof fn law_the_best_links_are_kept(links: Seq<SimilarLink>, most: int)
    requires
        links.len() <= usize::MAX,
        most >= 0,
    ensures
        ({
            let out = kept_links(links, most);
            &&& forall|i: int| 0 <= i < out.len() ==> links.contains(#[trigger] out[i])
            &&& forall|i: int, j: int|
                0 <= i < j < out.len() ==> (#[trigger] out[j]).score.rank() <= (#[trigger] out[i]).score.rank()
            &&& forall|k: int|
                0 <= k < links.len() ==> {
                    ||| out.contains(#[trigger] links[k])
                    ||| out.len() == most
                    ||| exists|i: int|
                        0 <= i < out.len() && links[k].score.rank() <= out[i].score.rank() && same_stretch(
                            links[k].earlier,
                            (#[trigger] out[i]).earlier,
                        ) && same_stretch(links[k].later, out[i].later)
                }
        }),
{
    let keys = score_keys(links);
    law_order_is_stable(keys, keys.len());
    let order = in_order(keys);
    let out = kept_links(links, most);
    law_kept_links_differ(links, order, most, links.len());
    assert forall|a: int, b: int| 0 <= a < b < order.len() implies links[#[trigger] order[b] as int].score.rank()
        <= links[#[trigger] order[a] as int].score.rank() by {
        let x = links[order[a] as int].score;
        let y = links[order[b] as int].score;
        assert(keys[order[a] as int] <= keys[order[b] as int]);
        assert(-0x8000_0000_0000_0000 < x.rank() < 0x8000_0000_0000_0000);
        assert(-0x8000_0000_0000_0000 < y.rank() < 0x8000_0000_0000_0000);
    }
    assert forall|i: int| 0 <= i < out.len() implies links.contains(#[trigger] out[i]) by {
        let j = lemma_kept_link_comes_from(links, order, most, links.len(), i);
        assert(links[order[j] as int] == out[i]);
    }
    assert forall|i: int, j: int| 0 <= i < j < out.len() implies (#[trigger] out[j]).score.rank() <= (
    #[trigger] out[i]).score.rank() by {
        let (a, b) = lemma_kept_links_in_order(links, order, most, links.len(), i, j);
        assert(links[order[b] as int].score.rank() <= links[order[a] as int].score.rank());
    }
    assert forall|k: int| 0 <= k < links.len() implies ({
        ||| out.contains(#[trigger] links[k])
        ||| out.len() == most
        ||| exists|i: int|
            0 <= i < out.len() && links[k].score.rank() <= out[i].score.rank() && same_stretch(
                links[k].earlier,
                (#[trigger] out[i]).earlier,
            ) && same_stretch(links[k].later, out[i].later)
    }) by {
        assert(order.contains(k as usize));
        let p = order.index_of(k as usize);
        lemma_link_left_out(links, order, most, links.len(), p);
        if !out.contains(links[k]) && out.len() < most {
            let j = choose|j: int|
                0 <= j < p && out.contains(#[trigger] links[order[j] as int]) && same_pair(
                    links[k],
                    links[order[j] as int],
                );
            let i = out.index_of(links[order[j] as int]);
            assert(links[order[p] as int].score.rank() <= links[order[j] as int].score.rank());
            assert(same_stretch(links[k].earlier, out[i].earlier));
        }
    }
}

/// Weighing changes nothing of a link but its confidence, and a link with a
/// larger weight gets no less of it.
pub proof fn law_larger_weights_give_more_confidence(links: Seq<SimilarLink>, weights: Seq<Binary64>, i: int, j: int)
    requires
        0 <= i < links.len() && 0 <= j < links.len(),
        weights.len() == links.len(),
        weights[i].finite() && weights[j].finite() && total(weights).finite(),
        weights[i].spec_le(weights[j]),
    ensures
        ({
            let out = with_confidences(links, weights);
            &&& out.len() == links.len()
            &&& out[i].earlier == links[i].earlier && out[i].later == links[i].later && out[i].score == links[i].score
                && out[i].lag_beats == links[i].lag_beats && out[i].lag_sec == links[i].lag_sec
            &&& zero().spec_lt(total(weights)) ==> out[i].confidence.spec_le(out[j].confidence)
            &&& zero().spec_lt(total(weights)) ==> out[i].confidence == quotient(weights[i], total(weights))
        }),
{
    if zero().spec_lt(total(weights)) {
        law_division_keeps_the_order(weights[i], weights[j], total(weights));
    }
}

/// Each lag that describes a pair of regions gives its link, in the order of the
/// lags, and nothing else does.
#[verifier::spinoff_prover]
#[verifier::rlimit(60)]
pub proof fn law_each_lag_gives_its_link(
    matrix: BeatMatrix,
    lags: Seq<usize>,
    min_overlap: nat,
    floor: Binary64,
    options: JumpCueOptions,
    n: nat,
) -> (of: Seq<int>)
    requires
        n <= lags.len(),
    ensures
        of.len() == links_at(matrix, lags, min_overlap, floor, options, n).len(),
        forall|a: int, b: int| 0 <= a < b < of.len() ==> #[trigger] of[a] < #[trigger] of[b],
        forall|m: int|
            0 <= m < of.len() ==> 0 <= #[trigger] of[m] < n && link_of(
                matrix,
                lags[of[m]] as int,
                min_overlap,
                floor,
                options,
            ) == Some(links_at(matrix, lags, min_overlap, floor, options, n)[m]),
        forall|i: int|
            0 <= i < n && link_of(matrix, #[trigger] lags[i] as int, min_overlap, floor, options) is Some ==> of.contains(i),
    decreases n,
{
    if n == 0 {
        seq![]
    } else {
        let before = law_each_lag_gives_its_link(matrix, lags, min_overlap, floor, options, (n - 1) as nat);
        match link_of(matrix, lags[n - 1] as int, min_overlap, floor, options) {
            Some(_) => {
                let of = before.push(n - 1);
                assert forall|i: int|
                    0 <= i < n && link_of(matrix, #[trigger] lags[i] as int, min_overlap, floor, options) is Some implies of.contains(
                    i,
                ) by {
                    if i < n - 1 {
                        let m = choose|m: int| 0 <= m < before.len() && before[m] == i;
                        assert(of[m] == i);
                    } else {
                        assert(of[before.len() as int] == i);
                    }
                }
                of
            },
            None => before,
        }
    }
}

/// A smoothed curve is at each place the mean of that place and its neighbours,
/// of which an end has one.
pub proof fn law_smoothing_takes_the_neighbours(curve: Seq<Binary64>, i: int)
    requires
        curve.len() >= 3,
        0 < i < curve.len() - 1,
    ensures
        smoothed_curve(curve)[i] == quotient(total(seq![curve[i - 1], curve[i], curve[i + 1]]), of_int(3)),
        smoothed_curve(curve)[0] == quotient(total(seq![curve[0], curve[1]]), of_int(2)),
        smoothed_curve(curve).last() == quotient(total(seq![curve[curve.len() - 2], curve.last()]), of_int(2)),
{
    let n = curve.len() as int;
    assert(curve.subrange(i - 1, i + 2) =~= seq![curve[i - 1], curve[i], curve[i + 1]]);
    assert(curve.subrange(0, 2) =~= seq![curve[0], curve[1]]);
    assert(curve.subrange(n - 2, n) =~= seq![curve[n - 2], curve.last()]);
}

/// Two positions are never alike below the score that is asked for.
pub proof fn law_alike_is_as_asked(options: JumpCueOptions, floor: Binary64)
    requires
        !options.min_score.nan(),
    ensures
        options.min_score.spec_le(alike_from(options, floor)),
{
}

/// How alike unrelated parts are is measured on columns that lie more than the
/// separation apart.
pub proof fn law_samples_are_far_apart(features: Seq<Seq<Binary64>>, row: int, at: int, stride: int, separation: int, k: int) -> (c:
    int)
    requires
        0 <= at,
        0 <= k < row_samples(features, row, at, stride, separation).len(),
    ensures
        at <= c < features.len(),
        c > row + separation || c < row - separation,
        row_samples(features, row, at, stride, separation)[k] == dot(features[row], features[c]),
    decreases features.len() - at,
{
    let rest = row_samples(features, row, at + stride, stride, separation);
    if row - at > separation || at - row > separation {
        if k == 0 {
            at
        } else {
            assert(row_samples(features, row, at, stride, separation)[k] == rest[k - 1]);
            law_samples_are_far_apart(features, row, at + stride, stride, separation, k - 1)
        }
    } else {
        law_samples_are_far_apart(features, row, at + stride, stride, separation, k)
    }
}

} // verus!
