//! Collapsing frame-rate features onto the beat grid.

use crate::detect::error::PhraseError;
use crate::detect::matrix::Mat;
use crate::number::binary64::{difference, half, larger, of_int, one, product, quotient, smaller, sum, zero, Binary64};
use crate::number::lists::{
    average, even_rows, gaps, gaps_of, mean, median, middle, rows_of, slice_to_vec, total, total_of,
};
use vstd::prelude::*;
use vstd::slice::slice_subrange;

verus! {

/// Onset-profile resolution inside a beat.
pub const BEAT_SUBDIVISIONS: usize = 8;

/// What keeps a profile from being divided by nothing: 1e-10.
#[verifier::allow_in_spec]
pub fn least_power() -> Binary64
    returns
        (Binary64 { bits: 0x3DDB_7CDF_D9D7_BDBB }),
{
    Binary64 { bits: 0x3DDB_7CDF_D9D7_BDBB }
}

/// How frame-rate values are collapsed onto a beat.
#[derive(Debug, Clone, Copy, PartialEq, Eq, Structural)]
pub enum Reducer {
    Mean,
    Median,
    Sum,
}

/// Values collapsed into one.
pub open spec fn reduced_to(values: Seq<Binary64>, reducer: Reducer) -> Binary64 {
    match reducer {
        Reducer::Mean => average(values),
        Reducer::Median => middle(values),
        Reducer::Sum => total(values),
    }
}

/// The first place from `from` on whose value is not below `target`.
pub open spec fn first_reaching(values: Seq<Binary64>, target: Binary64, from: int) -> int
    decreases values.len() - from,
{
    if from < 0 || from >= values.len() {
        values.len() as int
    } else if values[from].spec_lt(target) {
        first_reaching(values, target, from + 1)
    } else {
        from
    }
}

/// First index whose value is at least `target`.
pub fn search_sorted(sorted: &[Binary64], target: Binary64) -> (r: usize)
    ensures
        r == first_reaching(sorted@, target, 0),
        r <= sorted@.len(),
{
    let mut i: usize = 0;
    while i < sorted.len() && sorted[i].lt(target)
        invariant
            i <= sorted@.len(),
            first_reaching(sorted@, target, 0) == first_reaching(sorted@, target, i as int),
        decreases sorted@.len() - i,
    {
        i = i + 1;
    }
    i
}

/// The first frame at or past the middle of an interval; the last where there
/// is none.
pub open spec fn frame_past_middle(times: Seq<Binary64>, from: Binary64, to: Binary64) -> int {
    let at = first_reaching(times, product(half(), sum(from, to)), 0);
    if times.len() == 0 {
        0
    } else if at < times.len() {
        at
    } else {
        times.len() - 1
    }
}

/// The frame nearest to the middle of an interval, the later of two that are
/// equally near.
pub open spec fn frame_in_middle(times: Seq<Binary64>, from: Binary64, to: Binary64) -> int {
    let centre = product(half(), sum(from, to));
    let at = frame_past_middle(times, from, to);
    if at > 0 && difference(centre, times[at - 1]).spec_lt(difference(times[at], centre)) {
        at - 1
    } else {
        at
    }
}

/// The frames of an interval. One too short to hold a frame takes the single
/// frame nearest its middle.
pub open spec fn frames_between(times: Seq<Binary64>, from: Binary64, to: Binary64) -> (int, int) {
    let lo = first_reaching(times, from, 0);
    let hi = first_reaching(times, to, 0);
    if hi <= lo {
        let near = frame_in_middle(times, from, to);
        (
            near,
            if near < times.len() {
                near + 1
            } else {
                near
            },
        )
    } else {
        (lo, hi)
    }
}

/// The first frame at or past the middle of an interval.
fn frame_behind(times: &[Binary64], from: Binary64, to: Binary64) -> (r: usize)
    ensures
        r == frame_past_middle(times@, from, to),
        times@.len() > 0 ==> r < times@.len(),
        times@.len() == 0 ==> r == 0,
{
    let at: usize = search_sorted(times, half().times(from.plus(to)));
    if times.len() == 0 {
        0
    } else if at < times.len() {
        at
    } else {
        times.len() - 1
    }
}

/// The frame nearest to the middle of an interval.
fn middle_frame(times: &[Binary64], from: Binary64, to: Binary64) -> (r: usize)
    ensures
        r == frame_in_middle(times@, from, to),
        times@.len() > 0 ==> r < times@.len(),
{
    let centre: Binary64 = half().times(from.plus(to));
    let at: usize = frame_behind(times, from, to);
    if at > 0 && centre.minus(times[at - 1]).lt(times[at].minus(centre)) {
        at - 1
    } else {
        at
    }
}

/// The frames of an interval.
fn interval_frames(times: &[Binary64], from: Binary64, to: Binary64) -> (r: (usize, usize))
    ensures
        (r.0 as int, r.1 as int) == frames_between(times@, from, to),
        r.0 <= r.1 <= times@.len(),
{
    let lo: usize = search_sorted(times, from);
    let hi: usize = search_sorted(times, to);
    if hi <= lo {
        let near: usize = middle_frame(times, from, to);
        if near < times.len() {
            (near, near + 1)
        } else {
            (near, near)
        }
    } else {
        (lo, hi)
    }
}

/// One row of frame-rate values collapsed onto the intervals between edges.
pub open spec fn synced_row(row: Seq<Binary64>, times: Seq<Binary64>, edges: Seq<Binary64>, reducer: Reducer) -> Seq<Binary64> {
    Seq::new(
        (edges.len() - 1) as nat,
        |i: int|
            {
                let span = frames_between(times, edges[i], edges[i + 1]);
                reduced_to(row.subrange(span.0, span.1), reducer)
            },
    )
}

/// Rows of frame-rate values collapsed onto the intervals between edges.
pub open spec fn synced(
    rows: Seq<Seq<Binary64>>,
    times: Seq<Binary64>,
    edges: Seq<Binary64>,
    reducer: Reducer,
) -> Seq<Seq<Binary64>> {
    rows.map_values(|row: Seq<Binary64>| synced_row(row, times, edges, reducer))
}

/// Values collapsed into one.
fn reduce(values: &[Binary64], reducer: Reducer) -> (r: Binary64)
    ensures
        r == reduced_to(values@, reducer),
{
    match reducer {
        Reducer::Mean => mean(values),
        Reducer::Median => median(values),
        Reducer::Sum => total_of(values),
    }
}

/// A single row of frame-rate values collapsed onto beat intervals.
pub fn sync_scalar(values: &[Binary64], frame_times: &[Binary64], edges: &[Binary64], reducer: Reducer) -> (r: Vec<Binary64>)
    requires
        edges@.len() > 0,
        values@.len() == frame_times@.len(),
    ensures
        r@ == synced_row(values@, frame_times@, edges@, reducer),
{
    let ghost want = synced_row(values@, frame_times@, edges@, reducer);
    let mut out: Vec<Binary64> = Vec::new();
    let mut i: usize = 0;
    while i < edges.len() - 1
        invariant
            edges@.len() > 0,
            i <= edges@.len() - 1,
            values@.len() == frame_times@.len(),
            want == synced_row(values@, frame_times@, edges@, reducer),
            out@ == want.take(i as int),
        decreases edges@.len() - i,
    {
        let (from, to) = interval_frames(frame_times, edges[i], edges[i + 1]);
        out.push(reduce(slice_subrange(values, from, to), reducer));
        i = i + 1;
        assert(out@ =~= want.take(i as int));
    }
    assert(out@ =~= want);
    out
}

/// Collapses frame-rate rows onto beat intervals.
///
/// A beat shorter than one hop can contain no frames at all; rather than a
/// zero, it gets the single frame nearest its middle.
pub fn sync_to_intervals(values: &Mat, frame_times: &[Binary64], edges: &[Binary64], reducer: Reducer) -> (r: Mat)
    requires
        values.wf(),
        edges@.len() > 0,
        values.width() == frame_times@.len(),
        values.height() * (edges@.len() - 1) <= usize::MAX,
    ensures
        r.wf(),
        r.height() == values.height(),
        r.width() == edges@.len() - 1,
        r.grid() == synced(values.grid(), frame_times@, edges@, reducer),
{
    let ghost want = synced(values.grid(), frame_times@, edges@, reducer);
    let cols: usize = edges.len() - 1;
    let mut rows: Vec<Vec<Binary64>> = Vec::new();
    let mut k: usize = 0;
    assert(rows_of(rows@) =~= want.take(0));
    while k < values.rows()
        invariant
            k <= values.height(),
            values.wf(),
            edges@.len() > 0,
            cols == edges@.len() - 1,
            values.width() == frame_times@.len(),
            want == synced(values.grid(), frame_times@, edges@, reducer),
            rows@.len() == k,
            rows_of(rows@) == want.take(k as int),
            even_rows(rows_of(rows@), cols as nat),
        decreases values.height() - k,
    {
        let row: Vec<Binary64> = sync_scalar(values.row(k), frame_times, edges, reducer);
        let ghost before = rows@;
        rows.push(row);
        assert(rows_of(rows@) =~= rows_of(before).push(row@));
        k = k + 1;
        assert(rows_of(rows@) =~= want.take(k as int));
    }
    assert(rows_of(rows@) =~= want);
    Mat::of_rows(rows, cols)
}

/// The edge of a slot inside a beat.
pub open spec fn slot_edge(start: Binary64, end: Binary64, k: int) -> Binary64 {
    sum(start, quotient(product(difference(end, start), of_int(k)), of_int(8)))
}

/// The onset energy in a slot. One too short to hold a frame takes the first
/// frame at or past its middle.
pub open spec fn slot_energy(envelope: Seq<Binary64>, times: Seq<Binary64>, from: Binary64, to: Binary64) -> Binary64 {
    let lo = first_reaching(times, from, 0);
    let hi = first_reaching(times, to, 0);
    if hi > lo {
        total(envelope.subrange(lo, hi))
    } else if envelope.len() > 0 {
        envelope[frame_past_middle(times, from, to)]
    } else {
        zero()
    }
}

/// The onset energy in each slot of a beat.
pub open spec fn slot_energies(envelope: Seq<Binary64>, times: Seq<Binary64>, start: Binary64, end: Binary64) -> Seq<Binary64> {
    Seq::new(8, |k: int| slot_energy(envelope, times, slot_edge(start, end, k), slot_edge(start, end, k + 1)))
}

/// The onset energy in each slot of a beat, as shares of the beat.
pub open spec fn beat_profile(envelope: Seq<Binary64>, times: Seq<Binary64>, start: Binary64, end: Binary64) -> Seq<Binary64> {
    let energies = slot_energies(envelope, times, start, end);
    energies.map_values(|v: Binary64| quotient(v, sum(total(energies), least_power())))
}

/// The onset energy in each slot of a beat, as shares of the beat.
pub fn profile_beat(envelope: &[Binary64], frame_times: &[Binary64], start: Binary64, end: Binary64) -> (r: Vec<Binary64>)
    requires
        envelope@.len() == frame_times@.len(),
    ensures
        r@ == beat_profile(envelope@, frame_times@, start, end),
        r@.len() == 8,
{
    let ghost want = slot_energies(envelope@, frame_times@, start, end);
    let length: Binary64 = end.minus(start);
    let eight: Binary64 = Binary64::from_u64(8);
    let mut energies: Vec<Binary64> = Vec::new();
    let mut k: usize = 0;
    while k < BEAT_SUBDIVISIONS
        invariant
            k <= 8,
            envelope@.len() == frame_times@.len(),
            length == difference(end, start),
            eight == of_int(8),
            want == slot_energies(envelope@, frame_times@, start, end),
            energies@ == want.take(k as int),
        decreases 8 - k,
    {
        let from: Binary64 = start.plus(length.times(Binary64::from_u64(k as u64)).over(eight));
        let to: Binary64 = start.plus(length.times(Binary64::from_u64((k + 1) as u64)).over(eight));
        let lo: usize = search_sorted(frame_times, from);
        let hi: usize = search_sorted(frame_times, to);
        let value: Binary64 = if hi > lo {
            total_of(slice_subrange(envelope, lo, hi))
        } else if envelope.len() > 0 {
            envelope[frame_behind(frame_times, from, to)]
        } else {
            zero()
        };
        energies.push(value);
        k = k + 1;
        assert(energies@ =~= want.take(k as int));
    }
    assert(energies@ =~= want);
    let whole: Binary64 = total_of(energies.as_slice()).plus(least_power());
    let ghost goal = beat_profile(envelope@, frame_times@, start, end);
    let mut out: Vec<Binary64> = Vec::new();
    let mut i: usize = 0;
    while i < energies.len()
        invariant
            i <= energies@.len(),
            goal == energies@.map_values(|v: Binary64| quotient(v, whole)),
            out@ == goal.take(i as int),
        decreases energies@.len() - i,
    {
        out.push(energies[i].over(whole));
        i = i + 1;
        assert(out@ =~= goal.take(i as int));
    }
    assert(out@ =~= goal);
    out
}

/// The profiles of an envelope, one row per slot, one column per beat.
pub open spec fn profile_rows(envelope: Seq<Binary64>, times: Seq<Binary64>, edges: Seq<Binary64>) -> Seq<Seq<Binary64>> {
    Seq::new(
        8,
        |slot: int|
            Seq::new(
                (edges.len() - 1) as nat,
                |beat: int| beat_profile(envelope, times, edges[beat], edges[beat + 1])[slot],
            ),
    )
}

/// The profiles of the first `n` envelopes, one behind the other.
pub open spec fn all_profiles(
    envelopes: Seq<Seq<Binary64>>,
    times: Seq<Binary64>,
    edges: Seq<Binary64>,
    n: nat,
) -> Seq<Seq<Binary64>>
    decreases n,
{
    if n == 0 {
        seq![]
    } else {
        all_profiles(envelopes, times, edges, (n - 1) as nat) + profile_rows(envelopes[n - 1], times, edges)
    }
}

/// The profiles of one envelope, one row per slot, one column per beat.
fn profile_envelope(envelope: &[Binary64], frame_times: &[Binary64], edges: &[Binary64]) -> (r: Vec<Vec<Binary64>>)
    requires
        edges@.len() > 0,
        envelope@.len() == frame_times@.len(),
    ensures
        rows_of(r@) == profile_rows(envelope@, frame_times@, edges@),
{
    let n: usize = edges.len() - 1;
    let ghost by_beat = Seq::new(
        n as nat,
        |beat: int| beat_profile(envelope@, frame_times@, edges@[beat], edges@[beat + 1]),
    );
    let mut beats: Vec<Vec<Binary64>> = Vec::new();
    let mut b: usize = 0;
    assert(rows_of(beats@) =~= by_beat.take(0));
    while b < n
        invariant
            b <= n == edges@.len() - 1,
            envelope@.len() == frame_times@.len(),
            by_beat == Seq::new(
                n as nat,
                |beat: int| beat_profile(envelope@, frame_times@, edges@[beat], edges@[beat + 1]),
            ),
            beats@.len() == b,
            rows_of(beats@) == by_beat.take(b as int),
            even_rows(rows_of(beats@), 8),
        decreases n - b,
    {
        let row: Vec<Binary64> = profile_beat(envelope, frame_times, edges[b], edges[b + 1]);
        let ghost before = beats@;
        beats.push(row);
        assert(rows_of(beats@) =~= rows_of(before).push(row@));
        b = b + 1;
        assert(rows_of(beats@) =~= by_beat.take(b as int));
    }
    assert(rows_of(beats@) =~= by_beat);
    let out: Vec<Vec<Binary64>> = crate::number::lists::turn_rows(&beats, 8);
    proof {
        let want = profile_rows(envelope@, frame_times@, edges@);
        let have = rows_of(out@);
        assert forall|slot: int| 0 <= slot < 8 implies #[trigger] have[slot] == want[slot] by {
            assert(have[slot] =~= want[slot]);
        }
        assert(have =~= want);
    }
    out
}

/// Onset energy distributed over eight slots inside each beat, per envelope.
///
/// Normalised within the beat, so this describes *where* the hits fall rather
/// than how loud they are.
pub fn subdivision_profiles(envelopes: &Vec<Vec<Binary64>>, frame_times: &[Binary64], edges: &[Binary64]) -> (r: Mat)
    requires
        edges@.len() > 0,
        forall|i: int| 0 <= i < envelopes@.len() ==> (#[trigger] envelopes@[i])@.len() == frame_times@.len(),
        8 * envelopes@.len() <= usize::MAX,
        (8 * envelopes@.len()) * (edges@.len() - 1) <= usize::MAX,
    ensures
        r.wf(),
        r.width() == edges@.len() - 1,
        r.grid() == all_profiles(rows_of(envelopes@), frame_times@, edges@, envelopes@.len()),
{
    let cols: usize = edges.len() - 1;
    let ghost all = rows_of(envelopes@);
    let mut rows: Vec<Vec<Binary64>> = Vec::new();
    let mut i: usize = 0;
    assert(rows_of(rows@) =~= all_profiles(all, frame_times@, edges@, 0));
    while i < envelopes.len()
        invariant
            i <= envelopes@.len(),
            edges@.len() > 0,
            cols == edges@.len() - 1,
            forall|k: int| 0 <= k < envelopes@.len() ==> (#[trigger] envelopes@[k])@.len() == frame_times@.len(),
            all == rows_of(envelopes@),
            rows@.len() == 8 * i,
            rows_of(rows@) == all_profiles(all, frame_times@, edges@, i as nat),
            even_rows(rows_of(rows@), cols as nat),
        decreases envelopes@.len() - i,
    {
        assert(all[i as int] == envelopes@[i as int]@);
        let mut more: Vec<Vec<Binary64>> = profile_envelope(envelopes[i].as_slice(), frame_times, edges);
        let ghost before = rows@;
        let ghost new = more@;
        assert(rows_of(new).len() == 8);
        rows.append(&mut more);
        assert(rows_of(rows@) =~= rows_of(before) + rows_of(new));
        i = i + 1;
    }
    Mat::of_rows(rows, cols)
}

/// The typical gap between beats.
pub open spec fn beat_gap(beats: Seq<Binary64>) -> Binary64 {
    middle(gaps(beats))
}

/// Why the audio of a track does not belong to its beats, if it does not.
pub open spec fn audio_fault(samples: nat, duration: Binary64, beats: Seq<Binary64>) -> Option<PhraseError> {
    let slack = larger(product(of_int(2), beat_gap(beats)), one());
    if samples == 0 {
        Some(PhraseError::EmptyAudio)
    } else if sum(duration, slack).spec_lt(beats.last()) {
        Some(PhraseError::GridPastAudio { beats_end: beats.last(), audio_end: duration })
    } else {
        None
    }
}

/// Checks that there is audio, and that the beats do not run past its end by
/// more than two beats or a second.
pub fn check_audio(samples: usize, sample_rate: u32, beats: &[Binary64]) -> (r: Result<Binary64, PhraseError>)
    requires
        beats@.len() > 0,
    ensures
        ({
            let duration = quotient(of_int(samples as int), of_int(sample_rate as int));
            match audio_fault(samples as nat, duration, beats@) {
                Some(fault) => r == Err::<Binary64, PhraseError>(fault),
                None => r == Ok::<Binary64, PhraseError>(duration),
            }
        }),
{
    if samples == 0 {
        return Err(PhraseError::EmptyAudio);
    }
    let duration: Binary64 = Binary64::from_u64(samples as u64).over(Binary64::from_u64(sample_rate as u64));
    let gap: Binary64 = median(gaps_of(beats).as_slice());
    let slack: Binary64 = Binary64::from_u64(2).times(gap).max(one());
    let last: Binary64 = beats[beats.len() - 1];
    if duration.plus(slack).lt(last) {
        return Err(PhraseError::GridPastAudio { beats_end: last, audio_end: duration });
    }
    Ok(duration)
}

/// The beat edges with the last one moved into the audio.
pub open spec fn edges_in_audio(edges: Seq<Binary64>, beats: Seq<Binary64>, duration: Binary64) -> Seq<Binary64> {
    let n = edges.len() as int;
    let moved = smaller(larger(edges[n - 1], beats.last()), duration);
    edges.update(
        n - 1,
        if moved.spec_le(edges[n - 2]) {
            sum(edges[n - 2], beat_gap(beats))
        } else {
            moved
        },
    )
}

/// The beat edges with the last one moved into the audio: a grid that runs a
/// beat past the file would otherwise sync the last beat against nothing.
pub fn clamp_edges(edges: &[Binary64], beats: &[Binary64], duration: Binary64) -> (r: Vec<Binary64>)
    requires
        edges@.len() >= 2,
        beats@.len() > 0,
    ensures
        r@ == edges_in_audio(edges@, beats@, duration),
{
    let n: usize = edges.len();
    let mut out: Vec<Binary64> = slice_to_vec(edges);
    let moved: Binary64 = edges[n - 1].max(beats[beats.len() - 1]).min(duration);
    let last: Binary64 = if moved.le(edges[n - 2]) {
        edges[n - 2].plus(median(gaps_of(beats).as_slice()))
    } else {
        moved
    };
    out.set(n - 1, last);
    out
}

/// A search finds the first value that is not below the target.
pub proof fn law_the_search_stops_at_the_target(values: Seq<Binary64>, target: Binary64, from: int)
    requires
        0 <= from <= values.len(),
    ensures
        from <= first_reaching(values, target, from) <= values.len(),
        forall|i: int| from <= i < first_reaching(values, target, from) ==> (#[trigger] values[i]).spec_lt(target),
        first_reaching(values, target, from) < values.len() ==> !values[first_reaching(values, target, from)].spec_lt(
            target,
        ),
    decreases values.len() - from,
{
    if from < values.len() && values[from].spec_lt(target) {
        law_the_search_stops_at_the_target(values, target, from + 1);
    }
}

/// The frames of an interval are those from its start up to its end, where it has
/// any, and one frame otherwise.
pub proof fn law_an_interval_takes_the_frames_inside(times: Seq<Binary64>, from: Binary64, to: Binary64, i: int)
    requires
        0 <= i < times.len(),
        forall|k: int| 0 <= k < times.len() ==> (#[trigger] times[k]).finite(),
        forall|j: int, k: int| 0 <= j < k < times.len() ==> #[trigger] times[j].spec_le(#[trigger] times[k]),
        from.finite() && to.finite(),
        from.spec_le(times[i]) && times[i].spec_lt(to),
    ensures
        frames_between(times, from, to).0 <= i < frames_between(times, from, to).1,
        forall|k: int|
            frames_between(times, from, to).0 <= k < frames_between(times, from, to).1 ==> from.spec_le(#[trigger] times[k])
                && times[k].spec_lt(to),
{
    law_the_search_stops_at_the_target(times, from, 0);
    law_the_search_stops_at_the_target(times, to, 0);
    let lo = first_reaching(times, from, 0);
    let hi = first_reaching(times, to, 0);
    assert(lo <= i) by {
        if i < lo {
            assert(times[i].spec_lt(from));
        }
    }
    assert(i < hi) by {
        if hi <= i {
            assert(!times[hi].spec_lt(to));
            if hi < i {
                assert(times[hi].spec_le(times[i]));
            }
        }
    }
    assert forall|k: int| lo <= k < hi implies from.spec_le(#[trigger] times[k]) && times[k].spec_lt(to) by {
        assert(times[lo].finite());
        assert(!times[lo].spec_lt(from));
        if lo < k {
            assert(times[lo].spec_le(times[k]));
        }
    }
}

/// What a beat hears depends on its own frames alone.
pub proof fn law_a_beat_is_reduced_from_its_frames(
    a: Seq<Binary64>,
    b: Seq<Binary64>,
    times: Seq<Binary64>,
    edges: Seq<Binary64>,
    reducer: Reducer,
    i: int,
)
    requires
        a.len() == b.len() == times.len(),
        0 <= i < edges.len() - 1,
        ({
            let span = frames_between(times, edges[i], edges[i + 1]);
            0 <= span.0 <= span.1 <= times.len() && forall|k: int| span.0 <= k < span.1 ==> #[trigger] a[k] == b[k]
        }),
    ensures
        synced_row(a, times, edges, reducer)[i] == synced_row(b, times, edges, reducer)[i],
{
    let span = frames_between(times, edges[i], edges[i + 1]);
    assert(a.subrange(span.0, span.1) =~= b.subrange(span.0, span.1));
}

/// Only the end of the last interval is moved into the audio.
pub proof fn law_only_the_last_edge_moves(edges: Seq<Binary64>, beats: Seq<Binary64>, duration: Binary64, i: int)
    requires
        edges.len() >= 2,
        0 <= i < edges.len() - 1,
    ensures
        edges_in_audio(edges, beats, duration).len() == edges.len(),
        edges_in_audio(edges, beats, duration)[i] == edges[i],
{
}

} // verus!
