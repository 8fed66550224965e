//! Phrase detection as a whole: which tracks are looked at, and how beats and
//! labels become phrases.

use crate::detect::error::PhraseError;
use crate::detect::grid::{build_predictor_grid, grid_fault, is_grid, meter_segments, PredictorGrid};
use crate::detect::matrix::Mat;
use crate::detect::model::{ModelSettings, PhraseModel};
use crate::domain::phrase::{section, sections, Phrase, Section};
use crate::domain::segments::TempoSegment;
use crate::number::binary64::{clamped, difference, larger, micro, one, product, sum, zero, Binary64};
use crate::number::lists::{even_rows, gaps, gaps_of, median, middle, rows_of};
use crate::text::trimmed;
use vstd::prelude::*;

verus! {

/// Fewer beats than this and there is not enough context to place a boundary.
///
/// The boundary features look 16 beats either side and the edge guard blanks
/// 8 beats at each end, so a shorter track has no beat that could be chosen.
pub const MIN_BEATS_FOR_DETECTION: usize = 17;

/// How to run the detector.
#[derive(Debug, Clone)]
pub struct PhraseOptions {
    /// The loaded weights. Everything else defaults from them.
    pub model: PhraseModel,
    /// Weight on the final segment's end-state prior.
    ///
    /// The prior rewards a trailing silence segment, which the boundary
    /// detector never emits: at full weight it relabels an ordinary fade-out
    /// as silence. At zero the last segment is labelled on its own evidence.
    pub end_state_weight: Binary64,
}

impl PhraseOptions {
    /// Options with the model's own settings and no end-state prior.
    pub fn new(model: PhraseModel) -> (r: Self)
        ensures
            r.model == model,
            r.end_state_weight == zero(),
    {
        PhraseOptions { model, end_state_weight: zero() }
    }

    /// Options that weigh the end state as every other transition.
    pub fn matching_python(model: PhraseModel) -> (r: Self)
        ensures
            r.model == model,
            r.end_state_weight == model.settings.transition_weight,
    {
        let weight: Binary64 = model.settings.transition_weight;
        PhraseOptions { model, end_state_weight: weight }
    }
}

/// Looks at a track before any feature is computed. Nothing comes back for a
/// track with too few beats: that is a short track, not a failure.
pub fn admit_track(
    sample_rate: u32,
    beats: &[Binary64],
    segments: &[TempoSegment],
    settings: &ModelSettings,
) -> (r: Result<Option<PredictorGrid>, PhraseError>)
    ensures
        sample_rate != settings.sample_rate ==> r == Err::<Option<PredictorGrid>, PhraseError>(
            PhraseError::SampleRateMismatch { found: sample_rate, expected: settings.sample_rate },
        ),
        sample_rate == settings.sample_rate ==> {
            &&& beats@.len() < MIN_BEATS_FOR_DETECTION ==> r == Ok::<Option<PredictorGrid>, PhraseError>(None)
            &&& beats@.len() >= MIN_BEATS_FOR_DETECTION ==> {
                &&& r is Ok <==> grid_fault(beats@, segments@) is None
                &&& r is Err ==> r->Err_0 == grid_fault(beats@, segments@)->0
                &&& r is Ok ==> r->Ok_0 is Some && is_grid(beats@, meter_segments(segments@), r->Ok_0->Some_0)
            }
        },
{
    if sample_rate != settings.sample_rate {
        return Err(PhraseError::SampleRateMismatch { found: sample_rate, expected: settings.sample_rate });
    }
    if beats.len() < MIN_BEATS_FOR_DETECTION {
        return Ok(None);
    }
    match build_predictor_grid(beats, segments) {
        Err(fault) => Err(fault),
        Ok(grid) => Ok(Some(grid)),
    }
}

/// What the beats sound like, a row per feature and a column per beat.
#[derive(Debug, Clone)]
pub struct AcousticFeatures {
    /// Mel bands, cepstral coefficients and spectral contrast.
    pub timbre: Mat,
    /// Chroma and tonal centroids.
    pub harmony: Mat,
    /// Within-beat onset profiles and the three onset sums.
    pub rhythm: Mat,
    /// Loudness, band balance, spectral shape and the vocal proxy.
    pub texture: Mat,
    pub audio_duration_sec: Binary64,
}

impl AcousticFeatures {
    /// Whether the four families describe the same beats.
    pub open spec fn wf(&self) -> bool {
        &&& self.timbre.wf()
        &&& self.harmony.wf()
        &&& self.rhythm.wf()
        &&& self.texture.wf()
        &&& self.harmony.width() == self.timbre.width()
        &&& self.rhythm.width() == self.timbre.width()
        &&& self.texture.width() == self.timbre.width()
    }

    /// All rows, in the order the models expect.
    pub open spec fn all_rows(&self) -> Seq<Seq<Binary64>> {
        self.timbre.grid() + self.harmony.grid() + self.rhythm.grid() + self.texture.grid()
    }

    /// All four families stacked, in the order the models expect.
    pub fn stacked(&self) -> (r: Mat)
        requires
            self.wf(),
            self.all_rows().len() * self.timbre.width() <= usize::MAX,
        ensures
            r.wf(),
            r.width() == self.timbre.width(),
            r.grid() == self.all_rows(),
    {
        let mut rows: Vec<Vec<Binary64>> = self.timbre.to_rows();
        let mut harmony: Vec<Vec<Binary64>> = self.harmony.to_rows();
        let mut rhythm: Vec<Vec<Binary64>> = self.rhythm.to_rows();
        let mut texture: Vec<Vec<Binary64>> = self.texture.to_rows();
        rows.append(&mut harmony);
        rows.append(&mut rhythm);
        rows.append(&mut texture);
        assert(rows_of(rows@) =~= self.all_rows());
        assert(rows@.len() == self.all_rows().len());
        assert(even_rows(rows_of(rows@), self.timbre.width()));
        Mat::of_rows(rows, self.timbre.cols())
    }
}

/// The probability of a boundary at a beat: kept off zero and one where a
/// boundary may stand, and zero elsewhere and at both ends.
pub open spec fn beat_probability(p: Seq<Binary64>, valid: Seq<bool>, i: int) -> Binary64 {
    if !valid[i] || i == 0 || i == p.len() - 1 {
        zero()
    } else {
        clamped(p[i], micro(), difference(one(), micro()))
    }
}

/// The boundary probabilities of all beats, given what the ensemble says of
/// each.
pub fn boundary_probability(p: &[Binary64], valid: &[bool]) -> (r: Vec<Binary64>)
    requires
        valid@.len() >= p@.len(),
    ensures
        r@ == Seq::new(p@.len(), |i: int| beat_probability(p@, valid@, i)),
{
    let ghost want = Seq::new(p@.len(), |i: int| beat_probability(p@, valid@, i));
    let high: Binary64 = one().minus(micro());
    let mut out: Vec<Binary64> = Vec::new();
    let mut i: usize = 0;
    while i < p.len()
        invariant
            i <= p@.len() <= valid@.len(),
            high == difference(one(), micro()),
            want == Seq::new(p@.len(), |k: int| beat_probability(p@, valid@, k)),
            out@ == want.take(i as int),
        decreases p@.len() - i,
    {
        if !valid[i] || i == 0 || i == p.len() - 1 {
            out.push(zero());
        } else {
            out.push(p[i].clamp(micro(), high));
        }
        i = i + 1;
        assert(out@ =~= want.take(i as int));
    }
    assert(out@ =~= want);
    out
}

/// The least probability a label is given: `1e-7`.
#[verifier::allow_in_spec]
pub fn least_label_probability() -> Binary64
    returns
        (Binary64 { bits: 0x3E7A_D7F2_9ABC_AF48 }),
{
    Binary64 { bits: 0x3E7A_D7F2_9ABC_AF48 }
}

/// The probability of a label, kept off zero so that it has a logarithm.
pub fn floor_label_probability(p: Binary64) -> (r: Binary64)
    ensures
        r == clamped(p, least_label_probability(), one()),
{
    p.clamp(least_label_probability(), one())
}

/// How much a beat sounds like singing, as the exponent of a logistic curve:
/// bright, pitched, more harmonic than percussive, and not noise-like.
pub open spec fn vocal_exponent(
    salience: Binary64,
    mid_ratio: Binary64,
    harmonic_ratio: Binary64,
    flatness: Binary64,
    onset: Binary64,
) -> Binary64 {
    let bright = sum(product(weight(0), salience), product(weight(1), mid_ratio));
    let pitched = sum(bright, product(weight(2), harmonic_ratio));
    let clean = difference(pitched, product(weight(3), flatness));
    difference(clean, product(weight(4), onset))
}

/// The weights of the vocal proxy: 0.85, 0.70, 0.45, 0.35 and 0.20.
pub const VOCAL_WEIGHTS: [u64; 5] = [
    0x3FEB_3333_3333_3333,
    0x3FE6_6666_6666_6666,
    0x3FDC_CCCC_CCCC_CCCD,
    0x3FD6_6666_6666_6666,
    0x3FC9_9999_9999_999A,
];

/// A weight of the vocal proxy.
pub open spec fn weight(i: int) -> Binary64 {
    Binary64 { bits: VOCAL_WEIGHTS@[i] }
}

/// The exponents of the vocal proxy, one per beat.
pub fn vocal_exponents(
    salience: &[Binary64],
    mid_ratio: &[Binary64],
    harmonic_ratio: &[Binary64],
    flatness: &[Binary64],
    onset: &[Binary64],
) -> (r: Vec<Binary64>)
    requires
        mid_ratio@.len() >= salience@.len(),
        harmonic_ratio@.len() >= salience@.len(),
        flatness@.len() >= salience@.len(),
        onset@.len() >= salience@.len(),
    ensures
        r@ == Seq::new(
            salience@.len(),
            |i: int| vocal_exponent(salience@[i], mid_ratio@[i], harmonic_ratio@[i], flatness@[i], onset@[i]),
        ),
{
    let ghost want = Seq::new(
        salience@.len(),
        |i: int| vocal_exponent(salience@[i], mid_ratio@[i], harmonic_ratio@[i], flatness@[i], onset@[i]),
    );
    let mut out: Vec<Binary64> = Vec::new();
    let mut i: usize = 0;
    while i < salience.len()
        invariant
            i <= salience@.len(),
            mid_ratio@.len() >= salience@.len(),
            harmonic_ratio@.len() >= salience@.len(),
            flatness@.len() >= salience@.len(),
            onset@.len() >= salience@.len(),
            want == Seq::new(
                salience@.len(),
                |k: int| vocal_exponent(salience@[k], mid_ratio@[k], harmonic_ratio@[k], flatness@[k], onset@[k]),
            ),
            out@ == want.take(i as int),
        decreases salience@.len() - i,
    {
        let bright: Binary64 = Binary64::from_bits(VOCAL_WEIGHTS[0]).times(salience[i]).plus(
            Binary64::from_bits(VOCAL_WEIGHTS[1]).times(mid_ratio[i]),
        );
        let pitched: Binary64 = bright.plus(Binary64::from_bits(VOCAL_WEIGHTS[2]).times(harmonic_ratio[i]));
        let clean: Binary64 = pitched.minus(Binary64::from_bits(VOCAL_WEIGHTS[3]).times(flatness[i]));
        out.push(clean.minus(Binary64::from_bits(VOCAL_WEIGHTS[4]).times(onset[i])));
        i = i + 1;
        assert(out@ =~= want.take(i as int));
    }
    assert(out@ =~= want);
    out
}

/// Where the last phrase ends: with the audio, or a beat past the last beat
/// where the beats outlast it.
pub open spec fn last_edge(beats: Seq<Binary64>, duration: Binary64) -> Binary64 {
    if beats.len() >= 2 {
        larger(duration, sum(beats.last(), middle(gaps(beats))))
    } else {
        duration
    }
}

/// The time of a boundary.
pub open spec fn edge_time(beats: Seq<Binary64>, duration: Binary64, bound: usize) -> Binary64 {
    if bound < beats.len() {
        beats[bound as int]
    } else {
        last_edge(beats, duration)
    }
}

/// The phrases between the first `n + 1` boundaries, without those that have
/// no length to speak of.
pub open spec fn assembled(
    beats: Seq<Binary64>,
    duration: Binary64,
    bounds: Seq<usize>,
    labels: Seq<String>,
    n: nat,
) -> Seq<Section>
    decreases n,
{
    if n == 0 {
        seq![]
    } else {
        let before = assembled(beats, duration, bounds, labels, (n - 1) as nat);
        let start = edge_time(beats, duration, bounds[n - 1]);
        let end = edge_time(beats, duration, bounds[n as int]);
        if difference(end, start).spec_le(micro()) {
            before
        } else {
            before.push(section(start, end, labels[n - 1]@))
        }
    }
}

/// How many phrases some boundaries and labels can make.
pub open spec fn spans(bounds: Seq<usize>, labels: Seq<String>) -> nat {
    if bounds.len() == 0 {
        0
    } else if bounds.len() - 1 < labels.len() {
        (bounds.len() - 1) as nat
    } else {
        labels.len()
    }
}

/// Turns boundaries in beats into timed phrases.
pub fn assemble(grid: &PredictorGrid, duration: Binary64, bounds: &[usize], labels: &[String]) -> (r: Vec<Phrase>)
    ensures
        sections(r@) == assembled(grid.beat_times_sec@, duration, bounds@, labels@, spans(bounds@, labels@)),
{
    let beats: &[Binary64] = grid.beat_times_sec.as_slice();
    let n: usize = beats.len();
    let last: Binary64 = if n >= 2 {
        duration.max(beats[n - 1].plus(median(gaps_of(beats).as_slice())))
    } else {
        duration
    };
    let ghost total = spans(bounds@, labels@);
    let mut out: Vec<Phrase> = Vec::new();
    let mut i: usize = 0;
    assert(sections(out@) =~= assembled(beats@, duration, bounds@, labels@, 0));
    while i < labels.len() && i + 1 < bounds.len()
        invariant
            i <= total,
            total == spans(bounds@, labels@),
            n == beats@.len(),
            last == last_edge(beats@, duration),
            sections(out@) == assembled(beats@, duration, bounds@, labels@, i as nat),
        decreases total - i,
    {
        let start: Binary64 = if bounds[i] < n {
            beats[bounds[i]]
        } else {
            last
        };
        let end: Binary64 = if bounds[i + 1] < n {
            beats[bounds[i + 1]]
        } else {
            last
        };
        let ghost before = out@;
        if !end.minus(start).le(micro()) {
            out.push(Phrase::new(start, end, labels[i].as_str()));
            assert(sections(out@) =~= sections(before).push(section(start, end, labels@[i as int]@)));
        }
        i = i + 1;
    }
    out
}

/// Whether times strictly increase.
pub open spec fn times_increase(beats: Seq<Binary64>) -> bool {
    forall|i: int, j: int| 0 <= i < j < beats.len() ==> (#[trigger] beats[i]).spec_lt(#[trigger] beats[j])
}

/// Whether boundaries strictly increase, none past the last beat but the last.
pub open spec fn bounds_increase(bounds: Seq<usize>, n: nat) -> bool {
    &&& forall|i: int, j: int| 0 <= i < j < bounds.len() ==> (#[trigger] bounds[i]) < (#[trigger] bounds[j])
    &&& forall|i: int| 0 <= i < bounds.len() ==> (#[trigger] bounds[i]) <= n
}

proof fn lemma_ends_come_first(beats: Seq<Binary64>, duration: Binary64, bounds: Seq<usize>, labels: Seq<String>, n: nat, k: int)
    requires
        times_increase(beats),
        bounds_increase(bounds, beats.len()),
        n < bounds.len(),
        n <= k,
        k + 1 < bounds.len(),
    ensures
        ({
            let r = assembled(beats, duration, bounds, labels, n);
            forall|i: int| 0 <= i < r.len() ==> (#[trigger] r[i]).end.spec_le(edge_time(beats, duration, bounds[k]))
        }),
    decreases n,
{
    if n > 0 {
        lemma_ends_come_first(beats, duration, bounds, labels, (n - 1) as nat, k);
        let now = assembled(beats, duration, bounds, labels, n);
        let before = assembled(beats, duration, bounds, labels, (n - 1) as nat);
        assert(forall|i: int| 0 <= i < before.len() ==> now[i] == before[i]);
        assert(bounds[k] < bounds[k + 1]);
        let e = beats[bounds[n as int] as int];
        let s = beats[bounds[k] as int];
        if n == k {
            if k > 0 {
                assert(bounds[k - 1] < bounds[k]);
                assert(beats[bounds[k - 1] as int].spec_lt(s));
            }
        } else {
            assert(bounds[n as int] < bounds[k]);
            assert(e.spec_lt(s));
        }
    }
}

/// Phrases come in order and do not overlap.
pub proof fn law_phrases_do_not_overlap(
    beats: Seq<Binary64>,
    duration: Binary64,
    bounds: Seq<usize>,
    labels: Seq<String>,
    n: nat,
)
    requires
        times_increase(beats),
        bounds_increase(bounds, beats.len()),
        n < bounds.len(),
    ensures
        ({
            let r = assembled(beats, duration, bounds, labels, n);
            forall|i: int, j: int|
                0 <= i < j < r.len() ==> (#[trigger] r[i]).end.spec_le((#[trigger] r[j]).start)
        }),
    decreases n,
{
    if n > 0 {
        law_phrases_do_not_overlap(beats, duration, bounds, labels, (n - 1) as nat);
        lemma_ends_come_first(beats, duration, bounds, labels, (n - 1) as nat, n - 1);
        let now = assembled(beats, duration, bounds, labels, n);
        let before = assembled(beats, duration, bounds, labels, (n - 1) as nat);
        assert(forall|i: int| 0 <= i < before.len() ==> now[i] == before[i]);
    }
}

/// Whether span `i` between two boundaries lasts long enough to be kept.
pub open spec fn lasts(beats: Seq<Binary64>, duration: Binary64, bounds: Seq<usize>, i: int) -> bool {
    !difference(edge_time(beats, duration, bounds[i + 1]), edge_time(beats, duration, bounds[i])).spec_le(micro())
}

/// Phrases tile the track where no span is too short to be kept: one to a
/// span, the first from the first boundary on, each end where the next one
/// starts, and the last up to the last boundary. Boundaries from beat zero on
/// give a first phrase that starts there.
pub proof fn law_phrases_tile_the_track(
    beats: Seq<Binary64>,
    duration: Binary64,
    bounds: Seq<usize>,
    labels: Seq<String>,
    n: nat,
)
    requires
        n < bounds.len(),
        forall|i: int| 0 <= i < n ==> #[trigger] lasts(beats, duration, bounds, i),
    ensures
        ({
            let r = assembled(beats, duration, bounds, labels, n);
            &&& r.len() == n
            &&& forall|i: int|
                0 <= i < r.len() ==> (#[trigger] r[i]).start == edge_time(beats, duration, bounds[i]) && r[i].end
                    == edge_time(beats, duration, bounds[i + 1])
            &&& forall|i: int| 0 < i < r.len() ==> r[i - 1].end == (#[trigger] r[i]).start
            &&& r.len() > 0 && bounds[0] == 0 && beats.len() > 0 ==> r[0].start == beats[0]
            &&& r.len() > 0 && bounds[n as int] >= beats.len() ==> r.last().end == last_edge(beats, duration)
        }),
    decreases n,
{
    if n > 0 {
        law_phrases_tile_the_track(beats, duration, bounds, labels, (n - 1) as nat);
        assert(lasts(beats, duration, bounds, n - 1));
    }
}

/// Every span that lasts becomes a phrase with the span's own label: it starts
/// and ends at the beats of the two boundaries, where there are such beats.
pub proof fn law_each_span_gets_its_label(
    beats: Seq<Binary64>,
    duration: Binary64,
    bounds: Seq<usize>,
    labels: Seq<String>,
    n: nat,
    i: int,
) -> (k: int)
    requires
        0 <= i < n < bounds.len(),
        lasts(beats, duration, bounds, i),
    ensures
        ({
            let r = assembled(beats, duration, bounds, labels, n);
            &&& 0 <= k < r.len()
            &&& r[k].label == trimmed(labels[i]@)
            &&& bounds[i] < beats.len() ==> r[k].start == beats[bounds[i] as int]
            &&& bounds[i + 1] < beats.len() ==> r[k].end == beats[bounds[i + 1] as int]
            &&& bounds[i + 1] >= beats.len() && !duration.nan() ==> duration.spec_le(r[k].end)
        }),
    decreases n,
{
    let m = (n - 1) as nat;
    let before = assembled(beats, duration, bounds, labels, m);
    let now = assembled(beats, duration, bounds, labels, n);
    if i < m {
        let k = law_each_span_gets_its_label(beats, duration, bounds, labels, m, i);
        assert(now[k] == before[k]);
        k
    } else {
        before.len() as int
    }
}

/// Every phrase is a span: it has the label of that span, and starts and ends
/// at its boundaries. Phrases come in the order of their spans.
pub proof fn law_each_phrase_is_a_span(
    beats: Seq<Binary64>,
    duration: Binary64,
    bounds: Seq<usize>,
    labels: Seq<String>,
    n: nat,
) -> (place: Seq<int>)
    requires
        n < bounds.len(),
    ensures
        ({
            let r = assembled(beats, duration, bounds, labels, n);
            &&& place.len() == r.len()
            &&& forall|k: int| 0 <= k < r.len() ==> 0 <= #[trigger] place[k] < n
            &&& forall|j: int, k: int| 0 <= j < k < r.len() ==> #[trigger] place[j] < #[trigger] place[k]
            &&& forall|k: int|
                0 <= k < r.len() ==> r[k].label == trimmed(labels[#[trigger] place[k]]@) && r[k].start == edge_time(
                    beats,
                    duration,
                    bounds[place[k]],
                ) && r[k].end == edge_time(beats, duration, bounds[place[k] + 1])
        }),
    decreases n,
{
    if n == 0 {
        seq![]
    } else {
        let m = (n - 1) as nat;
        let before = assembled(beats, duration, bounds, labels, m);
        let place = law_each_phrase_is_a_span(beats, duration, bounds, labels, m);
        let now = assembled(beats, duration, bounds, labels, n);
        if now.len() == before.len() {
            place
        } else {
            place.push(m as int)
        }
    }
}

/// A boundary has no chance where none may stand, and at both ends; elsewhere
/// the chance is what the ensemble says, but for a millionth at either end.
pub proof fn law_chances_are_kept_or_none(p: Seq<Binary64>, valid: Seq<bool>, i: int)
    requires
        0 <= i < p.len(),
    ensures
        !valid[i] || i == 0 || i == p.len() - 1 ==> beat_probability(p, valid, i) == zero(),
        valid[i] && 0 < i < p.len() - 1 && micro().spec_le(p[i]) && p[i].spec_le(difference(one(), micro()))
            ==> beat_probability(p, valid, i) == p[i],
        valid[i] && 0 < i < p.len() - 1 && p[i].spec_lt(micro()) ==> beat_probability(p, valid, i) == micro(),
        valid[i] && 0 < i < p.len() - 1 && difference(one(), micro()).spec_lt(p[i]) && micro().spec_le(p[i])
            ==> beat_probability(p, valid, i) == difference(one(), micro()),
{
}

/// The edges of phrases are the beats that bound them; behind the last beat the
/// edge is no sooner than the end of the track.
pub proof fn law_phrases_are_bounded_by_beats(beats: Seq<Binary64>, duration: Binary64, bound: usize)
    requires
        !duration.nan(),
    ensures
        bound < beats.len() ==> edge_time(beats, duration, bound) == beats[bound as int],
        bound >= beats.len() ==> duration.spec_le(edge_time(beats, duration, bound)),
        bound >= beats.len() && (beats.len() < 2 || sum(beats.last(), middle(gaps(beats))).spec_le(duration))
            ==> edge_time(beats, duration, bound) == duration,
{
}

} // verus!
