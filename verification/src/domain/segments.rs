//! Tempo and key segments: how a track's tempo and key change over time.

use crate::domain::key::{mode_flag, mode_of, pitch_of, Key, Mode};
use crate::number::binary64::{difference, larger, of_int, product, quotient, one, zero, Binary64};
use crate::number::integral::{nearest_integer, signed_truncated, truncated};
use crate::number::laws::{law_small_integers_are_exact, law_small_integers_come_back, law_small_integers_keep_their_order};
use vstd::prelude::*;
use vstd::slice::slice_subrange;

verus! {

/// Default time-signature numerator when a segment does not carry one.
pub const DEFAULT_TIME_SIGNATURE: u8 = 4;

/// One stretch of constant tempo.
#[derive(Debug, Clone, Copy, PartialEq, Eq, Structural)]
pub struct TempoSegment {
    /// Segment start, in seconds from the beginning of the track.
    pub start: Binary64,
    /// Segment end, in seconds. Exclusive.
    pub end: Binary64,
    /// Tempo in beats per minute.
    pub bpm: Binary64,
    /// Reference downbeat (bar start) inside the segment, in seconds.
    pub inizio: Binary64,
    /// Beats per bar (the time-signature numerator).
    pub time_signature: u8,
}

/// A segment; a missing time signature becomes the default one.
pub open spec fn tempo_segment(
    start: Binary64,
    end: Binary64,
    bpm: Binary64,
    inizio: Binary64,
    time_signature: int,
) -> TempoSegment {
    TempoSegment {
        start,
        end,
        bpm,
        inizio,
        time_signature: if time_signature >= 1 {
            time_signature as u8
        } else {
            DEFAULT_TIME_SIGNATURE
        },
    }
}

/// The segment that a stored row describes: at least three columns, finite
/// times and a positive finite tempo; a bad fourth or fifth column falls back.
pub open spec fn tempo_of_row(row: Seq<Binary64>) -> Option<TempoSegment> {
    if row.len() < 3 || !row[0].finite() || !row[1].finite() || !row[2].finite() || row[2].spec_le(zero()) {
        None
    } else {
        Some(
            tempo_segment(
                row[0],
                row[1],
                row[2],
                if row.len() > 3 && row[3].finite() && zero().spec_le(row[3]) {
                    row[3]
                } else {
                    row[0]
                },
                if row.len() > 4 && row[4].finite() && one().spec_le(row[4]) {
                    truncated(nearest_integer(row[4]), 255) as int
                } else {
                    DEFAULT_TIME_SIGNATURE as int
                },
            ),
        )
    }
}

/// The segments of the first `rows` rows of a flat buffer.
pub open spec fn tempo_rows(flat: Seq<Binary64>, width: int, rows: nat) -> Seq<TempoSegment>
    decreases rows,
{
    if rows == 0 {
        seq![]
    } else {
        let before = tempo_rows(flat, width, (rows - 1) as nat);
        match tempo_of_row(flat.subrange((rows - 1) * width, rows * width)) {
            Some(segment) => before.push(segment),
            None => before,
        }
    }
}

impl TempoSegment {
    /// Length of the segment in seconds. Never negative.
    pub open spec fn spec_duration(self) -> Binary64 {
        larger(difference(self.end, self.start), zero())
    }

    /// Seconds between consecutive beats.
    pub open spec fn spec_beat_period(self) -> Binary64 {
        quotient(of_int(60), self.bpm)
    }

    /// Seconds between consecutive downbeats.
    pub open spec fn spec_bar_period(self) -> Binary64 {
        product(self.spec_beat_period(), of_int(self.time_signature as int))
    }

    /// Whether `time` falls inside `[start, end)`.
    pub open spec fn spec_contains(self, time: Binary64) -> bool {
        self.start.spec_le(time) && time.spec_lt(self.end)
    }

    /// A segment; a missing time signature becomes the default one.
    pub fn new(start: Binary64, end: Binary64, bpm: Binary64, inizio: Binary64, time_signature: u8) -> (r: Self)
        ensures
            r == tempo_segment(start, end, bpm, inizio, time_signature as int),
            r.time_signature >= 1,
    {
        TempoSegment {
            start,
            end,
            bpm,
            inizio,
            time_signature: if time_signature >= 1 {
                time_signature
            } else {
                DEFAULT_TIME_SIGNATURE
            },
        }
    }

    /// Reads one row of a stored tempo array of three, four or five columns.
    pub fn from_row(row: &[Binary64]) -> (r: Option<Self>)
        ensures
            r == tempo_of_row(row@),
            r is Some ==> r->0.time_signature >= 1,
    {
        if row.len() < 3 {
            return None;
        }
        let start: Binary64 = row[0];
        let end: Binary64 = row[1];
        let bpm: Binary64 = row[2];
        if !start.is_finite() || !end.is_finite() || !bpm.is_finite() || bpm.le(zero()) {
            return None;
        }
        let inizio: Binary64 = if row.len() > 3 && row[3].is_finite() && zero().le(row[3]) {
            row[3]
        } else {
            start
        };
        let time_signature: u8 = if row.len() > 4 && row[4].is_finite() && one().le(row[4]) {
            row[4].round().truncate(255) as u8
        } else {
            DEFAULT_TIME_SIGNATURE
        };
        Some(TempoSegment::new(start, end, bpm, inizio, time_signature))
    }

    /// The five-column row used on disk.
    pub fn to_row(self) -> (r: [Binary64; 5])
        ensures
            r@ == seq![self.start, self.end, self.bpm, self.inizio, of_int(self.time_signature as int)],
    {
        [self.start, self.end, self.bpm, self.inizio, Binary64::from_u64(self.time_signature as u64)]
    }

    /// Length of the segment in seconds. Never negative.
    pub fn duration(self) -> (r: Binary64)
        ensures
            r == self.spec_duration(),
    {
        self.end.minus(self.start).max(zero())
    }

    /// Seconds between consecutive beats.
    pub fn beat_period(self) -> (r: Binary64)
        ensures
            r == self.spec_beat_period(),
    {
        Binary64::from_u64(60).over(self.bpm)
    }

    /// Seconds between consecutive downbeats (one bar).
    pub fn bar_period(self) -> (r: Binary64)
        ensures
            r == self.spec_bar_period(),
    {
        self.beat_period().times(Binary64::from_u64(self.time_signature as u64))
    }

    /// Whether `time` falls inside `[start, end)`.
    pub fn contains(self, time: Binary64) -> (r: bool)
        ensures
            r == self.spec_contains(time),
    {
        self.start.le(time) && time.lt(self.end)
    }
}

/// Reads a flat buffer of `width` columns per row; rows that describe no
/// segment are skipped.
pub fn tempo_segments_from_flat(flat: &[Binary64], width: usize) -> (r: Vec<TempoSegment>)
    ensures
        width < 3 ==> r@.len() == 0,
        width >= 3 ==> r@ == tempo_rows(flat@, width as int, (flat@.len() / width as nat) as nat),
{
    let mut out: Vec<TempoSegment> = Vec::new();
    if width < 3 {
        return out;
    }
    let total: usize = flat.len();
    let rows: usize = total / width;
    let mut i: usize = 0;
    let mut base: usize = 0;
    assert(rows * width <= total) by (nonlinear_arith)
        requires
            rows == total / width,
            width > 0,
    ;
    while i < rows
        invariant
            width >= 3,
            i <= rows,
            base == i * width,
            rows * width <= total,
            total == flat@.len(),
            out@ == tempo_rows(flat@, width as int, i as nat),
        decreases rows - i,
    {
        assert((i + 1) * width == base + width && base + width <= rows * width) by (nonlinear_arith)
            requires
                base == i * width,
                i + 1 <= rows,
        ;
        match TempoSegment::from_row(slice_subrange(flat, base, base + width)) {
            Some(segment) => {
                out.push(segment);
            },
            None => {},
        }
        i = i + 1;
        base = base + width;
    }
    out
}

/// One stretch of constant musical key.
#[derive(Debug, Clone, Copy, PartialEq, Eq, Structural)]
pub struct KeySegment {
    pub start: Binary64,
    pub end: Binary64,
    pub key: Key,
}

/// Whether a stored `[pitch, mode_flag, start, end]` row describes a segment.
pub open spec fn key_row_usable(row: Seq<Binary64>) -> bool {
    row.len() >= 4 && row[0].finite() && row[2].finite() && row[3].finite()
}

/// The key index that a usable row stands for.
pub open spec fn key_of_row(row: Seq<Binary64>) -> nat {
    (signed_truncated(nearest_integer(row[0])) % 12 + (if row[1].finite() && signed_truncated(nearest_integer(row[1]))
        == 1 {
        12int
    } else {
        0int
    })) as nat
}

/// Whether a key segment is what a row describes.
pub open spec fn is_key_row(row: Seq<Binary64>, segment: KeySegment) -> bool {
    segment.start == row[2] && segment.end == row[3] && segment.key@ == key_of_row(row)
}

/// How many of the first `rows` rows of a flat buffer describe a key segment.
pub open spec fn usable_key_rows(flat: Seq<Binary64>, width: int, rows: nat) -> Seq<Seq<Binary64>>
    decreases rows,
{
    if rows == 0 {
        seq![]
    } else {
        let before = usable_key_rows(flat, width, (rows - 1) as nat);
        let row = flat.subrange((rows - 1) * width, rows * width);
        if key_row_usable(row) {
            before.push(row)
        } else {
            before
        }
    }
}

impl KeySegment {
    /// A key segment.
    pub fn new(start: Binary64, end: Binary64, key: Key) -> (r: Self)
        ensures
            r == (KeySegment { start, end, key }),
    {
        KeySegment { start, end, key }
    }

    /// Reads one `[pitch, mode_flag, start, end]` row.
    pub fn from_row(row: &[Binary64]) -> (r: Option<Self>)
        ensures
            r is Some <==> key_row_usable(row@),
            r is Some ==> is_key_row(row@, r->0),
    {
        if row.len() < 4 {
            return None;
        }
        if !row[0].is_finite() || !row[2].is_finite() || !row[3].is_finite() {
            return None;
        }
        let mode: Mode = if row[1].is_finite() && row[1].round().to_i64() == 1 {
            Mode::Minor
        } else {
            Mode::Major
        };
        let pitch: i64 = row[0].round().to_i64();
        let rest: i64 = pitch % 12;
        let pitch_class: u8 = if rest < 0 {
            (rest + 12) as u8
        } else {
            rest as u8
        };
        Some(KeySegment::new(row[2], row[3], Key::new(pitch_class, mode)))
    }

    /// The four-column row used on disk.
    pub fn to_row(self) -> (r: [Binary64; 4])
        ensures
            r@ == seq![
                of_int(pitch_of(self.key@) as int),
                of_int(mode_flag(mode_of(self.key@)) as int),
                self.start,
                self.end,
            ],
    {
        [
            Binary64::from_u64(self.key.pitch_class() as u64),
            Binary64::from_u64(self.key.mode().flag() as u64),
            self.start,
            self.end,
        ]
    }

    /// Length of the segment in seconds. Never negative.
    pub fn duration(self) -> (r: Binary64)
        ensures
            r == larger(difference(self.end, self.start), zero()),
    {
        self.end.minus(self.start).max(zero())
    }
}

/// Reads a flat `[pitch, mode, start, end]` buffer; rows that describe no
/// segment are skipped.
pub fn key_segments_from_flat(flat: &[Binary64], width: usize) -> (r: Vec<KeySegment>)
    ensures
        width < 4 ==> r@.len() == 0,
        width >= 4 ==> {
            let rows = usable_key_rows(flat@, width as int, (flat@.len() / width as nat) as nat);
            r@.len() == rows.len() && forall|i: int| 0 <= i < rows.len() ==> is_key_row(#[trigger] rows[i], r@[i])
        },
{
    let mut out: Vec<KeySegment> = Vec::new();
    if width < 4 {
        return out;
    }
    let total: usize = flat.len();
    let rows: usize = total / width;
    let mut i: usize = 0;
    let mut base: usize = 0;
    assert(rows * width <= total) by (nonlinear_arith)
        requires
            rows == total / width,
            width > 0,
    ;
    while i < rows
        invariant
            width >= 4,
            i <= rows,
            base == i * width,
            rows * width <= total,
            total == flat@.len(),
            out@.len() == usable_key_rows(flat@, width as int, i as nat).len(),
            forall|j: int|
                0 <= j < out@.len() ==> is_key_row(
                    #[trigger] usable_key_rows(flat@, width as int, i as nat)[j],
                    out@[j],
                ),
        decreases rows - i,
    {
        assert((i + 1) * width == base + width && base + width <= rows * width) by (nonlinear_arith)
            requires
                base == i * width,
                i + 1 <= rows,
        ;
        match KeySegment::from_row(slice_subrange(flat, base, base + width)) {
            Some(segment) => {
                out.push(segment);
            },
            None => {},
        }
        i = i + 1;
        base = base + width;
    }
    out
}

/// Whether a tempo segment has finite times, a positive tempo, and a reference
/// downbeat that is not before the track.
pub open spec fn is_storable(segment: TempoSegment) -> bool {
    &&& segment.start.finite() && segment.end.finite() && segment.bpm.finite() && segment.inizio.finite()
    &&& zero().spec_lt(segment.bpm)
    &&& zero().spec_le(segment.inizio)
    &&& segment.time_signature >= 1
}

proof fn lemma_one_is_of_int()
    ensures
        of_int(1) == one(),
{
    let p = vstd::arithmetic::power2::pow2(1022);
    let code = 0x3FF0_0000_0000_0000nat;
    assert(crate::number::rounding::code_scale(code) == 1022);
    assert(crate::number::rounding::code_significand(code) == 0x10_0000_0000_0000);
    vstd::arithmetic::power2::lemma2_to64_rest();
    assert(vstd::arithmetic::power2::pow2(52) == 0x10_0000_0000_0000);
    crate::number::rounding::lemma_pow2_sum(52, 1022);
    assert(crate::number::rounding::magnitude(code) == 1 * vstd::arithmetic::power2::pow2(1074));
    crate::number::integral::lemma_rounded_exact(code);
}

/// A stored tempo row reads back as the segment it was written from.
pub proof fn law_tempo_rows_come_back(segment: TempoSegment)
    requires
        is_storable(segment),
    ensures
        tempo_of_row(
            seq![segment.start, segment.end, segment.bpm, segment.inizio, of_int(segment.time_signature as int)],
        ) == Some(segment),
{
    let n = segment.time_signature as nat;
    law_small_integers_are_exact(n as int);
    law_small_integers_come_back(n, 255);
    lemma_one_is_of_int();
    if n > 1 {
        law_small_integers_keep_their_order(1, n as int);
    }
}

/// A stored key row reads back as the segment it was written from.
pub proof fn law_key_rows_come_back(segment: KeySegment)
    requires
        segment.start.finite(),
        segment.end.finite(),
        segment.key@ < 24,
    ensures
        key_row_usable(
            seq![
                of_int(pitch_of(segment.key@) as int),
                of_int(mode_flag(mode_of(segment.key@)) as int),
                segment.start,
                segment.end,
            ],
        ),
        is_key_row(
            seq![
                of_int(pitch_of(segment.key@) as int),
                of_int(mode_flag(mode_of(segment.key@)) as int),
                segment.start,
                segment.end,
            ],
            segment,
        ),
{
    let pitch = pitch_of(segment.key@) as nat;
    let flag = mode_flag(mode_of(segment.key@)) as nat;
    law_small_integers_are_exact(pitch as int);
    law_small_integers_are_exact(flag as int);
    law_small_integers_come_back(pitch, 0x7FFF_FFFF_FFFF_FFFF);
    law_small_integers_come_back(flag, 0x7FFF_FFFF_FFFF_FFFF);
}

/// Each row that can be read gives a segment, in the order of the rows, and no
/// other row does.
pub proof fn law_each_readable_row_is_a_segment(flat: Seq<Binary64>, width: int, rows: nat) -> (of: Seq<int>)
    requires
        width >= 3,
        rows * width <= flat.len(),
    ensures
        of.len() == tempo_rows(flat, width, rows).len(),
        forall|a: int, b: int| 0 <= a < b < of.len() ==> #[trigger] of[a] < #[trigger] of[b],
        forall|m: int|
            0 <= m < of.len() ==> {
                let segment = tempo_rows(flat, width, rows)[m];
                &&& 0 <= #[trigger] of[m] < rows
                &&& segment.start == flat[of[m] * width]
                &&& segment.end == flat[of[m] * width + 1]
                &&& segment.bpm == flat[of[m] * width + 2]
            },
        forall|r: int|
            0 <= r < rows && (#[trigger] flat[r * width]).finite() && flat[r * width + 1].finite() && flat[r * width + 2].finite()
                && zero().spec_lt(flat[r * width + 2]) ==> of.contains(r),
    decreases rows,
{
    if rows == 0 {
        seq![]
    } else {
        let last = rows - 1;
        assert(rows * width == last * width + width) by (nonlinear_arith)
            requires
                last == rows - 1,
        ;
        assert(0 <= last * width) by (nonlinear_arith)
            requires
                last >= 0,
                width >= 3,
        ;
        let before = law_each_readable_row_is_a_segment(flat, width, (rows - 1) as nat);
        let row = flat.subrange(last * width, rows * width);
        assert(row[0] == flat[last * width] && row[1] == flat[last * width + 1] && row[2] == flat[last * width + 2]);
        match tempo_of_row(row) {
            Some(_) => {
                let of = before.push(last);
                assert forall|r: int|
                    0 <= r < rows && (#[trigger] flat[r * width]).finite() && flat[r * width + 1].finite()
                        && flat[r * width + 2].finite() && zero().spec_lt(flat[r * width + 2]) implies of.contains(r) by {
                    if r < last {
                        let m = choose|m: int| 0 <= m < before.len() && before[m] == r;
                        assert(of[m] == r);
                    } else {
                        assert(of[before.len() as int] == r);
                    }
                }
                of
            },
            None => before,
        }
    }
}

} // verus!
