//! Weights that turn a spectrum into bands, pitch classes and other
//! coordinates.

use crate::detect::matrix::Mat;
use crate::detect::spectrum::least_magnitude;
use crate::number::binary64::{
    absolute, difference, half, half_turn, larger, negated, of_int, one, product, quotient, smaller, sum, zero, Binary64,
};
use crate::number::integral::{euclidean_remainder, floored, signed_truncated};
use crate::number::lists::{even_rows, rows_of, total, total_of};
use crate::number::root::square_root;
use crate::number::single::{single, to_single};
use vstd::prelude::*;

verus! {

/// Place `i` of `n + 2` places spread evenly from one number to another.
pub open spec fn even_place(low: Binary64, high: Binary64, n: usize, i: int) -> Binary64 {
    sum(low, quotient(product(difference(high, low), of_int(i)), of_int(n + 1)))
}

/// The `n + 2` places spread evenly from one number to another.
pub fn even_places(low: Binary64, high: Binary64, n: usize) -> (r: Vec<Binary64>)
    requires
        n + 2 <= usize::MAX,
    ensures
        r@ == Seq::new((n + 2) as nat, |i: int| even_place(low, high, n, i)),
{
    let ghost want = Seq::new((n + 2) as nat, |i: int| even_place(low, high, n, i));
    let mut out: Vec<Binary64> = Vec::new();
    let mut k: usize = 0;
    while k < n + 2
        invariant
            k <= (n + 2) as nat,
            n + 2 <= usize::MAX,
            want == Seq::new((n + 2) as nat, |i: int| even_place(low, high, n, i)),
            out@ == want.take(k as int),
        decreases (n + 2) as nat - k,
    {
        out.push(low.plus(high.minus(low).times(Binary64::from_u64(k as u64)).over(Binary64::from_u64((n + 1) as u64))));
        k = k + 1;
        assert(out@ =~= want.take(k as int));
    }
    assert(out@ =~= want);
    out
}

/// The range that mel bands cover: from zero up at most to the Nyquist
/// frequency, and at least one hertz wide.
pub open spec fn mel_range(fmin: Binary64, fmax: Binary64, sample_rate: Binary64) -> (Binary64, Binary64) {
    let low = larger(fmin, zero());
    (low, larger(smaller(fmax, product(sample_rate, half())), sum(low, one())))
}

/// The range that mel bands cover.
pub fn band_limits(fmin: Binary64, fmax: Binary64, sample_rate: Binary64) -> (r: (Binary64, Binary64))
    ensures
        r == mel_range(fmin, fmax, sample_rate),
{
    let low: Binary64 = fmin.max(zero());
    (low, fmax.min(sample_rate.times(half())).max(low.plus(one())))
}

/// The weight of a frequency in the triangle over three edges, scaled so that
/// every band carries the same energy, in single precision.
pub open spec fn triangle_weight(edges: Seq<Binary64>, band: int, freq: Binary64) -> Binary64 {
    let rise = quotient(difference(freq, edges[band]), difference(edges[band + 1], edges[band]));
    let fall = quotient(difference(edges[band + 2], freq), difference(edges[band + 2], edges[band + 1]));
    let scale = quotient(of_int(2), difference(edges[band + 2], edges[band]));
    single(product(larger(smaller(rise, fall), zero()), scale))
}

/// The weights of some frequencies in a band.
pub fn band_weights(edges: &[Binary64], band: usize, freqs: &[Binary64]) -> (r: Vec<Binary64>)
    requires
        band + 2 < edges@.len(),
    ensures
        r@ == Seq::new(freqs@.len(), |i: int| triangle_weight(edges@, band as int, freqs@[i])),
{
    let ghost want = Seq::new(freqs@.len(), |i: int| triangle_weight(edges@, band as int, freqs@[i]));
    let lo: Binary64 = edges[band];
    let mid: Binary64 = edges[band + 1];
    let hi: Binary64 = edges[band + 2];
    let scale: Binary64 = Binary64::from_u64(2).over(hi.minus(lo));
    let mut out: Vec<Binary64> = Vec::new();
    let mut k: usize = 0;
    while k < freqs.len()
        invariant
            k <= freqs@.len(),
            lo == edges@[band as int],
            mid == edges@[band + 1],
            hi == edges@[band + 2],
            scale == quotient(of_int(2), difference(hi, lo)),
            want == Seq::new(freqs@.len(), |i: int| triangle_weight(edges@, band as int, freqs@[i])),
            out@ == want.take(k as int),
        decreases freqs@.len() - k,
    {
        let rise: Binary64 = freqs[k].minus(lo).over(mid.minus(lo));
        let fall: Binary64 = hi.minus(freqs[k]).over(hi.minus(mid));
        out.push(to_single(rise.min(fall).max(zero()).times(scale)));
        k = k + 1;
        assert(out@ =~= want.take(k as int));
    }
    assert(out@ =~= want);
    out
}

/// How many bands there are over some edges.
pub open spec fn band_count(edges: Seq<Binary64>) -> nat {
    if edges.len() >= 2 {
        (edges.len() - 2) as nat
    } else {
        0
    }
}

/// The weights of some frequencies in each band over some edges.
pub open spec fn all_triangles(edges: Seq<Binary64>, freqs: Seq<Binary64>) -> Seq<Seq<Binary64>> {
    Seq::new(band_count(edges), |i: int| Seq::new(freqs.len(), |j: int| triangle_weight(edges, i, freqs[j])))
}

/// The weights of some frequencies in each band over some edges.
pub fn mel_weights(edges: &[Binary64], freqs: &[Binary64]) -> (r: Vec<Vec<Binary64>>)
    ensures
        rows_of(r@) == all_triangles(edges@, freqs@),
{
    let ghost want = all_triangles(edges@, freqs@);
    let bands: usize = if edges.len() >= 2 {
        edges.len() - 2
    } else {
        0
    };
    let mut out: Vec<Vec<Binary64>> = Vec::new();
    let mut k: usize = 0;
    assert(rows_of(out@) =~= want.take(0));
    while k < bands
        invariant
            k <= band_count(edges@),
            bands == band_count(edges@),
            want == all_triangles(edges@, freqs@),
            rows_of(out@) == want.take(k as int),
        decreases band_count(edges@) - k,
    {
        let row: Vec<Binary64> = band_weights(edges, k, freqs);
        let ghost before = out@;
        out.push(row);
        assert(rows_of(out@) =~= rows_of(before).push(row@));
        k = k + 1;
        assert(rows_of(out@) =~= want.take(k as int));
    }
    assert(rows_of(out@) =~= want);
    out
}

/// The weighted sum of the first `n` values; weights of nothing may be left
/// out.
pub open spec fn weighted(weights: Seq<Binary64>, values: Seq<Binary64>, sparse: bool, n: nat) -> Binary64
    decreases n,
{
    if n == 0 {
        zero()
    } else {
        let before = weighted(weights, values, sparse, (n - 1) as nat);
        if sparse && weights[n - 1].spec_same(zero()) {
            before
        } else {
            sum(before, product(weights[n - 1], values[n - 1]))
        }
    }
}

/// The weighted sum of some values.
fn weigh(weights: &[Binary64], values: &[Binary64], sparse: bool) -> (r: Binary64)
    requires
        weights@.len() <= values@.len(),
    ensures
        r == weighted(weights@, values@, sparse, weights@.len()),
{
    let mut out: Binary64 = zero();
    let mut i: usize = 0;
    while i < weights.len()
        invariant
            i <= weights@.len() <= values@.len(),
            out == weighted(weights@, values@, sparse, i as nat),
        decreases weights@.len() - i,
    {
        if !(sparse && weights[i].same(zero())) {
            out = out.plus(weights[i].times(values[i]));
        }
        i = i + 1;
    }
    out
}

/// Column `c` of some rows.
pub open spec fn column_in(rows: Seq<Seq<Binary64>>, c: int) -> Seq<Binary64> {
    rows.map_values(|row: Seq<Binary64>| row[c])
}

/// Rows of `cols` columns in the coordinates of some weights, a row per row of
/// weights.
pub open spec fn projection(weights: Seq<Seq<Binary64>>, rows: Seq<Seq<Binary64>>, cols: nat, sparse: bool) -> Seq<
    Seq<Binary64>,
> {
    weights.map_values(
        |w: Seq<Binary64>| Seq::new(cols, |c: int| weighted(w, column_in(rows, c), sparse, w.len())),
    )
}

/// Column `c` of a matrix.
fn column_of(mat: &Mat, c: usize) -> (r: Vec<Binary64>)
    requires
        mat.wf(),
        c < mat.width(),
    ensures
        r@ == column_in(mat.grid(), c as int),
        r@.len() == mat.height(),
{
    let column: Vec<Binary64> = mat.column(c);
    assert(column@ =~= column_in(mat.grid(), c as int));
    column
}

/// Puts a spectrogram into the coordinates of some weights.
pub fn project(weights: &Vec<Vec<Binary64>>, power: &Mat, sparse: bool) -> (r: Mat)
    requires
        power.wf(),
        forall|i: int| 0 <= i < weights@.len() ==> (#[trigger] weights@[i])@.len() <= power.height(),
        weights@.len() * power.width() <= usize::MAX,
    ensures
        r.wf(),
        r.width() == power.width(),
        r.grid() == projection(rows_of(weights@), power.grid(), power.width(), sparse),
{
    let frames: usize = power.cols();
    let ghost want = projection(rows_of(weights@), power.grid(), power.width(), sparse);
    let mut out: Vec<Vec<Binary64>> = Vec::new();
    let mut i: usize = 0;
    assert(rows_of(out@) =~= want.take(0));
    while i < weights.len()
        invariant
            i <= weights@.len(),
            power.wf(),
            frames == power.width(),
            forall|k: int| 0 <= k < weights@.len() ==> (#[trigger] weights@[k])@.len() <= power.height(),
            want == projection(rows_of(weights@), power.grid(), power.width(), sparse),
            out@.len() == i,
            rows_of(out@) == want.take(i as int),
            even_rows(rows_of(out@), frames as nat),
        decreases weights@.len() - i,
    {
        let ghost line = want[i as int];
        let mut row: Vec<Binary64> = Vec::new();
        let mut frame: usize = 0;
        while frame < frames
            invariant
                i < weights@.len(),
                frame <= frames == power.width(),
                power.wf(),
                weights@[i as int]@.len() <= power.height(),
                line == Seq::new(
                    power.width(),
                    |f: int| weighted(weights@[i as int]@, column_in(power.grid(), f), sparse, weights@[i as int]@.len()),
                ),
                row@ == line.take(frame as int),
            decreases frames - frame,
        {
            let column: Vec<Binary64> = column_of(power, frame);
            row.push(weigh(weights[i].as_slice(), column.as_slice(), sparse));
            frame = frame + 1;
            assert(row@ =~= line.take(frame as int));
        }
        assert(row@ =~= line);
        let ghost before = out@;
        out.push(row);
        assert(rows_of(out@) =~= rows_of(before).push(line));
        i = i + 1;
        assert(rows_of(out@) =~= want.take(i as int));
    }
    assert(rows_of(out@) =~= want);
    Mat::of_rows(out, frames)
}

/// What to divide by for a length: the length, or one where it is next to
/// nothing.
pub open spec fn divisor(length: Binary64) -> Binary64 {
    if length.spec_lt(least_magnitude()) {
        one()
    } else {
        length
    }
}

/// What to divide by for a length.
fn divisor_of(length: Binary64) -> (r: Binary64)
    ensures
        r == divisor(length),
{
    if length.lt(least_magnitude()) {
        one()
    } else {
        length
    }
}

/// Values divided by their lengths, each by its own.
pub fn scale_values(values: &[Binary64], lengths: &[Binary64]) -> (r: Vec<Binary64>)
    requires
        values@.len() <= lengths@.len(),
    ensures
        r@ == Seq::new(values@.len(), |i: int| quotient(values@[i], divisor(lengths@[i]))),
{
    let ghost want = Seq::new(values@.len(), |i: int| quotient(values@[i], divisor(lengths@[i])));
    let mut out: Vec<Binary64> = Vec::new();
    let mut k: usize = 0;
    while k < values.len()
        invariant
            k <= values@.len(),
            values@.len() <= lengths@.len(),
            want == Seq::new(values@.len(), |i: int| quotient(values@[i], divisor(lengths@[i]))),
            out@ == want.take(k as int),
        decreases values@.len() - k,
    {
        out.push(values[k].over(divisor_of(lengths[k])));
        k = k + 1;
        assert(out@ =~= want.take(k as int));
    }
    assert(out@ =~= want);
    out
}

/// How the length of a column is measured.
#[derive(Debug, Clone, Copy, PartialEq, Eq, Structural)]
pub enum Norm {
    /// The sum of the magnitudes.
    Sum,
    /// The root of the sum of the squares.
    Root,
}

/// What each value of a column adds to its length.
pub open spec fn norm_terms(column: Seq<Binary64>, norm: Norm) -> Seq<Binary64> {
    column.map_values(
        |v: Binary64|
            match norm {
                Norm::Sum => absolute(v),
                Norm::Root => product(v, v),
            },
    )
}

/// The length of a column.
pub open spec fn length_of(column: Seq<Binary64>, norm: Norm) -> Binary64 {
    match norm {
        Norm::Sum => total(norm_terms(column, norm)),
        Norm::Root => square_root(total(norm_terms(column, norm))),
    }
}

/// The length of a column.
fn column_length(column: &[Binary64], norm: Norm) -> (r: Binary64)
    ensures
        r == length_of(column@, norm),
{
    let ghost want = norm_terms(column@, norm);
    let mut terms: Vec<Binary64> = Vec::new();
    let mut i: usize = 0;
    while i < column.len()
        invariant
            i <= column@.len(),
            want == norm_terms(column@, norm),
            terms@ == want.take(i as int),
        decreases column@.len() - i,
    {
        match norm {
            Norm::Sum => terms.push(column[i].abs()),
            Norm::Root => terms.push(column[i].times(column[i])),
        }
        i = i + 1;
        assert(terms@ =~= want.take(i as int));
    }
    assert(terms@ =~= want);
    let whole: Binary64 = total_of(terms.as_slice());
    match norm {
        Norm::Sum => whole,
        Norm::Root => whole.sqrt(),
    }
}

/// Rows whose columns are scaled to unit length. A column of next to no length
/// stays as it is.
pub open spec fn unit_columns(rows: Seq<Seq<Binary64>>, norm: Norm) -> Seq<Seq<Binary64>> {
    rows.map_values(
        |row: Seq<Binary64>|
            Seq::new(row.len(), |i: int| quotient(row[i], divisor(length_of(column_in(rows, i), norm)))),
    )
}

/// Normalises each column to unit length.
pub fn normalize_columns(mat: &Mat, norm: Norm) -> (r: Mat)
    requires
        mat.wf(),
        mat.height() * mat.width() <= usize::MAX,
    ensures
        r.wf(),
        r.height() == mat.height(),
        r.width() == mat.width(),
        r.grid() == unit_columns(mat.grid(), norm),
{
    let cols: usize = mat.cols();
    let ghost every = Seq::new(mat.width(), |i: int| length_of(column_in(mat.grid(), i), norm));
    let mut lengths: Vec<Binary64> = Vec::new();
    let mut c: usize = 0;
    while c < cols
        invariant
            c <= cols == mat.width(),
            mat.wf(),
            every == Seq::new(mat.width(), |i: int| length_of(column_in(mat.grid(), i), norm)),
            lengths@ == every.take(c as int),
        decreases cols - c,
    {
        lengths.push(column_length(column_of(mat, c).as_slice(), norm));
        c = c + 1;
        assert(lengths@ =~= every.take(c as int));
    }
    assert(lengths@ =~= every);
    let ghost want = unit_columns(mat.grid(), norm);
    let mut out: Vec<Vec<Binary64>> = Vec::new();
    let mut r: usize = 0;
    assert(rows_of(out@) =~= want.take(0));
    while r < mat.rows()
        invariant
            r <= mat.height(),
            mat.wf(),
            cols == mat.width(),
            every == Seq::new(mat.width(), |i: int| length_of(column_in(mat.grid(), i), norm)),
            lengths@ == every,
            want == unit_columns(mat.grid(), norm),
            out@.len() == r,
            rows_of(out@) == want.take(r as int),
            even_rows(rows_of(out@), cols as nat),
        decreases mat.height() - r,
    {
        let row: Vec<Binary64> = scale_values(mat.row(r), lengths.as_slice());
        assert(row@ =~= want[r as int]);
        let ghost before = out@;
        out.push(row);
        assert(rows_of(out@) =~= rows_of(before).push(row@));
        r = r + 1;
        assert(rows_of(out@) =~= want.take(r as int));
    }
    assert(rows_of(out@) =~= want);
    Mat::of_rows(out, cols)
}

/// How many bands the contrast is measured in, from the logarithm to base two
/// of the highest frequency over that of the first band: as many as fit below
/// it, at least one and at most six.
pub fn contrast_bands(octaves: Binary64) -> (r: usize)
    ensures
        r == {
            let fit = signed_truncated(floored(octaves)) - 1;
            if fit < 1 {
                1
            } else if fit > 6 {
                6
            } else {
                fit
            }
        },
{
    let whole: i64 = octaves.floor().to_i64();
    if whole < 2 {
        1
    } else if whole > 7 {
        6
    } else {
        (whole - 1) as usize
    }
}

/// Where bin `k` stands in semitones, given the octave of each bin. The octave
/// at the first place is that of the second bin, as the first has none.
pub open spec fn semitone_place(octaves: Seq<Binary64>, k: int) -> Binary64 {
    if k == 0 {
        difference(product(of_int(12), octaves[0]), of_int(18))
    } else {
        product(of_int(12), octaves[k])
    }
}

/// Where the bins stand in semitones, the first an octave and a half below the second.
pub fn semitone_places(octaves: &[Binary64]) -> (r: Vec<Binary64>)
    ensures
        r@ == Seq::new(octaves@.len(), |i: int| semitone_place(octaves@, i)),
{
    let ghost want = Seq::new(octaves@.len(), |i: int| semitone_place(octaves@, i));
    let mut out: Vec<Binary64> = Vec::new();
    let mut k: usize = 0;
    while k < octaves.len()
        invariant
            k <= octaves@.len(),
            want == Seq::new(octaves@.len(), |i: int| semitone_place(octaves@, i)),
            out@ == want.take(k as int),
        decreases octaves@.len() - k,
    {
        out.push(if k == 0 {
            Binary64::from_u64(12).times(octaves[0]).minus(Binary64::from_u64(18))
        } else {
            Binary64::from_u64(12).times(octaves[k])
        });
        k = k + 1;
        assert(out@ =~= want.take(k as int));
    }
    assert(out@ =~= want);
    out
}

/// How many semitones bin `k` is wide, at least one.
pub open spec fn bin_width(places: Seq<Binary64>, k: int) -> Binary64 {
    if k == places.len() - 1 {
        one()
    } else {
        larger(difference(places[k + 1], places[k]), one())
    }
}

/// How far a place is from pitch class `c`, between six semitones down and up.
pub open spec fn class_distance(place: Binary64, c: int) -> Binary64 {
    let turned = sum(sum(difference(place, of_int(c)), of_int(6)), of_int(120));
    difference(euclidean_remainder(turned, of_int(12)), of_int(6))
}

/// The exponent of the weight of bin `k` in pitch class `c`.
pub open spec fn class_exponent(places: Seq<Binary64>, c: int, k: int) -> Binary64 {
    let x = quotient(product(of_int(2), class_distance(places[k], c)), bin_width(places, k));
    product(product(negated(half()), x), x)
}

/// The exponent of the weight of bin `k` in pitch class `c`.
fn exponent_at(places: &[Binary64], c: usize, k: usize) -> (r: Binary64)
    requires
        k < places@.len(),
    ensures
        r == class_exponent(places@, c as int, k as int),
{
    let width: Binary64 = if k == places.len() - 1 {
        one()
    } else {
        places[k + 1].minus(places[k]).max(one())
    };
    let turned: Binary64 = places[k].minus(Binary64::from_u64(c as u64)).plus(Binary64::from_u64(6)).plus(
        Binary64::from_u64(120),
    );
    let distance: Binary64 = turned.rem_euclid(Binary64::from_u64(12)).minus(Binary64::from_u64(6));
    let x: Binary64 = Binary64::from_u64(2).times(distance).over(width);
    half().negate().times(x).times(x)
}

/// The exponents of the weights of the bins in a pitch class.
pub fn class_exponents(places: &[Binary64], c: usize) -> (r: Vec<Binary64>)
    ensures
        r@ == Seq::new(places@.len(), |i: int| class_exponent(places@, c as int, i)),
{
    let ghost want = Seq::new(places@.len(), |i: int| class_exponent(places@, c as int, i));
    let mut out: Vec<Binary64> = Vec::new();
    let mut k: usize = 0;
    while k < places.len()
        invariant
            k <= places@.len(),
            want == Seq::new(places@.len(), |i: int| class_exponent(places@, c as int, i)),
            out@ == want.take(k as int),
        decreases places@.len() - k,
    {
        out.push(exponent_at(places, c, k));
        k = k + 1;
        assert(out@ =~= want.take(k as int));
    }
    assert(out@ =~= want);
    out
}

/// The exponent of the taper of a place: a bell two octaves wide about the
/// fifth octave.
pub open spec fn taper_exponent(place: Binary64) -> Binary64 {
    let z = quotient(difference(quotient(place, of_int(12)), of_int(5)), of_int(2));
    product(product(negated(half()), z), z)
}

/// The exponent of the taper of a place.
fn taper_at(place: Binary64) -> (r: Binary64)
    ensures
        r == taper_exponent(place),
{
    let z: Binary64 = place.over(Binary64::from_u64(12)).minus(Binary64::from_u64(5)).over(Binary64::from_u64(2));
    half().negate().times(z).times(z)
}

/// The exponents of the tapers of some places.
pub fn taper_exponents(places: &[Binary64]) -> (r: Vec<Binary64>)
    ensures
        r@ == Seq::new(places@.len(), |i: int| taper_exponent(places@[i])),
{
    let ghost want = Seq::new(places@.len(), |i: int| taper_exponent(places@[i]));
    let mut out: Vec<Binary64> = Vec::new();
    let mut k: usize = 0;
    while k < places.len()
        invariant
            k <= places@.len(),
            want == Seq::new(places@.len(), |i: int| taper_exponent(places@[i])),
            out@ == want.take(k as int),
        decreases places@.len() - k,
    {
        out.push(taper_at(places[k]));
        k = k + 1;
        assert(out@ =~= want.take(k as int));
    }
    assert(out@ =~= want);
    out
}

/// The squares of what bin `k` weighs in each pitch class.
pub open spec fn class_squares(bells: Seq<Seq<Binary64>>, k: int) -> Seq<Binary64> {
    bells.map_values(|row: Seq<Binary64>| product(row[k], row[k]))
}

/// The weight of bin `k` in a pitch class: its share of unit length, tapered,
/// in single precision. The bells start from A, the weights from C.
pub open spec fn class_weight(bells: Seq<Seq<Binary64>>, tapers: Seq<Binary64>, c: int, k: int) -> Binary64 {
    let length = divisor(square_root(total(class_squares(bells, k))));
    single(product(quotient(bells[(c + 3) % 12][k], length), tapers[k]))
}

/// The length of bin `k` over the pitch classes.
fn class_length(bells: &Vec<Vec<Binary64>>, k: usize) -> (r: Binary64)
    requires
        forall|i: int| 0 <= i < bells@.len() ==> k < (#[trigger] bells@[i])@.len(),
    ensures
        r == divisor(square_root(total(class_squares(rows_of(bells@), k as int)))),
{
    let ghost all = class_squares(rows_of(bells@), k as int);
    let mut squares: Vec<Binary64> = Vec::new();
    let mut i: usize = 0;
    while i < bells.len()
        invariant
            i <= bells@.len(),
            forall|j: int| 0 <= j < bells@.len() ==> k < (#[trigger] bells@[j])@.len(),
            all == class_squares(rows_of(bells@), k as int),
            squares@ == all.take(i as int),
        decreases bells@.len() - i,
    {
        squares.push(bells[i][k].times(bells[i][k]));
        i = i + 1;
        assert(squares@ =~= all.take(i as int));
    }
    assert(squares@ =~= all);
    divisor_of(total_of(squares.as_slice()).sqrt())
}

/// The weights of the first `bins` bins in a pitch class.
pub fn class_weights(bells: &Vec<Vec<Binary64>>, tapers: &[Binary64], c: usize, bins: usize) -> (r: Vec<Binary64>)
    requires
        bells@.len() == 12,
        c < 12,
        bins <= tapers@.len(),
        forall|j: int| 0 <= j < bells@.len() ==> bins <= (#[trigger] bells@[j])@.len(),
    ensures
        r@ == Seq::new(bins as nat, |i: int| class_weight(rows_of(bells@), tapers@, c as int, i)),
{
    let ghost want = Seq::new(bins as nat, |i: int| class_weight(rows_of(bells@), tapers@, c as int, i));
    let from: usize = (c + 3) % 12;
    let mut out: Vec<Binary64> = Vec::new();
    let mut k: usize = 0;
    while k < bins
        invariant
            k <= bins as nat,
            bells@.len() == 12,
            from == (c + 3) % 12,
            bins <= tapers@.len(),
            forall|j: int| 0 <= j < bells@.len() ==> bins <= (#[trigger] bells@[j])@.len(),
            want == Seq::new(bins as nat, |i: int| class_weight(rows_of(bells@), tapers@, c as int, i)),
            out@ == want.take(k as int),
        decreases bins as nat - k,
    {
        out.push(to_single(bells[from][k].over(class_length(bells, k)).times(tapers[k])));
        k = k + 1;
        assert(out@ =~= want.take(k as int));
    }
    assert(out@ =~= want);
    out
}

/// The chromagram of a spectrogram: its pitch classes, each frame of unit
/// length.
pub fn chroma_stft(power: &Mat, basis: &Vec<Vec<Binary64>>) -> (r: Mat)
    requires
        power.wf(),
        forall|i: int| 0 <= i < basis@.len() ==> (#[trigger] basis@[i])@.len() <= power.height(),
        basis@.len() * power.width() <= usize::MAX,
    ensures
        r.wf(),
        r.height() == basis@.len(),
        r.width() == power.width(),
        r.grid() == unit_columns(projection(rows_of(basis@), power.grid(), power.width(), false), Norm::Root),
{
    let folded: Mat = project(basis, power, false);
    assert(folded.grid().len() == basis@.len());
    normalize_columns(&folded, Norm::Root)
}

/// The angle of row `row` in coefficient `k` of a cosine transform of `n` rows.
pub open spec fn cosine_angle(row: int, k: int, n: int) -> Binary64 {
    quotient(
        product(product(half_turn(), sum(product(of_int(2), of_int(row)), one())), of_int(k)),
        product(of_int(2), of_int(n)),
    )
}

/// The angles of the rows in a coefficient of a cosine transform of `n` rows.
pub fn cosine_angles(coefficient: usize, n: usize) -> (r: Vec<Binary64>)
    ensures
        r@ == Seq::new(n as nat, |i: int| cosine_angle(i, coefficient as int, n as int)),
{
    let ghost want = Seq::new(n as nat, |i: int| cosine_angle(i, coefficient as int, n as int));
    let two: Binary64 = Binary64::from_u64(2);
    let mut out: Vec<Binary64> = Vec::new();
    let mut k: usize = 0;
    while k < n
        invariant
            k <= n as nat,
            two == of_int(2),
            want == Seq::new(n as nat, |i: int| cosine_angle(i, coefficient as int, n as int)),
            out@ == want.take(k as int),
        decreases n as nat - k,
    {
        let turned: Binary64 = half_turn().times(two.times(Binary64::from_u64(k as u64)).plus(one()));
        out.push(turned.times(Binary64::from_u64(coefficient as u64)).over(two.times(Binary64::from_u64(n as u64))));
        k = k + 1;
        assert(out@ =~= want.take(k as int));
    }
    assert(out@ =~= want);
    out
}

/// What coefficient `k` of a cosine transform of `n` rows is scaled by, so
/// that the transform keeps lengths.
pub open spec fn cosine_scale(k: int, n: int) -> Binary64 {
    square_root(
        quotient(
            if k == 0 {
                one()
            } else {
                of_int(2)
            },
            of_int(n),
        ),
    )
}

/// The first coefficients of the cosine transform of each frame, given the
/// cosines of the angles of each.
pub open spec fn cosine_rows(cosines: Seq<Seq<Binary64>>, input: Seq<Seq<Binary64>>, cols: nat) -> Seq<Seq<Binary64>> {
    Seq::new(
        cosines.len(),
        |k: int|
            Seq::new(
                cols,
                |frame: int|
                    product(
                        cosine_scale(k, input.len() as int),
                        weighted(cosines[k], column_in(input, frame), false, cosines[k].len()),
                    ),
            ),
    )
}

/// Cosine transform of each frame with orthonormal scaling, cut to as many
/// coefficients as there are rows of cosines.
pub fn dct_ortho_rows(input: &Mat, cosines: &Vec<Vec<Binary64>>) -> (r: Mat)
    requires
        input.wf(),
        forall|i: int| 0 <= i < cosines@.len() ==> (#[trigger] cosines@[i])@.len() <= input.height(),
        cosines@.len() * input.width() <= usize::MAX,
    ensures
        r.wf(),
        r.height() == cosines@.len(),
        r.width() == input.width(),
        r.grid() == cosine_rows(rows_of(cosines@), input.grid(), input.width()),
{
    let frames: usize = input.cols();
    let plain: Mat = project(cosines, input, false);
    let ghost want = cosine_rows(rows_of(cosines@), input.grid(), input.width());
    assert(plain.grid().len() == cosines@.len());
    let mut out: Vec<Vec<Binary64>> = Vec::new();
    let mut k: usize = 0;
    assert(rows_of(out@) =~= want.take(0));
    while k < cosines.len()
        invariant
            k <= cosines@.len() == plain.height(),
            plain.wf(),
            frames == plain.width() == input.width(),
            plain.grid() == projection(rows_of(cosines@), input.grid(), input.width(), false),
            want == cosine_rows(rows_of(cosines@), input.grid(), input.width()),
            out@.len() == k,
            rows_of(out@) == want.take(k as int),
            even_rows(rows_of(out@), frames as nat),
        decreases cosines@.len() - k,
    {
        let share: Binary64 = if k == 0 {
            one()
        } else {
            Binary64::from_u64(2)
        };
        let factor: Binary64 = share.over(Binary64::from_u64(input.rows() as u64)).sqrt();
        let row: Vec<Binary64> = scale_row(plain.row(k), factor);
        assert(plain.grid()[k as int] == plain.row_at(k as int));
        assert(row@ =~= want[k as int]);
        let ghost before = out@;
        out.push(row);
        assert(rows_of(out@) =~= rows_of(before).push(row@));
        k = k + 1;
        assert(rows_of(out@) =~= want.take(k as int));
    }
    assert(rows_of(out@) =~= want);
    Mat::of_rows(out, frames)
}

/// Values times a factor.
fn scale_row(values: &[Binary64], factor: Binary64) -> (r: Vec<Binary64>)
    ensures
        r@ == Seq::new(values@.len(), |i: int| product(factor, values@[i])),
{
    let ghost want = Seq::new(values@.len(), |i: int| product(factor, values@[i]));
    let mut out: Vec<Binary64> = Vec::new();
    let mut k: usize = 0;
    while k < values.len()
        invariant
            k <= values@.len(),
            want == Seq::new(values@.len(), |i: int| product(factor, values@[i])),
            out@ == want.take(k as int),
        decreases values@.len() - k,
    {
        out.push(factor.times(values[k]));
        k = k + 1;
        assert(out@ =~= want.take(k as int));
    }
    assert(out@ =~= want);
    out
}

/// How many radii of the tonal circles a pitch class turns, and how wide each
/// circle is: fifths, minor thirds and major thirds.
pub open spec fn tonal_step(p: int) -> Binary64 {
    if p < 2 {
        quotient(of_int(7), of_int(6))
    } else if p < 4 {
        quotient(of_int(3), of_int(2))
    } else {
        quotient(of_int(2), of_int(3))
    }
}

/// The angle of pitch class `c` of `rows` on tonal axis `p`.
pub open spec fn tonal_angle(p: int, c: int, rows: int) -> Binary64 {
    let turned = product(tonal_step(p), quotient(product(of_int(12), of_int(c)), of_int(rows)));
    product(
        half_turn(),
        if p % 2 == 0 {
            difference(turned, half())
        } else {
            turned
        },
    )
}

/// The angles of the pitch classes on a tonal axis.
pub fn tonal_angles(axis: usize, rows: usize) -> (r: Vec<Binary64>)
    ensures
        r@ == Seq::new(rows as nat, |i: int| tonal_angle(axis as int, i, rows as int)),
{
    let ghost want = Seq::new(rows as nat, |i: int| tonal_angle(axis as int, i, rows as int));
    let step: Binary64 = if axis < 2 {
        Binary64::from_u64(7).over(Binary64::from_u64(6))
    } else if axis < 4 {
        Binary64::from_u64(3).over(Binary64::from_u64(2))
    } else {
        Binary64::from_u64(2).over(Binary64::from_u64(3))
    };
    let twelve: Binary64 = Binary64::from_u64(12);
    let all: Binary64 = Binary64::from_u64(rows as u64);
    let mut out: Vec<Binary64> = Vec::new();
    let mut k: usize = 0;
    while k < rows
        invariant
            k <= rows as nat,
            step == tonal_step(axis as int),
            twelve == of_int(12),
            all == of_int(rows as int),
            want == Seq::new(rows as nat, |i: int| tonal_angle(axis as int, i, rows as int)),
            out@ == want.take(k as int),
        decreases rows as nat - k,
    {
        out.push(if axis % 2 == 0 {
            half_turn().times(step.times(twelve.times(Binary64::from_u64(k as u64)).over(all)).minus(half()))
        } else {
            half_turn().times(step.times(twelve.times(Binary64::from_u64(k as u64)).over(all)))
        });
        k = k + 1;
        assert(out@ =~= want.take(k as int));
    }
    assert(out@ =~= want);
    out
}

/// The weights of the pitch classes on each tonal axis, given the cosines of
/// their angles: major thirds go half as far as the others.
pub open spec fn tonal_weights(cosines: Seq<Seq<Binary64>>) -> Seq<Seq<Binary64>> {
    Seq::new(
        cosines.len(),
        |p: int|
            Seq::new(
                cosines[p].len(),
                |c: int|
                    product(
                        if p < 4 {
                            one()
                        } else {
                            half()
                        },
                        cosines[p][c],
                    ),
            ),
    )
}

/// The tonal centroids of a chromagram, given the cosines of the angles of the
/// pitch classes on each axis.
pub fn tonnetz(chroma: &Mat, cosines: &Vec<Vec<Binary64>>) -> (r: Mat)
    requires
        chroma.wf(),
        chroma.height() * chroma.width() <= usize::MAX,
        forall|i: int| 0 <= i < cosines@.len() ==> (#[trigger] cosines@[i])@.len() <= chroma.height(),
        cosines@.len() * chroma.width() <= usize::MAX,
    ensures
        r.wf(),
        r.height() == cosines@.len(),
        r.width() == chroma.width(),
        r.grid() == projection(
            tonal_weights(rows_of(cosines@)),
            unit_columns(chroma.grid(), Norm::Sum),
            chroma.width(),
            false,
        ),
{
    let shares: Mat = normalize_columns(chroma, Norm::Sum);
    assert(shares.grid().len() == chroma.height());
    let ghost want = tonal_weights(rows_of(cosines@));
    let mut weights: Vec<Vec<Binary64>> = Vec::new();
    let mut p: usize = 0;
    assert(rows_of(weights@) =~= want.take(0));
    while p < cosines.len()
        invariant
            p <= cosines@.len(),
            want == tonal_weights(rows_of(cosines@)),
            weights@.len() == p,
            rows_of(weights@) == want.take(p as int),
            forall|i: int| 0 <= i < p ==> (#[trigger] weights@[i])@.len() == cosines@[i]@.len(),
        decreases cosines@.len() - p,
    {
        let radius: Binary64 = if p < 4 {
            one()
        } else {
            half()
        };
        let row: Vec<Binary64> = scale_row(cosines[p].as_slice(), radius);
        assert(row@ =~= want[p as int]);
        let ghost before = weights@;
        weights.push(row);
        assert(rows_of(weights@) =~= rows_of(before).push(row@));
        p = p + 1;
        assert(rows_of(weights@) =~= want.take(p as int));
    }
    assert(rows_of(weights@) =~= want);
    let out: Mat = project(&weights, &shares, false);
    assert(out.grid().len() == cosines@.len());
    out
}

} // verus!
