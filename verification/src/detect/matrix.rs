//! A dense row-major matrix, sized once and never resized.

use crate::number::lists::{even_rows, highest, rows_of, slice_to_vec};
use crate::number::binary64::{minus_infinity, zero, Binary64};
use vstd::prelude::*;
use vstd::slice::slice_subrange;

verus! {

/// `rows` x `cols` numbers, stored row by row.
#[derive(Debug, Clone)]
pub struct Mat {
    rows: usize,
    cols: usize,
    data: Vec<Binary64>,
}

/// Cell `(r, c)` of a matrix with `cols` columns has its place in the data.
proof fn lemma_place(r: int, c: int, rows: int, cols: int)
    requires
        0 <= r < rows,
        0 <= c < cols,
    ensures
        0 <= r * cols + c < rows * cols,
        r * cols + cols <= rows * cols,
        0 <= r * cols,
{
    assert(0 <= r * cols && r * cols + cols <= rows * cols) by (nonlinear_arith)
        requires
            0 <= r,
            r + 1 <= rows,
            0 < cols,
    ;
}

/// No two cells share a place.
proof fn lemma_place_unique(r: int, c: int, s: int, d: int, cols: int)
    requires
        0 <= c < cols,
        0 <= d < cols,
        r * cols + c == s * cols + d,
    ensures
        r == s,
        c == d,
{
    assert(r == s) by (nonlinear_arith)
        requires
            0 <= c < cols,
            0 <= d < cols,
            r * cols + c == s * cols + d,
    ;
}

/// The rows of the first `n` matrices, one above the next.
pub open spec fn stacked_rows(parts: Seq<Mat>, n: nat) -> Seq<Seq<Binary64>>
    decreases n,
{
    if n == 0 {
        seq![]
    } else {
        stacked_rows(parts, (n - 1) as nat) + parts[n - 1].grid()
    }
}

impl Mat {
    /// How many rows there are.
    pub closed spec fn height(self) -> nat {
        self.rows as nat
    }

    /// How many columns there are.
    pub closed spec fn width(self) -> nat {
        self.cols as nat
    }

    /// All values, row by row.
    pub closed spec fn flat(self) -> Seq<Binary64> {
        self.data@
    }

    /// Whether there is a value for every cell.
    pub open spec fn wf(self) -> bool {
        self.flat().len() == self.height() * self.width()
    }

    /// The value in row `r` and column `c`.
    pub open spec fn at(self, r: int, c: int) -> Binary64 {
        self.flat()[r * self.width() + c]
    }

    /// Row `r`.
    pub open spec fn row_at(self, r: int) -> Seq<Binary64> {
        Seq::new(self.width(), |c: int| self.at(r, c))
    }

    /// Column `c`.
    pub open spec fn column_at(self, c: int) -> Seq<Binary64> {
        Seq::new(self.height(), |r: int| self.at(r, c))
    }

    /// The rows one behind the other.
    pub open spec fn grid(self) -> Seq<Seq<Binary64>> {
        Seq::new(self.height(), |r: int| self.row_at(r))
    }

    /// A matrix of zeros.
    pub fn zeros(rows: usize, cols: usize) -> (m: Self)
        requires
            rows * cols <= usize::MAX,
        ensures
            m.wf(),
            m.height() == rows,
            m.width() == cols,
            m.flat().len() == rows * cols,
            forall|i: int| 0 <= i < m.flat().len() ==> #[trigger] m.flat()[i] == zero(),
    {
        let n: usize = rows * cols;
        let mut data: Vec<Binary64> = Vec::new();
        let mut i: usize = 0;
        while i < n
            invariant
                i <= n,
                data@.len() == i,
                forall|j: int| 0 <= j < i ==> #[trigger] data@[j] == zero(),
            decreases n - i,
        {
            data.push(zero());
            i = i + 1;
        }
        Mat { rows, cols, data }
    }

    /// A matrix of the given rows, which have one length.
    pub fn from_rows(rows: Vec<Vec<Binary64>>) -> (m: Self)
        requires
            forall|i: int| 0 <= i < rows@.len() ==> (#[trigger] rows@[i])@.len() == rows@[0]@.len(),
            rows@.len() > 0 ==> rows@.len() * rows@[0]@.len() <= usize::MAX,
        ensures
            m.wf(),
            m.height() == rows@.len(),
            m.width() == (if rows@.len() > 0 {
                rows@[0]@.len()
            } else {
                0
            }),
            forall|r: int, c: int| 0 <= r < m.height() && 0 <= c < m.width() ==> #[trigger] m.at(r, c) == rows@[r]@[c],
    {
        let n: usize = rows.len();
        let cols: usize = if n > 0 {
            rows[0].len()
        } else {
            0
        };
        let mut data: Vec<Binary64> = Vec::new();
        let mut r: usize = 0;
        while r < n
            invariant
                r <= n == rows@.len(),
                n > 0 ==> cols == rows@[0]@.len(),
                forall|i: int| 0 <= i < rows@.len() ==> (#[trigger] rows@[i])@.len() == cols,
                data@.len() == r * cols,
                forall|i: int, c: int|
                    0 <= i < r && 0 <= c < cols ==> data@[#[trigger] (i * cols + c)] == rows@[i]@[c],
            decreases n - r,
        {
            let mut c: usize = 0;
            while c < cols
                invariant
                    r < n == rows@.len(),
                    rows@[r as int]@.len() == cols,
                    c <= cols,
                    data@.len() == r * cols + c,
                    forall|i: int, d: int|
                        0 <= i < r && 0 <= d < cols ==> data@[#[trigger] (i * cols + d)] == rows@[i]@[d],
                    forall|d: int| 0 <= d < c ==> data@[#[trigger] (r * cols + d)] == rows@[r as int]@[d],
                decreases cols - c,
            {
                let ghost before = data@;
                data.push(rows[r][c]);
                proof {
                    assert forall|i: int, d: int| 0 <= i < r && 0 <= d < cols implies data@[#[trigger] (i * cols + d)]
                        == rows@[i]@[d] by {
                        lemma_place(i, d, r as int, cols as int);
                        assert(data@[i * cols + d] == before[i * cols + d]);
                    }
                    assert forall|d: int| 0 <= d < c + 1 implies data@[#[trigger] (r * cols + d)] == rows@[r as int]@[d] by {
                        if d < c {
                            assert(data@[r * cols + d] == before[r * cols + d]);
                        }
                    }
                }
                c = c + 1;
            }
            assert((r + 1) * cols == r * cols + cols) by (nonlinear_arith);
            r = r + 1;
            assert forall|i: int, d: int| 0 <= i < r && 0 <= d < cols implies data@[#[trigger] (i * cols + d)]
                == rows@[i]@[d] by {
                if i == r - 1 {
                    assert(data@[(r - 1) * cols + d] == rows@[r - 1]@[d]);
                }
            }
        }
        Mat { rows: n, cols, data }
    }

    /// A matrix of the given rows, each of `cols` values.
    pub fn of_rows(rows: Vec<Vec<Binary64>>, cols: usize) -> (m: Self)
        requires
            even_rows(rows_of(rows@), cols as nat),
            rows@.len() * cols <= usize::MAX,
        ensures
            m.wf(),
            m.height() == rows@.len(),
            m.width() == cols,
            m.grid() == rows_of(rows@),
    {
        let ghost want = rows_of(rows@);
        let n: usize = rows.len();
        if n == 0 {
            let m: Mat = Mat::zeros(0, cols);
            assert(m.grid() =~= want);
            return m;
        }
        assert forall|i: int| 0 <= i < rows@.len() implies (#[trigger] rows@[i])@.len() == rows@[0]@.len() by {
            assert(want[i].len() == cols);
            assert(want[0].len() == cols);
        }
        assert(want[0].len() == cols);
        let m: Mat = Mat::from_rows(rows);
        assert forall|r: int| 0 <= r < want.len() implies #[trigger] m.grid()[r] == want[r] by {
            assert(want[r].len() == cols);
            assert forall|c: int| 0 <= c < cols implies m.row_at(r)[c] == want[r][c] by {
                assert(m.at(r, c) == rows@[r]@[c]);
            }
            assert(m.row_at(r) =~= want[r]);
        }
        assert(m.grid() =~= want);
        m
    }

    /// The rows, copied out.
    pub fn to_rows(&self) -> (rows: Vec<Vec<Binary64>>)
        requires
            self.wf(),
        ensures
            rows_of(rows@) == self.grid(),
            rows@.len() == self.height(),
            even_rows(rows_of(rows@), self.width()),
    {
        let ghost want = self.grid();
        let mut out: Vec<Vec<Binary64>> = Vec::new();
        let mut r: usize = 0;
        assert(rows_of(out@) =~= want.take(0));
        while r < self.rows()
            invariant
                self.wf(),
                r <= self.height(),
                want == self.grid(),
                rows_of(out@) == want.take(r as int),
            decreases self.height() - r,
        {
            let line: Vec<Binary64> = slice_to_vec(self.row(r));
            let ghost before = out@;
            out.push(line);
            assert(rows_of(out@) =~= rows_of(before).push(line@));
            r = r + 1;
            assert(rows_of(out@) =~= want.take(r as int));
        }
        assert(rows_of(out@) =~= want);
        assert(rows_of(out@).len() == out@.len());
        out
    }

    /// Matrices that share a column count, one above the next.
    pub fn vstack(parts: &Vec<Mat>) -> (m: Self)
        requires
            forall|i: int| 0 <= i < parts@.len() ==> (#[trigger] parts@[i]).wf(),
            forall|i: int| 0 <= i < parts@.len() ==> (#[trigger] parts@[i]).width() == parts@[0].width(),
            parts@.len() > 0 ==> stacked_rows(parts@, parts@.len()).len() * parts@[0].width() <= usize::MAX,
        ensures
            m.wf(),
            m.grid() == stacked_rows(parts@, parts@.len()),
            parts@.len() > 0 ==> m.width() == parts@[0].width(),
    {
        let mut rows: Vec<Vec<Binary64>> = Vec::new();
        let cols: usize = if parts.len() == 0 {
            0
        } else {
            parts[0].cols()
        };
        let mut i: usize = 0;
        assert(rows_of(rows@) =~= stacked_rows(parts@, 0));
        while i < parts.len()
            invariant
                i <= parts@.len(),
                forall|k: int| 0 <= k < parts@.len() ==> (#[trigger] parts@[k]).wf(),
                forall|k: int| 0 <= k < parts@.len() ==> (#[trigger] parts@[k]).width() == cols,
                rows_of(rows@) == stacked_rows(parts@, i as nat),
                even_rows(rows_of(rows@), cols as nat),
            decreases parts@.len() - i,
        {
            let mut more: Vec<Vec<Binary64>> = parts[i].to_rows();
            let ghost before = rows@;
            let ghost new = more@;
            rows.append(&mut more);
            assert(rows_of(rows@) =~= rows_of(before) + rows_of(new));
            i = i + 1;
        }
        assert(rows_of(rows@).len() == rows@.len());
        proof {
            if parts@.len() == 0 {
                assert(rows@.len() * cols == 0);
            }
        }
        Mat::of_rows(rows, cols)
    }

    /// How many rows there are.
    pub fn rows(&self) -> (r: usize)
        ensures
            r == self.height(),
    {
        self.rows
    }

    /// How many columns there are.
    pub fn cols(&self) -> (r: usize)
        ensures
            r == self.width(),
    {
        self.cols
    }

    /// Whether there are no values.
    pub fn is_empty(&self) -> (r: bool)
        requires
            self.wf(),
        ensures
            r == (self.height() * self.width() == 0),
    {
        self.data.len() == 0
    }

    /// Row `r`.
    pub fn row(&self, r: usize) -> (s: &[Binary64])
        requires
            self.wf(),
            r < self.height(),
        ensures
            s@ == self.row_at(r as int),
    {
        proof {
            if self.cols > 0 {
                lemma_place(r as int, 0, self.rows as int, self.cols as int);
            } else {
                assert(r * self.cols == 0) by (nonlinear_arith)
                    requires
                        self.cols == 0,
                ;
            }
        }
        let total: usize = self.data.len();
        let from: usize = r * self.cols;
        let s: &[Binary64] = slice_subrange(self.data.as_slice(), from, from + self.cols);
        assert(s@ =~= self.row_at(r as int));
        s
    }

    /// The value in row `r` and column `c`.
    pub fn get(&self, r: usize, c: usize) -> (v: Binary64)
        requires
            self.wf(),
            r < self.height(),
            c < self.width(),
        ensures
            v == self.at(r as int, c as int),
    {
        proof {
            lemma_place(r as int, c as int, self.rows as int, self.cols as int);
        }
        let total: usize = self.data.len();
        self.data[r * self.cols + c]
    }

    /// Puts a value into row `r` and column `c`.
    pub fn set(&mut self, r: usize, c: usize, value: Binary64)
        requires
            old(self).wf(),
            r < old(self).height(),
            c < old(self).width(),
        ensures
            final(self).wf(),
            final(self).height() == old(self).height(),
            final(self).width() == old(self).width(),
            final(self).flat() == old(self).flat().update(r * old(self).width() + c, value),
            final(self).at(r as int, c as int) == value,
            forall|s: int, d: int|
                0 <= s < old(self).height() && 0 <= d < old(self).width() && (s != r || d != c) ==> #[trigger] final(self).at(
                    s,
                    d,
                ) == old(self).at(s, d),
    {
        proof {
            lemma_place(r as int, c as int, self.rows as int, self.cols as int);
            assert forall|s: int, d: int|
                0 <= s < self.height() && 0 <= d < self.width() && (s != r || d != c) implies s * self.cols + d != r
                * self.cols + c && 0 <= #[trigger] (s * self.cols + d) < self.data@.len() by {
                lemma_place(s, d, self.rows as int, self.cols as int);
                if s * self.cols + d == r * self.cols + c {
                    lemma_place_unique(s, d, r as int, c as int, self.cols as int);
                }
            }
        }
        let total: usize = self.data.len();
        let at: usize = r * self.cols + c;
        self.data.set(at, value);
    }

    /// All values, row by row.
    pub fn as_slice(&self) -> (s: &[Binary64])
        ensures
            s@ == self.flat(),
    {
        self.data.as_slice()
    }

    /// All values, row by row, to change in place.
    pub fn as_mut_slice(&mut self) -> (s: &mut [Binary64])
        ensures
            s@ == old(self).flat(),
            final(self).height() == old(self).height(),
            final(self).width() == old(self).width(),
            final(self).flat() == final(s)@,
    {
        self.data.as_mut_slice()
    }

    /// Row `r`, to change in place.
    pub fn row_mut(&mut self, r: usize) -> (s: &mut [Binary64])
        requires
            old(self).wf(),
            r < old(self).height(),
        ensures
            s@ == old(self).row_at(r as int),
            final(self).height() == old(self).height(),
            final(self).width() == old(self).width(),
            final(self).flat() == old(self).flat().take(r * old(self).width()) + final(s)@ + old(self).flat().skip(
                r * old(self).width() + old(self).width(),
            ),
    {
        let cols: usize = self.cols;
        let count: usize = self.data.len();
        proof {
            if cols > 0 {
                lemma_place(r as int, 0, self.rows as int, cols as int);
            } else {
                assert(r * cols == 0) by (nonlinear_arith)
                    requires
                        cols == 0,
                ;
            }
        }
        let at: usize = r * cols;
        let ghost all = self.data@;
        assert(all.subrange(at as int, at + cols) =~= self.row_at(r as int));
        let (_above, rest): (&mut [Binary64], &mut [Binary64]) = self.data.as_mut_slice().split_at_mut(at);
        let (row, _below): (&mut [Binary64], &mut [Binary64]) = rest.split_at_mut(cols);
        row
    }

    /// A matrix of the same shape, every value put through a function.
    pub fn map(&self, f: impl Fn(Binary64) -> Binary64) -> (m: Mat)
        requires
            forall|i: int| 0 <= i < self.flat().len() ==> call_requires(f, (#[trigger] self.flat()[i],)),
        ensures
            m.height() == self.height(),
            m.width() == self.width(),
            m.flat().len() == self.flat().len(),
            forall|i: int|
                0 <= i < self.flat().len() ==> call_ensures(f, (self.flat()[i],), #[trigger] m.flat()[i]),
    {
        let mut data: Vec<Binary64> = Vec::new();
        let mut i: usize = 0;
        while i < self.data.len()
            invariant
                i <= self.data@.len(),
                data@.len() == i,
                forall|k: int| 0 <= k < self.flat().len() ==> call_requires(f, (#[trigger] self.flat()[k],)),
                forall|k: int| 0 <= k < i ==> call_ensures(f, (self.flat()[k],), #[trigger] data@[k]),
            decreases self.data@.len() - i,
        {
            assert(self.flat()[i as int] == self.data@[i as int]);
            data.push(f(self.data[i]));
            i = i + 1;
        }
        Mat { rows: self.rows, cols: self.cols, data }
    }

    /// A matrix of the same shape with other values, row by row.
    pub fn with_values(&self, data: Vec<Binary64>) -> (m: Mat)
        ensures
            m.height() == self.height(),
            m.width() == self.width(),
            m.flat() == data@,
    {
        Mat { rows: self.rows, cols: self.cols, data }
    }

    /// One column, copied out.
    pub fn column(&self, c: usize) -> (v: Vec<Binary64>)
        requires
            self.wf(),
            c < self.width(),
        ensures
            v@ == self.column_at(c as int),
    {
        let mut out: Vec<Binary64> = Vec::new();
        let mut r: usize = 0;
        while r < self.rows()
            invariant
                self.wf(),
                r <= self.height(),
                c < self.width(),
                out@ == self.column_at(c as int).take(r as int),
            decreases self.height() - r,
        {
            out.push(self.get(r, c));
            r = r + 1;
            assert(out@ =~= self.column_at(c as int).take(r as int));
        }
        assert(out@ =~= self.column_at(c as int));
        out
    }

    /// The largest value; negative infinity of nothing.
    pub fn max(&self) -> (m: Binary64)
        ensures
            m == highest(self.flat()),
    {
        let mut out: Binary64 = minus_infinity();
        let mut i: usize = 0;
        while i < self.data.len()
            invariant
                i <= self.data@.len(),
                out == highest(self.data@.take(i as int)),
            decreases self.data@.len() - i,
        {
            out = out.max(self.data[i]);
            assert(self.data@.take(i + 1).drop_last() =~= self.data@.take(i as int));
            i = i + 1;
        }
        assert(self.data@.take(self.data@.len() as int) =~= self.data@);
        out
    }
}

} // verus!
