//! Reproducible noise, identical on every platform and in every run.

use crate::number::binary64::{
    difference, negated, of_int, one, product, quotient, smaller, sum, zero, Binary64, NAN_BITS,
};
use crate::number::laws::{law_addition_keeps_the_order, law_small_integers_are_exact};
use crate::number::lists::rows_of;
use crate::number::integral::lemma_rounded_exact;
use crate::number::rounding::{
    code_scale, code_significand, lemma_pow2_step, lemma_pow2_sum, magnitude, rounded, INFINITE_CODE, TWO_52,
};
use vstd::arithmetic::power2::pow2;
use vstd::prelude::*;

verus! {

/// A 32-bit xorshift generator.
#[derive(Debug, Clone)]
pub struct Xorshift {
    state: u32,
}

/// The state after a step.
pub open spec fn stirred(state: u32) -> u32 {
    let a = state ^ (state << 13);
    let b = a ^ (a >> 17);
    b ^ (b << 5)
}

/// The state after some steps.
pub open spec fn stirred_times(state: u32, n: nat) -> u32
    decreases n,
{
    if n == 0 {
        state
    } else {
        stirred(stirred_times(state, (n - 1) as nat))
    }
}

/// The largest number below one.
#[verifier::allow_in_spec]
pub fn below_one() -> Binary64
    returns
        (Binary64 { bits: 0x3FEF_FFFF_FFFF_FFFF }),
{
    Binary64 { bits: 0x3FEF_FFFF_FFFF_FFFF }
}

/// The share of its range that a state stands for.
pub open spec fn share_of(state: u32) -> Binary64 {
    quotient(of_int(state as int), of_int(u32::MAX as int))
}

/// The number in `[-1, 1)` that a state stands for.
pub open spec fn unit_of(state: u32) -> Binary64 {
    smaller(difference(product(share_of(state), of_int(2)), one()), below_one())
}

/// Rounding gives the code of a number.
proof fn lemma_rounded_is_a_code(n: nat, d: nat)
    ensures
        rounded(n, d) <= INFINITE_CODE,
{
}

/// One less than zero is minus one.
proof fn lemma_zero_less_one()
    ensures
        difference(of_int(0), one()) == of_int(-1),
{
    law_small_integers_are_exact(0);
    law_small_integers_are_exact(-1);
    let p = pow2(1074);
    lemma_pow2_step(1074);
    assert(0 * p == 0 && -1 * p == -p);
    lemma_rounded_exact(of_int(-1).code());
    lemma_one_is_one();
    assert(magnitude(of_int(-1).code()) == p);
}

/// One holds one.
proof fn lemma_one_is_one()
    ensures
        one().finite(),
        one().units() == pow2(1074),
{
    let c = one().code();
    assert(c == 0x3FF0_0000_0000_0000);
    assert(code_scale(c) == 1022 && code_significand(c) == TWO_52);
    lemma_pow2_sum(52, 1022);
    vstd::arithmetic::power2::lemma2_to64_rest();
}

/// Every number drawn lies in `[-1, 1)`.
pub proof fn law_noise_is_bounded(state: u32)
    ensures
        of_int(-1).spec_le(unit_of(state)),
        unit_of(state).spec_lt(one()),
{
    law_small_integers_are_exact(state as int);
    law_small_integers_are_exact(u32::MAX as int);
    law_small_integers_are_exact(2);
    law_small_integers_are_exact(1);
    law_small_integers_are_exact(0);
    law_small_integers_are_exact(-1);
    let p = pow2(1074);
    lemma_pow2_step(1074);
    let whole = of_int(u32::MAX as int);
    assert(u32::MAX as int * p > 0) by (nonlinear_arith)
        requires
            p > 0,
    ;
    lemma_pow2_step(0);
    assert(magnitude(0) == 0) by {
        assert(0 * pow2(0) == 0);
    }
    assert(whole.code() != 0);
    lemma_rounded_is_a_code(magnitude(of_int(state as int).code()) * p, magnitude(whole.code()));
    let share = share_of(state);
    assert(!share.nan() && !share.negative());
    lemma_rounded_is_a_code(magnitude(share.code()) * magnitude(of_int(2).code()), p);
    let doubled = product(share, of_int(2));
    assert(of_int(2).code() != 0);
    assert(!doubled.nan() && !doubled.negative());
    assert(of_int(0).rank() == 0) by {
        assert(0 * p == 0);
    }
    assert(of_int(0).spec_le(doubled));
    law_addition_keeps_the_order(of_int(0), doubled, negated(one()));
    lemma_zero_less_one();
}

/// The state a seed starts from; no generator starts from zero.
pub open spec fn seeded(seed: u32) -> u32 {
    if seed == 0 {
        0x1234_5678
    } else {
        seed
    }
}

impl View for Xorshift {
    type V = u32;

    closed spec fn view(&self) -> u32 {
        self.state
    }
}

impl Xorshift {
    /// A generator that starts from a seed.
    pub fn new(seed: u32) -> (r: Self)
        ensures
            r@ == seeded(seed),
    {
        Xorshift { state: if seed == 0 { 0x1234_5678 } else { seed } }
    }

    /// The next number, in `[-1, 1)`.
    pub fn next_unit(&mut self) -> (r: Binary64)
        ensures
            final(self)@ == stirred(old(self)@),
            r == unit_of(final(self)@),
            of_int(-1).spec_le(r),
            r.spec_lt(one()),
    {
        let a: u32 = self.state ^ (self.state << 13);
        let b: u32 = a ^ (a >> 17);
        self.state = b ^ (b << 5);
        let share: Binary64 = Binary64::from_u64(self.state as u64).over(Binary64::from_u64(u32::MAX as u64));
        proof {
            law_noise_is_bounded(self.state);
        }
        share.times(Binary64::from_u64(2)).minus(one()).min(below_one())
    }
}

/// A generator that is not stuck never gets stuck.
pub proof fn law_noise_goes_on(seed: u32, n: nat)
    ensures
        stirred_times(seeded(seed), n) != 0,
    decreases n,
{
    if n > 0 {
        law_noise_goes_on(seed, (n - 1) as nat);
        let s = stirred_times(seeded(seed), (n - 1) as nat);
        let a = s ^ (s << 13);
        let b = a ^ (a >> 17);
        assert(a != 0) by (bit_vector)
            requires
                s != 0,
                a == s ^ (s << 13),
        ;
        assert(b != 0) by (bit_vector)
            requires
                a != 0,
                b == a ^ (a >> 17),
        ;
        assert(b ^ (b << 5) != 0) by (bit_vector)
            requires
                b != 0,
        ;
    }
}

/// The cell of a random matrix after which `cells` have been drawn. Every 97th
/// is missing.
pub open spec fn random_cell(seed: u32, cells: nat) -> Binary64 {
    if cells % 97 == 0 {
        Binary64 { bits: NAN_BITS }
    } else {
        product(of_int(3), unit_of(stirred_times(seeded(seed), cells)))
    }
}

/// Row `r` of a random matrix.
pub open spec fn random_row(seed: u32, cols: nat, r: int) -> Seq<Binary64> {
    Seq::new(cols, |c: int| random_cell(seed, (r * cols + c + 1) as nat))
}

/// A random matrix, its cells drawn row by row.
pub fn random_matrix(seed: u32, rows: usize, cols: usize) -> (r: Vec<Vec<Binary64>>)
    requires
        rows * cols < usize::MAX,
    ensures
        rows_of(r@) == Seq::new(rows as nat, |i: int| random_row(seed, cols as nat, i)),
{
    let ghost want = Seq::new(rows as nat, |i: int| random_row(seed, cols as nat, i));
    let mut noise: Xorshift = Xorshift::new(seed);
    let mut cell: usize = 0;
    let mut out: Vec<Vec<Binary64>> = Vec::new();
    let mut i: usize = 0;
    assert(rows_of(out@) =~= want.take(0));
    assert(0 * cols == 0) by (nonlinear_arith);
    while i < rows
        invariant
            i <= rows,
            rows * cols < usize::MAX,
            cell == i * cols,
            noise@ == stirred_times(seeded(seed), cell as nat),
            want == Seq::new(rows as nat, |k: int| random_row(seed, cols as nat, k)),
            rows_of(out@) == want.take(i as int),
        decreases rows - i,
    {
        let ghost line = random_row(seed, cols as nat, i as int);
        assert((i + 1) * cols == i * cols + cols && (i + 1) * cols <= rows * cols) by (nonlinear_arith)
            requires
                i < rows,
        ;
        let mut row: Vec<Binary64> = Vec::new();
        let mut j: usize = 0;
        while j < cols
            invariant
                j <= cols,
                cell == i * cols + j,
                i * cols + cols < usize::MAX,
                noise@ == stirred_times(seeded(seed), cell as nat),
                line == random_row(seed, cols as nat, i as int),
                row@ == line.take(j as int),
            decreases cols - j,
        {
            let value: Binary64 = Binary64::from_u64(3).times(noise.next_unit());
            cell = cell + 1;
            if cell % 97 == 0 {
                row.push(Binary64::from_bits(NAN_BITS));
            } else {
                row.push(value);
            }
            j = j + 1;
            assert(row@ =~= line.take(j as int));
        }
        assert(row@ =~= line);
        let ghost before = out@;
        out.push(row);
        assert(rows_of(out@) =~= rows_of(before).push(line));
        i = i + 1;
        assert(rows_of(out@) =~= want.take(i as int));
    }
    assert(rows_of(out@) =~= want);
    out
}

/// A running sum over the finite cells of the first `n` of a row.
pub open spec fn finite_sum(row: Seq<Binary64>, from: Binary64, n: nat) -> Binary64
    decreases n,
{
    if n == 0 {
        from
    } else {
        let before = finite_sum(row, from, (n - 1) as nat);
        if row[n - 1].finite() {
            sum(before, row[n - 1])
        } else {
            before
        }
    }
}

/// The sum of the finite cells of the first `n` rows, row by row.
pub open spec fn checksum(rows: Seq<Seq<Binary64>>, n: nat) -> Binary64
    decreases n,
{
    if n == 0 {
        zero()
    } else {
        finite_sum(rows[n - 1], checksum(rows, (n - 1) as nat), rows[n - 1].len())
    }
}

/// The sum of the finite cells, row by row.
pub fn matrix_checksum(rows: &Vec<Vec<Binary64>>) -> (r: Binary64)
    ensures
        r == checksum(rows_of(rows@), rows@.len()),
{
    let ghost cells = rows_of(rows@);
    let mut out: Binary64 = zero();
    let mut i: usize = 0;
    while i < rows.len()
        invariant
            i <= rows@.len(),
            cells == rows_of(rows@),
            out == checksum(cells, i as nat),
        decreases rows@.len() - i,
    {
        let ghost start = out;
        let mut j: usize = 0;
        while j < rows[i].len()
            invariant
                i < rows@.len(),
                j <= rows@[i as int]@.len(),
                out == finite_sum(rows@[i as int]@, start, j as nat),
            decreases rows@[i as int]@.len() - j,
        {
            if rows[i][j].is_finite() {
                out = out.plus(rows[i][j]);
            }
            j = j + 1;
        }
        assert(cells[i as int] == rows@[i as int]@);
        i = i + 1;
    }
    out
}

} // verus!
