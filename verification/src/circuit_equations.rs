//! What the circuits ask of a row: every constraint as an equation between cells, in order.
use crate::air;
use crate::constraint;
use crate::constraint::Term;
use crate::mldsa_az_air;
use crate::mldsa_az_full_air;
use crate::mldsa_ct1_full_air;
use crate::mldsa_hint_weight_air;
use crate::mldsa_intt_air;
use crate::mldsa_intt_batch_air;
use crate::mldsa_norm_check_air;
use crate::mldsa_norm_check_batch_air;
use vstd::arithmetic::power2::*;
use vstd::prelude::*;

verus! {

/// The number whose 23 binary digits stand in the cells from `at` on, lowest first.
pub open spec fn number_at(row: Seq<int>, at: int) -> int {
    row[at] + 2 * row[at + 1] + 4 * row[at + 2] + 8 * row[at + 3] + 16 * row[at + 4]
        + 32 * row[at + 5] + 64 * row[at + 6] + 128 * row[at + 7] + 256 * row[at + 8]
        + 512 * row[at + 9] + 1024 * row[at + 10] + 2048 * row[at + 11] + 4096 * row[at + 12]
        + 8192 * row[at + 13] + 16384 * row[at + 14] + 32768 * row[at + 15] + 65536 * row[at + 16]
        + 131072 * row[at + 17] + 262144 * row[at + 18] + 524288 * row[at + 19]
        + 1048576 * row[at + 20] + 2097152 * row[at + 21] + 4194304 * row[at + 22]
}

/// A term is its coefficient times one, two or three cells.
pub proof fn lemma_term_values(coeff: i64, x: usize, y: usize, z: usize, row: Seq<int>)
    ensures
        constraint::value(seq![Term::Linear { coeff, x }], row) == coeff * row[x as int],
        constraint::value(seq![Term::Quadratic { coeff, x, y }], row) == coeff * (row[x as int]
            * row[y as int]),
        constraint::value(seq![Term::Cubic { coeff, x, y, z }], row) == coeff * ((row[x as int]
            * row[y as int]) * row[z as int]),
{
    reveal_with_fuel(constraint::partial_value, 2);
}

proof fn lemma_partial_prefix(a: Seq<Term>, b: Seq<Term>, row: Seq<int>, n: nat)
    requires
        n <= a.len(),
    ensures
        constraint::partial_value(a + b, row, n) == constraint::partial_value(a, row, n),
    decreases n,
{
    if n > 0 {
        lemma_partial_prefix(a, b, row, (n - 1) as nat);
        assert((a + b)[n - 1] == a[n - 1]);
    }
}

proof fn lemma_partial_concat(a: Seq<Term>, b: Seq<Term>, row: Seq<int>, n: nat)
    requires
        n <= b.len(),
    ensures
        constraint::partial_value(a + b, row, a.len() + n) == constraint::value(a, row)
            + constraint::partial_value(b, row, n),
    decreases n,
{
    if n == 0 {
        lemma_partial_prefix(a, b, row, a.len());
    } else {
        lemma_partial_concat(a, b, row, (n - 1) as nat);
        assert((a + b)[a.len() + n - 1] == b[n - 1]);
        assert((a.len() + n - 1) as nat == a.len() + (n - 1) as nat);
    }
}

/// The value of a constraint is the sum of its terms; it holds where the value is a multiple
/// of `2^31 - 1`, and that is what is left of it after reduction.
pub proof fn lemma_constraint_values(a: Seq<Term>, b: Seq<Term>, row: Seq<int>)
    ensures
        constraint::value(Seq::empty(), row) == 0,
        constraint::value(a + b, row) == constraint::value(a, row) + constraint::value(b, row),
        constraint::holds(a, row) <==> constraint::value(a, row) % 0x7fffffff == 0,
        constraint::residues(seq![a, b], row).len() == 2,
        constraint::residues(seq![a, b], row)[0] as int == constraint::value(a, row) % 0x7fffffff,
        constraint::residues(seq![a, b], row)[1] as int == constraint::value(b, row) % 0x7fffffff,
{
    lemma_partial_concat(a, b, row, b.len());
    assert(seq![a, b][0] == a && seq![a, b][1] == b);
}

/// A system of constraints is met where each of its constraints holds.
pub proof fn lemma_system_met(cs: Seq<Seq<Term>>, row: Seq<int>)
    ensures
        constraint::satisfies(cs, row) <==> forall|i: int|
            0 <= i < cs.len() ==> constraint::value(#[trigger] cs[i], row) % 0x7fffffff == 0,
        constraint::residues(cs, row).len() == cs.len(),
        forall|i: int|
            0 <= i < cs.len() ==> #[trigger] constraint::residues(cs, row)[i] as int
                == constraint::value(cs[i], row) % 0x7fffffff,
{
    assert forall|i: int| 0 <= i < cs.len() implies constraint::holds(#[trigger] cs[i], row) == (
    constraint::value(cs[i], row) % 0x7fffffff == 0) by {}
}

proof fn lemma_spelled(row: Seq<int>, at: int)
    ensures
        constraint::bit_sum(row, at, 23) == number_at(row, at),
{
    lemma2_to64();
    assert(constraint::bit_sum(row, at, 0) == 0);
    assert(constraint::bit_sum(row, at, 1) == constraint::bit_sum(row, at, 0) + 1 * row[at + 0]);
    assert(constraint::bit_sum(row, at, 2) == constraint::bit_sum(row, at, 1) + 2 * row[at + 1]);
    assert(constraint::bit_sum(row, at, 3) == constraint::bit_sum(row, at, 2) + 4 * row[at + 2]);
    assert(constraint::bit_sum(row, at, 4) == constraint::bit_sum(row, at, 3) + 8 * row[at + 3]);
    assert(constraint::bit_sum(row, at, 5) == constraint::bit_sum(row, at, 4) + 16 * row[at + 4]);
    assert(constraint::bit_sum(row, at, 6) == constraint::bit_sum(row, at, 5) + 32 * row[at + 5]);
    assert(constraint::bit_sum(row, at, 7) == constraint::bit_sum(row, at, 6) + 64 * row[at + 6]);
    assert(constraint::bit_sum(row, at, 8) == constraint::bit_sum(row, at, 7) + 128 * row[at + 7]);
    assert(constraint::bit_sum(row, at, 9) == constraint::bit_sum(row, at, 8) + 256 * row[at + 8]);
    assert(constraint::bit_sum(row, at, 10) == constraint::bit_sum(row, at, 9) + 512 * row[at + 9]);
    assert(constraint::bit_sum(row, at, 11) == constraint::bit_sum(row, at, 10) + 1024 * row[at + 10]);
    assert(constraint::bit_sum(row, at, 12) == constraint::bit_sum(row, at, 11) + 2048 * row[at + 11]);
    assert(constraint::bit_sum(row, at, 13) == constraint::bit_sum(row, at, 12) + 4096 * row[at + 12]);
    assert(constraint::bit_sum(row, at, 14) == constraint::bit_sum(row, at, 13) + 8192 * row[at + 13]);
    assert(constraint::bit_sum(row, at, 15) == constraint::bit_sum(row, at, 14) + 16384 * row[at + 14]);
    assert(constraint::bit_sum(row, at, 16) == constraint::bit_sum(row, at, 15) + 32768 * row[at + 15]);
    assert(constraint::bit_sum(row, at, 17) == constraint::bit_sum(row, at, 16) + 65536 * row[at + 16]);
    assert(constraint::bit_sum(row, at, 18) == constraint::bit_sum(row, at, 17) + 131072 * row[at + 17]);
    assert(constraint::bit_sum(row, at, 19) == constraint::bit_sum(row, at, 18) + 262144 * row[at + 18]);
    assert(constraint::bit_sum(row, at, 20) == constraint::bit_sum(row, at, 19) + 524288 * row[at + 19]);
    assert(constraint::bit_sum(row, at, 21) == constraint::bit_sum(row, at, 20) + 1048576 * row[at + 20]);
    assert(constraint::bit_sum(row, at, 22) == constraint::bit_sum(row, at, 21) + 2097152 * row[at + 21]);
    assert(constraint::bit_sum(row, at, 23) == constraint::bit_sum(row, at, 22) + 4194304 * row[at + 22]);
}

/// A range check asks that a cell be the number in the 23 cells from `start` on, and then that
/// each of those be a binary digit.
pub proof fn lemma_range_equations(x: usize, start: usize, row: Seq<int>, k: int)
    requires
        start + 23 <= usize::MAX,
        0 <= k < 23,
    ensures
        constraint::range_check(x, start).len() == 24,
        constraint::value(constraint::range_check(x, start)[0], row) == row[x as int] - number_at(
            row,
            start as int,
        ),
        constraint::value(constraint::range_check(x, start)[1 + k], row) == row[start + k]
            * row[start + k] - row[start + k],
{
    constraint::lemma_binary_value(x, start, 23, row);
    lemma_spelled(row, start as int);
    constraint::lemma_boolean_value((start + k) as usize, row);
    assert(constraint::range_check(x, start)[1 + k] == constraint::boolean((start + k) as usize));
}

/// A norm check asks that the second of three cells be a binary digit, and that the third be
/// the first, or 8380417 less the first where the digit is set.
pub proof fn lemma_norm_equations(at: int, row: Seq<int>)
    requires
        0 <= at,
        at + 2 <= usize::MAX,
    ensures
        ({
            let cs = mldsa_norm_check_air::norm_constraints(at);
            let (z, sel, norm) = (row[at], row[at + 1], row[at + 2]);
            &&& cs.len() == 2
            &&& constraint::value(cs[0], row) == sel * sel - sel
            &&& constraint::value(cs[1], row) == norm - z + 2 * (sel * z) - 8380417 * sel
        }),
{
    constraint::lemma_boolean_value((at + 1) as usize, row);
    mldsa_norm_check_air::lemma_norm_value(
        at as usize,
        (at + 1) as usize,
        (at + 2) as usize,
        row,
    );
}

/// The batch of norm checks asks the same of the three cells of each polynomial in turn.
pub proof fn lemma_norm_batch_equations(n: nat, row: Seq<int>, j: int)
    requires
        3 * n <= usize::MAX,
        0 <= j < n,
    ensures
        ({
            let cs = mldsa_norm_check_batch_air::batch_constraints(n);
            let (z, sel, norm) = (row[3 * j], row[3 * j + 1], row[3 * j + 2]);
            &&& cs.len() == 2 * n
            &&& constraint::value(cs[2 * j], row) == sel * sel - sel
            &&& constraint::value(cs[2 * j + 1], row) == norm - z + 2 * (sel * z) - 8380417 * sel
        }),
    decreases n,
{
    let m = (n - 1) as nat;
    let old = mldsa_norm_check_batch_air::batch_constraints(m);
    let part = mldsa_norm_check_air::norm_constraints(3 * m as int);
    lemma_norm_batch_len(m);
    lemma_norm_equations(3 * m as int, row);
    if j < m {
        lemma_norm_batch_equations(m, row, j);
        assert((old + part)[2 * j] == old[2 * j] && (old + part)[2 * j + 1] == old[2 * j + 1]);
    } else {
        assert((old + part)[2 * j] == part[0] && (old + part)[2 * j + 1] == part[1]);
    }
}

proof fn lemma_norm_batch_len(n: nat)
    ensures
        mldsa_norm_check_batch_air::batch_constraints(n).len() == 2 * n,
    decreases n,
{
    if n > 0 {
        lemma_norm_batch_len((n - 1) as nat);
    }
}

/// The products with a challenge: for each of `n` polynomials, with 49 cells from
/// `1 + 49 i` on, that the challenge times the first cell be the second plus 8380417 times the
/// third, and that the second and the third be the numbers in the next 23 and the last 23.
pub proof fn lemma_ct1_equations(n: nat, row: Seq<int>, i: int, k: int)
    requires
        1 + 49 * n <= usize::MAX,
        0 <= i < n,
        0 <= k < 23,
    ensures
        ({
            let cs = mldsa_ct1_full_air::ct1_constraints(n);
            let at = 1 + 49 * i;
            &&& cs.len() == 49 * n
            &&& constraint::value(cs[49 * i], row) == row[0] * row[at] - row[at + 1] - 8380417
                * row[at + 2]
            &&& constraint::value(cs[49 * i + 1], row) == row[at + 1] - number_at(row, at + 3)
            &&& constraint::value(cs[49 * i + 2 + k], row) == row[at + 3 + k] * row[at + 3 + k]
                - row[at + 3 + k]
            &&& constraint::value(cs[49 * i + 25], row) == row[at + 2] - number_at(row, at + 26)
            &&& constraint::value(cs[49 * i + 26 + k], row) == row[at + 26 + k] * row[at + 26 + k]
                - row[at + 26 + k]
        }),
    decreases n,
{
    let m = (n - 1) as nat;
    let old = mldsa_ct1_full_air::ct1_constraints(m);
    let part = mldsa_ct1_full_air::product_constraints(m as int);
    lemma_ct1_len(m);
    let all = old + part;
    let at = 1 + 49 * i;
    if i < m {
        lemma_ct1_equations(m, row, i, k);
        assert(all[49 * i] == old[49 * i] && all[49 * i + 1] == old[49 * i + 1]);
        assert(all[49 * i + 2 + k] == old[49 * i + 2 + k] && all[49 * i + 25] == old[49 * i + 25]);
        assert(all[49 * i + 26 + k] == old[49 * i + 26 + k]);
        lemma_range_equations((2 + 49 * m) as usize, (4 + 49 * m) as usize, row, 0);
        lemma_range_equations((3 + 49 * m) as usize, (27 + 49 * m) as usize, row, 0);
    } else {
        let p = constraint::product_mod_q(
            0,
            at as usize,
            (at + 1) as usize,
            (at + 2) as usize,
        );
        let r1 = constraint::range_check((at + 1) as usize, (at + 3) as usize);
        let r2 = constraint::range_check((at + 2) as usize, (at + 26) as usize);
        lemma_range_equations((at + 1) as usize, (at + 3) as usize, row, k);
        lemma_range_equations((at + 2) as usize, (at + 26) as usize, row, k);
        constraint::lemma_product_value(
            0,
            at as usize,
            (at + 1) as usize,
            (at + 2) as usize,
            row,
        );
        assert(part == seq![p] + r1 + r2);
        assert(all[49 * i] == p);
        assert(all[49 * i + 1] == r1[0] && all[49 * i + 2 + k] == r1[1 + k]);
        assert(all[49 * i + 25] == r2[0] && all[49 * i + 26 + k] == r2[1 + k]);
    }
}

proof fn lemma_ct1_len(n: nat)
    ensures
        mldsa_ct1_full_air::ct1_constraints(n).len() == 49 * n,
    decreases n,
{
    if n > 0 {
        lemma_ct1_len((n - 1) as nat);
    }
}

/// The constraints of one row of a matrix product, in order: five products, four sums each
/// with a carry that is a binary digit, and for the five remainders and then for the five
/// quotients the five numbers and then their binary digits.
pub proof fn lemma_block_equations(
    l: mldsa_az_air::Layout,
    row: Seq<int>,
    j: int,
    r: int,
    k: int,
)
    requires
        mldsa_az_air::in_bounds(l, 100_000),
        0 <= j < 5,
        0 <= r < 4,
        0 <= k < 115,
    ensures
        ({
            let cs = mldsa_az_air::block_constraints(l);
            let left = if r == 0 {
                row[l.t as int]
            } else {
                row[l.s + (r - 1) * l.step]
            };
            let carry = row[l.cs + r * l.step];
            &&& cs.len() == 253
            &&& constraint::value(cs[j], row) == row[l.a + j] * row[l.z + j] - row[l.t + j]
                - 8380417 * row[l.ct + j]
            &&& constraint::value(cs[5 + 2 * r], row) == left + row[l.t + r + 1] - row[l.s + r
                * l.step] - 8380417 * carry
            &&& constraint::value(cs[6 + 2 * r], row) == carry * carry - carry
            &&& constraint::value(cs[13 + j], row) == row[l.t + j] - number_at(
                row,
                l.t_bits + 23 * j,
            )
            &&& constraint::value(cs[18 + k], row) == row[l.t_bits + k] * row[l.t_bits + k]
                - row[l.t_bits + k]
            &&& constraint::value(cs[133 + j], row) == row[l.ct + j] - number_at(
                row,
                l.ct_bits + 23 * j,
            )
            &&& constraint::value(cs[138 + k], row) == row[l.ct_bits + k] * row[l.ct_bits + k]
                - row[l.ct_bits + k]
        }),
{
    let cs = mldsa_az_air::block_constraints(l);
    let a = mldsa_az_air::product_part(l, 5);
    let b = mldsa_az_air::sum_part(l, 4);
    let c = mldsa_az_air::range_part(l.t as int, l.t_bits as int);
    let d = mldsa_az_air::range_part(l.ct as int, l.ct_bits as int);
    lemma_sum_part(l, row, r);
    assert(cs == a + b + c + d);
    assert(cs[j] == a[j]);
    assert(cs[5 + 2 * r] == b[2 * r] && cs[6 + 2 * r] == b[2 * r + 1]);
    assert(cs[13 + j] == c[j] && cs[18 + k] == c[5 + k]);
    assert(cs[133 + j] == d[j] && cs[138 + k] == d[5 + k]);
    constraint::lemma_product_value(
        (l.a + j) as usize,
        (l.z + j) as usize,
        (l.t + j) as usize,
        (l.ct + j) as usize,
        row,
    );
    constraint::lemma_binary_value((l.t + j) as usize, (l.t_bits + 23 * j) as usize, 23, row);
    constraint::lemma_binary_value((l.ct + j) as usize, (l.ct_bits + 23 * j) as usize, 23, row);
    lemma_spelled(row, l.t_bits + 23 * j);
    lemma_spelled(row, l.ct_bits + 23 * j);
    constraint::lemma_boolean_value((l.t_bits + k) as usize, row);
    constraint::lemma_boolean_value((l.ct_bits + k) as usize, row);
}

proof fn lemma_sum_part(l: mldsa_az_air::Layout, row: Seq<int>, r: int)
    requires
        mldsa_az_air::in_bounds(l, 100_000),
        0 <= r < 4,
    ensures
        mldsa_az_air::sum_part(l, 4).len() == 8,
        ({
            let left = if r == 0 {
                row[l.t as int]
            } else {
                row[l.s + (r - 1) * l.step]
            };
            let carry = row[l.cs + r * l.step];
            &&& constraint::value(mldsa_az_air::sum_part(l, 4)[2 * r], row) == left + row[l.t + r
                + 1] - row[l.s + r * l.step] - 8380417 * carry
            &&& constraint::value(mldsa_az_air::sum_part(l, 4)[2 * r + 1], row) == carry * carry
                - carry
        }),
{
    reveal_with_fuel(mldsa_az_air::sum_part, 5);
    let s0 = mldsa_az_air::sum_step(l, 0);
    let s1 = mldsa_az_air::sum_step(l, 1);
    let s2 = mldsa_az_air::sum_step(l, 2);
    let s3 = mldsa_az_air::sum_step(l, 3);
    let all = mldsa_az_air::sum_part(l, 4);
    assert(all =~= s0 + s1 + s2 + s3);
    let step = mldsa_az_air::sum_step(l, r);
    assert(all[2 * r] == step[0] && all[2 * r + 1] == step[1]) by {
        if r == 0 {
            assert(all[0] == s0[0] && all[1] == s0[1]);
        } else if r == 1 {
            assert(all[2] == s1[0] && all[3] == s1[1]);
        } else if r == 2 {
            assert(all[4] == s2[0] && all[5] == s2[1]);
        } else {
            assert(all[6] == s3[0] && all[7] == s3[1]);
        }
    }
    let x = mldsa_az_air::left_cell(l, r);
    let s = mldsa_az_air::sum_cell(l, r);
    let c = mldsa_az_air::carry_cell(l, r);
    assert(0 <= r * l.step <= 6 && 0 <= r * l.step <= 3 * l.step) by (nonlinear_arith)
        requires
            0 <= r < 4,
            0 <= l.step <= 2,
    ;
    if r > 0 {
        assert(0 <= (r - 1) * l.step <= 3 * l.step) by (nonlinear_arith)
            requires
                0 < r < 4,
                0 <= l.step <= 2,
        ;
    }
    constraint::lemma_sum_value(
        x as usize,
        (l.t + r + 1) as usize,
        s as usize,
        c as usize,
        row,
    );
    constraint::lemma_boolean_value(c as usize, row);
}

/// Where the cells of one row of a matrix product stand in a trace of its own.
pub proof fn lemma_row_layout()
    ensures
        ({
            let l = mldsa_az_air::row_layout();
            &&& (l.a, l.z, l.t, l.ct) == (0usize, 5usize, 10usize, 15usize)
            &&& (l.s, l.cs, l.step) == (20usize, 21usize, 2usize)
            &&& (l.t_bits, l.ct_bits) == (28usize, 143usize)
        }),
{
}

/// The constraints of a whole matrix product are those of its rows in turn; row `i` has its
/// 253 cells behind the vector's five and those of the rows before it.
pub proof fn lemma_full_equations(n: nat, i: int, k: int)
    requires
        n <= 6,
        0 <= i < n,
        0 <= k < 253,
    ensures
        ({
            let cs = mldsa_az_full_air::full_constraints(n);
            let l = mldsa_az_full_air::layout_of(i);
            let at = 5 + 253 * i;
            &&& cs.len() == 253 * n
            &&& cs[253 * i + k] == mldsa_az_air::block_constraints(l)[k]
            &&& mldsa_az_air::in_bounds(l, 100_000)
            &&& l.a == at
            &&& l.z == 0
            &&& l.t == at + 5
            &&& l.ct == at + 10
            &&& l.s == at + 15
            &&& l.cs == at + 19
            &&& l.step == 1
            &&& l.t_bits == at + 23
            &&& l.ct_bits == at + 138
        }),
    decreases n,
{
    let m = (n - 1) as nat;
    let old = mldsa_az_full_air::full_constraints(m);
    let part = mldsa_az_air::block_constraints(mldsa_az_full_air::layout_of(m as int));
    lemma_full_len(m);
    assert(mldsa_az_air::in_bounds(mldsa_az_full_air::layout_of(m as int), 100_000));
    lemma_block_equations(mldsa_az_full_air::layout_of(m as int), seq![], 0, 0, 0);
    let all = old + part;
    if i < m {
        lemma_full_equations(m, i, k);
        assert(all[253 * i + k] == old[253 * i + k]);
    } else {
        assert(all[253 * i + k] == part[k]);
    }
}

proof fn lemma_full_len(n: nat)
    requires
        n <= 6,
    ensures
        mldsa_az_full_air::full_constraints(n).len() == 253 * n,
    decreases n,
{
    if n > 0 {
        let l = mldsa_az_full_air::layout_of(n - 1);
        lemma_full_len((n - 1) as nat);
        assert(mldsa_az_air::in_bounds(l, 100_000));
        lemma_block_equations(l, seq![], 0, 0, 0);
    }
}

/// The weight of a hint asks of five cells (first row, row with a hint, bit, sum, sum of the
/// row before) that the bit be a binary digit and set only in rows with a hint, and that the
/// sum be the bit plus, but for the first row, the sum before.
pub proof fn lemma_weight_equations(row: Seq<int>)
    requires
        row.len() == 5,
    ensures
        ({
            let cs = mldsa_hint_weight_air::weight_constraints();
            let (first, valid, bit, sum, before) = (row[0], row[1], row[2], row[3], row[4]);
            &&& cs.len() == 3
            &&& constraint::value(cs[0], row) == bit - bit * bit
            &&& constraint::value(cs[1], row) == bit - valid * bit
            &&& constraint::value(cs[2], row) == sum - bit - before + first * before
        }),
{
    reveal_with_fuel(constraint::partial_value, 5);
    let cs = mldsa_hint_weight_air::weight_constraints();
    assert(cs[0].len() == 2 && cs[1].len() == 2 && cs[2].len() == 4);
    constraint::lemma_quadratic((-1) as i64, 2, 2, row, -1);
    constraint::lemma_quadratic((-1) as i64, 1, 2, row, -1);
    constraint::lemma_quadratic(1, 0, 4, row, 1);
    constraint::lemma_linear(1, 2, row, 1);
    constraint::lemma_linear(1, 3, row, 1);
    constraint::lemma_linear((-1) as i64, 2, row, -1);
    constraint::lemma_linear((-1) as i64, 4, row, -1);
}

/// A butterfly asks of its inputs `a`, `b` and factor `f` that the difference be `a - b` plus
/// 8380417 times its borrow, that the sum be `a + b` less 8380417 times its carry, that borrow
/// and carry be binary digits, and that `f` times the difference be the product plus 8380417
/// times the quotient.
pub proof fn lemma_butterfly_equations(z: int, x: int, y: int, row: Seq<int>)
    requires
        0 <= z <= usize::MAX,
        0 <= x,
        x + 1 <= usize::MAX,
        0 <= y,
        y + 5 <= usize::MAX,
    ensures
        ({
            let cs = mldsa_intt_air::butterfly_constraints(z, x, y);
            let (a, b, f) = (row[x], row[x + 1], row[z]);
            let (diff, borrow, sum) = (row[y], row[y + 1], row[y + 2]);
            let (carry, prod, quo) = (row[y + 3], row[y + 4], row[y + 5]);
            &&& cs.len() == 5
            &&& constraint::value(cs[0], row) == diff - a + b - 8380417 * borrow
            &&& constraint::value(cs[1], row) == borrow * borrow - borrow
            &&& constraint::value(cs[2], row) == sum - a - b + 8380417 * carry
            &&& constraint::value(cs[3], row) == carry * carry - carry
            &&& constraint::value(cs[4], row) == f * diff - prod - 8380417 * quo
        }),
{
    let cs = mldsa_intt_air::butterfly_constraints(z, x, y);
    let (ux, ux1) = (x as usize, (x + 1) as usize);
    let (uy, uy1, uy2, uy3) = (y as usize, (y + 1) as usize, (y + 2) as usize, (y + 3) as usize);
    assert(constraint::value(cs[0], row) == row[y] - row[x] + row[x + 1] - 8380417 * row[y + 1])
        by {
        reveal_with_fuel(constraint::partial_value, 5);
        assert(cs[0].len() == 4);
        constraint::lemma_linear(1, uy, row, 1);
        constraint::lemma_linear((-1) as i64, ux, row, -1);
        constraint::lemma_linear(1, ux1, row, 1);
        constraint::lemma_linear((-8380417) as i64, uy1, row, -8380417);
    }
    assert(constraint::value(cs[2], row) == row[y + 2] - row[x] - row[x + 1] + 8380417 * row[y + 3])
        by {
        reveal_with_fuel(constraint::partial_value, 5);
        assert(cs[2].len() == 4);
        constraint::lemma_linear(1, uy2, row, 1);
        constraint::lemma_linear((-1) as i64, ux, row, -1);
        constraint::lemma_linear((-1) as i64, ux1, row, -1);
        constraint::lemma_linear(8380417, uy3, row, 8380417);
    }
    constraint::lemma_boolean_value(uy1, row);
    constraint::lemma_boolean_value(uy3, row);
    constraint::lemma_product_value(z as usize, uy, (y + 4) as usize, (y + 5) as usize, row);
}

/// The batch of inverse transforms asks of each of `n` polynomials, with 54 cells from
/// `1 + 54 j` on, a butterfly with the factor in the first cell of the row, and that product
/// and quotient be the numbers in the next 23 and the last 23 cells.
pub proof fn lemma_intt_batch_equations(n: nat, row: Seq<int>, j: int, k: int)
    requires
        1 + 54 * n <= usize::MAX,
        0 <= j < n,
        0 <= k < 23,
    ensures
        ({
            let cs = mldsa_intt_batch_air::batch_constraints(n);
            let at = 1 + 54 * j;
            let o = 53 * j;
            let (a, b, diff, borrow) = (row[at], row[at + 1], row[at + 2], row[at + 3]);
            let (sum, carry, prod, quo) = (row[at + 4], row[at + 5], row[at + 6], row[at + 7]);
            &&& cs.len() == 53 * n
            &&& constraint::value(cs[o], row) == diff - a + b - 8380417 * borrow
            &&& constraint::value(cs[o + 1], row) == borrow * borrow - borrow
            &&& constraint::value(cs[o + 2], row) == sum - a - b + 8380417 * carry
            &&& constraint::value(cs[o + 3], row) == carry * carry - carry
            &&& constraint::value(cs[o + 4], row) == row[0] * diff - prod - 8380417 * quo
            &&& constraint::value(cs[o + 5], row) == prod - number_at(row, at + 8)
            &&& constraint::value(cs[o + 6 + k], row) == row[at + 8 + k] * row[at + 8 + k] - row[at
                + 8 + k]
            &&& constraint::value(cs[o + 29], row) == quo - number_at(row, at + 31)
            &&& constraint::value(cs[o + 30 + k], row) == row[at + 31 + k] * row[at + 31 + k]
                - row[at + 31 + k]
        }),
    decreases n,
{
    let m = (n - 1) as nat;
    let old = mldsa_intt_batch_air::batch_constraints(m);
    let part = mldsa_intt_batch_air::poly_constraints(m as int);
    lemma_intt_batch_len(m);
    let all = old + part;
    let o = 53 * j;
    let at = 1 + 54 * j;
    if j < m {
        lemma_intt_batch_equations(m, row, j, k);
        assert(all[o] == old[o] && all[o + 1] == old[o + 1] && all[o + 2] == old[o + 2]);
        assert(all[o + 3] == old[o + 3] && all[o + 4] == old[o + 4] && all[o + 5] == old[o + 5]);
        assert(all[o + 6 + k] == old[o + 6 + k] && all[o + 29] == old[o + 29]);
        assert(all[o + 30 + k] == old[o + 30 + k]);
        lemma_range_equations((7 + 54 * m) as usize, (9 + 54 * m) as usize, row, 0);
        lemma_range_equations((8 + 54 * m) as usize, (32 + 54 * m) as usize, row, 0);
    } else {
        let b = mldsa_intt_air::butterfly_constraints(0, at, at + 2);
        let r1 = constraint::range_check((at + 6) as usize, (at + 8) as usize);
        let r2 = constraint::range_check((at + 7) as usize, (at + 31) as usize);
        lemma_butterfly_equations(0, at, at + 2, row);
        lemma_range_equations((at + 6) as usize, (at + 8) as usize, row, k);
        lemma_range_equations((at + 7) as usize, (at + 31) as usize, row, k);
        assert(part == b + r1 + r2);
        assert(all[o] == b[0] && all[o + 1] == b[1] && all[o + 2] == b[2] && all[o + 3] == b[3]
            && all[o + 4] == b[4]);
        assert(all[o + 5] == r1[0] && all[o + 6 + k] == r1[1 + k]);
        assert(all[o + 29] == r2[0] && all[o + 30 + k] == r2[1 + k]);
    }
}

proof fn lemma_intt_batch_len(n: nat)
    ensures
        mldsa_intt_batch_air::batch_constraints(n).len() == 53 * n,
    decreases n,
{
    if n > 0 {
        lemma_intt_batch_len((n - 1) as nat);
    }
}

/// A chain asks of three cells that the second be the cube of the first plus the third.
pub proof fn lemma_chain_equation(row: Seq<int>)
    requires
        row.len() == 3,
    ensures
        air::chain_constraints().len() == 1,
        constraint::value(air::chain_constraints()[0], row) == row[1] - row[0] * row[0] * row[0]
            - row[2],
{
    reveal_with_fuel(constraint::partial_value, 4);
    let ts = air::chain_constraints()[0];
    assert(ts.len() == 3);
    constraint::lemma_linear(1, 1, row, 1);
    constraint::lemma_linear((-1) as i64, 2, row, -1);
    let cube = (row[0] * row[0]) * row[0];
    let m = (-1) as i64;
    assert(m * cube == -cube) by (nonlinear_arith)
        requires
            m == -1,
    ;
    assert(constraint::term_value(ts[1], row) == m * cube);
}

} // verus!
