//! What the circuits report of a row, and what stands in the traces that are built for them.
use crate::air::HashChainEval;
use crate::circuit_equations;
use crate::columns;
use crate::constraint;
use crate::mldsa::hints;
use crate::mldsa::polyvec;
use crate::mldsa::transform;
use crate::mldsa_az_air;
use crate::mldsa_az_air::AzRowEval;
use crate::mldsa_az_full_air;
use crate::mldsa_az_full_air::AzFullEval;
use crate::mldsa_ct1_full_air;
use crate::mldsa_ct1_full_air::Ct1FullEval;
use crate::mldsa_hint_weight_air;
use crate::mldsa_hint_weight_air::HintWeightEval;
use crate::mldsa_intt_air;
use crate::mldsa_intt_air::MlDsaInttButterflyEval;
use crate::mldsa_intt_batch_air;
use crate::mldsa_intt_batch_air::InttBatchEval;
use crate::mldsa_norm_check_air;
use crate::mldsa_norm_check_air::NormCheckEval;
use crate::mldsa_norm_check_batch_air;
use crate::mldsa_norm_check_batch_air::NormCheckBatchEval;
use crate::trace_cells;
use vstd::prelude::*;

verus! {

/// The cells of a row as numbers.
pub open spec fn numbers(row: Seq<u32>) -> Seq<int> {
    Seq::new(row.len(), |i: int| row[i] as int)
}

proof fn lemma_row(row: Seq<u32>)
    ensures
        constraint::cells(row) == numbers(row),
{
    assert(constraint::cells(row) =~= numbers(row));
}

/// The chain reports by how much the second cell differs from the cube of the first plus the
/// third, modulo `2^31 - 1`.
pub proof fn lemma_chain_evaluated(e: &HashChainEval, row: &[u32], out: Vec<u32>)
    requires
        row@.len() == 3,
        call_ensures(HashChainEval::evaluate, (e, row), out),
    ensures
        out@.len() == 1,
        out@[0] as int == (row@[1] - row@[0] as int * row@[0] * row@[0] - row@[2]) % 0x7fffffff,
{
    lemma_row(row@);
    circuit_equations::lemma_chain_equation(numbers(row@));
    circuit_equations::lemma_system_met(crate::air::chain_constraints(), numbers(row@));
    assert(out@[0] == constraint::residues(crate::air::chain_constraints(), numbers(row@))[0]);
}

/// The norm check reports whether the second cell is a binary digit, and by how much the
/// third differs from the first, or from 8380417 less the first where the digit is set.
pub proof fn lemma_norm_evaluated(e: &NormCheckEval, row: &[u32], out: Vec<u32>)
    requires
        row@.len() == 3,
        call_ensures(NormCheckEval::evaluate, (e, row), out),
    ensures
        out@.len() == 2,
        ({
            let (z, sel, norm) = (row@[0] as int, row@[1] as int, row@[2] as int);
            &&& out@[0] as int == (sel * sel - sel) % 0x7fffffff
            &&& out@[1] as int == (norm - z + 2 * (sel * z) - 8380417 * sel) % 0x7fffffff
        }),
{
    lemma_row(row@);
    let cs = mldsa_norm_check_air::norm_constraints(0);
    circuit_equations::lemma_norm_equations(0, numbers(row@));
    circuit_equations::lemma_system_met(cs, numbers(row@));
    assert(out@[0] == constraint::residues(cs, numbers(row@))[0]);
    assert(out@[1] == constraint::residues(cs, numbers(row@))[1]);
}

/// The batch of five norm checks reports the same of each polynomial's three cells.
pub proof fn lemma_norm_batch_evaluated(
    e: &NormCheckBatchEval,
    row: &[u32],
    out: Vec<u32>,
    j: int,
)
    requires
        row@.len() == 15,
        call_ensures(NormCheckBatchEval::evaluate, (e, row), out),
        0 <= j < 5,
    ensures
        out@.len() == 10,
        ({
            let z = row@[3 * j] as int;
            let (sel, norm) = (row@[3 * j + 1] as int, row@[3 * j + 2] as int);
            &&& out@[2 * j] as int == (sel * sel - sel) % 0x7fffffff
            &&& out@[2 * j + 1] as int == (norm - z + 2 * (sel * z) - 8380417 * sel) % 0x7fffffff
        }),
{
    lemma_row(row@);
    let cs = mldsa_norm_check_batch_air::batch_constraints(5);
    circuit_equations::lemma_norm_batch_equations(5, numbers(row@), j);
    circuit_equations::lemma_system_met(cs, numbers(row@));
    assert(out@[2 * j] == constraint::residues(cs, numbers(row@))[2 * j]);
    assert(out@[2 * j + 1] == constraint::residues(cs, numbers(row@))[2 * j + 1]);
}

/// The products with a challenge report, for each of six polynomials, by how much the product
/// differs from the remainder plus 8380417 times the quotient, and how remainder and quotient
/// and their binary digits fit together.
pub proof fn lemma_ct1_evaluated(e: &Ct1FullEval, row: &[u32], out: Vec<u32>, i: int, k: int)
    requires
        row@.len() == 295,
        call_ensures(Ct1FullEval::evaluate, (e, row), out),
        0 <= i < 6,
        0 <= k < 23,
    ensures
        out@.len() == 294,
        ({
            let at = 1 + 49 * i;
            let n = numbers(row@);
            &&& out@[49 * i] as int == (n[0] * n[at] - n[at + 1] - 8380417 * n[at + 2])
                % 0x7fffffff
            &&& out@[49 * i + 1] as int == (n[at + 1] - circuit_equations::number_at(n, at + 3))
                % 0x7fffffff
            &&& out@[49 * i + 2 + k] as int == (n[at + 3 + k] * n[at + 3 + k] - n[at + 3 + k])
                % 0x7fffffff
            &&& out@[49 * i + 25] as int == (n[at + 2] - circuit_equations::number_at(n, at + 26))
                % 0x7fffffff
            &&& out@[49 * i + 26 + k] as int == (n[at + 26 + k] * n[at + 26 + k] - n[at + 26 + k])
                % 0x7fffffff
        }),
{
    lemma_row(row@);
    let n = numbers(row@);
    let cs = mldsa_ct1_full_air::ct1_constraints(6);
    circuit_equations::lemma_ct1_equations(6, n, i, k);
    circuit_equations::lemma_system_met(cs, n);
    let r = constraint::residues(cs, n);
    assert(out@ == r);
    assert(r[49 * i] as int == constraint::value(cs[49 * i], n) % 0x7fffffff);
    assert(r[49 * i + 1] as int == constraint::value(cs[49 * i + 1], n) % 0x7fffffff);
    assert(r[49 * i + 2 + k] as int == constraint::value(cs[49 * i + 2 + k], n) % 0x7fffffff);
    assert(r[49 * i + 25] as int == constraint::value(cs[49 * i + 25], n) % 0x7fffffff);
    assert(r[49 * i + 26 + k] as int == constraint::value(cs[49 * i + 26 + k], n) % 0x7fffffff);
}

/// What one row of a matrix product asks, with its cells where the numbers say: the residues
/// `out` of its 253 constraints on the row `n`.
pub open spec fn reports_block(
    out: Seq<u32>,
    n: Seq<int>,
    a: int,
    z: int,
    t: int,
    q: int,
    s: int,
    c: int,
    step: int,
    t_bits: int,
    q_bits: int,
    j: int,
    r: int,
    k: int,
) -> bool {
    let left = if r == 0 {
        n[t]
    } else {
        n[s + (r - 1) * step]
    };
    let carry = n[c + r * step];
    &&& out[j] as int == (n[a + j] * n[z + j] - n[t + j] - 8380417 * n[q + j]) % 0x7fffffff
    &&& out[5 + 2 * r] as int == (left + n[t + r + 1] - n[s + r * step] - 8380417 * carry)
        % 0x7fffffff
    &&& out[6 + 2 * r] as int == (carry * carry - carry) % 0x7fffffff
    &&& out[13 + j] as int == (n[t + j] - circuit_equations::number_at(n, t_bits + 23 * j))
        % 0x7fffffff
    &&& out[18 + k] as int == (n[t_bits + k] * n[t_bits + k] - n[t_bits + k]) % 0x7fffffff
    &&& out[133 + j] as int == (n[q + j] - circuit_equations::number_at(n, q_bits + 23 * j))
        % 0x7fffffff
    &&& out[138 + k] as int == (n[q_bits + k] * n[q_bits + k] - n[q_bits + k]) % 0x7fffffff
}

proof fn lemma_block_reported(
    l: mldsa_az_air::Layout,
    out: Seq<u32>,
    n: Seq<int>,
    j: int,
    r: int,
    k: int,
)
    requires
        mldsa_az_air::in_bounds(l, 100_000),
        0 <= j < 5,
        0 <= r < 4,
        0 <= k < 115,
        out.len() == 253,
        forall|q: int|
            0 <= q < 253 ==> #[trigger] out[q] as int == constraint::value(
                mldsa_az_air::block_constraints(l)[q],
                n,
            ) % 0x7fffffff,
    ensures
        reports_block(
            out,
            n,
            l.a as int,
            l.z as int,
            l.t as int,
            l.ct as int,
            l.s as int,
            l.cs as int,
            l.step as int,
            l.t_bits as int,
            l.ct_bits as int,
            j,
            r,
            k,
        ),
{
    circuit_equations::lemma_block_equations(l, n, j, r, k);
}

/// The product of one row reports its 253 constraints with the cells where they stand in a
/// row of 258.
pub proof fn lemma_az_evaluated(
    e: &AzRowEval,
    row: &[u32],
    out: Vec<u32>,
    j: int,
    r: int,
    k: int,
)
    requires
        row@.len() == 258,
        call_ensures(AzRowEval::evaluate, (e, row), out),
        0 <= j < 5,
        0 <= r < 4,
        0 <= k < 115,
    ensures
        out@.len() == 253,
        reports_block(out@, numbers(row@), 0, 5, 10, 15, 20, 21, 2, 28, 143, j, r, k),
{
    lemma_row(row@);
    let n = numbers(row@);
    let l = mldsa_az_air::row_layout();
    let cs = mldsa_az_air::block_constraints(l);
    circuit_equations::lemma_block_equations(l, n, j, r, k);
    circuit_equations::lemma_system_met(cs, n);
    assert forall|q: int| 0 <= q < 253 implies #[trigger] out@[q] as int == constraint::value(
        cs[q],
        n,
    ) % 0x7fffffff by {
        assert(constraint::residues(cs, n)[q] as int == constraint::value(cs[q], n) % 0x7fffffff);
    }
    lemma_block_reported(l, out@, n, j, r, k);
}

/// The product of a matrix reports 253 constraints for each of six rows, with the cells of
/// row `i` behind the vector's five and those of the rows before it.
pub proof fn lemma_az_full_evaluated(
    e: &AzFullEval,
    row: &[u32],
    out: Vec<u32>,
    i: int,
    j: int,
    r: int,
    k: int,
)
    requires
        row@.len() == 1523,
        call_ensures(AzFullEval::evaluate, (e, row), out),
        0 <= i < 6,
        0 <= j < 5,
        0 <= r < 4,
        0 <= k < 115,
    ensures
        out@.len() == 1518,
        ({
            let at = 5 + 253 * i;
            reports_block(
                out@.subrange(253 * i, 253 * i + 253),
                numbers(row@),
                at,
                0,
                at + 5,
                at + 10,
                at + 15,
                at + 19,
                1,
                at + 23,
                at + 138,
                j,
                r,
                k,
            )
        }),
{
    lemma_row(row@);
    let n = numbers(row@);
    let l = mldsa_az_full_air::layout_of(i);
    let cs = mldsa_az_full_air::full_constraints(6);
    circuit_equations::lemma_full_equations(6, i, 0);
    circuit_equations::lemma_system_met(cs, n);
    let part = out@.subrange(253 * i, 253 * i + 253);
    assert forall|q: int| 0 <= q < 253 implies #[trigger] part[q] as int == constraint::value(
        mldsa_az_air::block_constraints(l)[q],
        n,
    ) % 0x7fffffff by {
        circuit_equations::lemma_full_equations(6, i, q);
        let p = 253 * i + q;
        assert(constraint::residues(cs, n)[p] as int == constraint::value(cs[p], n) % 0x7fffffff);
        assert(part[q] == out@[p]);
    }
    lemma_block_reported(l, part, n, j, r, k);
}

/// The weight of a hint reports whether the bit is a binary digit, whether it is set only in
/// rows with a hint, and whether the sum is the bit plus, but for the first row, the sum
/// before.
pub proof fn lemma_weight_evaluated(e: &HintWeightEval, row: &[u32], out: Vec<u32>)
    requires
        row@.len() == 5,
        call_ensures(HintWeightEval::evaluate, (e, row), out),
    ensures
        out@.len() == 3,
        ({
            let (first, valid, bit) = (row@[0] as int, row@[1] as int, row@[2] as int);
            let (sum, before) = (row@[3] as int, row@[4] as int);
            &&& out@[0] as int == (bit - bit * bit) % 0x7fffffff
            &&& out@[1] as int == (bit - valid * bit) % 0x7fffffff
            &&& out@[2] as int == (sum - bit - before + first * before) % 0x7fffffff
        }),
{
    lemma_row(row@);
    let n = numbers(row@);
    let cs = mldsa_hint_weight_air::weight_constraints();
    circuit_equations::lemma_weight_equations(n);
    circuit_equations::lemma_system_met(cs, n);
    let r = constraint::residues(cs, n);
    assert(r[0] as int == constraint::value(cs[0], n) % 0x7fffffff);
    assert(r[1] as int == constraint::value(cs[1], n) % 0x7fffffff);
    assert(r[2] as int == constraint::value(cs[2], n) % 0x7fffffff);
}

/// A butterfly reports five constraints on its nine cells.
pub proof fn lemma_butterfly_evaluated(
    e: &MlDsaInttButterflyEval,
    row: &[u32],
    out: Vec<u32>,
)
    requires
        row@.len() == 9,
        call_ensures(MlDsaInttButterflyEval::evaluate, (e, row), out),
    ensures
        out@.len() == 5,
        ({
            let (a, b, f) = (row@[0] as int, row@[1] as int, row@[2] as int);
            let (diff, borrow, sum) = (row@[3] as int, row@[4] as int, row@[5] as int);
            let (carry, prod, quo) = (row@[6] as int, row@[7] as int, row@[8] as int);
            &&& out@[0] as int == (diff - a + b - 8380417 * borrow) % 0x7fffffff
            &&& out@[1] as int == (borrow * borrow - borrow) % 0x7fffffff
            &&& out@[2] as int == (sum - a - b + 8380417 * carry) % 0x7fffffff
            &&& out@[3] as int == (carry * carry - carry) % 0x7fffffff
            &&& out@[4] as int == (f * diff - prod - 8380417 * quo) % 0x7fffffff
        }),
{
    lemma_row(row@);
    let n = numbers(row@);
    let cs = mldsa_intt_air::butterfly_constraints(2, 0, 3);
    circuit_equations::lemma_butterfly_equations(2, 0, 3, n);
    circuit_equations::lemma_system_met(cs, n);
    let r = constraint::residues(cs, n);
    assert(r[0] as int == constraint::value(cs[0], n) % 0x7fffffff);
    assert(r[1] as int == constraint::value(cs[1], n) % 0x7fffffff);
    assert(r[2] as int == constraint::value(cs[2], n) % 0x7fffffff);
    assert(r[3] as int == constraint::value(cs[3], n) % 0x7fffffff);
    assert(r[4] as int == constraint::value(cs[4], n) % 0x7fffffff);
}

/// The batch of inverse transforms reports a butterfly and two ranges for each polynomial.
pub proof fn lemma_intt_batch_evaluated(
    e: &InttBatchEval,
    row: &[u32],
    out: Vec<u32>,
    j: int,
    k: int,
)
    requires
        1 + 54 * e.n_polys <= usize::MAX,
        row@.len() == 1 + 54 * e.n_polys,
        call_ensures(InttBatchEval::evaluate, (e, row), out),
        0 <= j < e.n_polys,
        0 <= k < 23,
    ensures
        out@.len() == 53 * e.n_polys,
        ({
            let n = numbers(row@);
            let at = 1 + 54 * j;
            let o = 53 * j;
            let (a, b, diff, borrow) = (n[at], n[at + 1], n[at + 2], n[at + 3]);
            let (sum, carry, prod, quo) = (n[at + 4], n[at + 5], n[at + 6], n[at + 7]);
            &&& out@[o] as int == (diff - a + b - 8380417 * borrow) % 0x7fffffff
            &&& out@[o + 1] as int == (borrow * borrow - borrow) % 0x7fffffff
            &&& out@[o + 2] as int == (sum - a - b + 8380417 * carry) % 0x7fffffff
            &&& out@[o + 3] as int == (carry * carry - carry) % 0x7fffffff
            &&& out@[o + 4] as int == (n[0] * diff - prod - 8380417 * quo) % 0x7fffffff
            &&& out@[o + 5] as int == (prod - circuit_equations::number_at(n, at + 8)) % 0x7fffffff
            &&& out@[o + 6 + k] as int == (n[at + 8 + k] * n[at + 8 + k] - n[at + 8 + k])
                % 0x7fffffff
            &&& out@[o + 29] as int == (quo - circuit_equations::number_at(n, at + 31)) % 0x7fffffff
            &&& out@[o + 30 + k] as int == (n[at + 31 + k] * n[at + 31 + k] - n[at + 31 + k])
                % 0x7fffffff
        }),
{
    lemma_row(row@);
    let n = numbers(row@);
    let cs = mldsa_intt_batch_air::batch_constraints(e.n_polys as nat);
    circuit_equations::lemma_intt_batch_equations(e.n_polys as nat, n, j, k);
    circuit_equations::lemma_system_met(cs, n);
    let r = constraint::residues(cs, n);
    let o = 53 * j;
    assert(r[o] as int == constraint::value(cs[o], n) % 0x7fffffff);
    assert(r[o + 1] as int == constraint::value(cs[o + 1], n) % 0x7fffffff);
    assert(r[o + 2] as int == constraint::value(cs[o + 2], n) % 0x7fffffff);
    assert(r[o + 3] as int == constraint::value(cs[o + 3], n) % 0x7fffffff);
    assert(r[o + 4] as int == constraint::value(cs[o + 4], n) % 0x7fffffff);
    assert(r[o + 5] as int == constraint::value(cs[o + 5], n) % 0x7fffffff);
    assert(r[o + 6 + k] as int == constraint::value(cs[o + 6 + k], n) % 0x7fffffff);
    assert(r[o + 29] as int == constraint::value(cs[o + 29], n) % 0x7fffffff);
    assert(r[o + 30 + k] as int == constraint::value(cs[o + 30 + k], n) % 0x7fffffff);
}

/// Whether some columns hold a table of `height` rows of `width` cells: the cell of row
/// `row_position(i)` and column `c` at place `i` of column `c`.
pub open spec fn holds_table(
    cols: Seq<Vec<u32>>,
    table: Seq<Seq<int>>,
    width: int,
    height: int,
    c: int,
    i: int,
) -> bool {
    &&& cols.len() == width
    &&& cols[c]@.len() == height
    &&& cols[c]@[i] == table[columns::row_position(i, height as nat)][c] as u32
}

proof fn lemma_table_held(
    cols: Seq<Vec<u32>>,
    table: Seq<Seq<int>>,
    width: nat,
    height: nat,
    c: int,
    i: int,
)
    requires
        columns::views(cols) == columns::columns(table, width),
        table.len() == height,
        columns::is_power_of_two(height),
        0 <= c < width,
        0 <= i < height,
    ensures
        holds_table(cols, table, width as int, height as int, c, i),
{
    trace_cells::lemma_place(i, height);
    trace_cells::lemma_column_cells(table, width, c, i);
    let v = columns::views(cols);
    assert(v.len() == cols.len());
    assert(v[c] == cols[c]@);
}

/// The traces of the norm checks hold the tables of signs and sizes.
pub proof fn lemma_norm_traces(
    f: &[i64; 256],
    one: (Vec<Vec<u32>>, [i64; 256]),
    z: &[[i64; 256]; 5],
    five: (Vec<Vec<u32>>, [[i64; 256]; 5], [i64; 5]),
    c: int,
    d: int,
    i: int,
)
    requires
        call_ensures(mldsa_norm_check_air::build_trace, (f,), one),
        call_ensures(mldsa_norm_check_batch_air::build_trace, (z,), five),
        0 <= c < 3,
        0 <= d < 15,
        0 <= i < 256,
    ensures
        holds_table(
            one.0@,
            mldsa_norm_check_air::norm_table(transform::ints(f@)),
            3,
            256,
            c,
            i,
        ),
        holds_table(
            five.0@,
            mldsa_norm_check_batch_air::batch_table(polyvec::polys(z@)),
            15,
            256,
            d,
            i,
        ),
{
    columns::lemma_powers_of_two();
    lemma_table_held(
        one.0@,
        mldsa_norm_check_air::norm_table(transform::ints(f@)),
        3,
        256,
        c,
        i,
    );
    lemma_table_held(
        five.0@,
        mldsa_norm_check_batch_air::batch_table(polyvec::polys(z@)),
        15,
        256,
        d,
        i,
    );
}

/// The traces of the products hold the tables of products, sums and binary digits.
pub proof fn lemma_product_traces(
    a: &[[i64; 256]; 5],
    z: &[[i64; 256]; 5],
    single: (Vec<Vec<u32>>, [i64; 256]),
    m: &[[i64; 256]],
    full: (Vec<Vec<u32>>, [[i64; 256]; 6]),
    ch: &[i64; 256],
    t1: &[[i64; 256]; 6],
    ct1: (Vec<Vec<u32>>, [[i64; 256]; 6]),
    c: int,
    d: int,
    e: int,
    i: int,
)
    requires
        call_ensures(mldsa_az_air::build_trace, (a, z), single),
        call_ensures(mldsa_az_full_air::build_trace, (m, z), full),
        call_ensures(mldsa_ct1_full_air::build_trace, (ch, t1), ct1),
        0 <= c < 258,
        0 <= d < 1523,
        0 <= e < 295,
        0 <= i < 256,
    ensures
        holds_table(
            single.0@,
            mldsa_az_air::az_table(polyvec::polys(a@), polyvec::polys(z@)),
            258,
            256,
            c,
            i,
        ),
        holds_table(
            full.0@,
            mldsa_az_full_air::full_table(
                mldsa_az_full_air::matrix_of(polyvec::polys(m@)),
                polyvec::polys(z@),
            ),
            1523,
            256,
            d,
            i,
        ),
        holds_table(
            ct1.0@,
            mldsa_ct1_full_air::ct1_table(transform::ints(ch@), polyvec::polys(t1@)),
            295,
            256,
            e,
            i,
        ),
{
    columns::lemma_powers_of_two();
    lemma_table_held(
        single.0@,
        mldsa_az_air::az_table(polyvec::polys(a@), polyvec::polys(z@)),
        258,
        256,
        c,
        i,
    );
    lemma_table_held(
        full.0@,
        mldsa_az_full_air::full_table(
            mldsa_az_full_air::matrix_of(polyvec::polys(m@)),
            polyvec::polys(z@),
        ),
        1523,
        256,
        d,
        i,
    );
    lemma_table_held(
        ct1.0@,
        mldsa_ct1_full_air::ct1_table(transform::ints(ch@), polyvec::polys(t1@)),
        295,
        256,
        e,
        i,
    );
}

/// The traces of inverse transforms hold the butterflies, and what they end in has its
/// argument for transform.
pub proof fn lemma_intt_traces(
    f: &[i64; 256],
    one: (Vec<Vec<u32>>, [i64; 256]),
    v: &[[i64; 256]],
    many: (Vec<Vec<u32>>, Vec<[i64; 256]>),
    c: int,
    d: int,
    i: int,
    j: int,
)
    requires
        transform::is_elem(transform::ints(f@)),
        polyvec::all_elems(polyvec::polys(v@)),
        call_ensures(mldsa_intt_air::build_trace, (f,), one),
        call_ensures(mldsa_intt_batch_air::build_trace, (v,), many),
        0 <= c < 9,
        0 <= d < 1 + 54 * v@.len(),
        0 <= i < 1024,
        0 <= j < v@.len(),
    ensures
        holds_table(
            one.0@,
            mldsa_intt_air::intt_table(transform::ints(f@)),
            9,
            1024,
            c,
            i,
        ),
        transform::ntt_of(transform::ints(one.1@)) == transform::ints(f@),
        holds_table(
            many.0@,
            mldsa_intt_batch_air::batch_table(polyvec::polys(v@)),
            1 + 54 * v@.len() as int,
            1024,
            d,
            i,
        ),
        transform::ntt_of(transform::ints(many.1@[j]@)) == transform::ints(v@[j]@),
{
    columns::lemma_powers_of_two();
    transform::lemma_ntt_of_intt(transform::ints(f@));
    lemma_table_held(
        one.0@,
        mldsa_intt_air::intt_table(transform::ints(f@)),
        9,
        1024,
        c,
        i,
    );
    let g = polyvec::polys(v@);
    lemma_table_held(
        many.0@,
        mldsa_intt_batch_air::batch_table(g),
        1 + 54 * v@.len(),
        1024,
        d,
        i,
    );
    assert(g[j] == transform::ints(v@[j]@));
    assert(transform::is_elem(g[j]));
    transform::lemma_ntt_of_intt(g[j]);
    let out = polyvec::polys(many.1@);
    assert(out == polyvec::vec_intt(g));
    assert(out.len() == many.1@.len());
    assert(out.len() == g.len());
    assert(out[j] == transform::ints(many.1@[j]@));
}

/// The trace of a hint's weight holds the bits and their running sum, the fixed columns mark
/// the first row and the rows with a bit, and the last part is the weight.
pub proof fn lemma_weight_trace(
    h: &[Vec<bool>],
    r: (Vec<Vec<u32>>, Vec<Vec<u32>>, usize),
    c: int,
    i: int,
)
    requires
        call_ensures(mldsa_hint_weight_air::build_trace, (h,), r),
        0 <= c < 2,
        0 <= i < 2048,
    ensures
        holds_table(
            r.0@,
            mldsa_hint_weight_air::hint_table(mldsa_hint_weight_air::hint_views(h@)),
            2,
            2048,
            c,
            i,
        ),
        holds_table(r.1@, mldsa_hint_weight_air::preprocessed_table(), 2, 2048, c, i),
        r.2 == hints::total_weight(mldsa_hint_weight_air::hint_views(h@), 6),
{
    columns::lemma_powers_of_two();
    lemma_table_held(
        r.0@,
        mldsa_hint_weight_air::hint_table(mldsa_hint_weight_air::hint_views(h@)),
        2,
        2048,
        c,
        i,
    );
    lemma_table_held(r.1@, mldsa_hint_weight_air::preprocessed_table(), 2, 2048, c, i);
}

/// Every circuit announces the size that it was made with, and constraints of twice that
/// degree.
pub proof fn lemma_degrees(
    a: &HashChainEval,
    b: &NormCheckEval,
    c: &NormCheckBatchEval,
    d: &AzRowEval,
    e: &AzFullEval,
    f: &Ct1FullEval,
    g: &HintWeightEval,
    h: &MlDsaInttButterflyEval,
    i: &InttBatchEval,
    n: Seq<u32>,
    m: Seq<u32>,
)
    requires
        n.len() == 9,
        m.len() == 9,
        call_ensures(HashChainEval::log_size, (a,), n[0]),
        call_ensures(NormCheckEval::log_size, (b,), n[1]),
        call_ensures(NormCheckBatchEval::log_size, (c,), n[2]),
        call_ensures(AzRowEval::log_size, (d,), n[3]),
        call_ensures(AzFullEval::log_size, (e,), n[4]),
        call_ensures(Ct1FullEval::log_size, (f,), n[5]),
        call_ensures(HintWeightEval::log_size, (g,), n[6]),
        call_ensures(MlDsaInttButterflyEval::log_size, (h,), n[7]),
        call_ensures(InttBatchEval::log_size, (i,), n[8]),
        call_ensures(HashChainEval::max_constraint_log_degree_bound, (a,), m[0]),
        call_ensures(NormCheckEval::max_constraint_log_degree_bound, (b,), m[1]),
        call_ensures(NormCheckBatchEval::max_constraint_log_degree_bound, (c,), m[2]),
        call_ensures(AzRowEval::max_constraint_log_degree_bound, (d,), m[3]),
        call_ensures(AzFullEval::max_constraint_log_degree_bound, (e,), m[4]),
        call_ensures(Ct1FullEval::max_constraint_log_degree_bound, (f,), m[5]),
        call_ensures(HintWeightEval::max_constraint_log_degree_bound, (g,), m[6]),
        call_ensures(MlDsaInttButterflyEval::max_constraint_log_degree_bound, (h,), m[7]),
        call_ensures(InttBatchEval::max_constraint_log_degree_bound, (i,), m[8]),
    ensures
        n == seq![
            a.log_n_rows,
            b.log_n_rows,
            c.log_n_rows,
            d.log_n_rows,
            e.log_n_rows,
            f.log_n_rows,
            g.log_n_rows,
            h.log_n_rows,
            i.log_n_rows,
        ],
        forall|k: int| 0 <= k < 9 ==> #[trigger] m[k] == n[k] + 1,
{
    assert(n =~= seq![
        a.log_n_rows,
        b.log_n_rows,
        c.log_n_rows,
        d.log_n_rows,
        e.log_n_rows,
        f.log_n_rows,
        g.log_n_rows,
        h.log_n_rows,
        i.log_n_rows,
    ]);
}

} // verus!
