//! The butterflies of the inverse transform.
//!
//! The trace has a row for each of the `8 * 128` butterflies, in the order in which
//! the transform performs them, with nine cells: the inputs `a_in` and `b_in`, the
//! twiddle factor `zeta_inv`, `diff = a_in - b_in` modulo `Q` and its borrow
//! `carry_d`, `a_out = a_in + b_in` modulo `Q` and its carry `carry_a`, and
//! `b_out = zeta_inv * diff` modulo `Q` and its quotient `carry_b`. The division by
//! 256 at the end of the transform has no rows.
use crate::cells;
use crate::columns;
use crate::constraint;
use crate::constraint::Term;
use crate::mldsa::field;
use crate::mldsa::ntt;
use crate::mldsa::params::{N, N_INV, Q};
use crate::mldsa::transform;
use crate::mldsa::zq;
use crate::mldsa_ct1_full_air as ct1;
use vstd::arithmetic::div_mod::*;
use vstd::arithmetic::power2::*;
use vstd::prelude::*;

verus! {

/// The number of butterflies.
pub const N_BUTTERFLIES: usize = 1024;

/// Binary logarithm of the number of rows.
pub const LOG_N_BUTTERFLIES: u32 = 10;

/// The number of cells in a row.
pub const N_COLS: usize = 9;

/// The constraints on a trace of `2^log_n_rows` rows.
#[derive(Clone, Copy, Debug)]
pub struct MlDsaInttButterflyEval {
    pub log_n_rows: u32,
}

/// `diff - a_in + b_in - carry_d * Q = 0`.
pub open spec fn diff_terms(a: usize, b: usize, d: usize, c: usize) -> Seq<Term> {
    seq![
        Term::Linear { coeff: 1, x: d },
        Term::Linear { coeff: (-1) as i64, x: a },
        Term::Linear { coeff: 1, x: b },
        Term::Linear { coeff: (-8380417) as i64, x: c },
    ]
}

/// `a_out - a_in - b_in + carry_a * Q = 0`.
pub open spec fn total_terms(a: usize, b: usize, o: usize, c: usize) -> Seq<Term> {
    seq![
        Term::Linear { coeff: 1, x: o },
        Term::Linear { coeff: (-1) as i64, x: a },
        Term::Linear { coeff: (-1) as i64, x: b },
        Term::Linear { coeff: 8380417, x: c },
    ]
}

/// The constraints on a butterfly with its twiddle factor in cell `z`, its inputs in
/// the cells from `x` on, and its other cells from `y` on.
pub open spec fn butterfly_constraints(z: int, x: int, y: int) -> Seq<Seq<Term>> {
    seq![
        diff_terms(x as usize, (x + 1) as usize, y as usize, (y + 1) as usize),
        constraint::boolean((y + 1) as usize),
        total_terms(x as usize, (x + 1) as usize, (y + 2) as usize, (y + 3) as usize),
        constraint::boolean((y + 3) as usize),
        constraint::product_mod_q(z as usize, y as usize, (y + 4) as usize, (y + 5) as usize),
    ]
}

/// Adds the constraints on a butterfly.
pub fn push_butterfly(cs: &mut Vec<Vec<Term>>, z: usize, x: usize, y: usize)
    requires
        x + 1 <= usize::MAX,
        y + 5 <= usize::MAX,
    ensures
        constraint::views(final(cs)@) == constraint::views(old(cs)@) + butterfly_constraints(
            z as int,
            x as int,
            y as int,
        ),
{
    let ghost before = constraint::views(cs@);
    let ghost goal = butterfly_constraints(z as int, x as int, y as int);
    let mut diff: Vec<Term> = Vec::new();
    diff.push(Term::Linear { coeff: 1, x: y });
    diff.push(Term::Linear { coeff: -1, x });
    diff.push(Term::Linear { coeff: 1, x: x + 1 });
    diff.push(Term::Linear { coeff: -8380417, x: y + 1 });
    let mut total: Vec<Term> = Vec::new();
    total.push(Term::Linear { coeff: 1, x: y + 2 });
    total.push(Term::Linear { coeff: -1, x });
    total.push(Term::Linear { coeff: -1, x: x + 1 });
    total.push(Term::Linear { coeff: 8380417, x: y + 3 });
    proof {
        assert(diff@ =~= goal[0]);
        assert(total@ =~= goal[2]);
    }
    cs.push(diff);
    proof {
        assert(constraint::views(cs@) =~= before.push(goal[0]));
    }
    constraint::push_boolean(cs, y + 1);
    let ghost mid = constraint::views(cs@);
    cs.push(total);
    proof {
        assert(constraint::views(cs@) =~= mid.push(goal[2]));
    }
    constraint::push_boolean(cs, y + 3);
    constraint::push_product(cs, z, y, y + 4, y + 5);
    proof {
        assert(constraint::views(cs@) =~= before + goal);
    }
}

pub proof fn lemma_butterfly_fits(z: int, x: int, y: int, n: int)
    requires
        0 <= z < n,
        0 <= x,
        x + 1 < n,
        0 <= y,
        y + 5 < n,
        n <= usize::MAX,
    ensures
        constraint::all_fit(butterfly_constraints(z, x, y), n),
{
}

impl MlDsaInttButterflyEval {
    pub fn log_size(&self) -> (n: u32)
        ensures
            n == self.log_n_rows,
    {
        self.log_n_rows
    }

    pub fn max_constraint_log_degree_bound(&self) -> (n: u32)
        requires
            self.log_n_rows < u32::MAX,
        ensures
            n == self.log_n_rows + 1,
    {
        self.log_n_rows + 1
    }

    /// The constraints.
    pub fn constraints(&self) -> (cs: Vec<Vec<Term>>)
        ensures
            constraint::views(cs@) == butterfly_constraints(2, 0, 3),
            constraint::all_fit(constraint::views(cs@), 9),
    {
        let mut cs: Vec<Vec<Term>> = Vec::new();
        push_butterfly(&mut cs, 2, 0, 3);
        proof {
            assert(constraint::views(cs@) =~= butterfly_constraints(2, 0, 3));
            lemma_butterfly_fits(2, 0, 3, 9);
        }
        cs
    }

    /// The values of the constraints on a row.
    pub fn evaluate(&self, row: &[u32]) -> (out: Vec<u32>)
        requires
            row@.len() == 9,
        ensures
            out@ == constraint::residues(
                butterfly_constraints(2, 0, 3),
                constraint::cells(row@),
            ),
    {
        constraint::evaluate(&self.constraints(), row)
    }
}

/// A butterfly: its inputs, its twiddle factor, and what it computes.
#[derive(Clone, Copy, Debug, PartialEq, Eq)]
pub struct InttRow {
    pub a_in: i64,
    pub b_in: i64,
    pub zeta_inv: i64,
    pub diff: i64,
    pub carry_d: i64,
    pub a_out: i64,
    pub carry_a: i64,
    pub b_out: i64,
    pub carry_b: i64,
}

impl View for InttRow {
    type V = Seq<int>;

    open spec fn view(&self) -> Seq<int> {
        seq![
            self.a_in as int,
            self.b_in as int,
            self.zeta_inv as int,
            self.diff as int,
            self.carry_d as int,
            self.a_out as int,
            self.carry_a as int,
            self.b_out as int,
            self.carry_b as int,
        ]
    }
}

/// The cells of the butterfly of `a` and `b` with the twiddle factor `z`.
pub open spec fn butterfly_row(a: int, b: int, z: int) -> Seq<int> {
    let d = zq::modq(a - b);
    seq![
        a,
        b,
        z,
        d,
        if a < b {
            1
        } else {
            0
        },
        zq::modq(a + b),
        if a + b >= Q {
            1
        } else {
            0
        },
        z * d % (Q as int),
        z * d / (Q as int),
    ]
}

/// Computes a butterfly.
pub fn compute_gs_butterfly(a_in: i64, b_in: i64, zeta_inv_k: i64) -> (row: InttRow)
    requires
        field::in_field(a_in as int),
        field::in_field(b_in as int),
        field::in_field(zeta_inv_k as int),
    ensures
        row@ == butterfly_row(a_in as int, b_in as int, zeta_inv_k as int),
        row.a_out == zq::modq(a_in + b_in),
        row.b_out == zq::modq(zeta_inv_k * (a_in - b_in)),
        forall|i: int| 0 <= i < 9 ==> field::in_field(#[trigger] row@[i]),
{
    let raw_diff: i64 = a_in - b_in;
    let carry_d: i64 = if raw_diff < 0 {
        1
    } else {
        0
    };
    let diff: i64 = raw_diff + carry_d * Q;
    let raw_a: i64 = a_in + b_in;
    let carry_a: i64 = if raw_a >= Q {
        1
    } else {
        0
    };
    let a_out: i64 = raw_a - carry_a * Q;
    proof {
        let k: int = if raw_diff < 0 {
            -1
        } else {
            0
        };
        lemma_fundamental_div_mod_converse(raw_diff as int, Q as int, k, diff as int);
        let m: int = if raw_a >= Q {
            1
        } else {
            0
        };
        lemma_fundamental_div_mod_converse(raw_a as int, Q as int, m, a_out as int);
        ct1::lemma_product_range(zeta_inv_k as int, diff as int);
        zq::lemma_modq_mul(zeta_inv_k as int, a_in - b_in);
    }
    let prod: i64 = zeta_inv_k * diff;
    let carry_b: i64 = prod / Q;
    let b_out: i64 = prod % Q;
    let row = InttRow {
        a_in,
        b_in,
        zeta_inv: zeta_inv_k,
        diff,
        carry_d,
        a_out,
        carry_a,
        b_out,
        carry_b,
    };
    proof {
        assert(row@ =~= butterfly_row(a_in as int, b_in as int, zeta_inv_k as int));
    }
    row
}

/// Whether the cells of a butterfly hold what it computes.
pub open spec fn holds_butterfly(row: Seq<int>, z: int, x: int, y: int) -> bool {
    let cells = butterfly_row(row[x], row[x + 1], row[z]);
    &&& row[y] == cells[3]
    &&& row[y + 1] == cells[4]
    &&& row[y + 2] == cells[5]
    &&& row[y + 3] == cells[6]
    &&& row[y + 4] == cells[7]
    &&& row[y + 5] == cells[8]
}

proof fn lemma_diff_value(a: usize, b: usize, d: usize, c: usize, row: Seq<int>)
    ensures
        constraint::value(diff_terms(a, b, d, c), row) == row[d as int] - row[a as int]
            + row[b as int] - Q * row[c as int],
{
    reveal_with_fuel(constraint::partial_value, 5);
    assert(diff_terms(a, b, d, c).len() == 4);
    constraint::lemma_linear(1, d, row, 1);
    constraint::lemma_linear((-1) as i64, a, row, -1);
    constraint::lemma_linear(1, b, row, 1);
    constraint::lemma_linear((-8380417) as i64, c, row, -8380417);
}

proof fn lemma_total_value(a: usize, b: usize, o: usize, c: usize, row: Seq<int>)
    ensures
        constraint::value(total_terms(a, b, o, c), row) == row[o as int] - row[a as int]
            - row[b as int] + Q * row[c as int],
{
    reveal_with_fuel(constraint::partial_value, 5);
    assert(total_terms(a, b, o, c).len() == 4);
    constraint::lemma_linear(1, o, row, 1);
    constraint::lemma_linear((-1) as i64, a, row, -1);
    constraint::lemma_linear((-1) as i64, b, row, -1);
    constraint::lemma_linear(8380417, c, row, 8380417);
}

/// The values of the constraints on a butterfly.
proof fn lemma_butterfly_values(z: int, x: int, y: int, row: Seq<int>)
    requires
        0 <= z <= usize::MAX,
        0 <= x,
        x + 1 <= usize::MAX,
        0 <= y,
        y + 5 <= usize::MAX,
    ensures
        ({
            let cs = butterfly_constraints(z, x, y);
            &&& constraint::value(cs[0], row) == row[y] - row[x] + row[x + 1] - Q * row[y + 1]
            &&& constraint::value(cs[1], row) == row[y + 1] * row[y + 1] - row[y + 1]
            &&& constraint::value(cs[2], row) == row[y + 2] - row[x] - row[x + 1] + Q * row[y + 3]
            &&& constraint::value(cs[3], row) == row[y + 3] * row[y + 3] - row[y + 3]
            &&& constraint::value(cs[4], row) == row[z] * row[y] - row[y + 4] - Q * row[y + 5]
        }),
{
    lemma_diff_value(x as usize, (x + 1) as usize, y as usize, (y + 1) as usize, row);
    constraint::lemma_boolean_value((y + 1) as usize, row);
    lemma_total_value(x as usize, (x + 1) as usize, (y + 2) as usize, (y + 3) as usize, row);
    constraint::lemma_boolean_value((y + 3) as usize, row);
    constraint::lemma_product_value(
        z as usize,
        y as usize,
        (y + 4) as usize,
        (y + 5) as usize,
        row,
    );
}

/// Cells that hold a butterfly meet the constraints.
pub proof fn lemma_butterfly_holds(z: int, x: int, y: int, row: Seq<int>)
    requires
        0 <= z <= usize::MAX,
        0 <= x,
        x + 1 <= usize::MAX,
        0 <= y,
        y + 5 <= usize::MAX,
        field::in_field(row[z]),
        field::in_field(row[x]),
        field::in_field(row[x + 1]),
        holds_butterfly(row, z, x, y),
    ensures
        constraint::satisfies(butterfly_constraints(z, x, y), row),
{
    lemma_butterfly_values(z, x, y, row);
    let a = row[x];
    let b = row[x + 1];
    let d = row[y];
    let k: int = if a < b {
        -1
    } else {
        0
    };
    lemma_fundamental_div_mod_converse(a - b, Q as int, k, a - b - Q * k);
    let m: int = if a + b >= Q {
        1
    } else {
        0
    };
    lemma_fundamental_div_mod_converse(a + b, Q as int, m, a + b - Q * m);
    ct1::lemma_product_range(row[z], d);
    let cs = butterfly_constraints(z, x, y);
    constraint::lemma_boolean_value((y + 1) as usize, row);
    constraint::lemma_boolean_value((y + 3) as usize, row);
    assert forall|i: int| 0 <= i < cs.len() implies constraint::holds(#[trigger] cs[i], row) by {
        assert(constraint::value(cs[i], row) == 0);
    }
}

/// The row of any butterfly meets the constraints.
pub proof fn lemma_butterfly_row(a: int, b: int, z: int)
    requires
        field::in_field(a),
        field::in_field(b),
        field::in_field(z),
    ensures
        constraint::satisfies(butterfly_constraints(2, 0, 3), butterfly_row(a, b, z)),
{
    lemma_butterfly_holds(2, 0, 3, butterfly_row(a, b, z));
}

/// In a row that meets the constraints and whose cells lie in the documented ranges,
/// the difference and the sum are those of the inputs.
pub proof fn lemma_butterfly_sound(row: Seq<int>)
    requires
        row.len() == 9,
        forall|i: int| 0 <= i < 9 ==> field::in_field(#[trigger] row[i]),
        row[4] <= 1,
        row[6] <= 1,
        constraint::satisfies(butterfly_constraints(2, 0, 3), row),
    ensures
        row[3] == zq::modq(row[0] - row[1]),
        row[4] == 1 <==> row[0] < row[1],
        row[5] == zq::modq(row[0] + row[1]),
        row[6] == 1 <==> row[0] + row[1] >= Q,
{
    lemma_butterfly_values(2, 0, 3, row);
    let cs = butterfly_constraints(2, 0, 3);
    assert(constraint::holds(cs[0], row));
    assert(constraint::holds(cs[2], row));
    assert(field::in_field(row[0]) && field::in_field(row[1]) && field::in_field(row[3]));
    assert(field::in_field(row[4]) && field::in_field(row[5]) && field::in_field(row[6]));
    let u = row[3] - row[0] + row[1] - Q * row[4];
    assert(u % 2147483647 == 0 && -2147483647 < u < 2147483647);
    assert(u == 0);
    let v = row[5] - row[0] - row[1] + Q * row[6];
    assert(v % 2147483647 == 0 && -2147483647 < v < 2147483647);
    assert(v == 0);
    lemma_fundamental_div_mod_converse(row[0] - row[1], Q as int, -row[4], row[3]);
    lemma_fundamental_div_mod_converse(row[0] + row[1], Q as int, row[6], row[5]);
}

/// The position of the first input of butterfly `q` in stage `s`.
pub open spec fn first_input(s: nat, q: int) -> int {
    let len = transform::stage_len(s as int);
    transform::block_of(q, len) * (2 * len) + transform::offset_of(q, len)
}

/// The cells of butterfly `q` in stage `s` on the values `x`.
pub open spec fn stage_row(x: Seq<int>, s: nat, q: int) -> Seq<int> {
    let len = transform::stage_len(s as int);
    let p = first_input(s, q);
    butterfly_row(
        x[p],
        x[p + len],
        transform::zeta_inv(pow2(s) + transform::block_of(q, len)),
    )
}

/// The rows of the inverse transform of `g`: 128 for each stage, from the last stage
/// to the first.
pub open spec fn intt_table(g: Seq<int>) -> Seq<Seq<int>> {
    Seq::new(
        1024,
        |r: int|
            {
                let s = (7 - r / 128) as nat;
                stage_row(transform::unwound(g, s + 1), s, r % 128)
            },
    )
}

/// Performs a stage, and appends its butterflies to the rows.
fn intt_stage(
    f: &mut [i64; 256],
    rows: &mut Vec<InttRow>,
    inv_zetas: &[i64; 256],
    len: usize,
    stage: Ghost<nat>,
)
    requires
        stage@ < 8,
        len == transform::stage_len(stage@ as int),
        transform::is_elem(transform::ints(old(f)@)),
        forall|i: int|
            0 <= i < 256 ==> #[trigger] inv_zetas[i] == transform::zeta_inv(i) && field::in_field(
                inv_zetas[i] as int,
            ),
    ensures
        transform::ints(final(f)@) == transform::gs(transform::ints(old(f)@), len as int),
        transform::is_elem(transform::ints(final(f)@)),
        final(rows)@.len() == old(rows)@.len() + 128,
        forall|i: int| 0 <= i < old(rows)@.len() ==> final(rows)@[i] == old(rows)@[i],
        forall|q: int|
            0 <= q < 128 ==> (#[trigger] final(rows)@[old(rows)@.len() + q])@ == stage_row(
                transform::ints(old(f)@),
                stage@,
                q,
            ),
        forall|q: int, i: int|
            0 <= q < 128 && 0 <= i < 9 ==> field::in_field(
                #[trigger] final(rows)@[old(rows)@.len() + q]@[i],
            ),
{
    let ghost t = stage@;
    let ghost x = transform::ints(f@);
    let ghost y = transform::gs(x, len as int);
    let ghost base = rows@;
    let ghost mut b: int = 0;
    proof {
        transform::lemma_stage_sizes(t);
        assert(0 * (2 * len) == 0);
        assert(0 * len == 0);
        transform::lemma_block(pow2(t) as int, 2 * len, 0);
        assert(pow2(t) * (2 * len) == 256) by (nonlinear_arith)
            requires
                (2 * len) * pow2(t) == 256,
        ;
        reveal(transform::block_of);
    }
    let mut k: usize = N / (2 * len);
    let mut start: usize = 0;
    while start < N
        invariant
            forall|i: int|
                0 <= i < 256 ==> #[trigger] inv_zetas[i] == transform::zeta_inv(i)
                    && field::in_field(inv_zetas[i] as int),
            t < 8,
            len == transform::stage_len(t as int),
            1 <= len <= 128,
            (2 * len) * pow2(t) == 256,
            pow2(t) <= 128,
            0 <= b <= pow2(t),
            start == b * (2 * len),
            start <= 256,
            k == pow2(t) + b,
            x.len() == 256,
            forall|i: int| 0 <= i < 256 ==> field::in_field(#[trigger] x[i]),
            y == transform::gs(x, len as int),
            forall|p: int|
                0 <= p < 256 ==> (#[trigger] f[p]) as int == ntt::in_progress(
                    x,
                    y,
                    start as int,
                    len as int,
                    0,
                    p,
                ),
            rows@.len() == base.len() + b * len,
            forall|i: int| 0 <= i < base.len() ==> rows@[i] == base[i],
            forall|q: int|
                0 <= q < b * len ==> (#[trigger] rows@[base.len() + q])@ == stage_row(x, t, q),
            forall|q: int, i: int|
                0 <= q < b * len && 0 <= i < 9 ==> field::in_field(
                    #[trigger] rows@[base.len() + q]@[i],
                ),
        decreases 256 - start,
    {
        proof {
            assert(b < pow2(t)) by (nonlinear_arith)
                requires
                    b * (2 * len) < 256,
                    (2 * len) * pow2(t) == 256,
                    len >= 1,
            ;
            ntt::lemma_butterfly(t, b, (len - 1) as int);
        }
        let zeta_inv_k: i64 = inv_zetas[k];
        k = k + 1;
        let mut j: usize = 0;
        while j < len
            invariant
                t < 8,
                len == transform::stage_len(t as int),
                1 <= len <= 128,
                0 <= b < pow2(t),
                start == b * (2 * len),
                start + 2 * len <= 256,
                zeta_inv_k == transform::zeta_inv(pow2(t) + b),
                field::in_field(zeta_inv_k as int),
                j <= len,
                x.len() == 256,
                forall|i: int| 0 <= i < 256 ==> field::in_field(#[trigger] x[i]),
                y == transform::gs(x, len as int),
                forall|p: int|
                    0 <= p < 256 ==> (#[trigger] f[p]) as int == ntt::in_progress(
                        x,
                        y,
                        start as int,
                        len as int,
                        j as int,
                        p,
                    ),
                rows@.len() == base.len() + b * len + j,
                forall|i: int| 0 <= i < base.len() ==> rows@[i] == base[i],
                forall|q: int|
                    0 <= q < b * len + j ==> (#[trigger] rows@[base.len() + q])@ == stage_row(
                        x,
                        t,
                        q,
                    ),
                forall|q: int, i: int|
                    0 <= q < b * len + j && 0 <= i < 9 ==> field::in_field(
                        #[trigger] rows@[base.len() + q]@[i],
                    ),
            decreases len - j,
        {
            let lo: usize = start + j;
            let hi: usize = start + j + len;
            proof {
                ntt::lemma_butterfly(t, b, j as int);
                assert(f[lo as int] == x[lo as int]);
                assert(f[hi as int] == x[hi as int]);
                transform::lemma_block(b, len as int, j as int);
                reveal(transform::block_of);
                reveal(transform::offset_of);
            }
            let row: InttRow = compute_gs_butterfly(f[lo], f[hi], zeta_inv_k);
            f[lo] = row.a_out;
            f[hi] = row.b_out;
            proof {
                assert(f[lo as int] == y[lo as int]);
                assert(f[hi as int] == y[hi as int]);
                assert(row@ == stage_row(x, t, b * len + j));
            }
            rows.push(row);
            j = j + 1;
        }
        proof {
            assert((b + 1) * (2 * len) == b * (2 * len) + 2 * len) by (nonlinear_arith);
            assert((b + 1) * len == b * len + len) by (nonlinear_arith);
            b = b + 1;
        }
        start = start + 2 * len;
    }
    proof {
        assert(b == pow2(t)) by (nonlinear_arith)
            requires
                b * (2 * len) >= 256,
                b <= pow2(t),
                (2 * len) * pow2(t) == 256,
                len >= 1,
        ;
        assert(b * len == 128) by (nonlinear_arith)
            requires
                b == pow2(t),
                (2 * len) * pow2(t) == 256,
        ;
        assert(transform::ints(f@) =~= y);
    }
}

/// Lists the butterflies of the inverse transform of `f`, and gives the values after
/// them, before the division by 256.
pub fn enumerate_intt_butterflies(f: &[i64; 256]) -> (r: (Vec<InttRow>, [i64; 256]))
    requires
        transform::is_elem(transform::ints(f@)),
    ensures
        r.0@.len() == 1024,
        forall|i: int|
            0 <= i < 1024 ==> (#[trigger] r.0@[i])@ == intt_table(transform::ints(f@))[i],
        forall|i: int, c: int|
            0 <= i < 1024 && 0 <= c < 9 ==> field::in_field(#[trigger] r.0@[i]@[c]),
        transform::ints(r.1@) == transform::unwound(transform::ints(f@), 0),
        transform::is_elem(transform::ints(r.1@)),
{
    let inv_zetas: [i64; 256] = ntt::get_zeta_inv();
    let ghost g = transform::ints(f@);
    let ghost table = intt_table(g);
    let mut poly: [i64; 256] = *f;
    let mut rows: Vec<InttRow> = Vec::new();
    let ghost mut s: nat = 8;
    let mut len: usize = 1;
    proof {
        transform::lemma_stage_sizes(7);
        lemma2_to64();
        reveal(transform::stage_len);
    }
    while len <= 128
        invariant
            forall|i: int|
                0 <= i < 256 ==> #[trigger] inv_zetas[i] == transform::zeta_inv(i)
                    && field::in_field(inv_zetas[i] as int),
            s <= 8,
            len == (if s > 0 {
                transform::stage_len(s - 1)
            } else {
                256
            }),
            table == intt_table(g),
            transform::ints(poly@) == transform::unwound(g, s),
            transform::is_elem(transform::ints(poly@)),
            rows@.len() == 128 * (8 - s),
            forall|i: int| 0 <= i < rows@.len() ==> (#[trigger] rows@[i])@ == table[i],
            forall|i: int, c: int|
                0 <= i < rows@.len() && 0 <= c < 9 ==> field::in_field(#[trigger] rows@[i]@[c]),
        decreases s,
    {
        proof {
            if s == 0 {
                assert(false);
            }
        }
        let ghost t = (s - 1) as nat;
        let ghost before = rows@;
        let ghost x = transform::ints(poly@);
        intt_stage(&mut poly, &mut rows, &inv_zetas, len, Ghost(t));
        proof {
            assert forall|i: int| 0 <= i < rows@.len() implies (#[trigger] rows@[i])@ == table[i] by {
                if i < before.len() {
                    assert(rows@[i] == before[i]);
                } else {
                    let q = i - before.len();
                    assert(rows@[before.len() + q]@ == stage_row(x, t, q));
                    lemma_fundamental_div_mod_converse(i, 128, 7 - t, q);
                }
            }
            assert forall|i: int, c: int| 0 <= i < rows@.len() && 0 <= c
                < 9 implies field::in_field(#[trigger] rows@[i]@[c]) by {
                if i < before.len() {
                    assert(rows@[i] == before[i]);
                } else {
                    assert(field::in_field(rows@[before.len() + (i - before.len())]@[c]));
                }
            }
            if t > 0 {
                transform::lemma_next_stage((t - 1) as nat);
            } else {
                reveal(transform::stage_len);
            }
            transform::lemma_stage_sizes(t);
            s = t;
            assert(len <= 128 ==> len << 1 == 2 * len) by (bit_vector);
        }
        len = len << 1;
    }
    proof {
        assert(s == 0) by {
            if s > 0 {
                transform::lemma_stage_sizes((s - 1) as nat);
            }
        }
    }
    (rows, poly)
}

/// Divides every value by 256.
pub fn scale_down(f: &[i64; 256]) -> (out: [i64; 256])
    requires
        transform::is_elem(transform::ints(f@)),
    ensures
        transform::ints(out@) == transform::scaled(N_INV as int, transform::ints(f@)),
        transform::is_elem(transform::ints(out@)),
{
    let mut out: [i64; 256] = *f;
    let ghost x = transform::ints(f@);
    let mut i: usize = 0;
    while i < N
        invariant
            i <= 256,
            x == transform::ints(f@),
            transform::is_elem(x),
            forall|p: int| 0 <= p < i ==> #[trigger] out[p] == zq::modq(N_INV * x[p]),
        decreases 256 - i,
    {
        proof {
            assert(field::in_field(x[i as int]));
            assert(x[i as int] * N_INV == N_INV * x[i as int]) by (nonlinear_arith);
        }
        out[i] = field::mul(f[i], N_INV);
        i = i + 1;
    }
    proof {
        assert(transform::ints(out@) =~= transform::scaled(N_INV as int, x));
    }
    out
}

/// The values after the butterflies, divided by 256, are the inverse transform.
pub proof fn lemma_scaled_is_inverse(g: Seq<int>)
    requires
        transform::is_elem(g),
    ensures
        transform::scaled(N_INV as int, transform::unwound(g, 0)) == transform::intt_of(g),
{
    transform::lemma_unwound(g);
    transform::lemma_intt_of_ntt(transform::scaled(N_INV as int, transform::unwound(g, 0)));
}

/// Appends the cells of a butterfly to a row.
fn push_row(row: &mut Vec<u32>, r: &InttRow)
    requires
        forall|c: int| 0 <= c < 9 ==> field::in_field(#[trigger] r@[c]),
    ensures
        constraint::cells(final(row)@) == constraint::cells(old(row)@) + r@,
{
    proof {
        assert(field::in_field(r@[0]) && field::in_field(r@[1]) && field::in_field(r@[2]));
        assert(field::in_field(r@[3]) && field::in_field(r@[4]) && field::in_field(r@[5]));
        assert(field::in_field(r@[6]) && field::in_field(r@[7]) && field::in_field(r@[8]));
    }
    cells::push_value(row, r.a_in);
    cells::push_value(row, r.b_in);
    cells::push_value(row, r.zeta_inv);
    cells::push_value(row, r.diff);
    cells::push_value(row, r.carry_d);
    cells::push_value(row, r.a_out);
    cells::push_value(row, r.carry_a);
    cells::push_value(row, r.b_out);
    cells::push_value(row, r.carry_b);
    proof {
        assert(constraint::cells(row@) =~= constraint::cells(old(row)@) + r@);
    }
}

/// Builds the columns of the trace, and the inverse transform of `f`.
pub fn build_trace(f: &[i64; 256]) -> (r: (Vec<Vec<u32>>, [i64; 256]))
    requires
        transform::is_elem(transform::ints(f@)),
    ensures
        columns::views(r.0@) == columns::columns(intt_table(transform::ints(f@)), 9),
        transform::ints(r.1@) == transform::intt_of(transform::ints(f@)),
        transform::is_elem(transform::ints(r.1@)),
        columns::all_satisfy(columns::views(r.0@), 1024, butterfly_constraints(2, 0, 3)),
{
    let ghost g = transform::ints(f@);
    let (rows, unscaled) = enumerate_intt_butterflies(f);
    let out: [i64; 256] = scale_down(&unscaled);
    let mut table: Vec<Vec<u32>> = Vec::new();
    let mut i: usize = 0;
    while i < N_BUTTERFLIES
        invariant
            i <= 1024,
            rows@.len() == 1024,
            forall|k: int| 0 <= k < 1024 ==> (#[trigger] rows@[k])@ == intt_table(g)[k],
            forall|k: int, c: int|
                0 <= k < 1024 && 0 <= c < 9 ==> field::in_field(#[trigger] rows@[k]@[c]),
            table@.len() == i,
            forall|k: int|
                0 <= k < i ==> constraint::cells((#[trigger] table@[k])@) == intt_table(g)[k],
        decreases 1024 - i,
    {
        let mut row: Vec<u32> = Vec::new();
        push_row(&mut row, &rows[i]);
        proof {
            assert(constraint::cells(row@) =~= rows@[i as int]@);
        }
        table.push(row);
        i = i + 1;
    }
    proof {
        columns::lemma_powers_of_two();
        assert(columns::rows(table@) =~= intt_table(g));
        assert forall|k: int| 0 <= k < 1024 implies constraint::satisfies(
            butterfly_constraints(2, 0, 3),
            #[trigger] columns::rows(table@)[k],
        ) by {
            let b = rows@[k]@;
            assert(field::in_field(b[0]) && field::in_field(b[1]) && field::in_field(b[2]));
            assert(b == butterfly_row(b[0], b[1], b[2]));
            lemma_butterfly_row(b[0], b[1], b[2]);
        }
        columns::lemma_committed_rows(table@, 9, butterfly_constraints(2, 0, 3));
        lemma_scaled_is_inverse(g);
    }
    (columns::to_columns(&table, 9), out)
}

} // verus!
