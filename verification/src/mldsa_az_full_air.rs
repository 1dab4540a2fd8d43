//! The product of the matrix `A` and a vector in the transform domain, all `K` rows in
//! one trace.
//!
//! A row of the trace holds the five factors `z` and, for each row of the matrix in
//! turn, 253 cells: the factors `a`, the products `t` modulo `Q`, their quotients
//! `ct` by `Q`, the running sums `s` modulo `Q`, their carries `cs`, the bits of
//! each `t`, and the bits of each `ct`.
use crate::cells;
use crate::columns;
use crate::constraint;
use crate::constraint::Term;
use crate::mldsa::bits;
use crate::mldsa::field;
use crate::mldsa::params::{K, N};
use crate::mldsa::polyvec;
use crate::mldsa::transform;
use crate::mldsa_az_air as single;
use crate::mldsa_az_air::Layout;
use vstd::prelude::*;

verus! {

/// Binary logarithm of the number of rows.
pub const LOG_N_ROWS: u32 = 8;

/// Bits of a range decomposition.
pub const N_BITS: usize = 23;

/// Cells of one row of the matrix.
pub const COLS_PER_ROW: usize = 253;

/// The number of cells in a row.
pub const N_COLS: usize = 1523;

/// The constraints on a trace of `2^log_n_rows` rows.
#[derive(Clone, Copy, Debug)]
pub struct AzFullEval {
    pub log_n_rows: u32,
}

/// Where the cells of row `i` of the matrix stand.
pub open spec fn layout_of(i: int) -> Layout {
    let at = 5 + 253 * i;
    Layout {
        a: at as usize,
        z: 0,
        t: (at + 5) as usize,
        ct: (at + 10) as usize,
        s: (at + 15) as usize,
        cs: (at + 19) as usize,
        step: 1,
        t_bits: (at + 23) as usize,
        ct_bits: (at + 138) as usize,
    }
}

/// The constraints on the first `n` rows of the matrix.
pub open spec fn full_constraints(n: nat) -> Seq<Seq<Term>>
    decreases n,
{
    if n == 0 {
        seq![]
    } else {
        full_constraints((n - 1) as nat) + single::block_constraints(layout_of(n - 1))
    }
}

proof fn lemma_full_fits(n: nat)
    requires
        n <= 6,
    ensures
        constraint::all_fit(full_constraints(n), 1523),
    decreases n,
{
    if n > 0 {
        let m = (n - 1) as nat;
        lemma_full_fits(m);
        single::lemma_block_fits(layout_of(m as int), 1523);
        constraint::lemma_fit_concat(
            full_constraints(m),
            single::block_constraints(layout_of(m as int)),
            1523,
        );
    }
}

impl AzFullEval {
    pub fn log_size(&self) -> (n: u32)
        ensures
            n == self.log_n_rows,
    {
        self.log_n_rows
    }

    pub fn max_constraint_log_degree_bound(&self) -> (n: u32)
        requires
            self.log_n_rows < u32::MAX,
        ensures
            n == self.log_n_rows + 1,
    {
        self.log_n_rows + 1
    }

    /// The constraints.
    pub fn constraints(&self) -> (cs: Vec<Vec<Term>>)
        ensures
            constraint::views(cs@) == full_constraints(6),
            constraint::all_fit(constraint::views(cs@), 1523),
    {
        let mut cs: Vec<Vec<Term>> = Vec::new();
        let mut i: usize = 0;
        proof {
            assert(constraint::views(cs@) =~= full_constraints(0));
        }
        while i < K
            invariant
                i <= 6,
                constraint::views(cs@) == full_constraints(i as nat),
            decreases 6 - i,
        {
            let at: usize = 5 + 253 * i;
            let l = Layout {
                a: at,
                z: 0,
                t: at + 5,
                ct: at + 10,
                s: at + 15,
                cs: at + 19,
                step: 1,
                t_bits: at + 23,
                ct_bits: at + 138,
            };
            single::push_block(&mut cs, l);
            i = i + 1;
        }
        proof {
            lemma_full_fits(6);
        }
        cs
    }

    /// The values of the constraints on a row.
    pub fn evaluate(&self, row: &[u32]) -> (out: Vec<u32>)
        requires
            row@.len() == 1523,
        ensures
            out@ == constraint::residues(full_constraints(6), constraint::cells(row@)),
    {
        constraint::evaluate(&self.constraints(), row)
    }
}

/// The 253 cells of the factors `a` with the factors `z`.
pub open spec fn block_row(a: Seq<int>, z: Seq<int>) -> Seq<int> {
    a + single::rems(a, z) + single::quos(a, z) + single::sums(a, z) + single::carries(a, z)
        + cells::all_bits(single::rems(a, z)) + cells::all_bits(single::quos(a, z))
}

/// The row of the factors of the first `n` rows of the matrix with the factors `z`.
pub open spec fn full_row(a: Seq<Seq<int>>, z: Seq<int>, n: nat) -> Seq<int>
    decreases n,
{
    if n == 0 {
        z
    } else {
        full_row(a, z, (n - 1) as nat) + block_row(a[n - 1], z)
    }
}

/// Whether the factors of each row of the matrix are five residues.
pub open spec fn all_factors(a: Seq<Seq<int>>) -> bool {
    forall|i: int| 0 <= i < a.len() ==> single::are_factors(#[trigger] a[i])
}

proof fn lemma_full_len(a: Seq<Seq<int>>, z: Seq<int>, n: nat)
    requires
        z.len() == 5,
        n <= a.len(),
        all_factors(a),
    ensures
        full_row(a, z, n).len() == 5 + 253 * n,
    decreases n,
{
    if n > 0 {
        lemma_full_len(a, z, (n - 1) as nat);
        assert(single::are_factors(a[n - 1]));
    }
}

proof fn lemma_full_cells(a: Seq<Seq<int>>, z: Seq<int>, n: nat, i: int)
    requires
        z.len() == 5,
        0 <= i < n <= a.len(),
        all_factors(a),
    ensures
        full_row(a, z, n).len() == 5 + 253 * n,
        forall|j: int| 0 <= j < 5 ==> full_row(a, z, n)[j] == z[j],
        forall|k: int|
            0 <= k < 253 ==> full_row(a, z, n)[#[trigger] (5 + 253 * i + k)] == block_row(a[i], z)[k],
    decreases n,
{
    lemma_full_len(a, z, n);
    lemma_full_len(a, z, (n - 1) as nat);
    if i < n - 1 {
        lemma_full_cells(a, z, (n - 1) as nat, i);
    } else {
        if n > 1 {
            lemma_full_cells(a, z, (n - 1) as nat, 0);
        }
        assert(single::are_factors(a[i]));
    }
}

#[verifier::rlimit(60)]
proof fn lemma_block_in_row(row: Seq<int>, a: Seq<int>, z: Seq<int>, i: int)
    requires
        0 <= i < 6,
        single::are_factors(a),
        single::are_factors(z),
        forall|j: int| 0 <= j < 5 ==> row[j] == z[j],
        forall|k: int|
            0 <= k < 253 ==> row[#[trigger] (5 + 253 * i + k)] == block_row(a, z)[k],
    ensures
        single::holds_block(layout_of(i), row, a, z),
{
    let l = layout_of(i);
    let at = 5 + 253 * i;
    let b = block_row(a, z);
    assert forall|j: int| 0 <= j < 5 implies row[#[trigger] (l.a + j)] == a[j] by {
        assert(row[at + j] == b[j]);
    }
    assert forall|j: int| 0 <= j < 5 implies row[#[trigger] (l.t + j)] == single::rem_at(
        a,
        z,
        j,
    ) by {
        assert(row[at + (5 + j)] == b[5 + j]);
    }
    assert forall|j: int| 0 <= j < 5 implies row[#[trigger] (l.ct + j)] == single::quo_at(
        a,
        z,
        j,
    ) by {
        assert(row[at + (10 + j)] == b[10 + j]);
    }
    assert forall|r: int| 0 <= r < 4 implies row[#[trigger] single::sum_cell(l, r)]
        == single::total(a, z, (r + 1) as nat) by {
        assert(row[at + (15 + r)] == b[15 + r]);
        assert(r * l.step == r) by (nonlinear_arith)
            requires
                l.step == 1,
        ;
    }
    assert forall|r: int| 0 <= r < 4 implies row[#[trigger] single::carry_cell(l, r)]
        == single::carry_at(a, z, r) by {
        assert(row[at + (19 + r)] == b[19 + r]);
        assert(r * l.step == r) by (nonlinear_arith)
            requires
                l.step == 1,
        ;
    }
    assert forall|j: int, k: int| 0 <= j < 5 && 0 <= k < 23 implies row[#[trigger] (l.t_bits + 23
        * j + k)] == bits::bit_of(single::rem_at(a, z, j), k as nat) by {
        single::lemma_all_bits(single::rems(a, z), j, k);
        assert(row[at + (23 + (23 * j + k))] == b[23 + (23 * j + k)]);
    }
    assert forall|j: int, k: int| 0 <= j < 5 && 0 <= k < 23 implies row[#[trigger] (l.ct_bits + 23
        * j + k)] == bits::bit_of(single::quo_at(a, z, j), k as nat) by {
        single::lemma_all_bits(single::quos(a, z), j, k);
        assert(row[at + (138 + (23 * j + k))] == b[138 + (23 * j + k)]);
    }
}

proof fn lemma_full_prefix(a: Seq<Seq<int>>, z: Seq<int>, n: nat)
    requires
        a.len() == 6,
        n <= 6,
        all_factors(a),
        single::are_factors(z),
    ensures
        constraint::satisfies(full_constraints(n), full_row(a, z, 6)),
    decreases n,
{
    if n > 0 {
        let m = (n - 1) as nat;
        lemma_full_prefix(a, z, m);
        lemma_full_cells(a, z, 6, m as int);
        assert(single::are_factors(a[m as int]));
        let row = full_row(a, z, 6);
        lemma_block_in_row(row, a[m as int], z, m as int);
        single::lemma_block_holds(layout_of(m as int), row, a[m as int], z);
        constraint::lemma_satisfies_concat(
            full_constraints(m),
            single::block_constraints(layout_of(m as int)),
            row,
        );
    }
}

/// The row of any factors meets the constraints.
pub proof fn lemma_full_row(a: Seq<Seq<int>>, z: Seq<int>)
    requires
        a.len() == 6,
        all_factors(a),
        single::are_factors(z),
    ensures
        full_row(a, z, 6).len() == 1523,
        constraint::satisfies(full_constraints(6), full_row(a, z, 6)),
{
    lemma_full_len(a, z, 6);
    lemma_full_prefix(a, z, 6);
}

/// The rows of a matrix given row by row as `6 * 5` polynomials.
pub open spec fn matrix_of(a: Seq<Seq<int>>) -> Seq<Seq<Seq<int>>> {
    Seq::new(6, |i: int| Seq::new(5, |j: int| a[5 * i + j]))
}

/// The factors at position `p` of each row of a matrix.
pub open spec fn matrix_at(a: Seq<Seq<Seq<int>>>, p: int) -> Seq<Seq<int>> {
    Seq::new(a.len(), |i: int| polyvec::at_position(a[i], p))
}

/// The rows of the trace of a matrix and a vector.
pub open spec fn full_table(a: Seq<Seq<Seq<int>>>, z: Seq<Seq<int>>) -> Seq<Seq<int>> {
    Seq::new(256, |p: int| full_row(matrix_at(a, p), polyvec::at_position(z, p), 6))
}

fn row_of(a_hat: &[[i64; 256]], i: usize, p: usize) -> (out: [i64; 5])
    requires
        a_hat@.len() == 30,
        polyvec::all_elems(polyvec::polys(a_hat@)),
        i < 6,
        p < 256,
    ensures
        transform::ints(out@) == polyvec::at_position(
            matrix_of(polyvec::polys(a_hat@))[i as int],
            p as int,
        ),
        single::are_factors(transform::ints(out@)),
{
    let out: [i64; 5] = [
        a_hat[5 * i][p],
        a_hat[5 * i + 1][p],
        a_hat[5 * i + 2][p],
        a_hat[5 * i + 3][p],
        a_hat[5 * i + 4][p],
    ];
    proof {
        let ps = polyvec::polys(a_hat@);
        let f = polyvec::at_position(matrix_of(ps)[i as int], p as int);
        assert(transform::ints(out@) =~= f);
        assert forall|j: int| 0 <= j < 5 implies field::in_field(#[trigger] f[j]) by {
            assert(transform::is_elem(ps[5 * i + j]));
        }
    }
    out
}

fn full_cells(a_hat: &[[i64; 256]], z: &[i64; 5], p: usize) -> (r: (Vec<u32>, [i64; 6]))
    requires
        a_hat@.len() == 30,
        polyvec::all_elems(polyvec::polys(a_hat@)),
        single::are_factors(transform::ints(z@)),
        p < 256,
    ensures
        constraint::cells(r.0@) == full_row(
            matrix_at(matrix_of(polyvec::polys(a_hat@)), p as int),
            transform::ints(z@),
            6,
        ),
        forall|i: int|
            0 <= i < 6 ==> #[trigger] r.1[i] == single::total(
                matrix_at(matrix_of(polyvec::polys(a_hat@)), p as int)[i],
                transform::ints(z@),
                4,
            ),
{
    let ghost m = matrix_at(matrix_of(polyvec::polys(a_hat@)), p as int);
    let ghost y = transform::ints(z@);
    let mut row: Vec<u32> = Vec::new();
    let mut out: [i64; 6] = [0i64; 6];
    proof {
        assert forall|j: int| 0 <= j < 5 implies 0 <= #[trigger] z@[j] < 2147483647 by {
            assert(field::in_field(y[j]));
        }
    }
    cells::push_values(&mut row, z.as_slice());
    proof {
        assert(constraint::cells(row@) =~= full_row(m, y, 0));
    }
    let mut i: usize = 0;
    while i < K
        invariant
            i <= 6,
            p < 256,
            a_hat@.len() == 30,
            polyvec::all_elems(polyvec::polys(a_hat@)),
            m == matrix_at(matrix_of(polyvec::polys(a_hat@)), p as int),
            y == transform::ints(z@),
            single::are_factors(y),
            constraint::cells(row@) == full_row(m, y, i as nat),
            forall|k: int| 0 <= k < i ==> #[trigger] out[k] == single::total(m[k], y, 4),
        decreases 6 - i,
    {
        let ghost before = constraint::cells(row@);
        let a: [i64; 5] = row_of(a_hat, i, p);
        let ghost x = transform::ints(a@);
        let b = single::block_cells(&a, z);
        proof {
            assert forall|j: int| 0 <= j < 5 implies 0 <= #[trigger] a@[j] < 2147483647 by {
                assert(field::in_field(x[j]));
            }
        }
        cells::push_values(&mut row, a.as_slice());
        cells::push_values(&mut row, b.t.as_slice());
        cells::push_values(&mut row, b.ct.as_slice());
        cells::push_values(&mut row, b.s.as_slice());
        cells::push_values(&mut row, b.cs.as_slice());
        cells::push_all_bits(&mut row, b.t.as_slice());
        cells::push_all_bits(&mut row, b.ct.as_slice());
        proof {
            assert(constraint::cells(row@) =~= before + block_row(x, y));
            assert(m[i as int] == x);
            assert(single::sums(x, y)[3] == b.s@[3]);
        }
        out[i] = b.s[3];
        i = i + 1;
    }
    (row, out)
}

/// Builds the columns of the trace, and the product.
pub fn build_trace(a_hat: &[[i64; 256]], z_hat: &[[i64; 256]; 5]) -> (r: (
    Vec<Vec<u32>>,
    [[i64; 256]; 6],
))
    requires
        a_hat@.len() == 30,
        polyvec::all_elems(polyvec::polys(a_hat@)),
        polyvec::all_elems(polyvec::polys(z_hat@)),
    ensures
        columns::views(r.0@) == columns::columns(
            full_table(matrix_of(polyvec::polys(a_hat@)), polyvec::polys(z_hat@)),
            1523,
        ),
        polyvec::polys(r.1@) == polyvec::mat_vec(
            matrix_of(polyvec::polys(a_hat@)),
            polyvec::polys(z_hat@),
        ),
        polyvec::all_elems(polyvec::polys(r.1@)),
        columns::all_satisfy(columns::views(r.0@), 256, full_constraints(6)),
{
    let ghost m = matrix_of(polyvec::polys(a_hat@));
    let ghost zv = polyvec::polys(z_hat@);
    let mut table: Vec<Vec<u32>> = Vec::new();
    let mut az: [[i64; 256]; 6] = [[0i64; 256]; 6];
    let mut p: usize = 0;
    proof {
        assert forall|i: int| 0 <= i < 6 implies polyvec::all_elems(#[trigger] m[i]) by {
            assert forall|j: int| 0 <= j < 5 implies transform::is_elem(#[trigger] m[i][j]) by {
                assert(transform::is_elem(polyvec::polys(a_hat@)[5 * i + j]));
            }
        }
    }
    while p < N
        invariant
            p <= 256,
            a_hat@.len() == 30,
            polyvec::all_elems(polyvec::polys(a_hat@)),
            polyvec::all_elems(zv),
            m == matrix_of(polyvec::polys(a_hat@)),
            zv == polyvec::polys(z_hat@),
            forall|i: int| 0 <= i < 6 ==> polyvec::all_elems(#[trigger] m[i]),
            table@.len() == p,
            forall|q: int|
                0 <= q < p ==> constraint::cells((#[trigger] table@[q])@) == full_table(m, zv)[q],
            forall|i: int, q: int|
                0 <= i < 6 && 0 <= q < p ==> #[trigger] az@[i]@[q] == polyvec::dot(m[i], zv, 5)[q],
        decreases 256 - p,
    {
        let z: [i64; 5] = single::factors_at(z_hat, p);
        let (row, sums) = full_cells(a_hat, &z, p);
        table.push(row);
        let mut i: usize = 0;
        while i < K
            invariant
                i <= 6,
                p < 256,
                polyvec::all_elems(zv),
                zv.len() == 5,
                m.len() == 6,
                forall|k: int| 0 <= k < 6 ==> (#[trigger] m[k]).len() == 5,
                forall|k: int| 0 <= k < 6 ==> polyvec::all_elems(#[trigger] m[k]),
                forall|k: int|
                    0 <= k < 6 ==> #[trigger] sums[k] == single::total(
                        polyvec::at_position(m[k], p as int),
                        polyvec::at_position(zv, p as int),
                        4,
                    ),
                forall|k: int, q: int|
                    0 <= k < 6 && 0 <= q < p ==> #[trigger] az@[k]@[q] == polyvec::dot(
                        m[k],
                        zv,
                        5,
                    )[q],
                forall|k: int|
                    0 <= k < i ==> #[trigger] az@[k]@[p as int] == polyvec::dot(
                        m[k],
                        zv,
                        5,
                    )[p as int],
            decreases 6 - i,
        {
            proof {
                single::lemma_total_is_dot(m[i as int], zv, p as int, 4);
            }
            az[i][p] = sums[i];
            i = i + 1;
        }
        p = p + 1;
    }
    proof {
        columns::lemma_powers_of_two();
        assert(columns::rows(table@) =~= full_table(m, zv));
        assert forall|q: int| 0 <= q < table@.len() implies (#[trigger] columns::rows(
            table@,
        )[q]).len() == 1523 && constraint::satisfies(
            full_constraints(6),
            columns::rows(table@)[q],
        ) by {
            let f = matrix_at(m, q);
            assert forall|i: int| 0 <= i < f.len() implies single::are_factors(
                #[trigger] f[i],
            ) by {
                assert(polyvec::all_elems(m[i]));
                single::lemma_factors(m[i], q);
            }
            single::lemma_factors(zv, q);
            lemma_full_row(f, polyvec::at_position(zv, q));
        }
        columns::lemma_committed_rows(table@, 1523, full_constraints(6));
        assert forall|i: int| 0 <= i < 6 implies polyvec::polys(az@)[i] == polyvec::dot(
            #[trigger] m[i],
            zv,
            5,
        ) by {
            assert(polyvec::dot(m[i], zv, 5).len() == 256);
            assert forall|q: int| 0 <= q < 256 implies polyvec::polys(az@)[i][q]
                == #[trigger] polyvec::dot(m[i], zv, 5)[q] by {
                assert(az@[i]@[q] == polyvec::dot(m[i], zv, 5)[q]);
            }
            assert(polyvec::polys(az@)[i] =~= polyvec::dot(m[i], zv, 5));
        }
        assert(polyvec::polys(az@) =~= polyvec::mat_vec(m, zv));
        assert forall|i: int| 0 <= i < 6 implies transform::is_elem(
            #[trigger] polyvec::polys(az@)[i],
        ) by {
            assert(polyvec::polys(az@)[i] == polyvec::dot(m[i], zv, 5));
        }
    }
    (columns::to_columns(&table, 1523), az)
}

} // verus!
