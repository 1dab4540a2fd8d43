//! Norm check of the `L` polynomials of a signature in one trace.
//!
//! A row holds the cells of the single check for each of the polynomials in turn.
use crate::columns;
use crate::constraint;
use crate::constraint::Term;
use crate::mldsa::field;
use crate::mldsa::params::{L, N};
use crate::mldsa::poly;
use crate::mldsa::polyvec;
use crate::mldsa::transform;
use crate::mldsa_norm_check_air as single;
use vstd::prelude::*;

verus! {

/// Binary logarithm of the number of rows.
pub const LOG_N_ROWS: u32 = 8;

/// Cells of one polynomial.
pub const COLS_PER_ROW: usize = 3;

/// The number of cells in a row.
pub const N_COLS: usize = 15;

/// The constraints on a trace of `2^log_n_rows` rows.
#[derive(Clone, Copy, Debug)]
pub struct NormCheckBatchEval {
    pub log_n_rows: u32,
}

/// The constraints on the first `n` polynomials.
pub open spec fn batch_constraints(n: nat) -> Seq<Seq<Term>>
    decreases n,
{
    if n == 0 {
        seq![]
    } else {
        batch_constraints((n - 1) as nat) + single::norm_constraints(3 * (n - 1))
    }
}

/// A row: coefficient `p` of each polynomial with its sign and its norm.
pub open spec fn batch_row(z: Seq<int>) -> Seq<int> {
    Seq::new(3 * z.len(), |c: int| single::norm_row(z[c / 3])[c % 3])
}

proof fn lemma_batch_fits(n: nat)
    requires
        n <= 5,
    ensures
        constraint::all_fit(batch_constraints(n), 3 * (n as int)),
    decreases n,
{
    if n > 0 {
        let m = (n - 1) as nat;
        lemma_batch_fits(m);
        assert(constraint::all_fit(batch_constraints(m), 3 * (n as int))) by {
            assert forall|i: int| 0 <= i < batch_constraints(m).len() implies constraint::fits(
                #[trigger] batch_constraints(m)[i],
                3 * (n as int),
            ) by {
                assert(constraint::fits(batch_constraints(m)[i], 3 * (m as int)));
            }
        }
        constraint::lemma_fit_concat(
            batch_constraints(m),
            single::norm_constraints(3 * (m as int)),
            3 * (n as int),
        );
    }
}

impl NormCheckBatchEval {
    pub fn log_size(&self) -> (n: u32)
        ensures
            n == self.log_n_rows,
    {
        self.log_n_rows
    }

    pub fn max_constraint_log_degree_bound(&self) -> (n: u32)
        requires
            self.log_n_rows < u32::MAX,
        ensures
            n == self.log_n_rows + 1,
    {
        self.log_n_rows + 1
    }

    /// The constraints.
    pub fn constraints(&self) -> (cs: Vec<Vec<Term>>)
        ensures
            constraint::views(cs@) == batch_constraints(5),
            constraint::all_fit(constraint::views(cs@), 15),
    {
        let mut cs: Vec<Vec<Term>> = Vec::new();
        let mut j: usize = 0;
        proof {
            assert(constraint::views(cs@) =~= batch_constraints(0));
        }
        while j < L
            invariant
                j <= 5,
                constraint::views(cs@) == batch_constraints(j as nat),
            decreases 5 - j,
        {
            single::push_norm_constraints(&mut cs, 3 * j);
            j = j + 1;
        }
        proof {
            lemma_batch_fits(5);
        }
        cs
    }

    /// The values of the constraints on a row.
    pub fn evaluate(&self, row: &[u32]) -> (out: Vec<u32>)
        requires
            row@.len() == 15,
        ensures
            out@ == constraint::residues(batch_constraints(5), constraint::cells(row@)),
    {
        constraint::evaluate(&self.constraints(), row)
    }
}

proof fn lemma_batch_prefix(z: Seq<int>, n: nat)
    requires
        z.len() == 5,
        n <= 5,
        forall|j: int| 0 <= j < 5 ==> field::in_field(#[trigger] z[j]),
    ensures
        constraint::satisfies(batch_constraints(n), batch_row(z)),
    decreases n,
{
    if n > 0 {
        let m = (n - 1) as nat;
        lemma_batch_prefix(z, m);
        let row = batch_row(z);
        assert((3 * m) / 3 == m && (3 * m) % 3 == 0);
        assert((3 * m + 1) / 3 == m && (3 * m + 1) % 3 == 1);
        assert((3 * m + 2) / 3 == m && (3 * m + 2) % 3 == 2);
        single::lemma_norm_cells(3 * (m as int), row);
        constraint::lemma_satisfies_concat(
            batch_constraints(m),
            single::norm_constraints(3 * (m as int)),
            row,
        );
    }
}

/// The row of every position meets the constraints.
pub proof fn lemma_batch_row(z: Seq<int>)
    requires
        z.len() == 5,
        forall|j: int| 0 <= j < 5 ==> field::in_field(#[trigger] z[j]),
    ensures
        constraint::satisfies(batch_constraints(5), batch_row(z)),
{
    lemma_batch_prefix(z, 5);
}

/// The rows of some polynomials.
pub open spec fn batch_table(z: Seq<Seq<int>>) -> Seq<Seq<int>> {
    Seq::new(256, |p: int| batch_row(polyvec::at_position(z, p)))
}

fn batch_cells(z: &[[i64; 256]; 5], p: usize) -> (row: Vec<u32>)
    requires
        p < 256,
        polyvec::all_elems(polyvec::polys(z@)),
    ensures
        constraint::cells(row@) == batch_row(polyvec::at_position(polyvec::polys(z@), p as int)),
{
    let ghost zs = polyvec::at_position(polyvec::polys(z@), p as int);
    let mut row: Vec<u32> = Vec::new();
    let mut j: usize = 0;
    while j < 5
        invariant
            j <= 5,
            p < 256,
            polyvec::all_elems(polyvec::polys(z@)),
            zs == polyvec::at_position(polyvec::polys(z@), p as int),
            row@.len() == 3 * j,
            forall|c: int| 0 <= c < 3 * j ==> #[trigger] row@[c] == batch_row(zs)[c],
        decreases 5 - j,
    {
        proof {
            assert(transform::is_elem(polyvec::polys(z@)[j as int]));
            assert(field::in_field(polyvec::polys(z@)[j as int][p as int]));
        }
        let zv: i64 = z[j][p];
        let (sel, norm) = single::sel_and_norm(zv);
        row.push(zv as u32);
        row.push(sel as u32);
        row.push(norm as u32);
        j = j + 1;
        proof {
            let m = j - 1;
            assert((3 * m) / 3 == m && (3 * m) % 3 == 0);
            assert((3 * m + 1) / 3 == m && (3 * m + 1) % 3 == 1);
            assert((3 * m + 2) / 3 == m && (3 * m + 2) % 3 == 2);
        }
    }
    proof {
        assert(constraint::cells(row@) =~= batch_row(zs));
    }
    row
}

fn norms_of(z: &[i64; 256]) -> (r: ([i64; 256], i64))
    requires
        transform::is_elem(transform::ints(z@)),
    ensures
        transform::ints(r.0@) == single::norms(transform::ints(z@)),
        r.1 == poly::max_abs(transform::ints(z@), 256),
{
    let mut out: [i64; 256] = [0i64; 256];
    let mut best: i64 = 0;
    let mut p: usize = 0;
    while p < N
        invariant
            p <= 256,
            transform::is_elem(transform::ints(z@)),
            forall|q: int|
                0 <= q < p ==> #[trigger] out[q] == single::norm_of(transform::ints(z@)[q]),
            best == poly::max_abs(transform::ints(z@), p as nat),
        decreases 256 - p,
    {
        proof {
            assert(field::in_field(transform::ints(z@)[p as int]));
            single::lemma_norm_is_abs(z@[p as int] as int);
        }
        let (_, norm) = single::sel_and_norm(z[p]);
        out[p] = norm;
        if norm > best {
            best = norm;
        }
        p = p + 1;
    }
    proof {
        assert(transform::ints(out@) =~= single::norms(transform::ints(z@)));
    }
    (out, best)
}

/// Builds the columns of the trace, the norms of all coefficients, and the norm of
/// each polynomial.
pub fn build_trace(z: &[[i64; 256]; 5]) -> (r: (Vec<Vec<u32>>, [[i64; 256]; 5], [i64; 5]))
    requires
        polyvec::all_elems(polyvec::polys(z@)),
    ensures
        columns::views(r.0@) == columns::columns(batch_table(polyvec::polys(z@)), 15),
        forall|j: int|
            0 <= j < 5 ==> transform::ints((#[trigger] r.1[j])@) == single::norms(polyvec::polys(z@)[j]),
        forall|j: int| 0 <= j < 5 ==> #[trigger] r.2[j] == poly::max_abs(polyvec::polys(z@)[j], 256),
        columns::all_satisfy(columns::views(r.0@), 256, batch_constraints(5)),
{
    let mut table: Vec<Vec<u32>> = Vec::new();
    let mut p: usize = 0;
    while p < N
        invariant
            p <= 256,
            polyvec::all_elems(polyvec::polys(z@)),
            table@.len() == p,
            forall|q: int|
                0 <= q < p ==> constraint::cells((#[trigger] table@[q])@) == batch_row(
                    polyvec::at_position(polyvec::polys(z@), q),
                ),
        decreases 256 - p,
    {
        table.push(batch_cells(z, p));
        p = p + 1;
    }
    let mut norm_out: [[i64; 256]; 5] = [[0i64; 256]; 5];
    let mut max_norms: [i64; 5] = [0i64; 5];
    let mut j: usize = 0;
    while j < 5
        invariant
            j <= 5,
            polyvec::all_elems(polyvec::polys(z@)),
            forall|k: int|
                0 <= k < j ==> transform::ints((#[trigger] norm_out[k])@) == single::norms(
                    polyvec::polys(z@)[k],
                ),
            forall|k: int|
                0 <= k < j ==> #[trigger] max_norms[k] == poly::max_abs(polyvec::polys(z@)[k], 256),
        decreases 5 - j,
    {
        proof {
            assert(transform::is_elem(polyvec::polys(z@)[j as int]));
        }
        let (norms, best) = norms_of(&z[j]);
        norm_out[j] = norms;
        max_norms[j] = best;
        j = j + 1;
    }
    proof {
        columns::lemma_powers_of_two();
        assert(columns::rows(table@) =~= batch_table(polyvec::polys(z@)));
        assert forall|q: int| 0 <= q < 256 implies constraint::satisfies(
            batch_constraints(5),
            #[trigger] columns::rows(table@)[q],
        ) by {
            let zs = polyvec::at_position(polyvec::polys(z@), q);
            assert forall|j: int| 0 <= j < 5 implies field::in_field(#[trigger] zs[j]) by {
                assert(transform::is_elem(polyvec::polys(z@)[j]));
            }
            lemma_batch_row(zs);
        }
        columns::lemma_committed_rows(table@, 15, batch_constraints(5));
    }
    (columns::to_columns(&table, 15), norm_out, max_norms)
}

} // verus!
