//! Norm check of one polynomial.
//!
//! The trace has a row for each coefficient, with three cells: the coefficient `z`
//! in `[0, Q)`; `sel`, which is 1 iff the centered value of `z` is negative; and
//! `norm`, the absolute value of the centered value, `min(z, Q - z)`. That the norm
//! lies below the bound is for the reader of the norm to test.
use crate::columns;
use crate::constraint;
use crate::constraint::Term;
use crate::mldsa::field;
use crate::mldsa::params::{N, Q};
use crate::mldsa::poly;
use crate::mldsa::transform;
use vstd::prelude::*;

verus! {

/// Binary logarithm of the number of rows.
pub const LOG_N_ROWS: u32 = 8;

/// The norm of a signature's polynomials lies below this bound.
pub const NORM_BOUND: i64 = 524_092;

/// The largest norm of a residue.
pub const HALF: i64 = 4_190_208;

/// The number of cells in a row.
pub const N_COLS: usize = 3;

/// The constraints on a trace of `2^log_n_rows` rows.
#[derive(Clone, Copy, Debug)]
pub struct NormCheckEval {
    pub log_n_rows: u32,
}

/// Whether the centered value of `z` is negative.
pub open spec fn sel_of(z: int) -> int {
    if z > HALF {
        1
    } else {
        0
    }
}

/// The absolute value of the centered value of `z`.
pub open spec fn norm_of(z: int) -> int {
    if z > HALF {
        Q - z
    } else {
        z
    }
}

/// `norm = z` or, where `sel` is 1, `norm = Q - z`.
pub open spec fn norm_terms(z: usize, sel: usize, norm: usize) -> Seq<Term> {
    seq![
        Term::Linear { coeff: 1, x: norm },
        Term::Linear { coeff: (-1) as i64, x: z },
        Term::Quadratic { coeff: 2, x: sel, y: z },
        Term::Linear { coeff: (-8380417) as i64, x: sel },
    ]
}

/// The constraints on the three cells from `at` on.
pub open spec fn norm_constraints(at: int) -> Seq<Seq<Term>> {
    seq![
        constraint::boolean((at + 1) as usize),
        norm_terms(at as usize, (at + 1) as usize, (at + 2) as usize),
    ]
}

/// Adds the constraints on the three cells from `at` on.
pub fn push_norm_constraints(cs: &mut Vec<Vec<Term>>, at: usize)
    requires
        at + 2 <= usize::MAX,
    ensures
        constraint::views(final(cs)@) == constraint::views(old(cs)@) + norm_constraints(at as int),
{
    constraint::push_boolean(cs, at + 1);
    let ghost mid = constraint::views(cs@);
    let mut ts: Vec<Term> = Vec::new();
    ts.push(Term::Linear { coeff: 1, x: at + 2 });
    ts.push(Term::Linear { coeff: -1, x: at });
    ts.push(Term::Quadratic { coeff: 2, x: at + 1, y: at });
    ts.push(Term::Linear { coeff: -8380417, x: at + 1 });
    proof {
        assert(ts@ =~= norm_terms(at, (at + 1) as usize, (at + 2) as usize));
    }
    cs.push(ts);
    proof {
        assert(constraint::views(cs@) =~= mid.push(norm_constraints(at as int)[1]));
        assert(constraint::views(cs@) =~= constraint::views(old(cs)@) + norm_constraints(
            at as int,
        ));
    }
}

impl NormCheckEval {
    pub fn log_size(&self) -> (n: u32)
        ensures
            n == self.log_n_rows,
    {
        self.log_n_rows
    }

    /// The constraints have degree two, so their quotients have twice as many
    /// coefficients as there are rows.
    pub fn max_constraint_log_degree_bound(&self) -> (n: u32)
        requires
            self.log_n_rows < u32::MAX,
        ensures
            n == self.log_n_rows + 1,
    {
        self.log_n_rows + 1
    }

    /// The constraints.
    pub fn constraints(&self) -> (cs: Vec<Vec<Term>>)
        ensures
            constraint::views(cs@) == norm_constraints(0),
            constraint::all_fit(constraint::views(cs@), 3),
    {
        let mut cs: Vec<Vec<Term>> = Vec::new();
        push_norm_constraints(&mut cs, 0);
        proof {
            assert(constraint::views(cs@) =~= norm_constraints(0));
        }
        cs
    }

    /// The values of the constraints on a row.
    pub fn evaluate(&self, row: &[u32]) -> (out: Vec<u32>)
        requires
            row@.len() == 3,
        ensures
            out@ == constraint::residues(norm_constraints(0), constraint::cells(row@)),
    {
        constraint::evaluate(&self.constraints(), row)
    }
}

/// The row of a coefficient.
pub open spec fn norm_row(z: int) -> Seq<int> {
    seq![z, sel_of(z), norm_of(z)]
}

/// The value of the norm constraint.
pub proof fn lemma_norm_value(z: usize, sel: usize, norm: usize, row: Seq<int>)
    ensures
        constraint::value(norm_terms(z, sel, norm), row) == row[norm as int] - row[z as int] + 2 * (
        row[sel as int] * row[z as int]) - Q * row[sel as int],
{
    reveal_with_fuel(constraint::partial_value, 5);
    let ts = norm_terms(z, sel, norm);
    assert(ts.len() == 4);
    constraint::lemma_linear(1, norm, row, 1);
    constraint::lemma_linear((-1) as i64, z, row, -1);
    constraint::lemma_quadratic(2, sel, z, row, 2);
    constraint::lemma_linear((-8380417) as i64, sel, row, -8380417);
}

/// Three cells with a coefficient, its sign and its norm meet the constraints.
pub proof fn lemma_norm_cells(at: int, row: Seq<int>)
    requires
        0 <= at,
        at + 2 <= usize::MAX,
        row[at + 1] == sel_of(row[at]),
        row[at + 2] == norm_of(row[at]),
    ensures
        constraint::satisfies(norm_constraints(at), row),
{
    let cs = norm_constraints(at);
    assert forall|i: int| 0 <= i < cs.len() implies constraint::holds(#[trigger] cs[i], row) by {
        constraint::lemma_boolean_value((at + 1) as usize, row);
        lemma_norm_value(at as usize, (at + 1) as usize, (at + 2) as usize, row);
        let z = row[at];
        let s = row[at + 1];
        assert(s * z == if s == 1 {
            z
        } else {
            0
        }) by (nonlinear_arith)
            requires
                s == 0 || s == 1,
        ;
    }
}

/// The row of every coefficient meets the constraints.
pub proof fn lemma_norm_row(z: int)
    requires
        field::in_field(z),
    ensures
        constraint::satisfies(norm_constraints(0), norm_row(z)),
{
    lemma_norm_cells(0, norm_row(z));
}

/// A row that meets the constraints and whose cells lie in the documented ranges
/// holds the norm of its coefficient.
pub proof fn lemma_norm_sound(row: Seq<int>)
    requires
        row.len() == 3,
        field::in_field(row[0]),
        0 <= row[1] <= 1,
        0 <= row[2] <= HALF,
        constraint::satisfies(norm_constraints(0), row),
    ensures
        row == norm_row(row[0]),
{
    lemma_norm_value(0, 1, 2, row);
    let cs = norm_constraints(0);
    assert(constraint::holds(cs[1], row));
    let z = row[0];
    let s = row[1];
    assert(s * z == if s == 1 {
        z
    } else {
        0
    }) by (nonlinear_arith)
        requires
            s == 0 || s == 1,
    ;
    let v = constraint::value(norm_terms(0, 1, 2), row);
    assert(-2147483647 < v < 2147483647);
    assert(v == 0);
    assert(row =~= norm_row(z));
}

/// The norm is that of a polynomial's coefficient.
pub proof fn lemma_norm_is_abs(z: int)
    requires
        field::in_field(z),
    ensures
        norm_of(z) == poly::abs_centered(z),
        0 <= norm_of(z) <= HALF,
        norm_of(z) == if z <= Q - z {
            z
        } else {
            Q - z
        },
{
}

/// The rows of a polynomial.
pub open spec fn norm_table(z: Seq<int>) -> Seq<Seq<int>> {
    Seq::new(z.len(), |p: int| norm_row(z[p]))
}

/// The norms of a polynomial's coefficients.
pub open spec fn norms(z: Seq<int>) -> Seq<int> {
    Seq::new(z.len(), |p: int| norm_of(z[p]))
}

/// The sign and the norm of a coefficient.
pub fn sel_and_norm(z: i64) -> (r: (i64, i64))
    requires
        field::in_field(z as int),
    ensures
        r.0 == sel_of(z as int),
        r.1 == norm_of(z as int),
{
    if z > HALF {
        (1, Q - z)
    } else {
        (0, z)
    }
}

/// Builds the columns of the trace of `z`, and the norms of its coefficients.
pub fn build_trace(z: &[i64; 256]) -> (r: (Vec<Vec<u32>>, [i64; 256]))
    requires
        transform::is_elem(transform::ints(z@)),
    ensures
        columns::views(r.0@) == columns::columns(norm_table(transform::ints(z@)), 3),
        transform::ints(r.1@) == norms(transform::ints(z@)),
        columns::all_satisfy(columns::views(r.0@), 256, norm_constraints(0)),
{
    let ghost zs = transform::ints(z@);
    let mut table: Vec<Vec<u32>> = Vec::new();
    let mut norm_out: [i64; 256] = [0i64; 256];
    let mut i: usize = 0;
    while i < N
        invariant
            i <= 256,
            zs == transform::ints(z@),
            transform::is_elem(zs),
            table@.len() == i,
            forall|p: int|
                0 <= p < i ==> constraint::cells((#[trigger] table@[p])@) == norm_row(zs[p]),
            forall|p: int| 0 <= p < i ==> #[trigger] norm_out[p] == norm_of(zs[p]),
        decreases 256 - i,
    {
        proof {
            assert(field::in_field(zs[i as int]));
        }
        let (sel, norm) = sel_and_norm(z[i]);
        norm_out[i] = norm;
        let mut row: Vec<u32> = Vec::new();
        row.push(z[i] as u32);
        row.push(sel as u32);
        row.push(norm as u32);
        proof {
            assert(constraint::cells(row@) =~= norm_row(zs[i as int]));
        }
        table.push(row);
        i = i + 1;
    }
    proof {
        columns::lemma_powers_of_two();
        assert(columns::rows(table@) =~= norm_table(zs));
        assert(transform::ints(norm_out@) =~= norms(zs));
        assert forall|p: int| 0 <= p < 256 implies constraint::satisfies(
            norm_constraints(0),
            #[trigger] columns::rows(table@)[p],
        ) by {
            assert(field::in_field(zs[p]));
            lemma_norm_row(zs[p]);
        }
        columns::lemma_committed_rows(table@, 3, norm_constraints(0));
    }
    (columns::to_columns(&table, 3), norm_out)
}

} // verus!
