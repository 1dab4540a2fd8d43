//! The `K` products of the challenge with the polynomials of `t1`, in one trace.
//!
//! A row holds `c` and, for each product in turn, 49 cells: the factor, the product
//! modulo `Q`, the quotient by `Q`, and the 23 bits of each of the last two.
use crate::cells;
use crate::columns;
use crate::constraint;
use crate::constraint::Term;
use crate::mldsa::bits;
use crate::mldsa::field;
use crate::mldsa::params::{K, N, Q};
use crate::mldsa::polyvec;
use crate::mldsa::transform;
use vstd::arithmetic::div_mod::*;
use vstd::prelude::*;

verus! {

/// Binary logarithm of the number of rows.
pub const LOG_N_ROWS: u32 = 8;

/// Bits of a range decomposition.
pub const N_BITS: usize = 23;

/// Cells of one product.
pub const COLS_PER_ROW: usize = 49;

/// The number of cells in a row.
pub const N_COLS: usize = 295;

/// The constraints on a trace of `2^log_n_rows` rows.
#[derive(Clone, Copy, Debug)]
pub struct Ct1FullEval {
    pub log_n_rows: u32,
}

/// The first cell of product `i`.
pub open spec fn start_of(i: int) -> int {
    1 + 49 * i
}

/// The constraints on product `i`.
pub open spec fn product_constraints(i: int) -> Seq<Seq<Term>> {
    let at = start_of(i);
    seq![constraint::product_mod_q(0, at as usize, (at + 1) as usize, (at + 2) as usize)]
        + constraint::range_check((at + 1) as usize, (at + 3) as usize) + constraint::range_check(
        (at + 2) as usize,
        (at + 26) as usize,
    )
}

/// The constraints on the first `n` products.
pub open spec fn ct1_constraints(n: nat) -> Seq<Seq<Term>>
    decreases n,
{
    if n == 0 {
        seq![]
    } else {
        ct1_constraints((n - 1) as nat) + product_constraints(n - 1)
    }
}

proof fn lemma_ct1_fits(n: nat)
    requires
        n <= 6,
    ensures
        constraint::all_fit(ct1_constraints(n), 295),
    decreases n,
{
    if n > 0 {
        let m = (n - 1) as nat;
        lemma_ct1_fits(m);
        let at = start_of(m as int);
        let a = seq![
            constraint::product_mod_q(0, at as usize, (at + 1) as usize, (at + 2) as usize),
        ];
        let b = constraint::range_check((at + 1) as usize, (at + 3) as usize);
        let c = constraint::range_check((at + 2) as usize, (at + 26) as usize);
        constraint::lemma_range_check_fits((at + 1) as usize, (at + 3) as usize, 295);
        constraint::lemma_range_check_fits((at + 2) as usize, (at + 26) as usize, 295);
        constraint::lemma_fit_concat(a, b, 295);
        constraint::lemma_fit_concat(a + b, c, 295);
        constraint::lemma_fit_concat(ct1_constraints(m), product_constraints(m as int), 295);
    }
}

impl Ct1FullEval {
    pub fn log_size(&self) -> (n: u32)
        ensures
            n == self.log_n_rows,
    {
        self.log_n_rows
    }

    pub fn max_constraint_log_degree_bound(&self) -> (n: u32)
        requires
            self.log_n_rows < u32::MAX,
        ensures
            n == self.log_n_rows + 1,
    {
        self.log_n_rows + 1
    }

    /// The constraints.
    pub fn constraints(&self) -> (cs: Vec<Vec<Term>>)
        ensures
            constraint::views(cs@) == ct1_constraints(6),
            constraint::all_fit(constraint::views(cs@), 295),
    {
        let mut cs: Vec<Vec<Term>> = Vec::new();
        let mut i: usize = 0;
        proof {
            assert(constraint::views(cs@) =~= ct1_constraints(0));
        }
        while i < K
            invariant
                i <= 6,
                constraint::views(cs@) == ct1_constraints(i as nat),
            decreases 6 - i,
        {
            let at: usize = 1 + 49 * i;
            let ghost before = constraint::views(cs@);
            constraint::push_product(&mut cs, 0, at, at + 1, at + 2);
            constraint::push_range_check(&mut cs, at + 1, at + 3);
            constraint::push_range_check(&mut cs, at + 2, at + 26);
            i = i + 1;
            proof {
                assert(constraint::views(cs@) =~= before + product_constraints(i - 1));
            }
        }
        proof {
            lemma_ct1_fits(6);
        }
        cs
    }

    /// The values of the constraints on a row.
    pub fn evaluate(&self, row: &[u32]) -> (out: Vec<u32>)
        requires
            row@.len() == 295,
        ensures
            out@ == constraint::residues(ct1_constraints(6), constraint::cells(row@)),
    {
        constraint::evaluate(&self.constraints(), row)
    }
}

/// The 49 cells of the product of `c` and `t`.
pub open spec fn product_cells(c: int, t: int) -> Seq<int> {
    let r = c * t % (Q as int);
    let q = c * t / (Q as int);
    seq![t, r, q] + cells::bits_of(r) + cells::bits_of(q)
}

/// The cells of the products of `c` with the first `n` entries of `t`.
pub open spec fn ct1_row(c: int, t: Seq<int>, n: nat) -> Seq<int>
    decreases n,
{
    if n == 0 {
        seq![c]
    } else {
        ct1_row(c, t, (n - 1) as nat) + product_cells(c, t[n - 1])
    }
}

proof fn lemma_row_len(c: int, t: Seq<int>, n: nat)
    ensures
        ct1_row(c, t, n).len() == 1 + 49 * n,
    decreases n,
{
    if n > 0 {
        lemma_row_len(c, t, (n - 1) as nat);
    }
}

proof fn lemma_row_cells(c: int, t: Seq<int>, n: nat, i: int)
    requires
        0 <= i < n,
    ensures
        ct1_row(c, t, n).len() == 1 + 49 * n,
        ct1_row(c, t, n)[0] == c,
        forall|k: int|
            0 <= k < 49 ==> ct1_row(c, t, n)[#[trigger] (1 + 49 * i + k)] == product_cells(c, t[i])[k],
    decreases n,
{
    lemma_row_len(c, t, n);
    lemma_row_len(c, t, (n - 1) as nat);
    if i < n - 1 {
        lemma_row_cells(c, t, (n - 1) as nat, i);
    } else if n > 1 {
        lemma_row_cells(c, t, (n - 1) as nat, 0);
    }
}

/// The quotient of a product of two residues fits in 23 bits.
pub proof fn lemma_product_range(a: int, b: int)
    requires
        field::in_field(a),
        field::in_field(b),
    ensures
        0 <= a * b <= (Q - 1) * (Q - 1),
        0 <= a * b % (Q as int) < Q,
        0 <= a * b / (Q as int) < Q,
        a * b == a * b % (Q as int) + Q * (a * b / (Q as int)),
{
    assert(0 <= a * b <= (Q - 1) * (Q - 1)) by (nonlinear_arith)
        requires
            0 <= a <= Q - 1,
            0 <= b <= Q - 1,
    ;
    lemma_fundamental_div_mod(a * b, Q as int);
}

proof fn lemma_product_holds(c: int, t: Seq<int>, i: int)
    requires
        0 <= i < 6,
        t.len() == 6,
        field::in_field(c),
        field::in_field(t[i]),
    ensures
        constraint::satisfies(product_constraints(i), ct1_row(c, t, 6)),
{
    let row = ct1_row(c, t, 6);
    let at = start_of(i);
    lemma_row_cells(c, t, 6, i);
    lemma_product_range(c, t[i]);
    let pc = product_cells(c, t[i]);
    assert(row[at + 0] == pc[0]);
    assert(row[at + 1] == pc[1]);
    assert(row[at + 2] == pc[2]);
    let one = constraint::product_mod_q(0, at as usize, (at + 1) as usize, (at + 2) as usize);
    constraint::lemma_product_value(0, at as usize, (at + 1) as usize, (at + 2) as usize, row);
    assert(constraint::holds(one, row));
    assert(constraint::satisfies(seq![one], row));
    assert forall|k: int| 0 <= k < 23 implies row[#[trigger] ((at + 3) as usize + k)]
        == bits::bit_of(row[at + 1], k as nat) by {
        assert(row[at + (3 + k)] == pc[3 + k]);
    }
    assert forall|k: int| 0 <= k < 23 implies row[#[trigger] ((at + 26) as usize + k)]
        == bits::bit_of(row[at + 2], k as nat) by {
        assert(row[at + (26 + k)] == pc[26 + k]);
    }
    constraint::lemma_range_check((at + 1) as usize, (at + 3) as usize, row);
    constraint::lemma_range_check((at + 2) as usize, (at + 26) as usize, row);
    let b = constraint::range_check((at + 1) as usize, (at + 3) as usize);
    let d = constraint::range_check((at + 2) as usize, (at + 26) as usize);
    constraint::lemma_satisfies_concat(seq![one], b, row);
    constraint::lemma_satisfies_concat(seq![one] + b, d, row);
}

proof fn lemma_ct1_prefix(c: int, t: Seq<int>, n: nat)
    requires
        n <= 6,
        t.len() == 6,
        field::in_field(c),
        forall|i: int| 0 <= i < 6 ==> field::in_field(#[trigger] t[i]),
    ensures
        constraint::satisfies(ct1_constraints(n), ct1_row(c, t, 6)),
    decreases n,
{
    if n > 0 {
        let m = (n - 1) as nat;
        lemma_ct1_prefix(c, t, m);
        lemma_product_holds(c, t, m as int);
        constraint::lemma_satisfies_concat(
            ct1_constraints(m),
            product_constraints(m as int),
            ct1_row(c, t, 6),
        );
    }
}

/// The row of every position meets the constraints.
pub proof fn lemma_ct1_row(c: int, t: Seq<int>)
    requires
        t.len() == 6,
        field::in_field(c),
        forall|i: int| 0 <= i < 6 ==> field::in_field(#[trigger] t[i]),
    ensures
        constraint::satisfies(ct1_constraints(6), ct1_row(c, t, 6)),
{
    lemma_ct1_prefix(c, t, 6);
}

/// The rows of a challenge and the polynomials of `t1`.
pub open spec fn ct1_table(c: Seq<int>, t1: Seq<Seq<int>>) -> Seq<Seq<int>> {
    Seq::new(256, |p: int| ct1_row(c[p], polyvec::at_position(t1, p), 6))
}

/// The products of a polynomial with each of some others, entry by entry.
pub open spec fn products(c: Seq<int>, t1: Seq<Seq<int>>) -> Seq<Seq<int>> {
    Seq::new(t1.len(), |i: int| transform::pointwise(c, t1[i]))
}

fn ct1_cells(c_hat: &[i64; 256], t1_hat: &[[i64; 256]; 6], p: usize) -> (row: Vec<u32>)
    requires
        p < 256,
        transform::is_elem(transform::ints(c_hat@)),
        polyvec::all_elems(polyvec::polys(t1_hat@)),
    ensures
        constraint::cells(row@) == ct1_row(
            c_hat@[p as int] as int,
            polyvec::at_position(polyvec::polys(t1_hat@), p as int),
            6,
        ),
{
    let ghost ts = polyvec::at_position(polyvec::polys(t1_hat@), p as int);
    let c: i64 = c_hat[p];
    let mut row: Vec<u32> = Vec::new();
    proof {
        assert(field::in_field(transform::ints(c_hat@)[p as int]));
    }
    cells::push_value(&mut row, c);
    proof {
        assert(constraint::cells(row@) =~= ct1_row(c as int, ts, 0));
    }
    let mut i: usize = 0;
    while i < K
        invariant
            i <= 6,
            p < 256,
            field::in_field(c as int),
            polyvec::all_elems(polyvec::polys(t1_hat@)),
            ts == polyvec::at_position(polyvec::polys(t1_hat@), p as int),
            constraint::cells(row@) == ct1_row(c as int, ts, i as nat),
        decreases 6 - i,
    {
        let t: i64 = t1_hat[i][p];
        let ghost before = constraint::cells(row@);
        proof {
            assert(transform::is_elem(polyvec::polys(t1_hat@)[i as int]));
            assert(field::in_field(polyvec::polys(t1_hat@)[i as int][p as int]));
            lemma_product_range(c as int, t as int);
        }
        let raw: i64 = c * t;
        let r: i64 = raw % Q;
        let q: i64 = raw / Q;
        cells::push_value(&mut row, t);
        cells::push_value(&mut row, r);
        cells::push_value(&mut row, q);
        cells::push_bits(&mut row, r);
        cells::push_bits(&mut row, q);
        i = i + 1;
        proof {
            assert(constraint::cells(row@) =~= before + product_cells(c as int, t as int));
        }
    }
    row
}

/// Builds the columns of the trace, and the products.
pub fn build_trace(c_hat: &[i64; 256], t1_hat: &[[i64; 256]; 6]) -> (r: (
    Vec<Vec<u32>>,
    [[i64; 256]; 6],
))
    requires
        transform::is_elem(transform::ints(c_hat@)),
        polyvec::all_elems(polyvec::polys(t1_hat@)),
    ensures
        columns::views(r.0@) == columns::columns(
            ct1_table(transform::ints(c_hat@), polyvec::polys(t1_hat@)),
            295,
        ),
        polyvec::polys(r.1@) == products(transform::ints(c_hat@), polyvec::polys(t1_hat@)),
        polyvec::all_elems(polyvec::polys(r.1@)),
        columns::all_satisfy(columns::views(r.0@), 256, ct1_constraints(6)),
{
    let ghost cs = transform::ints(c_hat@);
    let ghost ts = polyvec::polys(t1_hat@);
    let mut table: Vec<Vec<u32>> = Vec::new();
    let mut p: usize = 0;
    while p < N
        invariant
            p <= 256,
            cs == transform::ints(c_hat@),
            ts == polyvec::polys(t1_hat@),
            transform::is_elem(cs),
            polyvec::all_elems(ts),
            table@.len() == p,
            forall|q: int|
                0 <= q < p ==> constraint::cells((#[trigger] table@[q])@) == ct1_row(
                    cs[q],
                    polyvec::at_position(ts, q),
                    6,
                ),
        decreases 256 - p,
    {
        table.push(ct1_cells(c_hat, t1_hat, p));
        p = p + 1;
    }
    let mut out: [[i64; 256]; 6] = [[0i64; 256]; 6];
    let mut i: usize = 0;
    while i < K
        invariant
            i <= 6,
            cs == transform::ints(c_hat@),
            ts == polyvec::polys(t1_hat@),
            transform::is_elem(cs),
            polyvec::all_elems(ts),
            forall|k: int|
                0 <= k < i ==> transform::ints((#[trigger] out[k])@) == transform::pointwise(
                    cs,
                    ts[k],
                ),
        decreases 6 - i,
    {
        proof {
            assert(transform::is_elem(ts[i as int]));
        }
        out[i] = crate::mldsa::ntt::pointwise_mul(c_hat, &t1_hat[i]);
        i = i + 1;
    }
    proof {
        columns::lemma_powers_of_two();
        assert(columns::rows(table@) =~= ct1_table(cs, ts));
        assert forall|q: int| 0 <= q < table@.len() implies (#[trigger] columns::rows(
            table@,
        )[q]).len() == 295 by {
            lemma_row_len(cs[q], polyvec::at_position(ts, q), 6);
        }
        assert forall|q: int| 0 <= q < 256 implies constraint::satisfies(
            ct1_constraints(6),
            #[trigger] columns::rows(table@)[q],
        ) by {
            let t = polyvec::at_position(ts, q);
            assert forall|k: int| 0 <= k < 6 implies field::in_field(#[trigger] t[k]) by {
                assert(transform::is_elem(ts[k]));
            }
            lemma_ct1_row(cs[q], t);
        }
        columns::lemma_committed_rows(table@, 295, ct1_constraints(6));
        assert(polyvec::polys(out@) =~= products(cs, ts));
        assert forall|k: int| 0 <= k < 6 implies transform::is_elem(
            #[trigger] polyvec::polys(out@)[k],
        ) by {
            assert(polyvec::polys(out@)[k] == transform::pointwise(cs, ts[k]));
        }
    }
    (columns::to_columns(&table, 295), out)
}

} // verus!
