//! The butterflies of the inverse transforms of several polynomials in one trace.
//!
//! All polynomials go through the same sequence of butterflies, so that one cell for
//! the twiddle factor serves a whole row. Behind it a row holds 54 cells for each
//! polynomial in turn: those of the single transform, without the twiddle factor,
//! the 23 bits of `b_out`, and the 23 bits of `carry_b`.
use crate::cells;
use crate::columns;
use crate::constraint;
use crate::constraint::Term;
use crate::mldsa::bits;
use crate::mldsa::field;
use crate::mldsa::polyvec;
use crate::mldsa::transform;
use crate::mldsa_ct1_full_air as ct1;
use crate::mldsa_intt_air as single;
use crate::mldsa_intt_air::InttRow;
use vstd::arithmetic::power2::*;
use vstd::prelude::*;

verus! {

/// The number of butterflies.
pub const N_BUTTERFLIES: usize = 1024;

/// Binary logarithm of the number of rows.
pub const LOG_N_ROWS: u32 = 10;

/// Bits of a range decomposition.
pub const N_BITS: usize = 23;

/// Cells of one polynomial.
pub const COLS_PER_POLY: usize = 54;

/// The number of cells in a row for `K` polynomials.
pub const N_COLS: usize = 325;

/// The number of cells in a row for `n_polys` polynomials.
pub fn n_cols_for(n_polys: usize) -> (n: usize)
    requires
        1 + 54 * n_polys <= usize::MAX,
    ensures
        n == 1 + 54 * n_polys,
{
    1 + n_polys * COLS_PER_POLY
}

/// The constraints on a trace of `2^log_n_rows` rows for `n_polys` polynomials.
#[derive(Clone, Copy, Debug)]
pub struct InttBatchEval {
    pub log_n_rows: u32,
    pub n_polys: usize,
}

/// The first cell of polynomial `j`.
pub open spec fn start_of(j: int) -> int {
    1 + 54 * j
}

/// The constraints on polynomial `j`.
pub open spec fn poly_constraints(j: int) -> Seq<Seq<Term>> {
    let at = start_of(j);
    single::butterfly_constraints(0, at, at + 2) + constraint::range_check(
        (at + 6) as usize,
        (at + 8) as usize,
    ) + constraint::range_check((at + 7) as usize, (at + 31) as usize)
}

/// The constraints on the first `n` polynomials.
pub open spec fn batch_constraints(n: nat) -> Seq<Seq<Term>>
    decreases n,
{
    if n == 0 {
        seq![]
    } else {
        batch_constraints((n - 1) as nat) + poly_constraints(n - 1)
    }
}

proof fn lemma_batch_fits(n: nat, width: int)
    requires
        1 + 54 * n <= width <= usize::MAX,
    ensures
        constraint::all_fit(batch_constraints(n), width),
    decreases n,
{
    if n > 0 {
        let m = (n - 1) as nat;
        lemma_batch_fits(m, width);
        let at = start_of(m as int);
        let a = single::butterfly_constraints(0, at, at + 2);
        let b = constraint::range_check((at + 6) as usize, (at + 8) as usize);
        let c = constraint::range_check((at + 7) as usize, (at + 31) as usize);
        single::lemma_butterfly_fits(0, at, at + 2, width);
        constraint::lemma_range_check_fits((at + 6) as usize, (at + 8) as usize, width);
        constraint::lemma_range_check_fits((at + 7) as usize, (at + 31) as usize, width);
        constraint::lemma_fit_concat(a, b, width);
        constraint::lemma_fit_concat(a + b, c, width);
        constraint::lemma_fit_concat(batch_constraints(m), poly_constraints(m as int), width);
    }
}

impl InttBatchEval {
    pub fn log_size(&self) -> (n: u32)
        ensures
            n == self.log_n_rows,
    {
        self.log_n_rows
    }

    pub fn max_constraint_log_degree_bound(&self) -> (n: u32)
        requires
            self.log_n_rows < u32::MAX,
        ensures
            n == self.log_n_rows + 1,
    {
        self.log_n_rows + 1
    }

    /// The constraints.
    pub fn constraints(&self) -> (cs: Vec<Vec<Term>>)
        requires
            1 + 54 * self.n_polys <= usize::MAX,
        ensures
            constraint::views(cs@) == batch_constraints(self.n_polys as nat),
            constraint::all_fit(constraint::views(cs@), 1 + 54 * self.n_polys),
    {
        let mut cs: Vec<Vec<Term>> = Vec::new();
        let mut j: usize = 0;
        proof {
            assert(constraint::views(cs@) =~= batch_constraints(0));
        }
        while j < self.n_polys
            invariant
                j <= self.n_polys,
                1 + 54 * self.n_polys <= usize::MAX,
                constraint::views(cs@) == batch_constraints(j as nat),
            decreases self.n_polys - j,
        {
            let at: usize = 1 + 54 * j;
            let ghost before = constraint::views(cs@);
            single::push_butterfly(&mut cs, 0, at, at + 2);
            constraint::push_range_check(&mut cs, at + 6, at + 8);
            constraint::push_range_check(&mut cs, at + 7, at + 31);
            j = j + 1;
            proof {
                assert(constraint::views(cs@) =~= before + poly_constraints(j - 1));
            }
        }
        proof {
            lemma_batch_fits(self.n_polys as nat, 1 + 54 * self.n_polys);
        }
        cs
    }

    /// The values of the constraints on a row.
    pub fn evaluate(&self, row: &[u32]) -> (out: Vec<u32>)
        requires
            1 + 54 * self.n_polys <= usize::MAX,
            row@.len() == 1 + 54 * self.n_polys,
        ensures
            out@ == constraint::residues(
                batch_constraints(self.n_polys as nat),
                constraint::cells(row@),
            ),
    {
        constraint::evaluate(&self.constraints(), row)
    }
}

/// The cells of a polynomial in a row, from the cells of its butterfly.
pub open spec fn poly_cells(b: Seq<int>) -> Seq<int> {
    seq![b[0], b[1], b[3], b[4], b[5], b[6], b[7], b[8]] + cells::bits_of(b[7]) + cells::bits_of(
        b[8],
    )
}

/// The row of the twiddle factor `z` and the butterflies of the first `n`
/// polynomials.
pub open spec fn batch_row(z: int, bs: Seq<Seq<int>>, n: nat) -> Seq<int>
    decreases n,
{
    if n == 0 {
        seq![z]
    } else {
        batch_row(z, bs, (n - 1) as nat) + poly_cells(bs[n - 1])
    }
}

proof fn lemma_row_len(z: int, bs: Seq<Seq<int>>, n: nat)
    ensures
        batch_row(z, bs, n).len() == 1 + 54 * n,
    decreases n,
{
    if n > 0 {
        lemma_row_len(z, bs, (n - 1) as nat);
    }
}

proof fn lemma_row_cells(z: int, bs: Seq<Seq<int>>, n: nat, j: int)
    requires
        0 <= j < n,
    ensures
        batch_row(z, bs, n).len() == 1 + 54 * n,
        batch_row(z, bs, n)[0] == z,
        forall|k: int|
            0 <= k < 54 ==> batch_row(z, bs, n)[#[trigger] (1 + 54 * j + k)] == poly_cells(bs[j])[k],
    decreases n,
{
    lemma_row_len(z, bs, n);
    lemma_row_len(z, bs, (n - 1) as nat);
    if j < n - 1 {
        lemma_row_cells(z, bs, (n - 1) as nat, j);
    } else if n > 1 {
        lemma_row_cells(z, bs, (n - 1) as nat, 0);
    }
}

/// Whether `b` are the cells of a butterfly with the twiddle factor `z`.
pub open spec fn is_butterfly(b: Seq<int>, z: int) -> bool {
    &&& field::in_field(b[0])
    &&& field::in_field(b[1])
    &&& b == single::butterfly_row(b[0], b[1], z)
}

proof fn lemma_poly_holds(z: int, bs: Seq<Seq<int>>, n: nat, j: int)
    requires
        0 <= j < n,
        1 + 54 * n <= usize::MAX,
        field::in_field(z),
        is_butterfly(bs[j], z),
    ensures
        constraint::satisfies(poly_constraints(j), batch_row(z, bs, n)),
{
    let row = batch_row(z, bs, n);
    let at = start_of(j);
    lemma_row_cells(z, bs, n, j);
    let b = bs[j];
    let pc = poly_cells(b);
    assert(row[at + 0] == pc[0]);
    assert(row[at + 1] == pc[1]);
    assert(row[at + 2] == pc[2]);
    assert(row[at + 3] == pc[3]);
    assert(row[at + 4] == pc[4]);
    assert(row[at + 5] == pc[5]);
    assert(row[at + 6] == pc[6]);
    assert(row[at + 7] == pc[7]);
    single::lemma_butterfly_holds(0, at, at + 2, row);
    ct1::lemma_product_range(z, b[3]);
    assert forall|k: int| 0 <= k < 23 implies row[#[trigger] ((at + 8) as usize + k)]
        == bits::bit_of(row[at + 6], k as nat) by {
        assert(row[at + (8 + k)] == pc[8 + k]);
    }
    assert forall|k: int| 0 <= k < 23 implies row[#[trigger] ((at + 31) as usize + k)]
        == bits::bit_of(row[at + 7], k as nat) by {
        assert(row[at + (31 + k)] == pc[31 + k]);
    }
    constraint::lemma_range_check((at + 6) as usize, (at + 8) as usize, row);
    constraint::lemma_range_check((at + 7) as usize, (at + 31) as usize, row);
    let x = single::butterfly_constraints(0, at, at + 2);
    let y = constraint::range_check((at + 6) as usize, (at + 8) as usize);
    let w = constraint::range_check((at + 7) as usize, (at + 31) as usize);
    constraint::lemma_satisfies_concat(x, y, row);
    constraint::lemma_satisfies_concat(x + y, w, row);
}

proof fn lemma_batch_prefix(z: int, bs: Seq<Seq<int>>, n: nat, k: nat)
    requires
        k <= n,
        1 + 54 * n <= usize::MAX,
        field::in_field(z),
        forall|j: int| 0 <= j < n ==> is_butterfly(#[trigger] bs[j], z),
    ensures
        constraint::satisfies(batch_constraints(k), batch_row(z, bs, n)),
    decreases k,
{
    if k > 0 {
        let m = (k - 1) as nat;
        lemma_batch_prefix(z, bs, n, m);
        assert(is_butterfly(bs[m as int], z));
        lemma_poly_holds(z, bs, n, m as int);
        constraint::lemma_satisfies_concat(
            batch_constraints(m),
            poly_constraints(m as int),
            batch_row(z, bs, n),
        );
    }
}

/// The row of any butterflies with one twiddle factor meets the constraints.
pub proof fn lemma_batch_row(z: int, bs: Seq<Seq<int>>)
    requires
        1 + 54 * bs.len() <= usize::MAX,
        field::in_field(z),
        forall|j: int| 0 <= j < bs.len() ==> is_butterfly(#[trigger] bs[j], z),
    ensures
        constraint::satisfies(batch_constraints(bs.len()), batch_row(z, bs, bs.len())),
{
    lemma_batch_prefix(z, bs, bs.len(), bs.len());
}

/// The twiddle factor of row `r`.
pub open spec fn row_zeta(r: int) -> int {
    let s = (7 - r / 128) as nat;
    transform::zeta_inv(
        pow2(s) + transform::block_of(r % 128, transform::stage_len(s as int)),
    )
}

/// The butterflies of some polynomials in row `r`.
pub open spec fn butterflies_at(g: Seq<Seq<int>>, r: int) -> Seq<Seq<int>> {
    Seq::new(g.len(), |j: int| single::intt_table(g[j])[r])
}

/// The rows of the inverse transforms of some polynomials.
pub open spec fn batch_table(g: Seq<Seq<int>>) -> Seq<Seq<int>> {
    Seq::new(1024, |r: int| batch_row(row_zeta(r), butterflies_at(g, r), g.len()))
}

/// Appends the cells of a polynomial to a row.
fn push_poly(row: &mut Vec<u32>, r: &InttRow)
    requires
        forall|c: int| 0 <= c < 9 ==> field::in_field(#[trigger] r@[c]),
    ensures
        constraint::cells(final(row)@) == constraint::cells(old(row)@) + poly_cells(r@),
{
    proof {
        assert(field::in_field(r@[0]) && field::in_field(r@[1]) && field::in_field(r@[3]));
        assert(field::in_field(r@[4]) && field::in_field(r@[5]) && field::in_field(r@[6]));
        assert(field::in_field(r@[7]) && field::in_field(r@[8]));
    }
    cells::push_value(row, r.a_in);
    cells::push_value(row, r.b_in);
    cells::push_value(row, r.diff);
    cells::push_value(row, r.carry_d);
    cells::push_value(row, r.a_out);
    cells::push_value(row, r.carry_a);
    cells::push_value(row, r.b_out);
    cells::push_value(row, r.carry_b);
    cells::push_bits(row, r.b_out);
    cells::push_bits(row, r.carry_b);
    proof {
        assert(constraint::cells(row@) =~= constraint::cells(old(row)@) + poly_cells(r@));
    }
}

/// Whether the lists hold the butterflies of the polynomials.
pub open spec fn lists_butterflies(lists: Seq<Vec<InttRow>>, g: Seq<Seq<int>>) -> bool {
    &&& lists.len() == g.len()
    &&& forall|j: int| 0 <= j < g.len() ==> (#[trigger] lists[j])@.len() == 1024
    &&& forall|j: int, r: int|
        0 <= j < g.len() && 0 <= r < 1024 ==> (#[trigger] lists[j]@[r])@ == single::intt_table(
            g[j],
        )[r]
    &&& forall|j: int, r: int, c: int|
        0 <= j < g.len() && 0 <= r < 1024 && 0 <= c < 9 ==> field::in_field(
            #[trigger] lists[j]@[r]@[c],
        )
}

fn batch_cells(z: i64, lists: &Vec<Vec<InttRow>>, r: usize, g: Ghost<Seq<Seq<int>>>) -> (row: Vec<
    u32,
>)
    requires
        field::in_field(z as int),
        z == row_zeta(r as int),
        lists_butterflies(lists@, g@),
        r < 1024,
        1 + 54 * g@.len() <= usize::MAX,
    ensures
        constraint::cells(row@) == batch_table(g@)[r as int],
        constraint::satisfies(batch_constraints(g@.len()), constraint::cells(row@)),
{
    let ghost bs = butterflies_at(g@, r as int);
    let mut row: Vec<u32> = Vec::new();
    cells::push_value(&mut row, z);
    proof {
        assert(constraint::cells(row@) =~= batch_row(z as int, bs, 0));
    }
    let mut j: usize = 0;
    while j < lists.len()
        invariant
            j <= lists.len(),
            r < 1024,
            lists_butterflies(lists@, g@),
            bs == butterflies_at(g@, r as int),
            constraint::cells(row@) == batch_row(z as int, bs, j as nat),
        decreases lists.len() - j,
    {
        proof {
            assert(lists@[j as int]@.len() == 1024);
            assert forall|c: int| 0 <= c < 9 implies field::in_field(
                #[trigger] lists@[j as int]@[r as int]@[c],
            ) by {}
            assert(lists@[j as int]@[r as int]@ == bs[j as int]);
        }
        push_poly(&mut row, &lists[j][r]);
        j = j + 1;
    }
    proof {
        assert forall|k: int| 0 <= k < bs.len() implies is_butterfly(
            #[trigger] bs[k],
            z as int,
        ) by {
            let b = lists@[k]@[r as int]@;
            assert(b == bs[k]);
            assert(field::in_field(b[0]) && field::in_field(b[1]));
        }
        lemma_batch_row(z as int, bs);
    }
    row
}

/// Builds the columns of the trace, and the inverse transforms.
pub fn build_trace(polys: &[[i64; 256]]) -> (r: (Vec<Vec<u32>>, Vec<[i64; 256]>))
    requires
        1 + 54 * polys@.len() <= usize::MAX,
        polyvec::all_elems(polyvec::polys(polys@)),
    ensures
        columns::views(r.0@) == columns::columns(
            batch_table(polyvec::polys(polys@)),
            1 + 54 * polys@.len(),
        ),
        polyvec::polys(r.1@) == polyvec::vec_intt(polyvec::polys(polys@)),
        polyvec::all_elems(polyvec::polys(r.1@)),
        columns::all_satisfy(columns::views(r.0@), 1024, batch_constraints(polys@.len())),
{
    let ghost g = polyvec::polys(polys@);
    let mut lists: Vec<Vec<InttRow>> = Vec::new();
    let mut outs: Vec<[i64; 256]> = Vec::new();
    let mut j: usize = 0;
    while j < polys.len()
        invariant
            j <= polys.len(),
            g == polyvec::polys(polys@),
            polyvec::all_elems(g),
            lists@.len() == j,
            outs@.len() == j,
            lists_butterflies(lists@, g.subrange(0, j as int)),
            forall|k: int|
                0 <= k < j ==> transform::ints((#[trigger] outs@[k])@) == transform::intt_of(g[k])
                    && transform::is_elem(transform::ints(outs@[k]@)),
        decreases polys.len() - j,
    {
        proof {
            assert(transform::is_elem(g[j as int]));
        }
        let ghost before = lists@;
        let (rows, unscaled) = single::enumerate_intt_butterflies(&polys[j]);
        outs.push(single::scale_down(&unscaled));
        lists.push(rows);
        proof {
            single::lemma_scaled_is_inverse(g[j as int]);
            let h = g.subrange(0, j + 1);
            assert forall|k: int| 0 <= k < h.len() implies (#[trigger] lists@[k])@.len()
                == 1024 by {
                if k < j {
                    assert(lists@[k] == before[k]);
                }
            }
            assert forall|k: int, r: int| 0 <= k < h.len() && 0 <= r < 1024 implies (
            #[trigger] lists@[k]@[r])@ == single::intt_table(h[k])[r] by {
                if k < j {
                    assert(lists@[k] == before[k]);
                    assert(before[k]@[r]@ == single::intt_table(g.subrange(0, j as int)[k])[r]);
                }
            }
            assert forall|k: int, r: int, c: int|
                0 <= k < h.len() && 0 <= r < 1024 && 0 <= c < 9 implies field::in_field(
                #[trigger] lists@[k]@[r]@[c],
            ) by {
                if k < j {
                    assert(lists@[k] == before[k]);
                    assert(field::in_field(before[k]@[r]@[c]));
                }
            }
        }
        j = j + 1;
    }
    proof {
        assert(g.subrange(0, g.len() as int) =~= g);
    }
    let zeros: [i64; 256] = [0i64; 256];
    proof {
        assert(transform::is_elem(transform::ints(zeros@)));
    }
    let (shared, _) = single::enumerate_intt_butterflies(&zeros);
    let mut table: Vec<Vec<u32>> = Vec::new();
    let mut i: usize = 0;
    while i < N_BUTTERFLIES
        invariant
            i <= 1024,
            shared@.len() == 1024,
            forall|k: int|
                0 <= k < 1024 ==> (#[trigger] shared@[k])@ == single::intt_table(
                    transform::ints(zeros@),
                )[k],
            forall|k: int, c: int|
                0 <= k < 1024 && 0 <= c < 9 ==> field::in_field(#[trigger] shared@[k]@[c]),
            lists_butterflies(lists@, g),
            1 + 54 * g.len() <= usize::MAX,
            table@.len() == i,
            forall|k: int|
                0 <= k < i ==> constraint::cells((#[trigger] table@[k])@) == batch_table(g)[k]
                    && constraint::satisfies(
                    batch_constraints(g.len()),
                    constraint::cells(table@[k]@),
                ),
        decreases 1024 - i,
    {
        proof {
            assert(field::in_field(shared@[i as int]@[2]));
            assert(shared@[i as int]@[2] == row_zeta(i as int));
        }
        table.push(batch_cells(shared[i].zeta_inv, &lists, i, Ghost(g)));
        i = i + 1;
    }
    proof {
        columns::lemma_powers_of_two();
        assert(columns::rows(table@) =~= batch_table(g));
        assert forall|q: int| 0 <= q < table@.len() implies (#[trigger] columns::rows(
            table@,
        )[q]).len() == 1 + 54 * polys@.len() by {
            lemma_row_len(row_zeta(q), butterflies_at(g, q), g.len());
        }
        assert forall|q: int| 0 <= q < table@.len() implies constraint::satisfies(
            batch_constraints(g.len()),
            #[trigger] columns::rows(table@)[q],
        ) by {
            assert(columns::rows(table@)[q] == constraint::cells(table@[q]@));
        }
        columns::lemma_committed_rows(table@, 1 + 54 * g.len(), batch_constraints(g.len()));
        assert(polyvec::polys(outs@) =~= polyvec::vec_intt(g));
        assert forall|k: int| 0 <= k < g.len() implies transform::is_elem(
            #[trigger] polyvec::polys(outs@)[k],
        ) by {
            assert(transform::is_elem(transform::ints(outs@[k]@)));
        }
    }
    (columns::to_columns(&table, n_cols_for(polys.len())), outs)
}

} // verus!
