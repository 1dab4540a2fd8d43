//! One row of the product of the matrix `A` and a vector, in the transform domain.
//!
//! The trace has a row for each position, with 258 cells: the five factors `a`, the
//! five factors `z`, the products `t` modulo `Q`, their quotients `ct` by `Q`, the
//! running sums `s` modulo `Q` each followed by its carry `cs`, the 23 bits of each
//! `t`, and the 23 bits of each `ct`.
use crate::cells;
use crate::columns;
use crate::constraint;
use crate::constraint::Term;
use crate::mldsa::bits;
use crate::mldsa::field;
use crate::mldsa::params::{L, N, Q};
use crate::mldsa::polyvec;
use crate::mldsa::ring;
use crate::mldsa::transform;
use crate::mldsa::zq;
use crate::mldsa_ct1_full_air as ct1;
use vstd::arithmetic::div_mod::*;
use vstd::prelude::*;

verus! {

/// Binary logarithm of the number of rows.
pub const LOG_N_ROWS: u32 = 8;

/// Bits of a range decomposition.
pub const N_BITS: usize = 23;

/// The number of cells in a row.
pub const N_COLS: usize = 258;

/// The constraints on a trace of `2^log_n_rows` rows.
#[derive(Clone, Copy, Debug)]
pub struct AzRowEval {
    pub log_n_rows: u32,
}

/// Where the cells of one row of the product stand: the first cell of each group,
/// and how far apart the sums stand.
#[derive(Clone, Copy, Debug, PartialEq, Eq, Structural)]
pub struct Layout {
    pub a: usize,
    pub z: usize,
    pub t: usize,
    pub ct: usize,
    pub s: usize,
    pub cs: usize,
    pub step: usize,
    pub t_bits: usize,
    pub ct_bits: usize,
}

/// Whether all cells of a layout stand before `n`.
pub open spec fn in_bounds(l: Layout, n: int) -> bool {
    &&& n <= 100_000
    &&& l.a + 5 <= n
    &&& l.z + 5 <= n
    &&& l.t + 5 <= n
    &&& l.ct + 5 <= n
    &&& l.step <= 2
    &&& l.s + 3 * l.step < n
    &&& l.cs + 3 * l.step < n
    &&& l.t_bits + 115 <= n
    &&& l.ct_bits + 115 <= n
}

/// The cell of sum `r`.
pub open spec fn sum_cell(l: Layout, r: int) -> int {
    l.s + r * l.step
}

/// The cell of the carry of sum `r`.
pub open spec fn carry_cell(l: Layout, r: int) -> int {
    l.cs + r * l.step
}

/// `a[j] * z[j] = t[j] + ct[j] * Q` for the first `n` factors.
pub open spec fn product_part(l: Layout, n: nat) -> Seq<Seq<Term>> {
    Seq::new(
        n,
        |j: int|
            constraint::product_mod_q(
                (l.a + j) as usize,
                (l.z + j) as usize,
                (l.t + j) as usize,
                (l.ct + j) as usize,
            ),
    )
}

/// The summand on the left of sum `r`: the first product, or the sum before it.
pub open spec fn left_cell(l: Layout, r: int) -> int {
    if r == 0 {
        l.t as int
    } else {
        sum_cell(l, r - 1)
    }
}

/// The sum `r` of a summand and the next product, with its carry.
pub open spec fn sum_step(l: Layout, r: int) -> Seq<Seq<Term>> {
    seq![
        constraint::sum_mod_q(
            left_cell(l, r) as usize,
            (l.t + r + 1) as usize,
            sum_cell(l, r) as usize,
            carry_cell(l, r) as usize,
        ),
        constraint::boolean(carry_cell(l, r) as usize),
    ]
}

/// The first `n` sums.
pub open spec fn sum_part(l: Layout, n: nat) -> Seq<Seq<Term>>
    decreases n,
{
    if n == 0 {
        seq![]
    } else {
        sum_part(l, (n - 1) as nat) + sum_step(l, n - 1)
    }
}

/// The range checks of five cells from `x` on, with their bits from `b` on: the five
/// decompositions, then the bits.
pub open spec fn range_part(x: int, b: int) -> Seq<Seq<Term>> {
    Seq::new(5, |j: int| constraint::binary((x + j) as usize, (b + 23 * j) as usize, 23))
        + Seq::new(115, |k: int| constraint::boolean((b + k) as usize))
}

/// The constraints on one row of the product.
pub open spec fn block_constraints(l: Layout) -> Seq<Seq<Term>> {
    product_part(l, 5) + sum_part(l, 4) + range_part(l.t as int, l.t_bits as int) + range_part(
        l.ct as int,
        l.ct_bits as int,
    )
}

proof fn lemma_sums_fit(l: Layout, k: nat, n: int)
    requires
        in_bounds(l, n),
        k <= 4,
    ensures
        constraint::all_fit(sum_part(l, k), n),
    decreases k,
{
    if k > 0 {
        let m = (k - 1) as nat;
        lemma_sums_fit(l, m, n);
        lemma_sum_cells(l, m as int, n);
        constraint::lemma_fit_concat(sum_part(l, m), sum_step(l, m as int), n);
    }
}

proof fn lemma_sum_cells(l: Layout, r: int, n: int)
    requires
        in_bounds(l, n),
        0 <= r < 4,
    ensures
        0 <= left_cell(l, r) < n,
        0 <= sum_cell(l, r) < n,
        0 <= carry_cell(l, r) < n,
{
    assert(0 <= r * l.step <= 3 * l.step) by (nonlinear_arith)
        requires
            0 <= r <= 3,
            0 <= l.step,
    ;
    if r > 0 {
        assert(0 <= (r - 1) * l.step <= 3 * l.step) by (nonlinear_arith)
            requires
                0 <= r - 1 <= 3,
                0 <= l.step,
        ;
    }
}

proof fn lemma_ranges_fit(x: int, b: int, n: int)
    requires
        0 <= x,
        x + 5 <= n,
        0 <= b,
        b + 115 <= n,
        n <= 100_000,
    ensures
        constraint::all_fit(range_part(x, b), n),
{
    let cs = range_part(x, b);
    assert forall|i: int| 0 <= i < cs.len() implies constraint::fits(#[trigger] cs[i], n) by {
        if i < 5 {
            constraint::lemma_binary_fits((x + i) as usize, (b + 23 * i) as usize, 23, n);
        }
    }
}

/// The constraints on a block read its cells only.
pub proof fn lemma_block_fits(l: Layout, n: int)
    requires
        in_bounds(l, n),
    ensures
        constraint::all_fit(block_constraints(l), n),
{
    lemma_sums_fit(l, 4, n);
    lemma_ranges_fit(l.t as int, l.t_bits as int, n);
    lemma_ranges_fit(l.ct as int, l.ct_bits as int, n);
    let a = product_part(l, 5);
    let b = sum_part(l, 4);
    let c = range_part(l.t as int, l.t_bits as int);
    let d = range_part(l.ct as int, l.ct_bits as int);
    constraint::lemma_fit_concat(a, b, n);
    constraint::lemma_fit_concat(a + b, c, n);
    constraint::lemma_fit_concat(a + b + c, d, n);
}

fn push_ranges(cs: &mut Vec<Vec<Term>>, x: usize, b: usize)
    requires
        x <= 100_000,
        b <= 100_000,
    ensures
        constraint::views(final(cs)@) == constraint::views(old(cs)@) + range_part(
            x as int,
            b as int,
        ),
{
    let ghost before = constraint::views(cs@);
    let ghost whole = range_part(x as int, b as int);
    let mut j: usize = 0;
    proof {
        assert(before =~= before + whole.subrange(0, 0));
    }
    while j < L
        invariant
            j <= 5,
            x <= 100_000,
            b <= 100_000,
            whole == range_part(x as int, b as int),
            constraint::views(cs@) == before + whole.subrange(0, j as int),
        decreases 5 - j,
    {
        constraint::push_binary(cs, x + j, b + 23 * j);
        j = j + 1;
        proof {
            assert(constraint::views(cs@) =~= before + whole.subrange(0, j as int));
        }
    }
    let mut k: usize = 0;
    while k < 115
        invariant
            k <= 115,
            x <= 100_000,
            b <= 100_000,
            whole == range_part(x as int, b as int),
            constraint::views(cs@) == before + whole.subrange(0, 5 + k),
        decreases 115 - k,
    {
        constraint::push_boolean(cs, b + k);
        k = k + 1;
        proof {
            assert(constraint::views(cs@) =~= before + whole.subrange(0, 5 + k));
        }
    }
    proof {
        assert(whole.subrange(0, 120) =~= whole);
    }
}

fn push_sums(cs: &mut Vec<Vec<Term>>, l: Layout)
    requires
        in_bounds(l, 100_000),
    ensures
        constraint::views(final(cs)@) == constraint::views(old(cs)@) + sum_part(l, 4),
{
    let ghost before = constraint::views(cs@);
    let mut r: usize = 0;
    let mut left: usize = l.t;
    let mut s: usize = l.s;
    let mut c: usize = l.cs;
    proof {
        assert(before =~= before + sum_part(l, 0));
        assert(0 * l.step == 0);
    }
    while r < 4
        invariant
            r <= 4,
            in_bounds(l, 100_000),
            left == left_cell(l, r as int),
            s == sum_cell(l, r as int),
            c == carry_cell(l, r as int),
            r < 4 ==> s < 100_000 && c < 100_000,
            constraint::views(cs@) == before + sum_part(l, r as nat),
        decreases 4 - r,
    {
        let ghost mid = constraint::views(cs@);
        constraint::push_sum(cs, left, l.t + r + 1, s, c);
        constraint::push_boolean(cs, c);
        proof {
            assert(constraint::views(cs@) =~= mid + sum_step(l, r as int));
            assert(constraint::views(cs@) =~= before + sum_part(l, (r + 1) as nat));
            assert((r + 1) * l.step == r * l.step + l.step) by (nonlinear_arith);
            if r < 3 {
                lemma_sum_cells(l, r + 1, 100_000);
            }
        }
        left = s;
        s = s + l.step;
        c = c + l.step;
        r = r + 1;
    }
}

/// Adds the constraints on one row of the product.
pub fn push_block(cs: &mut Vec<Vec<Term>>, l: Layout)
    requires
        in_bounds(l, 100_000),
    ensures
        constraint::views(final(cs)@) == constraint::views(old(cs)@) + block_constraints(l),
{
    let ghost before = constraint::views(cs@);
    let mut j: usize = 0;
    proof {
        assert(before =~= before + product_part(l, 0));
    }
    while j < L
        invariant
            j <= 5,
            in_bounds(l, 100_000),
            constraint::views(cs@) == before + product_part(l, j as nat),
        decreases 5 - j,
    {
        constraint::push_product(cs, l.a + j, l.z + j, l.t + j, l.ct + j);
        j = j + 1;
        proof {
            assert(constraint::views(cs@) =~= before + product_part(l, j as nat));
        }
    }
    push_sums(cs, l);
    push_ranges(cs, l.t, l.t_bits);
    push_ranges(cs, l.ct, l.ct_bits);
    proof {
        assert(constraint::views(cs@) =~= before + block_constraints(l));
    }
}

/// Product `j` modulo `Q`.
pub open spec fn rem_at(a: Seq<int>, z: Seq<int>, j: int) -> int {
    a[j] * z[j] % (Q as int)
}

/// The quotient of product `j` by `Q`.
pub open spec fn quo_at(a: Seq<int>, z: Seq<int>, j: int) -> int {
    a[j] * z[j] / (Q as int)
}

/// The sum of the products up to `n`, modulo `Q`.
pub open spec fn total(a: Seq<int>, z: Seq<int>, n: nat) -> int
    decreases n,
{
    if n == 0 {
        rem_at(a, z, 0)
    } else {
        (total(a, z, (n - 1) as nat) + rem_at(a, z, n as int)) % (Q as int)
    }
}

/// The carry of sum `r`.
pub open spec fn carry_at(a: Seq<int>, z: Seq<int>, r: int) -> int {
    (total(a, z, r as nat) + rem_at(a, z, r + 1)) / (Q as int)
}

/// The products modulo `Q`.
pub open spec fn rems(a: Seq<int>, z: Seq<int>) -> Seq<int> {
    Seq::new(5, |j: int| rem_at(a, z, j))
}

/// The quotients of the products by `Q`.
pub open spec fn quos(a: Seq<int>, z: Seq<int>) -> Seq<int> {
    Seq::new(5, |j: int| quo_at(a, z, j))
}

/// The running sums.
pub open spec fn sums(a: Seq<int>, z: Seq<int>) -> Seq<int> {
    Seq::new(4, |r: int| total(a, z, (r + 1) as nat))
}

/// The carries of the running sums.
pub open spec fn carries(a: Seq<int>, z: Seq<int>) -> Seq<int> {
    Seq::new(4, |r: int| carry_at(a, z, r))
}

/// Whether the factors are five residues.
pub open spec fn are_factors(a: Seq<int>) -> bool {
    a.len() == 5 && forall|j: int| 0 <= j < 5 ==> field::in_field(#[trigger] a[j])
}

proof fn lemma_total_range(a: Seq<int>, z: Seq<int>, n: nat)
    requires
        are_factors(a),
        are_factors(z),
        n < 5,
    ensures
        0 <= total(a, z, n) < Q,
    decreases n,
{
    ct1::lemma_product_range(a[0], z[0]);
    if n > 0 {
        lemma_total_range(a, z, (n - 1) as nat);
    }
}

/// Whether the cells of a layout hold the products of `a` and `z` and their sums.
pub open spec fn holds_block(l: Layout, row: Seq<int>, a: Seq<int>, z: Seq<int>) -> bool {
    &&& forall|j: int| 0 <= j < 5 ==> row[#[trigger] (l.a + j)] == a[j]
    &&& forall|j: int| 0 <= j < 5 ==> row[#[trigger] (l.z + j)] == z[j]
    &&& forall|j: int| 0 <= j < 5 ==> row[#[trigger] (l.t + j)] == rem_at(a, z, j)
    &&& forall|j: int| 0 <= j < 5 ==> row[#[trigger] (l.ct + j)] == quo_at(a, z, j)
    &&& forall|r: int|
        0 <= r < 4 ==> row[#[trigger] sum_cell(l, r)] == total(a, z, (r + 1) as nat)
    &&& forall|r: int| 0 <= r < 4 ==> row[#[trigger] carry_cell(l, r)] == carry_at(a, z, r)
    &&& forall|j: int, k: int|
        0 <= j < 5 && 0 <= k < 23 ==> row[#[trigger] (l.t_bits + 23 * j + k)] == bits::bit_of(
            rem_at(a, z, j),
            k as nat,
        )
    &&& forall|j: int, k: int|
        0 <= j < 5 && 0 <= k < 23 ==> row[#[trigger] (l.ct_bits + 23 * j + k)] == bits::bit_of(
            quo_at(a, z, j),
            k as nat,
        )
}

proof fn lemma_products_hold(l: Layout, row: Seq<int>, a: Seq<int>, z: Seq<int>)
    requires
        in_bounds(l, 100_000),
        are_factors(a),
        are_factors(z),
        holds_block(l, row, a, z),
    ensures
        constraint::satisfies(product_part(l, 5), row),
{
    let cs = product_part(l, 5);
    assert forall|j: int| 0 <= j < cs.len() implies constraint::holds(#[trigger] cs[j], row) by {
        constraint::lemma_product_value(
            (l.a + j) as usize,
            (l.z + j) as usize,
            (l.t + j) as usize,
            (l.ct + j) as usize,
            row,
        );
        ct1::lemma_product_range(a[j], z[j]);
        assert(row[l.a + j] == a[j]);
        assert(row[l.z + j] == z[j]);
        assert(row[l.t + j] == rem_at(a, z, j));
        assert(row[l.ct + j] == quo_at(a, z, j));
    }
}

proof fn lemma_sums_hold(l: Layout, row: Seq<int>, a: Seq<int>, z: Seq<int>, n: nat)
    requires
        in_bounds(l, 100_000),
        are_factors(a),
        are_factors(z),
        holds_block(l, row, a, z),
        n <= 4,
    ensures
        constraint::satisfies(sum_part(l, n), row),
    decreases n,
{
    if n > 0 {
        let r = n - 1;
        lemma_sums_hold(l, row, a, z, r as nat);
        lemma_sum_cells(l, r, 100_000);
        let left = left_cell(l, r);
        let s = sum_cell(l, r);
        let c = carry_cell(l, r);
        constraint::lemma_sum_value(
            left as usize,
            (l.t + r + 1) as usize,
            s as usize,
            c as usize,
            row,
        );
        constraint::lemma_boolean_value(c as usize, row);
        lemma_total_range(a, z, r as nat);
        ct1::lemma_product_range(a[r + 1], z[r + 1]);
        assert(row[l.t + (r + 1)] == rem_at(a, z, r + 1));
        assert(row[left] == total(a, z, r as nat)) by {
            if r == 0 {
                assert(row[l.t + 0] == rem_at(a, z, 0));
            } else {
                assert(row[sum_cell(l, r - 1)] == total(a, z, r as nat));
            }
        }
        assert(row[s] == total(a, z, (r + 1) as nat));
        assert(row[c] == carry_at(a, z, r));
        let x = total(a, z, r as nat) + rem_at(a, z, r + 1);
        lemma_fundamental_div_mod(x, Q as int);
        let cs = sum_step(l, r);
        assert forall|i: int| 0 <= i < cs.len() implies constraint::holds(
            #[trigger] cs[i],
            row,
        ) by {}
        constraint::lemma_satisfies_concat(sum_part(l, r as nat), cs, row);
    }
}

proof fn lemma_ranges_hold(x: int, b: int, row: Seq<int>, v: Seq<int>)
    requires
        0 <= x <= 100_000,
        0 <= b <= 100_000,
        forall|j: int|
            0 <= j < 5 ==> row[#[trigger] (x + j)] == v[j] && 0 <= v[j] < 8388608,
        forall|j: int, k: int|
            0 <= j < 5 && 0 <= k < 23 ==> row[#[trigger] (b + 23 * j + k)] == bits::bit_of(
                v[j],
                k as nat,
            ),
    ensures
        constraint::satisfies(range_part(x, b), row),
{
    let cs = range_part(x, b);
    assert forall|i: int| 0 <= i < cs.len() implies constraint::holds(#[trigger] cs[i], row) by {
        let j = if i < 5 {
            i
        } else {
            (i - 5) / 23
        };
        assert(row[x + j] == v[j]);
        assert forall|k: int| 0 <= k < 23 implies row[#[trigger] ((b + 23 * j) as usize + k)]
            == bits::bit_of(row[x + j], k as nat) by {
            assert(row[b + 23 * j + k] == bits::bit_of(v[j], k as nat));
        }
        let one = constraint::range_check((x + j) as usize, (b + 23 * j) as usize);
        constraint::lemma_range_check((x + j) as usize, (b + 23 * j) as usize, row);
        if i < 5 {
            assert(one[0] == cs[i]);
        } else {
            let k = (i - 5) % 23;
            assert(one[1 + k] == cs[i]);
        }
    }
}

/// Cells that hold the products and their sums meet the constraints.
pub proof fn lemma_block_holds(l: Layout, row: Seq<int>, a: Seq<int>, z: Seq<int>)
    requires
        in_bounds(l, 100_000),
        are_factors(a),
        are_factors(z),
        holds_block(l, row, a, z),
    ensures
        constraint::satisfies(block_constraints(l), row),
{
    lemma_products_hold(l, row, a, z);
    lemma_sums_hold(l, row, a, z, 4);
    assert forall|j: int| 0 <= j < 5 implies row[#[trigger] (l.t + j)] == rems(a, z)[j] && 0
        <= rems(a, z)[j] < 8388608 by {
        ct1::lemma_product_range(a[j], z[j]);
    }
    assert forall|j: int| 0 <= j < 5 implies row[#[trigger] (l.ct + j)] == quos(a, z)[j] && 0
        <= quos(a, z)[j] < 8388608 by {
        ct1::lemma_product_range(a[j], z[j]);
    }
    lemma_ranges_hold(l.t as int, l.t_bits as int, row, rems(a, z));
    lemma_ranges_hold(l.ct as int, l.ct_bits as int, row, quos(a, z));
    let p = product_part(l, 5);
    let s = sum_part(l, 4);
    let c = range_part(l.t as int, l.t_bits as int);
    let d = range_part(l.ct as int, l.ct_bits as int);
    constraint::lemma_satisfies_concat(p, s, row);
    constraint::lemma_satisfies_concat(p + s, c, row);
    constraint::lemma_satisfies_concat(p + s + c, d, row);
}

/// The cells of one row of the product.
#[derive(Clone, Copy, Debug)]
pub struct BlockCells {
    pub t: [i64; 5],
    pub ct: [i64; 5],
    pub s: [i64; 4],
    pub cs: [i64; 4],
}

/// Computes the products, their sums and carries.
pub fn block_cells(a: &[i64; 5], z: &[i64; 5]) -> (r: BlockCells)
    requires
        are_factors(transform::ints(a@)),
        are_factors(transform::ints(z@)),
    ensures
        transform::ints(r.t@) == rems(transform::ints(a@), transform::ints(z@)),
        transform::ints(r.ct@) == quos(transform::ints(a@), transform::ints(z@)),
        transform::ints(r.s@) == sums(transform::ints(a@), transform::ints(z@)),
        transform::ints(r.cs@) == carries(transform::ints(a@), transform::ints(z@)),
        cells::all_cells(r.t@),
        cells::all_cells(r.ct@),
        cells::all_cells(r.s@),
        cells::all_cells(r.cs@),
        forall|i: int| 0 <= i < 4 ==> 0 <= #[trigger] r.s[i] < Q,
{
    let ghost x = transform::ints(a@);
    let ghost y = transform::ints(z@);
    let mut t: [i64; 5] = [0i64; 5];
    let mut ct: [i64; 5] = [0i64; 5];
    let mut j: usize = 0;
    while j < L
        invariant
            j <= 5,
            x == transform::ints(a@),
            y == transform::ints(z@),
            are_factors(x),
            are_factors(y),
            forall|k: int|
                0 <= k < j ==> #[trigger] t[k] == rem_at(x, y, k) && 0 <= t[k] < Q,
            forall|k: int|
                0 <= k < j ==> #[trigger] ct[k] == quo_at(x, y, k) && 0 <= ct[k] < Q,
        decreases 5 - j,
    {
        proof {
            ct1::lemma_product_range(x[j as int], y[j as int]);
        }
        t[j] = (a[j] * z[j]) % Q;
        ct[j] = (a[j] * z[j]) / Q;
        j = j + 1;
    }
    let mut s: [i64; 4] = [0i64; 4];
    let mut cs: [i64; 4] = [0i64; 4];
    let mut acc: i64 = t[0];
    let mut r: usize = 0;
    while r < 4
        invariant
            r <= 4,
            forall|k: int| 0 <= k < 5 ==> #[trigger] t[k] == rem_at(x, y, k) && 0 <= t[k] < Q,
            acc == total(x, y, r as nat),
            0 <= acc < Q,
            forall|k: int|
                0 <= k < r ==> #[trigger] s[k] == total(x, y, (k + 1) as nat) && 0 <= s[k] < Q,
            forall|k: int|
                0 <= k < r ==> #[trigger] cs[k] == carry_at(x, y, k) && 0 <= cs[k] <= 1,
        decreases 4 - r,
    {
        let raw: i64 = acc + t[r + 1];
        if raw >= Q {
            proof {
                lemma_fundamental_div_mod_converse(raw as int, Q as int, 1, raw - Q);
            }
            acc = raw - Q;
            cs[r] = 1;
        } else {
            acc = raw;
            cs[r] = 0;
        }
        s[r] = acc;
        r = r + 1;
    }
    proof {
        assert(transform::ints(t@) =~= rems(x, y));
        assert(transform::ints(ct@) =~= quos(x, y));
        assert(transform::ints(s@) =~= sums(x, y));
        assert(transform::ints(cs@) =~= carries(x, y));
    }
    BlockCells { t, ct, s, cs }
}

/// The layout of the single row.
pub open spec fn row_layout() -> Layout {
    Layout {
        a: 0,
        z: 5,
        t: 10,
        ct: 15,
        s: 20,
        cs: 21,
        step: 2,
        t_bits: 28,
        ct_bits: 143,
    }
}

impl AzRowEval {
    pub fn log_size(&self) -> (n: u32)
        ensures
            n == self.log_n_rows,
    {
        self.log_n_rows
    }

    pub fn max_constraint_log_degree_bound(&self) -> (n: u32)
        requires
            self.log_n_rows < u32::MAX,
        ensures
            n == self.log_n_rows + 1,
    {
        self.log_n_rows + 1
    }

    /// The constraints.
    pub fn constraints(&self) -> (cs: Vec<Vec<Term>>)
        ensures
            constraint::views(cs@) == block_constraints(row_layout()),
            constraint::all_fit(constraint::views(cs@), 258),
    {
        let mut cs: Vec<Vec<Term>> = Vec::new();
        let l = Layout {
            a: 0,
            z: 5,
            t: 10,
            ct: 15,
            s: 20,
            cs: 21,
            step: 2,
            t_bits: 28,
            ct_bits: 143,
        };
        push_block(&mut cs, l);
        proof {
            assert(constraint::views(cs@) =~= block_constraints(row_layout()));
            lemma_block_fits(row_layout(), 258);
        }
        cs
    }

    /// The values of the constraints on a row.
    pub fn evaluate(&self, row: &[u32]) -> (out: Vec<u32>)
        requires
            row@.len() == 258,
        ensures
            out@ == constraint::residues(
                block_constraints(row_layout()),
                constraint::cells(row@),
            ),
    {
        constraint::evaluate(&self.constraints(), row)
    }
}

/// Sums and carries in turn.
pub open spec fn interleaved(s: Seq<int>, c: Seq<int>) -> Seq<int> {
    Seq::new(
        8,
        |i: int|
            if i % 2 == 0 {
                s[i / 2]
            } else {
                c[i / 2]
            },
    )
}

/// The row of the factors `a` and `z`.
pub open spec fn az_row(a: Seq<int>, z: Seq<int>) -> Seq<int> {
    a + z + rems(a, z) + quos(a, z) + interleaved(sums(a, z), carries(a, z)) + cells::all_bits(
        rems(a, z),
    ) + cells::all_bits(quos(a, z))
}

/// Positions in the bits of five values.
pub proof fn lemma_all_bits(v: Seq<int>, j: int, k: int)
    requires
        0 <= j < v.len(),
        0 <= k < 23,
    ensures
        0 <= 23 * j + k < 23 * v.len(),
        cells::all_bits(v)[23 * j + k] == bits::bit_of(v[j], k as nat),
{
    lemma_fundamental_div_mod_converse(23 * j + k, 23, j, k);
}

/// The row of any factors meets the constraints.
#[verifier::rlimit(40)]
pub proof fn lemma_az_row(a: Seq<int>, z: Seq<int>)
    requires
        are_factors(a),
        are_factors(z),
    ensures
        az_row(a, z).len() == 258,
        constraint::satisfies(block_constraints(row_layout()), az_row(a, z)),
{
    let l = row_layout();
    let row = az_row(a, z);
    assert forall|r: int| 0 <= r < 4 implies row[#[trigger] sum_cell(l, r)] == total(
        a,
        z,
        (r + 1) as nat,
    ) by {
        assert(sum_cell(l, r) == 20 + 2 * r);
    }
    assert forall|r: int| 0 <= r < 4 implies row[#[trigger] carry_cell(l, r)] == carry_at(
        a,
        z,
        r,
    ) by {
        assert(carry_cell(l, r) == 20 + (2 * r + 1));
    }
    assert forall|j: int, k: int| 0 <= j < 5 && 0 <= k < 23 implies row[#[trigger] (l.t_bits + 23
        * j + k)] == bits::bit_of(rem_at(a, z, j), k as nat) by {
        lemma_all_bits(rems(a, z), j, k);
    }
    assert forall|j: int, k: int| 0 <= j < 5 && 0 <= k < 23 implies row[#[trigger] (l.ct_bits + 23
        * j + k)] == bits::bit_of(quo_at(a, z, j), k as nat) by {
        lemma_all_bits(quos(a, z), j, k);
    }
    lemma_block_holds(l, row, a, z);
}

/// The sum of all products is entry `p` of the product of the row and the vector.
pub proof fn lemma_total_is_dot(a: Seq<Seq<int>>, z: Seq<Seq<int>>, p: int, n: nat)
    requires
        a.len() == 5,
        z.len() == 5,
        polyvec::all_elems(a),
        polyvec::all_elems(z),
        0 <= p < 256,
        n < 5,
    ensures
        total(polyvec::at_position(a, p), polyvec::at_position(z, p), n) == polyvec::dot(
            a,
            z,
            n + 1,
        )[p],
    decreases n,
{
    let x = polyvec::at_position(a, p);
    let y = polyvec::at_position(z, p);
    if n == 0 {
        reveal_with_fuel(polyvec::dot, 2);
        assert(transform::is_elem(a[0]) && transform::is_elem(z[0]));
        assert(polyvec::dot(a, z, 1)[p] == zq::modq(ring::ring_zero()[p] + zq::modq(x[0] * y[0])));
    } else {
        lemma_total_is_dot(a, z, p, (n - 1) as nat);
        assert(polyvec::dot(a, z, n + 1) == ring::ring_add(
            polyvec::dot(a, z, n),
            transform::pointwise(a[n as int], z[n as int]),
        ));
    }
}

/// The rows of a row of the matrix and a vector.
pub open spec fn az_table(a: Seq<Seq<int>>, z: Seq<Seq<int>>) -> Seq<Seq<int>> {
    Seq::new(256, |p: int| az_row(polyvec::at_position(a, p), polyvec::at_position(z, p)))
}

/// The entries of five polynomials at a position are factors.
pub proof fn lemma_factors(v: Seq<Seq<int>>, p: int)
    requires
        v.len() == 5,
        polyvec::all_elems(v),
        0 <= p < 256,
    ensures
        are_factors(polyvec::at_position(v, p)),
{
    let f = polyvec::at_position(v, p);
    assert forall|j: int| 0 <= j < 5 implies field::in_field(#[trigger] f[j]) by {
        assert(transform::is_elem(v[j]));
    }
}

/// The factors at position `p`.
pub fn factors_at(v: &[[i64; 256]; 5], p: usize) -> (out: [i64; 5])
    requires
        p < 256,
        polyvec::all_elems(polyvec::polys(v@)),
    ensures
        transform::ints(out@) == polyvec::at_position(polyvec::polys(v@), p as int),
        are_factors(transform::ints(out@)),
{
    let out: [i64; 5] = [v[0][p], v[1][p], v[2][p], v[3][p], v[4][p]];
    proof {
        lemma_factors(polyvec::polys(v@), p as int);
        assert(transform::ints(out@) =~= polyvec::at_position(polyvec::polys(v@), p as int));
    }
    out
}

fn az_cells(a: &[i64; 5], z: &[i64; 5]) -> (r: (Vec<u32>, i64))
    requires
        are_factors(transform::ints(a@)),
        are_factors(transform::ints(z@)),
    ensures
        constraint::cells(r.0@) == az_row(transform::ints(a@), transform::ints(z@)),
        r.1 == total(transform::ints(a@), transform::ints(z@), 4),
{
    let ghost x = transform::ints(a@);
    let ghost y = transform::ints(z@);
    let b = block_cells(a, z);
    let mut row: Vec<u32> = Vec::new();
    proof {
        assert forall|j: int| 0 <= j < 5 implies 0 <= #[trigger] a@[j] < 2147483647 by {
            assert(field::in_field(x[j]));
        }
        assert forall|j: int| 0 <= j < 5 implies 0 <= #[trigger] z@[j] < 2147483647 by {
            assert(field::in_field(y[j]));
        }
    }
    cells::push_values(&mut row, a.as_slice());
    cells::push_values(&mut row, z.as_slice());
    cells::push_values(&mut row, b.t.as_slice());
    cells::push_values(&mut row, b.ct.as_slice());
    let ghost mid = constraint::cells(row@);
    proof {
        assert(mid =~= x + y + rems(x, y) + quos(x, y));
        assert(mid =~= mid + interleaved(sums(x, y), carries(x, y)).subrange(0, 0));
    }
    let mut r: usize = 0;
    while r < 4
        invariant
            r <= 4,
            cells::all_cells(b.s@),
            cells::all_cells(b.cs@),
            transform::ints(b.s@) == sums(x, y),
            transform::ints(b.cs@) == carries(x, y),
            constraint::cells(row@) == mid + interleaved(sums(x, y), carries(x, y)).subrange(
                0,
                2 * r,
            ),
        decreases 4 - r,
    {
        cells::push_value(&mut row, b.s[r]);
        cells::push_value(&mut row, b.cs[r]);
        proof {
            let f = interleaved(sums(x, y), carries(x, y));
            assert(sums(x, y)[r as int] == b.s@[r as int]);
            assert(carries(x, y)[r as int] == b.cs@[r as int]);
            assert(f.subrange(0, 2 * (r + 1)) =~= f.subrange(0, 2 * r).push(
                b.s@[r as int] as int,
            ).push(b.cs@[r as int] as int));
            assert(constraint::cells(row@) =~= mid + f.subrange(0, 2 * (r + 1)));
        }
        r = r + 1;
    }
    cells::push_all_bits(&mut row, b.t.as_slice());
    cells::push_all_bits(&mut row, b.ct.as_slice());
    proof {
        let f = interleaved(sums(x, y), carries(x, y));
        assert(f.subrange(0, 8) =~= f);
        assert(constraint::cells(row@) =~= az_row(x, y));
        assert(sums(x, y)[3] == b.s@[3]);
    }
    (row, b.s[3])
}

/// Builds the columns of the trace, and the row of the product.
pub fn build_trace(a_row: &[[i64; 256]; 5], z_hat: &[[i64; 256]; 5]) -> (r: (
    Vec<Vec<u32>>,
    [i64; 256],
))
    requires
        polyvec::all_elems(polyvec::polys(a_row@)),
        polyvec::all_elems(polyvec::polys(z_hat@)),
    ensures
        columns::views(r.0@) == columns::columns(
            az_table(polyvec::polys(a_row@), polyvec::polys(z_hat@)),
            258,
        ),
        transform::ints(r.1@) == polyvec::dot(polyvec::polys(a_row@), polyvec::polys(z_hat@), 5),
        columns::all_satisfy(columns::views(r.0@), 256, block_constraints(row_layout())),
{
    let ghost av = polyvec::polys(a_row@);
    let ghost zv = polyvec::polys(z_hat@);
    let mut table: Vec<Vec<u32>> = Vec::new();
    let mut az_hat: [i64; 256] = [0i64; 256];
    let mut p: usize = 0;
    while p < N
        invariant
            p <= 256,
            av == polyvec::polys(a_row@),
            zv == polyvec::polys(z_hat@),
            polyvec::all_elems(av),
            polyvec::all_elems(zv),
            table@.len() == p,
            forall|q: int|
                0 <= q < p ==> constraint::cells((#[trigger] table@[q])@) == az_table(av, zv)[q],
            forall|q: int| 0 <= q < p ==> #[trigger] az_hat[q] == polyvec::dot(av, zv, 5)[q],
        decreases 256 - p,
    {
        let a: [i64; 5] = factors_at(a_row, p);
        let z: [i64; 5] = factors_at(z_hat, p);
        let (row, sum) = az_cells(&a, &z);
        proof {
            lemma_total_is_dot(av, zv, p as int, 4);
        }
        table.push(row);
        az_hat[p] = sum;
        p = p + 1;
    }
    proof {
        columns::lemma_powers_of_two();
        assert(columns::rows(table@) =~= az_table(av, zv));
        assert forall|q: int| 0 <= q < table@.len() implies (#[trigger] columns::rows(
            table@,
        )[q]).len() == 258 by {
            assert(columns::rows(table@)[q] == az_table(av, zv)[q]);
        }
        assert forall|q: int| 0 <= q < 256 implies constraint::satisfies(
            block_constraints(row_layout()),
            #[trigger] columns::rows(table@)[q],
        ) by {
            lemma_factors(av, q);
            lemma_factors(zv, q);
            lemma_az_row(polyvec::at_position(av, q), polyvec::at_position(zv, q));
        }
        columns::lemma_committed_rows(table@, 258, block_constraints(row_layout()));
        assert(polyvec::dot(av, zv, 5).len() == 256);
        assert(transform::ints(az_hat@) =~= polyvec::dot(av, zv, 5));
    }
    (columns::to_columns(&table, 258), az_hat)
}

} // verus!
