//! Columns of a trace, in the order in which a circle domain is committed.
use crate::constraint;
use crate::constraint::Term;
use crate::mldsa::transform;
use vstd::arithmetic::logarithm::*;
use vstd::arithmetic::power::*;
use vstd::arithmetic::power2::*;
use vstd::prelude::*;

verus! {

/// Position in the circle domain of point `i` of a coset of `n` points: the even
/// points fill the first half, the odd ones the second half backwards.
pub open spec fn circle_index(i: int, n: int) -> int {
    if i % 2 == 0 {
        i / 2
    } else {
        n - 1 - i / 2
    }
}

/// Where the value of row `i` of `n` stands in a column: at its index in the circle
/// domain, bit-reversed.
pub open spec fn row_position(i: int, n: nat) -> int {
    transform::brv(circle_index(i, n as int) as nat, log(2, n as int) as nat) as int
}

/// A column in the order in which it is committed.
pub open spec fn circle_order(s: Seq<u32>) -> Seq<u32> {
    Seq::new(s.len(), |i: int| s[row_position(i, s.len())])
}

/// Calls `stwo::core::utils::bit_reverse_coset_to_circle_domain_order`, which puts
/// the rows of a column into the bit-reversed order of the circle domain: the
/// function swaps every entry with the one at its `row_position`, which is its own
/// inverse. It panics unless the length is a power of two.
#[verifier::external_body]
pub(crate) fn to_circle_order(column: Vec<u32>) -> (out: Vec<u32>)
    requires
        column@.len() == pow2(log(2, column@.len() as int) as nat),
    ensures
        out@ == circle_order(column@),
{
    let mut out = column;
    stwo::core::utils::bit_reverse_coset_to_circle_domain_order(&mut out);
    out
}

/// Column `c` of a table of rows.
pub open spec fn column(table: Seq<Seq<int>>, c: int) -> Seq<u32> {
    Seq::new(table.len(), |p: int| table[p][c] as u32)
}

/// The columns of a table of rows, in the order in which they are committed.
pub open spec fn columns(table: Seq<Seq<int>>, width: nat) -> Seq<Seq<u32>> {
    Seq::new(width, |c: int| circle_order(column(table, c)))
}

/// The contents of some columns.
pub open spec fn views(cols: Seq<Vec<u32>>) -> Seq<Seq<u32>> {
    Seq::new(cols.len(), |c: int| cols[c]@)
}

/// A table of rows as integers.
pub open spec fn rows(t: Seq<Vec<u32>>) -> Seq<Seq<int>> {
    Seq::new(t.len(), |p: int| constraint::cells(t[p]@))
}

/// Whether `n` is a power of two.
pub open spec fn is_power_of_two(n: nat) -> bool {
    n == pow2(log(2, n as int) as nat)
}

pub proof fn lemma_powers_of_two()
    ensures
        is_power_of_two(256),
        is_power_of_two(1024),
        is_power_of_two(2048),
{
    lemma2_to64();
    lemma_pow2(8);
    lemma_pow2(10);
    lemma_pow2(11);
    lemma_log_pow(2, 8);
    lemma_log_pow(2, 10);
    lemma_log_pow(2, 11);
}

proof fn lemma_row_position(i: int, n: nat)
    requires
        is_power_of_two(n),
        0 <= i < n,
    ensures
        0 <= row_position(i, n) < n,
        row_position(row_position(i, n), n) == i,
{
    lemma2_to64();
    let m = log(2, n as int) as nat;
    if m > 0 {
        let t = (m - 1) as nat;
        lemma_pow2_unfold(m);
        let k = (i / 2) as nat;
        let b = transform::brv(k, t);
        transform::lemma_brv_bound(k, t);
        transform::lemma_brv_widen(k, t);
        transform::lemma_brv_involution(k, t);
        if i % 2 == 0 {
            transform::lemma_brv_widen(b, t);
        } else {
            transform::lemma_brv_complement(k, m);
            assert(row_position(i, n) == n - 1 - 2 * b);
            let c = (pow2(t) - 1 - b) as nat;
            assert(row_position(i, n) / 2 == c);
            transform::lemma_brv_complement(b, t);
            transform::lemma_brv_widen(c, t);
            transform::lemma_brv_complement(c, m);
        }
    }
}

/// To put a committed column into the order of a circle domain once more gives its
/// rows back in their own order.
pub proof fn lemma_circle_order_involution(s: Seq<u32>)
    requires
        is_power_of_two(s.len()),
    ensures
        circle_order(circle_order(s)) == s,
{
    assert forall|i: int| 0 <= i < s.len() implies #[trigger] circle_order(circle_order(s))[i]
        == s[i] by {
        lemma_row_position(i, s.len());
    }
    assert(circle_order(circle_order(s)) =~= s);
}

/// The cells of row `r` of a table stand at its position in the columns.
pub proof fn lemma_cell_position(table: Seq<Vec<u32>>, width: nat, c: int, r: int)
    requires
        is_power_of_two(table.len()),
        0 <= r < table.len(),
        0 <= c < width,
        rows(table)[r].len() == width,
    ensures
        columns(rows(table), width)[c][row_position(r, table.len())] == rows(table)[r][c],
{
    lemma_row_position(r, table.len());
    let i = row_position(r, table.len());
    assert(columns(rows(table), width)[c][i] == column(rows(table), c)[r]);
    assert(rows(table)[r][c] == table[r]@[c] as int);
}

/// The cells at position `i` of some columns.
pub open spec fn row_at(cols: Seq<Seq<u32>>, i: int) -> Seq<int> {
    Seq::new(cols.len(), |c: int| cols[c][i] as int)
}

/// Whether the cells at each of the first `n` positions of some columns meet some
/// constraints.
pub open spec fn all_satisfy(cols: Seq<Seq<u32>>, n: nat, cs: Seq<Seq<Term>>) -> bool {
    forall|i: int| 0 <= i < n ==> constraint::satisfies(cs, #[trigger] row_at(cols, i))
}

/// Where all rows of a table meet some constraints, so do the cells at every position of
/// its columns.
pub proof fn lemma_committed_rows(table: Seq<Vec<u32>>, width: nat, cs: Seq<Seq<Term>>)
    requires
        is_power_of_two(table.len()),
        forall|p: int| 0 <= p < table.len() ==> (#[trigger] rows(table)[p]).len() == width,
        forall|p: int|
            0 <= p < table.len() ==> constraint::satisfies(cs, #[trigger] rows(table)[p]),
    ensures
        all_satisfy(columns(rows(table), width), table.len(), cs),
{
    let cols = columns(rows(table), width);
    assert forall|i: int| 0 <= i < table.len() implies constraint::satisfies(
        cs,
        #[trigger] row_at(cols, i),
    ) by {
        lemma_row_position(i, table.len());
        let p = row_position(i, table.len());
        assert(rows(table)[p].len() == width);
        assert(row_at(cols, i) =~= rows(table)[p]) by {
            assert forall|c: int| 0 <= c < width implies row_at(cols, i)[c] == rows(table)[p][c] by {
                assert(cols[c] == circle_order(column(rows(table), c)));
                assert(cols[c][i] == column(rows(table), c)[p]);
                assert(rows(table)[p][c] == table[p]@[c] as int);
            }
        }
    }
}

/// Puts a table of rows into columns.
pub fn to_columns(table: &Vec<Vec<u32>>, width: usize) -> (cols: Vec<Vec<u32>>)
    requires
        forall|p: int| 0 <= p < table@.len() ==> (#[trigger] rows(table@)[p]).len() == width,
        is_power_of_two(table@.len()),
    ensures
        views(cols@) == columns(rows(table@), width as nat),
{
    let mut cols: Vec<Vec<u32>> = Vec::new();
    let mut c: usize = 0;
    while c < width
        invariant
            c <= width,
            forall|p: int| 0 <= p < table@.len() ==> (#[trigger] rows(table@)[p]).len() == width,
            is_power_of_two(table@.len()),
            cols@.len() == c,
            forall|k: int|
                0 <= k < c ==> (#[trigger] cols@[k])@ == circle_order(column(rows(table@), k)),
        decreases width - c,
    {
        let mut col: Vec<u32> = Vec::new();
        let mut p: usize = 0;
        while p < table.len()
            invariant
                p <= table.len(),
                c < width,
                forall|p: int|
                    0 <= p < table@.len() ==> (#[trigger] rows(table@)[p]).len() == width,
                col@.len() == p,
                forall|q: int|
                    0 <= q < p ==> #[trigger] col@[q] == column(rows(table@), c as int)[q],
            decreases table.len() - p,
        {
            proof {
                assert(rows(table@)[p as int].len() == width);
            }
            col.push(table[p][c]);
            p = p + 1;
        }
        proof {
            assert(col@ =~= column(rows(table@), c as int));
        }
        cols.push(to_circle_order(col));
        c = c + 1;
    }
    proof {
        assert(views(cols@) =~= columns(rows(table@), width as nat));
    }
    cols
}

} // verus!
