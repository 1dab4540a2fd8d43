//! Weight of a hint: the number of its bits that are set.
//!
//! The trace has 2048 rows, one for each of the `K * N` hint bits and zeros behind
//! them, with two cells: the bit `h`, and the running sum `s` of the bits. Two
//! preprocessed columns go with it: `is_init` is 1 in the first row, where the sum
//! starts anew, and `is_valid` is 1 in the rows of hint bits.
use crate::columns;
use crate::constraint;
use crate::constraint::Term;
use crate::mldsa::hints;
use crate::mldsa::params::{K, N};
use vstd::arithmetic::div_mod::*;
use vstd::prelude::*;

verus! {

/// Binary logarithm of the number of rows.
pub const LOG_N_ROWS: u32 = 11;

/// The number of hint bits.
pub const HINT_ROWS: usize = 1536;

/// The number of cells in a row.
pub const N_COLS: usize = 2;

/// The name of the preprocessed column `is_init`.
pub fn pc_is_init() -> (id: &'static str)
    ensures
        id@ == "hw_is_init"@,
{
    "hw_is_init"
}

/// The name of the preprocessed column `is_valid`.
pub fn pc_is_valid() -> (id: &'static str)
    ensures
        id@ == "hw_is_valid"@,
{
    "hw_is_valid"
}

/// The names of the preprocessed columns in their order.
pub fn preprocessed_column_ids() -> (ids: Vec<&'static str>)
    ensures
        ids@.len() == 2,
        ids@[0]@ == "hw_is_init"@,
        ids@[1]@ == "hw_is_valid"@,
{
    let mut ids: Vec<&'static str> = Vec::new();
    ids.push(pc_is_init());
    ids.push(pc_is_valid());
    ids
}

/// The constraints on a trace of `2^log_n_rows` rows. They read, in this order, the
/// cells `is_init`, `is_valid`, `h`, `s`, and the `s` of the row before; the row
/// before the first is the last.
#[derive(Clone, Copy, Debug)]
pub struct HintWeightEval {
    pub log_n_rows: u32,
}

/// `h - h * h = 0`, `h - is_valid * h = 0`, and `s - h - s_prev + is_init * s_prev = 0`.
pub open spec fn weight_constraints() -> Seq<Seq<Term>> {
    seq![
        seq![
            Term::Linear { coeff: 1, x: 2 },
            Term::Quadratic { coeff: (-1) as i64, x: 2, y: 2 },
        ],
        seq![
            Term::Linear { coeff: 1, x: 2 },
            Term::Quadratic { coeff: (-1) as i64, x: 1, y: 2 },
        ],
        seq![
            Term::Linear { coeff: 1, x: 3 },
            Term::Linear { coeff: (-1) as i64, x: 2 },
            Term::Linear { coeff: (-1) as i64, x: 4 },
            Term::Quadratic { coeff: 1, x: 0, y: 4 },
        ],
    ]
}

impl HintWeightEval {
    pub fn log_size(&self) -> (n: u32)
        ensures
            n == self.log_n_rows,
    {
        self.log_n_rows
    }

    pub fn max_constraint_log_degree_bound(&self) -> (n: u32)
        requires
            self.log_n_rows < u32::MAX,
        ensures
            n == self.log_n_rows + 1,
    {
        self.log_n_rows + 1
    }

    /// The constraints.
    pub fn constraints(&self) -> (cs: Vec<Vec<Term>>)
        ensures
            constraint::views(cs@) == weight_constraints(),
            constraint::all_fit(constraint::views(cs@), 5),
    {
        let mut cs: Vec<Vec<Term>> = Vec::new();
        let mut bit: Vec<Term> = Vec::new();
        bit.push(Term::Linear { coeff: 1, x: 2 });
        bit.push(Term::Quadratic { coeff: -1, x: 2, y: 2 });
        let mut pad: Vec<Term> = Vec::new();
        pad.push(Term::Linear { coeff: 1, x: 2 });
        pad.push(Term::Quadratic { coeff: -1, x: 1, y: 2 });
        let mut sum: Vec<Term> = Vec::new();
        sum.push(Term::Linear { coeff: 1, x: 3 });
        sum.push(Term::Linear { coeff: -1, x: 2 });
        sum.push(Term::Linear { coeff: -1, x: 4 });
        sum.push(Term::Quadratic { coeff: 1, x: 0, y: 4 });
        proof {
            assert(bit@ =~= weight_constraints()[0]);
            assert(pad@ =~= weight_constraints()[1]);
            assert(sum@ =~= weight_constraints()[2]);
        }
        cs.push(bit);
        cs.push(pad);
        cs.push(sum);
        proof {
            assert(constraint::views(cs@) =~= weight_constraints());
        }
        cs
    }

    /// The values of the constraints on the cells that they read.
    pub fn evaluate(&self, mask: &[u32]) -> (out: Vec<u32>)
        requires
            mask@.len() == 5,
        ensures
            out@ == constraint::residues(weight_constraints(), constraint::cells(mask@)),
    {
        constraint::evaluate(&self.constraints(), mask)
    }
}

/// Whether there are `K` rows of `N` hint bits.
pub open spec fn is_hint(h: Seq<Seq<bool>>) -> bool {
    h.len() == 6 && forall|i: int| 0 <= i < 6 ==> (#[trigger] h[i]).len() == 256
}

/// The rows of a hint.
pub open spec fn hint_views(h: Seq<Vec<bool>>) -> Seq<Seq<bool>> {
    Seq::new(h.len(), |i: int| h[i]@)
}

/// The cell `h` of row `r`.
pub open spec fn bit_cell(h: Seq<Seq<bool>>, r: int) -> int {
    if 0 <= r < 1536 && h[r / 256][r % 256] {
        1
    } else {
        0
    }
}

/// The sum of the bits of the first `n` rows.
pub open spec fn weight_before(h: Seq<Seq<bool>>, n: nat) -> int
    decreases n,
{
    if n == 0 {
        0
    } else {
        weight_before(h, (n - 1) as nat) + bit_cell(h, n - 1)
    }
}

/// The cell `s` of row `r`.
pub open spec fn sum_cell(h: Seq<Seq<bool>>, r: int) -> int {
    weight_before(h, (r + 1) as nat)
}

/// The cell `is_init` of row `r`.
pub open spec fn init_cell(r: int) -> int {
    if r == 0 {
        1
    } else {
        0
    }
}

/// The cell `is_valid` of row `r`.
pub open spec fn valid_cell(r: int) -> int {
    if r < 1536 {
        1
    } else {
        0
    }
}

/// The rows of a hint.
pub open spec fn hint_table(h: Seq<Seq<bool>>) -> Seq<Seq<int>> {
    Seq::new(2048, |r: int| seq![bit_cell(h, r), sum_cell(h, r)])
}

/// The rows of the preprocessed columns.
pub open spec fn preprocessed_table() -> Seq<Seq<int>> {
    Seq::new(2048, |r: int| seq![init_cell(r), valid_cell(r)])
}

/// The row before row `r`, in the cyclic order.
pub open spec fn row_before(r: int) -> int {
    if r == 0 {
        2047
    } else {
        r - 1
    }
}

/// The cells that the constraints read in row `r` of a trace.
pub open spec fn mask_at(pre: Seq<Seq<int>>, main: Seq<Seq<int>>, r: int) -> Seq<int> {
    seq![pre[r][0], pre[r][1], main[r][0], main[r][1], main[row_before(r)][1]]
}

proof fn lemma_mask_values(m: Seq<int>)
    requires
        m.len() == 5,
    ensures
        constraint::value(weight_constraints()[0], m) == m[2] - m[2] * m[2],
        constraint::value(weight_constraints()[1], m) == m[2] - m[1] * m[2],
        constraint::value(weight_constraints()[2], m) == m[3] - m[2] - m[4] + m[0] * m[4],
{
    reveal_with_fuel(constraint::partial_value, 5);
    constraint::lemma_linear(1, 2, m, 1);
    constraint::lemma_quadratic((-1) as i64, 2, 2, m, -1);
    constraint::lemma_quadratic((-1) as i64, 1, 2, m, -1);
    constraint::lemma_linear(1, 3, m, 1);
    constraint::lemma_linear((-1) as i64, 2, m, -1);
    constraint::lemma_linear((-1) as i64, 4, m, -1);
    constraint::lemma_quadratic(1, 0, 4, m, 1);
}

/// Every row of a hint's trace meets the constraints.
pub proof fn lemma_hint_rows(h: Seq<Seq<bool>>, r: int)
    requires
        0 <= r < 2048,
    ensures
        constraint::satisfies(
            weight_constraints(),
            mask_at(preprocessed_table(), hint_table(h), r),
        ),
{
    let m = mask_at(preprocessed_table(), hint_table(h), r);
    lemma_mask_values(m);
    let b = bit_cell(h, r);
    assert(b * b == b) by (nonlinear_arith)
        requires
            b == 0 || b == 1,
    ;
    assert(valid_cell(r) * b == b) by (nonlinear_arith)
        requires
            valid_cell(r) == 1 || b == 0,
    ;
    let prev = m[4];
    assert(init_cell(r) * prev == if r == 0 {
        prev
    } else {
        0
    }) by (nonlinear_arith)
        requires
            init_cell(r) == if r == 0 {
                1int
            } else {
                0int
            },
    ;
    if r == 0 {
        reveal_with_fuel(weight_before, 2);
    } else {
        assert(prev == weight_before(h, r as nat));
    }
    let cs = weight_constraints();
    assert forall|i: int| 0 <= i < cs.len() implies constraint::holds(#[trigger] cs[i], m) by {}
}

/// Whether all cells of a trace with 2048 rows of bits and sums are field elements
/// and the bits are bits.
pub open spec fn is_weight_trace(main: Seq<Seq<int>>) -> bool {
    &&& main.len() == 2048
    &&& forall|r: int|
        0 <= r < 2048 ==> (#[trigger] main[r]).len() == 2 && 0 <= main[r][0] <= 1 && 0
            <= main[r][1] < 2147483647
}

/// The number of set bits among the first `n` rows of a trace.
pub open spec fn bits_before(main: Seq<Seq<int>>, n: nat) -> int
    decreases n,
{
    if n == 0 {
        0
    } else {
        bits_before(main, (n - 1) as nat) + main[n - 1][0]
    }
}

proof fn lemma_sums_forced(main: Seq<Seq<int>>, n: nat)
    requires
        is_weight_trace(main),
        n <= 2048,
        forall|r: int|
            0 <= r < 2048 ==> constraint::satisfies(
                weight_constraints(),
                #[trigger] mask_at(preprocessed_table(), main, r),
            ),
    ensures
        0 <= bits_before(main, n) <= n,
        n > 0 ==> main[n - 1][1] == bits_before(main, n),
    decreases n,
{
    if n > 0 {
        let r = n - 1;
        lemma_sums_forced(main, r as nat);
        let m = mask_at(preprocessed_table(), main, r);
        assert(constraint::satisfies(weight_constraints(), m));
        assert(constraint::holds(weight_constraints()[2], m));
        lemma_mask_values(m);
        assert(main[r].len() == 2);
        assert(main[row_before(r)].len() == 2);
        let prev = m[4];
        assert(init_cell(r) * prev == if r == 0 {
            prev
        } else {
            0
        }) by (nonlinear_arith)
            requires
                init_cell(r) == if r == 0 {
                    1int
                } else {
                    0int
                },
        ;
        let v = main[r][1] - bits_before(main, n);
        assert(v % 2147483647 == 0);
        assert(v == 0) by {
            assert(-2147483647 < v < 2147483647);
        }
    }
}

/// A trace that meets the constraints and whose bits are bits ends in the number of
/// its bits that are set.
pub proof fn lemma_weight_sound(main: Seq<Seq<int>>)
    requires
        is_weight_trace(main),
        forall|r: int|
            0 <= r < 2048 ==> constraint::satisfies(
                weight_constraints(),
                #[trigger] mask_at(preprocessed_table(), main, r),
            ),
    ensures
        main[2047][1] == bits_before(main, 2048),
{
    lemma_sums_forced(main, 2048);
}

proof fn lemma_padding(h: Seq<Seq<bool>>, n: nat)
    requires
        1536 <= n,
    ensures
        weight_before(h, n) == weight_before(h, 1536),
    decreases n,
{
    if n > 1536 {
        lemma_padding(h, (n - 1) as nat);
    }
}

proof fn lemma_row_weight(h: Seq<Seq<bool>>, i: int, j: nat)
    requires
        is_hint(h),
        0 <= i < 6,
        j <= 256,
    ensures
        weight_before(h, (256 * i + j) as nat) == weight_before(h, (256 * i) as nat)
            + hints::row_weight(h[i], j),
    decreases j,
{
    if j > 0 {
        let k = (j - 1) as nat;
        lemma_row_weight(h, i, k);
        lemma_fundamental_div_mod_converse(256 * i + k, 256, i, k as int);
    }
}

proof fn lemma_rows_weight(h: Seq<Seq<bool>>, i: nat)
    requires
        is_hint(h),
        i <= 6,
    ensures
        weight_before(h, (256 * i) as nat) == hints::total_weight(h, i),
    decreases i,
{
    if i > 0 {
        let k = (i - 1) as nat;
        lemma_rows_weight(h, k);
        lemma_row_weight(h, k as int, 256);
        assert(h[k as int].len() == 256);
    }
}

/// The last running sum is the weight of the hint.
pub proof fn lemma_last_sum(h: Seq<Seq<bool>>)
    requires
        is_hint(h),
    ensures
        sum_cell(h, 2047) == hints::total_weight(h, 6),
{
    lemma_padding(h, 2048);
    lemma_rows_weight(h, 6);
}

/// The cells that the constraints read in row `r`, from the columns.
pub open spec fn committed_mask(pre: Seq<Seq<u32>>, main: Seq<Seq<u32>>, r: int) -> Seq<int> {
    let here = columns::row_position(r, 2048);
    let before = columns::row_position(row_before(r), 2048);
    seq![
        pre[0][here] as int,
        pre[1][here] as int,
        main[0][here] as int,
        main[1][here] as int,
        main[1][before] as int,
    ]
}

/// Builds the columns of the trace and the preprocessed columns, and the weight.
pub fn build_trace(hints: &[Vec<bool>]) -> (r: (Vec<Vec<u32>>, Vec<Vec<u32>>, usize))
    requires
        is_hint(hint_views(hints@)),
    ensures
        columns::views(r.0@) == columns::columns(hint_table(hint_views(hints@)), 2),
        columns::views(r.1@) == columns::columns(preprocessed_table(), 2),
        r.2 == hints::total_weight(hint_views(hints@), 6),
        forall|q: int|
            0 <= q < 2048 ==> constraint::satisfies(
                weight_constraints(),
                #[trigger] committed_mask(columns::views(r.1@), columns::views(r.0@), q),
            ),
{
    let ghost h = hint_views(hints@);
    let mut main: Vec<Vec<u32>> = Vec::new();
    let mut pre: Vec<Vec<u32>> = Vec::new();
    let mut acc: u32 = 0;
    let mut r: usize = 0;
    while r < 2048
        invariant
            r <= 2048,
            h == hint_views(hints@),
            is_hint(h),
            main@.len() == r,
            pre@.len() == r,
            acc == weight_before(h, r as nat),
            acc <= r,
            forall|q: int|
                0 <= q < r ==> constraint::cells((#[trigger] main@[q])@) == hint_table(h)[q],
            forall|q: int|
                0 <= q < r ==> constraint::cells((#[trigger] pre@[q])@) == preprocessed_table()[q],
        decreases 2048 - r,
    {
        let bit: bool = if r < HINT_ROWS {
            proof {
                assert(h[r as int / 256].len() == 256);
            }
            hints[r / N][r % N]
        } else {
            false
        };
        let b: u32 = if bit {
            1
        } else {
            0
        };
        acc = acc + b;
        let mut row: Vec<u32> = Vec::new();
        row.push(b);
        row.push(acc);
        let mut fixed: Vec<u32> = Vec::new();
        fixed.push(if r == 0 {
            1
        } else {
            0
        });
        fixed.push(if r < K * N {
            1
        } else {
            0
        });
        proof {
            assert(b == bit_cell(h, r as int));
            assert(constraint::cells(row@) =~= hint_table(h)[r as int]);
            assert(constraint::cells(fixed@) =~= preprocessed_table()[r as int]);
        }
        main.push(row);
        pre.push(fixed);
        r = r + 1;
    }
    proof {
        columns::lemma_powers_of_two();
        assert(columns::rows(main@) =~= hint_table(h));
        assert(columns::rows(pre@) =~= preprocessed_table());
        lemma_last_sum(h);
        let main_cols = columns::columns(columns::rows(main@), 2);
        let pre_cols = columns::columns(columns::rows(pre@), 2);
        assert forall|r: int| 0 <= r < 2048 implies constraint::satisfies(
            weight_constraints(),
            #[trigger] committed_mask(pre_cols, main_cols, r),
        ) by {
            columns::lemma_cell_position(pre@, 2, 0, r);
            columns::lemma_cell_position(pre@, 2, 1, r);
            columns::lemma_cell_position(main@, 2, 0, r);
            columns::lemma_cell_position(main@, 2, 1, row_before(r));
            columns::lemma_cell_position(main@, 2, 1, r);
            assert(committed_mask(pre_cols, main_cols, r) =~= mask_at(
                preprocessed_table(),
                hint_table(h),
                r,
            ));
            lemma_hint_rows(h, r);
        }
    }
    (columns::to_columns(&main, 2), columns::to_columns(&pre, 2), acc as usize)
}

} // verus!
