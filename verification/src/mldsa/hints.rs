//! The sparse encoding of hints: `OMEGA` position bytes, in which the positions of
//! each polynomial form an increasing run, and `K` bytes that give the runs' ends.
use crate::mldsa::encoding::DecodeError;
use crate::mldsa::params::{K, OMEGA};
use vstd::prelude::*;

verus! {

/// Where the run of polynomial `i` ends.
pub open spec fn run_end(y: Seq<u8>, i: int) -> int {
    y[OMEGA + i] as int
}

/// Where the run of polynomial `i` starts.
pub open spec fn run_start(y: Seq<u8>, i: int) -> int {
    if i <= 0 {
        0
    } else {
        run_end(y, i - 1)
    }
}

/// Whether position `j` is among `y[from], .., y[to - 1]`.
pub open spec fn in_run(y: Seq<u8>, from: int, to: int, j: int) -> bool {
    exists|p: int| from <= p < to && #[trigger] y[p] as int == j
}

/// The hints of the `K` polynomials.
pub open spec fn hint_matrix(y: Seq<u8>) -> Seq<Seq<bool>> {
    Seq::new(
        K as nat,
        |i: int| Seq::new(256, |j: int| in_run(y, run_start(y, i), run_end(y, i), j)),
    )
}

/// The first place, from `p` on, at which the run from `start` to `end` does not
/// increase.
pub open spec fn order_fault(y: Seq<u8>, start: int, p: int, end: int) -> Option<DecodeError>
    decreases end - p,
{
    if p >= end {
        None
    } else if p > start && y[p] <= y[p - 1] {
        Some(DecodeError::HintOrder { pos: p as usize })
    } else {
        order_fault(y, start, p + 1, end)
    }
}

/// The first unused position, from `p` on, that is not zero.
pub open spec fn padding_fault(y: Seq<u8>, p: int) -> Option<DecodeError>
    decreases OMEGA - p,
{
    if p >= OMEGA {
        None
    } else if y[p] != 0 {
        Some(DecodeError::HintPadding { pos: p as usize })
    } else {
        padding_fault(y, p + 1)
    }
}

/// The first fault in the runs from polynomial `i` on, or in the padding.
pub open spec fn fault_from(y: Seq<u8>, i: nat) -> Option<DecodeError>
    decreases K - i,
{
    if i >= K {
        padding_fault(y, run_start(y, K as int))
    } else if run_end(y, i as int) < run_start(y, i as int) || run_end(y, i as int) > OMEGA {
        Some(
            DecodeError::HintOffset {
                row: i as usize,
                start: run_start(y, i as int) as usize,
                offset: run_end(y, i as int) as usize,
            },
        )
    } else {
        match order_fault(y, run_start(y, i as int), run_start(y, i as int), run_end(y, i as int)) {
            Some(e) => Some(e),
            None => fault_from(y, i + 1),
        }
    }
}

/// What is wrong with a hint encoding, if anything; of several faults the first.
pub open spec fn hint_fault(y: Seq<u8>) -> Option<DecodeError> {
    if y.len() != OMEGA + K {
        Some(DecodeError::HintLength { got: y.len() as usize })
    } else {
        fault_from(y, 0)
    }
}

/// Whether the run of polynomial `i` lies in bounds and increases strictly.
pub open spec fn run_valid(y: Seq<u8>, i: int) -> bool {
    &&& run_start(y, i) <= run_end(y, i) <= OMEGA
    &&& forall|p: int| run_start(y, i) < p < run_end(y, i) ==> y[p - 1] < #[trigger] y[p]
}

/// Whether `y` is a well-formed hint encoding.
pub open spec fn hint_valid(y: Seq<u8>) -> bool {
    &&& y.len() == OMEGA + K
    &&& forall|i: int| 0 <= i < K ==> #[trigger] run_valid(y, i)
    &&& forall|p: int| run_end(y, K - 1) <= p < OMEGA ==> #[trigger] y[p] == 0
}

proof fn lemma_order_fault(y: Seq<u8>, start: int, p: int, end: int)
    requires
        start <= p,
    ensures
        order_fault(y, start, p, end) is None <==> forall|q: int|
            start < q && p <= q < end ==> y[q - 1] < #[trigger] y[q],
    decreases end - p,
{
    if p < end {
        lemma_order_fault(y, start, p + 1, end);
        if p > start && y[p] <= y[p - 1] {
            assert(!(y[p - 1] < y[p]));
        }
    }
}

proof fn lemma_padding_fault(y: Seq<u8>, p: int)
    ensures
        padding_fault(y, p) is None <==> forall|q: int| p <= q < OMEGA ==> #[trigger] y[q] == 0,
    decreases OMEGA - p,
{
    if p < OMEGA {
        lemma_padding_fault(y, p + 1);
    }
}

proof fn lemma_fault_from(y: Seq<u8>, i: nat)
    requires
        y.len() == OMEGA + K,
        i <= K,
    ensures
        fault_from(y, i) is None <==> (forall|r: int| i <= r < K ==> #[trigger] run_valid(y, r))
            && (forall|p: int| run_end(y, K - 1) <= p < OMEGA ==> #[trigger] y[p] == 0),
    decreases K - i,
{
    if i >= K {
        lemma_padding_fault(y, run_start(y, K as int));
    } else {
        lemma_fault_from(y, i + 1);
        let s = run_start(y, i as int);
        let e = run_end(y, i as int);
        lemma_order_fault(y, s, s, e);
        assert(run_valid(y, i as int) <==> s <= e <= OMEGA && order_fault(y, s, s, e) is None);
        if fault_from(y, i) is None {
            assert forall|r: int| i <= r < K implies #[trigger] run_valid(y, r) by {
                if r > i {
                    assert((i + 1) as int <= r);
                }
            }
        }
    }
}

/// A hint encoding decodes exactly if its runs lie in bounds, increase strictly,
/// and are followed by zeros.
pub proof fn lemma_hint_valid(y: Seq<u8>)
    ensures
        hint_fault(y) is None <==> hint_valid(y),
{
    if y.len() == OMEGA + K {
        lemma_fault_from(y, 0);
    }
}

/// The number of hints among the first `n` of a row.
pub open spec fn row_weight(row: Seq<bool>, n: nat) -> nat
    decreases n,
{
    if n == 0 {
        0
    } else {
        row_weight(row, (n - 1) as nat) + (if row[n - 1] {
            1nat
        } else {
            0nat
        })
    }
}

/// The number of hints in the first `n` rows.
pub open spec fn total_weight(h: Seq<Seq<bool>>, n: nat) -> nat
    decreases n,
{
    if n == 0 {
        0
    } else {
        total_weight(h, (n - 1) as nat) + row_weight(h[n - 1], h[n - 1].len())
    }
}

proof fn lemma_row_weight_set(row: Seq<bool>, j: int, n: nat)
    requires
        0 <= j < row.len(),
        n <= row.len(),
        !row[j],
    ensures
        row_weight(row.update(j, true), n) == row_weight(row, n) + (if j < n {
            1nat
        } else {
            0nat
        }),
    decreases n,
{
    if n > 0 {
        lemma_row_weight_set(row, j, (n - 1) as nat);
    }
}

proof fn lemma_row_weight_empty(row: Seq<bool>, n: nat)
    requires
        n <= row.len(),
        forall|j: int| 0 <= j < n ==> !#[trigger] row[j],
    ensures
        row_weight(row, n) == 0,
    decreases n,
{
    if n > 0 {
        lemma_row_weight_empty(row, (n - 1) as nat);
    }
}

proof fn lemma_increasing(y: Seq<u8>, from: int, p: int, q: int)
    requires
        from <= p < q,
        forall|r: int| from < r <= q ==> y[r - 1] < #[trigger] y[r],
    ensures
        y[p] < y[q],
    decreases q - p,
{
    assert(y[q - 1] < y[q]);
    if p < q - 1 {
        lemma_increasing(y, from, p, q - 1);
    }
}

/// A strictly increasing run sets as many hints as it is long.
proof fn lemma_run_weight(y: Seq<u8>, from: int, to: int)
    requires
        0 <= from <= to <= y.len(),
        forall|p: int| from < p < to ==> y[p - 1] < #[trigger] y[p],
    ensures
        row_weight(Seq::new(256, |j: int| in_run(y, from, to, j)), 256) == to - from,
    decreases to - from,
{
    let row = Seq::new(256, |j: int| in_run(y, from, to, j));
    if from == to {
        lemma_row_weight_empty(row, 256);
    } else {
        lemma_run_weight(y, from, to - 1);
        let prev = Seq::new(256, |j: int| in_run(y, from, to - 1, j));
        let idx = y[to - 1] as int;
        assert(!prev[idx]) by {
            if in_run(y, from, to - 1, idx) {
                let p = choose|p: int| from <= p < to - 1 && #[trigger] y[p] as int == idx;
                lemma_increasing(y, from, p, to - 1);
            }
        }
        assert forall|j: int| 0 <= j < 256 implies row[j] == prev.update(idx, true)[j] by {
            if in_run(y, from, to, j) && j != idx {
                let p = choose|p: int| from <= p < to && #[trigger] y[p] as int == j;
                assert(p != to - 1);
                assert(y[p] as int == j);
            }
            if in_run(y, from, to - 1, j) {
                let p = choose|p: int| from <= p < to - 1 && #[trigger] y[p] as int == j;
                assert(y[p] as int == j);
            }
            if j == idx {
                assert(y[to - 1] as int == j);
            }
        }
        assert(row =~= prev.update(idx, true));
        lemma_row_weight_set(prev, idx, 256);
    }
}

proof fn lemma_weight_to(y: Seq<u8>, n: nat)
    requires
        hint_valid(y),
        n <= K,
    ensures
        total_weight(hint_matrix(y), n) == run_start(y, n as int),
        run_start(y, n as int) <= OMEGA,
    decreases n,
{
    if n > 0 {
        let i = n - 1;
        lemma_weight_to(y, i as nat);
        assert(run_valid(y, i));
        lemma_run_weight(y, run_start(y, i), run_end(y, i));
        assert(hint_matrix(y)[i].len() == 256);
    }
}

/// The hints of a well-formed encoding number as many as its last run's end, at
/// most `OMEGA`.
pub proof fn lemma_hint_weight(y: Seq<u8>)
    requires
        hint_valid(y),
    ensures
        total_weight(hint_matrix(y), K as nat) == run_end(y, K - 1),
        total_weight(hint_matrix(y), K as nat) <= OMEGA,
{
    lemma_weight_to(y, K as nat);
}

/// The last entry of an increasing run is its largest.
proof fn lemma_run_last(y: Seq<u8>, from: int, to: int, j: int)
    requires
        from < to,
        forall|p: int| from < p < to ==> y[p - 1] < #[trigger] y[p],
        in_run(y, from, to, j),
    ensures
        j <= y[to - 1],
{
    let p = choose|p: int| from <= p < to && #[trigger] y[p] as int == j;
    if p < to - 1 {
        lemma_increasing(y, from, p, to - 1);
    }
}

/// A run without its last entry.
proof fn lemma_run_shorter(y: Seq<u8>, from: int, to: int, j: int)
    requires
        from < to,
        forall|p: int| from < p < to ==> y[p - 1] < #[trigger] y[p],
    ensures
        in_run(y, from, to - 1, j) <==> in_run(y, from, to, j) && j != y[to - 1],
{
    if in_run(y, from, to - 1, j) {
        let p = choose|p: int| from <= p < to - 1 && #[trigger] y[p] as int == j;
        assert(y[p] as int == j);
        lemma_increasing(y, from, p, to - 1);
    }
    if in_run(y, from, to, j) && j != y[to - 1] {
        let p = choose|p: int| from <= p < to && #[trigger] y[p] as int == j;
        assert(p != to - 1);
        assert(y[p] as int == j);
    }
}

/// Increasing runs at the same place with the same entries are the same.
proof fn lemma_run_unique(x: Seq<u8>, y: Seq<u8>, from: int, to: int)
    requires
        from <= to,
        forall|p: int| from < p < to ==> x[p - 1] < #[trigger] x[p],
        forall|p: int| from < p < to ==> y[p - 1] < #[trigger] y[p],
        forall|j: int|
            0 <= j < 256 ==> (#[trigger] in_run(x, from, to, j) <==> in_run(y, from, to, j)),
    ensures
        forall|p: int| from <= p < to ==> x[p] == #[trigger] y[p],
    decreases to - from,
{
    if from < to {
        let a = x[to - 1] as int;
        let b = y[to - 1] as int;
        assert(in_run(x, from, to, a));
        assert(in_run(y, from, to, b));
        assert(in_run(x, from, to, b));
        lemma_run_last(y, from, to, a);
        lemma_run_last(x, from, to, b);
        assert forall|j: int| 0 <= j < 256 implies (#[trigger] in_run(x, from, to - 1, j)
            <==> in_run(y, from, to - 1, j)) by {
            lemma_run_shorter(x, from, to, j);
            lemma_run_shorter(y, from, to, j);
            assert(in_run(x, from, to, j) <==> in_run(y, from, to, j));
        }
        lemma_run_unique(x, y, from, to - 1);
    }
}

proof fn lemma_runs_unique(x: Seq<u8>, y: Seq<u8>, n: nat)
    requires
        hint_valid(x),
        hint_valid(y),
        hint_matrix(x) == hint_matrix(y),
        n <= K,
    ensures
        run_start(x, n as int) == run_start(y, n as int),
        forall|p: int| 0 <= p < run_start(y, n as int) ==> x[p] == #[trigger] y[p],
    decreases n,
{
    lemma_weight_to(x, n);
    lemma_weight_to(y, n);
    if n > 0 {
        let i = n - 1;
        lemma_runs_unique(x, y, i as nat);
        assert(run_valid(x, i));
        assert(run_valid(y, i));
        let from = run_start(y, i);
        let to = run_end(y, i);
        assert(run_start(x, n as int) == run_end(x, i));
        assert(run_start(y, n as int) == to);
        assert forall|j: int| 0 <= j < 256 implies (#[trigger] in_run(x, from, to, j) <==> in_run(
            y,
            from,
            to,
            j,
        )) by {
            assert(hint_matrix(x)[i][j] == in_run(x, run_start(x, i), run_end(x, i), j));
            assert(hint_matrix(y)[i][j] == in_run(y, from, to, j));
        }
        lemma_run_unique(x, y, from, to);
    }
}

/// A hint has one encoding only: well-formed encodings of the same hint are the same.
pub proof fn lemma_hint_canonical(x: Seq<u8>, y: Seq<u8>)
    requires
        hint_valid(x),
        hint_valid(y),
        hint_matrix(x) == hint_matrix(y),
    ensures
        x == y,
{
    lemma_runs_unique(x, y, K as nat);
    assert forall|p: int| 0 <= p < x.len() implies x[p] == y[p] by {
        if p >= OMEGA {
            let i = p - OMEGA;
            lemma_runs_unique(x, y, (i + 1) as nat);
            assert(run_end(x, i) == run_end(y, i));
        }
    }
    assert(x =~= y);
}

} // verus!
