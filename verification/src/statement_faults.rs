//! Which fault each statement reports, and what it puts out.
use crate::mldsa::field;
use crate::mldsa::hints;
use crate::mldsa::poly;
use crate::mldsa::polyvec;
use crate::mldsa::rounding;
use crate::mldsa::transform;
use crate::mldsa_az_full_air;
use crate::mldsa_ct1_full_air;
use crate::mldsa_norm_check_air;
use crate::rows;
use crate::statement_batch;
use crate::statement_chain;
use crate::statement_chain::Entry;
use crate::statement_ring;
use crate::transcript;
use crate::transcript::{Circuit, Component, Input, StatementError};
use vstd::prelude::*;

verus! {

/// Whether every coefficient is a number from 0 to 8380416.
pub open spec fn all_residues(c: Seq<int>) -> bool {
    forall|i: int| 0 <= i < c.len() ==> 0 <= #[trigger] c[i] < 8380417
}

proof fn lemma_fault_found(c: Seq<int>, i: nat, k: nat)
    requires
        i <= k < c.len(),
        forall|q: int| i <= q < k ==> 0 <= #[trigger] c[q] < 8380417,
        !(0 <= c[k as int] < 8380417),
    ensures
        transcript::fault_from(c, i) == Some(k),
    decreases k - i,
{
    if i < k {
        assert(0 <= c[i as int] < 8380417);
        lemma_fault_found(c, i + 1, k);
    }
}

proof fn lemma_no_fault(c: Seq<int>, i: nat)
    requires
        all_residues(c),
    ensures
        transcript::fault_from(c, i) is None,
    decreases c.len() - i,
{
    if i < c.len() {
        lemma_no_fault(c, i + 1);
    }
}

/// A polynomial of residues has no fault; another one is refused with its first coefficient
/// that is no residue.
pub proof fn lemma_poly_fault(input: Input, row: Option<usize>, c: Seq<int>, k: int)
    ensures
        all_residues(c) ==> transcript::poly_error(input, row, c) is None,
        0 <= k < c.len() && !(0 <= c[k] < 8380417) && (forall|q: int|
            0 <= q < k ==> 0 <= #[trigger] c[q] < 8380417) ==> transcript::poly_error(input, row, c)
            == Some(
            StatementError::OutOfRange { input, row, index: k as usize, value: c[k] as i64 },
        ),
{
    if all_residues(c) {
        lemma_no_fault(c, 0);
    }
    if 0 <= k < c.len() && !(0 <= c[k] < 8380417) && (forall|q: int|
        0 <= q < k ==> 0 <= #[trigger] c[q] < 8380417) {
        lemma_fault_found(c, 0, k as nat);
    }
}

proof fn lemma_polys_found(input: Input, v: Seq<Seq<int>>, i: nat, j: nat, k: int)
    requires
        i <= j < v.len(),
        forall|q: int| i <= q < j ==> all_residues(#[trigger] v[q]),
        0 <= k < v[j as int].len(),
        !(0 <= v[j as int][k] < 8380417),
        forall|q: int| 0 <= q < k ==> 0 <= #[trigger] v[j as int][q] < 8380417,
    ensures
        transcript::polys_error_from(input, v, i) == Some(
            StatementError::OutOfRange {
                input,
                row: Some(j as usize),
                index: k as usize,
                value: v[j as int][k] as i64,
            },
        ),
    decreases j - i,
{
    lemma_poly_fault(input, Some(i as usize), v[i as int], k);
    if i < j {
        assert(all_residues(v[i as int]));
        lemma_polys_found(input, v, i + 1, j, k);
    }
}

proof fn lemma_polys_fine(input: Input, v: Seq<Seq<int>>, i: nat)
    requires
        forall|q: int| 0 <= q < v.len() ==> all_residues(#[trigger] v[q]),
    ensures
        transcript::polys_error_from(input, v, i) is None,
    decreases v.len() - i,
{
    if i < v.len() {
        assert(all_residues(v[i as int]));
        lemma_poly_fault(input, Some(i as usize), v[i as int], 0);
        lemma_polys_fine(input, v, i + 1);
    }
}

/// Polynomials of residues have no fault; others are refused with the first coefficient of
/// the first polynomial that is no residue.
pub proof fn lemma_polys_fault(input: Input, v: Seq<Seq<int>>, j: int, k: int)
    ensures
        (forall|q: int| 0 <= q < v.len() ==> all_residues(#[trigger] v[q]))
            ==> transcript::polys_error(input, v) is None,
        0 <= j < v.len() && 0 <= k < v[j].len() && !(0 <= v[j][k] < 8380417) && (forall|q: int|
            0 <= q < j ==> all_residues(#[trigger] v[q])) && (forall|q: int|
            0 <= q < k ==> 0 <= #[trigger] v[j][q] < 8380417) ==> transcript::polys_error(input, v)
            == Some(
            StatementError::OutOfRange {
                input,
                row: Some(j as usize),
                index: k as usize,
                value: v[j][k] as i64,
            },
        ),
{
    if forall|q: int| 0 <= q < v.len() ==> all_residues(#[trigger] v[q]) {
        lemma_polys_fine(input, v, 0);
    }
    if 0 <= j < v.len() && 0 <= k < v[j].len() && !(0 <= v[j][k] < 8380417) && (forall|q: int|
        0 <= q < j ==> all_residues(#[trigger] v[q])) && (forall|q: int|
        0 <= q < k ==> 0 <= #[trigger] v[j][q] < 8380417) {
        lemma_polys_found(input, v, 0, j as nat, k);
    }
}

proof fn lemma_pair_found(
    x: Input,
    a: Seq<int>,
    y: Input,
    b: Seq<int>,
    row: Option<usize>,
    i: nat,
    k: nat,
)
    requires
        i <= k < a.len(),
        a.len() == b.len(),
        forall|q: int| i <= q < k ==> 0 <= #[trigger] a[q] < 8380417,
        forall|q: int| i <= q < k ==> 0 <= #[trigger] b[q] < 8380417,
        !(0 <= a[k as int] < 8380417) || !(0 <= b[k as int] < 8380417),
    ensures
        transcript::pair_error_from(x, a, y, b, row, i) == Some(
            if !(0 <= a[k as int] < 8380417) {
                StatementError::OutOfRange {
                    input: x,
                    row,
                    index: k as usize,
                    value: a[k as int] as i64,
                }
            } else {
                StatementError::OutOfRange {
                    input: y,
                    row,
                    index: k as usize,
                    value: b[k as int] as i64,
                }
            },
        ),
    decreases k - i,
{
    if i < k {
        assert(0 <= a[i as int] < 8380417 && 0 <= b[i as int] < 8380417);
        lemma_pair_found(x, a, y, b, row, i + 1, k);
    }
}

proof fn lemma_pair_fine(
    x: Input,
    a: Seq<int>,
    y: Input,
    b: Seq<int>,
    row: Option<usize>,
    i: nat,
)
    requires
        a.len() == b.len(),
        all_residues(a),
        all_residues(b),
    ensures
        transcript::pair_error_from(x, a, y, b, row, i) is None,
    decreases a.len() - i,
{
    if i < a.len() {
        assert(0 <= a[i as int] < 8380417 && 0 <= b[i as int] < 8380417);
        lemma_pair_fine(x, a, y, b, row, i + 1);
    }
}

/// Two polynomials of residues have no fault; others are refused with the first place at
/// which one of them has no residue, the first polynomial before the second.
pub proof fn lemma_pair_fault(
    x: Input,
    a: Seq<int>,
    y: Input,
    b: Seq<int>,
    row: Option<usize>,
    k: int,
)
    requires
        a.len() == b.len(),
    ensures
        all_residues(a) && all_residues(b) ==> transcript::pair_error_from(x, a, y, b, row, 0)
            is None,
        0 <= k < a.len() && (forall|q: int| 0 <= q < k ==> 0 <= #[trigger] a[q] < 8380417) && (
        forall|q: int| 0 <= q < k ==> 0 <= #[trigger] b[q] < 8380417) ==> {
            &&& !(0 <= a[k] < 8380417) ==> transcript::pair_error_from(x, a, y, b, row, 0) == Some(
                StatementError::OutOfRange { input: x, row, index: k as usize, value: a[k] as i64 },
            )
            &&& 0 <= a[k] < 8380417 && !(0 <= b[k] < 8380417) ==> transcript::pair_error_from(
                x,
                a,
                y,
                b,
                row,
                0,
            ) == Some(
                StatementError::OutOfRange { input: y, row, index: k as usize, value: b[k] as i64 },
            )
        },
{
    if all_residues(a) && all_residues(b) {
        lemma_pair_fine(x, a, y, b, row, 0);
    }
    if 0 <= k < a.len() && (forall|q: int| 0 <= q < k ==> 0 <= #[trigger] a[q] < 8380417) && (
    forall|q: int| 0 <= q < k ==> 0 <= #[trigger] b[q] < 8380417) && (!(0 <= a[k] < 8380417) || !(0
        <= b[k] < 8380417)) {
        lemma_pair_found(x, a, y, b, row, 0, k as nat);
    }
}

proof fn lemma_rows_from(a: Seq<Seq<int>>, z: Seq<Seq<int>>, i: nat, j: nat)
    requires
        a.len() == 5,
        z.len() == 5,
        i <= j < 5,
        forall|q: int| 0 <= q < 5 ==> (#[trigger] a[q]).len() == z[q].len(),
        forall|q: int| i <= q < j ==> all_residues(#[trigger] a[q]) && all_residues(z[q]),
        transcript::pair_error_from(
            Input::ARow,
            a[j as int],
            Input::ZHat,
            z[j as int],
            Some(j as usize),
            0,
        ) is Some,
    ensures
        statement_batch::rows_error_from(a, z, i) == transcript::pair_error_from(
            Input::ARow,
            a[j as int],
            Input::ZHat,
            z[j as int],
            Some(j as usize),
            0,
        ),
    decreases j - i,
{
    if i < j {
        assert(all_residues(a[i as int]) && all_residues(z[i as int]));
        lemma_pair_fine(
            Input::ARow,
            a[i as int],
            Input::ZHat,
            z[i as int],
            Some(i as usize),
            0,
        );
        lemma_rows_from(a, z, i + 1, j);
    }
}

/// Inputs pass if and only if all their coefficients are residues.
pub proof fn lemma_passed(x: Input, row: Option<usize>, a: Seq<int>, y: Input, b: Seq<int>)
    requires
        a.len() == b.len(),
    ensures
        transcript::poly_error(x, row, a) is None <==> all_residues(a),
        transcript::pair_error_from(x, a, y, b, row, 0) is None <==> all_residues(a)
            && all_residues(b),
{
    lemma_poly_fault(x, row, a, 0);
    lemma_pair_fault(x, a, y, b, row, 0);
    if !all_residues(a) {
        let k = choose|k: int| 0 <= k < a.len() && !(0 <= #[trigger] a[k] < 8380417);
        lemma_fault_reaches(a, 0, k as nat);
    }
    if !(all_residues(a) && all_residues(b)) {
        lemma_pair_searched(x, a, y, b, row);
    }
}

/// Lists of polynomials pass if and only if all their coefficients are residues.
pub proof fn lemma_list_passed(x: Input, v: Seq<Seq<int>>)
    ensures
        transcript::polys_error(x, v) is None <==> forall|q: int|
            0 <= q < v.len() ==> all_residues(#[trigger] v[q]),
{
    lemma_polys_fault(x, v, 0, 0);
    if !(forall|q: int| 0 <= q < v.len() ==> all_residues(#[trigger] v[q])) {
        let q = choose|q: int| 0 <= q < v.len() && !all_residues(#[trigger] v[q]);
        lemma_polys_reaches(x, v, 0, q as nat);
    }
}

/// Five pairs of polynomials are searched in order for the first place with no residue.
pub proof fn lemma_rows_fault(a: Seq<Seq<int>>, z: Seq<Seq<int>>, j: int)
    requires
        a.len() == 5,
        z.len() == 5,
        forall|q: int| 0 <= q < 5 ==> (#[trigger] a[q]).len() == z[q].len(),
        0 <= j < 5,
        forall|q: int| 0 <= q < j ==> all_residues(#[trigger] a[q]) && all_residues(z[q]),
    ensures
        !(all_residues(a[j]) && all_residues(z[j])) ==> statement_batch::rows_error_from(a, z, 0)
            is Some && statement_batch::rows_error_from(a, z, 0) == transcript::pair_error_from(
            Input::ARow,
            a[j],
            Input::ZHat,
            z[j],
            Some(j as usize),
            0,
        ),
        j == 4 && all_residues(a[4]) && all_residues(z[4]) ==> statement_batch::rows_error_from(
            a,
            z,
            0,
        ) is None,
{
    if !(all_residues(a[j]) && all_residues(z[j])) {
        lemma_pair_searched(Input::ARow, a[j], Input::ZHat, z[j], Some(j as usize));
        lemma_rows_from(a, z, 0, j as nat);
    } else if j == 4 {
        assert(all_residues(a[0]) && all_residues(z[0]));
        assert(all_residues(a[1]) && all_residues(z[1]));
        assert(all_residues(a[2]) && all_residues(z[2]));
        assert(all_residues(a[3]) && all_residues(z[3]));
        lemma_pair_fine(Input::ARow, a[0], Input::ZHat, z[0], Some(0), 0);
        lemma_pair_fine(Input::ARow, a[1], Input::ZHat, z[1], Some(1), 0);
        lemma_pair_fine(Input::ARow, a[2], Input::ZHat, z[2], Some(2), 0);
        lemma_pair_fine(Input::ARow, a[3], Input::ZHat, z[3], Some(3), 0);
        lemma_pair_fine(Input::ARow, a[4], Input::ZHat, z[4], Some(4), 0);
        assert(statement_batch::rows_error_from(a, z, 5) is None);
        assert(statement_batch::rows_error_from(a, z, 4) is None);
        assert(statement_batch::rows_error_from(a, z, 3) is None);
        assert(statement_batch::rows_error_from(a, z, 2) is None);
        assert(statement_batch::rows_error_from(a, z, 1) is None);
    }
}

proof fn lemma_pair_searched(
    x: Input,
    a: Seq<int>,
    y: Input,
    b: Seq<int>,
    row: Option<usize>,
)
    requires
        a.len() == b.len(),
        !(all_residues(a) && all_residues(b)),
    ensures
        transcript::pair_error_from(x, a, y, b, row, 0) is Some,
{
    let k = choose|k: int|
        0 <= k < a.len() && (!(0 <= #[trigger] a[k] < 8380417) || !(0 <= b[k] < 8380417));
    assert(exists|k: int|
        0 <= k < a.len() && (!(0 <= #[trigger] a[k] < 8380417) || !(0 <= b[k] < 8380417))) by {
        if !all_residues(a) {
        } else {
            let q = choose|q: int| 0 <= q < b.len() && !(0 <= #[trigger] b[q] < 8380417);
            assert(!(0 <= b[q] < 8380417));
            assert(0 <= a[q] < 8380417);
        }
    }
    lemma_pair_reaches(x, a, y, b, row, 0, k as nat);
}

proof fn lemma_pair_reaches(
    x: Input,
    a: Seq<int>,
    y: Input,
    b: Seq<int>,
    row: Option<usize>,
    i: nat,
    k: nat,
)
    requires
        i <= k < a.len(),
        a.len() == b.len(),
        !(0 <= a[k as int] < 8380417) || !(0 <= b[k as int] < 8380417),
    ensures
        transcript::pair_error_from(x, a, y, b, row, i) is Some,
    decreases k - i,
{
    if i < k {
        lemma_pair_reaches(x, a, y, b, row, i + 1, k);
    }
}

/// The order in which the inputs of the batch statements are searched: a matrix must have
/// thirty polynomials, a challenge is searched before what it multiplies, the left side of a
/// difference before the right one, and a list must not be empty.
pub proof fn lemma_search_order(
    a: Seq<Seq<int>>,
    c: Seq<int>,
    t1: Seq<Seq<int>>,
    az: Seq<Seq<int>>,
    ct1: Seq<Seq<int>>,
    v: Seq<Seq<int>>,
)
    ensures
        a.len() != 30 ==> statement_batch::matrix_error(a) == Some(
            StatementError::MatrixSize { got: a.len() as usize },
        ),
        a.len() == 30 ==> statement_batch::matrix_error(a) == transcript::polys_error(
            Input::AHat,
            a,
        ),
        all_residues(c) ==> statement_batch::ct1_error(c, t1) == transcript::polys_error(
            Input::T1Hat,
            t1,
        ),
        !all_residues(c) ==> statement_batch::ct1_error(c, t1) is Some
            && statement_batch::ct1_error(c, t1) == transcript::poly_error(Input::CHat, None, c),
        (forall|q: int| 0 <= q < az.len() ==> all_residues(#[trigger] az[q]))
            ==> statement_batch::wprime_error(az, ct1) == transcript::polys_error(Input::Ct1, ct1),
        (exists|q: int| 0 <= q < az.len() && !all_residues(#[trigger] az[q]))
            ==> statement_batch::wprime_error(az, ct1) is Some && statement_batch::wprime_error(
            az,
            ct1,
        ) == transcript::polys_error(Input::Az, az),
        v.len() == 0 ==> statement_batch::list_error(v) == Some(StatementError::Empty),
        v.len() > 0 ==> statement_batch::list_error(v) == transcript::polys_error(Input::Polys, v),
{
    lemma_poly_fault(Input::CHat, None, c, 0);
    if !all_residues(c) {
        let k = choose|k: int| 0 <= k < c.len() && !(0 <= #[trigger] c[k] < 8380417);
        lemma_fault_reaches(c, 0, k as nat);
    }
    lemma_polys_fault(Input::Az, az, 0, 0);
    if exists|q: int| 0 <= q < az.len() && !all_residues(#[trigger] az[q]) {
        let q = choose|q: int| 0 <= q < az.len() && !all_residues(#[trigger] az[q]);
        lemma_polys_reaches(Input::Az, az, 0, q as nat);
    }
}

proof fn lemma_fault_reaches(c: Seq<int>, i: nat, k: nat)
    requires
        i <= k < c.len(),
        !(0 <= c[k as int] < 8380417),
    ensures
        transcript::fault_from(c, i) is Some,
    decreases k - i,
{
    if i < k {
        lemma_fault_reaches(c, i + 1, k);
    }
}

proof fn lemma_polys_reaches(input: Input, v: Seq<Seq<int>>, i: nat, j: nat)
    requires
        i <= j < v.len(),
        !all_residues(v[j as int]),
    ensures
        transcript::polys_error_from(input, v, i) is Some,
    decreases j - i,
{
    if i < j {
        lemma_polys_reaches(input, v, i + 1, j);
    } else {
        let c = v[j as int];
        let k = choose|k: int| 0 <= k < c.len() && !(0 <= #[trigger] c[k] < 8380417);
        lemma_fault_reaches(c, 0, k as nat);
    }
}

proof fn lemma_hint_found(h: Seq<Seq<bool>>, i: nat, k: nat)
    requires
        i <= k < h.len(),
        forall|q: int| i <= q < k ==> (#[trigger] h[q]).len() == 256,
        h[k as int].len() != 256,
    ensures
        statement_batch::hint_error_from(h, i) == Some(
            StatementError::HintColumns { index: k as usize, got: h[k as int].len() as usize },
        ),
    decreases k - i,
{
    if i < k {
        assert(h[i as int].len() == 256);
        lemma_hint_found(h, i + 1, k);
    }
}

proof fn lemma_hint_fine(h: Seq<Seq<bool>>, i: nat)
    requires
        forall|q: int| 0 <= q < h.len() ==> (#[trigger] h[q]).len() == 256,
    ensures
        statement_batch::hint_error_from(h, i) is None,
    decreases h.len() - i,
{
    if i < h.len() {
        assert(h[i as int].len() == 256);
        lemma_hint_fine(h, i + 1);
    }
}

/// A hint must have six rows, and each of them 256 bits; the first row that has not is
/// reported.
pub proof fn lemma_hint_shape_fault(h: Seq<Seq<bool>>, k: int)
    ensures
        h.len() != 6 ==> statement_batch::hint_error(h) == Some(
            StatementError::HintRows { got: h.len() as usize },
        ),
        h.len() == 6 && (forall|q: int| 0 <= q < 6 ==> (#[trigger] h[q]).len() == 256)
            ==> statement_batch::hint_error(h) is None,
        h.len() == 6 && 0 <= k < 6 && (forall|q: int| 0 <= q < k ==> (#[trigger] h[q]).len() == 256)
            && h[k].len() != 256 ==> statement_batch::hint_error(h) == Some(
            StatementError::HintColumns { index: k as usize, got: h[k].len() as usize },
        ),
{
    if h.len() == 6 && (forall|q: int| 0 <= q < 6 ==> (#[trigger] h[q]).len() == 256) {
        lemma_hint_fine(h, 0);
    }
    if h.len() == 6 && 0 <= k < 6 && (forall|q: int| 0 <= q < k ==> (#[trigger] h[q]).len() == 256)
        && h[k].len() != 256 {
        lemma_hint_found(h, 0, k as nat);
    }
}

/// A chain or a tree is refused without leaves, and with more than `2^28` rows.
pub proof fn lemma_leaves_fault(count: nat, log_size: u32)
    ensures
        count == 0 ==> statement_chain::leaves_error(count, log_size) == Some(
            StatementError::Empty,
        ),
        count > 0 && log_size > 28 ==> statement_chain::leaves_error(count, log_size) == Some(
            StatementError::TooLarge { log_size },
        ),
        count > 0 && log_size <= 28 ==> statement_chain::leaves_error(count, log_size) is None,
{
}

/// The leaves of a batch are those of its valid signatures, in order: where `at` lists the
/// places of all valid signatures, leaf `k` is the one of entry `at[k]`.
pub proof fn lemma_leaves_listed(entries: Seq<Entry>, n: nat, at: Seq<int>)
    requires
        n <= entries.len(),
        forall|k: int| 0 <= k < at.len() ==> 0 <= #[trigger] at[k] < n,
        forall|j: int, k: int| 0 <= j < k < at.len() ==> #[trigger] at[j] < #[trigger] at[k],
        forall|i: int|
            0 <= i < n ==> (statement_chain::entry_valid(#[trigger] entries[i]) <==> at.contains(
                i,
            )),
    ensures
        statement_chain::valid_leaves(entries, n) == Seq::new(
            at.len(),
            |k: int| statement_chain::signature_leaf(entries[at[k]].0@, entries[at[k]].1@),
        ),
    decreases n,
{
    let all = Seq::new(
        at.len(),
        |k: int| statement_chain::signature_leaf(entries[at[k]].0@, entries[at[k]].1@),
    );
    if n == 0 {
        if at.len() > 0 {
            assert(0 <= at[0] < n);
        }
        assert(statement_chain::valid_leaves(entries, n) =~= all);
    } else {
        let m = (n - 1) as nat;
        let e = entries[n - 1];
        if statement_chain::entry_valid(e) {
            assert(at.contains(n - 1));
            let k = choose|k: int| 0 <= k < at.len() && at[k] == n - 1;
            if k < at.len() - 1 {
                assert(at[k] < at[at.len() - 1]);
            }
            let b = at.drop_last();
            assert forall|i: int| 0 <= i < m implies (statement_chain::entry_valid(
                #[trigger] entries[i],
            ) <==> b.contains(i)) by {
                if at.contains(i) {
                    let q = choose|q: int| 0 <= q < at.len() && at[q] == i;
                    assert(b[q] == i);
                }
                if b.contains(i) {
                    let q = choose|q: int| 0 <= q < b.len() && b[q] == i;
                    assert(at[q] == i);
                }
            }
            assert forall|q: int| 0 <= q < b.len() implies 0 <= #[trigger] b[q] < m by {
                assert(at[q] < at[at.len() - 1]);
            }
            lemma_leaves_listed(entries, m, b);
        } else {
            assert(!at.contains(n - 1));
            assert forall|q: int| 0 <= q < at.len() implies 0 <= #[trigger] at[q] < m by {
                assert(at.contains(at[q]));
            }
            lemma_leaves_listed(entries, m, at);
        }
        assert(statement_chain::valid_leaves(entries, n) =~= all);
    }
}

/// What the statements put out, at each place: the size of each coefficient, the hinted high
/// part of each coefficient, and the products with the challenge, modulo 8380417.
pub proof fn lemma_outputs(
    z: Seq<Seq<int>>,
    w: Seq<Seq<int>>,
    h: Seq<Seq<bool>>,
    c: Seq<int>,
    t1: Seq<Seq<int>>,
    j: int,
    p: int,
)
    requires
        0 <= p < 256,
    ensures
        0 <= j < z.len() && z[j].len() == 256 && 0 <= z[j][p] < 8380417 ==> {
            let out = statement_batch::all_norms(z);
            &&& out.len() == z.len()
            &&& out[j].len() == 256
            &&& out[j] == mldsa_norm_check_air::norms(z[j])
            &&& out[j][p] == (if z[j][p] <= 4190208 {
                z[j][p]
            } else {
                8380417 - z[j][p]
            })
        },
        0 <= j < w.len() ==> {
            let out = polyvec::vec_use_hint(w, h);
            &&& out.len() == w.len()
            &&& out[j].len() == 256
            &&& out[j][p] == rounding::use_hint(h[j][p], w[j][p])
            &&& out[j] == statement_ring::hinted(w[j], h[j])
        },
        0 <= j < t1.len() ==> {
            let out = mldsa_ct1_full_air::products(c, t1);
            &&& out.len() == t1.len()
            &&& out[j].len() == 256
            &&& out[j][p] == (c[p] * t1[j][p]) % 8380417
        },
{
    if 0 <= j < w.len() {
        assert(polyvec::vec_use_hint(w, h)[j] =~= statement_ring::hinted(w[j], h[j]));
    }
}

/// Vectors of transforms, inverse transforms, sums and differences are taken polynomial by
/// polynomial.
pub proof fn lemma_vector_outputs(a: Seq<Seq<int>>, b: Seq<Seq<int>>, j: int, p: int)
    requires
        0 <= j < a.len(),
        0 <= p < 256,
    ensures
        polyvec::vec_ntt(a).len() == a.len(),
        polyvec::vec_ntt(a)[j] == transform::ntt_of(a[j]),
        polyvec::vec_intt(a).len() == a.len(),
        polyvec::vec_intt(a)[j] == transform::intt_of(a[j]),
        polyvec::vec_add(a, b).len() == a.len(),
        polyvec::vec_add(a, b)[j].len() == 256,
        polyvec::vec_add(a, b)[j][p] == (a[j][p] + b[j][p]) % 8380417,
        polyvec::vec_sub(a, b).len() == a.len(),
        polyvec::vec_sub(a, b)[j].len() == 256,
        polyvec::vec_sub(a, b)[j][p] == (a[j][p] - b[j][p]) % 8380417,
{
}

/// A matrix given as thirty polynomials has six rows of five.
pub proof fn lemma_matrix_rows(a: Seq<Seq<int>>, i: int, j: int)
    requires
        a.len() == 30,
        0 <= i < 6,
        0 <= j < 5,
    ensures
        mldsa_az_full_air::matrix_of(a).len() == 6,
        mldsa_az_full_air::matrix_of(a)[i].len() == 5,
        mldsa_az_full_air::matrix_of(a)[i][j] == a[5 * i + j],
{
}

proof fn lemma_row_weight_changed(a: Seq<bool>, k: int, n: nat)
    requires
        0 <= k < a.len(),
        !a[k],
        n <= a.len(),
    ensures
        hints::row_weight(a.update(k, true), n) == hints::row_weight(a, n) + (if k < n {
            1int
        } else {
            0
        }),
    decreases n,
{
    if n > 0 {
        lemma_row_weight_changed(a, k, (n - 1) as nat);
    }
}

proof fn lemma_total_weight_changed(a: Seq<Seq<bool>>, j: int, k: int, n: nat)
    requires
        0 <= j < a.len(),
        0 <= k < a[j].len(),
        !a[j][k],
        n <= a.len(),
    ensures
        hints::total_weight(a.update(j, a[j].update(k, true)), n) == hints::total_weight(a, n) + (
        if j < n {
            1int
        } else {
            0
        }),
    decreases n,
{
    if n > 0 {
        lemma_total_weight_changed(a, j, k, (n - 1) as nat);
        lemma_row_weight_changed(a[j], k, a[j].len());
    }
}

proof fn lemma_row_weight_none(a: Seq<bool>, n: nat)
    requires
        n <= a.len(),
        forall|k: int| 0 <= k < a.len() ==> !#[trigger] a[k],
    ensures
        hints::row_weight(a, n) == 0,
    decreases n,
{
    if n > 0 {
        lemma_row_weight_none(a, (n - 1) as nat);
    }
}

proof fn lemma_total_weight_none(a: Seq<Seq<bool>>, n: nat)
    requires
        n <= a.len(),
        forall|j: int, k: int| 0 <= j < a.len() && 0 <= k < a[j].len() ==> !#[trigger] a[j][k],
    ensures
        hints::total_weight(a, n) == 0,
    decreases n,
{
    if n > 0 {
        lemma_total_weight_none(a, (n - 1) as nat);
        lemma_row_weight_none(a[n - 1], a[n - 1].len());
    }
}

/// A hint without a bit weighs nothing, and setting a bit adds exactly one to the weight.
pub proof fn lemma_weight_counts_bits(h: Seq<Seq<bool>>, j: int, k: int)
    ensures
        (forall|j: int, k: int| 0 <= j < h.len() && 0 <= k < h[j].len() ==> !#[trigger] h[j][k])
            ==> hints::total_weight(h, h.len()) == 0,
        0 <= j < h.len() && 0 <= k < h[j].len() && !h[j][k] ==> hints::total_weight(
            h.update(j, h[j].update(k, true)),
            h.len(),
        ) == hints::total_weight(h, h.len()) + 1,
{
    if forall|j: int, k: int| 0 <= j < h.len() && 0 <= k < h[j].len() ==> !#[trigger] h[j][k] {
        lemma_total_weight_none(h, h.len());
    }
    if 0 <= j < h.len() && 0 <= k < h[j].len() && !h[j][k] {
        lemma_total_weight_changed(h, j, k, h.len());
    }
}

/// The logarithms of the column sizes of a list of components are those of its parts, one
/// after the other; those of one component are equal and as many as its circuit has columns.
pub proof fn lemma_column_sizes(a: Seq<Component>, b: Seq<Component>, c: Component)
    requires
        transcript::width(c.circuit) is Some,
        transcript::preprocessed_width(c.circuit) is Some,
    ensures
        transcript::column_sizes(a + b, (a + b).len()) == transcript::column_sizes(a, a.len())
            + transcript::column_sizes(b, b.len()),
        transcript::preprocessed_sizes(a + b, (a + b).len()) == transcript::preprocessed_sizes(
            a,
            a.len(),
        ) + transcript::preprocessed_sizes(b, b.len()),
        transcript::column_sizes(seq![c], 1) == Seq::new(
            transcript::width(c.circuit)->Some_0 as nat,
            |i: int| c.log_n_rows,
        ),
        transcript::preprocessed_sizes(seq![c], 1) == Seq::new(
            transcript::preprocessed_width(c.circuit)->Some_0 as nat,
            |i: int| c.log_n_rows,
        ),
{
    lemma_sizes_concat(a, b, b.len());
    assert(transcript::column_sizes(seq![c], 0) =~= seq![]);
    assert(transcript::preprocessed_sizes(seq![c], 0) =~= seq![]);
    assert(transcript::column_sizes(seq![c], 1) =~= Seq::new(
        transcript::width(c.circuit)->Some_0 as nat,
        |i: int| c.log_n_rows,
    ));
    assert(transcript::preprocessed_sizes(seq![c], 1) =~= Seq::new(
        transcript::preprocessed_width(c.circuit)->Some_0 as nat,
        |i: int| c.log_n_rows,
    ));
}

proof fn lemma_sizes_prefix(a: Seq<Component>, b: Seq<Component>, n: nat)
    requires
        n <= a.len(),
    ensures
        transcript::column_sizes(a + b, n) == transcript::column_sizes(a, n),
        transcript::preprocessed_sizes(a + b, n) == transcript::preprocessed_sizes(a, n),
    decreases n,
{
    if n > 0 {
        lemma_sizes_prefix(a, b, (n - 1) as nat);
        assert((a + b)[n - 1] == a[n - 1]);
    }
}

proof fn lemma_sizes_concat(a: Seq<Component>, b: Seq<Component>, n: nat)
    requires
        n <= b.len(),
    ensures
        transcript::column_sizes(a + b, a.len() + n) == transcript::column_sizes(a, a.len())
            + transcript::column_sizes(b, n),
        transcript::preprocessed_sizes(a + b, a.len() + n) == transcript::preprocessed_sizes(
            a,
            a.len(),
        ) + transcript::preprocessed_sizes(b, n),
    decreases n,
{
    if n == 0 {
        lemma_sizes_prefix(a, b, a.len());
        assert(transcript::column_sizes(a, a.len()) + transcript::column_sizes(b, 0)
            =~= transcript::column_sizes(a, a.len()));
        assert(transcript::preprocessed_sizes(a, a.len()) + transcript::preprocessed_sizes(b, 0)
            =~= transcript::preprocessed_sizes(a, a.len()));
    } else {
        let m = (n - 1) as nat;
        lemma_sizes_concat(a, b, m);
        assert((a + b)[a.len() + n - 1] == b[n - 1]);
        assert((a.len() + n - 1) as nat == a.len() + m);
        assert(transcript::column_sizes(a + b, a.len() + n) =~= transcript::column_sizes(a, a.len())
            + transcript::column_sizes(b, n));
        assert(transcript::preprocessed_sizes(a + b, a.len() + n)
            =~= transcript::preprocessed_sizes(a, a.len()) + transcript::preprocessed_sizes(b, n));
    }
}

} // verus!
