//! What a prover's call and a verifier's call of each statement come to together.
use crate::commitment;
use crate::mldsa::hints;
use crate::mldsa::poly;
use crate::mldsa::polyvec;
use crate::mldsa::rounding;
use crate::mldsa::transform;
use crate::mldsa::values;
use crate::mldsa_az_full_air;
use crate::mldsa_ct1_full_air;
use crate::mldsa_hint_weight_air;
use crate::mldsa_norm_check_air;
use crate::rows;
use crate::statement_batch;
use crate::statement_chain;
use crate::statement_content;
use crate::statement_faults;
use crate::statement_ring;
use crate::transcript;
use crate::transcript::{Circuit, Component, Input, Replay, StatementError, Task};
use vstd::prelude::*;
use vstd::string::*;
use vstd::utf8::*;

verus! {

/// Whether a prover's task and a verifier's replay hold the same: no seed, one component, the
/// fingerprint of `out` as the one message, and nothing lifted.
pub open spec fn bound_to_output(
    task: Task,
    rep: Result<Replay, StatementError>,
    circuit: Circuit,
    log_n_rows: u32,
    out: Seq<int>,
) -> bool {
    &&& task.transcript@.seeds == Seq::<Seq<u32>>::empty()
    &&& task.transcript@.components == seq![Component { circuit, log_n_rows }]
    &&& task.transcript@.messages == seq![commitment::fingerprint(out)]
    &&& task.log_size == log_n_rows
    &&& task.traces@.len() == 1
    &&& rep is Ok
    &&& rep->Ok_0.transcript@ == task.transcript@
    &&& rep->Ok_0.lifting is None
}

/// Whether a prover's task and a verifier's replay hold the same: a seed where there is one,
/// one component, the fingerprints of `input` and `out`, and nothing lifted.
pub open spec fn bound_to_both(
    task: Task,
    rep: Result<Replay, StatementError>,
    seed: Seq<u8>,
    circuit: Circuit,
    log_n_rows: u32,
    input: Seq<int>,
    out: Seq<int>,
) -> bool {
    &&& task.transcript@.seeds == (if seed.len() == 0 {
        seq![]
    } else {
        seq![commitment::seed_words(seed)]
    })
    &&& task.transcript@.components == seq![Component { circuit, log_n_rows }]
    &&& task.transcript@.messages == seq![
        commitment::fingerprint(input),
        commitment::fingerprint(out),
    ]
    &&& task.log_size == log_n_rows
    &&& task.preprocessed@.len() == 0
    &&& task.traces@.len() == 1
    &&& rep is Ok
    &&& rep->Ok_0.transcript@ == task.transcript@
    &&& rep->Ok_0.lifting is None
}

proof fn lemma_output_pair(
    task: Task,
    made: Seq<char>,
    circuit: Circuit,
    log_n_rows: u32,
    out: Seq<int>,
    trace: Option<Seq<Seq<u32>>>,
    text: &str,
    rep: Result<Replay, StatementError>,
)
    requires
        statement_ring::commits_to(task, made, Component { circuit, log_n_rows }, out, trace),
        text@ == made,
        statement_ring::replays_output(
            rep,
            text.spec_bytes(),
            Component { circuit, log_n_rows },
        ),
    ensures
        bound_to_output(task, rep, circuit, log_n_rows, out),
{
    let c = Component { circuit, log_n_rows };
    statement_content::lemma_output_task(task, made, c, out, trace);
    statement_ring::lemma_commitment_read_back(out);
}

proof fn lemma_io_pair(
    task: Task,
    made: Seq<char>,
    seed: Seq<u8>,
    circuit: Circuit,
    log_n_rows: u32,
    input: Seq<int>,
    out: Seq<int>,
    trace: Option<Seq<Seq<u32>>>,
    text: &str,
    rep: Result<Replay, StatementError>,
)
    requires
        statement_batch::commits_to_io(
            task,
            made,
            seed,
            Component { circuit, log_n_rows },
            input,
            out,
            trace,
        ),
        text@ == made,
        statement_batch::replays_io(
            rep,
            text.spec_bytes(),
            seed,
            Component { circuit, log_n_rows },
            input,
        ),
    ensures
        bound_to_both(task, rep, seed, circuit, log_n_rows, input, out),
{
    let c = Component { circuit, log_n_rows };
    statement_content::lemma_io_task(task, made, seed, c, input, out, trace);
    statement_ring::lemma_commitment_read_back(out);
}

/// The product of two transforms, place by place, which the verifier replays.
pub proof fn lemma_poly_mul_calls(
    a: &[i64; 256],
    b: &[i64; 256],
    res: Result<(Task, String, [i64; 256]), StatementError>,
    text: &str,
    rep: Result<Replay, StatementError>,
    i: int,
)
    requires
        call_ensures(statement_ring::prove_poly_mul, (a, b), res),
        call_ensures(statement_ring::verify_poly_mul, (text,), rep),
        0 <= i < 256,
    ensures
        res is Ok <==> statement_faults::all_residues(transform::ints(a@))
            && statement_faults::all_residues(transform::ints(b@)),
        res is Ok ==> res->Ok_0.2@[i] as int == (a@[i] * b@[i]) % 8380417,
        res is Ok && text@ == res->Ok_0.1@ ==> bound_to_output(
            res->Ok_0.0,
            rep,
            Circuit::PolyMul,
            8,
            transform::ints(res->Ok_0.2@),
        ),
{
    let x = transform::ints(a@);
    let y = transform::ints(b@);
    statement_faults::lemma_passed(Input::A, None, x, Input::B, y);
    if res is Ok {
        let out = transform::ints(res->Ok_0.2@);
        values::lemma_entrywise(x, y, 0, i);
        assert(out[i] == res->Ok_0.2@[i]);
        if text@ == res->Ok_0.1@ {
            lemma_output_pair(
                res->Ok_0.0,
                res->Ok_0.1@,
                Circuit::PolyMul,
                8,
                out,
                None,
                text,
                rep,
            );
        }
    }
}

/// The sum of two polynomials, place by place, which the verifier replays.
pub proof fn lemma_poly_add_calls(
    a: &[i64; 256],
    b: &[i64; 256],
    res: Result<(Task, String, [i64; 256]), StatementError>,
    text: &str,
    rep: Result<Replay, StatementError>,
    i: int,
)
    requires
        call_ensures(statement_ring::prove_poly_add, (a, b), res),
        call_ensures(statement_ring::verify_poly_add, (text,), rep),
        0 <= i < 256,
    ensures
        res is Ok <==> statement_faults::all_residues(transform::ints(a@))
            && statement_faults::all_residues(transform::ints(b@)),
        res is Ok ==> res->Ok_0.2@[i] as int == (a@[i] + b@[i]) % 8380417,
        res is Ok && text@ == res->Ok_0.1@ ==> bound_to_output(
            res->Ok_0.0,
            rep,
            Circuit::PolyAdd,
            8,
            transform::ints(res->Ok_0.2@),
        ),
{
    let x = transform::ints(a@);
    let y = transform::ints(b@);
    statement_faults::lemma_passed(Input::A, None, x, Input::B, y);
    if res is Ok {
        let out = transform::ints(res->Ok_0.2@);
        values::lemma_entrywise(x, y, 0, i);
        assert(out[i] == res->Ok_0.2@[i]);
        if text@ == res->Ok_0.1@ {
            lemma_output_pair(
                res->Ok_0.0,
                res->Ok_0.1@,
                Circuit::PolyAdd,
                8,
                out,
                None,
                text,
                rep,
            );
        }
    }
}

/// The difference of two polynomials, place by place, which the verifier replays.
pub proof fn lemma_poly_sub_calls(
    a: &[i64; 256],
    b: &[i64; 256],
    res: Result<(Task, String, [i64; 256]), StatementError>,
    text: &str,
    rep: Result<Replay, StatementError>,
    i: int,
)
    requires
        call_ensures(statement_ring::prove_poly_sub, (a, b), res),
        call_ensures(statement_ring::verify_poly_sub, (text,), rep),
        0 <= i < 256,
    ensures
        res is Ok <==> statement_faults::all_residues(transform::ints(a@))
            && statement_faults::all_residues(transform::ints(b@)),
        res is Ok ==> res->Ok_0.2@[i] as int == (a@[i] - b@[i]) % 8380417,
        res is Ok && text@ == res->Ok_0.1@ ==> bound_to_output(
            res->Ok_0.0,
            rep,
            Circuit::PolyAdd,
            8,
            transform::ints(res->Ok_0.2@),
        ),
{
    let x = transform::ints(a@);
    let y = transform::ints(b@);
    statement_faults::lemma_passed(Input::A, None, x, Input::B, y);
    if res is Ok {
        let out = transform::ints(res->Ok_0.2@);
        values::lemma_entrywise(x, y, 0, i);
        assert(out[i] == res->Ok_0.2@[i]);
        if text@ == res->Ok_0.1@ {
            lemma_output_pair(
                res->Ok_0.0,
                res->Ok_0.1@,
                Circuit::PolyAdd,
                8,
                out,
                None,
                text,
                rep,
            );
        }
    }
}

/// The transform of a polynomial, which the verifier replays.
pub proof fn lemma_ntt_calls(
    f: &[i64; 256],
    res: Result<(Task, String, [i64; 256]), StatementError>,
    text: &str,
    rep: Result<Replay, StatementError>,
)
    requires
        call_ensures(statement_ring::prove_ntt, (f,), res),
        call_ensures(statement_ring::verify_ntt, (text,), rep),
    ensures
        res is Ok <==> statement_faults::all_residues(transform::ints(f@)),
        res is Ok ==> transform::ints(res->Ok_0.2@) == transform::ntt_of(transform::ints(f@)),
        res is Ok && text@ == res->Ok_0.1@ ==> bound_to_output(
            res->Ok_0.0,
            rep,
            Circuit::Ntt,
            10,
            transform::ints(res->Ok_0.2@),
        ),
{
    let x = transform::ints(f@);
    statement_faults::lemma_passed(Input::F, None, x, Input::F, x);
    if res is Ok && text@ == res->Ok_0.1@ {
        lemma_output_pair(
            res->Ok_0.0,
            res->Ok_0.1@,
            Circuit::Ntt,
            10,
            transform::ints(res->Ok_0.2@),
            None,
            text,
            rep,
        );
    }
}

/// The hinted high parts of a polynomial, which the verifier replays.
pub proof fn lemma_use_hint_calls(
    r: &[i64; 256],
    h: &[bool; 256],
    res: Result<(Task, String, [i64; 256]), StatementError>,
    text: &str,
    rep: Result<Replay, StatementError>,
    i: int,
)
    requires
        call_ensures(statement_ring::prove_use_hint, (r, h), res),
        call_ensures(statement_ring::verify_use_hint, (text,), rep),
        0 <= i < 256,
    ensures
        res is Ok <==> statement_faults::all_residues(transform::ints(r@)),
        res is Ok ==> res->Ok_0.2@[i] as int == rounding::use_hint(h@[i], r@[i] as int),
        res is Ok && text@ == res->Ok_0.1@ ==> bound_to_output(
            res->Ok_0.0,
            rep,
            Circuit::UseHint,
            8,
            transform::ints(res->Ok_0.2@),
        ),
{
    let x = transform::ints(r@);
    statement_faults::lemma_passed(Input::R, None, x, Input::R, x);
    if res is Ok {
        let out = transform::ints(res->Ok_0.2@);
        assert(out[i] == res->Ok_0.2@[i]);
        if text@ == res->Ok_0.1@ {
            lemma_output_pair(
                res->Ok_0.0,
                res->Ok_0.1@,
                Circuit::UseHint,
                8,
                out,
                None,
                text,
                rep,
            );
        }
    }
}

/// The sizes of a polynomial's coefficients, which the verifier replays, and the largest of
/// them.
pub proof fn lemma_norm_check_calls(
    z: &[i64; 256],
    res: Result<(Task, String, [i64; 256], i64), StatementError>,
    text: &str,
    rep: Result<Replay, StatementError>,
    i: int,
)
    requires
        call_ensures(statement_ring::prove_norm_check, (z,), res),
        call_ensures(statement_ring::verify_norm_check, (text,), rep),
        0 <= i < 256,
    ensures
        res is Ok <==> statement_faults::all_residues(transform::ints(z@)),
        res is Ok ==> {
            &&& res->Ok_0.2@[i] as int == (if z@[i] <= 4190208 {
                z@[i] as int
            } else {
                8380417 - z@[i]
            })
            &&& res->Ok_0.2@[i] <= res->Ok_0.3
            &&& exists|j: int| 0 <= j < 256 && #[trigger] res->Ok_0.2@[j] == res->Ok_0.3
        },
        res is Ok && text@ == res->Ok_0.1@ ==> bound_to_output(
            res->Ok_0.0,
            rep,
            Circuit::NormCheck,
            8,
            transform::ints(res->Ok_0.2@),
        ),
{
    let x = transform::ints(z@);
    statement_faults::lemma_passed(Input::Z, None, x, Input::Z, x);
    if res is Ok {
        let out = transform::ints(res->Ok_0.2@);
        values::lemma_norm_attained(x);
        assert forall|k: int| 0 <= k < 256 implies #[trigger] res->Ok_0.2@[k] as int
            == poly::abs_centered(x[k]) && res->Ok_0.2@[k] as int == (if z@[k] <= 4190208 {
            z@[k] as int
        } else {
            8380417 - z@[k]
        }) by {
            assert(out[k] == res->Ok_0.2@[k]);
            assert(x[k] == z@[k] as int);
            assert(0 <= x[k] < 8380417);
            values::lemma_size(x[k]);
        }
        assert(poly::abs_centered(x[i]) <= poly::inf_norm(x));
        let j = choose|j: int|
            0 <= j < x.len() && poly::abs_centered(#[trigger] x[j]) == poly::inf_norm(x);
        assert(res->Ok_0.2@[j] == res->Ok_0.3);
        if text@ == res->Ok_0.1@ {
            lemma_output_pair(
                res->Ok_0.0,
                res->Ok_0.1@,
                Circuit::NormCheck,
                8,
                out,
                Some(crate::columns::columns(mldsa_norm_check_air::norm_table(x), 3)),
                text,
                rep,
            );
        }
    }
}

/// A polynomial of residues, which the verifier replays.
pub proof fn lemma_range_q_calls(
    f: &[i64; 256],
    res: Result<(Task, String), StatementError>,
    text: &str,
    rep: Result<Replay, StatementError>,
)
    requires
        call_ensures(statement_ring::prove_range_q, (f,), res),
        call_ensures(statement_ring::verify_range_q, (text,), rep),
    ensures
        res is Ok <==> statement_faults::all_residues(transform::ints(f@)),
        res is Ok && text@ == res->Ok_0.1@ ==> bound_to_output(
            res->Ok_0.0,
            rep,
            Circuit::RangeQ,
            8,
            transform::ints(f@),
        ),
{
    let x = transform::ints(f@);
    statement_faults::lemma_passed(Input::Poly, None, x, Input::Poly, x);
    if res is Ok && text@ == res->Ok_0.1@ {
        lemma_output_pair(
            res->Ok_0.0,
            res->Ok_0.1@,
            Circuit::RangeQ,
            8,
            x,
            None,
            text,
            rep,
        );
    }
}

/// The product of a row and a vector of transforms, which a verifier who has the vector
/// replays.
pub proof fn lemma_az_row_calls(
    a: &[[i64; 256]; 5],
    z: &[[i64; 256]; 5],
    res: Result<(Task, String, [i64; 256]), StatementError>,
    text: &str,
    zs: &[[i64; 256]],
    rep: Result<Replay, StatementError>,
    p: int,
)
    requires
        call_ensures(statement_batch::prove_az_row, (a, z), res),
        call_ensures(statement_batch::verify_az_row, (text, zs), rep),
        zs@ == z@,
        0 <= p < 256,
    ensures
        res is Ok <==> (forall|j: int|
            0 <= j < 5 ==> statement_faults::all_residues(#[trigger] polyvec::polys(a@)[j])) && (
        forall|j: int|
            0 <= j < 5 ==> statement_faults::all_residues(#[trigger] polyvec::polys(z@)[j])),
        res is Ok ==> res->Ok_0.2@[p] as int == (a@[0]@[p] * z@[0]@[p] + a@[1]@[p] * z@[1]@[p]
            + a@[2]@[p] * z@[2]@[p] + a@[3]@[p] * z@[3]@[p] + a@[4]@[p] * z@[4]@[p]) % 8380417,
        res is Ok && text@ == res->Ok_0.1@ ==> bound_to_both(
            res->Ok_0.0,
            rep,
            seq![],
            Circuit::AzRow,
            8,
            transcript::flat(polyvec::polys(z@)),
            transform::ints(res->Ok_0.2@),
        ),
{
    let x = polyvec::polys(a@);
    let y = polyvec::polys(z@);
    lemma_rows_passed(x, y);
    if res is Ok {
        let out = transform::ints(res->Ok_0.2@);
        assert(out[p] == res->Ok_0.2@[p]);
        let m = seq![x];
        values::lemma_product_entry(m, y, 0, p);
        assert(m[0] == x);
        assert(polyvec::mat_vec(m, y)[0] == polyvec::dot(x, y, 5));
        assert(x[0][p] == a@[0]@[p] && x[1][p] == a@[1]@[p] && x[2][p] == a@[2]@[p]);
        assert(x[3][p] == a@[3]@[p] && x[4][p] == a@[4]@[p]);
        assert(y[0][p] == z@[0]@[p] && y[1][p] == z@[1]@[p] && y[2][p] == z@[2]@[p]);
        assert(y[3][p] == z@[3]@[p] && y[4][p] == z@[4]@[p]);
        if text@ == res->Ok_0.1@ {
            lemma_io_pair(
                res->Ok_0.0,
                res->Ok_0.1@,
                seq![],
                Circuit::AzRow,
                8,
                transcript::flat(y),
                out,
                Some(crate::columns::columns(crate::mldsa_az_air::az_table(x, y), 258)),
                text,
                rep,
            );
        }
    }
}

/// Whether row `q` of both sides consists of residues.
spec fn row_fits(x: Seq<Seq<int>>, y: Seq<Seq<int>>, q: int) -> bool {
    statement_faults::all_residues(x[q]) && statement_faults::all_residues(y[q])
}

proof fn lemma_rows_passed(x: Seq<Seq<int>>, y: Seq<Seq<int>>)
    requires
        x.len() == 5,
        y.len() == 5,
        forall|q: int| 0 <= q < 5 ==> (#[trigger] x[q]).len() == y[q].len(),
    ensures
        statement_batch::rows_error_from(x, y, 0) is None <==> (forall|j: int|
            0 <= j < 5 ==> statement_faults::all_residues(#[trigger] x[j])) && (forall|j: int|
            0 <= j < 5 ==> statement_faults::all_residues(#[trigger] y[j])),
{
    if forall|q: int| 0 <= q < 5 ==> #[trigger] row_fits(x, y, q) {
        assert(row_fits(x, y, 4));
        assert forall|q: int| 0 <= q < 4 implies statement_faults::all_residues(#[trigger] x[q])
            && statement_faults::all_residues(y[q]) by {
            assert(row_fits(x, y, q));
        }
        assert forall|q: int| 0 <= q < 5 implies statement_faults::all_residues(#[trigger] y[q]) by {
            assert(row_fits(x, y, q));
        }
        assert forall|q: int| 0 <= q < 5 implies statement_faults::all_residues(#[trigger] x[q]) by {
            assert(row_fits(x, y, q));
        }
        statement_faults::lemma_rows_fault(x, y, 4);
    } else {
        let j = lemma_first_bad_row(x, y, 0);
        assert forall|q: int| 0 <= q < j implies statement_faults::all_residues(#[trigger] x[q])
            && statement_faults::all_residues(y[q]) by {
            assert(row_fits(x, y, q));
        }
        statement_faults::lemma_rows_fault(x, y, j);
    }
}

proof fn lemma_first_bad_row(x: Seq<Seq<int>>, y: Seq<Seq<int>>, i: int) -> (j: int)
    requires
        0 <= i < 5,
        forall|q: int| 0 <= q < i ==> #[trigger] row_fits(x, y, q),
        !(forall|q: int| 0 <= q < 5 ==> #[trigger] row_fits(x, y, q)),
    ensures
        i <= j < 5,
        forall|q: int| 0 <= q < j ==> #[trigger] row_fits(x, y, q),
        !row_fits(x, y, j),
    decreases 5 - i,
{
    if row_fits(x, y, i) {
        lemma_first_bad_row(x, y, i + 1)
    } else {
        i
    }
}

/// The product of a matrix and a vector of transforms, which a verifier who has the vector
/// and the seed replays.
pub proof fn lemma_az_full_calls(
    a: &[[i64; 256]],
    z: &[[i64; 256]; 5],
    seed: &[u8],
    res: Result<(Task, String, [[i64; 256]; 6]), StatementError>,
    text: &str,
    rep: Result<Replay, StatementError>,
    i: int,
    p: int,
)
    requires
        call_ensures(statement_batch::prove_az_full, (a, z, seed), res),
        call_ensures(statement_batch::verify_az_full, (text, z, seed), rep),
        0 <= i < 6,
        0 <= p < 256,
    ensures
        res is Ok <==> a@.len() == 30 && forall|j: int|
            0 <= j < 30 ==> statement_faults::all_residues(#[trigger] polyvec::polys(a@)[j]),
        res is Ok ==> res->Ok_0.2@[i]@[p] as int == (a@[5 * i]@[p] * z@[0]@[p] + a@[5 * i + 1]@[p]
            * z@[1]@[p] + a@[5 * i + 2]@[p] * z@[2]@[p] + a@[5 * i + 3]@[p] * z@[3]@[p] + a@[5 * i
            + 4]@[p] * z@[4]@[p]) % 8380417,
        res is Ok && text@ == res->Ok_0.1@ ==> bound_to_both(
            res->Ok_0.0,
            rep,
            seed@,
            Circuit::AzFull,
            8,
            transcript::flat(polyvec::polys(z@)),
            transcript::flat(polyvec::polys(res->Ok_0.2@)),
        ),
{
    let x = polyvec::polys(a@);
    let y = polyvec::polys(z@);
    statement_faults::lemma_list_passed(Input::AHat, x);
    if res is Ok {
        let out = polyvec::polys(res->Ok_0.2@);
        let m = mldsa_az_full_air::matrix_of(x);
        assert(out[i][p] == res->Ok_0.2@[i]@[p]);
        values::lemma_product_entry(m, y, i, p);
        assert(m[i][0] == x[5 * i] && m[i][1] == x[5 * i + 1] && m[i][2] == x[5 * i + 2]);
        assert(m[i][3] == x[5 * i + 3] && m[i][4] == x[5 * i + 4]);
        assert(x[5 * i][p] == a@[5 * i]@[p] && x[5 * i + 1][p] == a@[5 * i + 1]@[p]);
        assert(x[5 * i + 2][p] == a@[5 * i + 2]@[p] && x[5 * i + 3][p] == a@[5 * i + 3]@[p]);
        assert(x[5 * i + 4][p] == a@[5 * i + 4]@[p]);
        assert(y[0][p] == z@[0]@[p] && y[1][p] == z@[1]@[p] && y[2][p] == z@[2]@[p]);
        assert(y[3][p] == z@[3]@[p] && y[4][p] == z@[4]@[p]);
        if text@ == res->Ok_0.1@ {
            lemma_io_pair(
                res->Ok_0.0,
                res->Ok_0.1@,
                seed@,
                Circuit::AzFull,
                8,
                transcript::flat(y),
                transcript::flat(out),
                Some(crate::columns::columns(mldsa_az_full_air::full_table(m, y), 1523)),
                text,
                rep,
            );
        }
    }
}

/// The products of a challenge with six transforms, which a verifier who has the challenge,
/// the transforms and the seed replays.
pub proof fn lemma_ct1_full_calls(
    c: &[i64; 256],
    t1: &[[i64; 256]; 6],
    seed: &[u8],
    res: Result<(Task, String, [[i64; 256]; 6]), StatementError>,
    text: &str,
    rep: Result<Replay, StatementError>,
    i: int,
    p: int,
)
    requires
        call_ensures(statement_batch::prove_ct1_full, (c, t1, seed), res),
        call_ensures(statement_batch::verify_ct1_full, (text, c, t1, seed), rep),
        0 <= i < 6,
        0 <= p < 256,
    ensures
        res is Ok <==> statement_faults::all_residues(transform::ints(c@)) && forall|j: int|
            0 <= j < 6 ==> statement_faults::all_residues(#[trigger] polyvec::polys(t1@)[j]),
        res is Ok ==> res->Ok_0.2@[i]@[p] as int == (c@[p] * t1@[i]@[p]) % 8380417,
        res is Ok && text@ == res->Ok_0.1@ ==> bound_to_both(
            res->Ok_0.0,
            rep,
            seed@,
            Circuit::Ct1Full,
            8,
            transcript::flat(seq![transform::ints(c@)] + polyvec::polys(t1@)),
            transcript::flat(polyvec::polys(res->Ok_0.2@)),
        ),
{
    let x = transform::ints(c@);
    let y = polyvec::polys(t1@);
    statement_faults::lemma_passed(Input::CHat, None, x, Input::CHat, x);
    statement_faults::lemma_list_passed(Input::T1Hat, y);
    if res is Ok {
        let out = polyvec::polys(res->Ok_0.2@);
        assert(out[i][p] == res->Ok_0.2@[i]@[p]);
        values::lemma_entrywise(x, y[i], 0, p);
        assert(y[i][p] == t1@[i]@[p] && x[p] == c@[p]);
        if text@ == res->Ok_0.1@ {
            lemma_io_pair(
                res->Ok_0.0,
                res->Ok_0.1@,
                seed@,
                Circuit::Ct1Full,
                8,
                transcript::flat(seq![x] + y),
                transcript::flat(out),
                Some(crate::columns::columns(mldsa_ct1_full_air::ct1_table(x, y), 295)),
                text,
                rep,
            );
        }
    }
}

/// The differences of six polynomials each, which the verifier replays; with commitments to
/// both sides in another form of the statement.
pub proof fn lemma_wprime_calls(
    az: &[[i64; 256]; 6],
    ct1: &[[i64; 256]; 6],
    res: Result<(Task, String, [[i64; 256]; 6]), StatementError>,
    text: &str,
    rep: Result<Replay, StatementError>,
    both: Result<(Task, String, String, [[i64; 256]; 6]), StatementError>,
    input: &str,
    output: &str,
    again: Result<Replay, StatementError>,
    i: int,
    p: int,
)
    requires
        call_ensures(statement_batch::prove_wprime_full, (az, ct1), res),
        call_ensures(statement_batch::verify_wprime_full, (text,), rep),
        call_ensures(statement_batch::prove_wprime_full_bound, (az, ct1), both),
        call_ensures(statement_batch::verify_wprime_full_bound, (input, output), again),
        0 <= i < 6,
        0 <= p < 256,
    ensures
        res is Ok <==> (forall|j: int|
            0 <= j < 6 ==> statement_faults::all_residues(#[trigger] polyvec::polys(az@)[j])) && (
        forall|j: int|
            0 <= j < 6 ==> statement_faults::all_residues(#[trigger] polyvec::polys(ct1@)[j])),
        both is Ok <==> res is Ok,
        res is Ok ==> res->Ok_0.2@[i]@[p] as int == (az@[i]@[p] - ct1@[i]@[p]) % 8380417,
        res is Ok ==> both->Ok_0.3@[i]@[p] == res->Ok_0.2@[i]@[p],
        res is Ok && text@ == res->Ok_0.1@ ==> bound_to_output(
            res->Ok_0.0,
            rep,
            Circuit::WPrimeFull,
            8,
            transcript::flat(polyvec::polys(res->Ok_0.2@)),
        ),
        both is Ok && input@ == both->Ok_0.1@ && output@ == both->Ok_0.2@ ==> bound_to_both(
            both->Ok_0.0,
            again,
            seq![],
            Circuit::WPrimeFull,
            8,
            transcript::flat(polyvec::polys(az@) + polyvec::polys(ct1@)),
            transcript::flat(polyvec::polys(both->Ok_0.3@)),
        ),
{
    let x = polyvec::polys(az@);
    let y = polyvec::polys(ct1@);
    statement_faults::lemma_list_passed(Input::Az, x);
    statement_faults::lemma_list_passed(Input::Ct1, y);
    if res is Ok {
        let out = polyvec::polys(res->Ok_0.2@);
        let w = polyvec::polys(both->Ok_0.3@);
        assert(out == w);
        assert(out[i][p] == res->Ok_0.2@[i]@[p]);
        assert(w[i][p] == both->Ok_0.3@[i]@[p]);
        statement_faults::lemma_vector_outputs(x, y, i, p);
        assert(x[i][p] == az@[i]@[p] && y[i][p] == ct1@[i]@[p]);
        if text@ == res->Ok_0.1@ {
            lemma_output_pair(
                res->Ok_0.0,
                res->Ok_0.1@,
                Circuit::WPrimeFull,
                8,
                transcript::flat(out),
                None,
                text,
                rep,
            );
        }
        if input@ == both->Ok_0.1@ && output@ == both->Ok_0.2@ {
            statement_ring::lemma_commitment_read_back(transcript::flat(x + y));
            statement_ring::lemma_commitment_read_back(transcript::flat(w));
            lemma_io_pair(
                both->Ok_0.0,
                both->Ok_0.2@,
                seq![],
                Circuit::WPrimeFull,
                8,
                transcript::flat(x + y),
                transcript::flat(w),
                None,
                output,
                again,
            );
        }
    }
}

/// The sizes of the coefficients of five polynomials, which the verifier replays, and the
/// largest of each.
pub proof fn lemma_norm_batch_calls(
    z: &[[i64; 256]; 5],
    res: Result<(Task, String, [[i64; 256]; 5], [i64; 5]), StatementError>,
    text: &str,
    rep: Result<Replay, StatementError>,
    j: int,
    p: int,
)
    requires
        call_ensures(statement_batch::prove_norm_check_batch, (z,), res),
        call_ensures(statement_batch::verify_norm_check_batch, (text,), rep),
        0 <= j < 5,
        0 <= p < 256,
    ensures
        res is Ok <==> forall|q: int|
            0 <= q < 5 ==> statement_faults::all_residues(#[trigger] polyvec::polys(z@)[q]),
        res is Ok ==> {
            &&& res->Ok_0.2@[j]@[p] as int == (if z@[j]@[p] <= 4190208 {
                z@[j]@[p] as int
            } else {
                8380417 - z@[j]@[p]
            })
            &&& res->Ok_0.3@[j] == poly::inf_norm(polyvec::polys(z@)[j])
        },
        res is Ok && text@ == res->Ok_0.1@ ==> bound_to_output(
            res->Ok_0.0,
            rep,
            Circuit::NormCheckBatch,
            8,
            transcript::flat(polyvec::polys(res->Ok_0.2@)),
        ),
{
    let x = polyvec::polys(z@);
    statement_faults::lemma_list_passed(Input::Z, x);
    if res is Ok {
        let out = polyvec::polys(res->Ok_0.2@);
        assert(out[j][p] == res->Ok_0.2@[j]@[p]);
        assert(x[j][p] == z@[j]@[p]);
        assert(statement_faults::all_residues(x[j]));
        assert(0 <= x[j][p] < 8380417);
        if text@ == res->Ok_0.1@ {
            lemma_output_pair(
                res->Ok_0.0,
                res->Ok_0.1@,
                Circuit::NormCheckBatch,
                8,
                transcript::flat(out),
                Some(
                    crate::columns::columns(
                        crate::mldsa_norm_check_batch_air::batch_table(x),
                        15,
                    ),
                ),
                text,
                rep,
            );
        }
    }
}

/// The hinted high parts of six polynomials, which the verifier replays; with the weight of
/// the hint in another form of the statement, whose verifier must have both.
pub proof fn lemma_use_hint_batch_calls(
    w: &[[i64; 256]; 6],
    h: &[[bool; 256]; 6],
    res: Result<(Task, String, [[i64; 256]; 6]), StatementError>,
    text: &str,
    rep: Result<Replay, StatementError>,
    with: Result<(Task, String, [[i64; 256]; 6], usize), StatementError>,
    other: &str,
    w1: &[[i64; 256]; 6],
    weight: usize,
    again: Option<Replay>,
    i: int,
    p: int,
)
    requires
        call_ensures(statement_batch::prove_use_hint_batch, (w, h), res),
        call_ensures(statement_batch::verify_use_hint_batch, (text,), rep),
        call_ensures(statement_batch::prove_use_hint_batch_v2, (w, h), with),
        call_ensures(statement_batch::verify_use_hint_batch_v2, (other, w1, weight), again),
        0 <= i < 6,
        0 <= p < 256,
    ensures
        res is Ok <==> forall|j: int|
            0 <= j < 6 ==> statement_faults::all_residues(#[trigger] polyvec::polys(w@)[j]),
        with is Ok <==> res is Ok,
        res is Ok ==> {
            &&& res->Ok_0.2@[i]@[p] as int == rounding::use_hint(h@[i]@[p], w@[i]@[p] as int)
            &&& with->Ok_0.2@[i]@[p] == res->Ok_0.2@[i]@[p]
            &&& with->Ok_0.3 == hints::total_weight(rows::hint_rows(h@), 6)
        },
        res is Ok && text@ == res->Ok_0.1@ ==> bound_to_output(
            res->Ok_0.0,
            rep,
            Circuit::UseHintBatch,
            8,
            transcript::flat(polyvec::polys(res->Ok_0.2@)),
        ),
        with is Ok && other@ == with->Ok_0.1@ && w1@ == with->Ok_0.2@ && weight == with->Ok_0.3
            ==> again is Some && bound_to_output(
            with->Ok_0.0,
            Ok(again->Some_0),
            Circuit::UseHintWeight,
            8,
            transcript::flat(polyvec::polys(w1@)).push(weight as int),
        ),
        again is Some <==> other.spec_bytes() == encode_utf8(
            commitment::poly_commitment(
                commitment::fingerprint(
                    transcript::flat(polyvec::polys(w1@)).push(weight as int),
                ),
            ),
        ),
{
    let x = polyvec::polys(w@);
    let hs = rows::hint_rows(h@);
    statement_faults::lemma_list_passed(Input::WPrime, x);
    if res is Ok {
        let out = polyvec::polys(res->Ok_0.2@);
        let same = polyvec::polys(with->Ok_0.2@);
        assert(out == same);
        assert(out[i][p] == res->Ok_0.2@[i]@[p]);
        assert(same[i][p] == with->Ok_0.2@[i]@[p]);
        assert(x[i][p] == w@[i]@[p] && hs[i][p] == h@[i]@[p]);
        if text@ == res->Ok_0.1@ {
            lemma_output_pair(
                res->Ok_0.0,
                res->Ok_0.1@,
                Circuit::UseHintBatch,
                8,
                transcript::flat(out),
                None,
                text,
                rep,
            );
        }
        if other@ == with->Ok_0.1@ && w1@ == with->Ok_0.2@ && weight == with->Ok_0.3 {
            let c = Component { circuit: Circuit::UseHintWeight, log_n_rows: 8 };
            let v = transcript::flat(polyvec::polys(w1@)).push(weight as int);
            statement_content::lemma_output_task(with->Ok_0.0, with->Ok_0.1@, c, v, None);
        }
    }
}

/// Six polynomials of residues, which the verifier replays.
pub proof fn lemma_range_q_batch_calls(
    v: &[[i64; 256]; 6],
    res: Result<(Task, String), StatementError>,
    text: &str,
    rep: Result<Replay, StatementError>,
)
    requires
        call_ensures(statement_batch::prove_range_q_batch, (v,), res),
        call_ensures(statement_batch::verify_range_q_batch, (text,), rep),
    ensures
        res is Ok <==> forall|j: int|
            0 <= j < 6 ==> statement_faults::all_residues(#[trigger] polyvec::polys(v@)[j]),
        res is Ok && text@ == res->Ok_0.1@ ==> bound_to_output(
            res->Ok_0.0,
            rep,
            Circuit::RangeQBatch,
            8,
            transcript::flat(polyvec::polys(v@)),
        ),
{
    let x = polyvec::polys(v@);
    statement_faults::lemma_list_passed(Input::Polys, x);
    if res is Ok && text@ == res->Ok_0.1@ {
        lemma_output_pair(
            res->Ok_0.0,
            res->Ok_0.1@,
            Circuit::RangeQBatch,
            8,
            transcript::flat(x),
            None,
            text,
            rep,
        );
    }
}

/// The transforms of several polynomials, which a verifier who knows their number replays;
/// the statement about six is the one about a list of six.
pub proof fn lemma_ntt_batch_calls(
    v: &[[i64; 256]],
    res: Result<(Task, String, Vec<[i64; 256]>), StatementError>,
    text: &str,
    n: usize,
    rep: Result<Replay, StatementError>,
    six: &[[i64; 256]; 6],
    out6: Result<(Task, String, [[i64; 256]; 6]), StatementError>,
    text6: &str,
    rep6: Result<Replay, StatementError>,
    j: int,
)
    requires
        call_ensures(statement_batch::prove_ntt_batch_m, (v,), res),
        call_ensures(statement_batch::verify_ntt_batch_m, (text, n), rep),
        call_ensures(statement_batch::prove_ntt_batch, (six,), out6),
        call_ensures(statement_batch::verify_ntt_batch, (text6,), rep6),
        v@.len() <= usize::MAX,
    ensures
        res is Ok <==> v@.len() > 0 && forall|q: int|
            0 <= q < v@.len() ==> statement_faults::all_residues(#[trigger] polyvec::polys(v@)[q]),
        res is Ok ==> res->Ok_0.2@.len() == v@.len(),
        res is Ok && 0 <= j < v@.len() ==> transform::ints(res->Ok_0.2@[j]@) == transform::ntt_of(
            transform::ints(v@[j]@),
        ),
        n == 0 ==> rep == Err::<Replay, StatementError>(StatementError::Empty),
        res is Ok && text@ == res->Ok_0.1@ && n == v@.len() ==> bound_to_output(
            res->Ok_0.0,
            rep,
            Circuit::NttBatch { n_polys: n },
            10,
            transcript::flat(polyvec::polys(res->Ok_0.2@)),
        ),
        out6 is Ok <==> forall|q: int|
            0 <= q < 6 ==> statement_faults::all_residues(#[trigger] polyvec::polys(six@)[q]),
        out6 is Ok && 0 <= j < 6 ==> transform::ints(out6->Ok_0.2@[j]@) == transform::ntt_of(
            transform::ints(six@[j]@),
        ),
        out6 is Ok && text6@ == out6->Ok_0.1@ ==> bound_to_output(
            out6->Ok_0.0,
            rep6,
            Circuit::NttBatch { n_polys: 6 },
            10,
            transcript::flat(polyvec::polys(out6->Ok_0.2@)),
        ),
{
    let x = polyvec::polys(v@);
    let y = polyvec::polys(six@);
    statement_faults::lemma_list_passed(Input::Polys, x);
    statement_faults::lemma_list_passed(Input::Polys, y);
    if res is Ok {
        let out = polyvec::polys(res->Ok_0.2@);
        assert(out.len() == res->Ok_0.2@.len());
        if 0 <= j < v@.len() {
            assert(out[j] == transform::ints(res->Ok_0.2@[j]@));
            assert(x[j] == transform::ints(v@[j]@));
        }
        if text@ == res->Ok_0.1@ && n == v@.len() {
            lemma_output_pair(
                res->Ok_0.0,
                res->Ok_0.1@,
                Circuit::NttBatch { n_polys: n },
                10,
                transcript::flat(out),
                None,
                text,
                rep,
            );
        }
    }
    if out6 is Ok {
        let out = polyvec::polys(out6->Ok_0.2@);
        if 0 <= j < 6 {
            assert(out[j] == transform::ints(out6->Ok_0.2@[j]@));
            assert(y[j] == transform::ints(six@[j]@));
        }
        if text6@ == out6->Ok_0.1@ {
            lemma_output_pair(
                out6->Ok_0.0,
                out6->Ok_0.1@,
                Circuit::NttBatch { n_polys: 6 },
                10,
                transcript::flat(out),
                None,
                text6,
                rep6,
            );
        }
    }
}

/// The inverse transforms of several polynomials, which a verifier who has them replays: one
/// component, the fingerprint of each input and that of all outputs.
pub proof fn lemma_intt_batch_calls(
    v: &[[i64; 256]],
    res: Result<(Task, String, Vec<[i64; 256]>), StatementError>,
    text: &str,
    rep: Result<Replay, StatementError>,
    six: &[[i64; 256]; 6],
    out6: Result<(Task, String, [[i64; 256]; 6]), StatementError>,
    text6: &str,
    rep6: Result<Replay, StatementError>,
    j: int,
)
    requires
        call_ensures(statement_batch::prove_intt_batch_m, (v,), res),
        call_ensures(statement_batch::verify_intt_batch_m, (text, v), rep),
        call_ensures(statement_batch::prove_intt_batch, (six,), out6),
        call_ensures(statement_batch::verify_intt_batch, (text6, six), rep6),
    ensures
        res is Ok <==> v@.len() > 0 && forall|q: int|
            0 <= q < v@.len() ==> statement_faults::all_residues(#[trigger] polyvec::polys(v@)[q]),
        v@.len() == 0 ==> rep == Err::<Replay, StatementError>(StatementError::Empty),
        res is Ok ==> res->Ok_0.2@.len() == v@.len(),
        res is Ok && 0 <= j < v@.len() ==> transform::ntt_of(transform::ints(res->Ok_0.2@[j]@))
            == transform::ints(v@[j]@),
        res is Ok && text@ == res->Ok_0.1@ ==> {
            let t = res->Ok_0.0.transcript@;
            &&& rep is Ok
            &&& rep->Ok_0.transcript@ == t
            &&& rep->Ok_0.lifting is None
            &&& t.seeds == Seq::<Seq<u32>>::empty()
            &&& t.components == seq![
                Component {
                    circuit: Circuit::InttBatch { n_polys: v@.len() as usize },
                    log_n_rows: 10,
                },
            ]
            &&& t.messages.len() == v@.len() + 1
            &&& 0 <= j < v@.len() ==> t.messages[j] == commitment::fingerprint(
                transform::ints(v@[j]@),
            )
            &&& t.messages[v@.len() as int] == commitment::fingerprint(
                transcript::flat(polyvec::polys(res->Ok_0.2@)),
            )
        },
        out6 is Ok <==> forall|q: int|
            0 <= q < 6 ==> statement_faults::all_residues(#[trigger] polyvec::polys(six@)[q]),
        out6 is Ok && 0 <= j < 6 ==> transform::ntt_of(transform::ints(out6->Ok_0.2@[j]@))
            == transform::ints(six@[j]@),
        out6 is Ok && text6@ == out6->Ok_0.1@ ==> {
            let t = out6->Ok_0.0.transcript@;
            &&& rep6 is Ok
            &&& rep6->Ok_0.transcript@ == t
            &&& rep6->Ok_0.lifting is None
            &&& t.components == seq![
                Component { circuit: Circuit::InttBatch { n_polys: 6 }, log_n_rows: 10 },
            ]
            &&& t.messages.len() == 7
            &&& 0 <= j < 6 ==> t.messages[j] == commitment::fingerprint(
                transform::ints(six@[j]@),
            )
            &&& t.messages[6] == commitment::fingerprint(
                transcript::flat(polyvec::polys(out6->Ok_0.2@)),
            )
        },
{
    let x = polyvec::polys(v@);
    let y = polyvec::polys(six@);
    statement_faults::lemma_list_passed(Input::Polys, x);
    statement_faults::lemma_list_passed(Input::Polys, y);
    if res is Ok {
        let out = polyvec::polys(res->Ok_0.2@);
        statement_ring::lemma_commitment_read_back(transcript::flat(out));
        statement_content::lemma_intt_content(x, commitment::fingerprint(transcript::flat(out)));
        assert(out.len() == res->Ok_0.2@.len());
        if 0 <= j < v@.len() {
            assert(out[j] == transform::ints(res->Ok_0.2@[j]@));
            assert(x[j] == transform::ints(v@[j]@));
            assert(statement_faults::all_residues(x[j]));
            transform::lemma_ntt_of_intt(x[j]);
        }
    }
    if out6 is Ok {
        let out = polyvec::polys(out6->Ok_0.2@);
        statement_ring::lemma_commitment_read_back(transcript::flat(out));
        statement_content::lemma_intt_content(y, commitment::fingerprint(transcript::flat(out)));
        if 0 <= j < 6 {
            assert(out[j] == transform::ints(out6->Ok_0.2@[j]@));
            assert(y[j] == transform::ints(six@[j]@));
            assert(statement_faults::all_residues(y[j]));
            transform::lemma_ntt_of_intt(y[j]);
        }
    }
}

/// The running weight of a hint, row by row in the order in which it is committed, which the
/// verifier replays, and the whole weight.
pub proof fn lemma_hint_weight_calls(
    h: &[Vec<bool>],
    res: Result<(Task, String, usize), StatementError>,
    text: &str,
    rep: Result<Replay, StatementError>,
    sums: Seq<int>,
)
    requires
        call_ensures(statement_batch::prove_hint_weight, (h,), res),
        call_ensures(statement_batch::verify_hint_weight, (text,), rep),
        sums.len() == 2048,
        forall|r: int|
            0 <= r < 2048 ==> #[trigger] sums[r] == mldsa_hint_weight_air::hint_table(
                mldsa_hint_weight_air::hint_views(h@),
            )[crate::columns::row_position(r, 2048)][1],
    ensures
        res is Ok <==> h@.len() == 6 && forall|i: int| 0 <= i < 6 ==> (#[trigger] h@[i])@.len() == 256,
        res is Ok ==> res->Ok_0.2 == hints::total_weight(
            mldsa_hint_weight_air::hint_views(h@),
            6,
        ),
        res is Ok && text@ == res->Ok_0.1@ ==> bound_to_output(
            res->Ok_0.0,
            rep,
            Circuit::HintWeight,
            11,
            sums,
        ),
{
    let hs = mldsa_hint_weight_air::hint_views(h@);
    lemma_hint_shape(hs);
    if h@.len() == 6 {
        assert forall|i: int| 0 <= i < 6 implies hs[i].len() == (#[trigger] h@[i])@.len() by {}
        if forall|i: int| 0 <= i < 6 ==> (#[trigger] h@[i])@.len() == 256 {
            assert forall|i: int| 0 <= i < 6 implies (#[trigger] hs[i]).len() == 256 by {
                assert(h@[i]@.len() == 256);
            }
        }
        if forall|i: int| 0 <= i < 6 ==> (#[trigger] hs[i]).len() == 256 {
            assert forall|i: int| 0 <= i < 6 implies (#[trigger] h@[i])@.len() == 256 by {
                assert(hs[i].len() == 256);
            }
        }
    }
    if res is Ok {
        let out = crate::constraint::cells(statement_batch::committed_sums(hs));
        crate::columns::lemma_powers_of_two();
        assert forall|r: int| 0 <= r < 2048 implies out[r] == sums[r] by {
            crate::trace_cells::lemma_place(r, 2048);
            let q = crate::columns::row_position(r, 2048);
            lemma_sum_range(hs, q);
        }
        assert(out =~= sums);
        let task = res->Ok_0.0;
        let c = Component { circuit: Circuit::HintWeight, log_n_rows: 11 };
        let t = statement_ring::output_transcript(c, commitment::fingerprint(sums));
        assert(t.seeds =~= Seq::<Seq<u32>>::empty());
        assert(t.components =~= seq![c]);
        assert(t.messages =~= seq![commitment::fingerprint(sums)]);
        let views = transcript::traces_view(task.traces@);
        assert(views.len() == 1);
        statement_ring::lemma_commitment_read_back(sums);
    }
}

proof fn lemma_hint_shape(h: Seq<Seq<bool>>)
    ensures
        statement_batch::hint_error(h) is None <==> h.len() == 6 && forall|i: int|
            0 <= i < 6 ==> (#[trigger] h[i]).len() == 256,
{
    statement_faults::lemma_hint_shape_fault(h, 0);
    if h.len() == 6 && !(forall|i: int| 0 <= i < 6 ==> (#[trigger] h[i]).len() == 256) {
        let k = lemma_first_short(h, 0);
        statement_faults::lemma_hint_shape_fault(h, k);
    }
}

proof fn lemma_first_short(h: Seq<Seq<bool>>, i: int) -> (k: int)
    requires
        h.len() == 6,
        0 <= i < 6,
        forall|q: int| 0 <= q < i ==> (#[trigger] h[q]).len() == 256,
        !(forall|q: int| 0 <= q < 6 ==> (#[trigger] h[q]).len() == 256),
    ensures
        i <= k < 6,
        forall|q: int| 0 <= q < k ==> (#[trigger] h[q]).len() == 256,
        h[k].len() != 256,
    decreases 6 - i,
{
    if h[i].len() == 256 {
        lemma_first_short(h, i + 1)
    } else {
        i
    }
}

proof fn lemma_sum_range(h: Seq<Seq<bool>>, r: int)
    requires
        0 <= r < 2048,
    ensures
        0 <= mldsa_hint_weight_air::hint_table(h)[r][1] <= r + 1,
    decreases r,
{
    crate::trace_cells::lemma_hint_cells(h, r);
    if r > 0 {
        lemma_sum_range(h, r - 1);
    }
}

/// Whether place `k` holds the first coefficient that is no residue.
pub open spec fn first_bad(f: Seq<int>, k: int) -> bool {
    &&& 0 <= k < f.len()
    &&& !(0 <= f[k] < 8380417)
    &&& forall|q: int| 0 <= q < k ==> 0 <= #[trigger] f[q] < 8380417
}

/// Whether polynomial `j` is the first that has a coefficient that is no residue, and `k` the
/// place of its first.
pub open spec fn first_bad_in(v: Seq<Seq<int>>, j: int, k: int) -> bool {
    &&& 0 <= j < v.len()
    &&& first_bad(v[j], k)
    &&& forall|q: int| 0 <= q < j ==> statement_faults::all_residues(#[trigger] v[q])
}

/// A statement about one polynomial names it and its first coefficient that is no residue.
pub proof fn lemma_single_faults(
    f: &[i64; 256],
    h: &[bool; 256],
    ntt: Result<(Task, String, [i64; 256]), StatementError>,
    hint: Result<(Task, String, [i64; 256]), StatementError>,
    norm: Result<(Task, String, [i64; 256], i64), StatementError>,
    range: Result<(Task, String), StatementError>,
    k: int,
)
    requires
        call_ensures(statement_ring::prove_ntt, (f,), ntt),
        call_ensures(statement_ring::prove_use_hint, (f, h), hint),
        call_ensures(statement_ring::prove_norm_check, (f,), norm),
        call_ensures(statement_ring::prove_range_q, (f,), range),
        first_bad(transform::ints(f@), k),
    ensures
        ntt == Err::<(Task, String, [i64; 256]), StatementError>(
            StatementError::OutOfRange {
                input: Input::F,
                row: None,
                index: k as usize,
                value: f@[k],
            },
        ),
        hint == Err::<(Task, String, [i64; 256]), StatementError>(
            StatementError::OutOfRange {
                input: Input::R,
                row: None,
                index: k as usize,
                value: f@[k],
            },
        ),
        norm == Err::<(Task, String, [i64; 256], i64), StatementError>(
            StatementError::OutOfRange {
                input: Input::Z,
                row: None,
                index: k as usize,
                value: f@[k],
            },
        ),
        range == Err::<(Task, String), StatementError>(
            StatementError::OutOfRange {
                input: Input::Poly,
                row: None,
                index: k as usize,
                value: f@[k],
            },
        ),
{
    let x = transform::ints(f@);
    assert(x[k] == f@[k]);
    statement_faults::lemma_poly_fault(Input::F, None, x, k);
    statement_faults::lemma_poly_fault(Input::R, None, x, k);
    statement_faults::lemma_poly_fault(Input::Z, None, x, k);
    statement_faults::lemma_poly_fault(Input::Poly, None, x, k);
}

/// A statement about two polynomials names the one with the first coefficient that is no
/// residue, the first polynomial before the second at the same place.
pub proof fn lemma_pair_faults(
    a: &[i64; 256],
    b: &[i64; 256],
    product: Result<(Task, String, [i64; 256]), StatementError>,
    sum: Result<(Task, String, [i64; 256]), StatementError>,
    difference: Result<(Task, String, [i64; 256]), StatementError>,
    k: int,
)
    requires
        call_ensures(statement_ring::prove_poly_mul, (a, b), product),
        call_ensures(statement_ring::prove_poly_add, (a, b), sum),
        call_ensures(statement_ring::prove_poly_sub, (a, b), difference),
        0 <= k < 256,
        forall|q: int| 0 <= q < k ==> 0 <= #[trigger] transform::ints(a@)[q] < 8380417,
        forall|q: int| 0 <= q < k ==> 0 <= #[trigger] transform::ints(b@)[q] < 8380417,
        !(0 <= a@[k] < 8380417) || !(0 <= b@[k] < 8380417),
    ensures
        product == sum,
        product == difference,
        !(0 <= a@[k] < 8380417) ==> product == Err::<(Task, String, [i64; 256]), StatementError>(
            StatementError::OutOfRange {
                input: Input::A,
                row: None,
                index: k as usize,
                value: a@[k],
            },
        ),
        0 <= a@[k] < 8380417 ==> product == Err::<(Task, String, [i64; 256]), StatementError>(
            StatementError::OutOfRange {
                input: Input::B,
                row: None,
                index: k as usize,
                value: b@[k],
            },
        ),
{
    let x = transform::ints(a@);
    let y = transform::ints(b@);
    assert(x[k] == a@[k] && y[k] == b@[k]);
    statement_faults::lemma_pair_fault(Input::A, x, Input::B, y, None, k);
}

/// A statement about several polynomials names the input, the first polynomial that has a
/// coefficient that is no residue, and its first.
pub proof fn lemma_list_faults(
    m: &[[i64; 256]],
    zh: &[[i64; 256]; 5],
    seed: &[u8],
    z: &[[i64; 256]; 5],
    v: &[[i64; 256]; 6],
    h: &[[bool; 256]; 6],
    full: Result<(Task, String, [[i64; 256]; 6]), StatementError>,
    norm: Result<(Task, String, [[i64; 256]; 5], [i64; 5]), StatementError>,
    hint: Result<(Task, String, [[i64; 256]; 6]), StatementError>,
    weight: Result<(Task, String, [[i64; 256]; 6], usize), StatementError>,
    range: Result<(Task, String), StatementError>,
    ntt: Result<(Task, String, [[i64; 256]; 6]), StatementError>,
    intt: Result<(Task, String, [[i64; 256]; 6]), StatementError>,
    ntts: Result<(Task, String, Vec<[i64; 256]>), StatementError>,
    intts: Result<(Task, String, Vec<[i64; 256]>), StatementError>,
    j: int,
    k: int,
)
    requires
        call_ensures(statement_batch::prove_az_full, (m, zh, seed), full),
        call_ensures(statement_batch::prove_norm_check_batch, (z,), norm),
        call_ensures(statement_batch::prove_use_hint_batch, (v, h), hint),
        call_ensures(statement_batch::prove_use_hint_batch_v2, (v, h), weight),
        call_ensures(statement_batch::prove_range_q_batch, (v,), range),
        call_ensures(statement_batch::prove_ntt_batch, (v,), ntt),
        call_ensures(statement_batch::prove_intt_batch, (v,), intt),
        call_ensures(statement_batch::prove_ntt_batch_m, (m,), ntts),
        call_ensures(statement_batch::prove_intt_batch_m, (m,), intts),
    ensures
        m@.len() != 30 ==> full == Err::<(Task, String, [[i64; 256]; 6]), StatementError>(
            StatementError::MatrixSize { got: m@.len() as usize },
        ),
        m@.len() == 30 && first_bad_in(polyvec::polys(m@), j, k) ==> full == Err::<
            (Task, String, [[i64; 256]; 6]),
            StatementError,
        >(
            StatementError::OutOfRange {
                input: Input::AHat,
                row: Some(j as usize),
                index: k as usize,
                value: m@[j]@[k],
            },
        ),
        first_bad_in(polyvec::polys(z@), j, k) ==> norm == Err::<
            (Task, String, [[i64; 256]; 5], [i64; 5]),
            StatementError,
        >(
            StatementError::OutOfRange {
                input: Input::Z,
                row: Some(j as usize),
                index: k as usize,
                value: z@[j]@[k],
            },
        ),
        first_bad_in(polyvec::polys(v@), j, k) ==> {
            &&& hint == Err::<(Task, String, [[i64; 256]; 6]), StatementError>(
                StatementError::OutOfRange {
                input: Input::WPrime,
                row: Some(j as usize),
                index: k as usize,
                value: v@[j]@[k],
            },
            )
            &&& weight == Err::<(Task, String, [[i64; 256]; 6], usize), StatementError>(
                StatementError::OutOfRange {
                input: Input::WPrime,
                row: Some(j as usize),
                index: k as usize,
                value: v@[j]@[k],
            },
            )
            &&& range == Err::<(Task, String), StatementError>(
                StatementError::OutOfRange {
                input: Input::Polys,
                row: Some(j as usize),
                index: k as usize,
                value: v@[j]@[k],
            },
            )
            &&& ntt == Err::<(Task, String, [[i64; 256]; 6]), StatementError>(
                StatementError::OutOfRange {
                input: Input::Polys,
                row: Some(j as usize),
                index: k as usize,
                value: v@[j]@[k],
            },
            )
            &&& intt == ntt
        },
        m@.len() == 0 ==> ntts == Err::<(Task, String, Vec<[i64; 256]>), StatementError>(
            StatementError::Empty,
        ) && intts == ntts,
        first_bad_in(polyvec::polys(m@), j, k) ==> ntts == Err::<
            (Task, String, Vec<[i64; 256]>),
            StatementError,
        >(
            StatementError::OutOfRange {
                input: Input::Polys,
                row: Some(j as usize),
                index: k as usize,
                value: m@[j]@[k],
            },
        ) && intts == ntts,
{
    let x = polyvec::polys(m@);
    let y = polyvec::polys(z@);
    let w = polyvec::polys(v@);
    statement_faults::lemma_polys_fault(Input::AHat, x, j, k);
    statement_faults::lemma_polys_fault(Input::Polys, x, j, k);
    statement_faults::lemma_polys_fault(Input::Z, y, j, k);
    statement_faults::lemma_polys_fault(Input::WPrime, w, j, k);
    statement_faults::lemma_polys_fault(Input::Polys, w, j, k);
    if first_bad_in(x, j, k) {
        assert(x[j][k] == m@[j]@[k]);
    }
    if first_bad_in(y, j, k) {
        assert(y[j][k] == z@[j]@[k]);
    }
    if first_bad_in(w, j, k) {
        assert(w[j][k] == v@[j]@[k]);
    }
}

/// A statement about two sides searches the first side before the second: the challenge
/// before what it multiplies, and what is subtracted from before what is subtracted.
pub proof fn lemma_side_faults(
    c: &[i64; 256],
    t1: &[[i64; 256]; 6],
    seed: &[u8],
    ct1: Result<(Task, String, [[i64; 256]; 6]), StatementError>,
    a: &[[i64; 256]; 6],
    b: &[[i64; 256]; 6],
    wprime: Result<(Task, String, [[i64; 256]; 6]), StatementError>,
    bound: Result<(Task, String, String, [[i64; 256]; 6]), StatementError>,
    j: int,
    k: int,
)
    requires
        call_ensures(statement_batch::prove_ct1_full, (c, t1, seed), ct1),
        call_ensures(statement_batch::prove_wprime_full, (a, b), wprime),
        call_ensures(statement_batch::prove_wprime_full_bound, (a, b), bound),
    ensures
        first_bad(transform::ints(c@), k) ==> ct1 == Err::<
            (Task, String, [[i64; 256]; 6]),
            StatementError,
        >(
            StatementError::OutOfRange {
                input: Input::CHat,
                row: None,
                index: k as usize,
                value: c@[k],
            },
        ),
        statement_faults::all_residues(transform::ints(c@)) && first_bad_in(
            polyvec::polys(t1@),
            j,
            k,
        ) ==> ct1 == Err::<(Task, String, [[i64; 256]; 6]), StatementError>(
            StatementError::OutOfRange {
                input: Input::T1Hat,
                row: Some(j as usize),
                index: k as usize,
                value: t1@[j]@[k],
            },
        ),
        first_bad_in(polyvec::polys(a@), j, k) ==> {
            &&& wprime == Err::<(Task, String, [[i64; 256]; 6]), StatementError>(
                StatementError::OutOfRange {
                input: Input::Az,
                row: Some(j as usize),
                index: k as usize,
                value: a@[j]@[k],
            },
            )
            &&& bound is Err
            &&& bound->Err_0 == wprime->Err_0
        },
        (forall|q: int|
            0 <= q < 6 ==> statement_faults::all_residues(#[trigger] polyvec::polys(a@)[q]))
            && first_bad_in(polyvec::polys(b@), j, k) ==> {
            &&& wprime == Err::<(Task, String, [[i64; 256]; 6]), StatementError>(
                StatementError::OutOfRange {
                input: Input::Ct1,
                row: Some(j as usize),
                index: k as usize,
                value: b@[j]@[k],
            },
            )
            &&& bound is Err
            &&& bound->Err_0 == wprime->Err_0
        },
{
    let x = transform::ints(c@);
    let y = polyvec::polys(t1@);
    let u = polyvec::polys(a@);
    let v = polyvec::polys(b@);
    statement_faults::lemma_poly_fault(Input::CHat, None, x, k);
    statement_faults::lemma_polys_fault(Input::T1Hat, y, j, k);
    statement_faults::lemma_polys_fault(Input::Az, u, j, k);
    statement_faults::lemma_polys_fault(Input::Ct1, v, j, k);
    if first_bad(x, k) {
        assert(x[k] == c@[k]);
    }
    if first_bad_in(y, j, k) {
        assert(y[j][k] == t1@[j]@[k]);
    }
    if first_bad_in(u, j, k) {
        assert(u[j][k] == a@[j]@[k]);
    }
    if first_bad_in(v, j, k) {
        assert(v[j][k] == b@[j]@[k]);
    }
}

/// The product of a row searches its pairs in order, each by places, the row before the
/// vector.
pub proof fn lemma_row_faults(
    a: &[[i64; 256]; 5],
    z: &[[i64; 256]; 5],
    res: Result<(Task, String, [i64; 256]), StatementError>,
    j: int,
    k: int,
)
    requires
        call_ensures(statement_batch::prove_az_row, (a, z), res),
        0 <= j < 5,
        0 <= k < 256,
        forall|q: int|
            0 <= q < j ==> statement_faults::all_residues(#[trigger] polyvec::polys(a@)[q])
                && statement_faults::all_residues(polyvec::polys(z@)[q]),
        forall|q: int| 0 <= q < k ==> 0 <= #[trigger] polyvec::polys(a@)[j][q] < 8380417,
        forall|q: int| 0 <= q < k ==> 0 <= #[trigger] polyvec::polys(z@)[j][q] < 8380417,
    ensures
        !(0 <= a@[j]@[k] < 8380417) ==> res == Err::<(Task, String, [i64; 256]), StatementError>(
            StatementError::OutOfRange {
                input: Input::ARow,
                row: Some(j as usize),
                index: k as usize,
                value: a@[j]@[k],
            },
        ),
        0 <= a@[j]@[k] < 8380417 && !(0 <= z@[j]@[k] < 8380417) ==> res == Err::<
            (Task, String, [i64; 256]),
            StatementError,
        >(
            StatementError::OutOfRange {
                input: Input::ZHat,
                row: Some(j as usize),
                index: k as usize,
                value: z@[j]@[k],
            },
        ),
{
    let x = polyvec::polys(a@);
    let y = polyvec::polys(z@);
    assert(x[j][k] == a@[j]@[k] && y[j][k] == z@[j]@[k]);
    statement_faults::lemma_pair_fault(
        Input::ARow,
        x[j],
        Input::ZHat,
        y[j],
        Some(j as usize),
        k,
    );
    statement_faults::lemma_rows_fault(x, y, j);
}

} // verus!
