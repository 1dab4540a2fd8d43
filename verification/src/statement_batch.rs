//! Statements about several polynomials of one kind.
use crate::bytes;
use crate::columns;
use crate::commitment;
use crate::mldsa::hints;
use crate::mldsa::params::{K, L, N};
use crate::mldsa::poly;
use crate::mldsa::polyvec;
use crate::mldsa::transform;
use crate::mldsa_az_air;
use crate::mldsa_az_full_air;
use crate::mldsa_ct1_full_air;
use crate::mldsa_hint_weight_air;
use crate::mldsa_intt_batch_air;
use crate::mldsa_norm_check_air;
use crate::mldsa_norm_check_batch_air;
use crate::rows;
use crate::statement_ring;
use crate::transcript;
use crate::transcript::{Circuit, Component, Input, Replay, StatementError, Task, Transcript, TranscriptView};
use vstd::prelude::*;
use vstd::string::*;
use vstd::utf8::*;

verus! {

/// The transcript of a statement that is bound to a seed, to its inputs and to its
/// output.
pub open spec fn io_transcript(
    seed: Seq<u8>,
    c: Component,
    input: Seq<u32>,
    output: Seq<u32>,
) -> TranscriptView {
    transcript::nothing().seed(seed).component(c).message(input).message(output)
}

/// Whether a statement with one component is bound to a seed, to its inputs and to
/// its output, with the commitment `text` to the output.
pub open spec fn commits_to_io(
    task: Task,
    text: Seq<char>,
    seed: Seq<u8>,
    c: Component,
    input: Seq<int>,
    output: Seq<int>,
    trace: Option<Seq<Seq<u32>>>,
) -> bool {
    &&& text == commitment::poly_commitment(commitment::fingerprint(output))
    &&& statement_ring::is_task(
        task,
        io_transcript(
            seed,
            c,
            commitment::fingerprint(input),
            commitment::fingerprint(output),
        ),
        c.log_n_rows,
        seq![trace],
    )
}

/// Whether a verifier replays the transcript that is bound to a seed, to the inputs
/// and to the commitment `text`, or refuses the commitment.
pub open spec fn replays_io(
    res: Result<Replay, StatementError>,
    text: Seq<u8>,
    seed: Seq<u8>,
    c: Component,
    input: Seq<int>,
) -> bool {
    match commitment::fingerprint_in(text) {
        Some(fp) => {
            &&& res is Ok
            &&& res->Ok_0.transcript@ == io_transcript(
                seed,
                c,
                commitment::fingerprint(input),
                fp,
            )
            &&& res->Ok_0.lifting is None
        },
        None => res matches Err(StatementError::Commitment(e)) && commitment::is_fingerprint_fault(
            text,
            e,
        ),
    }
}

/// Who verifies a statement with the prover's inputs, seed and commitment replays the
/// prover's transcript.
pub proof fn lemma_io_replayed(
    res: Result<Replay, StatementError>,
    task: Task,
    text: Seq<char>,
    seed: Seq<u8>,
    c: Component,
    input: Seq<int>,
    output: Seq<int>,
    trace: Option<Seq<Seq<u32>>>,
)
    requires
        commits_to_io(task, text, seed, c, input, output, trace),
        replays_io(res, encode_utf8(text), seed, c, input),
    ensures
        res is Ok,
        res->Ok_0.transcript@ == task.transcript@,
{
    statement_ring::lemma_commitment_read_back(output);
}

/// Transcripts bound to different inputs or outputs, or to different seeds of one length,
/// differ; so do one with a seed and one without.
pub proof fn lemma_io_bound(
    s: Seq<u8>,
    t: Seq<u8>,
    c: Component,
    a: Seq<u32>,
    b: Seq<u32>,
    x: Seq<u32>,
    y: Seq<u32>,
)
    requires
        io_transcript(s, c, a, b) == io_transcript(t, c, x, y),
    ensures
        s.len() == 0 <==> t.len() == 0,
        s.len() == t.len() ==> s == t,
        a == x,
        b == y,
{
    let p = io_transcript(s, c, a, b);
    let q = io_transcript(t, c, x, y);
    assert(p.messages[0] == a && q.messages[0] == x);
    assert(p.messages[1] == b && q.messages[1] == y);
    assert(p.seeds =~= transcript::seeded(s));
    assert(q.seeds =~= transcript::seeded(t));
    transcript::lemma_seeded(s, t);
}

fn io_task(
    seed: &[u8],
    circuit: Circuit,
    log_n_rows: u32,
    input: &[u32; 4],
    output: &[u32; 4],
    trace: Option<Vec<Vec<u32>>>,
) -> (task: Task)
    ensures
        statement_ring::is_task(
            task,
            io_transcript(seed@, Component { circuit, log_n_rows }, input@, output@),
            log_n_rows,
            seq![transcript::trace_view(trace)],
        ),
{
    let mut t: Transcript = Transcript::new();
    t.seed(seed);
    t.component(circuit, log_n_rows);
    t.message(input.as_slice());
    t.message(output.as_slice());
    let mut traces: Vec<Option<Vec<Vec<u32>>>> = Vec::new();
    traces.push(trace);
    proof {
        assert(transcript::traces_view(traces@) =~= seq![transcript::trace_view(trace)]);
    }
    Task { transcript: t, log_size: log_n_rows, preprocessed: Vec::new(), traces }
}

fn replay_io(
    seed: &[u8],
    circuit: Circuit,
    log_n_rows: u32,
    input: &[u32; 4],
    output: &[u32; 4],
) -> (r: Replay)
    ensures
        r.transcript@ == io_transcript(seed@, Component { circuit, log_n_rows }, input@, output@),
        r.lifting is None,
{
    let mut t: Transcript = Transcript::new();
    t.seed(seed);
    t.component(circuit, log_n_rows);
    t.message(input.as_slice());
    t.message(output.as_slice());
    Replay { transcript: t, lifting: None }
}

/// What is wrong with rows of two lists of five polynomials from row `j` on.
pub open spec fn rows_error_from(a: Seq<Seq<int>>, z: Seq<Seq<int>>, j: nat) -> Option<
    StatementError,
>
    decreases 5 - j,
{
    if j >= 5 {
        None
    } else {
        match transcript::pair_error_from(
            Input::ARow,
            a[j as int],
            Input::ZHat,
            z[j as int],
            Some(j as usize),
            0,
        ) {
            Some(e) => Some(e),
            None => rows_error_from(a, z, j + 1),
        }
    }
}

fn check_rows(a: &[[i64; 256]; 5], z: &[[i64; 256]; 5]) -> (res: Option<StatementError>)
    ensures
        res == rows_error_from(polyvec::polys(a@), polyvec::polys(z@), 0),
        res is None ==> polyvec::all_elems(polyvec::polys(a@)) && polyvec::all_elems(
            polyvec::polys(z@),
        ),
{
    let ghost x = polyvec::polys(a@);
    let ghost y = polyvec::polys(z@);
    let mut j: usize = 0;
    while j < L
        invariant
            j <= 5,
            x == polyvec::polys(a@),
            y == polyvec::polys(z@),
            rows_error_from(x, y, 0) == rows_error_from(x, y, j as nat),
            forall|k: int| 0 <= k < j ==> transform::is_elem(#[trigger] x[k]),
            forall|k: int| 0 <= k < j ==> transform::is_elem(#[trigger] y[k]),
        decreases 5 - j,
    {
        match transcript::check_pair(Input::ARow, &a[j], Input::ZHat, &z[j], Some(j)) {
            Some(e) => {
                return Some(e);
            },
            None => {},
        }
        j = j + 1;
    }
    None
}

/// States that the result is the product of a row of the matrix and a vector.
pub fn prove_az_row(a_row: &[[i64; 256]; 5], z_hat: &[[i64; 256]; 5]) -> (res: Result<
    (Task, String, [i64; 256]),
    StatementError,
>)
    ensures
        ({
            let a = polyvec::polys(a_row@);
            let z = polyvec::polys(z_hat@);
            match rows_error_from(a, z, 0) {
                Some(e) => res == Err::<(Task, String, [i64; 256]), StatementError>(e),
                None => {
                    let out = polyvec::dot(a, z, 5);
                    &&& res is Ok
                    &&& transform::ints(res->Ok_0.2@) == out
                    &&& commits_to_io(
                        res->Ok_0.0,
                        res->Ok_0.1@,
                        seq![],
                        transcript::rows_256(Circuit::AzRow),
                        transcript::flat(z),
                        out,
                        Some(columns::columns(mldsa_az_air::az_table(a, z), 258)),
                    )
                },
            }
        }),
{
    match check_rows(a_row, z_hat) {
        Some(e) => {
            return Err(e);
        },
        None => {},
    }
    let (cols, out) = mldsa_az_air::build_trace(a_row, z_hat);
    proof {
        assert(transcript::words(cols@) == columns::views(cols@));
    }
    let input_fp: [u32; 4] = transcript::fingerprint_all(z_hat.as_slice());
    let output_fp: [u32; 4] = commitment::output_fingerprint(out.as_slice());
    let seed: [u8; 0] = [];
    proof {
        assert(seed@ =~= seq![]);
    }
    let task = io_task(seed.as_slice(), Circuit::AzRow, 8, &input_fp, &output_fp, Some(cols));
    Ok((task, commitment::build_poly_commitment(&output_fp), out))
}

/// What the verifier of a row of the product replays.
pub fn verify_az_row(commitment_hex: &str, z_hat: &[[i64; 256]]) -> (res: Result<
    Replay,
    StatementError,
>)
    ensures
        replays_io(
            res,
            commitment_hex.spec_bytes(),
            seq![],
            transcript::rows_256(Circuit::AzRow),
            transcript::flat(polyvec::polys(z_hat@)),
        ),
{
    let output_fp: [u32; 4] = match commitment::parse_poly_commitment(commitment_hex) {
        Ok(fp) => fp,
        Err(e) => {
            return Err(StatementError::Commitment(e));
        },
    };
    let input_fp: [u32; 4] = transcript::fingerprint_all(z_hat);
    let seed: [u8; 0] = [];
    proof {
        assert(seed@ =~= seq![]);
    }
    Ok(replay_io(seed.as_slice(), Circuit::AzRow, 8, &input_fp, &output_fp))
}

/// What is wrong with a matrix, if anything.
pub open spec fn matrix_error(a: Seq<Seq<int>>) -> Option<StatementError> {
    if a.len() != 30 {
        Some(StatementError::MatrixSize { got: a.len() as usize })
    } else {
        transcript::polys_error(Input::AHat, a)
    }
}

/// States that the result is the product of the matrix and a vector.
pub fn prove_az_full(a_hat: &[[i64; 256]], z_hat: &[[i64; 256]; 5], c_tilde_seed: &[u8]) -> (res:
    Result<(Task, String, [[i64; 256]; 6]), StatementError>)
    requires
        polyvec::all_elems(polyvec::polys(z_hat@)),
    ensures
        ({
            let a = polyvec::polys(a_hat@);
            let z = polyvec::polys(z_hat@);
            match matrix_error(a) {
                Some(e) => res == Err::<(Task, String, [[i64; 256]; 6]), StatementError>(e),
                None => {
                    let m = mldsa_az_full_air::matrix_of(a);
                    let out = polyvec::mat_vec(m, z);
                    &&& res is Ok
                    &&& polyvec::polys(res->Ok_0.2@) == out
                    &&& commits_to_io(
                        res->Ok_0.0,
                        res->Ok_0.1@,
                        c_tilde_seed@,
                        transcript::rows_256(Circuit::AzFull),
                        transcript::flat(z),
                        transcript::flat(out),
                        Some(columns::columns(mldsa_az_full_air::full_table(m, z), 1523)),
                    )
                },
            }
        }),
{
    if a_hat.len() != K * L {
        return Err(StatementError::MatrixSize { got: a_hat.len() });
    }
    match transcript::check_polys(Input::AHat, a_hat) {
        Some(e) => {
            return Err(e);
        },
        None => {},
    }
    let (cols, out) = mldsa_az_full_air::build_trace(a_hat, z_hat);
    proof {
        assert(transcript::words(cols@) == columns::views(cols@));
    }
    let input_fp: [u32; 4] = transcript::fingerprint_all(z_hat.as_slice());
    let output_fp: [u32; 4] = transcript::fingerprint_all(out.as_slice());
    let task = io_task(c_tilde_seed, Circuit::AzFull, 8, &input_fp, &output_fp, Some(cols));
    Ok((task, commitment::build_poly_commitment(&output_fp), out))
}

/// What the verifier of the product of the matrix and a vector replays.
pub fn verify_az_full(
    commitment_hex: &str,
    z_hat: &[[i64; 256]; 5],
    c_tilde_seed: &[u8],
) -> (res: Result<Replay, StatementError>)
    ensures
        replays_io(
            res,
            commitment_hex.spec_bytes(),
            c_tilde_seed@,
            transcript::rows_256(Circuit::AzFull),
            transcript::flat(polyvec::polys(z_hat@)),
        ),
{
    let input_fp: [u32; 4] = transcript::fingerprint_all(z_hat.as_slice());
    match commitment::parse_poly_commitment(commitment_hex) {
        Ok(fp) => Ok(replay_io(c_tilde_seed, Circuit::AzFull, 8, &input_fp, &fp)),
        Err(e) => Err(StatementError::Commitment(e)),
    }
}

/// The challenge followed by the polynomials of `t1`.
pub open spec fn ct1_inputs(c: Seq<int>, t1: Seq<Seq<int>>) -> Seq<Seq<int>> {
    seq![c] + t1
}

/// The fingerprint of the challenge followed by the polynomials of `t1`.
pub fn fingerprint_ct1(c_hat: &[i64; 256], t1_hat: &[[i64; 256]]) -> (fp: [u32; 4])
    ensures
        fp@ == commitment::fingerprint(
            transcript::flat(ct1_inputs(transform::ints(c_hat@), polyvec::polys(t1_hat@))),
        ),
        commitment::is_fingerprint(fp@),
{
    let first: [[i64; 256]; 1] = [*c_hat];
    proof {
        assert(polyvec::polys(first@) =~= seq![transform::ints(c_hat@)]);
    }
    transcript::fingerprint_both(first.as_slice(), t1_hat)
}

/// What is wrong with a challenge and the polynomials of `t1`, if anything.
pub open spec fn ct1_error(c: Seq<int>, t1: Seq<Seq<int>>) -> Option<StatementError> {
    match transcript::poly_error(Input::CHat, None, c) {
        Some(e) => Some(e),
        None => transcript::polys_error(Input::T1Hat, t1),
    }
}

/// States that the results are the products of the challenge and the polynomials of
/// `t1`, entry by entry.
pub fn prove_ct1_full(
    c_hat: &[i64; 256],
    t1_hat: &[[i64; 256]; 6],
    c_tilde_seed: &[u8],
) -> (res: Result<(Task, String, [[i64; 256]; 6]), StatementError>)
    ensures
        ({
            let c = transform::ints(c_hat@);
            let t1 = polyvec::polys(t1_hat@);
            match ct1_error(c, t1) {
                Some(e) => res == Err::<(Task, String, [[i64; 256]; 6]), StatementError>(e),
                None => {
                    let out = mldsa_ct1_full_air::products(c, t1);
                    &&& res is Ok
                    &&& polyvec::polys(res->Ok_0.2@) == out
                    &&& commits_to_io(
                        res->Ok_0.0,
                        res->Ok_0.1@,
                        c_tilde_seed@,
                        transcript::rows_256(Circuit::Ct1Full),
                        transcript::flat(ct1_inputs(c, t1)),
                        transcript::flat(out),
                        Some(columns::columns(mldsa_ct1_full_air::ct1_table(c, t1), 295)),
                    )
                },
            }
        }),
{
    match transcript::check_poly(Input::CHat, None, c_hat) {
        Some(e) => {
            return Err(e);
        },
        None => {},
    }
    match transcript::check_polys(Input::T1Hat, t1_hat.as_slice()) {
        Some(e) => {
            return Err(e);
        },
        None => {},
    }
    let (cols, out) = mldsa_ct1_full_air::build_trace(c_hat, t1_hat);
    proof {
        assert(transcript::words(cols@) == columns::views(cols@));
    }
    let input_fp: [u32; 4] = fingerprint_ct1(c_hat, t1_hat.as_slice());
    let output_fp: [u32; 4] = transcript::fingerprint_all(out.as_slice());
    let task = io_task(c_tilde_seed, Circuit::Ct1Full, 8, &input_fp, &output_fp, Some(cols));
    Ok((task, commitment::build_poly_commitment(&output_fp), out))
}

/// What the verifier of the products with the challenge replays.
pub fn verify_ct1_full(
    commitment_hex: &str,
    c_hat: &[i64; 256],
    t1_hat: &[[i64; 256]; 6],
    c_tilde_seed: &[u8],
) -> (res: Result<Replay, StatementError>)
    ensures
        replays_io(
            res,
            commitment_hex.spec_bytes(),
            c_tilde_seed@,
            transcript::rows_256(Circuit::Ct1Full),
            transcript::flat(ct1_inputs(transform::ints(c_hat@), polyvec::polys(t1_hat@))),
        ),
{
    let input_fp: [u32; 4] = fingerprint_ct1(c_hat, t1_hat.as_slice());
    match commitment::parse_poly_commitment(commitment_hex) {
        Ok(fp) => Ok(replay_io(c_tilde_seed, Circuit::Ct1Full, 8, &input_fp, &fp)),
        Err(e) => Err(StatementError::Commitment(e)),
    }
}

/// What is wrong with the terms of a difference, if anything.
pub open spec fn wprime_error(az: Seq<Seq<int>>, ct1: Seq<Seq<int>>) -> Option<StatementError> {
    match transcript::polys_error(Input::Az, az) {
        Some(e) => Some(e),
        None => transcript::polys_error(Input::Ct1, ct1),
    }
}

fn check_wprime(az: &[[i64; 256]; 6], ct1: &[[i64; 256]; 6]) -> (res: Option<StatementError>)
    ensures
        res == wprime_error(polyvec::polys(az@), polyvec::polys(ct1@)),
        res is None ==> polyvec::all_elems(polyvec::polys(az@)) && polyvec::all_elems(
            polyvec::polys(ct1@),
        ),
{
    match transcript::check_polys(Input::Az, az.as_slice()) {
        Some(e) => Some(e),
        None => transcript::check_polys(Input::Ct1, ct1.as_slice()),
    }
}

/// States that the results are the differences of `az` and `ct1`.
pub fn prove_wprime_full(az: &[[i64; 256]; 6], ct1: &[[i64; 256]; 6]) -> (res: Result<
    (Task, String, [[i64; 256]; 6]),
    StatementError,
>)
    ensures
        ({
            let x = polyvec::polys(az@);
            let y = polyvec::polys(ct1@);
            match wprime_error(x, y) {
                Some(e) => res == Err::<(Task, String, [[i64; 256]; 6]), StatementError>(e),
                None => {
                    &&& res is Ok
                    &&& polyvec::polys(res->Ok_0.2@) == polyvec::vec_sub(x, y)
                    &&& statement_ring::commits_to(
                        res->Ok_0.0,
                        res->Ok_0.1@,
                        transcript::rows_256(Circuit::WPrimeFull),
                        transcript::flat(polyvec::vec_sub(x, y)),
                        None,
                    )
                },
            }
        }),
{
    match check_wprime(az, ct1) {
        Some(e) => {
            return Err(e);
        },
        None => {},
    }
    let out: [[i64; 256]; 6] = rows::sub_rows(az, ct1);
    let (task, text) = statement_ring::bind_outputs(
        Circuit::WPrimeFull,
        8,
        out.as_slice(),
        None,
    );
    Ok((task, text, out))
}

/// What the verifier of the differences replays.
pub fn verify_wprime_full(commitment_hex: &str) -> (res: Result<Replay, StatementError>)
    ensures
        statement_ring::replays_output(
            res,
            commitment_hex.spec_bytes(),
            transcript::rows_256(Circuit::WPrimeFull),
        ),
{
    statement_ring::replay_output(Circuit::WPrimeFull, 8, commitment_hex)
}

/// States that the results are the differences of `az` and `ct1`, bound to these as
/// well; the first commitment is to them.
pub fn prove_wprime_full_bound(az: &[[i64; 256]; 6], ct1: &[[i64; 256]; 6]) -> (res: Result<
    (Task, String, String, [[i64; 256]; 6]),
    StatementError,
>)
    ensures
        ({
            let x = polyvec::polys(az@);
            let y = polyvec::polys(ct1@);
            match wprime_error(x, y) {
                Some(e) => res == Err::<(Task, String, String, [[i64; 256]; 6]), StatementError>(
                    e,
                ),
                None => {
                    &&& res is Ok
                    &&& polyvec::polys(res->Ok_0.3@) == polyvec::vec_sub(x, y)
                    &&& res->Ok_0.1@ == commitment::poly_commitment(
                        commitment::fingerprint(transcript::flat(x + y)),
                    )
                    &&& commits_to_io(
                        res->Ok_0.0,
                        res->Ok_0.2@,
                        seq![],
                        transcript::rows_256(Circuit::WPrimeFull),
                        transcript::flat(x + y),
                        transcript::flat(polyvec::vec_sub(x, y)),
                        None,
                    )
                },
            }
        }),
{
    match check_wprime(az, ct1) {
        Some(e) => {
            return Err(e);
        },
        None => {},
    }
    let out: [[i64; 256]; 6] = rows::sub_rows(az, ct1);
    let input_fp: [u32; 4] = transcript::fingerprint_both(az.as_slice(), ct1.as_slice());
    let output_fp: [u32; 4] = transcript::fingerprint_all(out.as_slice());
    let seed: [u8; 0] = [];
    proof {
        assert(seed@ =~= seq![]);
    }
    let task = io_task(seed.as_slice(), Circuit::WPrimeFull, 8, &input_fp, &output_fp, None);
    Ok(
        (
            task,
            commitment::build_poly_commitment(&input_fp),
            commitment::build_poly_commitment(&output_fp),
            out,
        ),
    )
}

/// What the verifier of the differences and of what they come from replays.
pub fn verify_wprime_full_bound(input_cm: &str, output_cm: &str) -> (res: Result<
    Replay,
    StatementError,
>)
    ensures
        match commitment::fingerprint_in(input_cm.spec_bytes()) {
            None => res matches Err(StatementError::Commitment(e))
                && commitment::is_fingerprint_fault(input_cm.spec_bytes(), e),
            Some(input) => match commitment::fingerprint_in(output_cm.spec_bytes()) {
                None => res matches Err(StatementError::Commitment(e))
                    && commitment::is_fingerprint_fault(output_cm.spec_bytes(), e),
                Some(output) => {
                    &&& res is Ok
                    &&& res->Ok_0.transcript@ == io_transcript(
                        seq![],
                        transcript::rows_256(Circuit::WPrimeFull),
                        input,
                        output,
                    )
                    &&& res->Ok_0.lifting is None
                },
            },
        },
{
    let input_fp: [u32; 4] = match commitment::parse_poly_commitment(input_cm) {
        Ok(fp) => fp,
        Err(e) => {
            return Err(StatementError::Commitment(e));
        },
    };
    let output_fp: [u32; 4] = match commitment::parse_poly_commitment(output_cm) {
        Ok(fp) => fp,
        Err(e) => {
            return Err(StatementError::Commitment(e));
        },
    };
    let seed: [u8; 0] = [];
    proof {
        assert(seed@ =~= seq![]);
    }
    Ok(replay_io(seed.as_slice(), Circuit::WPrimeFull, 8, &input_fp, &output_fp))
}

/// The norms of the coefficients of some polynomials.
pub open spec fn all_norms(z: Seq<Seq<int>>) -> Seq<Seq<int>> {
    Seq::new(z.len(), |j: int| mldsa_norm_check_air::norms(z[j]))
}

/// Whether `m` holds the norms of five polynomials.
pub open spec fn are_norms(m: Seq<i64>, z: Seq<Seq<int>>) -> bool {
    m.len() == 5 && forall|j: int| 0 <= j < 5 ==> #[trigger] m[j] == poly::inf_norm(z[j])
}

/// Builds the trace of the norm check of five polynomials, their norms and the norms
/// of their coefficients.
pub fn norm_trace(z: &[[i64; 256]; 5]) -> (r: (Vec<Vec<u32>>, [[i64; 256]; 5], [i64; 5]))
    requires
        polyvec::all_elems(polyvec::polys(z@)),
    ensures
        transcript::words(r.0@) == columns::columns(
            mldsa_norm_check_batch_air::batch_table(polyvec::polys(z@)),
            15,
        ),
        polyvec::polys(r.1@) == all_norms(polyvec::polys(z@)),
        are_norms(r.2@, polyvec::polys(z@)),
{
    let (cols, norms, max_norms) = mldsa_norm_check_batch_air::build_trace(z);
    proof {
        assert(transcript::words(cols@) == columns::views(cols@));
        assert(polyvec::polys(norms@) =~= all_norms(polyvec::polys(z@)));
    }
    (cols, norms, max_norms)
}

/// States that the results hold the norms of the coefficients of five polynomials;
/// the last part of the result holds the norms of the polynomials.
pub fn prove_norm_check_batch(z: &[[i64; 256]; 5]) -> (res: Result<
    (Task, String, [[i64; 256]; 5], [i64; 5]),
    StatementError,
>)
    ensures
        ({
            let zs = polyvec::polys(z@);
            match transcript::polys_error(Input::Z, zs) {
                Some(e) => res == Err::<
                    (Task, String, [[i64; 256]; 5], [i64; 5]),
                    StatementError,
                >(e),
                None => {
                    &&& res is Ok
                    &&& polyvec::polys(res->Ok_0.2@) == all_norms(zs)
                    &&& are_norms(res->Ok_0.3@, zs)
                    &&& statement_ring::commits_to(
                        res->Ok_0.0,
                        res->Ok_0.1@,
                        transcript::rows_256(Circuit::NormCheckBatch),
                        transcript::flat(all_norms(zs)),
                        Some(columns::columns(mldsa_norm_check_batch_air::batch_table(zs), 15)),
                    )
                },
            }
        }),
{
    match transcript::check_polys(Input::Z, z.as_slice()) {
        Some(e) => {
            return Err(e);
        },
        None => {},
    }
    let (cols, norms, max_norms) = norm_trace(z);
    let (task, text) = statement_ring::bind_outputs(
        Circuit::NormCheckBatch,
        8,
        norms.as_slice(),
        Some(cols),
    );
    Ok((task, text, norms, max_norms))
}

/// What the verifier of the norms of five polynomials replays.
pub fn verify_norm_check_batch(commitment_hex: &str) -> (res: Result<Replay, StatementError>)
    ensures
        statement_ring::replays_output(
            res,
            commitment_hex.spec_bytes(),
            transcript::rows_256(Circuit::NormCheckBatch),
        ),
{
    statement_ring::replay_output(Circuit::NormCheckBatch, 8, commitment_hex)
}

/// States that the results hold the high parts of six polynomials, corrected by
/// hints.
pub fn prove_use_hint_batch(w_prime: &[[i64; 256]; 6], hints: &[[bool; 256]; 6]) -> (res: Result<
    (Task, String, [[i64; 256]; 6]),
    StatementError,
>)
    ensures
        ({
            let w = polyvec::polys(w_prime@);
            match transcript::polys_error(Input::WPrime, w) {
                Some(e) => res == Err::<(Task, String, [[i64; 256]; 6]), StatementError>(e),
                None => {
                    let out = polyvec::vec_use_hint(w, rows::hint_rows(hints@));
                    &&& res is Ok
                    &&& polyvec::polys(res->Ok_0.2@) == out
                    &&& statement_ring::commits_to(
                        res->Ok_0.0,
                        res->Ok_0.1@,
                        transcript::rows_256(Circuit::UseHintBatch),
                        transcript::flat(out),
                        None,
                    )
                },
            }
        }),
{
    match transcript::check_polys(Input::WPrime, w_prime.as_slice()) {
        Some(e) => {
            return Err(e);
        },
        None => {},
    }
    let out: [[i64; 256]; 6] = rows::hint_all(w_prime, hints);
    let (task, text) = statement_ring::bind_outputs(
        Circuit::UseHintBatch,
        8,
        out.as_slice(),
        None,
    );
    Ok((task, text, out))
}

/// What the verifier of corrected high parts of six polynomials replays.
pub fn verify_use_hint_batch(commitment_hex: &str) -> (res: Result<Replay, StatementError>)
    ensures
        statement_ring::replays_output(
            res,
            commitment_hex.spec_bytes(),
            transcript::rows_256(Circuit::UseHintBatch),
        ),
{
    statement_ring::replay_output(Circuit::UseHintBatch, 8, commitment_hex)
}

/// The coefficients of `w1` followed by the weight of the hint.
pub open spec fn with_weight(w1: Seq<Seq<int>>, weight: int) -> Seq<int> {
    transcript::flat(w1).push(weight)
}

/// The fingerprint of `w1` and the weight of the hint.
pub fn fingerprint_weight(w1: &[[i64; 256]; 6], weight: usize) -> (fp: [u32; 4])
    ensures
        fp@ == commitment::fingerprint(with_weight(polyvec::polys(w1@), weight as int)),
        commitment::is_fingerprint(fp@),
{
    let mut out: Vec<i64> = Vec::new();
    transcript::push_flat(&mut out, w1.as_slice());
    let ghost mid = transform::ints(out@);
    let low: u64 = weight as u64 % 4294967296;
    out.push(low as i64);
    proof {
        assert(mid =~= transcript::flat(polyvec::polys(w1@)));
        commitment::lemma_fingerprint_congruent(
            transform::ints(out@),
            with_weight(polyvec::polys(w1@), weight as int),
        );
    }
    commitment::output_fingerprint(out.as_slice())
}

/// States that the results hold the high parts of six polynomials, corrected by
/// hints, and the weight of the hint.
pub fn prove_use_hint_batch_v2(w_prime: &[[i64; 256]; 6], hints: &[[bool; 256]; 6]) -> (res: Result<
    (Task, String, [[i64; 256]; 6], usize),
    StatementError,
>)
    ensures
        ({
            let w = polyvec::polys(w_prime@);
            let h = rows::hint_rows(hints@);
            match transcript::polys_error(Input::WPrime, w) {
                Some(e) => res == Err::<(Task, String, [[i64; 256]; 6], usize), StatementError>(e),
                None => {
                    let out = polyvec::vec_use_hint(w, h);
                    &&& res is Ok
                    &&& polyvec::polys(res->Ok_0.2@) == out
                    &&& res->Ok_0.3 == hints::total_weight(h, 6)
                    &&& statement_ring::commits_to(
                        res->Ok_0.0,
                        res->Ok_0.1@,
                        transcript::rows_256(Circuit::UseHintWeight),
                        with_weight(out, hints::total_weight(h, 6) as int),
                        None,
                    )
                },
            }
        }),
{
    match transcript::check_polys(Input::WPrime, w_prime.as_slice()) {
        Some(e) => {
            return Err(e);
        },
        None => {},
    }
    let out: [[i64; 256]; 6] = rows::hint_all(w_prime, hints);
    let total: usize = rows::weight(hints);
    let mut flat: Vec<i64> = Vec::new();
    transcript::push_flat(&mut flat, out.as_slice());
    let ghost mid = transform::ints(flat@);
    flat.push(total as i64);
    proof {
        assert(mid =~= transcript::flat(polyvec::polys(out@)));
        assert(transform::ints(flat@) =~= with_weight(polyvec::polys(out@), total as int));
    }
    let (task, text) = statement_ring::bind_output(
        Circuit::UseHintWeight,
        8,
        flat.as_slice(),
        None,
    );
    Ok((task, text, out, total))
}

/// Whether `text` is the commitment to a fingerprint.
pub open spec fn is_commitment_to(text: Seq<u8>, fp: Seq<u32>) -> bool {
    encode_utf8(commitment::poly_commitment(fp)) == text
}

/// Whether a text is the commitment to a fingerprint.
pub fn commits(text: &str, fp: &[u32; 4]) -> (r: bool)
    ensures
        r == is_commitment_to(text.spec_bytes(), fp@),
{
    let expected: String = commitment::build_poly_commitment(fp);
    bytes::equal(expected.as_str().as_bytes(), text.as_bytes())
}

/// What the verifier of corrected high parts and of the weight of the hint replays;
/// none where the commitment is not to them.
pub fn verify_use_hint_batch_v2(
    commitment_hex: &str,
    w1_out: &[[i64; 256]; 6],
    hint_weight_total: usize,
) -> (res: Option<Replay>)
    ensures
        ({
            let fp = commitment::fingerprint(
                with_weight(polyvec::polys(w1_out@), hint_weight_total as int),
            );
            if is_commitment_to(commitment_hex.spec_bytes(), fp) {
                &&& res is Some
                &&& res->Some_0.transcript@ == statement_ring::output_transcript(
                    transcript::rows_256(Circuit::UseHintWeight),
                    fp,
                )
                &&& res->Some_0.lifting is None
            } else {
                res is None
            }
        }),
{
    let fp: [u32; 4] = fingerprint_weight(w1_out, hint_weight_total);
    if !commits(commitment_hex, &fp) {
        return None;
    }
    let mut t: Transcript = Transcript::new();
    t.component(Circuit::UseHintWeight, 8);
    t.message(fp.as_slice());
    Some(Replay { transcript: t, lifting: None })
}

/// States that all coefficients of six polynomials are residues. The commitment is to
/// the polynomials.
pub fn prove_range_q_batch(polys: &[[i64; 256]; 6]) -> (res: Result<
    (Task, String),
    StatementError,
>)
    ensures
        match transcript::polys_error(Input::Polys, polyvec::polys(polys@)) {
            Some(e) => res == Err::<(Task, String), StatementError>(e),
            None => res is Ok && statement_ring::commits_to(
                res->Ok_0.0,
                res->Ok_0.1@,
                transcript::rows_256(Circuit::RangeQBatch),
                transcript::flat(polyvec::polys(polys@)),
                None,
            ),
        },
{
    match transcript::check_polys(Input::Polys, polys.as_slice()) {
        Some(e) => {
            return Err(e);
        },
        None => {},
    }
    Ok(statement_ring::bind_outputs(Circuit::RangeQBatch, 8, polys.as_slice(), None))
}

/// What the verifier of the ranges of six polynomials replays.
pub fn verify_range_q_batch(commitment_hex: &str) -> (res: Result<Replay, StatementError>)
    ensures
        statement_ring::replays_output(
            res,
            commitment_hex.spec_bytes(),
            transcript::rows_256(Circuit::RangeQBatch),
        ),
{
    statement_ring::replay_output(Circuit::RangeQBatch, 8, commitment_hex)
}

/// What is wrong with a list of polynomials, if anything.
pub open spec fn list_error(v: Seq<Seq<int>>) -> Option<StatementError> {
    if v.len() == 0 {
        Some(StatementError::Empty)
    } else {
        transcript::polys_error(Input::Polys, v)
    }
}

/// States that the results are the transforms of polynomials.
pub fn prove_ntt_batch_m(polys: &[[i64; 256]]) -> (res: Result<
    (Task, String, Vec<[i64; 256]>),
    StatementError,
>)
    ensures
        ({
            let ps = polyvec::polys(polys@);
            match list_error(ps) {
                Some(e) => res == Err::<(Task, String, Vec<[i64; 256]>), StatementError>(e),
                None => {
                    &&& res is Ok
                    &&& polyvec::polys(res->Ok_0.2@) == polyvec::vec_ntt(ps)
                    &&& statement_ring::commits_to(
                        res->Ok_0.0,
                        res->Ok_0.1@,
                        transcript::rows_1024(
                            Circuit::NttBatch { n_polys: polys@.len() as usize },
                        ),
                        transcript::flat(polyvec::vec_ntt(ps)),
                        None,
                    )
                },
            }
        }),
{
    if polys.len() == 0 {
        return Err(StatementError::Empty);
    }
    match transcript::check_polys(Input::Polys, polys) {
        Some(e) => {
            return Err(e);
        },
        None => {},
    }
    let out: Vec<[i64; 256]> = rows::ntt_rows(polys);
    let (task, text) = statement_ring::bind_outputs(
        Circuit::NttBatch { n_polys: polys.len() },
        10,
        out.as_slice(),
        None,
    );
    Ok((task, text, out))
}

/// What the verifier of the transforms of `n_polys` polynomials replays.
pub fn verify_ntt_batch_m(commitment_hex: &str, n_polys: usize) -> (res: Result<
    Replay,
    StatementError,
>)
    ensures
        n_polys == 0 ==> res == Err::<Replay, StatementError>(StatementError::Empty),
        n_polys > 0 ==> statement_ring::replays_output(
            res,
            commitment_hex.spec_bytes(),
            transcript::rows_1024(Circuit::NttBatch { n_polys }),
        ),
{
    if n_polys == 0 {
        return Err(StatementError::Empty);
    }
    statement_ring::replay_output(Circuit::NttBatch { n_polys }, 10, commitment_hex)
}

/// States that the results are the transforms of six polynomials.
pub fn prove_ntt_batch(polys: &[[i64; 256]; 6]) -> (res: Result<
    (Task, String, [[i64; 256]; 6]),
    StatementError,
>)
    ensures
        ({
            let ps = polyvec::polys(polys@);
            match transcript::polys_error(Input::Polys, ps) {
                Some(e) => res == Err::<(Task, String, [[i64; 256]; 6]), StatementError>(e),
                None => {
                    &&& res is Ok
                    &&& polyvec::polys(res->Ok_0.2@) == polyvec::vec_ntt(ps)
                    &&& statement_ring::commits_to(
                        res->Ok_0.0,
                        res->Ok_0.1@,
                        transcript::rows_1024(Circuit::NttBatch { n_polys: 6 }),
                        transcript::flat(polyvec::vec_ntt(ps)),
                        None,
                    )
                },
            }
        }),
{
    match prove_ntt_batch_m(polys.as_slice()) {
        Ok((task, text, out)) => {
            proof {
                assert(polyvec::polys(out@).len() == 6);
            }
            let six: [[i64; 256]; 6] = rows::six_rows(out.as_slice(), 0);
            proof {
                assert(polyvec::polys(out@).subrange(0, 6) =~= polyvec::polys(out@));
            }
            Ok((task, text, six))
        },
        Err(e) => Err(e),
    }
}

/// What the verifier of the transforms of six polynomials replays.
pub fn verify_ntt_batch(commitment_hex: &str) -> (res: Result<Replay, StatementError>)
    ensures
        statement_ring::replays_output(
            res,
            commitment_hex.spec_bytes(),
            transcript::rows_1024(Circuit::NttBatch { n_polys: 6 }),
        ),
{
    statement_ring::replay_output(Circuit::NttBatch { n_polys: K }, 10, commitment_hex)
}

/// The transcript of the inverse transforms of polynomials: bound to each of them and
/// to the results.
pub open spec fn intt_transcript(g: Seq<Seq<int>>, output: Seq<u32>) -> TranscriptView {
    transcript::nothing().component(
        transcript::rows_1024(Circuit::InttBatch { n_polys: g.len() as usize }),
    ).each(g, g.len()).message(output)
}

/// Whether a statement is about the inverse transforms of `g`.
pub open spec fn commits_to_intt(task: Task, text: Seq<char>, g: Seq<Seq<int>>) -> bool {
    let out = commitment::fingerprint(transcript::flat(polyvec::vec_intt(g)));
    &&& text == commitment::poly_commitment(out)
    &&& statement_ring::is_task(
        task,
        intt_transcript(g, out),
        10,
        seq![
            Some(columns::columns(mldsa_intt_batch_air::batch_table(g), 1 + 54 * g.len())),
        ],
    )
}

/// Whether a verifier replays the transcript of the inverse transforms of `g`, or
/// refuses the commitment.
pub open spec fn replays_intt(
    res: Result<Replay, StatementError>,
    text: Seq<u8>,
    g: Seq<Seq<int>>,
) -> bool {
    match commitment::fingerprint_in(text) {
        Some(fp) => res is Ok && res->Ok_0.transcript@ == intt_transcript(g, fp)
            && res->Ok_0.lifting is None,
        None => res matches Err(StatementError::Commitment(e)) && commitment::is_fingerprint_fault(
            text,
            e,
        ),
    }
}

/// Who verifies inverse transforms with the prover's inputs and commitment replays
/// the prover's transcript.
pub proof fn lemma_intt_replayed(
    res: Result<Replay, StatementError>,
    task: Task,
    text: Seq<char>,
    g: Seq<Seq<int>>,
)
    requires
        commits_to_intt(task, text, g),
        replays_intt(res, encode_utf8(text), g),
    ensures
        res is Ok,
        res->Ok_0.transcript@ == task.transcript@,
{
    statement_ring::lemma_commitment_read_back(transcript::flat(polyvec::vec_intt(g)));
}

/// States that the results are the inverse transforms of polynomials.
pub fn prove_intt_batch_m(polys: &[[i64; 256]]) -> (res: Result<
    (Task, String, Vec<[i64; 256]>),
    StatementError,
>)
    requires
        1 + 54 * polys@.len() <= usize::MAX,
    ensures
        ({
            let g = polyvec::polys(polys@);
            match list_error(g) {
                Some(e) => res == Err::<(Task, String, Vec<[i64; 256]>), StatementError>(e),
                None => {
                    &&& res is Ok
                    &&& polyvec::polys(res->Ok_0.2@) == polyvec::vec_intt(g)
                    &&& commits_to_intt(res->Ok_0.0, res->Ok_0.1@, g)
                },
            }
        }),
{
    if polys.len() == 0 {
        return Err(StatementError::Empty);
    }
    match transcript::check_polys(Input::Polys, polys) {
        Some(e) => {
            return Err(e);
        },
        None => {},
    }
    let (cols, out) = mldsa_intt_batch_air::build_trace(polys);
    proof {
        assert(transcript::words(cols@) == columns::views(cols@));
    }
    let out_fp: [u32; 4] = transcript::fingerprint_all(out.as_slice());
    let mut t: Transcript = Transcript::new();
    t.component(Circuit::InttBatch { n_polys: polys.len() }, 10);
    t.each(polys);
    t.message(out_fp.as_slice());
    let mut traces: Vec<Option<Vec<Vec<u32>>>> = Vec::new();
    let ghost cv = transcript::words(cols@);
    traces.push(Some(cols));
    proof {
        assert(transcript::traces_view(traces@) =~= seq![Some(cv)]);
    }
    let task = Task { transcript: t, log_size: 10, preprocessed: Vec::new(), traces };
    Ok((task, commitment::build_poly_commitment(&out_fp), out))
}

/// What the verifier of the inverse transforms of polynomials replays.
pub fn verify_intt_batch_m(commitment_hex: &str, inputs: &[[i64; 256]]) -> (res: Result<
    Replay,
    StatementError,
>)
    ensures
        inputs@.len() == 0 ==> res == Err::<Replay, StatementError>(StatementError::Empty),
        inputs@.len() > 0 ==> replays_intt(
            res,
            commitment_hex.spec_bytes(),
            polyvec::polys(inputs@),
        ),
{
    if inputs.len() == 0 {
        return Err(StatementError::Empty);
    }
    let out_fp: [u32; 4] = match commitment::parse_poly_commitment(commitment_hex) {
        Ok(fp) => fp,
        Err(e) => {
            return Err(StatementError::Commitment(e));
        },
    };
    let mut t: Transcript = Transcript::new();
    t.component(Circuit::InttBatch { n_polys: inputs.len() }, 10);
    t.each(inputs);
    t.message(out_fp.as_slice());
    Ok(Replay { transcript: t, lifting: None })
}

/// States that the results are the inverse transforms of six polynomials.
pub fn prove_intt_batch(polys: &[[i64; 256]; 6]) -> (res: Result<
    (Task, String, [[i64; 256]; 6]),
    StatementError,
>)
    ensures
        ({
            let g = polyvec::polys(polys@);
            match transcript::polys_error(Input::Polys, g) {
                Some(e) => res == Err::<(Task, String, [[i64; 256]; 6]), StatementError>(e),
                None => {
                    &&& res is Ok
                    &&& polyvec::polys(res->Ok_0.2@) == polyvec::vec_intt(g)
                    &&& commits_to_intt(res->Ok_0.0, res->Ok_0.1@, g)
                },
            }
        }),
{
    match prove_intt_batch_m(polys.as_slice()) {
        Ok((task, text, out)) => {
            proof {
                assert(polyvec::polys(out@).len() == 6);
            }
            let six: [[i64; 256]; 6] = rows::six_rows(out.as_slice(), 0);
            proof {
                assert(polyvec::polys(out@).subrange(0, 6) =~= polyvec::polys(out@));
            }
            Ok((task, text, six))
        },
        Err(e) => Err(e),
    }
}

/// What the verifier of the inverse transforms of six polynomials replays.
pub fn verify_intt_batch(commitment_hex: &str, inputs: &[[i64; 256]; 6]) -> (res: Result<
    Replay,
    StatementError,
>)
    ensures
        replays_intt(res, commitment_hex.spec_bytes(), polyvec::polys(inputs@)),
{
    verify_intt_batch_m(commitment_hex, inputs.as_slice())
}

/// What is wrong with the shape of a hint from row `i` on, if anything.
pub open spec fn hint_error_from(h: Seq<Seq<bool>>, i: nat) -> Option<StatementError>
    decreases h.len() - i,
{
    if i >= h.len() {
        None
    } else if h[i as int].len() != 256 {
        Some(StatementError::HintColumns { index: i as usize, got: h[i as int].len() as usize })
    } else {
        hint_error_from(h, i + 1)
    }
}

/// What is wrong with the shape of a hint, if anything.
pub open spec fn hint_error(h: Seq<Seq<bool>>) -> Option<StatementError> {
    if h.len() != 6 {
        Some(StatementError::HintRows { got: h.len() as usize })
    } else {
        hint_error_from(h, 0)
    }
}

/// The column of running sums in the order in which it is committed.
pub open spec fn committed_sums(h: Seq<Seq<bool>>) -> Seq<u32> {
    columns::circle_order(columns::column(mldsa_hint_weight_air::hint_table(h), 1))
}

fn as_coeffs(col: &Vec<u32>) -> (out: Vec<i64>)
    ensures
        transform::ints(out@) == crate::constraint::cells(col@),
{
    let mut out: Vec<i64> = Vec::new();
    let mut i: usize = 0;
    while i < col.len()
        invariant
            i <= col.len(),
            out@.len() == i,
            forall|k: int| 0 <= k < i ==> #[trigger] out@[k] == col@[k],
        decreases col.len() - i,
    {
        out.push(col[i] as i64);
        i = i + 1;
    }
    proof {
        assert(transform::ints(out@) =~= crate::constraint::cells(col@));
    }
    out
}

/// States the weight of a hint, which is the last part of the result. Whether it is
/// small enough is for the caller to test. The commitment is to the running sums.
pub fn prove_hint_weight(hints: &[Vec<bool>]) -> (res: Result<
    (Task, String, usize),
    StatementError,
>)
    ensures
        ({
            let h = mldsa_hint_weight_air::hint_views(hints@);
            match hint_error(h) {
                Some(e) => res == Err::<(Task, String, usize), StatementError>(e),
                None => {
                    let fp = commitment::fingerprint(
                        crate::constraint::cells(committed_sums(h)),
                    );
                    &&& res is Ok
                    &&& res->Ok_0.2 == hints::total_weight(h, 6)
                    &&& res->Ok_0.1@ == commitment::poly_commitment(fp)
                    &&& res->Ok_0.0.transcript@ == statement_ring::output_transcript(
                        Component { circuit: Circuit::HintWeight, log_n_rows: 11 },
                        fp,
                    )
                    &&& res->Ok_0.0.log_size == 11
                    &&& transcript::words(res->Ok_0.0.preprocessed@) == columns::columns(
                        mldsa_hint_weight_air::preprocessed_table(),
                        2,
                    )
                    &&& transcript::traces_view(res->Ok_0.0.traces@) == seq![
                        Some(columns::columns(mldsa_hint_weight_air::hint_table(h), 2)),
                    ]
                },
            }
        }),
{
    let ghost h = mldsa_hint_weight_air::hint_views(hints@);
    if hints.len() != K {
        return Err(StatementError::HintRows { got: hints.len() });
    }
    let mut i: usize = 0;
    while i < hints.len()
        invariant
            i <= hints.len(),
            h == mldsa_hint_weight_air::hint_views(hints@),
            h.len() == 6,
            hint_error(h) == hint_error_from(h, i as nat),
            forall|k: int| 0 <= k < i ==> (#[trigger] h[k]).len() == 256,
        decreases hints.len() - i,
    {
        if hints[i].len() != N {
            return Err(StatementError::HintColumns { index: i, got: hints[i].len() });
        }
        i = i + 1;
    }
    let (main, pre, total) = mldsa_hint_weight_air::build_trace(hints);
    proof {
        assert(columns::views(main@)[1] == committed_sums(h));
        assert(transcript::words(main@) == columns::views(main@));
        assert(transcript::words(pre@) == columns::views(pre@));
    }
    let sums: Vec<i64> = as_coeffs(&main[1]);
    let fp: [u32; 4] = commitment::output_fingerprint(sums.as_slice());
    let mut t: Transcript = Transcript::new();
    t.component(Circuit::HintWeight, 11);
    t.message(fp.as_slice());
    let ghost mv = transcript::words(main@);
    let mut traces: Vec<Option<Vec<Vec<u32>>>> = Vec::new();
    traces.push(Some(main));
    proof {
        assert(transcript::traces_view(traces@) =~= seq![Some(mv)]);
    }
    let task = Task { transcript: t, log_size: 11, preprocessed: pre, traces };
    Ok((task, commitment::build_poly_commitment(&fp), total))
}

/// What the verifier of the weight of a hint replays.
pub fn verify_hint_weight(commitment_hex: &str) -> (res: Result<Replay, StatementError>)
    ensures
        statement_ring::replays_output(
            res,
            commitment_hex.spec_bytes(),
            Component { circuit: Circuit::HintWeight, log_n_rows: 11 },
        ),
{
    statement_ring::replay_output(Circuit::HintWeight, 11, commitment_hex)
}

} // verus!
