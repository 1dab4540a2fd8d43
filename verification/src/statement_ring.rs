//! Statements about single polynomials.
//!
//! Each `prove` function computes the result of its statement, commits to it, and
//! sets out what the prover works on; each `verify` function sets out what the
//! verifier replays.
use crate::columns;
use crate::commitment;
use crate::mldsa::field;
use crate::mldsa::ntt;
use crate::mldsa::params::Q;
use crate::mldsa::poly;
use crate::mldsa::poly::Poly;
use crate::mldsa::polyvec;
use crate::mldsa::ring;
use crate::mldsa::rounding;
use crate::mldsa::transform;
use crate::mldsa::zq;
use crate::mldsa_norm_check_air;
use crate::transcript;
use crate::transcript::{Circuit, Component, Input, Replay, StatementError, Task, Transcript, TranscriptView};
use vstd::prelude::*;
use vstd::string::*;
use vstd::utf8::*;

verus! {

/// The transcript of a statement that is bound to its output alone.
pub open spec fn output_transcript(c: Component, fp: Seq<u32>) -> TranscriptView {
    transcript::nothing().component(c).message(fp)
}

/// Whether a task has the given transcript and traces, and no preprocessed columns.
pub open spec fn is_task(
    task: Task,
    t: TranscriptView,
    log_size: u32,
    traces: Seq<Option<Seq<Seq<u32>>>>,
) -> bool {
    &&& task.transcript@ == t
    &&& task.log_size == log_size
    &&& task.preprocessed@.len() == 0
    &&& transcript::traces_view(task.traces@) == traces
}

/// Whether a statement with one component is bound to the output `out` alone, with
/// the commitment `text`.
pub open spec fn commits_to(
    task: Task,
    text: Seq<char>,
    c: Component,
    out: Seq<int>,
    trace: Option<Seq<Seq<u32>>>,
) -> bool {
    &&& text == commitment::poly_commitment(commitment::fingerprint(out))
    &&& is_task(
        task,
        output_transcript(c, commitment::fingerprint(out)),
        c.log_n_rows,
        seq![trace],
    )
}

/// Whether a verifier replays the transcript that is bound to the commitment `text`
/// alone, or refuses the commitment.
pub open spec fn replays_output(
    res: Result<Replay, StatementError>,
    text: Seq<u8>,
    c: Component,
) -> bool {
    match commitment::fingerprint_in(text) {
        Some(fp) => res is Ok && res->Ok_0.transcript@ == output_transcript(c, fp)
            && res->Ok_0.lifting is None,
        None => res matches Err(StatementError::Commitment(e)) && commitment::is_fingerprint_fault(
            text,
            e,
        ),
    }
}

/// A commitment that a prover makes reads back as the fingerprint that its
/// transcript is bound to.
pub proof fn lemma_commitment_read_back(out: Seq<int>)
    ensures
        commitment::fingerprint_in(
            encode_utf8(commitment::poly_commitment(commitment::fingerprint(out))),
        ) == Some(commitment::fingerprint(out)),
{
    commitment::lemma_fingerprint(out);
    commitment::lemma_poly_commitment_roundtrip(commitment::fingerprint(out));
}

/// Who verifies a statement with the prover's commitment replays the prover's
/// transcript.
pub proof fn lemma_output_replayed(
    res: Result<Replay, StatementError>,
    task: Task,
    text: Seq<char>,
    c: Component,
    out: Seq<int>,
    trace: Option<Seq<Seq<u32>>>,
)
    requires
        commits_to(task, text, c, out, trace),
        replays_output(res, encode_utf8(text), c),
    ensures
        res is Ok,
        res->Ok_0.transcript@ == task.transcript@,
{
    lemma_commitment_read_back(out);
}

/// Who replays the transcript of an output has its fingerprint: transcripts of
/// outputs with different fingerprints differ.
pub proof fn lemma_output_bound(c: Component, a: Seq<u32>, b: Seq<u32>)
    requires
        output_transcript(c, a) == output_transcript(c, b),
    ensures
        a == b,
{
    assert(output_transcript(c, a).messages[0] == a);
    assert(output_transcript(c, b).messages[0] == b);
}

fn output_task(circuit: Circuit, log_n_rows: u32, fp: &[u32; 4], trace: Option<Vec<Vec<u32>>>) -> (
    task: Task)
    ensures
        is_task(
            task,
            output_transcript(Component { circuit, log_n_rows }, fp@),
            log_n_rows,
            seq![transcript::trace_view(trace)],
        ),
{
    let mut t: Transcript = Transcript::new();
    t.component(circuit, log_n_rows);
    t.message(fp.as_slice());
    let mut traces: Vec<Option<Vec<Vec<u32>>>> = Vec::new();
    traces.push(trace);
    proof {
        assert(transcript::traces_view(traces@) =~= seq![transcript::trace_view(trace)]);
    }
    Task { transcript: t, log_size: log_n_rows, preprocessed: Vec::new(), traces }
}

/// Commits to an output, and sets out the task of a statement bound to it alone.
pub fn bind_output(
    circuit: Circuit,
    log_n_rows: u32,
    out: &[i64],
    trace: Option<Vec<Vec<u32>>>,
) -> (r: (Task, String))
    ensures
        commits_to(
            r.0,
            r.1@,
            Component { circuit, log_n_rows },
            transform::ints(out@),
            transcript::trace_view(trace),
        ),
{
    let fp: [u32; 4] = commitment::output_fingerprint(out);
    (output_task(circuit, log_n_rows, &fp, trace), commitment::build_poly_commitment(&fp))
}

/// Commits to some polynomials, and sets out the task of a statement bound to them
/// alone.
pub fn bind_outputs(
    circuit: Circuit,
    log_n_rows: u32,
    out: &[[i64; 256]],
    trace: Option<Vec<Vec<u32>>>,
) -> (r: (Task, String))
    ensures
        commits_to(
            r.0,
            r.1@,
            Component { circuit, log_n_rows },
            transcript::flat(polyvec::polys(out@)),
            transcript::trace_view(trace),
        ),
{
    let fp: [u32; 4] = transcript::fingerprint_all(out);
    (output_task(circuit, log_n_rows, &fp, trace), commitment::build_poly_commitment(&fp))
}

/// Sets out what the verifier of a statement bound to its output alone replays.
pub fn replay_output(circuit: Circuit, log_n_rows: u32, commitment_hex: &str) -> (res: Result<
    Replay,
    StatementError,
>)
    ensures
        replays_output(res, commitment_hex.spec_bytes(), Component { circuit, log_n_rows }),
{
    match commitment::parse_poly_commitment(commitment_hex) {
        Ok(fp) => {
            let mut t: Transcript = Transcript::new();
            t.component(circuit, log_n_rows);
            t.message(fp.as_slice());
            Ok(Replay { transcript: t, lifting: None })
        },
        Err(e) => Err(StatementError::Commitment(e)),
    }
}

/// States that the result is the transform of `f`.
pub fn prove_ntt(f: &[i64; 256]) -> (res: Result<(Task, String, [i64; 256]), StatementError>)
    ensures
        match transcript::poly_error(Input::F, None, transform::ints(f@)) {
            Some(e) => res == Err::<(Task, String, [i64; 256]), StatementError>(e),
            None => {
                &&& res is Ok
                &&& transform::ints(res->Ok_0.2@) == transform::ntt_of(transform::ints(f@))
                &&& commits_to(
                    res->Ok_0.0,
                    res->Ok_0.1@,
                    transcript::rows_1024(Circuit::Ntt),
                    transform::ntt_of(transform::ints(f@)),
                    None,
                )
            },
        },
{
    match transcript::check_poly(Input::F, None, f) {
        Some(e) => {
            return Err(e);
        },
        None => {},
    }
    let mut out: [i64; 256] = *f;
    ntt::ntt(&mut out);
    let (task, text) = bind_output(Circuit::Ntt, 10, out.as_slice(), None);
    Ok((task, text, out))
}

/// What the verifier of a transform replays.
pub fn verify_ntt(commitment_hex: &str) -> (res: Result<Replay, StatementError>)
    ensures
        replays_output(res, commitment_hex.spec_bytes(), transcript::rows_1024(Circuit::Ntt)),
{
    replay_output(Circuit::Ntt, 10, commitment_hex)
}

/// States that the result is the product of `a` and `b`, entry by entry.
pub fn prove_poly_mul(a: &[i64; 256], b: &[i64; 256]) -> (res: Result<
    (Task, String, [i64; 256]),
    StatementError,
>)
    ensures
        match transcript::pair_error_from(
            Input::A,
            transform::ints(a@),
            Input::B,
            transform::ints(b@),
            None,
            0,
        ) {
            Some(e) => res == Err::<(Task, String, [i64; 256]), StatementError>(e),
            None => {
                let out = transform::pointwise(transform::ints(a@), transform::ints(b@));
                &&& res is Ok
                &&& transform::ints(res->Ok_0.2@) == out
                &&& commits_to(
                    res->Ok_0.0,
                    res->Ok_0.1@,
                    transcript::rows_256(Circuit::PolyMul),
                    out,
                    None,
                )
            },
        },
{
    match transcript::check_pair(Input::A, a, Input::B, b, None) {
        Some(e) => {
            return Err(e);
        },
        None => {},
    }
    let out: [i64; 256] = ntt::pointwise_mul(a, b);
    let (task, text) = bind_output(Circuit::PolyMul, 8, out.as_slice(), None);
    Ok((task, text, out))
}

/// What the verifier of a product replays.
pub fn verify_poly_mul(commitment_hex: &str) -> (res: Result<Replay, StatementError>)
    ensures
        replays_output(res, commitment_hex.spec_bytes(), transcript::rows_256(Circuit::PolyMul)),
{
    replay_output(Circuit::PolyMul, 8, commitment_hex)
}

/// States that the result is the sum of `a` and `b`.
pub fn prove_poly_add(a: &[i64; 256], b: &[i64; 256]) -> (res: Result<
    (Task, String, [i64; 256]),
    StatementError,
>)
    ensures
        match transcript::pair_error_from(
            Input::A,
            transform::ints(a@),
            Input::B,
            transform::ints(b@),
            None,
            0,
        ) {
            Some(e) => res == Err::<(Task, String, [i64; 256]), StatementError>(e),
            None => {
                let out = ring::ring_add(transform::ints(a@), transform::ints(b@));
                &&& res is Ok
                &&& transform::ints(res->Ok_0.2@) == out
                &&& commits_to(
                    res->Ok_0.0,
                    res->Ok_0.1@,
                    transcript::rows_256(Circuit::PolyAdd),
                    out,
                    None,
                )
            },
        },
{
    match transcript::check_pair(Input::A, a, Input::B, b, None) {
        Some(e) => {
            return Err(e);
        },
        None => {},
    }
    let out: [i64; 256] = Poly { coeffs: *a }.add(&Poly { coeffs: *b }).coeffs;
    let (task, text) = bind_output(Circuit::PolyAdd, 8, out.as_slice(), None);
    Ok((task, text, out))
}

/// What the verifier of a sum replays.
pub fn verify_poly_add(commitment_hex: &str) -> (res: Result<Replay, StatementError>)
    ensures
        replays_output(res, commitment_hex.spec_bytes(), transcript::rows_256(Circuit::PolyAdd)),
{
    replay_output(Circuit::PolyAdd, 8, commitment_hex)
}

/// The negative of a polynomial.
pub open spec fn negated(b: Seq<int>) -> Seq<int> {
    Seq::new(256, |i: int| zq::modq(-b[i]))
}

/// Adding the negative of a polynomial is subtracting it.
pub proof fn lemma_add_negated(a: Seq<int>, b: Seq<int>)
    requires
        transform::is_elem(a),
        transform::is_elem(b),
    ensures
        transform::is_elem(negated(b)),
        ring::ring_add(a, negated(b)) == ring::ring_sub(a, b),
{
    assert forall|i: int| 0 <= i < 256 implies ring::ring_add(a, negated(b))[i]
        == #[trigger] ring::ring_sub(a, b)[i] by {
        zq::lemma_modq_add(a[i], -b[i]);
    }
    assert(ring::ring_add(a, negated(b)) =~= ring::ring_sub(a, b));
}

/// States that the result is the difference of `a` and `b`, as the sum of `a` and the
/// negative of `b`.
pub fn prove_poly_sub(a: &[i64; 256], b: &[i64; 256]) -> (res: Result<
    (Task, String, [i64; 256]),
    StatementError,
>)
    ensures
        match transcript::pair_error_from(
            Input::A,
            transform::ints(a@),
            Input::B,
            transform::ints(b@),
            None,
            0,
        ) {
            Some(e) => res == Err::<(Task, String, [i64; 256]), StatementError>(e),
            None => {
                let out = ring::ring_sub(transform::ints(a@), transform::ints(b@));
                &&& res is Ok
                &&& transform::ints(res->Ok_0.2@) == out
                &&& commits_to(
                    res->Ok_0.0,
                    res->Ok_0.1@,
                    transcript::rows_256(Circuit::PolyAdd),
                    out,
                    None,
                )
            },
        },
{
    match transcript::check_pair(Input::A, a, Input::B, b, None) {
        Some(e) => {
            return Err(e);
        },
        None => {},
    }
    let ghost x = transform::ints(b@);
    let mut b_neg: [i64; 256] = [0i64; 256];
    let mut i: usize = 0;
    while i < 256
        invariant
            i <= 256,
            x == transform::ints(b@),
            transform::is_elem(x),
            forall|k: int| 0 <= k < i ==> #[trigger] b_neg[k] == zq::modq(-x[k]),
        decreases 256 - i,
    {
        proof {
            assert(field::in_field(x[i as int]));
        }
        b_neg[i] = if b[i] == 0 {
            0
        } else {
            Q - b[i]
        };
        i = i + 1;
    }
    proof {
        assert(transform::ints(b_neg@) =~= negated(x));
        lemma_add_negated(transform::ints(a@), x);
    }
    let res = prove_poly_add(a, &b_neg);
    proof {
        lemma_pair_accepted(
            Input::A,
            transform::ints(a@),
            Input::B,
            transform::ints(b_neg@),
            None,
            0,
        );
    }
    res
}

proof fn lemma_pair_accepted(
    x: Input,
    a: Seq<int>,
    y: Input,
    b: Seq<int>,
    row: Option<usize>,
    i: nat,
)
    requires
        transform::is_elem(a),
        transform::is_elem(b),
        i <= 256,
    ensures
        transcript::pair_error_from(x, a, y, b, row, i) is None,
    decreases 256 - i,
{
    if i < 256 {
        lemma_pair_accepted(x, a, y, b, row, i + 1);
    }
}

/// What the verifier of a difference replays: the same as of a sum.
pub fn verify_poly_sub(commitment_hex: &str) -> (res: Result<Replay, StatementError>)
    ensures
        replays_output(res, commitment_hex.spec_bytes(), transcript::rows_256(Circuit::PolyAdd)),
{
    verify_poly_add(commitment_hex)
}

/// The high parts of a polynomial's coefficients, corrected by hints.
pub open spec fn hinted(r: Seq<int>, h: Seq<bool>) -> Seq<int> {
    Seq::new(256, |i: int| rounding::use_hint(h[i], r[i]))
}

/// Corrects the high parts of a polynomial's coefficients by hints.
pub fn use_hints(r: &[i64; 256], h_bits: &[bool; 256]) -> (out: [i64; 256])
    ensures
        transform::ints(out@) == hinted(transform::ints(r@), h_bits@),
        transform::is_elem(transform::ints(out@)),
{
    let mut out: [i64; 256] = [0i64; 256];
    let mut i: usize = 0;
    while i < 256
        invariant
            i <= 256,
            forall|k: int|
                0 <= k < i ==> #[trigger] out[k] == rounding::use_hint(h_bits@[k], r@[k] as int)
                    && field::in_field(out[k] as int),
        decreases 256 - i,
    {
        out[i] = polyvec::use_hint_val(h_bits[i], r[i]);
        i = i + 1;
    }
    proof {
        assert(transform::ints(out@) =~= hinted(transform::ints(r@), h_bits@));
    }
    out
}

/// States that the result holds the high parts of `r`, corrected by hints.
pub fn prove_use_hint(r: &[i64; 256], h_bits: &[bool; 256]) -> (res: Result<
    (Task, String, [i64; 256]),
    StatementError,
>)
    ensures
        match transcript::poly_error(Input::R, None, transform::ints(r@)) {
            Some(e) => res == Err::<(Task, String, [i64; 256]), StatementError>(e),
            None => {
                let out = hinted(transform::ints(r@), h_bits@);
                &&& res is Ok
                &&& transform::ints(res->Ok_0.2@) == out
                &&& commits_to(
                    res->Ok_0.0,
                    res->Ok_0.1@,
                    transcript::rows_256(Circuit::UseHint),
                    out,
                    None,
                )
            },
        },
{
    match transcript::check_poly(Input::R, None, r) {
        Some(e) => {
            return Err(e);
        },
        None => {},
    }
    let out: [i64; 256] = use_hints(r, h_bits);
    let (task, text) = bind_output(Circuit::UseHint, 8, out.as_slice(), None);
    Ok((task, text, out))
}

/// What the verifier of corrected high parts replays.
pub fn verify_use_hint(commitment_hex: &str) -> (res: Result<Replay, StatementError>)
    ensures
        replays_output(res, commitment_hex.spec_bytes(), transcript::rows_256(Circuit::UseHint)),
{
    replay_output(Circuit::UseHint, 8, commitment_hex)
}

/// States that the result holds the norms of the coefficients of `z`; the last part
/// of the result is the norm of `z`.
pub fn prove_norm_check(z: &[i64; 256]) -> (res: Result<
    (Task, String, [i64; 256], i64),
    StatementError,
>)
    ensures
        match transcript::poly_error(Input::Z, None, transform::ints(z@)) {
            Some(e) => res == Err::<(Task, String, [i64; 256], i64), StatementError>(e),
            None => {
                let zs = transform::ints(z@);
                let out = mldsa_norm_check_air::norms(zs);
                &&& res is Ok
                &&& transform::ints(res->Ok_0.2@) == out
                &&& res->Ok_0.3 == poly::inf_norm(zs)
                &&& commits_to(
                    res->Ok_0.0,
                    res->Ok_0.1@,
                    transcript::rows_256(Circuit::NormCheck),
                    out,
                    Some(columns::columns(mldsa_norm_check_air::norm_table(zs), 3)),
                )
            },
        },
{
    match transcript::check_poly(Input::Z, None, z) {
        Some(e) => {
            return Err(e);
        },
        None => {},
    }
    let (cols, out) = mldsa_norm_check_air::build_trace(z);
    let max_norm: i64 = Poly { coeffs: *z }.norm_inf();
    proof {
        assert(transcript::words(cols@) == columns::views(cols@));
    }
    let (task, text) = bind_output(Circuit::NormCheck, 8, out.as_slice(), Some(cols));
    Ok((task, text, out, max_norm))
}

/// What the verifier of norms replays.
pub fn verify_norm_check(commitment_hex: &str) -> (res: Result<Replay, StatementError>)
    ensures
        replays_output(res, commitment_hex.spec_bytes(), transcript::rows_256(Circuit::NormCheck)),
{
    replay_output(Circuit::NormCheck, 8, commitment_hex)
}

/// States that all coefficients of a polynomial are residues. The commitment is to
/// the polynomial itself.
pub fn prove_range_q(poly: &[i64; 256]) -> (res: Result<(Task, String), StatementError>)
    ensures
        match transcript::poly_error(Input::Poly, None, transform::ints(poly@)) {
            Some(e) => res == Err::<(Task, String), StatementError>(e),
            None => res is Ok && commits_to(
                res->Ok_0.0,
                res->Ok_0.1@,
                transcript::rows_256(Circuit::RangeQ),
                transform::ints(poly@),
                None,
            ),
        },
{
    match transcript::check_poly(Input::Poly, None, poly) {
        Some(e) => {
            return Err(e);
        },
        None => {},
    }
    Ok(bind_output(Circuit::RangeQ, 8, poly.as_slice(), None))
}

/// What the verifier of a range replays.
pub fn verify_range_q(commitment_hex: &str) -> (res: Result<Replay, StatementError>)
    ensures
        replays_output(res, commitment_hex.spec_bytes(), transcript::rows_256(Circuit::RangeQ)),
{
    replay_output(Circuit::RangeQ, 8, commitment_hex)
}

} // verus!
