//! Statements that join several circuits in one proof, up to the whole arithmetic of
//! signature verification.
use crate::columns;
use crate::commitment;
use crate::mldsa::hints;
use crate::mldsa::params::{K, L};
use crate::mldsa::polyvec;
use crate::mldsa::transform;
use crate::mldsa_az_full_air;
use crate::mldsa_ct1_full_air;
use crate::mldsa_intt_batch_air;
use crate::mldsa_norm_check_batch_air;
use crate::rows;
use crate::statement_batch;
use crate::statement_ring;
use crate::transcript;
use crate::transcript::{Circuit, Replay, StatementError, Task, Transcript, TranscriptView};
use vstd::prelude::*;
use vstd::string::*;
use vstd::utf8::*;

verus! {

/// The fingerprint of some polynomials.
pub open spec fn fp_of(v: Seq<Seq<int>>) -> Seq<u32> {
    commitment::fingerprint(transcript::flat(v))
}

/// The fingerprint of `w1` and the weight of the hint.
pub open spec fn fp_weight(w1: Seq<Seq<int>>, weight: int) -> Seq<u32> {
    commitment::fingerprint(statement_batch::with_weight(w1, weight))
}

/// The text of the commitment to some polynomials.
pub open spec fn cm_of(v: Seq<Seq<int>>) -> Seq<char> {
    commitment::poly_commitment(fp_of(v))
}

/// The transcript of the products with the matrix and with the challenge.
pub open spec fn az_ct1_transcript(
    seed: Seq<u8>,
    z: Seq<Seq<int>>,
    c: Seq<int>,
    t1: Seq<Seq<int>>,
    az: Seq<u32>,
    ct1: Seq<u32>,
) -> TranscriptView {
    transcript::nothing().seed(seed).component(
        transcript::rows_256(Circuit::AzFull),
    ).component(transcript::rows_256(Circuit::Ct1Full)).message(fp_of(z)).message(az).message(
        fp_of(statement_batch::ct1_inputs(c, t1)),
    ).message(ct1)
}

/// The trace of the product of a matrix and a vector.
pub open spec fn az_cols(m: Seq<Seq<Seq<int>>>, z: Seq<Seq<int>>) -> Option<Seq<Seq<u32>>> {
    Some(columns::columns(mldsa_az_full_air::full_table(m, z), 1523))
}

/// The trace of the products with the challenge.
pub open spec fn ct1_cols(c: Seq<int>, t1: Seq<Seq<int>>) -> Option<Seq<Seq<u32>>> {
    Some(columns::columns(mldsa_ct1_full_air::ct1_table(c, t1), 295))
}

/// The trace of the inverse transforms of `g`.
pub open spec fn intt_cols(g: Seq<Seq<int>>) -> Option<Seq<Seq<u32>>> {
    Some(columns::columns(mldsa_intt_batch_air::batch_table(g), 1 + 54 * g.len()))
}

/// The trace of the norms of five polynomials.
pub open spec fn norm_cols(z: Seq<Seq<int>>) -> Option<Seq<Seq<u32>>> {
    Some(columns::columns(mldsa_norm_check_batch_air::batch_table(z), 15))
}

/// A trace that this library builds.
pub(crate) fn built(traces: &mut Vec<Option<Vec<Vec<u32>>>>, cols: Vec<Vec<u32>>)
    ensures
        transcript::traces_view(final(traces)@) == transcript::traces_view(old(traces)@).push(
            Some(transcript::words(cols@)),
        ),
{
    traces.push(Some(cols));
    proof {
        assert(transcript::traces_view(traces@) =~= transcript::traces_view(old(traces)@).push(
            Some(transcript::words(cols@)),
        ));
    }
}

/// A trace that its circuit builds.
pub(crate) fn not_built(traces: &mut Vec<Option<Vec<Vec<u32>>>>)
    ensures
        transcript::traces_view(final(traces)@) == transcript::traces_view(old(traces)@).push(None),
{
    traces.push(None);
    proof {
        assert(transcript::traces_view(traces@) =~= transcript::traces_view(old(traces)@).push(
            None,
        ));
    }
}

/// The product of a matrix and a vector, with the columns of its trace.
pub(crate) fn az_part(a_hat: &[[i64; 256]], z_hat: &[[i64; 256]; 5]) -> (r: (Vec<Vec<u32>>, [[i64; 256]; 6]))
    requires
        a_hat@.len() == 30,
        polyvec::all_elems(polyvec::polys(a_hat@)),
        polyvec::all_elems(polyvec::polys(z_hat@)),
    ensures
        Some(transcript::words(r.0@)) == az_cols(
            mldsa_az_full_air::matrix_of(polyvec::polys(a_hat@)),
            polyvec::polys(z_hat@),
        ),
        polyvec::polys(r.1@) == polyvec::mat_vec(
            mldsa_az_full_air::matrix_of(polyvec::polys(a_hat@)),
            polyvec::polys(z_hat@),
        ),
        polyvec::all_elems(polyvec::polys(r.1@)),
{
    let (cols, out) = mldsa_az_full_air::build_trace(a_hat, z_hat);
    proof {
        assert(transcript::words(cols@) == columns::views(cols@));
    }
    (cols, out)
}

/// The products with the challenge, with the columns of their trace.
pub(crate) fn ct1_part(c_hat: &[i64; 256], t1_hat: &[[i64; 256]; 6]) -> (r: (
    Vec<Vec<u32>>,
    [[i64; 256]; 6],
))
    requires
        transform::is_elem(transform::ints(c_hat@)),
        polyvec::all_elems(polyvec::polys(t1_hat@)),
    ensures
        Some(transcript::words(r.0@)) == ct1_cols(
            transform::ints(c_hat@),
            polyvec::polys(t1_hat@),
        ),
        polyvec::polys(r.1@) == mldsa_ct1_full_air::products(
            transform::ints(c_hat@),
            polyvec::polys(t1_hat@),
        ),
        polyvec::all_elems(polyvec::polys(r.1@)),
{
    let (cols, out) = mldsa_ct1_full_air::build_trace(c_hat, t1_hat);
    proof {
        assert(transcript::words(cols@) == columns::views(cols@));
    }
    (cols, out)
}

/// States the products of the matrix and a vector and of the challenge and `t1`.
pub fn prove_az_ct1_combined(
    a_hat: &[[i64; 256]],
    z_hat: &[[i64; 256]; 5],
    c_hat: &[i64; 256],
    t1_hat: &[[i64; 256]; 6],
    c_tilde_seed: &[u8],
) -> (res: Result<
    (Task, String, String, [[i64; 256]; 6], [[i64; 256]; 6]),
    StatementError,
>)
    requires
        polyvec::all_elems(polyvec::polys(a_hat@)),
        polyvec::all_elems(polyvec::polys(z_hat@)),
        transform::is_elem(transform::ints(c_hat@)),
        polyvec::all_elems(polyvec::polys(t1_hat@)),
    ensures
        ({
            let m = mldsa_az_full_air::matrix_of(polyvec::polys(a_hat@));
            let z = polyvec::polys(z_hat@);
            let c = transform::ints(c_hat@);
            let t1 = polyvec::polys(t1_hat@);
            let az = polyvec::mat_vec(m, z);
            let ct1 = mldsa_ct1_full_air::products(c, t1);
            if a_hat@.len() != 30 {
                res == Err::<
                    (Task, String, String, [[i64; 256]; 6], [[i64; 256]; 6]),
                    StatementError,
                >(StatementError::MatrixSize { got: a_hat@.len() as usize })
            } else {
                &&& res is Ok
                &&& res->Ok_0.1@ == cm_of(az)
                &&& res->Ok_0.2@ == cm_of(ct1)
                &&& polyvec::polys(res->Ok_0.3@) == az
                &&& polyvec::polys(res->Ok_0.4@) == ct1
                &&& statement_ring::is_task(
                    res->Ok_0.0,
                    az_ct1_transcript(c_tilde_seed@, z, c, t1, fp_of(az), fp_of(ct1)),
                    8,
                    seq![az_cols(m, z), ct1_cols(c, t1)],
                )
            }
        }),
{
    if a_hat.len() != K * L {
        return Err(StatementError::MatrixSize { got: a_hat.len() });
    }
    let (az_columns, az_out) = az_part(a_hat, z_hat);
    let (ct1_columns, ct1_out) = ct1_part(c_hat, t1_hat);
    let az_in: [u32; 4] = transcript::fingerprint_all(z_hat.as_slice());
    let az_fp: [u32; 4] = transcript::fingerprint_all(az_out.as_slice());
    let ct1_in: [u32; 4] = statement_batch::fingerprint_ct1(c_hat, t1_hat.as_slice());
    let ct1_fp: [u32; 4] = transcript::fingerprint_all(ct1_out.as_slice());
    let mut t: Transcript = Transcript::new();
    t.seed(c_tilde_seed);
    t.component(Circuit::AzFull, 8);
    t.component(Circuit::Ct1Full, 8);
    t.message(az_in.as_slice());
    t.message(az_fp.as_slice());
    t.message(ct1_in.as_slice());
    t.message(ct1_fp.as_slice());
    let mut traces: Vec<Option<Vec<Vec<u32>>>> = Vec::new();
    built(&mut traces, az_columns);
    built(&mut traces, ct1_columns);
    proof {
        assert(transcript::traces_view(traces@) =~= seq![
            az_cols(mldsa_az_full_air::matrix_of(polyvec::polys(a_hat@)), polyvec::polys(z_hat@)),
            ct1_cols(transform::ints(c_hat@), polyvec::polys(t1_hat@)),
        ]);
    }
    let task = Task { transcript: t, log_size: 8, preprocessed: Vec::new(), traces };
    Ok(
        (
            task,
            commitment::build_poly_commitment(&az_fp),
            commitment::build_poly_commitment(&ct1_fp),
            az_out,
            ct1_out,
        ),
    )
}

/// What the verifier of the products with the matrix and with the challenge replays.
pub fn verify_az_ct1_combined(
    az_commitment_hex: &str,
    ct1_commitment_hex: &str,
    z_hat: &[[i64; 256]; 5],
    c_hat: &[i64; 256],
    t1_hat: &[[i64; 256]; 6],
    c_tilde_seed: &[u8],
) -> (res: Result<Replay, StatementError>)
    ensures
        match commitment::fingerprint_in(az_commitment_hex.spec_bytes()) {
            None => res matches Err(StatementError::Commitment(e))
                && commitment::is_fingerprint_fault(az_commitment_hex.spec_bytes(), e),
            Some(az) => match commitment::fingerprint_in(ct1_commitment_hex.spec_bytes()) {
                None => res matches Err(StatementError::Commitment(e))
                    && commitment::is_fingerprint_fault(ct1_commitment_hex.spec_bytes(), e),
                Some(ct1) => {
                    &&& res is Ok
                    &&& res->Ok_0.transcript@ == az_ct1_transcript(
                        c_tilde_seed@,
                        polyvec::polys(z_hat@),
                        transform::ints(c_hat@),
                        polyvec::polys(t1_hat@),
                        az,
                        ct1,
                    )
                    &&& res->Ok_0.lifting is None
                },
            },
        },
{
    let az_in: [u32; 4] = transcript::fingerprint_all(z_hat.as_slice());
    let az_fp: [u32; 4] = match commitment::parse_poly_commitment(az_commitment_hex) {
        Ok(fp) => fp,
        Err(e) => {
            return Err(StatementError::Commitment(e));
        },
    };
    let ct1_in: [u32; 4] = statement_batch::fingerprint_ct1(c_hat, t1_hat.as_slice());
    let ct1_fp: [u32; 4] = match commitment::parse_poly_commitment(ct1_commitment_hex) {
        Ok(fp) => fp,
        Err(e) => {
            return Err(StatementError::Commitment(e));
        },
    };
    let mut t: Transcript = Transcript::new();
    t.seed(c_tilde_seed);
    t.component(Circuit::AzFull, 8);
    t.component(Circuit::Ct1Full, 8);
    t.message(az_in.as_slice());
    t.message(az_fp.as_slice());
    t.message(ct1_in.as_slice());
    t.message(ct1_fp.as_slice());
    Ok(Replay { transcript: t, lifting: None })
}

/// The transcript of the norms and of the corrected high parts.
pub open spec fn norm_hint_transcript(norm: Seq<u32>, uh: Seq<u32>) -> TranscriptView {
    transcript::nothing().component(transcript::rows_256(Circuit::NormCheckBatch)).component(
        transcript::rows_256(Circuit::UseHintWeight),
    ).message(norm).message(uh)
}

/// States the norms of five polynomials and the corrected high parts of six.
pub fn prove_norm_use_hint_combined(
    z: &[[i64; 256]; 5],
    w_prime: &[[i64; 256]; 6],
    hints: &[[bool; 256]; 6],
) -> (res: (Task, String, String, [i64; 5], [[i64; 256]; 6], usize))
    requires
        polyvec::all_elems(polyvec::polys(z@)),
        polyvec::all_elems(polyvec::polys(w_prime@)),
    ensures
        ({
            let zs = polyvec::polys(z@);
            let h = rows::hint_rows(hints@);
            let w1 = polyvec::vec_use_hint(polyvec::polys(w_prime@), h);
            let norm = fp_of(statement_batch::all_norms(zs));
            let uh = fp_weight(w1, hints::total_weight(h, 6) as int);
            &&& res.1@ == commitment::poly_commitment(norm)
            &&& res.2@ == commitment::poly_commitment(uh)
            &&& statement_batch::are_norms(res.3@, zs)
            &&& polyvec::polys(res.4@) == w1
            &&& res.5 == hints::total_weight(h, 6)
            &&& statement_ring::is_task(
                res.0,
                norm_hint_transcript(norm, uh),
                8,
                seq![norm_cols(zs), None],
            )
        }),
{
    let (cols, norms, max_norms) = statement_batch::norm_trace(z);
    let w1: [[i64; 256]; 6] = rows::hint_all(w_prime, hints);
    let total: usize = rows::weight(hints);
    let norm_fp: [u32; 4] = transcript::fingerprint_all(norms.as_slice());
    let uh_fp: [u32; 4] = statement_batch::fingerprint_weight(&w1, total);
    let mut t: Transcript = Transcript::new();
    t.component(Circuit::NormCheckBatch, 8);
    t.component(Circuit::UseHintWeight, 8);
    t.message(norm_fp.as_slice());
    t.message(uh_fp.as_slice());
    let mut traces: Vec<Option<Vec<Vec<u32>>>> = Vec::new();
    built(&mut traces, cols);
    not_built(&mut traces);
    proof {
        assert(transcript::traces_view(traces@) =~= seq![norm_cols(polyvec::polys(z@)), None]);
    }
    let task = Task { transcript: t, log_size: 8, preprocessed: Vec::new(), traces };
    (
        task,
        commitment::build_poly_commitment(&norm_fp),
        commitment::build_poly_commitment(&uh_fp),
        max_norms,
        w1,
        total,
    )
}

/// What the verifier of the norms and of the corrected high parts replays; none where
/// the second commitment is not to the latter.
pub fn verify_norm_use_hint_combined(
    norm_commitment: &str,
    use_hint_commitment: &str,
    w1_out: &[[i64; 256]; 6],
    hint_weight_total: usize,
) -> (res: Result<Option<Replay>, StatementError>)
    ensures
        ({
            let uh = fp_weight(polyvec::polys(w1_out@), hint_weight_total as int);
            match commitment::fingerprint_in(norm_commitment.spec_bytes()) {
                None => res matches Err(StatementError::Commitment(e))
                    && commitment::is_fingerprint_fault(norm_commitment.spec_bytes(), e),
                Some(norm) => if statement_batch::is_commitment_to(
                    use_hint_commitment.spec_bytes(),
                    uh,
                ) {
                    res matches Ok(Some(r)) && r.transcript@ == norm_hint_transcript(norm, uh)
                        && r.lifting is None
                } else {
                    res matches Ok(None)
                },
            }
        }),
{
    let norm_fp: [u32; 4] = match commitment::parse_poly_commitment(norm_commitment) {
        Ok(fp) => fp,
        Err(e) => {
            return Err(StatementError::Commitment(e));
        },
    };
    let uh_fp: [u32; 4] = statement_batch::fingerprint_weight(w1_out, hint_weight_total);
    if !statement_batch::commits(use_hint_commitment, &uh_fp) {
        return Ok(None);
    }
    let mut t: Transcript = Transcript::new();
    t.component(Circuit::NormCheckBatch, 8);
    t.component(Circuit::UseHintWeight, 8);
    t.message(norm_fp.as_slice());
    t.message(uh_fp.as_slice());
    Ok(Some(Replay { transcript: t, lifting: None }))
}

/// The transcript of the products, the norms and the corrected high parts.
pub open spec fn az_ct1_norm_hint_transcript(
    seed: Seq<u8>,
    z: Seq<Seq<int>>,
    c: Seq<int>,
    t1: Seq<Seq<int>>,
    az: Seq<u32>,
    ct1: Seq<u32>,
    norm: Seq<u32>,
    uh: Seq<u32>,
) -> TranscriptView {
    transcript::nothing().seed(seed).component(
        transcript::rows_256(Circuit::AzFull),
    ).component(transcript::rows_256(Circuit::Ct1Full)).component(
        transcript::rows_256(Circuit::NormCheckBatch),
    ).component(transcript::rows_256(Circuit::UseHintWeight)).message(fp_of(z)).message(
        az,
    ).message(fp_of(statement_batch::ct1_inputs(c, t1))).message(ct1).message(norm).message(uh)
}

/// States the products with the matrix and with the challenge, the norms of five
/// polynomials, and the corrected high parts of six.
pub fn prove_az_ct1_norm_use_hint_combined(
    a_hat: &[[i64; 256]],
    z_hat: &[[i64; 256]; 5],
    c_hat: &[i64; 256],
    t1_hat: &[[i64; 256]; 6],
    z: &[[i64; 256]; 5],
    w_prime: &[[i64; 256]; 6],
    hints: &[[bool; 256]; 6],
    c_tilde_seed: &[u8],
) -> (res: (
    Task,
    (String, String, String, String),
    [[i64; 256]; 6],
    [[i64; 256]; 6],
    [i64; 5],
    [[i64; 256]; 6],
    usize,
))
    requires
        a_hat@.len() == 30,
        polyvec::all_elems(polyvec::polys(a_hat@)),
        polyvec::all_elems(polyvec::polys(z_hat@)),
        transform::is_elem(transform::ints(c_hat@)),
        polyvec::all_elems(polyvec::polys(t1_hat@)),
        polyvec::all_elems(polyvec::polys(z@)),
        polyvec::all_elems(polyvec::polys(w_prime@)),
    ensures
        ({
            let m = mldsa_az_full_air::matrix_of(polyvec::polys(a_hat@));
            let zh = polyvec::polys(z_hat@);
            let c = transform::ints(c_hat@);
            let t1 = polyvec::polys(t1_hat@);
            let zs = polyvec::polys(z@);
            let h = rows::hint_rows(hints@);
            let az = polyvec::mat_vec(m, zh);
            let ct1 = mldsa_ct1_full_air::products(c, t1);
            let w1 = polyvec::vec_use_hint(polyvec::polys(w_prime@), h);
            let norm = fp_of(statement_batch::all_norms(zs));
            let uh = fp_weight(w1, hints::total_weight(h, 6) as int);
            &&& res.1.0@ == cm_of(az)
            &&& res.1.1@ == cm_of(ct1)
            &&& res.1.2@ == commitment::poly_commitment(norm)
            &&& res.1.3@ == commitment::poly_commitment(uh)
            &&& polyvec::polys(res.2@) == az
            &&& polyvec::polys(res.3@) == ct1
            &&& statement_batch::are_norms(res.4@, zs)
            &&& polyvec::polys(res.5@) == w1
            &&& res.6 == hints::total_weight(h, 6)
            &&& statement_ring::is_task(
                res.0,
                az_ct1_norm_hint_transcript(
                    c_tilde_seed@,
                    zh,
                    c,
                    t1,
                    fp_of(az),
                    fp_of(ct1),
                    norm,
                    uh,
                ),
                8,
                seq![az_cols(m, zh), ct1_cols(c, t1), norm_cols(zs), None],
            )
        }),
{
    let (az_columns, az_out) = az_part(a_hat, z_hat);
    let (ct1_columns, ct1_out) = ct1_part(c_hat, t1_hat);
    let (norm_columns, norms, max_norms) = statement_batch::norm_trace(z);
    let w1: [[i64; 256]; 6] = rows::hint_all(w_prime, hints);
    let total: usize = rows::weight(hints);
    let az_in: [u32; 4] = transcript::fingerprint_all(z_hat.as_slice());
    let az_fp: [u32; 4] = transcript::fingerprint_all(az_out.as_slice());
    let ct1_in: [u32; 4] = statement_batch::fingerprint_ct1(c_hat, t1_hat.as_slice());
    let ct1_fp: [u32; 4] = transcript::fingerprint_all(ct1_out.as_slice());
    let norm_fp: [u32; 4] = transcript::fingerprint_all(norms.as_slice());
    let uh_fp: [u32; 4] = statement_batch::fingerprint_weight(&w1, total);
    let mut t: Transcript = Transcript::new();
    t.seed(c_tilde_seed);
    t.component(Circuit::AzFull, 8);
    t.component(Circuit::Ct1Full, 8);
    t.component(Circuit::NormCheckBatch, 8);
    t.component(Circuit::UseHintWeight, 8);
    t.message(az_in.as_slice());
    t.message(az_fp.as_slice());
    t.message(ct1_in.as_slice());
    t.message(ct1_fp.as_slice());
    t.message(norm_fp.as_slice());
    t.message(uh_fp.as_slice());
    let mut traces: Vec<Option<Vec<Vec<u32>>>> = Vec::new();
    built(&mut traces, az_columns);
    built(&mut traces, ct1_columns);
    built(&mut traces, norm_columns);
    not_built(&mut traces);
    proof {
        assert(transcript::traces_view(traces@) =~= seq![
            az_cols(mldsa_az_full_air::matrix_of(polyvec::polys(a_hat@)), polyvec::polys(z_hat@)),
            ct1_cols(transform::ints(c_hat@), polyvec::polys(t1_hat@)),
            norm_cols(polyvec::polys(z@)),
            None,
        ]);
    }
    let task = Task { transcript: t, log_size: 8, preprocessed: Vec::new(), traces };
    let texts = (
        commitment::build_poly_commitment(&az_fp),
        commitment::build_poly_commitment(&ct1_fp),
        commitment::build_poly_commitment(&norm_fp),
        commitment::build_poly_commitment(&uh_fp),
    );
    (task, texts, az_out, ct1_out, max_norms, w1, total)
}

/// What the verifier of the products, the norms and the corrected high parts replays;
/// none where a commitment is not to the claimed values.
pub fn verify_az_ct1_norm_use_hint_combined(
    az_cm: &str,
    ct1_cm: &str,
    norm_cm: &str,
    uh_cm: &str,
    z_hat: &[[i64; 256]; 5],
    c_hat: &[i64; 256],
    t1_hat: &[[i64; 256]; 6],
    az_hat_out: &[[i64; 256]; 6],
    ct1_hat_out: &[[i64; 256]; 6],
    w1_out: &[[i64; 256]; 6],
    hint_weight_total: usize,
    c_tilde_seed: &[u8],
) -> (res: Result<Option<Replay>, StatementError>)
    ensures
        ({
            let az = fp_of(polyvec::polys(az_hat_out@));
            let ct1 = fp_of(polyvec::polys(ct1_hat_out@));
            let uh = fp_weight(polyvec::polys(w1_out@), hint_weight_total as int);
            if !statement_batch::is_commitment_to(az_cm.spec_bytes(), az)
                || !statement_batch::is_commitment_to(ct1_cm.spec_bytes(), ct1) {
                res matches Ok(None)
            } else {
                match commitment::fingerprint_in(norm_cm.spec_bytes()) {
                    None => res matches Err(StatementError::Commitment(e))
                        && commitment::is_fingerprint_fault(norm_cm.spec_bytes(), e),
                    Some(norm) => if statement_batch::is_commitment_to(uh_cm.spec_bytes(), uh) {
                        res matches Ok(Some(r)) && r.transcript@ == az_ct1_norm_hint_transcript(
                            c_tilde_seed@,
                            polyvec::polys(z_hat@),
                            transform::ints(c_hat@),
                            polyvec::polys(t1_hat@),
                            az,
                            ct1,
                            norm,
                            uh,
                        ) && r.lifting is None
                    } else {
                        res matches Ok(None)
                    },
                }
            }
        }),
{
    let az_in: [u32; 4] = transcript::fingerprint_all(z_hat.as_slice());
    let az_fp: [u32; 4] = transcript::fingerprint_all(az_hat_out.as_slice());
    if !statement_batch::commits(az_cm, &az_fp) {
        return Ok(None);
    }
    let ct1_in: [u32; 4] = statement_batch::fingerprint_ct1(c_hat, t1_hat.as_slice());
    let ct1_fp: [u32; 4] = transcript::fingerprint_all(ct1_hat_out.as_slice());
    if !statement_batch::commits(ct1_cm, &ct1_fp) {
        return Ok(None);
    }
    let norm_fp: [u32; 4] = match commitment::parse_poly_commitment(norm_cm) {
        Ok(fp) => fp,
        Err(e) => {
            return Err(StatementError::Commitment(e));
        },
    };
    let uh_fp: [u32; 4] = statement_batch::fingerprint_weight(w1_out, hint_weight_total);
    if !statement_batch::commits(uh_cm, &uh_fp) {
        return Ok(None);
    }
    let mut t: Transcript = Transcript::new();
    t.seed(c_tilde_seed);
    t.component(Circuit::AzFull, 8);
    t.component(Circuit::Ct1Full, 8);
    t.component(Circuit::NormCheckBatch, 8);
    t.component(Circuit::UseHintWeight, 8);
    t.message(az_in.as_slice());
    t.message(az_fp.as_slice());
    t.message(ct1_in.as_slice());
    t.message(ct1_fp.as_slice());
    t.message(norm_fp.as_slice());
    t.message(uh_fp.as_slice());
    Ok(Some(Replay { transcript: t, lifting: None }))
}

} // verus!
