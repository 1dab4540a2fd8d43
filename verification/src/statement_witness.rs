//! The statements that follow a signature's verification from the transforms to the
//! corrected high parts.
use crate::columns;
use crate::commitment;
use crate::mldsa::hints;
use crate::mldsa::params::{K, L};
use crate::mldsa::polyvec;
use crate::mldsa::transform;
use crate::mldsa_az_full_air;
use crate::mldsa_ct1_full_air;
use crate::mldsa_intt_batch_air;
use crate::rows;
use crate::statement_batch;
use crate::statement_full;
use crate::statement_ring;
use crate::transcript;
use crate::transcript::{Circuit, Replay, StatementError, Task, Transcript, TranscriptView};
use vstd::prelude::*;
use vstd::string::*;
use vstd::utf8::*;

verus! {

/// The transforms of `z`, `c` and `t1` in one list.
pub open spec fn transforms(z: Seq<Seq<int>>, c: Seq<int>, t1: Seq<Seq<int>>) -> Seq<Seq<int>> {
    z + seq![c] + t1
}

/// The fingerprint of the transforms of `z`, `c` and `t1`.
fn fingerprint_transforms(z: &[[i64; 256]], c: &[i64; 256], t1: &[[i64; 256]]) -> (fp: [u32; 4])
    ensures
        fp@ == statement_full::fp_of(
            transforms(polyvec::polys(z@), transform::ints(c@), polyvec::polys(t1@)),
        ),
        commitment::is_fingerprint(fp@),
{
    let mut all: Vec<[i64; 256]> = Vec::new();
    rows::push_rows(&mut all, z);
    all.push(*c);
    rows::push_rows(&mut all, t1);
    proof {
        assert(polyvec::polys(all@) =~= transforms(
            polyvec::polys(z@),
            transform::ints(c@),
            polyvec::polys(t1@),
        ));
    }
    transcript::fingerprint_all(all.as_slice())
}

/// The transforms of `z`, `c` and `t1`.
fn transform_inputs(z: &[[i64; 256]; 5], c: &[i64; 256], t1: &[[i64; 256]; 6]) -> (r: (
    [[i64; 256]; 5],
    [i64; 256],
    [[i64; 256]; 6],
))
    requires
        polyvec::all_elems(polyvec::polys(z@)),
        transform::is_elem(transform::ints(c@)),
        polyvec::all_elems(polyvec::polys(t1@)),
    ensures
        polyvec::polys(r.0@) == polyvec::vec_ntt(polyvec::polys(z@)),
        polyvec::all_elems(polyvec::polys(r.0@)),
        transform::ints(r.1@) == transform::ntt_of(transform::ints(c@)),
        transform::is_elem(transform::ints(r.1@)),
        polyvec::polys(r.2@) == polyvec::vec_ntt(polyvec::polys(t1@)),
        polyvec::all_elems(polyvec::polys(r.2@)),
{
    let z_hat: Vec<[i64; 256]> = rows::ntt_rows(z.as_slice());
    let mut c_hat: [i64; 256] = *c;
    crate::mldsa::ntt::ntt(&mut c_hat);
    let t1_hat: Vec<[i64; 256]> = rows::ntt_rows(t1.as_slice());
    let z5: [[i64; 256]; 5] = rows::five_rows(z_hat.as_slice(), 0);
    let t6: [[i64; 256]; 6] = rows::six_rows(t1_hat.as_slice(), 0);
    proof {
        assert(polyvec::polys(z_hat@).subrange(0, 5) =~= polyvec::polys(z_hat@));
        assert(polyvec::polys(t1_hat@).subrange(0, 6) =~= polyvec::polys(t1_hat@));
    }
    (z5, c_hat, t6)
}

/// The transcript of the transforms and the products.
pub open spec fn ntt_az_ct1_transcript(
    seed: Seq<u8>,
    ntt: Seq<u32>,
    az: Seq<u32>,
    ct1: Seq<u32>,
) -> TranscriptView {
    transcript::nothing().seed(seed).component(
        transcript::rows_1024(Circuit::NttBatch { n_polys: 12 }),
    ).component(transcript::rows_256(Circuit::AzFull)).component(
        transcript::rows_256(Circuit::Ct1Full),
    ).message(ntt).message(az).message(ct1)
}

/// What the transforms and the products come to.
pub struct Products {
    pub z_hat: [[i64; 256]; 5],
    pub c_hat: [i64; 256],
    pub t1_hat: [[i64; 256]; 6],
    pub az_hat: [[i64; 256]; 6],
    pub ct1_hat: [[i64; 256]; 6],
}

/// Whether `p` holds the transforms of `z`, `c` and `t1`, the product of the matrix
/// and the first, and the products of the others.
pub open spec fn are_products(
    p: Products,
    z: Seq<Seq<int>>,
    c: Seq<int>,
    t1: Seq<Seq<int>>,
    m: Seq<Seq<Seq<int>>>,
) -> bool {
    &&& polyvec::polys(p.z_hat@) == polyvec::vec_ntt(z)
    &&& transform::ints(p.c_hat@) == transform::ntt_of(c)
    &&& polyvec::polys(p.t1_hat@) == polyvec::vec_ntt(t1)
    &&& polyvec::polys(p.az_hat@) == polyvec::mat_vec(m, polyvec::vec_ntt(z))
    &&& polyvec::polys(p.ct1_hat@) == mldsa_ct1_full_air::products(
        transform::ntt_of(c),
        polyvec::vec_ntt(t1),
    )
}

/// States the transforms of `z`, `c` and `t1`, the product of the matrix and the first,
/// and the products of the others.
pub fn prove_ntt_az_ct1_combined(
    z: &[[i64; 256]; 5],
    c: &[i64; 256],
    t1: &[[i64; 256]; 6],
    a_hat: &[[i64; 256]],
    c_tilde_seed: &[u8],
) -> (res: Result<(Task, (String, String, String), Products), StatementError>)
    requires
        polyvec::all_elems(polyvec::polys(z@)),
        transform::is_elem(transform::ints(c@)),
        polyvec::all_elems(polyvec::polys(t1@)),
        polyvec::all_elems(polyvec::polys(a_hat@)),
    ensures
        ({
            let m = mldsa_az_full_air::matrix_of(polyvec::polys(a_hat@));
            let zh = polyvec::vec_ntt(polyvec::polys(z@));
            let ch = transform::ntt_of(transform::ints(c@));
            let th = polyvec::vec_ntt(polyvec::polys(t1@));
            let az = polyvec::mat_vec(m, zh);
            let ct1 = mldsa_ct1_full_air::products(ch, th);
            let all = transforms(zh, ch, th);
            if a_hat@.len() != 30 {
                res == Err::<(Task, (String, String, String), Products), StatementError>(
                    StatementError::MatrixSize { got: a_hat@.len() as usize },
                )
            } else {
                &&& res is Ok
                &&& are_products(
                    res->Ok_0.2,
                    polyvec::polys(z@),
                    transform::ints(c@),
                    polyvec::polys(t1@),
                    m,
                )
                &&& res->Ok_0.1.0@ == statement_full::cm_of(all)
                &&& res->Ok_0.1.1@ == statement_full::cm_of(az)
                &&& res->Ok_0.1.2@ == statement_full::cm_of(ct1)
                &&& statement_ring::is_task(
                    res->Ok_0.0,
                    ntt_az_ct1_transcript(
                        c_tilde_seed@,
                        statement_full::fp_of(all),
                        statement_full::fp_of(az),
                        statement_full::fp_of(ct1),
                    ),
                    10,
                    seq![None, statement_full::az_cols(m, zh), statement_full::ct1_cols(ch, th)],
                )
            }
        }),
{
    if a_hat.len() != K * L {
        return Err(StatementError::MatrixSize { got: a_hat.len() });
    }
    let (z_hat, c_hat, t1_hat) = transform_inputs(z, c, t1);
    let (az_columns, az_hat) = statement_full::az_part(a_hat, &z_hat);
    let (ct1_columns, ct1_hat) = statement_full::ct1_part(&c_hat, &t1_hat);
    let ntt_fp: [u32; 4] = fingerprint_transforms(z_hat.as_slice(), &c_hat, t1_hat.as_slice());
    let az_fp: [u32; 4] = transcript::fingerprint_all(az_hat.as_slice());
    let ct1_fp: [u32; 4] = transcript::fingerprint_all(ct1_hat.as_slice());
    let mut t: Transcript = Transcript::new();
    t.seed(c_tilde_seed);
    t.component(Circuit::NttBatch { n_polys: L + 1 + K }, 10);
    t.component(Circuit::AzFull, 8);
    t.component(Circuit::Ct1Full, 8);
    t.message(ntt_fp.as_slice());
    t.message(az_fp.as_slice());
    t.message(ct1_fp.as_slice());
    let mut traces: Vec<Option<Vec<Vec<u32>>>> = Vec::new();
    statement_full::not_built(&mut traces);
    statement_full::built(&mut traces, az_columns);
    statement_full::built(&mut traces, ct1_columns);
    proof {
        assert(transcript::traces_view(traces@) =~= seq![
            None,
            statement_full::az_cols(
                mldsa_az_full_air::matrix_of(polyvec::polys(a_hat@)),
                polyvec::polys(z_hat@),
            ),
            statement_full::ct1_cols(transform::ints(c_hat@), polyvec::polys(t1_hat@)),
        ]);
    }
    let task = Task { transcript: t, log_size: 10, preprocessed: Vec::new(), traces };
    let texts = (
        commitment::build_poly_commitment(&ntt_fp),
        commitment::build_poly_commitment(&az_fp),
        commitment::build_poly_commitment(&ct1_fp),
    );
    Ok((task, texts, Products { z_hat, c_hat, t1_hat, az_hat, ct1_hat }))
}

/// What the verifier of the transforms and the products replays; none where a
/// commitment is not to the claimed values.
pub fn verify_ntt_az_ct1_combined(
    ntt_cm: &str,
    az_cm: &str,
    ct1_cm: &str,
    z_hat: &[[i64; 256]],
    c_hat: &[i64; 256],
    t1_hat: &[[i64; 256]],
    az_hat_out: &[[i64; 256]; 6],
    ct1_hat_out: &[[i64; 256]; 6],
    c_tilde_seed: &[u8],
) -> (res: Option<Replay>)
    ensures
        ({
            let ntt = statement_full::fp_of(
                transforms(
                    polyvec::polys(z_hat@),
                    transform::ints(c_hat@),
                    polyvec::polys(t1_hat@),
                ),
            );
            let az = statement_full::fp_of(polyvec::polys(az_hat_out@));
            let ct1 = statement_full::fp_of(polyvec::polys(ct1_hat_out@));
            if statement_batch::is_commitment_to(ntt_cm.spec_bytes(), ntt)
                && statement_batch::is_commitment_to(az_cm.spec_bytes(), az)
                && statement_batch::is_commitment_to(ct1_cm.spec_bytes(), ct1) {
                &&& res is Some
                &&& res->Some_0.transcript@ == ntt_az_ct1_transcript(c_tilde_seed@, ntt, az, ct1)
                &&& res->Some_0.lifting is None
            } else {
                res is None
            }
        }),
{
    let ntt_fp: [u32; 4] = fingerprint_transforms(z_hat, c_hat, t1_hat);
    if !statement_batch::commits(ntt_cm, &ntt_fp) {
        return None;
    }
    let az_fp: [u32; 4] = transcript::fingerprint_all(az_hat_out.as_slice());
    if !statement_batch::commits(az_cm, &az_fp) {
        return None;
    }
    let ct1_fp: [u32; 4] = transcript::fingerprint_all(ct1_hat_out.as_slice());
    if !statement_batch::commits(ct1_cm, &ct1_fp) {
        return None;
    }
    let mut t: Transcript = Transcript::new();
    t.seed(c_tilde_seed);
    t.component(Circuit::NttBatch { n_polys: L + 1 + K }, 10);
    t.component(Circuit::AzFull, 8);
    t.component(Circuit::Ct1Full, 8);
    t.message(ntt_fp.as_slice());
    t.message(az_fp.as_slice());
    t.message(ct1_fp.as_slice());
    Some(Replay { transcript: t, lifting: None })
}

/// The inverse transforms of twelve polynomials, six and six, and the differences of
/// these, with the columns of the trace of the inverse transforms.
fn intt_part(az_hat: &[[i64; 256]; 6], ct1_hat: &[[i64; 256]; 6]) -> (r: (
    Vec<Vec<u32>>,
    [[i64; 256]; 6],
    [[i64; 256]; 6],
    [[i64; 256]; 6],
))
    requires
        polyvec::all_elems(polyvec::polys(az_hat@)),
        polyvec::all_elems(polyvec::polys(ct1_hat@)),
    ensures
        Some(transcript::words(r.0@)) == statement_full::intt_cols(
            polyvec::polys(az_hat@) + polyvec::polys(ct1_hat@),
        ),
        polyvec::polys(r.1@) == polyvec::vec_intt(polyvec::polys(az_hat@)),
        polyvec::polys(r.2@) == polyvec::vec_intt(polyvec::polys(ct1_hat@)),
        polyvec::polys(r.3@) == polyvec::vec_sub(
            polyvec::vec_intt(polyvec::polys(az_hat@)),
            polyvec::vec_intt(polyvec::polys(ct1_hat@)),
        ),
{
    let ghost a = polyvec::polys(az_hat@);
    let ghost b = polyvec::polys(ct1_hat@);
    let mut all: Vec<[i64; 256]> = Vec::new();
    rows::push_rows(&mut all, az_hat.as_slice());
    rows::push_rows(&mut all, ct1_hat.as_slice());
    proof {
        assert(polyvec::polys(all@) =~= a + b);
        assert forall|i: int| 0 <= i < (a + b).len() implies transform::is_elem(
            #[trigger] (a + b)[i],
        ) by {
            if i < a.len() {
                assert(transform::is_elem(a[i]));
            } else {
                assert(transform::is_elem(b[i - a.len()]));
            }
        }
    }
    let (cols, out) = mldsa_intt_batch_air::build_trace(all.as_slice());
    proof {
        assert(transcript::words(cols@) == columns::views(cols@));
        assert(polyvec::polys(out@).len() == 12);
    }
    let az_out: [[i64; 256]; 6] = rows::six_rows(out.as_slice(), 0);
    let ct1_out: [[i64; 256]; 6] = rows::six_rows(out.as_slice(), 6);
    proof {
        assert(polyvec::polys(az_out@) =~= polyvec::vec_intt(a));
        assert(polyvec::polys(ct1_out@) =~= polyvec::vec_intt(b));
        assert forall|i: int| 0 <= i < 6 implies transform::is_elem(
            #[trigger] polyvec::polys(az_out@)[i],
        ) && transform::is_elem(polyvec::polys(ct1_out@)[i]) by {
            assert(transform::is_elem(polyvec::polys(out@)[i]));
            assert(transform::is_elem(polyvec::polys(out@)[i + 6]));
        }
    }
    let w_prime: [[i64; 256]; 6] = rows::sub_rows(&az_out, &ct1_out);
    (cols, az_out, ct1_out, w_prime)
}

/// Adds the fingerprints of six and six polynomials.
fn each_of_both(t: &mut Transcript, a: &[[i64; 256]; 6], b: &[[i64; 256]; 6])
    ensures
        final(t)@ == old(t)@.each(polyvec::polys(a@) + polyvec::polys(b@), 12),
{
    let mut all: Vec<[i64; 256]> = Vec::new();
    rows::push_rows(&mut all, a.as_slice());
    rows::push_rows(&mut all, b.as_slice());
    proof {
        assert(polyvec::polys(all@) =~= polyvec::polys(a@) + polyvec::polys(b@));
    }
    t.each(all.as_slice());
}

/// The transcript of the inverse transforms and the differences.
pub open spec fn intt_wprime_transcript(
    g: Seq<Seq<int>>,
    intt: Seq<u32>,
    wp: Seq<u32>,
) -> TranscriptView {
    transcript::nothing().component(
        transcript::rows_1024(Circuit::InttBatch { n_polys: 12 }),
    ).component(transcript::rows_256(Circuit::WPrimeFull)).each(g, 12).message(intt).message(wp)
}

/// States the inverse transforms of `az_hat` and `ct1_hat`, and their differences.
pub fn prove_intt_wprime_combined(az_hat: &[[i64; 256]; 6], ct1_hat: &[[i64; 256]; 6]) -> (res: (
    Task,
    (String, String),
    [[i64; 256]; 6],
    [[i64; 256]; 6],
    [[i64; 256]; 6],
))
    requires
        polyvec::all_elems(polyvec::polys(az_hat@)),
        polyvec::all_elems(polyvec::polys(ct1_hat@)),
    ensures
        ({
            let a = polyvec::polys(az_hat@);
            let b = polyvec::polys(ct1_hat@);
            let x = polyvec::vec_intt(a);
            let y = polyvec::vec_intt(b);
            let w = polyvec::vec_sub(x, y);
            &&& res.1.0@ == statement_full::cm_of(x + y)
            &&& res.1.1@ == statement_full::cm_of(w)
            &&& polyvec::polys(res.2@) == x
            &&& polyvec::polys(res.3@) == y
            &&& polyvec::polys(res.4@) == w
            &&& statement_ring::is_task(
                res.0,
                intt_wprime_transcript(
                    a + b,
                    statement_full::fp_of(x + y),
                    statement_full::fp_of(w),
                ),
                10,
                seq![statement_full::intt_cols(a + b), None],
            )
        }),
{
    let (cols, az_out, ct1_out, w_prime) = intt_part(az_hat, ct1_hat);
    let intt_fp: [u32; 4] = transcript::fingerprint_both(az_out.as_slice(), ct1_out.as_slice());
    let wp_fp: [u32; 4] = transcript::fingerprint_all(w_prime.as_slice());
    let mut t: Transcript = Transcript::new();
    t.component(Circuit::InttBatch { n_polys: 2 * K }, 10);
    t.component(Circuit::WPrimeFull, 8);
    each_of_both(&mut t, az_hat, ct1_hat);
    t.message(intt_fp.as_slice());
    t.message(wp_fp.as_slice());
    let mut traces: Vec<Option<Vec<Vec<u32>>>> = Vec::new();
    statement_full::built(&mut traces, cols);
    statement_full::not_built(&mut traces);
    proof {
        assert(transcript::traces_view(traces@) =~= seq![
            statement_full::intt_cols(polyvec::polys(az_hat@) + polyvec::polys(ct1_hat@)),
            None,
        ]);
    }
    let task = Task { transcript: t, log_size: 10, preprocessed: Vec::new(), traces };
    let texts = (
        commitment::build_poly_commitment(&intt_fp),
        commitment::build_poly_commitment(&wp_fp),
    );
    (task, texts, az_out, ct1_out, w_prime)
}

/// What the verifier of the inverse transforms and the differences replays; none where
/// a commitment is not to the claimed values.
pub fn verify_intt_wprime_combined(
    intt_cm: &str,
    wp_cm: &str,
    az_hat: &[[i64; 256]; 6],
    ct1_hat: &[[i64; 256]; 6],
    az_out: &[[i64; 256]; 6],
    ct1_out: &[[i64; 256]; 6],
    w_prime: &[[i64; 256]; 6],
) -> (res: Option<Replay>)
    ensures
        ({
            let intt = statement_full::fp_of(polyvec::polys(az_out@) + polyvec::polys(ct1_out@));
            let wp = statement_full::fp_of(polyvec::polys(w_prime@));
            if statement_batch::is_commitment_to(intt_cm.spec_bytes(), intt)
                && statement_batch::is_commitment_to(wp_cm.spec_bytes(), wp) {
                &&& res is Some
                &&& res->Some_0.transcript@ == intt_wprime_transcript(
                    polyvec::polys(az_hat@) + polyvec::polys(ct1_hat@),
                    intt,
                    wp,
                )
                &&& res->Some_0.lifting is None
            } else {
                res is None
            }
        }),
{
    let intt_fp: [u32; 4] = transcript::fingerprint_both(az_out.as_slice(), ct1_out.as_slice());
    if !statement_batch::commits(intt_cm, &intt_fp) {
        return None;
    }
    let wp_fp: [u32; 4] = transcript::fingerprint_all(w_prime.as_slice());
    if !statement_batch::commits(wp_cm, &wp_fp) {
        return None;
    }
    let mut t: Transcript = Transcript::new();
    t.component(Circuit::InttBatch { n_polys: 2 * K }, 10);
    t.component(Circuit::WPrimeFull, 8);
    each_of_both(&mut t, az_hat, ct1_hat);
    t.message(intt_fp.as_slice());
    t.message(wp_fp.as_slice());
    Some(Replay { transcript: t, lifting: None })
}

/// The transcript of the inverse transforms, the differences, the norms and the
/// corrected high parts.
pub open spec fn intt_hint_transcript(
    g: Seq<Seq<int>>,
    intt: Seq<u32>,
    wp: Seq<u32>,
    norm: Seq<u32>,
    uh: Seq<u32>,
) -> TranscriptView {
    transcript::nothing().component(
        transcript::rows_1024(Circuit::InttBatch { n_polys: 12 }),
    ).component(transcript::rows_256(Circuit::WPrimeFull)).component(
        transcript::rows_256(Circuit::NormCheckBatch),
    ).component(transcript::rows_256(Circuit::UseHintWeight)).each(g, 12).message(intt).message(
        wp,
    ).message(norm).message(uh)
}

/// What the second half of a verification comes to.
pub struct Differences {
    pub az_out: [[i64; 256]; 6],
    pub ct1_out: [[i64; 256]; 6],
    pub w_prime: [[i64; 256]; 6],
    pub max_norms: [i64; 5],
    pub w1_out: [[i64; 256]; 6],
    pub hint_weight_total: usize,
}

/// The differences of the inverse transforms of `a` and `b`.
pub open spec fn wprime_of(a: Seq<Seq<int>>, b: Seq<Seq<int>>) -> Seq<Seq<int>> {
    polyvec::vec_sub(polyvec::vec_intt(a), polyvec::vec_intt(b))
}

/// Whether `d` holds the inverse transforms of `a` and `b`, their differences, the
/// norms of `z`, and the high parts of the differences, corrected by `h`.
pub open spec fn are_differences(
    d: Differences,
    a: Seq<Seq<int>>,
    b: Seq<Seq<int>>,
    z: Seq<Seq<int>>,
    h: Seq<Seq<bool>>,
) -> bool {
    &&& polyvec::polys(d.az_out@) == polyvec::vec_intt(a)
    &&& polyvec::polys(d.ct1_out@) == polyvec::vec_intt(b)
    &&& polyvec::polys(d.w_prime@) == wprime_of(a, b)
    &&& statement_batch::are_norms(d.max_norms@, z)
    &&& polyvec::polys(d.w1_out@) == polyvec::vec_use_hint(wprime_of(a, b), h)
    &&& d.hint_weight_total == hints::total_weight(h, 6)
}

/// The commitments of the second half of a verification.
pub struct DifferenceCommitments {
    pub intt: String,
    pub wprime: String,
    pub norm: String,
    pub use_hint: String,
}

/// Whether the commitments are to what the second half of a verification comes to.
pub open spec fn commit_to_differences(
    cm: DifferenceCommitments,
    a: Seq<Seq<int>>,
    b: Seq<Seq<int>>,
    z: Seq<Seq<int>>,
    h: Seq<Seq<bool>>,
) -> bool {
    &&& cm.intt@ == statement_full::cm_of(polyvec::vec_intt(a) + polyvec::vec_intt(b))
    &&& cm.wprime@ == statement_full::cm_of(wprime_of(a, b))
    &&& cm.norm@ == statement_full::cm_of(statement_batch::all_norms(z))
    &&& cm.use_hint@ == commitment::poly_commitment(hint_fp(a, b, h))
}

/// The fingerprint of the corrected high parts and of the weight of the hint.
pub open spec fn hint_fp(a: Seq<Seq<int>>, b: Seq<Seq<int>>, h: Seq<Seq<bool>>) -> Seq<u32> {
    statement_full::fp_weight(
        polyvec::vec_use_hint(wprime_of(a, b), h),
        hints::total_weight(h, 6) as int,
    )
}

/// The fingerprints of the second half of a verification.
struct DifferenceFingerprints {
    intt: [u32; 4],
    wprime: [u32; 4],
    norm: [u32; 4],
    use_hint: [u32; 4],
}

/// The second half of a verification, its fingerprints, and the columns of the traces
/// of the inverse transforms and of the norms.
fn second_half(
    az_hat: &[[i64; 256]; 6],
    ct1_hat: &[[i64; 256]; 6],
    z: &[[i64; 256]; 5],
    hints: &[[bool; 256]; 6],
) -> (r: (Differences, DifferenceFingerprints, Vec<Vec<u32>>, Vec<Vec<u32>>))
    requires
        polyvec::all_elems(polyvec::polys(az_hat@)),
        polyvec::all_elems(polyvec::polys(ct1_hat@)),
        polyvec::all_elems(polyvec::polys(z@)),
    ensures
        ({
            let a = polyvec::polys(az_hat@);
            let b = polyvec::polys(ct1_hat@);
            let zs = polyvec::polys(z@);
            let h = rows::hint_rows(hints@);
            &&& are_differences(r.0, a, b, zs, h)
            &&& r.1.intt@ == statement_full::fp_of(polyvec::vec_intt(a) + polyvec::vec_intt(b))
            &&& r.1.wprime@ == statement_full::fp_of(wprime_of(a, b))
            &&& r.1.norm@ == statement_full::fp_of(statement_batch::all_norms(zs))
            &&& r.1.use_hint@ == hint_fp(a, b, h)
            &&& Some(transcript::words(r.2@)) == statement_full::intt_cols(a + b)
            &&& Some(transcript::words(r.3@)) == statement_full::norm_cols(zs)
        }),
{
    let (intt_columns, az_out, ct1_out, w_prime) = intt_part(az_hat, ct1_hat);
    let (norm_columns, norms, max_norms) = statement_batch::norm_trace(z);
    let w1_out: [[i64; 256]; 6] = rows::hint_all(&w_prime, hints);
    let hint_weight_total: usize = rows::weight(hints);
    let fps = DifferenceFingerprints {
        intt: transcript::fingerprint_both(az_out.as_slice(), ct1_out.as_slice()),
        wprime: transcript::fingerprint_all(w_prime.as_slice()),
        norm: transcript::fingerprint_all(norms.as_slice()),
        use_hint: statement_batch::fingerprint_weight(&w1_out, hint_weight_total),
    };
    let d = Differences { az_out, ct1_out, w_prime, max_norms, w1_out, hint_weight_total };
    (d, fps, intt_columns, norm_columns)
}

fn difference_commitments(fps: &DifferenceFingerprints) -> (cm: DifferenceCommitments)
    ensures
        cm.intt@ == commitment::poly_commitment(fps.intt@),
        cm.wprime@ == commitment::poly_commitment(fps.wprime@),
        cm.norm@ == commitment::poly_commitment(fps.norm@),
        cm.use_hint@ == commitment::poly_commitment(fps.use_hint@),
{
    DifferenceCommitments {
        intt: commitment::build_poly_commitment(&fps.intt),
        wprime: commitment::build_poly_commitment(&fps.wprime),
        norm: commitment::build_poly_commitment(&fps.norm),
        use_hint: commitment::build_poly_commitment(&fps.use_hint),
    }
}

/// States the inverse transforms of `az_hat` and `ct1_hat`, their differences, the
/// norms of `z`, and the high parts of the differences, corrected by hints.
pub fn prove_intt_wprime_norm_use_hint_combined(
    az_hat: &[[i64; 256]; 6],
    ct1_hat: &[[i64; 256]; 6],
    z: &[[i64; 256]; 5],
    hints: &[[bool; 256]; 6],
) -> (res: (Task, DifferenceCommitments, Differences))
    requires
        polyvec::all_elems(polyvec::polys(az_hat@)),
        polyvec::all_elems(polyvec::polys(ct1_hat@)),
        polyvec::all_elems(polyvec::polys(z@)),
    ensures
        ({
            let a = polyvec::polys(az_hat@);
            let b = polyvec::polys(ct1_hat@);
            let zs = polyvec::polys(z@);
            let h = rows::hint_rows(hints@);
            &&& are_differences(res.2, a, b, zs, h)
            &&& commit_to_differences(res.1, a, b, zs, h)
            &&& statement_ring::is_task(
                res.0,
                intt_hint_transcript(
                    a + b,
                    statement_full::fp_of(polyvec::vec_intt(a) + polyvec::vec_intt(b)),
                    statement_full::fp_of(wprime_of(a, b)),
                    statement_full::fp_of(statement_batch::all_norms(zs)),
                    hint_fp(a, b, h),
                ),
                10,
                seq![
                    statement_full::intt_cols(a + b),
                    None,
                    statement_full::norm_cols(zs),
                    None,
                ],
            )
        }),
{
    let (d, fps, intt_columns, norm_columns) = second_half(az_hat, ct1_hat, z, hints);
    let mut t: Transcript = Transcript::new();
    t.component(Circuit::InttBatch { n_polys: 2 * K }, 10);
    t.component(Circuit::WPrimeFull, 8);
    t.component(Circuit::NormCheckBatch, 8);
    t.component(Circuit::UseHintWeight, 8);
    each_of_both(&mut t, az_hat, ct1_hat);
    t.message(fps.intt.as_slice());
    t.message(fps.wprime.as_slice());
    t.message(fps.norm.as_slice());
    t.message(fps.use_hint.as_slice());
    let mut traces: Vec<Option<Vec<Vec<u32>>>> = Vec::new();
    statement_full::built(&mut traces, intt_columns);
    statement_full::not_built(&mut traces);
    statement_full::built(&mut traces, norm_columns);
    statement_full::not_built(&mut traces);
    proof {
        assert(transcript::traces_view(traces@) =~= seq![
            statement_full::intt_cols(polyvec::polys(az_hat@) + polyvec::polys(ct1_hat@)),
            None,
            statement_full::norm_cols(polyvec::polys(z@)),
            None,
        ]);
    }
    let task = Task { transcript: t, log_size: 10, preprocessed: Vec::new(), traces };
    (task, difference_commitments(&fps), d)
}

/// What the verifier of the second half of a verification replays; none where a
/// commitment is not to the claimed values.
pub fn verify_intt_wprime_norm_use_hint_combined(
    cm: &DifferenceCommitments,
    az_hat: &[[i64; 256]; 6],
    ct1_hat: &[[i64; 256]; 6],
    az_out: &[[i64; 256]; 6],
    ct1_out: &[[i64; 256]; 6],
    w_prime: &[[i64; 256]; 6],
    w1_out: &[[i64; 256]; 6],
    hint_weight_total: usize,
) -> (res: Result<Option<Replay>, StatementError>)
    ensures
        ({
            let intt = statement_full::fp_of(polyvec::polys(az_out@) + polyvec::polys(ct1_out@));
            let wp = statement_full::fp_of(polyvec::polys(w_prime@));
            let uh = statement_full::fp_weight(
                polyvec::polys(w1_out@),
                hint_weight_total as int,
            );
            if !statement_batch::is_commitment_to(encode_utf8(cm.intt@), intt)
                || !statement_batch::is_commitment_to(encode_utf8(cm.wprime@), wp) {
                res matches Ok(None)
            } else {
                match commitment::fingerprint_in(encode_utf8(cm.norm@)) {
                    None => res matches Err(StatementError::Commitment(e))
                        && commitment::is_fingerprint_fault(encode_utf8(cm.norm@), e),
                    Some(norm) => if statement_batch::is_commitment_to(
                        encode_utf8(cm.use_hint@),
                        uh,
                    ) {
                        res matches Ok(Some(r)) && r.transcript@ == intt_hint_transcript(
                            polyvec::polys(az_hat@) + polyvec::polys(ct1_hat@),
                            intt,
                            wp,
                            norm,
                            uh,
                        ) && r.lifting == Some(16u32)
                    } else {
                        res matches Ok(None)
                    },
                }
            }
        }),
{
    let intt_fp: [u32; 4] = transcript::fingerprint_both(az_out.as_slice(), ct1_out.as_slice());
    if !statement_batch::commits(cm.intt.as_str(), &intt_fp) {
        return Ok(None);
    }
    let wp_fp: [u32; 4] = transcript::fingerprint_all(w_prime.as_slice());
    if !statement_batch::commits(cm.wprime.as_str(), &wp_fp) {
        return Ok(None);
    }
    let norm_fp: [u32; 4] = match commitment::parse_poly_commitment(cm.norm.as_str()) {
        Ok(fp) => fp,
        Err(e) => {
            return Err(StatementError::Commitment(e));
        },
    };
    let uh_fp: [u32; 4] = statement_batch::fingerprint_weight(w1_out, hint_weight_total);
    if !statement_batch::commits(cm.use_hint.as_str(), &uh_fp) {
        return Ok(None);
    }
    let mut t: Transcript = Transcript::new();
    t.component(Circuit::InttBatch { n_polys: 2 * K }, 10);
    t.component(Circuit::WPrimeFull, 8);
    t.component(Circuit::NormCheckBatch, 8);
    t.component(Circuit::UseHintWeight, 8);
    each_of_both(&mut t, az_hat, ct1_hat);
    t.message(intt_fp.as_slice());
    t.message(wp_fp.as_slice());
    t.message(norm_fp.as_slice());
    t.message(uh_fp.as_slice());
    Ok(Some(Replay { transcript: t, lifting: Some(transcript::lifting_log_size(10)) }))
}

/// The transcript of a whole verification; with the range check of the product of the
/// matrix where `ranged`.
pub open spec fn witness_transcript(
    seed: Seq<u8>,
    extra: Seq<u8>,
    ranged: bool,
    ntt: Seq<u32>,
    az: Seq<u32>,
    ct1: Seq<u32>,
    g: Seq<Seq<int>>,
    intt: Seq<u32>,
    wp: Seq<u32>,
    norm: Seq<u32>,
    uh: Seq<u32>,
) -> TranscriptView {
    let parts = transcript::nothing().seed(seed).seed(extra).component(
        transcript::rows_1024(Circuit::NttBatch { n_polys: 12 }),
    ).component(transcript::rows_256(Circuit::AzFull)).component(
        transcript::rows_256(Circuit::Ct1Full),
    ).component(transcript::rows_1024(Circuit::InttBatch { n_polys: 12 })).component(
        transcript::rows_256(Circuit::WPrimeFull),
    ).component(transcript::rows_256(Circuit::NormCheckBatch)).component(
        transcript::rows_256(Circuit::UseHintWeight),
    );
    let all = if ranged {
        parts.component(transcript::rows_256(Circuit::RangeQBatch))
    } else {
        parts
    };
    all.message(ntt).message(az).message(ct1).each(g, 12).message(intt).message(wp).message(
        norm,
    ).message(uh)
}

fn witness_components(t: &mut Transcript, ranged: bool)
    ensures
        ({
            let parts = old(t)@.component(
                transcript::rows_1024(Circuit::NttBatch { n_polys: 12 }),
            ).component(transcript::rows_256(Circuit::AzFull)).component(
                transcript::rows_256(Circuit::Ct1Full),
            ).component(transcript::rows_1024(Circuit::InttBatch { n_polys: 12 })).component(
                transcript::rows_256(Circuit::WPrimeFull),
            ).component(transcript::rows_256(Circuit::NormCheckBatch)).component(
                transcript::rows_256(Circuit::UseHintWeight),
            );
            final(t)@ == if ranged {
                parts.component(transcript::rows_256(Circuit::RangeQBatch))
            } else {
                parts
            }
        }),
{
    t.component(Circuit::NttBatch { n_polys: L + 1 + K }, 10);
    t.component(Circuit::AzFull, 8);
    t.component(Circuit::Ct1Full, 8);
    t.component(Circuit::InttBatch { n_polys: 2 * K }, 10);
    t.component(Circuit::WPrimeFull, 8);
    t.component(Circuit::NormCheckBatch, 8);
    t.component(Circuit::UseHintWeight, 8);
    if ranged {
        t.component(Circuit::RangeQBatch, 8);
    }
}

/// What a whole verification comes to.
pub struct Witness {
    pub products: Products,
    pub differences: Differences,
}

/// The commitments of a whole verification.
pub struct WitnessCommitments {
    pub ntt: String,
    pub az: String,
    pub ct1: String,
    pub differences: DifferenceCommitments,
}

/// The traces of a whole verification that this library builds.
pub open spec fn witness_traces(
    m: Seq<Seq<Seq<int>>>,
    z: Seq<Seq<int>>,
    zh: Seq<Seq<int>>,
    ch: Seq<int>,
    th: Seq<Seq<int>>,
    g: Seq<Seq<int>>,
    ranged: bool,
) -> Seq<Option<Seq<Seq<u32>>>> {
    let parts = seq![
        None,
        statement_full::az_cols(m, zh),
        statement_full::ct1_cols(ch, th),
        statement_full::intt_cols(g),
        None,
        statement_full::norm_cols(z),
        None,
    ];
    if ranged {
        parts.push(None)
    } else {
        parts
    }
}

/// Whether a task, its commitments and its witness are those of the verification with
/// the matrix `m`, the response `z`, the challenge `c`, the key `t1` and the hint `h`.
pub open spec fn proves_witness(
    r: (Task, WitnessCommitments, Witness),
    m: Seq<Seq<Seq<int>>>,
    z: Seq<Seq<int>>,
    c: Seq<int>,
    t1: Seq<Seq<int>>,
    h: Seq<Seq<bool>>,
    seed: Seq<u8>,
    extra: Seq<u8>,
    ranged: bool,
) -> bool {
    let zh = polyvec::vec_ntt(z);
    let ch = transform::ntt_of(c);
    let th = polyvec::vec_ntt(t1);
    let az = polyvec::mat_vec(m, zh);
    let ct1 = mldsa_ct1_full_air::products(ch, th);
    let all = transforms(zh, ch, th);
    &&& are_products(r.2.products, z, c, t1, m)
    &&& are_differences(r.2.differences, az, ct1, z, h)
    &&& r.1.ntt@ == statement_full::cm_of(all)
    &&& r.1.az@ == statement_full::cm_of(az)
    &&& r.1.ct1@ == statement_full::cm_of(ct1)
    &&& commit_to_differences(r.1.differences, az, ct1, z, h)
    &&& statement_ring::is_task(
        r.0,
        witness_transcript(
            seed,
            extra,
            ranged,
            statement_full::fp_of(all),
            statement_full::fp_of(az),
            statement_full::fp_of(ct1),
            az + ct1,
            statement_full::fp_of(polyvec::vec_intt(az) + polyvec::vec_intt(ct1)),
            statement_full::fp_of(wprime_of(az, ct1)),
            statement_full::fp_of(statement_batch::all_norms(z)),
            hint_fp(az, ct1, h),
        ),
        10,
        witness_traces(m, z, zh, ch, th, az + ct1, ranged),
    )
}

fn prove_witness(
    z: &[[i64; 256]; 5],
    c: &[i64; 256],
    t1: &[[i64; 256]; 6],
    a_hat: &[[i64; 256]],
    hints: &[[bool; 256]; 6],
    c_tilde_seed: &[u8],
    extra_binding: &[u8],
    ranged: bool,
) -> (res: (Task, WitnessCommitments, Witness))
    requires
        a_hat@.len() == 30,
        polyvec::all_elems(polyvec::polys(z@)),
        transform::is_elem(transform::ints(c@)),
        polyvec::all_elems(polyvec::polys(t1@)),
        polyvec::all_elems(polyvec::polys(a_hat@)),
    ensures
        proves_witness(
            res,
            mldsa_az_full_air::matrix_of(polyvec::polys(a_hat@)),
            polyvec::polys(z@),
            transform::ints(c@),
            polyvec::polys(t1@),
            rows::hint_rows(hints@),
            c_tilde_seed@,
            extra_binding@,
            ranged,
        ),
{
    let (z_hat, c_hat, t1_hat) = transform_inputs(z, c, t1);
    let (az_columns, az_hat) = statement_full::az_part(a_hat, &z_hat);
    let (ct1_columns, ct1_hat) = statement_full::ct1_part(&c_hat, &t1_hat);
    let (d, fps, intt_columns, norm_columns) = second_half(&az_hat, &ct1_hat, z, hints);
    let ntt_fp: [u32; 4] = fingerprint_transforms(z_hat.as_slice(), &c_hat, t1_hat.as_slice());
    let az_fp: [u32; 4] = transcript::fingerprint_all(az_hat.as_slice());
    let ct1_fp: [u32; 4] = transcript::fingerprint_all(ct1_hat.as_slice());
    let mut t: Transcript = Transcript::new();
    t.seed(c_tilde_seed);
    t.seed(extra_binding);
    witness_components(&mut t, ranged);
    t.message(ntt_fp.as_slice());
    t.message(az_fp.as_slice());
    t.message(ct1_fp.as_slice());
    each_of_both(&mut t, &az_hat, &ct1_hat);
    t.message(fps.intt.as_slice());
    t.message(fps.wprime.as_slice());
    t.message(fps.norm.as_slice());
    t.message(fps.use_hint.as_slice());
    let mut traces: Vec<Option<Vec<Vec<u32>>>> = Vec::new();
    statement_full::not_built(&mut traces);
    statement_full::built(&mut traces, az_columns);
    statement_full::built(&mut traces, ct1_columns);
    statement_full::built(&mut traces, intt_columns);
    statement_full::not_built(&mut traces);
    statement_full::built(&mut traces, norm_columns);
    statement_full::not_built(&mut traces);
    if ranged {
        statement_full::not_built(&mut traces);
    }
    proof {
        assert(transcript::traces_view(traces@) =~= witness_traces(
            mldsa_az_full_air::matrix_of(polyvec::polys(a_hat@)),
            polyvec::polys(z@),
            polyvec::polys(z_hat@),
            transform::ints(c_hat@),
            polyvec::polys(t1_hat@),
            polyvec::polys(az_hat@) + polyvec::polys(ct1_hat@),
            ranged,
        ));
    }
    let task = Task { transcript: t, log_size: 10, preprocessed: Vec::new(), traces };
    let cm = WitnessCommitments {
        ntt: commitment::build_poly_commitment(&ntt_fp),
        az: commitment::build_poly_commitment(&az_fp),
        ct1: commitment::build_poly_commitment(&ct1_fp),
        differences: difference_commitments(&fps),
    };
    let w = Witness {
        products: Products { z_hat, c_hat, t1_hat, az_hat, ct1_hat },
        differences: d,
    };
    (task, cm, w)
}

/// States the whole arithmetic of a verification: the transforms of `z`, `c` and `t1`,
/// the products with the matrix and with the challenge, their inverse transforms and
/// differences, the norms of `z`, and the high parts of the differences, corrected by
/// hints.
pub fn prove_full_mldsa_witness_combined(
    z: &[[i64; 256]; 5],
    c: &[i64; 256],
    t1: &[[i64; 256]; 6],
    a_hat: &[[i64; 256]],
    hints: &[[bool; 256]; 6],
    c_tilde_seed: &[u8],
    extra_binding: &[u8],
) -> (res: Result<(Task, WitnessCommitments, Witness), StatementError>)
    requires
        polyvec::all_elems(polyvec::polys(z@)),
        transform::is_elem(transform::ints(c@)),
        polyvec::all_elems(polyvec::polys(t1@)),
        polyvec::all_elems(polyvec::polys(a_hat@)),
    ensures
        a_hat@.len() != 30 ==> res == Err::<(Task, WitnessCommitments, Witness), StatementError>(
            StatementError::MatrixSize { got: a_hat@.len() as usize },
        ),
        a_hat@.len() == 30 ==> res is Ok && proves_witness(
            res->Ok_0,
            mldsa_az_full_air::matrix_of(polyvec::polys(a_hat@)),
            polyvec::polys(z@),
            transform::ints(c@),
            polyvec::polys(t1@),
            rows::hint_rows(hints@),
            c_tilde_seed@,
            extra_binding@,
            false,
        ),
{
    if a_hat.len() != K * L {
        return Err(StatementError::MatrixSize { got: a_hat.len() });
    }
    Ok(prove_witness(z, c, t1, a_hat, hints, c_tilde_seed, extra_binding, false))
}

/// States the whole arithmetic of a verification, and that the product with the matrix
/// holds residues.
pub fn prove_full_mldsa_witness_v23(
    z: &[[i64; 256]; 5],
    c: &[i64; 256],
    t1: &[[i64; 256]; 6],
    a_hat: &[[i64; 256]],
    hints: &[[bool; 256]; 6],
    c_tilde_seed: &[u8],
    extra_binding: &[u8],
) -> (res: Result<(Task, WitnessCommitments, Witness), StatementError>)
    requires
        polyvec::all_elems(polyvec::polys(z@)),
        transform::is_elem(transform::ints(c@)),
        polyvec::all_elems(polyvec::polys(t1@)),
        polyvec::all_elems(polyvec::polys(a_hat@)),
    ensures
        a_hat@.len() != 30 ==> res == Err::<(Task, WitnessCommitments, Witness), StatementError>(
            StatementError::MatrixSize { got: a_hat@.len() as usize },
        ),
        a_hat@.len() == 30 ==> res is Ok && proves_witness(
            res->Ok_0,
            mldsa_az_full_air::matrix_of(polyvec::polys(a_hat@)),
            polyvec::polys(z@),
            transform::ints(c@),
            polyvec::polys(t1@),
            rows::hint_rows(hints@),
            c_tilde_seed@,
            extra_binding@,
            true,
        ),
{
    if a_hat.len() != K * L {
        return Err(StatementError::MatrixSize { got: a_hat.len() });
    }
    Ok(prove_witness(z, c, t1, a_hat, hints, c_tilde_seed, extra_binding, true))
}

/// The values that a verifier of a whole verification is given.
pub struct Claim {
    pub z_hat: Vec<[i64; 256]>,
    pub c_hat: [i64; 256],
    pub t1_hat: Vec<[i64; 256]>,
    pub az_hat: [[i64; 256]; 6],
    pub ct1_hat: [[i64; 256]; 6],
    pub az_out: [[i64; 256]; 6],
    pub ct1_out: [[i64; 256]; 6],
    pub w_prime: [[i64; 256]; 6],
    pub w1_out: [[i64; 256]; 6],
    pub hint_weight_total: usize,
}

/// The fingerprint of the claimed transforms.
pub open spec fn claim_ntt(w: Claim) -> Seq<u32> {
    statement_full::fp_of(
        transforms(
            polyvec::polys(w.z_hat@),
            transform::ints(w.c_hat@),
            polyvec::polys(w.t1_hat@),
        ),
    )
}

/// The fingerprint of the claimed inverse transforms.
pub open spec fn claim_intt(w: Claim) -> Seq<u32> {
    statement_full::fp_of(polyvec::polys(w.az_out@) + polyvec::polys(w.ct1_out@))
}

/// The fingerprint of the claimed high parts and weight.
pub open spec fn claim_hint(w: Claim) -> Seq<u32> {
    statement_full::fp_weight(polyvec::polys(w.w1_out@), w.hint_weight_total as int)
}

/// Whether the commitments before that to the norms are to the claimed values.
pub open spec fn claim_matches(cm: WitnessCommitments, w: Claim) -> bool {
    &&& statement_batch::is_commitment_to(encode_utf8(cm.ntt@), claim_ntt(w))
    &&& statement_batch::is_commitment_to(
        encode_utf8(cm.az@),
        statement_full::fp_of(polyvec::polys(w.az_hat@)),
    )
    &&& statement_batch::is_commitment_to(
        encode_utf8(cm.ct1@),
        statement_full::fp_of(polyvec::polys(w.ct1_hat@)),
    )
    &&& statement_batch::is_commitment_to(encode_utf8(cm.differences.intt@), claim_intt(w))
    &&& statement_batch::is_commitment_to(
        encode_utf8(cm.differences.wprime@),
        statement_full::fp_of(polyvec::polys(w.w_prime@)),
    )
}

/// The transcript of a claim.
pub open spec fn claim_transcript(
    w: Claim,
    norm: Seq<u32>,
    seed: Seq<u8>,
    extra: Seq<u8>,
    ranged: bool,
) -> TranscriptView {
    witness_transcript(
        seed,
        extra,
        ranged,
        claim_ntt(w),
        statement_full::fp_of(polyvec::polys(w.az_hat@)),
        statement_full::fp_of(polyvec::polys(w.ct1_hat@)),
        polyvec::polys(w.az_hat@) + polyvec::polys(w.ct1_hat@),
        claim_intt(w),
        statement_full::fp_of(polyvec::polys(w.w_prime@)),
        norm,
        claim_hint(w),
    )
}

/// Whether a verifier replays the transcript of a claim, refuses the commitment to the
/// norms, or turns the claim down because a commitment is not to it.
pub open spec fn replays_claim(
    res: Result<Option<Replay>, StatementError>,
    cm: WitnessCommitments,
    w: Claim,
    seed: Seq<u8>,
    extra: Seq<u8>,
    ranged: bool,
) -> bool {
    if !claim_matches(cm, w) {
        res matches Ok(None)
    } else {
        match commitment::fingerprint_in(encode_utf8(cm.differences.norm@)) {
            None => res matches Err(StatementError::Commitment(e))
                && commitment::is_fingerprint_fault(encode_utf8(cm.differences.norm@), e),
            Some(norm) => if statement_batch::is_commitment_to(
                encode_utf8(cm.differences.use_hint@),
                claim_hint(w),
            ) {
                res matches Ok(Some(r)) && r.transcript@ == claim_transcript(
                    w,
                    norm,
                    seed,
                    extra,
                    ranged,
                ) && r.lifting == Some(16u32)
            } else {
                res matches Ok(None)
            },
        }
    }
}

fn replay_claim(
    cm: &WitnessCommitments,
    w: &Claim,
    c_tilde_seed: &[u8],
    extra_binding: &[u8],
    ranged: bool,
) -> (res: Result<Option<Replay>, StatementError>)
    ensures
        replays_claim(res, *cm, *w, c_tilde_seed@, extra_binding@, ranged),
{
    let ntt_fp: [u32; 4] = fingerprint_transforms(
        w.z_hat.as_slice(),
        &w.c_hat,
        w.t1_hat.as_slice(),
    );
    if !statement_batch::commits(cm.ntt.as_str(), &ntt_fp) {
        return Ok(None);
    }
    let az_fp: [u32; 4] = transcript::fingerprint_all(w.az_hat.as_slice());
    if !statement_batch::commits(cm.az.as_str(), &az_fp) {
        return Ok(None);
    }
    let ct1_fp: [u32; 4] = transcript::fingerprint_all(w.ct1_hat.as_slice());
    if !statement_batch::commits(cm.ct1.as_str(), &ct1_fp) {
        return Ok(None);
    }
    let intt_fp: [u32; 4] = transcript::fingerprint_both(
        w.az_out.as_slice(),
        w.ct1_out.as_slice(),
    );
    if !statement_batch::commits(cm.differences.intt.as_str(), &intt_fp) {
        return Ok(None);
    }
    let wp_fp: [u32; 4] = transcript::fingerprint_all(w.w_prime.as_slice());
    if !statement_batch::commits(cm.differences.wprime.as_str(), &wp_fp) {
        return Ok(None);
    }
    let norm_fp: [u32; 4] = match commitment::parse_poly_commitment(cm.differences.norm.as_str()) {
        Ok(fp) => fp,
        Err(e) => {
            return Err(StatementError::Commitment(e));
        },
    };
    let uh_fp: [u32; 4] = statement_batch::fingerprint_weight(&w.w1_out, w.hint_weight_total);
    if !statement_batch::commits(cm.differences.use_hint.as_str(), &uh_fp) {
        return Ok(None);
    }
    let mut t: Transcript = Transcript::new();
    t.seed(c_tilde_seed);
    t.seed(extra_binding);
    witness_components(&mut t, ranged);
    t.message(ntt_fp.as_slice());
    t.message(az_fp.as_slice());
    t.message(ct1_fp.as_slice());
    each_of_both(&mut t, &w.az_hat, &w.ct1_hat);
    t.message(intt_fp.as_slice());
    t.message(wp_fp.as_slice());
    t.message(norm_fp.as_slice());
    t.message(uh_fp.as_slice());
    Ok(Some(Replay { transcript: t, lifting: Some(transcript::lifting_log_size(10)) }))
}

/// What the verifier of a whole verification replays; none where a commitment is not
/// to the claimed values.
pub fn verify_full_mldsa_witness_combined(
    cm: &WitnessCommitments,
    w: &Claim,
    c_tilde_seed: &[u8],
    extra_binding: &[u8],
) -> (res: Result<Option<Replay>, StatementError>)
    ensures
        replays_claim(res, *cm, *w, c_tilde_seed@, extra_binding@, false),
{
    replay_claim(cm, w, c_tilde_seed, extra_binding, false)
}

/// What the verifier of a whole verification with the range check replays; none where
/// a commitment is not to the claimed values.
pub fn verify_full_mldsa_witness_v23(
    cm: &WitnessCommitments,
    w: &Claim,
    c_tilde_seed: &[u8],
    extra_binding: &[u8],
) -> (res: Result<Option<Replay>, StatementError>)
    ensures
        replays_claim(res, *cm, *w, c_tilde_seed@, extra_binding@, true),
{
    replay_claim(cm, w, c_tilde_seed, extra_binding, true)
}

} // verus!
