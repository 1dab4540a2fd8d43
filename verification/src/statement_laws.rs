//! What the statements about a whole verification have to do with each other and with
//! the verification itself.
use crate::commitment;
use crate::mldsa::encoding;
use crate::mldsa::hints;
use crate::mldsa::params::{K, T1_BITS};
use crate::mldsa::polyvec;
use crate::mldsa::ring;
use crate::mldsa::transform;
use crate::mldsa::verify;
use crate::mldsa::xof;
use crate::mldsa_ct1_full_air;
use crate::rows;
use crate::statement_batch;
use crate::statement_full;
use crate::statement_ring;
use crate::statement_witness;
use crate::statement_witness::{Claim, Witness, WitnessCommitments};
use crate::transcript;
use crate::transcript::{Replay, StatementError, Task, TranscriptView};
use vstd::prelude::*;
use vstd::string::*;
use vstd::utf8::*;

verus! {

/// Whether a claim is to the values of a witness.
pub open spec fn is_claim_of(c: Claim, w: Witness) -> bool {
    &&& c.z_hat@ == w.products.z_hat@
    &&& c.c_hat == w.products.c_hat
    &&& c.t1_hat@ == w.products.t1_hat@
    &&& c.az_hat == w.products.az_hat
    &&& c.ct1_hat == w.products.ct1_hat
    &&& c.az_out == w.differences.az_out
    &&& c.ct1_out == w.differences.ct1_out
    &&& c.w_prime == w.differences.w_prime
    &&& c.w1_out == w.differences.w1_out
    &&& c.hint_weight_total == w.differences.hint_weight_total
}

/// The claim to the values of a witness.
pub fn claim_of(w: &Witness) -> (c: Claim)
    ensures
        is_claim_of(c, *w),
{
    let mut z_hat: Vec<[i64; 256]> = Vec::new();
    rows::push_rows(&mut z_hat, w.products.z_hat.as_slice());
    let mut t1_hat: Vec<[i64; 256]> = Vec::new();
    rows::push_rows(&mut t1_hat, w.products.t1_hat.as_slice());
    proof {
        assert(z_hat@ =~= w.products.z_hat@);
        assert(t1_hat@ =~= w.products.t1_hat@);
    }
    Claim {
        z_hat,
        c_hat: w.products.c_hat,
        t1_hat,
        az_hat: w.products.az_hat,
        ct1_hat: w.products.ct1_hat,
        az_out: w.differences.az_out,
        ct1_out: w.differences.ct1_out,
        w_prime: w.differences.w_prime,
        w1_out: w.differences.w1_out,
        hint_weight_total: w.differences.hint_weight_total,
    }
}

/// Who verifies a whole verification with the prover's commitments, seeds and values
/// is not turned down and replays the prover's transcript.
pub proof fn lemma_claim_replayed(
    res: Result<Option<Replay>, StatementError>,
    r: (Task, WitnessCommitments, Witness),
    claim: Claim,
    m: Seq<Seq<Seq<int>>>,
    z: Seq<Seq<int>>,
    c: Seq<int>,
    t1: Seq<Seq<int>>,
    h: Seq<Seq<bool>>,
    seed: Seq<u8>,
    extra: Seq<u8>,
    ranged: bool,
)
    requires
        statement_witness::proves_witness(r, m, z, c, t1, h, seed, extra, ranged),
        is_claim_of(claim, r.2),
        statement_witness::replays_claim(res, r.1, claim, seed, extra, ranged),
    ensures
        res matches Ok(Some(replay)) && replay.transcript@ == r.0.transcript@,
{
    statement_ring::lemma_commitment_read_back(transcript::flat(statement_batch::all_norms(z)));
}

/// Whether a text is the commitment to the fingerprint `x`, and not to `fp`.
pub open spec fn is_off(text: Seq<char>, x: Seq<u32>, fp: Seq<u32>) -> bool {
    &&& commitment::is_fingerprint(x)
    &&& text == commitment::poly_commitment(x)
    &&& x != fp
}

/// Whether a commitment before that to the norms is to the fingerprint `x`, and not to
/// that of its part of the claim.
pub open spec fn is_part_off(cm: WitnessCommitments, claim: Claim, x: Seq<u32>) -> bool {
    ||| is_off(cm.ntt@, x, statement_witness::claim_ntt(claim))
    ||| is_off(cm.az@, x, statement_full::fp_of(polyvec::polys(claim.az_hat@)))
    ||| is_off(cm.ct1@, x, statement_full::fp_of(polyvec::polys(claim.ct1_hat@)))
    ||| is_off(cm.differences.intt@, x, statement_witness::claim_intt(claim))
    ||| is_off(
        cm.differences.wprime@,
        x,
        statement_full::fp_of(polyvec::polys(claim.w_prime@)),
    )
}

proof fn lemma_off(text: Seq<char>, x: Seq<u32>, v: Seq<int>)
    requires
        is_off(text, x, commitment::fingerprint(v)),
    ensures
        !statement_batch::is_commitment_to(encode_utf8(text), commitment::fingerprint(v)),
{
    commitment::lemma_fingerprint(v);
    commitment::lemma_poly_commitment_roundtrip(x);
    commitment::lemma_poly_commitment_roundtrip(commitment::fingerprint(v));
}

/// A claim is turned down where one of its parts has another fingerprint than the one that
/// is committed to: the transforms, one of the products, the inverse transforms, the
/// differences, or the high parts with the weight of the hint. Where that last commitment
/// alone is off and the one to the norms is none, the latter is refused.
pub proof fn lemma_other_claim_refused(
    res: Result<Option<Replay>, StatementError>,
    cm: WitnessCommitments,
    claim: Claim,
    x: Seq<u32>,
    seed: Seq<u8>,
    extra: Seq<u8>,
    ranged: bool,
)
    requires
        statement_witness::replays_claim(res, cm, claim, seed, extra, ranged),
        is_part_off(cm, claim, x) || is_off(
            cm.differences.use_hint@,
            x,
            statement_witness::claim_hint(claim),
        ),
    ensures
        !(res matches Ok(Some(_))),
        is_part_off(cm, claim, x) ==> res matches Ok(None),
        commitment::fingerprint_in(encode_utf8(cm.differences.norm@)) is Some ==> res matches Ok(
            None,
        ),
{
    let transforms = statement_witness::transforms(
        polyvec::polys(claim.z_hat@),
        transform::ints(claim.c_hat@),
        polyvec::polys(claim.t1_hat@),
    );
    let inverses = polyvec::polys(claim.az_out@) + polyvec::polys(claim.ct1_out@);
    if is_off(cm.ntt@, x, statement_witness::claim_ntt(claim)) {
        lemma_off(cm.ntt@, x, transcript::flat(transforms));
    } else if is_off(cm.az@, x, statement_full::fp_of(polyvec::polys(claim.az_hat@))) {
        lemma_off(cm.az@, x, transcript::flat(polyvec::polys(claim.az_hat@)));
    } else if is_off(cm.ct1@, x, statement_full::fp_of(polyvec::polys(claim.ct1_hat@))) {
        lemma_off(cm.ct1@, x, transcript::flat(polyvec::polys(claim.ct1_hat@)));
    } else if is_off(cm.differences.intt@, x, statement_witness::claim_intt(claim)) {
        lemma_off(cm.differences.intt@, x, transcript::flat(inverses));
    } else if is_part_off(cm, claim, x) {
        lemma_off(
            cm.differences.wprime@,
            x,
            transcript::flat(polyvec::polys(claim.w_prime@)),
        );
    } else {
        lemma_off(
            cm.differences.use_hint@,
            x,
            statement_batch::with_weight(
                polyvec::polys(claim.w1_out@),
                claim.hint_weight_total as int,
            ),
        );
    }
}

proof fn lemma_each(t: TranscriptView, v: Seq<Seq<int>>, n: nat)
    ensures
        t.each(v, n).messages.len() == t.messages.len() + n,
        t.each(v, n).seeds == t.seeds,
        t.each(v, n).components == t.components,
        forall|i: int| 0 <= i < t.messages.len() ==> t.each(v, n).messages[i] == t.messages[i],
        forall|i: int|
            0 <= i < n ==> t.each(v, n).messages[#[trigger] (t.messages.len() + i)]
                == commitment::fingerprint(v[i]),
    decreases n,
{
    if n > 0 {
        lemma_each(t, v, (n - 1) as nat);
    }
}

/// Two whole verifications with the same transcript agree in all their fingerprints,
/// in their seeds, and in whether they have the range check.
pub proof fn lemma_witness_bound(
    s: (Seq<u8>, Seq<u8>, bool),
    t: (Seq<u8>, Seq<u8>, bool),
    a: (Seq<u32>, Seq<u32>, Seq<u32>),
    b: (Seq<u32>, Seq<u32>, Seq<u32>),
    g: Seq<Seq<int>>,
    k: Seq<Seq<int>>,
    x: (Seq<u32>, Seq<u32>, Seq<u32>, Seq<u32>),
    y: (Seq<u32>, Seq<u32>, Seq<u32>, Seq<u32>),
)
    requires
        statement_witness::witness_transcript(
            s.0,
            s.1,
            s.2,
            a.0,
            a.1,
            a.2,
            g,
            x.0,
            x.1,
            x.2,
            x.3,
        ) == statement_witness::witness_transcript(
            t.0,
            t.1,
            t.2,
            b.0,
            b.1,
            b.2,
            k,
            y.0,
            y.1,
            y.2,
            y.3,
        ),
    ensures
        transcript::seeded(s.0) + transcript::seeded(s.1) == transcript::seeded(t.0)
            + transcript::seeded(t.1),
        s.2 == t.2,
        a == b,
        forall|i: int|
            0 <= i < 12 ==> commitment::fingerprint(#[trigger] g[i]) == commitment::fingerprint(
                k[i],
            ),
        x == y,
{
    let p = statement_witness::witness_transcript(
        s.0,
        s.1,
        s.2,
        a.0,
        a.1,
        a.2,
        g,
        x.0,
        x.1,
        x.2,
        x.3,
    );
    let q = statement_witness::witness_transcript(
        t.0,
        t.1,
        t.2,
        b.0,
        b.1,
        b.2,
        k,
        y.0,
        y.1,
        y.2,
        y.3,
    );
    lemma_witness_messages(s, a, g, x);
    lemma_witness_messages(t, b, k, y);
    assert(p.messages[0] == q.messages[0]);
    assert(p.messages[1] == q.messages[1]);
    assert(p.messages[2] == q.messages[2]);
    assert(p.messages[15] == q.messages[15]);
    assert(p.messages[16] == q.messages[16]);
    assert(p.messages[17] == q.messages[17]);
    assert(p.messages[18] == q.messages[18]);
    assert forall|i: int| 0 <= i < 12 implies commitment::fingerprint(#[trigger] g[i])
        == commitment::fingerprint(k[i]) by {
        assert(p.messages[3 + i] == q.messages[3 + i]);
    }
}

proof fn lemma_witness_messages(
    s: (Seq<u8>, Seq<u8>, bool),
    a: (Seq<u32>, Seq<u32>, Seq<u32>),
    g: Seq<Seq<int>>,
    x: (Seq<u32>, Seq<u32>, Seq<u32>, Seq<u32>),
)
    ensures
        ({
            let p = statement_witness::witness_transcript(
                s.0,
                s.1,
                s.2,
                a.0,
                a.1,
                a.2,
                g,
                x.0,
                x.1,
                x.2,
                x.3,
            );
            &&& p.seeds == transcript::seeded(s.0) + transcript::seeded(s.1)
            &&& p.components.len() == if s.2 {
                8int
            } else {
                7int
            }
            &&& p.messages.len() == 19
            &&& p.messages[0] == a.0
            &&& p.messages[1] == a.1
            &&& p.messages[2] == a.2
            &&& forall|i: int|
                0 <= i < 12 ==> p.messages[#[trigger] (3 + i)] == commitment::fingerprint(g[i])
            &&& p.messages[15] == x.0
            &&& p.messages[16] == x.1
            &&& p.messages[17] == x.2
            &&& p.messages[18] == x.3
        }),
{
    let p = statement_witness::witness_transcript(
        s.0,
        s.1,
        s.2,
        a.0,
        a.1,
        a.2,
        g,
        x.0,
        x.1,
        x.2,
        x.3,
    );
    let parts = transcript::nothing().seed(s.0).seed(s.1).component(
        transcript::rows_1024(transcript::Circuit::NttBatch { n_polys: 12 }),
    ).component(transcript::rows_256(transcript::Circuit::AzFull)).component(
        transcript::rows_256(transcript::Circuit::Ct1Full),
    ).component(
        transcript::rows_1024(transcript::Circuit::InttBatch { n_polys: 12 }),
    ).component(transcript::rows_256(transcript::Circuit::WPrimeFull)).component(
        transcript::rows_256(transcript::Circuit::NormCheckBatch),
    ).component(transcript::rows_256(transcript::Circuit::UseHintWeight));
    let all = if s.2 {
        parts.component(transcript::rows_256(transcript::Circuit::RangeQBatch))
    } else {
        parts
    };
    let mid = all.message(a.0).message(a.1).message(a.2);
    lemma_each(mid, g, 12);
    let e = mid.each(g, 12);
    assert(p == e.message(x.0).message(x.1).message(x.2).message(x.3));
    assert(mid.messages.len() == 3);
    assert(e.messages.len() == 15);
    assert(p.seeds =~= transcript::seeded(s.0) + transcript::seeded(s.1));
    assert(parts.components.len() == 7);
    assert(mid.messages[0] == a.0 && mid.messages[1] == a.1 && mid.messages[2] == a.2);
    assert(e.messages[0] == mid.messages[0]);
    assert(e.messages[1] == mid.messages[1]);
    assert(e.messages[2] == mid.messages[2]);
    assert forall|i: int| 0 <= i < 12 implies p.messages[#[trigger] (3 + i)]
        == commitment::fingerprint(g[i]) by {
        assert(e.messages[mid.messages.len() + i] == commitment::fingerprint(g[i]));
    }
}

/// The inverse transform of a difference is the difference of the inverse transforms.
pub proof fn lemma_intt_of_difference(a: Seq<int>, b: Seq<int>)
    requires
        transform::is_elem(a),
        transform::is_elem(b),
    ensures
        transform::intt_of(ring::ring_sub(a, b)) == ring::ring_sub(
            transform::intt_of(a),
            transform::intt_of(b),
        ),
{
    transform::lemma_ntt_of_intt(a);
    transform::lemma_ntt_of_intt(b);
    let d = ring::ring_sub(transform::intt_of(a), transform::intt_of(b));
    ring::lemma_ntt_of_difference(transform::intt_of(a), transform::intt_of(b));
    transform::lemma_intt_of_ntt(d);
}

/// The differences that a statement proves are the approximate commitment that a
/// verification recomputes, where the statement's `t1` is the key's times `2^13`.
pub proof fn lemma_statement_recomputes(
    m: Seq<Seq<Seq<int>>>,
    z: Seq<Seq<int>>,
    c: Seq<int>,
    t1: Seq<Seq<int>>,
)
    requires
        m.len() == 6,
        t1.len() == 6,
        z.len() == 5,
        polyvec::is_matrix(m, 5),
        polyvec::all_elems(z),
        polyvec::all_elems(t1),
        transform::is_elem(c),
    ensures
        statement_witness::wprime_of(
            polyvec::mat_vec(m, polyvec::vec_ntt(z)),
            mldsa_ct1_full_air::products(
                transform::ntt_of(c),
                polyvec::vec_ntt(verify::unrounded(t1)),
            ),
        ) == verify::approx_commitment(m, c, z, t1),
{
    let az = polyvec::mat_vec(m, polyvec::vec_ntt(z));
    let th = polyvec::vec_ntt(verify::unrounded(t1));
    let ch = transform::ntt_of(c);
    let ct1 = mldsa_ct1_full_air::products(ch, th);
    let other = Seq::new(6, |i: int| transform::pointwise(th[i], ch));
    assert forall|i: int| 0 <= i < 6 implies ct1[i] == #[trigger] other[i] by {
        assert forall|p: int| 0 <= p < 256 implies ct1[i][p] == #[trigger] other[i][p] by {
            assert(ch[p] * th[i][p] == th[i][p] * ch[p]) by (nonlinear_arith);
        }
        assert(ct1[i] =~= other[i]);
    }
    assert(ct1 =~= other);
    let l = statement_witness::wprime_of(az, ct1);
    let r = polyvec::vec_intt(polyvec::vec_sub(az, ct1));
    assert forall|i: int| 0 <= i < 6 implies l[i] == #[trigger] r[i] by {
        assert(transform::is_elem(az[i])) by {
            assert(az[i] == polyvec::dot(m[i], polyvec::vec_ntt(z), 5));
        }
        assert(transform::is_elem(ct1[i]));
        lemma_intt_of_difference(az[i], ct1[i]);
    }
    assert(l =~= r);
    assert(verify::approx_commitment(m, c, z, t1) =~= r) by {
        assert(Seq::new(t1.len(), |i: int| transform::pointwise(th[i], transform::ntt_of(c)))
            =~= other);
    }
}

/// A statement about the parts of a key and a signature proves the high parts that the
/// signature claims.
pub proof fn lemma_statement_proves_claimed(pk: Seq<u8>, sig: Seq<u8>, w: Seq<Seq<int>>)
    requires
        polyvec::is_matrix(xof::matrix_of(verify::pk_seed(pk)), 5),
        transform::is_elem(xof::ball_poly(verify::sig_seed(sig))),
        polyvec::all_elems(encoding::chunk_polys(pk, 32, T1_BITS as nat, K as nat)),
        w == statement_witness::wprime_of(
            polyvec::mat_vec(
                xof::matrix_of(verify::pk_seed(pk)),
                polyvec::vec_ntt(verify::reduced(encoding::sig_z(sig))),
            ),
            mldsa_ct1_full_air::products(
                transform::ntt_of(xof::ball_poly(verify::sig_seed(sig))),
                polyvec::vec_ntt(
                    verify::unrounded(encoding::chunk_polys(pk, 32, T1_BITS as nat, K as nat)),
                ),
            ),
        ),
    ensures
        polyvec::vec_use_hint(w, hints::hint_matrix(encoding::sig_hint_bytes(sig)))
            == verify::claimed_w1(pk, sig),
{
    let z = verify::reduced(encoding::sig_z(sig));
    assert(polyvec::all_elems(z));
    lemma_statement_recomputes(
        xof::matrix_of(verify::pk_seed(pk)),
        z,
        xof::ball_poly(verify::sig_seed(sig)),
        encoding::chunk_polys(pk, 32, T1_BITS as nat, K as nat),
    );
}

} // verus!
