//! Verification of ML-DSA-65 signatures.
use crate::bytes;
use crate::mldsa::encoding;
use crate::mldsa::hints;
use crate::mldsa::params::{BETA, D, GAMMA1, K, LAMBDA_BYTES, PK_BYTES, SIG_BYTES, T1_BITS};
use crate::mldsa::poly::{NTTPoly, Poly};
use crate::mldsa::polyvec;
use crate::mldsa::polyvec::{NTTMatrix, NTTPolyVec, PolyVec};
use crate::mldsa::ring;
use crate::mldsa::transform;
use crate::mldsa::xof;
use crate::mldsa::zq;
use vstd::arithmetic::power2::*;
use vstd::prelude::*;
use vstd::slice::slice_subrange;

verus! {

/// Every coefficient reduced to `[0, Q)`.
pub open spec fn reduced(v: Seq<Seq<int>>) -> Seq<Seq<int>> {
    polyvec::map_coeffs(v, |c: int| zq::modq(c))
}

/// `2^13` times every polynomial.
pub open spec fn unrounded(t1: Seq<Seq<int>>) -> Seq<Seq<int>> {
    Seq::new(t1.len(), |i: int| transform::scaled(8192, t1[i]))
}

/// The approximate commitment `A z - c t1 2^13`, for a matrix of transforms.
pub open spec fn approx_commitment(
    a_hat: Seq<Seq<Seq<int>>>,
    c: Seq<int>,
    z: Seq<Seq<int>>,
    t1: Seq<Seq<int>>,
) -> Seq<Seq<int>> {
    let az = polyvec::mat_vec(a_hat, polyvec::vec_ntt(z));
    let t1_hat = polyvec::vec_ntt(unrounded(t1));
    let ct1 = Seq::new(
        t1.len(),
        |i: int| transform::pointwise(t1_hat[i], transform::ntt_of(c)),
    );
    polyvec::vec_intt(polyvec::vec_sub(az, ct1))
}

/// The message representative of `msg` under `pk`, with an empty context.
pub open spec fn message_representative(pk: Seq<u8>, msg: Seq<u8>) -> Seq<u8> {
    xof::message_hash(xof::key_hash(pk), seq![0u8, 0u8] + msg)
}

/// The challenge seed that `msg` and the high parts `w1` lead to under `pk`.
pub open spec fn challenge_seed(pk: Seq<u8>, msg: Seq<u8>, w1: Seq<Seq<int>>) -> Seq<u8> {
    xof::commit_hash(
        message_representative(pk, msg),
        encoding::w1_bytes(w1, w1.len()),
        LAMBDA_BYTES as nat,
    )
}

/// The challenge seed in a signature.
pub open spec fn sig_seed(sig: Seq<u8>) -> Seq<u8> {
    sig.subrange(0, LAMBDA_BYTES as int)
}

/// The matrix seed in a public key.
pub open spec fn pk_seed(pk: Seq<u8>) -> Seq<u8> {
    pk.subrange(0, 32)
}

/// The high parts of the commitment that a signature claims.
pub open spec fn claimed_w1(pk: Seq<u8>, sig: Seq<u8>) -> Seq<Seq<int>> {
    let w = approx_commitment(
        xof::matrix_of(pk_seed(pk)),
        xof::ball_poly(sig_seed(sig)),
        reduced(encoding::sig_z(sig)),
        encoding::chunk_polys(pk, 32, T1_BITS as nat, K as nat),
    );
    polyvec::vec_use_hint(w, hints::hint_matrix(encoding::sig_hint_bytes(sig)))
}

/// Whether `sig` has the form of a signature with a short response, and `pk` the
/// length of a key.
pub open spec fn well_formed_pair(pk: Seq<u8>, sig: Seq<u8>) -> bool {
    &&& pk.len() == PK_BYTES
    &&& sig.len() == SIG_BYTES
    &&& hints::hint_valid(encoding::sig_hint_bytes(sig))
    &&& polyvec::vec_norm(encoding::sig_z(sig)) < GAMMA1 - BETA
}

/// Whether `sig` is a valid signature of `msg` under `pk`.
pub open spec fn is_valid(pk: Seq<u8>, msg: Seq<u8>, sig: Seq<u8>) -> bool {
    &&& well_formed_pair(pk, sig)
    &&& sig_seed(sig) == challenge_seed(pk, msg, claimed_w1(pk, sig))
}

/// Whether the samplers finish on the seeds in `pk` and `sig`.
pub open spec fn samplers_terminate(pk: Seq<u8>, sig: Seq<u8>) -> bool {
    xof::matrix_terminates(pk_seed(pk)) && xof::ball_terminates(sig_seed(sig))
}

/// Whether the samplers finish on the seeds in `pk` and `sig` within their limit.
pub open spec fn samplers_within_limit(pk: Seq<u8>, sig: Seq<u8>) -> bool {
    &&& xof::matrix_within_limit(pk_seed(pk))
    &&& xof::ball_ready(sig_seed(sig), (xof::STREAM_LIMIT - 8) as nat)
}

/// Reduces every coefficient to `[0, Q)`.
pub fn reduce_vec(v: &PolyVec) -> (r: PolyVec)
    ensures
        r@ == reduced(v@),
        r.wf(),
{
    let mut out: Vec<Poly> = Vec::new();
    let mut i: usize = 0;
    while i < v.0.len()
        invariant
            i <= v.0.len(),
            out.len() == i,
            forall|j: int| 0 <= j < i ==> (#[trigger] out[j])@ == reduced(v@)[j] && out[j].wf(),
        decreases v.0.len() - i,
    {
        let mut p: Poly = v.0[i];
        p.reduce();
        proof {
            assert(p@ =~= reduced(v@)[i as int]);
        }
        out.push(p);
        i = i + 1;
    }
    let r = PolyVec(out);
    proof {
        assert(r@ =~= reduced(v@));
    }
    r
}

/// The approximate commitment `A z - c t1 2^13`.
pub fn recompute_commitment(a_hat: &NTTMatrix, c: &Poly, z: &PolyVec, t1: &PolyVec) -> (w: PolyVec)
    requires
        c.wf(),
        z.wf(),
        t1.wf(),
        polyvec::is_matrix(a_hat@, z@.len()),
        a_hat@.len() == t1@.len(),
    ensures
        w@ == approx_commitment(a_hat@, c@, z@, t1@),
        w.wf(),
{
    let c_hat: NTTPoly = c.ntt();
    let z_hat: NTTPolyVec = z.ntt();
    let t1_scaled: PolyVec = t1.scale_power2(D);
    proof {
        lemma2_to64();
        assert(t1_scaled@ =~= unrounded(t1@));
    }
    let t1_hat: NTTPolyVec = t1_scaled.ntt();
    let az_hat: NTTPolyVec = a_hat.mul_vec(&z_hat);
    let ct1_hat: NTTPolyVec = t1_hat.scale_poly(&c_hat);
    az_hat.sub(&ct1_hat).intt()
}

/// Verifies the signature `sig` of `msg` under the public key `pk`.
pub fn ml_dsa_verify(pk: &[u8], msg: &[u8], sig: &[u8]) -> (valid: bool)
    requires
        well_formed_pair(pk@, sig@) ==> samplers_terminate(pk@, sig@),
    ensures
        valid == is_valid(pk@, msg@, sig@),
{
    if pk.len() != PK_BYTES || sig.len() != SIG_BYTES {
        return false;
    }
    proof {
        hints::lemma_hint_valid(encoding::sig_hint_bytes(sig@));
    }
    let (rho, t1): ([u8; 32], PolyVec) = match encoding::pk_decode(pk) {
        Ok(v) => v,
        Err(_) => return false,
    };
    let (c_tilde, z, h): (Vec<u8>, PolyVec, Vec<Vec<bool>>) = match encoding::sig_decode(sig) {
        Ok(v) => v,
        Err(_) => return false,
    };
    if z.norm_inf() >= GAMMA1 - BETA {
        return false;
    }
    let a_hat: NTTMatrix = xof::expand_a(&rho);
    let c: Poly = xof::sample_in_ball(c_tilde.as_slice());
    let z_reduced: PolyVec = reduce_vec(&z);
    let w: PolyVec = recompute_commitment(&a_hat, &c, &z_reduced, &t1);
    proof {
        let m = hints::hint_matrix(encoding::sig_hint_bytes(sig@));
        assert(polyvec::hint_rows(h@) == m);
        assert(m.len() == K);
        assert forall|i: int| 0 <= i < h@.len() implies (#[trigger] h@[i])@.len() >= 256 by {
            assert(polyvec::hint_rows(h@)[i] == h@[i]@);
            assert(m[i].len() == 256);
        }
    }
    let w1: PolyVec = w.use_hint(h.as_slice());
    let c_tilde_prime: Vec<u8> = recompute_seed(pk, msg, &w1);
    bytes::equal(c_tilde.as_slice(), c_tilde_prime.as_slice())
}

/// The challenge seed that `msg` and the high parts `w1` lead to under `pk`.
pub fn recompute_seed(pk: &[u8], msg: &[u8], w1: &PolyVec) -> (seed: Vec<u8>)
    ensures
        seed@ == challenge_seed(pk@, msg@, w1@),
{
    let tr: [u8; 64] = xof::hash_pk(pk);
    let mut m_prime: Vec<u8> = Vec::new();
    m_prime.push(0);
    m_prime.push(0);
    bytes::push_all(&mut m_prime, msg);
    proof {
        assert(m_prime@ =~= seq![0u8, 0u8] + msg@);
    }
    let mu: [u8; 64] = xof::hash_mu(&tr, m_prime.as_slice());
    let w1_enc: Vec<u8> = encoding::w1_encode(w1);
    xof::hash_commit(&mu, w1_enc.as_slice(), LAMBDA_BYTES)
}

/// Whether the samplers finish on the seeds in `pk` and `sig` within their limit, where
/// these have their lengths.
pub fn samplers_fit(pk: &[u8], sig: &[u8]) -> (r: bool)
    ensures
        r == (pk@.len() == PK_BYTES && sig@.len() == SIG_BYTES ==> samplers_within_limit(
            pk@,
            sig@,
        )),
        r ==> (well_formed_pair(pk@, sig@) ==> samplers_terminate(pk@, sig@)),
{
    if pk.len() != PK_BYTES || sig.len() != SIG_BYTES {
        return true;
    }
    let mut rho: [u8; 32] = [0u8; 32];
    let mut i: usize = 0;
    while i < 32
        invariant
            i <= 32,
            pk@.len() == PK_BYTES,
            forall|j: int| 0 <= j < i ==> rho[j] == pk[j],
        decreases 32 - i,
    {
        rho[i] = pk[i];
        i = i + 1;
    }
    proof {
        assert(rho@ =~= pk_seed(pk@));
    }
    xof::matrix_fits(&rho) && xof::ball_fits(slice_subrange(sig, 0, LAMBDA_BYTES))
}

/// `ml_dsa_verify` where the samplers finish within their limit.
pub fn try_ml_dsa_verify(pk: &[u8], msg: &[u8], sig: &[u8]) -> (res: Option<bool>)
    ensures
        res is None <==> pk@.len() == PK_BYTES && sig@.len() == SIG_BYTES
            && !samplers_within_limit(pk@, sig@),
        res matches Some(valid) ==> valid == is_valid(pk@, msg@, sig@),
{
    if samplers_fit(pk, sig) {
        Some(ml_dsa_verify(pk, msg, sig))
    } else {
        None
    }
}

/// The first `n` terms of the product of a row of transforms and a vector.
pub open spec fn ring_dot(row: Seq<Seq<int>>, z: Seq<Seq<int>>, n: nat) -> Seq<int>
    decreases n,
{
    if n == 0 {
        ring::ring_zero()
    } else {
        ring::ring_add(
            ring_dot(row, z, (n - 1) as nat),
            ring::ring_mul(transform::intt_of(row[n - 1]), z[n - 1]),
        )
    }
}

proof fn lemma_ring_dot(row: Seq<Seq<int>>, z: Seq<Seq<int>>, n: nat)
    requires
        n <= row.len(),
        n <= z.len(),
        polyvec::all_elems(row),
        polyvec::all_elems(z),
    ensures
        ring_dot(row, z, n).len() == 256,
        transform::ntt_of(ring_dot(row, z, n)) == polyvec::dot(row, polyvec::vec_ntt(z), n),
    decreases n,
{
    if n == 0 {
        ring::lemma_ntt_of_zero();
    } else {
        let m = (n - 1) as nat;
        lemma_ring_dot(row, z, m);
        assert(transform::is_elem(row[m as int]) && transform::is_elem(z[m as int]));
        transform::lemma_ntt_of_intt(row[m as int]);
        let p = ring::ring_mul(transform::intt_of(row[m as int]), z[m as int]);
        ring::lemma_ntt_of_product(transform::intt_of(row[m as int]), z[m as int]);
        ring::lemma_ntt_of_sum(ring_dot(row, z, m), p);
    }
}

/// The approximate commitment is the one of the ring: row `i` is
/// `sum_j A_ij z_j - t1_i 2^13 c`, computed with the ring's sum and product.
pub proof fn lemma_commitment_in_ring(
    a_hat: Seq<Seq<Seq<int>>>,
    c: Seq<int>,
    z: Seq<Seq<int>>,
    t1: Seq<Seq<int>>,
)
    requires
        transform::is_elem(c),
        polyvec::all_elems(z),
        polyvec::all_elems(t1),
        polyvec::is_matrix(a_hat, z.len()),
        a_hat.len() == t1.len(),
    ensures
        approx_commitment(a_hat, c, z, t1) == Seq::new(
            t1.len(),
            |i: int|
                ring::ring_sub(
                    ring_dot(a_hat[i], z, z.len()),
                    ring::ring_mul(transform::scaled(8192, t1[i]), c),
                ),
        ),
{
    let l = approx_commitment(a_hat, c, z, t1);
    let r = Seq::new(
        t1.len(),
        |i: int|
            ring::ring_sub(
                ring_dot(a_hat[i], z, z.len()),
                ring::ring_mul(transform::scaled(8192, t1[i]), c),
            ),
    );
    assert forall|i: int| 0 <= i < t1.len() implies l[i] == r[i] by {
        assert(a_hat[i].len() == z.len() && polyvec::all_elems(a_hat[i]));
        lemma_ring_dot(a_hat[i], z, z.len());
        let s = transform::scaled(8192, t1[i]);
        ring::lemma_ntt_of_product(s, c);
        ring::lemma_ntt_of_difference(
            ring_dot(a_hat[i], z, z.len()),
            ring::ring_mul(s, c),
        );
        transform::lemma_intt_of_ntt(r[i]);
    }
    assert(l =~= r);
}

} // verus!
