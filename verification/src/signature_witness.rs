//! The parts of a signature that statements are about, and the hash that ties them to
//! the message.
use crate::bytes;
use crate::hexcode;
use crate::hexcode::HexError;
use crate::mldsa::encoding;
use crate::mldsa::hints;
use crate::mldsa::params::{D, K, L, LAMBDA_BYTES, T1_BITS};
use crate::mldsa::poly::Poly;
use crate::mldsa::polyvec;
use crate::mldsa::polyvec::{NTTMatrix, PolyVec};
use crate::mldsa::transform;
use crate::mldsa::verify;
use crate::mldsa::xof;
use crate::mldsa_az_full_air;
use crate::rows;
use crate::shape;
use crate::shape::ShapeError;
use vstd::arithmetic::power2::*;
use vstd::prelude::*;
use vstd::string::*;

verus! {

/// The parts of a key and a signature that a statement about the signature's
/// verification starts from.
pub struct SignatureWitness {
    pub z: [[i64; 256]; 5],
    pub c: [i64; 256],
    pub t1: [[i64; 256]; 6],
    pub a_hat: Vec<[i64; 256]>,
    pub hints: [[bool; 256]; 6],
}

/// Whether `w` holds the parts of `pk` and `sig`: the response with residues for
/// coefficients, the challenge, `2^13` times the key's `t1`, the matrix row by row, and
/// the hint.
pub open spec fn is_witness_of(w: SignatureWitness, pk: Seq<u8>, sig: Seq<u8>) -> bool {
    &&& polyvec::polys(w.z@) == verify::reduced(encoding::sig_z(sig))
    &&& transform::ints(w.c@) == xof::ball_poly(verify::sig_seed(sig))
    &&& polyvec::polys(w.t1@) == verify::unrounded(
        encoding::chunk_polys(pk, 32, T1_BITS as nat, K as nat),
    )
    &&& w.a_hat@.len() == 30
    &&& mldsa_az_full_air::matrix_of(polyvec::polys(w.a_hat@)) == xof::matrix_of(
        verify::pk_seed(pk),
    )
    &&& rows::hint_rows(w.hints@) == hints::hint_matrix(encoding::sig_hint_bytes(sig))
}

/// Whether all numbers of a witness are residues.
pub open spec fn is_reduced(w: SignatureWitness) -> bool {
    &&& polyvec::all_elems(polyvec::polys(w.z@))
    &&& transform::is_elem(transform::ints(w.c@))
    &&& polyvec::all_elems(polyvec::polys(w.t1@))
    &&& polyvec::all_elems(polyvec::polys(w.a_hat@))
}

/// The polynomials of a matrix, row by row.
fn flatten_matrix(a: &NTTMatrix) -> (out: Vec<[i64; 256]>)
    requires
        a@.len() == 6,
        polyvec::is_matrix(a@, 5),
    ensures
        out@.len() == 30,
        mldsa_az_full_air::matrix_of(polyvec::polys(out@)) == a@,
        polyvec::all_elems(polyvec::polys(out@)),
{
    let mut out: Vec<[i64; 256]> = Vec::new();
    let mut i: usize = 0;
    while i < K
        invariant
            i <= 6,
            a@.len() == 6,
            polyvec::is_matrix(a@, 5),
            out@.len() == 5 * i,
            forall|r: int, j: int|
                0 <= r < i && 0 <= j < 5 ==> transform::ints(
                    (#[trigger] out@[5 * r + j])@,
                ) == a@[r][j],
        decreases 6 - i,
    {
        let ghost before = out@;
        let mut j: usize = 0;
        proof {
            assert(a@[i as int].len() == 5);
        }
        while j < L
            invariant
                i < 6,
                j <= 5,
                a@.len() == 6,
                a@[i as int].len() == 5,
                before.len() == 5 * i,
                out@.len() == 5 * i + j,
                forall|k: int| 0 <= k < 5 * i ==> out@[k] == before[k],
                forall|k: int|
                    0 <= k < j ==> transform::ints((#[trigger] out@[5 * i + k])@)
                        == a@[i as int][k],
            decreases 5 - j,
        {
            out.push(a.rows[i].0[j].coeffs);
            j = j + 1;
        }
        i = i + 1;
        proof {
            assert forall|r: int, k: int| 0 <= r < i && 0 <= k < 5 implies transform::ints(
                (#[trigger] out@[5 * r + k])@,
            ) == a@[r][k] by {
                if r < i - 1 {
                    assert(out@[5 * r + k] == before[5 * r + k]);
                }
            }
        }
    }
    proof {
        let m = mldsa_az_full_air::matrix_of(polyvec::polys(out@));
        assert forall|r: int| 0 <= r < 6 implies m[r] == #[trigger] a@[r] by {
            assert(a@[r].len() == 5);
            assert forall|j: int| 0 <= j < 5 implies m[r][j] == #[trigger] a@[r][j] by {
                assert(transform::ints(out@[5 * r + j]@) == a@[r][j]);
            }
            assert(m[r] =~= a@[r]);
        }
        assert(m =~= a@);
        assert forall|k: int| 0 <= k < 30 implies transform::is_elem(
            #[trigger] polyvec::polys(out@)[k],
        ) by {
            let r = k / 5;
            let j = k % 5;
            assert(transform::ints(out@[5 * r + j]@) == a@[r][j]);
            assert(polyvec::all_elems(a@[r]));
            assert(transform::is_elem(a@[r][j]));
        }
    }
    out
}

fn coeffs_of(v: &PolyVec) -> (out: Vec<[i64; 256]>)
    ensures
        polyvec::polys(out@) == v@,
{
    let mut out: Vec<[i64; 256]> = Vec::new();
    let mut i: usize = 0;
    while i < v.0.len()
        invariant
            i <= v.0.len(),
            out@.len() == i,
            forall|k: int| 0 <= k < i ==> transform::ints((#[trigger] out@[k])@) == v@[k],
        decreases v.0.len() - i,
    {
        out.push(v.0[i].coeffs);
        i = i + 1;
    }
    proof {
        assert(polyvec::polys(out@) =~= v@);
    }
    out
}

/// Takes a key and a valid signature apart; none where the signature is not valid.
pub fn extract_mldsa_witness(pk: &[u8], msg: &[u8], sig: &[u8]) -> (res: Option<SignatureWitness>)
    requires
        verify::well_formed_pair(pk@, sig@) ==> verify::samplers_terminate(pk@, sig@),
    ensures
        res is Some <==> verify::is_valid(pk@, msg@, sig@),
        res matches Some(w) ==> is_witness_of(w, pk@, sig@) && is_reduced(w),
{
    if !verify::ml_dsa_verify(pk, msg, sig) {
        return None;
    }
    proof {
        hints::lemma_hint_valid(encoding::sig_hint_bytes(sig@));
    }
    let (rho, t1): ([u8; 32], PolyVec) = match encoding::pk_decode(pk) {
        Ok(v) => v,
        Err(_) => {
            return None;
        },
    };
    let (c_tilde, z, h): (Vec<u8>, PolyVec, Vec<Vec<bool>>) = match encoding::sig_decode(sig) {
        Ok(v) => v,
        Err(_) => {
            return None;
        },
    };
    let a: NTTMatrix = xof::expand_a(&rho);
    let a_hat: Vec<[i64; 256]> = flatten_matrix(&a);
    let c: [i64; 256] = xof::sample_in_ball(c_tilde.as_slice()).coeffs;
    let z_reduced: PolyVec = verify::reduce_vec(&z);
    let z_rows: Vec<[i64; 256]> = coeffs_of(&z_reduced);
    let t1_scaled: PolyVec = t1.scale_power2(D);
    let t1_rows: Vec<[i64; 256]> = coeffs_of(&t1_scaled);
    proof {
        lemma2_to64();
        assert(polyvec::polys(z_rows@).len() == 5);
        assert(polyvec::polys(t1_rows@).len() == 6);
        assert(t1_scaled@ =~= verify::unrounded(t1@));
    }
    let z5: [[i64; 256]; 5] = rows::five_rows(z_rows.as_slice(), 0);
    let t6: [[i64; 256]; 6] = rows::six_rows(t1_rows.as_slice(), 0);
    proof {
        assert(polyvec::polys(z_rows@).subrange(0, 5) =~= polyvec::polys(z_rows@));
        assert(polyvec::polys(t1_rows@).subrange(0, 6) =~= polyvec::polys(t1_rows@));
        let m = hints::hint_matrix(encoding::sig_hint_bytes(sig@));
        assert(polyvec::hint_rows(h@) == m);
        assert(shape::views(h@) =~= m);
        lemma_hint_shape(m, 0);
    }
    match shape::conv_hints(&h) {
        Ok(hints) => {
            proof {
                assert(rows::hint_rows(hints@) =~= shape::array_views(hints@));
            }
            Some(SignatureWitness { z: z5, c, t1: t6, a_hat, hints })
        },
        Err(_) => None,
    }
}

proof fn lemma_hint_shape(m: Seq<Seq<bool>>, i: nat)
    requires
        i <= m.len(),
        forall|k: int| 0 <= k < m.len() ==> (#[trigger] m[k]).len() == 256,
    ensures
        shape::row_fault(m, i) is None,
    decreases m.len() - i,
{
    if i < m.len() {
        lemma_hint_shape(m, i + 1);
    }
}

/// `extract_mldsa_witness` where the samplers finish within their limit; the outer
/// option is none where they do not.
pub fn try_extract_mldsa_witness(pk: &[u8], msg: &[u8], sig: &[u8]) -> (res: Option<
    Option<SignatureWitness>,
>)
    ensures
        res is None <==> pk@.len() == crate::mldsa::params::PK_BYTES && sig@.len()
            == crate::mldsa::params::SIG_BYTES && !verify::samplers_within_limit(pk@, sig@),
        res matches Some(r) ==> {
            &&& r is Some <==> verify::is_valid(pk@, msg@, sig@)
            &&& r matches Some(w) ==> is_witness_of(w, pk@, sig@) && is_reduced(w)
        },
{
    if verify::samplers_fit(pk, sig) {
        Some(extract_mldsa_witness(pk, msg, sig))
    } else {
        None
    }
}

/// Why the hash of a claim cannot be checked.
#[derive(Clone, Copy, Debug, PartialEq, Eq)]
pub enum HashCheckError {
    /// The high parts have not the right shape.
    Shape(ShapeError),
    /// The challenge seed is not hexadecimal.
    Hex(HexError),
    /// The challenge seed has `got` bytes.
    SeedLength { got: usize },
}

/// Six lists of numbers as polynomials.
pub open spec fn int_rows(v: Seq<Seq<i64>>) -> Seq<Seq<int>> {
    Seq::new(v.len(), |i: int| transform::ints(v[i]))
}

fn vec_of(v: &[[i64; 256]; 6]) -> (out: PolyVec)
    ensures
        out@ == polyvec::polys(v@),
{
    let mut out: Vec<Poly> = Vec::new();
    let mut i: usize = 0;
    while i < 6
        invariant
            i <= 6,
            out@.len() == i,
            forall|k: int| 0 <= k < i ==> (#[trigger] out@[k])@ == polyvec::polys(v@)[k],
        decreases 6 - i,
    {
        out.push(Poly { coeffs: v[i] });
        i = i + 1;
    }
    let r = PolyVec(out);
    proof {
        assert(r@ =~= polyvec::polys(v@));
    }
    r
}

/// Whether the high parts `w1_prime`, the key and the message lead to the challenge seed
/// that is given in hexadecimal.
pub fn verify_mldsa_hash_check(
    pk: &[u8],
    msg: &[u8],
    w1_prime: &Vec<Vec<i64>>,
    c_tilde_hex: &str,
) -> (res: Result<bool, HashCheckError>)
    ensures
        ({
            let w = shape::views(w1_prime@);
            let text = c_tilde_hex.spec_bytes();
            match shape::rows_fault(w, 6) {
                Some(e) => res == Err::<bool, HashCheckError>(HashCheckError::Shape(e)),
                None => if !hexcode::is_hex(text) {
                    res matches Err(HashCheckError::Hex(e)) && hexcode::is_hex_fault(text, e)
                } else if hexcode::hex_value(text).len() != LAMBDA_BYTES {
                    res == Err::<bool, HashCheckError>(
                        HashCheckError::SeedLength { got: hexcode::hex_value(text).len() as usize },
                    )
                } else {
                    res == Ok::<bool, HashCheckError>(
                        verify::challenge_seed(pk@, msg@, int_rows(w)) == hexcode::hex_value(text),
                    )
                },
            }
        }),
{
    let w1: [[i64; 256]; 6] = match shape::conv_t1(w1_prime) {
        Ok(w) => w,
        Err(e) => {
            return Err(HashCheckError::Shape(e));
        },
    };
    let c_tilde: Vec<u8> = match hexcode::decode(c_tilde_hex) {
        Ok(b) => b,
        Err(e) => {
            return Err(HashCheckError::Hex(e));
        },
    };
    if c_tilde.len() != LAMBDA_BYTES {
        return Err(HashCheckError::SeedLength { got: c_tilde.len() });
    }
    let v: PolyVec = vec_of(&w1);
    proof {
        let w = shape::views(w1_prime@);
        assert forall|i: int| 0 <= i < 6 implies polyvec::polys(w1@)[i] == #[trigger] int_rows(
            w,
        )[i] by {
            assert(shape::array_views(w1@)[i] == w[i]);
        }
        assert(polyvec::polys(w1@) =~= int_rows(w));
    }
    let again: Vec<u8> = verify::recompute_seed(pk, msg, &v);
    Ok(bytes::equal(again.as_slice(), c_tilde.as_slice()))
}

/// A signature is valid exactly where it has the form of one with a short response and
/// the hash of the high parts that a statement about it proves is its challenge seed.
pub proof fn lemma_valid_by_statement(
    pk: Seq<u8>,
    msg: Seq<u8>,
    sig: Seq<u8>,
    w1: Seq<Seq<int>>,
)
    requires
        w1 == verify::claimed_w1(pk, sig),
    ensures
        verify::is_valid(pk, msg, sig) <==> verify::well_formed_pair(pk, sig)
            && verify::challenge_seed(pk, msg, w1) == verify::sig_seed(sig),
{
}

} // verus!
