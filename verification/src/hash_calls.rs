//! What the functions that hash give back, in terms of the bytes that they are given.
use crate::commitment;
use crate::commitment::CommitmentError;
use crate::digest;
use crate::hash_inputs;
use crate::hexcode;
use crate::mldsa::polyvec::{NTTMatrix, PolyVec};
use crate::mldsa::transform;
use crate::mldsa::values;
use crate::mldsa::verify;
use crate::mldsa::xof;
use crate::statement_chain;
use vstd::prelude::*;
use vstd::string::*;
use vstd::utf8::*;

verus! {

/// A recomputed challenge seed is read from the SHAKE-256 stream on 64 bytes and the high
/// parts; the 64 bytes from that on the 64-byte hash of the key, two zeros and every byte of
/// the message, however long it is.
pub proof fn lemma_recomputed_seed(
    pk: &[u8],
    msg: &[u8],
    w1: &PolyVec,
    seed: Vec<u8>,
    first: Seq<u8>,
    second: Seq<u8>,
)
    requires
        call_ensures(verify::recompute_seed, (pk, msg, w1), seed),
        first.len() == 66 + msg@.len(),
        forall|i: int| 0 <= i < 64 ==> #[trigger] first[i] == xof::shake256_byte(pk@, i),
        first[64] == 0,
        first[65] == 0,
        forall|i: int| 0 <= i < msg@.len() ==> first[66 + i] == #[trigger] msg@[i],
        second.len() == 64 + 128 * w1@.len(),
        forall|i: int| 0 <= i < 64 ==> #[trigger] second[i] == xof::shake256_byte(first, i),
        forall|r: int, k: int|
            0 <= r < w1@.len() && 0 <= k < 128 ==> #[trigger] second[64 + 128 * r + k] as int
                == w1@[r][2 * k] % 16 + 16 * (w1@[r][2 * k + 1] % 16),
    ensures
        seed@.len() == 48,
        forall|i: int| 0 <= i < 48 ==> #[trigger] seed@[i] == xof::shake256_byte(second, i),
{
    assert forall|r: int| 0 <= r < w1@.len() implies (#[trigger] w1@[r]).len() == 256 by {
        assert(w1@[r] == w1.0@[r]@);
    }
    values::lemma_challenge_input(pk@, msg@, w1@, first, second);
}

/// The hashes of a key, a message and a commitment are the start of the SHAKE-256 stream on
/// their inputs, one after the other and whole.
pub proof fn lemma_hashes(
    pk: &[u8],
    tr: [u8; 64],
    msg: &[u8],
    mu: [u8; 64],
    w1: &[u8],
    n: usize,
    c: Vec<u8>,
    first: Seq<u8>,
    second: Seq<u8>,
)
    requires
        call_ensures(xof::hash_pk, (pk,), tr),
        call_ensures(xof::hash_mu, (&tr, msg), mu),
        call_ensures(xof::hash_commit, (&mu, w1, n), c),
        first.len() == 64 + msg@.len(),
        forall|i: int| 0 <= i < 64 ==> #[trigger] first[i] == tr@[i],
        forall|i: int| 0 <= i < msg@.len() ==> first[64 + i] == #[trigger] msg@[i],
        second.len() == 64 + w1@.len(),
        forall|i: int| 0 <= i < 64 ==> #[trigger] second[i] == mu@[i],
        forall|i: int| 0 <= i < w1@.len() ==> second[64 + i] == #[trigger] w1@[i],
    ensures
        forall|i: int| 0 <= i < 64 ==> #[trigger] tr@[i] == xof::shake256_byte(pk@, i),
        forall|i: int| 0 <= i < 64 ==> #[trigger] mu@[i] == xof::shake256_byte(first, i),
        c@.len() == n,
        forall|i: int| 0 <= i < n ==> #[trigger] c@[i] == xof::shake256_byte(second, i),
{
    assert forall|i: int| 0 <= i < first.len() implies first[i] == (tr@ + msg@)[i] by {
        if i >= 64 {
            assert(first[64 + (i - 64)] == msg@[i - 64]);
        }
    }
    assert(first =~= tr@ + msg@);
    assert forall|i: int| 0 <= i < second.len() implies second[i] == (mu@ + w1@)[i] by {
        if i >= 64 {
            assert(second[64 + (i - 64)] == w1@[i - 64]);
        }
    }
    assert(second =~= mu@ + w1@);
}

/// The matrix that is expanded from a seed has in row `i` and column `j` the polynomial
/// sampled from the seed, then `j`, then `i`.
pub proof fn lemma_expanded_entry(
    rho: &[u8; 32],
    a: NTTMatrix,
    i: int,
    j: int,
    seed: Seq<u8>,
)
    requires
        call_ensures(xof::expand_a, (rho,), a) || call_ensures(
            xof::try_expand_a,
            (rho,),
            Some(a),
        ),
        0 <= i < 6,
        0 <= j < 5,
        seed.len() == 34,
        forall|k: int| 0 <= k < 32 ==> #[trigger] seed[k] == rho@[k],
        seed[32] as int == j,
        seed[33] as int == i,
    ensures
        a@.len() == 6,
        a@[i].len() == 5,
        a@[i][j] == xof::rej_poly(seed),
{
    hash_inputs::lemma_matrix_entries(rho@, i, j, seed);
}

/// The leaf of a signature is the number in the first eight bytes of the SHA3-256 digest of
/// the key and the whole message, whatever their lengths.
pub proof fn lemma_leaf(pk: &[u8], msg: &[u8], leaf: u64, input: Seq<u8>)
    requires
        call_ensures(statement_chain::leaf_of, (pk, msg), leaf),
        input.len() == pk@.len() + msg@.len(),
        forall|i: int| 0 <= i < pk@.len() ==> #[trigger] input[i] == pk@[i],
        forall|i: int| 0 <= i < msg@.len() ==> #[trigger] input[pk@.len() + i] == msg@[i],
    ensures
        ({
            let d = digest::sha3_256(input)@;
            leaf as int == d[0] + 0x100 * d[1] + 0x10000 * d[2] + 0x1000000 * d[3] + 0x100000000
                * d[4] + 0x10000000000 * d[5] + 0x1000000000000 * d[6] + 0x100000000000000 * d[7]
        }),
{
    hash_inputs::lemma_leaf_input(pk@, msg@, input);
}

/// A fingerprint is four words of the BLAKE2s digest, each reduced, of four bytes for every
/// coefficient, lowest first.
pub proof fn lemma_fingerprint_words(coeffs: &[i64], fp: [u32; 4], input: Seq<u8>, k: int)
    requires
        call_ensures(commitment::output_fingerprint, (coeffs,), fp),
        input.len() == 4 * coeffs@.len(),
        forall|i: int|
            0 <= i < coeffs@.len() ==> input[4 * i] + 0x100 * input[4 * i + 1] + 0x10000 * input[4
                * i + 2] + 0x1000000 * input[4 * i + 3] == #[trigger] coeffs@[i] as int
                % 0x100000000,
        0 <= k < 4,
    ensures
        ({
            let d = digest::blake2s256(input)@;
            fp@[k] as int == (d[4 * k] + 0x100 * d[4 * k + 1] + 0x10000 * d[4 * k + 2] + 0x1000000
                * d[4 * k + 3]) % 0x7fffffff
        }),
{
    let c = transform::ints(coeffs@);
    assert forall|i: int| 0 <= i < c.len() implies input[4 * i] + 0x100 * input[4 * i + 1]
        + 0x10000 * input[4 * i + 2] + 0x1000000 * input[4 * i + 3] == #[trigger] c[i]
        % 0x100000000 by {
        assert(c[i] == coeffs@[i] as int);
    }
    hash_inputs::lemma_fingerprint_input(c, input);
    assert(fp@[k] == commitment::fingerprint(c)[k]);
}

/// The commitment to a value for a proof is the hex of the value's four bytes and of twelve
/// bytes of the digest of those four and the proof's bytes up to the thirty-second.
pub proof fn lemma_committed_value(v: u32, p: &[u8], text: String, input: Seq<u8>)
    requires
        call_ensures(commitment::build_commitment_128, (v, p), text),
        input.len() == 4 + (if p@.len() < 32 {
            p@.len()
        } else {
            32
        }),
        input[0] + 0x100 * input[1] + 0x10000 * input[2] + 0x1000000 * input[3] == v,
        forall|i: int| 0 <= i < p@.len() && i < 32 ==> #[trigger] input[4 + i] == p@[i],
    ensures
        text@ == hexcode::hex_chars(
            input.subrange(0, 4) + digest::blake2s256(input)@.subrange(0, 12),
        ),
{
    hash_inputs::lemma_tie_input(v, p@, input);
    assert(commitment::value_commitment(v, p@) =~= input.subrange(0, 4) + digest::blake2s256(
        input,
    )@.subrange(0, 12));
}

/// A commitment made for one proof reads as the value for that proof. For another proof that
/// begins differently it is refused, unless the digests of the two inputs, each the value's
/// four bytes and thirty-two of the proof, agree in twelve bytes.
pub proof fn lemma_commitment_of_proof(
    v: u32,
    p: &[u8],
    q: &[u8],
    made: String,
    text: &str,
    own: Result<u32, CommitmentError>,
    other: Result<u32, CommitmentError>,
    x: Seq<u8>,
    y: Seq<u8>,
)
    requires
        v < 0x7fffffff,
        p@.len() >= 32,
        q@.len() >= 32,
        x.len() == 36,
        y.len() == 36,
        x[0] + 0x100 * x[1] + 0x10000 * x[2] + 0x1000000 * x[3] == v,
        y[0] + 0x100 * y[1] + 0x10000 * y[2] + 0x1000000 * y[3] == v,
        forall|i: int| 0 <= i < 32 ==> #[trigger] x[4 + i] == p@[i],
        forall|i: int| 0 <= i < 32 ==> #[trigger] y[4 + i] == q@[i],
        call_ensures(commitment::build_commitment_128, (v, p), made),
        text@ == made@,
        call_ensures(commitment::parse_commitment_128, (text, p), own),
        call_ensures(commitment::parse_commitment_128, (text, q), other),
    ensures
        own == Ok::<u32, CommitmentError>(v),
        (exists|i: int| 0 <= i < 32 && #[trigger] p@[i] != q@[i]) ==> x != y,
        other is Ok <==> digest::blake2s256(x)@.subrange(0, 12) == digest::blake2s256(
            y,
        )@.subrange(0, 12),
        other is Err ==> other == Err::<u32, CommitmentError>(CommitmentError::Suffix),
{
    let b = commitment::value_commitment(v, p@);
    hexcode::lemma_hex_roundtrip(b);
    hash_inputs::lemma_tie_input(v, p@, x);
    hash_inputs::lemma_tied_value(text.spec_bytes(), v, p@, x);
    let dx = digest::blake2s256(x)@.subrange(0, 12);
    let dy = digest::blake2s256(y)@.subrange(0, 12);
    assert(b =~= x.subrange(0, 4) + dx);
    hash_inputs::lemma_tie_input(v, q@, y);
    hash_inputs::lemma_tied_value(text.spec_bytes(), v, q@, y);
    assert(x.subrange(0, 4) =~= y.subrange(0, 4)) by {
        hash_inputs::lemma_word_bytes(x, 0, y, 0);
    }
    if dx == dy {
        assert(b =~= y.subrange(0, 4) + dy);
    }
    assert(b.subrange(0, 4) =~= y.subrange(0, 4));
    assert(b.subrange(4, 16) =~= dx);
    assert(commitment::le_word(b, 0) == v);
    if exists|i: int| 0 <= i < 32 && #[trigger] p@[i] != q@[i] {
        let i = choose|i: int| 0 <= i < 32 && #[trigger] p@[i] != q@[i];
        assert(x[4 + i] == p@[i] && y[4 + i] == q@[i]);
    }
}

/// The tie of a bundle to a challenge seed is the hex of sixteen bytes of the digest of what
/// the two begin with, each up to its thirty-second byte.
pub proof fn lemma_bundle_text(bundle: &[u8], c_tilde: &[u8], text: String, input: Seq<u8>)
    requires
        call_ensures(commitment::onchain_commitment, (bundle, c_tilde), text),
        ({
            let n: int = if bundle@.len() < 32 {
                bundle@.len() as int
            } else {
                32
            };
            let m: int = if c_tilde@.len() < 32 {
                c_tilde@.len() as int
            } else {
                32
            };
            &&& input.len() == n + m
            &&& forall|i: int| 0 <= i < n ==> #[trigger] input[i] == bundle@[i]
            &&& forall|i: int| 0 <= i < m ==> input[n + i] == #[trigger] c_tilde@[i]
        }),
    ensures
        text@ == hexcode::hex_chars(digest::blake2s256(input)@.subrange(0, 16)),
{
    hash_inputs::lemma_bundle_input(bundle@, c_tilde@, input);
    assert(commitment::bundle_tie(bundle@, c_tilde@) =~= digest::blake2s256(input)@.subrange(
        0,
        16,
    ));
}

/// The words of a seed spell its bytes, lowest first, and then zeros up to a whole word.
pub proof fn lemma_seed_words(seed: &[u8], words: Vec<u32>, all: Seq<u8>, k: int)
    requires
        call_ensures(commitment::seed_to_u32_words, (seed,), words),
        all.len() % 4 == 0,
        seed@.len() <= all.len() < seed@.len() + 4,
        forall|i: int| 0 <= i < seed@.len() ==> #[trigger] all[i] == seed@[i],
        forall|i: int| seed@.len() <= i < all.len() ==> #[trigger] all[i] == 0,
    ensures
        4 * words@.len() == all.len(),
        0 <= 4 * k < all.len() ==> words@[k] as int == all[4 * k] + 0x100 * all[4 * k + 1]
            + 0x10000 * all[4 * k + 2] + 0x1000000 * all[4 * k + 3],
{
    hash_inputs::lemma_seed_word_bytes(seed@, all);
}

} // verus!
