//! What goes into each hash, byte by byte, and what is read from it.
use crate::commitment;
use crate::commitment::CommitmentError;
use crate::digest;
use crate::hexcode;
use crate::mldsa::verify;
use crate::mldsa::xof;
use crate::statement_chain;
use vstd::prelude::*;

verus! {

/// Four bytes are known from the word that they spell.
pub proof fn lemma_word_bytes(a: Seq<u8>, i: int, b: Seq<u8>, j: int)
    requires
        a[i] + 0x100 * a[i + 1] + 0x10000 * a[i + 2] + 0x1000000 * a[i + 3] == b[j] + 0x100 * b[j
            + 1] + 0x10000 * b[j + 2] + 0x1000000 * b[j + 3],
    ensures
        a[i] == b[j],
        a[i + 1] == b[j + 1],
        a[i + 2] == b[j + 2],
        a[i + 3] == b[j + 3],
{
}

proof fn lemma_le_bytes(w: u32)
    ensures
        ({
            let b = commitment::le_bytes(w);
            b.len() == 4 && b[0] + 0x100 * b[1] + 0x10000 * b[2] + 0x1000000 * b[3] == w
        }),
{
}

/// The representative of a message is hashed from the 64-byte hash of the key, two zeros,
/// and every byte of the message.
pub proof fn lemma_message_input(pk: Seq<u8>, msg: Seq<u8>, input: Seq<u8>)
    requires
        input.len() == 66 + msg.len(),
        forall|i: int| 0 <= i < 64 ==> #[trigger] input[i] == xof::shake256_byte(pk, i),
        input[64] == 0,
        input[65] == 0,
        forall|i: int| 0 <= i < msg.len() ==> #[trigger] input[66 + i] == msg[i],
    ensures
        verify::message_representative(pk, msg).len() == 64,
        forall|i: int|
            0 <= i < 64 ==> #[trigger] verify::message_representative(pk, msg)[i]
                == xof::shake256_byte(input, i),
{
    let whole = xof::key_hash(pk) + (seq![0u8, 0u8] + msg);
    assert forall|i: int| 0 <= i < input.len() implies input[i] == whole[i] by {
        if i >= 66 {
            assert(input[66 + (i - 66)] == msg[i - 66]);
        }
    }
    assert(input =~= whole);
}

/// Different messages under one key are hashed from different inputs.
pub proof fn lemma_message_inputs_apart(pk: Seq<u8>, a: Seq<u8>, b: Seq<u8>)
    requires
        a != b,
    ensures
        exists|x: Seq<u8>, y: Seq<u8>|
            x != y && #[trigger] x.len() == 66 + a.len() && #[trigger] y.len() == 66 + b.len()
                && x.subrange(66, x.len() as int) == a && y.subrange(66, y.len() as int) == b
                && verify::message_representative(pk, a) == Seq::new(
                64,
                |i: int| xof::shake256_byte(x, i),
            ) && verify::message_representative(pk, b) == Seq::new(
                64,
                |i: int| xof::shake256_byte(y, i),
            ),
{
    let x = Seq::new(64, |i: int| xof::shake256_byte(pk, i)) + seq![0u8, 0u8] + a;
    let y = Seq::new(64, |i: int| xof::shake256_byte(pk, i)) + seq![0u8, 0u8] + b;
    lemma_message_input(pk, a, x);
    lemma_message_input(pk, b, y);
    assert(x.subrange(66, x.len() as int) =~= a);
    assert(y.subrange(66, y.len() as int) =~= b);
    assert(verify::message_representative(pk, a) =~= Seq::new(
        64,
        |i: int| xof::shake256_byte(x, i),
    ));
    assert(verify::message_representative(pk, b) =~= Seq::new(
        64,
        |i: int| xof::shake256_byte(y, i),
    ));
    assert(x.len() == 66 + a.len() && y.len() == 66 + b.len());
}

/// The leaf of a signature is the number in the first eight bytes, lowest first, of the
/// digest of the key followed by the whole message.
pub proof fn lemma_leaf_input(pk: Seq<u8>, msg: Seq<u8>, input: Seq<u8>)
    requires
        input.len() == pk.len() + msg.len(),
        forall|i: int| 0 <= i < pk.len() ==> #[trigger] input[i] == pk[i],
        forall|i: int| 0 <= i < msg.len() ==> #[trigger] input[pk.len() + i] == msg[i],
    ensures
        ({
            let d = digest::sha3_256(input)@;
            statement_chain::signature_leaf(pk, msg) as int == d[0] + 0x100 * d[1] + 0x10000 * d[2]
                + 0x1000000 * d[3] + 0x100000000 * d[4] + 0x10000000000 * d[5] + 0x1000000000000
                * d[6] + 0x100000000000000 * d[7]
        }),
{
    let whole = pk + msg;
    assert forall|i: int| 0 <= i < input.len() implies input[i] == whole[i] by {
        if i >= pk.len() {
            assert(input[pk.len() + (i - pk.len())] == msg[i - pk.len()]);
        }
    }
    assert(input =~= whole);
}

/// The bytes behind a fingerprint are four for each coefficient, lowest first, which spell
/// its residue modulo `2^32`; the words are those of the digest, each reduced.
pub proof fn lemma_fingerprint_input(c: Seq<int>, input: Seq<u8>)
    requires
        input.len() == 4 * c.len(),
        forall|i: int|
            0 <= i < c.len() ==> input[4 * i] + 0x100 * input[4 * i + 1] + 0x10000 * input[4 * i
                + 2] + 0x1000000 * input[4 * i + 3] == #[trigger] c[i] % 0x100000000,
    ensures
        commitment::fingerprint(c).len() == 4,
        ({
            let d = digest::blake2s256(input)@;
            forall|k: int|
                0 <= k < 4 ==> #[trigger] commitment::fingerprint(c)[k] as int == (d[4 * k] + 0x100
                    * d[4 * k + 1] + 0x10000 * d[4 * k + 2] + 0x1000000 * d[4 * k + 3])
                    % 0x7fffffff
        }),
{
    let x = commitment::coeff_bytes(c, c.len());
    lemma_coeff_words(c, c.len());
    assert forall|k: int| 0 <= k < input.len() implies x[k] == input[k] by {
        let i = k / 4;
        let w = c[i] % 0x100000000;
        assert(x[4 * i] + 0x100 * x[4 * i + 1] + 0x10000 * x[4 * i + 2] + 0x1000000 * x[4 * i + 3]
            == w);
        assert(input[4 * i] + 0x100 * input[4 * i + 1] + 0x10000 * input[4 * i + 2] + 0x1000000
            * input[4 * i + 3] == w);
        lemma_word_bytes(x, 4 * i, input, 4 * i);
        assert(k == 4 * i || k == 4 * i + 1 || k == 4 * i + 2 || k == 4 * i + 3);
    }
    assert(x =~= input);
}

/// Lists of numbers below `2^32` whose fingerprints are taken over the same bytes are the
/// same.
pub proof fn lemma_fingerprint_inputs_apart(a: Seq<int>, b: Seq<int>)
    requires
        forall|i: int| 0 <= i < a.len() ==> 0 <= #[trigger] a[i] < 0x100000000,
        forall|i: int| 0 <= i < b.len() ==> 0 <= #[trigger] b[i] < 0x100000000,
        commitment::coeff_bytes(a, a.len()) == commitment::coeff_bytes(b, b.len()),
    ensures
        a == b,
{
    lemma_coeff_words(a, a.len());
    lemma_coeff_words(b, b.len());
    let x = commitment::coeff_bytes(a, a.len());
    assert(a.len() == b.len());
    assert forall|i: int| 0 <= i < a.len() implies a[i] == b[i] by {
        assert(x[4 * i] + 0x100 * x[4 * i + 1] + 0x10000 * x[4 * i + 2] + 0x1000000 * x[4 * i + 3]
            == a[i]);
        assert(x[4 * i] + 0x100 * x[4 * i + 1] + 0x10000 * x[4 * i + 2] + 0x1000000 * x[4 * i + 3]
            == b[i]);
    }
    assert(a =~= b);
}

/// The bytes behind a fingerprint, read back four at a time, are the coefficients modulo
/// `2^32`.
pub proof fn lemma_coeff_words(c: Seq<int>, n: nat)
    requires
        n <= c.len(),
    ensures
        commitment::coeff_bytes(c, n).len() == 4 * n,
        forall|i: int|
            0 <= i < n ==> ({
                let x = commitment::coeff_bytes(c, n);
                x[4 * i] + 0x100 * x[4 * i + 1] + 0x10000 * x[4 * i + 2] + 0x1000000 * x[4 * i + 3]
                    == #[trigger] c[i] % 0x100000000
            }),
    decreases n,
{
    if n > 0 {
        let m = (n - 1) as nat;
        lemma_coeff_words(c, m);
        let w = (c[m as int] % 0x100000000) as u32;
        let old = commitment::coeff_bytes(c, m);
        let x = commitment::coeff_bytes(c, n);
        assert(x == old + commitment::le_bytes(w));
        assert(w as int == w as int % 256 + 256 * ((w as int / 256) % 256) + 65536 * ((w as int
            / 65536) % 256) + 16777216 * (w as int / 16777216));
        assert forall|i: int| 0 <= i < n implies x[4 * i] + 0x100 * x[4 * i + 1] + 0x10000 * x[4 * i
            + 2] + 0x1000000 * x[4 * i + 3] == #[trigger] c[i] % 0x100000000 by {
            if i < m {
                assert(x[4 * i] == old[4 * i] && x[4 * i + 1] == old[4 * i + 1]);
                assert(x[4 * i + 2] == old[4 * i + 2] && x[4 * i + 3] == old[4 * i + 3]);
            }
        }
    }
}

/// A value commitment is the value's four bytes and twelve bytes of a digest, which is taken
/// over those four bytes and the proof's bytes up to the thirty-second.
pub proof fn lemma_tie_input(v: u32, proof_bytes: Seq<u8>, input: Seq<u8>)
    requires
        input.len() == 4 + (if proof_bytes.len() < 32 {
            proof_bytes.len()
        } else {
            32
        }),
        input[0] + 0x100 * input[1] + 0x10000 * input[2] + 0x1000000 * input[3] == v,
        forall|i: int|
            0 <= i < proof_bytes.len() && i < 32 ==> #[trigger] input[4 + i] == proof_bytes[i],
    ensures
        commitment::value_commitment(v, proof_bytes).len() == 16,
        commitment::binding_digest(input.subrange(0, 4), proof_bytes) == digest::blake2s256(
            input,
        )@,
        forall|i: int|
            0 <= i < 4 ==> #[trigger] commitment::value_commitment(v, proof_bytes)[i] == input[i],
        forall|i: int|
            4 <= i < 16 ==> #[trigger] commitment::value_commitment(v, proof_bytes)[i]
                == digest::blake2s256(input)@[i - 4],
{
    let start = commitment::le_bytes(v);
    lemma_le_bytes(v);
    lemma_word_bytes(start, 0, input, 0);
    assert(input.subrange(0, 4) =~= start);
    let whole = start + commitment::proof_start(proof_bytes);
    assert forall|i: int| 0 <= i < input.len() implies input[i] == whole[i] by {
        if i >= 4 {
            assert(input[4 + (i - 4)] == proof_bytes[i - 4]);
        }
    }
    assert(input =~= whole);
}

/// A commitment to a value that was made for a proof is refused for another one that begins
/// differently, unless the digests of the two inputs agree in their first twelve bytes.
pub proof fn lemma_tie_of_other_proof(v: u32, p: Seq<u8>, q: Seq<u8>, text: Seq<u8>)
    requires
        p.len() >= 32,
        q.len() >= 32,
        exists|i: int| 0 <= i < 32 && p[i] != q[i],
        hexcode::is_hex(text),
        hexcode::hex_value(text) == commitment::value_commitment(v, p),
    ensures
        exists|x: Seq<u8>, y: Seq<u8>|
            {
                &&& x != y
                &&& #[trigger] x.len() == 36
                &&& #[trigger] y.len() == 36
                &&& x[0] + 0x100 * x[1] + 0x10000 * x[2] + 0x1000000 * x[3] == v
                &&& y[0] + 0x100 * y[1] + 0x10000 * y[2] + 0x1000000 * y[3] == v
                &&& x.subrange(4, 36) == p.subrange(0, 32)
                &&& y.subrange(4, 36) == q.subrange(0, 32)
                &&& commitment::value_in(text, q) is None || digest::blake2s256(x)@.subrange(0, 12)
                    == digest::blake2s256(y)@.subrange(0, 12)
            },
{
    let start = commitment::le_bytes(v);
    lemma_le_bytes(v);
    let x = start + p.subrange(0, 32);
    let y = start + q.subrange(0, 32);
    lemma_tie_input(v, p, x);
    lemma_tie_input(v, q, y);
    let i = choose|i: int| 0 <= i < 32 && p[i] != q[i];
    assert(x[4 + i] == p[i] && y[4 + i] == q[i]);
    assert(x.subrange(4, 36) =~= p.subrange(0, 32));
    assert(y.subrange(4, 36) =~= q.subrange(0, 32));
    assert(x.subrange(0, 4) =~= start);
    assert(y.subrange(0, 4) =~= start);
    let b = hexcode::hex_value(text);
    assert(b.subrange(0, 4) =~= start);
    assert(b.subrange(4, 16) =~= digest::blake2s256(x)@.subrange(0, 12));
    assert(x.len() == 36 && y.len() == 36);
}

/// A text read as a value for a proof is the hex of sixteen bytes: the value's four, then
/// twelve of the digest of those four and the proof's first bytes; and every such text of a
/// value below `2^31 - 1` is read as that value.
pub proof fn lemma_tied_value(text: Seq<u8>, v: u32, proof_bytes: Seq<u8>, input: Seq<u8>)
    requires
        hexcode::is_hex(text),
        input.len() == 4 + (if proof_bytes.len() < 32 {
            proof_bytes.len()
        } else {
            32
        }),
        input[0] + 0x100 * input[1] + 0x10000 * input[2] + 0x1000000 * input[3] == v,
        forall|i: int|
            0 <= i < proof_bytes.len() && i < 32 ==> #[trigger] input[4 + i] == proof_bytes[i],
    ensures
        commitment::value_in(text, proof_bytes) == Some(v) <==> v < 0x7fffffff
            && hexcode::hex_value(text) == input.subrange(0, 4) + digest::blake2s256(
            input,
        )@.subrange(0, 12),
{
    lemma_tie_input(v, proof_bytes, input);
    let b = hexcode::hex_value(text);
    let d = digest::blake2s256(input)@.subrange(0, 12);
    if commitment::value_in(text, proof_bytes) == Some(v) {
        assert(b.len() == 16);
        assert(commitment::le_word(b, 0) == v);
        lemma_word_bytes(b, 0, input, 0);
        assert(b.subrange(0, 4) =~= input.subrange(0, 4));
        assert(b =~= b.subrange(0, 4) + b.subrange(4, 16));
    }
    if b == input.subrange(0, 4) + d {
        assert(b.subrange(0, 4) =~= input.subrange(0, 4));
        assert(b.subrange(4, 16) =~= d);
    }
}

/// The tie of a bundle to a challenge seed is the first half of the digest of what the two
/// begin with, each up to its thirty-second byte.
pub proof fn lemma_bundle_input(bundle: Seq<u8>, c_tilde: Seq<u8>, input: Seq<u8>)
    requires
        ({
            let n: int = if bundle.len() < 32 {
                bundle.len() as int
            } else {
                32
            };
            let m: int = if c_tilde.len() < 32 {
                c_tilde.len() as int
            } else {
                32
            };
            &&& input.len() == n + m
            &&& forall|i: int| 0 <= i < n ==> #[trigger] input[i] == bundle[i]
            &&& forall|i: int| 0 <= i < m ==> input[n + i] == #[trigger] c_tilde[i]
        }),
    ensures
        commitment::bundle_tie(bundle, c_tilde).len() == 16,
        forall|i: int|
            0 <= i < 16 ==> #[trigger] commitment::bundle_tie(bundle, c_tilde)[i]
                == digest::blake2s256(input)@[i],
{
    let n: int = if bundle.len() < 32 {
        bundle.len() as int
    } else {
        32
    };
    let whole = commitment::proof_start(bundle) + commitment::proof_start(c_tilde);
    assert forall|i: int| 0 <= i < input.len() implies input[i] == whole[i] by {
        if i >= n {
            assert(input[n + (i - n)] == c_tilde[i - n]);
        }
    }
    assert(input =~= whole);
}

/// The words of a seed spell its bytes, lowest first, and then zeros up to a whole word.
pub proof fn lemma_seed_word_bytes(seed: Seq<u8>, all: Seq<u8>)
    requires
        all.len() % 4 == 0,
        seed.len() <= all.len() < seed.len() + 4,
        forall|i: int| 0 <= i < seed.len() ==> #[trigger] all[i] == seed[i],
        forall|i: int| seed.len() <= i < all.len() ==> #[trigger] all[i] == 0,
    ensures
        4 * commitment::seed_words(seed).len() == all.len(),
        forall|k: int|
            0 <= 4 * k < all.len() ==> #[trigger] commitment::seed_words(seed)[k] as int == all[4
                * k] + 0x100 * all[4 * k + 1] + 0x10000 * all[4 * k + 2] + 0x1000000 * all[4 * k
                + 3],
{
    assert forall|k: int| 0 <= 4 * k < all.len() implies #[trigger] commitment::seed_words(
        seed,
    )[k] as int == all[4 * k] + 0x100 * all[4 * k + 1] + 0x10000 * all[4 * k + 2] + 0x1000000
        * all[4 * k + 3] by {
        assert(commitment::padded(seed, 4 * k) == all[4 * k]);
        assert(commitment::padded(seed, 4 * k + 1) == all[4 * k + 1]);
        assert(commitment::padded(seed, 4 * k + 2) == all[4 * k + 2]);
        assert(commitment::padded(seed, 4 * k + 3) == all[4 * k + 3]);
    }
}

/// The commitment to a fingerprint spells four bytes of each word, lowest first.
pub proof fn lemma_fingerprint_text(fp: Seq<u32>, b: Seq<u8>)
    requires
        fp.len() == 4,
        b.len() == 16,
        forall|i: int|
            0 <= i < 4 ==> b[4 * i] + 0x100 * b[4 * i + 1] + 0x10000 * b[4 * i + 2] + 0x1000000
                * b[4 * i + 3] == #[trigger] fp[i],
    ensures
        commitment::poly_commitment(fp) == hexcode::hex_chars(b),
{
    let f = fp;
    reveal_with_fuel(commitment::words_bytes, 5);
    let x = commitment::words_bytes(f, 4);
    assert forall|i: int| 0 <= i < 4 implies #[trigger] commitment::le_bytes(f[i]) =~= b.subrange(
        4 * i,
        4 * i + 4,
    ) by {
        lemma_le_bytes(f[i]);
        lemma_word_bytes(commitment::le_bytes(f[i]), 0, b, 4 * i);
    }
    assert(commitment::le_bytes(f[0]) == b.subrange(0, 4));
    assert(commitment::le_bytes(f[1]) == b.subrange(4, 8));
    assert(commitment::le_bytes(f[2]) == b.subrange(8, 12));
    assert(commitment::le_bytes(f[3]) == b.subrange(12, 16));
    assert(x =~= b);
}

/// The seed of the entry in row `i` and column `j` is the key's seed, then `j`, then `i`.
pub proof fn lemma_entry_seed(rho: Seq<u8>, i: int, j: int)
    requires
        rho.len() == 32,
        0 <= i < 6,
        0 <= j < 5,
    ensures
        xof::entry_seed(rho, i, j).len() == 34,
        forall|k: int| 0 <= k < 32 ==> #[trigger] xof::entry_seed(rho, i, j)[k] == rho[k],
        xof::entry_seed(rho, i, j)[32] as int == j,
        xof::entry_seed(rho, i, j)[33] as int == i,
{
}

/// No two entries of the matrix are sampled from the same seed.
pub proof fn lemma_entry_seeds_apart(rho: Seq<u8>, i: int, j: int, k: int, l: int)
    requires
        rho.len() == 32,
        0 <= i < 6,
        0 <= j < 5,
        0 <= k < 6,
        0 <= l < 5,
        (i, j) != (k, l),
    ensures
        xof::entry_seed(rho, i, j) != xof::entry_seed(rho, k, l),
{
    lemma_entry_seed(rho, i, j);
    lemma_entry_seed(rho, k, l);
}

/// The matrix has six rows of five entries, each sampled from the seed that ends in its
/// column and its row.
pub proof fn lemma_matrix_entries(rho: Seq<u8>, i: int, j: int, seed: Seq<u8>)
    requires
        rho.len() == 32,
        0 <= i < 6,
        0 <= j < 5,
        seed.len() == 34,
        forall|k: int| 0 <= k < 32 ==> #[trigger] seed[k] == rho[k],
        seed[32] as int == j,
        seed[33] as int == i,
    ensures
        xof::matrix_of(rho).len() == 6,
        xof::matrix_of(rho)[i].len() == 5,
        xof::matrix_of(rho)[i][j] == xof::rej_poly(seed),
{
    lemma_entry_seed(rho, i, j);
    assert(seed =~= xof::entry_seed(rho, i, j));
}

/// A text is refused as a commitment to a value for a proof with its first fault: that it is
/// no hex, that it has not sixteen bytes, that its first word is no field element, or that
/// the other twelve bytes are not those of the digest of the first four and the proof's first
/// thirty-two.
pub proof fn lemma_value_fault(
    text: Seq<u8>,
    proof_bytes: Seq<u8>,
    e: CommitmentError,
    input: Seq<u8>,
)
    requires
        commitment::is_value_fault(text, proof_bytes, e),
        hexcode::hex_value(text).len() == 16 ==> {
            &&& input.len() == 4 + (if proof_bytes.len() < 32 {
                proof_bytes.len()
            } else {
                32
            })
            &&& forall|i: int| 0 <= i < 4 ==> #[trigger] input[i] == hexcode::hex_value(text)[i]
            &&& forall|i: int|
                0 <= i < proof_bytes.len() && i < 32 ==> #[trigger] input[4 + i] == proof_bytes[i]
        },
    ensures
        ({
            let b = hexcode::hex_value(text);
            let v = b[0] + 0x100 * b[1] + 0x10000 * b[2] + 0x1000000 * b[3];
            &&& !hexcode::is_hex(text) <==> e is Hex
            &&& hexcode::is_hex(text) && b.len() != 16 ==> e == (CommitmentError::Length {
                got: b.len() as usize,
            })
            &&& hexcode::is_hex(text) && b.len() == 16 && v >= 0x7fffffff ==> e
                == CommitmentError::ValueRange
            &&& hexcode::is_hex(text) && b.len() == 16 && v < 0x7fffffff ==> e
                == CommitmentError::Suffix && b.subrange(4, 16) != digest::blake2s256(
                input,
            )@.subrange(0, 12)
        }),
{
    let b = hexcode::hex_value(text);
    if hexcode::is_hex(text) && b.len() == 16 {
        let start = b.subrange(0, 4);
        let whole = start + commitment::proof_start(proof_bytes);
        assert forall|i: int| 0 <= i < input.len() implies input[i] == whole[i] by {
            if i >= 4 {
                assert(input[4 + (i - 4)] == proof_bytes[i - 4]);
            }
        }
        assert(input =~= whole);
    }
}

/// A text is read as a fingerprint if and only if it is the hex of sixteen bytes that spell
/// four field elements, each of four bytes, lowest first.
pub proof fn lemma_fingerprint_read(text: Seq<u8>, fp: Seq<u32>)
    requires
        hexcode::is_hex(text),
        fp.len() == 4,
    ensures
        commitment::fingerprint_in(text) == Some(fp) <==> {
            let b = hexcode::hex_value(text);
            &&& b.len() == 16
            &&& forall|i: int|
                0 <= i < 4 ==> #[trigger] fp[i] < 0x7fffffff && fp[i] as int == b[4 * i] + 0x100
                    * b[4 * i + 1] + 0x10000 * b[4 * i + 2] + 0x1000000 * b[4 * i + 3]
        },
{
    let b = hexcode::hex_value(text);
    if b.len() == 16 {
        let w = commitment::byte_words(b);
        reveal_with_fuel(commitment::word_fault, 5);
        assert(commitment::word_fault(w, 0) is None <==> w[0] < 0x7fffffff && w[1] < 0x7fffffff
            && w[2] < 0x7fffffff && w[3] < 0x7fffffff);
        if commitment::fingerprint_in(text) == Some(fp) {
            assert(fp == w);
        }
        if forall|i: int|
            0 <= i < 4 ==> #[trigger] fp[i] < 0x7fffffff && fp[i] as int == b[4 * i] + 0x100 * b[4
                * i + 1] + 0x10000 * b[4 * i + 2] + 0x1000000 * b[4 * i + 3] {
            assert(w =~= fp);
            assert(fp[0] < 0x7fffffff && fp[1] < 0x7fffffff);
            assert(fp[2] < 0x7fffffff && fp[3] < 0x7fffffff);
        }
    }
}

/// A text is refused as a fingerprint with its first fault: that it is no hex, that it has
/// not sixteen bytes, or the first of its four words that is no field element.
pub proof fn lemma_fingerprint_fault(text: Seq<u8>, e: CommitmentError, k: int, word: u32)
    requires
        commitment::is_fingerprint_fault(text, e),
    ensures
        ({
            let b = hexcode::hex_value(text);
            &&& !hexcode::is_hex(text) <==> e is Hex
            &&& hexcode::is_hex(text) && b.len() != 16 ==> e == (CommitmentError::Length {
                got: b.len() as usize,
            })
            &&& hexcode::is_hex(text) && b.len() == 16 && 0 <= k < 4 && word as int == b[4 * k]
                + 0x100 * b[4 * k + 1] + 0x10000 * b[4 * k + 2] + 0x1000000 * b[4 * k + 3] && word
                >= 0x7fffffff && (forall|i: int|
                0 <= i < k ==> b[4 * i] + 0x100 * b[4 * i + 1] + 0x10000 * b[4 * i + 2] + 0x1000000
                    * #[trigger] b[4 * i + 3] < 0x7fffffff) ==> e == (CommitmentError::WordRange {
                index: k as usize,
                word,
            })
        }),
{
    let b = hexcode::hex_value(text);
    lemma_word_fault_only(commitment::byte_words(b), 0);
    if hexcode::is_hex(text) && b.len() == 16 && 0 <= k < 4 && word as int == b[4 * k] + 0x100
        * b[4 * k + 1] + 0x10000 * b[4 * k + 2] + 0x1000000 * b[4 * k + 3] && word >= 0x7fffffff
        && (forall|i: int|
        0 <= i < k ==> b[4 * i] + 0x100 * b[4 * i + 1] + 0x10000 * b[4 * i + 2] + 0x1000000
            * #[trigger] b[4 * i + 3] < 0x7fffffff) {
        let w = commitment::byte_words(b);
        assert forall|i: int| 0 <= i < k implies #[trigger] w[i] < 0x7fffffff by {
            assert(b[4 * i] + 0x100 * b[4 * i + 1] + 0x10000 * b[4 * i + 2] + 0x1000000 * b[4 * i
                + 3] < 0x7fffffff);
        }
        assert(w[k] == word);
        lemma_word_found(w, 0, k as nat);
    }
}

proof fn lemma_word_fault_only(w: Seq<u32>, i: nat)
    ensures
        commitment::word_fault(w, i) matches Some(e) ==> e is WordRange,
    decreases 4 - i,
{
    if i < 4 {
        lemma_word_fault_only(w, i + 1);
    }
}

proof fn lemma_word_found(w: Seq<u32>, i: nat, k: nat)
    requires
        i <= k < 4,
        w.len() == 4,
        forall|q: int| i <= q < k ==> #[trigger] w[q] < 0x7fffffff,
        w[k as int] >= 0x7fffffff,
    ensures
        commitment::word_fault(w, i) == Some(
            CommitmentError::WordRange { index: k as usize, word: w[k as int] },
        ),
    decreases k - i,
{
    if i < k {
        assert(w[i as int] < 0x7fffffff);
        lemma_word_found(w, i + 1, k);
    }
}

} // verus!
