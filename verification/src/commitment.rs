//! The short commitments that accompany proofs, and the words that bind them to a
//! transcript.
//!
//! A value commitment holds a field element and a digest that ties it to the start
//! of a proof. A polynomial commitment holds the four words of a fingerprint of the
//! coefficients.
use crate::bytes;
use crate::digest;
use crate::hexcode;
use crate::hexcode::HexError;
use crate::mldsa::transform;
use vstd::prelude::*;
use vstd::slice::slice_subrange;
use vstd::string::*;
use vstd::utf8::*;

verus! {

/// The Mersenne prime `2^31 - 1`, modulus of the proof system's field.
pub const M31_MODULUS: u32 = 2_147_483_647;

/// Why a commitment is refused.
#[derive(Clone, Copy, Debug, PartialEq, Eq)]
pub enum CommitmentError {
    /// The text is not hexadecimal.
    Hex(HexError),
    /// The text stands for `got` bytes.
    Length { got: usize },
    /// The field element is not below the modulus.
    ValueRange,
    /// Word `index` of the fingerprint, `word`, is not below the modulus.
    WordRange { index: usize, word: u32 },
    /// The digest does not belong to the field element and the proof.
    Suffix,
}

/// The little-endian bytes of `w`.
pub open spec fn le_bytes(w: u32) -> Seq<u8> {
    seq![
        (w % 256) as u8,
        ((w / 256) % 256) as u8,
        ((w / 65536) % 256) as u8,
        (w / 16777216) as u8,
    ]
}

/// The number with the little-endian bytes `b[i], .., b[i + 3]`.
pub open spec fn le_word(b: Seq<u8>, i: int) -> int {
    b[i] + 256 * b[i + 1] + 65536 * b[i + 2] + 16777216 * b[i + 3]
}

/// `b` with zeros appended.
pub open spec fn padded(b: Seq<u8>, i: int) -> u8 {
    if i < b.len() {
        b[i]
    } else {
        0
    }
}

/// The little-endian words of `seed`, the last one padded with zeros.
pub open spec fn seed_words(seed: Seq<u8>) -> Seq<u32> {
    Seq::new(
        ((seed.len() + 3) / 4) as nat,
        |i: int|
            (padded(seed, 4 * i) + 256 * padded(seed, 4 * i + 1) + 65536 * padded(seed, 4 * i + 2)
                + 16777216 * padded(seed, 4 * i + 3)) as u32,
    )
}

/// Appends the little-endian bytes of `w`.
pub fn push_word(out: &mut Vec<u8>, w: u32)
    ensures
        final(out)@ == old(out)@ + le_bytes(w),
{
    let ghost start = out@;
    out.push((w % 256) as u8);
    out.push(((w / 256) % 256) as u8);
    out.push(((w / 65536) % 256) as u8);
    out.push((w / 16777216) as u8);
    proof {
        assert(out@ =~= start + le_bytes(w));
    }
}

/// The number with the little-endian bytes `b[i], .., b[i + 3]`.
pub fn read_word(b: &[u8], i: usize) -> (w: u32)
    requires
        i + 4 <= b@.len(),
    ensures
        w == le_word(b@, i as int),
{
    b[i] as u32 + 256 * (b[i + 1] as u32) + 65536 * (b[i + 2] as u32) + 16777216 * (b[i
        + 3] as u32)
}

/// Reading back the bytes of a word gives the word.
pub proof fn lemma_word_roundtrip(w: u32, b: Seq<u8>, i: int)
    requires
        0 <= i,
        i + 4 <= b.len(),
        b.subrange(i, i + 4) == le_bytes(w),
    ensures
        le_word(b, i) == w,
{
    let s = b.subrange(i, i + 4);
    assert(s[0] == b[i] && s[1] == b[i + 1] && s[2] == b[i + 2] && s[3] == b[i + 3]);
    assert(w as int == w as int % 256 + 256 * ((w as int / 256) % 256) + 65536 * ((w as int / 65536)
        % 256) + 16777216 * (w as int / 16777216));
}

/// Seeds of one length with the same words are the same.
pub proof fn lemma_seed_words_injective(a: Seq<u8>, b: Seq<u8>)
    requires
        a.len() == b.len(),
        seed_words(a) == seed_words(b),
    ensures
        a == b,
{
    assert forall|i: int| 0 <= i < a.len() implies a[i] == b[i] by {
        let k = i / 4;
        let v = seed_words(a)[k];
        assert(v == seed_words(b)[k]);
        assert(v as int == padded(a, 4 * k) + 256 * padded(a, 4 * k + 1) + 65536 * padded(
            a,
            4 * k + 2,
        ) + 16777216 * padded(a, 4 * k + 3));
        assert(v as int == padded(b, 4 * k) + 256 * padded(b, 4 * k + 1) + 65536 * padded(
            b,
            4 * k + 2,
        ) + 16777216 * padded(b, 4 * k + 3));
        let j = i % 4;
        assert(i == 4 * k + j);
        assert(padded(a, 4 * k + j) == padded(b, 4 * k + j));
    }
    assert(a =~= b);
}

/// The words by which `seed` enters a transcript.
pub fn seed_to_u32_words(seed: &[u8]) -> (words: Vec<u32>)
    ensures
        words@ == seed_words(seed@),
{
    let mut words: Vec<u32> = Vec::new();
    let len: usize = seed.len();
    let mut i: usize = 0;
    while i < len
        invariant
            len == seed@.len(),
            i <= len || (i % 4 == 0 && i < len + 4),
            i % 4 == 0,
            words@.len() * 4 == i,
            i <= usize::MAX,
            forall|k: int| 0 <= k < words@.len() ==> words@[k] == #[trigger] seed_words(seed@)[k],
        decreases len + 4 - i,
    {
        let b0: u32 = seed[i] as u32;
        let left: usize = len - i;
        let b1: u32 = if left > 1 {
            seed[i + 1] as u32
        } else {
            0
        };
        let b2: u32 = if left > 2 {
            seed[i + 2] as u32
        } else {
            0
        };
        let b3: u32 = if left > 3 {
            seed[i + 3] as u32
        } else {
            0
        };
        let w: u32 = b0 + 256 * b1 + 65536 * b2 + 16777216 * b3;
        proof {
            let k = words@.len() as int;
            assert(4 * k == i);
            assert(w == seed_words(seed@)[k]);
        }
        words.push(w);
        if left <= 4 {
            proof {
                assert(words@ =~= seed_words(seed@));
            }
            return words;
        }
        i = i + 4;
    }
    proof {
        assert(words@ =~= seed_words(seed@));
    }
    words
}

/// The start of a proof that a value commitment is tied to.
pub open spec fn proof_start(proof_bytes: Seq<u8>) -> Seq<u8> {
    if proof_bytes.len() < 32 {
        proof_bytes
    } else {
        proof_bytes.subrange(0, 32)
    }
}

/// The digest that ties the field element with bytes `m31` to a proof.
pub open spec fn binding_digest(m31: Seq<u8>, proof_bytes: Seq<u8>) -> Seq<u8> {
    digest::blake2s256(m31 + proof_start(proof_bytes))@
}

/// The bytes of the commitment to `m31_val` for a proof.
pub open spec fn value_commitment(m31_val: u32, proof_bytes: Seq<u8>) -> Seq<u8> {
    le_bytes(m31_val) + binding_digest(le_bytes(m31_val), proof_bytes).subrange(0, 12)
}

fn binding(m31: &[u8], proof_bytes: &[u8]) -> (out: [u8; 32])
    ensures
        out@ == binding_digest(m31@, proof_bytes@),
{
    let mut data: Vec<u8> = bytes::to_vec(m31);
    if proof_bytes.len() < 32 {
        bytes::push_all(&mut data, proof_bytes);
    } else {
        bytes::push_all(&mut data, slice_subrange(proof_bytes, 0, 32));
    }
    digest::blake2s(data.as_slice())
}

/// The commitment to `m31_val` for a proof: the value and the first twelve bytes of
/// the digest that ties it to the proof.
pub fn build_commitment_128(m31_val: u32, proof_bytes: &[u8]) -> (text: String)
    ensures
        text@ == hexcode::hex_chars(value_commitment(m31_val, proof_bytes@)),
{
    let mut buf: Vec<u8> = Vec::new();
    push_word(&mut buf, m31_val);
    proof {
        assert(buf@ =~= le_bytes(m31_val));
    }
    let tie: [u8; 32] = binding(buf.as_slice(), proof_bytes);
    bytes::push_all(&mut buf, slice_subrange(tie.as_slice(), 0, 12));
    hexcode::encode(buf.as_slice())
}

/// What a text means as the commitment to a value for a proof.
pub open spec fn parsed_value(text: Seq<u8>, proof_bytes: Seq<u8>) -> Result<
    int,
    CommitmentError,
> {
    let b = hexcode::hex_value(text);
    if b.len() != 16 {
        Err(CommitmentError::Length { got: b.len() as usize })
    } else if le_word(b, 0) >= M31_MODULUS {
        Err(CommitmentError::ValueRange)
    } else if b.subrange(4, 16) != binding_digest(b.subrange(0, 4), proof_bytes).subrange(0, 12) {
        Err(CommitmentError::Suffix)
    } else {
        Ok(le_word(b, 0))
    }
}

/// The value in a commitment, if the text is one for the proof.
pub open spec fn value_in(text: Seq<u8>, proof_bytes: Seq<u8>) -> Option<u32> {
    if hexcode::is_hex(text) {
        match parsed_value(text, proof_bytes) {
            Ok(v) => Some(v as u32),
            Err(_) => None,
        }
    } else {
        None
    }
}

/// Whether `e` is why a text is no commitment to a value for the proof.
pub open spec fn is_value_fault(text: Seq<u8>, proof_bytes: Seq<u8>, e: CommitmentError) -> bool {
    if hexcode::is_hex(text) {
        parsed_value(text, proof_bytes) == Err::<int, CommitmentError>(e)
    } else {
        e matches CommitmentError::Hex(h) && hexcode::is_hex_fault(text, h)
    }
}

/// Reads a value commitment and holds it against the proof.
pub fn parse_commitment_128(commitment_hex: &str, proof_bytes: &[u8]) -> (res: Result<
    u32,
    CommitmentError,
>)
    ensures
        match res {
            Ok(v) => value_in(commitment_hex.spec_bytes(), proof_bytes@) == Some(v) && v
                < M31_MODULUS,
            Err(e) => value_in(commitment_hex.spec_bytes(), proof_bytes@) is None
                && is_value_fault(commitment_hex.spec_bytes(), proof_bytes@, e),
        },
{
    let b: Vec<u8> = match hexcode::decode(commitment_hex) {
        Ok(b) => b,
        Err(e) => return Err(CommitmentError::Hex(e)),
    };
    if b.len() != 16 {
        return Err(CommitmentError::Length { got: b.len() });
    }
    let m31_val: u32 = read_word(b.as_slice(), 0);
    if m31_val >= M31_MODULUS {
        return Err(CommitmentError::ValueRange);
    }
    let tie: [u8; 32] = binding(slice_subrange(b.as_slice(), 0, 4), proof_bytes);
    if !bytes::equal(slice_subrange(b.as_slice(), 4, 16), slice_subrange(tie.as_slice(), 0, 12)) {
        return Err(CommitmentError::Suffix);
    }
    Ok(m31_val)
}

/// A value commitment reads back as its value, for the proof it was made for.
pub proof fn lemma_commitment_128_roundtrip(m31_val: u32, proof_bytes: Seq<u8>)
    requires
        m31_val < M31_MODULUS,
    ensures
        hexcode::is_hex(
            encode_utf8(hexcode::hex_chars(value_commitment(m31_val, proof_bytes))),
        ),
        parsed_value(
            encode_utf8(hexcode::hex_chars(value_commitment(m31_val, proof_bytes))),
            proof_bytes,
        ) == Ok::<int, CommitmentError>(m31_val as int),
        value_in(
            encode_utf8(hexcode::hex_chars(value_commitment(m31_val, proof_bytes))),
            proof_bytes,
        ) == Some(m31_val),
{
    let b = value_commitment(m31_val, proof_bytes);
    hexcode::lemma_hex_roundtrip(b);
    assert(b.len() == 16);
    assert(b.subrange(0, 4) =~= le_bytes(m31_val));
    assert(b.subrange(4, 16) =~= binding_digest(le_bytes(m31_val), proof_bytes).subrange(0, 12));
    lemma_word_roundtrip(m31_val, b, 0);
}

/// The tie of a value commitment holds for its value and its proof: with the value `w`
/// in place of `v`, or for the proof `q` in place of `p`, the commitment is refused
/// unless the digests agree.
pub proof fn lemma_commitment_128_tied(v: u32, w: u32, p: Seq<u8>, q: Seq<u8>)
    requires
        w < M31_MODULUS,
        binding_digest(le_bytes(v), p).subrange(0, 12) != binding_digest(
            le_bytes(w),
            q,
        ).subrange(0, 12),
    ensures
        parsed_value(
            encode_utf8(
                hexcode::hex_chars(
                    le_bytes(w) + binding_digest(le_bytes(v), p).subrange(0, 12),
                ),
            ),
            q,
        ) == Err::<int, CommitmentError>(CommitmentError::Suffix),
{
    let b = le_bytes(w) + binding_digest(le_bytes(v), p).subrange(0, 12);
    hexcode::lemma_hex_roundtrip(b);
    assert(b.len() == 16);
    assert(b.subrange(0, 4) =~= le_bytes(w));
    assert(b.subrange(4, 16) =~= binding_digest(le_bytes(v), p).subrange(0, 12));
    lemma_word_roundtrip(w, b, 0);
}

/// The bytes that tie a bundle of proofs to a challenge seed.
pub open spec fn bundle_tie(bundle: Seq<u8>, c_tilde: Seq<u8>) -> Seq<u8> {
    digest::blake2s256(proof_start(bundle) + proof_start(c_tilde))@.subrange(0, 16)
}

/// The commitment that ties a bundle of proofs to a challenge seed.
pub fn onchain_commitment(bundle: &[u8], c_tilde: &[u8]) -> (text: String)
    ensures
        text@ == hexcode::hex_chars(bundle_tie(bundle@, c_tilde@)),
{
    let first: &[u8] = if c_tilde.len() < 32 {
        c_tilde
    } else {
        slice_subrange(c_tilde, 0, 32)
    };
    let start: &[u8] = if bundle.len() < 32 {
        bundle
    } else {
        slice_subrange(bundle, 0, 32)
    };
    let data: Vec<u8> = bytes::concat(start, first);
    let d: [u8; 32] = digest::blake2s(data.as_slice());
    hexcode::encode(slice_subrange(d.as_slice(), 0, 16))
}

/// The bytes of the coefficients `c[0], .., c[n-1]`, four per coefficient modulo
/// `2^32`.
pub open spec fn coeff_bytes(c: Seq<int>, n: nat) -> Seq<u8>
    decreases n,
{
    if n == 0 {
        seq![]
    } else {
        coeff_bytes(c, (n - 1) as nat) + le_bytes((c[n - 1] % 4294967296) as u32)
    }
}

/// The four words of the fingerprint of some coefficients.
pub open spec fn fingerprint(c: Seq<int>) -> Seq<u32> {
    let d = digest::blake2s256(coeff_bytes(c, c.len()))@;
    Seq::new(4, |i: int| (le_word(d, 4 * i) % (M31_MODULUS as int)) as u32)
}

/// Whether all words are field elements.
pub open spec fn is_fingerprint(fp: Seq<u32>) -> bool {
    fp.len() == 4 && forall|i: int| 0 <= i < 4 ==> #[trigger] fp[i] < M31_MODULUS
}

proof fn lemma_coeff_bytes(a: Seq<int>, b: Seq<int>, n: nat)
    requires
        n <= a.len(),
        n <= b.len(),
        forall|i: int| 0 <= i < n ==> #[trigger] a[i] % 4294967296 == b[i] % 4294967296,
    ensures
        coeff_bytes(a, n) == coeff_bytes(b, n),
    decreases n,
{
    if n > 0 {
        lemma_coeff_bytes(a, b, (n - 1) as nat);
        assert(a[n - 1] % 4294967296 == b[n - 1] % 4294967296);
    }
}

/// Coefficients that agree modulo `2^32` have the same fingerprint.
pub proof fn lemma_fingerprint_congruent(a: Seq<int>, b: Seq<int>)
    requires
        a.len() == b.len(),
        forall|i: int| 0 <= i < a.len() ==> #[trigger] a[i] % 4294967296 == b[i] % 4294967296,
    ensures
        fingerprint(a) == fingerprint(b),
{
    lemma_coeff_bytes(a, b, a.len());
}

/// Every word of a fingerprint is a field element.
pub proof fn lemma_fingerprint(c: Seq<int>)
    ensures
        is_fingerprint(fingerprint(c)),
{
}

/// The residue of a coefficient as a word.
fn low_word(c: i64) -> (w: u32)
    ensures
        w == (c as int % 4294967296) as u32,
{
    let r: i64 = c % 4294967296;
    let w: i64 = if r < 0 {
        r + 4294967296
    } else {
        r
    };
    w as u32
}

/// The fingerprint of the coefficients: four words of their digest, reduced.
pub fn output_fingerprint(coeffs: &[i64]) -> (fp: [u32; 4])
    ensures
        fp@ == fingerprint(transform::ints(coeffs@)),
        is_fingerprint(fp@),
{
    let mut data: Vec<u8> = Vec::new();
    let mut i: usize = 0;
    while i < coeffs.len()
        invariant
            i <= coeffs.len(),
            data@ == coeff_bytes(transform::ints(coeffs@), i as nat),
        decreases coeffs.len() - i,
    {
        push_word(&mut data, low_word(coeffs[i]));
        i = i + 1;
    }
    let d: [u8; 32] = digest::blake2s(data.as_slice());
    let mut fp: [u32; 4] = [0u32; 4];
    let mut k: usize = 0;
    while k < 4
        invariant
            k <= 4,
            d == digest::blake2s256(coeff_bytes(transform::ints(coeffs@), coeffs@.len())),
            forall|j: int|
                0 <= j < k ==> #[trigger] fp[j] == fingerprint(transform::ints(coeffs@))[j] && fp[j] < M31_MODULUS,
        decreases 4 - k,
    {
        fp[k] = read_word(d.as_slice(), 4 * k) % M31_MODULUS;
        k = k + 1;
    }
    proof {
        assert(fp@ =~= fingerprint(transform::ints(coeffs@)));
    }
    fp
}

/// The bytes of the words `w[0], .., w[n-1]`.
pub open spec fn words_bytes(w: Seq<u32>, n: nat) -> Seq<u8>
    decreases n,
{
    if n == 0 {
        seq![]
    } else {
        words_bytes(w, (n - 1) as nat) + le_bytes(w[n - 1])
    }
}

/// The text of the commitment to a fingerprint.
pub open spec fn poly_commitment(fp: Seq<u32>) -> Seq<char> {
    hexcode::hex_chars(words_bytes(fp, 4))
}

/// The commitment to a fingerprint.
pub fn build_poly_commitment(fp: &[u32; 4]) -> (text: String)
    ensures
        text@ == poly_commitment(fp@),
{
    let mut buf: Vec<u8> = Vec::new();
    let mut i: usize = 0;
    while i < 4
        invariant
            i <= 4,
            buf@ == words_bytes(fp@, i as nat),
        decreases 4 - i,
    {
        push_word(&mut buf, fp[i]);
        i = i + 1;
    }
    hexcode::encode(buf.as_slice())
}

/// The words in a sixteen-byte string.
pub open spec fn byte_words(b: Seq<u8>) -> Seq<u32> {
    Seq::new(4, |i: int| le_word(b, 4 * i) as u32)
}

/// The first word, from `i` on, that is no field element.
pub open spec fn word_fault(w: Seq<u32>, i: nat) -> Option<CommitmentError>
    decreases 4 - i,
{
    if i >= 4 {
        None
    } else if w[i as int] >= M31_MODULUS {
        Some(CommitmentError::WordRange { index: i as usize, word: w[i as int] })
    } else {
        word_fault(w, i + 1)
    }
}

/// What a text means as the commitment to a fingerprint.
pub open spec fn parsed_fingerprint(text: Seq<u8>) -> Result<Seq<u32>, CommitmentError> {
    let b = hexcode::hex_value(text);
    if b.len() != 16 {
        Err(CommitmentError::Length { got: b.len() as usize })
    } else {
        match word_fault(byte_words(b), 0) {
            Some(e) => Err(e),
            None => Ok(byte_words(b)),
        }
    }
}

proof fn lemma_word_fault(w: Seq<u32>, i: nat)
    requires
        i <= 4,
        w.len() == 4,
    ensures
        word_fault(w, i) is None <==> forall|j: int| i <= j < 4 ==> #[trigger] w[j] < M31_MODULUS,
    decreases 4 - i,
{
    if i < 4 {
        lemma_word_fault(w, i + 1);
        if w[i as int] < M31_MODULUS && word_fault(w, i + 1) is None {
            assert forall|j: int| i <= j < 4 implies #[trigger] w[j] < M31_MODULUS by {
                if j > i {
                    assert((i + 1) as int <= j);
                }
            }
        }
    }
}

/// The fingerprint in a commitment, if the text is one.
pub open spec fn fingerprint_in(text: Seq<u8>) -> Option<Seq<u32>> {
    if hexcode::is_hex(text) {
        match parsed_fingerprint(text) {
            Ok(fp) => Some(fp),
            Err(_) => None,
        }
    } else {
        None
    }
}

/// Whether `e` is why a text is no commitment to a fingerprint.
pub open spec fn is_fingerprint_fault(text: Seq<u8>, e: CommitmentError) -> bool {
    if hexcode::is_hex(text) {
        parsed_fingerprint(text) == Err::<Seq<u32>, CommitmentError>(e)
    } else {
        e matches CommitmentError::Hex(h) && hexcode::is_hex_fault(text, h)
    }
}

/// Reads the fingerprint in a commitment.
pub fn parse_poly_commitment(commitment_hex: &str) -> (res: Result<[u32; 4], CommitmentError>)
    ensures
        match res {
            Ok(fp) => fingerprint_in(commitment_hex.spec_bytes()) == Some(fp@)
                && is_fingerprint(fp@),
            Err(e) => fingerprint_in(commitment_hex.spec_bytes()) is None && is_fingerprint_fault(
                commitment_hex.spec_bytes(),
                e,
            ),
        },
{
    let b: Vec<u8> = match hexcode::decode(commitment_hex) {
        Ok(b) => b,
        Err(e) => return Err(CommitmentError::Hex(e)),
    };
    if b.len() != 16 {
        return Err(CommitmentError::Length { got: b.len() });
    }
    let ghost w = byte_words(b@);
    let mut words: [u32; 4] = [0u32; 4];
    let mut i: usize = 0;
    while i < 4
        invariant
            i <= 4,
            b@.len() == 16,
            hexcode::is_hex(commitment_hex.spec_bytes()),
            b@ == hexcode::hex_value(commitment_hex.spec_bytes()),
            w == byte_words(b@),
            forall|j: int| 0 <= j < i ==> #[trigger] words[j] == w[j] && w[j] < M31_MODULUS,
            word_fault(w, 0) == word_fault(w, i as nat),
        decreases 4 - i,
    {
        let x: u32 = read_word(b.as_slice(), 4 * i);
        proof {
            assert(w[i as int] == x);
        }
        if x >= M31_MODULUS {
            return Err(CommitmentError::WordRange { index: i, word: x });
        }
        words[i] = x;
        i = i + 1;
    }
    proof {
        assert(words@ =~= w);
    }
    Ok(words)
}

/// The commitment to a fingerprint reads back as the fingerprint.
pub proof fn lemma_poly_commitment_roundtrip(fp: Seq<u32>)
    requires
        is_fingerprint(fp),
    ensures
        hexcode::is_hex(encode_utf8(poly_commitment(fp))),
        parsed_fingerprint(encode_utf8(poly_commitment(fp))) == Ok::<Seq<u32>, CommitmentError>(
            fp,
        ),
        fingerprint_in(encode_utf8(poly_commitment(fp))) == Some(fp),
{
    let b = words_bytes(fp, 4);
    hexcode::lemma_hex_roundtrip(b);
    reveal_with_fuel(words_bytes, 5);
    assert(b.len() == 16);
    assert(b.subrange(0, 4) =~= le_bytes(fp[0]));
    assert(b.subrange(4, 8) =~= le_bytes(fp[1]));
    assert(b.subrange(8, 12) =~= le_bytes(fp[2]));
    assert(b.subrange(12, 16) =~= le_bytes(fp[3]));
    lemma_word_roundtrip(fp[0], b, 0);
    lemma_word_roundtrip(fp[1], b, 4);
    lemma_word_roundtrip(fp[2], b, 8);
    lemma_word_roundtrip(fp[3], b, 12);
    assert(byte_words(b) =~= fp);
    lemma_word_fault(fp, 0);
}

/// Different fingerprints have different commitments.
pub proof fn lemma_poly_commitment_injective(a: Seq<u32>, b: Seq<u32>)
    requires
        is_fingerprint(a),
        is_fingerprint(b),
        poly_commitment(a) == poly_commitment(b),
    ensures
        a == b,
{
    lemma_poly_commitment_roundtrip(a);
    lemma_poly_commitment_roundtrip(b);
}

} // verus!
