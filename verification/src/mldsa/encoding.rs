//! Byte encodings of polynomials, public keys, signatures and hints.
use crate::bytes;
use crate::mldsa::bits;
use crate::mldsa::hints;
use crate::mldsa::params::{
    GAMMA1, K, L, LAMBDA_BYTES, N, OMEGA, PK_BYTES, SIG_BYTES, T1_BITS, W1_BITS, Z_BITS,
};
use crate::mldsa::poly::Poly;
use crate::mldsa::polyvec;
use crate::mldsa::polyvec::PolyVec;
use crate::mldsa::transform;
use vstd::arithmetic::div_mod::*;
use vstd::arithmetic::power2::*;
use vstd::prelude::*;
use vstd::slice::slice_subrange;

verus! {

/// Why a key or a signature does not decode.
#[derive(Clone, Copy, Debug, PartialEq, Eq)]
pub enum DecodeError {
    /// A public key of `got` bytes.
    PublicKeyLength { got: usize },
    /// A signature of `got` bytes.
    SignatureLength { got: usize },
    /// A hint encoding of `got` bytes.
    HintLength { got: usize },
    /// The end `offset` of the hints of polynomial `row` is below their start or too large.
    HintOffset { row: usize, start: usize, offset: usize },
    /// The hint position at `pos` is not above the one before it.
    HintOrder { pos: usize },
    /// The unused hint position at `pos` is not zero.
    HintPadding { pos: usize },
}

/// The first `m` bits of byte `k` of the stream.
spec fn partial_byte(v: Seq<int>, bits: nat, k: int, m: nat) -> int
    decreases m,
{
    if m == 0 {
        0
    } else {
        partial_byte(v, bits, k, (m - 1) as nat) + bits::stream_bit(v, bits, 8 * k + m - 1) * pow2(
            (m - 1) as nat,
        )
    }
}

proof fn lemma_partial_byte(v: Seq<int>, bits: nat, k: int)
    ensures
        partial_byte(v, bits, k, 8) == bits::stream_byte(v, bits, k),
{
    lemma2_to64();
    reveal_with_fuel(partial_byte, 9);
    let b = |j: int| bits::stream_bit(v, bits, 8 * k + j);
    assert(partial_byte(v, bits, k, 8) == b(0) * pow2(0) + b(1) * pow2(1) + b(2) * pow2(2) + b(3)
        * pow2(3) + b(4) * pow2(4) + b(5) * pow2(5) + b(6) * pow2(6) + b(7) * pow2(7));
    assert(b(0) == bits::stream_bit(v, bits, 8 * k));
}

/// A byte whose remaining bits lie behind the stream's end.
proof fn lemma_partial_tail(v: Seq<int>, bits: nat, k: int, m: nat, n: nat)
    requires
        m <= n,
        8 * k + m >= v.len() * bits,
    ensures
        partial_byte(v, bits, k, n) == partial_byte(v, bits, k, m),
    decreases n,
{
    if n > m {
        lemma_partial_tail(v, bits, k, m, (n - 1) as nat);
        assert(bits::stream_bit(v, bits, 8 * k + n - 1) == 0);
        assert(0 * pow2((n - 1) as nat) == 0) by (nonlinear_arith);
    }
}

proof fn lemma_partial_range(v: Seq<int>, bits: nat, k: int, m: nat)
    ensures
        0 <= partial_byte(v, bits, k, m) < pow2(m),
    decreases m,
{
    lemma2_to64();
    if m > 0 {
        let l = (m - 1) as nat;
        lemma_partial_range(v, bits, k, l);
        lemma_pow2_unfold(m);
        bits::lemma_stream_bit_range(v, bits, 8 * k + m - 1);
        let c = bits::stream_bit(v, bits, 8 * k + m - 1);
        assert(0 <= c * pow2(l) <= pow2(l)) by (nonlinear_arith)
            requires
                0 <= c <= 1,
                0 <= pow2(l),
        ;
    }
}

/// Halving a shifted number shifts it once more.
proof fn lemma_half(v: int, b: nat)
    ensures
        (v / (pow2(b) as int)) / 2 == v / (pow2(b + 1) as int),
{
    let c = pow2(b) as int;
    lemma_pow2_pos(b);
    lemma_pow2_unfold(b + 1);
    lemma_fundamental_div_mod(v, c);
    let q = v / c;
    let r = v % c;
    let h = q / 2;
    let t = q % 2;
    assert(v == h * (2 * c) + (c * t + r)) by (nonlinear_arith)
        requires
            v == c * q + r,
            q == 2 * h + t,
    ;
    assert(0 <= c * t + r < 2 * c) by (nonlinear_arith)
        requires
            0 <= t <= 1,
            0 <= r < c,
    ;
    lemma_fundamental_div_mod_converse(v, 2 * c, h, c * t + r);
}

/// What the packing loop has written after `pos` bits.
spec fn pack_state(
    v: Seq<int>,
    bits: nat,
    out: Seq<u8>,
    cur: int,
    weight: int,
    filled: int,
    pos: int,
) -> bool {
    &&& 0 <= filled < 8
    &&& pos == 8 * out.len() + filled
    &&& weight == pow2(filled as nat)
    &&& cur == partial_byte(v, bits, out.len() as int, filled as nat)
    &&& forall|k: int|
        0 <= k < out.len() ==> #[trigger] out[k] as int == bits::stream_byte(v, bits, k)
}

/// Lays out `values` at `bits` bits each, least significant bit first.
pub fn pack_bits(values: &[i64], bits: u32) -> (out: Vec<u8>)
    requires
        bits <= 64,
        values@.len() * bits + 7 <= usize::MAX,
    ensures
        out@ == bits::packed(transform::ints(values@), bits as nat),
{
    let ghost v = transform::ints(values@);
    let ghost total = v.len() * bits;
    let mut out: Vec<u8> = Vec::new();
    let mut cur: u32 = 0;
    let mut weight: u32 = 1;
    let mut filled: u32 = 0;
    let mut i: usize = 0;
    proof {
        lemma2_to64();
        assert(0 * bits == 0);
    }
    while i < values.len()
        invariant
            i <= values.len(),
            bits <= 64,
            v == transform::ints(values@),
            pack_state(
                v,
                bits as nat,
                out@,
                cur as int,
                weight as int,
                filled as int,
                i * bits as int,
            ),
        decreases values.len() - i,
    {
        let mut x: i64 = values[i];
        let mut b: u32 = 0;
        proof {
            lemma2_to64();
            assert(x as int / 1 == x);
        }
        while b < bits
            invariant
                i < values.len(),
                bits <= 64,
                b <= bits,
                v == transform::ints(values@),
                x == v[i as int] / (pow2(b as nat) as int),
                pack_state(
                    v,
                    bits as nat,
                    out@,
                    cur as int,
                    weight as int,
                    filled as int,
                    i * bits + b,
                ),
            decreases bits - b,
        {
            let ghost pos = i * bits + b;
            let ghost k = out@.len() as int;
            let ghost m = filled as nat;
            let ghost x0 = x as int;
            proof {
                lemma_half(v[i as int], b as nat);
                lemma_fundamental_div_mod_converse(pos, bits as int, i as int, b as int);
                assert(0 <= pos < v.len() * bits) by (nonlinear_arith)
                    requires
                        pos == i * bits + b,
                        0 <= i,
                        i + 1 <= v.len(),
                        0 <= b < bits,
                ;
                assert(bits::stream_bit(v, bits as nat, pos) == x0 % 2);
                lemma_partial_range(v, bits as nat, k, m);
                lemma_partial_range(v, bits as nat, k, m + 1);
                lemma_pow2_unfold(m + 1);
                lemma2_to64();
                assert(pow2(m + 1) <= 256) by {
                    if m < 7 {
                        lemma_pow2_strictly_increases(m + 1, 8);
                    }
                }
                assert(1 * pow2(m) == pow2(m));
                assert(0 * pow2(m) == 0);
                assert(partial_byte(v, bits as nat, k, m + 1) == partial_byte(v, bits as nat, k, m)
                    + (x0 % 2) * pow2(m));
            }
            if x % 2 != 0 {
                cur = cur + weight;
                x = (x - 1) / 2;
            } else {
                x = x / 2;
            }
            proof {
                assert(x == x0 / 2);
            }
            weight = 2 * weight;
            filled = filled + 1;
            if filled == 8 {
                proof {
                    lemma_partial_byte(v, bits as nat, k);
                }
                out.push(cur as u8);
                cur = 0;
                weight = 1;
                filled = 0;
            }
            b = b + 1;
        }
        proof {
            assert((i + 1) * bits == i * bits + bits) by (nonlinear_arith);
        }
        i = i + 1;
    }
    if filled > 0 {
        proof {
            let k = out@.len() as int;
            assert(total == values.len() * bits);
            lemma_partial_tail(v, bits as nat, k, filled as nat, 8);
            lemma_partial_byte(v, bits as nat, k);
            lemma_partial_range(v, bits as nat, k, filled as nat);
            lemma2_to64();
            lemma_pow2_strictly_increases(filled as nat, 8);
        }
        out.push(cur as u8);
    }
    proof {
        assert(out@ =~= bits::packed(v, bits as nat));
    }
    out
}

/// Reads `count` numbers of `bits` bits each; missing bytes count as zero.
pub fn unpack_bits(bytes: &[u8], bits: u32, count: usize) -> (out: Vec<i64>)
    requires
        bits <= 63,
        count * bits <= usize::MAX,
    ensures
        transform::ints(out@) == bits::unpacked(bytes@, bits as nat, count as nat),
{
    let mut out: Vec<i64> = Vec::new();
    let mut pos: usize = 0;
    let mut i: usize = 0;
    proof {
        assert(0 * bits == 0);
    }
    while i < count
        invariant
            i <= count,
            bits <= 63,
            count * bits <= usize::MAX,
            pos == i * bits,
            out.len() == i,
            forall|j: int|
                0 <= j < i ==> #[trigger] out[j] as int == bits::bits_value(
                    bytes@,
                    j * bits,
                    bits as nat,
                ),
        decreases count - i,
    {
        let ghost start = pos as int;
        let mut val: u64 = 0;
        let mut weight: u64 = 1;
        let mut b: u32 = 0;
        proof {
            lemma2_to64();
        }
        while b < bits
            invariant
                i < count,
                bits <= 63,
                b <= bits,
                count * bits <= usize::MAX,
                start == i * bits,
                pos == start + b,
                weight == pow2(b as nat),
                val == bits::bits_value(bytes@, start, b as nat),
            decreases bits - b,
        {
            proof {
                assert(pos < count * bits) by (nonlinear_arith)
                    requires
                        pos == i * bits + b,
                        b < bits,
                        i + 1 <= count,
                ;
                bits::lemma_bits_value_range(bytes@, start, (b + 1) as nat);
                bits::lemma_bits_value_range(bytes@, start, b as nat);
                lemma_pow2_unfold((b + 1) as nat);
                lemma2_to64_rest();
                lemma_pow2_strictly_increases(b as nat, 63);
                assert(1 * pow2(b as nat) == pow2(b as nat));
                assert(0 * pow2(b as nat) == 0);
            }
            if pos / 8 < bytes.len() {
                let x: u8 = bytes[pos / 8];
                let s: u8 = (pos % 8) as u8;
                proof {
                    vstd::bits::lemma_u8_shr_is_div(x, s);
                    let y = x >> s;
                    assert(y & 1 == y % 2) by (bit_vector);
                }
                if (x >> s) & 1 == 1 {
                    val = val + weight;
                }
            }
            weight = 2 * weight;
            pos = pos + 1;
            b = b + 1;
        }
        proof {
            bits::lemma_bits_value_range(bytes@, start, bits as nat);
            lemma2_to64_rest();
            if bits < 63 {
                lemma_pow2_strictly_increases(bits as nat, 63);
            }
            assert((i + 1) * bits == i * bits + bits) by (nonlinear_arith);
        }
        out.push(val as i64);
        i = i + 1;
    }
    proof {
        assert(transform::ints(out@) =~= bits::unpacked(bytes@, bits as nat, count as nat));
    }
    out
}

/// Lays out the coefficients of `w` at `bits` bits each.
pub fn simple_bit_pack(w: &[i64; N], bits: u32) -> (out: Vec<u8>)
    requires
        bits <= 64,
    ensures
        out@ == bits::packed(transform::ints(w@), bits as nat),
        out.len() == 32 * bits,
{
    proof {
        assert(w@.len() == 256);
    }
    pack_bits(w.as_slice(), bits)
}

/// Reads 256 coefficients of `bits` bits each.
pub fn simple_bit_unpack(v: &[u8], bits: u32) -> (out: [i64; N])
    requires
        bits <= 63,
    ensures
        transform::ints(out@) == bits::unpacked(v@, bits as nat, 256),
{
    let vals: Vec<i64> = unpack_bits(v, bits, 256);
    let mut out: [i64; 256] = [0i64; 256];
    let mut i: usize = 0;
    proof {
        assert(transform::ints(vals@).len() == 256);
    }
    while i < 256
        invariant
            i <= 256,
            vals@.len() == 256,
            forall|j: int| 0 <= j < i ==> out[j] == vals[j],
        decreases 256 - i,
    {
        out[i] = vals[i];
        i = i + 1;
    }
    proof {
        assert(transform::ints(out@) =~= transform::ints(vals@));
    }
    out
}

/// The distances of the coefficients below `upper`.
pub open spec fn below(upper: int, w: Seq<int>) -> Seq<int> {
    Seq::new(w.len(), |i: int| upper - w[i])
}

/// Lays out the distances of the coefficients of `w` below `upper`.
pub fn bit_pack(w: &[i64; N], upper: i64, bits: u32) -> (out: Vec<u8>)
    requires
        bits <= 64,
        forall|i: int| 0 <= i < 256 ==> i64::MIN <= upper - #[trigger] w[i] <= i64::MAX,
    ensures
        out@ == bits::packed(below(upper as int, transform::ints(w@)), bits as nat),
        out.len() == 32 * bits,
{
    let mut mapped: Vec<i64> = Vec::new();
    let mut i: usize = 0;
    while i < 256
        invariant
            i <= 256,
            mapped.len() == i,
            forall|i: int| 0 <= i < 256 ==> i64::MIN <= upper - #[trigger] w[i] <= i64::MAX,
            forall|j: int| 0 <= j < i ==> #[trigger] mapped[j] == upper - w[j],
        decreases 256 - i,
    {
        mapped.push(upper - w[i]);
        i = i + 1;
    }
    proof {
        assert(transform::ints(mapped@) =~= below(upper as int, transform::ints(w@)));
    }
    pack_bits(mapped.as_slice(), bits)
}

/// Reads 256 coefficients given by their distances below `upper`.
pub fn bit_unpack(v: &[u8], upper: i64, bits: u32) -> (out: [i64; N])
    requires
        bits <= 63,
        upper - pow2(bits as nat) + 1 >= i64::MIN,
    ensures
        transform::ints(out@) == below(upper as int, bits::unpacked(v@, bits as nat, 256)),
{
    let vals: Vec<i64> = unpack_bits(v, bits, 256);
    let ghost u = bits::unpacked(v@, bits as nat, 256);
    let mut out: [i64; 256] = [0i64; 256];
    let mut i: usize = 0;
    proof {
        assert(transform::ints(vals@).len() == 256);
        assert forall|j: int| 0 <= j < 256 implies #[trigger] vals[j] == u[j] && 0 <= u[j] < pow2(
            bits as nat,
        ) by {
            assert(transform::ints(vals@)[j] == u[j]);
            bits::lemma_bits_value_range(v@, j * bits, bits as nat);
        }
    }
    while i < 256
        invariant
            i <= 256,
            vals@.len() == 256,
            upper - pow2(bits as nat) + 1 >= i64::MIN,
            forall|j: int|
                0 <= j < 256 ==> #[trigger] vals[j] == u[j] && 0 <= u[j] < pow2(bits as nat),
            forall|j: int| 0 <= j < i ==> #[trigger] out[j] == upper - u[j],
        decreases 256 - i,
    {
        out[i] = upper - vals[i];
        i = i + 1;
    }
    proof {
        assert(transform::ints(out@) =~= below(upper as int, u));
    }
    out
}

/// Unpacking undoes packing: coefficients in `[0, 2^bits)` come back unchanged.
pub proof fn lemma_simple_bit_roundtrip(w: Seq<int>, bits: nat)
    requires
        forall|i: int| 0 <= i < w.len() ==> 0 <= #[trigger] w[i] < pow2(bits),
    ensures
        bits::unpacked(bits::packed(w, bits), bits, w.len()) == w,
{
    bits::lemma_unpack_packed(w, bits);
}

/// Unpacking undoes packing: coefficients in `(upper - 2^bits, upper]` come back
/// unchanged.
pub proof fn lemma_bit_roundtrip(w: Seq<int>, upper: int, bits: nat)
    requires
        forall|i: int| 0 <= i < w.len() ==> upper - pow2(bits) < #[trigger] w[i] <= upper,
    ensures
        below(
            upper,
            bits::unpacked(bits::packed(below(upper, w), bits), bits, w.len()),
        ) == w,
{
    let d = below(upper, w);
    bits::lemma_unpack_packed(d, bits);
    assert(below(upper, d) =~= w);
}

/// The polynomials packed at `bits` bits in consecutive chunks of `bytes` from `from`.
pub open spec fn chunk_polys(
    bytes: Seq<u8>,
    from: int,
    bits: nat,
    count: nat,
) -> Seq<Seq<int>> {
    Seq::new(
        count,
        |i: int|
            bits::unpacked(
                bytes.subrange(from + i * (32 * bits), from + (i + 1) * (32 * bits)),
                bits,
                256,
            ),
    )
}

/// Byte strings whose chunks hold the same polynomials are the same there.
pub proof fn lemma_chunks_injective(
    a: Seq<u8>,
    b: Seq<u8>,
    from: int,
    bits: nat,
    count: nat,
)
    requires
        0 < bits,
        0 <= from,
        from + count * (32 * bits) <= a.len(),
        from + count * (32 * bits) <= b.len(),
        chunk_polys(a, from, bits, count) == chunk_polys(b, from, bits, count),
    ensures
        forall|q: int| from <= q < from + count * (32 * bits) ==> a[q] == #[trigger] b[q],
{
    let w = (32 * bits) as int;
    assert forall|q: int| from <= q < from + count * (32 * bits) implies a[q] == #[trigger] b[q] by {
        let i = (q - from) / w;
        let k = (q - from) % w;
        lemma_fundamental_div_mod(q - from, w);
        assert(0 <= i < count && i * w + k == q - from && (i + 1) * w <= count * w && 0 <= i * w
            && (i + 1) * w == i * w + w) by (nonlinear_arith)
            requires
                q - from == w * i + k,
                0 <= q - from < count * w,
                0 <= k < w,
        ;
        let x = a.subrange(from + i * w, from + (i + 1) * w);
        let y = b.subrange(from + i * w, from + (i + 1) * w);
        assert(chunk_polys(a, from, bits, count)[i] == bits::unpacked(x, bits, 256));
        assert(chunk_polys(b, from, bits, count)[i] == bits::unpacked(y, bits, 256));
        bits::lemma_pack_unpacked(x, bits, 256);
        bits::lemma_pack_unpacked(y, bits, 256);
        assert(x[k] == y[k]);
    }
}

/// A public key has one encoding only: keys with the same seed and the same `t1` are the
/// same.
pub proof fn lemma_key_canonical(a: Seq<u8>, b: Seq<u8>)
    requires
        a.len() == PK_BYTES,
        b.len() == PK_BYTES,
        a.subrange(0, 32) == b.subrange(0, 32),
        chunk_polys(a, 32, T1_BITS as nat, K as nat) == chunk_polys(b, 32, T1_BITS as nat, K as nat),
    ensures
        a == b,
{
    assert(T1_BITS as nat == 10 && K as nat == 6);
    lemma_chunks_injective(a, b, 32, 10, 6);
    assert forall|q: int| 0 <= q < a.len() implies a[q] == b[q] by {
        if q < 32 {
            assert(a.subrange(0, 32)[q] == a[q]);
            assert(b.subrange(0, 32)[q] == b[q]);
        } else {
            assert(q < 32 + 6nat * (32 * 10nat));
        }
    }
    assert(a =~= b);
}

/// Decodes a public key into its seed and `t1`.
pub fn pk_decode(pk: &[u8]) -> (res: Result<([u8; 32], PolyVec), DecodeError>)
    ensures
        pk@.len() != PK_BYTES <==> res is Err,
        res matches Err(e) ==> e == (DecodeError::PublicKeyLength { got: pk@.len() as usize }),
        res matches Ok((rho, t1)) ==> {
            &&& rho@ == pk@.subrange(0, 32)
            &&& t1@ == chunk_polys(pk@, 32, T1_BITS as nat, K as nat)
            &&& t1.wf()
        },
{
    if pk.len() != PK_BYTES {
        return Err(DecodeError::PublicKeyLength { got: pk.len() });
    }
    let mut rho: [u8; 32] = [0u8; 32];
    let mut i: usize = 0;
    while i < 32
        invariant
            i <= 32,
            pk@.len() == PK_BYTES,
            forall|j: int| 0 <= j < i ==> rho[j] == pk[j],
        decreases 32 - i,
    {
        rho[i] = pk[i];
        i = i + 1;
    }
    let ghost goal = chunk_polys(pk@, 32, T1_BITS as nat, K as nat);
    let mut t1: Vec<Poly> = Vec::new();
    let mut r: usize = 0;
    while r < K
        invariant
            r <= K,
            pk@.len() == PK_BYTES,
            goal == chunk_polys(pk@, 32, T1_BITS as nat, K as nat),
            t1.len() == r,
            forall|j: int| 0 <= j < r ==> (#[trigger] t1[j])@ == goal[j] && t1[j].wf(),
        decreases K - r,
    {
        let chunk: &[u8] = slice_subrange(pk, 32 + r * 320, 32 + (r + 1) * 320);
        let p = Poly::from_coeffs(simple_bit_unpack(chunk, T1_BITS));
        proof {
            assert forall|j: int| 0 <= j < 256 implies 0 <= #[trigger] p@[j] < 8380417 by {
                bits::lemma_bits_value_range(chunk@, j * 10, 10);
                lemma2_to64();
            }
            assert(p@ == goal[r as int]);
        }
        t1.push(p);
        r = r + 1;
    }
    let v = PolyVec(t1);
    proof {
        assert(rho@ =~= pk@.subrange(0, 32));
        assert(v@ =~= goal);
    }
    Ok((rho, v))
}

/// The response vector in a signature.
pub open spec fn sig_z(sig: Seq<u8>) -> Seq<Seq<int>> {
    let packed = chunk_polys(sig, LAMBDA_BYTES as int, Z_BITS as nat, L as nat);
    Seq::new(L as nat, |j: int| below(GAMMA1 as int, packed[j]))
}

/// The hint bytes of a signature.
pub open spec fn sig_hint_bytes(sig: Seq<u8>) -> Seq<u8> {
    sig.subrange(3248, 3309)
}

/// A signature has one encoding only: well-formed signatures with the same challenge seed,
/// the same response and the same hint are the same.
pub proof fn lemma_signature_canonical(a: Seq<u8>, b: Seq<u8>)
    requires
        a.len() == SIG_BYTES,
        b.len() == SIG_BYTES,
        hints::hint_fault(sig_hint_bytes(a)) is None,
        hints::hint_fault(sig_hint_bytes(b)) is None,
        a.subrange(0, LAMBDA_BYTES as int) == b.subrange(0, LAMBDA_BYTES as int),
        sig_z(a) == sig_z(b),
        hints::hint_matrix(sig_hint_bytes(a)) == hints::hint_matrix(sig_hint_bytes(b)),
    ensures
        a == b,
{
    let x = chunk_polys(a, 48, 20, 5);
    let y = chunk_polys(b, 48, 20, 5);
    assert forall|j: int| 0 <= j < 5 implies x[j] == y[j] by {
        assert(below(GAMMA1 as int, below(GAMMA1 as int, x[j])) =~= x[j]);
        assert(below(GAMMA1 as int, below(GAMMA1 as int, y[j])) =~= y[j]);
        assert(sig_z(a)[j] == below(GAMMA1 as int, x[j]));
        assert(sig_z(b)[j] == below(GAMMA1 as int, y[j]));
    }
    assert(x =~= y);
    lemma_chunks_injective(a, b, 48, 20, 5);
    hints::lemma_hint_valid(sig_hint_bytes(a));
    hints::lemma_hint_valid(sig_hint_bytes(b));
    hints::lemma_hint_canonical(sig_hint_bytes(a), sig_hint_bytes(b));
    assert forall|q: int| 0 <= q < a.len() implies a[q] == b[q] by {
        if q < 48 {
            assert(a.subrange(0, 48)[q] == b.subrange(0, 48)[q]);
        } else if q >= 3248 {
            assert(sig_hint_bytes(a)[q - 3248] == sig_hint_bytes(b)[q - 3248]);
        } else {
            assert(q < 48 + 5nat * (32 * 20nat));
        }
    }
    assert(a =~= b);
}

/// Decodes a signature into the challenge seed, the response vector and the hints.
pub fn sig_decode(sig: &[u8]) -> (res: Result<(Vec<u8>, PolyVec, Vec<Vec<bool>>), DecodeError>)
    ensures
        sig@.len() != SIG_BYTES ==> res == Err::<(Vec<u8>, PolyVec, Vec<Vec<bool>>), DecodeError>(
            DecodeError::SignatureLength { got: sig@.len() as usize },
        ),
        sig@.len() == SIG_BYTES ==> match hints::hint_fault(sig_hint_bytes(sig@)) {
            Some(e) => res == Err::<(Vec<u8>, PolyVec, Vec<Vec<bool>>), DecodeError>(e),
            None => res is Ok,
        },
        res matches Ok((c_tilde, z, h)) ==> {
            &&& c_tilde@ == sig@.subrange(0, LAMBDA_BYTES as int)
            &&& z@ == sig_z(sig@)
            &&& polyvec::hint_rows(h@) == hints::hint_matrix(sig_hint_bytes(sig@))
        },
{
    if sig.len() != SIG_BYTES {
        return Err(DecodeError::SignatureLength { got: sig.len() });
    }
    let c_tilde: Vec<u8> = bytes::to_vec(slice_subrange(sig, 0, LAMBDA_BYTES));
    let ghost goal = sig_z(sig@);
    let mut z: Vec<Poly> = Vec::new();
    let mut j: usize = 0;
    while j < L
        invariant
            j <= L,
            sig@.len() == SIG_BYTES,
            goal == sig_z(sig@),
            z.len() == j,
            forall|i: int| 0 <= i < j ==> (#[trigger] z[i])@ == goal[i],
        decreases L - j,
    {
        let off: usize = LAMBDA_BYTES + j * 640;
        let chunk: &[u8] = slice_subrange(sig, off, off + 640);
        proof {
            lemma2_to64();
        }
        let p = Poly::from_coeffs(bit_unpack(chunk, GAMMA1, Z_BITS));
        proof {
            assert(p@ == goal[j as int]);
        }
        z.push(p);
        j = j + 1;
    }
    let zv = PolyVec(z);
    proof {
        assert(zv@ =~= goal);
    }
    match hint_bit_unpack(slice_subrange(sig, 3248, 3309)) {
        Ok(h) => Ok((c_tilde, zv, h)),
        Err(e) => Err(e),
    }
}

/// Decodes the hint bytes: `OMEGA` positions followed by the ends of the `K` runs.
pub fn hint_bit_unpack(y: &[u8]) -> (res: Result<Vec<Vec<bool>>, DecodeError>)
    ensures
        match hints::hint_fault(y@) {
            Some(e) => res == Err::<Vec<Vec<bool>>, DecodeError>(e),
            None => res is Ok,
        },
        res matches Ok(h) ==> polyvec::hint_rows(h@) == hints::hint_matrix(y@),
{
    if y.len() != OMEGA + K {
        return Err(DecodeError::HintLength { got: y.len() });
    }
    let mut h: Vec<Vec<bool>> = Vec::new();
    let mut k: usize = 0;
    let mut i: usize = 0;
    while i < K
        invariant
            i <= K,
            y@.len() == OMEGA + K,
            k == hints::run_start(y@, i as int),
            k <= OMEGA,
            hints::hint_fault(y@) == hints::fault_from(y@, i as nat),
            h.len() == i,
            forall|r: int| 0 <= r < i ==> (#[trigger] h[r])@ == hints::hint_matrix(y@)[r],
        decreases K - i,
    {
        let ki: usize = y[OMEGA + i] as usize;
        if ki < k || ki > OMEGA {
            return Err(DecodeError::HintOffset { row: i, start: k, offset: ki });
        }
        let mut row: Vec<bool> = Vec::new();
        let mut n: usize = 0;
        while n < 256
            invariant
                n <= 256,
                row.len() == n,
                forall|j: int| 0 <= j < n ==> !row[j],
            decreases 256 - n,
        {
            row.push(false);
            n = n + 1;
        }
        let mut p: usize = k;
        while p < ki
            invariant
                i < K,
                y@.len() == OMEGA + K,
                k == hints::run_start(y@, i as int),
                ki == hints::run_end(y@, i as int),
                k <= p <= ki <= OMEGA,
                hints::hint_fault(y@) == hints::fault_from(y@, i as nat),
                hints::order_fault(y@, k as int, k as int, ki as int) == hints::order_fault(
                    y@,
                    k as int,
                    p as int,
                    ki as int,
                ),
                row.len() == 256,
                forall|j: int|
                    0 <= j < 256 ==> (#[trigger] row[j] <==> hints::in_run(
                        y@,
                        k as int,
                        p as int,
                        j,
                    )),
            decreases ki - p,
        {
            let idx: u8 = y[p];
            if p > k && idx <= y[p - 1] {
                return Err(DecodeError::HintOrder { pos: p });
            }
            let ghost before = row@;
            row.set(idx as usize, true);
            proof {
                assert forall|j: int| 0 <= j < 256 implies (#[trigger] row[j] <==> hints::in_run(
                    y@,
                    k as int,
                    p + 1,
                    j,
                )) by {
                    assert(before[j] <==> hints::in_run(y@, k as int, p as int, j));
                    if row[j] {
                        if j == idx {
                            assert(y@[p as int] as int == j);
                        } else {
                            let w = choose|w: int| k <= w < p && #[trigger] y@[w] as int == j;
                            assert(y@[w] as int == j);
                        }
                    }
                }
            }
            p = p + 1;
        }
        proof {
            assert(row@ =~= hints::hint_matrix(y@)[i as int]);
        }
        h.push(row);
        k = ki;
        i = i + 1;
    }
    let mut j: usize = k;
    while j < OMEGA
        invariant
            y@.len() == OMEGA + K,
            k <= j <= OMEGA,
            hints::hint_fault(y@) == hints::padding_fault(y@, j as int),
        decreases OMEGA - j,
    {
        if y[j] != 0 {
            return Err(DecodeError::HintPadding { pos: j });
        }
        j = j + 1;
    }
    proof {
        assert(polyvec::hint_rows(h@) =~= hints::hint_matrix(y@));
    }
    Ok(h)
}

/// The encodings of the polynomials `v[0], .., v[n-1]`, one after the other.
pub open spec fn w1_bytes(v: Seq<Seq<int>>, n: nat) -> Seq<u8>
    decreases n,
{
    if n == 0 {
        seq![]
    } else {
        w1_bytes(v, (n - 1) as nat) + bits::packed(v[n - 1], W1_BITS as nat)
    }
}

/// Encodes a vector at four bits per coefficient.
pub fn w1_encode(w1: &PolyVec) -> (out: Vec<u8>)
    ensures
        out@ == w1_bytes(w1@, w1@.len()),
        out@.len() == 128 * w1@.len(),
{
    let mut out: Vec<u8> = Vec::new();
    let mut i: usize = 0;
    while i < w1.0.len()
        invariant
            i <= w1.0.len(),
            out@ == w1_bytes(w1@, i as nat),
            out@.len() == 128 * i,
        decreases w1.0.len() - i,
    {
        let mut p: Vec<u8> = simple_bit_pack(&w1.0[i].coeffs, W1_BITS);
        out.append(&mut p);
        i = i + 1;
    }
    out
}

} // verus!
