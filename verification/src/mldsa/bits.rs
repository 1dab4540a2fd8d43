//! Bit strings: how numbers are laid out in bytes at a fixed number of bits each,
//! least significant bit first.
use vstd::arithmetic::div_mod::*;
use vstd::arithmetic::power2::*;
use vstd::prelude::*;

verus! {

/// Bit `b` of `v`; for negative `v` that of its two's complement.
pub open spec fn bit_of(v: int, b: nat) -> int {
    (v / (pow2(b) as int)) % 2
}

/// Bit `pos` of a byte string; bits behind its end are zero.
pub open spec fn bit_at(bytes: Seq<u8>, pos: int) -> int {
    if 0 <= pos / 8 < bytes.len() {
        bit_of(bytes[pos / 8] as int, (pos % 8) as nat)
    } else {
        0
    }
}

/// The number with the bits `start .. start + n` of a byte string.
pub open spec fn bits_value(bytes: Seq<u8>, start: int, n: nat) -> int
    decreases n,
{
    if n == 0 {
        0
    } else {
        bits_value(bytes, start, (n - 1) as nat) + bit_at(bytes, start + n - 1) * pow2(
            (n - 1) as nat,
        )
    }
}

/// The `count` numbers of `bits` bits each in a byte string.
pub open spec fn unpacked(bytes: Seq<u8>, bits: nat, count: nat) -> Seq<int> {
    Seq::new(count, |i: int| bits_value(bytes, i * bits, bits))
}

/// Bit `pos` of the numbers `v` laid out at `bits` bits each; zero behind the end.
pub open spec fn stream_bit(v: Seq<int>, bits: nat, pos: int) -> int {
    if 0 <= pos < v.len() * bits {
        bit_of(v[pos / (bits as int)], (pos % (bits as int)) as nat)
    } else {
        0
    }
}

/// Byte `k` of the numbers `v` laid out at `bits` bits each.
pub open spec fn stream_byte(v: Seq<int>, bits: nat, k: int) -> int {
    stream_bit(v, bits, 8 * k) + 2 * stream_bit(v, bits, 8 * k + 1) + 4 * stream_bit(
        v,
        bits,
        8 * k + 2,
    ) + 8 * stream_bit(v, bits, 8 * k + 3) + 16 * stream_bit(v, bits, 8 * k + 4) + 32 * stream_bit(
        v,
        bits,
        8 * k + 5,
    ) + 64 * stream_bit(v, bits, 8 * k + 6) + 128 * stream_bit(v, bits, 8 * k + 7)
}

/// The numbers `v` laid out at `bits` bits each, in the fewest bytes that hold them.
pub open spec fn packed(v: Seq<int>, bits: nat) -> Seq<u8> {
    Seq::new(((v.len() * bits + 7) / 8) as nat, |k: int| stream_byte(v, bits, k) as u8)
}

pub proof fn lemma_bit_of_range(v: int, b: nat)
    ensures
        0 <= bit_of(v, b) <= 1,
{
}

pub proof fn lemma_stream_bit_range(v: Seq<int>, bits: nat, pos: int)
    ensures
        0 <= stream_bit(v, bits, pos) <= 1,
{
}

pub proof fn lemma_stream_byte_range(v: Seq<int>, bits: nat, k: int)
    ensures
        0 <= stream_byte(v, bits, k) < 256,
{
    lemma_stream_bit_range(v, bits, 8 * k);
    lemma_stream_bit_range(v, bits, 8 * k + 1);
    lemma_stream_bit_range(v, bits, 8 * k + 2);
    lemma_stream_bit_range(v, bits, 8 * k + 3);
    lemma_stream_bit_range(v, bits, 8 * k + 4);
    lemma_stream_bit_range(v, bits, 8 * k + 5);
    lemma_stream_bit_range(v, bits, 8 * k + 6);
    lemma_stream_bit_range(v, bits, 8 * k + 7);
}

proof fn lemma_byte_bits(
    b0: int,
    b1: int,
    b2: int,
    b3: int,
    b4: int,
    b5: int,
    b6: int,
    b7: int,
)
    requires
        0 <= b0 <= 1,
        0 <= b1 <= 1,
        0 <= b2 <= 1,
        0 <= b3 <= 1,
        0 <= b4 <= 1,
        0 <= b5 <= 1,
        0 <= b6 <= 1,
        0 <= b7 <= 1,
    ensures
        ({
            let x = b0 + 2 * b1 + 4 * b2 + 8 * b3 + 16 * b4 + 32 * b5 + 64 * b6 + 128 * b7;
            &&& x % 2 == b0
            &&& (x / 2) % 2 == b1
            &&& (x / 4) % 2 == b2
            &&& (x / 8) % 2 == b3
            &&& (x / 16) % 2 == b4
            &&& (x / 32) % 2 == b5
            &&& (x / 64) % 2 == b6
            &&& (x / 128) % 2 == b7
        }),
{
    let x6 = b6 + 2 * b7;
    let x5 = b5 + 2 * x6;
    let x4 = b4 + 2 * x5;
    let x3 = b3 + 2 * x4;
    let x2 = b2 + 2 * x3;
    let x1 = b1 + 2 * x2;
    let x = b0 + 2 * x1;
    assert(x / 2 == x1);
    assert(x / 4 == x2);
    assert(x / 8 == x3);
    assert(x / 16 == x4);
    assert(x / 32 == x5);
    assert(x / 64 == x6);
    assert(x / 128 == b7);
}

/// Packing lays out exactly the stream's bits.
pub proof fn lemma_packed_bits(v: Seq<int>, bits: nat, pos: int)
    requires
        pos >= 0,
    ensures
        bit_at(packed(v, bits), pos) == stream_bit(v, bits, pos),
{
    let p = packed(v, bits);
    let k = pos / 8;
    let j = pos % 8;
    assert(v.len() * bits >= 0) by (nonlinear_arith);
    if k < p.len() {
        lemma_stream_byte_range(v, bits, k);
        lemma2_to64();
        lemma_stream_bit_range(v, bits, 8 * k);
        lemma_stream_bit_range(v, bits, 8 * k + 1);
        lemma_stream_bit_range(v, bits, 8 * k + 2);
        lemma_stream_bit_range(v, bits, 8 * k + 3);
        lemma_stream_bit_range(v, bits, 8 * k + 4);
        lemma_stream_bit_range(v, bits, 8 * k + 5);
        lemma_stream_bit_range(v, bits, 8 * k + 6);
        lemma_stream_bit_range(v, bits, 8 * k + 7);
        lemma_byte_bits(
            stream_bit(v, bits, 8 * k),
            stream_bit(v, bits, 8 * k + 1),
            stream_bit(v, bits, 8 * k + 2),
            stream_bit(v, bits, 8 * k + 3),
            stream_bit(v, bits, 8 * k + 4),
            stream_bit(v, bits, 8 * k + 5),
            stream_bit(v, bits, 8 * k + 6),
            stream_bit(v, bits, 8 * k + 7),
        );
        let x = stream_byte(v, bits, k);
        assert(p[k] == x);
        assert(x / 1 == x);
        assert(pos == 8 * k + j);
    }
}

/// The lowest `n` bits of `x` make up `x` modulo `2^n`.
proof fn lemma_low_bits(bytes: Seq<u8>, start: int, n: nat, x: int)
    requires
        x >= 0,
        forall|b: int| 0 <= b < n ==> bit_at(bytes, #[trigger] (start + b)) == bit_of(x, b as nat),
    ensures
        bits_value(bytes, start, n) == x % (pow2(n) as int),
    decreases n,
{
    lemma2_to64();
    if n > 0 {
        let m = (n - 1) as nat;
        lemma_low_bits(bytes, start, m, x);
        let w = pow2(m) as int;
        lemma_pow2_pos(m);
        lemma_pow2_unfold(n);
        assert(bit_at(bytes, start + m as int) == bit_of(x, m));
        assert(start + m as int == start + n - 1);
        lemma_mod_breakdown(x, w, 2);
        assert(w * 2 == pow2(n));
        assert(bit_of(x, m) * w == w * ((x / w) % 2)) by (nonlinear_arith)
            requires
                bit_of(x, m) == (x / w) % 2,
        ;
    }
}

/// Unpacking undoes packing, for numbers in `[0, 2^bits)`.
pub proof fn lemma_unpack_packed(v: Seq<int>, bits: nat)
    requires
        forall|i: int| 0 <= i < v.len() ==> 0 <= #[trigger] v[i] < pow2(bits),
    ensures
        unpacked(packed(v, bits), bits, v.len()) == v,
{
    let p = packed(v, bits);
    assert forall|i: int| 0 <= i < v.len() implies unpacked(p, bits, v.len())[i] == v[i] by {
        let start = i * bits;
        assert forall|b: int| 0 <= b < bits implies bit_at(p, #[trigger] (start + b)) == bit_of(
            v[i],
            b as nat,
        ) by {
            let pos = start + b;
            assert(0 <= start && pos < v.len() * bits) by (nonlinear_arith)
                requires
                    start == i * bits,
                    0 <= i,
                    i + 1 <= v.len(),
                    pos == start + b,
                    0 <= b < bits,
            ;
            lemma_packed_bits(v, bits, pos);
            lemma_fundamental_div_mod_converse(pos, bits as int, i, b);
        }
        lemma_low_bits(p, start, bits, v[i]);
        lemma_small_mod(v[i] as nat, pow2(bits));
    }
    assert(unpacked(p, bits, v.len()) =~= v);
}

/// A number read from `n` bits is below `2^n`.
pub proof fn lemma_bits_value_range(bytes: Seq<u8>, start: int, n: nat)
    ensures
        0 <= bits_value(bytes, start, n) < pow2(n),
    decreases n,
{
    lemma2_to64();
    if n > 0 {
        let m = (n - 1) as nat;
        lemma_bits_value_range(bytes, start, m);
        lemma_pow2_unfold(n);
        lemma_bit_at_range(bytes, start + n - 1);
        let c = bit_at(bytes, start + n - 1);
        assert(0 <= c * pow2(m) <= pow2(m)) by (nonlinear_arith)
            requires
                0 <= c <= 1,
                0 <= pow2(m),
        ;
    }
}

pub proof fn lemma_bit_at_range(bytes: Seq<u8>, pos: int)
    ensures
        0 <= bit_at(bytes, pos) <= 1,
{
}

/// The bits of a number read from a byte string are those of the string.
proof fn lemma_bits_of_value(bytes: Seq<u8>, start: int, n: nat, b: nat)
    requires
        b < n,
    ensures
        bit_of(bits_value(bytes, start, n), b) == bit_at(bytes, start + b),
    decreases n,
{
    let m = (n - 1) as nat;
    let lo = bits_value(bytes, start, m);
    let c = bit_at(bytes, start + n - 1);
    let w = pow2(m) as int;
    lemma_bits_value_range(bytes, start, m);
    lemma_bit_at_range(bytes, start + n - 1);
    lemma_pow2_pos(m);
    if b == m {
        lemma_fundamental_div_mod_converse(lo + c * w, w, c, lo);
    } else {
        lemma_bits_of_value(bytes, start, m, b);
        let u = pow2(b) as int;
        lemma_pow2_pos(b);
        let t = pow2((m - b - 1) as nat) as int;
        lemma_pow2_adds(b + 1, (m - b - 1) as nat);
        lemma_pow2_unfold(b + 1);
        assert(w == u * (2 * t)) by (nonlinear_arith)
            requires
                w == (2 * u) * t,
        ;
        let q = lo / u;
        let r = lo % u;
        lemma_fundamental_div_mod(lo, u);
        assert(lo + c * w == (q + c * (2 * t)) * u + r) by (nonlinear_arith)
            requires
                lo == u * q + r,
                w == u * (2 * t),
        ;
        lemma_fundamental_div_mod_converse(lo + c * w, u, q + c * (2 * t), r);
        assert(c * (2 * t) == 2 * (c * t)) by (nonlinear_arith);
    }
}

/// Packing undoes unpacking, for byte strings without left-over bits.
pub proof fn lemma_pack_unpacked(bytes: Seq<u8>, bits: nat, count: nat)
    requires
        bits > 0,
        bytes.len() * 8 == count * bits,
    ensures
        packed(unpacked(bytes, bits, count), bits) == bytes,
{
    let v = unpacked(bytes, bits, count);
    let p = packed(v, bits);
    assert(p.len() == bytes.len());
    assert forall|k: int| 0 <= k < p.len() implies p[k] == bytes[k] by {
        assert forall|pos: int| 8 * k <= pos < 8 * k + 8 implies #[trigger] stream_bit(v, bits, pos)
            == bit_at(bytes, pos) by {
            let i = pos / (bits as int);
            let b = pos % (bits as int);
            lemma_fundamental_div_mod(pos, bits as int);
            assert(0 <= i < count) by (nonlinear_arith)
                requires
                    pos == bits * i + b,
                    0 <= pos < count * bits,
                    0 <= b < bits,
            ;
            lemma_bits_of_value(bytes, i * bits, bits, b as nat);
            assert(i * bits + b == pos) by (nonlinear_arith)
                requires
                    pos == bits * i + b,
            ;
        }
        lemma_byte_from_bits(bytes[k]);
        lemma2_to64();
        let x = bytes[k] as int;
        assert(x / 1 == x);
        lemma_positions_in_byte(k);
        assert(stream_byte(v, bits, k) == x);
    }
    assert(p =~= bytes);
}

proof fn lemma_positions_in_byte(k: int)
    ensures
        forall|j: int| 0 <= j < 8 ==> #[trigger] (8 * k + j) / 8 == k && (8 * k + j) % 8 == j,
        (8 * k) / 8 == k && (8 * k) % 8 == 0,
{
}

proof fn lemma_byte_from_bits(x: u8)
    ensures
        x as int == x as int % 2 + 2 * ((x as int / 2) % 2) + 4 * ((x as int / 4) % 2) + 8 * ((
        x as int / 8) % 2) + 16 * ((x as int / 16) % 2) + 32 * ((x as int / 32) % 2) + 64 * ((
        x as int / 64) % 2) + 128 * ((x as int / 128) % 2),
{
    let v = x as int;
    assert(v / 4 == (v / 2) / 2);
    assert(v / 8 == (v / 4) / 2);
    assert(v / 16 == (v / 8) / 2);
    assert(v / 32 == (v / 16) / 2);
    assert(v / 64 == (v / 32) / 2);
    assert(v / 128 == (v / 64) / 2);
    assert(0 <= v / 128 <= 1);
}

} // verus!
