//! What the encodings and the arithmetic give, coefficient by coefficient, in plain numbers.
use crate::mldsa::bits;
use crate::mldsa::encoding;
use crate::mldsa::params::{K, L, T1_BITS, W1_BITS, Z_BITS};
use crate::mldsa::sampling;
use crate::mldsa::xof;
use vstd::arithmetic::div_mod::*;
use vstd::arithmetic::mul::*;
use vstd::arithmetic::power2::*;
use vstd::prelude::*;

verus! {

/// Bits that lie in one byte are a digit of it.
proof fn lemma_bits_in_byte(bytes: Seq<u8>, q: int, s: nat, n: nat)
    requires
        0 <= q < bytes.len(),
        s + n <= 8,
    ensures
        bits::bits_value(bytes, 8 * q + s, n) == (bytes[q] as int / (pow2(s) as int)) % (pow2(
            n,
        ) as int),
    decreases n,
{
    let v = bytes[q] as int;
    lemma2_to64();
    lemma_pow2_pos(s);
    if n > 0 {
        let m = (n - 1) as nat;
        lemma_bits_in_byte(bytes, q, s, m);
        lemma_pow2_pos(m);
        lemma_pow2_adds(s, m);
        lemma_pow2_unfold(n);
        let x = v / (pow2(s) as int);
        lemma_div_pos_is_pos(v, pow2(s) as int);
        lemma_div_denominator(v, pow2(s) as int, pow2(m) as int);
        lemma_mod_breakdown(x, pow2(m) as int, 2);
        let pos = 8 * q + s + n - 1;
        assert(pos / 8 == q && pos % 8 == s + m);
        assert(bits::bit_at(bytes, pos) == (v / (pow2((s + m) as nat) as int)) % 2);
        assert(pow2(n) as int == pow2(m) as int * 2);
        assert((x / (pow2(m) as int)) % 2 * pow2(m) == pow2(m) as int * ((x / (pow2(m) as int))
            % 2)) by (nonlinear_arith);
    } else {
        lemma_small_mod(0, 1);
    }
}

/// The bits of a stretch are those of its two parts.
proof fn lemma_bits_split(bytes: Seq<u8>, start: int, n: nat, m: nat)
    ensures
        bits::bits_value(bytes, start, n + m) == bits::bits_value(bytes, start, n) + pow2(n)
            * bits::bits_value(bytes, start + n, m),
    decreases m,
{
    if m > 0 {
        let k = (m - 1) as nat;
        lemma_bits_split(bytes, start, n, k);
        lemma_pow2_adds(n, k);
        let b = bits::bit_at(bytes, start + n + k);
        let x = bits::bits_value(bytes, start + n, k);
        assert((n + m - 1) as nat == n + k);
        assert(pow2(n) * (x + b * pow2(k)) == pow2(n) * x + b * (pow2(n) * pow2(k)))
            by (nonlinear_arith);
    } else {
        assert(pow2(n) * 0 == 0);
    }
}

/// Ten bits from an even place in a byte are the rest of that byte and the start of the
/// next one.
proof fn lemma_ten_bits(bytes: Seq<u8>, q: int, s: nat)
    requires
        0 <= q,
        q + 1 < bytes.len(),
        s == 0 || s == 2 || s == 4 || s == 6,
    ensures
        s == 0 ==> bits::bits_value(bytes, 8 * q + s, 10) == bytes[q] + 256 * (bytes[q + 1] as int
            % 4),
        s == 2 ==> bits::bits_value(bytes, 8 * q + s, 10) == bytes[q] as int / 4 + 64 * (bytes[q
            + 1] as int % 16),
        s == 4 ==> bits::bits_value(bytes, 8 * q + s, 10) == bytes[q] as int / 16 + 16 * (bytes[q
            + 1] as int % 64),
        s == 6 ==> bits::bits_value(bytes, 8 * q + s, 10) == bytes[q] as int / 64 + 4 * bytes[q
            + 1],
{
    lemma2_to64();
    let n = (8 - s) as nat;
    let m = (2 + s) as nat;
    lemma_bits_split(bytes, 8 * q + s, n, m);
    lemma_bits_in_byte(bytes, q, s, n);
    lemma_bits_in_byte(bytes, q + 1, 0, m);
    assert(8 * q + s + n == 8 * (q + 1) + 0nat);
    assert(n + m == 10);
}

/// The public vector in a key: six polynomials behind the seed, each of 64 groups of four
/// coefficients in five bytes.
pub proof fn lemma_key_coefficients(pk: Seq<u8>, r: int, g: int)
    requires
        pk.len() == 1952,
        0 <= r < 6,
        0 <= g < 64,
    ensures
        ({
            let t1 = encoding::chunk_polys(pk, 32, T1_BITS as nat, K as nat);
            let o = 32 + 320 * r + 5 * g;
            &&& t1.len() == 6
            &&& t1[r].len() == 256
            &&& t1[r][4 * g] == pk[o] + 256 * (pk[o + 1] as int % 4)
            &&& t1[r][4 * g + 1] == pk[o + 1] as int / 4 + 64 * (pk[o + 2] as int % 16)
            &&& t1[r][4 * g + 2] == pk[o + 2] as int / 16 + 16 * (pk[o + 3] as int % 64)
            &&& t1[r][4 * g + 3] == pk[o + 3] as int / 64 + 4 * pk[o + 4]
        }),
{
    let t1 = encoding::chunk_polys(pk, 32, T1_BITS as nat, K as nat);
    let chunk = pk.subrange(32 + r * 320, 32 + (r + 1) * 320);
    assert(T1_BITS as nat == 10 && K as nat == 6);
    assert(32 + r * (32 * 10nat) == 32 + r * 320);
    assert(32 + (r + 1) * (32 * 10nat) == 32 + (r + 1) * 320);
    assert(t1[r] == bits::unpacked(chunk, 10, 256));
    lemma_ten_bits(chunk, 5 * g, 0);
    lemma_ten_bits(chunk, 5 * g + 1, 2);
    lemma_ten_bits(chunk, 5 * g + 2, 4);
    lemma_ten_bits(chunk, 5 * g + 3, 6);
    assert((4 * g) * 10nat == 8 * (5 * g) + 0nat);
    assert((4 * g + 1) * 10nat == 8 * (5 * g + 1) + 2nat);
    assert((4 * g + 2) * 10nat == 8 * (5 * g + 2) + 4nat);
    assert((4 * g + 3) * 10nat == 8 * (5 * g + 3) + 6nat);
}

/// The response in a signature: five polynomials behind the challenge seed, each of 128
/// pairs of coefficients in five bytes, as distances below `2^19`.
pub proof fn lemma_response_coefficients(sig: Seq<u8>, r: int, g: int)
    requires
        sig.len() == 3309,
        0 <= r < 5,
        0 <= g < 128,
    ensures
        ({
            let z = encoding::sig_z(sig);
            let o = 48 + 640 * r + 5 * g;
            &&& z.len() == 5
            &&& z[r].len() == 256
            &&& z[r][2 * g] == 524288 - (sig[o] + 256 * sig[o + 1] + 65536 * (sig[o + 2] as int
                % 16))
            &&& z[r][2 * g + 1] == 524288 - (sig[o + 2] as int / 16 + 16 * sig[o + 3] + 4096
                * sig[o + 4])
        }),
{
    let z = encoding::sig_z(sig);
    let chunk = sig.subrange(48 + r * 640, 48 + (r + 1) * 640);
    assert(Z_BITS as nat == 20 && L as nat == 5);
    assert(48 + r * (32 * 20nat) == 48 + r * 640);
    assert(48 + (r + 1) * (32 * 20nat) == 48 + (r + 1) * 640);
    assert(z[r] == encoding::below(524288, bits::unpacked(chunk, 20, 256)));
    lemma2_to64();
    lemma_bits_split(chunk, 40 * g, 16, 4);
    lemma_bits_split(chunk, 40 * g, 8, 8);
    lemma_bits_in_byte(chunk, 5 * g, 0, 8);
    lemma_bits_in_byte(chunk, 5 * g + 1, 0, 8);
    lemma_bits_in_byte(chunk, 5 * g + 2, 0, 4);
    lemma_bits_split(chunk, 40 * g + 20, 4, 16);
    lemma_bits_split(chunk, 40 * g + 24, 8, 8);
    lemma_bits_in_byte(chunk, 5 * g + 2, 4, 4);
    lemma_bits_in_byte(chunk, 5 * g + 3, 0, 8);
    lemma_bits_in_byte(chunk, 5 * g + 4, 0, 8);
    assert((2 * g) * 20nat == 40 * g);
    assert((2 * g + 1) * 20nat == 40 * g + 20);
    assert(40 * g == 8 * (5 * g) + 0nat);
    assert(40 * g + 8 == 8 * (5 * g + 1) + 0nat);
    assert(40 * g + 16 == 8 * (5 * g + 2) + 0nat);
    assert(40 * g + 20 == 8 * (5 * g + 2) + 4nat);
    assert(40 * g + 24 == 8 * (5 * g + 3) + 0nat);
    assert(40 * g + 32 == 8 * (5 * g + 4) + 0nat);
}

proof fn lemma_nibbles(v: Seq<int>, k: int)
    requires
        v.len() == 256,
        0 <= k < 128,
    ensures
        bits::packed(v, 4).len() == 128,
        bits::packed(v, 4)[k] as int == v[2 * k] % 16 + 16 * (v[2 * k + 1] % 16),
{
    lemma2_to64();
    let x = v[2 * k];
    let y = v[2 * k + 1];
    assert((8 * k) / 4 == 2 * k && (8 * k) % 4 == 0);
    assert((8 * k + 1) / 4 == 2 * k && (8 * k + 1) % 4 == 1);
    assert((8 * k + 2) / 4 == 2 * k && (8 * k + 2) % 4 == 2);
    assert((8 * k + 3) / 4 == 2 * k && (8 * k + 3) % 4 == 3);
    assert((8 * k + 4) / 4 == 2 * k + 1 && (8 * k + 4) % 4 == 0);
    assert((8 * k + 5) / 4 == 2 * k + 1 && (8 * k + 5) % 4 == 1);
    assert((8 * k + 6) / 4 == 2 * k + 1 && (8 * k + 6) % 4 == 2);
    assert((8 * k + 7) / 4 == 2 * k + 1 && (8 * k + 7) % 4 == 3);
    assert((x / 1) % 2 + 2 * ((x / 2) % 2) + 4 * ((x / 4) % 2) + 8 * ((x / 8) % 2) == x % 16);
    assert((y / 1) % 2 + 2 * ((y / 2) % 2) + 4 * ((y / 4) % 2) + 8 * ((y / 8) % 2) == y % 16);
}

/// The encoding of high parts: 128 bytes for each polynomial, four bits of two coefficients
/// in a byte, the earlier one in the lower half.
pub proof fn lemma_high_bytes(v: Seq<Seq<int>>, n: nat)
    requires
        n <= v.len(),
        forall|r: int| 0 <= r < n ==> (#[trigger] v[r]).len() == 256,
    ensures
        encoding::w1_bytes(v, n).len() == 128 * n,
        forall|r: int, k: int|
            0 <= r < n && 0 <= k < 128 ==> #[trigger] encoding::w1_bytes(v, n)[128 * r + k] as int
                == v[r][2 * k] % 16 + 16 * (v[r][2 * k + 1] % 16),
    decreases n,
{
    assert(W1_BITS as nat == 4);
    if n > 0 {
        let m = (n - 1) as nat;
        lemma_high_bytes(v, m);
        let old = encoding::w1_bytes(v, m);
        let x = encoding::w1_bytes(v, n);
        let p = bits::packed(v[m as int], 4);
        lemma_nibbles(v[m as int], 0);
        assert(x == old + p);
        assert forall|r: int, k: int| 0 <= r < n && 0 <= k < 128 implies #[trigger] x[128 * r
            + k] as int == v[r][2 * k] % 16 + 16 * (v[r][2 * k + 1] % 16) by {
            if r < m {
                assert(x[128 * r + k] == old[128 * r + k]);
            } else {
                lemma_nibbles(v[r], k);
                assert(x[128 * r + k] == p[k]);
            }
        }
    }
}

/// Candidate `t` for a coefficient in the SHAKE-128 stream for `seed`: 23 bits of three
/// bytes, lowest first.
pub open spec fn candidate(seed: Seq<u8>, t: int) -> int {
    xof::shake128_byte(seed, 3 * t) + 256 * xof::shake128_byte(seed, 3 * t + 1) + 65536 * (
    xof::shake128_byte(seed, 3 * t + 2) as int % 128)
}

proof fn lemma_candidates_skipped(bytes: Seq<u8>, s: nat, t: nat)
    requires
        s <= t,
        forall|u: int| s <= u < t ==> #[trigger] sampling::triple(bytes, u) >= 8380417,
    ensures
        sampling::accepted(bytes, t) == sampling::accepted(bytes, s),
    decreases t,
{
    if s < t {
        lemma_candidates_skipped(bytes, s, (t - 1) as nat);
        assert(sampling::triple(bytes, t - 1) >= 8380417);
    }
}

/// The numbers that are taken from a stretch of bytes are its candidates below 8380417, in
/// order: wherever `at` lists the places of such candidates and every earlier candidate that
/// is not listed is too large, the first ones taken are those listed.
pub proof fn lemma_candidates_taken(bytes: Seq<u8>, at: Seq<int>, k: nat)
    requires
        1 <= k <= at.len(),
        forall|i: int| 0 <= i < at.len() ==> 0 <= #[trigger] at[i],
        forall|i: int| 0 <= i < at.len() ==> sampling::triple(bytes, #[trigger] at[i]) < 8380417,
        forall|u: int|
            0 <= u < at[at.len() - 1] && !at.contains(u) ==> #[trigger] sampling::triple(bytes, u)
                >= 8380417,
        forall|i: int, j: int| 0 <= i < j < at.len() ==> #[trigger] at[i] < #[trigger] at[j],
    ensures
        sampling::accepted(bytes, (at[k - 1] + 1) as nat) == Seq::new(
            k,
            |i: int| sampling::triple(bytes, at[i]),
        ),
    decreases k,
{
    let last = at[k - 1];
    if k == 1 {
        assert forall|u: int| 0 <= u < last implies #[trigger] sampling::triple(bytes, u)
            >= 8380417 by {
            assert(!at.contains(u));
        }
        lemma_candidates_skipped(bytes, 0, last as nat);
    } else {
        lemma_candidates_taken(bytes, at, (k - 1) as nat);
        assert(at[k - 2] < at[k - 1]);
        assert forall|u: int| at[k - 2] + 1 <= u < last implies #[trigger] sampling::triple(
            bytes,
            u,
        ) >= 8380417 by {
            assert(!at.contains(u)) by {
                assert forall|j: int| 0 <= j < at.len() implies at[j] != u by {
                    if j < k - 2 {
                        assert(at[j] < at[k - 2]);
                    } else if j > k - 1 {
                        assert(at[k - 1] < at[j]);
                    }
                }
            }
            if k - 1 < at.len() - 1 {
                assert(at[k - 1] < at[at.len() - 1]);
            }
        }
        lemma_candidates_skipped(bytes, (at[k - 2] + 1) as nat, last as nat);
    }
    assert(sampling::accepted(bytes, (last + 1) as nat) =~= Seq::new(
        k,
        |i: int| sampling::triple(bytes, at[i]),
    ));
}

/// A sampled polynomial consists of the first 256 candidates below `Q`, in order: wherever
/// `at` lists the places of 256 such candidates and every candidate before the last place
/// that is not listed is too large, they are the coefficients.
pub proof fn lemma_sampled_coefficients(seed: Seq<u8>, at: Seq<int>)
    requires
        at.len() == 256,
        0 <= at[0],
        forall|i: int, j: int| 0 <= i < j < 256 ==> #[trigger] at[i] < #[trigger] at[j],
        forall|i: int| 0 <= i < 256 ==> candidate(seed, #[trigger] at[i]) < 8380417,
        forall|t: int|
            0 <= t < at[255] && !at.contains(t) ==> #[trigger] candidate(seed, t) >= 8380417,
    ensures
        xof::rej_poly(seed) == Seq::new(256, |i: int| candidate(seed, at[i])),
{
    let n = (at[255] + 1) as nat;
    let bytes = xof::shake128_stream(seed, 3 * n);
    assert forall|t: int| 0 <= t < n implies #[trigger] sampling::triple(bytes, t) == candidate(
        seed,
        t,
    ) by {}
    assert forall|i: int| 0 <= i < 256 implies 0 <= #[trigger] at[i] < n by {
        assert(at[0] <= at[i] <= at[255]);
    }
    assert forall|u: int| 0 <= u < at[at.len() - 1] && !at.contains(u) implies #[trigger]
        sampling::triple(bytes, u) >= 8380417 by {
        assert(candidate(seed, u) >= 8380417);
    }
    assert forall|i: int| 0 <= i < at.len() implies sampling::triple(bytes, #[trigger] at[i])
        < 8380417 by {
        assert(candidate(seed, at[i]) < 8380417);
    }
    lemma_candidates_taken(bytes, at, 256);
    assert(xof::rej_ready(seed, n));
    xof::lemma_rej_poly(seed, n);
    assert(xof::rej_poly(seed) =~= Seq::new(256, |i: int| candidate(seed, at[i])));
}

proof fn lemma_draws_skipped(bytes: Seq<u8>, s: nat, t: nat)
    requires
        s <= t,
        forall|u: int|
            s <= u < t ==> #[trigger] bytes[8 + u] as int > sampling::ball_after(bytes, s).next,
    ensures
        sampling::ball_after(bytes, t) == sampling::ball_after(bytes, s),
    decreases t,
{
    if s < t {
        lemma_draws_skipped(bytes, s, (t - 1) as nat);
        assert(bytes[8 + (t - 1)] as int > sampling::ball_after(bytes, s).next);
    }
}

/// Whether `y` is the challenge `x` after its `k`-th exchange, of place `207 + k` with the
/// place `d`.
pub open spec fn is_exchange(seed: Seq<u8>, k: int, d: int, x: Seq<int>, y: Seq<int>) -> bool {
    forall|i: int|
        0 <= i < 256 ==> #[trigger] y[i] == (if i == d {
            1 - 2 * ((xof::shake256_byte(seed, k / 8) as int / (pow2((k % 8) as nat) as int)) % 2)
        } else if i == 207 + k {
            x[d]
        } else {
            x[i]
        })
}

proof fn lemma_exchange(
    seed: Seq<u8>,
    bytes: Seq<u8>,
    k: int,
    d: int,
    b: sampling::Ball,
    y: Seq<int>,
)
    requires
        0 <= k < 49,
        0 <= d <= 207 + k,
        b.next == 207 + k,
        b.coeffs.len() == 256,
        y.len() == 256,
        8 <= bytes.len(),
        forall|i: int| 0 <= i < 8 ==> #[trigger] bytes[i] == xof::shake256_byte(seed, i),
        is_exchange(seed, k, d, b.coeffs, y),
    ensures
        sampling::ball_step(bytes, b, d).next == 208 + k,
        sampling::ball_step(bytes, b, d).coeffs == y,
{
    let sign = sampling::ball_sign(bytes, k);
    assert(0 <= k / 8 < 8);
    assert(bytes[k / 8] == xof::shake256_byte(seed, k / 8));
    let c = sampling::ball_step(bytes, b, d).coeffs;
    assert(c == b.coeffs.update(b.next, b.coeffs[d]).update(d, sign));
    assert forall|i: int| 0 <= i < 256 implies c[i] == y[i] by {}
    assert(c =~= y);
}

/// The place of the stream at which the `k`-th draw is first tried.
pub open spec fn earliest(at: Seq<int>, k: int) -> int {
    if k == 0 {
        8
    } else {
        at[k - 1] + 1
    }
}

/// Whether `states` are the contents of a challenge while it is drawn from the SHAKE-256
/// stream for `seed`, the `k`-th of them before the `k`-th draw that is not too large, which
/// stands at place `at[k]` of the stream.
pub open spec fn is_shuffle(seed: Seq<u8>, at: Seq<int>, states: Seq<Seq<int>>) -> bool {
    &&& at.len() == 49
    &&& states.len() == 50
    &&& forall|k: int| 0 <= k < 50 ==> (#[trigger] states[k]).len() == 256
    &&& forall|i: int| 0 <= i < 256 ==> #[trigger] states[0][i] == 0
    &&& at[0] >= 8
    &&& forall|j: int, k: int| 0 <= j < k < 49 ==> #[trigger] at[j] < #[trigger] at[k]
    &&& forall|k: int| 0 <= k < 49 ==> xof::shake256_byte(seed, #[trigger] at[k]) <= 207 + k
    &&& forall|k: int, u: int|
        0 <= k < 49 && #[trigger] earliest(at, k) <= u < at[k] ==> #[trigger] xof::shake256_byte(
            seed,
            u,
        ) > 207 + k
    &&& forall|k: int|
        0 <= k < 49 ==> #[trigger] is_exchange(
            seed,
            k,
            xof::shake256_byte(seed, at[k]) as int,
            states[k],
            states[k + 1],
        )
}

proof fn lemma_one_draw(
    seed: Seq<u8>,
    bytes: Seq<u8>,
    j: int,
    s: nat,
    t: nat,
    x: Seq<int>,
    y: Seq<int>,
)
    requires
        0 <= j < 49,
        s <= t,
        8 <= bytes.len(),
        forall|i: int| 0 <= i < 8 ==> #[trigger] bytes[i] == xof::shake256_byte(seed, i),
        sampling::ball_after(bytes, s) == (sampling::Ball { next: 207 + j, coeffs: x }),
        x.len() == 256,
        y.len() == 256,
        forall|u: int| s <= u < t ==> #[trigger] bytes[8 + u] > 207 + j,
        bytes[8 + t as int] <= 207 + j,
        is_exchange(seed, j, bytes[8 + t as int] as int, x, y),
    ensures
        sampling::ball_after(bytes, t + 1) == (sampling::Ball { next: 208 + j, coeffs: y }),
{
    lemma_draws_skipped(bytes, s, t);
    lemma_exchange(seed, bytes, j, bytes[8 + t as int] as int, sampling::ball_after(bytes, s), y);
}

proof fn lemma_shuffle_skips(seed: Seq<u8>, at: Seq<int>, states: Seq<Seq<int>>, j: int, x: int)
    requires
        is_shuffle(seed, at, states),
        0 <= j < 49,
        8 <= x < at[j],
        0 < j ==> at[j - 1] < x,
    ensures
        xof::shake256_byte(seed, x) > 207 + j,
{
    assert(earliest(at, j) <= x < at[j]);
    assert(xof::shake256_byte(seed, x) > 207 + j);
}

proof fn lemma_shuffled(
    seed: Seq<u8>,
    at: Seq<int>,
    states: Seq<Seq<int>>,
    bytes: Seq<u8>,
    k: nat,
)
    requires
        is_shuffle(seed, at, states),
        1 <= k <= 49,
        bytes == xof::shake256_stream(seed, (at[48] + 1) as nat),
    ensures
        at[k - 1] >= 8,
        sampling::ball_after(bytes, (at[k - 1] - 7) as nat) == (sampling::Ball {
            next: 207 + k as int,
            coeffs: states[k as int],
        }),
    decreases k,
{
    let j = k - 1;
    let p = at[j];
    assert(8 <= at[0] <= p <= at[48]);
    let s: int = if j == 0 {
        0
    } else {
        at[j - 1] - 7
    };
    if j == 0 {
        assert(sampling::ball_start().coeffs =~= states[0]);
    } else {
        lemma_shuffled(seed, at, states, bytes, j as nat);
        assert(at[j - 1] < p);
    }
    let t = p - 8;
    assert forall|u: int| s <= u < t implies #[trigger] bytes[8 + u] > 207 + j by {
        lemma_shuffle_skips(seed, at, states, j, 8 + u);
    }
    assert(bytes[8 + t] == xof::shake256_byte(seed, at[j]));
    assert(xof::shake256_byte(seed, at[j]) <= 207 + j);
    assert(is_exchange(
        seed,
        j,
        xof::shake256_byte(seed, at[j]) as int,
        states[j],
        states[j + 1],
    ));
    assert(states[j].len() == 256 && states[j + 1].len() == 256);
    lemma_one_draw(seed, bytes, j, s as nat, t as nat, states[j], states[j + 1]);
}

/// The challenge for a seed is drawn by 49 exchanges: from place 207 on, each place takes
/// over the coefficient at a drawn place up to it, which gets a sign from the stream's first
/// eight bytes; draws that are too large are passed over.
pub proof fn lemma_challenge_coefficients(seed: Seq<u8>, at: Seq<int>, states: Seq<Seq<int>>)
    requires
        is_shuffle(seed, at, states),
    ensures
        xof::ball_poly(seed) == Seq::new(256, |i: int| states[49][i] % 8380417),
{
    let bytes = xof::shake256_stream(seed, (at[48] + 1) as nat);
    lemma_shuffled(seed, at, states, bytes, 49);
    let m = (at[48] - 7) as nat;
    assert((8 + m) as nat == (at[48] + 1) as nat);
    assert(xof::ball_ready(seed, m));
    xof::lemma_ball_poly(seed, m);
    assert(xof::ball_poly(seed) =~= Seq::new(256, |i: int| states[49][i] % 8380417));
}

/// Candidate `t` in a stretch of bytes has 23 bits of three bytes, lowest first.
pub proof fn lemma_candidate_bits(bytes: Seq<u8>, t: int)
    ensures
        sampling::triple(bytes, t) == bytes[3 * t] + 256 * bytes[3 * t + 1] + 65536 * (bytes[3 * t
            + 2] as int % 128),
{
}

/// A challenge is drawn from place 207 on, with no coefficient set before. A draw above the
/// next place changes nothing; another one moves the coefficient that it names to the next
/// place and sets a sign in its stead, from the next bit of the first eight bytes.
pub proof fn lemma_draws(bytes: Seq<u8>, m: nat)
    requires
        9 + m <= bytes.len(),
    ensures
        ({
            let b = sampling::ball_after(bytes, m);
            let c = sampling::ball_after(bytes, m + 1);
            let draw = bytes[8 + m as int] as int;
            let k = b.next - 207;
            &&& sampling::ball_after(bytes, 0).next == 207
            &&& forall|i: int|
                0 <= i < 256 ==> #[trigger] sampling::ball_after(bytes, 0).coeffs[i] == 0
            &&& 207 <= b.next <= 256
            &&& b.coeffs.len() == 256
            &&& b.next == 256 || draw > b.next ==> c == b
            &&& b.next < 256 && draw <= b.next ==> {
                &&& c.next == b.next + 1
                &&& forall|i: int|
                    0 <= i < 256 ==> #[trigger] c.coeffs[i] == (if i == draw {
                        1 - 2 * ((bytes[k / 8] as int / (pow2((k % 8) as nat) as int)) % 2)
                    } else if i == b.next {
                        b.coeffs[draw]
                    } else {
                        b.coeffs[i]
                    })
            }
        }),
{
    sampling::lemma_ball_shape(bytes, m);
    sampling::lemma_ball_shape(bytes, m + 1);
    let b = sampling::ball_after(bytes, m);
    let k = b.next - 207;
    let draw = bytes[8 + m as int] as int;
    assert(sampling::ball_after(bytes, m + 1) == sampling::ball_step(bytes, b, draw));
    if b.next < 256 {
        assert(0 <= k / 8 < 8);
        assert(bits::bit_at(bytes, k) == (bytes[k / 8] as int / (pow2((k % 8) as nat) as int)) % 2);
    }
}

/// Bit `b` of number `i` stands, in the packing at `n` bits each, at bit `n i + b`, eight to
/// a byte, lowest first; what is left of the last byte is zero.
pub proof fn lemma_packed_places(v: Seq<int>, n: nat, i: int, b: int, rest: int)
    ensures
        8 * bits::packed(v, n).len() >= v.len() * n,
        8 * bits::packed(v, n).len() < v.len() * n + 8,
        0 <= i < v.len() && 0 <= b < n ==> ({
            let pos = n * i + b;
            (bits::packed(v, n)[pos / 8] as int / (pow2((pos % 8) as nat) as int)) % 2 == (v[i] / (
            pow2(b as nat) as int)) % 2
        }),
        v.len() * n <= rest < 8 * bits::packed(v, n).len() ==> (bits::packed(v, n)[rest
            / 8] as int / (pow2((rest % 8) as nat) as int)) % 2 == 0,
{
    assert(v.len() * n >= 0) by (nonlinear_arith);
    if v.len() * n <= rest < 8 * bits::packed(v, n).len() {
        bits::lemma_packed_bits(v, n, rest);
    }
    if 0 <= i < v.len() && 0 <= b < n {
        let pos = n * i + b;
        assert(0 <= pos < v.len() * n) by (nonlinear_arith)
            requires
                0 <= i,
                i + 1 <= v.len(),
                0 <= b < n,
                pos == n * i + b,
        ;
        bits::lemma_packed_bits(v, n, pos);
        assert(n * i == i * n) by (nonlinear_arith);
        lemma_fundamental_div_mod_converse(pos, n as int, i, b);
        assert(0 <= pos / 8 < bits::packed(v, n).len());
    }
}

proof fn lemma_bits_value_bits(bytes: Seq<u8>, start: int, n: nat, b: nat)
    requires
        b < n,
    ensures
        (bits::bits_value(bytes, start, n) / (pow2(b) as int)) % 2 == bits::bit_at(
            bytes,
            start + b,
        ),
{
    let m = (n - b - 1) as nat;
    lemma_bits_split(bytes, start, b, (m + 1) as nat);
    lemma_bits_split(bytes, start + b, 1, m);
    assert(b + (m + 1) as nat == n);
    assert(1 + m == (m + 1) as nat);
    lemma2_to64();
    let low = bits::bits_value(bytes, start, b);
    let bit = bits::bit_at(bytes, start + b);
    let rest = bits::bits_value(bytes, start + b + 1, m);
    assert(bits::bits_value(bytes, start + b, 1) == bit) by {
        assert(bits::bits_value(bytes, start + b, 0) == 0);
        assert(bit * pow2(0) == bit) by (nonlinear_arith)
            requires
                pow2(0) == 1,
        ;
    }
    let high = bit + 2 * rest;
    bits::lemma_bits_value_range(bytes, start, b);
    bits::lemma_bit_at_range(bytes, start + b);
    lemma_pow2_pos(b);
    let v = bits::bits_value(bytes, start, n);
    assert(v == high * (pow2(b) as int) + low) by (nonlinear_arith)
        requires
            v == low + pow2(b) * high,
    ;
    lemma_fundamental_div_mod_converse(v, pow2(b) as int, high, low);
}

/// Number `i` that is unpacked at `n` bits each is below `2^n`, and its bit `b` is bit
/// `n i + b` of the bytes, eight to a byte, lowest first, or zero behind their end.
pub proof fn lemma_unpacked_places(bytes: Seq<u8>, n: nat, count: nat, i: int, b: nat)
    ensures
        bits::unpacked(bytes, n, count).len() == count,
        0 <= i < count ==> 0 <= bits::unpacked(bytes, n, count)[i] < pow2(n),
        0 <= i < count && b < n ==> ({
            let pos = n * i + b;
            (bits::unpacked(bytes, n, count)[i] / (pow2(b) as int)) % 2 == (if pos / 8
                < bytes.len() {
                (bytes[pos / 8] as int / (pow2((pos % 8) as nat) as int)) % 2
            } else {
                0
            })
        }),
{
    if 0 <= i < count {
        bits::lemma_bits_value_range(bytes, i * n, n);
        if b < n {
            assert(n * i == i * n && 0 <= n * i) by (nonlinear_arith)
                requires
                    0 <= i,
                    0 <= n,
            ;
            lemma_bits_value_bits(bytes, i * n, n, b);
        }
    }
}

proof fn lemma_accepted_at_least(bytes: Seq<u8>, t: nat, at: Seq<int>)
    requires
        forall|i: int| 0 <= i < at.len() ==> 0 <= #[trigger] at[i] < t,
        forall|i: int| 0 <= i < at.len() ==> sampling::triple(bytes, #[trigger] at[i]) < 8380417,
        forall|i: int, j: int| 0 <= i < j < at.len() ==> #[trigger] at[i] < #[trigger] at[j],
    ensures
        sampling::accepted(bytes, t).len() >= at.len(),
    decreases t,
{
    if t == 0 {
        if at.len() > 0 {
            assert(0 <= at[0] < t);
        }
    } else if at.len() > 0 {
        let m = (t - 1) as nat;
        let last = at.len() - 1;
        let b = if at[last] == t - 1 {
            at.drop_last()
        } else {
            at
        };
        assert forall|i: int| 0 <= i < b.len() implies 0 <= #[trigger] b[i] < m by {
            assert(b[i] == at[i]);
            if i < last {
                assert(at[i] < at[last]);
            }
        }
        assert forall|i: int| 0 <= i < b.len() implies sampling::triple(bytes, #[trigger] b[i])
            < 8380417 by {
            assert(b[i] == at[i]);
        }
        lemma_accepted_at_least(bytes, m, b);
    }
}

proof fn lemma_accepted_places(bytes: Seq<u8>, t: nat) -> (at: Seq<int>)
    ensures
        at.len() == sampling::accepted(bytes, t).len(),
        forall|i: int| 0 <= i < at.len() ==> 0 <= #[trigger] at[i] < t,
        forall|i: int| 0 <= i < at.len() ==> sampling::triple(bytes, #[trigger] at[i]) < 8380417,
        forall|i: int, j: int| 0 <= i < j < at.len() ==> #[trigger] at[i] < #[trigger] at[j],
    decreases t,
{
    if t == 0 {
        seq![]
    } else {
        let b = lemma_accepted_places(bytes, (t - 1) as nat);
        if sampling::triple(bytes, t - 1) < 8380417 {
            let at = b.push(t - 1);
            assert forall|i: int| 0 <= i < at.len() implies 0 <= #[trigger] at[i] < t by {
                if i < b.len() {
                    assert(0 <= b[i] < t - 1);
                }
            }
            assert forall|i: int| 0 <= i < at.len() implies sampling::triple(
                bytes,
                #[trigger] at[i],
            ) < 8380417 by {
                if i < b.len() {
                    assert(at[i] == b[i]);
                }
            }
            assert forall|i: int, j: int| 0 <= i < j < at.len() implies #[trigger] at[i]
                < #[trigger] at[j] by {
                if j < b.len() {
                    assert(b[i] < b[j]);
                } else {
                    assert(b[i] < t - 1);
                }
            }
            at
        } else {
            assert forall|i: int| 0 <= i < b.len() implies 0 <= #[trigger] b[i] < t by {}
            b
        }
    }
}

/// Whether at least 256 of the first `t` candidates for a seed are below 8380417.
pub open spec fn has_enough(seed: Seq<u8>, t: nat) -> bool {
    exists|at: Seq<int>| #[trigger] lists_candidates(seed, t, at)
}

/// Whether `at` lists 256 places below `t`, in order, of candidates below 8380417.
pub open spec fn lists_candidates(seed: Seq<u8>, t: nat, at: Seq<int>) -> bool {
    &&& at.len() == 256
    &&& forall|i: int| 0 <= i < 256 ==> 0 <= #[trigger] at[i] < t
    &&& forall|i: int| 0 <= i < 256 ==> candidate(seed, #[trigger] at[i]) < 8380417
    &&& forall|i: int, j: int| 0 <= i < j < 256 ==> #[trigger] at[i] < #[trigger] at[j]
}

/// A polynomial can be sampled from the first `t` candidates if and only if at least 256 of
/// them are below 8380417.
pub proof fn lemma_ready(seed: Seq<u8>, t: nat)
    ensures
        xof::rej_ready(seed, t) <==> has_enough(seed, t),
{
    let bytes = xof::shake128_stream(seed, 3 * t);
    assert forall|u: int| 0 <= u < t implies #[trigger] sampling::triple(bytes, u) == candidate(
        seed,
        u,
    ) by {}
    if has_enough(seed, t) {
        let at = choose|at: Seq<int>| #[trigger] lists_candidates(seed, t, at);
        assert forall|i: int| 0 <= i < at.len() implies sampling::triple(bytes, #[trigger] at[i])
            < 8380417 by {
            assert(candidate(seed, at[i]) < 8380417);
        }
        lemma_accepted_at_least(bytes, t, at);
    }
    if xof::rej_ready(seed, t) {
        let all = lemma_accepted_places(bytes, t);
        let at = all.subrange(0, 256);
        assert forall|i: int| 0 <= i < 256 implies 0 <= #[trigger] at[i] < t by {
            assert(at[i] == all[i]);
        }
        assert forall|i: int| 0 <= i < 256 implies candidate(seed, #[trigger] at[i]) < 8380417 by {
            assert(at[i] == all[i]);
            assert(sampling::triple(bytes, all[i]) < 8380417);
        }
        assert forall|i: int, j: int| 0 <= i < j < 256 implies #[trigger] at[i] < #[trigger] at[j] by {
            assert(all[i] < all[j]);
        }
        assert(lists_candidates(seed, t, at));
    }
}

} // verus!
