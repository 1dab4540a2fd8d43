//! What the functions of this part give back for what they are given.
use crate::mldsa::encoding;
use crate::mldsa::encoding::DecodeError;
use crate::mldsa::exact;
use crate::mldsa::field;
use crate::mldsa::hints;
use crate::mldsa::poly;
use crate::mldsa::poly::{NTTPoly, Poly};
use crate::mldsa::polyvec;
use crate::mldsa::polyvec::{NTTMatrix, NTTPolyVec, PolyVec};
use crate::mldsa::ring;
use crate::mldsa::sampling;
use crate::mldsa::transform;
use crate::mldsa::values;
use crate::mldsa::verify;
use crate::mldsa::xof;
use crate::mldsa::zq;
use vstd::arithmetic::power;
use vstd::arithmetic::power::*;
use vstd::arithmetic::power2::*;
use vstd::prelude::*;

verus! {

/// Reduction gives the number from zero to 8380416, or the one from -4190208 to 4190208, that
/// differs from its argument by a multiple of 8380417.
pub proof fn lemma_reduced(a: i64, r: i64, c: i64)
    requires
        call_ensures(field::reduce, (a,), r),
        call_ensures(field::reduce_centered, (a,), c),
    ensures
        0 <= r < 8380417,
        (a - r) % 8380417 == 0,
        -4190208 <= c <= 4190208,
        (a - c) % 8380417 == 0,
{
}

/// Sums, differences and products of residues are taken modulo 8380417; the inverse times the
/// residue is one.
pub proof fn lemma_field_operations(a: i64, b: i64, s: i64, d: i64, m: i64, i: i64)
    requires
        call_ensures(field::add, (a, b), s),
        call_ensures(field::sub, (a, b), d),
        call_ensures(field::mul, (a, b), m),
        a as int % 8380417 != 0 ==> call_ensures(field::inv, (a,), i),
    ensures
        s as int == (a + b) % 8380417,
        d as int == (a - b) % 8380417,
        m as int == (a * b) % 8380417,
        a as int % 8380417 != 0 ==> 0 <= i < 8380417 && (a * i) % 8380417 == 1,
{
}

/// A power is one for the exponent zero, and one exponent more is one factor more.
pub proof fn lemma_field_power(a: i64, e: u64, f: u64, x: i64, y: i64, one: i64)
    requires
        f == e + 1,
        call_ensures(field::pow, (a, e), x),
        call_ensures(field::pow, (a, f), y),
        call_ensures(field::pow, (a, 0u64), one),
    ensures
        0 <= x < 8380417,
        y as int == (a * x) % 8380417,
        one == 1,
{
    let p = power::pow(a as int, e as nat);
    reveal_with_fuel(power::pow, 2);
    lemma_pow0(a as int);
    assert(power::pow(a as int, f as nat) == a * p) by {
        assert((f as nat - 1) as nat == e as nat);
    }
    zq::lemma_modq_mul(a as int, p);
}

/// A number is split at the multiple of 523776 nearest to its residue, of two the lower one;
/// the sixteenth counts as zero. A hint moves the high part by one, up where the low part is
/// positive and else down, around the circle of sixteen.
pub proof fn lemma_split_calls(
    r: i64,
    parts: (i64, i64),
    high: i64,
    low: i64,
    plain: i64,
    hinted: i64,
)
    requires
        call_ensures(polyvec::decompose_val, (r,), parts),
        call_ensures(polyvec::high_bits_val, (r,), high),
        call_ensures(polyvec::low_bits_val, (r,), low),
        call_ensures(polyvec::use_hint_val, (false, r), plain),
        call_ensures(polyvec::use_hint_val, (true, r), hinted),
    ensures
        parts == (high, low),
        plain == high,
        0 <= high < 16,
        (r - high * 523776 - low) % 8380417 == 0,
        -261888 <= low <= 261888,
        low == -261888 ==> high == 0,
        low > 0 ==> hinted == (if high == 15 {
            0
        } else {
            high + 1
        }),
        low <= 0 ==> hinted == (if high == 0 {
            15
        } else {
            high - 1
        }),
{
    let c = r as int % 8380417;
    let h = if c % 523776 > 261888 {
        c / 523776 + 1
    } else {
        c / 523776
    };
    if h == 16 {
        values::lemma_hinted_value(r as int, 0, c - 8380417);
        values::lemma_split(r as int, 0, c - 8380417);
    } else {
        values::lemma_hinted_value(r as int, h, c - h * 523776);
        values::lemma_split(r as int, h, c - h * 523776);
    }
}

/// A number is rounded to the multiple of `2^d` nearest to it, of two the lower one.
pub proof fn lemma_rounding_calls(r: i64, d: u32, parts: (i64, i64))
    requires
        1 <= d <= 62,
        call_ensures(polyvec::power2round_val, (r, d), parts),
    ensures
        parts.0 * pow2(d as nat) + parts.1 == r,
        -pow2(d as nat) < 2 * parts.1 <= pow2(d as nat),
{
    crate::mldsa::rounding::lemma_power2round(r as int, d as nat);
    lemma_pow2_unfold(d as nat);
}

/// Sums, differences and multiples of polynomials are taken at each place, and so are sums
/// and products of transforms.
pub proof fn lemma_poly_operations(
    a: &Poly,
    b: &Poly,
    s: Poly,
    d: Poly,
    k: i64,
    m: Poly,
    x: &NTTPoly,
    y: &NTTPoly,
    p: NTTPoly,
    q: NTTPoly,
    i: int,
)
    requires
        call_ensures(Poly::add, (a, b), s),
        call_ensures(Poly::sub, (a, b), d),
        call_ensures(Poly::scale, (a, k), m),
        call_ensures(NTTPoly::mul, (x, y), p),
        call_ensures(NTTPoly::add, (x, y), q),
        0 <= i < 256,
    ensures
        s.coeffs@[i] as int == (a.coeffs@[i] + b.coeffs@[i]) % 8380417,
        d.coeffs@[i] as int == (a.coeffs@[i] - b.coeffs@[i]) % 8380417,
        m.coeffs@[i] as int == (k * a.coeffs@[i]) % 8380417,
        p.coeffs@[i] as int == (x.coeffs@[i] * y.coeffs@[i]) % 8380417,
        q.coeffs@[i] as int == (x.coeffs@[i] + y.coeffs@[i]) % 8380417,
{
    assert(s@[i] == s.coeffs@[i] && d@[i] == d.coeffs@[i] && m@[i] == m.coeffs@[i]);
    assert(a@[i] == a.coeffs@[i] && b@[i] == b.coeffs@[i]);
    assert(p@[i] == p.coeffs@[i] && q@[i] == q.coeffs@[i]);
    assert(x@[i] == x.coeffs@[i] && y@[i] == y.coeffs@[i]);
}

/// A transform and its inverse undo each other, and a product by way of transforms is the
/// product term by term.
pub proof fn lemma_transform_calls(
    a: &Poly,
    b: &Poly,
    x: NTTPoly,
    back: Poly,
    y: NTTPoly,
    p: NTTPoly,
    fast: Poly,
    slow: Poly,
    whole: Poly,
)
    requires
        a.wf(),
        b.wf(),
        call_ensures(Poly::ntt, (a,), x),
        call_ensures(NTTPoly::intt, (&x,), back),
        call_ensures(Poly::ntt, (b,), y),
        call_ensures(NTTPoly::mul, (&x, &y), p),
        call_ensures(NTTPoly::intt, (&p,), fast),
        call_ensures(Poly::mul_naive, (a, b), slow),
        call_ensures(poly::poly_mul, (a, b), whole),
    ensures
        back@ == a@,
        fast@ == slow@,
        whole@ == slow@,
{
    transform::lemma_intt_of_ntt(a@);
    ring::lemma_product_by_ntt(a@, b@);
}

/// The norm of a polynomial is the largest distance of a coefficient from the nearest
/// multiple of 8380417, and that of a vector the largest of its polynomials.
pub proof fn lemma_norm_calls(f: &Poly, n: i64, v: &PolyVec, m: i64, k: int, i: int)
    requires
        call_ensures(Poly::norm_inf, (f,), n),
        call_ensures(PolyVec::norm_inf, (v,), m),
        0 <= k < v.0@.len(),
        v.0@[k] == f,
        0 <= i < 256,
    ensures
        ({
            let c = f.coeffs@[i] as int % 8380417;
            (if c <= 4190208 {
                c
            } else {
                8380417 - c
            }) <= n
        }),
        exists|j: int|
            0 <= j < 256 && (#[trigger] f.coeffs@[j] as int % 8380417 == n || f.coeffs@[j] as int
                % 8380417 == 8380417 - n),
        n <= m,
{
    assert(f@.len() == 256);
    values::lemma_norm_attained(f@);
    values::lemma_size(f@[i]);
    assert(f@[i] == f.coeffs@[i]);
    assert(poly::abs_centered(f@[i]) <= poly::inf_norm(f@));
    let j = choose|j: int|
        0 <= j < f@.len() && poly::abs_centered(#[trigger] f@[j]) == poly::inf_norm(f@);
    values::lemma_size(f@[j]);
    assert(f@[j] == f.coeffs@[j]);
    let c = f.coeffs@[j] as int % 8380417;
    assert(c == n || c == 8380417 - n);
    assert forall|q: int| 0 <= q < v@.len() implies (#[trigger] v@[q]).len() > 0 by {
        assert(v@[q] == v.0@[q]@);
    }
    values::lemma_vec_norm_attained(v@);
    assert(v@[k] == f@);
}

/// Vectors are added, subtracted, rounded and hinted at each place of each polynomial.
pub proof fn lemma_vector_calls(
    a: &PolyVec,
    b: &PolyVec,
    s: PolyVec,
    d: PolyVec,
    high: PolyVec,
    h: &[Vec<bool>],
    hinted: PolyVec,
    k: int,
    i: int,
    hv: i64,
    uv: i64,
)
    requires
        call_ensures(PolyVec::add, (a, b), s),
        call_ensures(PolyVec::sub, (a, b), d),
        call_ensures(PolyVec::high_bits, (a,), high),
        call_ensures(PolyVec::use_hint, (a, h), hinted),
        0 <= k < a.0@.len(),
        a.0@.len() == b.0@.len(),
        a.0@.len() == h@.len(),
        0 <= i < 256,
        call_ensures(polyvec::high_bits_val, (a.0@[k].coeffs@[i],), hv),
        call_ensures(polyvec::use_hint_val, (h@[k]@[i], a.0@[k].coeffs@[i]), uv),
    ensures
        s.0@.len() == a.0@.len(),
        d.0@.len() == a.0@.len(),
        high.0@.len() == a.0@.len(),
        hinted.0@.len() == a.0@.len(),
        s.0@[k].coeffs@[i] as int == (a.0@[k].coeffs@[i] + b.0@[k].coeffs@[i]) % 8380417,
        d.0@[k].coeffs@[i] as int == (a.0@[k].coeffs@[i] - b.0@[k].coeffs@[i]) % 8380417,
        high.0@[k].coeffs@[i] == hv,
        hinted.0@[k].coeffs@[i] == uv,
{
    assert(a@[k] == a.0@[k]@ && b@[k] == b.0@[k]@);
    assert(a@[k][i] == a.0@[k].coeffs@[i] && b@[k][i] == b.0@[k].coeffs@[i]);
    assert(s@.len() == s.0@.len() && d@.len() == d.0@.len());
    assert(high@.len() == high.0@.len() && hinted@.len() == hinted.0@.len());
    assert(s@[k][i] == s.0@[k].coeffs@[i]);
    assert(d@[k][i] == d.0@[k].coeffs@[i]);
    assert(high@[k][i] == high.0@[k].coeffs@[i]);
    assert(hinted@[k][i] == hinted.0@[k].coeffs@[i]);
}

/// Unpacking undoes packing.
pub proof fn lemma_packing_calls(
    v: &[i64],
    n: u32,
    packed: Vec<u8>,
    bytes: &[u8],
    count: usize,
    back: Vec<i64>,
)
    requires
        forall|i: int| 0 <= i < v@.len() ==> 0 <= #[trigger] v@[i] < pow2(n as nat),
        call_ensures(encoding::pack_bits, (v, n), packed),
        bytes@ == packed@,
        count == v@.len(),
        call_ensures(encoding::unpack_bits, (bytes, n, count), back),
    ensures
        back@ == v@,
{
    let w = transform::ints(v@);
    assert forall|i: int| 0 <= i < w.len() implies 0 <= #[trigger] w[i] < pow2(n as nat) by {
        assert(w[i] == v@[i]);
    }
    encoding::lemma_simple_bit_roundtrip(w, n as nat);
    assert(transform::ints(back@) == w);
    assert(back@.len() == w.len());
    assert forall|i: int| 0 <= i < back@.len() implies back@[i] == v@[i] by {
        assert(transform::ints(back@)[i] == back@[i] && w[i] == v@[i]);
    }
    assert(back@ =~= v@);
}

/// A key of 1952 bytes is a seed and six polynomials of ten bits for each coefficient, four
/// of them in five bytes; another one is refused.
pub proof fn lemma_key_decoded(
    pk: &[u8],
    res: Result<([u8; 32], PolyVec), DecodeError>,
    k: int,
    r: int,
    g: int,
)
    requires
        call_ensures(encoding::pk_decode, (pk,), res),
        0 <= k < 32,
        0 <= r < 6,
        0 <= g < 64,
    ensures
        pk@.len() != 1952 ==> res == Err::<([u8; 32], PolyVec), DecodeError>(
            DecodeError::PublicKeyLength { got: pk@.len() as usize },
        ),
        pk@.len() == 1952 ==> {
            let o = 32 + 320 * r + 5 * g;
            let t = res->Ok_0.1.0@[r].coeffs@;
            &&& res is Ok
            &&& res->Ok_0.0@[k] == pk@[k]
            &&& res->Ok_0.1.0@.len() == 6
            &&& t[4 * g] == pk@[o] + 256 * (pk@[o + 1] as int % 4)
            &&& t[4 * g + 1] == pk@[o + 1] as int / 4 + 64 * (pk@[o + 2] as int % 16)
            &&& t[4 * g + 2] == pk@[o + 2] as int / 16 + 16 * (pk@[o + 3] as int % 64)
            &&& t[4 * g + 3] == pk@[o + 3] as int / 64 + 4 * pk@[o + 4]
        },
{
    if pk@.len() == 1952 {
        exact::lemma_key_coefficients(pk@, r, g);
        let v = res->Ok_0.1;
        assert(v@.len() == v.0@.len());
        assert(v@[r] == v.0@[r]@);
        assert(v@[r][4 * g] == v.0@[r].coeffs@[4 * g]);
        assert(v@[r][4 * g + 1] == v.0@[r].coeffs@[4 * g + 1]);
        assert(v@[r][4 * g + 2] == v.0@[r].coeffs@[4 * g + 2]);
        assert(v@[r][4 * g + 3] == v.0@[r].coeffs@[4 * g + 3]);
    }
}

/// A signature of 3309 bytes is a challenge seed of 48, a response of five polynomials with
/// two coefficients in five bytes as distances below `2^19`, and a hint of 61; another one is
/// refused, and so is one whose hint is.
pub proof fn lemma_signature_decoded(
    sig: &[u8],
    res: Result<(Vec<u8>, PolyVec, Vec<Vec<bool>>), DecodeError>,
    y: &[u8],
    hint: Result<Vec<Vec<bool>>, DecodeError>,
    k: int,
    r: int,
    g: int,
    q: int,
    j: int,
)
    requires
        call_ensures(encoding::sig_decode, (sig,), res),
        sig@.len() == 3309 ==> y@ == sig@.subrange(3248, 3309),
        call_ensures(encoding::hint_bit_unpack, (y,), hint),
        0 <= k < 48,
        0 <= r < 5,
        0 <= g < 128,
        0 <= q < 6,
        0 <= j < 256,
    ensures
        sig@.len() != 3309 ==> res == Err::<(Vec<u8>, PolyVec, Vec<Vec<bool>>), DecodeError>(
            DecodeError::SignatureLength { got: sig@.len() as usize },
        ),
        sig@.len() == 3309 ==> {
            let o = 48 + 640 * r + 5 * g;
            let z = res->Ok_0.1.0@[r].coeffs@;
            &&& hint matches Err(e) ==> res == Err::<
                (Vec<u8>, PolyVec, Vec<Vec<bool>>),
                DecodeError,
            >(e)
            &&& res is Ok <==> hint is Ok
            &&& res is Ok ==> {
                &&& res->Ok_0.0@.len() == 48
                &&& res->Ok_0.0@[k] == sig@[k]
                &&& res->Ok_0.1.0@.len() == 5
                &&& z[2 * g] == 524288 - (sig@[o] + 256 * sig@[o + 1] + 65536 * (sig@[o
                    + 2] as int % 16))
                &&& z[2 * g + 1] == 524288 - (sig@[o + 2] as int / 16 + 16 * sig@[o + 3] + 4096
                    * sig@[o + 4])
                &&& res->Ok_0.2@[q]@[j] == hint->Ok_0@[q]@[j]
            }
        },
{
    if sig@.len() == 3309 && res is Ok {
        exact::lemma_response_coefficients(sig@, r, g);
        let v = res->Ok_0.1;
        assert(v@.len() == v.0@.len());
        assert(v@[r] == v.0@[r]@);
        assert(v@[r][2 * g] == v.0@[r].coeffs@[2 * g]);
        assert(v@[r][2 * g + 1] == v.0@[r].coeffs@[2 * g + 1]);
        let a = polyvec::hint_rows(res->Ok_0.2@);
        let b = polyvec::hint_rows(hint->Ok_0@);
        assert(a == b);
        assert(a.len() == 6);
        assert(a[q] == res->Ok_0.2@[q]@ && b[q] == hint->Ok_0@[q]@);
    }
}

/// A hint of 61 bytes that is well formed has bit `j` of polynomial `i` set if and only if `j`
/// is among the positions from the end of the one before up to the end in byte `55 + i`.
pub proof fn lemma_hint_decoded(
    y: &[u8],
    res: Result<Vec<Vec<bool>>, DecodeError>,
    i: int,
    j: int,
)
    requires
        call_ensures(encoding::hint_bit_unpack, (y,), res),
        0 <= i < 6,
        0 <= j < 256,
    ensures
        res is Ok <==> {
            let b = y@;
            &&& b.len() == 61
            &&& forall|k: int| 56 <= k < 61 ==> b[k - 1] <= #[trigger] b[k]
            &&& b[60] <= 55
            &&& forall|p: int|
                0 < p < b[60] && (forall|k: int| 55 <= k < 60 ==> #[trigger] b[k] as int != p)
                    ==> b[p - 1] < #[trigger] b[p]
            &&& forall|p: int| b[60] <= p < 55 ==> #[trigger] b[p] == 0
        },
        res is Ok ==> (res->Ok_0@[i]@[j] <==> exists|p: int|
            (if i == 0 {
                0
            } else {
                y@[54 + i] as int
            }) <= p < y@[55 + i] && #[trigger] y@[p] as int == j),
{
    values::lemma_hint_form(y@);
    if res is Ok {
        values::lemma_hint_positions(y@, i, j);
        let a = polyvec::hint_rows(res->Ok_0@);
        assert(a.len() == 6);
        assert(a[i] == res->Ok_0@[i]@);
    }
}

/// A signature is accepted if and only if key and signature have their lengths, the hint is
/// well formed, no coefficient of the response is 524092 or more in size, and the seed that
/// is recomputed from the message and the claimed high parts is the one in the signature.
pub proof fn lemma_verify_call(
    pk: &[u8],
    msg: &[u8],
    sig: &[u8],
    valid: bool,
    w1: &PolyVec,
    seed: Vec<u8>,
)
    requires
        call_ensures(verify::ml_dsa_verify, (pk, msg, sig), valid) || call_ensures(
            verify::try_ml_dsa_verify,
            (pk, msg, sig),
            Some(valid),
        ),
        pk@.len() == 1952 && sig@.len() == 3309 ==> w1@ == verify::claimed_w1(pk@, sig@),
        call_ensures(verify::recompute_seed, (pk, msg, w1), seed),
    ensures
        valid <==> {
            &&& pk@.len() == 1952
            &&& sig@.len() == 3309
            &&& hints::hint_fault(sig@.subrange(3248, 3309)) is None
            &&& forall|r: int, i: int|
                0 <= r < 5 && 0 <= i < 256 ==> -524092 < #[trigger] encoding::sig_z(sig@)[r][i]
                    < 524092
            &&& sig@.subrange(0, 48) == seed@
        },
{
    values::lemma_validity(pk@, msg@, sig@);
}

/// A commitment is recomputed as `A z - c t1 2^13` in the ring.
pub proof fn lemma_commitment_call(
    a: &NTTMatrix,
    c: &Poly,
    z: &PolyVec,
    t1: &PolyVec,
    w: PolyVec,
    i: int,
)
    requires
        c.wf(),
        z.wf(),
        t1.wf(),
        polyvec::is_matrix(a@, z@.len()),
        a@.len() == t1@.len(),
        call_ensures(verify::recompute_commitment, (a, c, z, t1), w),
        0 <= i < t1@.len(),
    ensures
        w@.len() == t1@.len(),
        w@[i] == ring::ring_sub(
            verify::ring_dot(a@[i], z@, z@.len()),
            ring::ring_mul(Seq::new(256, |k: int| (8192 * t1@[i][k]) % 8380417), c@),
        ),
{
    verify::lemma_commitment_in_ring(a@, c@, z@, t1@);
    assert(transform::scaled(8192, t1@[i]) =~= Seq::new(
        256,
        |k: int| (8192 * t1@[i][k]) % 8380417,
    ));
}

/// The samplers that give up do so where the first 8400 bytes of the stream do not suffice,
/// and else give what the others give.
pub proof fn lemma_sampler_limits(
    seed: &[u8],
    within: bool,
    poly: [i64; 256],
    fits: bool,
    tried: Option<Poly>,
    drawn: Poly,
)
    requires
        call_ensures(xof::rej_within_limit, (seed,), within),
        call_ensures(xof::rej_ntt_poly, (seed,), poly),
        call_ensures(xof::ball_fits, (seed,), fits),
        call_ensures(xof::try_sample_in_ball, (seed,), tried),
        call_ensures(xof::sample_in_ball, (seed,), drawn),
    ensures
        within <==> exact::has_enough(seed@, 2800),
        transform::ints(poly@) == xof::rej_poly(seed@),
        fits <==> sampling::ball_after(xof::shake256_stream(seed@, 8400), 8392).next >= 256,
        tried is Some <==> fits,
        tried matches Some(c) ==> c@ == drawn@,
        drawn@ == xof::ball_poly(seed@),
{
    exact::lemma_ready(seed@, 2800);
}

/// The verification that gives up does so where key and signature have their lengths and a
/// sampler does not finish on its seed within 8400 bytes.
pub proof fn lemma_verify_limit(pk: &[u8], msg: &[u8], sig: &[u8], res: Option<bool>)
    requires
        call_ensures(verify::try_ml_dsa_verify, (pk, msg, sig), res),
    ensures
        res is None <==> pk@.len() == 1952 && sig@.len() == 3309 && !({
            &&& forall|i: int, j: int|
                0 <= i < 6 && 0 <= j < 5 ==> exact::has_enough(
                    #[trigger] xof::entry_seed(pk@.subrange(0, 32), i, j),
                    2800,
                )
            &&& sampling::ball_after(
                xof::shake256_stream(sig@.subrange(0, 48), 8400),
                8392,
            ).next >= 256
        }),
{
    if pk@.len() == 1952 && sig@.len() == 3309 {
        let rho = pk@.subrange(0, 32);
        assert forall|i: int, j: int| 0 <= i < 6 && 0 <= j < 5 implies exact::has_enough(
            #[trigger] xof::entry_seed(rho, i, j),
            2800,
        ) == xof::rej_ready(xof::entry_seed(rho, i, j), 2800) by {
            exact::lemma_ready(xof::entry_seed(rho, i, j), 2800);
        }
    }
}

/// Unpacking undoes packing for coefficients that are laid out as distances below a bound.
pub proof fn lemma_distance_packing_calls(
    w: &[i64; 256],
    upper: i64,
    n: u32,
    packed: Vec<u8>,
    bytes: &[u8],
    back: [i64; 256],
    i: int,
)
    requires
        forall|k: int| 0 <= k < 256 ==> upper - pow2(n as nat) < #[trigger] w@[k] <= upper,
        call_ensures(encoding::bit_pack, (w, upper, n), packed),
        bytes@ == packed@,
        call_ensures(encoding::bit_unpack, (bytes, upper, n), back),
        0 <= i < 256,
    ensures
        packed@.len() == 32 * n,
        back@[i] == w@[i],
{
    let v = transform::ints(w@);
    assert forall|k: int| 0 <= k < v.len() implies upper - pow2(n as nat) < #[trigger] v[k]
        <= upper by {
        assert(v[k] == w@[k]);
    }
    encoding::lemma_bit_roundtrip(v, upper as int, n as nat);
    assert(transform::ints(back@) == v);
    assert(transform::ints(back@)[i] == back@[i] && v[i] == w@[i]);
}

/// Vectors of transforms are added, subtracted and multiplied at each place; a vector is
/// transformed and brought back polynomial by polynomial; multiples, reductions and roundings
/// are taken at each place.
pub proof fn lemma_more_vector_calls(
    v: &PolyVec,
    x: NTTPolyVec,
    back: PolyVec,
    y: &NTTPolyVec,
    s: NTTPolyVec,
    d: NTTPolyVec,
    c: &NTTPoly,
    m: NTTPolyVec,
    e: u32,
    up: PolyVec,
    red: PolyVec,
    parts: (PolyVec, PolyVec),
    k: int,
    i: int,
)
    requires
        v.wf(),
        call_ensures(PolyVec::ntt, (v,), x),
        call_ensures(NTTPolyVec::intt, (&x,), back),
        call_ensures(NTTPolyVec::add, (&x, y), s),
        call_ensures(NTTPolyVec::sub, (&x, y), d),
        call_ensures(NTTPolyVec::scale_poly, (&x, c), m),
        call_ensures(PolyVec::scale_power2, (v, e), up),
        call_ensures(verify::reduce_vec, (v,), red),
        1 <= e <= 62,
        call_ensures(PolyVec::power2round, (v, e), parts),
        0 <= k < v.0@.len(),
        y.0@.len() == v.0@.len(),
        0 <= i < 256,
    ensures
        x.0@.len() == v.0@.len(),
        x.0@[k]@ == transform::ntt_of(v.0@[k]@),
        back@ == v@,
        s.0@[k].coeffs@[i] as int == (x.0@[k].coeffs@[i] + y.0@[k].coeffs@[i]) % 8380417,
        d.0@[k].coeffs@[i] as int == (x.0@[k].coeffs@[i] - y.0@[k].coeffs@[i]) % 8380417,
        m.0@[k].coeffs@[i] as int == (x.0@[k].coeffs@[i] * c.coeffs@[i]) % 8380417,
        up.0@[k].coeffs@[i] as int == (pow2(e as nat) * v.0@[k].coeffs@[i]) % 8380417,
        red.0@[k].coeffs@[i] as int == v.0@[k].coeffs@[i] as int % 8380417,
        ({
            let (high, low) = (parts.0.0@[k].coeffs@[i], parts.1.0@[k].coeffs@[i]);
            let w = v.0@[k].coeffs@[i] - high * pow2(e as nat);
            &&& -pow2(e as nat) < 2 * w <= pow2(e as nat)
            &&& low as int == w % 8380417
        }),
{
    let r = v.0@[k].coeffs@[i] as int;
    assert(v@[k] == v.0@[k]@ && v@[k][i] == r);
    assert(x@.len() == x.0@.len());
    assert(x@[k] == x.0@[k]@ && x@[k][i] == x.0@[k].coeffs@[i]);
    assert(y@[k] == y.0@[k]@ && y@[k][i] == y.0@[k].coeffs@[i]);
    assert(c@[i] == c.coeffs@[i]);
    assert(s@.len() == s.0@.len() && d@.len() == d.0@.len() && m@.len() == m.0@.len());
    assert(up@.len() == up.0@.len() && red@.len() == red.0@.len());
    assert(s@[k][i] == s.0@[k].coeffs@[i] && d@[k][i] == d.0@[k].coeffs@[i]);
    assert(m@[k][i] == m.0@[k].coeffs@[i] && up@[k][i] == up.0@[k].coeffs@[i]);
    assert(red@[k][i] == red.0@[k].coeffs@[i]);
    assert(parts.0@.len() == parts.0.0@.len() && parts.1@.len() == parts.1.0@.len());
    assert(parts.0@[k][i] == parts.0.0@[k].coeffs@[i]);
    assert(parts.1@[k][i] == parts.1.0@[k].coeffs@[i]);
    crate::mldsa::rounding::lemma_power2round(r, e as nat);
    lemma_pow2_unfold(e as nat);
    assert(back@ =~= v@) by {
        assert(back@.len() == v@.len());
        assert forall|j: int| 0 <= j < v@.len() implies back@[j] == v@[j] by {
            assert(transform::is_elem(v@[j]));
            transform::lemma_intt_of_ntt(v@[j]);
            assert(back@[j] == transform::intt_of(x@[j]));
        }
    }
}

/// A product of a matrix and a vector of transforms has in each row the row's product with
/// the vector, which one column more extends by one product at each place.
pub proof fn lemma_matrix_call(a: &NTTMatrix, v: &NTTPolyVec, r: NTTPolyVec, k: int, n: nat, i: int)
    requires
        call_ensures(NTTMatrix::mul_vec, (a, v), r),
        0 <= k < a.rows@.len(),
        0 <= i < 256,
    ensures
        r.0@.len() == a.rows@.len(),
        r.0@[k]@ == polyvec::dot(a.rows@[k]@, v@, v.0@.len()),
        polyvec::dot(a.rows@[k]@, v@, 0)[i] == 0,
        n > 0 ==> polyvec::dot(a.rows@[k]@, v@, n)[i] == (polyvec::dot(
            a.rows@[k]@,
            v@,
            (n - 1) as nat,
        )[i] + a.rows@[k]@[n - 1][i] * v@[n - 1][i]) % 8380417,
{
    values::lemma_row_entry(a.rows@[k]@, v@, n, i);
    assert(r@.len() == r.0@.len());
    assert(r@[k] == r.0@[k]@);
    assert(a@[k] == a.rows@[k]@);
    assert(v@.len() == v.0@.len());
}

} // verus!
