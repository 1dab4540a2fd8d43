//! What the arithmetic and the verification rule say in plain numbers.
use crate::mldsa::encoding;
use crate::mldsa::encoding::DecodeError;
use crate::mldsa::exact;
use crate::mldsa::field;
use crate::mldsa::hints;
use crate::mldsa::params;
use crate::mldsa::params::{K, T1_BITS};
use crate::mldsa::poly;
use crate::mldsa::polyvec;
use crate::mldsa::ring;
use crate::mldsa::rounding;
use crate::mldsa::transform;
use crate::mldsa::verify;
use crate::mldsa::xof;
use crate::mldsa::zq;
use vstd::arithmetic::div_mod::*;
use vstd::arithmetic::power;
use vstd::arithmetic::power::*;
use vstd::arithmetic::power2::*;
use vstd::prelude::*;

verus! {

/// A residue is split into the multiple of 523776 nearest to it, of two the lower one, and
/// the rest; residues nearest to the sixteenth multiple count as just below zero.
pub proof fn lemma_split(r: int, high: int, low: int)
    requires
        ({
            let c = r % 8380417;
            ||| 0 <= high < 16 && c == high * 523776 + low && -261888 < low <= 261888
            ||| high == 0 && c == 8380417 + low && -261888 <= low < 0
        }),
    ensures
        rounding::decompose(r) == (high, low),
{
    let c = zq::modq(r);
    rounding::lemma_decompose(r);
    let l0 = rounding::mod_centered(c, 523776);
    if c == 8380417 + low && high == 0 && low < 0 {
        assert(c == 16 * 523776 + (low + 1));
        if low + 1 == 0 {
            assert(c % 523776 == 0);
        } else {
            assert(c % 523776 == 523776 + low + 1);
        }
        assert(l0 == low + 1);
    } else {
        if low >= 0 {
            lemma_fundamental_div_mod_converse(c, 523776, high, low);
        } else {
            lemma_fundamental_div_mod_converse(c, 523776, high - 1, 523776 + low);
        }
        assert(l0 == low);
        assert((c - low) / 523776 == high);
    }
}

/// A hint moves the high part up by one if the low part is positive and else down by one,
/// around the circle of sixteen; without a hint the high part stays.
pub proof fn lemma_hinted_value(r: int, high: int, low: int)
    requires
        ({
            let c = r % 8380417;
            ||| 0 <= high < 16 && c == high * 523776 + low && -261888 < low <= 261888
            ||| high == 0 && c == 8380417 + low && -261888 <= low < 0
        }),
    ensures
        rounding::use_hint(false, r) == high,
        0 < low ==> rounding::use_hint(true, r) == (if high == 15 {
            0
        } else {
            high + 1
        }),
        low <= 0 ==> rounding::use_hint(true, r) == (if high == 0 {
            15
        } else {
            high - 1
        }),
{
    lemma_split(r, high, low);
}

/// A number is rounded to the multiple of `2^d` nearest to it, of two the lower one.
pub proof fn lemma_rounded(r: int, d: nat, high: int, low: int)
    requires
        d >= 1,
        r == high * pow2(d) + low,
        -pow2(d) < 2 * low <= pow2(d),
    ensures
        rounding::power2round(r, d) == (high, low),
{
    let m = pow2(d) as int;
    lemma_pow2_pos(d);
    lemma_pow2_unfold(d);
    if low >= 0 {
        lemma_fundamental_div_mod_converse(r, m, high, low);
    } else {
        assert(r == (high - 1) * m + (m + low)) by (nonlinear_arith)
            requires
                r == high * m + low,
        ;
        lemma_fundamental_div_mod_converse(r, m, high - 1, m + low);
    }
    assert(rounding::mod_centered(r, m) == low);
    lemma_fundamental_div_mod_converse(r - low, m, high, 0);
}

/// The size of a residue is its distance from the nearest multiple of `Q`.
pub proof fn lemma_size(a: int)
    ensures
        ({
            let c = a % 8380417;
            poly::abs_centered(a) == (if c <= 4190208 {
                c
            } else {
                8380417 - c
            })
        }),
{
}

/// The norm is the size of some coefficient, and no coefficient has a larger one.
pub proof fn lemma_norm_attained(f: Seq<int>)
    requires
        f.len() > 0,
    ensures
        forall|i: int| 0 <= i < f.len() ==> poly::abs_centered(#[trigger] f[i]) <= poly::inf_norm(f),
        exists|i: int|
            0 <= i < f.len() && poly::abs_centered(#[trigger] f[i]) == poly::inf_norm(f),
{
    lemma_max_attained(f, f.len());
}

proof fn lemma_max_attained(f: Seq<int>, n: nat)
    requires
        1 <= n <= f.len(),
    ensures
        forall|i: int| 0 <= i < n ==> poly::abs_centered(#[trigger] f[i]) <= poly::max_abs(f, n),
        exists|i: int|
            0 <= i < n && poly::abs_centered(#[trigger] f[i]) == poly::max_abs(f, n),
    decreases n,
{
    let last = n - 1;
    assert(poly::abs_centered(f[last]) >= 0);
    if n > 1 {
        lemma_max_attained(f, (n - 1) as nat);
        let j = choose|i: int|
            0 <= i < n - 1 && poly::abs_centered(#[trigger] f[i]) == poly::max_abs(
                f,
                (n - 1) as nat,
            );
        assert(poly::abs_centered(f[j]) == poly::max_abs(f, n) || poly::abs_centered(f[last])
            == poly::max_abs(f, n));
    } else {
        assert(poly::max_abs(f, 0) == 0);
        assert(poly::abs_centered(f[0]) == poly::max_abs(f, 1));
    }
}

/// The norm of a vector is that of one of its polynomials, and none has a larger one.
pub proof fn lemma_vec_norm_attained(v: Seq<Seq<int>>)
    requires
        v.len() > 0,
        forall|i: int| 0 <= i < v.len() ==> (#[trigger] v[i]).len() > 0,
    ensures
        forall|i: int| 0 <= i < v.len() ==> poly::inf_norm(#[trigger] v[i]) <= polyvec::vec_norm(v),
        exists|i: int|
            0 <= i < v.len() && poly::inf_norm(#[trigger] v[i]) == polyvec::vec_norm(v),
{
    lemma_max_norm_attained(v, v.len());
}

proof fn lemma_max_norm_attained(v: Seq<Seq<int>>, n: nat)
    requires
        1 <= n <= v.len(),
        forall|i: int| 0 <= i < v.len() ==> (#[trigger] v[i]).len() > 0,
    ensures
        forall|i: int| 0 <= i < n ==> poly::inf_norm(#[trigger] v[i]) <= polyvec::max_norm(v, n),
        exists|i: int|
            0 <= i < n && poly::inf_norm(#[trigger] v[i]) == polyvec::max_norm(v, n),
    decreases n,
{
    let last = n - 1;
    lemma_norm_attained(v[last]);
    assert(poly::abs_centered(v[last][0]) >= 0);
    if n > 1 {
        lemma_max_norm_attained(v, (n - 1) as nat);
        let j = choose|i: int|
            0 <= i < n - 1 && poly::inf_norm(#[trigger] v[i]) == polyvec::max_norm(
                v,
                (n - 1) as nat,
            );
        assert(poly::inf_norm(v[j]) == polyvec::max_norm(v, n) || poly::inf_norm(v[last])
            == polyvec::max_norm(v, n));
    } else {
        assert(polyvec::max_norm(v, 0) == 0);
        assert(poly::inf_norm(v[0]) == polyvec::max_norm(v, 1));
    }
}

/// Sums, differences, products of transforms and multiples are taken at each of the 256
/// places, modulo 8380417.
pub proof fn lemma_entrywise(a: Seq<int>, b: Seq<int>, c: int, i: int)
    requires
        0 <= i < 256,
    ensures
        ring::ring_add(a, b).len() == 256,
        ring::ring_add(a, b)[i] == (a[i] + b[i]) % 8380417,
        ring::ring_sub(a, b).len() == 256,
        ring::ring_sub(a, b)[i] == (a[i] - b[i]) % 8380417,
        transform::pointwise(a, b).len() == 256,
        transform::pointwise(a, b)[i] == (a[i] * b[i]) % 8380417,
        transform::scaled(c, a).len() == 256,
        transform::scaled(c, a)[i] == (c * a[i]) % 8380417,
{
}

/// The product with a row adds up the products at each place.
pub proof fn lemma_row_entry(row: Seq<Seq<int>>, v: Seq<Seq<int>>, n: nat, p: int)
    requires
        0 <= p < 256,
    ensures
        polyvec::dot(row, v, n).len() == 256,
        polyvec::dot(row, v, 0)[p] == 0,
        n > 0 ==> polyvec::dot(row, v, n)[p] == (polyvec::dot(row, v, (n - 1) as nat)[p] + row[n
            - 1][p] * v[n - 1][p]) % 8380417,
{
    if n > 0 {
        zq::lemma_modq_add(
            polyvec::dot(row, v, (n - 1) as nat)[p],
            row[n - 1][p] * v[n - 1][p],
        );
    }
}

/// An entry of the product of a matrix and a vector of five transforms is the sum of the
/// five products of the row's entries with the vector's at that place, modulo 8380417.
pub proof fn lemma_product_entry(a: Seq<Seq<Seq<int>>>, z: Seq<Seq<int>>, i: int, p: int)
    requires
        z.len() == 5,
        0 <= i < a.len(),
        0 <= p < 256,
    ensures
        polyvec::mat_vec(a, z).len() == a.len(),
        polyvec::mat_vec(a, z)[i].len() == 256,
        polyvec::mat_vec(a, z)[i][p] == (a[i][0][p] * z[0][p] + a[i][1][p] * z[1][p] + a[i][2][p]
            * z[2][p] + a[i][3][p] * z[3][p] + a[i][4][p] * z[4][p]) % 8380417,
{
    let r = a[i];
    lemma_row_entry(r, z, 1, p);
    lemma_row_entry(r, z, 2, p);
    lemma_row_entry(r, z, 3, p);
    lemma_row_entry(r, z, 4, p);
    lemma_row_entry(r, z, 5, p);
    let x0 = r[0][p] * z[0][p];
    let x1 = r[1][p] * z[1][p];
    let x2 = r[2][p] * z[2][p];
    let x3 = r[3][p] * z[3][p];
    let x4 = r[4][p] * z[4][p];
    assert(polyvec::dot(r, z, 1)[p] == x0 % 8380417);
    lemma_add_mod_noop_left(x0, x1);
    lemma_add_mod_noop_left(x0 + x1, x2);
    lemma_add_mod_noop_left(x0 + x1 + x2, x3);
    lemma_add_mod_noop_left(x0 + x1 + x2 + x3, x4);
}

proof fn lemma_add_mod_noop_left(x: int, y: int)
    ensures
        (x % 8380417 + y) % 8380417 == (x + y) % 8380417,
{
    zq::lemma_modq_add(y, x);
}

proof fn lemma_sum_of_monomial(f: Seq<int>, j: int, n: nat, x: int)
    requires
        f.len() == 256,
        n <= 256,
        0 <= j < 256,
        forall|i: int|
            0 <= i < 256 ==> #[trigger] f[i] == (if i == j {
                1int
            } else {
                0
            }),
    ensures
        transform::psum(f, 0, 1, n, x) == (if j < n {
            power::pow(x, j as nat)
        } else {
            0
        }),
    decreases n,
{
    if n > 0 {
        lemma_sum_of_monomial(f, j, (n - 1) as nat, x);
        let t = power::pow(x, (n - 1) as nat);
        assert(f[0 + (n - 1) * 1] == (if n - 1 == j {
            1int
        } else {
            0
        }));
        assert(0 * t == 0 && 1 * t == t);
    }
}

/// The transform of `X^j` has at place `i` the power of 1753 with exponent `j (2 r + 1)`,
/// where `r` has the eight bits of `i` in reverse.
pub proof fn lemma_transform_of_monomial(f: Seq<int>, j: int, i: int)
    requires
        f.len() == 256,
        0 <= j < 256,
        forall|p: int|
            0 <= p < 256 ==> #[trigger] f[p] == (if p == j {
                1int
            } else {
                0
            }),
        0 <= i < 256,
    ensures
        ({
            let r = 128 * (i % 2) + 64 * (i / 2 % 2) + 32 * (i / 4 % 2) + 16 * (i / 8 % 2) + 8 * (i
                / 16 % 2) + 4 * (i / 32 % 2) + 2 * (i / 64 % 2) + i / 128;
            transform::ntt_of(f)[i] == power::pow(1753, ((2 * r + 1) * j) as nat) % 8380417
        }),
{
    let r = 128 * (i % 2) + 64 * (i / 2 % 2) + 32 * (i / 4 % 2) + 16 * (i / 8 % 2) + 8 * (i / 16
        % 2) + 4 * (i / 32 % 2) + 2 * (i / 64 % 2) + i / 128;
    lemma_reversed(i);
    lemma_sum_of_monomial(f, j, 256, transform::root(i));
    lemma_pow_multiplies(1753, (2 * r + 1) as nat, j as nat);
}

proof fn lemma_reversed(i: int)
    requires
        0 <= i < 256,
    ensures
        transform::brv(i as nat, 8) == 128 * (i % 2) + 64 * (i / 2 % 2) + 32 * (i / 4 % 2) + 16 * (i
            / 8 % 2) + 8 * (i / 16 % 2) + 4 * (i / 32 % 2) + 2 * (i / 64 % 2) + i / 128,
{
    lemma2_to64();
    let a = i as nat;
    assert(transform::brv(a, 8) == (a % 2) * 128 + transform::brv(a / 2, 7));
    assert(transform::brv(a / 2, 7) == (a / 2 % 2) * 64 + transform::brv(a / 4, 6)) by {
        assert(a / 2 / 2 == a / 4);
    }
    assert(transform::brv(a / 4, 6) == (a / 4 % 2) * 32 + transform::brv(a / 8, 5)) by {
        assert(a / 4 / 2 == a / 8);
    }
    assert(transform::brv(a / 8, 5) == (a / 8 % 2) * 16 + transform::brv(a / 16, 4)) by {
        assert(a / 8 / 2 == a / 16);
    }
    assert(transform::brv(a / 16, 4) == (a / 16 % 2) * 8 + transform::brv(a / 32, 3)) by {
        assert(a / 16 / 2 == a / 32);
    }
    assert(transform::brv(a / 32, 3) == (a / 32 % 2) * 4 + transform::brv(a / 64, 2)) by {
        assert(a / 32 / 2 == a / 64);
    }
    assert(transform::brv(a / 64, 2) == (a / 64 % 2) * 2 + transform::brv(a / 128, 1)) by {
        assert(a / 64 / 2 == a / 128);
    }
    assert(transform::brv(a / 128, 1) == (a / 128 % 2) * pow2(0) + transform::brv(a / 128 / 2, 0));
    assert(transform::brv(a / 128 / 2, 0) == 0);
    assert((a / 128 % 2) * pow2(0) == a / 128 % 2) by (nonlinear_arith)
        requires
            pow2(0) == 1,
    ;
    assert(i / 128 % 2 == i / 128);
}

/// The hints of polynomial `i`, of six, are the positions listed from where those of the
/// polynomial before it end up to the end that byte `55 + i` gives.
pub proof fn lemma_hint_positions(y: Seq<u8>, i: int, j: int)
    requires
        y.len() == 61,
        0 <= i < 6,
        0 <= j < 256,
    ensures
        hints::hint_matrix(y).len() == 6,
        hints::hint_matrix(y)[i].len() == 256,
        hints::hint_matrix(y)[i][j] <==> exists|p: int|
            (if i == 0 {
                0
            } else {
                y[54 + i] as int
            }) <= p < y[55 + i] && #[trigger] y[p] as int == j,
{
    if i > 0 {
        assert(hints::run_start(y, i) == y[54 + i] as int);
    }
    assert(hints::run_end(y, i) == y[55 + i] as int);
}

/// A hint encoding is well formed if and only if it has 61 bytes, the six ends do not
/// decrease and are at most 55, the positions between two ends increase, and the positions
/// from the last end on are zero.
pub proof fn lemma_hint_form(y: Seq<u8>)
    ensures
        hints::hint_fault(y) is None <==> {
            &&& y.len() == 61
            &&& forall|i: int| 56 <= i < 61 ==> y[i - 1] <= #[trigger] y[i]
            &&& y[60] <= 55
            &&& forall|p: int|
                0 < p < y[60] && (forall|i: int| 55 <= i < 60 ==> #[trigger] y[i] as int != p)
                    ==> y[p - 1] < #[trigger] y[p]
            &&& forall|p: int| y[60] <= p < 55 ==> #[trigger] y[p] == 0
        },
        hints::hint_valid(y) <==> hints::hint_fault(y) is None,
{
    hints::lemma_hint_valid(y);
    if y.len() == 61 {
        let ends = (forall|i: int| 56 <= i < 61 ==> y[i - 1] <= #[trigger] y[i]) && y[60] <= 55;
        let grows = forall|p: int|
            0 < p < y[60] && (forall|i: int| 55 <= i < 60 ==> #[trigger] y[i] as int != p) ==> y[p
                - 1] < #[trigger] y[p];
        if hints::hint_valid(y) {
            assert(hints::run_valid(y, 0) && hints::run_valid(y, 1) && hints::run_valid(y, 2));
            assert(hints::run_valid(y, 3) && hints::run_valid(y, 4) && hints::run_valid(y, 5));
            assert(y[55] <= y[56] <= y[57] <= y[58] <= y[59] <= y[60] <= 55);
            assert(ends);
            assert forall|p: int|
                0 < p < y[60] && (forall|i: int| 55 <= i < 60 ==> #[trigger] y[i] as int
                    != p) implies y[p - 1] < #[trigger] y[p] by {
                assert(y[55] as int != p && y[56] as int != p && y[57] as int != p);
                assert(y[58] as int != p && y[59] as int != p);
            }
        }
        if ends && grows {
            assert(y[55] <= y[56] && y[56] <= y[57] && y[57] <= y[58] && y[58] <= y[59] && y[59]
                <= y[60] && y[60] <= 55);
            assert forall|i: int| 0 <= i < 6 implies #[trigger] hints::run_valid(y, i) by {
                assert(hints::run_end(y, i) == y[55 + i]);
                if i > 0 {
                    assert(hints::run_start(y, i) == y[54 + i]);
                }
                assert forall|p: int|
                    hints::run_start(y, i) < p < hints::run_end(y, i) implies y[p - 1]
                    < #[trigger] y[p] by {
                    assert forall|k: int| 55 <= k < 60 implies #[trigger] y[k] as int != p by {
                        if i == 0 {
                        } else if i == 1 {
                        } else if i == 2 {
                        } else if i == 3 {
                        } else if i == 4 {
                        } else {
                        }
                    }
                }
            }
        }
    }
}

/// The seed of a challenge is read from the SHAKE-256 stream on the 64-byte representative
/// of the message, which is hashed from the 64-byte hash of the key, two zeros and the whole
/// message, followed by the high parts, four bits of each, at two in a byte.
pub proof fn lemma_challenge_input(
    pk: Seq<u8>,
    msg: Seq<u8>,
    w1: Seq<Seq<int>>,
    first: Seq<u8>,
    second: Seq<u8>,
)
    requires
        forall|r: int| 0 <= r < w1.len() ==> (#[trigger] w1[r]).len() == 256,
        first.len() == 66 + msg.len(),
        forall|i: int| 0 <= i < 64 ==> #[trigger] first[i] == xof::shake256_byte(pk, i),
        first[64] == 0,
        first[65] == 0,
        forall|i: int| 0 <= i < msg.len() ==> first[66 + i] == #[trigger] msg[i],
        second.len() == 64 + 128 * w1.len(),
        forall|i: int| 0 <= i < 64 ==> #[trigger] second[i] == xof::shake256_byte(first, i),
        forall|r: int, k: int|
            0 <= r < w1.len() && 0 <= k < 128 ==> #[trigger] second[64 + 128 * r + k] as int
                == w1[r][2 * k] % 16 + 16 * (w1[r][2 * k + 1] % 16),
    ensures
        verify::challenge_seed(pk, msg, w1) == Seq::new(
            48,
            |i: int| xof::shake256_byte(second, i),
        ),
{
    let whole = xof::key_hash(pk) + (seq![0u8, 0u8] + msg);
    assert forall|i: int| 0 <= i < first.len() implies first[i] == whole[i] by {
        if i >= 66 {
            assert(first[66 + (i - 66)] == msg[i - 66]);
        }
    }
    assert(first =~= whole);
    let mu = verify::message_representative(pk, msg);
    let enc = encoding::w1_bytes(w1, w1.len());
    exact::lemma_high_bytes(w1, w1.len());
    let all = mu + enc;
    assert forall|i: int| 0 <= i < second.len() implies second[i] == all[i] by {
        if i >= 64 {
            let r = (i - 64) / 128;
            let k = (i - 64) % 128;
            let b = w1[r][2 * k] % 16 + 16 * (w1[r][2 * k + 1] % 16);
            assert(second[64 + 128 * r + k] as int == b);
            assert(enc[128 * r + k] as int == b);
            assert(64 + 128 * r + k == i);
        }
    }
    assert(second =~= all);
    assert(verify::challenge_seed(pk, msg, w1) =~= Seq::new(
        48,
        |i: int| xof::shake256_byte(second, i),
    ));
}

/// A signature is valid if and only if the lengths are right, the hint is well formed, every
/// coefficient of the response is below 524092 in size, and the seed in the signature is the
/// one that message and claimed high parts lead to.
pub proof fn lemma_validity(pk: Seq<u8>, msg: Seq<u8>, sig: Seq<u8>)
    ensures
        verify::is_valid(pk, msg, sig) <==> {
            &&& pk.len() == 1952
            &&& sig.len() == 3309
            &&& hints::hint_fault(sig.subrange(3248, 3309)) is None
            &&& forall|r: int, i: int|
                0 <= r < 5 && 0 <= i < 256 ==> -524092 < #[trigger] encoding::sig_z(sig)[r][i]
                    < 524092
            &&& sig.subrange(0, 48) == verify::challenge_seed(
                pk,
                msg,
                verify::claimed_w1(pk, sig),
            )
        },
{
    if sig.len() == 3309 {
        let z = encoding::sig_z(sig);
        hints::lemma_hint_valid(encoding::sig_hint_bytes(sig));
        polyvec::lemma_vec_norm_below(z, 524092);
        assert forall|r: int, i: int| 0 <= r < 5 && 0 <= i < 256 implies z[r].len() == 256
            && -524288 <= #[trigger] z[r][i] <= 524288 by {
            exact::lemma_response_coefficients(sig, r, i / 2);
            assert(i == 2 * (i / 2) || i == 2 * (i / 2) + 1);
        }
        assert(z.len() == 5);
        let small = forall|r: int, i: int|
            0 <= r < 5 && 0 <= i < 256 ==> -524092 < #[trigger] z[r][i] < 524092;
        assert forall|r: int| 0 <= r < 5 implies (poly::inf_norm(#[trigger] z[r]) < 524092 <==> (
        forall|i: int| 0 <= i < 256 ==> -524092 < #[trigger] z[r][i] < 524092)) by {
            poly::lemma_norm_below(z[r], 524092);
            assert(z[r].len() == 256) by {
                exact::lemma_response_coefficients(sig, r, 0);
            }
            assert forall|i: int| 0 <= i < 256 implies (poly::abs_centered(#[trigger] z[r][i])
                < 524092 <==> -524092 < z[r][i] < 524092) by {
                lemma_size(z[r][i]);
                assert(-524288 <= z[r][i] <= 524288);
            }
        }
        if small {
            assert forall|r: int| 0 <= r < 5 implies poly::inf_norm(#[trigger] z[r]) < 524092 by {}
        }
        if polyvec::vec_norm(z) < 524092 {
            assert forall|r: int, i: int| 0 <= r < 5 && 0 <= i < 256 implies -524092
                < #[trigger] z[r][i] < 524092 by {
                assert(poly::inf_norm(z[r]) < 524092);
            }
        }
    }
}

/// The claimed high parts are those of `A z - c t1 2^13` in the ring, with the response `z`
/// and the hint of the signature, the challenge drawn from the signature's first 48 bytes,
/// and the matrix and `t1` of the key.
pub proof fn lemma_claimed_high_parts(pk: Seq<u8>, sig: Seq<u8>, t1: Seq<Seq<int>>, r: int, i: int)
    requires
        pk.len() == 1952,
        sig.len() == 3309,
        verify::samplers_terminate(pk, sig),
        t1 == encoding::chunk_polys(pk, 32, 10, 6),
        0 <= r < 6,
        0 <= i < 256,
    ensures
        ({
            let z = Seq::new(
                5,
                |j: int| Seq::new(256, |k: int| encoding::sig_z(sig)[j][k] % 8380417),
            );
            let w = ring::ring_sub(
                verify::ring_dot(xof::matrix_of(pk.subrange(0, 32))[r], z, 5),
                ring::ring_mul(
                    Seq::new(256, |k: int| (8192 * t1[r][k]) % 8380417),
                    xof::ball_poly(sig.subrange(0, 48)),
                ),
            );
            verify::claimed_w1(pk, sig)[r][i] == rounding::use_hint(
                hints::hint_matrix(sig.subrange(3248, 3309))[r][i],
                w[i],
            )
        }),
{
    let z = Seq::new(5, |j: int| Seq::new(256, |k: int| encoding::sig_z(sig)[j][k] % 8380417));
    let rho = pk.subrange(0, 32);
    let c = xof::ball_poly(sig.subrange(0, 48));
    let a = xof::matrix_of(rho);
    assert(T1_BITS as nat == 10 && K as nat == 6);
    assert(verify::reduced(encoding::sig_z(sig)) =~= z) by {
        assert forall|j: int| 0 <= j < 5 implies verify::reduced(encoding::sig_z(sig))[j] =~= z[j] by {}
    }
    xof::lemma_ball_weight(sig.subrange(0, 48));
    assert forall|j: int| 0 <= j < 6 implies transform::is_elem(#[trigger] t1[j]) by {
        assert forall|k: int| 0 <= k < 256 implies field::in_field(#[trigger] t1[j][k]) by {
            exact::lemma_key_coefficients(pk, j, k / 4);
            assert(k == 4 * (k / 4) || k == 4 * (k / 4) + 1 || k == 4 * (k / 4) + 2 || k == 4 * (k
                / 4) + 3);
        }
    }
    assert forall|j: int| 0 <= j < a.len() implies (#[trigger] a[j]).len() == 5
        && polyvec::all_elems(a[j]) by {
        assert forall|k: int| 0 <= k < 5 implies transform::is_elem(#[trigger] a[j][k]) by {
            let s = xof::entry_seed(rho, j, k);
            assert(xof::rej_terminates(s));
            let t = choose|t: nat| #[trigger] xof::rej_ready(s, t) && 3 * t + 840 <= isize::MAX;
            xof::lemma_rej_poly(s, t);
        }
    }
    verify::lemma_commitment_in_ring(a, c, z, t1);
    assert(transform::scaled(8192, t1[r]) =~= Seq::new(
        256,
        |k: int| (8192 * t1[r][k]) % 8380417,
    ));
}

/// The factors of the butterflies: the forward one of index `k` is the power of 1753 whose
/// exponent has the eight bits of `k` in reverse, and the inverse one undoes it.
pub proof fn lemma_factors(k: int)
    requires
        0 <= k < 256,
    ensures
        ({
            let r = 128 * (k % 2) + 64 * (k / 2 % 2) + 32 * (k / 4 % 2) + 16 * (k / 8 % 2) + 8 * (k
                / 16 % 2) + 4 * (k / 32 % 2) + 2 * (k / 64 % 2) + k / 128;
            &&& transform::zeta_fwd(k) == power::pow(1753, r as nat) % 8380417
            &&& (transform::zeta_fwd(k) * transform::zeta_inv(k)) % 8380417 == 1
            &&& 0 <= transform::zeta_inv(k) < 8380417
        }),
{
    lemma_reversed(k);
    transform::lemma_zetas_inverse(k);
}

/// The residue of a number is the number less a multiple of 8380417, from zero up to it; the
/// centered one is from half of it below zero up to half of it.
pub proof fn lemma_residue(x: int, r: int, k: int)
    requires
        x == r + 8380417 * k,
    ensures
        0 <= r < 8380417 ==> zq::modq(x) == r,
        -4190208 <= r <= 4190208 ==> field::centered(x) == r,
        zq::congruent(x, r),
        field::in_field(x) <==> 0 <= x < 8380417,
{
    if 0 <= r < 8380417 {
        lemma_fundamental_div_mod_converse(x, 8380417, k, r);
    }
    if -4190208 <= r < 0 {
        lemma_fundamental_div_mod_converse(x, 8380417, k - 1, r + 8380417);
    }
    lemma_mod_multiples_vanish(k, r, 8380417);
}

proof fn lemma_terms_of_monomial(f: Seq<int>, b: Seq<int>, j: int, k: int, m: nat)
    requires
        f.len() == 256,
        m <= 256,
        0 <= j < 256,
        forall|i: int|
            0 <= i < 256 ==> #[trigger] f[i] == (if i == j {
                1int
            } else {
                0
            }),
    ensures
        ring::product_terms(f, b, k, m) == (if j < m {
            ring::wrapped(b, k - j)
        } else {
            0
        }),
    decreases m,
{
    if m > 0 {
        lemma_terms_of_monomial(f, b, j, k, (m - 1) as nat);
        let w = ring::wrapped(b, k - (m - 1));
        assert(f[m - 1] == (if m - 1 == j {
            1int
        } else {
            0
        }));
        assert(0 * w == 0 && 1 * w == w);
    }
}

/// The product with `X^j` moves every coefficient up by `j` places; those that leave at the
/// top come back at the bottom with their sign changed.
pub proof fn lemma_product_with_monomial(f: Seq<int>, b: Seq<int>, j: int, k: int)
    requires
        f.len() == 256,
        b.len() == 256,
        0 <= j < 256,
        0 <= k < 256,
        forall|i: int|
            0 <= i < 256 ==> #[trigger] f[i] == (if i == j {
                1int
            } else {
                0
            }),
    ensures
        ring::ring_mul(f, b).len() == 256,
        k >= j ==> ring::ring_mul(f, b)[k] == b[k - j] % 8380417,
        k < j ==> ring::ring_mul(f, b)[k] == (-b[k - j + 256]) % 8380417,
{
    lemma_terms_of_monomial(f, b, j, k, 256);
}

/// Whether the run of polynomial `i` in a hint encoding lies between its start and byte 55
/// and increases.
pub open spec fn run_fine(y: Seq<u8>, i: int) -> bool {
    let start = if i == 0 {
        0
    } else {
        y[54 + i] as int
    };
    &&& start <= y[55 + i] <= 55
    &&& forall|p: int| start < p < y[55 + i] ==> y[p - 1] < #[trigger] y[p]
}

proof fn lemma_order_found(y: Seq<u8>, start: int, p: int, q: int, end: int)
    requires
        start <= p <= q < end,
        start < q,
        y[q] <= y[q - 1],
        forall|k: int| p <= k < q && start < k ==> y[k - 1] < #[trigger] y[k],
    ensures
        hints::order_fault(y, start, p, end) == Some(DecodeError::HintOrder { pos: q as usize }),
    decreases q - p,
{
    if p < q {
        if start < p {
            assert(y[p - 1] < y[p]);
        }
        lemma_order_found(y, start, p + 1, q, end);
    }
}

proof fn lemma_order_fine(y: Seq<u8>, start: int, p: int, end: int)
    requires
        start <= p,
        forall|k: int| start < k < end ==> y[k - 1] < #[trigger] y[k],
    ensures
        hints::order_fault(y, start, p, end) is None,
    decreases end - p,
{
    if p < end {
        if start < p {
            assert(y[p - 1] < y[p]);
        }
        lemma_order_fine(y, start, p + 1, end);
    }
}

proof fn lemma_padding_found(y: Seq<u8>, p: int, q: int)
    requires
        p <= q < 55,
        y[q] != 0,
        forall|k: int| p <= k < q ==> #[trigger] y[k] == 0,
    ensures
        hints::padding_fault(y, p) == Some(DecodeError::HintPadding { pos: q as usize }),
    decreases q - p,
{
    if p < q {
        assert(y[p] == 0);
        lemma_padding_found(y, p + 1, q);
    }
}

proof fn lemma_runs_passed(y: Seq<u8>, j: nat, i: nat)
    requires
        j <= i <= 6,
        forall|k: int| j <= k < i ==> #[trigger] run_fine(y, k),
    ensures
        hints::fault_from(y, j) == hints::fault_from(y, i),
    decreases i - j,
{
    if j < i {
        assert(run_fine(y, j as int));
        lemma_order_fine(
            y,
            hints::run_start(y, j as int),
            hints::run_start(y, j as int),
            hints::run_end(y, j as int),
        );
        lemma_runs_passed(y, j + 1, i);
    }
}

/// What is reported of a hint encoding: a length other than 61; of the first polynomial whose
/// run is not fine, an end below its start or above 55, or else the first position in the run
/// that is not above the one before; and where all runs are fine, the first position behind
/// them that is not zero.
pub proof fn lemma_hint_fault_reported(y: Seq<u8>, i: int, p: int)
    ensures
        y.len() != 61 ==> hints::hint_fault(y) == Some(
            DecodeError::HintLength { got: y.len() as usize },
        ),
        y.len() == 61 && 0 <= i < 6 && (forall|k: int| 0 <= k < i ==> #[trigger] run_fine(y, k))
            ==> {
            let start = if i == 0 {
                0
            } else {
                y[54 + i] as int
            };
            let end = y[55 + i] as int;
            &&& end < start || end > 55 ==> hints::hint_fault(y) == Some(
                DecodeError::HintOffset {
                    row: i as usize,
                    start: start as usize,
                    offset: end as usize,
                },
            )
            &&& start < p < end <= 55 && y[p] <= y[p - 1] && (forall|k: int|
                start < k < p ==> y[k - 1] < #[trigger] y[k]) ==> hints::hint_fault(y) == Some(
                DecodeError::HintOrder { pos: p as usize },
            )
        },
        y.len() == 61 && (forall|k: int| 0 <= k < 6 ==> #[trigger] run_fine(y, k)) && y[60] <= p
            < 55 && y[p] != 0 && (forall|k: int| y[60] <= k < p ==> #[trigger] y[k] == 0)
            ==> hints::hint_fault(y) == Some(DecodeError::HintPadding { pos: p as usize }),
{
    if y.len() == 61 && 0 <= i < 6 && (forall|k: int| 0 <= k < i ==> #[trigger] run_fine(y, k)) {
        lemma_runs_passed(y, 0, i as nat);
        let start = if i == 0 {
            0
        } else {
            y[54 + i] as int
        };
        let end = y[55 + i] as int;
        assert(hints::run_start(y, i) == start && hints::run_end(y, i) == end);
        if start < p < end <= 55 && y[p] <= y[p - 1] && (forall|k: int|
            start < k < p ==> y[k - 1] < #[trigger] y[k]) {
            lemma_order_found(y, start, start, p, end);
        }
    }
    if y.len() == 61 && (forall|k: int| 0 <= k < 6 ==> #[trigger] run_fine(y, k)) && y[60] <= p < 55
        && y[p] != 0 && (forall|k: int| y[60] <= k < p ==> #[trigger] y[k] == 0) {
        lemma_runs_passed(y, 0, 6);
        assert(hints::run_start(y, 6) == y[60] as int);
        lemma_padding_found(y, y[60] as int, p);
    }
}

/// How the parameters hang together.
pub proof fn lemma_parameters()
    ensures
        params::Q == 0x800000 - 0x2000 + 1,
        params::N == 256,
        (params::N * params::N_INV) % (params::Q as int) == 1,
        params::BETA == params::TAU * params::ETA,
        params::GAMMA1 == 0x80000,
        32 * params::GAMMA2 == params::Q - 1,
        2 * params::GAMMA2 * params::M == params::Q - 1,
        params::D == 13,
        params::T1_BITS == 23 - params::D,
        params::LAMBDA == 192,
        4 * params::LAMBDA_BYTES == params::LAMBDA,
        params::PK_BYTES == 32 + params::K * 32 * params::T1_BITS,
        params::SIG_BYTES == params::LAMBDA_BYTES + params::L * 32 * params::Z_BITS + params::OMEGA
            + params::K,
{
}

} // verus!
