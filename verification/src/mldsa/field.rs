//! Arithmetic in `Z_q` for `q = 8 380 417`.
//!
//! Elements are represented by their residues in `[0, Q)`.
use crate::mldsa::params::{N_INV, Q, ZETA};
use crate::mldsa::zq;
use vstd::arithmetic::power;
use vstd::arithmetic::power::*;
use vstd::prelude::*;

verus! {

/// Whether `a` is a residue in `[0, Q)`.
pub open spec fn in_field(a: int) -> bool {
    0 <= a < Q
}

/// The representative of `a` in `(-Q/2, Q/2]`.
pub open spec fn centered(a: int) -> int {
    if zq::modq(a) > (Q as int) / 2 {
        zq::modq(a) - Q
    } else {
        zq::modq(a)
    }
}

/// Reduces `a`, which may be negative or exceed `Q`, to `[0, Q)`.
pub fn reduce(a: i64) -> (r: i64)
    ensures
        r == zq::modq(a as int),
        in_field(r as int),
{
    let r: i64 = a % Q;
    if r < 0 {
        r + Q
    } else {
        r
    }
}

/// Reduces `a` to the centered representation in `(-Q/2, Q/2]`.
pub fn reduce_centered(a: i64) -> (r: i64)
    ensures
        r == centered(a as int),
        zq::modq(r as int) == zq::modq(a as int),
        -(Q as int) < 2 * r <= Q,
{
    let r: i64 = reduce(a);
    if r > Q / 2 {
        r - Q
    } else {
        r
    }
}

/// Sum of two residues.
pub fn add(a: i64, b: i64) -> (r: i64)
    requires
        in_field(a as int),
        in_field(b as int),
    ensures
        r == zq::modq(a + b),
        in_field(r as int),
{
    let r: i64 = a + b;
    if r >= Q {
        r - Q
    } else {
        r
    }
}

/// Difference of two residues.
pub fn sub(a: i64, b: i64) -> (r: i64)
    requires
        in_field(a as int),
        in_field(b as int),
    ensures
        r == zq::modq(a - b),
        in_field(r as int),
{
    let r: i64 = a - b;
    if r < 0 {
        r + Q
    } else {
        r
    }
}

pub proof fn lemma_product_bound(a: int, b: int)
    requires
        in_field(a),
        in_field(b),
    ensures
        0 <= a * b <= (Q - 1) * (Q - 1),
{
    assert(0 <= a * b <= (Q - 1) * (Q - 1)) by (nonlinear_arith)
        requires
            0 <= a < Q,
            0 <= b < Q,
    ;
}

/// Product of two residues.
pub fn mul(a: i64, b: i64) -> (r: i64)
    requires
        in_field(a as int),
        in_field(b as int),
    ensures
        r == zq::modq(a * b),
        in_field(r as int),
{
    proof {
        lemma_product_bound(a as int, b as int);
    }
    (a * b) % Q
}

/// Square-and-multiply exponentiation: `base^exp` modulo `Q`.
pub fn pow(base: i64, exp: u64) -> (r: i64)
    ensures
        r == zq::modq(power::pow(base as int, exp as nat)),
        in_field(r as int),
{
    let mut result: i64 = 1;
    let mut square: i64 = reduce(base);
    let mut left: u64 = exp;
    proof {
        zq::lemma_pow_congruent(base as int, square as int, exp as nat);
    }
    while left > 0
        invariant
            in_field(result as int),
            in_field(square as int),
            zq::modq(result * power::pow(square as int, left as nat)) == zq::modq(
                power::pow(base as int, exp as nat),
            ),
        decreases left,
    {
        let ghost b = square as int;
        let ghost e = left as nat;
        let ghost r0 = result as int;
        let ghost half = power::pow(b * b, (e / 2) as nat);
        proof {
            lemma_pow_multiplies(b, 2, (e / 2) as nat);
            lemma_square_is_pow2(b);
            reveal(power::pow);
            assert(left & 1 == left % 2) by (bit_vector);
            assert(left >> 1 == left / 2) by (bit_vector);
            lemma_pow_adds(b, (2 * (e / 2)) as nat, (e % 2) as nat);
            lemma_pow0(b);
            lemma_pow1(b);
            lemma_product_bound(result as int, square as int);
            lemma_product_bound(square as int, square as int);
        }
        if left & 1 == 1 {
            result = (result * square) % Q;
            proof {
                assert(r0 * (half * b) == (r0 * b) * half) by (nonlinear_arith);
                zq::lemma_modq_mul(r0 * b, half);
            }
        }
        proof {
            assert(zq::modq(result * half) == zq::modq(
                power::pow(base as int, exp as nat),
            )) by {
                if e % 2 == 0 {
                    assert(half * 1 == half);
                }
            }
        }
        square = (square * square) % Q;
        left = left >> 1;
        proof {
            zq::lemma_pow_congruent(b * b, square as int, (e / 2) as nat);
            zq::lemma_modq_mul(
                result as int,
                power::pow(square as int, (e / 2) as nat),
            );
            zq::lemma_modq_mul(result as int, half);
        }
    }
    proof {
        lemma_pow0(square as int);
    }
    result
}

/// Modular inverse `a^(Q-2)`, for `a` not divisible by `Q`.
pub fn inv(a: i64) -> (r: i64)
    requires
        zq::modq(a as int) != 0,
    ensures
        in_field(r as int),
        zq::modq(a * r) == 1,
{
    let a0: i64 = reduce(a);
    let r: i64 = self::pow(a0, 8_380_415);
    proof {
        zq::lemma_fermat(a0 as int);
        zq::lemma_modq_mul(a0 as int, power::pow(a0 as int, (Q - 2) as nat));
        zq::lemma_modq_mul(a as int, r as int);
    }
    r
}

/// `inv(a)` is the only residue whose product with `a` is 1.
pub proof fn lemma_inverse_unique(a: int, x: int, y: int)
    requires
        in_field(x),
        in_field(y),
        zq::modq(a * x) == 1,
        zq::modq(a * y) == 1,
    ensures
        x == y,
{
    let b = zq::modq(a);
    zq::lemma_modq_mul(a, x);
    zq::lemma_modq_mul(a, y);
    assert(b * (x - y) == b * x - b * y) by (nonlinear_arith);
    assert(0 * x == 0) by (nonlinear_arith);
    zq::lemma_euclid(b, x - y);
}

/// `Z_q` has no zero divisors.
pub proof fn lemma_no_zero_divisors(a: int, b: int)
    requires
        in_field(a),
        in_field(b),
    ensures
        zq::modq(a * b) == 0 <==> a == 0 || b == 0,
{
    assert(0 * b == 0 && a * 0 == 0) by (nonlinear_arith);
    if a != 0 && zq::modq(a * b) == 0 {
        zq::lemma_euclid(a, b);
    }
}

/// `ZETA` is a primitive 512th root of unity: its 256th power is -1.
pub proof fn lemma_zeta_order()
    ensures
        zq::modq(power::pow(ZETA as int, 256)) == Q - 1,
        zq::modq(power::pow(ZETA as int, 512)) == 1,
{
    let z = ZETA as int;
    lemma_pow1(z);
    zq::lemma_pow_double(z, 1, 1753);
    zq::lemma_pow_double(z, 2, 3073009);
    zq::lemma_pow_double(z, 4, 3602218);
    zq::lemma_pow_double(z, 8, 5010068);
    zq::lemma_pow_double(z, 16, 7778734);
    zq::lemma_pow_double(z, 32, 5178923);
    zq::lemma_pow_double(z, 64, 3765607);
    zq::lemma_pow_double(z, 128, 4808194);
    zq::lemma_pow_double(z, 256, 8380416);
}

/// `N_INV` is the inverse of 256.
pub proof fn lemma_n_inv()
    ensures
        zq::modq(256 * N_INV) == 1,
{
}

} // verus!
