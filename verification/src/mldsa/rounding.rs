//! Splitting residues into high-order and low-order parts.
use crate::mldsa::params::{GAMMA2, M, Q};
use crate::mldsa::zq;
use vstd::arithmetic::power2::*;
use vstd::prelude::*;

verus! {

/// The representative of `r` modulo an even `m` in `(-m/2, m/2]`.
pub open spec fn mod_centered(r: int, m: int) -> int {
    if r % m > m / 2 {
        r % m - m
    } else {
        r % m
    }
}

/// `r` as `(high, low)` with `r = high * 2^d + low` and `low` centered.
pub open spec fn power2round(r: int, d: nat) -> (int, int) {
    let low = mod_centered(r, pow2(d) as int);
    ((r - low) / (pow2(d) as int), low)
}

/// `r` as `(high, low)` with `r = high * 2 GAMMA2 + low` modulo `Q`, where the top
/// high value wraps around to zero.
pub open spec fn decompose(r: int) -> (int, int) {
    let alpha = 2 * GAMMA2 as int;
    let low = mod_centered(zq::modq(r), alpha);
    if zq::modq(r) - low == Q - 1 {
        (0, low - 1)
    } else {
        ((zq::modq(r) - low) / alpha, low)
    }
}

/// The high part of `r`, moved by one towards the sign of the low part if hinted.
pub open spec fn use_hint(h: bool, r: int) -> int {
    let (high, low) = decompose(r);
    if !h {
        high
    } else if low > 0 {
        (high + 1) % (M as int)
    } else {
        (high - 1) % (M as int)
    }
}

/// The two parts of a decomposition make up the residue and lie in their ranges.
pub proof fn lemma_decompose(r: int)
    ensures
        zq::congruent(decompose(r).0 * (2 * GAMMA2) + decompose(r).1, r),
        0 <= decompose(r).0 < M,
        -(GAMMA2 as int) <= decompose(r).1 <= GAMMA2,
{
    let c = zq::modq(r);
    let low = mod_centered(c, 523_776);
    assert((c - low) % 523_776 == 0);
    let high = (c - low) / 523_776;
    assert(high * 523_776 == c - low);
}

/// The two parts of a rounding make up the number and the low part is centered.
pub proof fn lemma_power2round(r: int, d: nat)
    requires
        d >= 1,
    ensures
        power2round(r, d).0 * pow2(d) + power2round(r, d).1 == r,
        -(pow2((d - 1) as nat) as int) < power2round(r, d).1 <= pow2((d - 1) as nat),
{
    let m = pow2(d) as int;
    lemma_pow2_pos((d - 1) as nat);
    lemma_pow2_unfold(d);
    vstd::arithmetic::div_mod::lemma_fundamental_div_mod(r, m);
    let low = mod_centered(r, m);
    let q = if r % m > m / 2 {
        r / m + 1
    } else {
        r / m
    };
    assert(r - low == q * m) by (nonlinear_arith)
        requires
            r == m * (r / m) + r % m,
            (q == r / m + 1 && low == r % m - m) || (q == r / m && low == r % m),
    ;
    vstd::arithmetic::div_mod::lemma_fundamental_div_mod_converse(q * m, m, q, 0);
}

/// Truncating division and remainder by a positive `m`, in terms of the flooring ones.
pub proof fn lemma_truncated(r: int, m: int)
    requires
        m > 0,
        r < 0,
    ensures
        -((-r) % m) < 0 ==> m - (-r) % m == r % m,
        (-r) % m == 0 ==> r % m == 0 && -((-r) / m) == r / m,
{
    let q = (-r) / m;
    let t = (-r) % m;
    vstd::arithmetic::div_mod::lemma_fundamental_div_mod(-r, m);
    if t == 0 {
        assert(r == (-q) * m + 0) by (nonlinear_arith)
            requires
                -r == m * q + t,
                t == 0,
        ;
        vstd::arithmetic::div_mod::lemma_fundamental_div_mod_converse(r, m, -q, 0);
    } else {
        assert(r == (-q - 1) * m + (m - t)) by (nonlinear_arith)
            requires
                -r == m * q + t,
        ;
        vstd::arithmetic::div_mod::lemma_fundamental_div_mod_converse(r, m, -q - 1, m - t);
    }
}

/// A hint moves the high part by exactly one step around the circle of `M` values.
pub proof fn lemma_use_hint(r: int)
    ensures
        0 <= use_hint(true, r) < M,
        0 <= use_hint(false, r) < M,
        use_hint(false, r) == decompose(r).0,
        use_hint(true, r) != use_hint(false, r),
        (use_hint(true, r) - use_hint(false, r)) % (M as int) == 1 || (use_hint(true, r)
            - use_hint(false, r)) % (M as int) == M - 1,
{
    lemma_decompose(r);
}

} // verus!
