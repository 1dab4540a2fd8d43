//! Facts about residues modulo `Q`: congruence, powers and Fermat's theorem.
use crate::mldsa::params::Q;
use vstd::arithmetic::div_mod::*;
use vstd::arithmetic::mul::*;
use vstd::arithmetic::power::*;
use vstd::prelude::*;

verus! {

/// The residue of `x` in `[0, Q)`.
pub open spec fn modq(x: int) -> int {
    x % (Q as int)
}

/// Whether `x` and `y` leave the same residue.
pub open spec fn congruent(x: int, y: int) -> bool {
    modq(x) == modq(y)
}

pub proof fn lemma_modq_mul(x: int, y: int)
    ensures
        modq(x * y) == modq(modq(x) * modq(y)),
        modq(x * y) == modq(modq(x) * y),
        modq(x * y) == modq(x * modq(y)),
{
    lemma_mul_mod_noop(x, y, Q as int);
    lemma_mul_mod_noop_left(x, y, Q as int);
    lemma_mul_mod_noop_right(x, y, Q as int);
}

pub proof fn lemma_modq_add(x: int, y: int)
    ensures
        modq(x + modq(y)) == modq(x + y),
        modq(x - modq(y)) == modq(x - y),
        modq(modq(x) + modq(y)) == modq(x + y),
        modq(modq(x) - modq(y)) == modq(x - y),
{
    lemma_add_mod_noop_right(x, y, Q as int);
    lemma_sub_mod_noop_right(x, y, Q as int);
    lemma_add_mod_noop(x, y, Q as int);
    lemma_sub_mod_noop(x, y, Q as int);
}

pub proof fn lemma_congruent_mul(a: int, b: int, x: int, y: int)
    requires
        congruent(a, b),
        congruent(x, y),
    ensures
        congruent(a * x, b * y),
{
    lemma_modq_mul(a, x);
    lemma_modq_mul(b, y);
}

pub proof fn lemma_pow_congruent(a: int, b: int, e: nat)
    requires
        congruent(a, b),
    ensures
        congruent(pow(a, e), pow(b, e)),
{
    lemma_pow_mod_noop(a, e, Q as int);
    lemma_pow_mod_noop(b, e, Q as int);
}

/// One squaring step of a chain of known powers.
pub proof fn lemma_pow_double(b: int, e: nat, r: int)
    requires
        modq(pow(b, e)) == r,
    ensures
        modq(pow(b, 2 * e)) == modq(r * r),
{
    lemma_pow_adds(b, e, e);
    lemma_modq_mul(pow(b, e), pow(b, e));
    assert(2 * e == e + e);
}

/// `Q` has no factorisation into two factors greater than one.
proof fn lemma_no_factors(x: u64, y: u64)
    by (bit_vector)
    requires
        2 <= x,
        x < 4096,
        x <= y,
        y < 8388608,
    ensures
        x * y != 8380417,
{
}

/// `Q` is prime: nothing strictly between 1 and `Q` divides it.
pub proof fn lemma_q_prime(x: int)
    requires
        1 < x < Q,
    ensures
        (Q as int) % x != 0,
{
    if (Q as int) % x == 0 {
        let y = (Q as int) / x;
        lemma_fundamental_div_mod(Q as int, x);
        assert(x * y == Q);
        assert(1 < y < Q) by (nonlinear_arith)
            requires
                x * y == Q,
                1 < x < Q,
        ;
        let (lo, hi) = if x <= y {
            (x, y)
        } else {
            (y, x)
        };
        assert(lo * hi == Q) by (nonlinear_arith)
            requires
                x * y == Q,
                (lo == x && hi == y) || (lo == y && hi == x),
        ;
        assert(lo < 4096) by (nonlinear_arith)
            requires
                lo * hi == 8380417,
                0 < lo <= hi,
        ;
        lemma_no_factors(lo as u64, hi as u64);
    }
}

/// A prime that divides a product and not its first factor divides the second.
pub proof fn lemma_euclid(x: int, y: int)
    requires
        0 < x < Q,
        modq(x * y) == 0,
    ensures
        modq(y) == 0,
    decreases x,
{
    let p = Q as int;
    if x == 1 {
        assert(x * y == y) by (nonlinear_arith)
            requires
                x == 1,
        ;
    } else {
        let q = p / x;
        let r = p % x;
        lemma_q_prime(x);
        lemma_fundamental_div_mod(p, x);
        assert(0 < r < x);
        assert(r * y == p * y - q * (x * y)) by (nonlinear_arith)
            requires
                p == x * q + r,
        ;
        lemma_fundamental_div_mod(x * y, p);
        let k = (x * y) / p;
        assert(r * y == p * (y - q * k)) by (nonlinear_arith)
            requires
                r * y == p * y - q * (x * y),
                x * y == p * k,
        ;
        lemma_mod_multiples_basic(y - q * k, p);
        assert(p * (y - q * k) == (y - q * k) * p) by (nonlinear_arith);
        lemma_euclid(r, y);
    }
}

/// Pascal's triangle.
pub open spec fn binomial(n: nat, k: nat) -> int
    decreases n,
{
    if k == 0 {
        1
    } else if n == 0 {
        0
    } else {
        binomial((n - 1) as nat, (k - 1) as nat) + binomial((n - 1) as nat, k)
    }
}

proof fn lemma_binomial_above(n: nat, k: nat)
    requires
        k > n,
    ensures
        binomial(n, k) == 0,
    decreases n,
{
    if n > 0 {
        lemma_binomial_above((n - 1) as nat, (k - 1) as nat);
        lemma_binomial_above((n - 1) as nat, k);
    }
}

proof fn lemma_binomial_diagonal(n: nat)
    ensures
        binomial(n, n) == 1,
    decreases n,
{
    if n > 0 {
        lemma_binomial_diagonal((n - 1) as nat);
        lemma_binomial_above((n - 1) as nat, n);
    }
}

/// `k * C(n, k) = n * C(n - 1, k - 1)`.
proof fn lemma_binomial_absorb(n: nat, k: nat)
    requires
        n > 0,
        k > 0,
    ensures
        k * binomial(n, k) == n * binomial((n - 1) as nat, (k - 1) as nat),
    decreases n,
{
    let m = (n - 1) as nat;
    if n == 1 {
        if k == 1 {
            assert(binomial(0, 0) == 1);
            assert(binomial(0, 1) == 0);
        } else {
            assert(binomial(0, (k - 1) as nat) == 0);
            assert(binomial(0, k) == 0);
            assert(k * 0 == 0) by (nonlinear_arith);
        }
        assert(binomial(n, k) == binomial(0, (k - 1) as nat) + binomial(0, k));
    } else {
        lemma_binomial_absorb(m, k);
        let c = binomial(m, (k - 1) as nat);
        let d = binomial(m, k);
        let e = binomial((m - 1) as nat, (k - 1) as nat);
        assert(binomial(n, k) == c + d);
        assert(k * d == m * e);
        if k == 1 {
            assert(c == 1 && e == 1);
            assert(k * (c + d) == n * c) by (nonlinear_arith)
                requires
                    k == 1,
                    c == 1,
                    e == 1,
                    k * d == m * e,
                    n == m + 1,
            ;
        } else {
            lemma_binomial_absorb(m, (k - 1) as nat);
            let g = binomial((m - 1) as nat, (k - 2) as nat);
            assert(c == g + e);
            assert((k - 1) * c == m * g);
            assert(k * (c + d) == n * c) by (nonlinear_arith)
                requires
                    (k - 1) * c == m * g,
                    k * d == m * e,
                    c == g + e,
                    n == m + 1,
            ;
        }
    }
}

/// The first `m` terms of the expansion of `(a + 1)^n`.
pub open spec fn binomial_sum(a: int, n: nat, m: nat) -> int
    decreases m,
{
    if m == 0 {
        0
    } else {
        binomial_sum(a, n, (m - 1) as nat) + binomial(n, (m - 1) as nat) * pow(a, (m - 1) as nat)
    }
}

proof fn lemma_binomial_sum_step(a: int, n: nat, m: nat)
    ensures
        binomial_sum(a, n + 1, m + 1) == binomial_sum(a, n, m + 1) + a * binomial_sum(a, n, m),
    decreases m,
{
    if m == 0 {
        reveal_with_fuel(binomial_sum, 2);
        assert(a * 0 == 0) by (nonlinear_arith);
    } else {
        let l = (m - 1) as nat;
        lemma_binomial_sum_step(a, n, l);
        let c = binomial(n, l);
        let d = binomial(n, m);
        assert(binomial(n + 1, m) == c + d);
        reveal(pow);
        assert(pow(a, m) == a * pow(a, l));
        let s = binomial_sum(a, n, l);
        assert(binomial_sum(a, n + 1, m + 1) == binomial_sum(a, n + 1, m) + (c + d) * pow(a, m));
        assert(binomial_sum(a, n, m + 1) == binomial_sum(a, n, m) + d * pow(a, m));
        assert(binomial_sum(a, n, m) == s + c * pow(a, l));
        assert((c + d) * pow(a, m) + a * s == d * pow(a, m) + a * (s + c * pow(a, l)))
            by (nonlinear_arith)
            requires
                pow(a, m) == a * pow(a, l),
        ;
    }
}

/// The binomial theorem for `(a + 1)^n`.
proof fn lemma_binomial_theorem(a: int, n: nat)
    ensures
        pow(a + 1, n) == binomial_sum(a, n, n + 1),
    decreases n,
{
    reveal(pow);
    if n == 0 {
        reveal_with_fuel(binomial_sum, 2);
    } else {
        let m = (n - 1) as nat;
        lemma_binomial_theorem(a, m);
        lemma_binomial_sum_step(a, m, n);
        lemma_binomial_above(m, n);
        assert(binomial_sum(a, m, n + 1) == binomial_sum(a, m, n) + 0 * pow(a, n));
        let s = binomial_sum(a, m, n);
        assert(pow(a + 1, n) == (a + 1) * s);
        assert((a + 1) * s == s + a * s) by (nonlinear_arith);
    }
}

proof fn lemma_binomial_sum_modq(a: int, m: nat)
    requires
        1 <= m <= Q,
    ensures
        modq(binomial_sum(a, Q as nat, m)) == 1,
    decreases m,
{
    if m == 1 {
        reveal_with_fuel(binomial_sum, 2);
        lemma_pow0(a);
    } else {
        let k = (m - 1) as nat;
        lemma_binomial_sum_modq(a, k);
        lemma_binomial_absorb(Q as nat, k);
        let c = binomial(Q as nat, k);
        let b = binomial((Q - 1) as nat, (k - 1) as nat);
        lemma_mod_multiples_basic(b, Q as int);
        assert(modq(k * c) == 0) by {
            assert(k * c == b * Q) by (nonlinear_arith)
                requires
                    k * c == Q * b,
            ;
        }
        lemma_euclid(k as int, c);
        lemma_modq_mul(c, pow(a, k));
        assert(0 * pow(a, k) == 0) by (nonlinear_arith);
        assert(modq(c * pow(a, k)) == 0);
        assert(binomial_sum(a, Q as nat, m) == binomial_sum(a, Q as nat, k) + c * pow(a, k));
    }
}

/// `a^Q` and `a` leave the same residue, for `a >= 0`.
proof fn lemma_fermat_nat(a: nat)
    ensures
        congruent(pow(a as int, Q as nat), a as int),
    decreases a,
{
    if a == 0 {
        lemma0_pow(Q as nat);
    } else {
        let b = (a - 1) as nat;
        lemma_fermat_nat(b);
        lemma_binomial_theorem(b as int, Q as nat);
        lemma_binomial_sum_modq(b as int, Q as nat);
        lemma_binomial_diagonal(Q as nat);
        let s = binomial_sum(b as int, Q as nat, Q as nat);
        assert(binomial_sum(b as int, Q as nat, (Q + 1) as nat) == s + 1 * pow(b as int, Q as nat));
        assert(pow(a as int, Q as nat) == s + pow(b as int, Q as nat));
    }
}

/// Fermat's little theorem: `a^(Q-1)` leaves the residue 1 unless `Q` divides `a`.
pub proof fn lemma_fermat(a: int)
    requires
        0 < a < Q,
    ensures
        modq(pow(a, (Q - 1) as nat)) == 1,
        modq(a * pow(a, (Q - 2) as nat)) == 1,
{
    lemma_fermat_nat(a as nat);
    reveal(pow);
    let u = pow(a, (Q - 1) as nat);
    assert(pow(a, Q as nat) == a * u);
    assert(u == a * pow(a, (Q - 2) as nat));
    assert(a * (u - 1) == a * u - a) by (nonlinear_arith);
    assert(modq(a * (u - 1)) == 0);
    lemma_euclid(a, u - 1);
}

} // verus!
