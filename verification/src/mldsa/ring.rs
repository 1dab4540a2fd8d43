//! The ring `Z_q[X] / (X^256 + 1)` on vectors of 256 residues, and its laws.
//!
//! The transform turns the ring's product into an entrywise product; the laws of
//! the ring follow from those of `Z_q` because the transform is injective.
use crate::mldsa::field;
use crate::mldsa::params::ZETA;
use crate::mldsa::transform;
use crate::mldsa::zq;
use vstd::arithmetic::power;
use vstd::arithmetic::power::*;
use vstd::prelude::*;

verus! {

/// Sum of two ring elements.
pub open spec fn ring_add(a: Seq<int>, b: Seq<int>) -> Seq<int> {
    Seq::new(256, |i: int| zq::modq(a[i] + b[i]))
}

/// Difference of two ring elements.
pub open spec fn ring_sub(a: Seq<int>, b: Seq<int>) -> Seq<int> {
    Seq::new(256, |i: int| zq::modq(a[i] - b[i]))
}

/// The coefficient of `X^k` in `b`, where `X^256 = -1`: below zero the
/// coefficients wrap around with their sign flipped.
pub open spec fn wrapped(b: Seq<int>, k: int) -> int {
    if k >= 0 {
        b[k]
    } else {
        -b[k + 256]
    }
}

/// The first `m` terms of the coefficient of `X^k` in the product of `a` and `b`.
pub open spec fn product_terms(a: Seq<int>, b: Seq<int>, k: int, m: nat) -> int
    decreases m,
{
    if m == 0 {
        0
    } else {
        product_terms(a, b, k, (m - 1) as nat) + a[m - 1] * wrapped(b, k - (m - 1))
    }
}

/// Product of two ring elements: the negacyclic convolution.
pub open spec fn ring_mul(a: Seq<int>, b: Seq<int>) -> Seq<int> {
    Seq::new(256, |k: int| zq::modq(product_terms(a, b, k, 256)))
}

/// The ring's zero.
pub open spec fn ring_zero() -> Seq<int> {
    Seq::new(256, |i: int| 0)
}

/// The ring's one.
pub open spec fn ring_one() -> Seq<int> {
    Seq::new(
        256,
        |i: int|
            if i == 0 {
                1int
            } else {
                0int
            },
    )
}

/// `X^i * b`, for `i` up to 256.
spec fn shifted(b: Seq<int>, i: int) -> Seq<int> {
    Seq::new(256, |k: int| wrapped(b, k - i))
}

spec fn partial(a: Seq<int>, b: Seq<int>, m: nat) -> Seq<int> {
    Seq::new(256, |k: int| product_terms(a, b, k, m))
}

proof fn lemma_psum_entries(f: Seq<int>, g: Seq<int>, n: nat, x: int)
    requires
        forall|k: int| 0 <= k < n ==> zq::congruent(#[trigger] f[k], g[k]),
    ensures
        zq::congruent(transform::psum(f, 0, 1, n, x), transform::psum(g, 0, 1, n, x)),
    decreases n,
{
    if n > 0 {
        let m = (n - 1) as nat;
        lemma_psum_entries(f, g, m, x);
        let y = power::pow(x, m);
        assert(zq::congruent(f[m as int], g[m as int]));
        zq::lemma_congruent_mul(f[m as int], g[m as int], y, y);
    }
}

/// `sum (f + c g) = sum f + c sum g`.
proof fn lemma_psum_linear(f: Seq<int>, c: int, g: Seq<int>, h: Seq<int>, n: nat, x: int)
    requires
        forall|k: int| 0 <= k < n ==> #[trigger] h[k] == f[k] + c * g[k],
    ensures
        transform::psum(h, 0, 1, n, x) == transform::psum(f, 0, 1, n, x) + c * transform::psum(
            g,
            0,
            1,
            n,
            x,
        ),
    decreases n,
{
    if n == 0 {
        assert(c * 0 == 0) by (nonlinear_arith);
    } else {
        let m = (n - 1) as nat;
        lemma_psum_linear(f, c, g, h, m, x);
        let y = power::pow(x, m);
        let u = f[m as int];
        let v = g[m as int];
        let s = transform::psum(g, 0, 1, m, x);
        assert(h[m as int] == u + c * v);
        assert((u + c * v) * y + c * s == u * y + c * (s + v * y)) by (nonlinear_arith);
    }
}

/// A sum whose entries are those of `h` moved up by one.
proof fn lemma_psum_shift(g: Seq<int>, h: Seq<int>, n: nat, x: int)
    requires
        forall|k: int| 0 <= k < n ==> g[k + 1] == #[trigger] h[k],
    ensures
        transform::psum(g, 0, 1, (n + 1) as nat, x) == g[0] + x * transform::psum(h, 0, 1, n, x),
    decreases n,
{
    if n == 0 {
        reveal_with_fuel(transform::psum, 2);
        lemma_pow0(x);
        assert(x * 0 == 0) by (nonlinear_arith);
    } else {
        let m = (n - 1) as nat;
        lemma_psum_shift(g, h, m, x);
        reveal(power::pow);
        let y = power::pow(x, m);
        assert(power::pow(x, n) == x * y);
        assert(g[m as int + 1] == h[m as int]);
        let s = transform::psum(h, 0, 1, m, x);
        let c = h[m as int];
        assert(x * (s + c * y) == x * s + c * (x * y)) by (nonlinear_arith);
        assert(transform::psum(g, 0, 1, (n + 1) as nat, x) == transform::psum(g, 0, 1, n, x) + g[n as int]
            * power::pow(x, n));
    }
}

/// Every evaluation point is a 256th root of -1.
proof fn lemma_root_power(i: int)
    ensures
        zq::congruent(power::pow(transform::root(i), 256), -1),
{
    let t = transform::brv(i as nat, 8);
    let e = 2 * t + 1;
    let z = ZETA as int;
    lemma_pow_multiplies(z, e, 256);
    lemma_pow_multiplies(z, 256, e);
    assert(e * 256 == 256 * e);
    let w = power::pow(z, 256);
    field::lemma_zeta_order();
    zq::lemma_pow_congruent(w, -1, e);
    lemma_pow_adds(-1, 2 * t, 1);
    lemma_pow_multiplies(-1, 2, t);
    lemma_square_is_pow2(-1);
    lemma1_pow(t);
    lemma_pow1(-1);
    assert((-1int) * (-1int) == 1);
}

proof fn lemma_eval_shifted(b: Seq<int>, i: nat, x: int)
    requires
        b.len() == 256,
        i <= 256,
        zq::congruent(power::pow(x, 256), -1),
    ensures
        zq::congruent(
            transform::eval(shifted(b, i as int), x),
            power::pow(x, i) * transform::eval(b, x),
        ),
    decreases i,
{
    if i == 0 {
        assert(shifted(b, 0) =~= b);
        lemma_pow0(x);
        assert(1 * transform::eval(b, x) == transform::eval(b, x));
    } else {
        let j = (i - 1) as nat;
        lemma_eval_shifted(b, j, x);
        let g = shifted(b, i as int);
        let h = shifted(b, j as int);
        assert forall|k: int| 0 <= k < 255 implies g[k + 1] == #[trigger] h[k] by {
            assert(k + 1 - i == k - j);
        }
        lemma_psum_shift(g, h, 255, x);
        reveal(power::pow);
        let y = power::pow(x, 255);
        let top = h[255];
        assert(power::pow(x, 256) == x * y);
        assert(top == b[255 - j]);
        assert(g[0] == -top);
        let eh = transform::eval(h, x);
        let eg = transform::eval(g, x);
        let s = transform::psum(h, 0, 1, 255, x);
        assert(eh == s + h[255] * y);
        assert(eg == -top + x * s);
        let w = x * y;
        assert(x * s == x * eh - top * w) by (nonlinear_arith)
            requires
                eh == s + top * y,
                w == x * y,
        ;
        zq::lemma_congruent_mul(top, top, w, -1);
        assert(top * -1 == -top) by (nonlinear_arith);
        assert(zq::congruent(eg, x * eh));
        let e0 = transform::eval(b, x);
        zq::lemma_congruent_mul(x, x, eh, power::pow(x, j) * e0);
        assert(x * (power::pow(x, j) * e0) == power::pow(x, i) * e0) by (nonlinear_arith)
            requires
                power::pow(x, i) == x * power::pow(x, j),
        ;
    }
}

proof fn lemma_eval_partial(a: Seq<int>, b: Seq<int>, m: nat, x: int)
    requires
        a.len() == 256,
        b.len() == 256,
        m <= 256,
        zq::congruent(power::pow(x, 256), -1),
    ensures
        zq::congruent(
            transform::eval(partial(a, b, m), x),
            transform::psum(a, 0, 1, m, x) * transform::eval(b, x),
        ),
    decreases m,
{
    let eb = transform::eval(b, x);
    if m == 0 {
        let p = partial(a, b, 0);
        assert(0 * eb == 0) by (nonlinear_arith);
        assert(0 * transform::psum(p, 0, 1, 256, x) == 0) by (nonlinear_arith);
        assert forall|k: int| 0 <= k < 256 implies #[trigger] p[k] == p[k] + 1 * p[k] by {
            assert(product_terms(a, b, k, 0) == 0);
        }
        lemma_psum_linear(p, 1, p, p, 256, x);
        assert(1 * transform::psum(p, 0, 1, 256, x) == transform::psum(p, 0, 1, 256, x));
    } else {
        let l = (m - 1) as nat;
        lemma_eval_partial(a, b, l, x);
        let f = partial(a, b, l);
        let g = shifted(b, l as int);
        let h = partial(a, b, m);
        let c = a[l as int];
        assert forall|k: int| 0 <= k < 256 implies #[trigger] h[k] == f[k] + c * g[k] by {
            assert(product_terms(a, b, k, m) == product_terms(a, b, k, l) + a[m - 1] * wrapped(
                b,
                k - (m - 1),
            ));
        }
        lemma_psum_linear(f, c, g, h, 256, x);
        lemma_eval_shifted(b, l, x);
        let y = power::pow(x, l);
        zq::lemma_congruent_mul(c, c, transform::eval(g, x), y * eb);
        let s = transform::psum(a, 0, 1, l, x);
        assert(transform::psum(a, 0, 1, m, x) == s + a[l as int] * y);
        assert((s + c * y) * eb == s * eb + c * (y * eb)) by (nonlinear_arith);
    }
}

/// The transform of a product is the entrywise product of the transforms.
pub proof fn lemma_ntt_of_product(a: Seq<int>, b: Seq<int>)
    requires
        a.len() == 256,
        b.len() == 256,
    ensures
        transform::ntt_of(ring_mul(a, b)) == transform::pointwise(
            transform::ntt_of(a),
            transform::ntt_of(b),
        ),
{
    let l = transform::ntt_of(ring_mul(a, b));
    let r = transform::pointwise(transform::ntt_of(a), transform::ntt_of(b));
    assert forall|i: int| 0 <= i < 256 implies l[i] == r[i] by {
        let x = transform::root(i);
        lemma_root_power(i);
        lemma_eval_partial(a, b, 256, x);
        lemma_psum_entries(ring_mul(a, b), partial(a, b, 256), 256, x);
        zq::lemma_modq_mul(transform::eval(a, x), transform::eval(b, x));
    }
    assert(l =~= r);
}

/// The product of two ring elements is the inverse transform of the entrywise
/// product of their transforms.
pub proof fn lemma_product_by_ntt(a: Seq<int>, b: Seq<int>)
    requires
        a.len() == 256,
        b.len() == 256,
    ensures
        transform::intt_of(
            transform::pointwise(transform::ntt_of(a), transform::ntt_of(b)),
        ) == ring_mul(a, b),
{
    lemma_ntt_of_product(a, b);
    transform::lemma_intt_of_ntt(ring_mul(a, b));
}

/// The transform is linear: it takes sums to entrywise sums.
pub proof fn lemma_ntt_of_sum(a: Seq<int>, b: Seq<int>)
    requires
        a.len() == 256,
        b.len() == 256,
    ensures
        transform::ntt_of(ring_add(a, b)) == ring_add(
            transform::ntt_of(a),
            transform::ntt_of(b),
        ),
{
    let l = transform::ntt_of(ring_add(a, b));
    let r = ring_add(transform::ntt_of(a), transform::ntt_of(b));
    let h = Seq::new(256, |k: int| a[k] + 1 * b[k]);
    assert forall|i: int| 0 <= i < 256 implies l[i] == r[i] by {
        let x = transform::root(i);
        lemma_psum_linear(a, 1, b, h, 256, x);
        lemma_psum_entries(ring_add(a, b), h, 256, x);
        zq::lemma_modq_add(transform::eval(a, x), transform::eval(b, x));
        assert(1 * transform::eval(b, x) == transform::eval(b, x));
    }
    assert(l =~= r);
}

/// The transform takes differences to entrywise differences.
pub proof fn lemma_ntt_of_difference(a: Seq<int>, b: Seq<int>)
    requires
        a.len() == 256,
        b.len() == 256,
    ensures
        transform::ntt_of(ring_sub(a, b)) == ring_sub(
            transform::ntt_of(a),
            transform::ntt_of(b),
        ),
{
    let l = transform::ntt_of(ring_sub(a, b));
    let r = ring_sub(transform::ntt_of(a), transform::ntt_of(b));
    let h = Seq::new(256, |k: int| a[k] + (-1) * b[k]);
    assert forall|i: int| 0 <= i < 256 implies l[i] == r[i] by {
        let x = transform::root(i);
        lemma_psum_linear(a, -1, b, h, 256, x);
        lemma_psum_entries(ring_sub(a, b), h, 256, x);
        zq::lemma_modq_add(transform::eval(a, x), transform::eval(b, x));
        assert((-1) * transform::eval(b, x) == -transform::eval(b, x));
    }
    assert(l =~= r);
}

/// The transform of zero is zero.
pub proof fn lemma_ntt_of_zero()
    ensures
        transform::ntt_of(ring_zero()) == ring_zero(),
        transform::intt_of(ring_zero()) == ring_zero(),
{
    let z = ring_zero();
    let l = transform::ntt_of(z);
    assert forall|i: int| 0 <= i < 256 implies l[i] == 0 by {
        let x = transform::root(i);
        lemma_psum_linear(z, 1, z, z, 256, x);
        assert(1 * transform::eval(z, x) == transform::eval(z, x));
    }
    assert(l =~= z);
    assert(transform::is_elem(z));
    transform::lemma_intt_of_ntt(z);
}

/// The ring's product is commutative.
pub proof fn lemma_mul_commutative(a: Seq<int>, b: Seq<int>)
    requires
        a.len() == 256,
        b.len() == 256,
    ensures
        ring_mul(a, b) == ring_mul(b, a),
{
    lemma_ntt_of_product(a, b);
    lemma_ntt_of_product(b, a);
    let x = transform::ntt_of(a);
    let y = transform::ntt_of(b);
    assert forall|i: int| 0 <= i < 256 implies transform::pointwise(x, y)[i]
        == transform::pointwise(y, x)[i] by {
        assert(x[i] * y[i] == y[i] * x[i]) by (nonlinear_arith);
    }
    assert(transform::pointwise(x, y) =~= transform::pointwise(y, x));
    transform::lemma_ntt_injective(ring_mul(a, b), ring_mul(b, a));
}

/// The ring's product is associative.
pub proof fn lemma_mul_associative(a: Seq<int>, b: Seq<int>, c: Seq<int>)
    requires
        a.len() == 256,
        b.len() == 256,
        c.len() == 256,
    ensures
        ring_mul(ring_mul(a, b), c) == ring_mul(a, ring_mul(b, c)),
{
    lemma_ntt_of_product(a, b);
    lemma_ntt_of_product(b, c);
    lemma_ntt_of_product(ring_mul(a, b), c);
    lemma_ntt_of_product(a, ring_mul(b, c));
    let x = transform::ntt_of(a);
    let y = transform::ntt_of(b);
    let z = transform::ntt_of(c);
    let l = transform::pointwise(transform::pointwise(x, y), z);
    let r = transform::pointwise(x, transform::pointwise(y, z));
    assert forall|i: int| 0 <= i < 256 implies l[i] == r[i] by {
        zq::lemma_modq_mul(x[i] * y[i], z[i]);
        zq::lemma_modq_mul(x[i], y[i] * z[i]);
        assert((x[i] * y[i]) * z[i] == x[i] * (y[i] * z[i])) by (nonlinear_arith);
    }
    assert(l =~= r);
    transform::lemma_ntt_injective(ring_mul(ring_mul(a, b), c), ring_mul(a, ring_mul(b, c)));
}

/// The ring's product distributes over its sum.
pub proof fn lemma_mul_distributive(a: Seq<int>, b: Seq<int>, c: Seq<int>)
    requires
        a.len() == 256,
        b.len() == 256,
        c.len() == 256,
    ensures
        ring_mul(a, ring_add(b, c)) == ring_add(ring_mul(a, b), ring_mul(a, c)),
{
    lemma_ntt_of_sum(b, c);
    lemma_ntt_of_product(a, ring_add(b, c));
    lemma_ntt_of_product(a, b);
    lemma_ntt_of_product(a, c);
    lemma_ntt_of_sum(ring_mul(a, b), ring_mul(a, c));
    let x = transform::ntt_of(a);
    let y = transform::ntt_of(b);
    let z = transform::ntt_of(c);
    let l = transform::pointwise(x, ring_add(y, z));
    let r = ring_add(transform::pointwise(x, y), transform::pointwise(x, z));
    assert forall|i: int| 0 <= i < 256 implies l[i] == r[i] by {
        zq::lemma_modq_mul(x[i], y[i] + z[i]);
        assert(x[i] * (y[i] + z[i]) == x[i] * y[i] + x[i] * z[i]) by (nonlinear_arith);
        zq::lemma_modq_add(x[i] * y[i], x[i] * z[i]);
    }
    assert(l =~= r);
    transform::lemma_ntt_injective(
        ring_mul(a, ring_add(b, c)),
        ring_add(ring_mul(a, b), ring_mul(a, c)),
    );
}

proof fn lemma_terms_of_zero(a: Seq<int>, k: int, m: nat)
    requires
        0 <= k < 256,
        m <= 256,
    ensures
        product_terms(a, ring_zero(), k, m) == 0,
    decreases m,
{
    if m > 0 {
        lemma_terms_of_zero(a, k, (m - 1) as nat);
        assert(wrapped(ring_zero(), k - (m - 1)) == 0);
        assert(a[m - 1] * 0 == 0) by (nonlinear_arith);
    }
}

/// The product with zero is zero.
pub proof fn lemma_mul_zero(a: Seq<int>)
    requires
        a.len() == 256,
    ensures
        ring_mul(a, ring_zero()) == ring_zero(),
{
    assert forall|k: int| 0 <= k < 256 implies ring_mul(a, ring_zero())[k] == 0 by {
        lemma_terms_of_zero(a, k, 256);
    }
    assert(ring_mul(a, ring_zero()) =~= ring_zero());
}

proof fn lemma_terms_of_one(a: Seq<int>, k: int, m: nat)
    requires
        0 <= k < 256,
        m <= 256,
    ensures
        product_terms(a, ring_one(), k, m) == (if k < m {
            a[k]
        } else {
            0
        }),
    decreases m,
{
    if m > 0 {
        lemma_terms_of_one(a, k, (m - 1) as nat);
        let w = wrapped(ring_one(), k - (m - 1));
        assert(w == (if k == m - 1 {
            1int
        } else {
            0int
        }));
        assert(a[m - 1] * 0 == 0) by (nonlinear_arith);
        assert(a[m - 1] * 1 == a[m - 1]) by (nonlinear_arith);
    }
}

/// The product with one changes nothing.
pub proof fn lemma_mul_one(a: Seq<int>)
    requires
        transform::is_elem(a),
    ensures
        ring_mul(a, ring_one()) == a,
{
    assert forall|k: int| 0 <= k < 256 implies ring_mul(a, ring_one())[k] == a[k] by {
        lemma_terms_of_one(a, k, 256);
    }
    assert(ring_mul(a, ring_one()) =~= a);
}

/// Addition is commutative, and subtraction undoes it.
pub proof fn lemma_add_laws(a: Seq<int>, b: Seq<int>)
    requires
        transform::is_elem(a),
        transform::is_elem(b),
    ensures
        ring_add(a, b) == ring_add(b, a),
        ring_sub(ring_add(a, b), b) == a,
        ring_add(a, ring_zero()) == a,
        ring_sub(a, a) == ring_zero(),
{
    assert(ring_add(a, b) =~= ring_add(b, a));
    assert(ring_sub(ring_add(a, b), b) =~= a);
    assert(ring_add(a, ring_zero()) =~= a);
    assert(ring_sub(a, a) =~= ring_zero());
}

/// Scaling by two is adding an element to itself.
pub proof fn lemma_scale_two(a: Seq<int>)
    requires
        transform::is_elem(a),
    ensures
        transform::scaled(2, a) == ring_add(a, a),
{
    assert(transform::scaled(2, a) =~= ring_add(a, a));
}

} // verus!
