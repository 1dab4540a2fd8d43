use qlsa_stark_stwo::mldsa::params::{N, Q};
use qlsa_stark_stwo::mldsa::poly::{poly_mul, Poly};


fn rng(seed: u64) -> impl FnMut() -> i64 {
    let mut state = seed;
    move || {
        state = state.wrapping_mul(6364136223846793005).wrapping_add(1442695040888963407);
        ((state >> 33) as i64).abs() % Q
    }
}

fn random_poly(seed: u64) -> Poly {
    let mut gen = rng(seed);
    let mut coeffs = [0i64; N];
    for c in coeffs.iter_mut() { *c = gen(); }
    Poly { coeffs }
}

#[test]
fn test_poly_mul_matches_naive() {
    // NTT-based multiplication must agree with schoolbook for small inputs.
    for seed in [1u64, 7, 31, 100, 999] {
        let a = random_poly(seed);
        let b = random_poly(seed + 1);
        let fast = poly_mul(&a, &b);
        let naive = a.mul_naive(&b);
        assert_eq!(
            fast.coeffs, naive.coeffs,
            "NTT mul != naive for seed={seed}"
        );
    }
}

#[test]
fn test_poly_mul_commutativity() {
    let a = random_poly(42);
    let b = random_poly(43);
    assert_eq!(poly_mul(&a, &b), poly_mul(&b, &a));
}

#[test]
fn test_poly_mul_with_zero() {
    let a = random_poly(5);
    let zero = Poly::zero();
    assert_eq!(poly_mul(&a, &zero), zero);
}

#[test]
fn test_poly_mul_with_one() {
    // Polynomial "1" is [1, 0, 0, ..., 0]
    let a = random_poly(6);
    let mut one_coeffs = [0i64; N];
    one_coeffs[0] = 1;
    let one = Poly::from_coeffs(one_coeffs);
    assert_eq!(poly_mul(&a, &one), a);
}

#[test]
fn test_poly_add_commutativity() {
    let a = random_poly(10);
    let b = random_poly(11);
    assert_eq!(a.add(&b), b.add(&a));
}

#[test]
fn test_poly_mul_associativity() {
    let a = random_poly(20);
    let b = random_poly(21);
    let c = random_poly(22);
    let ab_c = poly_mul(&poly_mul(&a, &b), &c);
    let a_bc = poly_mul(&a, &poly_mul(&b, &c));
    assert_eq!(ab_c, a_bc);
}

#[test]
fn test_poly_mul_distributivity() {
    // a * (b + c) == a*b + a*c
    let a = random_poly(30);
    let b = random_poly(31);
    let c = random_poly(32);
    let lhs = poly_mul(&a, &b.add(&c));
    let rhs = poly_mul(&a, &b).add(&poly_mul(&a, &c));
    assert_eq!(lhs, rhs);
}

#[test]
fn test_scale() {
    let a = random_poly(99);
    // scale(2) == a + a
    let doubled = a.scale(2);
    let sum = a.add(&a);
    assert_eq!(doubled, sum);
}

#[test]
fn test_norm_inf_zero() {
    assert_eq!(Poly::zero().norm_inf(), 0);
}

#[test]
fn test_norm_inf_constant() {
    let mut coeffs = [0i64; N];
    coeffs[0] = 100;
    let p = Poly::from_coeffs(coeffs);
    assert_eq!(p.norm_inf(), 100);
}

#[test]
fn test_x_squared_plus_one_in_ring() {
    // X^256 ≡ −1 (mod X^256+1), so X^256 + 1 ≡ 0.
    // As coefficient vectors: let a = X^128.
    // a * a = X^256 ≡ -1 ≡ Q-1 at index 0.
    let mut x128 = [0i64; N];
    x128[128] = 1;
    let a = Poly::from_coeffs(x128);
    let a2 = poly_mul(&a, &a);
    // a² = X^256 ≡ −1 in R_q, i.e., coefficient 0 = Q-1, rest = 0
    let mut expected = [0i64; N];
    expected[0] = Q - 1;
    assert_eq!(a2.coeffs, expected, "X^256 ≢ −1 in the ring");
}

#[test]
fn subtraction_undoes_addition() {
    let a = random_poly(40);
    let b = random_poly(41);
    assert_eq!(a.add(&b).sub(&b), a);
}

#[test]
fn multiplication_by_x_rotates_with_a_sign() {
    let a = random_poly(50);
    let mut x = [0i64; N];
    x[1] = 1;
    let r = poly_mul(&a, &Poly::from_coeffs(x));
    assert_eq!(r.coeffs[0], (Q - a.coeffs[255]) % Q);
    assert_eq!(r.coeffs[1..], a.coeffs[..255]);
}

#[test]
fn norm_is_that_of_the_centered_coefficients() {
    let mut c = [0i64; N];
    c[7] = Q - 5;
    c[9] = 3;
    assert_eq!(Poly::from_coeffs(c).norm_inf(), 5);
}

#[test]
fn reduction_brings_coefficients_into_range() {
    let mut p = Poly { coeffs: [-1i64; N] };
    p.reduce();
    assert_eq!(p.coeffs, [Q - 1; N]);
}

#[test]
fn transform_and_back() {
    let a = random_poly(60);
    assert_eq!(a.ntt().intt(), a);
    let b = random_poly(61);
    assert_eq!(a.ntt().mul(&b.ntt()).intt(), poly_mul(&a, &b));
    assert_eq!(a.ntt().add(&b.ntt()).intt(), a.add(&b));
}
