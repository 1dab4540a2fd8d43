use qlsa_stark_stwo::mldsa::field;
use qlsa_stark_stwo::mldsa::ntt::{get_zeta_fwd, get_zeta_inv, ntt, ntt_inv, pointwise_mul};
use qlsa_stark_stwo::mldsa::params::{Q, ZETA};

fn random_poly(seed: u64) -> [i64; 256] {
    // Simple LCG for deterministic test vectors (not cryptographic).
    let mut state = seed;
    let mut p = [0i64; 256];
    for c in p.iter_mut() {
        state = state.wrapping_mul(6364136223846793005).wrapping_add(1442695040888963407);
        *c = ((state >> 33) as i64).abs() % Q;
    }
    p
}

#[test]
fn test_ntt_roundtrip() {
    for seed in [1u64, 42, 1337, 0xdeadbeef] {
        let original = random_poly(seed);
        let mut f = original;
        ntt(&mut f);
        ntt_inv(&mut f);
        for i in 0..256 {
            assert_eq!(
                f[i], original[i],
                "roundtrip mismatch at index {i} (seed={seed})"
            );
        }
    }
}

#[test]
fn test_ntt_of_zero_is_zero() {
    let mut f = [0i64; 256];
    ntt(&mut f);
    assert_eq!(f, [0i64; 256]);
}

#[test]
fn test_intt_of_zero_is_zero() {
    let mut f = [0i64; 256];
    ntt_inv(&mut f);
    assert_eq!(f, [0i64; 256]);
}

#[test]
fn test_ntt_linearity() {
    // NTT(a + b) = NTT(a) + NTT(b)  (pointwise mod Q)
    let a = random_poly(7);
    let b = random_poly(13);

    let mut a_hat = a;
    let mut b_hat = b;
    ntt(&mut a_hat);
    ntt(&mut b_hat);

    // Compute a+b in coefficient domain, then NTT it.
    let mut apb = [0i64; 256];
    for i in 0..256 {
        apb[i] = (a[i] + b[i]) % Q;
    }
    ntt(&mut apb);

    for i in 0..256 {
        let expected = (a_hat[i] + b_hat[i]) % Q;
        assert_eq!(apb[i], expected, "linearity mismatch at index {i}");
    }
}

#[test]
fn test_ntt_of_one_is_zeta_powers() {
    // NTT of the constant polynomial 1: every entry should be
    // 1 (the pointwise product of 1 with the twiddle factors leaves 1).
    // More precisely, NTT([1,0,0,...,0]) should give [1,1,...,1] only if
    // the NTT evaluates at 1... this is NOT generally the case for a
    // negacyclic NTT, so let's just verify the roundtrip for this input.
    let mut f = [0i64; 256];
    f[0] = 1;
    let original = f;
    ntt(&mut f);
    ntt_inv(&mut f);
    assert_eq!(f, original);
}

#[test]
fn test_zeta_table_first_entries() {
    let fwd = get_zeta_fwd();
    let inv = get_zeta_inv();
    // k=0: brv8(0)=0, ζ^0=1, inv: ζ^{512-0}=1
    assert_eq!(fwd[0], 1);
    assert_eq!(inv[0], 1);
    // k=1: brv8(1)=128, forward=ζ^128, inverse=ζ^{512-128}=ζ^384
    let zeta_128 = field::pow(ZETA, 128);
    let zeta_384 = field::pow(ZETA, 384);
    assert_eq!(fwd[1], zeta_128);
    assert_eq!(inv[1], zeta_384);
    // k=128: brv8(128)=1, forward=ζ^1=ZETA, inverse=ζ^{511}
    assert_eq!(fwd[128], ZETA);
    assert_eq!(inv[128], field::pow(ZETA, 511));
}

#[test]
fn test_zeta_tables_are_inverses() {
    let fwd = get_zeta_fwd();
    let inv = get_zeta_inv();
    for k in 0..256usize {
        let product = field::mul(fwd[k], inv[k]);
        assert_eq!(product, 1, "fwd[{k}] * inv[{k}] != 1");
    }
}

#[test]
fn transform_of_a_monomial() {
    // The transform evaluates at odd powers of the root; X goes to those powers.
    let mut f = [0i64; 256];
    f[1] = 1;
    ntt(&mut f);
    for i in 0..256usize {
        let k = 2 * (i as u8).reverse_bits() as u64 + 1;
        assert_eq!(f[i], field::pow(ZETA, k), "value {i}");
    }
}

#[test]
fn inverse_then_forward_is_the_identity() {
    let original = random_poly(17);
    let mut f = original;
    ntt_inv(&mut f);
    ntt(&mut f);
    assert_eq!(f, original);
}

#[test]
fn products_become_pointwise() {
    // X^128 * X^128 is -1 in the ring.
    let mut x = [0i64; 256];
    x[128] = 1;
    ntt(&mut x);
    let mut square = pointwise_mul(&x, &x);
    ntt_inv(&mut square);
    let mut expected = [0i64; 256];
    expected[0] = Q - 1;
    assert_eq!(square, expected);
}
