use qlsa_stark_stwo::mldsa::field;
use qlsa_stark_stwo::mldsa::params::{GAMMA2, M, N, Q};
use qlsa_stark_stwo::mldsa::poly::{NTTPoly, Poly};
use qlsa_stark_stwo::mldsa::polyvec::{
    decompose_val, high_bits_val, low_bits_val, power2round_val, use_hint_val, NTTMatrix,
    NTTPolyVec, PolyVec,
};

#[test]
fn test_power2round_roundtrip() {
    let d = 13u32;
    for r in [0i64, 1, 8191, 8192, 8193, Q - 1, Q / 2] {
        let (r1, r0) = power2round_val(r, d);
        let reconstructed = (r1 * (1 << d) + r0).rem_euclid(Q);
        assert_eq!(reconstructed, r % Q, "power2round roundtrip failed for r={r}");
    }
}

#[test]
fn test_power2round_t0_range() {
    let d = 13u32;
    let half = 1i64 << (d - 1);
    for r in [0i64, 1, 4095, 4096, 4097, Q - 1] {
        let (_, r0) = power2round_val(r, d);
        assert!(r0 >= -half && r0 <= half, "r0={r0} out of range for r={r}");
    }
}

#[test]
fn test_decompose_roundtrip() {
    let alpha = 2 * GAMMA2;
    for r in [0i64, 1, GAMMA2, GAMMA2 + 1, Q - 2, Q - 1] {
        let (r1, r0) = decompose_val(r);
        if r1 == 0 && (r - r0 == Q - 1 || r == r0) {
            continue; // special case at q-1
        }
        let reconstructed = field::reduce(r1 * alpha + r0);
        assert_eq!(reconstructed, r as i64 % Q, "decompose roundtrip for r={r}");
    }
}

#[test]
fn test_high_bits_range() {
    for r in [0i64, 100, GAMMA2, Q / 4, Q - 1] {
        let h = high_bits_val(r);
        assert!(h >= 0 && h < M, "high_bits={h} out of [0,M) for r={r}");
    }
}

#[test]
fn test_polyvec_add_sub_inverse() {
    let a = PolyVec(vec![Poly::zero(); 3]);
    let mut b_coeffs = [0i64; N];
    b_coeffs[0] = 42;
    let b = PolyVec(vec![Poly::from_coeffs(b_coeffs); 3]);
    let sum = a.add(&b);
    let diff = sum.sub(&b);
    for p in &diff.0 {
        assert_eq!(p.coeffs, [0i64; N]);
    }
}

#[test]
fn test_ntt_mat_vec_mul_dimensions() {
    let zero_poly = NTTPoly { coeffs: [0i64; N] };
    let row = NTTPolyVec(vec![zero_poly; 5]); // l=5
    let mat = NTTMatrix { rows: vec![row; 6] }; // k=6
    let v = NTTPolyVec(vec![zero_poly; 5]);
    let result = mat.mul_vec(&v);
    assert_eq!(result.len(), 6);
}

#[test]
fn decomposition_at_the_edges() {
    assert_eq!(decompose_val(0), (0, 0));
    assert_eq!(decompose_val(GAMMA2), (0, GAMMA2));
    assert_eq!(decompose_val(GAMMA2 + 1), (1, 1 - GAMMA2));
    assert_eq!(decompose_val(Q - 1), (0, -1));
    assert_eq!(high_bits_val(Q - 1), 0);
    assert_eq!(low_bits_val(Q - 1), -1);
}

#[test]
fn hints_move_the_high_part_by_one() {
    assert_eq!(use_hint_val(false, 5), 0);
    assert_eq!(use_hint_val(true, 5), 1);
    assert_eq!(use_hint_val(true, 0), 15);
    assert_eq!(use_hint_val(true, Q - 1), 15);
    assert_eq!(use_hint_val(true, 15 * 2 * GAMMA2 + 1), 0);
}

#[test]
fn rounding_at_the_edges() {
    assert_eq!(power2round_val(4096, 13), (0, 4096));
    assert_eq!(power2round_val(4097, 13), (1, -4095));
    assert_eq!(power2round_val(Q - 1, 13), (1023, 0));
}

#[test]
fn matrix_times_vector() {
    // A matrix of ones sums the vector.
    let one = NTTPoly { coeffs: [1i64; N] };
    let mat = NTTMatrix { rows: vec![NTTPolyVec(vec![one; 5]); 6] };
    let v = NTTPolyVec((0..5).map(|j| NTTPoly { coeffs: [j as i64 + 1; N] }).collect());
    let r = mat.mul_vec(&v);
    for p in &r.0 {
        assert_eq!(p.coeffs, [15i64; N]);
    }
}

#[test]
fn vectors_of_polynomials() {
    let mut c = [0i64; N];
    c[0] = Q - 3;
    c[1] = 2;
    let v = PolyVec(vec![Poly::zero(), Poly::from_coeffs(c)]);
    assert_eq!(v.norm_inf(), 3);
    assert_eq!(v.scale_power2(13).0[1].coeffs[1], 2 << 13);
    assert_eq!(v.ntt().intt().0[1].coeffs, c);
    assert_eq!(PolyVec::zeros(4).len(), 4);
    let (t1, t0) = v.power2round(13);
    for i in 0..N {
        let r = field::reduce((t1.0[1].coeffs[i] << 13) + t0.0[1].coeffs[i]);
        assert_eq!(r, c[i]);
    }
    let mut hints = vec![vec![false; N]; 2];
    hints[1][1] = true;
    let h = v.use_hint(&hints);
    assert_eq!(h.0[1].coeffs[1], 1);
    assert_eq!(h.0[0].coeffs, [0i64; N]);
    assert_eq!(v.high_bits().0[1].coeffs[0], 0);
    let scaled = v.ntt().scale_poly(&Poly::from_coeffs(c).ntt());
    assert_eq!(scaled.0[0].coeffs, [0i64; N]);
    let twice = v.ntt().add(&v.ntt());
    assert_eq!(twice.sub(&v.ntt()).intt().0[1].coeffs, c);
}
