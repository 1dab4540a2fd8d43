use qlsa_stark_stwo::commitment::{build_poly_commitment, output_fingerprint};
use qlsa_stark_stwo::mldsa::ntt::{ntt, ntt_inv};
use qlsa_stark_stwo::mldsa::params::{N, Q};
use qlsa_stark_stwo::mldsa_az_full_air;
use qlsa_stark_stwo::mldsa_ct1_full_air;
use qlsa_stark_stwo::mldsa_norm_check_batch_air;
use qlsa_stark_stwo::transcript::{Circuit, StatementError};
use qlsa_stark_stwo::{
    prove_az_ct1_combined, prove_az_ct1_norm_use_hint_combined, prove_intt_wprime_combined,
    prove_intt_wprime_norm_use_hint_combined, prove_norm_use_hint_combined,
    prove_ntt_az_ct1_combined, prove_use_hint_batch_v2, verify_az_ct1_combined,
    verify_az_ct1_norm_use_hint_combined, verify_intt_wprime_combined,
    verify_intt_wprime_norm_use_hint_combined, verify_norm_use_hint_combined,
    verify_ntt_az_ct1_combined,
};

fn random_poly(seed: u64) -> [i64; N] {
    let mut state = seed;
    let mut p = [0i64; N];
    for c in p.iter_mut() {
        state = state.wrapping_mul(6364136223846793005).wrapping_add(1442695040888963407);
        *c = ((state >> 33) as i64).abs() % Q;
    }
    p
}

fn polys<const M: usize>(seed: u64) -> [[i64; N]; M] {
    std::array::from_fn(|j| random_poly(seed + j as u64))
}

fn matrix() -> Vec<[i64; N]> {
    (0..30u64).map(|k| random_poly(k + 500)).collect()
}

fn some_hints() -> [[bool; 256]; 6] {
    std::array::from_fn(|i| std::array::from_fn(|j| (i * 256 + j) % 89 == 3))
}

fn commitment_to(v: &[[i64; N]]) -> String {
    let all: Vec<i64> = v.iter().flat_map(|p| p.iter().copied()).collect();
    build_poly_commitment(&output_fingerprint(&all))
}

#[test]
fn both_products_in_one_statement() {
    let a = matrix();
    let z: [[i64; N]; 5] = polys(1);
    let c = random_poly(7);
    let t1: [[i64; N]; 6] = polys(8);
    let (task, az_cm, ct1_cm, az, ct1) = prove_az_ct1_combined(&a, &z, &c, &t1, b"s").unwrap();
    assert_eq!(az, mldsa_az_full_air::build_trace(&a, &z).1);
    assert_eq!(ct1, mldsa_ct1_full_air::build_trace(&c, &t1).1);
    assert_eq!((az_cm.as_str(), ct1_cm.as_str()), (&*commitment_to(&az), &*commitment_to(&ct1)));
    let replay = verify_az_ct1_combined(&az_cm, &ct1_cm, &z, &c, &t1, b"s").unwrap();
    assert_eq!(replay.transcript, task.transcript);
    let swapped = verify_az_ct1_combined(&ct1_cm, &az_cm, &z, &c, &t1, b"s").unwrap();
    assert_ne!(swapped.transcript, task.transcript);
    assert_eq!(
        prove_az_ct1_combined(&a[..4], &z, &c, &t1, b"s").err(),
        Some(StatementError::MatrixSize { got: 4 })
    );
    assert!(verify_az_ct1_combined("0", &ct1_cm, &z, &c, &t1, b"s").is_err());
}

#[test]
fn norms_and_hints_in_one_statement() {
    let z: [[i64; N]; 5] = polys(20);
    let w: [[i64; N]; 6] = polys(30);
    let h = some_hints();
    let (task, norm_cm, uh_cm, max_norms, w1, weight) = prove_norm_use_hint_combined(&z, &w, &h);
    let (_, norms, expected_max) = mldsa_norm_check_batch_air::build_trace(&z);
    let (_, expected_cm, expected_w1, expected_weight) = prove_use_hint_batch_v2(&w, &h).unwrap();
    assert_eq!(max_norms, expected_max);
    assert_eq!(norm_cm, commitment_to(&norms));
    assert_eq!((w1, weight), (expected_w1, expected_weight));
    assert_eq!(uh_cm, expected_cm);
    let replay = verify_norm_use_hint_combined(&norm_cm, &uh_cm, &w1, weight).unwrap().unwrap();
    assert_eq!(replay.transcript, task.transcript);
    let heavier = verify_norm_use_hint_combined(&norm_cm, &uh_cm, &w1, weight + 1);
    assert!(matches!(heavier, Ok(None)));
    assert!(verify_norm_use_hint_combined("0", &uh_cm, &w1, weight).is_err());
}

#[test]
fn four_parts_in_one_statement() {
    let a = matrix();
    let z_hat: [[i64; N]; 5] = polys(1);
    let c = random_poly(7);
    let t1: [[i64; N]; 6] = polys(8);
    let z: [[i64; N]; 5] = polys(20);
    let w: [[i64; N]; 6] = polys(30);
    let h = some_hints();
    let (task, cm, az, ct1, _, w1, weight) =
        prove_az_ct1_norm_use_hint_combined(&a, &z_hat, &c, &t1, &z, &w, &h, b"s");
    let kinds: Vec<Circuit> = task.transcript.components.iter().map(|c| c.circuit).collect();
    assert_eq!(
        kinds,
        vec![
            Circuit::AzFull,
            Circuit::Ct1Full,
            Circuit::NormCheckBatch,
            Circuit::UseHintWeight,
        ]
    );
    let replay = verify_az_ct1_norm_use_hint_combined(
        &cm.0, &cm.1, &cm.2, &cm.3, &z_hat, &c, &t1, &az, &ct1, &w1, weight, b"s",
    );
    assert_eq!(replay.unwrap().unwrap().transcript, task.transcript);
    let other = verify_az_ct1_norm_use_hint_combined(
        &cm.0, &cm.1, &cm.2, &cm.3, &z_hat, &c, &t1, &ct1, &az, &w1, weight, b"s",
    );
    assert!(matches!(other, Ok(None)));
}

#[test]
fn transforms_and_products_in_one_statement() {
    let a = matrix();
    let z: [[i64; N]; 5] = polys(1);
    let c = random_poly(7);
    let t1: [[i64; N]; 6] = polys(8);
    let (task, cm, p) = prove_ntt_az_ct1_combined(&z, &c, &t1, &a, b"s").unwrap();
    let mut c_hat = c;
    ntt(&mut c_hat);
    assert_eq!(p.c_hat, c_hat);
    assert_eq!(p.az_hat, mldsa_az_full_air::build_trace(&a, &p.z_hat).1);
    assert_eq!(p.ct1_hat, mldsa_ct1_full_air::build_trace(&c_hat, &p.t1_hat).1);
    let replay = verify_ntt_az_ct1_combined(
        &cm.0, &cm.1, &cm.2, &p.z_hat, &p.c_hat, &p.t1_hat, &p.az_hat, &p.ct1_hat, b"s",
    );
    assert_eq!(replay.unwrap().transcript, task.transcript);
    let other = verify_ntt_az_ct1_combined(
        &cm.0, &cm.1, &cm.2, &p.z_hat, &c, &p.t1_hat, &p.az_hat, &p.ct1_hat, b"s",
    );
    assert!(other.is_none());
}

#[test]
fn inverse_transforms_and_differences_in_one_statement() {
    let az_hat: [[i64; N]; 6] = polys(40);
    let ct1_hat: [[i64; N]; 6] = polys(50);
    let (task, cm, az, ct1, w) = prove_intt_wprime_combined(&az_hat, &ct1_hat);
    for i in 0..6 {
        let mut x = az_hat[i];
        ntt_inv(&mut x);
        assert_eq!(az[i], x);
        for p in 0..N {
            assert_eq!(w[i][p], (az[i][p] - ct1[i][p]).rem_euclid(Q));
        }
    }
    let replay =
        verify_intt_wprime_combined(&cm.0, &cm.1, &az_hat, &ct1_hat, &az, &ct1, &w).unwrap();
    assert_eq!(replay.transcript, task.transcript);
    let other = verify_intt_wprime_combined(&cm.0, &cm.1, &az_hat, &ct1_hat, &az, &ct1, &az);
    assert!(other.is_none());
}

#[test]
fn the_difference_may_be_taken_before_the_inverse_transform() {
    let az_hat: [[i64; N]; 6] = polys(40);
    let ct1_hat: [[i64; N]; 6] = polys(50);
    let (_, _, _, _, w) = prove_intt_wprime_combined(&az_hat, &ct1_hat);
    for i in 0..6 {
        let mut d: [i64; N] =
            std::array::from_fn(|p| (az_hat[i][p] - ct1_hat[i][p]).rem_euclid(Q));
        ntt_inv(&mut d);
        assert_eq!(w[i], d);
    }
}

#[test]
fn the_second_half_in_one_statement() {
    let az_hat: [[i64; N]; 6] = polys(40);
    let ct1_hat: [[i64; N]; 6] = polys(50);
    let z: [[i64; N]; 5] = polys(60);
    let h = some_hints();
    let (task, cm, d) = prove_intt_wprime_norm_use_hint_combined(&az_hat, &ct1_hat, &z, &h);
    let (_, _, w1, weight) = prove_use_hint_batch_v2(&d.w_prime, &h).unwrap();
    assert_eq!(d.w1_out, w1);
    assert_eq!(d.hint_weight_total, weight);
    let replay = verify_intt_wprime_norm_use_hint_combined(
        &cm, &az_hat, &ct1_hat, &d.az_out, &d.ct1_out, &d.w_prime, &d.w1_out, weight,
    );
    assert_eq!(replay.unwrap().unwrap().transcript, task.transcript);
    let other = verify_intt_wprime_norm_use_hint_combined(
        &cm, &az_hat, &ct1_hat, &d.az_out, &d.ct1_out, &d.w_prime, &d.az_out, weight,
    );
    assert!(matches!(other, Ok(None)));
}
