use std::collections::hash_map::DefaultHasher;
use std::hash::{Hash, Hasher};
use qlsa_stark_stwo::mldsa::params::{PK_BYTES, SIG_BYTES};
use qlsa_stark_stwo::mldsa::verify::ml_dsa_verify;

#[test]
fn test_verify_wrong_pk_length() {
    assert!(!ml_dsa_verify(&[0u8; 10], b"msg", &[0u8; SIG_BYTES]));
}

#[test]
fn test_verify_wrong_sig_length() {
    assert!(!ml_dsa_verify(&[0u8; PK_BYTES], b"msg", &[0u8; 10]));
}

#[test]
fn test_verify_all_zeros_is_invalid() {
    // Zero pk/sig will fail the norm check or hash mismatch.
    let pk = vec![0u8; PK_BYTES];
    let sig = vec![0u8; SIG_BYTES];
    assert!(!ml_dsa_verify(&pk, b"hello", &sig));
}

#[test]
fn test_verify_random_sig_is_invalid() {
    // Random bytes should virtually never form a valid signature.
    let mut h = DefaultHasher::new();
    42u64.hash(&mut h);
    let seed = h.finish();

    // Build deterministic fake pk/sig from seed
    let mut state = seed;
    let lcg = |s: &mut u64| -> u8 {
        *s = s.wrapping_mul(6364136223846793005).wrapping_add(1442695040888963407);
        (*s >> 33) as u8
    };
    let pk: Vec<u8> = (0..PK_BYTES).map(|_| lcg(&mut state)).collect();
    let sig: Vec<u8> = (0..SIG_BYTES).map(|_| lcg(&mut state)).collect();

    // Almost certainly invalid; the only way this could accidentally pass
    // is a hash collision probability of ~2^{-192}.
    assert!(!ml_dsa_verify(&pk, b"test", &sig));
}
