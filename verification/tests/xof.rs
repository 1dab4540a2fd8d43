use qlsa_stark_stwo::mldsa::params::{K, L, LAMBDA_BYTES, Q, TAU};
use qlsa_stark_stwo::mldsa::xof::{
    ball_from, expand_a, hash_commit, hash_mu, hash_pk, rej_ntt_from, sample_in_ball,
    try_expand_a, try_sample_in_ball,
};

#[test]
fn test_expand_a_dimensions() {
    let rho = [0u8; 32];
    let a = expand_a(&rho);
    assert_eq!(a.rows.len(), K);
    for row in &a.rows {
        assert_eq!(row.len(), L);
    }
}

#[test]
fn test_expand_a_coefficients_in_range() {
    let rho = [42u8; 32];
    let a = expand_a(&rho);
    for row in &a.rows {
        for p in &row.0 {
            for &c in &p.coeffs {
                assert!(c >= 0 && c < Q, "coeff {c} out of [0, Q)");
            }
        }
    }
}

#[test]
fn test_expand_a_deterministic() {
    let rho = [1u8; 32];
    let a1 = expand_a(&rho);
    let a2 = expand_a(&rho);
    for (r1, r2) in a1.rows.iter().zip(&a2.rows) {
        for (p1, p2) in r1.0.iter().zip(&r2.0) {
            assert_eq!(p1.coeffs, p2.coeffs);
        }
    }
}

#[test]
fn test_expand_a_different_rho_different_matrix() {
    let a1 = expand_a(&[0u8; 32]);
    let a2 = expand_a(&[1u8; 32]);
    // At least one coefficient should differ
    let any_diff = a1.rows.iter().zip(&a2.rows).any(|(r1, r2)| {
        r1.0.iter().zip(&r2.0).any(|(p1, p2)| p1.coeffs != p2.coeffs)
    });
    assert!(any_diff);
}

#[test]
fn test_sample_in_ball_exactly_tau_nonzero() {
    for seed in [&[0u8; 48][..], &[1u8; 48], &[42u8; 48]] {
        let c = sample_in_ball(seed);
        let nonzero: usize = c.coeffs.iter().filter(|&&x| x != 0).count();
        assert_eq!(nonzero, TAU, "SampleInBall: expected {TAU} non-zero, got {nonzero}");
    }
}

#[test]
fn test_sample_in_ball_values_are_plus_minus_one() {
    let c = sample_in_ball(&[7u8; 48]);
    for &x in &c.coeffs {
        assert!(x == 0 || x == 1 || x == Q - 1,
            "coefficient {x} is not 0, 1, or Q-1");
    }
}

#[test]
fn test_sample_in_ball_deterministic() {
    let c1 = sample_in_ball(&[5u8; 48]);
    let c2 = sample_in_ball(&[5u8; 48]);
    assert_eq!(c1.coeffs, c2.coeffs);
}

#[test]
fn test_hash_pk_length() {
    let pk = vec![0u8; 100];
    let tr = hash_pk(&pk);
    assert_eq!(tr.len(), 64);
}

#[test]
fn test_hash_mu_deterministic() {
    let tr = [3u8; 64];
    let msg = b"test message";
    let mu1 = hash_mu(&tr, msg);
    let mu2 = hash_mu(&tr, msg);
    assert_eq!(mu1, mu2);
}

#[test]
fn test_hash_commit_length() {
    let mu = [0u8; 64];
    let w1 = vec![0u8; 768]; // K * 128
    let out = hash_commit(&mu, &w1, LAMBDA_BYTES);
    assert_eq!(out.len(), LAMBDA_BYTES);
}

#[test]
fn hashes_of_known_inputs() {
    assert_eq!(
        hex::encode(hash_pk(b"abc")),
        "483366601360a8771c6863080cc4114d8db44530f8f1e1ee4f94ea37e78b5739\
         d5a15bef186a5386c75744c0527e1faa9f8726e462a12a4feb06bd8801e751e4"
    );
    assert_eq!(
        hex::encode(&hash_mu(&[3u8; 64], b"test message")[..16]),
        "f32437c901507f80d8702aa324dec3ef"
    );
    assert_eq!(
        hex::encode(hash_commit(&[0u8; 64], &[0u8; 768], 16)),
        "ede37ff5146d4c822280798db3dc345f"
    );
}

#[test]
fn matrix_of_the_zero_seed() {
    let a = expand_a(&[0u8; 32]);
    let first = a.rows[0].0[0].coeffs;
    assert_eq!(first[..4], [5889865, 3971968, 4850004, 6999211]);
    assert_eq!(first[255], 233188);
    assert_eq!(a.rows[2].0[4].coeffs[..4], [4100757, 4427816, 1802700, 720414]);
}

#[test]
fn challenge_of_the_zero_seed() {
    let c = sample_in_ball(&[0u8; 48]);
    let at: Vec<usize> = (0..256).filter(|i| c.coeffs[*i] != 0).take(8).collect();
    assert_eq!(at, vec![7, 15, 22, 28, 34, 36, 39, 40]);
    assert_eq!(c.coeffs[7], Q - 1);
    assert_eq!(c.coeffs[15], 1);
    assert_eq!(c.coeffs[39], Q - 1);
}

#[test]
fn a_stream_is_sampled_by_rejection() {
    // Every group of three bytes is accepted but the first, which is `2^23 - 1`.
    let mut stream = vec![0xffu8, 0xff, 0xff];
    for i in 0..256usize {
        stream.push(i as u8);
        stream.push(0);
        stream.push(0x80);
    }
    let expected: [i64; 256] = std::array::from_fn(|i| i as i64);
    assert_eq!(rej_ntt_from(&stream), Some(expected));
    assert_eq!(rej_ntt_from(&stream[..3 * 256]), None);
}

#[test]
fn a_challenge_is_sampled_by_rejection() {
    // All signs negative; every position is drawn as zero, so each place but the
    // last holds what stood at zero before.
    let mut stream = vec![0xffu8; 8];
    stream.extend_from_slice(&[0u8; 49]);
    let c = ball_from(&stream).unwrap();
    for i in 0..256 {
        let expected = if i == 0 || i > 207 { Q - 1 } else { 0 };
        assert_eq!(c.coeffs[i], expected, "coefficient {i}");
    }
    assert!(ball_from(&stream[..56]).is_none());
    // A position above the place that is filled is drawn again.
    let mut again = vec![0u8; 8];
    again.push(255);
    again.extend_from_slice(&[0u8; 49]);
    assert_eq!(ball_from(&again).unwrap().coeffs[0], 1);
}

#[test]
fn bounded_sampling_agrees() {
    let rho = [9u8; 32];
    let a = expand_a(&rho);
    let b = try_expand_a(&rho).unwrap();
    for i in 0..K {
        for j in 0..L {
            assert_eq!(a.rows[i].0[j].coeffs, b.rows[i].0[j].coeffs);
        }
    }
    let c = try_sample_in_ball(&[5u8; 48]).unwrap();
    assert_eq!(c.coeffs, sample_in_ball(&[5u8; 48]).coeffs);
}

#[test]
fn a_shorter_hash_starts_a_longer_one() {
    let mu = [7u8; 64];
    let w = b"some bytes";
    let long = hash_commit(&mu, w, 64);
    assert_eq!(hash_commit(&mu, w, 20), long[..20].to_vec());
    assert_eq!(hash_mu(&mu, w).to_vec(), long);
    let mut whole = mu.to_vec();
    whole.extend_from_slice(w);
    assert_eq!(hash_pk(&whole).to_vec(), long);
    assert!(hash_commit(&mu, w, 0).is_empty());
}
