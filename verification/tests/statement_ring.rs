use qlsa_stark_stwo::commitment::{
    build_poly_commitment, output_fingerprint, parse_poly_commitment, CommitmentError,
    M31_MODULUS,
};
use qlsa_stark_stwo::mldsa;
use qlsa_stark_stwo::mldsa::polyvec::{high_bits_val, use_hint_val};
use qlsa_stark_stwo::mldsa_norm_check_air;
use qlsa_stark_stwo::transcript::{Circuit, Component, Input, Replay, StatementError, Task};
use qlsa_stark_stwo::{
    prove_norm_check, prove_ntt, prove_poly_add, prove_poly_mul, prove_poly_sub, prove_range_q,
    prove_use_hint, verify_norm_check, verify_ntt, verify_poly_add, verify_poly_mul,
    verify_poly_sub, verify_range_q, verify_use_hint,
};

fn random_ntt_input(seed: u64) -> [i64; 256] {
    let q = mldsa::Q;
    let mut state = seed;
    let mut f = [0i64; 256];
    for c in f.iter_mut() {
        state = state.wrapping_mul(6364136223846793005).wrapping_add(1442695040888963407);
        *c = ((state >> 33) as i64).abs() % q;
    }
    f
}

fn random_q_poly(seed: u64) -> [i64; 256] {
    let q = mldsa::Q;
    let mut state = seed;
    let mut f = [0i64; 256];
    for c in f.iter_mut() {
        state = state.wrapping_mul(6364136223846793005).wrapping_add(1442695040888963407);
        *c = ((state >> 33) as i64).abs() % q;
    }
    f
}

/// A verifier that is given the commitment replays the prover's transcript.
fn replays(task: &Task, replay: Result<Replay, StatementError>) -> bool {
    match replay {
        Ok(r) => r.transcript == task.transcript,
        Err(_) => false,
    }
}

/// The commitment with its first word changed.
fn off_by_one(commitment_hex: &str) -> String {
    let mut bytes = hex::decode(commitment_hex).unwrap();
    let mut val = u32::from_le_bytes(bytes[0..4].try_into().unwrap());
    val = val.wrapping_add(1) % M31_MODULUS;
    bytes[0..4].copy_from_slice(&val.to_le_bytes());
    hex::encode(&bytes)
}

#[test]
fn test_prove_and_verify_ntt() {
    let f = random_ntt_input(0xc0ffee);
    let (task, commitment_hex, ntt_out) = prove_ntt(&f).expect("NTT proving failed");

    // Output must match the reference NTT.
    let mut expected = f;
    mldsa::ntt::ntt(&mut expected);
    assert_eq!(ntt_out, expected, "NTT output mismatch");

    assert!(replays(&task, verify_ntt(&commitment_hex)), "NTT proof should verify");
}

#[test]
fn test_ntt_wrong_commitment_fails() {
    let f = random_ntt_input(7);
    let (task, commitment_hex, _) = prove_ntt(&f).expect("NTT proving failed");
    let bad_commitment = off_by_one(&commitment_hex);
    assert!(
        !replays(&task, verify_ntt(&bad_commitment)),
        "wrong commitment should fail NTT verification"
    );
}

#[test]
fn test_ntt_zero_poly() {
    // NTT of the zero polynomial is the zero polynomial.
    let f = [0i64; 256];
    let (task, commitment_hex, ntt_out) = prove_ntt(&f).expect("NTT proving of zero failed");
    assert_eq!(ntt_out, [0i64; 256]);
    assert!(replays(&task, verify_ntt(&commitment_hex)));
}

#[test]
fn test_prove_and_verify_poly_mul() {
    let a = random_q_poly(100);
    let b = random_q_poly(200);
    let (task, commitment_hex, product) = prove_poly_mul(&a, &b).expect("poly_mul proving failed");

    // Product must match the reference.
    let reference = mldsa::ntt::pointwise_mul(&a, &b);
    assert_eq!(product, reference);

    assert!(replays(&task, verify_poly_mul(&commitment_hex)));
}

#[test]
fn test_poly_mul_zero_is_zero() {
    let a = [0i64; 256];
    let b = random_q_poly(3);
    let (task, commitment_hex, product) = prove_poly_mul(&a, &b).expect("poly_mul proving failed");
    assert_eq!(product, [0i64; 256]);
    assert!(replays(&task, verify_poly_mul(&commitment_hex)));
}

#[test]
fn test_prove_and_verify_poly_add() {
    let a = random_q_poly(300);
    let b = random_q_poly(400);
    let (task, commitment_hex, sum) = prove_poly_add(&a, &b).expect("poly_add proving failed");

    // Sum must be correct mod Q.
    let q = mldsa::Q;
    for i in 0..256 {
        assert_eq!(sum[i], (a[i] + b[i]).rem_euclid(q), "sum[{i}]");
    }

    assert!(replays(&task, verify_poly_add(&commitment_hex)), "poly_add proof should verify");
}

#[test]
fn test_poly_add_zero_is_identity() {
    let a = random_q_poly(500);
    let z = [0i64; 256];
    let (task, commitment_hex, sum) = prove_poly_add(&a, &z).expect("poly_add proving failed");
    assert_eq!(sum, a);
    assert!(replays(&task, verify_poly_add(&commitment_hex)));
}

#[test]
fn test_prove_and_verify_poly_sub() {
    let q = mldsa::Q;
    let a = random_q_poly(600);
    let b = random_q_poly(700);
    let (task, commitment_hex, diff) = prove_poly_sub(&a, &b).expect("poly_sub proving failed");

    for i in 0..256 {
        assert_eq!(diff[i], (a[i] - b[i]).rem_euclid(q), "diff[{i}]");
    }

    assert!(replays(&task, verify_poly_sub(&commitment_hex)), "poly_sub proof should verify");
}

#[test]
fn test_poly_sub_self_is_zero() {
    let a = random_q_poly(800);
    let (task, commitment_hex, diff) = prove_poly_sub(&a, &a).expect("poly_sub (a - a) failed");
    assert_eq!(diff, [0i64; 256]);
    assert!(replays(&task, verify_poly_sub(&commitment_hex)));
}

#[test]
fn test_poly_sub_zero_is_identity() {
    let a = random_q_poly(900);
    let z = [0i64; 256];
    let (task, commitment_hex, diff) = prove_poly_sub(&a, &z).expect("poly_sub (a - 0) failed");
    assert_eq!(diff, a);
    assert!(replays(&task, verify_poly_sub(&commitment_hex)));
}

#[test]
fn test_prove_and_verify_norm_check() {
    let z = random_q_poly(1000);
    let (task, commitment_hex, norm, max_norm) =
        prove_norm_check(&z).expect("norm_check proving failed");

    // Verify norm values.
    let q = mldsa::Q;
    let half = (q - 1) / 2;
    for i in 0..256 {
        let expected = if z[i] > half { q - z[i] } else { z[i] };
        assert_eq!(norm[i], expected, "norm[{i}]");
    }
    let expected_max = norm.iter().copied().max().unwrap_or(0);
    assert_eq!(max_norm, expected_max);

    assert!(replays(&task, verify_norm_check(&commitment_hex)), "norm_check proof should verify");
}

#[test]
fn test_norm_check_zero_poly() {
    let z = [0i64; 256];
    let (task, commitment_hex, norm, max_norm) =
        prove_norm_check(&z).expect("norm_check of zero failed");
    assert_eq!(norm, [0i64; 256]);
    assert_eq!(max_norm, 0);
    assert!(replays(&task, verify_norm_check(&commitment_hex)));
}

#[test]
fn test_prove_and_verify_use_hint_no_hints() {
    let r = random_q_poly(1200);
    let h = [false; 256];
    let (task, commitment_hex, w1) = prove_use_hint(&r, &h).expect("use_hint proving failed");
    // No hints: w1[i] = HighBits(r[i]).
    for i in 0..256 {
        assert_eq!(w1[i], high_bits_val(r[i]), "no-hint w1[{i}]");
    }
    assert!(
        replays(&task, verify_use_hint(&commitment_hex)),
        "use_hint (no hints) proof should verify"
    );
}

#[test]
fn test_prove_and_verify_use_hint_random() {
    let r = random_q_poly(1300);
    let mut state = 1301u64;
    let h: [bool; 256] = std::array::from_fn(|_| {
        state = state.wrapping_mul(6364136223846793005).wrapping_add(1442695040888963407);
        (state >> 63) != 0
    });
    let (task, commitment_hex, w1) = prove_use_hint(&r, &h).expect("use_hint proving failed");
    for i in 0..256 {
        assert_eq!(w1[i], use_hint_val(h[i], r[i]), "w1[{i}]");
    }
    assert!(replays(&task, verify_use_hint(&commitment_hex)), "use_hint proof should verify");
}

#[test]
fn the_transcript_holds_the_component_and_the_fingerprint() {
    let f = random_ntt_input(11);
    let (task, commitment_hex, out) = prove_ntt(&f).unwrap();
    assert_eq!(task.log_size, 10);
    assert!(task.transcript.seeds.is_empty());
    assert_eq!(
        task.transcript.components,
        vec![Component { circuit: Circuit::Ntt, log_n_rows: 10 }]
    );
    let fp = output_fingerprint(&out);
    assert_eq!(task.transcript.messages, vec![fp.to_vec()]);
    assert_eq!(commitment_hex, build_poly_commitment(&fp));
    assert_eq!(parse_poly_commitment(&commitment_hex), Ok(fp));
}

#[test]
fn subtraction_is_addition_of_the_negative() {
    // Subtraction is stated as an addition, with the negated second input.
    let a = random_q_poly(21);
    let b = random_q_poly(22);
    let minus: [i64; 256] = std::array::from_fn(|i| (mldsa::Q - b[i]) % mldsa::Q);
    let (task, sub_hex, diff) = prove_poly_sub(&a, &b).unwrap();
    let (_, add_hex, sum) = prove_poly_add(&a, &minus).unwrap();
    assert_eq!(diff, sum);
    assert_eq!(sub_hex, add_hex);
    assert_eq!(task.transcript.components[0].circuit, Circuit::PolyAdd);
    let other = verify_poly_add(&sub_hex).unwrap();
    assert_eq!(other.transcript, verify_poly_sub(&sub_hex).unwrap().transcript);
}

#[test]
fn the_norm_trace_is_handed_to_the_prover() {
    let z = random_q_poly(23);
    let (task, _, _, _) = prove_norm_check(&z).unwrap();
    let (cols, _) = mldsa_norm_check_air::build_trace(&z);
    assert_eq!(task.traces, vec![Some(cols)]);
}

#[test]
fn different_outputs_give_different_transcripts() {
    let (a, hex_a, _) = prove_ntt(&random_ntt_input(1)).unwrap();
    let (b, hex_b, _) = prove_ntt(&random_ntt_input(2)).unwrap();
    assert_ne!(hex_a, hex_b);
    assert_ne!(a.transcript, b.transcript);
}

#[test]
fn inputs_out_of_range_are_refused() {
    let ok = [0i64; 256];
    let mut low = ok;
    low[3] = -1;
    let mut high = ok;
    high[255] = mldsa::Q;
    assert_eq!(
        prove_ntt(&low).err(),
        Some(StatementError::OutOfRange { input: Input::F, row: None, index: 3, value: -1 })
    );
    assert_eq!(
        prove_poly_mul(&high, &ok).err(),
        Some(StatementError::OutOfRange {
            input: Input::A,
            row: None,
            index: 255,
            value: mldsa::Q
        })
    );
    assert_eq!(
        prove_poly_add(&ok, &low).err(),
        Some(StatementError::OutOfRange { input: Input::B, row: None, index: 3, value: -1 })
    );
    assert_eq!(
        prove_use_hint(&low, &[false; 256]).err(),
        Some(StatementError::OutOfRange { input: Input::R, row: None, index: 3, value: -1 })
    );
    assert_eq!(
        prove_norm_check(&high).err(),
        Some(StatementError::OutOfRange {
            input: Input::Z,
            row: None,
            index: 255,
            value: mldsa::Q
        })
    );
    assert!(matches!(prove_range_q(&low), Err(StatementError::OutOfRange { index: 3, .. })));
}

#[test]
fn range_proofs_commit_to_the_polynomial() {
    let p = random_q_poly(24);
    let (task, commitment_hex) = prove_range_q(&p).unwrap();
    assert_eq!(commitment_hex, build_poly_commitment(&output_fingerprint(&p)));
    assert!(replays(&task, verify_range_q(&commitment_hex)));
}

#[test]
fn commitments_that_are_none_are_refused() {
    assert!(matches!(verify_ntt("zz"), Err(StatementError::Commitment(CommitmentError::Hex(_)))));
    assert!(matches!(verify_ntt("00"), Err(StatementError::Commitment(_))));
}
