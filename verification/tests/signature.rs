use qlsa_stark_stwo::hexcode::HexError;
use qlsa_stark_stwo::mldsa::encoding::{
    bit_pack, pk_decode, sig_decode, simple_bit_pack, w1_encode,
};
use qlsa_stark_stwo::mldsa::field;
use qlsa_stark_stwo::mldsa::params::{
    BETA, D, GAMMA1, GAMMA2, K, L, LAMBDA_BYTES, N, OMEGA, PK_BYTES, Q, SIG_BYTES, T1_BITS,
    Z_BITS,
};
use qlsa_stark_stwo::mldsa::poly::Poly;
use qlsa_stark_stwo::mldsa::polyvec::{high_bits_val, low_bits_val, NTTPolyVec, PolyVec};
use qlsa_stark_stwo::mldsa::verify::{ml_dsa_verify, try_ml_dsa_verify};
use qlsa_stark_stwo::mldsa::xof::{expand_a, hash_commit, hash_mu, hash_pk, sample_in_ball};
use qlsa_stark_stwo::shape::ShapeError;
use qlsa_stark_stwo::signature_witness::{
    extract_mldsa_witness, try_extract_mldsa_witness, verify_mldsa_hash_check, HashCheckError,
    SignatureWitness,
};
use qlsa_stark_stwo::statement_chain::{leaf_of, try_prove_mldsa_batch, Entry};
use qlsa_stark_stwo::statement_laws::claim_of;
use qlsa_stark_stwo::statement_witness::{Witness, WitnessCommitments};
use qlsa_stark_stwo::transcript::{Circuit, StatementError, Task};
use qlsa_stark_stwo::{
    prove_full_mldsa_witness_combined, prove_full_mldsa_witness_v23, prove_mldsa_batch,
    verify_full_mldsa_witness_combined, verify_full_mldsa_witness_v23,
};

/// A key pair whose secret part is kept in the clear.
struct Key {
    pk: Vec<u8>,
    rho: [u8; 32],
    s1: PolyVec,
    s2: PolyVec,
    t0: PolyVec,
}

/// Numbers for the tests.
fn next(state: &mut u64) -> i64 {
    *state = state.wrapping_mul(6364136223846793005).wrapping_add(1442695040888963407);
    (*state >> 33) as i64
}

/// A vector with coefficients between `low` and `high`, as residues.
fn short_vec(len: usize, low: i64, high: i64, state: &mut u64) -> PolyVec {
    let mut v = Vec::new();
    for _ in 0..len {
        let mut c = [0i64; N];
        for x in c.iter_mut() {
            *x = field::reduce(low + next(state) % (high - low + 1));
        }
        v.push(Poly::from_coeffs(c));
    }
    PolyVec(v)
}

fn make_key(seed: u8) -> Key {
    let rho = [seed; 32];
    let mut state = seed as u64 + 1;
    let s1 = short_vec(L, -4, 4, &mut state);
    let s2 = short_vec(K, -4, 4, &mut state);
    let t = expand_a(&rho).mul_vec(&s1.ntt()).intt().add(&s2);
    let (t1, t0) = t.power2round(D);
    let mut pk = rho.to_vec();
    for p in &t1.0 {
        pk.extend_from_slice(&simple_bit_pack(&p.coeffs, T1_BITS));
    }
    Key { pk, rho, s1, s2, t0 }
}

fn times(c: &Poly, v: &PolyVec) -> PolyVec {
    v.ntt().scale_poly(&c.ntt()).intt()
}

/// The hint for `r` and `r + z`: where the high parts differ.
fn hints_for(r: &PolyVec, moved: &PolyVec) -> Vec<Vec<bool>> {
    (0..K)
        .map(|i| {
            (0..N)
                .map(|j| {
                    high_bits_val(r.0[i].coeffs[j]) != high_bits_val(moved.0[i].coeffs[j])
                })
                .collect()
        })
        .collect()
}

fn pack_hints(h: &[Vec<bool>]) -> Vec<u8> {
    let mut y = vec![0u8; OMEGA + K];
    let mut n = 0usize;
    for (i, row) in h.iter().enumerate() {
        for (j, bit) in row.iter().enumerate() {
            if *bit {
                y[n] = j as u8;
                n += 1;
            }
        }
        y[OMEGA + i] = n as u8;
    }
    y
}

/// A signature, found by drawing masks until one gives away nothing.
fn sign(key: &Key, msg: &[u8]) -> Vec<u8> {
    let a = expand_a(&key.rho);
    // A message without a context.
    let mut framed = vec![0u8, 0u8];
    framed.extend_from_slice(msg);
    let mu = hash_mu(&hash_pk(&key.pk), &framed);
    let mut state = 77u64;
    loop {
        let y = short_vec(L, -(GAMMA1 - 1), GAMMA1, &mut state);
        let y_hat: NTTPolyVec = y.ntt();
        let w = a.mul_vec(&y_hat).intt();
        let w1 = w.high_bits();
        let c_tilde = hash_commit(&mu, &w1_encode(&w1), LAMBDA_BYTES);
        let c = sample_in_ball(&c_tilde);
        let z = y.add(&times(&c, &key.s1));
        let r = w.sub(&times(&c, &key.s2));
        let r0 = r
            .0
            .iter()
            .flat_map(|p| p.coeffs.iter().map(|x| low_bits_val(*x).abs()))
            .max()
            .unwrap();
        if z.norm_inf() >= GAMMA1 - BETA || r0 >= GAMMA2 - BETA {
            continue;
        }
        let ct0 = times(&c, &key.t0);
        let h = hints_for(&r.add(&ct0), &r);
        let weight: usize = h.iter().map(|row| row.iter().filter(|b| **b).count()).sum();
        if ct0.norm_inf() >= GAMMA2 || weight > OMEGA {
            continue;
        }
        let mut sig = c_tilde.clone();
        for p in &z.0 {
            let signed: [i64; N] = std::array::from_fn(|i| field::reduce_centered(p.coeffs[i]));
            sig.extend_from_slice(&bit_pack(&signed, GAMMA1, Z_BITS));
        }
        sig.extend_from_slice(&pack_hints(&h));
        return sig;
    }
}

#[test]
fn a_signature_is_valid_for_its_key_and_message_alone() {
    let key = make_key(3);
    let sig = sign(&key, b"a message");
    assert_eq!(key.pk.len(), PK_BYTES);
    assert_eq!(sig.len(), SIG_BYTES);
    assert!(ml_dsa_verify(&key.pk, b"a message", &sig));
    assert_eq!(try_ml_dsa_verify(&key.pk, b"a message", &sig), Some(true));
    assert!(!ml_dsa_verify(&key.pk, b"another message", &sig));
    assert!(!ml_dsa_verify(&make_key(4).pk, b"a message", &sig));
}

#[test]
fn a_changed_signature_is_invalid() {
    let key = make_key(5);
    let sig = sign(&key, b"m");
    // The challenge, the response and the hint.
    for at in [0, 48, 2000, 3248 + 54, SIG_BYTES - 1] {
        let mut bad = sig.clone();
        bad[at] ^= 1;
        assert!(!ml_dsa_verify(&key.pk, b"m", &bad), "byte {at}");
        assert!(extract_mldsa_witness(&key.pk, b"m", &bad).is_none());
    }
    assert_eq!(try_ml_dsa_verify(&key.pk, b"m", &sig[1..]), Some(false));
}

#[test]
fn keys_and_signatures_have_one_encoding() {
    let key = make_key(13);
    let sig = sign(&key, b"m");
    let (c_tilde, z, h) = sig_decode(&sig).unwrap();
    let mut again = c_tilde;
    for p in &z.0 {
        again.extend_from_slice(&bit_pack(&p.coeffs, GAMMA1, Z_BITS));
    }
    again.extend_from_slice(&pack_hints(&h));
    assert_eq!(again, sig);
    let (rho, t1) = pk_decode(&key.pk).unwrap();
    let mut pk = rho.to_vec();
    for p in &t1.0 {
        pk.extend_from_slice(&simple_bit_pack(&p.coeffs, T1_BITS));
    }
    assert_eq!(pk, key.pk);
    // The same hint in another order, or with a position in the padding, is no encoding.
    let mut y = vec![0u8; OMEGA + K];
    y[0] = 9;
    y[1] = 4;
    for i in 0..K {
        y[OMEGA + i] = 2;
    }
    let mut bad = sig.clone();
    bad[3248..].copy_from_slice(&y);
    assert!(sig_decode(&bad).is_err());
}

fn witness_of(key: &Key, msg: &[u8], sig: &[u8]) -> SignatureWitness {
    try_extract_mldsa_witness(&key.pk, msg, sig).unwrap().unwrap()
}

#[test]
fn the_witness_of_a_signature() {
    let key = make_key(6);
    let sig = sign(&key, b"msg");
    let w = witness_of(&key, b"msg", &sig);
    assert_eq!(w.a_hat.len(), K * L);
    assert_eq!(w.a_hat[7], expand_a(&key.rho).rows[1].0[2].coeffs);
    assert_eq!(w.c, sample_in_ball(&sig[..LAMBDA_BYTES]).coeffs);
    assert!(w.z.iter().all(|p| p.iter().all(|x| 0 <= *x && *x < Q)));
    assert!(w.t1.iter().all(|p| p.iter().all(|x| *x % (1 << D) == 0)));
    assert!(try_extract_mldsa_witness(&key.pk, b"other", &sig).unwrap().is_none());
}

fn proved(
    w: &SignatureWitness,
    seed: &[u8],
    extra: &[u8],
) -> (Task, WitnessCommitments, Witness) {
    prove_full_mldsa_witness_combined(&w.z, &w.c, &w.t1, &w.a_hat, &w.hints, seed, extra).unwrap()
}

#[test]
fn the_statement_recomputes_the_challenge() {
    let key = make_key(7);
    let sig = sign(&key, b"msg");
    let w = witness_of(&key, b"msg", &sig);
    let (_, _, out) = proved(&w, &sig[..LAMBDA_BYTES], b"");
    let w1: Vec<Vec<i64>> = out.differences.w1_out.iter().map(|p| p.to_vec()).collect();
    let hex_seed = hex::encode(&sig[..LAMBDA_BYTES]);
    assert_eq!(verify_mldsa_hash_check(&key.pk, b"msg", &w1, &hex_seed), Ok(true));
    assert_eq!(verify_mldsa_hash_check(&key.pk, b"msh", &w1, &hex_seed), Ok(false));
    assert!(out.differences.max_norms.iter().all(|n| *n < GAMMA1 - BETA));
    assert!(out.differences.hint_weight_total <= OMEGA);
}

#[test]
fn hash_check_errors() {
    let w1 = vec![vec![0i64; 256]; 6];
    assert_eq!(
        verify_mldsa_hash_check(b"", b"", &vec![], "00"),
        Err(HashCheckError::Shape(ShapeError::Rows { expected: 6, got: 0 }))
    );
    assert_eq!(
        verify_mldsa_hash_check(b"", b"", &w1, "0"),
        Err(HashCheckError::Hex(HexError::OddLength))
    );
    assert_eq!(
        verify_mldsa_hash_check(b"", b"", &w1, "00"),
        Err(HashCheckError::SeedLength { got: 1 })
    );
}

#[test]
fn a_claim_replays_the_transcript_of_its_proof() {
    let key = make_key(8);
    let sig = sign(&key, b"msg");
    let w = witness_of(&key, b"msg", &sig);
    let (task, cm, out) = proved(&w, b"seed", b"extra");
    assert_eq!(task.log_size, 10);
    assert_eq!(task.transcript.components.len(), 7);
    let claim = claim_of(&out);
    let replay = verify_full_mldsa_witness_combined(&cm, &claim, b"seed", b"extra")
        .unwrap()
        .unwrap();
    assert_eq!(replay.transcript, task.transcript);
    assert_eq!(replay.lifting, Some(16));
    // Another seed, or another binding, leads to another transcript.
    for (seed, extra) in [(&b"seee"[..], &b"extra"[..]), (&b"seed"[..], &b"extrb"[..])] {
        let other = verify_full_mldsa_witness_combined(&cm, &claim, seed, extra)
            .unwrap()
            .unwrap();
        assert_ne!(other.transcript, task.transcript);
    }
}

#[test]
fn another_claim_is_turned_down() {
    let key = make_key(9);
    let sig = sign(&key, b"msg");
    let w = witness_of(&key, b"msg", &sig);
    let (_, cm, out) = proved(&w, b"seed", b"");
    let mut claim = claim_of(&out);
    claim.w_prime[0][0] ^= 1;
    assert!(matches!(verify_full_mldsa_witness_combined(&cm, &claim, b"seed", b""), Ok(None)));
    let mut heavier = claim_of(&out);
    heavier.hint_weight_total += 1;
    assert!(matches!(verify_full_mldsa_witness_combined(&cm, &heavier, b"seed", b""), Ok(None)));
    let mut other_parts = claim_of(&out);
    other_parts.w1_out[5][255] ^= 1;
    assert!(matches!(
        verify_full_mldsa_witness_combined(&cm, &other_parts, b"seed", b""),
        Ok(None)
    ));
    let mut bad_norm = cm;
    bad_norm.differences.norm = "00".to_string();
    assert!(matches!(
        verify_full_mldsa_witness_combined(&bad_norm, &claim_of(&out), b"seed", b""),
        Err(StatementError::Commitment(_))
    ));
}

#[test]
fn the_ranged_statement_has_one_more_component() {
    let key = make_key(10);
    let sig = sign(&key, b"msg");
    let w = witness_of(&key, b"msg", &sig);
    let (task, cm, out) =
        prove_full_mldsa_witness_v23(&w.z, &w.c, &w.t1, &w.a_hat, &w.hints, b"seed", b"").unwrap();
    assert_eq!(task.transcript.components.len(), 8);
    assert_eq!(task.transcript.components[7].circuit, Circuit::RangeQBatch);
    let claim = claim_of(&out);
    let replay = verify_full_mldsa_witness_v23(&cm, &claim, b"seed", b"").unwrap().unwrap();
    assert_eq!(replay.transcript, task.transcript);
    let other = verify_full_mldsa_witness_combined(&cm, &claim, b"seed", b"").unwrap().unwrap();
    assert_ne!(other.transcript, task.transcript);
}

#[test]
fn a_matrix_of_another_size_is_refused() {
    let z = [[0i64; 256]; 5];
    let t1 = [[0i64; 256]; 6];
    let a = vec![[0i64; 256]; 29];
    let res =
        prove_full_mldsa_witness_combined(&z, &[0; 256], &t1, &a, &[[false; 256]; 6], b"", b"");
    assert_eq!(res.err(), Some(StatementError::MatrixSize { got: 29 }));
}

#[test]
fn a_batch_keeps_the_valid_signatures() {
    let a = make_key(11);
    let b = make_key(12);
    let entries: Vec<Entry> = vec![
        (a.pk.clone(), b"one".to_vec(), sign(&a, b"one")),
        (a.pk.clone(), b"two".to_vec(), sign(&b, b"two")),
        (b.pk.clone(), b"three".to_vec(), sign(&b, b"three")),
        (vec![1], vec![2], vec![3]),
    ];
    let (leaves, rejected) = prove_mldsa_batch(&entries).unwrap();
    assert_eq!(leaves, vec![leaf_of(&a.pk, b"one"), leaf_of(&b.pk, b"three")]);
    assert_eq!(rejected, 2);
    assert_eq!(try_prove_mldsa_batch(&entries), Some(Ok((leaves, 2))));
}

#[test]
fn a_batch_without_valid_signatures_is_refused() {
    assert_eq!(prove_mldsa_batch(&[]), Err(StatementError::NoValidSignature));
    let entries: Vec<Entry> = vec![(vec![1], vec![2], vec![3])];
    assert_eq!(prove_mldsa_batch(&entries), Err(StatementError::NoValidSignature));
}

#[test]
fn leaf_of_a_known_input() {
    assert_eq!(leaf_of(b"pk", b"msg"), 3352577779700876478);
}
