use qlsa_stark_stwo::commitment::{build_commitment_128, CommitmentError, M31_MODULUS};
use qlsa_stark_stwo::transcript::{Circuit, Component, Replay, StatementError, Task};
use qlsa_stark_stwo::{
    prove_hash_chain, prove_hash_chain_poseidon2, prove_merkle_root, verify_hash_chain,
    verify_hash_chain_poseidon2, verify_merkle_root,
};

/// The bytes of some proof.
fn some_proof() -> Vec<u8> {
    (0..100u8).map(|i| i.wrapping_mul(29).wrapping_add(3)).collect()
}

/// The commitment with its value changed.
fn off_by_one(commitment_hex: &str) -> String {
    let mut bytes = hex::decode(commitment_hex).unwrap();
    let mut val = u32::from_le_bytes(bytes[0..4].try_into().unwrap());
    val = val.wrapping_add(1) % M31_MODULUS;
    bytes[0..4].copy_from_slice(&val.to_le_bytes());
    hex::encode(&bytes)
}

fn replays(task: &Task, replay: Result<Replay, StatementError>) -> bool {
    match replay {
        Ok(r) => r.transcript == task.transcript,
        Err(_) => false,
    }
}

#[test]
fn test_prove_and_verify() {
    let leaves = vec![1u64, 2, 3, 4, 5, 6, 7, 8];
    let proof = some_proof();
    let task = prove_hash_chain(&leaves, &[], 6, 11).expect("proving failed");
    let commitment_hex = build_commitment_128(11, &proof);
    let replay = verify_hash_chain(&proof, &commitment_hex, 6, 3, &[]);
    assert!(replays(&task, replay));
}

#[test]
fn test_poseidon2_prove_and_verify() {
    let leaves = vec![1u64, 2, 3, 4, 5, 6, 7, 8];
    let proof = some_proof();
    let task = prove_hash_chain_poseidon2(&leaves, &[], 6, 11).expect("poseidon2 proving failed");
    let commitment_hex = build_commitment_128(11, &proof);
    let replay = verify_hash_chain_poseidon2(&proof, &commitment_hex, 6, 3, &[]);
    assert!(replays(&task, replay));
}

#[test]
fn test_poseidon2_one_leaf() {
    // log_size=3 is the minimum; exercises the smallest valid Poseidon2 trace.
    let leaves = vec![999u64];
    let proof = some_proof();
    let task = prove_hash_chain_poseidon2(&leaves, &[], 3, 11).expect("proving failed");
    assert_eq!(task.log_size, 3);
    let commitment_hex = build_commitment_128(11, &proof);
    let replay = verify_hash_chain_poseidon2(&proof, &commitment_hex, task.log_size, 3, &[]);
    assert!(replays(&task, replay));
}

#[test]
fn test_poseidon2_two_leaves() {
    // log_size=4; exercises the 2-leaf case used by prove_mldsa_batch.
    let leaves = vec![1u64, 2];
    let proof = some_proof();
    let task = prove_hash_chain_poseidon2(&leaves, &[], 4, 11).expect("proving failed");
    assert_eq!(task.log_size, 4);
    let commitment_hex = build_commitment_128(11, &proof);
    let replay = verify_hash_chain_poseidon2(&proof, &commitment_hex, task.log_size, 3, &[]);
    assert!(replays(&task, replay));
}

#[test]
fn test_merkle_prove_and_verify() {
    let leaves = vec![1u64, 2, 3, 4];
    let proof = some_proof();
    let task = prove_merkle_root(&leaves, &[], 6, 11).expect("merkle proving failed");
    let commitment_hex = build_commitment_128(11, &proof);
    let replay = verify_merkle_root(&proof, &commitment_hex, 6, 3, &[]);
    assert!(replays(&task, replay));
}

#[test]
fn test_hash_chain_merkle_root_binding() {
    let leaves = vec![1u64, 2, 3, 4, 5, 6, 7, 8];
    let root_a = b"merkle_root_batch_A_64_bytes_padding_xxxxxxxxxxxxxxxxxxxxxxxxxxxxxxxx";
    let root_b = b"merkle_root_batch_B_64_bytes_padding_xxxxxxxxxxxxxxxxxxxxxxxxxxxxxxxx";
    let proof = some_proof();

    let task = prove_hash_chain(&leaves, root_a, 4, 77).expect("proving failed");
    let commitment_hex = build_commitment_128(77, &proof);

    // Same root → must verify.
    let ok = verify_hash_chain(&proof, &commitment_hex, 4, 3, root_a);
    assert!(replays(&task, ok), "same root must verify");

    // Different root → must fail.
    let fail = verify_hash_chain(&proof, &commitment_hex, 4, 3, root_b);
    assert!(!replays(&task, fail), "different root must not verify");
}

#[test]
fn test_poseidon2_tampered_proof_fails() {
    let leaves = vec![1u64, 2, 3, 4, 5, 6, 7, 8];
    let task = prove_hash_chain_poseidon2(&leaves, &[], 8, 5).expect("poseidon2 proving failed");
    let proof = some_proof();
    let commitment_hex = build_commitment_128(5, &proof);
    assert!(replays(&task, verify_hash_chain_poseidon2(&proof, &commitment_hex, 8, 3, &[])));
    let mut bad_proof = proof.clone();
    bad_proof[20] ^= 0xFF;
    let result = verify_hash_chain_poseidon2(&bad_proof, &commitment_hex, 8, 3, &[]);
    assert_eq!(result, Err(StatementError::Commitment(CommitmentError::Suffix)));
}

#[test]
fn test_poseidon2_seed_binds_proof() {
    let leaves = vec![1u64, 2, 3, 4, 5, 6, 7, 8];
    let seed_a = b"batch_merkle_root_32_bytes_aaaaaa";
    let seed_b = b"batch_merkle_root_32_bytes_bbbbbb";
    let proof = some_proof();

    let task =
        prove_hash_chain_poseidon2(&leaves, seed_a, 8, 5).expect("poseidon2 proving failed");
    let commitment_hex = build_commitment_128(5, &proof);

    // Same seed → should verify.
    assert!(
        replays(&task, verify_hash_chain_poseidon2(&proof, &commitment_hex, 8, 3, seed_a)),
        "proof should verify with correct seed"
    );

    // Different seed → should fail.
    assert!(
        !replays(&task, verify_hash_chain_poseidon2(&proof, &commitment_hex, 8, 3, seed_b)),
        "proof should NOT verify with wrong seed"
    );

    // Empty seed → should also fail.
    assert!(
        !replays(&task, verify_hash_chain_poseidon2(&proof, &commitment_hex, 8, 3, &[])),
        "proof should NOT verify with no seed when proven with seed"
    );
}

#[test]
fn test_merkle_seed_binds_proof() {
    let leaves = vec![1u64, 2, 3, 4];
    let seed_a = b"merkle_seed_aaaaaaaaaaaaaaaaaaaaa";
    let seed_b = b"merkle_seed_bbbbbbbbbbbbbbbbbbbbb";
    let proof = some_proof();

    let task = prove_merkle_root(&leaves, seed_a, 6, 9).expect("merkle proving failed");
    let commitment_hex = build_commitment_128(9, &proof);

    assert!(
        replays(&task, verify_merkle_root(&proof, &commitment_hex, 6, 3, seed_a)),
        "proof should verify with correct seed"
    );
    assert!(
        !replays(&task, verify_merkle_root(&proof, &commitment_hex, 6, 3, seed_b)),
        "proof should NOT verify with wrong seed"
    );
}

#[test]
fn test_wrong_commitment_fails_hash_chain() {
    let proof = some_proof();
    let commitment_hex = build_commitment_128(1234, &proof);
    // Mutate the M31 component (bytes [0:4]) — the suffix check will catch it.
    let bad_commitment = off_by_one(&commitment_hex);
    assert!(verify_hash_chain(&proof, &commitment_hex, 4, 3, &[]).is_ok());
    let result = verify_hash_chain(&proof, &bad_commitment, 4, 3, &[]);
    assert!(result.is_err(), "wrong commitment should cause verification failure");
}

#[test]
fn test_wrong_commitment_fails_poseidon2() {
    let proof = some_proof();
    let commitment_hex = build_commitment_128(1234, &proof);
    let bad_commitment = off_by_one(&commitment_hex);
    let result = verify_hash_chain_poseidon2(&proof, &bad_commitment, 8, 3, &[]);
    assert!(result.is_err(), "wrong commitment should cause poseidon2 verification failure");
}

#[test]
fn test_wrong_commitment_fails_merkle() {
    let proof = some_proof();
    let commitment_hex = build_commitment_128(1234, &proof);
    let bad_commitment = off_by_one(&commitment_hex);
    let result = verify_merkle_root(&proof, &bad_commitment, 6, 3, &[]);
    assert!(result.is_err(), "wrong commitment should cause merkle verification failure");
}

#[test]
fn test_merkle_tampered_proof_fails() {
    let proof = some_proof();
    let commitment_hex = build_commitment_128(10, &proof);
    let mut bad_proof = proof.clone();
    bad_proof[20] ^= 0xFF;
    assert!(verify_merkle_root(&proof, &commitment_hex, 6, 3, &[]).is_ok());
    assert!(verify_merkle_root(&bad_proof, &commitment_hex, 6, 3, &[]).is_err());
}

#[test]
fn value_statements() {
    let task = prove_hash_chain(&[1, 2, 3], &[1, 2, 3, 4, 5], 4, 77).unwrap();
    assert_eq!(task.log_size, 4);
    assert_eq!(task.transcript.seeds, vec![vec![0x04030201, 5]]);
    assert_eq!(
        task.transcript.components,
        vec![Component { circuit: Circuit::HashChain, log_n_rows: 4 }]
    );
    assert_eq!(task.transcript.messages, vec![vec![77]]);
    let bare = prove_hash_chain(&[1], &[], 4, 77).unwrap();
    assert!(bare.transcript.seeds.is_empty());
}

#[test]
fn value_statement_errors() {
    assert_eq!(prove_hash_chain(&[], &[], 4, 0).err(), Some(StatementError::Empty));
    assert_eq!(prove_merkle_root(&[], &[], 4, 0).err(), Some(StatementError::Empty));
    assert_eq!(
        prove_hash_chain_poseidon2(&[1], &[], 29, 0).err(),
        Some(StatementError::TooLarge { log_size: 29 })
    );
    let proof = some_proof();
    let commitment_hex = build_commitment_128(1, &proof);
    for log_size in [2u32, 29] {
        assert_eq!(
            verify_hash_chain(&proof, &commitment_hex, log_size, 3, &[]),
            Err(StatementError::LogSize { log_size, min: 3 })
        );
    }
}
