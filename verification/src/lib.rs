//! ML-DSA-65 verification and the statements of its STARK proofs.

pub mod air;
pub mod base64;
pub mod batch_input;
pub mod batch_tree;
pub mod bytes;
pub mod cells;
pub mod circuit_calls;
pub mod circuit_equations;
pub mod columns;
pub mod combined_calls;
pub mod commitment;
pub mod constraint;
pub mod digest;
pub mod hash_calls;
pub mod hash_inputs;
pub mod hexcode;
pub mod mldsa;
pub mod mldsa_az_air;
pub mod mldsa_az_full_air;
pub mod mldsa_ct1_full_air;
pub mod mldsa_hint_weight_air;
pub mod mldsa_intt_air;
pub mod mldsa_intt_batch_air;
pub mod mldsa_norm_check_air;
pub mod mldsa_norm_check_batch_air;
pub mod node_hash;
pub mod rows;
pub mod shape;
pub mod signature_witness;
pub mod statement_batch;
pub mod statement_calls;
pub mod statement_chain;
pub mod statement_content;
pub mod statement_faults;
pub mod statement_full;
pub mod statement_laws;
pub mod statement_ring;
pub mod statement_witness;
pub mod text_content;
pub mod trace_cells;
pub mod transcript;
pub mod tree_content;

pub use crate::commitment::output_fingerprint;
pub use crate::statement_batch::{
    prove_az_full, prove_az_row, prove_ct1_full, prove_hint_weight, prove_intt_batch,
    prove_intt_batch_m, prove_norm_check_batch, prove_ntt_batch, prove_ntt_batch_m,
    prove_range_q_batch, prove_use_hint_batch, prove_use_hint_batch_v2, prove_wprime_full,
    prove_wprime_full_bound, verify_az_full, verify_az_row, verify_ct1_full, verify_hint_weight,
    verify_intt_batch, verify_intt_batch_m, verify_norm_check_batch, verify_ntt_batch,
    verify_ntt_batch_m, verify_range_q_batch, verify_use_hint_batch, verify_use_hint_batch_v2,
    verify_wprime_full, verify_wprime_full_bound,
};
pub use crate::statement_chain::{
    prove_hash_chain, prove_hash_chain_poseidon2, prove_merkle_root, prove_mldsa_batch,
    verify_hash_chain, verify_hash_chain_poseidon2, verify_merkle_root,
};
pub use crate::statement_full::{
    prove_az_ct1_combined, prove_az_ct1_norm_use_hint_combined, prove_norm_use_hint_combined,
    verify_az_ct1_combined, verify_az_ct1_norm_use_hint_combined, verify_norm_use_hint_combined,
};
pub use crate::statement_ring::{
    prove_norm_check, prove_ntt, prove_poly_add, prove_poly_mul, prove_poly_sub, prove_range_q,
    prove_use_hint, verify_norm_check, verify_ntt, verify_poly_add, verify_poly_mul,
    verify_poly_sub, verify_range_q, verify_use_hint,
};
pub use crate::statement_witness::{
    prove_full_mldsa_witness_combined, prove_full_mldsa_witness_v23, prove_intt_wprime_combined,
    prove_intt_wprime_norm_use_hint_combined, prove_ntt_az_ct1_combined,
    verify_full_mldsa_witness_combined, verify_full_mldsa_witness_v23,
    verify_intt_wprime_combined, verify_intt_wprime_norm_use_hint_combined,
    verify_ntt_az_ct1_combined,
};
