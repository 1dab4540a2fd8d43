use qlsa_stark_stwo::constraint::{evaluate, Term};
use qlsa_stark_stwo::mldsa::field;
use qlsa_stark_stwo::mldsa::ntt::{ntt, ntt_inv};
use qlsa_stark_stwo::mldsa::params::{N, Q, ZETA};
use qlsa_stark_stwo::mldsa_intt_air::{
    build_trace, compute_gs_butterfly, MlDsaInttButterflyEval, LOG_N_BUTTERFLIES,
};

/// The rows of a trace satisfy every constraint.
fn assert_rows_satisfy(constraints: &Vec<Vec<Term>>, cols: &[Vec<u32>]) {
    for i in 0..cols[0].len() {
        let row: Vec<u32> = cols.iter().map(|c| c[i]).collect();
        for (k, v) in evaluate(constraints, &row).iter().enumerate() {
            assert_eq!(*v, 0, "constraint {k} at row {i}");
        }
    }
}

fn random_poly(seed: u64) -> [i64; N] {
    let mut state = seed;
    let mut p = [0i64; N];
    for c in p.iter_mut() {
        state = state.wrapping_mul(6364136223846793005).wrapping_add(1442695040888963407);
        *c = ((state >> 33) as i64).abs() % Q;
    }
    p
}

#[test]
fn test_gs_butterfly_integer_correctness() {
    let a_in     = 1_234_567_i64;
    let b_in     = 7_654_321_i64;
    let zeta_inv = field::pow(ZETA, 384); // ζ^{512-128} = ζ^{-128}

    let row = compute_gs_butterfly(a_in, b_in, zeta_inv);

    // C1: diff = (a_in - b_in) mod Q
    assert_eq!(row.diff, (a_in - b_in).rem_euclid(Q), "diff");
    // C3: a_out = (a_in + b_in) mod Q
    assert_eq!(row.a_out, (a_in + b_in).rem_euclid(Q), "a_out");
    // C5: b_out = ζ^{-1} × diff mod Q (integer)
    assert_eq!(zeta_inv * row.diff, row.b_out + row.carry_b * Q, "C5 integer");
    assert!(row.b_out >= 0 && row.b_out < Q);
    assert!(matches!(row.carry_d, 0 | 1));
    assert!(matches!(row.carry_a, 0 | 1));
}

#[test]
fn test_intt_output_matches_reference() {
    for seed in [0u64, 1, 42, 0xdead_beef] {
        // Start from a polynomial in NTT domain.
        let f = random_poly(seed);
        let mut f_hat = f;
        ntt(&mut f_hat);

        let (_, intt_out) = build_trace(&f_hat);

        let mut expected = f_hat;
        ntt_inv(&mut expected);

        assert_eq!(intt_out, expected, "INTT mismatch (seed={seed})");
    }
}

#[test]
fn test_intt_ntt_roundtrip() {
    let f = random_poly(99);
    let mut f_hat = f;
    ntt(&mut f_hat);
    let (_, intt_out) = build_trace(&f_hat);
    assert_eq!(intt_out, f, "INTT(NTT(f)) ≠ f");
}

#[test]
fn mldsa_intt_air_test_constraints_on_trace() {
    let f = random_poly(1337);
    // Use an NTT-domain input (random polynomial through NTT).
    let mut f_hat = f;
    ntt(&mut f_hat);

    let (cols, _) = build_trace(&f_hat);
    let evaluator = MlDsaInttButterflyEval { log_n_rows: LOG_N_BUTTERFLIES };
    assert_eq!(cols[0].len(), 1 << evaluator.log_size());
    assert_rows_satisfy(&evaluator.constraints(), &cols);
}
