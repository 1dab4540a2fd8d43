use qlsa_stark_stwo::constraint::{evaluate, Term};
use qlsa_stark_stwo::mldsa::params::{N, Q};
use qlsa_stark_stwo::mldsa_norm_check_air::{
    build_trace, sel_and_norm, NormCheckEval, HALF, LOG_N_ROWS, NORM_BOUND,
};

/// The rows of a trace satisfy every constraint.
fn assert_rows_satisfy(constraints: &Vec<Vec<Term>>, cols: &[Vec<u32>]) {
    for i in 0..cols[0].len() {
        let row: Vec<u32> = cols.iter().map(|c| c[i]).collect();
        for (k, v) in evaluate(constraints, &row).iter().enumerate() {
            assert_eq!(*v, 0, "constraint {k} at row {i}");
        }
    }
}

fn random_poly(seed: u64) -> [i64; N] {
    let mut state = seed;
    let mut p = [0i64; N];
    for c in p.iter_mut() {
        state = state.wrapping_mul(6364136223846793005).wrapping_add(1442695040888963407);
        *c = ((state >> 33) as i64).abs() % Q;
    }
    p
}

#[test]
fn test_norm_correctness() {
    let z = random_poly(100);
    let (_, norm) = build_trace(&z);
    let half = (Q - 1) / 2;
    for i in 0..N {
        let expected = if z[i] > half { Q - z[i] } else { z[i] };
        assert_eq!(norm[i], expected, "norm[{i}]");
        assert!(norm[i] >= 0 && norm[i] <= half, "norm[{i}] out of range");
    }
}

#[test]
fn test_zero_has_zero_norm() {
    let z = [0i64; N];
    let (_, norm) = build_trace(&z);
    assert_eq!(norm, [0i64; N]);
}

#[test]
fn test_norm_bound_constant() {
    // ML-DSA-65: γ₁ − β = 524288 − 196 = 524092.
    assert_eq!(NORM_BOUND, 524_092);
}

#[test]
fn mldsa_norm_check_air_test_constraints_on_trace() {
    let z = random_poly(55);
    let (cols, _) = build_trace(&z);
    let evaluator = NormCheckEval { log_n_rows: LOG_N_ROWS };
    assert_eq!(cols[0].len(), 1 << evaluator.log_size());
    assert_rows_satisfy(&evaluator.constraints(), &cols);
}

#[test]
fn norms_at_the_middle() {
    assert_eq!(sel_and_norm(0), (0, 0));
    assert_eq!(sel_and_norm(HALF), (0, HALF));
    assert_eq!(sel_and_norm(HALF + 1), (1, HALF));
    assert_eq!(sel_and_norm(Q - 1), (1, 1));
}

#[test]
fn norm_constraints_catch_a_bad_row() {
    let evaluator = NormCheckEval { log_n_rows: LOG_N_ROWS };
    assert!(evaluator.evaluate(&[5, 0, 5]).iter().all(|v| *v == 0));
    assert!(evaluator.evaluate(&[5, 0, 6]).iter().any(|v| *v != 0));
    assert!(evaluator.evaluate(&[5, 2, 5]).iter().any(|v| *v != 0));
}
