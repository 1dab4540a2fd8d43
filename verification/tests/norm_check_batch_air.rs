use qlsa_stark_stwo::constraint::{evaluate, Term};
use qlsa_stark_stwo::mldsa::params::{L, N, Q};
use qlsa_stark_stwo::mldsa_norm_check_air;
use qlsa_stark_stwo::mldsa_norm_check_air::HALF;
use qlsa_stark_stwo::mldsa_norm_check_batch_air::{
    build_trace, NormCheckBatchEval, COLS_PER_ROW, LOG_N_ROWS, N_COLS,
};

/// The rows of a trace satisfy every constraint.
fn assert_rows_satisfy(constraints: &Vec<Vec<Term>>, cols: &[Vec<u32>]) {
    for i in 0..cols[0].len() {
        let row: Vec<u32> = cols.iter().map(|c| c[i]).collect();
        for (k, v) in evaluate(constraints, &row).iter().enumerate() {
            assert_eq!(*v, 0, "constraint {k} at row {i}");
        }
    }
}

fn random_poly(seed: u64) -> [i64; N] {
    let mut state = seed;
    let mut p = [0i64; N];
    for c in p.iter_mut() {
        state = state.wrapping_mul(6364136223846793005).wrapping_add(1442695040888963407);
        *c = ((state >> 33) as i64).abs() % Q;
    }
    p
}

#[test]
fn mldsa_norm_check_batch_air_test_column_count() {
    assert_eq!(N_COLS, 15);
    assert_eq!(COLS_PER_ROW, 3);
}

#[test]
fn test_norm_batch_correctness() {
    let z: [[i64; N]; L] = std::array::from_fn(|j| random_poly(j as u64 * 7 + 1));
    let (_, norm_out, max_norms) = build_trace(&z);

    for j in 0..L {
        let mut expected_max = 0i64;
        for p in 0..N {
            let expected = if z[j][p] > HALF { Q - z[j][p] } else { z[j][p] };
            assert_eq!(norm_out[j][p], expected,
                "norm[{j}][{p}]: expected {expected}, got {}", norm_out[j][p]);
            if expected > expected_max { expected_max = expected; }
        }
        assert_eq!(max_norms[j], expected_max, "max_norm[{j}] mismatch");
    }
}

#[test]
fn test_norm_batch_zero_input() {
    let (_, norm_out, max_norms) = build_trace(&[[0i64; N]; L]);
    for j in 0..L {
        assert_eq!(norm_out[j], [0i64; N], "norm[{j}] must be zero for z=0");
        assert_eq!(max_norms[j], 0, "max_norm[{j}] must be zero");
    }
}

#[test]
fn test_norm_batch_matches_single_per_row() {
    let z: [[i64; N]; L] = std::array::from_fn(|j| random_poly(j as u64 * 11 + 3));
    let (_, norm_batch, _) = build_trace(&z);

    for j in 0..L {
        let (_, norm_single) = mldsa_norm_check_air::build_trace(&z[j]);
        assert_eq!(norm_batch[j], norm_single, "row {j}: batch ≠ single");
    }
}

#[test]
fn mldsa_norm_check_batch_air_test_constraints_on_trace() {
    let z: [[i64; N]; L] = std::array::from_fn(|j| random_poly(j as u64 * 5 + 9));
    let (cols, _, _) = build_trace(&z);
    let evaluator = NormCheckBatchEval { log_n_rows: LOG_N_ROWS };
    assert_eq!(cols[0].len(), 1 << evaluator.log_size());
    assert_rows_satisfy(&evaluator.constraints(), &cols);
}
