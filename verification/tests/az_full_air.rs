use qlsa_stark_stwo::constraint::{evaluate, Term};
use qlsa_stark_stwo::mldsa::params::{K, L, N, Q};
use qlsa_stark_stwo::mldsa_az_air;
use qlsa_stark_stwo::mldsa_az_full_air::{build_trace, AzFullEval, LOG_N_ROWS, N_COLS};

/// The rows of a trace satisfy every constraint.
fn assert_rows_satisfy(constraints: &Vec<Vec<Term>>, cols: &[Vec<u32>]) {
    for i in 0..cols[0].len() {
        let row: Vec<u32> = cols.iter().map(|c| c[i]).collect();
        for (k, v) in evaluate(constraints, &row).iter().enumerate() {
            assert_eq!(*v, 0, "constraint {k} at row {i}");
        }
    }
}

fn random_poly(seed: u64) -> [i64; N] {
    let mut state = seed;
    let mut p = [0i64; N];
    for c in p.iter_mut() {
        state = state.wrapping_mul(6364136223846793005).wrapping_add(1442695040888963407);
        *c = ((state >> 33) as i64).abs() % Q;
    }
    p
}

fn reference_az_full(a_hat: &[[i64; N]], z_hat: &[[i64; N]; L]) -> [[i64; N]; K] {
    let mut out = [[0i64; N]; K];
    for i in 0..K {
        for p in 0..N {
            let mut acc = 0i64;
            for j in 0..L {
                acc = (acc + a_hat[i * L + j][p] * z_hat[j][p]) % Q;
            }
            out[i][p] = acc;
        }
    }
    out
}

#[test]
fn mldsa_az_full_air_test_column_count() {
    assert_eq!(N_COLS, 1523);
}

#[test]
fn test_az_full_correctness() {
    let a_hat: Vec<[i64; N]> = (0..K * L).map(|k| random_poly(k as u64 * 7)).collect();
    let z_hat: [[i64; N]; L] = std::array::from_fn(|j| random_poly(j as u64 * 100 + 50));
    let (_, az_out) = build_trace(&a_hat, &z_hat);
    let expected = reference_az_full(&a_hat, &z_hat);
    assert_eq!(az_out, expected, "output mismatch");
    for i in 0..K {
        for p in 0..N {
            assert!(az_out[i][p] >= 0 && az_out[i][p] < Q,
                "az_out[{i}][{p}] = {} out of [0, Q)", az_out[i][p]);
        }
    }
}

#[test]
fn test_az_full_zero_z() {
    let a_hat: Vec<[i64; N]> = (0..K * L).map(|k| random_poly(k as u64 + 1)).collect();
    let (_, az_out) = build_trace(&a_hat, &[[0i64; N]; L]);
    for i in 0..K {
        assert_eq!(az_out[i], [0i64; N], "row {i} must be zero for zero z");
    }
}

#[test]
fn test_az_full_zero_a() {
    let z_hat: [[i64; N]; L] = std::array::from_fn(|j| random_poly(j as u64 + 200));
    let (_, az_out) = build_trace(&vec![[0i64; N]; K * L], &z_hat);
    for i in 0..K {
        assert_eq!(az_out[i], [0i64; N], "row {i} must be zero for zero A");
    }
}

#[test]
fn test_az_full_matches_az_row_per_row() {
    let a_hat: Vec<[i64; N]> = (0..K * L).map(|k| random_poly(k as u64 * 13 + 3)).collect();
    let z_hat: [[i64; N]; L] = std::array::from_fn(|j| random_poly(j as u64 * 17 + 9));
    let (_, az_full) = build_trace(&a_hat, &z_hat);
    for i in 0..K {
        let a_row: [[i64; N]; L] = std::array::from_fn(|j| a_hat[i * L + j]);
        let (_, az_row_i) = mldsa_az_air::build_trace(&a_row, &z_hat);
        assert_eq!(az_full[i], az_row_i, "row {i}: az_full ≠ az_row");
    }
}

#[test]
fn mldsa_az_full_air_test_constraints_on_trace() {
    let a_hat: Vec<[i64; N]> = (0..K * L).map(|k| random_poly(k as u64 * 3 + 77)).collect();
    let z_hat: [[i64; N]; L] = std::array::from_fn(|j| random_poly(j as u64 + 300));
    let (cols, _) = build_trace(&a_hat, &z_hat);
    let evaluator = AzFullEval { log_n_rows: LOG_N_ROWS };
    assert_eq!(cols[0].len(), 1 << evaluator.log_size());
    assert_rows_satisfy(&evaluator.constraints(), &cols);
}
