use qlsa_stark_stwo::constraint::{evaluate, Term};
use qlsa_stark_stwo::mldsa::params::{K, N, Q};
use qlsa_stark_stwo::mldsa_ct1_full_air::{
    build_trace, Ct1FullEval, COLS_PER_ROW, LOG_N_ROWS, N_COLS,
};
use qlsa_stark_stwo::prove_poly_mul;

/// The rows of a trace satisfy every constraint.
fn assert_rows_satisfy(constraints: &Vec<Vec<Term>>, cols: &[Vec<u32>]) {
    for i in 0..cols[0].len() {
        let row: Vec<u32> = cols.iter().map(|c| c[i]).collect();
        for (k, v) in evaluate(constraints, &row).iter().enumerate() {
            assert_eq!(*v, 0, "constraint {k} at row {i}");
        }
    }
}

fn random_poly(seed: u64) -> [i64; N] {
    let mut state = seed;
    let mut p = [0i64; N];
    for c in p.iter_mut() {
        state = state.wrapping_mul(6364136223846793005).wrapping_add(1442695040888963407);
        *c = ((state >> 33) as i64).abs() % Q;
    }
    p
}

#[test]
fn mldsa_ct1_full_air_test_column_count() {
    assert_eq!(N_COLS, 295);
    assert_eq!(COLS_PER_ROW, 49);
}

#[test]
fn test_ct1_full_correctness() {
    let c_hat  = random_poly(42);
    let t1_hat: [[i64; N]; K] = std::array::from_fn(|i| random_poly(i as u64 * 7 + 1));
    let (_, ct1_out) = build_trace(&c_hat, &t1_hat);
    for i in 0..K {
        for p in 0..N {
            let expected = (c_hat[p] * t1_hat[i][p]).rem_euclid(Q);
            assert_eq!(ct1_out[i][p], expected,
                "ct1[{i}][{p}]: expected {expected}, got {}", ct1_out[i][p]);
            assert!(ct1_out[i][p] >= 0 && ct1_out[i][p] < Q,
                "ct1[{i}][{p}] = {} out of [0, Q)", ct1_out[i][p]);
        }
    }
}

#[test]
fn test_ct1_full_zero_c() {
    let t1_hat: [[i64; N]; K] = std::array::from_fn(|i| random_poly(i as u64 + 100));
    let (_, ct1_out) = build_trace(&[0i64; N], &t1_hat);
    for i in 0..K {
        assert_eq!(ct1_out[i], [0i64; N], "row {i} must be zero for c_hat=0");
    }
}

#[test]
fn test_ct1_full_zero_t1() {
    let c_hat = random_poly(77);
    let (_, ct1_out) = build_trace(&c_hat, &[[0i64; N]; K]);
    for i in 0..K {
        assert_eq!(ct1_out[i], [0i64; N], "row {i} must be zero for t1=0");
    }
}

#[test]
fn test_ct1_full_matches_polymul_per_row() {
    let c_hat  = random_poly(13);
    let t1_hat: [[i64; N]; K] = std::array::from_fn(|i| random_poly(i as u64 * 11 + 5));
    let (_, ct1_full) = build_trace(&c_hat, &t1_hat);
    for i in 0..K {
        let (_, _, single_out) = prove_poly_mul(&c_hat, &t1_hat[i]).unwrap();
        assert_eq!(ct1_full[i], single_out, "row {i}: ct1_full ≠ polymul");
    }
}

#[test]
fn mldsa_ct1_full_air_test_constraints_on_trace() {
    let c_hat  = random_poly(999);
    let t1_hat: [[i64; N]; K] = std::array::from_fn(|i| random_poly(i as u64 * 17 + 3));
    let (cols, _) = build_trace(&c_hat, &t1_hat);
    let evaluator = Ct1FullEval { log_n_rows: LOG_N_ROWS };
    assert_eq!(cols[0].len(), 1 << evaluator.log_size());
    assert_rows_satisfy(&evaluator.constraints(), &cols);
}
