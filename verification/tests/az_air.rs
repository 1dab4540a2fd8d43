use qlsa_stark_stwo::constraint::{evaluate, Term};
use qlsa_stark_stwo::mldsa::ntt::ntt;
use qlsa_stark_stwo::mldsa::params::{L, N, Q};
use qlsa_stark_stwo::mldsa_az_air::{build_trace, AzRowEval, LOG_N_ROWS, N_COLS};

/// The rows of a trace satisfy every constraint.
fn assert_rows_satisfy(constraints: &Vec<Vec<Term>>, cols: &[Vec<u32>]) {
    for i in 0..cols[0].len() {
        let row: Vec<u32> = cols.iter().map(|c| c[i]).collect();
        for (k, v) in evaluate(constraints, &row).iter().enumerate() {
            assert_eq!(*v, 0, "constraint {k} at row {i}");
        }
    }
}

fn random_poly(seed: u64) -> [i64; N] {
    let mut state = seed;
    let mut p = [0i64; N];
    for c in p.iter_mut() {
        state = state.wrapping_mul(6364136223846793005).wrapping_add(1442695040888963407);
        *c = ((state >> 33) as i64).abs() % Q;
    }
    p
}

fn reference_az_row(a_row: &[[i64; N]; L], z: &[[i64; N]; L]) -> [i64; N] {
    let mut result = [0i64; N];
    for p in 0..N {
        let mut acc = 0i64;
        for j in 0..L {
            acc = (acc + a_row[j][p] * z[j][p]) % Q;
        }
        result[p] = acc;
    }
    result
}

#[test]
fn mldsa_az_air_test_column_count() {
    assert_eq!(N_COLS, 258);
}

#[test]
fn test_az_row_correctness() {
    let a_row: [[i64; N]; 5] = std::array::from_fn(|j| random_poly(j as u64 * 10));
    let z:     [[i64; N]; 5] = std::array::from_fn(|j| random_poly(j as u64 * 10 + 5));
    let (_, az_hat) = build_trace(&a_row, &z);
    let expected = reference_az_row(&a_row, &z);
    assert_eq!(az_hat, expected);
    for p in 0..N {
        assert!(az_hat[p] >= 0 && az_hat[p] < Q, "az_hat[{p}] out of range");
    }
}

#[test]
fn test_az_row_zero_z() {
    let a_row: [[i64; N]; 5] = std::array::from_fn(|j| random_poly(j as u64));
    let (_, az_hat) = build_trace(&a_row, &[[0i64; N]; 5]);
    assert_eq!(az_hat, [0i64; N]);
}

#[test]
fn test_az_row_zero_a() {
    let z: [[i64; N]; 5] = std::array::from_fn(|j| random_poly(j as u64 + 100));
    let (_, az_hat) = build_trace(&[[0i64; N]; 5], &z);
    assert_eq!(az_hat, [0i64; N]);
}

#[test]
fn test_az_row_linearity() {
    let a_row: [[i64; N]; 5] = std::array::from_fn(|j| random_poly(j as u64 * 7));
    let z1:    [[i64; N]; 5] = std::array::from_fn(|j| random_poly(j as u64 * 13));
    let z2:    [[i64; N]; 5] = std::array::from_fn(|j| random_poly(j as u64 * 17 + 1));
    let z_sum: [[i64; N]; 5] = std::array::from_fn(|j| {
        let mut p = [0i64; N];
        for i in 0..N { p[i] = (z1[j][i] + z2[j][i]) % Q; }
        p
    });
    let (_, az1)    = build_trace(&a_row, &z1);
    let (_, az2)    = build_trace(&a_row, &z2);
    let (_, az_sum) = build_trace(&a_row, &z_sum);
    for p in 0..N {
        assert_eq!(az_sum[p], (az1[p] + az2[p]) % Q, "linearity at p={p}");
    }
}

#[test]
fn test_az_row_ntt_consistency() {
    let mut poly_a = random_poly(99);
    let mut poly_z = random_poly(100);
    ntt(&mut poly_a);
    ntt(&mut poly_z);
    let a_row1 = [poly_a, [0i64; N], [0i64; N], [0i64; N], [0i64; N]];
    let z1     = [poly_z, [0i64; N], [0i64; N], [0i64; N], [0i64; N]];
    let (_, az_hat) = build_trace(&a_row1, &z1);
    for p in 0..N {
        assert_eq!(az_hat[p], (poly_a[p] * poly_z[p]) % Q, "pointwise mismatch at p={p}");
    }
}

#[test]
fn mldsa_az_air_test_constraints_on_trace() {
    let a_row: [[i64; N]; 5] = std::array::from_fn(|j| random_poly(j as u64 + 200));
    let z:     [[i64; N]; 5] = std::array::from_fn(|j| random_poly(j as u64 + 205));
    let (cols, _) = build_trace(&a_row, &z);
    let evaluator = AzRowEval { log_n_rows: LOG_N_ROWS };
    assert_eq!(cols[0].len(), 1 << evaluator.log_size());
    assert_rows_satisfy(&evaluator.constraints(), &cols);
}

#[test]
fn order_of_the_constraints() {
    let cs = AzRowEval { log_n_rows: LOG_N_ROWS }.constraints();
    assert_eq!(cs.len(), 253);
    // Products, the chain of sums, and for the remainders and the quotients in turn the
    // decompositions and the bits.
    assert_eq!(cs[0][0], Term::Quadratic { coeff: 1, x: 0, y: 5 });
    assert_eq!(cs[5].len(), 4);
    for j in 0..5 {
        assert_eq!(cs[13 + j].len(), 24);
        assert_eq!(cs[13 + j][0], Term::Linear { coeff: 1, x: 10 + j });
        assert_eq!(cs[133 + j][0], Term::Linear { coeff: 1, x: 15 + j });
    }
    for k in 0..115 {
        assert_eq!(cs[18 + k][0], Term::Quadratic { coeff: 1, x: 28 + k, y: 28 + k });
        assert_eq!(cs[138 + k][0], Term::Quadratic { coeff: 1, x: 143 + k, y: 143 + k });
    }
}
