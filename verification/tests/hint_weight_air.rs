use qlsa_stark_stwo::mldsa;
use qlsa_stark_stwo::mldsa::params::{N, OMEGA};
use qlsa_stark_stwo::mldsa_hint_weight_air::{
    build_trace, pc_is_init, pc_is_valid, preprocessed_column_ids, HintWeightEval, HINT_ROWS,
    LOG_N_ROWS, N_COLS,
};

/// A column in the order of its rows.
fn in_row_order(col: &[u32]) -> Vec<u32> {
    let mut rows = col.to_vec();
    stwo::core::utils::bit_reverse_coset_to_circle_domain_order(&mut rows);
    rows
}

fn zero_hints() -> Vec<Vec<bool>> {
    vec![vec![false; mldsa::N]; mldsa::params::K]
}

fn hints_with_count(count: usize) -> Vec<Vec<bool>> {
    let k = mldsa::params::K;
    let n = mldsa::N;
    let mut h = zero_hints();
    let mut placed = 0;
    'outer: for i in 0..k {
        for j in 0..n {
            if placed >= count { break 'outer; }
            h[i][j] = true;
            placed += 1;
        }
    }
    h
}

#[test]
fn test_build_trace_zero_hints() {
    let (main, preproc, weight) = build_trace(&zero_hints());
    assert_eq!(weight, 0);
    assert_eq!(main.len(), 2);     // h, s
    assert_eq!(preproc.len(), 2);  // is_init, is_valid
}

#[test]
fn test_build_trace_counts_correctly() {
    for &count in &[0, 1, 10, 55, 100, HINT_ROWS] {
        let (_, _, w) = build_trace(&hints_with_count(count));
        assert_eq!(w, count, "count={count}");
    }
}

#[test]
fn test_build_trace_is_valid_pattern() {
    let (_, preproc, _) = build_trace(&zero_hints());
    // preproc[1] is is_valid: sum of all values should equal HINT_ROWS.
    let valid_sum: u32 = preproc[1].iter().sum();
    assert_eq!(valid_sum as usize, HINT_ROWS, "is_valid rows");
    // preproc[0] is is_init: exactly one row should be 1.
    let init_sum: u32 = preproc[0].iter().sum();
    assert_eq!(init_sum, 1, "is_init rows");
}

#[test]
fn mldsa_hint_weight_air_test_constraints_on_trace() {
    let count = 30usize;
    let h_bits = hints_with_count(count);
    let (_, _, weight) = build_trace(&h_bits);
    assert_eq!(weight, count);
    assert!(weight <= OMEGA, "weight {weight} > omega {OMEGA}");

    let n_rows = 1usize << LOG_N_ROWS;
    let h_flat: Vec<i64> = {
        let mut v = vec![0i64; n_rows];
        for (i, row) in h_bits.iter().enumerate() {
            for (j, &b) in row.iter().enumerate() {
                v[i * N + j] = if b { 1 } else { 0 };
            }
        }
        v
    };
    let mut s_flat = vec![0i64; n_rows];
    let mut acc = 0i64;
    for r in 0..n_rows {
        acc += h_flat[r];
        s_flat[r] = acc;
    }
    // C1: h*(1-h) = 0 for all rows.
    for r in 0..n_rows {
        assert_eq!(h_flat[r] * (1 - h_flat[r]), 0, "C1 failed at row {r}");
    }
    // C2: h = 0 for padding rows.
    for r in HINT_ROWS..n_rows {
        assert_eq!(h_flat[r], 0, "C2 failed at row {r}");
    }
    // C3: running sum.
    assert_eq!(s_flat[0], h_flat[0], "C3 init");
    for r in 1..n_rows {
        assert_eq!(s_flat[r], s_flat[r-1] + h_flat[r], "C3 at row {r}");
    }
}

#[test]
fn hint_columns_satisfy_the_constraints() {
    let h_bits = hints_with_count(30);
    let (main, preproc, _) = build_trace(&h_bits);
    let h = in_row_order(&main[0]);
    let s = in_row_order(&main[1]);
    let is_init = in_row_order(&preproc[0]);
    let is_valid = in_row_order(&preproc[1]);
    let evaluator = HintWeightEval { log_n_rows: LOG_N_ROWS };
    let n = 1usize << evaluator.log_size();
    assert_eq!(main.len(), N_COLS);
    assert_eq!(s.len(), n);
    for r in 0..n {
        let prev = s[(r + n - 1) % n];
        let mask = [is_init[r], is_valid[r], h[r], s[r], prev];
        assert_eq!(evaluator.evaluate(&mask), vec![0, 0, 0], "row {r}");
    }
    assert_eq!(s[n - 1], 30);
    // The first column holds the bits, the second their running sum.
    assert!(main[0].iter().all(|b| *b <= 1));
    assert_eq!(main[0].iter().sum::<u32>(), 30);
    assert_eq!(h[..3], [1, 1, 1]);
    assert_eq!(s[..3], [1, 2, 3]);
}

#[test]
fn hint_constraints_catch_a_bad_row() {
    let evaluator = HintWeightEval { log_n_rows: LOG_N_ROWS };
    // A cell that is no bit, a hint in the padding, and a sum that skips a hint.
    assert_ne!(evaluator.evaluate(&[0, 1, 2, 7, 5])[0], 0);
    assert_ne!(evaluator.evaluate(&[0, 0, 1, 6, 5])[1], 0);
    assert_ne!(evaluator.evaluate(&[0, 1, 1, 5, 5])[2], 0);
    // The sum starts anew at the first row.
    assert_eq!(evaluator.evaluate(&[1, 1, 1, 1, 30]), vec![0, 0, 0]);
}

#[test]
fn preprocessed_columns_are_named() {
    assert_eq!(preprocessed_column_ids(), vec![pc_is_init(), pc_is_valid()]);
    assert_ne!(pc_is_init(), pc_is_valid());
}
