use qlsa_stark_stwo::constraint::{evaluate, Term};
use qlsa_stark_stwo::mldsa::ntt::{ntt, ntt_inv};
use qlsa_stark_stwo::mldsa::params::{K, N, Q};
use qlsa_stark_stwo::mldsa_intt_air;
use qlsa_stark_stwo::mldsa_intt_batch_air::{
    build_trace, n_cols_for, InttBatchEval, COLS_PER_POLY, LOG_N_ROWS, N_COLS,
};

/// The rows of a trace satisfy every constraint.
fn assert_rows_satisfy(constraints: &Vec<Vec<Term>>, cols: &[Vec<u32>]) {
    for i in 0..cols[0].len() {
        let row: Vec<u32> = cols.iter().map(|c| c[i]).collect();
        for (k, v) in evaluate(constraints, &row).iter().enumerate() {
            assert_eq!(*v, 0, "constraint {k} at row {i}");
        }
    }
}

fn random_poly_ntt(seed: u64) -> [i64; N] {
    let mut state = seed;
    let mut p = [0i64; N];
    for c in p.iter_mut() {
        state = state.wrapping_mul(6364136223846793005).wrapping_add(1442695040888963407);
        *c = ((state >> 33) as i64).abs() % Q;
    }
    // Bring into NTT domain.
    ntt(&mut p);
    p
}

#[test]
fn mldsa_intt_batch_air_test_column_count() {
    assert_eq!(COLS_PER_POLY, 54);
    assert_eq!(N_COLS, 1 + K * 54);
    assert_eq!(N_COLS, 325);
    assert_eq!(n_cols_for(K), 325);
}

#[test]
fn test_outputs_match_reference() {
    let polys: [[i64; N]; K] = std::array::from_fn(|j| random_poly_ntt(j as u64 + 1));
    let (_, outputs) = build_trace(&polys);

    for (j, poly) in polys.iter().enumerate() {
        let mut expected = *poly;
        ntt_inv(&mut expected);
        assert_eq!(
            outputs[j], expected,
            "batch INTT output mismatch for poly j={j}"
        );
    }
}

#[test]
fn test_ntt_intt_roundtrip() {
    let mut originals: [[i64; N]; K] = [[0i64; N]; K];
    for j in 0..K {
        let mut state = (j as u64 + 99) * 7;
        for c in originals[j].iter_mut() {
            state = state.wrapping_mul(6364136223846793005).wrapping_add(1442695040888963407);
            *c = ((state >> 33) as i64).abs() % Q;
        }
    }

    let mut polys_ntt: [[i64; N]; K] = originals;
    for p in polys_ntt.iter_mut() { ntt(p); }

    let (_, outputs) = build_trace(&polys_ntt);
    let outputs_arr: [[i64; N]; K] = outputs.try_into().unwrap();
    assert_eq!(outputs_arr, originals, "INTT(NTT(f)) ≠ f for batch");
}

#[test]
fn mldsa_intt_batch_air_test_constraints_on_trace() {
    let polys: [[i64; N]; K] = std::array::from_fn(|j| random_poly_ntt(j as u64 * 7 + 3));
    let (cols, _) = build_trace(&polys);
    assert_eq!(cols.len(), n_cols_for(K));
    let evaluator = InttBatchEval { log_n_rows: LOG_N_ROWS, n_polys: K };
    assert_eq!(cols[0].len(), 1 << evaluator.log_size());
    assert_rows_satisfy(&evaluator.constraints(), &cols);
}

#[test]
fn test_matches_single_intt() {
    let polys: [[i64; N]; K] = std::array::from_fn(|j| random_poly_ntt(j as u64 * 11 + 5));
    let (_, batch_outputs) = build_trace(&polys);

    for j in 0..K {
        let (_, single_out) = mldsa_intt_air::build_trace(&polys[j]);
        assert_eq!(
            batch_outputs[j], single_out,
            "batch vs single INTT output mismatch for poly j={j}"
        );
    }
}
