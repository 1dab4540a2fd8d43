use qlsa_stark_stwo::commitment::{build_poly_commitment, output_fingerprint};
use qlsa_stark_stwo::mldsa::ntt::{ntt, ntt_inv, pointwise_mul};
use qlsa_stark_stwo::mldsa::params::{N, Q};
use qlsa_stark_stwo::mldsa::polyvec::use_hint_val;
use qlsa_stark_stwo::mldsa_az_air;
use qlsa_stark_stwo::mldsa_az_full_air;
use qlsa_stark_stwo::mldsa_ct1_full_air;
use qlsa_stark_stwo::mldsa_intt_batch_air;
use qlsa_stark_stwo::mldsa_norm_check_batch_air;
use qlsa_stark_stwo::statement_batch::commits;
use qlsa_stark_stwo::transcript::{
    lifting_log_size, security_bits, tree_sizes, Circuit, Component, Input, StatementError,
    Transcript,
};
use qlsa_stark_stwo::{
    prove_az_full, prove_az_row, prove_ct1_full, prove_hint_weight, prove_intt_batch,
    prove_intt_batch_m, prove_norm_check_batch, prove_ntt_batch, prove_ntt_batch_m,
    prove_range_q_batch, prove_use_hint_batch, prove_use_hint_batch_v2, prove_wprime_full,
    prove_wprime_full_bound, verify_az_full, verify_az_row, verify_ct1_full, verify_hint_weight,
    verify_intt_batch, verify_intt_batch_m, verify_norm_check_batch, verify_ntt_batch,
    verify_ntt_batch_m, verify_range_q_batch, verify_use_hint_batch, verify_use_hint_batch_v2,
    verify_wprime_full, verify_wprime_full_bound,
};

fn random_poly(seed: u64) -> [i64; N] {
    let mut state = seed;
    let mut p = [0i64; N];
    for c in p.iter_mut() {
        state = state.wrapping_mul(6364136223846793005).wrapping_add(1442695040888963407);
        *c = ((state >> 33) as i64).abs() % Q;
    }
    p
}

fn polys<const M: usize>(seed: u64) -> [[i64; N]; M] {
    std::array::from_fn(|j| random_poly(seed + j as u64))
}

fn some_hints() -> [[bool; 256]; 6] {
    std::array::from_fn(|i| std::array::from_fn(|j| (i * 256 + j) % 97 == 5))
}

fn flat(v: &[[i64; N]]) -> Vec<i64> {
    v.iter().flat_map(|p| p.iter().copied()).collect()
}

fn commitment_to(v: &[[i64; N]]) -> String {
    build_poly_commitment(&output_fingerprint(&flat(v)))
}

#[test]
fn a_row_of_the_matrix_product() {
    let a: [[i64; N]; 5] = polys(10);
    let z: [[i64; N]; 5] = polys(20);
    let (task, cm, az) = prove_az_row(&a, &z).unwrap();
    let (cols, expected) = mldsa_az_air::build_trace(&a, &z);
    assert_eq!(az, expected);
    assert_eq!(task.traces, vec![Some(cols)]);
    assert_eq!(cm, commitment_to(&[az]));
    assert_eq!(task.log_size, 8);
    assert_eq!(task.transcript.messages[0], output_fingerprint(&flat(&z)).to_vec());
    assert_eq!(verify_az_row(&cm, &z).unwrap().transcript, task.transcript);
    // Another input is another transcript.
    let other: [[i64; N]; 5] = polys(21);
    assert_ne!(verify_az_row(&cm, &other).unwrap().transcript, task.transcript);
}

#[test]
fn the_whole_matrix_product() {
    let a: Vec<[i64; N]> = (0..30u64).map(random_poly).collect();
    let z: [[i64; N]; 5] = polys(40);
    let (task, cm, az) = prove_az_full(&a, &z, b"seed").unwrap();
    let (cols, expected) = mldsa_az_full_air::build_trace(&a, &z);
    assert_eq!(az, expected);
    assert_eq!(task.traces, vec![Some(cols)]);
    assert_eq!(cm, commitment_to(&az));
    assert_eq!(task.transcript.seeds, vec![vec![0x64656573]]);
    assert_eq!(verify_az_full(&cm, &z, b"seed").unwrap().transcript, task.transcript);
    assert_ne!(verify_az_full(&cm, &z, b"need").unwrap().transcript, task.transcript);
    assert_ne!(verify_az_full(&cm, &z, b"").unwrap().transcript, task.transcript);
}

#[test]
fn the_products_with_the_challenge() {
    let c = random_poly(1);
    let t1: [[i64; N]; 6] = polys(50);
    let (task, cm, ct1) = prove_ct1_full(&c, &t1, b"").unwrap();
    for i in 0..6 {
        assert_eq!(ct1[i], pointwise_mul(&c, &t1[i]));
    }
    assert_eq!(task.traces, vec![Some(mldsa_ct1_full_air::build_trace(&c, &t1).0)]);
    assert_eq!(cm, commitment_to(&ct1));
    assert_eq!(verify_ct1_full(&cm, &c, &t1, b"").unwrap().transcript, task.transcript);
    assert_ne!(
        verify_ct1_full(&cm, &random_poly(2), &t1, b"").unwrap().transcript,
        task.transcript
    );
}

#[test]
fn differences_of_vectors() {
    let az: [[i64; N]; 6] = polys(60);
    let ct1: [[i64; N]; 6] = polys(70);
    let (task, cm, w) = prove_wprime_full(&az, &ct1).unwrap();
    for i in 0..6 {
        for p in 0..N {
            assert_eq!(w[i][p], (az[i][p] - ct1[i][p]).rem_euclid(Q));
        }
    }
    assert_eq!(cm, commitment_to(&w));
    assert_eq!(verify_wprime_full(&cm).unwrap().transcript, task.transcript);

    let (bound, input_cm, output_cm, same) = prove_wprime_full_bound(&az, &ct1).unwrap();
    assert_eq!(same, w);
    assert_eq!(output_cm, cm);
    assert_ne!(input_cm, output_cm);
    assert_eq!(bound.transcript.messages.len(), 2);
    assert_eq!(
        verify_wprime_full_bound(&input_cm, &output_cm).unwrap().transcript,
        bound.transcript
    );
    assert_ne!(
        verify_wprime_full_bound(&output_cm, &input_cm).unwrap().transcript,
        bound.transcript
    );
}

#[test]
fn norms_of_the_response() {
    let z: [[i64; N]; 5] = polys(80);
    let (task, cm, norms, max_norms) = prove_norm_check_batch(&z).unwrap();
    let (cols, expected, expected_max) = mldsa_norm_check_batch_air::build_trace(&z);
    assert_eq!(norms, expected);
    assert_eq!(max_norms, expected_max);
    assert_eq!(task.traces, vec![Some(cols)]);
    assert_eq!(cm, commitment_to(&norms));
    assert_eq!(verify_norm_check_batch(&cm).unwrap().transcript, task.transcript);
}

#[test]
fn hints_of_all_rows() {
    let w: [[i64; N]; 6] = polys(90);
    let h = some_hints();
    let weight = h.iter().flatten().filter(|b| **b).count();
    let (task, cm, w1) = prove_use_hint_batch(&w, &h).unwrap();
    for i in 0..6 {
        for p in 0..N {
            assert_eq!(w1[i][p], use_hint_val(h[i][p], w[i][p]));
        }
    }
    assert_eq!(verify_use_hint_batch(&cm).unwrap().transcript, task.transcript);

    let (weighed, cm2, same, total) = prove_use_hint_batch_v2(&w, &h).unwrap();
    assert_eq!(same, w1);
    assert_eq!(total, weight);
    // The weight is committed to behind the high parts.
    let mut all = flat(&w1);
    all.push(weight as i64);
    let fp = output_fingerprint(&all);
    assert_eq!(cm2, build_poly_commitment(&fp));
    assert!(commits(&cm2, &fp));
    assert!(!commits(&cm, &fp));
    assert!(!commits("zz", &fp));
    let replay = verify_use_hint_batch_v2(&cm2, &w1, total).unwrap();
    assert_eq!(replay.transcript, weighed.transcript);
    assert!(verify_use_hint_batch_v2(&cm2, &w1, total + 1).is_none());
    assert!(verify_use_hint_batch_v2(&cm, &w1, total).is_none());
}

#[test]
fn ranges_of_all_rows() {
    let p: [[i64; N]; 6] = polys(100);
    let (task, cm) = prove_range_q_batch(&p).unwrap();
    assert_eq!(cm, commitment_to(&p));
    assert_eq!(verify_range_q_batch(&cm).unwrap().transcript, task.transcript);
}

#[test]
fn transforms_of_several_polynomials() {
    let p: [[i64; N]; 6] = polys(110);
    let (task, cm, out) = prove_ntt_batch(&p).unwrap();
    for i in 0..6 {
        let mut expected = p[i];
        ntt(&mut expected);
        assert_eq!(out[i], expected);
    }
    assert_eq!(cm, commitment_to(&out));
    assert_eq!(verify_ntt_batch(&cm).unwrap().transcript, task.transcript);
    let (three, cm3, out3) = prove_ntt_batch_m(&p[..3]).unwrap();
    assert_eq!(out3[..], out[..3]);
    assert_eq!(verify_ntt_batch_m(&cm3, 3).unwrap().transcript, three.transcript);
    assert_ne!(verify_ntt_batch_m(&cm3, 4).unwrap().transcript, three.transcript);
}

#[test]
fn inverse_transforms_of_several_polynomials() {
    let p: [[i64; N]; 6] = polys(120);
    let (task, cm, out) = prove_intt_batch(&p).unwrap();
    for i in 0..6 {
        let mut expected = p[i];
        ntt_inv(&mut expected);
        assert_eq!(out[i], expected);
    }
    assert_eq!(task.traces, vec![Some(mldsa_intt_batch_air::build_trace(&p).0)]);
    assert_eq!(verify_intt_batch(&cm, &p).unwrap().transcript, task.transcript);
    let mut other = p;
    other[5][255] = (other[5][255] + 1) % Q;
    assert_ne!(verify_intt_batch(&cm, &other).unwrap().transcript, task.transcript);
    let (two, cm2, out2) = prove_intt_batch_m(&p[..2]).unwrap();
    assert_eq!(out2[..], out[..2]);
    assert_eq!(verify_intt_batch_m(&cm2, &p[..2]).unwrap().transcript, two.transcript);
}

#[test]
fn transforming_and_back_commits_to_the_input() {
    let p: [[i64; N]; 6] = polys(130);
    let (_, _, hat) = prove_ntt_batch(&p).unwrap();
    let (_, cm, back) = prove_intt_batch(&hat).unwrap();
    assert_eq!(back, p);
    assert_eq!(cm, commitment_to(&p));
}

#[test]
fn weight_of_a_hint() {
    let h: Vec<Vec<bool>> = some_hints().iter().map(|r| r.to_vec()).collect();
    let (task, cm, weight) = prove_hint_weight(&h).unwrap();
    assert_eq!(weight, some_hints().iter().flatten().filter(|b| **b).count());
    assert_eq!(task.log_size, 11);
    assert_eq!(task.preprocessed.len(), 2);
    assert_eq!(verify_hint_weight(&cm).unwrap().transcript, task.transcript);
}

#[test]
fn shapes_of_hints_are_checked() {
    let row = vec![false; 256];
    assert_eq!(
        prove_hint_weight(&vec![row.clone(); 5]).err(),
        Some(StatementError::HintRows { got: 5 })
    );
    let mut ragged = vec![row; 6];
    ragged[2].pop();
    assert_eq!(
        prove_hint_weight(&ragged).err(),
        Some(StatementError::HintColumns { index: 2, got: 255 })
    );
}

#[test]
fn batch_inputs_out_of_range_are_refused() {
    let good: [[i64; N]; 6] = [[0; N]; 6];
    let mut bad = good;
    bad[4][9] = Q;
    let fault = |input| {
        Some(StatementError::OutOfRange { input, row: Some(4), index: 9, value: Q })
    };
    assert_eq!(prove_wprime_full(&bad, &good).err(), fault(Input::Az));
    assert_eq!(prove_wprime_full(&good, &bad).err(), fault(Input::Ct1));
    assert_eq!(prove_ct1_full(&good[0], &bad, b"").err(), fault(Input::T1Hat));
    assert!(matches!(
        prove_ct1_full(&bad[4], &good, b"").err(),
        Some(StatementError::OutOfRange { input: Input::CHat, index: 9, .. })
    ));
    assert_eq!(prove_use_hint_batch(&bad, &some_hints()).err(), fault(Input::WPrime));
    assert!(prove_ntt_batch(&bad).is_err());
    assert!(prove_intt_batch(&bad).is_err());
    assert!(prove_range_q_batch(&bad).is_err());
    assert_eq!(
        prove_az_full(&good, &[[0; N]; 5], b"").err(),
        Some(StatementError::MatrixSize { got: 6 })
    );
    assert_eq!(prove_ntt_batch_m(&[]).err(), Some(StatementError::Empty));
    assert_eq!(prove_intt_batch_m(&[]).err(), Some(StatementError::Empty));
}

#[test]
fn sizes_of_the_committed_columns() {
    assert_eq!(security_bits(), 130);
    assert_eq!(lifting_log_size(10), 16);
    let parts = vec![
        Component { circuit: Circuit::NormCheck, log_n_rows: 8 },
        Component { circuit: Circuit::HintWeight, log_n_rows: 11 },
    ];
    let (pre, main) = tree_sizes(&parts).unwrap();
    assert_eq!(pre, vec![11, 11]);
    assert_eq!(main, vec![8, 8, 8, 11, 11]);
    let unknown = vec![Component { circuit: Circuit::HashChain, log_n_rows: 4 }];
    assert_eq!(tree_sizes(&unknown), None);
}

#[test]
fn a_transcript_takes_parts_in_order() {
    let mut t = Transcript::new();
    t.seed(b"");
    assert!(t.seeds.is_empty());
    t.seed(&[1, 0, 0, 0]);
    t.component(Circuit::PolyMul, 8);
    t.message(&[4, 5]);
    t.each(&[[1; N], [2; N]]);
    assert_eq!(t.seeds, vec![vec![1]]);
    assert_eq!(t.components, vec![Component { circuit: Circuit::PolyMul, log_n_rows: 8 }]);
    assert_eq!(
        t.messages,
        vec![
            vec![4, 5],
            output_fingerprint(&[1; N]).to_vec(),
            output_fingerprint(&[2; N]).to_vec(),
        ]
    );
}
