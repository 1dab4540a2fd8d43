use qlsa_stark_stwo::air::HashChainEval;
use qlsa_stark_stwo::constraint::{
    constraint_residue, evaluate, push_boolean, push_product, push_range_check, push_sum, Term, P,
};
use qlsa_stark_stwo::mldsa::params::Q;

#[test]
fn terms_are_summed_in_the_field() {
    let ts = vec![
        Term::Linear { coeff: 3, x: 0 },
        Term::Quadratic { coeff: -1, x: 0, y: 1 },
        Term::Cubic { coeff: 2, x: 0, y: 1, z: 2 },
    ];
    assert_eq!(constraint_residue(&ts, &[5, 7, 11]), 15 + 2 * 385 - 35);
    assert_eq!(constraint_residue(&ts[1..2].to_vec(), &[1, 1, 0]), P - 1);
    assert_eq!(constraint_residue(&ts[1..2].to_vec(), &[P - 1, P - 1, 0]), P - 1);
}

#[test]
fn range_checks_take_the_bits_of_a_residue() {
    let mut cs: Vec<Vec<Term>> = Vec::new();
    push_range_check(&mut cs, 0, 1);
    let row = |v: i64, bits: i64| -> Vec<u32> {
        let mut r = vec![v as u32];
        r.extend((0..23).map(|k| ((bits >> k) & 1) as u32));
        r
    };
    for v in [0, 1, 12345, Q - 1] {
        assert!(evaluate(&cs, &row(v, v)).iter().all(|x| *x == 0), "value {v}");
    }
    assert!(evaluate(&cs, &row(5, 4)).iter().any(|x| *x != 0));
}

#[test]
fn products_and_sums_with_a_carry() {
    let mut cs: Vec<Vec<Term>> = Vec::new();
    push_product(&mut cs, 0, 1, 2, 3);
    let x = 5_000_000i64;
    let y = 7_654_321i64;
    let row = [x as u32, y as u32, (x * y % Q) as u32, (x * y / Q) as u32];
    assert_eq!(evaluate(&cs, &row), vec![0]);
    let mut sums: Vec<Vec<Term>> = Vec::new();
    push_sum(&mut sums, 0, 1, 2, 3);
    push_boolean(&mut sums, 3);
    let sum = [x as u32, y as u32, (x + y - Q) as u32, 1];
    assert_eq!(evaluate(&sums, &sum), vec![0, 0]);
    assert_ne!(evaluate(&sums, &[1, 2, 4, 0]), vec![0, 0]);
}

#[test]
fn hash_chain_steps() {
    let evaluator = HashChainEval { log_n_rows: 3 };
    assert_eq!(evaluator.log_size(), 3);
    assert_eq!(evaluator.max_constraint_log_degree_bound(), 4);
    // The next value is the cube of the value and the next leaf.
    assert_eq!(evaluator.evaluate(&[5, 132, 7]), vec![0]);
    assert_eq!(evaluator.evaluate(&[P - 1, 0, 1]), vec![0]);
    assert_eq!(evaluator.evaluate(&[5, 131, 7]), vec![P - 1]);
}

#[test]
fn lib_test_constraints_on_trace() {
    let leaves = vec![1u64, 2, 3, 4, 5, 6, 7, 8];
    let p = P as u64;
    let evaluator = HashChainEval { log_n_rows: 3 };
    let mut h = leaves[0] % p;
    for leaf in &leaves[1..] {
        let next = ((h * h % p) * h + leaf) % p;
        let mask = [h as u32, next as u32, *leaf as u32];
        assert_eq!(evaluator.evaluate(&mask), vec![0]);
        h = next;
    }
}
