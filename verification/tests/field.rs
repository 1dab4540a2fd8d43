use qlsa_stark_stwo::mldsa::field::{add, inv, mul, pow, reduce, reduce_centered, sub};
use qlsa_stark_stwo::mldsa::params::{N_INV, Q, ZETA};

#[test]
fn test_reduce_positive() {
    assert_eq!(reduce(0), 0);
    assert_eq!(reduce(Q - 1), Q - 1);
    assert_eq!(reduce(Q), 0);
    assert_eq!(reduce(Q + 1), 1);
    assert_eq!(reduce(2 * Q + 3), 3);
}

#[test]
fn test_reduce_negative() {
    assert_eq!(reduce(-1), Q - 1);
    assert_eq!(reduce(-Q), 0);
    assert_eq!(reduce(-(Q + 1)), Q - 1);
}

#[test]
fn test_add_wraps() {
    assert_eq!(add(Q - 1, 1), 0);
    assert_eq!(add(Q - 1, 0), Q - 1);
    assert_eq!(add(0, 0), 0);
}

#[test]
fn test_sub_wraps() {
    assert_eq!(sub(0, 1), Q - 1);
    assert_eq!(sub(5, 3), 2);
    assert_eq!(sub(Q - 1, Q - 1), 0);
}

#[test]
fn test_mul_basic() {
    assert_eq!(mul(0, 12345), 0);
    assert_eq!(mul(1, 12345), 12345);
    assert_eq!(mul(2, (Q + 1) / 2), 1); // 2 * ((Q+1)/2) ≡ 1 (mod Q) only if Q is odd — it is
    // 2 * 4190209 = 8380418 = Q + 1 ≡ 1 (mod Q) ✓
    assert_eq!(mul(2, 4190209), 1);
}

#[test]
fn test_pow() {
    assert_eq!(pow(1, 1000), 1);
    assert_eq!(pow(0, 5), 0);
    assert_eq!(pow(2, 10), 1024);
    // Fermat: a^(Q-1) ≡ 1 (mod Q)
    assert_eq!(pow(1753, (Q - 1) as u64), 1);
}

#[test]
fn test_zeta_is_512th_root() {
    // ζ^512 ≡ 1 (mod Q)
    assert_eq!(pow(ZETA, 512), 1);
    // ζ^256 ≡ Q−1 ≡ −1 (mod Q) — makes Z_q[X]/(X^256+1) the right ring
    assert_eq!(pow(ZETA, 256), Q - 1);
}

#[test]
fn test_n_inv() {
    // 256 * N_INV ≡ 1 (mod Q)
    assert_eq!(mul(256, N_INV), 1);
}

#[test]
fn test_inv() {
    for a in [1i64, 2, 100, 1753, Q - 1] {
        assert_eq!(mul(a, inv(a)), 1, "inv failed for a={a}");
    }
}

#[test]
fn centered_residues() {
    assert_eq!(reduce_centered(0), 0);
    assert_eq!(reduce_centered((Q - 1) / 2), (Q - 1) / 2);
    assert_eq!(reduce_centered((Q + 1) / 2), -(Q - 1) / 2);
    assert_eq!(reduce_centered(Q - 1), -1);
    assert_eq!(reduce_centered(-1), -1);
}

#[test]
fn powers_and_inverses() {
    assert_eq!(pow(5, 0), 1);
    assert_eq!(pow(1753, 2), 1753 * 1753);
    assert_eq!(inv(256), N_INV);
    assert_eq!(pow(ZETA, 511), inv(ZETA));
}
