//! Constants of the ML-DSA-65 parameter set.
use vstd::prelude::*;

verus! {

/// Prime modulus `2^23 - 2^13 + 1` of the coefficient ring.
pub const Q: i64 = 8_380_417;

/// Number of coefficients of an element of `Z_q[X] / (X^256 + 1)`.
pub const N: usize = 256;

/// Primitive 512th root of unity modulo `Q`.
pub const ZETA: i64 = 1753;

/// Inverse of 256 modulo `Q`.
pub const N_INV: i64 = 8_347_681;

/// Rows of the public matrix.
pub const K: usize = 6;

/// Columns of the public matrix.
pub const L: usize = 5;

/// Bound on the coefficients of the secret vectors.
pub const ETA: i64 = 4;

/// Number of non-zero coefficients of a challenge.
pub const TAU: usize = 49;

/// Largest change of a coefficient by a challenge times a secret: `TAU * ETA`.
pub const BETA: i64 = 196;

/// Range of the masking vector: `2^19`.
pub const GAMMA1: i64 = 524_288;

/// Low-order rounding range: `(Q - 1) / 32`.
pub const GAMMA2: i64 = 261_888;

/// Number of low-order bits dropped from the public vector `t`.
pub const D: u32 = 13;

/// Collision strength in bits.
pub const LAMBDA: usize = 192;

/// Bytes of a challenge seed: `LAMBDA / 4`.
pub const LAMBDA_BYTES: usize = 48;

/// Largest total number of hints.
pub const OMEGA: usize = 55;

/// Number of high-order values: `(Q - 1) / (2 * GAMMA2)`.
pub const M: i64 = 16;

/// Bits of an encoded coefficient of `t1`.
pub const T1_BITS: u32 = 10;

/// Bits of an encoded coefficient of `z`.
pub const Z_BITS: u32 = 20;

/// Bits of an encoded coefficient of `w1`.
pub const W1_BITS: u32 = 4;

/// Bytes of a public key: a 32-byte seed and `K` polynomials of 320 bytes.
pub const PK_BYTES: usize = 1952;

/// Bytes of a signature: challenge seed, `L` polynomials of 640 bytes and the
/// hint encoding of `OMEGA + K` bytes.
pub const SIG_BYTES: usize = 3309;

} // verus!
