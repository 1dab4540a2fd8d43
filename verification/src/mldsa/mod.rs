//! ML-DSA-65 arithmetic, encodings and signature verification.
pub mod bits;
pub mod calls;
pub mod encoding;
pub mod exact;
pub mod field;
pub mod hints;
pub mod ntt;
pub mod params;
pub mod poly;
pub mod polyvec;
pub mod ring;
pub mod rounding;
pub mod sampling;
pub mod transform;
pub mod values;
pub mod verify;
pub mod xof;
pub mod zq;

pub use crate::mldsa::params::{N, N_INV, Q, ZETA};
