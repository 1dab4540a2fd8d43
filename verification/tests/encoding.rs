use qlsa_stark_stwo::mldsa::encoding::{
    bit_pack, bit_unpack, hint_bit_unpack, pk_decode, sig_decode, simple_bit_pack,
    simple_bit_unpack, w1_encode, DecodeError,
};
use qlsa_stark_stwo::mldsa::params::{
    GAMMA1, K, L, LAMBDA_BYTES, N, OMEGA, PK_BYTES, SIG_BYTES, T1_BITS, W1_BITS, Z_BITS,
};
use qlsa_stark_stwo::mldsa::poly::Poly;
use qlsa_stark_stwo::mldsa::polyvec::PolyVec;

fn filled_poly(val: i64) -> [i64; N] {
    [val; N]
}

#[test]
fn test_simple_bit_pack_unpack_roundtrip_t1() {
    let orig: [i64; N] = std::array::from_fn(|i| (i as i64 % (1 << T1_BITS)));
    let packed = simple_bit_pack(&orig, T1_BITS);
    assert_eq!(packed.len(), N * T1_BITS as usize / 8);
    let unpacked = simple_bit_unpack(&packed, T1_BITS);
    assert_eq!(unpacked, orig);
}

#[test]
fn test_bit_pack_unpack_roundtrip_z() {
    let _orig: [i64; N] = std::array::from_fn(|i| {
        let c = (i as i64 * 1000) % GAMMA1;
        GAMMA1 - 1 - c // in [0, GAMMA1-1], then mapped to signed by bit_unpack
    });
    // Actually store signed values directly:
    let signed: [i64; N] = std::array::from_fn(|i| {
        let c = (i as i64 * 997) % GAMMA1;
        if i % 2 == 0 { c } else { -c }
    });
    let packed = bit_pack(&signed, GAMMA1, Z_BITS);
    assert_eq!(packed.len(), N * Z_BITS as usize / 8);
    let unpacked = bit_unpack(&packed, GAMMA1, Z_BITS);
    assert_eq!(unpacked, signed);
}

#[test]
fn test_bit_pack_zero_roundtrip() {
    let zero = [0i64; N];
    let packed = bit_pack(&zero, GAMMA1, Z_BITS);
    let unpacked = bit_unpack(&packed, GAMMA1, Z_BITS);
    assert_eq!(unpacked, zero);
}

#[test]
fn test_pk_decode_wrong_length() {
    assert!(pk_decode(&[0u8; 10]).is_err());
}

#[test]
fn test_pk_decode_all_zeros() {
    let pk = vec![0u8; PK_BYTES];
    let (rho, t1) = pk_decode(&pk).unwrap();
    assert_eq!(rho, [0u8; 32]);
    assert_eq!(t1.len(), K);
    for p in &t1.0 {
        assert_eq!(p.coeffs, [0i64; N]);
    }
}

#[test]
fn test_sig_decode_wrong_length() {
    assert!(sig_decode(&[0u8; 10]).is_err());
}

#[test]
fn test_hint_bit_unpack_all_zeros() {
    let y = vec![0u8; OMEGA + K];
    let h = hint_bit_unpack(&y).unwrap();
    assert_eq!(h.len(), K);
    for poly_h in &h {
        assert_eq!(poly_h.len(), N);
        assert!(poly_h.iter().all(|&b| !b));
    }
}

#[test]
fn test_hint_bit_unpack_malformed_nonzero_padding() {
    let mut y = vec![0u8; OMEGA + K];
    y[0] = 5; // hint index in padding, but offset[0]=0 so it's padding
    // y[OMEGA+0] = 0 means no hints for poly 0, but y[0] != 0 → error
    assert!(hint_bit_unpack(&y).is_err());
}

#[test]
fn test_hint_bit_unpack_valid_single_hint() {
    let mut y = vec![0u8; OMEGA + K];
    // One hint for poly 0 at index 7
    y[0] = 7;            // index byte
    y[OMEGA] = 1;        // offset for poly 0: 1 hint
    // Offsets for poly 1..K-1 all = 1 (no new hints)
    for i in 1..K {
        y[OMEGA + i] = 1;
    }
    let h = hint_bit_unpack(&y).unwrap();
    assert!(h[0][7]);
    assert!(!h[0][8]);
}

#[test]
fn test_w1_encode_length() {
    let w1 = PolyVec(vec![Poly::zero(); K]);
    let enc = w1_encode(&w1);
    assert_eq!(enc.len(), K * N * W1_BITS as usize / 8); // 6 * 128 = 768
}

#[test]
fn bits_are_packed_lowest_first() {
    let mut w = filled_poly(0);
    w[0] = 0x3ff;
    w[1] = 1;
    let packed = simple_bit_pack(&w, T1_BITS);
    assert_eq!(packed[..3], [0xff, 0x07, 0]);
    let mut v = filled_poly(GAMMA1);
    v[0] = GAMMA1 - 1;
    let signed = bit_pack(&v, GAMMA1, Z_BITS);
    assert_eq!(signed[..5], [1, 0, 0, 0, 0]);
}

#[test]
fn high_parts_take_half_a_byte() {
    let mut c = [0i64; N];
    c[0] = 15;
    c[1] = 2;
    let mut polys = vec![Poly::zero(); K];
    polys[1] = Poly::from_coeffs(c);
    let enc = w1_encode(&PolyVec(polys));
    assert_eq!(enc[128], 0x2f);
    assert_eq!(enc[129], 0);
}

#[test]
fn parts_of_a_key_and_a_signature() {
    let mut pk = vec![0u8; PK_BYTES];
    pk[0] = 9;
    pk[32] = 5;
    let (rho, t1) = pk_decode(&pk).unwrap();
    assert_eq!(rho[0], 9);
    assert_eq!(t1.0[0].coeffs[0], 5);
    let mut sig = vec![0u8; SIG_BYTES];
    sig[47] = 3;
    sig[48] = 1;
    let (c_tilde, z, h) = sig_decode(&sig).unwrap();
    assert_eq!(c_tilde.len(), LAMBDA_BYTES);
    assert_eq!(c_tilde[47], 3);
    assert_eq!(z.len(), L);
    assert_eq!(z.0[0].coeffs[0], GAMMA1 - 1);
    assert_eq!(z.0[0].coeffs[1], GAMMA1);
    assert_eq!(h.len(), K);
}

#[test]
fn decoding_errors() {
    assert_eq!(pk_decode(&[0u8; 10]).err(), Some(DecodeError::PublicKeyLength { got: 10 }));
    assert_eq!(sig_decode(&[0u8; 10]).err(), Some(DecodeError::SignatureLength { got: 10 }));
    assert_eq!(hint_bit_unpack(&[0u8; 10]).err(), Some(DecodeError::HintLength { got: 10 }));
    let mut y = vec![0u8; OMEGA + K];
    y[OMEGA] = 56;
    assert_eq!(
        hint_bit_unpack(&y).err(),
        Some(DecodeError::HintOffset { row: 0, start: 0, offset: 56 })
    );
    let mut down = vec![0u8; OMEGA + K];
    down[0] = 1;
    down[OMEGA] = 1;
    assert_eq!(
        hint_bit_unpack(&down).err(),
        Some(DecodeError::HintOffset { row: 1, start: 1, offset: 0 })
    );
    let mut order = vec![2u8; OMEGA + K];
    order[0] = 7;
    order[1] = 7;
    assert_eq!(hint_bit_unpack(&order).err(), Some(DecodeError::HintOrder { pos: 1 }));
    let mut padding = vec![0u8; OMEGA + K];
    padding[4] = 5;
    assert_eq!(hint_bit_unpack(&padding).err(), Some(DecodeError::HintPadding { pos: 4 }));
}
