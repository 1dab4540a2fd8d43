use qlsa_stark_stwo::commitment::{
    build_commitment_128, build_poly_commitment, onchain_commitment, output_fingerprint,
    parse_commitment_128, parse_poly_commitment, seed_to_u32_words, CommitmentError,
    M31_MODULUS,
};
use qlsa_stark_stwo::hexcode::HexError;

#[test]
fn value_commitments_of_known_inputs() {
    assert_eq!(build_commitment_128(7, b"proof"), "070000000e24526c28166c13b7c87463");
    let proof: Vec<u8> = (0..64u8).collect();
    assert_eq!(build_commitment_128(123456789, &proof), "15cd5b07c47255f7acff389ac83da037");
}

#[test]
fn value_commitments_read_back() {
    for v in [0, 1, 123456789, M31_MODULUS - 1] {
        let text = build_commitment_128(v, b"some proof");
        assert_eq!(parse_commitment_128(&text, b"some proof"), Ok(v));
        assert_eq!(parse_commitment_128(&text.to_uppercase(), b"some proof"), Ok(v));
    }
}

#[test]
fn value_commitments_are_tied_to_the_start_of_the_proof() {
    let mut proof: Vec<u8> = (0..64u8).collect();
    let text = build_commitment_128(5, &proof);
    proof[40] ^= 1;
    assert_eq!(parse_commitment_128(&text, &proof), Ok(5));
    proof[20] ^= 1;
    assert_eq!(parse_commitment_128(&text, &proof), Err(CommitmentError::Suffix));
}

#[test]
fn value_commitment_errors() {
    assert_eq!(
        parse_commitment_128("123", b""),
        Err(CommitmentError::Hex(HexError::OddLength))
    );
    assert_eq!(
        parse_commitment_128("00zz", b""),
        Err(CommitmentError::Hex(HexError::InvalidCharacter { c: 'z', index: 2 }))
    );
    assert_eq!(parse_commitment_128("0000", b""), Err(CommitmentError::Length { got: 2 }));
    let too_large = build_commitment_128(M31_MODULUS, b"");
    assert_eq!(parse_commitment_128(&too_large, b""), Err(CommitmentError::ValueRange));
}

#[test]
fn fingerprints_of_known_inputs() {
    let fp = output_fingerprint(&[1, 2, 3]);
    assert_eq!(fp, [416172437, 1198733833, 872329364, 732181895]);
    assert_eq!(output_fingerprint(&[-1]), [745381615, 996234665, 1528600578, 1908484234]);
    assert_eq!(output_fingerprint(&[]), [813310313, 343969914, 1344344546, 2085238082]);
    assert_eq!(build_poly_commitment(&fp), "9549ce18093a734794b0fe338735a42b");
}

#[test]
fn fingerprints_go_by_the_residues_of_the_coefficients() {
    assert_eq!(output_fingerprint(&[5 + (1 << 32)]), output_fingerprint(&[5]));
    assert_eq!(output_fingerprint(&[-1]), output_fingerprint(&[(1 << 32) - 1]));
    assert_ne!(output_fingerprint(&[1, 0]), output_fingerprint(&[1]));
}

#[test]
fn polynomial_commitments_read_back() {
    let fp = output_fingerprint(&[9, 8, 7]);
    assert_eq!(parse_poly_commitment(&build_poly_commitment(&fp)), Ok(fp));
}

#[test]
fn polynomial_commitment_errors() {
    assert_eq!(parse_poly_commitment("0"), Err(CommitmentError::Hex(HexError::OddLength)));
    assert_eq!(parse_poly_commitment("00"), Err(CommitmentError::Length { got: 1 }));
    let bad = build_poly_commitment(&[1, 2, M31_MODULUS, u32::MAX]);
    assert_eq!(
        parse_poly_commitment(&bad),
        Err(CommitmentError::WordRange { index: 2, word: M31_MODULUS })
    );
}

#[test]
fn seeds_are_read_as_little_endian_words() {
    assert_eq!(seed_to_u32_words(&[]), Vec::<u32>::new());
    assert_eq!(seed_to_u32_words(&[1, 2, 3, 4, 5]), vec![0x04030201, 5]);
}

#[test]
fn a_bundle_is_tied_to_the_challenge_seed() {
    let seed: Vec<u8> = (0..48u8).collect();
    assert_eq!(onchain_commitment(b"bundle", &seed), "d1637f85c1040343403d574ff823e7b7");
    assert_ne!(onchain_commitment(b"other", &seed), "d1637f85c1040343403d574ff823e7b7");
}
