use qlsa_stark_stwo::base64::{base64_decode, base64_encode, Base64Error};
use qlsa_stark_stwo::batch_input::{decode_entries, EntryError, EntryText, Field};
use qlsa_stark_stwo::shape::{conv_a_hat, conv_c, conv_hints, conv_t1, conv_z, ShapeError};

#[test]
fn base64_of_known_inputs() {
    assert_eq!(base64_encode(b""), "");
    assert_eq!(base64_encode(b"f"), "Zg==");
    assert_eq!(base64_encode(b"fo"), "Zm8=");
    assert_eq!(base64_encode(b"foo"), "Zm9v");
    assert_eq!(base64_encode(b"foobar"), "Zm9vYmFy");
    assert_eq!(base64_encode(&[0xfb, 0xff, 0xfe]), "+//+");
}

#[test]
fn base64_reads_back() {
    for n in 0..40usize {
        let data: Vec<u8> = (0..n).map(|i| (i as u8).wrapping_mul(37).wrapping_add(11)).collect();
        assert_eq!(base64_decode(&base64_encode(&data)), Ok(data));
    }
}

#[test]
fn base64_ignores_white_space_at_the_ends() {
    assert_eq!(base64_decode(" \tZm9v\r\n"), Ok(b"foo".to_vec()));
    assert_eq!(base64_decode("\u{2003}Zm9v\u{a0}"), Ok(b"foo".to_vec()));
}

#[test]
fn base64_errors() {
    assert_eq!(base64_decode("Zm9"), Err(Base64Error::Length));
    assert_eq!(base64_decode("Zm9!"), Err(Base64Error::Character));
    assert_eq!(base64_decode("=AAA"), Err(Base64Error::Character));
}

fn entry(pk: &str, msg: &str, sig: &str) -> EntryText {
    EntryText { pk: pk.to_string(), msg: msg.to_string(), sig: sig.to_string() }
}

#[test]
fn entries_are_decoded_in_order() {
    let entries = [entry("AA==", "AQ==", "Ag=="), entry("Zm9v", "", "Zm8=")];
    let decoded = decode_entries(&entries).unwrap();
    assert_eq!(
        decoded,
        vec![
            (vec![0u8], vec![1u8], vec![2u8]),
            (b"foo".to_vec(), Vec::new(), b"fo".to_vec()),
        ]
    );
}

#[test]
fn the_first_bad_field_is_named() {
    let good = || entry("AA==", "AQ==", "Ag==");
    for (bad, field) in [
        (entry("A", "A", "A"), Field::Pk),
        (entry("AA==", "A", "A"), Field::Msg),
        (entry("AA==", "AQ==", "A"), Field::Sig),
    ] {
        assert_eq!(
            decode_entries(&[good(), bad]).err(),
            Some(EntryError { index: 1, field })
        );
    }
}

#[test]
fn lists_take_their_shapes() {
    let row: Vec<i64> = (0..256).collect();
    assert_eq!(conv_c(&row).unwrap()[255], 255);
    assert_eq!(conv_z(&vec![row.clone(); 5]).unwrap()[4][3], 3);
    assert_eq!(conv_t1(&vec![row.clone(); 6]).unwrap()[5][3], 3);
    assert_eq!(conv_a_hat(&vec![row.clone(); 30]).unwrap()[29][3], 3);
    let mut hints = vec![vec![false; 256]; 6];
    hints[2][9] = true;
    assert!(conv_hints(&hints).unwrap()[2][9]);
}

#[test]
fn shape_errors() {
    let row: Vec<i64> = vec![0; 256];
    assert_eq!(conv_c(&vec![0; 255]).err(), Some(ShapeError::Entries));
    assert_eq!(
        conv_z(&vec![row.clone(); 6]).err(),
        Some(ShapeError::Rows { expected: 5, got: 6 })
    );
    assert_eq!(conv_a_hat(&vec![vec![0; 3]]).err(), Some(ShapeError::Row { index: 0 }));
    let mut ragged = vec![row; 6];
    ragged[3].push(0);
    assert_eq!(conv_t1(&ragged).err(), Some(ShapeError::Row { index: 3 }));
    assert_eq!(
        conv_hints(&vec![vec![false; 256]; 5]).err(),
        Some(ShapeError::Rows { expected: 6, got: 5 })
    );
}
