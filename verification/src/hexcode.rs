//! Hexadecimal text.
use hex::FromHexError;
use vstd::prelude::*;
use vstd::string::*;
use vstd::utf8::*;

verus! {

/// Why a text is not the hexadecimal form of bytes.
#[derive(Clone, Copy, Debug, PartialEq, Eq)]
pub enum HexError {
    /// The number of characters is odd.
    OddLength,
    /// The byte `c` at `index` is no hexadecimal digit.
    InvalidCharacter { c: char, index: usize },
    /// The text does not fit the bytes it is decoded into.
    InvalidLength,
}

/// The digit for `v` below 16, in lower case.
pub open spec fn hex_digit(v: int) -> char {
    if v < 10 {
        (48 + v) as char
    } else {
        (87 + v) as char
    }
}

/// The hexadecimal form of `data`: two digits per byte, the high one first.
pub open spec fn hex_chars(data: Seq<u8>) -> Seq<char> {
    Seq::new(
        2 * data.len(),
        |i: int|
            if i % 2 == 0 {
                hex_digit(data[i / 2] as int / 16)
            } else {
                hex_digit(data[i / 2] as int % 16)
            },
    )
}

/// The value of a digit of either case.
pub open spec fn digit_value(c: u8) -> Option<int> {
    if 48 <= c <= 57 {
        Some(c - 48)
    } else if 97 <= c <= 102 {
        Some(c - 87)
    } else if 65 <= c <= 70 {
        Some(c - 55)
    } else {
        None
    }
}

/// Whether a text is made of an even number of hexadecimal digits.
pub open spec fn is_hex(text: Seq<u8>) -> bool {
    &&& text.len() % 2 == 0
    &&& forall|i: int| 0 <= i < text.len() ==> digit_value(#[trigger] text[i]) is Some
}

/// The bytes that a text of hexadecimal digits stands for.
pub open spec fn hex_value(text: Seq<u8>) -> Seq<u8> {
    Seq::new(
        text.len() / 2,
        |i: int|
            (16 * digit_value(text[2 * i])->Some_0 + digit_value(text[2 * i + 1])->Some_0) as u8,
    )
}

/// Whether `e` is what is wrong with `text`: an odd length, or else its first byte
/// that is no digit.
pub open spec fn is_hex_fault(text: Seq<u8>, e: HexError) -> bool {
    if text.len() % 2 != 0 {
        e == HexError::OddLength
    } else {
        e matches HexError::InvalidCharacter { c, index } && index < text.len() && digit_value(
            text[index as int],
        ) is None && c as int == text[index as int] && forall|i: int|
            0 <= i < index ==> digit_value(#[trigger] text[i]) is Some
    }
}

/// `hex::encode`: two lower-case digits per byte.
#[verifier::external_body]
pub(crate) fn encode(data: &[u8]) -> (text: String)
    ensures
        text@ == hex_chars(data@),
{
    hex::encode(data)
}

/// `hex::decode`: succeeds on an even number of digits of either case, and names the
/// first byte of the text's encoding that is none.
#[verifier::external_body]
pub(crate) fn decode(text: &str) -> (res: Result<Vec<u8>, HexError>)
    ensures
        match res {
            Ok(data) => is_hex(text.spec_bytes()) && data@ == hex_value(text.spec_bytes()),
            Err(e) => !is_hex(text.spec_bytes()) && is_hex_fault(text.spec_bytes(), e),
        },
{
    match hex::decode(text) {
        Ok(data) => Ok(data),
        Err(FromHexError::OddLength) => Err(HexError::OddLength),
        Err(FromHexError::InvalidHexCharacter { c, index }) => {
            Err(HexError::InvalidCharacter { c, index })
        },
        Err(FromHexError::InvalidStringLength) => Err(HexError::InvalidLength),
    }
}

proof fn lemma_digit(v: int)
    requires
        0 <= v < 16,
    ensures
        (hex_digit(v) as u32) < 128,
        digit_value(hex_digit(v) as u8) == Some(v),
{
}

/// Decoding undoes encoding.
pub proof fn lemma_hex_roundtrip(data: Seq<u8>)
    ensures
        is_hex(encode_utf8(hex_chars(data))),
        hex_value(encode_utf8(hex_chars(data))) == data,
{
    let chars = hex_chars(data);
    assert forall|i: int| 0 <= i < chars.len() implies (#[trigger] chars[i] as u32) < 128
        && digit_value(chars[i] as u8) == Some(
        if i % 2 == 0 {
            data[i / 2] as int / 16
        } else {
            data[i / 2] as int % 16
        },
    ) by {
        lemma_digit(data[i / 2] as int / 16);
        lemma_digit(data[i / 2] as int % 16);
    }
    assert(is_ascii_chars(chars));
    is_ascii_chars_encode_utf8(chars);
    let text = encode_utf8(chars);
    assert(text.len() == chars.len());
    assert forall|i: int| 0 <= i < text.len() implies #[trigger] text[i] == chars[i] as u8 by {}
    assert forall|i: int| 0 <= i < text.len() implies digit_value(#[trigger] text[i]) is Some by {
        assert(text[i] == chars[i] as u8);
    }
    assert forall|i: int| 0 <= i < data.len() implies hex_value(text)[i] == data[i] by {
        assert(text[2 * i] == chars[2 * i] as u8);
        assert(text[2 * i + 1] == chars[2 * i + 1] as u8);
        assert((2 * i) / 2 == i && (2 * i + 1) / 2 == i);
    }
    assert(hex_value(text) =~= data);
}

} // verus!
