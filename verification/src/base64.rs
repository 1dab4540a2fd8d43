//! Base64 text with padding, as it carries proofs and keys in JSON.
use vstd::prelude::*;
use vstd::string::*;
use vstd::utf8::*;

verus! {

/// Why a text does not decode.
#[derive(Clone, Copy, Debug, PartialEq, Eq)]
pub enum Base64Error {
    /// The length is not a multiple of four.
    Length,
    /// A character is not in the alphabet.
    Character,
}

/// The character for `v` below 64.
pub open spec fn alphabet(v: int) -> char {
    if v < 26 {
        (65 + v) as char
    } else if v < 52 {
        (71 + v) as char
    } else if v < 62 {
        (v - 4) as char
    } else if v == 62 {
        '+'
    } else {
        '/'
    }
}

/// The value of a character, or 255 if it is not in the alphabet.
pub open spec fn sextet(c: u8) -> int {
    if 65 <= c <= 90 {
        c - 65
    } else if 97 <= c <= 122 {
        c - 71
    } else if 48 <= c <= 57 {
        c + 4
    } else if c == 43 {
        62
    } else if c == 47 {
        63
    } else {
        255
    }
}

/// Byte `i` of `data`, zero behind its end.
pub open spec fn byte_or_zero(data: Seq<u8>, i: int) -> int {
    if i < data.len() {
        data[i] as int
    } else {
        0
    }
}

/// The 24 bits of the three bytes from `3 g` on.
pub open spec fn group_bits(data: Seq<u8>, g: int) -> int {
    65536 * byte_or_zero(data, 3 * g) + 256 * byte_or_zero(data, 3 * g + 1) + byte_or_zero(
        data,
        3 * g + 2,
    )
}

/// Character `j` of group `g`.
pub open spec fn group_char(data: Seq<u8>, g: int, j: int) -> char {
    let bits = group_bits(data, g);
    if j == 0 {
        alphabet(bits / 262144)
    } else if j == 1 {
        alphabet((bits / 4096) % 64)
    } else if j == 2 {
        if 3 * g + 1 < data.len() {
            alphabet((bits / 64) % 64)
        } else {
            '='
        }
    } else if 3 * g + 2 < data.len() {
        alphabet(bits % 64)
    } else {
        '='
    }
}

/// The text for `data`: four characters for every three bytes or part of them.
pub open spec fn base64_chars(data: Seq<u8>) -> Seq<char> {
    Seq::new(4 * ((data.len() + 2) / 3) as nat, |i: int| group_char(data, i / 4, i % 4))
}

/// `String::push`: appends one character.
pub assume_specification[ String::push ](s: &mut String, c: char)
    ensures
        final(s)@ == old(s)@.push(c),
;

fn alphabet_char(v: u32) -> (c: char)
    requires
        v < 64,
    ensures
        c == alphabet(v as int),
{
    if v < 26 {
        (65 + v as u8) as char
    } else if v < 52 {
        (71 + v as u8) as char
    } else if v < 62 {
        (v as u8 - 4) as char
    } else if v == 62 {
        '+'
    } else {
        '/'
    }
}

/// Encodes `data` with the standard alphabet and padding.
pub fn base64_encode(data: &[u8]) -> (text: String)
    ensures
        text@ == base64_chars(data@),
{
    let mut out: String = String::new();
    let len: usize = data.len();
    let mut i: usize = 0;
    let ghost mut g: int = 0;
    while i < len
        invariant
            len == data@.len(),
            0 <= g,
            i == 3 * g,
            i < len ==> out@ == base64_chars(data@).subrange(0, 4 * g),
            i >= len ==> out@ == base64_chars(data@),
            i <= len,
        decreases len - i,
    {
        let left: usize = len - i;
        let b0: u32 = data[i] as u32;
        let b1: u32 = if left > 1 {
            data[i + 1] as u32
        } else {
            0
        };
        let b2: u32 = if left > 2 {
            data[i + 2] as u32
        } else {
            0
        };
        let combined: u32 = 65536 * b0 + 256 * b1 + b2;
        proof {
            assert(combined == group_bits(data@, g));
        }
        let ghost before = out@;
        let ghost all = base64_chars(data@);
        proof {
            assert(4 * g + 4 <= all.len());
            assert((4 * g) / 4 == g && (4 * g) % 4 == 0);
            assert((4 * g + 1) / 4 == g && (4 * g + 1) % 4 == 1);
            assert((4 * g + 2) / 4 == g && (4 * g + 2) % 4 == 2);
            assert((4 * g + 3) / 4 == g && (4 * g + 3) % 4 == 3);
        }
        out.push(alphabet_char(combined / 262144));
        out.push(alphabet_char((combined / 4096) % 64));
        out.push(
            if left > 1 {
                alphabet_char((combined / 64) % 64)
            } else {
                '='
            },
        );
        out.push(
            if left > 2 {
                alphabet_char(combined % 64)
            } else {
                '='
            },
        );
        proof {
            assert(out@ =~= before.push(all[4 * g]).push(all[4 * g + 1]).push(
                all[4 * g + 2],
            ).push(all[4 * g + 3]));
            assert(out@ =~= all.subrange(0, 4 * g + 4));
        }
        if left <= 3 {
            proof {
                assert(all.len() == 4 * g + 4);
                assert(all.subrange(0, 4 * g + 4) =~= all);
            }
            return out;
        }
        i = i + 3;
        proof {
            g = g + 1;
        }
    }
    proof {
        assert(out@ =~= base64_chars(data@));
    }
    out
}

/// The characters with the property `White_Space`.
pub open spec fn is_white(c: char) -> bool {
    let v = c as u32;
    9 <= v <= 13 || v == 0x20 || v == 0x85 || v == 0xa0 || v == 0x1680 || 0x2000 <= v <= 0x200a || v
        == 0x2028 || v == 0x2029 || v == 0x202f || v == 0x205f || v == 0x3000
}

/// `s` without the white space at its start.
pub open spec fn trim_start(s: Seq<char>) -> Seq<char>
    decreases s.len(),
{
    if s.len() > 0 && is_white(s[0]) {
        trim_start(s.subrange(1, s.len() as int))
    } else {
        s
    }
}

/// `s` without the white space at its end.
pub open spec fn trim_end(s: Seq<char>) -> Seq<char>
    decreases s.len(),
{
    if s.len() > 0 && is_white(s[s.len() - 1]) {
        trim_end(s.subrange(0, s.len() - 1))
    } else {
        s
    }
}

/// `str::trim`: removes the white space at both ends.
#[verifier::external_body]
fn trim(s: &str) -> (t: &str)
    ensures
        t@ == trim_end(trim_start(s@)),
{
    s.trim()
}

/// Whether the four characters from `4 g` on decode.
pub open spec fn group_valid(t: Seq<u8>, g: int) -> bool {
    &&& sextet(t[4 * g]) != 255
    &&& sextet(t[4 * g + 1]) != 255
    &&& t[4 * g + 2] != 61 ==> sextet(t[4 * g + 2]) != 255
    &&& t[4 * g + 3] != 61 ==> sextet(t[4 * g + 3]) != 255
}

/// The bytes in the four characters from `4 g` on; a padding character in the last
/// two places leaves its byte out.
pub open spec fn group_value(t: Seq<u8>, g: int) -> Seq<u8> {
    let c0 = sextet(t[4 * g]);
    let c1 = sextet(t[4 * g + 1]);
    let c2 = sextet(t[4 * g + 2]);
    let c3 = sextet(t[4 * g + 3]);
    let first = seq![(4 * c0 + c1 / 16) as u8];
    let second = if t[4 * g + 2] != 61 {
        seq![(16 * (c1 % 16) + c2 / 4) as u8]
    } else {
        seq![]
    };
    let third = if t[4 * g + 3] != 61 {
        seq![(64 * (c2 % 4) + c3) as u8]
    } else {
        seq![]
    };
    first + second + third
}

/// The bytes in the first `n` groups.
pub open spec fn groups_value(t: Seq<u8>, n: nat) -> Seq<u8>
    decreases n,
{
    if n == 0 {
        seq![]
    } else {
        groups_value(t, (n - 1) as nat) + group_value(t, n - 1)
    }
}

/// What the bytes of a trimmed text decode to.
pub open spec fn decoded(t: Seq<u8>) -> Result<Seq<u8>, Base64Error> {
    if t.len() % 4 != 0 {
        Err(Base64Error::Length)
    } else if exists|g: int| 0 <= g < t.len() / 4 && !#[trigger] group_valid(t, g) {
        Err(Base64Error::Character)
    } else {
        Ok(groups_value(t, t.len() / 4))
    }
}

fn sextet_of(c: u8) -> (v: u8)
    ensures
        v == sextet(c),
{
    if 65 <= c && c <= 90 {
        c - 65
    } else if 97 <= c && c <= 122 {
        c - 71
    } else if 48 <= c && c <= 57 {
        c + 4
    } else if c == 43 {
        62
    } else if c == 47 {
        63
    } else {
        255
    }
}

/// Decodes a text, white space at its ends aside.
pub fn base64_decode(s: &str) -> (res: Result<Vec<u8>, Base64Error>)
    ensures
        match decoded(encode_utf8(trim_end(trim_start(s@)))) {
            Ok(data) => res is Ok && res->Ok_0@ == data,
            Err(e) => res == Err::<Vec<u8>, Base64Error>(e),
        },
{
    let text: &str = trim(s);
    let t: &[u8] = text.as_bytes();
    let len: usize = t.len();
    if len % 4 != 0 {
        return Err(Base64Error::Length);
    }
    let mut out: Vec<u8> = Vec::new();
    let mut g: usize = 0;
    while g < len / 4
        invariant
            len == t@.len(),
            len % 4 == 0,
            g <= len / 4,
            t@ == encode_utf8(trim_end(trim_start(s@))),
            forall|k: int| 0 <= k < g ==> #[trigger] group_valid(t@, k),
            out@ == groups_value(t@, g as nat),
        decreases len / 4 - g,
    {
        let ghost before = out@;
        let x2: u8 = t[4 * g + 2];
        let x3: u8 = t[4 * g + 3];
        let c0: u8 = sextet_of(t[4 * g]);
        let c1: u8 = sextet_of(t[4 * g + 1]);
        let c2: u8 = sextet_of(x2);
        let c3: u8 = sextet_of(x3);
        if c0 == 255 || c1 == 255 {
            proof {
                assert(!group_valid(t@, g as int));
            }
            return Err(Base64Error::Character);
        }
        out.push(4 * c0 + c1 / 16);
        if x2 != 61 {
            if c2 == 255 {
                proof {
                    assert(!group_valid(t@, g as int));
                }
                return Err(Base64Error::Character);
            }
            out.push(16 * (c1 % 16) + c2 / 4);
        }
        if x3 != 61 {
            if c3 == 255 {
                proof {
                    assert(!group_valid(t@, g as int));
                }
                return Err(Base64Error::Character);
            }
            out.push(64 * (c2 % 4) + c3);
        }
        proof {
            assert(out@ =~= before + group_value(t@, g as int));
            assert(group_valid(t@, g as int));
        }
        g = g + 1;
    }
    Ok(out)
}

proof fn lemma_alphabet(v: int)
    requires
        0 <= v < 64,
    ensures
        (alphabet(v) as u32) < 128,
        sextet(alphabet(v) as u8) == v,
        alphabet(v) as u8 != 61,
        !is_white(alphabet(v)),
{
}

proof fn lemma_group_chars(data: Seq<u8>, i: int)
    requires
        0 <= i < base64_chars(data).len(),
    ensures
        (base64_chars(data)[i] as u32) < 128,
        !is_white(base64_chars(data)[i]),
{
    let g = i / 4;
    let bits = group_bits(data, g);
    lemma_alphabet(bits / 262144);
    lemma_alphabet((bits / 4096) % 64);
    lemma_alphabet((bits / 64) % 64);
    lemma_alphabet(bits % 64);
}

proof fn lemma_group_roundtrip(data: Seq<u8>, t: Seq<u8>, g: int)
    requires
        0 <= g < (data.len() + 2) / 3,
        t.len() == base64_chars(data).len(),
        forall|i: int| 0 <= i < t.len() ==> #[trigger] t[i] == base64_chars(data)[i] as u8,
    ensures
        group_valid(t, g),
        group_value(t, g) == data.subrange(
            3 * g,
            if 3 * g + 3 <= data.len() {
                3 * g + 3
            } else {
                data.len() as int
            },
        ),
{
    let bits = group_bits(data, g);
    assert((4 * g) / 4 == g && (4 * g) % 4 == 0);
    assert((4 * g + 1) / 4 == g && (4 * g + 1) % 4 == 1);
    assert((4 * g + 2) / 4 == g && (4 * g + 2) % 4 == 2);
    assert((4 * g + 3) / 4 == g && (4 * g + 3) % 4 == 3);
    assert(t[4 * g] == group_char(data, g, 0) as u8);
    assert(t[4 * g + 1] == group_char(data, g, 1) as u8);
    assert(t[4 * g + 2] == group_char(data, g, 2) as u8);
    assert(t[4 * g + 3] == group_char(data, g, 3) as u8);
    lemma_alphabet(bits / 262144);
    lemma_alphabet((bits / 4096) % 64);
    lemma_alphabet((bits / 64) % 64);
    lemma_alphabet(bits % 64);
    let b0 = byte_or_zero(data, 3 * g);
    let b1 = byte_or_zero(data, 3 * g + 1);
    let b2 = byte_or_zero(data, 3 * g + 2);
    lemma_sextets(b0, b1, b2);
    let e = if 3 * g + 3 <= data.len() {
        3 * g + 3
    } else {
        data.len() as int
    };
    assert(group_value(t, g) =~= data.subrange(3 * g, e));
}

proof fn lemma_sextets(b0: int, b1: int, b2: int)
    requires
        0 <= b0 < 256,
        0 <= b1 < 256,
        0 <= b2 < 256,
    ensures
        ({
            let bits = 65536 * b0 + 256 * b1 + b2;
            let c0 = bits / 262144;
            let c1 = (bits / 4096) % 64;
            let c2 = (bits / 64) % 64;
            let c3 = bits % 64;
            &&& 0 <= c0 < 64
            &&& 4 * c0 + c1 / 16 == b0
            &&& 16 * (c1 % 16) + c2 / 4 == b1
            &&& 64 * (c2 % 4) + c3 == b2
        }),
{
    let bits = 65536 * b0 + 256 * b1 + b2;
    assert(bits / 262144 == b0 / 4);
    assert(bits / 4096 == 16 * b0 + b1 / 16);
    assert(bits / 64 == 1024 * b0 + 4 * b1 + b2 / 64);
    assert(bits % 64 == b2 % 64);
    assert((bits / 4096) % 64 == 16 * (b0 % 4) + b1 / 16);
    assert((bits / 64) % 64 == 4 * (b1 % 16) + b2 / 64);
}

proof fn lemma_groups_roundtrip(data: Seq<u8>, t: Seq<u8>, n: nat)
    requires
        n <= (data.len() + 2) / 3,
        t.len() == base64_chars(data).len(),
        forall|i: int| 0 <= i < t.len() ==> #[trigger] t[i] == base64_chars(data)[i] as u8,
    ensures
        groups_value(t, n) == data.subrange(
            0,
            if 3 * n <= data.len() {
                3 * n as int
            } else {
                data.len() as int
            },
        ),
    decreases n,
{
    if n == 0 {
        assert(groups_value(t, 0) =~= data.subrange(0, 0));
    } else {
        let m = (n - 1) as nat;
        lemma_groups_roundtrip(data, t, m);
        lemma_group_roundtrip(data, t, m as int);
        let e = if 3 * n <= data.len() {
            3 * n as int
        } else {
            data.len() as int
        };
        assert(data.subrange(0, 3 * m as int) + data.subrange(3 * m as int, e) =~= data.subrange(
            0,
            e,
        ));
    }
}

/// The text consists of one-byte characters, none of them white space.
proof fn lemma_text_bytes(data: Seq<u8>)
    ensures
        trim_end(trim_start(base64_chars(data))) == base64_chars(data),
        encode_utf8(base64_chars(data)).len() == base64_chars(data).len(),
        forall|i: int|
            0 <= i < base64_chars(data).len() ==> #[trigger] encode_utf8(base64_chars(data))[i]
                == base64_chars(data)[i] as u8,
{
    let chars = base64_chars(data);
    if chars.len() > 0 {
        lemma_group_chars(data, 0);
        lemma_group_chars(data, chars.len() - 1);
    }
    assert forall|i: int| 0 <= i < chars.len() implies (#[trigger] chars[i] as u32) < 128 by {
        lemma_group_chars(data, i);
    }
    assert(is_ascii_chars(chars));
    is_ascii_chars_encode_utf8(chars);
}

/// Decoding undoes encoding.
pub proof fn lemma_base64_roundtrip(data: Seq<u8>)
    ensures
        decoded(encode_utf8(trim_end(trim_start(base64_chars(data))))) == Ok::<
            Seq<u8>,
            Base64Error,
        >(data),
{
    lemma_text_bytes(data);
    let t = encode_utf8(base64_chars(data));
    let n = t.len() / 4;
    assert(n == (data.len() + 2) / 3);
    lemma_groups_roundtrip(data, t, n);
    assert forall|g: int| 0 <= g < n implies #[trigger] group_valid(t, g) by {
        lemma_group_roundtrip(data, t, g);
    }
    assert(data.subrange(0, data.len() as int) =~= data);
}

} // verus!
