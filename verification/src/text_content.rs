//! What texts stand for, character by character, and which fault in them is reported.
use crate::base64;
use crate::base64::Base64Error;
use crate::batch_input;
use crate::batch_input::{EntryError, EntryText, Field};
use crate::hexcode;
use crate::hexcode::HexError;
use crate::mldsa::polyvec::PolyVec;
use crate::mldsa::verify;
use crate::shape;
use crate::shape::ShapeError;
use crate::signature_witness;
use crate::signature_witness::{HashCheckError, SignatureWitness};
use crate::statement_chain::Entry;
use vstd::prelude::*;
use vstd::string::*;
use vstd::utf8::*;

verus! {

/// Whether a byte is a hex digit: `0` to `9`, `a` to `f` or `A` to `F`.
pub open spec fn is_hex_digit(c: u8) -> bool {
    48 <= c <= 57 || 97 <= c <= 102 || 65 <= c <= 70
}

/// The hex of some bytes has two lower-case digits for each, the higher one first.
pub proof fn lemma_hex_digits(data: Seq<u8>, i: int)
    requires
        0 <= i < data.len(),
    ensures
        hexcode::hex_chars(data).len() == 2 * data.len(),
        ({
            let (high, low) = (data[i] as int / 16, data[i] as int % 16);
            &&& hexcode::hex_chars(data)[2 * i] as int == (if high < 10 {
                48 + high
            } else {
                87 + high
            })
            &&& hexcode::hex_chars(data)[2 * i + 1] as int == (if low < 10 {
                48 + low
            } else {
                87 + low
            })
        }),
{
    assert((2 * i) / 2 == i && (2 * i) % 2 == 0);
    assert((2 * i + 1) / 2 == i && (2 * i + 1) % 2 == 1);
}

/// A text is hex if and only if it has an even number of hex digits and nothing else; two of
/// them stand for a byte, the higher one first, in either case.
pub proof fn lemma_hex_meaning(text: Seq<u8>, i: int)
    ensures
        hexcode::is_hex(text) <==> text.len() % 2 == 0 && forall|k: int|
            0 <= k < text.len() ==> is_hex_digit(#[trigger] text[k]),
        hexcode::hex_value(text).len() == text.len() / 2,
        hexcode::is_hex(text) && 0 <= 2 * i < text.len() ==> {
            let (x, y) = (text[2 * i], text[2 * i + 1]);
            let high = if x <= 57 {
                x - 48
            } else if x >= 97 {
                x - 87
            } else {
                x - 55
            };
            let low = if y <= 57 {
                y - 48
            } else if y >= 97 {
                y - 87
            } else {
                y - 55
            };
            hexcode::hex_value(text)[i] as int == 16 * high + low
        },
{
    assert forall|k: int| 0 <= k < text.len() implies (hexcode::digit_value(#[trigger] text[k])
        is Some) == is_hex_digit(text[k]) by {}
    if hexcode::is_hex(text) && 0 <= 2 * i < text.len() {
        assert(hexcode::digit_value(text[2 * i]) is Some);
        assert(hexcode::digit_value(text[2 * i + 1]) is Some);
    }
}

/// What is reported of a text that is no hex: an odd length before anything else, and else
/// the first byte that is no digit, with its place.
pub proof fn lemma_hex_fault(text: Seq<u8>, e: HexError, k: int)
    requires
        hexcode::is_hex_fault(text, e),
    ensures
        text.len() % 2 == 1 <==> e == HexError::OddLength,
        text.len() % 2 == 0 && 0 <= k < text.len() && !is_hex_digit(text[k]) && (forall|q: int|
            0 <= q < k ==> is_hex_digit(#[trigger] text[q])) ==> (e matches
            HexError::InvalidCharacter { c, index } && index == k && c as int == text[k]),
{
    if text.len() % 2 == 0 && 0 <= k < text.len() && !is_hex_digit(text[k]) && (forall|q: int|
        0 <= q < k ==> is_hex_digit(#[trigger] text[q])) {
        match e {
            HexError::InvalidCharacter { c, index } => {
                assert(hexcode::digit_value(text[index as int]) is None);
                if k < index {
                    assert(hexcode::digit_value(text[k]) is Some);
                }
                if index < k {
                    assert(is_hex_digit(text[index as int]));
                }
            },
            _ => {},
        }
    }
}

/// Whether a byte is one of the 64 characters of base64.
pub open spec fn is_base64_char(c: u8) -> bool {
    65 <= c <= 90 || 97 <= c <= 122 || 48 <= c <= 57 || c == 43 || c == 47
}

/// The base64 of some bytes has four characters for each three of them: `A` to `Z`, `a` to
/// `z`, `0` to `9`, `+` and `/` for each six bits, highest first; where the last group lacks a
/// byte or two, `=` stands in place of the last character or the last two.
pub proof fn lemma_base64_digits(data: Seq<u8>, g: int, x: int, y: int, z: int)
    requires
        0 <= 3 * g < data.len(),
        x == data[3 * g],
        y == (if 3 * g + 1 < data.len() {
            data[3 * g + 1] as int
        } else {
            0
        }),
        z == (if 3 * g + 2 < data.len() {
            data[3 * g + 2] as int
        } else {
            0
        }),
    ensures
        ({
            let t = base64::base64_chars(data);
            &&& t.len() == 4 * ((data.len() + 2) / 3)
            &&& is_base64_digit(t[4 * g], x / 4)
            &&& is_base64_digit(t[4 * g + 1], 16 * (x % 4) + y / 16)
            &&& if 3 * g + 1 < data.len() {
                is_base64_digit(t[4 * g + 2], 4 * (y % 16) + z / 64)
            } else {
                t[4 * g + 2] == '='
            }
            &&& if 3 * g + 2 < data.len() {
                is_base64_digit(t[4 * g + 3], z % 64)
            } else {
                t[4 * g + 3] == '='
            }
        }),
{
    assert((4 * g) / 4 == g && (4 * g) % 4 == 0);
    assert((4 * g + 1) / 4 == g && (4 * g + 1) % 4 == 1);
    assert((4 * g + 2) / 4 == g && (4 * g + 2) % 4 == 2);
    assert((4 * g + 3) / 4 == g && (4 * g + 3) % 4 == 3);
    let bits = base64::group_bits(data, g);
    assert(bits == 65536 * x + 256 * y + z);
    lemma_sextets(x, y, z, bits);
}

proof fn lemma_sextets(x: int, y: int, z: int, bits: int)
    requires
        0 <= x < 256,
        0 <= y < 256,
        0 <= z < 256,
        bits == 65536 * x + 256 * y + z,
    ensures
        bits / 262144 == x / 4,
        (bits / 4096) % 64 == 16 * (x % 4) + y / 16,
        (bits / 64) % 64 == 4 * (y % 16) + z / 64,
        bits % 64 == z % 64,
        0 <= x / 4 < 64,
{
    assert(bits / 4096 == 16 * x + y / 16);
    assert(bits / 64 == 1024 * x + 4 * y + z / 64);
}

/// Whether `c` is the base64 character for the six bits `v`.
pub open spec fn is_base64_digit(c: char, v: int) -> bool {
    c as int == (if v < 26 {
        65 + v
    } else if v < 52 {
        97 + (v - 26)
    } else if v < 62 {
        48 + (v - 52)
    } else if v == 62 {
        43
    } else {
        47
    })
}

/// Decoding goes group by group: what two texts of whole groups stand for is what the first
/// and then what the second stands for.
pub proof fn lemma_base64_groups(a: Seq<u8>, b: Seq<u8>, x: Seq<u8>, y: Seq<u8>)
    requires
        base64::decoded(a) == Ok::<Seq<u8>, Base64Error>(x),
        base64::decoded(b) == Ok::<Seq<u8>, Base64Error>(y),
    ensures
        base64::decoded(a + b) == Ok::<Seq<u8>, Base64Error>(x + y),
{
    let n = a.len() / 4;
    let m = b.len() / 4;
    let t = a + b;
    assert(t.len() / 4 == n + m);
    assert forall|g: int| 0 <= g < t.len() / 4 implies #[trigger] base64::group_valid(t, g) by {
        if g < n {
            assert(base64::group_valid(a, g));
            assert(t[4 * g] == a[4 * g] && t[4 * g + 1] == a[4 * g + 1]);
            assert(t[4 * g + 2] == a[4 * g + 2] && t[4 * g + 3] == a[4 * g + 3]);
        } else {
            let h = g - n;
            assert(base64::group_valid(b, h));
            assert(t[4 * g] == b[4 * h] && t[4 * g + 1] == b[4 * h + 1]);
            assert(t[4 * g + 2] == b[4 * h + 2] && t[4 * g + 3] == b[4 * h + 3]);
        }
    }
    lemma_groups_concat(a, b, m);
}

proof fn lemma_groups_prefix(a: Seq<u8>, b: Seq<u8>, n: nat)
    requires
        4 * n <= a.len(),
    ensures
        base64::groups_value(a + b, n) == base64::groups_value(a, n),
    decreases n,
{
    if n > 0 {
        lemma_groups_prefix(a, b, (n - 1) as nat);
        let t = a + b;
        let g = n - 1;
        assert(t[4 * g] == a[4 * g] && t[4 * g + 1] == a[4 * g + 1]);
        assert(t[4 * g + 2] == a[4 * g + 2] && t[4 * g + 3] == a[4 * g + 3]);
    }
}

proof fn lemma_groups_concat(a: Seq<u8>, b: Seq<u8>, m: nat)
    requires
        a.len() % 4 == 0,
        4 * m <= b.len(),
    ensures
        base64::groups_value(a + b, a.len() / 4 + m) == base64::groups_value(a, a.len() / 4)
            + base64::groups_value(b, m),
    decreases m,
{
    let n = a.len() / 4;
    if m == 0 {
        lemma_groups_prefix(a, b, n);
        assert(base64::groups_value(a, n) + base64::groups_value(b, 0) =~= base64::groups_value(
            a,
            n,
        ));
    } else {
        let k = (m - 1) as nat;
        lemma_groups_concat(a, b, k);
        let t = a + b;
        let h = k as int;
        let g = n + h;
        assert(t[4 * g] == b[4 * h] && t[4 * g + 1] == b[4 * h + 1]);
        assert(t[4 * g + 2] == b[4 * h + 2] && t[4 * g + 3] == b[4 * h + 3]);
        assert((n + m - 1) as nat == n + k);
        assert(base64::group_value(t, g) == base64::group_value(b, h));
        assert(base64::groups_value(a + b, n + m) =~= base64::groups_value(a, n)
            + base64::groups_value(b, m));
    }
}

/// One group of four characters: its six-bit values make up three bytes, highest first, of
/// which those are left out in whose character `=` stands. An empty text stands for nothing.
pub proof fn lemma_base64_group(t: Seq<u8>, s0: int, s1: int, s2: int, s3: int)
    requires
        t.len() == 4,
        0 <= s0 < 64,
        0 <= s1 < 64,
        0 <= s2 < 64,
        0 <= s3 < 64,
        is_base64_digit(t[0] as char, s0),
        is_base64_digit(t[1] as char, s1),
    ensures
        base64::decoded(Seq::empty()) == Ok::<Seq<u8>, Base64Error>(Seq::empty()),
        is_base64_digit(t[2] as char, s2) && is_base64_digit(t[3] as char, s3) ==> {
            let d = base64::decoded(t);
            &&& d is Ok
            &&& d->Ok_0.len() == 3
            &&& 0x10000 * d->Ok_0[0] + 0x100 * d->Ok_0[1] + d->Ok_0[2] == 262144 * s0 + 4096 * s1
                + 64 * s2 + s3
        },
        is_base64_digit(t[2] as char, s2) && t[3] == 61 ==> {
            let d = base64::decoded(t);
            &&& d is Ok
            &&& d->Ok_0.len() == 2
            &&& 0x100 * d->Ok_0[0] + d->Ok_0[1] == (4096 * s0 + 64 * s1 + s2) / 4
        },
        t[2] == 61 && t[3] == 61 ==> {
            let d = base64::decoded(t);
            &&& d is Ok
            &&& d->Ok_0.len() == 1
            &&& d->Ok_0[0] as int == (64 * s0 + s1) / 16
        },
{
    assert(base64::groups_value(Seq::empty(), 0) =~= Seq::empty());
    assert(base64::groups_value(t, 0) =~= Seq::empty());
    assert(base64::groups_value(t, 1) == base64::groups_value(t, 0) + base64::group_value(t, 0));
    assert(base64::groups_value(t, 1) =~= base64::group_value(t, 0));
    assert(base64::sextet(t[0]) == s0 && base64::sextet(t[1]) == s1);
    let v = base64::group_value(t, 0);
    if is_base64_digit(t[2] as char, s2) {
        assert(base64::sextet(t[2]) == s2);
        if is_base64_digit(t[3] as char, s3) {
            assert(base64::sextet(t[3]) == s3);
            assert(base64::group_valid(t, 0));
            assert(v[0] as int == 4 * s0 + s1 / 16);
            assert(v[1] as int == 16 * (s1 % 16) + s2 / 4);
            assert(v[2] as int == 64 * (s2 % 4) + s3);
        }
        if t[3] == 61 {
            assert(base64::group_valid(t, 0));
            assert(v[0] as int == 4 * s0 + s1 / 16);
            assert(v[1] as int == 16 * (s1 % 16) + s2 / 4);
        }
    }
    if t[2] == 61 && t[3] == 61 {
        assert(base64::group_valid(t, 0));
        assert(v[0] as int == 4 * s0 + s1 / 16);
    }
}

/// What is reported of a text that is no base64: a length that is no multiple of four before
/// anything else, and else a character outside the alphabet, where `=` may stand in the third
/// and the fourth place of a group.
pub proof fn lemma_base64_fault(t: Seq<u8>)
    ensures
        base64::decoded(t) == Err::<Seq<u8>, Base64Error>(Base64Error::Length) <==> t.len() % 4
            != 0,
        base64::decoded(t) == Err::<Seq<u8>, Base64Error>(Base64Error::Character) <==> t.len() % 4
            == 0 && exists|i: int|
            0 <= i < t.len() && !is_base64_char(#[trigger] t[i]) && (i % 4 < 2 || t[i] != 61),
{
    if t.len() % 4 == 0 {
        if exists|g: int| 0 <= g < t.len() / 4 && !#[trigger] base64::group_valid(t, g) {
            let g = choose|g: int| 0 <= g < t.len() / 4 && !#[trigger] base64::group_valid(t, g);
            let i: int = if base64::sextet(t[4 * g]) == 255 {
                4 * g
            } else if base64::sextet(t[4 * g + 1]) == 255 {
                4 * g + 1
            } else if t[4 * g + 2] != 61 && base64::sextet(t[4 * g + 2]) == 255 {
                4 * g + 2
            } else {
                4 * g + 3
            };
            assert(base64::sextet(t[i]) == 255);
            assert(!is_base64_char(t[i]));
        }
        if exists|i: int|
            0 <= i < t.len() && !is_base64_char(#[trigger] t[i]) && (i % 4 < 2 || t[i] != 61) {
            let i = choose|i: int|
                0 <= i < t.len() && !is_base64_char(#[trigger] t[i]) && (i % 4 < 2 || t[i] != 61);
            let g = i / 4;
            assert(i == 4 * g || i == 4 * g + 1 || i == 4 * g + 2 || i == 4 * g + 3);
            assert(base64::sextet(t[i]) == 255);
            assert(!base64::group_valid(t, g));
        }
    }
}

/// Trimming leaves out white characters at both ends and nothing else: what is left neither
/// begins nor ends with one, and all that is gone is white.
pub proof fn lemma_trimmed(s: Seq<char>) -> (ends: (int, int))
    ensures
        0 <= ends.0 <= ends.1 <= s.len(),
        base64::trim_end(base64::trim_start(s)) == s.subrange(ends.0, ends.1),
        forall|i: int| 0 <= i < ends.0 ==> base64::is_white(#[trigger] s[i]),
        forall|i: int| ends.1 <= i < s.len() ==> base64::is_white(#[trigger] s[i]),
        ends.0 < ends.1 ==> !base64::is_white(s[ends.0]) && !base64::is_white(s[ends.1 - 1]),
{
    let a = lemma_trimmed_start(s);
    let t = base64::trim_start(s);
    let b = lemma_trimmed_end(t);
    assert(t.subrange(0, b) =~= s.subrange(a, a + b));
    assert forall|i: int| a + b <= i < s.len() implies base64::is_white(#[trigger] s[i]) by {
        assert(t[i - a] == s[i]);
    }
    if b > 0 {
        assert(t[0] == s[a]);
        assert(t[b - 1] == s[a + b - 1]);
    }
    (a, a + b)
}

proof fn lemma_trimmed_start(s: Seq<char>) -> (a: int)
    ensures
        0 <= a <= s.len(),
        base64::trim_start(s) == s.subrange(a, s.len() as int),
        forall|i: int| 0 <= i < a ==> base64::is_white(#[trigger] s[i]),
        a < s.len() ==> !base64::is_white(s[a]),
    decreases s.len(),
{
    if s.len() > 0 && base64::is_white(s[0]) {
        let r = s.subrange(1, s.len() as int);
        let a = lemma_trimmed_start(r);
        assert(r.subrange(a, r.len() as int) =~= s.subrange(a + 1, s.len() as int));
        assert forall|i: int| 0 <= i < a + 1 implies base64::is_white(#[trigger] s[i]) by {
            if i > 0 {
                assert(r[i - 1] == s[i]);
            }
        }
        a + 1
    } else {
        assert(s.subrange(0, s.len() as int) =~= s);
        0
    }
}

proof fn lemma_trimmed_end(s: Seq<char>) -> (b: int)
    ensures
        0 <= b <= s.len(),
        base64::trim_end(s) == s.subrange(0, b),
        forall|i: int| b <= i < s.len() ==> base64::is_white(#[trigger] s[i]),
        b > 0 ==> !base64::is_white(s[b - 1]),
    decreases s.len(),
{
    if s.len() > 0 && base64::is_white(s[s.len() - 1]) {
        let r = s.subrange(0, s.len() - 1);
        let b = lemma_trimmed_end(r);
        assert(r.subrange(0, b) =~= s.subrange(0, b));
        assert forall|i: int| b <= i < s.len() implies base64::is_white(#[trigger] s[i]) by {
            if i < s.len() - 1 {
                assert(r[i] == s[i]);
            }
        }
        b
    } else {
        assert(s.subrange(0, s.len() as int) =~= s);
        s.len() as int
    }
}

/// What the three texts of an entry stand for: key, message and signature, each its own text.
pub proof fn lemma_entry_fields(e: Entry, t: EntryText)
    ensures
        batch_input::is_entry_of(e, t) <==> {
            &&& base64::decoded(encode_utf8(base64::trim_end(base64::trim_start(t.pk@)))) == Ok::<
                Seq<u8>,
                Base64Error,
            >(e.0@)
            &&& base64::decoded(encode_utf8(base64::trim_end(base64::trim_start(t.msg@)))) == Ok::<
                Seq<u8>,
                Base64Error,
            >(e.1@)
            &&& base64::decoded(encode_utf8(base64::trim_end(base64::trim_start(t.sig@)))) == Ok::<
                Seq<u8>,
                Base64Error,
            >(e.2@)
        },
{
}

/// Whether a text is base64 once it is trimmed.
pub open spec fn reads(text: Seq<char>) -> bool {
    base64::decoded(encode_utf8(base64::trim_end(base64::trim_start(text)))) is Ok
}

/// Whether all three texts of an entry are base64.
pub open spec fn all_read(t: EntryText) -> bool {
    reads(t.pk@) && reads(t.msg@) && reads(t.sig@)
}

proof fn lemma_entry_found(entries: Seq<EntryText>, i: nat, k: nat)
    requires
        i <= k < entries.len(),
        forall|q: int| i <= q < k ==> all_read(#[trigger] entries[q]),
        !all_read(entries[k as int]),
    ensures
        batch_input::batch_fault(entries, i) == Some(
            EntryError {
                index: k as usize,
                field: if !reads(entries[k as int].pk@) {
                    Field::Pk
                } else if !reads(entries[k as int].msg@) {
                    Field::Msg
                } else {
                    Field::Sig
                },
            },
        ),
    decreases k - i,
{
    if i < k {
        assert(all_read(entries[i as int]));
        lemma_entry_found(entries, i + 1, k);
    }
}

proof fn lemma_entries_read(entries: Seq<EntryText>, i: nat)
    requires
        forall|q: int| 0 <= q < entries.len() ==> all_read(#[trigger] entries[q]),
    ensures
        batch_input::batch_fault(entries, i) is None,
    decreases entries.len() - i,
{
    if i < entries.len() {
        assert(all_read(entries[i as int]));
        lemma_entries_read(entries, i + 1);
    }
}

/// A batch of texts is read if all of them are base64; else the first entry with one that is
/// not is reported, with the first such field in the order key, message, signature.
pub proof fn lemma_batch_text_fault(entries: Seq<EntryText>, k: int)
    ensures
        (forall|q: int| 0 <= q < entries.len() ==> all_read(#[trigger] entries[q]))
            ==> batch_input::batch_fault(entries, 0) is None,
        0 <= k < entries.len() && !all_read(entries[k]) && (forall|q: int|
            0 <= q < k ==> all_read(#[trigger] entries[q])) ==> batch_input::batch_fault(entries, 0)
            == Some(
            EntryError {
                index: k as usize,
                field: if !reads(entries[k].pk@) {
                    Field::Pk
                } else if !reads(entries[k].msg@) {
                    Field::Msg
                } else {
                    Field::Sig
                },
            },
        ),
{
    if forall|q: int| 0 <= q < entries.len() ==> all_read(#[trigger] entries[q]) {
        lemma_entries_read(entries, 0);
    }
    if 0 <= k < entries.len() && !all_read(entries[k]) && (forall|q: int|
        0 <= q < k ==> all_read(#[trigger] entries[q])) {
        lemma_entry_found(entries, 0, k as nat);
    }
}

proof fn lemma_row_found<T>(v: Seq<Seq<T>>, i: nat, k: nat)
    requires
        i <= k < v.len(),
        forall|q: int| i <= q < k ==> (#[trigger] v[q]).len() == 256,
        v[k as int].len() != 256,
    ensures
        shape::row_fault(v, i) == Some(ShapeError::Row { index: k as usize }),
    decreases k - i,
{
    if i < k {
        assert(v[i as int].len() == 256);
        lemma_row_found(v, i + 1, k);
    }
}

proof fn lemma_rows_fit<T>(v: Seq<Seq<T>>, i: nat)
    requires
        forall|q: int| 0 <= q < v.len() ==> (#[trigger] v[q]).len() == 256,
    ensures
        shape::row_fault(v, i) is None,
    decreases v.len() - i,
{
    if i < v.len() {
        assert(v[i as int].len() == 256);
        lemma_rows_fit(v, i + 1);
    }
}

/// Rows are refused for their number first, and then for the first of them that has not 256
/// entries.
pub proof fn lemma_shape_fault<T>(v: Seq<Seq<T>>, expected: nat, k: int)
    ensures
        v.len() != expected ==> shape::rows_fault(v, expected) == Some(
            ShapeError::Rows { expected: expected as usize, got: v.len() as usize },
        ),
        v.len() == expected ==> shape::rows_fault(v, expected) == shape::row_fault(v, 0),
        (forall|q: int| 0 <= q < v.len() ==> (#[trigger] v[q]).len() == 256) ==> shape::row_fault(
            v,
            0,
        ) is None,
        0 <= k < v.len() && v[k].len() != 256 && (forall|q: int|
            0 <= q < k ==> (#[trigger] v[q]).len() == 256) ==> shape::row_fault(v, 0) == Some(
            ShapeError::Row { index: k as usize },
        ),
{
    if forall|q: int| 0 <= q < v.len() ==> (#[trigger] v[q]).len() == 256 {
        lemma_rows_fit(v, 0);
    }
    if 0 <= k < v.len() && v[k].len() != 256 && (forall|q: int|
        0 <= q < k ==> (#[trigger] v[q]).len() == 256) {
        lemma_row_found(v, 0, k as nat);
    }
}

/// Decoding undoes encoding in base64, whatever white space surrounds the text.
pub proof fn lemma_base64_calls(
    data: &[u8],
    made: String,
    text: &str,
    back: Result<Vec<u8>, Base64Error>,
)
    requires
        call_ensures(base64::base64_encode, (data,), made),
        base64::trim_end(base64::trim_start(text@)) == base64::trim_end(
            base64::trim_start(made@),
        ),
        call_ensures(base64::base64_decode, (text,), back),
    ensures
        back is Ok,
        back->Ok_0@ == data@,
{
    base64::lemma_base64_roundtrip(data@);
}

/// The entries of a batch are what its texts are decoded to one by one, key, message and
/// signature; the batch is refused if and only if one of them is.
pub proof fn lemma_entries_call(
    entries: &[EntryText],
    res: Result<Vec<Entry>, EntryError>,
    i: int,
    pk: &str,
    msg: &str,
    sig: &str,
    p: Result<Vec<u8>, Base64Error>,
    m: Result<Vec<u8>, Base64Error>,
    s: Result<Vec<u8>, Base64Error>,
)
    requires
        call_ensures(batch_input::decode_entries, (entries,), res),
        0 <= i < entries@.len(),
        pk@ == entries@[i].pk@,
        msg@ == entries@[i].msg@,
        sig@ == entries@[i].sig@,
        call_ensures(base64::base64_decode, (pk,), p),
        call_ensures(base64::base64_decode, (msg,), m),
        call_ensures(base64::base64_decode, (sig,), s),
    ensures
        res is Ok <==> forall|k: int| 0 <= k < entries@.len() ==> all_read(#[trigger] entries@[k]),
        all_read(entries@[i]) <==> p is Ok && m is Ok && s is Ok,
        res is Ok ==> {
            let e = res->Ok_0@[i];
            &&& res->Ok_0@.len() == entries@.len()
            &&& e.0@ == p->Ok_0@
            &&& e.1@ == m->Ok_0@
            &&& e.2@ == s->Ok_0@
        },
{
    lemma_batch_text_fault(entries@, 0);
    if !(forall|k: int| 0 <= k < entries@.len() ==> all_read(#[trigger] entries@[k])) {
        let k = lemma_first_unread(entries@, 0);
        lemma_batch_text_fault(entries@, k);
    }
    if res is Ok {
        assert(batch_input::is_entry_of(res->Ok_0@[i], entries@[i]));
    }
}

proof fn lemma_first_unread(entries: Seq<EntryText>, i: int) -> (k: int)
    requires
        0 <= i <= entries.len(),
        forall|q: int| 0 <= q < i ==> all_read(#[trigger] entries[q]),
        !(forall|q: int| 0 <= q < entries.len() ==> all_read(#[trigger] entries[q])),
    ensures
        i <= k < entries.len(),
        forall|q: int| 0 <= q < k ==> all_read(#[trigger] entries[q]),
        !all_read(entries[k]),
    decreases entries.len() - i,
{
    if i < entries.len() && all_read(entries[i]) {
        lemma_first_unread(entries, i + 1)
    } else {
        i
    }
}

/// Rows of numbers become polynomials with the same entries if they have the right shape:
/// one row of 256, any number of them, five, or six; and so do six rows of hint bits.
pub proof fn lemma_shape_calls(
    c: &Vec<i64>,
    cr: Result<[i64; 256], ShapeError>,
    v: &Vec<Vec<i64>>,
    ar: Result<Vec<[i64; 256]>, ShapeError>,
    zr: Result<[[i64; 256]; 5], ShapeError>,
    tr: Result<[[i64; 256]; 6], ShapeError>,
    h: &Vec<Vec<bool>>,
    hr: Result<[[bool; 256]; 6], ShapeError>,
    i: int,
    j: int,
)
    requires
        call_ensures(shape::conv_c, (c,), cr),
        call_ensures(shape::conv_a_hat, (v,), ar),
        call_ensures(shape::conv_z, (v,), zr),
        call_ensures(shape::conv_t1, (v,), tr),
        call_ensures(shape::conv_hints, (h,), hr),
        0 <= j < 256,
    ensures
        cr is Ok <==> c@.len() == 256,
        cr is Ok ==> cr->Ok_0@[j] == c@[j],
        ar is Ok && 0 <= i < v@.len() ==> ar->Ok_0@.len() == v@.len() && v@[i]@.len() == 256
            && ar->Ok_0@[i]@[j] == v@[i]@[j],
        zr is Ok <==> ar is Ok && v@.len() == 5,
        tr is Ok <==> ar is Ok && v@.len() == 6,
        zr is Ok && 0 <= i < 5 ==> zr->Ok_0@[i]@[j] == v@[i]@[j],
        tr is Ok && 0 <= i < 6 ==> tr->Ok_0@[i]@[j] == v@[i]@[j],
        hr is Ok && 0 <= i < 6 ==> h@.len() == 6 && h@[i]@.len() == 256 && hr->Ok_0@[i]@[j]
            == h@[i]@[j],
        (forall|k: int| 0 <= k < v@.len() ==> (#[trigger] v@[k])@.len() == 256) ==> ar is Ok,
        h@.len() == 6 && (forall|k: int| 0 <= k < 6 ==> (#[trigger] h@[k])@.len() == 256)
            ==> hr is Ok,
{
    let vs = shape::views(v@);
    let hs = shape::views(h@);
    lemma_shape_fault(vs, 5, 0);
    lemma_shape_fault(vs, 6, 0);
    lemma_shape_fault(hs, 6, 0);
    assert(vs.len() == v@.len() && hs.len() == h@.len());
    if forall|k: int| 0 <= k < v@.len() ==> (#[trigger] v@[k])@.len() == 256 {
        assert forall|k: int| 0 <= k < vs.len() implies (#[trigger] vs[k]).len() == 256 by {
            assert(v@[k]@.len() == 256);
        }
    }
    if h@.len() == 6 && (forall|k: int| 0 <= k < 6 ==> (#[trigger] h@[k])@.len() == 256) {
        assert forall|k: int| 0 <= k < hs.len() implies (#[trigger] hs[k]).len() == 256 by {
            assert(h@[k]@.len() == 256);
        }
    }
    if ar is Ok && 0 <= i < v@.len() {
        let a = shape::array_views(ar->Ok_0@);
        assert(a.len() == ar->Ok_0@.len());
        assert(a[i] == ar->Ok_0@[i]@ && vs[i] == v@[i]@);
        assert(a[i].len() == 256);
    }
    if zr is Ok && 0 <= i < 5 {
        assert(shape::array_views(zr->Ok_0@)[i] == zr->Ok_0@[i]@ && vs[i] == v@[i]@);
    }
    if tr is Ok && 0 <= i < 6 {
        assert(shape::array_views(tr->Ok_0@)[i] == tr->Ok_0@[i]@ && vs[i] == v@[i]@);
    }
    if hr is Ok && 0 <= i < 6 {
        let a = shape::array_views(hr->Ok_0@);
        assert(a.len() == 6);
        assert(a[i] == hr->Ok_0@[i]@ && hs[i] == h@[i]@);
        assert(a[i].len() == 256);
    }
}

/// The hash of a claim is checked by recomputing the seed from six rows of 256 high parts and
/// holding it against the 48 bytes that the text stands for.
pub proof fn lemma_hash_check_call(
    pk: &[u8],
    msg: &[u8],
    w1: &Vec<Vec<i64>>,
    text: &str,
    res: Result<bool, HashCheckError>,
    v: &PolyVec,
    seed: Vec<u8>,
)
    requires
        call_ensures(
            signature_witness::verify_mldsa_hash_check,
            (pk, msg, w1, text),
            res,
        ),
        w1@.len() == 6,
        forall|i: int| 0 <= i < 6 ==> (#[trigger] w1@[i])@.len() == 256,
        v.0@.len() == 6,
        forall|i: int, j: int|
            0 <= i < 6 && 0 <= j < 256 ==> #[trigger] v.0@[i].coeffs@[j] == w1@[i]@[j],
        call_ensures(verify::recompute_seed, (pk, msg, v), seed),
    ensures
        !hexcode::is_hex(text.spec_bytes()) ==> res is Err,
        hexcode::is_hex(text.spec_bytes()) && hexcode::hex_value(text.spec_bytes()).len() != 48
            ==> res == Err::<bool, HashCheckError>(
            HashCheckError::SeedLength {
                got: hexcode::hex_value(text.spec_bytes()).len() as usize,
            },
        ),
        hexcode::is_hex(text.spec_bytes()) && hexcode::hex_value(text.spec_bytes()).len() == 48
            ==> res == Ok::<bool, HashCheckError>(seed@ == hexcode::hex_value(text.spec_bytes())),
{
    let w = shape::views(w1@);
    assert forall|i: int| 0 <= i < w.len() implies (#[trigger] w[i]).len() == 256 by {
        assert(w1@[i]@.len() == 256);
    }
    lemma_shape_fault(w, 6, 0);
    let r = signature_witness::int_rows(w);
    assert forall|i: int| 0 <= i < 6 implies r[i] == v@[i] by {
        assert(v@[i] == v.0@[i]@);
        assert forall|j: int| 0 <= j < 256 implies r[i][j] == v@[i][j] by {
            assert(v.0@[i].coeffs@[j] == w1@[i]@[j]);
            assert(w[i] == w1@[i]@);
        }
        assert(w[i].len() == 256);
        assert(r[i] =~= v@[i]);
    }
    assert(v@.len() == 6);
    assert(r =~= v@);
}

/// The parts of a signature are extracted if and only if it is valid.
pub proof fn lemma_extract_call(
    pk: &[u8],
    msg: &[u8],
    sig: &[u8],
    res: Option<SignatureWitness>,
    valid: bool,
)
    requires
        call_ensures(signature_witness::extract_mldsa_witness, (pk, msg, sig), res)
            || call_ensures(
            signature_witness::try_extract_mldsa_witness,
            (pk, msg, sig),
            Some(res),
        ),
        call_ensures(verify::ml_dsa_verify, (pk, msg, sig), valid),
    ensures
        res is Some <==> valid,
        res matches Some(w) ==> signature_witness::is_witness_of(w, pk@, sig@),
{
}

/// Of the characters up to `0x7f`, the white ones are those from tabulator to carriage return
/// and the space; of the others, those from `0x2000` to `0x200a` and nine single ones.
pub proof fn lemma_white(c: char)
    ensures
        c as u32 <= 0x7f ==> (base64::is_white(c) <==> c == ' ' || 0x09 <= c as u32 <= 0x0d),
        c as u32 > 0x7f ==> (base64::is_white(c) <==> c == '\u{85}' || c == '\u{a0}' || c
            == '\u{1680}' || '\u{2000}' as u32 <= c as u32 <= '\u{200a}' as u32 || c == '\u{2028}'
            || c == '\u{2029}' || c == '\u{202f}' || c == '\u{205f}' || c == '\u{3000}'),
{
}

} // verus!
