//! Hexadecimal text, as the activation secret is written.

use crate::error::HexError;
use vstd::prelude::*;
use vstd::utf8::{encode_utf8, is_ascii_chars, is_ascii_chars_encode_utf8};

verus! {

/// The value of a hexadecimal digit, upper or lower case.
pub open spec fn hex_digit_value(c: u8) -> Option<u8> {
    if 0x30 <= c <= 0x39 {
        Some((c - 0x30) as u8)
    } else if 0x61 <= c <= 0x66 {
        Some((c - 0x61 + 10) as u8)
    } else if 0x41 <= c <= 0x46 {
        Some((c - 0x41 + 10) as u8)
    } else {
        None
    }
}

/// The position of the first byte at or after `from` that is no hexadecimal
/// digit, or the length of `s` if there is none.
pub open spec fn first_non_hex(s: Seq<u8>, from: int) -> int
    decreases s.len() - from,
{
    if from < 0 || from >= s.len() {
        s.len() as int
    } else if hex_digit_value(s[from]) is None {
        from
    } else {
        first_non_hex(s, from + 1)
    }
}

/// The bytes that the hexadecimal text `s` stands for, two digits a byte, or
/// the reason why it stands for none.
pub open spec fn spec_hex_decode(s: Seq<u8>) -> Result<Seq<u8>, HexError> {
    let bad = first_non_hex(s, 0);
    if s.len() % 2 != 0 {
        Err(HexError::OddLength)
    } else if bad < s.len() {
        Err(HexError::InvalidHexCharacter { c: s[bad] as char, index: bad as usize })
    } else {
        Ok(
            Seq::new(
                s.len() / 2,
                |i: int|
                    (hex_digit_value(s[2 * i])->0 * 16 + hex_digit_value(s[2 * i + 1])->0) as u8,
            ),
        )
    }
}

/// The lower-case hexadecimal digit for a value below sixteen.
pub open spec fn hex_char(n: int) -> char {
    if n < 10 {
        ((0x30 + n) as u8) as char
    } else {
        ((0x61 + n - 10) as u8) as char
    }
}

/// The lower-case hexadecimal text of `data`, two digits a byte.
pub open spec fn spec_hex_encode(data: Seq<u8>) -> Seq<char> {
    Seq::new(
        2 * data.len(),
        |i: int|
            if i % 2 == 0 {
                hex_char(data[i / 2] as int / 16)
            } else {
                hex_char(data[i / 2] as int % 16)
            },
    )
}

/// Where every byte from `from` on is a hexadecimal digit, none is found
/// that is not.
proof fn lemma_all_hex(s: Seq<u8>, from: int)
    requires
        0 <= from <= s.len(),
        forall|i: int| from <= i < s.len() ==> hex_digit_value(s[i]) is Some,
    ensures
        first_non_hex(s, from) == s.len(),
    decreases s.len() - from,
{
    if from < s.len() {
        lemma_all_hex(s, from + 1);
    }
}

/// The text that stands for some bytes is read back as those bytes.
pub proof fn lemma_hex_round_trip(data: Seq<u8>)
    ensures
        spec_hex_decode(encode_utf8(spec_hex_encode(data))) == Ok::<Seq<u8>, HexError>(data),
{
    let chars = spec_hex_encode(data);
    let text = encode_utf8(chars);
    assert(is_ascii_chars(chars));
    is_ascii_chars_encode_utf8(chars);
    assert forall|i: int| 0 <= i < text.len() implies hex_digit_value(text[i]) is Some && (
    hex_digit_value(text[i])->0 == if i % 2 == 0 {
        data[i / 2] / 16
    } else {
        data[i / 2] % 16
    }) by {
        assert(text[i] == chars[i] as u8);
    }
    lemma_all_hex(text, 0);
    let decoded = spec_hex_decode(text)->Ok_0;
    assert forall|k: int| 0 <= k < data.len() implies decoded[k] == data[k] by {
        assert(hex_digit_value(text[2 * k])->0 == data[k] / 16);
        assert(hex_digit_value(text[2 * k + 1])->0 == data[k] % 16);
    }
    assert(decoded =~= data);
}

/// `hex::decode`: the bytes that the text stands for. It fails on an odd
/// number of bytes before it looks at any of them, else on the first byte
/// that is no hexadecimal digit, which it reports with its position.
#[verifier::external_body]
pub(crate) fn hex_decode(text: &[u8]) -> (r: Result<Vec<u8>, HexError>)
    ensures
        match r {
            Ok(v) => spec_hex_decode(text@) == Ok::<Seq<u8>, HexError>(v@),
            Err(e) => spec_hex_decode(text@) == Err::<Seq<u8>, HexError>(e),
        },
{
    match hex::decode(text) {
        Ok(v) => Ok(v),
        Err(hex::FromHexError::InvalidHexCharacter { c, index }) => Err(
            HexError::InvalidHexCharacter { c, index },
        ),
        Err(hex::FromHexError::OddLength) => Err(HexError::OddLength),
        Err(hex::FromHexError::InvalidStringLength) => Err(HexError::InvalidStringLength),
    }
}

/// `hex::encode`: the lower-case hexadecimal text of `data`.
#[verifier::external_body]
pub(crate) fn hex_encode(data: &[u8]) -> (r: String)
    ensures
        r@ == spec_hex_encode(data@),
{
    hex::encode(data)
}

} // verus!
