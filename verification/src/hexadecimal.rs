//! Bytes in hexadecimal notation.

use crate::text;
use crate::text::decimal;
use vstd::prelude::*;

verus! {

/// The character for a hexadecimal digit, a lowercase letter from ten on.
pub open spec fn hex_digit(d: int) -> char {
    if d < 10 {
        (('0' as u32) + d) as char
    } else {
        (('a' as u32) + d - 10) as char
    }
}

/// Bytes in hexadecimal notation, two lowercase digits each.
pub open spec fn hex_text(bytes: Seq<u8>) -> Seq<char> {
    Seq::new(
        2 * bytes.len(),
        |i: int|
            if i % 2 == 0 {
                hex_digit(bytes[i / 2] as int / 16)
            } else {
                hex_digit(bytes[i / 2] as int % 16)
            },
    )
}

/// The value of a hexadecimal digit, given as an ASCII byte; letters of both cases count.
pub open spec fn hex_value(b: u8) -> Option<int> {
    if '0' as u8 <= b <= '9' as u8 {
        Some(b - '0' as u8)
    } else if 'a' as u8 <= b <= 'f' as u8 {
        Some(b - 'a' as u8 + 10)
    } else if 'A' as u8 <= b <= 'F' as u8 {
        Some(b - 'A' as u8 + 10)
    } else {
        None
    }
}

/// Whether the first `n` bytes are hexadecimal digits.
pub open spec fn hex_digits(bytes: Seq<u8>, n: int) -> bool {
    forall|i: int| 0 <= i < n ==> (#[trigger] hex_value(bytes[i])) is Some
}

/// The bytes that pairs of hexadecimal digits stand for.
pub open spec fn hex_bytes(digits: Seq<u8>) -> Seq<u8> {
    Seq::new(
        digits.len() / 2,
        |i: int| (16 * hex_value(digits[2 * i])->0 + hex_value(digits[2 * i + 1])->0) as u8,
    )
}

/// Why a text is no hexadecimal notation of bytes.
#[derive(Debug, Clone, Copy, PartialEq, Eq)]
pub enum HexError {
    /// Its byte `index`, shown as the character `c`, is no hexadecimal digit.
    InvalidHexCharacter { c: char, index: usize },
    /// It has an odd number of bytes.
    OddLength,
    /// It does not have the length that was asked for.
    InvalidStringLength,
}

/// What decoding a text gives.
pub open spec fn hex_decoding(s: Seq<char>, r: Result<Seq<u8>, HexError>) -> bool {
    let bytes = vstd::utf8::encode_utf8(s);
    match r {
        Ok(b) => {
            &&& bytes.len() % 2 == 0
            &&& hex_digits(bytes, bytes.len() as int)
            &&& b == hex_bytes(bytes)
        },
        Err(HexError::OddLength) => bytes.len() % 2 == 1,
        Err(HexError::InvalidHexCharacter { c, index }) => {
            &&& bytes.len() % 2 == 0
            &&& index < bytes.len()
            &&& hex_digits(bytes, index as int)
            &&& hex_value(bytes[index as int]) is None
            &&& c == bytes[index as int] as char
        },
        Err(HexError::InvalidStringLength) => false,
    }
}

/// The bytes of a result, where there are any.
pub open spec fn result_view(r: Result<Vec<u8>, HexError>) -> Result<Seq<u8>, HexError> {
    match r {
        Ok(b) => Ok(b@),
        Err(e) => Err(e),
    }
}

/// Calls `hex::encode`: two lowercase hexadecimal digits for each byte.
#[verifier::external_body]
pub(crate) fn hex_encode(bytes: &[u8]) -> (r: String)
    ensures
        r@ == hex_text(bytes@),
{
    hex::encode(bytes)
}

/// Calls `hex::decode`: it refuses a text of an odd number of bytes, then reports the first
/// byte that is no hexadecimal digit, and else gives a byte for each pair of digits.
#[verifier::external_body]
pub(crate) fn hex_decode(s: &str) -> (r: Result<Vec<u8>, HexError>)
    ensures
        hex_decoding(s@, result_view(r)),
{
    match hex::decode(s) {
        Ok(bytes) => Ok(bytes),
        Err(hex::FromHexError::InvalidHexCharacter { c, index }) => {
            Err(HexError::InvalidHexCharacter { c, index })
        },
        Err(hex::FromHexError::OddLength) => Err(HexError::OddLength),
        Err(hex::FromHexError::InvalidStringLength) => Err(HexError::InvalidStringLength),
    }
}

/// What the standard library's `Debug` writes for a character: the character between single
/// quotes, escaped where it is not printable.
pub uninterp spec fn char_debug_text(c: char) -> Seq<char>;

/// Calls `Debug` of `char`, which writes the character between single quotes, escaped where
/// it is not printable.
#[verifier::external_body]
fn char_debug(c: char) -> (r: String)
    ensures
        r@ == char_debug_text(c),
{
    format!("{:?}", c)
}

/// The message for a decoding error.
pub open spec fn hex_error_text(e: HexError) -> Seq<char> {
    match e {
        HexError::InvalidHexCharacter { c, index } => "Invalid character "@ + char_debug_text(c)
            + " at position "@ + text::decimal_text(index as nat),
        HexError::OddLength => "Odd number of digits"@,
        HexError::InvalidStringLength => "Invalid string length"@,
    }
}

impl HexError {
    /// The message for this error.
    pub fn message(&self) -> (r: String)
        ensures
            r@ == hex_error_text(*self),
            *self matches HexError::InvalidHexCharacter { c, index } ==> r@ == "Invalid character "@
                + char_debug_text(c) + " at position "@ + text::decimal_text(index as nat),
            *self is OddLength ==> r@ == "Odd number of digits"@,
            *self is InvalidStringLength ==> r@ == "Invalid string length"@,
    {
        match self {
            HexError::InvalidHexCharacter { c, index } => {
                let mut r = "Invalid character ".to_owned();
                r.append(char_debug(*c).as_str());
                r.append(" at position ");
                r.append(decimal(*index as u64).as_str());
                r
            },
            HexError::OddLength => "Odd number of digits".to_owned(),
            HexError::InvalidStringLength => "Invalid string length".to_owned(),
        }
    }
}

/// Decoding a text has one outcome.
pub proof fn law_hex_decoding_unique(
    s: Seq<char>,
    a: Result<Seq<u8>, HexError>,
    b: Result<Seq<u8>, HexError>,
)
    requires
        hex_decoding(s, a),
        hex_decoding(s, b),
    ensures
        a == b,
{
    let bytes = vstd::utf8::encode_utf8(s);
    if let Err(HexError::InvalidHexCharacter { index: i, .. }) = a {
        assert(hex_value(bytes[i as int]) is None);
        if let Err(HexError::InvalidHexCharacter { index: j, .. }) = b {
            assert(hex_value(bytes[j as int]) is None);
        }
    }
    if let Err(HexError::InvalidHexCharacter { index: j, .. }) = b {
        assert(hex_value(bytes[j as int]) is None);
    }
}

/// The hexadecimal notation is ASCII: its bytes are its characters.
pub proof fn lemma_hex_text_ascii(bytes: Seq<u8>)
    ensures
        vstd::utf8::encode_utf8(hex_text(bytes)).len() == 2 * bytes.len(),
        forall|i: int|
            0 <= i < 2 * bytes.len() ==> #[trigger] vstd::utf8::encode_utf8(hex_text(bytes))[i] == hex_text(
                bytes,
            )[i] as u8,
{
    let s = hex_text(bytes);
    assert forall|i: int| 0 <= i < s.len() implies '\0' <= #[trigger] s[i] <= '\u{7f}' by {
        let b = bytes[i / 2];
        assert(0 <= b as int / 16 < 16);
        assert(0 <= b as int % 16 < 16);
    }
    assert(vstd::utf8::is_ascii_chars(s));
    vstd::utf8::is_ascii_chars_encode_utf8(s);
}

/// Decoding the hexadecimal notation of bytes gives those bytes back.
pub proof fn law_hex_round_trip(bytes: Seq<u8>)
    ensures
        forall|r: Result<Seq<u8>, HexError>| #[trigger]
            hex_decoding(hex_text(bytes), r) <==> r == Ok::<Seq<u8>, HexError>(bytes),
{
    let s = hex_text(bytes);
    let e = vstd::utf8::encode_utf8(s);
    lemma_hex_text_ascii(bytes);
    assert forall|i: int| 0 <= i < e.len() implies (#[trigger] hex_value(e[i])) is Some
        && hex_value(e[i])->0 == (if i % 2 == 0 {
        bytes[i / 2] as int / 16
    } else {
        bytes[i / 2] as int % 16
    }) by {
        let b = bytes[i / 2];
        assert(e[i] == s[i] as u8);
        assert(0 <= b as int / 16 < 16);
        assert(0 <= b as int % 16 < 16);
    }
    assert(hex_digits(e, e.len() as int));
    assert(hex_bytes(e) =~= bytes) by {
        assert forall|i: int| 0 <= i < bytes.len() implies hex_bytes(e)[i] == bytes[i] by {
            assert((2 * i) / 2 == i && (2 * i) % 2 == 0);
            assert((2 * i + 1) / 2 == i && (2 * i + 1) % 2 == 1);
            assert(hex_value(e[2 * i]) is Some);
            assert(hex_value(e[2 * i + 1]) is Some);
        }
    }
    assert forall|r: Result<Seq<u8>, HexError>| #[trigger] hex_decoding(s, r) implies r == Ok::<
        Seq<u8>,
        HexError,
    >(bytes) by {
        match r {
            Ok(b) => {},
            Err(HexError::InvalidHexCharacter { c, index }) => {
                assert(hex_value(e[index as int]) is Some);
            },
            Err(_) => {},
        }
    }
}

/// The hexadecimal notation tells the bytes.
pub proof fn law_hex_text_injective(a: Seq<u8>, b: Seq<u8>)
    ensures
        hex_text(a) == hex_text(b) <==> a == b,
{
    law_hex_round_trip(a);
    law_hex_round_trip(b);
    if hex_text(a) == hex_text(b) {
        assert(hex_decoding(hex_text(b), Ok::<Seq<u8>, HexError>(a)));
    }
}

} // verus!
