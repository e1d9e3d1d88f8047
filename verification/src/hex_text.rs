//! Bytes in hexadecimal.

use crate::text::{decimal, hex_digits, push_decimal};
use vstd::prelude::*;
use vstd::utf8::encode_utf8;

verus! {

/// What is wrong with a text that should be hexadecimal.
#[derive(Clone, Copy, Debug, PartialEq, Eq, Structural)]
pub enum HexError {
    /// The byte at `index`, taken as a character, is no hexadecimal digit.
    InvalidHexCharacter { c: char, index: usize },
    /// The last digit has no partner.
    OddLength,
    /// The text is not as long as it has to be.
    InvalidStringLength,
}

/// A hexadecimal digit in either case.
pub open spec fn is_hex_digit(b: u8) -> bool {
    48 <= b <= 57 || 65 <= b <= 70 || 97 <= b <= 102
}

/// What a hexadecimal digit stands for.
pub open spec fn hex_value(b: u8) -> int {
    if b <= 57 {
        b - 48
    } else if b <= 70 {
        b - 55
    } else {
        b - 87
    }
}

/// `i` is the place of the first byte that is no hexadecimal digit.
pub open spec fn first_bad_digit(text: Seq<u8>, i: int) -> bool {
    &&& 0 <= i < text.len()
    &&& !is_hex_digit(text[i])
    &&& forall|j: int| 0 <= j < i ==> is_hex_digit(#[trigger] text[j])
}

/// Two hexadecimal digits for each byte.
pub open spec fn all_hex(text: Seq<u8>) -> bool {
    text.len() % 2 == 0 && forall|i: int| 0 <= i < text.len() ==> is_hex_digit(#[trigger] text[i])
}

/// The bytes that pairs of hexadecimal digits stand for.
pub open spec fn hex_bytes(text: Seq<u8>) -> Seq<u8> {
    Seq::new(
        text.len() / 2,
        |i: int| (16 * hex_value(text[2 * i]) + hex_value(text[2 * i + 1])) as u8,
    )
}

/// `hex::decode`: the bytes that pairs of hexadecimal digits in either case stand for. It is an
/// error if there is an odd number of bytes, and else if there is a byte that is no such digit,
/// of which the first is named.
#[verifier::external_body]
pub(crate) fn hex_decode(text: &str) -> (bytes: Result<Vec<u8>, HexError>)
    ensures
        match bytes {
            Ok(bytes) => all_hex(encode_utf8(text@)) && bytes@ == hex_bytes(encode_utf8(text@)),
            Err(HexError::OddLength) => encode_utf8(text@).len() % 2 == 1,
            Err(HexError::InvalidHexCharacter { c, index }) => {
                &&& encode_utf8(text@).len() % 2 == 0
                &&& first_bad_digit(encode_utf8(text@), index as int)
                &&& c == encode_utf8(text@)[index as int] as char
            },
            Err(HexError::InvalidStringLength) => false,
        },
{
    hex::decode(text).map_err(|e| match e {
        hex::FromHexError::InvalidHexCharacter { c, index } => {
            HexError::InvalidHexCharacter { c, index }
        },
        hex::FromHexError::OddLength => HexError::OddLength,
        hex::FromHexError::InvalidStringLength => HexError::InvalidStringLength,
    })
}

/// `hex::encode`: two lower case hexadecimal digits for each byte. It panics where the text
/// would be longer than a string can be.
#[verifier::external_body]
pub(crate) fn hex_encode(bytes: &[u8]) -> (text: String)
    requires
        2 * bytes@.len() <= isize::MAX,
    ensures
        text@ == hex_digits(bytes@),
{
    hex::encode(bytes)
}

/// Printable ASCII, without the two characters that are escaped between single quotes.
pub open spec fn plain_char(c: char) -> bool {
    ' ' <= c && c <= '~' && c != '\'' && c != '\\'
}

/// What the `Debug` form of a `char` is where it is not `plain_char`.
pub uninterp spec fn escaped_char(c: char) -> Seq<char>;

/// The character between single quotes, escaped where that is needed.
pub open spec fn quoted_char(c: char) -> Seq<char> {
    if plain_char(c) {
        seq!['\'', c, '\'']
    } else {
        escaped_char(c)
    }
}

/// The `Debug` form of a `char`: a plain one between single quotes. What it gives for others is
/// left open here.
#[verifier::external_body]
pub(crate) fn quote_char(c: char) -> (out: String)
    ensures
        plain_char(c) ==> out@ == seq!['\'', c, '\''],
        !plain_char(c) ==> out@ == escaped_char(c),
{
    format!("{:?}", c)
}

/// What is said of an error.
pub open spec fn hex_message(e: HexError) -> Seq<char> {
    match e {
        HexError::InvalidHexCharacter { c, index } => "Invalid character "@ + quoted_char(c)
            + " at position "@ + decimal(index as nat),
        HexError::OddLength => "Odd number of digits"@,
        HexError::InvalidStringLength => "Invalid string length"@,
    }
}

impl HexError {
    /// Says what is wrong.
    pub fn message(&self) -> (message: String)
        ensures
            message@ == hex_message(*self),
    {
        match *self {
            HexError::InvalidHexCharacter { c, index } => {
                let mut message = "Invalid character ".to_string();
                message.append(quote_char(c).as_str());
                message.append(" at position ");
                push_decimal(&mut message, index as u64);
                message
            },
            HexError::OddLength => "Odd number of digits".to_string(),
            HexError::InvalidStringLength => "Invalid string length".to_string(),
        }
    }
}

/// The bytes that a text stands for, or what is wrong with it.
pub open spec fn hex_decoded(text: Seq<char>) -> Result<Seq<u8>, HexError> {
    let bytes = encode_utf8(text);
    if bytes.len() % 2 == 1 {
        Err(HexError::OddLength)
    } else if all_hex(bytes) {
        Ok(hex_bytes(bytes))
    } else {
        let index = choose|i: int| first_bad_digit(bytes, i);
        Err(HexError::InvalidHexCharacter { c: bytes[index] as char, index: index as usize })
    }
}

/// The first byte that is no digit is found.
pub(crate) proof fn lemma_hex_decoded(text: Seq<char>, bytes: Result<Vec<u8>, HexError>)
    requires
        match bytes {
            Ok(bytes) => all_hex(encode_utf8(text)) && bytes@ == hex_bytes(encode_utf8(text)),
            Err(HexError::OddLength) => encode_utf8(text).len() % 2 == 1,
            Err(HexError::InvalidHexCharacter { c, index }) => {
                &&& encode_utf8(text).len() % 2 == 0
                &&& first_bad_digit(encode_utf8(text), index as int)
                &&& c == encode_utf8(text)[index as int] as char
            },
            Err(HexError::InvalidStringLength) => false,
        },
    ensures
        match bytes {
            Ok(bytes) => hex_decoded(text) == Ok::<Seq<u8>, HexError>(bytes@),
            Err(e) => hex_decoded(text) == Err::<Seq<u8>, HexError>(e),
        },
{
    if let Err(HexError::InvalidHexCharacter { c, index }) = bytes {
        let all = encode_utf8(text);
        let i = choose|i: int| first_bad_digit(all, i);
        assert(first_bad_digit(all, index as int));
        assert(first_bad_digit(all, i));
        assert(i == index) by {
            if i < index {
                assert(is_hex_digit(all[i]));
            }
            if index < i {
                assert(is_hex_digit(all[index as int]));
            }
        }
    }
}

/// What was written in hexadecimal is read again.
pub proof fn law_hex_round_trip(bytes: Seq<u8>)
    ensures
        hex_decoded(hex_digits(bytes)) == Ok::<Seq<u8>, HexError>(bytes),
{
    let text = hex_digits(bytes);
    assert(vstd::utf8::is_ascii_chars(text));
    vstd::utf8::is_ascii_chars_encode_utf8(text);
    let all = encode_utf8(text);
    assert forall|i: int| 0 <= i < all.len() implies is_hex_digit(#[trigger] all[i]) by {
        assert(all[i] == text[i] as u8);
    }
    assert forall|i: int| 0 <= i < bytes.len() implies hex_bytes(all)[i] == bytes[i] by {
        assert(all[2 * i] == text[2 * i] as u8);
        assert(all[2 * i + 1] == text[2 * i + 1] as u8);
    }
    assert(hex_bytes(all) =~= bytes);
}

} // verus!
