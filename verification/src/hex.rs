//! Lowercase hexadecimal text, the form that keys, commitments and payloads
//! take inside JSON.
use crate::bytes::SerError;
use vstd::prelude::*;

verus! {

/// Why a value could not be read from its hexadecimal form.
#[derive(Clone, Debug, PartialEq)]
pub enum HexError {
    /// The text is no hexadecimal string; it is handed back.
    InvalidHex(String),
    /// The bytes are no public key.
    InvalidPublicKey(secp256k1zkp::Error),
    /// The bytes are no binary form of the value.
    InvalidEncoding(SerError),
}

/// The character for a digit below 16.
pub open spec fn hex_digit(n: int) -> char {
    seq![
        '0',
        '1',
        '2',
        '3',
        '4',
        '5',
        '6',
        '7',
        '8',
        '9',
        'a',
        'b',
        'c',
        'd',
        'e',
        'f',
    ][n]
}

/// Two lowercase hexadecimal digits for each byte, the high one first.
pub open spec fn hex_string(bytes: Seq<u8>) -> Seq<char> {
    Seq::new(
        2 * bytes.len(),
        |i: int|
            if i % 2 == 0 {
                hex_digit(bytes[i / 2] as int / 16)
            } else {
                hex_digit(bytes[i / 2] as int % 16)
            },
    )
}

/// Whether `c` is one of the sixteen lowercase hexadecimal digits.
pub open spec fn is_hex_digit(c: char) -> bool {
    exists|n: int| 0 <= n < 16 && #[trigger] hex_digit(n) == c
}

/// Whether `text` is an even number of lowercase hexadecimal digits.
pub open spec fn lower_hex(text: Seq<char>) -> bool {
    &&& text.len() % 2 == 0
    &&& forall|i: int| 0 <= i < text.len() ==> is_hex_digit(#[trigger] text[i])
}

/// The bytes that the decoder of `grin_util` reads from `text`, where it
/// reads any. It takes more than `lower_hex` text: upper case, a `0x` in
/// front, blanks around.
pub uninterp spec fn hex_decoded(text: Seq<char>) -> Option<Seq<u8>>;

/// `grin_util::ToHex::to_hex` on a byte slice: each byte is written with
/// the format `{:02x}`, two lowercase digits.
#[verifier::external_body]
pub(crate) fn to_hex(bytes: &[u8]) -> (r: String)
    ensures
        r@ == hex_string(bytes@),
{
    grin_util::ToHex::to_hex(&bytes)
}

/// `grin_util::from_hex`. The result is the one that `hex_decoded` names.
/// For text of lowercase digits alone the source shows more: nothing is
/// trimmed, the length is even, and each pair of digits is read as one byte
/// in base 16, so writing the bytes out again gives the text.
///
/// The decoder cuts the text into pieces of two bytes and panics where a cut
/// falls inside a character of more than one byte: `requires` asks for ASCII
/// text, in which there is no such character.
#[verifier::external_body]
pub(crate) fn from_hex(text: &str) -> (r: Result<Vec<u8>, String>)
    requires
        vstd::utf8::is_ascii_chars(text@),
    ensures
        match r {
            Ok(v) => hex_decoded(text@) == Some(v@),
            Err(_) => hex_decoded(text@) is None,
        },
        lower_hex(text@) ==> r is Ok && hex_string(r->Ok_0@) == text@,
{
    grin_util::from_hex(text)
}

/// The digits are sixteen different characters.
pub proof fn lemma_hex_digit_injective(m: int, n: int)
    requires
        0 <= m < 16,
        0 <= n < 16,
        hex_digit(m) == hex_digit(n),
    ensures
        m == n,
{
}

/// What `hex_string` writes is lowercase hexadecimal.
pub proof fn lemma_hex_string_is_lower_hex(bytes: Seq<u8>)
    ensures
        lower_hex(hex_string(bytes)),
{
    let text = hex_string(bytes);
    assert forall|i: int| 0 <= i < text.len() implies is_hex_digit(#[trigger] text[i]) by {
        let b = bytes[i / 2] as int;
        if i % 2 == 0 {
            assert(hex_digit(b / 16) == text[i]);
        } else {
            assert(hex_digit(b % 16) == text[i]);
        }
    }
}

/// Different bytes are written differently.
pub proof fn lemma_hex_string_injective(a: Seq<u8>, b: Seq<u8>)
    requires
        hex_string(a) == hex_string(b),
    ensures
        a == b,
{
    assert(hex_string(a).len() == 2 * a.len());
    assert(hex_string(b).len() == 2 * b.len());
    assert forall|j: int| 0 <= j < a.len() implies a[j] == b[j] by {
        let x = a[j] as int;
        let y = b[j] as int;
        assert(hex_string(a)[2 * j] == hex_digit(x / 16));
        assert(hex_string(b)[2 * j] == hex_digit(y / 16));
        assert(hex_string(a)[2 * j + 1] == hex_digit(x % 16));
        assert(hex_string(b)[2 * j + 1] == hex_digit(y % 16));
        lemma_hex_digit_injective(x / 16, y / 16);
        lemma_hex_digit_injective(x % 16, y % 16);
    }
    assert(a =~= b);
}

/// The lowercase hexadecimal form of `bytes`.
pub fn encode_hex(bytes: &[u8]) -> (r: String)
    ensures
        r@ == hex_string(bytes@),
{
    to_hex(bytes)
}

/// The bytes that `text` stands for, where it stands for any: text with a
/// character outside ASCII stands for none, other text for what the decoder
/// reads from it.
pub open spec fn spec_decode_hex(text: Seq<char>) -> Option<Seq<u8>> {
    if vstd::utf8::is_ascii_chars(text) {
        hex_decoded(text)
    } else {
        None
    }
}

/// What `hex_string` writes is ASCII.
pub proof fn lemma_hex_string_is_ascii(bytes: Seq<u8>)
    ensures
        vstd::utf8::is_ascii_chars(hex_string(bytes)),
{
    let text = hex_string(bytes);
    assert forall|i: int| 0 <= i < text.len() implies '\0' <= #[trigger] text[i] <= '\u{7f}' by {
        let b = bytes[i / 2] as int;
        if i % 2 == 0 {
            assert(hex_digit(b / 16) == text[i]);
        } else {
            assert(hex_digit(b % 16) == text[i]);
        }
    }
}

/// The bytes that `text` stands for. Text that `encode_hex` wrote is read
/// back to the bytes it was written from.
pub fn decode_hex(text: &str) -> (r: Result<Vec<u8>, HexError>)
    ensures
        match r {
            Ok(v) => spec_decode_hex(text@) == Some(v@),
            Err(e) => spec_decode_hex(text@) is None && e is InvalidHex,
        },
        forall|b: Seq<u8>| text@ == #[trigger] hex_string(b) ==> r is Ok && r->Ok_0@ == b,
{
    if !text.is_ascii() {
        proof {
            assert forall|b: Seq<u8>| text@ == #[trigger] hex_string(b) implies false by {
                lemma_hex_string_is_ascii(b);
            }
        }
        return Err(HexError::InvalidHex(text.to_owned()));
    }
    match from_hex(text) {
        Ok(v) => {
            proof {
                assert forall|b: Seq<u8>| text@ == #[trigger] hex_string(b) implies v@ == b by {
                    lemma_hex_string_is_lower_hex(b);
                    lemma_hex_string_injective(v@, b);
                }
            }
            Ok(v)
        },
        Err(t) => {
            proof {
                assert forall|b: Seq<u8>| text@ == #[trigger] hex_string(b) implies false by {
                    lemma_hex_string_is_lower_hex(b);
                }
            }
            Err(HexError::InvalidHex(t))
        },
    }
}

} // verus!
