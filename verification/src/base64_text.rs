//! Base64, as RFC 4648 defines it.

use base64::Engine;
use vstd::prelude::*;
use vstd::utf8::is_ascii_chars;

verus! {

/// The character that stands for the six bits `v`.
pub open spec fn symbol(url_safe: bool, v: nat) -> char {
    if v < 26 {
        (65 + v) as char
    } else if v < 52 {
        (71 + v) as char
    } else if v < 62 {
        (v - 4) as char
    } else if v == 62 {
        if url_safe {
            '-'
        } else {
            '+'
        }
    } else {
        if url_safe {
            '_'
        } else {
            '/'
        }
    }
}

/// The byte at `i`, or zero behind the end.
pub open spec fn byte_at(bytes: Seq<u8>, i: int) -> nat {
    if i < bytes.len() {
        bytes[i] as nat
    } else {
        0
    }
}

/// The `i`-th group of six bits, the most significant bits of the first byte first.
pub open spec fn sextet(bytes: Seq<u8>, i: int) -> nat {
    let k = i / 4 * 3;
    if i % 4 == 0 {
        byte_at(bytes, k) / 4
    } else if i % 4 == 1 {
        byte_at(bytes, k) % 4 * 16 + byte_at(bytes, k + 1) / 16
    } else if i % 4 == 2 {
        byte_at(bytes, k + 1) % 16 * 4 + byte_at(bytes, k + 2) / 64
    } else {
        byte_at(bytes, k + 2) % 64
    }
}

/// How many groups of six bits `n` bytes make up, the last one filled up with zeros.
pub open spec fn sextets(n: nat) -> nat {
    (4 * n + 2) / 3
}

/// `bytes` in base64, with the url-safe or the standard alphabet, and padded or not.
pub open spec fn encoded(url_safe: bool, padded: bool, bytes: Seq<u8>) -> Seq<char> {
    Seq::new(
        if padded {
            (bytes.len() + 2) / 3 * 4
        } else {
            sextets(bytes.len())
        },
        |i: int|
            if i < sextets(bytes.len()) {
                symbol(url_safe, sextet(bytes, i))
            } else {
                '='
            },
    )
}

/// The bytes of which `text` is the base64 form, if there are any.
pub open spec fn decoded(url_safe: bool, padded: bool, text: Seq<char>) -> Option<Seq<u8>> {
    if exists|bytes: Seq<u8>| text == #[trigger] encoded(url_safe, padded, bytes) {
        Some(choose|bytes: Seq<u8>| text == #[trigger] encoded(url_safe, padded, bytes))
    } else {
        None
    }
}

proof fn lemma_symbol_injective(url_safe: bool, v: nat, other: bool, w: nat)
    requires
        v < 64,
        w < 64,
        symbol(url_safe, v) == symbol(other, w),
    ensures
        v == w,
{
}

proof fn lemma_symbol_no_pad(url_safe: bool, v: nat)
    requires
        v < 64,
    ensures
        symbol(url_safe, v) != '=',
        (symbol(url_safe, v) as u32) < 128,
{
}

proof fn lemma_sextet_small(bytes: Seq<u8>, i: int)
    requires
        0 <= i,
    ensures
        sextet(bytes, i) < 64,
{
}

/// No form of other bytes in base64 is the same.
pub proof fn lemma_encoded_injective(
    url_safe: bool,
    padded: bool,
    a: Seq<u8>,
    other_safe: bool,
    other_padded: bool,
    b: Seq<u8>,
)
    requires
        encoded(url_safe, padded, a) == encoded(other_safe, other_padded, b),
    ensures
        a == b,
{
    lemma_not_longer(url_safe, padded, a, other_safe, other_padded, b);
    lemma_not_longer(other_safe, other_padded, b, url_safe, padded, a);
    assert(a.len() == b.len());
    assert forall|i: int| 0 <= i < a.len() implies a[i] == b[i] by {
        let q = i / 3 * 4;
        assert(q / 4 * 3 == i / 3 * 3);
        let r = i % 3;
        assert(q + r + 1 < sextets(a.len()));
        lemma_same_sextet(url_safe, padded, a, other_safe, other_padded, b, q + r);
        lemma_same_sextet(url_safe, padded, a, other_safe, other_padded, b, q + r + 1);
        assert((q + r) / 4 == i / 3 && (q + r) % 4 == r);
        assert((q + r + 1) / 4 == i / 3 && (q + r + 1) % 4 == r + 1);
    }
    assert(a =~= b);
}

proof fn lemma_same_sextet(
    url_safe: bool,
    padded: bool,
    a: Seq<u8>,
    other_safe: bool,
    other_padded: bool,
    b: Seq<u8>,
    i: int,
)
    requires
        encoded(url_safe, padded, a) == encoded(other_safe, other_padded, b),
        a.len() == b.len(),
        0 <= i < sextets(a.len()),
    ensures
        sextet(a, i) == sextet(b, i),
{
    lemma_sextet_small(a, i);
    lemma_sextet_small(b, i);
    assert(encoded(url_safe, padded, a)[i] == symbol(url_safe, sextet(a, i)));
    assert(encoded(other_safe, other_padded, b)[i] == symbol(other_safe, sextet(b, i)));
    lemma_symbol_injective(url_safe, sextet(a, i), other_safe, sextet(b, i));
}

proof fn lemma_not_longer(
    url_safe: bool,
    padded: bool,
    a: Seq<u8>,
    other_safe: bool,
    other_padded: bool,
    b: Seq<u8>,
)
    requires
        encoded(url_safe, padded, a) == encoded(other_safe, other_padded, b),
    ensures
        a.len() >= b.len(),
{
    if a.len() < b.len() {
        let ea = encoded(url_safe, padded, a);
        let eb = encoded(other_safe, other_padded, b);
        let m = sextets(a.len()) as int;
        assert(m < sextets(b.len()));
        assert(m < eb.len());
        assert(eb[m] == symbol(other_safe, sextet(b, m)));
        lemma_sextet_small(b, m);
        lemma_symbol_no_pad(other_safe, sextet(b, m));
        assert(ea[m] == '=');
    }
}

/// Decoding gives back what was encoded.
pub proof fn law_decoded_encoded(url_safe: bool, padded: bool, bytes: Seq<u8>)
    ensures
        decoded(url_safe, padded, encoded(url_safe, padded, bytes)) == Some(bytes),
{
    let text = encoded(url_safe, padded, bytes);
    let found = choose|b: Seq<u8>| text == #[trigger] encoded(url_safe, padded, b);
    assert(text == encoded(url_safe, padded, found));
    lemma_encoded_injective(url_safe, padded, bytes, url_safe, padded, found);
}

/// Text in some form of base64 stands for the same bytes in any other form, if for any.
pub proof fn law_forms_agree(
    url_safe: bool,
    padded: bool,
    other_safe: bool,
    other_padded: bool,
    bytes: Seq<u8>,
)
    ensures
        decoded(other_safe, other_padded, encoded(url_safe, padded, bytes)) matches Some(found)
            ==> found == bytes,
{
    let text = encoded(url_safe, padded, bytes);
    if exists|b: Seq<u8>| text == #[trigger] encoded(other_safe, other_padded, b) {
        let found = choose|b: Seq<u8>| text == #[trigger] encoded(other_safe, other_padded, b);
        assert(text == encoded(other_safe, other_padded, found));
        lemma_encoded_injective(url_safe, padded, bytes, other_safe, other_padded, found);
    }
}

/// Base64 text is plain ASCII.
pub proof fn lemma_encoded_ascii(url_safe: bool, padded: bool, bytes: Seq<u8>)
    ensures
        is_ascii_chars(encoded(url_safe, padded, bytes)),
{
    let text = encoded(url_safe, padded, bytes);
    assert forall|i: int| 0 <= i < text.len() implies (#[trigger] text[i] as u32) < 128 by {
        lemma_sextet_small(bytes, i);
        lemma_symbol_no_pad(url_safe, sextet(bytes, i));
    }
}

/// `base64`'s `Engine::encode` with the engine `URL_SAFE`: the padded form with the url-safe
/// alphabet. It panics where the text would be longer than a string can be.
#[verifier::external_body]
pub(crate) fn encode_url_safe(bytes: &[u8]) -> (text: String)
    requires
        (bytes@.len() + 2) / 3 * 4 <= isize::MAX,
    ensures
        text@ == encoded(true, true, bytes@),
{
    base64::engine::general_purpose::URL_SAFE.encode(bytes)
}

/// `base64`'s `Engine::decode` with the engine `URL_SAFE`: it succeeds on exactly the texts that
/// `Engine::encode` gives, as it asks for canonical padding and refuses leftover bits, and gives
/// back the bytes.
#[verifier::external_body]
pub(crate) fn decode_url_safe(text: &str) -> (bytes: Option<Vec<u8>>)
    ensures
        match bytes {
            Some(bytes) => encoded(true, true, bytes@) == text@,
            None => forall|b: Seq<u8>| #[trigger] encoded(true, true, b) != text@,
        },
{
    base64::engine::general_purpose::URL_SAFE.decode(text).ok()
}

/// `base64`'s `Engine::decode` with the engine `URL_SAFE_NO_PAD`: as with `URL_SAFE`, for text
/// without padding.
#[verifier::external_body]
pub(crate) fn decode_url_safe_no_pad(text: &str) -> (bytes: Option<Vec<u8>>)
    ensures
        match bytes {
            Some(bytes) => encoded(true, false, bytes@) == text@,
            None => forall|b: Seq<u8>| #[trigger] encoded(true, false, b) != text@,
        },
{
    base64::engine::general_purpose::URL_SAFE_NO_PAD.decode(text).ok()
}

/// `base64`'s `Engine::decode` with the engine `STANDARD`: as with `URL_SAFE`, for the standard
/// alphabet.
#[verifier::external_body]
pub(crate) fn decode_standard(text: &str) -> (bytes: Option<Vec<u8>>)
    ensures
        match bytes {
            Some(bytes) => encoded(false, true, bytes@) == text@,
            None => forall|b: Seq<u8>| #[trigger] encoded(false, true, b) != text@,
        },
{
    base64::engine::general_purpose::STANDARD.decode(text).ok()
}

/// `base64`'s `Engine::decode` with the engine `STANDARD_NO_PAD`: as with `STANDARD`, for text
/// without padding.
#[verifier::external_body]
pub(crate) fn decode_standard_no_pad(text: &str) -> (bytes: Option<Vec<u8>>)
    ensures
        match bytes {
            Some(bytes) => encoded(false, false, bytes@) == text@,
            None => forall|b: Seq<u8>| #[trigger] encoded(false, false, b) != text@,
        },
{
    base64::engine::general_purpose::STANDARD_NO_PAD.decode(text).ok()
}

} // verus!
