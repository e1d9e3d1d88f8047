//! What holds of notes on their way through text and through the wallet.

use crate::base32::{base32_encoded, law_base32_round_trip, lemma_base32_characters};
use crate::base64_text::{
    decoded, encoded, law_decoded_encoded, law_forms_agree, lemma_encoded_ascii, sextet, sextets,
    symbol,
};
use crate::ecash::{
    bundle_bytes, bundle_in_bytes, bundle_in_list, bundle_in_text, decodings, federation_in_code,
    fedimint_bytes, gathered, gathered_from, note_text, split_texts, stocked, with_decoding,
};
use crate::ecash_fields::{law_v2_round_trip, lemma_single_tiers, note_count, v2_bytes};
use crate::notes::{proper_note, proper_tiers, with_notes, Bundle, NoteFormat, MAX_BODY};
use crate::oob_notes::{
    law_v1_round_trip, lemma_single_body, lemma_single_v1_len, single, v1_body_bytes, v1_bundle,
    v1_bytes,
};
use crate::sound::{law_listed_bundle_is_sound, sound};
use crate::storage::{drawn, popped, without};
use crate::text::{ascii_lower, begins_with, lowered, squeezed, trimmed, white};
use crate::tiers::{
    ascending, lemma_ascending_exists, lemma_take_contains, lemma_worth_nonzero, listed, merged,
    sizes, strictly_ascending, worth,
};
use crate::varint::{lemma_varint_len, varint_bytes};
use vstd::prelude::*;
use vstd::utf8::{encode_utf8, is_ascii_chars, is_ascii_chars_encode_utf8};

verus! {

proof fn lemma_filter_all<T>(s: Seq<T>, keep: spec_fn(T) -> bool)
    requires
        forall|i: int| 0 <= i < s.len() ==> keep(#[trigger] s[i]),
    ensures
        s.filter(keep) == s,
    decreases s.len(),
{
    reveal(Seq::filter);
    if s.len() > 0 {
        lemma_filter_all(s.drop_last(), keep);
        assert(s.drop_last().push(s.last()) =~= s);
    }
}

/// Base64 text has no white space in it.
proof fn lemma_encoded_squeezed(url_safe: bool, padded: bool, bytes: Seq<u8>)
    ensures
        squeezed(encoded(url_safe, padded, bytes)) == encoded(url_safe, padded, bytes),
{
    let text = encoded(url_safe, padded, bytes);
    assert forall|i: int| 0 <= i < text.len() implies !white(#[trigger] text[i]) by {
        let v = sextet(bytes, i);
        assert(text[i] == '=' || text[i] == symbol(url_safe, v));
    }
    lemma_filter_all(text, |c: char| !white(c));
}

/// Text that does not begin with an `f` and an `e` is not in Fedimint's own form.
proof fn lemma_not_fedimint(text: Seq<char>)
    requires
        is_ascii_chars(text),
        text.len() >= 2,
        ascii_lower(text[0]) != 'f' || ascii_lower(text[1]) != 'e',
    ensures
        fedimint_bytes(text) is None,
{
    let lower = lowered(text);
    assert(lower.len() == text.len());
    assert forall|i: int| 0 <= i < lower.len() implies '\0' <= #[trigger] lower[i] <= '\u{7f}' by {
        assert(lower[i] == ascii_lower(text[i]));
    }
    reveal_strlit("fedimint");
    let word = "fedimint"@;
    is_ascii_chars_encode_utf8(lower);
    is_ascii_chars_encode_utf8(word);
    if begins_with(encode_utf8(lower), encode_utf8(word)) {
        let front = encode_utf8(lower).take(encode_utf8(word).len() as int);
        assert(front[0] == encode_utf8(lower)[0]);
        assert(front[1] == encode_utf8(lower)[1]);
        assert(lower[0] as u8 == word[0] as u8);
        assert(lower[1] as u8 == word[1] as u8);
        assert(false);
    }
}

/// One more way in which the bytes are found adds them to the list only once.
proof fn lemma_found_again(list: Seq<Seq<u8>>, found: Option<Seq<u8>>, bytes: Seq<u8>)
    requires
        bytes.len() > 0,
        list == Seq::<Seq<u8>>::empty() || list == seq![bytes],
        found matches Some(b) ==> b == bytes,
    ensures
        with_decoding(list, found) == (if found is Some {
            seq![bytes]
        } else {
            list
        }),
{
    if let Some(b) = found {
        if list.len() == 0 {
            assert(!list.contains(b));
            assert(list.push(b) =~= seq![bytes]);
        } else {
            assert(list[0] == b);
        }
    }
}

/// All that base64 text stands for is what was encoded.
proof fn lemma_only_decoding(url_safe: bool, padded: bool, bytes: Seq<u8>)
    requires
        bytes.len() > 0,
        fedimint_bytes(encoded(url_safe, padded, bytes)) is None,
    ensures
        decodings(encoded(url_safe, padded, bytes)) == seq![bytes],
{
    let text = encoded(url_safe, padded, bytes);
    law_decoded_encoded(url_safe, padded, bytes);
    law_forms_agree(url_safe, padded, true, true, bytes);
    law_forms_agree(url_safe, padded, true, false, bytes);
    law_forms_agree(url_safe, padded, false, true, bytes);
    law_forms_agree(url_safe, padded, false, false, bytes);
    let l0 = Seq::<Seq<u8>>::empty();
    let l1 = with_decoding(l0, decoded(true, true, text));
    let l2 = with_decoding(l1, decoded(true, false, text));
    let l3 = with_decoding(l2, decoded(false, true, text));
    lemma_found_again(l0, decoded(true, true, text), bytes);
    lemma_found_again(l1, decoded(true, false, text), bytes);
    lemma_found_again(l2, decoded(false, true, text), bytes);
    lemma_found_again(l3, decoded(false, false, text), bytes);
}

/// Base64 text of bytes that begin as bundles do is not in Fedimint's own form.
proof fn lemma_encoded_not_fedimint(url_safe: bool, padded: bool, bytes: Seq<u8>)
    requires
        bytes.len() >= 2,
        bytes[0] == 2 || bytes[0] >= 0xfd || bytes[1] == 0,
    ensures
        fedimint_bytes(encoded(url_safe, padded, bytes)) is None,
{
    let text = encoded(url_safe, padded, bytes);
    lemma_encoded_ascii(url_safe, padded, bytes);
    assert(sextets(bytes.len()) >= 2);
    let v = sextet(bytes, 0);
    let w = sextet(bytes, 1);
    assert(text[0] == symbol(url_safe, v));
    assert(text[1] == symbol(url_safe, w));
    assert(v == bytes[0] / 4);
    assert(w == bytes[0] as nat % 4 * 16 + bytes[1] as nat / 16);
    assert(ascii_lower(symbol(url_safe, v)) != 'f' || ascii_lower(symbol(url_safe, w)) != 'e');
    lemma_not_fedimint(text);
}

/// A bundle is read again from base64 text of it in any form.
proof fn lemma_bundle_text(url_safe: bool, padded: bool, bytes: Seq<u8>, bundle: Bundle)
    requires
        bytes.len() >= 2,
        bytes[0] == 2 || bytes[0] >= 0xfd || bytes[1] == 0,
        bundle_in_bytes(bytes) == Ok::<Bundle, Seq<char>>(bundle),
    ensures
        bundle_in_list(decodings(encoded(url_safe, padded, bytes))) == Ok::<Bundle, Seq<char>>(
            bundle,
        ),
        bundle_in_text(encoded(url_safe, padded, bytes)) == Ok::<Bundle, Seq<char>>(bundle),
{
    lemma_encoded_squeezed(url_safe, padded, bytes);
    lemma_encoded_not_fedimint(url_safe, padded, bytes);
    lemma_only_decoding(url_safe, padded, bytes);
    assert(seq![bytes][0] == bytes);
}

/// Fedimint's own form of bytes has no white space in it, and is plain ASCII in lower case.
proof fn lemma_fedimint_plain(bytes: Seq<u8>, text: Seq<char>)
    requires
        is_ascii_chars(text),
        lowered(text) == "fedimint"@ + base32_encoded(bytes),
    ensures
        squeezed(text) == text,
        is_ascii_chars(lowered(text)),
{
    reveal_strlit("fedimint");
    let word = "fedimint"@;
    let digits = base32_encoded(bytes);
    let lower = lowered(text);
    lemma_base32_characters(bytes);
    assert forall|i: int| 0 <= i < lower.len() implies 'a' <= #[trigger] lower[i] <= 'v' || '0'
        <= lower[i] <= '9' by {
        if i < word.len() {
            assert(lower[i] == word[i]);
        } else {
            assert(lower[i] == digits[i - word.len()]);
        }
    }
    assert forall|i: int| 0 <= i < text.len() implies (|c: char| !white(c))(
        #[trigger] text[i],
    ) by {
        assert(lower[i] == ascii_lower(text[i]));
    }
    lemma_filter_all(text, |c: char| !white(c));
}

/// Fedimint's own form of bytes stands for the bytes.
proof fn lemma_fedimint_bytes(bytes: Seq<u8>, text: Seq<char>)
    requires
        is_ascii_chars(lowered(text)),
        lowered(text) == "fedimint"@ + base32_encoded(bytes),
    ensures
        fedimint_bytes(text) == Some(bytes),
{
    reveal_strlit("fedimint");
    let word = "fedimint"@;
    let digits = base32_encoded(bytes);
    let lower = lowered(text);
    is_ascii_chars_encode_utf8(lower);
    is_ascii_chars_encode_utf8(word);
    let all = encode_utf8(lower);
    assert(all.take(word.len() as int) =~= encode_utf8(word)) by {
        assert forall|i: int| 0 <= i < word.len() implies #[trigger] all[i] == encode_utf8(
            word,
        )[i] by {
            assert(lower[i] == word[i]);
        }
    }
    let rest = all.skip(word.len() as int);
    assert(rest =~= digits.map_values(|c: char| c as u8)) by {
        assert forall|i: int| 0 <= i < digits.len() implies #[trigger] rest[i]
            == digits[i] as u8 by {
            assert(lower[i + word.len()] == digits[i]);
        }
    }
    law_base32_round_trip(bytes);
}

/// A bundle is read again from Fedimint's own form of it, in whatever case.
proof fn lemma_fedimint_text(bytes: Seq<u8>, bundle: Bundle, text: Seq<char>)
    requires
        bytes.len() > 0,
        bundle_in_bytes(bytes) == Ok::<Bundle, Seq<char>>(bundle),
        is_ascii_chars(text),
        lowered(text) == "fedimint"@ + base32_encoded(bytes),
    ensures
        bundle_in_text(text) == Ok::<Bundle, Seq<char>>(bundle),
{
    lemma_fedimint_plain(bytes, text);
    lemma_fedimint_bytes(bytes, text);
    let none = Seq::<Seq<u8>>::empty();
    lemma_found_again(none, Some(bytes), bytes);
    let l0 = seq![bytes];
    let l1 = with_decoding(l0, decoded(true, true, text));
    let l2 = with_decoding(l1, decoded(true, false, text));
    let l3 = with_decoding(l2, decoded(false, true, text));
    let l4 = with_decoding(l3, decoded(false, false, text));
    assert(l1[0] == bytes && l2[0] == bytes && l3[0] == bytes && l4[0] == bytes);
}

/// White space in a text of notes does not matter.
pub proof fn law_white_space_does_not_matter(a: Seq<char>, b: Seq<char>)
    requires
        squeezed(a) == squeezed(b),
    ensures
        bundle_in_text(a) == bundle_in_text(b),
{
}

/// The list stays free of empty entries and of repeated ones, and loses none.
proof fn lemma_with_decoding(list: Seq<Seq<u8>>, bytes: Option<Seq<u8>>)
    requires
        list.no_duplicates(),
        forall|i: int| 0 <= i < list.len() ==> (#[trigger] list[i]).len() > 0,
    ensures
        ({
            let all = with_decoding(list, bytes);
            &&& all.no_duplicates()
            &&& forall|i: int| 0 <= i < all.len() ==> (#[trigger] all[i]).len() > 0
            &&& forall|b: Seq<u8>| #[trigger] list.contains(b) ==> all.contains(b)
            &&& bytes matches Some(b) ==> b.len() > 0 ==> all.contains(b)
            &&& forall|b: Seq<u8>| #[trigger] all.contains(b) ==> list.contains(b) || bytes == Some(
                b,
            )
        }),
{
    let all = with_decoding(list, bytes);
    if let Some(new) = bytes {
        if new.len() > 0 && !list.contains(new) {
            assert(all[list.len() as int] == new);
            assert forall|b: Seq<u8>| #[trigger] list.contains(b) implies all.contains(b) by {
                let i = choose|i: int| 0 <= i < list.len() && list[i] == b;
                assert(all[i] == b);
            }
            assert forall|b: Seq<u8>| #[trigger] all.contains(b) implies list.contains(b) || bytes
                == Some(b) by {
                let i = choose|i: int| 0 <= i < all.len() && all[i] == b;
                if i < list.len() {
                    assert(list[i] == b);
                }
            }
        }
    }
}

/// The list of what a text may stand for has no empty and no repeated entries, and holds exactly
/// what the text stands for in one form or another.
pub proof fn law_decodings(text: Seq<char>, bytes: Seq<u8>)
    requires
        bytes.len() > 0,
    ensures
        decodings(text).no_duplicates(),
        forall|i: int| 0 <= i < decodings(text).len() ==> (#[trigger] decodings(text)[i]).len() > 0,
        decodings(text).contains(bytes) <==> {
            ||| fedimint_bytes(text) == Some(bytes)
            ||| decoded(true, true, text) == Some(bytes)
            ||| decoded(true, false, text) == Some(bytes)
            ||| decoded(false, true, text) == Some(bytes)
            ||| decoded(false, false, text) == Some(bytes)
        },
{
    let none = Seq::<Seq<u8>>::empty();
    let l0 = with_decoding(none, fedimint_bytes(text));
    let l1 = with_decoding(l0, decoded(true, true, text));
    let l2 = with_decoding(l1, decoded(true, false, text));
    let l3 = with_decoding(l2, decoded(false, true, text));
    lemma_with_decoding(none, fedimint_bytes(text));
    lemma_with_decoding(l0, decoded(true, true, text));
    lemma_with_decoding(l1, decoded(true, false, text));
    lemma_with_decoding(l2, decoded(false, true, text));
    lemma_with_decoding(l3, decoded(false, false, text));
    assert(!none.contains(bytes));
}

/// Lower case letters are the same in lower case.
proof fn lemma_lowered_twice(text: Seq<char>)
    requires
        is_ascii_chars(text),
    ensures
        is_ascii_chars(lowered(text)),
        lowered(lowered(text)) == lowered(text),
{
    let lower = lowered(text);
    assert forall|i: int| 0 <= i < lower.len() implies '\0' <= #[trigger] lower[i] <= '\u{7f}' by {
        assert(lower[i] == ascii_lower(text[i]));
    }
    assert(lowered(lower) =~= lower);
}

proof fn lemma_trimmed_ascii(text: Seq<char>)
    requires
        is_ascii_chars(text),
    ensures
        is_ascii_chars(trimmed(text)),
        trimmed(text.map_values(|c: char| ascii_lower(c))) == trimmed(text).map_values(
            |c: char| ascii_lower(c),
        ),
    decreases text.len(),
{
    let f = |c: char| ascii_lower(c);
    let lower = text.map_values(f);
    if text.len() > 0 {
        assert(white(ascii_lower(text[0])) == white(text[0]));
        assert(white(ascii_lower(text.last())) == white(text.last()));
        if white(text[0]) {
            assert(lower.skip(1) =~= text.skip(1).map_values(f));
            lemma_trimmed_ascii(text.skip(1));
        } else if white(text.last()) {
            assert(lower.drop_last() =~= text.drop_last().map_values(f));
            lemma_trimmed_ascii(text.drop_last());
        }
    } else {
        assert(lower =~= text);
        assert(trimmed(text).map_values(f) =~= text);
    }
}

/// The case of an invite code in plain ASCII does not matter.
pub proof fn law_case_of_invite_does_not_matter(text: Seq<char>)
    requires
        is_ascii_chars(text),
    ensures
        federation_in_code(lowered(text)) == federation_in_code(text),
{
    let f = |c: char| ascii_lower(c);
    lemma_trimmed_ascii(text);
    assert(lowered(text) == text.map_values(f));
    assert(trimmed(lowered(text)) == lowered(trimmed(text)));
    lemma_lowered_twice(trimmed(text));
}

/// The bundle keeps within the limits of its format, and if it is in the second format it cannot
/// be taken for one in the first.
pub open spec fn within_limits(bundle: Bundle) -> bool {
    match bundle.format {
        NoteFormat::V1 => {
            &&& bundle.tiers.dom().len() <= 1000
            &&& forall|d: u64| #[trigger]
                bundle.tiers.contains_key(d) ==> bundle.tiers[d].len() <= 100_000
            &&& v1_body_bytes(bundle.tiers).len() <= MAX_BODY
        },
        NoteFormat::V2 => {
            &&& note_count(ascending(bundle.tiers.dom()), bundle.tiers) < 100_000
            &&& v1_bundle(v2_bytes(bundle.prefix, bundle.tiers)) is Err
        },
    }
}

/// The bytes of a bundle are read as the bundle, and do not begin like Fedimint's own form.
proof fn lemma_bytes_round_trip(bundle: Bundle)
    requires
        sound(bundle),
        within_limits(bundle),
    ensures
        bundle_in_bytes(bundle_bytes(bundle)) == Ok::<Bundle, Seq<char>>(bundle),
        bundle_bytes(bundle).len() >= 2,
        bundle_bytes(bundle)[0] == 2 || bundle_bytes(bundle)[0] >= 0xfd || bundle_bytes(bundle)[1]
            == 0,
{
    let prefix = bundle.prefix;
    let tiers = bundle.tiers;
    let bytes = bundle_bytes(bundle);
    match bundle.format {
        NoteFormat::V1 => {
            law_v1_round_trip(prefix, tiers);
            lemma_varint_len(1);
            assert(bytes[0] == 2);
        },
        NoteFormat::V2 => {
            law_v2_round_trip(prefix, tiers);
            let n = (1 + note_count(ascending(tiers.dom()), tiers)) as u64;
            lemma_varint_len(n);
            lemma_varint_len(0);
            if n <= 0xfc {
                assert(varint_bytes(0) =~= seq![0u8]);
                assert(bytes[1] == 0);
            } else {
                assert(bytes[0] == varint_bytes(n)[0]);
            }
        },
    }
}

/// A bundle that keeps within the limits of its format is read again from base64 text of it, with
/// the url-safe or the standard alphabet, and padded or not.
pub proof fn law_text_round_trip(bundle: Bundle, url_safe: bool, padded: bool)
    requires
        sound(bundle),
        within_limits(bundle),
    ensures
        bundle_in_text(encoded(url_safe, padded, bundle_bytes(bundle))) == Ok::<Bundle, Seq<char>>(
            bundle,
        ),
        bundle_in_list(decodings(encoded(url_safe, padded, bundle_bytes(bundle)))) == Ok::<
            Bundle,
            Seq<char>,
        >(bundle),
{
    lemma_bytes_round_trip(bundle);
    lemma_bundle_text(url_safe, padded, bundle_bytes(bundle), bundle);
}

/// A bundle that keeps within the limits of its format is read again from Fedimint's own form of
/// it, in upper case, in lower case or in both.
pub proof fn law_fedimint_round_trip(bundle: Bundle, text: Seq<char>)
    requires
        sound(bundle),
        within_limits(bundle),
        is_ascii_chars(text),
        lowered(text) == "fedimint"@ + base32_encoded(bundle_bytes(bundle)),
    ensures
        bundle_in_text(text) == Ok::<Bundle, Seq<char>>(bundle),
{
    lemma_bytes_round_trip(bundle);
    lemma_fedimint_text(bundle_bytes(bundle), bundle, text);
}

/// A note that was split off is read again, unless its text could be taken for a bundle in the
/// first format where it is one in the second.
pub proof fn law_note_text_round_trip(prefix: Seq<u8>, format: NoteFormat, d: u64, note: Seq<u8>)
    requires
        prefix.len() == 4,
        proper_note(format, d, note),
        format == NoteFormat::V2 ==> v1_bundle(v2_bytes(prefix, single(d, note))) is Err,
    ensures
        bundle_in_text(note_text(prefix, format, d, note)) == Ok::<Bundle, Seq<char>>(
            Bundle { prefix, tiers: single(d, note), format },
        ),
        bundle_in_list(decodings(note_text(prefix, format, d, note))) == Ok::<Bundle, Seq<char>>(
            Bundle { prefix, tiers: single(d, note), format },
        ),
{
    let tiers = single(d, note);
    lemma_single_body(d, note);
    assert(proper_tiers(format, tiers)) by {
        assert forall|e: u64, i: int|
            tiers.contains_key(e) && 0 <= i < tiers[e].len() implies proper_note(
            format,
            e,
            #[trigger] tiers[e][i],
        ) by {
            assert(tiers[e][i] == note);
        }
    }
    let bundle = Bundle { prefix, tiers, format };
    assert(tiers.dom() =~= Set::empty().insert(d));
    match format {
        NoteFormat::V1 => {
            lemma_single_v1_len(prefix, d, note);
        },
        NoteFormat::V2 => {
            lemma_single_tiers(d, note);
        },
    }
    law_text_round_trip(bundle, true, true);
}

/// Splitting a bundle keeps what its notes are worth.
pub proof fn law_split_keeps_worth(bundle: Bundle)
    requires
        bundle.tiers.dom().finite(),
    ensures
        worth(sizes(split_texts(bundle))) == worth(sizes(bundle.tiers)),
{
    let a = sizes(split_texts(bundle));
    let b = sizes(bundle.tiers);
    assert(b.dom() =~= bundle.tiers.dom());
    assert(a.dom().subset_of(b.dom()));
    vstd::set_lib::lemma_len_subset(a.dom(), b.dom());
    assert forall|d: u64| #[trigger] a.contains_key(d) implies b.contains_key(d) && a[d]
        == b[d] by {
        assert(split_texts(bundle).contains_key(d));
    }
    assert forall|d: u64| #[trigger] b.contains_key(d) implies a.contains_key(d) || b[d] == 0 by {
        assert(bundle.tiers.contains_key(d));
        if bundle.tiers[d].len() > 0 {
            assert(split_texts(bundle).contains_key(d));
        }
    }
    lemma_worth_nonzero(a, b);
}

/// The text has no white space in it and reads as `note` alone, a note of `d` msats of the
/// federation with the prefix.
#[verifier::opaque]
pub open spec fn reads_as(
    text: Seq<char>,
    prefix: Seq<u8>,
    format: NoteFormat,
    d: u64,
    note: Seq<u8>,
) -> bool {
    &&& squeezed(text) == text
    &&& bundle_in_list(decodings(text)) matches Ok(bundle)
    &&& bundle.prefix == prefix
    &&& bundle.format == format
    &&& stocked(bundle.tiers) == single(d, note)
}

/// The text reads as a single note of `d` msats of the federation with the prefix.
pub open spec fn genuine(text: Seq<char>, prefix: Seq<u8>, format: NoteFormat, d: u64) -> bool {
    exists|note: Seq<u8>| #[trigger] reads_as(text, prefix, format, d, note)
}

/// Every listed text reads as a single note of the federation, in the format, that is worth what
/// it is listed under.
pub open spec fn genuine_notes(
    notes: Map<u64, Seq<Seq<char>>>,
    prefix: Seq<u8>,
    format: NoteFormat,
) -> bool {
    forall|d: u64, i: int|
        notes.contains_key(d) && 0 <= i < notes[d].len() ==> genuine(
            #[trigger] notes[d][i],
            prefix,
            format,
            d,
        )
}

/// No note of the bundle could be taken for a bundle in the first format where it is one in the
/// second.
pub open spec fn distinct_notes(bundle: Bundle) -> bool {
    bundle.format == NoteFormat::V2 ==> forall|d: u64, i: int|
        bundle.tiers.contains_key(d) && 0 <= i < bundle.tiers[d].len() ==> v1_bundle(
            v2_bytes(bundle.prefix, single(d, #[trigger] bundle.tiers[d][i])),
        ) is Err
}

/// What a bundle is split into is genuine.
pub proof fn law_split_is_genuine(bundle: Bundle)
    requires
        bundle.prefix.len() == 4,
        proper_tiers(bundle.format, bundle.tiers),
        distinct_notes(bundle),
    ensures
        genuine_notes(split_texts(bundle), bundle.prefix, bundle.format),
{
    let split = split_texts(bundle);
    assert forall|d: u64, i: int|
        split.contains_key(d) && 0 <= i < split[d].len() implies genuine(
        #[trigger] split[d][i],
        bundle.prefix,
        bundle.format,
        d,
    ) by {
        reveal(reads_as);
        let note = bundle.tiers[d][i];
        assert(proper_note(bundle.format, d, note));
        assert(split[d][i] == note_text(bundle.prefix, bundle.format, d, note));
        law_note_text_round_trip(bundle.prefix, bundle.format, d, note);
        assert(stocked(single(d, note)) =~= single(d, note));
        lemma_encoded_squeezed(true, true, v1_bytes(bundle.prefix, single(d, note)));
        lemma_encoded_squeezed(true, true, v2_bytes(bundle.prefix, single(d, note)));
        assert(reads_as(split[d][i], bundle.prefix, bundle.format, d, note));
    }
}

/// Depositing genuine notes keeps a wallet genuine.
pub proof fn law_deposit_keeps_genuine(
    notes: Map<u64, Seq<Seq<char>>>,
    given: Map<u64, Seq<Seq<char>>>,
    prefix: Seq<u8>,
    format: NoteFormat,
)
    requires
        genuine_notes(notes, prefix, format),
        genuine_notes(given, prefix, format),
    ensures
        genuine_notes(merged(notes, given), prefix, format),
{
    let all = merged(notes, given);
    assert forall|d: u64, i: int|
        all.contains_key(d) && 0 <= i < all[d].len() implies genuine(
        #[trigger] all[d][i],
        prefix,
        format,
        d,
    ) by {
        let n = listed(notes, d).len();
        if i < n {
            assert(all[d][i] == notes[d][i]);
        } else {
            assert(all[d][i] == given[d][i - n]);
        }
    }
}

/// Taking notes out keeps a wallet genuine.
pub proof fn law_withdrawal_keeps_genuine(
    notes: Map<u64, Seq<Seq<char>>>,
    plan: Map<u64, nat>,
    prefix: Seq<u8>,
    format: NoteFormat,
)
    requires
        genuine_notes(notes, prefix, format),
        forall|d: u64| #[trigger]
            plan.contains_key(d) ==> notes.contains_key(d) && plan[d] <= notes[d].len(),
    ensures
        genuine_notes(without(notes, plan), prefix, format),
{
    let left = without(notes, plan);
    assert forall|d: u64, i: int|
        left.contains_key(d) && 0 <= i < left[d].len() implies genuine(
        #[trigger] left[d][i],
        prefix,
        format,
        d,
    ) by {
        assert(left[d][i] == notes[d][i]);
    }
}

/// All the texts of the denominations `ds`.
pub open spec fn all_texts(ds: Seq<u64>, split: Map<u64, Seq<Seq<char>>>) -> Seq<Seq<char>>
    decreases ds.len(),
{
    if ds.len() == 0 {
        Seq::empty()
    } else {
        split[ds[0]] + all_texts(ds.skip(1), split)
    }
}

/// The text of the note reads as that note.
#[verifier::opaque]
spec fn readable(prefix: Seq<u8>, format: NoteFormat, d: u64, note: Seq<u8>) -> bool {
    bundle_in_list(decodings(note_text(prefix, format, d, note))) == Ok::<Bundle, Seq<char>>(
        Bundle { prefix, tiers: single(d, note), format },
    )
}

/// Gathering a single note adds it under its denomination.
proof fn lemma_gather_one(
    prefix: Seq<u8>,
    format: NoteFormat,
    d: u64,
    note: Seq<u8>,
    rest: Seq<Seq<char>>,
    first: Option<(Seq<u8>, NoteFormat)>,
    tiers: Map<u64, Seq<Seq<u8>>>,
)
    requires
        readable(prefix, format, d, note),
        first is None || first == Some((prefix, format)),
    ensures
        gathered_from(seq![note_text(prefix, format, d, note)] + rest, first, tiers)
            == gathered_from(rest, Some((prefix, format)), with_notes(tiers, d, seq![note])),
{
    reveal(readable);
    let texts = seq![note_text(prefix, format, d, note)] + rest;
    assert(texts.skip(1) =~= rest);
    assert(texts[0] == note_text(prefix, format, d, note));
    let one = single(d, note);
    assert(stocked(one) =~= one);
    let all = merged(tiers, one);
    let want = with_notes(tiers, d, seq![note]);
    assert(all =~= want) by {
        assert forall|e: u64| #[trigger] want.contains_key(e) implies all[e] == want[e] by {
            if e != d {
                assert(listed(tiers, e) + Seq::<Seq<u8>>::empty() =~= tiers[e]);
            }
        }
    }
}

/// Adding a list is adding its first note and then the others.
proof fn lemma_with_more(tiers: Map<u64, Seq<Seq<u8>>>, d: u64, list: Seq<Seq<u8>>)
    requires
        list.len() > 0,
    ensures
        with_notes(with_notes(tiers, d, seq![list[0]]), d, list.skip(1)) == with_notes(
            tiers,
            d,
            list,
        ),
{
    let next = with_notes(tiers, d, seq![list[0]]);
    assert(listed(tiers, d) + list =~= listed(tiers, d) + seq![list[0]] + list.skip(1));
    assert(with_notes(next, d, list.skip(1)) =~= with_notes(tiers, d, list));
}

/// The texts of the notes of a list, and then the rest.
spec fn list_texts(
    prefix: Seq<u8>,
    format: NoteFormat,
    d: u64,
    list: Seq<Seq<u8>>,
    rest: Seq<Seq<char>>,
) -> Seq<Seq<char>> {
    list.map_values(|note: Seq<u8>| note_text(prefix, format, d, note)) + rest
}

proof fn lemma_list_texts(
    prefix: Seq<u8>,
    format: NoteFormat,
    d: u64,
    list: Seq<Seq<u8>>,
    rest: Seq<Seq<char>>,
)
    requires
        list.len() > 0,
    ensures
        list_texts(prefix, format, d, list, rest) == seq![note_text(prefix, format, d, list[0])]
            + list_texts(prefix, format, d, list.skip(1), rest),
        list.len() == 1 ==> list_texts(prefix, format, d, list.skip(1), rest) == rest,
{
    let later = list_texts(prefix, format, d, list.skip(1), rest);
    assert(list_texts(prefix, format, d, list, rest) =~= seq![
        note_text(prefix, format, d, list[0]),
    ] + later);
    if list.len() == 1 {
        assert(later =~= rest);
    }
}

proof fn lemma_gather_list(
    prefix: Seq<u8>,
    format: NoteFormat,
    d: u64,
    list: Seq<Seq<u8>>,
    rest: Seq<Seq<char>>,
    first: Option<(Seq<u8>, NoteFormat)>,
    tiers: Map<u64, Seq<Seq<u8>>>,
)
    requires
        list.len() > 0,
        forall|i: int| 0 <= i < list.len() ==> readable(prefix, format, d, #[trigger] list[i]),
        first is None || first == Some((prefix, format)),
    ensures
        gathered_from(list_texts(prefix, format, d, list, rest), first, tiers) == gathered_from(
            rest,
            Some((prefix, format)),
            with_notes(tiers, d, list),
        ),
    decreases list.len(),
{
    let note = list[0];
    let tail = list.skip(1);
    let later = list_texts(prefix, format, d, tail, rest);
    lemma_list_texts(prefix, format, d, list, rest);
    lemma_gather_one(prefix, format, d, note, later, first, tiers);
    lemma_with_more(tiers, d, list);
    if tail.len() == 0 {
        assert(list =~= seq![note]);
    } else {
        assert forall|i: int| 0 <= i < tail.len() implies readable(
            prefix,
            format,
            d,
            #[trigger] tail[i],
        ) by {
            assert(readable(prefix, format, d, list[i + 1]));
        }
        let next = with_notes(tiers, d, seq![note]);
        lemma_gather_list(prefix, format, d, tail, rest, Some((prefix, format)), next);
    }
}

proof fn lemma_gather_tiers(
    bundle: Bundle,
    ds: Seq<u64>,
    first: Option<(Seq<u8>, NoteFormat)>,
    i: int,
)
    requires
        strictly_ascending(ds),
        ds.to_set() == stocked(bundle.tiers).dom(),
        forall|d: u64, k: int|
            bundle.tiers.contains_key(d) && 0 <= k < bundle.tiers[d].len() ==> readable(
                bundle.prefix,
                bundle.format,
                d,
                #[trigger] bundle.tiers[d][k],
            ),
        first is None || first == Some((bundle.prefix, bundle.format)),
        0 <= i <= ds.len(),
        i == ds.len() ==> first is Some,
    ensures
        gathered_from(
            all_texts(ds.skip(i), split_texts(bundle)),
            first,
            stocked(bundle.tiers).restrict(ds.take(i).to_set()),
        ) == Ok::<_, Seq<char>>((Some((bundle.prefix, bundle.format)), stocked(bundle.tiers))),
    decreases ds.len() - i,
{
    let tiers = stocked(bundle.tiers);
    let now = tiers.restrict(ds.take(i).to_set());
    if i == ds.len() {
        assert(ds.take(i) =~= ds);
        assert(now =~= tiers);
    } else {
        let d = ds[i];
        assert(ds.to_set().contains(d));
        let list = bundle.tiers[d];
        let rest = all_texts(ds.skip(i + 1), split_texts(bundle));
        assert(ds.skip(i).skip(1) =~= ds.skip(i + 1));
        assert(ds.skip(i)[0] == d);
        assert forall|k: int| 0 <= k < list.len() implies readable(
            bundle.prefix,
            bundle.format,
            d,
            #[trigger] list[k],
        ) by {
            assert(readable(bundle.prefix, bundle.format, d, bundle.tiers[d][k]));
        }
        assert(split_texts(bundle).contains_key(d));
        lemma_gather_list(bundle.prefix, bundle.format, d, list, rest, first, now);
        let next = tiers.restrict(ds.take(i + 1).to_set());
        assert(!ds.take(i).contains(d)) by {
            assert forall|k: int| 0 <= k < i implies #[trigger] ds[k] != d by {
                assert(ds[k] < ds[i]);
            }
        }
        assert(with_notes(now, d, list) =~= next) by {
            assert forall|e: u64| ds.take(i + 1).to_set().contains(e) == (ds.take(
                i,
            ).to_set().contains(e) || e == d) by {
                lemma_take_contains(ds, i, e);
            }
            assert(!now.contains_key(d));
            assert(Seq::<Seq<u8>>::empty() + list =~= list);
        }
        lemma_gather_tiers(bundle, ds, Some((bundle.prefix, bundle.format)), i + 1);
    }
}

/// The notes that a bundle was split into make up the bundle again.
pub proof fn law_split_notes_combine(bundle: Bundle)
    requires
        bundle.prefix.len() == 4,
        bundle.tiers.dom().finite(),
        stocked(bundle.tiers).dom().len() > 0,
        proper_tiers(bundle.format, bundle.tiers),
        distinct_notes(bundle),
    ensures
        gathered(
            all_texts(ascending(split_texts(bundle).dom()), split_texts(bundle)),
        ) == Ok::<Bundle, Seq<char>>(
            Bundle {
                prefix: bundle.prefix,
                tiers: stocked(bundle.tiers),
                format: bundle.format,
            },
        ),
{
    let tiers = stocked(bundle.tiers);
    let split = split_texts(bundle);
    assert(split.dom() =~= tiers.dom());
    assert(tiers.dom().subset_of(bundle.tiers.dom()));
    vstd::set_lib::lemma_len_subset(tiers.dom(), bundle.tiers.dom());
    let ds = ascending(tiers.dom());
    lemma_ascending_exists(tiers.dom());
    assert forall|d: u64, k: int|
        bundle.tiers.contains_key(d) && 0 <= k < bundle.tiers[d].len() implies readable(
        bundle.prefix,
        bundle.format,
        d,
        #[trigger] bundle.tiers[d][k],
    ) by {
        reveal(readable);
        assert(proper_note(bundle.format, d, bundle.tiers[d][k]));
        law_note_text_round_trip(bundle.prefix, bundle.format, d, bundle.tiers[d][k]);
    }
    lemma_gather_tiers(bundle, ds, None, 0);
    assert(ds.skip(0) =~= ds);
    assert(tiers.restrict(ds.take(0).to_set()) =~= Map::empty());
    assert(all_texts(ds, split).len() > 0) by {
        assert(ds.to_set().contains(ds[0]));
        assert(split[ds[0]].len() > 0);
    }
}

/// How often `d` is among the amounts.
pub open spec fn count(amounts: Seq<u64>, d: u64) -> nat
    decreases amounts.len(),
{
    if amounts.len() == 0 {
        0
    } else {
        count(amounts.skip(1), d) + (if amounts[0] == d {
            1nat
        } else {
            0
        })
    }
}

proof fn lemma_count_add(a: Seq<u64>, b: Seq<u64>, d: u64)
    ensures
        count(a + b, d) == count(a, d) + count(b, d),
    decreases a.len(),
{
    if a.len() == 0 {
        assert(a + b =~= b);
    } else {
        assert((a + b).skip(1) =~= a.skip(1) + b);
        lemma_count_add(a.skip(1), b, d);
    }
}

proof fn lemma_count_same(e: u64, n: nat, d: u64)
    ensures
        count(Seq::new(n, |i: int| e), d) == (if d == e {
            n
        } else {
            0
        }),
    decreases n,
{
    let s = Seq::new(n, |i: int| e);
    if n > 0 {
        let m = (n - 1) as nat;
        assert(s.skip(1) =~= Seq::new(m, |i: int| e));
        lemma_count_same(e, m, d);
    }
}

/// Gathering one more note adds it under its denomination.
proof fn lemma_gather_step(
    texts: Seq<Seq<char>>,
    prefix: Seq<u8>,
    format: NoteFormat,
    d: u64,
    note: Seq<u8>,
    first: Option<(Seq<u8>, NoteFormat)>,
    tiers: Map<u64, Seq<Seq<u8>>>,
)
    requires
        texts.len() > 0,
        reads_as(texts[0], prefix, format, d, note),
        first is None || first == Some((prefix, format)),
    ensures
        gathered_from(texts, first, tiers) == gathered_from(
            texts.skip(1),
            Some((prefix, format)),
            with_notes(tiers, d, seq![note]),
        ),
        proper_note(format, d, note),
{
    reveal(reads_as);
    law_listed_bundle_is_sound(decodings(texts[0]));
    let bundle = bundle_in_list(decodings(texts[0]))->Ok_0;
    let one = single(d, note);
    assert(proper_note(format, d, note)) by {
        assert(stocked(bundle.tiers).contains_key(d));
        assert(stocked(bundle.tiers)[d] == seq![note]);
        assert(bundle.tiers[d][0] == note);
    }
    let all = merged(tiers, one);
    let want = with_notes(tiers, d, seq![note]);
    assert(all =~= want) by {
        assert forall|e: u64| #[trigger] want.contains_key(e) implies all[e] == want[e] by {
            if e != d {
                assert(listed(tiers, e) + Seq::<Seq<u8>>::empty() =~= tiers[e]);
            }
        }
    }
}

/// One more proper note keeps the notes proper and the lists stocked.
proof fn lemma_one_more(
    format: NoteFormat,
    tiers: Map<u64, Seq<Seq<u8>>>,
    d: u64,
    note: Seq<u8>,
)
    requires
        tiers.dom().finite(),
        proper_tiers(format, tiers),
        proper_note(format, d, note),
        forall|e: u64| #[trigger] tiers.contains_key(e) ==> tiers[e].len() > 0,
    ensures
        ({
            let all = with_notes(tiers, d, seq![note]);
            &&& all.dom().finite()
            &&& proper_tiers(format, all)
            &&& forall|e: u64| #[trigger] all.contains_key(e) ==> all[e].len() > 0
            &&& forall|e: u64| #[trigger]
                listed(all, e).len() == listed(tiers, e).len() + (if e == d {
                    1nat
                } else {
                    0
                })
        }),
{
    let all = with_notes(tiers, d, seq![note]);
    assert(all.dom() =~= tiers.dom().insert(d));
    assert forall|e: u64, i: int| all.contains_key(e) && 0 <= i < all[e].len() implies proper_note(
        format,
        e,
        #[trigger] all[e][i],
    ) by {
        if e != d || i < listed(tiers, d).len() {
            assert(all[e][i] == tiers[e][i]);
        } else {
            assert(all[e][i] == note);
        }
    }
}

/// Gathering genuine notes adds each of them under its denomination.
proof fn lemma_gather_genuine(
    texts: Seq<Seq<char>>,
    amounts: Seq<u64>,
    prefix: Seq<u8>,
    format: NoteFormat,
    first: Option<(Seq<u8>, NoteFormat)>,
    tiers: Map<u64, Seq<Seq<u8>>>,
)
    requires
        texts.len() == amounts.len(),
        forall|i: int|
            0 <= i < texts.len() ==> genuine(#[trigger] texts[i], prefix, format, amounts[i]),
        first is None || first == Some((prefix, format)),
        texts.len() > 0 || first is Some,
        tiers.dom().finite(),
        proper_tiers(format, tiers),
        forall|d: u64| #[trigger] tiers.contains_key(d) ==> tiers[d].len() > 0,
    ensures
        gathered_from(texts, first, tiers) matches Ok((f, all)) && {
            &&& f == Some((prefix, format))
            &&& all.dom().finite()
            &&& proper_tiers(format, all)
            &&& forall|d: u64| #[trigger] all.contains_key(d) ==> all[d].len() > 0
            &&& forall|d: u64| #[trigger]
                listed(all, d).len() == listed(tiers, d).len() + count(amounts, d)
        },
    decreases texts.len(),
{
    if texts.len() > 0 {
        let d = amounts[0];
        assert(genuine(texts[0], prefix, format, d));
        let note = choose|note: Seq<u8>| #[trigger] reads_as(texts[0], prefix, format, d, note);
        lemma_gather_step(texts, prefix, format, d, note, first, tiers);
        lemma_one_more(format, tiers, d, note);
        let next = with_notes(tiers, d, seq![note]);
        assert forall|i: int| 0 <= i < texts.skip(1).len() implies genuine(
            #[trigger] texts.skip(1)[i],
            prefix,
            format,
            amounts.skip(1)[i],
        ) by {
            assert(genuine(texts[i + 1], prefix, format, amounts[i + 1]));
        }
        lemma_gather_genuine(
            texts.skip(1),
            amounts.skip(1),
            prefix,
            format,
            Some((prefix, format)),
            next,
        );
        let all = gathered_from(texts, first, tiers)->Ok_0.1;
        assert forall|e: u64| #[trigger] listed(all, e).len() == listed(tiers, e).len() + count(
            amounts,
            e,
        ) by {
            assert(listed(all, e).len() == listed(next, e).len() + count(amounts.skip(1), e));
            assert(listed(next, e).len() == listed(tiers, e).len() + (if e == d {
                1nat
            } else {
                0
            }));
        }
    }
}

/// Single notes of one federation and one format, whatever bundles they come from, can be put
/// together. All of them, and no others, are in the bundle, and unless there are too many for the
/// format the text of it reads as the bundle.
pub proof fn law_combined_notes_read_back(
    texts: Seq<Seq<char>>,
    amounts: Seq<u64>,
    prefix: Seq<u8>,
    format: NoteFormat,
)
    requires
        prefix.len() == 4,
        texts.len() == amounts.len(),
        texts.len() > 0,
        forall|i: int|
            0 <= i < texts.len() ==> genuine(#[trigger] texts[i], prefix, format, amounts[i]),
    ensures
        gathered(texts) matches Ok(bundle) && {
            &&& bundle.prefix == prefix
            &&& bundle.format == format
            &&& bundle.tiers.dom().finite()
            &&& forall|d: u64| #[trigger] bundle.tiers.contains_key(d) <==> count(amounts, d) > 0
            &&& forall|d: u64| #[trigger]
                bundle.tiers.contains_key(d) ==> bundle.tiers[d].len() == count(amounts, d)
            &&& within_limits(bundle) ==> bundle_in_text(
                encoded(true, true, bundle_bytes(bundle)),
            ) == Ok::<Bundle, Seq<char>>(bundle)
        },
{
    let none = Map::<u64, Seq<Seq<u8>>>::empty();
    lemma_gather_genuine(texts, amounts, prefix, format, None, none);
    let bundle = gathered(texts)->Ok_0;
    assert forall|d: u64| #[trigger] bundle.tiers.contains_key(d) <==> count(amounts, d) > 0 by {
        assert(listed(bundle.tiers, d).len() == listed(none, d).len() + count(amounts, d));
    }
    assert forall|d: u64| #[trigger] bundle.tiers.contains_key(d) implies bundle.tiers[d].len()
        == count(amounts, d) by {
        assert(listed(bundle.tiers, d).len() == listed(none, d).len() + count(amounts, d));
    }
    assert(bundle.tiers.contains_key(amounts[0]));
    assert(bundle.tiers.dom().contains(amounts[0]));
    if within_limits(bundle) {
        law_text_round_trip(bundle, true, true);
    }
}

/// The denomination of each note that a plan takes.
spec fn drawn_amounts(plan: Map<u64, nat>, ds: Seq<u64>) -> Seq<u64>
    decreases ds.len(),
{
    if ds.len() == 0 {
        Seq::empty()
    } else {
        drawn_amounts(plan, ds.drop_last()) + Seq::new(plan[ds.last()], |i: int| ds.last())
    }
}

proof fn lemma_drawn_genuine(
    notes: Map<u64, Seq<Seq<char>>>,
    plan: Map<u64, nat>,
    ds: Seq<u64>,
    prefix: Seq<u8>,
    format: NoteFormat,
)
    requires
        genuine_notes(notes, prefix, format),
        forall|i: int|
            0 <= i < ds.len() ==> notes.contains_key(#[trigger] ds[i]) && plan[ds[i]]
                <= notes[ds[i]].len(),
    ensures
        drawn(notes, plan, ds).len() == drawn_amounts(plan, ds).len(),
        forall|i: int|
            0 <= i < drawn(notes, plan, ds).len() ==> genuine(
                #[trigger] drawn(notes, plan, ds)[i],
                prefix,
                format,
                drawn_amounts(plan, ds)[i],
            ),
    decreases ds.len(),
{
    if ds.len() > 0 {
        let d = ds.last();
        let k = ds.len() - 1;
        assert(ds[k] == d);
        assert(notes.contains_key(d) && plan[d] <= notes[d].len());
        let before = drawn(notes, plan, ds.drop_last());
        let now = popped(notes[d], plan[d]);
        assert forall|i: int| 0 <= i < ds.drop_last().len() implies notes.contains_key(
            #[trigger] ds.drop_last()[i],
        ) && plan[ds.drop_last()[i]] <= notes[ds.drop_last()[i]].len() by {
            assert(ds.drop_last()[i] == ds[i]);
        }
        lemma_drawn_genuine(notes, plan, ds.drop_last(), prefix, format);
        let all = drawn(notes, plan, ds);
        let amounts = drawn_amounts(plan, ds);
        assert(now.len() == plan[d]);
        assert forall|i: int| 0 <= i < all.len() implies genuine(
            #[trigger] all[i],
            prefix,
            format,
            amounts[i],
        ) by {
            if i < before.len() {
                assert(all[i] == before[i]);
                assert(amounts[i] == drawn_amounts(plan, ds.drop_last())[i]);
            } else {
                let j = i - before.len();
                let from = notes[d].len() - plan[d];
                assert(all[i] == now[j]);
                assert(now[j] == notes[d][from + plan[d] - 1 - j]);
                assert(amounts[i] == d);
            }
        }
    }
}

proof fn lemma_drawn_count(plan: Map<u64, nat>, ds: Seq<u64>, d: u64)
    requires
        strictly_ascending(ds),
    ensures
        count(drawn_amounts(plan, ds), d) == (if ds.contains(d) {
            plan[d]
        } else {
            0
        }),
    decreases ds.len(),
{
    if ds.len() > 0 {
        let e = ds.last();
        let front = ds.drop_last();
        lemma_drawn_count(plan, front, d);
        lemma_count_add(drawn_amounts(plan, front), Seq::new(plan[e], |i: int| e), d);
        lemma_count_same(e, plan[e], d);
        if front.contains(d) {
            let k = choose|k: int| 0 <= k < front.len() && front[k] == d;
            assert(ds[k] == d);
            assert(ds[k] < ds[ds.len() - 1]);
        }
        if ds.contains(d) && d != e {
            let k = choose|k: int| 0 <= k < ds.len() && ds[k] == d;
            assert(front[k] == d);
        }
        if d == e {
            assert(ds[ds.len() - 1] == d);
        }
    }
}

/// The notes that a plan takes out of a genuine wallet can be put together. As many of each
/// denomination as were planned are in the bundle, and unless there are too many for the format
/// the text of it reads as the bundle.
pub proof fn law_drawn_notes_read_back(
    notes: Map<u64, Seq<Seq<char>>>,
    plan: Map<u64, nat>,
    prefix: Seq<u8>,
    format: NoteFormat,
)
    requires
        prefix.len() == 4,
        genuine_notes(notes, prefix, format),
        plan.dom().finite(),
        plan.dom().len() > 0,
        forall|d: u64| #[trigger]
            plan.contains_key(d) ==> notes.contains_key(d) && 0 < plan[d] <= notes[d].len(),
    ensures
        gathered(drawn(notes, plan, ascending(plan.dom()))) matches Ok(bundle) && {
            &&& bundle.prefix == prefix
            &&& bundle.format == format
            &&& sizes(bundle.tiers) == plan
            &&& worth(sizes(bundle.tiers)) == worth(plan)
            &&& within_limits(bundle) ==> bundle_in_text(
                encoded(true, true, bundle_bytes(bundle)),
            ) == Ok::<Bundle, Seq<char>>(bundle)
        },
{
    let ds = ascending(plan.dom());
    lemma_ascending_exists(plan.dom());
    assert forall|i: int| 0 <= i < ds.len() implies notes.contains_key(#[trigger] ds[i])
        && plan[ds[i]] <= notes[ds[i]].len() by {
        assert(ds.to_set().contains(ds[i]));
        assert(plan.contains_key(ds[i]));
    }
    lemma_drawn_genuine(notes, plan, ds, prefix, format);
    let texts = drawn(notes, plan, ds);
    let amounts = drawn_amounts(plan, ds);
    let d = ds.last();
    assert(ds.to_set().contains(d)) by {
        assert(ds[ds.len() - 1] == d);
    }
    assert(plan.contains_key(d));
    assert(texts.len() > 0);
    law_combined_notes_read_back(texts, amounts, prefix, format);
    let bundle = gathered(texts)->Ok_0;
    assert(sizes(bundle.tiers) =~= plan) by {
        assert forall|e: u64| bundle.tiers.contains_key(e) == #[trigger] plan.contains_key(e) && (
        plan.contains_key(e) ==> bundle.tiers[e].len() == plan[e]) by {
            lemma_drawn_count(plan, ds, e);
            assert(ds.to_set().contains(e) == plan.contains_key(e));
            assert(bundle.tiers.contains_key(e) <==> count(amounts, e) > 0);
        }
    }
}

} // verus!
