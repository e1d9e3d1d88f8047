//! What a text is read as, and what notes that are put together become.

use crate::base32::base32_decoded;
use crate::base64_text::{decoded, encoded};
use crate::ecash::{
    bech32_decoded, bundle_bytes, bundle_in_bytes, bundle_in_list, bundle_in_text, decodings,
    federation_in_code, fedimint_bytes, fedimint_decoded, gathered, gathered_from, note_text,
    parse_failed, stocked, with_decoding, writable,
};
use crate::ecash_fields::{
    filled_id, note_count, v2_bundle, v2_bytes, v2_list_bytes, v2_tiers_bytes,
};
use crate::invite::federation_in_invite;
use crate::notes::{joined, Bundle, NoteFormat};
use crate::oob_notes::{
    cut_notes, lemma_cut_joined, single, v1_body_bytes, v1_bundle, v1_bytes, v1_tier_bytes,
    v1_tiers_bytes,
};
use crate::parts::{has_rows, is_table, written};
use crate::text::{
    ascii_lower, begins_with, decimal, digit, head, hex_digits, hex_items, hex_list, lowered,
    plain, squeezed, trimmed, white, width,
};
use crate::tiers::{
    ascending, lemma_ascending_exists, lemma_ascending_is, listed, merged, sizes,
    strictly_ascending, total,
};
use crate::varint::{law_varint_round_trip, varint_bytes};
use vstd::prelude::*;
use vstd::utf8::{encode_utf8, is_ascii_chars, is_ascii_chars_encode_utf8};

verus! {

/// Bytes are a bundle if they are one in either format, and the first format goes first.
pub proof fn law_either_format(bytes: Seq<u8>)
    ensures
        bundle_in_bytes(bytes) is Ok <==> v1_bundle(bytes) is Ok || v2_bundle(bytes) is Ok,
        v1_bundle(bytes) matches Ok(bundle) ==> bundle_in_bytes(bytes) == Ok::<Bundle, Seq<char>>(
            bundle,
        ),
        v1_bundle(bytes) is Err ==> (v2_bundle(bytes) matches Ok(bundle) ==> bundle_in_bytes(bytes)
            == Ok::<Bundle, Seq<char>>(bundle)),
{
}

/// What a text without white space may stand for: Fedimint's own form first, then base64 with the
/// url-safe alphabet, padded and not, then with the standard one, padded and not.
pub open spec fn candidates(text: Seq<char>) -> Seq<Option<Seq<u8>>> {
    seq![
        fedimint_bytes(text),
        decoded(true, true, text),
        decoded(true, false, text),
        decoded(false, true, text),
        decoded(false, false, text),
    ]
}

/// There are no such bytes, or they are no bundle.
pub open spec fn no_bundle(bytes: Option<Seq<u8>>) -> bool {
    bytes matches Some(bytes) ==> bundle_in_bytes(bytes) is Err
}

proof fn lemma_list_push(list: Seq<Seq<u8>>, bytes: Seq<u8>)
    ensures
        bundle_in_list(list) matches Ok(bundle) ==> bundle_in_list(list.push(bytes)) == Ok::<
            Bundle,
            Seq<char>,
        >(bundle),
        bundle_in_list(list) is Err ==> (bundle_in_list(list.push(bytes)) is Ok
            <==> bundle_in_bytes(bytes) is Ok),
        bundle_in_list(list) is Err ==> (bundle_in_bytes(bytes) matches Ok(bundle)
            ==> bundle_in_list(list.push(bytes)) == Ok::<Bundle, Seq<char>>(bundle)),
        bundle_in_list(list) is Err && list.contains(bytes) ==> bundle_in_bytes(bytes) is Err,
    decreases list.len(),
{
    let all = list.push(bytes);
    if list.len() > 0 {
        assert(all[0] == list[0]);
        assert(all.skip(1) =~= list.skip(1).push(bytes));
        lemma_list_push(list.skip(1), bytes);
        if list.contains(bytes) {
            let i = choose|i: int| 0 <= i < list.len() && list[i] == bytes;
            if i > 0 {
                assert(list.skip(1)[i - 1] == bytes);
                assert(list.skip(1).contains(bytes));
            }
        }
    } else {
        assert(all[0] == bytes);
    }
}

proof fn lemma_with_candidate(list: Seq<Seq<u8>>, bytes: Option<Seq<u8>>)
    ensures
        ({
            let all = with_decoding(list, bytes);
            &&& bundle_in_list(list) matches Ok(bundle) ==> bundle_in_list(all) == Ok::<
                Bundle,
                Seq<char>,
            >(bundle)
            &&& bundle_in_list(list) is Err && no_bundle(bytes) ==> bundle_in_list(all) is Err
            &&& bundle_in_list(list) is Err ==> (bytes matches Some(bytes) ==> (bundle_in_bytes(
                bytes,
            ) matches Ok(bundle) ==> bundle_in_list(all) == Ok::<Bundle, Seq<char>>(bundle)))
        }),
{
    if let Some(b) = bytes {
        lemma_list_push(list, b);
    }
}

proof fn lemma_candidates(text: Seq<char>, k: int)
    requires
        0 <= k <= 5,
        forall|j: int| 0 <= j < k ==> no_bundle(#[trigger] candidates(text)[j]),
        k < 5 ==> (candidates(text)[k] matches Some(bytes) && bundle_in_bytes(bytes) is Ok),
    ensures
        k < 5 ==> bundle_in_list(decodings(text)) == bundle_in_bytes(candidates(text)[k]->Some_0),
        k == 5 ==> bundle_in_list(decodings(text)) is Err,
{
    let c = candidates(text);
    assert(k > 0 ==> no_bundle(c[0]));
    assert(k > 1 ==> no_bundle(c[1]));
    assert(k > 2 ==> no_bundle(c[2]));
    assert(k > 3 ==> no_bundle(c[3]));
    assert(k > 4 ==> no_bundle(c[4]));
    let none = Seq::<Seq<u8>>::empty();
    let l0 = with_decoding(none, c[0]);
    let l1 = with_decoding(l0, c[1]);
    let l2 = with_decoding(l1, c[2]);
    let l3 = with_decoding(l2, c[3]);
    lemma_with_candidate(none, c[0]);
    lemma_with_candidate(l0, c[1]);
    lemma_with_candidate(l1, c[2]);
    lemma_with_candidate(l2, c[3]);
    lemma_with_candidate(l3, c[4]);
    assert(decodings(text) == with_decoding(l3, c[4]));
}

/// A text is read as the first bundle that it may stand for, white space left out.
pub proof fn law_first_bundle_is_read(text: Seq<char>, k: int, bytes: Seq<u8>, bundle: Bundle)
    requires
        0 <= k < 5,
        candidates(squeezed(text))[k] == Some(bytes),
        bundle_in_bytes(bytes) == Ok::<Bundle, Seq<char>>(bundle),
        forall|j: int| 0 <= j < k ==> no_bundle(#[trigger] candidates(squeezed(text))[j]),
    ensures
        bundle_in_text(text) == Ok::<Bundle, Seq<char>>(bundle),
        bundle_in_list(decodings(squeezed(text))) == Ok::<Bundle, Seq<char>>(bundle),
{
    lemma_candidates(squeezed(text), k);
}

/// A text that may stand for no bundle is not read.
pub proof fn law_no_bundle_is_read(text: Seq<char>)
    requires
        forall|j: int| 0 <= j < 5 ==> no_bundle(#[trigger] candidates(squeezed(text))[j]),
    ensures
        bundle_in_text(text) is Err,
        bundle_in_list(decodings(squeezed(text))) is Err,
{
    lemma_candidates(squeezed(text), 5);
}

/// White space may stand anywhere in a text.
pub proof fn law_white_space_is_left_out(a: Seq<char>, w: char, b: Seq<char>)
    requires
        w == ' ' || w == '\t' || w == '\n' || w == '\r',
    ensures
        bundle_in_text(a + seq![w] + b) == bundle_in_text(a + b),
        squeezed(a + seq![w] + b) == squeezed(a + b),
{
    let p = |c: char| !white(c);
    let one = seq![w];
    assert(one.filter(p) =~= Seq::empty()) by {
        reveal_with_fuel(Seq::filter, 2);
        assert(one.drop_last() =~= Seq::empty());
    }
    Seq::filter_distributes_over_add(a + one, b, p);
    Seq::filter_distributes_over_add(a, one, p);
    Seq::filter_distributes_over_add(a, b, p);
    assert(a.filter(p) + Seq::empty() =~= a.filter(p));
}

/// Nothing else is left out of a text: printable characters stay as they are.
pub proof fn law_printable_text_is_kept(text: Seq<char>)
    requires
        forall|i: int| 0 <= i < text.len() ==> '!' <= #[trigger] text[i] <= '~',
    ensures
        squeezed(text) == text,
        trimmed(text) == text,
    decreases text.len(),
{
    let p = |c: char| !white(c);
    reveal(Seq::filter);
    if text.len() > 0 {
        let front = text.drop_last();
        assert forall|i: int| 0 <= i < front.len() implies '!' <= #[trigger] front[i] <= '~' by {
            assert(front[i] == text[i]);
        }
        law_printable_text_is_kept(front);
        assert('!' <= text[text.len() - 1] <= '~');
        assert('!' <= text[0] <= '~');
        assert(front.push(text.last()) =~= text);
    } else {
        assert(squeezed(text) =~= text);
    }
}

proof fn lemma_trimmed_front(w: char, text: Seq<char>)
    requires
        white(w),
    ensures
        trimmed(seq![w] + text) == trimmed(text),
{
    let all = seq![w] + text;
    assert(all.skip(1) =~= text);
}

proof fn lemma_trimmed_back(text: Seq<char>, w: char)
    requires
        white(w),
    ensures
        trimmed(text + seq![w]) == trimmed(text),
    decreases text.len(),
{
    let all = text + seq![w];
    assert(all.last() == w);
    if text.len() == 0 {
        assert(all.skip(1) =~= text);
    } else if white(text[0]) {
        assert(all.skip(1) =~= text.skip(1) + seq![w]);
        lemma_trimmed_back(text.skip(1), w);
    } else {
        assert(all.drop_last() =~= text);
    }
}

/// White space in front of an invite code and behind it does not matter.
pub proof fn law_invite_code_is_trimmed(w: char, code: Seq<char>, v: char)
    requires
        w == ' ' || w == '\t' || w == '\n' || w == '\r',
        v == ' ' || v == '\t' || v == '\n' || v == '\r',
    ensures
        federation_in_code(seq![w] + code) == federation_in_code(code),
        federation_in_code(code + seq![v]) == federation_in_code(code),
{
    lemma_trimmed_front(w, code);
    lemma_trimmed_back(code, v);
}

/// The bytes of plain ASCII text.
pub open spec fn ascii_bytes(text: Seq<char>) -> Seq<u8> {
    text.map_values(|c: char| c as u8)
}

proof fn lemma_fedimint_word(text: Seq<char>)
    requires
        is_ascii_chars(text),
    ensures
        ({
            let yes = text.len() >= 8 && text.take(8) == "fedimint"@;
            &&& yes ==> fedimint_decoded(text) == base32_decoded(ascii_bytes(text.skip(8)))
            &&& !yes ==> fedimint_decoded(text) is Err
        }),
{
    reveal_strlit("fedimint");
    let word = "fedimint"@;
    assert(is_ascii_chars(word));
    is_ascii_chars_encode_utf8(text);
    is_ascii_chars_encode_utf8(word);
    let bytes = encode_utf8(text);
    let front = encode_utf8(word);
    if text.len() >= 8 {
        if text.take(8) == word {
            assert forall|i: int| 0 <= i < 8 implies bytes[i] == front[i] by {
                assert(text.take(8)[i] == text[i]);
            }
            assert(bytes.take(8) =~= front);
            assert(bytes.skip(8) =~= ascii_bytes(text.skip(8)));
        } else if bytes.take(8) == front {
            assert forall|i: int| 0 <= i < 8 implies text.take(8)[i] == word[i] by {
                assert(bytes.take(8)[i] == bytes[i]);
                assert(text[i] as u8 == word[i] as u8);
            }
            assert(text.take(8) =~= word);
        }
    }
}

/// Fedimint's own form of bytes is the word `fedimint` and base32, in any case. Plain text that
/// begins otherwise is not in that form.
pub proof fn law_fedimint_form(text: Seq<char>)
    requires
        is_ascii_chars(text),
    ensures
        ({
            let lower = text.map_values(|c: char| ascii_lower(c));
            let yes = lower.len() >= 8 && lower.take(8) == "fedimint"@;
            &&& yes ==> fedimint_bytes(text) == (match base32_decoded(
                ascii_bytes(lower.skip(8)),
            ) {
                Ok(bytes) => Some(bytes),
                Err(_) => None,
            })
            &&& !yes ==> fedimint_bytes(text) is None
        }),
{
    let lower = text.map_values(|c: char| ascii_lower(c));
    assert(is_ascii_chars(lower)) by {
        assert forall|i: int| 0 <= i < lower.len() implies (#[trigger] lower[i] as u32) < 128 by {
            assert((text[i] as u32) < 128);
        }
    }
    lemma_fedimint_word(lower);
}

/// An invite code in Fedimint's own form, in any case, names the federation that the bytes that it
/// stands for name.
pub proof fn law_fedimint_invite(code: Seq<char>, bytes: Seq<u8>)
    requires
        is_ascii_chars(code),
        trimmed(code) == code,
        code.len() >= 8,
        code.map_values(|c: char| ascii_lower(c)).take(8) == "fedimint"@,
        base32_decoded(
            ascii_bytes(code.map_values(|c: char| ascii_lower(c)).skip(8)),
        ) == Ok::<Seq<u8>, Seq<char>>(bytes),
    ensures
        federation_in_code(code) == federation_in_invite(bytes),
{
    let lower = code.map_values(|c: char| ascii_lower(c));
    assert(lowered(code) == lower);
    assert(is_ascii_chars(lower)) by {
        assert forall|i: int| 0 <= i < lower.len() implies (#[trigger] lower[i] as u32) < 128 by {
            assert((code[i] as u32) < 128);
        }
    }
    lemma_fedimint_word(lower);
    reveal_strlit("fedimint");
}

/// The text is read as a bundle of that federation and format.
#[verifier::opaque]
pub open spec fn reads_bundle(
    text: Seq<char>,
    prefix: Seq<u8>,
    format: NoteFormat,
    tiers: Map<u64, Seq<Seq<u8>>>,
) -> bool {
    bundle_in_list(decodings(text)) == Ok::<Bundle, Seq<char>>(Bundle { prefix, tiers, format })
}

/// The notes of `d` msats in the bundles, one behind the other.
pub open spec fn in_bundles(bundles: Seq<Map<u64, Seq<Seq<u8>>>>, d: u64) -> Seq<Seq<u8>>
    decreases bundles.len(),
{
    if bundles.len() == 0 {
        Seq::empty()
    } else {
        listed(bundles[0], d) + in_bundles(bundles.skip(1), d)
    }
}

/// One text more is gathered.
proof fn lemma_gather_next(
    texts: Seq<Seq<char>>,
    first: Option<(Seq<u8>, NoteFormat)>,
    tiers: Map<u64, Seq<Seq<u8>>>,
    prefix: Seq<u8>,
    format: NoteFormat,
    bundle: Map<u64, Seq<Seq<u8>>>,
)
    requires
        texts.len() > 0,
        first matches Some(f) ==> f == (prefix, format),
        reads_bundle(texts[0], prefix, format, bundle),
    ensures
        gathered_from(texts, first, tiers) == gathered_from(
            texts.skip(1),
            Some((prefix, format)),
            merged(tiers, stocked(bundle)),
        ),
{
    reveal(reads_bundle);
}

proof fn lemma_gather(
    texts: Seq<Seq<char>>,
    first: Option<(Seq<u8>, NoteFormat)>,
    tiers: Map<u64, Seq<Seq<u8>>>,
    prefix: Seq<u8>,
    format: NoteFormat,
    bundles: Seq<Map<u64, Seq<Seq<u8>>>>,
)
    requires
        bundles.len() == texts.len(),
        first matches Some(f) ==> f == (prefix, format),
        forall|i: int|
            0 <= i < texts.len() ==> reads_bundle(#[trigger] texts[i], prefix, format, bundles[i]),
        forall|d: u64| #[trigger] tiers.contains_key(d) ==> tiers[d].len() > 0,
    ensures
        gathered_from(texts, first, tiers) matches Ok((found, all)) && {
            &&& texts.len() > 0 ==> found == Some((prefix, format))
            &&& forall|d: u64| #[trigger]
                listed(all, d) == listed(tiers, d) + in_bundles(bundles, d)
            &&& forall|d: u64| #[trigger] all.contains_key(d) ==> all[d].len() > 0
            &&& texts.len() == 0 ==> found == first
        },
    decreases texts.len(),
{
    if texts.len() == 0 {
        assert forall|d: u64| #[trigger] listed(tiers, d) == listed(tiers, d) + in_bundles(
            bundles,
            d,
        ) by {
            assert(listed(tiers, d) + in_bundles(bundles, d) =~= listed(tiers, d));
        }
    } else {
        assert(reads_bundle(texts[0], prefix, format, bundles[0]));
        let next = merged(tiers, stocked(bundles[0]));
        let later = texts.skip(1);
        let more = bundles.skip(1);
        assert forall|i: int| 0 <= i < later.len() implies reads_bundle(
            #[trigger] later[i],
            prefix,
            format,
            more[i],
        ) by {
            assert(reads_bundle(texts[i + 1], prefix, format, bundles[i + 1]));
        }
        assert forall|d: u64| #[trigger] next.contains_key(d) implies next[d].len() > 0 by {}
        lemma_gather_next(texts, first, tiers, prefix, format, bundles[0]);
        lemma_gather(later, Some((prefix, format)), next, prefix, format, more);
        let (found, all) = gathered_from(later, Some((prefix, format)), next)->Ok_0;
        assert forall|d: u64| #[trigger] listed(all, d) == listed(tiers, d) + in_bundles(
            bundles,
            d,
        ) by {
            assert(listed(all, d) == listed(next, d) + in_bundles(more, d));
            assert(listed(next, d) =~= listed(tiers, d) + listed(bundles[0], d));
            assert(listed(tiers, d) + in_bundles(bundles, d) =~= listed(next, d) + in_bundles(
                more,
                d,
            ));
        }
    }
}

/// Notes of one federation and one format are put together, however many there are: each note of
/// each text is in the bundle under its denomination, in the order of the texts, and no others.
pub proof fn law_gathers_all(
    texts: Seq<Seq<char>>,
    prefix: Seq<u8>,
    format: NoteFormat,
    bundles: Seq<Map<u64, Seq<Seq<u8>>>>,
)
    requires
        texts.len() > 0,
        bundles.len() == texts.len(),
        forall|i: int|
            0 <= i < texts.len() ==> reads_bundle(#[trigger] texts[i], prefix, format, bundles[i]),
    ensures
        gathered(texts) matches Ok(all) && {
            &&& all.prefix == prefix
            &&& all.format == format
            &&& forall|d: u64| #[trigger] listed(all.tiers, d) == in_bundles(bundles, d)
            &&& forall|d: u64| #[trigger]
                all.tiers.contains_key(d) <==> in_bundles(bundles, d).len() > 0
        },
{
    let none = Map::<u64, Seq<Seq<u8>>>::empty();
    lemma_gather(texts, None, none, prefix, format, bundles);
    let all = gathered(texts)->Ok_0.tiers;
    assert forall|d: u64| #[trigger] listed(all, d) == in_bundles(bundles, d) by {
        assert(listed(all, d) == listed(none, d) + in_bundles(bundles, d));
        assert(Seq::<Seq<u8>>::empty() + in_bundles(bundles, d) =~= in_bundles(bundles, d));
    }
    assert forall|d: u64| #[trigger] all.contains_key(d) <==> in_bundles(bundles, d).len() > 0 by {
        assert(listed(all, d) == in_bundles(bundles, d));
    }
}

/// The federation and the format of the notes that a text is read as.
#[verifier::opaque]
spec fn kind_in(text: Seq<char>) -> Option<(Seq<u8>, NoteFormat)> {
    match bundle_in_list(decodings(text)) {
        Ok(bundle) => Some((bundle.prefix, bundle.format)),
        Err(_) => None,
    }
}

/// One step of putting notes together.
proof fn lemma_gather_step(
    texts: Seq<Seq<char>>,
    first: Option<(Seq<u8>, NoteFormat)>,
    tiers: Map<u64, Seq<Seq<u8>>>,
) -> (next: Map<u64, Seq<Seq<u8>>>)
    requires
        gathered_from(texts, first, tiers) is Ok,
        texts.len() > 0,
    ensures
        kind_in(texts[0]) is Some,
        first is Some ==> first == kind_in(texts[0]),
        gathered_from(texts, first, tiers) == gathered_from(
            texts.skip(1),
            kind_in(texts[0]),
            next,
        ),
{
    reveal(kind_in);
    let bundle = bundle_in_list(decodings(texts[0]))->Ok_0;
    merged(tiers, stocked(bundle.tiers))
}

proof fn lemma_gather_needs(
    texts: Seq<Seq<char>>,
    first: Option<(Seq<u8>, NoteFormat)>,
    tiers: Map<u64, Seq<Seq<u8>>>,
    i: int,
)
    requires
        gathered_from(texts, first, tiers) is Ok,
        0 <= i < texts.len(),
    ensures
        gathered_from(texts, first, tiers)->Ok_0.0 == kind_in(texts[i]),
        kind_in(texts[i]) is Some,
        first is Some ==> gathered_from(texts, first, tiers)->Ok_0.0 == first,
    decreases texts.len(),
{
    let next = lemma_gather_step(texts, first, tiers);
    let later = texts.skip(1);
    if i > 0 {
        lemma_gather_needs(later, kind_in(texts[0]), next, i - 1);
        assert(later[i - 1] == texts[i]);
    } else if later.len() > 0 {
        lemma_gather_needs(later, kind_in(texts[0]), next, 0);
    }
}

/// Notes are put together only if there are any and each text can be read, and only if they are of
/// one federation and one format.
pub proof fn law_gathers_only_one_kind(texts: Seq<Seq<char>>, i: int)
    requires
        gathered(texts) is Ok,
        0 <= i < texts.len(),
    ensures
        bundle_in_list(decodings(texts[i])) matches Ok(bundle) && bundle.prefix == gathered(
            texts,
        )->Ok_0.prefix && bundle.format == gathered(texts)->Ok_0.format,
{
    lemma_gather_needs(texts, None, Map::empty(), i);
    reveal(kind_in);
}

/// There have to be notes to put together.
pub proof fn law_gathers_something(texts: Seq<Seq<char>>)
    requires
        gathered(texts) is Ok,
    ensures
        texts.len() > 0,
{
}

/// A bundle in the first format is written as two parts, the federation's prefix and the table.
pub proof fn law_v1_is_written_in_parts(prefix: Seq<u8>, tiers: Map<u64, Seq<Seq<u8>>>)
    requires
        prefix.len() == 4,
    ensures
        v1_bytes(prefix, tiers) == varint_bytes(2) + written(
            seq![(1u64, prefix), (0u64, v1_body_bytes(tiers))],
        ),
{
    let body = v1_body_bytes(tiers);
    let parts = seq![(1u64, prefix), (0u64, body)];
    reveal_with_fuel(written, 3);
    assert(parts.skip(1) =~= seq![(0u64, body)]);
    assert(parts.skip(1).skip(1) =~= Seq::empty());
    let n2 = varint_bytes(2);
    let n1 = varint_bytes(1);
    let n4 = varint_bytes(4);
    let n0 = varint_bytes(0);
    let len = varint_bytes(body.len() as u64);
    assert(written(parts.skip(1)) =~= n0 + len + body);
    assert(written(parts) == n1 + n4 + prefix + (n0 + len + body));
    assert(v1_bytes(prefix, tiers) =~= n2 + (n1 + n4 + prefix + (n0 + len + body)));
}

/// The fields of a list of notes.
pub open spec fn note_fields(list: Seq<Seq<u8>>) -> Seq<(u64, Seq<u8>)> {
    list.map_values(|note: Seq<u8>| (1u64, note))
}

/// The fields of the notes of the denominations `ds`.
pub open spec fn tier_fields(ds: Seq<u64>, tiers: Map<u64, Seq<Seq<u8>>>) -> Seq<(u64, Seq<u8>)>
    decreases ds.len(),
{
    if ds.len() == 0 {
        Seq::empty()
    } else {
        note_fields(tiers[ds[0]]) + tier_fields(ds.skip(1), tiers)
    }
}

proof fn lemma_written_add(a: Seq<(u64, Seq<u8>)>, b: Seq<(u64, Seq<u8>)>)
    ensures
        written(a + b) == written(a) + written(b),
    decreases a.len(),
{
    let all = a + b;
    if a.len() == 0 {
        assert(all =~= b);
        assert(written(a) + written(b) =~= written(b));
    } else {
        assert(all.skip(1) =~= a.skip(1) + b);
        lemma_written_add(a.skip(1), b);
        let head = varint_bytes(a[0].0) + varint_bytes(a[0].1.len() as u64) + a[0].1;
        assert(all[0] == a[0]);
        assert(head + (written(a.skip(1)) + written(b)) =~= (head + written(a.skip(1))) + written(
            b,
        ));
    }
}

proof fn lemma_list_written(list: Seq<Seq<u8>>)
    ensures
        v2_list_bytes(list) == written(note_fields(list)),
    decreases list.len(),
{
    if list.len() > 0 {
        assert(note_fields(list).skip(1) =~= note_fields(list.skip(1)));
        lemma_list_written(list.skip(1));
    }
}

proof fn lemma_tiers_written(ds: Seq<u64>, tiers: Map<u64, Seq<Seq<u8>>>)
    ensures
        v2_tiers_bytes(ds, tiers) == written(tier_fields(ds, tiers)),
        note_count(ds, tiers) == tier_fields(ds, tiers).len(),
    decreases ds.len(),
{
    if ds.len() > 0 {
        lemma_list_written(tiers[ds[0]]);
        lemma_tiers_written(ds.skip(1), tiers);
        lemma_written_add(note_fields(tiers[ds[0]]), tier_fields(ds.skip(1), tiers));
    }
}

/// A bundle in the second format is written as a field with the tag 0, which holds the prefix and
/// twenty-eight zeros, and a field with the tag 1 for each note, the smallest denomination first.
/// In front of them is how many fields there are.
pub proof fn law_v2_is_written_in_fields(prefix: Seq<u8>, tiers: Map<u64, Seq<Seq<u8>>>)
    requires
        prefix.len() == 4,
    ensures
        ({
            let notes = tier_fields(ascending(tiers.dom()), tiers);
            let id = prefix + Seq::new(28, |i: int| 0u8);
            v2_bytes(prefix, tiers) == varint_bytes((1 + notes.len()) as u64) + written(
                seq![(0u64, id)] + notes,
            )
        }),
{
    let ds = ascending(tiers.dom());
    let notes = tier_fields(ds, tiers);
    lemma_tiers_written(ds, tiers);
    let id = filled_id(prefix);
    let fields = seq![(0u64, id)] + notes;
    assert(fields.skip(1) =~= notes);
    let n = varint_bytes((1 + notes.len()) as u64);
    let n0 = varint_bytes(0);
    let n32 = varint_bytes(32);
    let rest = written(notes);
    assert(written(fields) == n0 + n32 + id + rest);
    assert(v2_bytes(prefix, tiers) =~= n + (n0 + n32 + id + rest));
}

proof fn lemma_note_count(ds: Seq<u64>, tiers: Map<u64, Seq<Seq<u8>>>)
    requires
        strictly_ascending(ds),
        ds.to_set() == tiers.dom(),
        tiers.dom().finite(),
    ensures
        note_count(ds, tiers) == total(sizes(tiers)),
    decreases ds.len(),
{
    if ds.len() == 0 {
        assert(sizes(tiers).dom() =~= Set::empty()) by {
            assert forall|d: u64| !#[trigger] sizes(tiers).dom().contains(d) by {
                if tiers.contains_key(d) {
                    assert(ds.to_set().contains(d));
                }
            }
        }
    } else {
        let d = ds[0];
        assert(ds.to_set().contains(d));
        let rest = tiers.remove(d);
        let later = ds.skip(1);
        assert(later.to_set() =~= rest.dom()) by {
            assert forall|e: u64| #[trigger] later.to_set().contains(e) <==> rest.dom().contains(
                e,
            ) by {
                if later.to_set().contains(e) {
                    let i = choose|i: int| 0 <= i < later.len() && later[i] == e;
                    assert(ds[i + 1] == e);
                    assert(ds.to_set().contains(e));
                }
                if rest.dom().contains(e) {
                    assert(ds.to_set().contains(e));
                    let i = choose|i: int| 0 <= i < ds.len() && ds[i] == e;
                    assert(later[i - 1] == e);
                }
            }
        }
        assert forall|i: int, j: int| 0 <= i < j < later.len() implies later[i] < later[j] by {
            assert(ds[i + 1] < ds[j + 1]);
        }
        lemma_note_count(later, rest);
        assert(sizes(tiers).dom() =~= tiers.dom());
        crate::tiers::lemma_total_remove(sizes(tiers), d);
        assert(sizes(tiers).remove(d) =~= sizes(rest));
        lemma_same_count(later, tiers, rest);
    }
}

proof fn lemma_same_count(
    ds: Seq<u64>,
    a: Map<u64, Seq<Seq<u8>>>,
    b: Map<u64, Seq<Seq<u8>>>,
)
    requires
        forall|i: int| 0 <= i < ds.len() ==> a[#[trigger] ds[i]] == b[ds[i]],
    ensures
        note_count(ds, a) == note_count(ds, b),
    decreases ds.len(),
{
    if ds.len() > 0 {
        assert forall|i: int| 0 <= i < ds.skip(1).len() implies a[#[trigger] ds.skip(1)[i]]
            == b[ds.skip(1)[i]] by {
            assert(ds.skip(1)[i] == ds[i + 1]);
        }
        lemma_same_count(ds.skip(1), a, b);
    }
}

/// Notes can be written as one text exactly if the text is no longer than a string can be and
/// their number, with the field for the ID, can be written as well.
pub proof fn law_writable(bundle: Bundle)
    requires
        bundle.tiers.dom().finite(),
    ensures
        writable(bundle) <==> {
            &&& encoded(true, true, bundle_bytes(bundle)).len() <= isize::MAX
            &&& total(sizes(bundle.tiers)) + 1 <= u64::MAX
        },
{
    let ds = ascending(bundle.tiers.dom());
    lemma_ascending_exists(bundle.tiers.dom());
    lemma_note_count(ds, bundle.tiers);
}

/// The rows of the denominations `ds`.
pub open spec fn rows_of(ds: Seq<u64>, tiers: Map<u64, Seq<Seq<u8>>>) -> Seq<
    (u64, Seq<Seq<u8>>),
> {
    ds.map_values(|d: u64| (d, tiers[d]))
}

proof fn lemma_four(a: Seq<u8>, b: Seq<u8>, c: Seq<u8>, d: Seq<u8>)
    ensures
        a + b + c + d == a + (b + (c + d)),
{
    assert(a + b + c + d =~= a + (b + (c + d)));
}

/// One row in front of others.
proof fn lemma_row_written(
    d: u64,
    list: Seq<Seq<u8>>,
    rest: Seq<u8>,
    rows: Seq<(u64, Seq<Seq<u8>>)>,
)
    requires
        list.len() <= 100_000,
        forall|k: int| 0 <= k < list.len() ==> (#[trigger] list[k]).len() == 80,
        rows.len() > 0,
        rows[0] == (d, list),
        has_rows(rest, rows.skip(1)),
    ensures
        has_rows(v1_tier_bytes(d, list) + rest, rows),
{
    let s2 = joined(list) + rest;
    let s1 = varint_bytes(list.len() as u64) + s2;
    lemma_four(varint_bytes(d), varint_bytes(list.len() as u64), joined(list), rest);
    law_varint_round_trip(d, s1);
    law_varint_round_trip(list.len() as u64, s2);
    lemma_cut_joined(list, rest);
    assert(s2.skip(80 * list.len() as int) =~= rest);
    assert forall|i: int| 0 <= i < list.len() implies #[trigger] rows[0].1[i] == s2.subrange(
        80 * i,
        80 * i + 80,
    ) by {
        assert(cut_notes(s2, list.len())[i] == list[i]);
    }
}

proof fn lemma_rows_written(ds: Seq<u64>, tiers: Map<u64, Seq<Seq<u8>>>)
    requires
        forall|i: int| 0 <= i < ds.len() ==> tiers[#[trigger] ds[i]].len() <= 100_000,
        forall|i: int, k: int|
            0 <= i < ds.len() && 0 <= k < tiers[ds[i]].len() ==> (#[trigger] tiers[ds[i]][k]).len()
                == 80,
    ensures
        has_rows(v1_tiers_bytes(ds, tiers), rows_of(ds, tiers)),
    decreases ds.len(),
{
    if ds.len() > 0 {
        let list = tiers[ds[0]];
        let later = ds.skip(1);
        assert forall|i: int| 0 <= i < later.len() implies tiers[#[trigger] later[i]].len()
            <= 100_000 by {
            assert(later[i] == ds[i + 1]);
        }
        assert forall|i: int, k: int|
            0 <= i < later.len() && 0 <= k < tiers[later[i]].len() implies (
        #[trigger] tiers[later[i]][k]).len() == 80 by {
            assert(later[i] == ds[i + 1]);
            assert(tiers[ds[i + 1]][k].len() == 80);
        }
        lemma_rows_written(later, tiers);
        let rows = rows_of(ds, tiers);
        assert(rows.skip(1) =~= rows_of(later, tiers));
        assert forall|k: int| 0 <= k < list.len() implies (#[trigger] list[k]).len() == 80 by {
            assert(tiers[ds[0]][k].len() == 80);
        }
        lemma_row_written(ds[0], list, v1_tiers_bytes(later, tiers), rows);
    }
}

/// The table of a bundle in the first format has a row for each denomination, the smallest first,
/// with all of its notes.
pub proof fn law_v1_table_has_all_rows(tiers: Map<u64, Seq<Seq<u8>>>)
    requires
        tiers.dom().finite(),
        tiers.dom().len() <= 1000,
        forall|d: u64| #[trigger] tiers.contains_key(d) ==> tiers[d].len() <= 100_000,
        forall|d: u64, k: int|
            tiers.contains_key(d) && 0 <= k < tiers[d].len() ==> (#[trigger] tiers[d][k]).len()
                == 80,
    ensures
        is_table(v1_body_bytes(tiers), rows_of(ascending(tiers.dom()), tiers)),
{
    let ds = ascending(tiers.dom());
    lemma_ascending_exists(tiers.dom());
    assert forall|i: int| 0 <= i < ds.len() implies tiers.contains_key(#[trigger] ds[i]) by {
        assert(ds.to_set().contains(ds[i]));
    }
    lemma_rows_written(ds, tiers);
    law_varint_round_trip(tiers.dom().len() as u64, v1_tiers_bytes(ds, tiers));
}

proof fn lemma_begins_with(text: Seq<char>, word: Seq<char>)
    requires
        is_ascii_chars(text),
        is_ascii_chars(word),
    ensures
        begins_with(encode_utf8(text), encode_utf8(word)) <==> text.len() >= word.len()
            && text.take(word.len() as int) == word,
{
    is_ascii_chars_encode_utf8(text);
    is_ascii_chars_encode_utf8(word);
    let bytes = encode_utf8(text);
    let front = encode_utf8(word);
    let n = word.len() as int;
    if text.len() >= n {
        if text.take(n) == word {
            assert forall|i: int| 0 <= i < n implies bytes[i] == front[i] by {
                assert(text.take(n)[i] == text[i]);
            }
            assert(bytes.take(n) =~= front);
        } else if bytes.take(n) == front {
            assert forall|i: int| 0 <= i < n implies text.take(n)[i] == word[i] by {
                assert(bytes.take(n)[i] == bytes[i]);
                assert(text[i] as u8 == word[i] as u8);
            }
            assert(text.take(n) =~= word);
        }
    }
}

/// An invite code that begins with `fed1`, in any case, is read as bech32, and one that begins
/// neither with that nor with `fedimint` is refused.
pub proof fn law_other_invites(code: Seq<char>)
    requires
        is_ascii_chars(code),
        trimmed(code) == code,
    ensures
        ({
            let lower = code.map_values(|c: char| ascii_lower(c));
            let bech = lower.len() >= 4 && lower.take(4) == "fed1"@;
            let own = lower.len() >= 8 && lower.take(8) == "fedimint"@;
            &&& bech ==> (bech32_decoded(lower) matches Ok(bytes) ==> federation_in_code(code)
                == federation_in_invite(bytes))
            &&& bech && bech32_decoded(lower) is Err ==> federation_in_code(code) is Err
            &&& own ==> (base32_decoded(ascii_bytes(lower.skip(8))) is Err ==> federation_in_code(
                code,
            ) is Err)
            &&& !bech && !own ==> federation_in_code(code) == Err::<Seq<u8>, _>(
                "Invite code must start with 'fed1' or 'fedimint'"@,
            )
        }),
{
    reveal_strlit("fedimint");
    reveal_strlit("fed1");
    let lower = code.map_values(|c: char| ascii_lower(c));
    assert(lowered(code) == lower);
    assert(is_ascii_chars(lower)) by {
        assert forall|i: int| 0 <= i < lower.len() implies (#[trigger] lower[i] as u32) < 128 by {
            assert((code[i] as u32) < 128);
        }
    }
    assert(is_ascii_chars("fedimint"@));
    assert(is_ascii_chars("fed1"@));
    lemma_begins_with(lower, "fedimint"@);
    lemma_begins_with(lower, "fed1"@);
    lemma_fedimint_word(lower);
    if lower.len() >= 8 && lower.take(8) == "fedimint"@ {
        assert(lower.take(8)[3] == lower[3]);
        if lower.take(4) == "fed1"@ {
            assert(lower.take(4)[3] == lower[3]);
        }
    }
}

/// The text of a single note is base64, url-safe and padded, of a bundle with just that note: in
/// the second format two fields, the ID and the note, and in the first one two parts, the prefix
/// and a table.
pub proof fn law_note_text_is_written(prefix: Seq<u8>, d: u64, note: Seq<u8>)
    requires
        prefix.len() == 4,
    ensures
        note_text(prefix, NoteFormat::V2, d, note) == encoded(
            true,
            true,
            varint_bytes(2) + written(
                seq![(0u64, prefix + Seq::new(28, |i: int| 0u8)), (1u64, note)],
            ),
        ),
        note_text(prefix, NoteFormat::V1, d, note) == encoded(
            true,
            true,
            varint_bytes(2) + written(
                seq![(1u64, prefix), (0u64, v1_body_bytes(single(d, note)))],
            ),
        ),
        note.len() == 80 ==> is_table(v1_body_bytes(single(d, note)), seq![(d, seq![note])]),
{
    let tiers = single(d, note);
    law_v1_is_written_in_parts(prefix, tiers);
    law_v2_is_written_in_fields(prefix, tiers);
    assert(tiers.dom() =~= Set::empty().insert(d));
    let ds = seq![d];
    assert(ds.to_set() =~= tiers.dom()) by {
        assert(ds[0] == d);
    }
    lemma_ascending_is(ds);
    assert(ascending(tiers.dom()) == ds);
    let id = prefix + Seq::new(28, |i: int| 0u8);
    reveal_with_fuel(tier_fields, 2);
    assert(ds.skip(1) =~= Seq::empty());
    assert(tier_fields(ds, tiers) =~= seq![(1u64, note)]);
    assert(seq![(0u64, id)] + seq![(1u64, note)] =~= seq![(0u64, id), (1u64, note)]);
    if note.len() == 80 {
        law_v1_table_has_all_rows(tiers);
        assert(rows_of(ds, tiers) =~= seq![(d, seq![note])]);
    }
}

/// What is said where notes are not put together: that there are none, or what is wrong with the
/// first text that cannot be read, is of another federation or is in another format than those
/// before it.
pub proof fn law_what_is_not_gathered(
    texts: Seq<Seq<char>>,
    prefix: Seq<u8>,
    format: NoteFormat,
    bundles: Seq<Map<u64, Seq<Seq<u8>>>>,
    i: int,
)
    requires
        0 <= i < texts.len(),
        bundles.len() == i,
        forall|k: int|
            0 <= k < i ==> reads_bundle(#[trigger] texts[k], prefix, format, bundles[k]),
    ensures
        gathered(Seq::empty()) == Err::<Bundle, _>("No notes to combine"@),
        ({
            let next = bundle_in_list(decodings(texts[i]));
            &&& next is Err ==> gathered(texts) == Err::<Bundle, _>(
                "Could not parse note for combining"@,
            )
            &&& i > 0 ==> (next matches Ok(bundle) ==> (bundle.prefix != prefix ==> gathered(texts)
                == Err::<Bundle, _>("Mixed federation notes"@)))
            &&& i > 0 ==> (next matches Ok(bundle) ==> (bundle.prefix == prefix && bundle.format
                != format ==> gathered(texts) == Err::<Bundle, _>("Mixed note formats"@)))
        }),
{
    lemma_not_gathered(texts, None, Map::empty(), prefix, format, bundles, i);
}

proof fn lemma_not_gathered(
    texts: Seq<Seq<char>>,
    first: Option<(Seq<u8>, NoteFormat)>,
    tiers: Map<u64, Seq<Seq<u8>>>,
    prefix: Seq<u8>,
    format: NoteFormat,
    bundles: Seq<Map<u64, Seq<Seq<u8>>>>,
    i: int,
)
    requires
        0 <= i < texts.len(),
        bundles.len() == i,
        first matches Some(f) ==> f == (prefix, format),
        forall|k: int|
            0 <= k < i ==> reads_bundle(#[trigger] texts[k], prefix, format, bundles[k]),
    ensures
        ({
            let next = bundle_in_list(decodings(texts[i]));
            let all = gathered_from(texts, first, tiers);
            &&& next is Err ==> (all matches Err(e) && e == "Could not parse note for combining"@)
            &&& i > 0 || first is Some ==> (next matches Ok(bundle) ==> (bundle.prefix != prefix
                ==> (all matches Err(e) && e == "Mixed federation notes"@)))
            &&& i > 0 || first is Some ==> (next matches Ok(bundle) ==> (bundle.prefix == prefix
                && bundle.format != format ==> (all matches Err(e) && e == "Mixed note formats"@)))
        }),
    decreases i,
{
    if i > 0 {
        assert(reads_bundle(texts[0], prefix, format, bundles[0]));
        let next = merged(tiers, stocked(bundles[0]));
        let later = texts.skip(1);
        let more = bundles.skip(1);
        assert forall|k: int| 0 <= k < i - 1 implies reads_bundle(
            #[trigger] later[k],
            prefix,
            format,
            more[k],
        ) by {
            assert(reads_bundle(texts[k + 1], prefix, format, bundles[k + 1]));
        }
        lemma_gather_next(texts, first, tiers, prefix, format, bundles[0]);
        lemma_not_gathered(later, Some((prefix, format)), next, prefix, format, more, i - 1);
        assert(later[i - 1] == texts[i]);
    }
}

/// What is said where a text is not read: that it stands for nothing, or that what it stands for
/// is no bundle.
pub proof fn law_what_is_not_read(text: Seq<char>)
    requires
        bundle_in_text(text) is Err,
    ensures
        (forall|j: int|
            0 <= j < 5 ==> (#[trigger] candidates(squeezed(text))[j] matches Some(bytes)
                ==> bytes.len() == 0)) ==> bundle_in_text(text) == Err::<Bundle, _>(
            "Could not decode ecash string"@,
        ),
        bundle_in_text(text) matches Err(e) ==> e == "Could not decode ecash string"@ || e.take(14)
            == "Parse failed: "@,
{
    let t = squeezed(text);
    let c = candidates(t);
    let list = decodings(t);
    if forall|j: int|
        0 <= j < 5 ==> (#[trigger] candidates(t)[j] matches Some(bytes) ==> bytes.len() == 0) {
        let none = Seq::<Seq<u8>>::empty();
        assert(c[0] matches Some(bytes) ==> bytes.len() == 0);
        assert(c[1] matches Some(bytes) ==> bytes.len() == 0);
        assert(c[2] matches Some(bytes) ==> bytes.len() == 0);
        assert(c[3] matches Some(bytes) ==> bytes.len() == 0);
        assert(c[4] matches Some(bytes) ==> bytes.len() == 0);
        assert(with_decoding(none, c[0]) == none);
        assert(list.len() == 0);
    }
    if list.len() > 0 {
        reveal_strlit("Parse failed: ");
        let e = bundle_in_list(list)->Err_0;
        let said = parse_failed(e, t, list);
        assert(said.take(14) =~= "Parse failed: "@);
    }
}

/// Where no byte string is a bundle, what is wrong with the last one is said.
pub proof fn law_last_refusal_is_said(list: Seq<Seq<u8>>)
    requires
        list.len() > 0,
        bundle_in_list(list) is Err,
    ensures
        bundle_in_list(list) == bundle_in_bytes(list.last()),
    decreases list.len(),
{
    if list.len() > 1 {
        law_last_refusal_is_said(list.skip(1));
        assert(list.skip(1).last() == list.last());
    }
}

proof fn lemma_plain_head(text: Seq<char>, room: nat)
    requires
        is_ascii_chars(text),
    ensures
        head(text, room) == text.take(
            if text.len() <= room {
                text.len() as int
            } else {
                room as int
            },
        ),
    decreases text.len(),
{
    if text.len() == 0 || room == 0 {
        assert(head(text, room) =~= Seq::empty());
        assert(text.len() > 0 ==> width(text[0]) == 1);
    } else {
        assert((text[0] as u32) < 128);
        let rest = text.skip(1);
        assert(is_ascii_chars(rest)) by {
            assert forall|i: int| 0 <= i < rest.len() implies (#[trigger] rest[i] as u32)
                < 128 by {
                assert(rest[i] == text[i + 1]);
            }
        }
        lemma_plain_head(rest, (room - 1) as nat);
        let n = if text.len() <= room {
            text.len() as int
        } else {
            room as int
        };
        assert(text.take(n) =~= seq![text[0]] + rest.take(n - 1));
    }
}

/// A text of printable characters that stands for bytes but for no bundle is told apart by what is
/// wrong, its length, its first twenty characters, how many byte strings it may stand for, and the
/// length and the first twelve bytes of the first of them.
pub proof fn law_refusal_tells(text: Seq<char>)
    requires
        bundle_in_text(text) is Err,
        decodings(squeezed(text)).len() > 0,
        forall|i: int|
            0 <= i < squeezed(text).len() ==> '!' <= (#[trigger] squeezed(text)[i]) <= '~'
                && squeezed(text)[i] != '"' && squeezed(text)[i] != '\\',
    ensures
        ({
            let t = squeezed(text);
            let list = decodings(t);
            let start = t.take(
                if t.len() <= 20 {
                    t.len() as int
                } else {
                    20
                },
            );
            let bytes = list[0].take(
                if list[0].len() <= 12 {
                    list[0].len() as int
                } else {
                    12
                },
            );
            bundle_in_text(text) == Err::<Bundle, _>(
                "Parse failed: "@ + bundle_in_list(list)->Err_0 + " (input_len: "@ + decimal(
                    t.len(),
                ) + ", starts: "@ + ("\""@ + start + "\""@) + ", decodings: "@ + decimal(list.len())
                    + ", first_decode_len: "@ + decimal(list[0].len()) + ", first_bytes: "@
                    + hex_list(bytes) + ")"@,
            )
        }),
{
    let t = squeezed(text);
    let list = decodings(t);
    assert(is_ascii_chars(t));
    is_ascii_chars_encode_utf8(t);
    lemma_plain_head(t, 20);
    let start = head(t, 20);
    assert(plain(start)) by {
        assert forall|i: int| 0 <= i < start.len() implies ' ' <= (#[trigger] start[i]) && start[i]
            <= '~' && start[i] != '"' && start[i] != '\\' by {
            assert(start[i] == t[i]);
        }
    }
    if list[0].len() <= 12 {
        assert(list[0].take(list[0].len() as int) =~= list[0]);
    }
}

/// Bytes are listed in hexadecimal, two digits each, with a comma and a space between two.
pub proof fn law_bytes_are_listed(a: Seq<u8>, b: Seq<u8>, x: u8)
    ensures
        hex_list(a) == "["@ + hex_items(a) + "]"@,
        hex_items(Seq::empty()) == Seq::<char>::empty(),
        hex_items(seq![x]) == seq![digit((x / 16) as nat), digit((x % 16) as nat)],
        a.len() > 0 && b.len() > 0 ==> hex_items(a + b) == hex_items(a) + ", "@ + hex_items(b),
    decreases b.len(),
{
    assert(hex_digits(seq![x]) =~= seq![digit((x / 16) as nat), digit((x % 16) as nat)]);
    if a.len() > 0 && b.len() > 0 {
        let all = a + b;
        let last = hex_digits(seq![b.last()]);
        assert(all.drop_last() =~= a + b.drop_last());
        assert(all.last() == b.last());
        if b.len() == 1 {
            assert(a + b.drop_last() =~= a);
            assert(seq![b.last()] =~= b);
        } else {
            law_bytes_are_listed(a, b.drop_last(), x);
            let y = hex_items(b.drop_last());
            assert(hex_items(all) =~= hex_items(a) + ", "@ + y + ", "@ + last);
            assert(hex_items(a) + ", "@ + y + ", "@ + last =~= hex_items(a) + ", "@ + (y + ", "@
                + last));
        }
    }
}

} // verus!
