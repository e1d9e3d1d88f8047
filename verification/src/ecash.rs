//! Ecash as text: reading, taking apart and putting together.

use crate::base32::{base32_decoded, base32hex_decode};
use crate::base64_text::{
    decode_standard, decode_standard_no_pad, decode_url_safe, decode_url_safe_no_pad, decoded,
    encode_url_safe, encoded, law_decoded_encoded,
};
use crate::ecash_fields::{
    checked_note_count, encode_multi_note_v2_ecash, encode_single_note_v2_ecash,
    lemma_single_v2_len, note_count, parse_v2_ecash, v2_bundle, v2_bytes,
};
use crate::invite::{federation_in_invite, parse_invite_bytes};
use crate::notes::{
    byte_strings, note_tiers, proper_note, Bundle, FederationIdPrefix, NoteFormat, ParsedNotes,
};
use crate::oob_notes::{
    encode_multi_note_v1_oob, encode_single_note_v1_oob, first_4, lemma_single_v1_len,
    parse_v1_oob_notes, single, v1_bundle, v1_bytes,
};
use crate::text::{
    begins_with, decimal, head, hex_list, lowered, push_decimal, push_hex_list, quote, quoted,
    same_bytes, squeeze, squeezed, starts_with, take_head, text_tiers, texts, to_lowercase, trim,
    trimmed,
};
use crate::tiers::{
    ascending, items, keys_ascending, lemma_take_contains, listed, merge_tiers, merged,
};
use std::collections::BTreeMap;
use vstd::prelude::*;
use vstd::utf8::encode_utf8;

verus! {

/// The bytes that Fedimint's own form of text stands for: base32 behind the word `fedimint`.
pub open spec fn fedimint_decoded(text: Seq<char>) -> Result<Seq<u8>, Seq<char>> {
    let bytes = encode_utf8(text);
    let word = encode_utf8("fedimint"@);
    if begins_with(bytes, word) {
        base32_decoded(bytes.skip(word.len() as int))
    } else {
        Err("Missing fedimint prefix"@)
    }
}

/// Decodes Fedimint's own form of text.
pub fn decode_fedimint_base32(s: &str) -> (bytes: Result<Vec<u8>, String>)
    ensures
        match bytes {
            Ok(bytes) => fedimint_decoded(s@) == Ok::<Seq<u8>, Seq<char>>(bytes@),
            Err(e) => fedimint_decoded(s@) == Err::<Seq<u8>, Seq<char>>(e@),
        },
{
    let word = "fedimint".as_bytes();
    let all = s.as_bytes();
    if !starts_with(all, word) {
        return Err("Missing fedimint prefix".to_string());
    }
    let n: usize = word.len();
    let rest = vstd::slice::slice_subrange(all, n, all.len());
    assert(rest@ =~= all@.skip(n as int));
    base32hex_decode(rest)
}

/// The list with one more decoding, unless there is none, it is empty or it is listed already.
pub open spec fn with_decoding(list: Seq<Seq<u8>>, bytes: Option<Seq<u8>>) -> Seq<Seq<u8>> {
    match bytes {
        Some(bytes) => if bytes.len() > 0 && !list.contains(bytes) {
            list.push(bytes)
        } else {
            list
        },
        None => list,
    }
}

/// What Fedimint's own form of the text stands for, if it is in that form.
pub open spec fn fedimint_bytes(text: Seq<char>) -> Option<Seq<u8>> {
    match fedimint_decoded(lowered(text)) {
        Ok(bytes) => Some(bytes),
        Err(_) => None,
    }
}

/// All that the text may stand for: Fedimint's own form in any case first, then base64 with the
/// url-safe and with the standard alphabet, each with and without padding.
pub open spec fn decodings(text: Seq<char>) -> Seq<Seq<u8>> {
    let list = with_decoding(Seq::empty(), fedimint_bytes(text));
    let list = with_decoding(list, decoded(true, true, text));
    let list = with_decoding(list, decoded(true, false, text));
    let list = with_decoding(list, decoded(false, true, text));
    with_decoding(list, decoded(false, false, text))
}

/// The contents of a byte string, if there is one.
pub open spec fn bytes_view(bytes: Option<Vec<u8>>) -> Option<Seq<u8>> {
    match bytes {
        Some(bytes) => Some(bytes@),
        None => None,
    }
}

/// Whether the list holds the byte string.
fn lists(list: &Vec<Vec<u8>>, bytes: &Vec<u8>) -> (found: bool)
    ensures
        found == byte_strings(list@).contains(bytes@),
{
    let mut i: usize = 0;
    while i < list.len()
        invariant
            i <= list@.len(),
            forall|k: int| 0 <= k < i ==> (#[trigger] byte_strings(list@)[k]) != bytes@,
        decreases list@.len() - i,
    {
        assert(byte_strings(list@)[i as int] == list@[i as int]@);
        if same_bytes(&list[i], bytes) {
            return true;
        }
        i = i + 1;
    }
    false
}

/// Adds a decoding to a list.
pub fn add_decoding(list: &mut Vec<Vec<u8>>, bytes: Option<Vec<u8>>)
    ensures
        byte_strings(final(list)@) == with_decoding(byte_strings(old(list)@), bytes_view(bytes)),
{
    if let Some(found) = bytes {
        if found.len() > 0 && !lists(list, &found) {
            let ghost new = found@;
            list.push(found);
            assert(byte_strings(list@) =~= byte_strings(old(list)@).push(new));
        }
    }
}

/// What base64 decoding finds is what the text stands for.
pub(crate) proof fn lemma_decoded_is(
    url_safe: bool,
    padded: bool,
    text: Seq<char>,
    bytes: Option<Vec<u8>>,
)
    requires
        match bytes {
            Some(bytes) => encoded(url_safe, padded, bytes@) == text,
            None => forall|b: Seq<u8>| #[trigger] encoded(url_safe, padded, b) != text,
        },
    ensures
        decoded(url_safe, padded, text) == bytes_view(bytes),
{
    if let Some(bytes) = bytes {
        law_decoded_encoded(url_safe, padded, bytes@);
    }
}

/// Finds all that a text may stand for.
pub fn decode_all_variants(s: &str) -> (list: Vec<Vec<u8>>)
    ensures
        byte_strings(list@) == decodings(s@),
{
    let mut list: Vec<Vec<u8>> = Vec::new();
    assert(byte_strings(list@) =~= Seq::empty());
    let lower = to_lowercase(s);
    let bytes = match decode_fedimint_base32(lower.as_str()) {
        Ok(bytes) => Some(bytes),
        Err(_) => None,
    };
    add_decoding(&mut list, bytes);
    let bytes = decode_url_safe(s);
    proof {
        lemma_decoded_is(true, true, s@, bytes);
    }
    add_decoding(&mut list, bytes);
    let bytes = decode_url_safe_no_pad(s);
    proof {
        lemma_decoded_is(true, false, s@, bytes);
    }
    add_decoding(&mut list, bytes);
    let bytes = decode_standard(s);
    proof {
        lemma_decoded_is(false, true, s@, bytes);
    }
    add_decoding(&mut list, bytes);
    let bytes = decode_standard_no_pad(s);
    proof {
        lemma_decoded_is(false, false, s@, bytes);
    }
    add_decoding(&mut list, bytes);
    list
}

/// The bundle that the bytes are, in the first format or else in the second one. What is wrong
/// is said of the second one.
pub open spec fn bundle_in_bytes(bytes: Seq<u8>) -> Result<Bundle, Seq<char>> {
    match v1_bundle(bytes) {
        Ok(bundle) => Ok(bundle),
        Err(_) => v2_bundle(bytes),
    }
}

/// The bundle that the first of the byte strings is that is any, or what is wrong with the last
/// of them.
pub open spec fn bundle_in_list(list: Seq<Seq<u8>>) -> Result<Bundle, Seq<char>>
    decreases list.len(),
{
    if list.len() == 0 {
        Err(Seq::empty())
    } else {
        match bundle_in_bytes(list[0]) {
            Ok(bundle) => Ok(bundle),
            Err(e) => if list.len() == 1 {
                Err(e)
            } else {
                bundle_in_list(list.skip(1))
            },
        }
    }
}

/// Reads the first of the byte strings that is a bundle of notes.
pub fn parse_decodings(list: &Vec<Vec<u8>>) -> (notes: Result<ParsedNotes, String>)
    ensures
        match notes {
            Ok(notes) => notes.wf() && bundle_in_list(byte_strings(list@)) == Ok::<
                Bundle,
                Seq<char>,
            >(notes@),
            Err(e) => bundle_in_list(byte_strings(list@)) == Err::<Bundle, Seq<char>>(e@),
        },
{
    let ghost all = byte_strings(list@);
    let mut last_err = String::new();
    let mut i: usize = 0;
    assert(all.skip(0) =~= all);
    while i < list.len()
        invariant
            i <= list@.len(),
            all == byte_strings(list@),
            i < list@.len() ==> bundle_in_list(all) == bundle_in_list(all.skip(i as int)),
            i == list@.len() ==> bundle_in_list(all) == Err::<Bundle, Seq<char>>(last_err@),
        decreases list@.len() - i,
    {
        proof {
            assert(all.skip(i as int)[0] == list@[i as int]@);
            assert(all.skip(i as int).skip(1) =~= all.skip(i + 1));
        }
        if let Ok(notes) = parse_v1_oob_notes(&list[i]) {
            return Ok(notes);
        }
        match parse_v2_ecash(&list[i]) {
            Ok(notes) => {
                return Ok(notes);
            },
            Err(e) => {
                last_err = e;
            },
        }
        i = i + 1;
    }
    Err(last_err)
}

/// What is said of a text that could be decoded but holds no notes.
pub open spec fn parse_failed(e: Seq<char>, text: Seq<char>, list: Seq<Seq<u8>>) -> Seq<char> {
    let first = list[0];
    let shown = if first.len() < 12 {
        first
    } else {
        first.take(12)
    };
    "Parse failed: "@ + e + " (input_len: "@ + decimal(encode_utf8(text).len()) + ", starts: "@
        + quoted(head(text, 20)) + ", decodings: "@ + decimal(list.len()) + ", first_decode_len: "@
        + decimal(first.len()) + ", first_bytes: "@ + hex_list(shown) + ")"@
}

/// The bundle of notes that a text holds, white space left out.
pub open spec fn bundle_in_text(text: Seq<char>) -> Result<Bundle, Seq<char>> {
    let squeezed = squeezed(text);
    let list = decodings(squeezed);
    if list.len() == 0 {
        Err("Could not decode ecash string"@)
    } else {
        match bundle_in_list(list) {
            Ok(bundle) => Ok(bundle),
            Err(e) => Err(parse_failed(e, squeezed, list)),
        }
    }
}

/// Reads a bundle of notes from text.
pub fn parse_notes(s: &str) -> (notes: Result<ParsedNotes, String>)
    ensures
        match notes {
            Ok(notes) => notes.wf() && bundle_in_text(s@) == Ok::<Bundle, Seq<char>>(notes@),
            Err(e) => bundle_in_text(s@) == Err::<Bundle, Seq<char>>(e@),
        },
{
    let text = squeeze(s);
    let list = decode_all_variants(text.as_str());
    assert(byte_strings(list@).len() == list@.len());
    if list.len() == 0 {
        return Err("Could not decode ecash string".to_string());
    }
    match parse_decodings(&list) {
        Ok(notes) => Ok(notes),
        Err(e) => {
            assert(byte_strings(list@)[0] == list@[0]@);
            Err(describe_failure(e.as_str(), text.as_str(), &list))
        },
    }
}

/// Says of a text that could be decoded that it holds no notes.
fn describe_failure(e: &str, text: &str, list: &Vec<Vec<u8>>) -> (message: String)
    requires
        list@.len() > 0,
    ensures
        message@ == parse_failed(e@, text@, byte_strings(list@)),
{
    let first = &list[0];
    let mut message = "Parse failed: ".to_string();
    message.append(e);
    message.append(" (input_len: ");
    push_decimal(&mut message, text.as_bytes().len() as u64);
    message.append(", starts: ");
    let start = take_head(text, 20);
    message.append(quote(start.as_str()).as_str());
    message.append(", decodings: ");
    push_decimal(&mut message, list.len() as u64);
    message.append(", first_decode_len: ");
    push_decimal(&mut message, first.len() as u64);
    message.append(", first_bytes: ");
    let n: usize = if first.len() < 12 {
        first.len()
    } else {
        12
    };
    let shown = vstd::slice::slice_subrange(first.as_slice(), 0, n);
    push_hex_list(&mut message, shown);
    message.append(")");
    proof {
        assert(byte_strings(list@)[0] == first@);
        assert(byte_strings(list@).len() == list@.len());
        assert(shown@ =~= if first@.len() < 12 {
            first@
        } else {
            first@.take(12)
        });
    }
    message
}

/// Whether the notes are of the federation with the given prefix.
pub fn check_federation(notes: &ParsedNotes, expected_prefix: &FederationIdPrefix) -> (yes: bool)
    ensures
        yes == (notes@.prefix == expected_prefix@),
{
    same_bytes(&notes.federation_id_prefix, expected_prefix)
}

/// The prefix of a federation's ID.
pub fn federation_id_to_prefix(fed_id: &[u8; 32]) -> (prefix: FederationIdPrefix)
    ensures
        prefix@ == fed_id@.take(4),
{
    first_4(fed_id)
}

/// The bytes that `bech32::decode` finds in the text, or what it says is wrong.
pub uninterp spec fn bech32_decoded(text: Seq<char>) -> Result<Seq<u8>, Seq<char>>;

/// `bech32::decode`: the data behind a valid bech32 or bech32m checksum, or the text of the
/// error. Which texts are valid, and what the errors say, is left open here.
#[verifier::external_body]
pub(crate) fn bech32_decode(text: &str) -> (bytes: Result<Vec<u8>, String>)
    ensures
        match bytes {
            Ok(bytes) => bech32_decoded(text@) == Ok::<Seq<u8>, Seq<char>>(bytes@),
            Err(e) => bech32_decoded(text@) == Err::<Seq<u8>, Seq<char>>(e@),
        },
{
    bech32::decode(text).map(|(_hrp, data)| data).map_err(|e| e.to_string())
}

/// The federation's ID in an invite code, of which the case and the white space around it do
/// not matter.
pub open spec fn federation_in_code(text: Seq<char>) -> Result<Seq<u8>, Seq<char>> {
    let lower = lowered(trimmed(text));
    if begins_with(encode_utf8(lower), encode_utf8("fedimint"@)) {
        match fedimint_decoded(lower) {
            Ok(bytes) => federation_in_invite(bytes),
            Err(e) => Err(e),
        }
    } else if begins_with(encode_utf8(lower), encode_utf8("fed1"@)) {
        match bech32_decoded(lower) {
            Ok(bytes) => federation_in_invite(bytes),
            Err(e) => Err("Invalid invite code: "@ + e),
        }
    } else {
        Err("Invite code must start with 'fed1' or 'fedimint'"@)
    }
}

/// Reads the federation's ID out of an invite code.
pub fn parse_invite_code(s: &str) -> (id: Result<[u8; 32], String>)
    ensures
        match id {
            Ok(id) => federation_in_code(s@) == Ok::<Seq<u8>, Seq<char>>(id@),
            Err(e) => federation_in_code(s@) == Err::<Seq<u8>, Seq<char>>(e@),
        },
{
    let trimmed = trim(s);
    let lower = to_lowercase(trimmed.as_str());
    if starts_with(lower.as_str().as_bytes(), "fedimint".as_bytes()) {
        match decode_fedimint_base32(lower.as_str()) {
            Ok(bytes) => parse_invite_bytes(&bytes),
            Err(e) => Err(e),
        }
    } else if starts_with(lower.as_str().as_bytes(), "fed1".as_bytes()) {
        match bech32_decode(lower.as_str()) {
            Ok(bytes) => parse_invite_bytes(&bytes),
            Err(e) => {
                let mut message = "Invalid invite code: ".to_string();
                message.append(e.as_str());
                Err(message)
            },
        }
    } else {
        Err("Invite code must start with 'fed1' or 'fedimint'".to_string())
    }
}

/// One note as text.
pub open spec fn note_text(prefix: Seq<u8>, format: NoteFormat, d: u64, note: Seq<u8>) -> Seq<
    char,
> {
    match format {
        NoteFormat::V1 => encoded(true, true, v1_bytes(prefix, single(d, note))),
        NoteFormat::V2 => encoded(true, true, v2_bytes(prefix, single(d, note))),
    }
}

/// Each note of a bundle as text, in its place.
pub open spec fn split_texts(bundle: Bundle) -> Map<u64, Seq<Seq<char>>> {
    Map::new(
        |d: u64| bundle.tiers.contains_key(d) && bundle.tiers[d].len() > 0,
        |d: u64|
            bundle.tiers[d].map_values(
                |note: Seq<u8>| note_text(bundle.prefix, bundle.format, d, note),
            ),
    )
}

/// Writes each note of a bundle as text of its own.
pub fn split_notes_by_denomination(notes: &ParsedNotes) -> (split: BTreeMap<u64, Vec<String>>)
    requires
        notes.wf(),
    ensures
        text_tiers(split@) == split_texts(notes@),
{
    let ghost bundle = notes@;
    let denoms = keys_ascending(&notes.raw_notes);
    let ghost ds = denoms@;
    let mut split: BTreeMap<u64, Vec<String>> = BTreeMap::new();
    let mut i: usize = 0;
    while i < denoms.len()
        invariant
            i <= ds.len(),
            ds == denoms@,
            ds.to_set() == notes.raw_notes@.dom(),
            bundle == notes@,
            notes.wf(),
            forall|d: u64| #[trigger] split@.contains_key(d) <==> ds.take(i as int).contains(d),
            forall|d: u64| #[trigger]
                split@.contains_key(d) ==> texts(split@[d]@) == split_texts(bundle)[d],
        decreases ds.len() - i,
    {
        let d: u64 = denoms[i];
        proof {
            assert(ds.to_set().contains(d));
            assert forall|e: u64| #[trigger] ds.take(i + 1).contains(e) == (ds.take(
                i as int,
            ).contains(e) || e == d) by {
                lemma_take_contains(ds, i as int, e);
            }
        }
        if let Some(list) = notes.raw_notes.get(&d) {
            proof {
                assert(byte_strings(list@) == bundle.tiers[d]);
                assert forall|k: int| 0 <= k < list@.len() implies proper_note(
                    notes.format,
                    d,
                    #[trigger] byte_strings(list@)[k],
                ) by {
                    assert(proper_note(notes.format, d, bundle.tiers[d][k]));
                }
            }
            let strings = note_strings(&notes.federation_id_prefix, notes.format, d, list);
            proof {
                assert(texts(strings@) =~= split_texts(bundle)[d]);
            }
            split.insert(d, strings);
        }
        i = i + 1;
    }
    proof {
        assert(ds.take(i as int) =~= ds);
        assert forall|d: u64| ds.contains(d) == notes.raw_notes@.contains_key(d) by {
            assert(ds.to_set().contains(d) == notes.raw_notes@.contains_key(d));
        }
        assert forall|d: u64| notes.raw_notes@.contains_key(d) == #[trigger] split_texts(
            bundle,
        ).contains_key(d) by {
            assert(note_tiers(notes.raw_notes@).contains_key(d) == notes.raw_notes@.contains_key(
                d,
            ));
            if notes.raw_notes@.contains_key(d) {
                assert(byte_strings(notes.raw_notes@[d]@).len() == notes.raw_notes@[d]@.len());
            }
        }
        assert(text_tiers(split@) =~= split_texts(bundle));
    }
    split
}

/// The notes of a list as text, each on its own.
fn note_strings(
    prefix: &FederationIdPrefix,
    format: NoteFormat,
    d: u64,
    list: &Vec<Vec<u8>>,
) -> (strings: Vec<String>)
    requires
        forall|i: int|
            0 <= i < list@.len() ==> proper_note(
                format,
                d,
                #[trigger] byte_strings(list@)[i],
            ),
    ensures
        texts(strings@) == byte_strings(list@).map_values(
            |note: Seq<u8>| note_text(prefix@, format, d, note),
        ),
{
    let mut strings: Vec<String> = Vec::new();
    let mut i: usize = 0;
    while i < list.len()
        invariant
            i <= list@.len(),
            forall|k: int|
                0 <= k < list@.len() ==> proper_note(
                    format,
                    d,
                    #[trigger] byte_strings(list@)[k],
                ),
            strings@.len() == i,
            forall|k: int|
                0 <= k < i ==> (#[trigger] strings@[k])@ == note_text(
                    prefix@,
                    format,
                    d,
                    list@[k]@,
                ),
        decreases list@.len() - i,
    {
        let note = &list[i];
        let bytes = match format {
            NoteFormat::V1 => encode_single_note_v1_oob(prefix, d, note),
            NoteFormat::V2 => encode_single_note_v2_ecash(prefix, note),
        };
        proof {
            assert(byte_strings(list@)[i as int] == note@);
            match format {
                NoteFormat::V1 => {
                    lemma_single_v1_len(prefix@, d, note@);
                },
                NoteFormat::V2 => {
                    assert(bytes@ == v2_bytes(prefix@, single(d, note@)));
                    lemma_single_v2_len(prefix@, d, note@);
                },
            }
        }
        strings.push(encode_url_safe(&bytes));
        i = i + 1;
    }
    assert(texts(strings@) =~= byte_strings(list@).map_values(
        |note: Seq<u8>| note_text(prefix@, format, d, note),
    ));
    strings
}

/// The lists that hold anything.
pub open spec fn stocked(tiers: Map<u64, Seq<Seq<u8>>>) -> Map<u64, Seq<Seq<u8>>> {
    tiers.restrict(Set::new(|d: u64| tiers.contains_key(d) && tiers[d].len() > 0))
}

/// `tiers` and the notes of all the texts. They must be of one federation and of one format: those
/// that `first` names, or else those of the first text. A note of one format cannot be written in
/// the other.
pub open spec fn gathered_from(
    texts: Seq<Seq<char>>,
    first: Option<(Seq<u8>, NoteFormat)>,
    tiers: Map<u64, Seq<Seq<u8>>>,
) -> Result<(Option<(Seq<u8>, NoteFormat)>, Map<u64, Seq<Seq<u8>>>), Seq<char>>
    decreases texts.len(),
{
    if texts.len() == 0 {
        Ok((first, tiers))
    } else {
        match bundle_in_list(decodings(texts[0])) {
            Err(_) => Err("Could not parse note for combining"@),
            Ok(bundle) => {
                let all = merged(tiers, stocked(bundle.tiers));
                match first {
                    Some((prefix, format)) => if prefix != bundle.prefix {
                        Err("Mixed federation notes"@)
                    } else if format != bundle.format {
                        Err("Mixed note formats"@)
                    } else {
                        gathered_from(texts.skip(1), first, all)
                    },
                    None => gathered_from(
                        texts.skip(1),
                        Some((bundle.prefix, bundle.format)),
                        all,
                    ),
                }
            },
        }
    }
}

/// All the notes of the texts in one bundle.
pub open spec fn gathered(texts: Seq<Seq<char>>) -> Result<Bundle, Seq<char>> {
    if texts.len() == 0 {
        Err("No notes to combine"@)
    } else {
        match gathered_from(texts, None, Map::empty()) {
            Err(e) => Err(e),
            Ok((first, tiers)) => match first {
                Some((prefix, format)) => Ok(Bundle { prefix, tiers, format }),
                None => Err("No notes"@),
            },
        }
    }
}

/// Notes that were brought together.
#[derive(Debug)]
pub struct GatheredNotes {
    /// The first four bytes of the ID of the federation that issued the notes.
    pub prefix: FederationIdPrefix,
    /// The notes under each denomination in msats.
    pub notes: BTreeMap<u64, Vec<Vec<u8>>>,
    /// How the bundle is to be written.
    pub format: NoteFormat,
}

impl View for GatheredNotes {
    type V = Bundle;

    open spec fn view(&self) -> Bundle {
        Bundle { prefix: self.prefix@, tiers: note_tiers(self.notes@), format: self.format }
    }
}

/// The bytes of a bundle in its format.
pub open spec fn bundle_bytes(bundle: Bundle) -> Seq<u8> {
    match bundle.format {
        NoteFormat::V1 => v1_bytes(bundle.prefix, bundle.tiers),
        NoteFormat::V2 => v2_bytes(bundle.prefix, bundle.tiers),
    }
}

/// The number of notes can be written, and so can the bundle as text.
pub open spec fn writable(bundle: Bundle) -> bool {
    &&& note_count(ascending(bundle.tiers.dom()), bundle.tiers) < u64::MAX
    &&& (bundle_bytes(bundle).len() + 2) / 3 * 4 <= isize::MAX
}

/// What `first` says of the federation and the format.
spec fn first_view(first: Option<(FederationIdPrefix, NoteFormat)>) -> Option<
    (Seq<u8>, NoteFormat),
> {
    match first {
        Some((prefix, format)) => Some((prefix@, format)),
        None => None,
    }
}

/// Adds the notes of a bundle.
fn add_bundle(all: &mut BTreeMap<u64, Vec<Vec<u8>>>, bundle: ParsedNotes)
    requires
        bundle.wf(),
    ensures
        note_tiers(final(all)@) == merged(note_tiers(old(all)@), stocked(bundle@.tiers)),
{
    let ghost before = all@;
    let ghost given = bundle.raw_notes@;
    let ghost tiers = bundle@.tiers;
    merge_tiers(all, bundle.raw_notes);
    proof {
        assert(note_tiers(given) =~= stocked(tiers)) by {
            assert forall|d: u64| note_tiers(given).contains_key(d) == #[trigger] stocked(
                tiers,
            ).contains_key(d) by {
                if given.contains_key(d) {
                    assert(byte_strings(given[d]@).len() == given[d]@.len());
                }
            }
        }
        let want = merged(note_tiers(before), note_tiers(given));
        assert forall|d: u64| #[trigger] note_tiers(all@).contains_key(d) implies note_tiers(
            all@,
        )[d] == want[d] by {
            assert(all@.contains_key(d));
            assert(byte_strings(items(before, d) + items(given, d)) =~= byte_strings(
                items(before, d),
            ) + byte_strings(items(given, d)));
            assert(byte_strings(items(before, d)) =~= listed(note_tiers(before), d));
            assert(byte_strings(items(given, d)) =~= listed(note_tiers(given), d));
        }
        assert(note_tiers(all@) =~= want);
    }
}

/// Brings the notes of several texts together.
pub fn gather_notes(note_strings: &[String]) -> (all: Result<GatheredNotes, String>)
    ensures
        match all {
            Ok(all) => gathered(texts(note_strings@)) == Ok::<Bundle, Seq<char>>(all@),
            Err(e) => gathered(texts(note_strings@)) == Err::<Bundle, Seq<char>>(e@),
        },
{
    let ghost given = texts(note_strings@);
    assert(given.len() == note_strings@.len());
    if note_strings.len() == 0 {
        return Err("No notes to combine".to_string());
    }
    let mut first: Option<(FederationIdPrefix, NoteFormat)> = None;
    let mut notes: BTreeMap<u64, Vec<Vec<u8>>> = BTreeMap::new();
    assert(note_tiers(notes@) =~= Map::empty());
    assert(given.skip(0) =~= given);
    let mut i: usize = 0;
    while i < note_strings.len()
        invariant
            i <= note_strings@.len(),
            note_strings@.len() > 0,
            given == texts(note_strings@),
            gathered_from(given, None, Map::empty()) == gathered_from(
                given.skip(i as int),
                first_view(first),
                note_tiers(notes@),
            ),
        decreases note_strings@.len() - i,
    {
        proof {
            assert(given.skip(i as int)[0] == note_strings@[i as int]@);
            assert(given.skip(i as int).skip(1) =~= given.skip(i + 1));
        }
        let list = decode_all_variants(note_strings[i].as_str());
        let bundle = match parse_decodings(&list) {
            Ok(bundle) => bundle,
            Err(_) => {
                return Err("Could not parse note for combining".to_string());
            },
        };
        match first {
            Some((prefix, format)) => {
                if !check_federation(&bundle, &prefix) {
                    return Err("Mixed federation notes".to_string());
                }
                if format != bundle.format {
                    return Err("Mixed note formats".to_string());
                }
            },
            None => {
                first = Some((bundle.federation_id_prefix, bundle.format));
            },
        }
        add_bundle(&mut notes, bundle);
        i = i + 1;
    }
    match first {
        Some((prefix, format)) => Ok(GatheredNotes { prefix, notes, format }),
        None => Err("No notes".to_string()),
    }
}

impl GatheredNotes {
    /// Writes the bundle in its format.
    pub fn to_bytes(&self) -> (out: Vec<u8>)
        requires
            note_count(ascending(self@.tiers.dom()), self@.tiers) < u64::MAX,
        ensures
            out@ == bundle_bytes(self@),
    {
        assert(note_tiers(self.notes@).dom() =~= self.notes@.dom());
        match self.format {
            NoteFormat::V1 => encode_multi_note_v1_oob(&self.prefix, &self.notes),
            NoteFormat::V2 => encode_multi_note_v2_ecash(&self.prefix, &self.notes),
        }
    }

    /// Whether the bundle can be written as text.
    pub fn is_writable(&self) -> (yes: bool)
        ensures
            yes == writable(self@),
    {
        assert(note_tiers(self.notes@).dom() =~= self.notes@.dom());
        match checked_note_count(&self.notes) {
            Some(n) => {
                if n == u64::MAX {
                    return false;
                }
                let out = self.to_bytes();
                let n: usize = out.len();
                let groups: usize = if n % 3 == 0 {
                    n / 3
                } else {
                    n / 3 + 1
                };
                groups <= isize::MAX as usize / 4
            },
            None => false,
        }
    }
}

/// Puts several notes together into one text.
pub fn combine_note_strings(note_strings: &[String]) -> (combined: Result<String, String>)
    requires
        gathered(texts(note_strings@)) matches Ok(bundle) ==> writable(bundle),
    ensures
        match gathered(texts(note_strings@)) {
            Ok(bundle) => combined matches Ok(text) && text@ == encoded(
                true,
                true,
                bundle_bytes(bundle),
            ),
            Err(e) => combined matches Err(said) && said@ == e,
        },
{
    match gather_notes(note_strings) {
        Ok(all) => Ok(encode_url_safe(&all.to_bytes())),
        Err(e) => Err(e),
    }
}

/// Puts several notes together into one text, or gives nothing where the text would be longer
/// than a string can be.
pub fn checked_combine_note_strings(note_strings: &[String]) -> (combined: Option<
    Result<String, String>,
>)
    ensures
        match gathered(texts(note_strings@)) {
            Ok(bundle) => match combined {
                Some(combined) => {
                    &&& writable(bundle)
                    &&& combined matches Ok(text)
                    &&& text@ == encoded(true, true, bundle_bytes(bundle))
                },
                None => !writable(bundle),
            },
            Err(e) => combined matches Some(Err(said)) && said@ == e,
        },
{
    let all = match gather_notes(note_strings) {
        Ok(all) => all,
        Err(e) => {
            return Some(Err(e));
        },
    };
    if all.is_writable() {
        Some(combine_note_strings(note_strings))
    } else {
        None
    }
}

} // verus!
