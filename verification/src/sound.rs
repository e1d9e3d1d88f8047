//! What holds of every bundle of notes that was read.

use crate::ecash::{bundle_in_bytes, bundle_in_list, bundle_in_text, decodings};
use crate::ecash_fields::{short_field, v2_fields};
use crate::notes::{
    amount_of, lemma_with_notes_proper, part, proper_note, proper_tiers, with_notes, Bundle,
    NoteFormat, MAX_BODY,
};
use crate::oob_notes::{
    cut_notes, lemma_v1_tiers_proper, prefix_or_invited, v1_body, v1_parts, v1_tiers,
};
use crate::text::squeezed;
use crate::varint::{read_error, varint};
use vstd::prelude::*;

verus! {

/// A bundle that lists something, with all notes as its format has them. Only the first format can
/// list a denomination without notes.
pub open spec fn sound(bundle: Bundle) -> bool {
    &&& bundle.prefix.len() == 4
    &&& bundle.tiers.dom().finite()
    &&& bundle.tiers.dom().len() > 0
    &&& bundle.format == NoteFormat::V2 ==> forall|d: u64| #[trigger]
        bundle.tiers.contains_key(d) ==> bundle.tiers[d].len() > 0
    &&& proper_tiers(bundle.format, bundle.tiers)
}

proof fn lemma_v1_tiers_finite(n: nat, s: Seq<u8>, tiers: Map<u64, Seq<Seq<u8>>>)
    requires
        tiers.dom().finite(),
    ensures
        v1_tiers(n, s, tiers) matches Ok(all) ==> all.dom().finite(),
    decreases n,
{
    if n > 0 {
        if let Some((d, s1)) = varint(s) {
            if let Some((count, s2)) = varint(s1) {
                if count <= 100_000 && 80 * count <= s2.len() {
                    let next = with_notes(tiers, d, cut_notes(s2, count as nat));
                    assert(next.dom() =~= tiers.dom().insert(d));
                    lemma_v1_tiers_finite((n - 1) as nat, s2.skip(80 * count), next);
                }
            }
        }
    }
}

proof fn lemma_v1_parts_sound(
    n: nat,
    s: Seq<u8>,
    prefix: Option<Seq<u8>>,
    tiers: Map<u64, Seq<Seq<u8>>>,
)
    requires
        tiers.dom().finite(),
        proper_tiers(NoteFormat::V1, tiers),
        prefix matches Some(p) ==> p.len() == 4,
    ensures
        v1_parts(n, s, prefix, tiers) matches Ok(all) ==> {
            &&& all.1.dom().finite()
            &&& proper_tiers(NoteFormat::V1, all.1)
            &&& all.0 matches Some(p) ==> p.len() == 4
        },
    decreases n,
{
    if n > 0 {
        if let Ok((tag, body, rest)) = part(s, MAX_BODY, read_error()) {
            if tag == 0 {
                if let Ok(next) = v1_body(body, tiers) {
                    if let Some((k, t)) = varint(body) {
                        lemma_v1_tiers_finite(k as nat, t, tiers);
                        lemma_v1_tiers_proper(k as nat, t, tiers);
                    }
                    lemma_v1_parts_sound((n - 1) as nat, rest, prefix, next);
                }
            } else if tag == 1 {
                if body.len() >= 4 {
                    lemma_v1_parts_sound((n - 1) as nat, rest, Some(body.take(4)), tiers);
                }
            } else if tag == 2 {
                lemma_v1_parts_sound((n - 1) as nat, rest, prefix_or_invited(prefix, body), tiers);
            } else {
                lemma_v1_parts_sound((n - 1) as nat, rest, prefix, tiers);
            }
        }
    }
}

proof fn lemma_v2_fields_sound(
    n: nat,
    s: Seq<u8>,
    id: Option<Seq<u8>>,
    tiers: Map<u64, Seq<Seq<u8>>>,
)
    requires
        tiers.dom().finite(),
        proper_tiers(NoteFormat::V2, tiers),
        forall|d: u64| #[trigger] tiers.contains_key(d) ==> tiers[d].len() > 0,
        id matches Some(p) ==> p.len() == 32,
    ensures
        v2_fields(n, s, id, tiers) matches Ok(all) ==> {
            &&& all.1.dom().finite()
            &&& proper_tiers(NoteFormat::V2, all.1)
            &&& forall|d: u64| #[trigger] all.1.contains_key(d) ==> all.1[d].len() > 0
            &&& all.0 matches Some(p) ==> p.len() == 32
        },
    decreases n,
{
    if n > 0 {
        if let Ok((tag, body, rest)) = part(s, MAX_BODY, short_field()) {
            if tag == 0 && body.len() >= 32 {
                lemma_v2_fields_sound((n - 1) as nat, rest, Some(body.take(32)), tiers);
            } else if tag == 1 && body.len() >= 81 {
                let d = amount_of(body[0]);
                let next = with_notes(tiers, d, seq![body]);
                assert(next.dom() =~= tiers.dom().insert(d));
                assert(proper_note(NoteFormat::V2, d, body));
                lemma_with_notes_proper(NoteFormat::V2, tiers, d, seq![body]);
                lemma_v2_fields_sound((n - 1) as nat, rest, id, next);
            } else {
                lemma_v2_fields_sound((n - 1) as nat, rest, id, tiers);
            }
        }
    }
}

proof fn lemma_bytes_sound(bytes: Seq<u8>)
    ensures
        bundle_in_bytes(bytes) matches Ok(bundle) ==> sound(bundle),
{
    if let Some((n, s)) = varint(bytes) {
        let none = Map::<u64, Seq<Seq<u8>>>::empty();
        lemma_v1_parts_sound(n as nat, s, None, none);
        lemma_v2_fields_sound(n as nat, s, None, none);
        if let Ok(bundle) = bundle_in_bytes(bytes) {
            if bundle.tiers.dom().len() == 0 {
                assert(bundle.tiers =~= none);
            }
        }
    }
}

/// Every bundle that is found in a list of byte strings is sound.
pub proof fn law_listed_bundle_is_sound(list: Seq<Seq<u8>>)
    ensures
        bundle_in_list(list) matches Ok(bundle) ==> sound(bundle),
    decreases list.len(),
{
    if list.len() > 0 {
        lemma_bytes_sound(list[0]);
        if list.len() > 1 {
            law_listed_bundle_is_sound(list.skip(1));
        }
    }
}

/// Every bundle that is read from a text is sound.
pub proof fn law_read_bundle_is_sound(text: Seq<char>)
    ensures
        bundle_in_text(text) matches Ok(bundle) ==> sound(bundle),
{
    law_listed_bundle_is_sound(decodings(squeezed(text)));
}

} // verus!
