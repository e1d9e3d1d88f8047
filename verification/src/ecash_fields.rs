//! The second format of note bundles: a list of fields, each with a tag.

use crate::notes::{
    add_notes, amount_of, byte_strings, lemma_with_notes_proper, note_tiers, part, proper_note,
    proper_tiers, push_bytes, read_part, with_notes, Bundle, FederationIdPrefix, NoteFormat,
    ParsedNotes, MAX_BODY,
};
use crate::invite::first_32;
use crate::oob_notes::{first_4, single};
use crate::text::{decimal, push_decimal};
use crate::tiers::{
    ascending, keys_ascending, lemma_ascending_exists, lemma_take_contains, listed,
    strictly_ascending,
};
use crate::varint::{
    law_varint_round_trip, lemma_varint_len, read_error, read_varint, varint, varint_bytes,
    write_varint, Reader,
};
use std::collections::BTreeMap;
use vstd::prelude::*;

verus! {

/// What is said where the bytes end within a field.
pub open spec fn short_field() -> Seq<char> {
    "Read v2 error: failed to fill whole buffer"@
}

/// What is known of the federation, and the notes, once `n` fields at the front of `s` have been
/// read. The tag 0 is that of a federation's ID and 1 that of a note. Fields that are too short
/// for what their tag says, and fields with other tags, are passed over.
pub open spec fn v2_fields(
    n: nat,
    s: Seq<u8>,
    id: Option<Seq<u8>>,
    tiers: Map<u64, Seq<Seq<u8>>>,
) -> Result<(Option<Seq<u8>>, Map<u64, Seq<Seq<u8>>>), Seq<char>>
    decreases n,
{
    if n == 0 {
        Ok((id, tiers))
    } else {
        match part(s, MAX_BODY, short_field()) {
            Err(e) => Err(e),
            Ok((tag, body, rest)) => if tag == 0 && body.len() >= 32 {
                v2_fields((n - 1) as nat, rest, Some(body.take(32)), tiers)
            } else if tag == 1 && body.len() >= 81 {
                v2_fields(
                    (n - 1) as nat,
                    rest,
                    id,
                    with_notes(tiers, amount_of(body[0]), seq![body]),
                )
            } else {
                v2_fields((n - 1) as nat, rest, id, tiers)
            },
        }
    }
}

/// The bundle that the bytes are in the second format. Bytes behind it do no harm.
pub open spec fn v2_bundle(bytes: Seq<u8>) -> Result<Bundle, Seq<char>> {
    match varint(bytes) {
        None => Err(read_error()),
        Some((n, s)) => if n == 0 || n > 100_000 {
            Err("Invalid v2 field count: "@ + decimal(n as nat))
        } else {
            match v2_fields(n as nat, s, None, Map::empty()) {
                Err(e) => Err(e),
                Ok((id, tiers)) => match id {
                    None => Err("No federation ID in v2 ecash"@),
                    Some(id) => if tiers == Map::<u64, Seq<Seq<u8>>>::empty() {
                        Err("No notes in v2 ecash"@)
                    } else {
                        Ok(Bundle { prefix: id.take(4), tiers, format: NoteFormat::V2 })
                    },
                },
            }
        },
    }
}

/// The contents of an ID, if there is one.
spec fn id_view(id: Option<[u8; 32]>) -> Option<Seq<u8>> {
    match id {
        Some(id) => Some(id@),
        None => None,
    }
}

/// Reads a bundle in the second format.
pub fn parse_v2_ecash(bytes: &[u8]) -> (notes: Result<ParsedNotes, String>)
    ensures
        match notes {
            Ok(notes) => notes.wf() && v2_bundle(bytes@) == Ok::<Bundle, Seq<char>>(notes@),
            Err(e) => v2_bundle(bytes@) == Err::<Bundle, Seq<char>>(e@),
        },
{
    let mut r = Reader::new(bytes);
    let num_fields: u64 = match read_varint(&mut r) {
        Ok(n) => n,
        Err(e) => {
            return Err(e);
        },
    };
    if num_fields == 0 || num_fields > 100_000 {
        let mut e = "Invalid v2 field count: ".to_string();
        push_decimal(&mut e, num_fields);
        return Err(e);
    }
    let ghost start = r@;
    let mut id: Option<[u8; 32]> = None;
    let mut tiers: BTreeMap<u64, Vec<Vec<u8>>> = BTreeMap::new();
    assert(note_tiers(tiers@) =~= Map::empty());
    let mut i: u64 = 0;
    while i < num_fields
        invariant
            r.wf(),
            i <= num_fields <= 100_000,
            num_fields > 0,
            varint(bytes@) == Some((num_fields, start)),
            v2_fields(num_fields as nat, start, None, Map::empty()) == v2_fields(
                (num_fields - i) as nat,
                r@,
                id_view(id),
                note_tiers(tiers@),
            ),
            proper_tiers(NoteFormat::V2, note_tiers(tiers@)),
        decreases num_fields - i,
    {
        let (tag, body) = match read_part(
            &mut r,
            MAX_BODY,
            "Read v2 error: failed to fill whole buffer",
        ) {
            Ok(read) => read,
            Err(e) => {
                return Err(e);
            },
        };
        if tag == 0 {
            if body.len() >= 32 {
                id = Some(first_32(&body));
            }
        } else if tag == 1 {
            if body.len() >= 81 {
                let amount_msats: u64 = 1u64 << ((body[0] % 64) as u64);
                let ghost before = note_tiers(tiers@);
                let ghost note = body@;
                let mut list: Vec<Vec<u8>> = Vec::new();
                list.push(body);
                assert(byte_strings(list@) =~= seq![note]);
                proof {
                    lemma_with_notes_proper(
                        NoteFormat::V2,
                        before,
                        amount_msats,
                        byte_strings(list@),
                    );
                }
                add_notes(&mut tiers, amount_msats, list);
            }
        }
        i = i + 1;
    }
    let id: [u8; 32] = match id {
        Some(id) => id,
        None => {
            return Err("No federation ID in v2 ecash".to_string());
        },
    };
    let prefix = first_4(&id);
    if tiers.is_empty() {
        assert(note_tiers(tiers@) =~= Map::empty());
        return Err("No notes in v2 ecash".to_string());
    }
    proof {
        assert(note_tiers(tiers@) != Map::<u64, Seq<Seq<u8>>>::empty()) by {
            assert(note_tiers(tiers@).dom() =~= tiers@.dom());
        }
    }
    Ok(ParsedNotes::from_tiers(prefix, tiers, NoteFormat::V2))
}

/// The notes of a list as they are written, each in a field of its own.
pub open spec fn v2_list_bytes(list: Seq<Seq<u8>>) -> Seq<u8>
    decreases list.len(),
{
    if list.len() == 0 {
        Seq::empty()
    } else {
        varint_bytes(1) + varint_bytes(list[0].len() as u64) + list[0] + v2_list_bytes(list.skip(1))
    }
}

/// The notes of the denominations `ds` as they are written.
pub open spec fn v2_tiers_bytes(ds: Seq<u64>, tiers: Map<u64, Seq<Seq<u8>>>) -> Seq<u8>
    decreases ds.len(),
{
    if ds.len() == 0 {
        Seq::empty()
    } else {
        v2_list_bytes(tiers[ds[0]]) + v2_tiers_bytes(ds.skip(1), tiers)
    }
}

/// How many notes there are of the denominations `ds`.
pub open spec fn note_count(ds: Seq<u64>, tiers: Map<u64, Seq<Seq<u8>>>) -> nat
    decreases ds.len(),
{
    if ds.len() == 0 {
        0
    } else {
        tiers[ds[0]].len() + note_count(ds.skip(1), tiers)
    }
}

/// How many notes there are, unless that is more than a `u64` holds.
pub fn checked_note_count(notes: &BTreeMap<u64, Vec<Vec<u8>>>) -> (count: Option<u64>)
    ensures
        match count {
            Some(count) => count == note_count(ascending(notes@.dom()), note_tiers(notes@)),
            None => note_count(ascending(notes@.dom()), note_tiers(notes@)) > u64::MAX,
        },
{
    let ghost tiers = note_tiers(notes@);
    let denoms = keys_ascending(notes);
    let ghost ds = denoms@;
    assert(ds.skip(0) =~= ds);
    let mut count: u64 = 0;
    let mut i: usize = 0;
    while i < denoms.len()
        invariant
            i <= ds.len(),
            ds == denoms@,
            ds == ascending(notes@.dom()),
            ds.to_set() == notes@.dom(),
            tiers == note_tiers(notes@),
            count + note_count(ds.skip(i as int), tiers) == note_count(ds, tiers),
        decreases ds.len() - i,
    {
        let d: u64 = denoms[i];
        assert(ds.to_set().contains(d));
        assert(ds.skip(i as int).skip(1) =~= ds.skip(i + 1));
        assert(ds.skip(i as int)[0] == d);
        if let Some(list) = notes.get(&d) {
            assert(byte_strings(list@) == tiers[d]);
            assert(byte_strings(list@).len() == list@.len());
            count = match count.checked_add(list.len() as u64) {
                Some(count) => count,
                None => {
                    return None;
                },
            };
        }
        i = i + 1;
    }
    assert(note_count(ds.skip(i as int), tiers) == 0);
    Some(count)
}

/// An ID with the given prefix and zeros behind it.
pub open spec fn filled_id(prefix: Seq<u8>) -> Seq<u8> {
    prefix + Seq::new(28, |i: int| 0u8)
}

/// A bundle in the second format as it is written: a field with an ID that has the federation's
/// prefix, and a field for each note, the smallest denomination first.
pub open spec fn v2_bytes(prefix: Seq<u8>, tiers: Map<u64, Seq<Seq<u8>>>) -> Seq<u8> {
    let ds = ascending(tiers.dom());
    varint_bytes((1 + note_count(ds, tiers)) as u64) + (varint_bytes(0) + (varint_bytes(32) + (
    filled_id(prefix) + v2_tiers_bytes(ds, tiers))))
}

/// Writes the field with the ID.
fn push_id(out: &mut Vec<u8>, prefix: &FederationIdPrefix)
    ensures
        final(out)@ == old(out)@ + varint_bytes(0) + varint_bytes(32) + filled_id(prefix@),
{
    write_varint(out, 0);
    write_varint(out, 32);
    push_bytes(out, prefix);
    let zeros: [u8; 28] = [0u8; 28];
    push_bytes(out, &zeros);
    assert(zeros@ =~= Seq::new(28, |i: int| 0u8));
    assert(out@ =~= old(out)@ + varint_bytes(0) + varint_bytes(32) + filled_id(prefix@));
}

/// Writes a field for each note.
fn push_list(out: &mut Vec<u8>, list: &Vec<Vec<u8>>)
    ensures
        final(out)@ == old(out)@ + v2_list_bytes(byte_strings(list@)),
{
    let ghost all = byte_strings(list@);
    let ghost start = out@;
    let mut i: usize = 0;
    assert(all.skip(0) =~= all);
    while i < list.len()
        invariant
            i <= list@.len(),
            all == byte_strings(list@),
            out@ + v2_list_bytes(all.skip(i as int)) == start + v2_list_bytes(all),
        decreases list@.len() - i,
    {
        let ghost before = out@;
        write_varint(out, 1);
        write_varint(out, list[i].len() as u64);
        push_bytes(out, &list[i]);
        proof {
            assert(all.skip(i as int).skip(1) =~= all.skip(i + 1));
            assert(all.skip(i as int)[0] == list@[i as int]@);
            assert(out@ + v2_list_bytes(all.skip(i + 1)) =~= before + v2_list_bytes(
                all.skip(i as int),
            ));
        }
        i = i + 1;
    }
    assert(v2_list_bytes(all.skip(i as int)) =~= Seq::<u8>::empty());
    assert(out@ =~= start + v2_list_bytes(all));
}

/// Writes a bundle in the second format.
pub fn encode_multi_note_v2_ecash(
    prefix: &FederationIdPrefix,
    notes: &BTreeMap<u64, Vec<Vec<u8>>>,
) -> (out: Vec<u8>)
    requires
        note_count(ascending(notes@.dom()), note_tiers(notes@)) < u64::MAX,
    ensures
        out@ == v2_bytes(prefix@, note_tiers(notes@)),
{
    let ghost tiers = note_tiers(notes@);
    let denoms = keys_ascending(notes);
    let ghost ds = denoms@;
    assert(tiers.dom() =~= notes@.dom());
    assert(ds.skip(0) =~= ds);
    let count: u64 = checked_note_count(notes).unwrap();
    let mut out: Vec<u8> = Vec::new();
    write_varint(&mut out, 1 + count);
    push_id(&mut out, prefix);
    let ghost head = out@;
    let mut i: usize = 0;
    while i < denoms.len()
        invariant
            i <= ds.len(),
            ds == denoms@,
            ds.to_set() == notes@.dom(),
            tiers == note_tiers(notes@),
            out@ + v2_tiers_bytes(ds.skip(i as int), tiers) == head + v2_tiers_bytes(ds, tiers),
        decreases ds.len() - i,
    {
        let d: u64 = denoms[i];
        assert(ds.to_set().contains(d));
        let ghost before = out@;
        if let Some(list) = notes.get(&d) {
            assert(byte_strings(list@) == tiers[d]);
            push_list(&mut out, list);
            proof {
                assert(ds.skip(i as int).skip(1) =~= ds.skip(i + 1));
                assert(ds.skip(i as int)[0] == d);
                assert(out@ + v2_tiers_bytes(ds.skip(i + 1), tiers) =~= before + v2_tiers_bytes(
                    ds.skip(i as int),
                    tiers,
                ));
            }
        }
        i = i + 1;
    }
    assert(v2_tiers_bytes(ds.skip(i as int), tiers) =~= Seq::<u8>::empty());
    assert(out@ =~= v2_bytes(prefix@, tiers));
    out
}

/// The denominations of a bundle with a single note.
pub proof fn lemma_single_tiers(d: u64, note: Seq<u8>)
    ensures
        ascending(single(d, note).dom()) == seq![d],
        note_count(seq![d], single(d, note)) == 1,
        v2_tiers_bytes(seq![d], single(d, note)) == v2_list_bytes(seq![note]),
{
    let ds = seq![d];
    assert(ds.to_set() =~= single(d, note).dom()) by {
        assert(ds[0] == d);
    }
    crate::tiers::lemma_ascending_is(ds);
    assert(ds.skip(1) =~= Seq::<u64>::empty());
    assert(note_count(Seq::<u64>::empty(), single(d, note)) == 0);
    assert(v2_tiers_bytes(Seq::<u64>::empty(), single(d, note)) =~= Seq::<u8>::empty());
    assert(v2_tiers_bytes(ds, single(d, note)) =~= v2_list_bytes(seq![note]));
}

/// Writes one note as a bundle in the second format.
pub fn encode_single_note_v2_ecash(fed_prefix: &FederationIdPrefix, note_bytes: &Vec<u8>) -> (out:
    Vec<u8>)
    ensures
        forall|d: u64| out@ == #[trigger] v2_bytes(fed_prefix@, single(d, note_bytes@)),
        out@ == v2_bytes(fed_prefix@, single(0, note_bytes@)),
{
    let mut out: Vec<u8> = Vec::new();
    write_varint(&mut out, 2);
    push_id(&mut out, fed_prefix);
    write_varint(&mut out, 1);
    write_varint(&mut out, note_bytes.len() as u64);
    push_bytes(&mut out, note_bytes);
    proof {
        let list = seq![note_bytes@];
        assert(list.skip(1) =~= Seq::<Seq<u8>>::empty());
        assert(v2_list_bytes(Seq::<Seq<u8>>::empty()) =~= Seq::<u8>::empty());
        assert forall|d: u64| out@ == #[trigger] v2_bytes(
            fed_prefix@,
            single(d, note_bytes@),
        ) by {
            lemma_single_tiers(d, note_bytes@);
            assert(out@ =~= v2_bytes(fed_prefix@, single(d, note_bytes@)));
        }
    }
    out
}

proof fn lemma_v2_list_back(
    n: nat,
    d: u64,
    list: Seq<Seq<u8>>,
    rest: Seq<u8>,
    id: Option<Seq<u8>>,
    tiers: Map<u64, Seq<Seq<u8>>>,
)
    requires
        list.len() > 0,
        forall|i: int| 0 <= i < list.len() ==> proper_note(NoteFormat::V2, d, #[trigger] list[i]),
    ensures
        v2_fields(n + list.len(), v2_list_bytes(list) + rest, id, tiers) == v2_fields(
            n,
            rest,
            id,
            with_notes(tiers, d, list),
        ),
    decreases list.len(),
{
    let note = list[0];
    let tail = list.skip(1);
    let later = v2_list_bytes(tail) + rest;
    let s = v2_list_bytes(list) + rest;
    assert(proper_note(NoteFormat::V2, d, note));
    let s1 = varint_bytes(note.len() as u64) + (note + later);
    assert(s =~= varint_bytes(1) + s1);
    law_varint_round_trip(1, s1);
    law_varint_round_trip(note.len() as u64, note + later);
    assert((note + later).take(note.len() as int) =~= note);
    assert((note + later).skip(note.len() as int) =~= later);
    assert(part(s, MAX_BODY, short_field()) == Ok::<_, Seq<char>>((1u64, note, later)));
    let next = with_notes(tiers, d, seq![note]);
    if tail.len() == 0 {
        assert(list =~= seq![note]);
        assert(later =~= rest) by {
            assert(v2_list_bytes(tail) =~= Seq::<u8>::empty());
        }
    } else {
        assert forall|i: int| 0 <= i < tail.len() implies proper_note(
            NoteFormat::V2,
            d,
            #[trigger] tail[i],
        ) by {
            assert(tail[i] == list[i + 1]);
        }
        lemma_v2_list_back(n, d, tail, rest, id, next);
        assert(listed(tiers, d) + list =~= listed(tiers, d) + seq![note] + tail);
        assert(with_notes(next, d, tail) =~= with_notes(tiers, d, list));
    }
}

proof fn lemma_v2_tiers_back(
    ds: Seq<u64>,
    tiers: Map<u64, Seq<Seq<u8>>>,
    id: Option<Seq<u8>>,
    i: int,
)
    requires
        strictly_ascending(ds),
        ds.to_set() == tiers.dom(),
        proper_tiers(NoteFormat::V2, tiers),
        forall|d: u64| #[trigger] tiers.contains_key(d) ==> tiers[d].len() > 0,
        0 <= i <= ds.len(),
    ensures
        v2_fields(
            note_count(ds.skip(i), tiers),
            v2_tiers_bytes(ds.skip(i), tiers),
            id,
            tiers.restrict(ds.take(i).to_set()),
        ) == Ok::<_, Seq<char>>((id, tiers)),
    decreases ds.len() - i,
{
    let now = tiers.restrict(ds.take(i).to_set());
    if i == ds.len() {
        assert(ds.take(i) =~= ds);
        assert(now =~= tiers);
    } else {
        let d = ds[i];
        assert(ds.to_set().contains(d));
        assert(tiers.contains_key(d));
        let list = tiers[d];
        assert(ds.skip(i).skip(1) =~= ds.skip(i + 1));
        assert(ds.skip(i)[0] == d);
        assert forall|k: int| 0 <= k < list.len() implies proper_note(
            NoteFormat::V2,
            d,
            #[trigger] list[k],
        ) by {
            assert(proper_note(NoteFormat::V2, d, tiers[d][k]));
        }
        lemma_v2_list_back(
            note_count(ds.skip(i + 1), tiers),
            d,
            list,
            v2_tiers_bytes(ds.skip(i + 1), tiers),
            id,
            now,
        );
        let next = tiers.restrict(ds.take(i + 1).to_set());
        assert(!ds.take(i).contains(d)) by {
            assert forall|k: int| 0 <= k < i implies #[trigger] ds[k] != d by {
                assert(ds[k] < ds[i]);
            }
        }
        assert(with_notes(now, d, list) =~= next) by {
            assert forall|e: u64| ds.take(i + 1).to_set().contains(e) == (ds.take(
                i,
            ).to_set().contains(e) || e == d) by {
                lemma_take_contains(ds, i, e);
            }
            assert(!now.contains_key(d));
            assert(Seq::<Seq<u8>>::empty() + list =~= list);
        }
        lemma_v2_tiers_back(ds, tiers, id, i + 1);
    }
}

/// A bundle that keeps within the limits of the second format is read as it was written.
pub proof fn law_v2_round_trip(prefix: Seq<u8>, tiers: Map<u64, Seq<Seq<u8>>>)
    requires
        prefix.len() == 4,
        tiers.dom().finite(),
        tiers.dom().len() > 0,
        forall|d: u64| #[trigger] tiers.contains_key(d) ==> tiers[d].len() > 0,
        proper_tiers(NoteFormat::V2, tiers),
        note_count(ascending(tiers.dom()), tiers) < 100_000,
    ensures
        v2_bundle(v2_bytes(prefix, tiers)) == Ok::<Bundle, Seq<char>>(
            Bundle { prefix, tiers, format: NoteFormat::V2 },
        ),
{
    let ds = ascending(tiers.dom());
    lemma_ascending_exists(tiers.dom());
    let n = note_count(ds, tiers);
    let id = filled_id(prefix);
    let none = Map::<u64, Seq<Seq<u8>>>::empty();
    let s4 = v2_tiers_bytes(ds, tiers);
    let s3 = id + s4;
    let s2 = varint_bytes(32) + s3;
    let s1 = varint_bytes(0) + s2;
    law_varint_round_trip((1 + n) as u64, s1);
    law_varint_round_trip(0, s2);
    law_varint_round_trip(32, s3);
    assert(s3.take(32) =~= id);
    assert(s3.skip(32) =~= s4);
    assert(id.take(32) =~= id);
    assert(id.take(4) =~= prefix);
    assert(part(s1, MAX_BODY, short_field()) == Ok::<_, Seq<char>>((0u64, id, s4)));
    lemma_v2_tiers_back(ds, tiers, Some(id), 0);
    assert(ds.skip(0) =~= ds);
    assert(tiers.restrict(ds.take(0).to_set()) =~= none);
    assert(v2_fields(n, s4, Some(id), none) == Ok::<_, Seq<char>>((Some(id), tiers)));
    assert(v2_fields(1 + n, s1, None, none) == Ok::<_, Seq<char>>((Some(id), tiers)));
    assert(tiers != none) by {
        assert(none.dom().len() == 0);
    }
}

/// How long a bundle with a single note is when written.
pub proof fn lemma_single_v2_len(prefix: Seq<u8>, d: u64, note: Seq<u8>)
    requires
        prefix.len() == 4,
    ensures
        v2_bytes(prefix, single(d, note)).len() <= note.len() + 60,
{
    lemma_single_tiers(d, note);
    let list = seq![note];
    assert(list.skip(1) =~= Seq::<Seq<u8>>::empty());
    assert(v2_list_bytes(Seq::<Seq<u8>>::empty()) =~= Seq::<u8>::empty());
    lemma_varint_len(0);
    lemma_varint_len(1);
    lemma_varint_len(2);
    lemma_varint_len(32);
    lemma_varint_len(note.len() as u64);
}

} // verus!
