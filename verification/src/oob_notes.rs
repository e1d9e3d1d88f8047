//! The first format of note bundles: a list of parts, each with a tag.

use crate::invite::{extract_federation_id_from_invite, invited_federation};
use crate::notes::{
    add_notes, byte_strings, joined, lemma_with_notes_proper, note_tiers, part, proper_note,
    proper_tiers, push_bytes, read_part, with_notes, Bundle, FederationIdPrefix, NoteFormat,
    ParsedNotes, MAX_BODY,
};
use crate::text::{decimal, push_decimal};
use crate::tiers::{
    ascending, keys_ascending, lemma_ascending_exists, lemma_take_contains, strictly_ascending,
};
use crate::varint::{
    law_varint_round_trip, lemma_varint_len, read_error, read_varint, varint, varint_bytes,
    write_varint, Reader,
};
use std::collections::BTreeMap;
use vstd::prelude::*;

verus! {

/// What is said where the bytes end within a note.
pub open spec fn short_note() -> Seq<char> {
    "Failed to read v1 note: failed to fill whole buffer"@
}

/// The first `n` notes of eighty bytes each.
pub open spec fn cut_notes(s: Seq<u8>, n: nat) -> Seq<Seq<u8>> {
    Seq::new(n, |i: int| s.subrange(80 * i, 80 * i + 80))
}

/// `tiers` and the notes of `n` tiers at the front of `s`, each of which is a denomination, a
/// count and the notes.
pub open spec fn v1_tiers(n: nat, s: Seq<u8>, tiers: Map<u64, Seq<Seq<u8>>>) -> Result<
    Map<u64, Seq<Seq<u8>>>,
    Seq<char>,
>
    decreases n,
{
    if n == 0 {
        Ok(tiers)
    } else {
        match varint(s) {
            None => Err(read_error()),
            Some((d, s1)) => match varint(s1) {
                None => Err(read_error()),
                Some((count, s2)) => if count > 100_000 {
                    Err("Too many notes in tier"@)
                } else if 80 * count > s2.len() {
                    Err(short_note())
                } else {
                    v1_tiers(
                        (n - 1) as nat,
                        s2.skip(80 * count),
                        with_notes(tiers, d, cut_notes(s2, count as nat)),
                    )
                },
            },
        }
    }
}

/// `tiers` and the notes that the body of a part holds.
pub open spec fn v1_body(body: Seq<u8>, tiers: Map<u64, Seq<Seq<u8>>>) -> Result<
    Map<u64, Seq<Seq<u8>>>,
    Seq<char>,
> {
    match varint(body) {
        None => Err(read_error()),
        Some((n, s)) => if n > 1000 {
            Err("Too many tiers"@)
        } else {
            v1_tiers(n as nat, s, tiers)
        },
    }
}

/// The prefix that is known, or else that of the ID in the invite, if it can be read.
pub open spec fn prefix_or_invited(prefix: Option<Seq<u8>>, invite: Seq<u8>) -> Option<Seq<u8>> {
    match prefix {
        Some(_) => prefix,
        None => match invited_federation(invite) {
            Ok(id) => Some(id.take(4)),
            Err(_) => None,
        },
    }
}

/// What is known of the federation, and the notes, once `n` parts at the front of `s` have been
/// read. The tag 0 is that of notes, 1 that of a federation's prefix and 2 that of an invite.
/// Parts with other tags are passed over.
pub open spec fn v1_parts(
    n: nat,
    s: Seq<u8>,
    prefix: Option<Seq<u8>>,
    tiers: Map<u64, Seq<Seq<u8>>>,
) -> Result<(Option<Seq<u8>>, Map<u64, Seq<Seq<u8>>>), Seq<char>>
    decreases n,
{
    if n == 0 {
        Ok((prefix, tiers))
    } else {
        match part(s, MAX_BODY, read_error()) {
            Err(e) => Err(e),
            Ok((tag, body, rest)) => if tag == 0 {
                match v1_body(body, tiers) {
                    Err(e) => Err(e),
                    Ok(tiers) => v1_parts((n - 1) as nat, rest, prefix, tiers),
                }
            } else if tag == 1 {
                if body.len() < 4 {
                    Err("FederationIdPrefix too short"@)
                } else {
                    v1_parts((n - 1) as nat, rest, Some(body.take(4)), tiers)
                }
            } else if tag == 2 {
                v1_parts((n - 1) as nat, rest, prefix_or_invited(prefix, body), tiers)
            } else {
                v1_parts((n - 1) as nat, rest, prefix, tiers)
            },
        }
    }
}

/// The bundle that the bytes are in the first format. Bytes behind it do no harm.
pub open spec fn v1_bundle(bytes: Seq<u8>) -> Result<Bundle, Seq<char>> {
    match varint(bytes) {
        None => Err(read_error()),
        Some((n, s)) => if n == 0 || n > 100 {
            Err("Invalid v1 part count: "@ + decimal(n as nat))
        } else {
            match v1_parts(n as nat, s, None, Map::empty()) {
                Err(e) => Err(e),
                Ok((prefix, tiers)) => match prefix {
                    None => Err("No federation ID in v1 notes"@),
                    Some(prefix) => if tiers == Map::<u64, Seq<Seq<u8>>>::empty() {
                        Err("No notes in v1 data"@)
                    } else {
                        Ok(Bundle { prefix, tiers, format: NoteFormat::V1 })
                    },
                },
            }
        },
    }
}

/// Notes that are read are as long as they have to be.
pub proof fn lemma_v1_tiers_proper(n: nat, s: Seq<u8>, tiers: Map<u64, Seq<Seq<u8>>>)
    requires
        proper_tiers(NoteFormat::V1, tiers),
    ensures
        v1_tiers(n, s, tiers) matches Ok(all) ==> proper_tiers(NoteFormat::V1, all),
    decreases n,
{
    if n > 0 {
        if let Some((d, s1)) = varint(s) {
            if let Some((count, s2)) = varint(s1) {
                if count <= 100_000 && 80 * count <= s2.len() {
                    let list = cut_notes(s2, count as nat);
                    assert forall|i: int| 0 <= i < list.len() implies proper_note(
                        NoteFormat::V1,
                        d,
                        #[trigger] list[i],
                    ) by {}
                    lemma_with_notes_proper(NoteFormat::V1, tiers, d, list);
                    lemma_v1_tiers_proper(
                        (n - 1) as nat,
                        s2.skip(80 * count),
                        with_notes(tiers, d, list),
                    );
                }
            }
        }
    }
}

/// The contents of a prefix, if there is one.
spec fn prefix_view(prefix: Option<FederationIdPrefix>) -> Option<Seq<u8>> {
    match prefix {
        Some(prefix) => Some(prefix@),
        None => None,
    }
}

/// The first four bytes.
pub fn first_4(bytes: &[u8]) -> (prefix: FederationIdPrefix)
    requires
        bytes@.len() >= 4,
    ensures
        prefix@ == bytes@.take(4),
{
    let prefix: [u8; 4] = [bytes[0], bytes[1], bytes[2], bytes[3]];
    assert(prefix@ =~= bytes@.take(4));
    prefix
}

/// Reads the notes of the body of a part on top of `tiers`.
pub fn parse_v1_tiered_multi(body: &[u8], tiers: BTreeMap<u64, Vec<Vec<u8>>>) -> (all: Result<
    BTreeMap<u64, Vec<Vec<u8>>>,
    String,
>)
    ensures
        match all {
            Ok(all) => v1_body(body@, note_tiers(tiers@)) == Ok::<_, Seq<char>>(note_tiers(all@)),
            Err(e) => v1_body(body@, note_tiers(tiers@)) == Err::<Map<u64, Seq<Seq<u8>>>, _>(e@),
        },
{
    let ghost before = note_tiers(tiers@);
    let mut all = tiers;
    let mut r = Reader::new(body);
    let num_tiers: u64 = match read_varint(&mut r) {
        Ok(n) => n,
        Err(e) => {
            return Err(e);
        },
    };
    if num_tiers > 1000 {
        return Err("Too many tiers".to_string());
    }
    let ghost start = r@;
    let mut i: u64 = 0;
    while i < num_tiers
        invariant
            r.wf(),
            i <= num_tiers,
            v1_body(body@, before) == v1_tiers(num_tiers as nat, start, before),
            v1_tiers(num_tiers as nat, start, before) == v1_tiers(
                (num_tiers - i) as nat,
                r@,
                note_tiers(all@),
            ),
            before == note_tiers(tiers@),
        decreases num_tiers - i,
    {
        let amount_msats: u64 = match read_varint(&mut r) {
            Ok(n) => n,
            Err(e) => {
                return Err(e);
            },
        };
        let num_notes: u64 = match read_varint(&mut r) {
            Ok(n) => n,
            Err(e) => {
                return Err(e);
            },
        };
        if num_notes > 100_000 {
            return Err("Too many notes in tier".to_string());
        }
        match read_notes(&mut r, num_notes) {
            Some(list) => {
                add_notes(&mut all, amount_msats, list);
            },
            None => {
                return Err("Failed to read v1 note: failed to fill whole buffer".to_string());
            },
        }
        i = i + 1;
    }
    Ok(all)
}

/// Reads `n` notes of eighty bytes each.
fn read_notes(r: &mut Reader, n: u64) -> (list: Option<Vec<Vec<u8>>>)
    requires
        old(r).wf(),
        n <= 100_000,
    ensures
        final(r).wf(),
        match list {
            Some(list) => {
                &&& 80 * n <= old(r)@.len()
                &&& byte_strings(list@) == cut_notes(old(r)@, n as nat)
                &&& final(r)@ == old(r)@.skip(80 * n)
            },
            None => 80 * n > old(r)@.len(),
        },
{
    let ghost s = r@;
    let mut list: Vec<Vec<u8>> = Vec::new();
    let mut i: u64 = 0;
    assert(s.skip(0) =~= s);
    assert(byte_strings(list@) =~= cut_notes(s, 0));
    while i < n
        invariant
            r.wf(),
            i <= n <= 100_000,
            s == old(r)@,
            80 * i <= s.len(),
            r@ == s.skip(80 * i),
            list@.len() == i,
            byte_strings(list@) == cut_notes(s, i as nat),
        decreases n - i,
    {
        let ghost read = list;
        match r.read_exact(80) {
            Some(note) => {
                assert(note@ =~= s.subrange(80 * i, 80 * i + 80));
                assert(r@ =~= s.skip(80 * (i + 1)));
                list.push(note);
            },
            None => {
                return None;
            },
        }
        i = i + 1;
        proof {
            assert forall|k: int| 0 <= k < i - 1 implies byte_strings(list@)[k] == cut_notes(
                s,
                i as nat,
            )[k] by {
                assert(byte_strings(read@)[k] == cut_notes(s, (i - 1) as nat)[k]);
            }
            assert(byte_strings(list@) =~= cut_notes(s, i as nat));
        }
    }
    Some(list)
}

/// Reads a bundle in the first format.
pub fn parse_v1_oob_notes(bytes: &[u8]) -> (notes: Result<ParsedNotes, String>)
    ensures
        match notes {
            Ok(notes) => notes.wf() && v1_bundle(bytes@) == Ok::<Bundle, Seq<char>>(notes@),
            Err(e) => v1_bundle(bytes@) == Err::<Bundle, Seq<char>>(e@),
        },
{
    let mut r = Reader::new(bytes);
    let num_parts: u64 = match read_varint(&mut r) {
        Ok(n) => n,
        Err(e) => {
            return Err(e);
        },
    };
    if num_parts == 0 || num_parts > 100 {
        let mut e = "Invalid v1 part count: ".to_string();
        push_decimal(&mut e, num_parts);
        return Err(e);
    }
    let ghost start = r@;
    let mut prefix: Option<FederationIdPrefix> = None;
    let mut tiers: BTreeMap<u64, Vec<Vec<u8>>> = BTreeMap::new();
    assert(note_tiers(tiers@) =~= Map::empty());
    let mut i: u64 = 0;
    while i < num_parts
        invariant
            r.wf(),
            i <= num_parts <= 100,
            num_parts > 0,
            varint(bytes@) == Some((num_parts, start)),
            v1_parts(num_parts as nat, start, None, Map::empty()) == v1_parts(
                (num_parts - i) as nat,
                r@,
                prefix_view(prefix),
                note_tiers(tiers@),
            ),
            proper_tiers(NoteFormat::V1, note_tiers(tiers@)),
        decreases num_parts - i,
    {
        let (tag, body) = match read_part(
            &mut r,
            MAX_BODY,
            "Read error: failed to fill whole buffer",
        ) {
            Ok(read) => read,
            Err(e) => {
                return Err(e);
            },
        };
        if tag == 0 {
            let ghost before = note_tiers(tiers@);
            tiers = match parse_v1_tiered_multi(&body, tiers) {
                Ok(all) => all,
                Err(e) => {
                    return Err(e);
                },
            };
            proof {
                if let Some((n, s)) = varint(body@) {
                    lemma_v1_tiers_proper(n as nat, s, before);
                }
            }
        } else if tag == 1 {
            if body.len() < 4 {
                return Err("FederationIdPrefix too short".to_string());
            }
            prefix = Some(first_4(&body));
        } else if tag == 2 {
            if prefix.is_none() {
                if let Ok(id) = extract_federation_id_from_invite(&body) {
                    prefix = Some(first_4(&id));
                }
            }
        }
        i = i + 1;
    }
    let prefix: FederationIdPrefix = match prefix {
        Some(prefix) => prefix,
        None => {
            return Err("No federation ID in v1 notes".to_string());
        },
    };
    if tiers.is_empty() {
        assert(note_tiers(tiers@) =~= Map::empty());
        return Err("No notes in v1 data".to_string());
    }
    proof {
        assert(note_tiers(tiers@) != Map::<u64, Seq<Seq<u8>>>::empty()) by {
            assert(note_tiers(tiers@).dom() =~= tiers@.dom());
        }
    }
    Ok(ParsedNotes::from_tiers(prefix, tiers, NoteFormat::V1))
}

/// A tier as it is written: the denomination, how many notes there are, and the notes.
pub open spec fn v1_tier_bytes(d: u64, list: Seq<Seq<u8>>) -> Seq<u8> {
    varint_bytes(d) + varint_bytes(list.len() as u64) + joined(list)
}

/// The tiers of the denominations `ds` as they are written.
pub open spec fn v1_tiers_bytes(ds: Seq<u64>, tiers: Map<u64, Seq<Seq<u8>>>) -> Seq<u8>
    decreases ds.len(),
{
    if ds.len() == 0 {
        Seq::empty()
    } else {
        v1_tier_bytes(ds[0], tiers[ds[0]]) + v1_tiers_bytes(ds.skip(1), tiers)
    }
}

/// The body of the part with the notes as it is written, the smallest denomination first.
pub open spec fn v1_body_bytes(tiers: Map<u64, Seq<Seq<u8>>>) -> Seq<u8> {
    varint_bytes(tiers.dom().len() as u64) + v1_tiers_bytes(ascending(tiers.dom()), tiers)
}

/// A bundle in the first format as it is written: two parts, the federation's prefix and the
/// notes.
pub open spec fn v1_bytes(prefix: Seq<u8>, tiers: Map<u64, Seq<Seq<u8>>>) -> Seq<u8> {
    let body = v1_body_bytes(tiers);
    varint_bytes(2) + (varint_bytes(1) + (varint_bytes(4) + (prefix + (varint_bytes(0) + (
    varint_bytes(body.len() as u64) + body)))))
}

/// Writes a bundle in the first format.
pub fn encode_multi_note_v1_oob(
    prefix: &FederationIdPrefix,
    notes: &BTreeMap<u64, Vec<Vec<u8>>>,
) -> (out: Vec<u8>)
    ensures
        out@ == v1_bytes(prefix@, note_tiers(notes@)),
{
    let ghost tiers = note_tiers(notes@);
    let mut out: Vec<u8> = Vec::new();
    write_varint(&mut out, 2);
    write_varint(&mut out, 1);
    write_varint(&mut out, 4);
    push_bytes(&mut out, prefix);
    write_varint(&mut out, 0);
    let denoms = keys_ascending(notes);
    let ghost ds = denoms@;
    let mut body: Vec<u8> = Vec::new();
    write_varint(&mut body, denoms.len() as u64);
    let ghost head = body@;
    assert(tiers.dom() =~= notes@.dom());
    assert(ds.skip(0) =~= ds);
    assert(body@ + v1_tiers_bytes(ds.skip(0), tiers) =~= head + v1_tiers_bytes(ds, tiers));
    let mut i: usize = 0;
    while i < denoms.len()
        invariant
            i <= ds.len(),
            ds == denoms@,
            ds.to_set() == notes@.dom(),
            tiers == note_tiers(notes@),
            body@ + v1_tiers_bytes(ds.skip(i as int), tiers) == head + v1_tiers_bytes(ds, tiers),
        decreases ds.len() - i,
    {
        let d: u64 = denoms[i];
        assert(ds.to_set().contains(d));
        let ghost before = body@;
        if let Some(list) = notes.get(&d) {
            assert(byte_strings(list@) == tiers[d]);
            write_varint(&mut body, d);
            write_varint(&mut body, list.len() as u64);
            push_joined(&mut body, list);
            proof {
                assert(ds.skip(i as int).skip(1) =~= ds.skip(i + 1));
                assert(ds.skip(i as int)[0] == d);
                assert(body@ =~= before + v1_tier_bytes(d, tiers[d]));
                assert(body@ + v1_tiers_bytes(ds.skip(i + 1), tiers) =~= before + v1_tiers_bytes(
                    ds.skip(i as int),
                    tiers,
                ));
            }
        }
        i = i + 1;
    }
    proof {
        assert(v1_tiers_bytes(ds.skip(i as int), tiers) =~= Seq::<u8>::empty());
        assert(body@ =~= v1_body_bytes(tiers));
    }
    write_varint(&mut out, body.len() as u64);
    push_bytes(&mut out, &body);
    assert(out@ =~= v1_bytes(prefix@, tiers));
    out
}

/// Writes byte strings behind `out`.
fn push_joined(out: &mut Vec<u8>, list: &Vec<Vec<u8>>)
    ensures
        final(out)@ == old(out)@ + joined(byte_strings(list@)),
{
    let ghost all = byte_strings(list@);
    let ghost start = out@;
    let mut i: usize = 0;
    assert(all.skip(0) =~= all);
    while i < list.len()
        invariant
            i <= list@.len(),
            all == byte_strings(list@),
            out@ + joined(all.skip(i as int)) == start + joined(all),
        decreases list@.len() - i,
    {
        let ghost before = out@;
        push_bytes(out, &list[i]);
        proof {
            assert(all.skip(i as int).skip(1) =~= all.skip(i + 1));
            assert(all.skip(i as int)[0] == list@[i as int]@);
            assert(out@ + joined(all.skip(i + 1)) =~= before + joined(all.skip(i as int)));
        }
        i = i + 1;
    }
    assert(joined(all.skip(i as int)) =~= Seq::<u8>::empty());
    assert(out@ =~= start + joined(all));
}

/// A single note in a bundle of its own.
pub open spec fn single(d: u64, note: Seq<u8>) -> Map<u64, Seq<Seq<u8>>> {
    Map::empty().insert(d, seq![note])
}

/// Writes one note as a bundle in the first format.
pub fn encode_single_note_v1_oob(
    prefix: &FederationIdPrefix,
    denom_msats: u64,
    note_bytes: &Vec<u8>,
) -> (out: Vec<u8>)
    ensures
        out@ == v1_bytes(prefix@, single(denom_msats, note_bytes@)),
{
    let mut note: Vec<u8> = Vec::new();
    push_bytes(&mut note, note_bytes);
    assert(note@ =~= note_bytes@);
    let mut list: Vec<Vec<u8>> = Vec::new();
    list.push(note);
    let mut m: BTreeMap<u64, Vec<Vec<u8>>> = BTreeMap::new();
    m.insert(denom_msats, list);
    proof {
        assert(byte_strings(list@) =~= seq![note_bytes@]);
        assert(note_tiers(m@) =~= single(denom_msats, note_bytes@));
    }
    encode_multi_note_v1_oob(prefix, &m)
}

/// Notes of eighty bytes that are written one behind the other are cut out again.
pub proof fn lemma_cut_joined(list: Seq<Seq<u8>>, rest: Seq<u8>)
    requires
        forall|i: int| 0 <= i < list.len() ==> (#[trigger] list[i]).len() == 80,
    ensures
        joined(list).len() == 80 * list.len(),
        cut_notes(joined(list) + rest, list.len()) == list,
    decreases list.len(),
{
    let all = joined(list) + rest;
    if list.len() > 0 {
        let tail = list.skip(1);
        assert forall|i: int| 0 <= i < tail.len() implies (#[trigger] tail[i]).len() == 80 by {
            assert(tail[i] == list[i + 1]);
        }
        lemma_cut_joined(tail, rest);
        let later = joined(tail) + rest;
        assert(all =~= list[0] + later);
        assert forall|i: int| 0 <= i < list.len() implies cut_notes(all, list.len())[i]
            == list[i] by {
            if i == 0 {
                assert(all.subrange(0, 80) =~= list[0]);
            } else {
                assert(cut_notes(later, tail.len())[i - 1] == tail[i - 1]);
                assert(all.subrange(80 * i, 80 * i + 80) =~= later.subrange(
                    80 * (i - 1),
                    80 * (i - 1) + 80,
                ));
            }
        }
    }
    assert(cut_notes(all, list.len()) =~= list);
}

/// The tiers of the first `i` of the denominations `ds`.
spec fn first_tiers(ds: Seq<u64>, tiers: Map<u64, Seq<Seq<u8>>>, i: int) -> Map<
    u64,
    Seq<Seq<u8>>,
> {
    tiers.restrict(ds.take(i).to_set())
}

proof fn lemma_v1_tiers_back(ds: Seq<u64>, tiers: Map<u64, Seq<Seq<u8>>>, i: int)
    requires
        strictly_ascending(ds),
        ds.to_set() == tiers.dom(),
        proper_tiers(NoteFormat::V1, tiers),
        forall|d: u64| #[trigger] tiers.contains_key(d) ==> tiers[d].len() <= 100_000,
        0 <= i <= ds.len(),
    ensures
        v1_tiers(
            (ds.len() - i) as nat,
            v1_tiers_bytes(ds.skip(i), tiers),
            first_tiers(ds, tiers, i),
        ) == Ok::<_, Seq<char>>(tiers),
    decreases ds.len() - i,
{
    let now = first_tiers(ds, tiers, i);
    if i == ds.len() {
        assert(ds.take(i) =~= ds);
        assert(now =~= tiers);
    } else {
        let d = ds[i];
        assert(ds.to_set().contains(d));
        assert(tiers.contains_key(d));
        let list = tiers[d];
        let later = v1_tiers_bytes(ds.skip(i + 1), tiers);
        let s = v1_tiers_bytes(ds.skip(i), tiers);
        assert(ds.skip(i).skip(1) =~= ds.skip(i + 1));
        assert(ds.skip(i)[0] == d);
        let s1 = varint_bytes(list.len() as u64) + (joined(list) + later);
        let s2 = joined(list) + later;
        assert(s =~= varint_bytes(d) + s1);
        law_varint_round_trip(d, s1);
        law_varint_round_trip(list.len() as u64, s2);
        assert forall|k: int| 0 <= k < list.len() implies (#[trigger] list[k]).len() == 80 by {
            assert(proper_note(NoteFormat::V1, d, tiers[d][k]));
        }
        lemma_cut_joined(list, later);
        assert(s2.skip(80 * list.len() as int) =~= later);
        let next = first_tiers(ds, tiers, i + 1);
        assert(!ds.take(i).contains(d)) by {
            assert forall|k: int| 0 <= k < i implies #[trigger] ds[k] != d by {
                assert(ds[k] < ds[i]);
            }
        }
        assert(with_notes(now, d, list) =~= next) by {
            assert forall|e: u64| ds.take(i + 1).to_set().contains(e) == (ds.take(
                i,
            ).to_set().contains(e) || e == d) by {
                lemma_take_contains(ds, i, e);
            }
            assert(!now.contains_key(d));
            assert(Seq::<Seq<u8>>::empty() + list =~= list);
        }
        lemma_v1_tiers_back(ds, tiers, i + 1);
    }
}

/// A bundle that keeps within the limits of the first format is read as it was written.
pub proof fn law_v1_round_trip(prefix: Seq<u8>, tiers: Map<u64, Seq<Seq<u8>>>)
    requires
        prefix.len() == 4,
        tiers.dom().finite(),
        0 < tiers.dom().len() <= 1000,
        forall|d: u64| #[trigger] tiers.contains_key(d) ==> tiers[d].len() <= 100_000,
        proper_tiers(NoteFormat::V1, tiers),
        v1_body_bytes(tiers).len() <= MAX_BODY,
    ensures
        v1_bundle(v1_bytes(prefix, tiers)) == Ok::<Bundle, Seq<char>>(
            Bundle { prefix, tiers, format: NoteFormat::V1 },
        ),
{
    let ds = ascending(tiers.dom());
    lemma_ascending_exists(tiers.dom());
    let body = v1_body_bytes(tiers);
    let n = tiers.dom().len() as u64;
    let written = v1_tiers_bytes(ds, tiers);
    let none = Map::<u64, Seq<Seq<u8>>>::empty();
    law_varint_round_trip(n, written);
    lemma_v1_tiers_back(ds, tiers, 0);
    assert(ds.skip(0) =~= ds);
    assert(first_tiers(ds, tiers, 0) =~= none);
    assert(v1_body(body, none) == Ok::<_, Seq<char>>(tiers));

    let nothing = Seq::<u8>::empty();
    let s5 = varint_bytes(body.len() as u64) + body;
    let s4 = varint_bytes(0) + s5;
    let s3 = prefix + s4;
    let s2 = varint_bytes(4) + s3;
    let s1 = varint_bytes(1) + s2;
    law_varint_round_trip(2, s1);
    law_varint_round_trip(1, s2);
    law_varint_round_trip(4, s3);
    law_varint_round_trip(0, s5);
    law_varint_round_trip(body.len() as u64, body);
    assert(s3.take(4) =~= prefix);
    assert(s3.skip(4) =~= s4);
    assert(prefix.take(4) =~= prefix);
    assert(body.take(body.len() as int) =~= body);
    assert(body.skip(body.len() as int) =~= nothing);
    assert(part(s1, MAX_BODY, read_error()) == Ok::<_, Seq<char>>((1u64, prefix, s4)));
    assert(part(s4, MAX_BODY, read_error()) == Ok::<_, Seq<char>>((0u64, body, nothing)));
    assert(v1_parts(0, nothing, Some(prefix), tiers) == Ok::<_, Seq<char>>((Some(prefix), tiers)));
    assert(v1_parts(1, s4, Some(prefix), none) == Ok::<_, Seq<char>>((Some(prefix), tiers)));
    assert(v1_parts(2, s1, None, none) == Ok::<_, Seq<char>>((Some(prefix), tiers)));
    assert(tiers != none) by {
        assert(none.dom().len() == 0);
    }
}

/// How a bundle with a single note is written.
pub proof fn lemma_single_body(d: u64, note: Seq<u8>)
    ensures
        v1_body_bytes(single(d, note)) == varint_bytes(1) + v1_tier_bytes(d, seq![note]),
        joined(seq![note]) == note,
        single(d, note).dom().len() == 1,
{
    let ds = seq![d];
    let tiers = single(d, note);
    assert(ds.to_set() =~= tiers.dom()) by {
        assert(ds[0] == d);
    }
    crate::tiers::lemma_ascending_is(ds);
    assert(tiers.dom() =~= Set::empty().insert(d));
    assert(ds.skip(1) =~= Seq::<u64>::empty());
    assert(v1_tiers_bytes(Seq::<u64>::empty(), tiers) =~= Seq::<u8>::empty());
    assert(v1_tiers_bytes(ds, tiers) =~= v1_tier_bytes(d, seq![note]));
    let list = seq![note];
    assert(list.skip(1) =~= Seq::<Seq<u8>>::empty());
    assert(joined(Seq::<Seq<u8>>::empty()) =~= Seq::<u8>::empty());
    assert(joined(list) =~= note);
}

/// How long a bundle with a single note is when written.
pub proof fn lemma_single_v1_len(prefix: Seq<u8>, d: u64, note: Seq<u8>)
    requires
        prefix.len() == 4,
    ensures
        v1_bytes(prefix, single(d, note)).len() <= note.len() + 40,
        v1_body_bytes(single(d, note)).len() <= note.len() + 19,
{
    lemma_single_body(d, note);
    let body = v1_body_bytes(single(d, note));
    lemma_varint_len(0);
    lemma_varint_len(1);
    lemma_varint_len(2);
    lemma_varint_len(4);
    lemma_varint_len(d);
    lemma_varint_len(body.len() as u64);
}

} // verus!
