//! Bundles of ecash notes.

use crate::tiers::{append_at, checked_worth, keys_ascending, lemma_take_contains, listed};
use crate::tiers::{nats, sizes, worth};
use crate::varint::{read_error, read_varint, varint, Reader};
use std::collections::BTreeMap;
use vstd::prelude::*;

verus! {

/// The first four bytes of a federation's ID.
pub type FederationIdPrefix = [u8; 4];

/// How a bundle of notes is written.
#[derive(Clone, Copy, Debug, PartialEq, Eq, Structural)]
pub enum NoteFormat {
    /// A list of parts, one of which holds notes of eighty bytes by denomination.
    V1,
    /// A list of fields, each of which may hold one note that begins with its denomination.
    V2,
}

/// What a bundle of notes holds.
#[verifier::ext_equal]
pub struct Bundle {
    /// The first four bytes of the ID of the federation that issued the notes.
    pub prefix: Seq<u8>,
    /// The notes under each denomination in msats that the bundle lists.
    pub tiers: Map<u64, Seq<Seq<u8>>>,
    /// How the bundle is written.
    pub format: NoteFormat,
}

/// A bundle of notes.
#[derive(Clone, Debug)]
pub struct ParsedNotes {
    /// The first four bytes of the ID of the federation that issued the notes.
    pub federation_id_prefix: FederationIdPrefix,
    /// How many notes there are of each denomination in msats.
    pub denominations: BTreeMap<u64, usize>,
    /// The notes of each denomination of which there are any.
    pub raw_notes: BTreeMap<u64, Vec<Vec<u8>>>,
    /// How the bundle is written.
    pub format: NoteFormat,
}

/// The contents of a list of byte strings.
pub open spec fn byte_strings(v: Seq<Vec<u8>>) -> Seq<Seq<u8>> {
    v.map_values(|b: Vec<u8>| b@)
}

/// The contents of lists of byte strings that are kept by denomination.
pub open spec fn note_tiers(m: Map<u64, Vec<Vec<u8>>>) -> Map<u64, Seq<Seq<u8>>> {
    m.map_values(|v: Vec<Vec<u8>>| byte_strings(v@))
}

impl View for ParsedNotes {
    type V = Bundle;

    open spec fn view(&self) -> Bundle {
        Bundle {
            prefix: self.federation_id_prefix@,
            tiers: Map::new(
                |d: u64| self.denominations@.contains_key(d),
                |d: u64| listed(note_tiers(self.raw_notes@), d),
            ),
            format: self.format,
        }
    }
}

/// A note of `d` msats is as long as its format has it and, in the second format, begins with
/// its denomination.
pub open spec fn proper_note(format: NoteFormat, d: u64, note: Seq<u8>) -> bool {
    match format {
        NoteFormat::V1 => note.len() == 80,
        NoteFormat::V2 => 81 <= note.len() <= MAX_BODY && d == amount_of(note[0]),
    }
}

/// All the notes are proper ones.
pub open spec fn proper_tiers(format: NoteFormat, tiers: Map<u64, Seq<Seq<u8>>>) -> bool {
    forall|d: u64, i: int|
        tiers.contains_key(d) && 0 <= i < tiers[d].len() ==> proper_note(
            format,
            d,
            #[trigger] tiers[d][i],
        )
}

/// How many bytes a part or a field may have.
pub const MAX_BODY: u64 = 10_000_000;

/// The denomination that the first byte of a note of the second format stands for: two to its
/// power, where only its low six bits count.
pub open spec fn amount_of(first: u8) -> u64 {
    1u64 << ((first % 64) as u64)
}

impl ParsedNotes {
    /// The counts are those of the notes, and the notes are proper ones.
    pub open spec fn wf(&self) -> bool {
        &&& forall|d: u64| #[trigger]
            self.raw_notes@.contains_key(d) ==> self.denominations@.contains_key(d)
                && self.raw_notes@[d]@.len() > 0
        &&& nats(self.denominations@) == sizes(self@.tiers)
        &&& proper_tiers(self.format, self@.tiers)
    }

    /// What the notes are worth together in msats.
    pub fn total_msats(&self) -> (total: u64)
        requires
            worth(nats(self.denominations@)) <= u64::MAX,
        ensures
            total == worth(nats(self.denominations@)),
            self.wf() ==> total == worth(sizes(self@.tiers)),
    {
        self.checked_total_msats().unwrap()
    }

    /// What the notes are worth together in msats, unless that is more than a `u64` holds.
    pub fn checked_total_msats(&self) -> (total: Option<u64>)
        ensures
            match total {
                Some(total) => total == worth(nats(self.denominations@)),
                None => worth(nats(self.denominations@)) > u64::MAX,
            },
            self.wf() ==> (total matches Some(total) ==> total == worth(sizes(self@.tiers))),
    {
        checked_worth(&self.denominations)
    }

    /// Counts the notes under each listed denomination.
    pub fn from_tiers(
        prefix: FederationIdPrefix,
        tiers: BTreeMap<u64, Vec<Vec<u8>>>,
        format: NoteFormat,
    ) -> (notes: Self)
        requires
            proper_tiers(format, note_tiers(tiers@)),
        ensures
            notes.wf(),
            notes@ == (Bundle { prefix: prefix@, tiers: note_tiers(tiers@), format }),
    {
        let denoms = keys_ascending(&tiers);
        let ghost all = tiers@;
        let ghost ds = denoms@;
        let mut tiers = tiers;
        let mut denominations: BTreeMap<u64, usize> = BTreeMap::new();
        let mut raw_notes: BTreeMap<u64, Vec<Vec<u8>>> = BTreeMap::new();
        let mut i: usize = 0;
        while i < denoms.len()
            invariant
                i <= ds.len(),
                ds == denoms@,
                crate::tiers::strictly_ascending(ds),
                ds.to_set() == all.dom(),
                forall|k: int| i <= k < ds.len() ==> tiers@.contains_key(#[trigger] ds[k]),
                forall|d: u64| #[trigger] tiers@.contains_key(d) ==> all.contains_key(d)
                    && tiers@[d] == all[d],
                forall|d: u64| #[trigger]
                    denominations@.contains_key(d) <==> ds.take(i as int).contains(d),
                forall|d: u64| #[trigger]
                    denominations@.contains_key(d) ==> all.contains_key(d) && denominations@[d]
                        == all[d]@.len(),
                forall|d: u64| #[trigger]
                    raw_notes@.contains_key(d) <==> ds.take(i as int).contains(d) && all[d]@.len()
                        > 0,
                forall|d: u64| #[trigger] raw_notes@.contains_key(d) ==> raw_notes@[d] == all[d],
            decreases ds.len() - i,
        {
            let d: u64 = denoms[i];
            proof {
                assert(ds.to_set().contains(d));
                assert forall|k: int| i < k < ds.len() implies tiers@.remove(d).contains_key(
                    #[trigger] ds[k],
                ) by {
                    assert(ds[i as int] < ds[k]);
                }
                assert forall|e: u64| #[trigger] ds.take(i + 1).contains(e) == (ds.take(
                    i as int,
                ).contains(e) || e == d) by {
                    lemma_take_contains(ds, i as int, e);
                }
            }
            if let Some(list) = tiers.remove(&d) {
                denominations.insert(d, list.len());
                if list.len() > 0 {
                    raw_notes.insert(d, list);
                }
            }
            i = i + 1;
        }
        let notes = ParsedNotes {
            federation_id_prefix: prefix,
            denominations,
            raw_notes,
            format,
        };
        proof {
            assert(ds.take(i as int) =~= ds);
            assert forall|d: u64| ds.contains(d) == all.contains_key(d) by {
                assert(ds.to_set().contains(d) == all.contains_key(d));
            }
            assert forall|d: u64| #[trigger] all.contains_key(d) implies listed(
                note_tiers(notes.raw_notes@),
                d,
            ) == note_tiers(all)[d] by {
                if all[d]@.len() == 0 {
                    assert(note_tiers(all)[d] =~= Seq::<Seq<u8>>::empty());
                }
            }
            assert(notes@.tiers =~= note_tiers(all));
            assert(nats(notes.denominations@) =~= sizes(notes@.tiers));
        }
        notes
    }
}

/// `list` is added under `d`.
pub open spec fn with_notes(
    tiers: Map<u64, Seq<Seq<u8>>>,
    d: u64,
    list: Seq<Seq<u8>>,
) -> Map<u64, Seq<Seq<u8>>> {
    tiers.insert(d, listed(tiers, d) + list)
}

/// Adds a list of notes under `d`.
pub fn add_notes(tiers: &mut BTreeMap<u64, Vec<Vec<u8>>>, d: u64, list: Vec<Vec<u8>>)
    ensures
        note_tiers(final(tiers)@) == with_notes(note_tiers(old(tiers)@), d, byte_strings(list@)),
{
    let ghost before = tiers@;
    let ghost items = list@;
    append_at(tiers, d, list);
    proof {
        let old_list = if before.contains_key(d) {
            before[d]@
        } else {
            Seq::empty()
        };
        assert(byte_strings(old_list + items) =~= listed(note_tiers(before), d) + byte_strings(
            items,
        ));
        assert(note_tiers(tiers@) =~= with_notes(note_tiers(before), d, byte_strings(items)));
    }
}

/// Adding proper notes keeps all notes proper.
pub proof fn lemma_with_notes_proper(
    format: NoteFormat,
    tiers: Map<u64, Seq<Seq<u8>>>,
    d: u64,
    list: Seq<Seq<u8>>,
)
    requires
        proper_tiers(format, tiers),
        forall|i: int| 0 <= i < list.len() ==> proper_note(format, d, #[trigger] list[i]),
    ensures
        proper_tiers(format, with_notes(tiers, d, list)),
{
    let all = with_notes(tiers, d, list);
    assert forall|e: u64, i: int|
        all.contains_key(e) && 0 <= i < all[e].len() implies proper_note(
        format,
        e,
        #[trigger] all[e][i],
    ) by {
        if e == d {
            let before = listed(tiers, d);
            if i < before.len() {
                assert(tiers.contains_key(d));
                assert(all[e][i] == tiers[d][i]);
            } else {
                assert(all[e][i] == list[i - before.len()]);
            }
        } else {
            assert(all[e][i] == tiers[e][i]);
        }
    }
}

/// The byte strings one behind the other.
pub open spec fn joined(list: Seq<Seq<u8>>) -> Seq<u8>
    decreases list.len(),
{
    if list.len() == 0 {
        Seq::empty()
    } else {
        list[0] + joined(list.skip(1))
    }
}

/// Writes bytes behind `out`.
pub fn push_bytes(out: &mut Vec<u8>, bytes: &[u8])
    ensures
        final(out)@ == old(out)@ + bytes@,
{
    out.extend_from_slice(bytes);
    assert(out@ =~= old(out)@ + bytes@);
}

/// A tag, a body and what is behind it, at the front of `s`. A body may have up to `limit`
/// bytes, and `short` is said where `s` ends within one.
pub open spec fn part(s: Seq<u8>, limit: u64, short: Seq<char>) -> Result<
    (u64, Seq<u8>, Seq<u8>),
    Seq<char>,
> {
    match varint(s) {
        None => Err(read_error()),
        Some((tag, s1)) => match varint(s1) {
            None => Err(read_error()),
            Some((len, s2)) => if len > limit {
                Err("Body too large"@)
            } else if len > s2.len() {
                Err(short)
            } else {
                Ok((tag, s2.take(len as int), s2.skip(len as int)))
            },
        },
    }
}

/// Reads a tag and a body.
pub fn read_part(r: &mut Reader, limit: u64, short: &str) -> (read: Result<(u64, Vec<u8>), String>)
    requires
        old(r).wf(),
    ensures
        final(r).wf(),
        match read {
            Ok((tag, body)) => part(old(r)@, limit, short@) == Ok::<_, Seq<char>>(
                (tag, body@, final(r)@),
            ),
            Err(e) => part(old(r)@, limit, short@) == Err::<(u64, Seq<u8>, Seq<u8>), _>(e@),
        },
{
    let tag: u64 = match read_varint(r) {
        Ok(tag) => tag,
        Err(e) => {
            return Err(e);
        },
    };
    let len: u64 = match read_varint(r) {
        Ok(len) => len,
        Err(e) => {
            return Err(e);
        },
    };
    if len > limit {
        return Err("Body too large".to_string());
    }
    match r.read_exact(len) {
        Some(body) => Ok((tag, body)),
        None => Err(short.to_string()),
    }
}

} // verus!
