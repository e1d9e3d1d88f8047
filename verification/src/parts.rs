//! What bytes say, part by part.
//!
//! A part is a tag, the length of its body and the body. Bundles in both formats and invites are
//! made of parts. The laws here say what is read of any parts, in whatever order they come.

use crate::ecash_fields::{short_field, v2_bundle, v2_fields};
use crate::invite::{
    behind_peers, federation_in_invite, federation_in_parts, invited_federation, short_invite,
};
use crate::notes::{amount_of, part, with_notes, Bundle, NoteFormat, MAX_BODY};
use crate::oob_notes::{
    cut_notes, prefix_or_invited, v1_body, v1_bundle, v1_parts, v1_tiers,
};
use crate::text::decimal;
use crate::tiers::listed;
use crate::varint::{law_varint_round_trip, read_error, varint, varint_bytes};
use vstd::arithmetic::power2::{lemma_pow2_strictly_increases, pow2};
use vstd::prelude::*;

verus! {

/// `s` is made of the parts, none with a body of more than `limit` bytes, and `rest` behind them.
pub open spec fn reads(
    s: Seq<u8>,
    parts: Seq<(u64, Seq<u8>)>,
    limit: nat,
    rest: Seq<u8>,
) -> bool
    decreases parts.len(),
{
    if parts.len() == 0 {
        s == rest
    } else {
        varint(s) matches Some((tag, s1)) && (varint(s1) matches Some((len, s2)) && {
            &&& tag == parts[0].0
            &&& len <= limit
            &&& len <= s2.len()
            &&& s2.take(len as int) == parts[0].1
            &&& reads(s2.skip(len as int), parts.skip(1), limit, rest)
        })
    }
}

/// The parts one behind the other, with tags and lengths in the fewest bytes.
pub open spec fn written(parts: Seq<(u64, Seq<u8>)>) -> Seq<u8>
    decreases parts.len(),
{
    if parts.len() == 0 {
        Seq::empty()
    } else {
        varint_bytes(parts[0].0) + varint_bytes(parts[0].1.len() as u64) + parts[0].1 + written(
            parts.skip(1),
        )
    }
}

/// Parts that are written are read again.
pub proof fn law_written_parts_are_read(
    parts: Seq<(u64, Seq<u8>)>,
    limit: u64,
    rest: Seq<u8>,
)
    requires
        forall|i: int| 0 <= i < parts.len() ==> (#[trigger] parts[i]).1.len() <= limit,
    ensures
        reads(written(parts) + rest, parts, limit as nat, rest),
    decreases parts.len(),
{
    if parts.len() == 0 {
        assert(written(parts) + rest =~= rest);
    } else {
        let (tag, body) = parts[0];
        assert(parts[0].1.len() <= limit);
        let len = body.len() as u64;
        let later = written(parts.skip(1)) + rest;
        let s = written(parts) + rest;
        let s2 = body + later;
        let s1 = varint_bytes(len) + s2;
        assert(s =~= varint_bytes(tag) + s1);
        law_varint_round_trip(tag, s1);
        law_varint_round_trip(len, s2);
        assert(s2.take(len as int) =~= body);
        assert(s2.skip(len as int) =~= later);
        assert forall|i: int| 0 <= i < parts.skip(1).len() implies (#[trigger] parts.skip(
            1,
        )[i]).1.len() <= limit by {
            assert(parts.skip(1)[i] == parts[i + 1]);
        }
        law_written_parts_are_read(parts.skip(1), limit, rest);
    }
}

/// The first of the parts as it is found.
proof fn lemma_first_part(
    s: Seq<u8>,
    parts: Seq<(u64, Seq<u8>)>,
    limit: u64,
    rest: Seq<u8>,
    short: Seq<char>,
) -> (next: Seq<u8>)
    requires
        parts.len() > 0,
        reads(s, parts, limit as nat, rest),
    ensures
        part(s, limit, short) == Ok::<(u64, Seq<u8>, Seq<u8>), Seq<char>>(
            (parts[0].0, parts[0].1, next),
        ),
        reads(next, parts.skip(1), limit as nat, rest),
        parts[0].1.len() <= limit,
{
    let s1 = varint(s)->Some_0.1;
    let (len, s2) = varint(s1)->Some_0;
    s2.skip(len as int)
}

/// What is found to be a part is the first of the parts.
proof fn lemma_part_first(
    s: Seq<u8>,
    limit: u64,
    short: Seq<char>,
    later: Seq<(u64, Seq<u8>)>,
    rest: Seq<u8>,
)
    requires
        part(s, limit, short) matches Ok((tag, body, next)) && reads(
            next,
            later,
            limit as nat,
            rest,
        ),
    ensures
        part(s, limit, short) matches Ok((tag, body, next)) && reads(
            s,
            seq![(tag, body)] + later,
            limit as nat,
            rest,
        ),
{
    let (tag, body, next) = part(s, limit, short)->Ok_0;
    let parts = seq![(tag, body)] + later;
    assert(parts.skip(1) =~= later);
    assert(parts[0] == (tag, body));
}

/// What a condition leaves of a list, the front first.
pub proof fn lemma_filter_front<T>(s: Seq<T>, p: spec_fn(T) -> bool)
    requires
        s.len() > 0,
    ensures
        s.filter(p) == (if p(s[0]) {
            seq![s[0]]
        } else {
            Seq::empty()
        }) + s.skip(1).filter(p),
{
    let one = seq![s[0]];
    assert(s =~= one + s.skip(1));
    Seq::filter_distributes_over_add(one, s.skip(1), p);
    reveal_with_fuel(Seq::filter, 2);
    assert(one.drop_last() =~= Seq::empty());
    assert(one.filter(p) =~= (if p(s[0]) {
        one
    } else {
        Seq::empty()
    }));
}

/// A note of the second format whose first byte is less than sixty-four is worth two to the power
/// of that byte, so that notes whose first bytes differ are worth different amounts. Of a larger
/// byte only the low six bits count.
pub proof fn law_amount_is_power_of_two(first: u8)
    ensures
        amount_of(first) == pow2((first % 64) as nat),
        first < 64 ==> amount_of(first) == pow2(first as nat),
        forall|other: u8|
            first < 64 && other < first ==> #[trigger] amount_of(other) < amount_of(first),
{
    lemma_amount(first);
    assert forall|other: u8| first < 64 && other < first implies #[trigger] amount_of(other)
        < amount_of(first) by {
        lemma_amount(other);
        lemma_pow2_strictly_increases(other as nat, first as nat);
    }
}

proof fn lemma_amount(first: u8)
    ensures
        amount_of(first) == pow2((first % 64) as nat),
{
    let k = (first % 64) as u64;
    vstd::arithmetic::power2::lemma2_to64();
    vstd::arithmetic::power2::lemma2_to64_rest();
    if k < 63 {
        lemma_pow2_strictly_increases(k as nat, 63);
    }
    vstd::bits::lemma_u64_shl_is_mul(1, k);
}

/// The notes of `d` msats in fields of the second format: the bodies of those with the tag 1 and
/// at least eighty-one bytes of which the first is the power of two that `d` is.
pub open spec fn v2_notes_of(fields: Seq<(u64, Seq<u8>)>, d: u64) -> Seq<Seq<u8>> {
    fields.filter(
        |f: (u64, Seq<u8>)| f.0 == 1 && f.1.len() >= 81 && pow2((f.1[0] % 64) as nat) == d,
    ).map_values(|f: (u64, Seq<u8>)| f.1)
}

/// The fields of the second format that hold an ID: the tag is 0 and there are at least thirty-two
/// bytes.
pub open spec fn v2_ids(fields: Seq<(u64, Seq<u8>)>) -> Seq<(u64, Seq<u8>)> {
    fields.filter(|f: (u64, Seq<u8>)| f.0 == 0 && f.1.len() >= 32)
}

proof fn lemma_v2_notes_front(fields: Seq<(u64, Seq<u8>)>, d: u64)
    requires
        fields.len() > 0,
    ensures
        v2_notes_of(fields, d) == (if fields[0].0 == 1 && fields[0].1.len() >= 81 && amount_of(
            fields[0].1[0],
        ) == d {
            seq![fields[0].1]
        } else {
            Seq::empty()
        }) + v2_notes_of(fields.skip(1), d),
{
    let p = |f: (u64, Seq<u8>)| f.0 == 1 && f.1.len() >= 81 && pow2((f.1[0] % 64) as nat) == d;
    lemma_filter_front(fields, p);
    lemma_amount(fields[0].1[0]);
    let g = |f: (u64, Seq<u8>)| f.1;
    assert(v2_notes_of(fields, d) =~= (if p(fields[0]) {
        seq![fields[0].1]
    } else {
        Seq::empty()
    }) + v2_notes_of(fields.skip(1), d));
}

proof fn lemma_v2_fields(
    s: Seq<u8>,
    id: Option<Seq<u8>>,
    tiers: Map<u64, Seq<Seq<u8>>>,
    fields: Seq<(u64, Seq<u8>)>,
    rest: Seq<u8>,
)
    requires
        reads(s, fields, MAX_BODY as nat, rest),
    ensures
        v2_fields(fields.len(), s, id, tiers) matches Ok((found, all)) && {
            &&& found == (if v2_ids(fields).len() > 0 {
                Some(v2_ids(fields).last().1.take(32))
            } else {
                id
            })
            &&& forall|d: u64| #[trigger]
                listed(all, d) == listed(tiers, d) + v2_notes_of(fields, d)
            &&& forall|d: u64| #[trigger]
                all.contains_key(d) <==> tiers.contains_key(d) || v2_notes_of(fields, d).len() > 0
        },
    decreases fields.len(),
{
    let isid = |f: (u64, Seq<u8>)| f.0 == 0 && f.1.len() >= 32;
    if fields.len() == 0 {
        assert(v2_ids(fields) =~= Seq::empty()) by {
            reveal(Seq::filter);
        }
        assert forall|d: u64| v2_notes_of(fields, d) == Seq::<Seq<u8>>::empty() by {
            reveal(Seq::filter);
            assert(v2_notes_of(fields, d) =~= Seq::empty());
        }
        assert forall|d: u64| #[trigger] listed(tiers, d) == listed(tiers, d) + v2_notes_of(
            fields,
            d,
        ) by {
            assert(v2_notes_of(fields, d) == Seq::<Seq<u8>>::empty());
            assert(listed(tiers, d) + Seq::<Seq<u8>>::empty() =~= listed(tiers, d));
        }
    } else {
        let (tag, body) = fields[0];
        let next = lemma_first_part(s, fields, MAX_BODY, rest, short_field());
        let later = fields.skip(1);
        lemma_filter_front(fields, isid);
        let (id2, tiers2) = if tag == 0 && body.len() >= 32 {
            (Some(body.take(32)), tiers)
        } else if tag == 1 && body.len() >= 81 {
            (id, with_notes(tiers, amount_of(body[0]), seq![body]))
        } else {
            (id, tiers)
        };
        lemma_v2_fields(next, id2, tiers2, later, rest);
        let (found, all) = v2_fields(later.len(), next, id2, tiers2)->Ok_0;
        assert(v2_fields(fields.len(), s, id, tiers) == v2_fields(later.len(), next, id2, tiers2));
        if v2_ids(later).len() > 0 {
            assert(v2_ids(fields).last() == v2_ids(later).last());
        } else {
            assert(v2_ids(later) =~= Seq::empty());
        }
        assert forall|d: u64| #[trigger] listed(all, d) == listed(tiers, d) + v2_notes_of(
            fields,
            d,
        ) by {
            lemma_v2_notes_front(fields, d);
            assert(listed(all, d) == listed(tiers2, d) + v2_notes_of(later, d));
            assert(listed(tiers, d) + v2_notes_of(fields, d) =~= listed(tiers2, d) + v2_notes_of(
                later,
                d,
            ));
        }
        assert forall|d: u64| #[trigger] all.contains_key(d) <==> tiers.contains_key(d)
            || v2_notes_of(fields, d).len() > 0 by {
            lemma_v2_notes_front(fields, d);
            assert(all.contains_key(d) <==> tiers2.contains_key(d) || v2_notes_of(later, d).len()
                > 0);
        }
    }
}

/// What is read of fields of the second format, in whatever order they come and whatever is among
/// or behind them. The bundle is of the federation whose ID comes last, and under each amount it
/// lists the notes whose first byte is the power of two that the amount is, in their order. There
/// is a bundle exactly if there is an ID and a note.
pub proof fn law_v2_reads_fields(
    bytes: Seq<u8>,
    n: u64,
    s: Seq<u8>,
    fields: Seq<(u64, Seq<u8>)>,
    rest: Seq<u8>,
)
    requires
        varint(bytes) == Some((n, s)),
        fields.len() == n,
        reads(s, fields, 10_000_000, rest),
    ensures
        v2_bundle(bytes) is Ok <==> {
            &&& 0 < n <= 100_000
            &&& v2_ids(fields).len() > 0
            &&& exists|d: u64| (#[trigger] v2_notes_of(fields, d)).len() > 0
        },
        v2_bundle(bytes) matches Ok(bundle) ==> {
            &&& bundle.prefix == v2_ids(fields).last().1.take(4)
            &&& bundle.format == NoteFormat::V2
            &&& forall|d: u64| #[trigger]
                bundle.tiers.contains_key(d) <==> v2_notes_of(fields, d).len() > 0
            &&& forall|d: u64| #[trigger] listed(bundle.tiers, d) == v2_notes_of(fields, d)
        },
{
    let none = Map::<u64, Seq<Seq<u8>>>::empty();
    lemma_v2_fields(s, None, none, fields, rest);
    let (found, all) = v2_fields(n as nat, s, None, none)->Ok_0;
    assert forall|d: u64| #[trigger] listed(all, d) == v2_notes_of(fields, d) by {
        assert(listed(all, d) == listed(none, d) + v2_notes_of(fields, d));
        assert(Seq::<Seq<u8>>::empty() + v2_notes_of(fields, d) =~= v2_notes_of(fields, d));
    }
    if all == none {
        assert forall|d: u64| (#[trigger] v2_notes_of(fields, d)).len() == 0 by {
            assert(!all.contains_key(d));
        }
    } else {
        assert(exists|d: u64| #[trigger] all.contains_key(d)) by {
            if forall|d: u64| !#[trigger] all.contains_key(d) {
                assert(all =~= none);
            }
        }
        let d = choose|d: u64| #[trigger] all.contains_key(d);
        assert(v2_notes_of(fields, d).len() > 0);
    }
    if v2_ids(fields).len() > 0 {
        let isid = |f: (u64, Seq<u8>)| f.0 == 0 && f.1.len() >= 32;
        broadcast use vstd::seq_lib::group_filter_ensures;

        let k = v2_ids(fields).len() - 1;
        assert(isid(v2_ids(fields)[k]));
        let body = v2_ids(fields).last().1;
        assert(body.take(32).take(4) =~= body.take(4));
    }
}

proof fn lemma_v2_has_fields(
    n: nat,
    s: Seq<u8>,
    id: Option<Seq<u8>>,
    tiers: Map<u64, Seq<Seq<u8>>>,
)
    requires
        v2_fields(n, s, id, tiers) is Ok,
    ensures
        exists|fields: Seq<(u64, Seq<u8>)>, rest: Seq<u8>|
            fields.len() == n && #[trigger] reads(s, fields, MAX_BODY as nat, rest),
    decreases n,
{
    if n == 0 {
        let none = Seq::<(u64, Seq<u8>)>::empty();
        assert(reads(s, none, MAX_BODY as nat, s));
    } else {
        let (tag, body, next) = part(s, MAX_BODY, short_field())->Ok_0;
        let (id2, tiers2) = if tag == 0 && body.len() >= 32 {
            (Some(body.take(32)), tiers)
        } else if tag == 1 && body.len() >= 81 {
            (id, with_notes(tiers, amount_of(body[0]), seq![body]))
        } else {
            (id, tiers)
        };
        lemma_v2_has_fields((n - 1) as nat, next, id2, tiers2);
        let (later, rest) = choose|later: Seq<(u64, Seq<u8>)>, rest: Seq<u8>|
            later.len() == n - 1 && #[trigger] reads(next, later, MAX_BODY as nat, rest);
        lemma_part_first(s, MAX_BODY, short_field(), later, rest);
        let fields = seq![(tag, body)] + later;
        assert(reads(s, fields, MAX_BODY as nat, rest));
    }
}

/// Only bytes that are as many fields as they say make up a bundle in the second format.
pub proof fn law_v2_needs_its_fields(bytes: Seq<u8>)
    requires
        v2_bundle(bytes) is Ok,
    ensures
        varint(bytes) matches Some((n, s)) && exists|fields: Seq<(u64, Seq<u8>)>, rest: Seq<u8>|
            fields.len() == n && #[trigger] reads(s, fields, 10_000_000, rest),
{
    let (n, s) = varint(bytes)->Some_0;
    lemma_v2_has_fields(n as nat, s, None, Map::empty());
}

/// A part with a federation's ID, as invite codes have it.
pub open spec fn names_federation(p: (u64, Seq<u8>)) -> bool {
    p.0 == 1 && p.1.len() >= 32
}

proof fn lemma_invite_finds(
    n: nat,
    s: Seq<u8>,
    front: Seq<(u64, Seq<u8>)>,
    body: Seq<u8>,
    rest: Seq<u8>,
)
    requires
        front.len() < n,
        forall|i: int| 0 <= i < front.len() ==> !names_federation(#[trigger] front[i]),
        body.len() >= 32,
        reads(s, front + seq![(1u64, body)], u64::MAX as nat, rest),
    ensures
        federation_in_parts(n, s) == Ok::<Seq<u8>, Seq<char>>(body.take(32)),
    decreases front.len(),
{
    let parts = front + seq![(1u64, body)];
    let next = lemma_first_part(s, parts, u64::MAX, rest, short_invite());
    if front.len() > 0 {
        assert(parts[0] == front[0]);
        assert(!names_federation(front[0]));
        assert(parts.skip(1) =~= front.skip(1) + seq![(1u64, body)]);
        assert forall|i: int| 0 <= i < front.skip(1).len() implies !names_federation(
            #[trigger] front.skip(1)[i],
        ) by {
            assert(front.skip(1)[i] == front[i + 1]);
        }
        lemma_invite_finds((n - 1) as nat, next, front.skip(1), body, rest);
    } else {
        assert(parts[0] == (1u64, body));
    }
}

/// An invite code is read as the ID in the first of its parts that has the tag 1 and thirty-two
/// bytes. Parts with other tags in front of it are passed over, however long they are, and what is
/// behind it does not matter.
pub proof fn law_invite_names_federation(
    bytes: Seq<u8>,
    n: u64,
    s: Seq<u8>,
    front: Seq<(u64, Seq<u8>)>,
    body: Seq<u8>,
    rest: Seq<u8>,
)
    requires
        varint(bytes) == Some((n, s)),
        front.len() < n,
        forall|i: int|
            0 <= i < front.len() ==> (#[trigger] front[i]).0 != 1 || front[i].1.len() < 32,
        body.len() >= 32,
        reads(s, front + seq![(1u64, body)], u64::MAX as nat, rest),
    ensures
        federation_in_invite(bytes) == Ok::<Seq<u8>, Seq<char>>(body.take(32)),
{
    lemma_invite_finds(n as nat, s, front, body, rest);
}

/// An invite that is written with any parts with other tags than 1, such as addresses of any
/// length, and then the ID, is read as that ID, whatever is behind it.
pub proof fn law_invite_round_trip(
    n: u64,
    front: Seq<(u64, Seq<u8>)>,
    id: Seq<u8>,
    behind: Seq<u8>,
)
    requires
        front.len() < n,
        forall|i: int|
            0 <= i < front.len() ==> (#[trigger] front[i]).0 != 1 && front[i].1.len() <= u64::MAX,
        id.len() == 32,
    ensures
        federation_in_invite(varint_bytes(n) + written(front + seq![(1u64, id)]) + behind) == Ok::<
            Seq<u8>,
            Seq<char>,
        >(id),
{
    let parts = front + seq![(1u64, id)];
    assert forall|i: int| 0 <= i < parts.len() implies (#[trigger] parts[i]).1.len()
        <= u64::MAX by {
        if i < front.len() {
            assert(parts[i] == front[i]);
        }
    }
    law_written_parts_are_read(parts, u64::MAX, behind);
    let s = written(parts) + behind;
    lemma_counted(n, written(parts), behind);
    lemma_invite_finds(n as nat, s, front, id, behind);
    assert(id.take(32) =~= id);
}

/// A number in front of bytes is read first.
proof fn lemma_counted(n: u64, s: Seq<u8>, rest: Seq<u8>)
    ensures
        varint(varint_bytes(n) + s + rest) == Some((n, s + rest)),
{
    law_varint_round_trip(n, s + rest);
    lemma_three(varint_bytes(n), s, rest);
}

proof fn lemma_three(a: Seq<u8>, b: Seq<u8>, c: Seq<u8>)
    ensures
        a + b + c == a + (b + c),
{
    assert(a + b + c =~= a + (b + c));
}

proof fn lemma_invite_without(n: nat, s: Seq<u8>, parts: Seq<(u64, Seq<u8>)>, rest: Seq<u8>)
    requires
        parts.len() == n,
        forall|i: int| 0 <= i < parts.len() ==> !names_federation(#[trigger] parts[i]),
        reads(s, parts, u64::MAX as nat, rest),
    ensures
        federation_in_parts(n, s) == Err::<Seq<u8>, _>("No FederationId found in invite code"@),
    decreases n,
{
    if n > 0 {
        let next = lemma_first_part(s, parts, u64::MAX, rest, short_invite());
        assert(!names_federation(parts[0]));
        assert forall|i: int| 0 <= i < parts.skip(1).len() implies !names_federation(
            #[trigger] parts.skip(1)[i],
        ) by {
            assert(parts.skip(1)[i] == parts[i + 1]);
        }
        lemma_invite_without((n - 1) as nat, next, parts.skip(1), rest);
    }
}

/// An invite code none of whose parts has the tag 1 and thirty-two bytes names no federation.
pub proof fn law_invite_without_federation(
    bytes: Seq<u8>,
    n: u64,
    s: Seq<u8>,
    parts: Seq<(u64, Seq<u8>)>,
    rest: Seq<u8>,
)
    requires
        varint(bytes) == Some((n, s)),
        parts.len() == n,
        forall|i: int|
            0 <= i < parts.len() ==> (#[trigger] parts[i]).0 != 1 || parts[i].1.len() < 32,
        reads(s, parts, u64::MAX as nat, rest),
    ensures
        federation_in_invite(bytes) == Err::<Seq<u8>, _>("No FederationId found in invite code"@),
{
    lemma_invite_without(n as nat, s, parts, rest);
}

/// `s` begins with fewer than `n` parts that name no federation and then one that names `id`.
pub open spec fn leads_to_id(
    n: nat,
    s: Seq<u8>,
    front: Seq<(u64, Seq<u8>)>,
    body: Seq<u8>,
    rest: Seq<u8>,
) -> bool {
    &&& front.len() < n
    &&& forall|i: int|
        0 <= i < front.len() ==> (#[trigger] front[i]).0 != 1 || front[i].1.len() < 32
    &&& body.len() >= 32
    &&& reads(s, front + seq![(1u64, body)], u64::MAX as nat, rest)
}

proof fn lemma_invite_has_id(n: nat, s: Seq<u8>)
    requires
        federation_in_parts(n, s) is Ok,
    ensures
        exists|front: Seq<(u64, Seq<u8>)>, body: Seq<u8>, rest: Seq<u8>| #[trigger]
            leads_to_id(n, s, front, body, rest) && federation_in_parts(n, s) == Ok::<
                Seq<u8>,
                Seq<char>,
            >(body.take(32)),
    decreases n,
{
    let (tag, body, next) = part(s, u64::MAX, short_invite())->Ok_0;
    if tag == 1 && body.len() >= 32 {
        let none = Seq::<(u64, Seq<u8>)>::empty();
        assert(reads(next, none, u64::MAX as nat, next));
        lemma_part_first(s, u64::MAX, short_invite(), none, next);
        assert(seq![(tag, body)] + none =~= none + seq![(1u64, body)]);
        assert(leads_to_id(n, s, none, body, next));
    } else {
        lemma_invite_has_id((n - 1) as nat, next);
        let (later, found, rest) = choose|
            later: Seq<(u64, Seq<u8>)>,
            found: Seq<u8>,
            rest: Seq<u8>,
        | #[trigger]
            leads_to_id((n - 1) as nat, next, later, found, rest) && federation_in_parts(
                (n - 1) as nat,
                next,
            ) == Ok::<Seq<u8>, Seq<char>>(found.take(32));
        let front = seq![(tag, body)] + later;
        lemma_part_first(s, u64::MAX, short_invite(), later + seq![(1u64, found)], rest);
        assert(seq![(tag, body)] + (later + seq![(1u64, found)]) =~= front + seq![(1u64, found)]);
        assert forall|i: int| 0 <= i < front.len() implies (#[trigger] front[i]).0 != 1
            || front[i].1.len() < 32 by {
            if i > 0 {
                assert(front[i] == later[i - 1]);
            }
        }
        assert(leads_to_id(n, s, front, found, rest));
    }
}

/// An ID that is read out of an invite code stands in it, in a part with the tag 1 among as many
/// parts as the code says it has.
pub proof fn law_invite_needs_id(bytes: Seq<u8>)
    requires
        federation_in_invite(bytes) is Ok,
    ensures
        varint(bytes) matches Some((n, s)) && exists|
            front: Seq<(u64, Seq<u8>)>,
            body: Seq<u8>,
            rest: Seq<u8>,
        | #[trigger]
            leads_to_id(n as nat, s, front, body, rest) && federation_in_invite(bytes) == Ok::<
                Seq<u8>,
                Seq<char>,
            >(body.take(32)),
{
    let (n, s) = varint(bytes)->Some_0;
    lemma_invite_has_id(n as nat, s);
}

proof fn lemma_behind_peers(s: Seq<u8>, peers: Seq<(u64, Seq<u8>)>, rest: Seq<u8>)
    requires
        reads(s, peers, u64::MAX as nat, rest),
    ensures
        behind_peers(peers.len(), s) == Ok::<Seq<u8>, Seq<char>>(rest),
    decreases peers.len(),
{
    if peers.len() > 0 {
        let s1 = varint(s)->Some_0.1;
        let (len, s2) = varint(s1)->Some_0;
        lemma_behind_peers(s2.skip(len as int), peers.skip(1), rest);
    }
}

/// An invite that comes with notes is read as the thirty-two bytes behind its peers, each of which
/// is a number and an address of any length, and is not read where there are fewer.
pub proof fn law_invited_behind_peers(
    body: Seq<u8>,
    n: u64,
    s: Seq<u8>,
    peers: Seq<(u64, Seq<u8>)>,
    rest: Seq<u8>,
)
    requires
        varint(body) == Some((n, s)),
        peers.len() == n,
        reads(s, peers, u64::MAX as nat, rest),
    ensures
        rest.len() >= 32 ==> invited_federation(body) == Ok::<Seq<u8>, Seq<char>>(rest.take(32)),
        rest.len() < 32 ==> invited_federation(body) is Err,
{
    lemma_behind_peers(s, peers, rest);
}

proof fn lemma_has_peers(n: nat, s: Seq<u8>)
    requires
        behind_peers(n, s) is Ok,
    ensures
        exists|peers: Seq<(u64, Seq<u8>)>|
            peers.len() == n && #[trigger] reads(
                s,
                peers,
                u64::MAX as nat,
                behind_peers(n, s)->Ok_0,
            ),
    decreases n,
{
    let rest = behind_peers(n, s)->Ok_0;
    if n == 0 {
        let none = Seq::<(u64, Seq<u8>)>::empty();
        assert(reads(s, none, u64::MAX as nat, rest));
    } else {
        let (peer, s1) = varint(s)->Some_0;
        let (len, s2) = varint(s1)->Some_0;
        let next = s2.skip(len as int);
        lemma_has_peers((n - 1) as nat, next);
        let later = choose|later: Seq<(u64, Seq<u8>)>|
            later.len() == n - 1 && #[trigger] reads(next, later, u64::MAX as nat, rest);
        let peers = seq![(peer, s2.take(len as int))] + later;
        assert(peers.skip(1) =~= later);
        assert(peers[0] == (peer, s2.take(len as int)));
        assert(reads(s, peers, u64::MAX as nat, rest));
    }
}

/// An invite that comes with notes is read only if it has as many peers as it says, and then an
/// ID.
pub proof fn law_invited_needs_peers(body: Seq<u8>)
    requires
        invited_federation(body) is Ok,
    ensures
        varint(body) matches Some((n, s)) && exists|peers: Seq<(u64, Seq<u8>)>, rest: Seq<u8>|
            peers.len() == n && rest.len() >= 32 && #[trigger] reads(
                s,
                peers,
                u64::MAX as nat,
                rest,
            ),
{
    let (n, s) = varint(body)->Some_0;
    lemma_has_peers(n as nat, s);
    let rest = behind_peers(n as nat, s)->Ok_0;
    let peers = choose|peers: Seq<(u64, Seq<u8>)>|
        peers.len() == n && #[trigger] reads(s, peers, u64::MAX as nat, rest);
    assert(reads(s, peers, u64::MAX as nat, rest));
}

/// `s` begins with rows, each of which is a denomination, a count and that many notes of eighty
/// bytes.
pub open spec fn has_rows(s: Seq<u8>, rows: Seq<(u64, Seq<Seq<u8>>)>) -> bool
    decreases rows.len(),
{
    rows.len() == 0 || (varint(s) matches Some((d, s1)) && (varint(s1) matches Some((count, s2))
        && {
        &&& d == rows[0].0
        &&& count == rows[0].1.len()
        &&& count <= 100_000
        &&& 80 * count <= s2.len()
        &&& forall|i: int|
            0 <= i < count ==> #[trigger] rows[0].1[i] == s2.subrange(80 * i, 80 * i + 80)
        &&& has_rows(s2.skip(80 * count), rows.skip(1))
    }))
}

/// The body is a table with these rows.
pub open spec fn is_table(body: Seq<u8>, rows: Seq<(u64, Seq<Seq<u8>>)>) -> bool {
    varint(body) matches Some((n, s)) && n == rows.len() && n <= 1000 && has_rows(s, rows)
}

/// The notes of `d` msats in the rows.
pub open spec fn in_rows(rows: Seq<(u64, Seq<Seq<u8>>)>, d: u64) -> Seq<Seq<u8>>
    decreases rows.len(),
{
    if rows.len() == 0 {
        Seq::empty()
    } else {
        (if rows[0].0 == d {
            rows[0].1
        } else {
            Seq::empty()
        }) + in_rows(rows.skip(1), d)
    }
}

/// One of the rows is of `d` msats.
pub open spec fn has_row(rows: Seq<(u64, Seq<Seq<u8>>)>, d: u64) -> bool {
    exists|i: int| 0 <= i < rows.len() && (#[trigger] rows[i]).0 == d
}

proof fn lemma_has_row_front(rows: Seq<(u64, Seq<Seq<u8>>)>, d: u64)
    requires
        rows.len() > 0,
    ensures
        has_row(rows, d) <==> rows[0].0 == d || has_row(rows.skip(1), d),
{
    if has_row(rows, d) && rows[0].0 != d {
        let i = choose|i: int| 0 <= i < rows.len() && (#[trigger] rows[i]).0 == d;
        assert(rows.skip(1)[i - 1].0 == d);
    }
    if has_row(rows.skip(1), d) {
        let i = choose|i: int| 0 <= i < rows.skip(1).len() && (#[trigger] rows.skip(1)[i]).0 == d;
        assert(rows[i + 1].0 == d);
    }
}

proof fn lemma_rows(
    s: Seq<u8>,
    rows: Seq<(u64, Seq<Seq<u8>>)>,
    tiers: Map<u64, Seq<Seq<u8>>>,
)
    requires
        has_rows(s, rows),
    ensures
        v1_tiers(rows.len(), s, tiers) matches Ok(all) && {
            &&& forall|d: u64| #[trigger] listed(all, d) == listed(tiers, d) + in_rows(rows, d)
            &&& forall|d: u64| #[trigger]
                all.contains_key(d) <==> tiers.contains_key(d) || has_row(rows, d)
        },
    decreases rows.len(),
{
    if rows.len() == 0 {
        assert forall|d: u64| #[trigger] listed(tiers, d) == listed(tiers, d) + in_rows(
            rows,
            d,
        ) by {
            assert(listed(tiers, d) + in_rows(rows, d) =~= listed(tiers, d));
        }
    } else {
        let (d, s1) = varint(s)->Some_0;
        let (count, s2) = varint(s1)->Some_0;
        assert(cut_notes(s2, count as nat) =~= rows[0].1);
        let next = with_notes(tiers, d, rows[0].1);
        lemma_rows(s2.skip(80 * count), rows.skip(1), next);
        let all = v1_tiers(rows.len(), s, tiers)->Ok_0;
        assert forall|e: u64| #[trigger] listed(all, e) == listed(tiers, e) + in_rows(
            rows,
            e,
        ) by {
            assert(listed(all, e) == listed(next, e) + in_rows(rows.skip(1), e));
            assert(listed(tiers, e) + in_rows(rows, e) =~= listed(next, e) + in_rows(
                rows.skip(1),
                e,
            ));
        }
        assert forall|e: u64| #[trigger] all.contains_key(e) <==> tiers.contains_key(e) || has_row(
            rows,
            e,
        ) by {
            lemma_has_row_front(rows, e);
            assert(all.contains_key(e) <==> next.contains_key(e) || has_row(rows.skip(1), e));
        }
    }
}

proof fn lemma_has_rows(n: nat, s: Seq<u8>, tiers: Map<u64, Seq<Seq<u8>>>) -> (rows: Seq<
    (u64, Seq<Seq<u8>>),
>)
    requires
        v1_tiers(n, s, tiers) is Ok,
    ensures
        rows.len() == n,
        has_rows(s, rows),
    decreases n,
{
    if n == 0 {
        Seq::empty()
    } else {
        let (d, s1) = varint(s)->Some_0;
        let (count, s2) = varint(s1)->Some_0;
        let list = cut_notes(s2, count as nat);
        let later = lemma_has_rows(
            (n - 1) as nat,
            s2.skip(80 * count),
            with_notes(tiers, d, list),
        );
        let rows = seq![(d, list)] + later;
        assert(rows[0] == (d, list));
        assert(rows.skip(1) =~= later);
        rows
    }
}

/// The parts are those of a bundle in the first format: those with the tag 0 are tables, those
/// with the tag 1 have at least four bytes. The other parts have no rows.
pub open spec fn v1_shaped(
    parts: Seq<(u64, Seq<u8>)>,
    tables: Seq<Seq<(u64, Seq<Seq<u8>>)>>,
) -> bool {
    &&& tables.len() == parts.len()
    &&& forall|i: int|
        0 <= i < parts.len() ==> {
            &&& (#[trigger] parts[i]).0 == 0 ==> is_table(parts[i].1, tables[i])
            &&& parts[i].0 != 0 ==> tables[i].len() == 0
            &&& parts[i].0 == 1 ==> parts[i].1.len() >= 4
        }
}

/// The prefix that the parts name: that of the last part with the tag 1, or else, where there is
/// none, that of the first invite that can be read.
pub open spec fn v1_named(parts: Seq<(u64, Seq<u8>)>) -> Option<Seq<u8>> {
    let prefixes = parts.filter(|p: (u64, Seq<u8>)| p.0 == 1);
    let invites = parts.filter(|p: (u64, Seq<u8>)| p.0 == 2 && invited_federation(p.1) is Ok);
    if prefixes.len() > 0 {
        Some(prefixes.last().1.take(4))
    } else if invites.len() > 0 {
        Some(invited_federation(invites[0].1)->Ok_0.take(4))
    } else {
        None
    }
}

/// The notes of `d` msats in the tables.
pub open spec fn in_tables(tables: Seq<Seq<(u64, Seq<Seq<u8>>)>>, d: u64) -> Seq<Seq<u8>>
    decreases tables.len(),
{
    if tables.len() == 0 {
        Seq::empty()
    } else {
        in_rows(tables[0], d) + in_tables(tables.skip(1), d)
    }
}

/// One of the tables has a row of `d` msats.
pub open spec fn some_row(tables: Seq<Seq<(u64, Seq<Seq<u8>>)>>, d: u64) -> bool {
    exists|i: int| 0 <= i < tables.len() && has_row(#[trigger] tables[i], d)
}

proof fn lemma_some_row_front(tables: Seq<Seq<(u64, Seq<Seq<u8>>)>>, d: u64)
    requires
        tables.len() > 0,
    ensures
        some_row(tables, d) <==> has_row(tables[0], d) || some_row(tables.skip(1), d),
{
    if some_row(tables, d) && !has_row(tables[0], d) {
        let i = choose|i: int| 0 <= i < tables.len() && has_row(#[trigger] tables[i], d);
        assert(has_row(tables.skip(1)[i - 1], d));
    }
    if some_row(tables.skip(1), d) {
        let i = choose|i: int|
            0 <= i < tables.skip(1).len() && has_row(#[trigger] tables.skip(1)[i], d);
        assert(has_row(tables[i + 1], d));
    }
}

/// The prefix once the parts have been read, where `so_far` was known before.
spec fn v1_named_after(so_far: Option<Seq<u8>>, parts: Seq<(u64, Seq<u8>)>) -> Option<Seq<u8>> {
    let prefixes = parts.filter(|p: (u64, Seq<u8>)| p.0 == 1);
    if prefixes.len() > 0 || so_far is None {
        v1_named(parts)
    } else {
        so_far
    }
}

proof fn lemma_named_front(so_far: Option<Seq<u8>>, parts: Seq<(u64, Seq<u8>)>)
    requires
        parts.len() > 0,
    ensures
        v1_named_after(so_far, parts) == v1_named_after(
            if parts[0].0 == 1 {
                Some(parts[0].1.take(4))
            } else if parts[0].0 == 2 {
                prefix_or_invited(so_far, parts[0].1)
            } else {
                so_far
            },
            parts.skip(1),
        ),
{
    let p1 = |p: (u64, Seq<u8>)| p.0 == 1;
    let p2 = |p: (u64, Seq<u8>)| p.0 == 2 && invited_federation(p.1) is Ok;
    lemma_filter_front(parts, p1);
    lemma_filter_front(parts, p2);
    let later = parts.skip(1);
    if later.filter(p1).len() > 0 {
        assert(parts.filter(p1).last() == later.filter(p1).last());
    } else {
        assert(later.filter(p1) =~= Seq::empty());
    }
}

proof fn lemma_v1_parts(
    s: Seq<u8>,
    prefix: Option<Seq<u8>>,
    tiers: Map<u64, Seq<Seq<u8>>>,
    parts: Seq<(u64, Seq<u8>)>,
    tables: Seq<Seq<(u64, Seq<Seq<u8>>)>>,
    rest: Seq<u8>,
)
    requires
        reads(s, parts, MAX_BODY as nat, rest),
        v1_shaped(parts, tables),
    ensures
        v1_parts(parts.len(), s, prefix, tiers) matches Ok((found, all)) && {
            &&& found == v1_named_after(prefix, parts)
            &&& forall|d: u64| #[trigger] listed(all, d) == listed(tiers, d) + in_tables(tables, d)
            &&& forall|d: u64| #[trigger]
                all.contains_key(d) <==> tiers.contains_key(d) || some_row(tables, d)
        },
    decreases parts.len(),
{
    if parts.len() == 0 {
        reveal(Seq::filter);
        assert forall|d: u64| #[trigger] listed(tiers, d) == listed(tiers, d) + in_tables(
            tables,
            d,
        ) by {
            assert(listed(tiers, d) + in_tables(tables, d) =~= listed(tiers, d));
        }
    } else {
        let (tag, body) = parts[0];
        let next = lemma_first_part(s, parts, MAX_BODY, rest, read_error());
        let later = parts.skip(1);
        lemma_named_front(prefix, parts);
        let prefix2 = if tag == 1 {
            Some(body.take(4))
        } else if tag == 2 {
            prefix_or_invited(prefix, body)
        } else {
            prefix
        };
        let tiers2 = if tag == 0 {
            v1_body(body, tiers)->Ok_0
        } else {
            tiers
        };
        if tag == 0 {
            assert(is_table(parts[0].1, tables[0]));
            lemma_rows(varint(body)->Some_0.1, tables[0], tiers);
        }
        assert forall|d: u64| #[trigger] listed(tiers2, d) == listed(tiers, d) + in_rows(
            tables[0],
            d,
        ) by {
            if tag != 0 {
                assert(tables[0].len() == 0);
                assert(listed(tiers, d) + in_rows(tables[0], d) =~= listed(tiers, d));
            }
        }
        assert forall|d: u64| #[trigger] tiers2.contains_key(d) <==> tiers.contains_key(d)
            || has_row(tables[0], d) by {}
        assert(v1_shaped(later, tables.skip(1))) by {
            assert forall|i: int| 0 <= i < later.len() implies {
                &&& (#[trigger] later[i]).0 == 0 ==> is_table(later[i].1, tables.skip(1)[i])
                &&& later[i].0 != 0 ==> tables.skip(1)[i].len() == 0
                &&& later[i].0 == 1 ==> later[i].1.len() >= 4
            } by {
                assert(later[i] == parts[i + 1]);
                assert(tables.skip(1)[i] == tables[i + 1]);
            }
        }
        lemma_v1_parts(next, prefix2, tiers2, later, tables.skip(1), rest);
        assert(v1_parts(parts.len(), s, prefix, tiers) == v1_parts(
            later.len(),
            next,
            prefix2,
            tiers2,
        ));
        let all = v1_parts(parts.len(), s, prefix, tiers)->Ok_0.1;
        assert forall|d: u64| #[trigger] listed(all, d) == listed(tiers, d) + in_tables(
            tables,
            d,
        ) by {
            assert(listed(all, d) == listed(tiers2, d) + in_tables(tables.skip(1), d));
            assert(listed(tiers2, d) == listed(tiers, d) + in_rows(tables[0], d));
            assert(listed(tiers, d) + in_tables(tables, d) =~= listed(tiers2, d) + in_tables(
                tables.skip(1),
                d,
            ));
        }
        assert forall|d: u64| #[trigger] all.contains_key(d) <==> tiers.contains_key(d) || some_row(
            tables,
            d,
        ) by {
            lemma_some_row_front(tables, d);
            assert(all.contains_key(d) <==> tiers2.contains_key(d) || some_row(tables.skip(1), d));
        }
    }
}

/// What is read of parts of the first format, in whatever order they come and whatever is among or
/// behind them. The bundle is of the federation that the last part with the tag 1 names, or else
/// of that of the first invite, and under each denomination it lists the notes of the tables in
/// their order. There is a bundle exactly if a federation is named and there is a row.
pub proof fn law_v1_reads_parts(
    bytes: Seq<u8>,
    n: u64,
    s: Seq<u8>,
    parts: Seq<(u64, Seq<u8>)>,
    tables: Seq<Seq<(u64, Seq<Seq<u8>>)>>,
    rest: Seq<u8>,
)
    requires
        varint(bytes) == Some((n, s)),
        parts.len() == n,
        reads(s, parts, 10_000_000, rest),
        v1_shaped(parts, tables),
    ensures
        v1_bundle(bytes) is Ok <==> {
            &&& 0 < n <= 100
            &&& v1_named(parts) is Some
            &&& exists|d: u64| #[trigger] some_row(tables, d)
        },
        v1_bundle(bytes) matches Ok(bundle) ==> {
            &&& v1_named(parts) == Some(bundle.prefix)
            &&& bundle.format == NoteFormat::V1
            &&& forall|d: u64| #[trigger] bundle.tiers.contains_key(d) <==> some_row(tables, d)
            &&& forall|d: u64| #[trigger] listed(bundle.tiers, d) == in_tables(tables, d)
        },
{
    let none = Map::<u64, Seq<Seq<u8>>>::empty();
    lemma_v1_parts(s, None, none, parts, tables, rest);
    let (found, all) = v1_parts(n as nat, s, None, none)->Ok_0;
    assert(found == v1_named(parts));
    assert forall|d: u64| #[trigger] listed(all, d) == in_tables(tables, d) by {
        assert(listed(all, d) == listed(none, d) + in_tables(tables, d));
        assert(Seq::<Seq<u8>>::empty() + in_tables(tables, d) =~= in_tables(tables, d));
    }
    if all == none {
        assert forall|d: u64| !#[trigger] some_row(tables, d) by {
            assert(!all.contains_key(d));
        }
    } else {
        assert(exists|d: u64| #[trigger] all.contains_key(d)) by {
            if forall|d: u64| !#[trigger] all.contains_key(d) {
                assert(all =~= none);
            }
        }
        let d = choose|d: u64| #[trigger] all.contains_key(d);
        assert(some_row(tables, d));
    }
}

proof fn lemma_v1_has_parts(
    n: nat,
    s: Seq<u8>,
    prefix: Option<Seq<u8>>,
    tiers: Map<u64, Seq<Seq<u8>>>,
) -> (found: (Seq<(u64, Seq<u8>)>, Seq<Seq<(u64, Seq<Seq<u8>>)>>, Seq<u8>))
    requires
        v1_parts(n, s, prefix, tiers) is Ok,
    ensures
        found.0.len() == n,
        v1_shaped(found.0, found.1),
        reads(s, found.0, MAX_BODY as nat, found.2),
    decreases n,
{
    if n == 0 {
        (Seq::empty(), Seq::empty(), s)
    } else {
        let (tag, body, next) = part(s, MAX_BODY, read_error())->Ok_0;
        let prefix2 = if tag == 1 {
            Some(body.take(4))
        } else if tag == 2 {
            prefix_or_invited(prefix, body)
        } else {
            prefix
        };
        let tiers2 = if tag == 0 {
            v1_body(body, tiers)->Ok_0
        } else {
            tiers
        };
        let rows = if tag == 0 {
            let (m, t) = varint(body)->Some_0;
            lemma_has_rows(m as nat, t, tiers)
        } else {
            Seq::empty()
        };
        let (later, tables, rest) = lemma_v1_has_parts((n - 1) as nat, next, prefix2, tiers2);
        lemma_part_first(s, MAX_BODY, read_error(), later, rest);
        let parts = seq![(tag, body)] + later;
        let all = seq![rows] + tables;
        assert forall|i: int| 0 <= i < parts.len() implies {
            &&& (#[trigger] parts[i]).0 == 0 ==> is_table(parts[i].1, all[i])
            &&& parts[i].0 != 0 ==> all[i].len() == 0
            &&& parts[i].0 == 1 ==> parts[i].1.len() >= 4
        } by {
            if i > 0 {
                assert(parts[i] == later[i - 1]);
                assert(all[i] == tables[i - 1]);
            }
        }
        (parts, all, rest)
    }
}

/// Only bytes that are as many parts as they say, with tables where there should be some, make up
/// a bundle in the first format.
pub proof fn law_v1_needs_its_parts(bytes: Seq<u8>)
    requires
        v1_bundle(bytes) is Ok,
    ensures
        varint(bytes) matches Some((n, s)) && exists|
            parts: Seq<(u64, Seq<u8>)>,
            tables: Seq<Seq<(u64, Seq<Seq<u8>>)>>,
            rest: Seq<u8>,
        | #![trigger reads(s, parts, 10_000_000, rest), v1_shaped(parts, tables)]
            parts.len() == n && reads(s, parts, 10_000_000, rest) && v1_shaped(parts, tables),
{
    let (n, s) = varint(bytes)->Some_0;
    let (parts, tables, rest) = lemma_v1_has_parts(n as nat, s, None, Map::empty());
    assert(reads(s, parts, 10_000_000, rest) && v1_shaped(parts, tables));
}

/// What is said where bytes are no bundle in the second format: the number of fields where it is
/// none that may be, and otherwise which of the ID and the notes is missing.
pub proof fn law_v2_refusals(
    bytes: Seq<u8>,
    n: u64,
    s: Seq<u8>,
    fields: Seq<(u64, Seq<u8>)>,
    rest: Seq<u8>,
)
    requires
        varint(bytes) == Some((n, s)),
    ensures
        n == 0 || n > 100_000 ==> v2_bundle(bytes) == Err::<Bundle, _>(
            "Invalid v2 field count: "@ + decimal(n as nat),
        ),
        0 < n <= 100_000 && fields.len() == n && reads(s, fields, 10_000_000, rest) ==> {
            let notes = exists|d: u64| (#[trigger] v2_notes_of(fields, d)).len() > 0;
            &&& v2_ids(fields).len() == 0 ==> v2_bundle(bytes) == Err::<Bundle, _>(
                "No federation ID in v2 ecash"@,
            )
            &&& v2_ids(fields).len() > 0 && !notes ==> v2_bundle(bytes) == Err::<Bundle, _>(
                "No notes in v2 ecash"@,
            )
        },
{
    if 0 < n <= 100_000 && fields.len() == n && reads(s, fields, 10_000_000, rest) {
        law_v2_reads_fields(bytes, n, s, fields, rest);
        lemma_v2_fields(s, None, Map::empty(), fields, rest);
    }
}

/// What is said where bytes are no bundle in the first format: the number of parts where it is
/// none that may be, and otherwise which of the federation and the notes is missing.
pub proof fn law_v1_refusals(
    bytes: Seq<u8>,
    n: u64,
    s: Seq<u8>,
    parts: Seq<(u64, Seq<u8>)>,
    tables: Seq<Seq<(u64, Seq<Seq<u8>>)>>,
    rest: Seq<u8>,
)
    requires
        varint(bytes) == Some((n, s)),
    ensures
        n == 0 || n > 100 ==> v1_bundle(bytes) == Err::<Bundle, _>(
            "Invalid v1 part count: "@ + decimal(n as nat),
        ),
        0 < n <= 100 && parts.len() == n && reads(s, parts, 10_000_000, rest) && v1_shaped(
            parts,
            tables,
        ) ==> {
            let notes = exists|d: u64| #[trigger] some_row(tables, d);
            &&& v1_named(parts) is None ==> v1_bundle(bytes) == Err::<Bundle, _>(
                "No federation ID in v1 notes"@,
            )
            &&& v1_named(parts) is Some && !notes ==> v1_bundle(bytes) == Err::<Bundle, _>(
                "No notes in v1 data"@,
            )
        },
{
    if 0 < n <= 100 && parts.len() == n && reads(s, parts, 10_000_000, rest) && v1_shaped(
        parts,
        tables,
    ) {
        law_v1_reads_parts(bytes, n, s, parts, tables, rest);
        lemma_v1_parts(s, None, Map::empty(), parts, tables, rest);
    }
}

/// Bytes that end before the first number are read as nothing at all, and that is said.
pub proof fn law_no_number_to_read(bytes: Seq<u8>)
    requires
        varint(bytes) is None,
    ensures
        v1_bundle(bytes) == Err::<Bundle, _>("Read error: failed to fill whole buffer"@),
        v2_bundle(bytes) == Err::<Bundle, _>("Read error: failed to fill whole buffer"@),
        federation_in_invite(bytes) == Err::<Seq<u8>, _>(
            "Read error: failed to fill whole buffer"@,
        ),
        invited_federation(bytes) == Err::<Seq<u8>, _>(
            "Read error: failed to fill whole buffer"@,
        ),
{
}

/// A note of the second format whose first byte is `p`, which is less than sixty-four, is listed
/// under two to the power of `p` msats, and under no other amount.
pub proof fn law_v2_note_is_listed(
    bytes: Seq<u8>,
    n: u64,
    s: Seq<u8>,
    fields: Seq<(u64, Seq<u8>)>,
    rest: Seq<u8>,
    i: int,
)
    requires
        varint(bytes) == Some((n, s)),
        fields.len() == n,
        reads(s, fields, 10_000_000, rest),
        v2_bundle(bytes) is Ok,
        0 <= i < fields.len(),
        fields[i].0 == 1,
        fields[i].1.len() >= 81,
        fields[i].1[0] < 64,
    ensures
        ({
            let note = fields[i].1;
            let bundle = v2_bundle(bytes)->Ok_0;
            &&& pow2(note[0] as nat) <= u64::MAX
            &&& listed(bundle.tiers, pow2(note[0] as nat) as u64).contains(note)
            &&& forall|d: u64| #[trigger]
                listed(bundle.tiers, d).contains(note) ==> d == pow2(note[0] as nat)
        }),
{
    let note = fields[i].1;
    let bundle = v2_bundle(bytes)->Ok_0;
    let d = amount_of(note[0]);
    law_amount_is_power_of_two(note[0]);
    law_v2_reads_fields(bytes, n, s, fields, rest);
    lemma_listed_notes(fields, d, i);
    assert(listed(bundle.tiers, d) == v2_notes_of(fields, d));
    assert forall|e: u64| #[trigger] listed(bundle.tiers, e).contains(note) implies e == d by {
        assert(listed(bundle.tiers, e) == v2_notes_of(fields, e));
        lemma_only_listed(fields, e, note);
    }
}

proof fn lemma_listed_notes(fields: Seq<(u64, Seq<u8>)>, d: u64, i: int)
    requires
        0 <= i < fields.len(),
        fields[i].0 == 1,
        fields[i].1.len() >= 81,
        amount_of(fields[i].1[0]) == d,
    ensures
        v2_notes_of(fields, d).contains(fields[i].1),
    decreases fields.len(),
{
    lemma_v2_notes_front(fields, d);
    let all = v2_notes_of(fields, d);
    let later = v2_notes_of(fields.skip(1), d);
    if i == 0 {
        assert(all[0] == fields[0].1);
    } else {
        assert(fields.skip(1)[i - 1] == fields[i]);
        lemma_listed_notes(fields.skip(1), d, i - 1);
        let k = choose|k: int| 0 <= k < later.len() && later[k] == fields[i].1;
        assert(all[all.len() - later.len() + k] == fields[i].1);
    }
}

proof fn lemma_only_listed(fields: Seq<(u64, Seq<u8>)>, d: u64, note: Seq<u8>)
    requires
        v2_notes_of(fields, d).contains(note),
    ensures
        note.len() >= 81,
        amount_of(note[0]) == d,
    decreases fields.len(),
{
    let all = v2_notes_of(fields, d);
    let k = choose|k: int| 0 <= k < all.len() && all[k] == note;
    if fields.len() == 0 {
        reveal(Seq::filter);
    } else {
        lemma_v2_notes_front(fields, d);
        let later = v2_notes_of(fields.skip(1), d);
        if k < all.len() - later.len() {
            assert(all[k] == fields[0].1);
        } else {
            assert(later[k - (all.len() - later.len())] == note);
            lemma_only_listed(fields.skip(1), d, note);
        }
    }
}

} // verus!
