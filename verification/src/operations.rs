//! What the operations of the wallet and the till come to, from what they are given to what they
//! give and leave behind.

use crate::base64_text::encoded;
use crate::config::get_federation_prefix;
use crate::ecash::{
    bundle_bytes, bundle_in_text, check_federation, checked_combine_note_strings,
    combine_note_strings, federation_id_to_prefix, federation_in_code, gathered, note_text,
    parse_invite_code, parse_notes, split_notes_by_denomination,
};
use crate::ecash_fields::{
    encode_multi_note_v2_ecash, encode_single_note_v2_ecash, parse_v2_ecash,
};
use crate::hex_text::hex_decoded;
use crate::invite::{extract_federation_id_from_invite, parse_invite_bytes};
use crate::ledger::{Entry, TxType};
use crate::notes::{note_tiers, Bundle, FederationIdPrefix, NoteFormat, ParsedNotes};
use crate::oob_notes::{
    encode_multi_note_v1_oob, encode_single_note_v1_oob, parse_v1_oob_notes, v1_body_bytes,
};
use crate::parts::{
    in_tables, law_invite_names_federation, law_invite_round_trip, law_invite_without_federation,
    law_invited_behind_peers, law_v1_reads_parts, law_v2_reads_fields, reads, some_row, v1_named,
    v1_shaped, v2_ids, v2_notes_of, written,
};
use crate::plan::{count_of, planned};
use crate::plan_laws::{
    largest_first, law_no_plan, law_plan_takes_largest_first, law_plan_tops_up, topped_up, tops_up,
};
use crate::reading::{
    law_note_text_is_written, law_v1_is_written_in_parts, law_v2_is_written_in_fields,
    law_writable, tier_fields,
};
use crate::round_trip::genuine_notes;
use crate::storage::{drawn, stock, without, Wallet};
use crate::text::{text_tiers, texts};
use crate::tiers::{ascending, listed, nats, sizes, total, worth};
use crate::till::{
    id_text, process_deposit, process_payment, process_withdrawal, read_own_notes, Outcome,
};
use crate::till_rules::{
    brings, hands_out, is_prefix_of_id, law_deposit_is_own_and_new, law_deposit_is_taken,
    law_payment_gives_change, law_payment_is_own_new_and_enough, law_payment_without_change,
    law_payment_without_plan, law_withdrawal_is_shown, law_withdrawal_loses_nothing,
    msats_to_leave, sale, takes_in, turned_down,
};
use crate::varint::{varint, varint_bytes};
use crate::views::Shown;
use crate::wallet_laws::{law_change_gap, law_known_notes, smaller_than};
use std::collections::BTreeMap;
use vstd::prelude::*;

verus! {

/// Notes are accepted as the till's own exactly if their prefix is the first four bytes of the ID
/// that it was set up with, in either format.
pub proof fn law_own_notes(
    federation_id: Option<&String>,
    data: &str,
    wrong: &str,
    notes: Result<ParsedNotes, String>,
)
    requires
        call_ensures(read_own_notes, (federation_id, data, wrong), notes),
    ensures
        notes matches Ok(notes) ==> bundle_in_text(data@) == Ok::<Bundle, Seq<char>>(notes@)
            && is_prefix_of_id(notes@.prefix, id_text(federation_id)),
        notes is Err ==> (bundle_in_text(data@) matches Ok(bundle) ==> !is_prefix_of_id(
            bundle.prefix,
            id_text(federation_id),
        )),
{
}

/// Depositing new notes of the till's own federation puts each of them into the wallet and records
/// what they are worth. Anything else leaves the wallet as it was.
pub proof fn law_depositing(
    wallet: &mut Wallet,
    federation_id: Option<&String>,
    data: &str,
    outcome: Option<Outcome>,
    bundle: Bundle,
)
    requires
        call_ensures(process_deposit, (wallet, federation_id, data), outcome),
        bundle_in_text(data@) == Ok::<Bundle, Seq<char>>(bundle),
    ensures
        brings(old(wallet)@, id_text(federation_id), data@, bundle) ==> {
            &&& takes_in(old(wallet)@, bundle, final(wallet)@)
            &&& outcome matches Some(outcome) && {
                &&& outcome@.error is None
                &&& outcome@.shown == Some(Shown::Pos)
                &&& outcome@.entry == Some(
                    Entry {
                        amount_msats: worth(sizes(bundle.tiers)) as u64,
                        change_msats: 0,
                        paid_msats: 0,
                        tx_type: TxType::Deposit,
                    },
                )
            }
        },
        !brings(old(wallet)@, id_text(federation_id), data@, bundle) ==> {
            &&& final(wallet)@ == old(wallet)@
            &&& outcome matches Some(outcome) ==> turned_down(outcome@)
            &&& outcome is None ==> worth(sizes(bundle.tiers)) > u64::MAX
        },
{
    let before = old(wallet)@;
    if brings(before, id_text(federation_id), data@, bundle) {
        law_deposit_is_taken(before, id_text(federation_id), data@, bundle);
    } else {
        law_deposit_is_own_and_new(before, id_text(federation_id), data@);
    }
}

/// Paying with new notes of the till's own federation that are worth enough is recorded as a sale.
/// Change that is due is handed out if there is a plan for it and its notes can be put together,
/// and just those notes leave the wallet.
pub proof fn law_paying(
    wallet: &mut Wallet,
    federation_id: Option<&String>,
    requested: u64,
    min_acceptable: u64,
    data: &str,
    outcome: Option<Outcome>,
    bundle: Bundle,
    all: Map<u64, Seq<Seq<char>>>,
    plan: Map<u64, nat>,
    change: Bundle,
    text: Seq<char>,
)
    requires
        call_ensures(
            process_payment,
            (wallet, federation_id, requested, min_acceptable, data),
            outcome,
        ),
        brings(old(wallet)@, id_text(federation_id), data@, bundle),
        min_acceptable <= worth(sizes(bundle.tiers)),
        takes_in(old(wallet)@, bundle, all),
    ensures
        ({
            let received = worth(sizes(bundle.tiers));
            let due = (received - requested) as nat;
            &&& received <= requested ==> {
                &&& takes_in(old(wallet)@, bundle, final(wallet)@)
                &&& outcome matches Some(outcome) && {
                    &&& outcome@.error is None
                    &&& outcome@.entry == Some(sale(requested, received))
                    &&& outcome@.shown == Some(
                        Shown::PaymentSuccess((received / 1000) as u64, 0),
                    )
                }
            }
            &&& received > requested && planned(stock(all), due) == Some(plan) && hands_out(
                all,
                plan,
                change,
                text,
            ) ==> {
                &&& final(wallet)@ == without(all, plan)
                &&& outcome matches Some(outcome) && {
                    &&& outcome@.error is None
                    &&& outcome@.entry == Some(sale(requested, received))
                    &&& outcome@.shown == Some(
                        Shown::GiveChange(text, (received / 1000) as u64, (due / 1000) as u64),
                    )
                }
            }
            &&& received > requested && (planned(stock(all), due) matches Some(p) ==> gathered(
                drawn(all, p, ascending(p.dom())),
            ) is Err) ==> {
                &&& final(wallet)@ == (match planned(stock(all), due) {
                    Some(p) => without(all, p),
                    None => all,
                })
                &&& outcome matches Some(outcome) && {
                    &&& outcome@.error is Some
                    &&& outcome@.entry == Some(sale(requested, received))
                    &&& outcome@.shown == Some(
                        Shown::PaymentSuccess((received / 1000) as u64, 0),
                    )
                }
            }
        }),
{
    let before = old(wallet)@;
    let id = id_text(federation_id);
    let received = worth(sizes(bundle.tiers));
    let due = (received - requested) as nat;
    if received <= requested {
        law_payment_without_change(before, id, requested, min_acceptable, data@, bundle);
    } else if (planned(stock(all), due) matches Some(p) ==> gathered(
        drawn(all, p, ascending(p.dom())),
    ) is Err) {
        law_payment_without_plan(before, id, requested, min_acceptable, data@, bundle, all);
    } else if planned(stock(all), due) == Some(plan) && hands_out(all, plan, change, text) {
        law_payment_gives_change(
            before,
            id,
            requested,
            min_acceptable,
            data@,
            bundle,
            all,
            plan,
            change,
            text,
        );
    }
}

/// Paying with anything else, or with too little, leaves the wallet as it was.
pub proof fn law_paying_in_vain(
    wallet: &mut Wallet,
    federation_id: Option<&String>,
    requested: u64,
    min_acceptable: u64,
    data: &str,
    outcome: Option<Outcome>,
)
    requires
        call_ensures(
            process_payment,
            (wallet, federation_id, requested, min_acceptable, data),
            outcome,
        ),
        bundle_in_text(data@) matches Ok(bundle) ==> !brings(
            old(wallet)@,
            id_text(federation_id),
            data@,
            bundle,
        ) || worth(sizes(bundle.tiers)) < min_acceptable,
    ensures
        final(wallet)@ == old(wallet)@,
        outcome matches Some(outcome) ==> turned_down(outcome@),
{
    law_payment_is_own_new_and_enough(
        old(wallet)@,
        id_text(federation_id),
        requested,
        min_acceptable,
        data@,
    );
}

/// Withdrawing shows the text of the notes that are planned for all but what is to be left, and
/// just those leave the wallet. A genuine wallet stays as it is if nothing is shown.
pub proof fn law_withdrawing(
    wallet: &mut Wallet,
    leave: &str,
    outcome: Option<Outcome>,
    plan: Map<u64, nat>,
    bundle: Bundle,
    text: Seq<char>,
    prefix: Seq<u8>,
    format: NoteFormat,
)
    requires
        call_ensures(process_withdrawal, (wallet, leave), outcome),
    ensures
        ({
            let before = old(wallet)@;
            let most = worth(sizes(before));
            let amount = (most - msats_to_leave(leave@)) as nat;
            &&& msats_to_leave(leave@) < most <= u64::MAX && planned(stock(before), amount) == Some(
                plan,
            ) && hands_out(before, plan, bundle, text) ==> {
                &&& final(wallet)@ == without(before, plan)
                &&& outcome matches Some(outcome) && {
                    &&& outcome@.error is None
                    &&& outcome@.shown == Some(Shown::AdminWithdraw(text))
                    &&& outcome@.entry == Some(
                        Entry {
                            amount_msats: amount as u64,
                            change_msats: 0,
                            paid_msats: 0,
                            tx_type: TxType::Withdrawal,
                        },
                    )
                }
            }
            &&& before.dom().finite() && prefix.len() == 4 && genuine_notes(before, prefix, format)
                ==> (outcome matches Some(outcome) ==> (outcome@.shown is None ==> final(wallet)@
                == before))
        }),
{
    let before = old(wallet)@;
    let most = worth(sizes(before));
    let amount = (most - msats_to_leave(leave@)) as nat;
    if msats_to_leave(leave@) < most <= u64::MAX && planned(stock(before), amount) == Some(plan)
        && hands_out(before, plan, bundle, text) {
        law_withdrawal_is_shown(before, leave@, plan, bundle, text);
    }
    if before.dom().finite() && prefix.len() == 4 && genuine_notes(before, prefix, format) {
        law_withdrawal_loses_nothing(before, leave@, prefix, format);
    }
}

/// A plan for an amount is that of the notes that are taken largest first, if they fall short by
/// one sat at most, and otherwise that with one note more of the smallest denomination that comes
/// out right. `notes` are those that are taken largest first.
pub proof fn law_planning(
    wallet: &Wallet,
    amount: u64,
    available: &BTreeMap<u64, usize>,
    plan: Option<BTreeMap<u64, usize>>,
    notes: Map<u64, nat>,
    d: u64,
)
    requires
        call_ensures(Wallet::plan_withdrawal, (wallet, amount, available), plan),
        available@.dom().finite(),
        largest_first(nats(available@), amount as nat, notes),
    ensures
        ({
            let have = nats(available@);
            &&& amount <= worth(notes) + 1000 ==> (plan matches Some(plan) && nats(plan@) == notes)
            &&& amount > worth(notes) + 1000 && tops_up(have, amount as nat, notes, d) && (forall|
                e: u64,
            | #[trigger] tops_up(have, amount as nat, notes, e) ==> d <= e) ==> (plan matches Some(
                plan,
            ) && nats(plan@) == topped_up(notes, d))
            &&& plan is None <==> amount > worth(notes) + 1000 && (forall|e: u64|
                !#[trigger] tops_up(have, amount as nat, notes, e))
        }),
{
    let have = nats(available@);
    assert(have.dom() =~= available@.dom());
    law_no_plan(have, amount as nat, notes);
    if amount <= worth(notes) + 1000 {
        law_plan_takes_largest_first(have, amount as nat, notes);
    } else if tops_up(have, amount as nat, notes, d) && (forall|e: u64| #[trigger]
        tops_up(have, amount as nat, notes, e) ==> d <= e) {
        law_plan_tops_up(have, amount as nat, notes, d);
    }
}

/// Taking an amount out of the wallet hands out the notes of the plan, and just those leave it.
/// Without a plan nothing leaves it.
pub proof fn law_withdrawing_exactly(
    wallet: &mut Wallet,
    amount: u64,
    selected: Option<Vec<String>>,
)
    requires
        call_ensures(Wallet::withdraw_exact, (wallet, amount), selected),
    ensures
        planned(stock(old(wallet)@), amount as nat) matches Some(plan) ==> {
            &&& selected matches Some(selected) && texts(selected@) == drawn(
                old(wallet)@,
                plan,
                ascending(plan.dom()),
            )
            &&& final(wallet)@ == without(old(wallet)@, plan)
        },
        planned(stock(old(wallet)@), amount as nat) is None ==> selected is None && final(wallet)@
            == old(wallet)@,
{
}

/// Notes are known exactly if one of them is in the wallet under its denomination.
pub proof fn law_knowing(wallet: &Wallet, split: &BTreeMap<u64, Vec<String>>, found: bool)
    requires
        call_ensures(Wallet::contains_any, (wallet, split), found),
    ensures
        found <==> exists|d: u64, i: int, j: int|
            #![trigger wallet@[d][i], text_tiers(split@)[d][j]]
            wallet@.contains_key(d) && text_tiers(split@).contains_key(d) && 0 <= i
                < wallet@[d].len() && 0 <= j < text_tiers(split@)[d].len() && wallet@[d][i]
                == text_tiers(split@)[d][j],
{
    law_known_notes(wallet@, text_tiers(split@));
}

/// Depositing notes adds them behind those of their denomination and changes nothing else.
pub proof fn law_putting_in(wallet: &mut Wallet, split: BTreeMap<u64, Vec<String>>, d: u64)
    requires
        call_ensures(Wallet::deposit, (wallet, split), ()),
    ensures
        listed(final(wallet)@, d) == listed(old(wallet)@, d) + listed(text_tiers(split@), d),
        final(wallet)@.contains_key(d) <==> old(wallet)@.contains_key(d) || split@.contains_key(
            d,
        ),
{
    assert(listed(final(wallet)@, d) =~= listed(old(wallet)@, d) + listed(
        text_tiers(split@),
        d,
    ));
}

/// How many notes there are of each denomination.
pub proof fn law_counting(wallet: &Wallet, counts: BTreeMap<u64, usize>, d: u64)
    requires
        call_ensures(Wallet::denomination_counts, (wallet,), counts),
    ensures
        count_of(nats(counts@), d) == listed(wallet@, d).len(),
        counts@.contains_key(d) <==> listed(wallet@, d).len() > 0,
{
    assert(nats(counts@).contains_key(d) <==> counts@.contains_key(d));
}

/// Change is short exactly if at least two denominations are there and another one has run out
/// that is among the lowest four fifths of them.
pub proof fn law_running_short(wallet: &Wallet, gaps: bool)
    requires
        call_ensures(Wallet::has_change_gaps, (wallet,), gaps),
        wallet@.dom().finite(),
    ensures
        ({
            let n = stock(wallet@).dom().len();
            gaps <==> n >= 2 && exists|d: u64| #[trigger]
                wallet@.contains_key(d) && wallet@[d].len() == 0 && smaller_than(
                    stock(wallet@).dom(),
                    d,
                ) < n - n / 5
        }),
{
    law_change_gap(wallet@);
}

/// Reading bytes in the first format.
pub proof fn law_reading_v1(
    bytes: &[u8],
    read: Result<ParsedNotes, String>,
    n: u64,
    s: Seq<u8>,
    parts: Seq<(u64, Seq<u8>)>,
    tables: Seq<Seq<(u64, Seq<Seq<u8>>)>>,
    rest: Seq<u8>,
)
    requires
        call_ensures(parse_v1_oob_notes, (bytes,), read),
        varint(bytes@) == Some((n, s)),
        parts.len() == n,
        reads(s, parts, 10_000_000, rest),
        v1_shaped(parts, tables),
    ensures
        read is Ok <==> {
            &&& 0 < n <= 100
            &&& v1_named(parts) is Some
            &&& exists|d: u64| #[trigger] some_row(tables, d)
        },
        read matches Ok(notes) ==> {
            &&& v1_named(parts) == Some(notes@.prefix)
            &&& notes@.format == NoteFormat::V1
            &&& forall|d: u64| #[trigger] listed(notes@.tiers, d) == in_tables(tables, d)
        },
{
    law_v1_reads_parts(bytes@, n, s, parts, tables, rest);
}

/// Reading bytes in the second format.
pub proof fn law_reading_v2(
    bytes: &[u8],
    read: Result<ParsedNotes, String>,
    n: u64,
    s: Seq<u8>,
    fields: Seq<(u64, Seq<u8>)>,
    rest: Seq<u8>,
)
    requires
        call_ensures(parse_v2_ecash, (bytes,), read),
        varint(bytes@) == Some((n, s)),
        fields.len() == n,
        reads(s, fields, 10_000_000, rest),
    ensures
        read is Ok <==> {
            &&& 0 < n <= 100_000
            &&& v2_ids(fields).len() > 0
            &&& exists|d: u64| (#[trigger] v2_notes_of(fields, d)).len() > 0
        },
        read matches Ok(notes) ==> {
            &&& notes@.prefix == v2_ids(fields).last().1.take(4)
            &&& notes@.format == NoteFormat::V2
            &&& forall|d: u64| #[trigger] listed(notes@.tiers, d) == v2_notes_of(fields, d)
        },
{
    law_v2_reads_fields(bytes@, n, s, fields, rest);
}

/// Reading an invite that holds any parts with other tags than 1 and then an ID.
pub proof fn law_reading_invite(
    bytes: &[u8],
    read: Result<[u8; 32], String>,
    n: u64,
    front: Seq<(u64, Seq<u8>)>,
    id: Seq<u8>,
    behind: Seq<u8>,
)
    requires
        call_ensures(parse_invite_bytes, (bytes,), read),
        bytes@ == varint_bytes(n) + written(front + seq![(1u64, id)]) + behind,
        front.len() < n,
        forall|i: int|
            0 <= i < front.len() ==> (#[trigger] front[i]).0 != 1 && front[i].1.len() <= u64::MAX,
        id.len() == 32,
    ensures
        read matches Ok(found) && found@ == id,
{
    law_invite_round_trip(n, front, id, behind);
}

/// Reading any invite code whose parts are known up to the first that names a federation.
pub proof fn law_reading_invite_parts(
    bytes: &[u8],
    read: Result<[u8; 32], String>,
    n: u64,
    s: Seq<u8>,
    front: Seq<(u64, Seq<u8>)>,
    body: Seq<u8>,
    rest: Seq<u8>,
)
    requires
        call_ensures(parse_invite_bytes, (bytes,), read),
        varint(bytes@) == Some((n, s)),
        forall|i: int|
            0 <= i < front.len() ==> (#[trigger] front[i]).0 != 1 || front[i].1.len() < 32,
    ensures
        front.len() < n && body.len() >= 32 && reads(
            s,
            front + seq![(1u64, body)],
            u64::MAX as nat,
            rest,
        ) ==> (read matches Ok(found) && found@ == body.take(32)),
        front.len() == n && reads(s, front, u64::MAX as nat, rest) ==> read is Err,
{
    if front.len() < n && body.len() >= 32 && reads(
        s,
        front + seq![(1u64, body)],
        u64::MAX as nat,
        rest,
    ) {
        law_invite_names_federation(bytes@, n, s, front, body, rest);
    }
    if front.len() == n && reads(s, front, u64::MAX as nat, rest) {
        law_invite_without_federation(bytes@, n, s, front, rest);
    }
}

/// Reading an invite that comes with notes.
pub proof fn law_reading_peers(
    body: &[u8],
    read: Result<[u8; 32], String>,
    n: u64,
    s: Seq<u8>,
    peers: Seq<(u64, Seq<u8>)>,
    rest: Seq<u8>,
)
    requires
        call_ensures(extract_federation_id_from_invite, (body,), read),
        varint(body@) == Some((n, s)),
        peers.len() == n,
        reads(s, peers, u64::MAX as nat, rest),
    ensures
        rest.len() >= 32 ==> (read matches Ok(found) && found@ == rest.take(32)),
        rest.len() < 32 ==> read is Err,
{
    law_invited_behind_peers(body@, n, s, peers, rest);
}

/// Putting notes together gives their text if they are of one kind, and an error if they are not.
/// It gives nothing only where the text would be too long or the notes too many.
pub proof fn law_combining(
    note_strings: &[String],
    combined: Option<Result<String, String>>,
    plainly: Result<String, String>,
)
    requires
        call_ensures(checked_combine_note_strings, (note_strings,), combined),
        call_ensures(combine_note_strings, (note_strings,), plainly),
    ensures
        gathered(texts(note_strings@)) is Err ==> (combined matches Some(combined) && combined
            is Err) && plainly is Err,
        gathered(texts(note_strings@)) matches Ok(bundle) ==> {
            let text = encoded(true, true, bundle_bytes(bundle));
            &&& plainly matches Ok(plain) && plain@ == text
            &&& bundle.tiers.dom().finite() && text.len() <= isize::MAX && total(
                sizes(bundle.tiers),
            ) + 1 <= u64::MAX ==> (combined matches Some(combined) && (combined matches Ok(found)
                && found@ == text))
            &&& bundle.tiers.dom().finite() && combined is None ==> text.len() > isize::MAX
                || total(sizes(bundle.tiers)) + 1 > u64::MAX
        },
{
    if let Ok(bundle) = gathered(texts(note_strings@)) {
        if bundle.tiers.dom().finite() {
            law_writable(bundle);
        }
    }
}

/// Splitting notes gives each of them as a text of its own, under its denomination.
pub proof fn law_splitting(notes: &ParsedNotes, split: BTreeMap<u64, Vec<String>>, d: u64)
    requires
        call_ensures(split_notes_by_denomination, (notes,), split),
    ensures
        split@.contains_key(d) <==> listed(notes@.tiers, d).len() > 0,
        listed(text_tiers(split@), d) == listed(notes@.tiers, d).map_values(
            |note: Seq<u8>| note_text(notes@.prefix, notes@.format, d, note),
        ),
{
    assert(text_tiers(split@).contains_key(d) <==> split@.contains_key(d));
    assert(listed(text_tiers(split@), d) =~= listed(notes@.tiers, d).map_values(
        |note: Seq<u8>| note_text(notes@.prefix, notes@.format, d, note),
    ));
}

/// Reading a text gives the bundle that it holds, in the order of preference of its forms.
pub proof fn law_reading_text(s: &str, read: Result<ParsedNotes, String>)
    requires
        call_ensures(parse_notes, (s,), read),
    ensures
        read matches Ok(notes) ==> bundle_in_text(s@) == Ok::<Bundle, Seq<char>>(notes@),
        read is Err ==> bundle_in_text(s@) is Err,
{
}

/// Reading an invite code gives the federation that it names.
pub proof fn law_reading_code(s: &str, read: Result<[u8; 32], String>)
    requires
        call_ensures(parse_invite_code, (s,), read),
    ensures
        read matches Ok(id) ==> federation_in_code(s@) == Ok::<Seq<u8>, Seq<char>>(id@),
        read is Err ==> federation_in_code(s@) is Err,
{
}

/// The prefix of an ID in hexadecimal is the first four of the bytes that it stands for.
pub proof fn law_finding_prefix(id: &str, prefix: Result<FederationIdPrefix, String>)
    requires
        call_ensures(get_federation_prefix, (id,), prefix),
    ensures
        prefix is Ok <==> (hex_decoded(id@) matches Ok(bytes) && bytes.len() >= 4),
        prefix matches Ok(prefix) ==> prefix@ == hex_decoded(id@)->Ok_0.take(4),
{
}

/// Notes are of a federation exactly if their prefix is the first four bytes of its ID.
pub proof fn law_checking_federation(
    notes: &ParsedNotes,
    id: &[u8; 32],
    prefix: FederationIdPrefix,
    yes: bool,
)
    requires
        call_ensures(federation_id_to_prefix, (id,), prefix),
        call_ensures(check_federation, (notes, &prefix), yes),
    ensures
        yes <==> notes@.prefix == id@.take(4),
{
}

/// Writing a bundle, in either format.
pub proof fn law_writing(
    prefix: &FederationIdPrefix,
    notes: &BTreeMap<u64, Vec<Vec<u8>>>,
    v1: Vec<u8>,
    v2: Vec<u8>,
)
    requires
        call_ensures(encode_multi_note_v1_oob, (prefix, notes), v1),
        call_ensures(encode_multi_note_v2_ecash, (prefix, notes), v2),
    ensures
        ({
            let tiers = note_tiers(notes@);
            let fields = tier_fields(ascending(tiers.dom()), tiers);
            let id = prefix@ + Seq::new(28, |i: int| 0u8);
            &&& v1@ == varint_bytes(2) + written(
                seq![(1u64, prefix@), (0u64, v1_body_bytes(tiers))],
            )
            &&& v2@ == varint_bytes((1 + fields.len()) as u64) + written(
                seq![(0u64, id)] + fields,
            )
        }),
{
    law_v1_is_written_in_parts(prefix@, note_tiers(notes@));
    law_v2_is_written_in_fields(prefix@, note_tiers(notes@));
}

/// Writing a single note, in either format.
pub proof fn law_writing_one(
    prefix: &FederationIdPrefix,
    d: u64,
    note: &Vec<u8>,
    v1: Vec<u8>,
    v2: Vec<u8>,
)
    requires
        call_ensures(encode_single_note_v1_oob, (prefix, d, note), v1),
        call_ensures(encode_single_note_v2_ecash, (prefix, note), v2),
    ensures
        encoded(true, true, v1@) == note_text(prefix@, NoteFormat::V1, d, note@),
        encoded(true, true, v2@) == note_text(prefix@, NoteFormat::V2, d, note@),
{
    law_note_text_is_written(prefix@, 0, note@);
    law_note_text_is_written(prefix@, d, note@);
}

/// What a bundle is worth, and what a wallet is.
pub proof fn law_totals(
    notes: &ParsedNotes,
    checked: Option<u64>,
    sum: u64,
    wallet: &Wallet,
    balance: u64,
)
    requires
        notes.wf(),
        call_ensures(ParsedNotes::checked_total_msats, (notes,), checked),
        call_ensures(ParsedNotes::total_msats, (notes,), sum),
        call_ensures(Wallet::total_msats, (wallet,), balance),
    ensures
        checked is Some <==> worth(sizes(notes@.tiers)) <= u64::MAX,
        checked matches Some(checked) ==> checked == worth(sizes(notes@.tiers)),
        sum == worth(sizes(notes@.tiers)),
        balance == worth(sizes(wallet@)),
{
}

} // verus!
