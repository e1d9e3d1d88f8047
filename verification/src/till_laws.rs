//! What holds of the till as a whole.

use crate::ecash::{bundle_in_text, gathered, split_texts};
use crate::ledger::TxType;
use crate::notes::{Bundle, NoteFormat};
use crate::plan::{law_plan, planned, TOLERANCE};
use crate::round_trip::{
    distinct_notes, genuine_notes, law_deposit_keeps_genuine, law_drawn_notes_read_back,
    law_split_is_genuine, law_split_keeps_worth, within_limits,
};
use crate::sound::law_read_bundle_is_sound;
use crate::storage::{
    drawn, law_deposit_adds, law_deposited_is_known, law_withdrawal_conserves, share_note,
    share_note_under, stock, without,
};
use crate::text::parsed_u64;
use crate::tiers::{
    ascending, lemma_ascending_exists, lemma_merged_worth, lemma_worth_nonzero, merged, sizes,
    worth,
};
use crate::till::{
    change_due, deposited, own_bundle, paid, refused, taken_out, withdrawn, Taken,
    DEFAULT_LEAVE_SATS,
};
use crate::views::Shown;
use vstd::prelude::*;

verus! {

proof fn lemma_own_bundle_finite(
    federation_id: Option<Seq<char>>,
    data: Seq<char>,
    wrong: Seq<char>,
)
    ensures
        own_bundle(federation_id, data, wrong) matches Ok(bundle) ==> bundle.tiers.dom().finite(),
{
    law_read_bundle_is_sound(data);
}

/// A deposit without a transaction leaves the wallet as it was.
pub proof fn law_refused_deposit(
    notes: Map<u64, Seq<Seq<char>>>,
    federation_id: Option<Seq<char>>,
    data: Seq<char>,
)
    ensures
        deposited(notes, federation_id, data).0 matches Some(h) ==> (h.entry is None <==> h.error
            is Some),
        deposited(notes, federation_id, data).0 matches Some(h) ==> (h.entry is None ==> deposited(
            notes,
            federation_id,
            data,
        ).1 == notes),
{
}

/// A payment without a transaction leaves the wallet as it was, and what is shown.
pub proof fn law_refused_payment(
    notes: Map<u64, Seq<Seq<char>>>,
    federation_id: Option<Seq<char>>,
    requested: u64,
    min_acceptable: u64,
    data: Seq<char>,
)
    ensures
        paid(notes, federation_id, requested, min_acceptable, data).0 matches Some(h) ==> (h.entry
            is None ==> {
            &&& paid(notes, federation_id, requested, min_acceptable, data).1 == notes
            &&& h.error is Some
            &&& h.shown is None
        }),
{
}

/// A deposit adds to the wallet what its transaction says.
pub proof fn law_deposit_balance(
    notes: Map<u64, Seq<Seq<char>>>,
    federation_id: Option<Seq<char>>,
    data: Seq<char>,
)
    requires
        notes.dom().finite(),
    ensures
        deposited(notes, federation_id, data).0 matches Some(h) ==> (h.entry matches Some(entry)
            ==> worth(sizes(deposited(notes, federation_id, data).1)) == worth(sizes(notes))
            + entry.amount_msats),
{
    if let Ok(bundle) = own_bundle(federation_id, data, "Wrong federation!"@) {
        lemma_own_bundle_finite(federation_id, data, "Wrong federation!"@);
        lemma_split_finite(bundle);
        law_split_keeps_worth(bundle);
        law_deposit_adds(notes, split_texts(bundle));
    }
}

proof fn lemma_split_finite(bundle: Bundle)
    requires
        bundle.tiers.dom().finite(),
    ensures
        split_texts(bundle).dom().finite(),
{
    assert(split_texts(bundle).dom().subset_of(bundle.tiers.dom()));
    vstd::set_lib::lemma_len_subset(split_texts(bundle).dom(), bundle.tiers.dom());
}

/// Notes that are worth anything share a note with themselves.
proof fn lemma_shares_itself(bundle: Bundle)
    requires
        bundle.tiers.dom().finite(),
        worth(sizes(bundle.tiers)) > 0,
    ensures
        share_note(split_texts(bundle), split_texts(bundle)),
{
    let split = split_texts(bundle);
    if forall|d: u64| !#[trigger] split.contains_key(d) {
        let none = Map::<u64, nat>::empty();
        assert(sizes(bundle.tiers).dom() =~= bundle.tiers.dom());
        assert forall|d: u64| #[trigger] sizes(bundle.tiers).contains_key(d) implies
            none.contains_key(d) || sizes(bundle.tiers)[d] == 0 by {
            assert(bundle.tiers.contains_key(d));
            assert(!split.contains_key(d));
        }
        lemma_worth_nonzero(none, sizes(bundle.tiers));
        assert(none.map_entries(|d: u64, n: nat| (d * n) as nat) =~= Map::empty());
    } else {
        let d = choose|d: u64| #[trigger] split.contains_key(d);
        assert(split[d].len() > 0);
        assert(split[d].contains(split[d][0]));
        assert(share_note_under(split, split, d));
    }
}

/// Notes that were deposited are refused if they are deposited again.
pub proof fn law_replayed_deposit(
    notes: Map<u64, Seq<Seq<char>>>,
    federation_id: Option<Seq<char>>,
    data: Seq<char>,
)
    ensures
        deposited(notes, federation_id, data).0 matches Some(h) ==> (h.entry matches Some(entry)
            ==> (entry.amount_msats > 0 ==> {
            let after = deposited(notes, federation_id, data).1;
            deposited(after, federation_id, data) == (
                Some(refused("These notes are already in the wallet!"@)),
                after,
            )
        })),
{
    if let Ok(bundle) = own_bundle(federation_id, data, "Wrong federation!"@) {
        lemma_own_bundle_finite(federation_id, data, "Wrong federation!"@);
        let split = split_texts(bundle);
        if worth(sizes(bundle.tiers)) > 0 {
            lemma_shares_itself(bundle);
            law_deposited_is_known(notes, split, split);
        }
    }
}

/// Notes that were deposited are refused as payment.
pub proof fn law_deposited_notes_do_not_pay(
    notes: Map<u64, Seq<Seq<char>>>,
    federation_id: Option<Seq<char>>,
    data: Seq<char>,
    requested: u64,
    min_acceptable: u64,
)
    ensures
        deposited(notes, federation_id, data).0 matches Some(h) ==> (h.entry matches Some(entry)
            ==> (entry.amount_msats > 0 ==> {
            let after = deposited(notes, federation_id, data).1;
            paid(after, federation_id, requested, min_acceptable, data).0 matches Some(h2)
                && h2.entry is None && h2.error is Some && paid(
                after,
                federation_id,
                requested,
                min_acceptable,
                data,
            ).1 == after
        })),
{
    if let Ok(bundle) = own_bundle(federation_id, data, "Wrong federation!"@) {
        lemma_own_bundle_finite(federation_id, data, "Wrong federation!"@);
        let split = split_texts(bundle);
        if worth(sizes(bundle.tiers)) > 0 {
            lemma_shares_itself(bundle);
            law_deposited_is_known(notes, split, split);
        }
    }
}

/// What is taken out is within the tolerance of what was asked for.
proof fn lemma_taken_out(notes: Map<u64, Seq<Seq<char>>>, amount: u64)
    requires
        notes.dom().finite(),
    ensures
        ({
            let (taken, left) = taken_out(notes, amount);
            &&& planned(stock(notes), amount as nat) is None <==> taken is Nothing
            &&& taken is Nothing ==> left == notes
            &&& !(taken is Nothing) ==> {
                &&& worth(sizes(left)) + amount <= worth(sizes(notes)) + TOLERANCE
                &&& worth(sizes(notes)) <= worth(sizes(left)) + amount + TOLERANCE
            }
        }),
{
    let have = stock(notes);
    assert(have.dom().subset_of(notes.dom()));
    vstd::set_lib::lemma_len_subset(have.dom(), notes.dom());
    law_plan(have, amount as nat);
    if let Some(plan) = planned(have, amount as nat) {
        assert forall|d: u64| #[trigger] plan.contains_key(d) implies notes.contains_key(d)
            && plan[d] <= notes[d].len() by {
            assert(have.contains_key(d));
        }
        law_withdrawal_conserves(notes, plan);
    }
}

/// A sale after which change is given leaves the wallet richer by what was asked for, give or
/// take one sat.
pub proof fn law_sale_with_change(
    notes: Map<u64, Seq<Seq<char>>>,
    federation_id: Option<Seq<char>>,
    requested: u64,
    min_acceptable: u64,
    data: Seq<char>,
)
    requires
        notes.dom().finite(),
    ensures
        paid(notes, federation_id, requested, min_acceptable, data).0 matches Some(h) ==> (h.shown
            matches Some(Shown::GiveChange(_text, _received, _change)) ==> {
            let after = worth(sizes(paid(notes, federation_id, requested, min_acceptable, data).1));
            &&& worth(sizes(notes)) + requested <= after + TOLERANCE
            &&& after <= worth(sizes(notes)) + requested + TOLERANCE
        }),
{
    let wrong = "Wrong federation! Ecash rejected."@;
    if let Ok(bundle) = own_bundle(federation_id, data, wrong) {
        lemma_own_bundle_finite(federation_id, data, wrong);
        lemma_split_finite(bundle);
        let split = split_texts(bundle);
        law_split_keeps_worth(bundle);
        lemma_merged_worth(notes, split);
        let total = worth(sizes(bundle.tiers));
        if total <= u64::MAX {
            let change = change_due(total as u64, requested);
            lemma_taken_out(merged(notes, split), change);
        }
    }
}

/// A sale after which no change is due, or for which there is no plan for the change, leaves the
/// wallet richer by what was paid, which is no less than the least that is accepted. It is said to
/// be an error where change is due.
pub proof fn law_sale_without_change(
    notes: Map<u64, Seq<Seq<char>>>,
    federation_id: Option<Seq<char>>,
    requested: u64,
    min_acceptable: u64,
    data: Seq<char>,
)
    requires
        notes.dom().finite(),
    ensures
        paid(notes, federation_id, requested, min_acceptable, data).0 matches Some(h) ==> (h.entry
            matches Some(entry) ==> {
            let bundle = own_bundle(
                federation_id,
                data,
                "Wrong federation! Ecash rejected."@,
            )->Ok_0;
            let have = stock(merged(notes, split_texts(bundle)));
            let after = worth(sizes(paid(notes, federation_id, requested, min_acceptable, data).1));
            entry.change_msats == 0 || planned(have, entry.change_msats as nat) is None ==> {
                &&& after == worth(sizes(notes)) + entry.paid_msats
                &&& min_acceptable <= entry.paid_msats
                &&& h.error is None <==> entry.change_msats == 0
                &&& h.error is None <==> entry.paid_msats <= requested
            }
        }),
{
    let wrong = "Wrong federation! Ecash rejected."@;
    if let Ok(bundle) = own_bundle(federation_id, data, wrong) {
        lemma_own_bundle_finite(federation_id, data, wrong);
        lemma_split_finite(bundle);
        let split = split_texts(bundle);
        law_split_keeps_worth(bundle);
        lemma_merged_worth(notes, split);
        let total = worth(sizes(bundle.tiers));
        if total <= u64::MAX {
            lemma_taken_out(merged(notes, split), change_due(total as u64, requested));
        }
    }
}

/// How many msats a withdrawal is to leave in the wallet.
pub open spec fn to_leave(leave: Seq<char>) -> nat {
    1000 * (match parsed_u64(leave) {
        Some(n) => n as nat,
        None => DEFAULT_LEAVE_SATS as nat,
    })
}

/// A withdrawal that has nothing to take, or for which there is no plan, leaves the wallet as it
/// was and is not recorded.
pub proof fn law_refused_withdrawal(notes: Map<u64, Seq<Seq<char>>>, leave: Seq<char>)
    ensures
        ({
            let total = worth(sizes(notes));
            let amount = (total - to_leave(leave)) as nat;
            total <= to_leave(leave) || planned(stock(notes), amount) is None ==> {
                &&& withdrawn(notes, leave).1 == notes
                &&& withdrawn(notes, leave).0 matches Some(h) ==> h.entry is None && h.shown is None
            }
        }),
{
}

/// A withdrawal for which there is a plan leaves in the wallet what was to be left there, give or
/// take one sat. It is recorded, with what it took, exactly if there is a text to hand out.
pub proof fn law_withdrawal_leaves(notes: Map<u64, Seq<Seq<char>>>, leave: Seq<char>)
    requires
        notes.dom().finite(),
        to_leave(leave) < worth(sizes(notes)) <= u64::MAX,
        planned(stock(notes), (worth(sizes(notes)) - to_leave(leave)) as nat) is Some,
    ensures
        ({
            let after = worth(sizes(withdrawn(notes, leave).1));
            &&& to_leave(leave) <= after + TOLERANCE
            &&& after <= to_leave(leave) + TOLERANCE
        }),
        withdrawn(notes, leave).0 matches Some(h) ==> {
            &&& h.entry is Some <==> h.shown is Some
            &&& h.entry matches Some(entry) ==> entry.tx_type == TxType::Withdrawal
                && entry.amount_msats + to_leave(leave) == worth(sizes(notes))
        },
{
    lemma_taken_out(notes, (worth(sizes(notes)) - to_leave(leave)) as u64);
}

/// The bundle of the notes that are planned for `amount`.
pub open spec fn planned_bundle(notes: Map<u64, Seq<Seq<char>>>, amount: u64) -> Bundle {
    let plan = planned(stock(notes), amount as nat)->Some_0;
    gathered(drawn(notes, plan, ascending(plan.dom())))->Ok_0
}

/// The text reads as notes of the federation that are worth the amount, give or take one sat.
pub open spec fn pays(text: Seq<char>, prefix: Seq<u8>, amount: u64) -> bool {
    bundle_in_text(text) matches Ok(bundle) && {
        &&& bundle.prefix == prefix
        &&& amount <= worth(sizes(bundle.tiers)) + TOLERANCE
        &&& worth(sizes(bundle.tiers)) <= amount + TOLERANCE
    }
}

/// What is taken out of a genuine wallet can be read: the text that is handed out pays the amount,
/// and is worth what the wallet is poorer by. What cannot be put together is only ever nothing, so
/// that no note is lost, and comes only where no more than one sat is asked for.
pub proof fn law_handed_out_reads_back(
    notes: Map<u64, Seq<Seq<char>>>,
    amount: u64,
    prefix: Seq<u8>,
    format: NoteFormat,
)
    requires
        notes.dom().finite(),
        prefix.len() == 4,
        genuine_notes(notes, prefix, format),
    ensures
        taken_out(notes, amount).0 is Apart ==> amount <= TOLERANCE && taken_out(notes, amount).1
            == notes,
        taken_out(notes, amount).0 matches Taken::Text(text) ==> (within_limits(
            planned_bundle(notes, amount),
        ) ==> {
            &&& pays(text, prefix, amount)
            &&& bundle_in_text(text) == Ok::<Bundle, Seq<char>>(planned_bundle(notes, amount))
            &&& worth(sizes(taken_out(notes, amount).1)) + worth(
                sizes(planned_bundle(notes, amount).tiers),
            ) == worth(sizes(notes))
        }),
{
    let have = stock(notes);
    assert(have.dom().subset_of(notes.dom()));
    vstd::set_lib::lemma_len_subset(have.dom(), notes.dom());
    law_plan(have, amount as nat);
    if let Some(plan) = planned(have, amount as nat) {
        assert forall|d: u64| #[trigger] plan.contains_key(d) implies notes.contains_key(d) && 0
            < plan[d] <= notes[d].len() by {
            assert(have.contains_key(d));
        }
        law_withdrawal_conserves(notes, plan);
        if plan.dom().len() > 0 {
            law_drawn_notes_read_back(notes, plan, prefix, format);
        } else {
            assert(plan =~= Map::empty());
            assert(plan.map_entries(|d: u64, n: nat| (d * n) as nat) =~= Map::empty());
            assert(without(notes, plan) =~= notes);
            let ds = ascending(plan.dom());
            lemma_ascending_exists(plan.dom());
            assert(ds.len() == 0) by {
                if ds.len() > 0 {
                    assert(ds.to_set().contains(ds[0]));
                }
            }
        }
    }
}

/// The change that is given out of a genuine wallet can be read and is worth what is due.
pub proof fn law_change_reads_back(
    notes: Map<u64, Seq<Seq<char>>>,
    federation_id: Option<Seq<char>>,
    requested: u64,
    min_acceptable: u64,
    data: Seq<char>,
    prefix: Seq<u8>,
    format: NoteFormat,
)
    requires
        notes.dom().finite(),
        prefix.len() == 4,
        genuine_notes(notes, prefix, format),
        own_bundle(federation_id, data, "Wrong federation! Ecash rejected."@) matches Ok(bundle)
            ==> bundle.prefix == prefix && bundle.format == format && distinct_notes(bundle),
    ensures
        paid(notes, federation_id, requested, min_acceptable, data).0 matches Some(h) ==> (h.shown
            matches Some(Shown::GiveChange(text, _received, _change)) ==> (h.entry matches Some(
            entry,
        ) && {
            let bundle = own_bundle(
                federation_id,
                data,
                "Wrong federation! Ecash rejected."@,
            )->Ok_0;
            within_limits(
                planned_bundle(merged(notes, split_texts(bundle)), entry.change_msats),
            ) ==> pays(text, prefix, entry.change_msats)
        })),
{
    let wrong = "Wrong federation! Ecash rejected."@;
    if let Ok(bundle) = own_bundle(federation_id, data, wrong) {
        law_read_bundle_is_sound(data);
        let split = split_texts(bundle);
        lemma_split_finite(bundle);
        law_split_is_genuine(bundle);
        law_deposit_keeps_genuine(notes, split, prefix, format);
        let all = merged(notes, split);
        assert(all.dom() =~= notes.dom().union(split.dom()));
        let total = worth(sizes(bundle.tiers));
        if total <= u64::MAX {
            law_handed_out_reads_back(all, change_due(total as u64, requested), prefix, format);
        }
    }
}

/// What is withdrawn from a genuine wallet can be read and is worth what the transaction says.
pub proof fn law_withdrawn_reads_back(
    notes: Map<u64, Seq<Seq<char>>>,
    leave: Seq<char>,
    prefix: Seq<u8>,
    format: NoteFormat,
)
    requires
        notes.dom().finite(),
        prefix.len() == 4,
        genuine_notes(notes, prefix, format),
    ensures
        withdrawn(notes, leave).0 matches Some(h) ==> (h.shown matches Some(Shown::AdminWithdraw(
            text,
        )) ==> (h.entry matches Some(entry) && (within_limits(
            planned_bundle(notes, entry.amount_msats),
        ) ==> pays(text, prefix, entry.amount_msats)))),
{
    let total = worth(sizes(notes));
    if to_leave(leave) < total <= u64::MAX {
        law_handed_out_reads_back(notes, (total - to_leave(leave)) as u64, prefix, format);
    }
}

} // verus!
