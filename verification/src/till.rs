//! Taking deposits and payments, giving change, and withdrawing.

use crate::base64_text::encoded;
use crate::config::{get_federation_prefix, prefix_in_hex};
use crate::ecash::{
    bundle_bytes, bundle_in_text, check_federation, checked_combine_note_strings, gathered,
    parse_notes, split_notes_by_denomination, split_texts, writable,
};
use crate::ledger::{Entry, TxType};
use crate::notes::{Bundle, ParsedNotes};
use crate::plan::planned;
use crate::storage::{drawn, share_note, stock, without, Wallet};
use crate::text::{decimal, parse_u64, parsed_u64, push_decimal, texts};
use crate::tiers::{ascending, merged, sizes, worth};
use crate::views::{AppView, Shown};
use vstd::prelude::*;

verus! {

/// What comes of handling something.
#[derive(Debug)]
pub struct Outcome {
    /// What is said to be wrong.
    pub error: Option<String>,
    /// The amounts of the transaction that took place.
    pub entry: Option<Entry>,
    /// What is shown next.
    pub view: Option<AppView>,
}

/// What comes of handling something, with the contents of its texts.
pub struct Handled {
    /// What is said to be wrong.
    pub error: Option<Seq<char>>,
    /// The amounts of the transaction that took place.
    pub entry: Option<Entry>,
    /// What is shown next.
    pub shown: Option<Shown>,
}

impl View for Outcome {
    type V = Handled;

    open spec fn view(&self) -> Handled {
        Handled {
            error: match self.error {
                Some(e) => Some(e@),
                None => None,
            },
            entry: self.entry,
            shown: match self.view {
                Some(view) => Some(view@),
                None => None,
            },
        }
    }
}

/// Nothing comes of it but that something is said to be wrong.
pub open spec fn refused(e: Seq<char>) -> Handled {
    Handled { error: Some(e), entry: None, shown: None }
}

/// Nothing comes of it.
pub open spec fn nothing() -> Handled {
    Handled { error: None, entry: None, shown: None }
}

/// The bundle that a text holds, if it is of the federation that the till was set up with.
/// `wrong` is said where it is of another one.
pub open spec fn own_bundle(
    federation_id: Option<Seq<char>>,
    data: Seq<char>,
    wrong: Seq<char>,
) -> Result<Bundle, Seq<char>> {
    match federation_id {
        None => Err("No config"@),
        Some(id) => match prefix_in_hex(id) {
            Err(e) => Err(e),
            Ok(prefix) => match bundle_in_text(data) {
                Err(e) => Err(e),
                Ok(bundle) => if bundle.prefix == prefix {
                    Ok(bundle)
                } else {
                    Err(wrong)
                },
            },
        },
    }
}

/// The contents of an ID, if there is one.
pub open spec fn id_text(federation_id: Option<&String>) -> Option<Seq<char>> {
    match federation_id {
        Some(id) => Some(id@),
        None => None,
    }
}

/// Reads a bundle that has to be of the federation that the till was set up with.
pub fn read_own_notes(federation_id: Option<&String>, data: &str, wrong: &str) -> (notes: Result<
    ParsedNotes,
    String,
>)
    ensures
        match notes {
            Ok(notes) => notes.wf() && own_bundle(id_text(federation_id), data@, wrong@) == Ok::<
                Bundle,
                Seq<char>,
            >(notes@),
            Err(e) => own_bundle(id_text(federation_id), data@, wrong@) == Err::<
                Bundle,
                Seq<char>,
            >(e@),
        },
{
    let id = match federation_id {
        Some(id) => id,
        None => {
            return Err("No config".to_string());
        },
    };
    let prefix = match get_federation_prefix(id.as_str()) {
        Ok(prefix) => prefix,
        Err(e) => {
            return Err(e);
        },
    };
    let notes = match parse_notes(data) {
        Ok(notes) => notes,
        Err(e) => {
            return Err(e);
        },
    };
    if check_federation(&notes, &prefix) {
        Ok(notes)
    } else {
        Err(wrong.to_string())
    }
}

/// What comes of depositing a text, and the notes in the wallet after that.
///
/// There is no outcome where the notes are worth more than a `u64` holds.
pub open spec fn deposited(
    notes: Map<u64, Seq<Seq<char>>>,
    federation_id: Option<Seq<char>>,
    data: Seq<char>,
) -> (Option<Handled>, Map<u64, Seq<Seq<char>>>) {
    match own_bundle(federation_id, data, "Wrong federation!"@) {
        Err(e) => (Some(refused(e)), notes),
        Ok(bundle) => {
            let total = worth(sizes(bundle.tiers));
            let split = split_texts(bundle);
            if total > u64::MAX {
                (None, notes)
            } else if share_note(notes, split) {
                (Some(refused("These notes are already in the wallet!"@)), notes)
            } else {
                (
                    Some(
                        Handled {
                            error: None,
                            entry: Some(
                                Entry {
                                    amount_msats: total as u64,
                                    change_msats: 0,
                                    paid_msats: 0,
                                    tx_type: TxType::Deposit,
                                },
                            ),
                            shown: Some(Shown::Pos),
                        },
                    ),
                    merged(notes, split),
                )
            }
        },
    }
}

/// Says that something is wrong.
fn refuse(e: String) -> (outcome: Outcome)
    ensures
        outcome@ == refused(e@),
{
    Outcome { error: Some(e), entry: None, view: None }
}

/// Deposits the notes that a text holds.
pub fn process_deposit(wallet: &mut Wallet, federation_id: Option<&String>, data: &str) -> (outcome:
    Option<Outcome>)
    ensures
        match outcome {
            Some(outcome) => deposited(old(wallet)@, id_text(federation_id), data@) == (
                Some(outcome@),
                final(wallet)@,
            ),
            None => deposited(old(wallet)@, id_text(federation_id), data@) == (
                None::<Handled>,
                final(wallet)@,
            ),
        },
{
    let notes = match read_own_notes(federation_id, data, "Wrong federation!") {
        Ok(notes) => notes,
        Err(e) => {
            return Some(refuse(e));
        },
    };
    let total: u64 = match notes.checked_total_msats() {
        Some(total) => total,
        None => {
            return None;
        },
    };
    let split = split_notes_by_denomination(&notes);
    if wallet.contains_any(&split) {
        return Some(refuse("These notes are already in the wallet!".to_string()));
    }
    wallet.deposit(split);
    let entry = Entry {
        amount_msats: total,
        change_msats: 0,
        paid_msats: 0,
        tx_type: TxType::Deposit,
    };
    Some(Outcome { error: None, entry: Some(entry), view: Some(AppView::Pos) })
}

/// What is said where too little was paid.
pub open spec fn too_low(received: u64, requested: u64) -> Seq<char> {
    "Received "@ + decimal((received / 1000) as nat) + " sats but expected "@ + decimal(
        (requested / 1000) as nat,
    ) + " sats. Too low!"@
}

/// What is said where change could not be given.
pub open spec fn no_change(change: u64) -> Seq<char> {
    "Payment accepted! Could not give exact change of "@ + decimal((change / 1000) as nat)
        + " sats."@
}

/// The change in excess of what was asked for.
pub open spec fn change_due(received: u64, requested: u64) -> u64 {
    if received > requested {
        (received - requested) as u64
    } else {
        0
    }
}

/// What taking an amount out of the notes comes to.
pub enum Taken {
    /// There is no plan for the amount.
    Nothing,
    /// The notes that were taken, as one text.
    Text(Seq<char>),
    /// The notes that were taken cannot be put together.
    Apart,
    /// The notes that were taken are too many for one text.
    TooLarge,
}

/// What taking `amount` msats out of the notes comes to, and what is left: everything where there
/// is no plan, and otherwise what the plan leaves, whether or not its notes can be put together.
pub open spec fn taken_out(notes: Map<u64, Seq<Seq<char>>>, amount: u64) -> (
    Taken,
    Map<u64, Seq<Seq<char>>>,
) {
    match planned(stock(notes), amount as nat) {
        None => (Taken::Nothing, notes),
        Some(plan) => {
            let left = without(notes, plan);
            match gathered(drawn(notes, plan, ascending(plan.dom()))) {
                Err(_) => (Taken::Apart, left),
                Ok(bundle) => if writable(bundle) {
                    (Taken::Text(encoded(true, true, bundle_bytes(bundle))), left)
                } else {
                    (Taken::TooLarge, left)
                },
            }
        },
    }
}

/// What comes of taking an amount out of the wallet.
#[derive(Debug)]
pub enum TakenNotes {
    /// There is no plan for the amount.
    Nothing,
    /// The notes that were taken, as one text.
    Text(String),
    /// The notes that were taken cannot be put together.
    Apart,
    /// The notes that were taken are too many for one text.
    TooLarge,
}

impl View for TakenNotes {
    type V = Taken;

    open spec fn view(&self) -> Taken {
        match self {
            TakenNotes::Nothing => Taken::Nothing,
            TakenNotes::Text(text) => Taken::Text(text@),
            TakenNotes::Apart => Taken::Apart,
            TakenNotes::TooLarge => Taken::TooLarge,
        }
    }
}

/// Takes notes for an amount out of the wallet and puts them together.
pub fn take_out(wallet: &mut Wallet, amount: u64) -> (taken: TakenNotes)
    ensures
        taken_out(old(wallet)@, amount) == (taken@, final(wallet)@),
{
    match wallet.withdraw_exact(amount) {
        None => TakenNotes::Nothing,
        Some(notes) => match checked_combine_note_strings(notes.as_slice()) {
            None => TakenNotes::TooLarge,
            Some(Ok(text)) => TakenNotes::Text(text),
            Some(Err(_)) => TakenNotes::Apart,
        },
    }
}

/// What comes of giving change after a payment was accepted.
///
/// There is no outcome where the change is too large for one text.
pub open spec fn changed(
    notes: Map<u64, Seq<Seq<char>>>,
    entry: Entry,
    received: u64,
    change: u64,
) -> (Option<Handled>, Map<u64, Seq<Seq<char>>>) {
    let success = Some(Shown::PaymentSuccess(received / 1000, 0));
    if change == 0 {
        (Some(Handled { error: None, entry: Some(entry), shown: success }), notes)
    } else {
        let (taken, left) = taken_out(notes, change);
        match taken {
            Taken::Text(text) => (
                Some(
                    Handled {
                        error: None,
                        entry: Some(entry),
                        shown: Some(Shown::GiveChange(text, received / 1000, change / 1000)),
                    },
                ),
                left,
            ),
            Taken::TooLarge => (None, left),
            _ => (
                Some(
                    Handled { error: Some(no_change(change)), entry: Some(entry), shown: success },
                ),
                left,
            ),
        }
    }
}

/// What comes of a payment of `requested` msats with a text, and the notes in the wallet after
/// that. At least `min_acceptable` msats have to be paid.
///
/// There is no outcome where the notes are worth more than a `u64` holds, nor where the change
/// is too large for one text.
pub open spec fn paid(
    notes: Map<u64, Seq<Seq<char>>>,
    federation_id: Option<Seq<char>>,
    requested: u64,
    min_acceptable: u64,
    data: Seq<char>,
) -> (Option<Handled>, Map<u64, Seq<Seq<char>>>) {
    match own_bundle(federation_id, data, "Wrong federation! Ecash rejected."@) {
        Err(e) => (Some(refused(e)), notes),
        Ok(bundle) => {
            let total = worth(sizes(bundle.tiers));
            let split = split_texts(bundle);
            if total > u64::MAX {
                (None, notes)
            } else if total < min_acceptable {
                (Some(refused(too_low(total as u64, requested))), notes)
            } else if share_note(notes, split) {
                (
                    Some(
                        refused(
                            "These notes are already in the wallet! Possible double-spend attempt."@,
                        ),
                    ),
                    notes,
                )
            } else {
                let received = total as u64;
                let change = change_due(received, requested);
                changed(
                    merged(notes, split),
                    Entry {
                        amount_msats: requested,
                        change_msats: change,
                        paid_msats: received,
                        tx_type: TxType::Sale,
                    },
                    received,
                    change,
                )
            }
        },
    }
}

/// Gives change after a payment was accepted.
fn give_change(wallet: &mut Wallet, entry: Entry, received: u64, change: u64) -> (outcome: Option<
    Outcome,
>)
    ensures
        match outcome {
            Some(outcome) => changed(old(wallet)@, entry, received, change) == (
                Some(outcome@),
                final(wallet)@,
            ),
            None => changed(old(wallet)@, entry, received, change) == (
                None::<Handled>,
                final(wallet)@,
            ),
        },
{
    let success = AppView::PaymentSuccess { received_sats: received / 1000, change_sats: 0 };
    if change == 0 {
        return Some(Outcome { error: None, entry: Some(entry), view: Some(success) });
    }
    match take_out(wallet, change) {
        TakenNotes::Text(ecash_str) => {
            let view = AppView::GiveChange {
                ecash_str,
                received_sats: received / 1000,
                change_sats: change / 1000,
            };
            Some(Outcome { error: None, entry: Some(entry), view: Some(view) })
        },
        TakenNotes::TooLarge => None,
        TakenNotes::Nothing | TakenNotes::Apart => {
            let mut e = "Payment accepted! Could not give exact change of ".to_string();
            push_decimal(&mut e, change / 1000);
            e.append(" sats.");
            Some(Outcome { error: Some(e), entry: Some(entry), view: Some(success) })
        },
    }
}

/// Handles a payment with the notes that a text holds.
pub fn process_payment(
    wallet: &mut Wallet,
    federation_id: Option<&String>,
    requested_msats: u64,
    min_acceptable: u64,
    data: &str,
) -> (outcome: Option<Outcome>)
    ensures
        match outcome {
            Some(outcome) => paid(
                old(wallet)@,
                id_text(federation_id),
                requested_msats,
                min_acceptable,
                data@,
            ) == (Some(outcome@), final(wallet)@),
            None => paid(
                old(wallet)@,
                id_text(federation_id),
                requested_msats,
                min_acceptable,
                data@,
            ) == (None::<Handled>, final(wallet)@),
        },
{
    let notes = match read_own_notes(federation_id, data, "Wrong federation! Ecash rejected.") {
        Ok(notes) => notes,
        Err(e) => {
            return Some(refuse(e));
        },
    };
    let received: u64 = match notes.checked_total_msats() {
        Some(received) => received,
        None => {
            return None;
        },
    };
    if received < min_acceptable {
        let mut e = "Received ".to_string();
        push_decimal(&mut e, received / 1000);
        e.append(" sats but expected ");
        push_decimal(&mut e, requested_msats / 1000);
        e.append(" sats. Too low!");
        return Some(refuse(e));
    }
    let split = split_notes_by_denomination(&notes);
    if wallet.contains_any(&split) {
        return Some(
            refuse(
                "These notes are already in the wallet! Possible double-spend attempt.".to_string(),
            ),
        );
    }
    wallet.deposit(split);
    let change: u64 = if received > requested_msats {
        received - requested_msats
    } else {
        0
    };
    let entry = Entry {
        amount_msats: requested_msats,
        change_msats: change,
        paid_msats: received,
        tx_type: TxType::Sale,
    };
    give_change(wallet, entry, received, change)
}

/// How many sats are left in the wallet where the text is no number.
pub const DEFAULT_LEAVE_SATS: u64 = 10_000;

/// What comes of withdrawing all but the number of sats that a text says, and what is left.
///
/// There is no outcome where a number of msats is more than a `u64` holds, nor where the notes
/// are too many for one text.
pub open spec fn withdrawn(notes: Map<u64, Seq<Seq<char>>>, leave: Seq<char>) -> (
    Option<Handled>,
    Map<u64, Seq<Seq<char>>>,
) {
    let leave_sats = match parsed_u64(leave) {
        Some(n) => n,
        None => DEFAULT_LEAVE_SATS,
    };
    let leave_msats = leave_sats * 1000;
    let total = worth(sizes(notes));
    if leave_msats > u64::MAX || total > u64::MAX {
        (None, notes)
    } else if total <= leave_msats {
        (Some(nothing()), notes)
    } else {
        let amount = (total - leave_msats) as u64;
        let (taken, left) = taken_out(notes, amount);
        match taken {
            Taken::Text(text) => (
                Some(
                    Handled {
                        error: None,
                        entry: Some(
                            Entry {
                                amount_msats: amount,
                                change_msats: 0,
                                paid_msats: 0,
                                tx_type: TxType::Withdrawal,
                            },
                        ),
                        shown: Some(Shown::AdminWithdraw(text)),
                    },
                ),
                left,
            ),
            Taken::TooLarge => (None, left),
            _ => (Some(nothing()), left),
        }
    }
}

/// Withdraws all but the number of sats that a text says.
pub fn process_withdrawal(wallet: &mut Wallet, leave: &str) -> (outcome: Option<Outcome>)
    ensures
        match outcome {
            Some(outcome) => withdrawn(old(wallet)@, leave@) == (
                Some(outcome@),
                final(wallet)@,
            ),
            None => withdrawn(old(wallet)@, leave@) == (None::<Handled>, final(wallet)@),
        },
{
    let leave_sats: u64 = match parse_u64(leave) {
        Some(n) => n,
        None => DEFAULT_LEAVE_SATS,
    };
    let leave_msats: u64 = match leave_sats.checked_mul(1000) {
        Some(n) => n,
        None => {
            return None;
        },
    };
    let total: u64 = match wallet.checked_total_msats() {
        Some(total) => total,
        None => {
            return None;
        },
    };
    if total <= leave_msats {
        return Some(Outcome { error: None, entry: None, view: None });
    }
    let amount: u64 = total - leave_msats;
    match take_out(wallet, amount) {
        TakenNotes::Text(text) => {
            let entry = Entry {
                amount_msats: amount,
                change_msats: 0,
                paid_msats: 0,
                tx_type: TxType::Withdrawal,
            };
            Some(
                Outcome {
                    error: None,
                    entry: Some(entry),
                    view: Some(AppView::AdminWithdraw(text)),
                },
            )
        },
        TakenNotes::TooLarge => None,
        TakenNotes::Nothing | TakenNotes::Apart => Some(
            Outcome { error: None, entry: None, view: None },
        ),
    }
}

} // verus!
