//! What the till does with a text, said from the notes that the text holds.

use crate::base64_text::encoded;
use crate::ecash::{bundle_bytes, bundle_in_text, gathered, note_text, split_texts, writable};
use crate::hex_text::hex_decoded;
use crate::ledger::{Entry, TxType};
use crate::notes::{Bundle, NoteFormat};
use crate::plan::planned;
use crate::round_trip::genuine_notes;
use crate::storage::{drawn, share_note, share_note_under, stock, without};
use crate::text::{decimal, parsed_u64};
use crate::tiers::{ascending, listed, merged, sizes, worth};
use crate::till::{deposited, own_bundle, paid, withdrawn, Handled};
use crate::till_laws::law_handed_out_reads_back;
use crate::views::Shown;
use vstd::prelude::*;

verus! {

/// The prefix is the first four bytes of the ID, which is in hexadecimal.
pub open spec fn is_prefix_of_id(prefix: Seq<u8>, federation_id: Option<Seq<char>>) -> bool {
    federation_id matches Some(id) && (hex_decoded(id) matches Ok(bytes) && bytes.len() >= 4
        && prefix == bytes.take(4))
}

/// No note of the bundle, written as text, is listed in the wallet under its denomination.
pub open spec fn all_new(notes: Map<u64, Seq<Seq<char>>>, bundle: Bundle) -> bool {
    forall|d: u64, i: int, j: int|
        #![trigger notes[d][i], bundle.tiers[d][j]]
        notes.contains_key(d) && bundle.tiers.contains_key(d) && 0 <= i < notes[d].len() && 0 <= j
            < bundle.tiers[d].len() ==> notes[d][i] != note_text(
            bundle.prefix,
            bundle.format,
            d,
            bundle.tiers[d][j],
        )
}

/// The text holds notes of the till's own federation, all of them new and together worth no more
/// than a `u64` holds.
pub open spec fn brings(
    notes: Map<u64, Seq<Seq<char>>>,
    federation_id: Option<Seq<char>>,
    data: Seq<char>,
    bundle: Bundle,
) -> bool {
    &&& bundle_in_text(data) == Ok::<Bundle, Seq<char>>(bundle)
    &&& is_prefix_of_id(bundle.prefix, federation_id)
    &&& worth(sizes(bundle.tiers)) <= u64::MAX
    &&& all_new(notes, bundle)
}

/// `after` is `before` with each note of the bundle behind those of its denomination, as text.
pub open spec fn takes_in(
    before: Map<u64, Seq<Seq<char>>>,
    bundle: Bundle,
    after: Map<u64, Seq<Seq<char>>>,
) -> bool {
    &&& forall|d: u64| #[trigger]
        after.contains_key(d) <==> before.contains_key(d) || listed(bundle.tiers, d).len() > 0
    &&& forall|d: u64| #[trigger]
        listed(after, d) == listed(before, d) + listed(bundle.tiers, d).map_values(
            |note: Seq<u8>| note_text(bundle.prefix, bundle.format, d, note),
        )
}

proof fn lemma_all_new(notes: Map<u64, Seq<Seq<char>>>, bundle: Bundle)
    ensures
        all_new(notes, bundle) <==> !share_note(notes, split_texts(bundle)),
{
    let split = split_texts(bundle);
    if share_note(notes, split) {
        let d = choose|d: u64| share_note_under(notes, split, d);
        let note = choose|note: Seq<char>| #[trigger]
            notes[d].contains(note) && split[d].contains(note);
        let i = choose|i: int| 0 <= i < notes[d].len() && notes[d][i] == note;
        let j = choose|j: int| 0 <= j < split[d].len() && split[d][j] == note;
        assert(notes[d][i] == note_text(
            bundle.prefix,
            bundle.format,
            d,
            bundle.tiers[d][j],
        ));
    }
    if !all_new(notes, bundle) {
        let (d, i, j) = choose|d: u64, i: int, j: int|
            #![trigger notes[d][i], bundle.tiers[d][j]]
            notes.contains_key(d) && bundle.tiers.contains_key(d) && 0 <= i < notes[d].len() && 0
                <= j < bundle.tiers[d].len() && notes[d][i] == note_text(
                bundle.prefix,
                bundle.format,
                d,
                bundle.tiers[d][j],
            );
        assert(split[d][j] == notes[d][i]);
        assert(notes[d].contains(notes[d][i]) && split[d].contains(notes[d][i]));
        assert(share_note_under(notes, split, d));
    }
}

proof fn lemma_takes_in(notes: Map<u64, Seq<Seq<char>>>, bundle: Bundle)
    ensures
        takes_in(notes, bundle, merged(notes, split_texts(bundle))),
{
    let split = split_texts(bundle);
    let after = merged(notes, split);
    assert forall|d: u64| #[trigger] listed(after, d) == listed(notes, d) + listed(
        bundle.tiers,
        d,
    ).map_values(|note: Seq<u8>| note_text(bundle.prefix, bundle.format, d, note)) by {
        assert(listed(after, d) =~= listed(notes, d) + listed(bundle.tiers, d).map_values(
            |note: Seq<u8>| note_text(bundle.prefix, bundle.format, d, note),
        ));
    }
}

proof fn lemma_own(federation_id: Option<Seq<char>>, data: Seq<char>, wrong: Seq<char>)
    ensures
        own_bundle(federation_id, data, wrong) matches Ok(bundle) ==> bundle_in_text(data) == Ok::<
            Bundle,
            Seq<char>,
        >(bundle) && is_prefix_of_id(bundle.prefix, federation_id),
        bundle_in_text(data) matches Ok(bundle) ==> (is_prefix_of_id(bundle.prefix, federation_id)
            ==> own_bundle(federation_id, data, wrong) == Ok::<Bundle, Seq<char>>(bundle)),
{
}

/// Nothing was recorded, nothing else is shown, and something is said to be wrong.
pub open spec fn turned_down(h: Handled) -> bool {
    h.entry is None && h.shown is None && h.error is Some
}

/// A deposit of new notes of the till's own federation is recorded with what they are worth, and
/// each of them is put into the wallet.
pub proof fn law_deposit_is_taken(
    notes: Map<u64, Seq<Seq<char>>>,
    federation_id: Option<Seq<char>>,
    data: Seq<char>,
    bundle: Bundle,
)
    requires
        brings(notes, federation_id, data, bundle),
    ensures
        deposited(notes, federation_id, data).0 matches Some(h) && {
            &&& h.error is None
            &&& h.shown == Some(Shown::Pos)
            &&& h.entry == Some(
                Entry {
                    amount_msats: worth(sizes(bundle.tiers)) as u64,
                    change_msats: 0,
                    paid_msats: 0,
                    tx_type: TxType::Deposit,
                },
            )
        },
        takes_in(notes, bundle, deposited(notes, federation_id, data).1),
{
    lemma_own(federation_id, data, "Wrong federation!"@);
    lemma_all_new(notes, bundle);
    lemma_takes_in(notes, bundle);
}

/// Only new notes of the till's own federation are ever deposited. Anything else leaves the wallet
/// as it was, and is turned down unless it is worth more than a `u64` holds.
pub proof fn law_deposit_is_own_and_new(
    notes: Map<u64, Seq<Seq<char>>>,
    federation_id: Option<Seq<char>>,
    data: Seq<char>,
)
    requires
        bundle_in_text(data) matches Ok(bundle) ==> !brings(notes, federation_id, data, bundle),
    ensures
        deposited(notes, federation_id, data).1 == notes,
        deposited(notes, federation_id, data).0 matches Some(h) ==> turned_down(h),
        deposited(notes, federation_id, data).0 is None <==> (bundle_in_text(data) matches Ok(
            bundle,
        ) && is_prefix_of_id(bundle.prefix, federation_id) && worth(sizes(bundle.tiers))
            > u64::MAX),
{
    lemma_own(federation_id, data, "Wrong federation!"@);
    if let Ok(bundle) = bundle_in_text(data) {
        lemma_all_new(notes, bundle);
    }
}

/// A bundle whose prefix is not that of the till's own federation is refused in either format,
/// both as a deposit and as a payment, and leaves the wallet as it was.
pub proof fn law_other_federation_is_refused(
    notes: Map<u64, Seq<Seq<char>>>,
    federation_id: Option<Seq<char>>,
    data: Seq<char>,
    requested: u64,
    min_acceptable: u64,
)
    requires
        bundle_in_text(data) matches Ok(bundle) ==> !is_prefix_of_id(bundle.prefix, federation_id),
    ensures
        deposited(notes, federation_id, data).0 matches Some(h) && turned_down(h),
        deposited(notes, federation_id, data).1 == notes,
        paid(notes, federation_id, requested, min_acceptable, data).0 matches Some(h)
            && turned_down(h),
        paid(notes, federation_id, requested, min_acceptable, data).1 == notes,
{
    lemma_own(federation_id, data, "Wrong federation!"@);
    lemma_own(federation_id, data, "Wrong federation! Ecash rejected."@);
}

/// What is recorded, as a deposit or as a sale, was brought by a bundle whose prefix is the first
/// four bytes of the ID that the till was set up with.
pub proof fn law_recorded_is_own(
    notes: Map<u64, Seq<Seq<char>>>,
    federation_id: Option<Seq<char>>,
    data: Seq<char>,
    requested: u64,
    min_acceptable: u64,
)
    ensures
        deposited(notes, federation_id, data).0 matches Some(h) ==> (h.entry is Some ==> (
        bundle_in_text(data) matches Ok(bundle) && brings(notes, federation_id, data, bundle))),
        paid(notes, federation_id, requested, min_acceptable, data).0 matches Some(h) ==> (h.entry
            is Some ==> (bundle_in_text(data) matches Ok(bundle) && brings(
            notes,
            federation_id,
            data,
            bundle,
        ) && worth(sizes(bundle.tiers)) >= min_acceptable)),
{
    lemma_own(federation_id, data, "Wrong federation!"@);
    lemma_own(federation_id, data, "Wrong federation! Ecash rejected."@);
    if let Ok(bundle) = bundle_in_text(data) {
        lemma_all_new(notes, bundle);
    }
}

/// The notes that the plan takes are put together into one text.
pub open spec fn hands_out(
    notes: Map<u64, Seq<Seq<char>>>,
    plan: Map<u64, nat>,
    bundle: Bundle,
    text: Seq<char>,
) -> bool {
    &&& gathered(drawn(notes, plan, ascending(plan.dom()))) == Ok::<Bundle, Seq<char>>(bundle)
    &&& writable(bundle)
    &&& text == encoded(true, true, bundle_bytes(bundle))
}

/// The sale as it is recorded.
pub open spec fn sale(requested: u64, received: nat) -> Entry {
    Entry {
        amount_msats: requested,
        change_msats: if received > requested {
            (received - requested) as u64
        } else {
            0
        },
        paid_msats: received as u64,
        tx_type: TxType::Sale,
    }
}

/// A payment with notes that are worth no more than was asked for, but enough, is accepted and
/// recorded, and its notes are put into the wallet.
pub proof fn law_payment_without_change(
    notes: Map<u64, Seq<Seq<char>>>,
    federation_id: Option<Seq<char>>,
    requested: u64,
    min_acceptable: u64,
    data: Seq<char>,
    bundle: Bundle,
)
    requires
        brings(notes, federation_id, data, bundle),
        min_acceptable <= worth(sizes(bundle.tiers)) <= requested,
    ensures
        paid(notes, federation_id, requested, min_acceptable, data).0 matches Some(h) && {
            let received = worth(sizes(bundle.tiers));
            &&& h.error is None
            &&& h.entry == Some(sale(requested, received))
            &&& h.shown == Some(Shown::PaymentSuccess((received / 1000) as u64, 0))
        },
        takes_in(
            notes,
            bundle,
            paid(notes, federation_id, requested, min_acceptable, data).1,
        ),
{
    lemma_own(federation_id, data, "Wrong federation! Ecash rejected."@);
    lemma_all_new(notes, bundle);
    lemma_takes_in(notes, bundle);
}

/// A payment with notes that are worth more than was asked for is accepted and recorded. If there
/// is a plan for the change in the wallet with the new notes in it, and its notes can be put
/// together, the outcome shows their text and no error, however large the change is next to what
/// was asked for, and just those notes leave the wallet.
pub proof fn law_payment_gives_change(
    notes: Map<u64, Seq<Seq<char>>>,
    federation_id: Option<Seq<char>>,
    requested: u64,
    min_acceptable: u64,
    data: Seq<char>,
    bundle: Bundle,
    all: Map<u64, Seq<Seq<char>>>,
    plan: Map<u64, nat>,
    change: Bundle,
    text: Seq<char>,
)
    requires
        brings(notes, federation_id, data, bundle),
        min_acceptable <= worth(sizes(bundle.tiers)),
        requested < worth(sizes(bundle.tiers)),
        takes_in(notes, bundle, all),
        planned(stock(all), (worth(sizes(bundle.tiers)) - requested) as nat) == Some(plan),
        hands_out(all, plan, change, text),
    ensures
        paid(notes, federation_id, requested, min_acceptable, data).0 matches Some(h) && {
            let received = worth(sizes(bundle.tiers));
            &&& h.error is None
            &&& h.entry == Some(sale(requested, received))
            &&& h.shown == Some(
                Shown::GiveChange(
                    text,
                    (received / 1000) as u64,
                    ((received - requested) / 1000) as u64,
                ),
            )
        },
        paid(notes, federation_id, requested, min_acceptable, data).1 == without(all, plan),
{
    lemma_own(federation_id, data, "Wrong federation! Ecash rejected."@);
    lemma_all_new(notes, bundle);
    lemma_takes_in(notes, bundle);
    lemma_takes_in_once(notes, bundle, all, merged(notes, split_texts(bundle)));
}

/// There is only one way to take the notes in.
proof fn lemma_takes_in_once(
    before: Map<u64, Seq<Seq<char>>>,
    bundle: Bundle,
    one: Map<u64, Seq<Seq<char>>>,
    other: Map<u64, Seq<Seq<char>>>,
)
    requires
        takes_in(before, bundle, one),
        takes_in(before, bundle, other),
    ensures
        one == other,
{
    assert(one.dom() =~= other.dom()) by {
        assert forall|d: u64| #[trigger] one.contains_key(d) <==> other.contains_key(d) by {}
    }
    assert forall|d: u64| one.contains_key(d) implies one[d] == other[d] by {
        assert(other.contains_key(d));
        assert(listed(one, d) == listed(other, d));
    }
    assert(one =~= other);
}

/// A payment with notes that are worth more than was asked for is accepted and recorded too where
/// there is no plan for the change, or its notes cannot be put together. That is said, and no
/// notes are shown.
pub proof fn law_payment_without_plan(
    notes: Map<u64, Seq<Seq<char>>>,
    federation_id: Option<Seq<char>>,
    requested: u64,
    min_acceptable: u64,
    data: Seq<char>,
    bundle: Bundle,
    all: Map<u64, Seq<Seq<char>>>,
)
    requires
        brings(notes, federation_id, data, bundle),
        min_acceptable <= worth(sizes(bundle.tiers)),
        requested < worth(sizes(bundle.tiers)),
        takes_in(notes, bundle, all),
        planned(stock(all), (worth(sizes(bundle.tiers)) - requested) as nat) matches Some(plan)
            ==> gathered(drawn(all, plan, ascending(plan.dom()))) is Err,
    ensures
        paid(notes, federation_id, requested, min_acceptable, data).0 matches Some(h) && {
            let received = worth(sizes(bundle.tiers));
            &&& h.error is Some
            &&& h.entry == Some(sale(requested, received))
            &&& h.shown == Some(Shown::PaymentSuccess((received / 1000) as u64, 0))
        },
        paid(notes, federation_id, requested, min_acceptable, data).1 == (match planned(
            stock(all),
            (worth(sizes(bundle.tiers)) - requested) as nat,
        ) {
            Some(plan) => without(all, plan),
            None => all,
        }),
{
    lemma_own(federation_id, data, "Wrong federation! Ecash rejected."@);
    lemma_all_new(notes, bundle);
    lemma_takes_in(notes, bundle);
    lemma_takes_in_once(notes, bundle, all, merged(notes, split_texts(bundle)));
}

/// A payment with anything but new notes of the till's own federation, or with notes that are
/// worth too little, leaves the wallet as it was, and is turned down unless it is worth more than
/// a `u64` holds.
pub proof fn law_payment_is_own_new_and_enough(
    notes: Map<u64, Seq<Seq<char>>>,
    federation_id: Option<Seq<char>>,
    requested: u64,
    min_acceptable: u64,
    data: Seq<char>,
)
    requires
        bundle_in_text(data) matches Ok(bundle) ==> !brings(notes, federation_id, data, bundle)
            || worth(sizes(bundle.tiers)) < min_acceptable,
    ensures
        paid(notes, federation_id, requested, min_acceptable, data).1 == notes,
        paid(notes, federation_id, requested, min_acceptable, data).0 matches Some(h)
            ==> turned_down(h),
        paid(notes, federation_id, requested, min_acceptable, data).0 is None <==> (
        bundle_in_text(data) matches Ok(bundle) && is_prefix_of_id(bundle.prefix, federation_id)
            && worth(sizes(bundle.tiers)) > u64::MAX),
{
    lemma_own(federation_id, data, "Wrong federation! Ecash rejected."@);
    if let Ok(bundle) = bundle_in_text(data) {
        lemma_all_new(notes, bundle);
    }
}

/// The number of msats that is to be left: a thousand for each sat that the text says, and ten
/// million where the text is no number.
pub open spec fn msats_to_leave(leave: Seq<char>) -> nat {
    match parsed_u64(leave) {
        Some(n) => 1000 * n as nat,
        None => 10_000_000,
    }
}

/// A withdrawal for which there is a plan whose notes can be put together shows their text and is
/// recorded with all that is in the wallet but what is to be left, however much or little that is.
/// Just those notes leave the wallet.
pub proof fn law_withdrawal_is_shown(
    notes: Map<u64, Seq<Seq<char>>>,
    leave: Seq<char>,
    plan: Map<u64, nat>,
    bundle: Bundle,
    text: Seq<char>,
)
    requires
        msats_to_leave(leave) < worth(sizes(notes)) <= u64::MAX,
        planned(stock(notes), (worth(sizes(notes)) - msats_to_leave(leave)) as nat) == Some(plan),
        hands_out(notes, plan, bundle, text),
    ensures
        withdrawn(notes, leave).0 matches Some(h) && {
            &&& h.error is None
            &&& h.shown == Some(Shown::AdminWithdraw(text))
            &&& h.entry == Some(
                Entry {
                    amount_msats: (worth(sizes(notes)) - msats_to_leave(leave)) as u64,
                    change_msats: 0,
                    paid_msats: 0,
                    tx_type: TxType::Withdrawal,
                },
            )
        },
        withdrawn(notes, leave).1 == without(notes, plan),
{
}

/// A withdrawal shows something only if there was more than was to be left and a plan for the
/// rest, and then just the text of the planned notes.
pub proof fn law_withdrawal_shows_its_plan(notes: Map<u64, Seq<Seq<char>>>, leave: Seq<char>)
    ensures
        withdrawn(notes, leave).0 matches Some(h) ==> {
            &&& h.error is None
            &&& h.shown is Some <==> h.entry is Some
            &&& h.shown matches Some(shown) ==> {
                &&& msats_to_leave(leave) < worth(sizes(notes))
                &&& planned(
                    stock(notes),
                    (worth(sizes(notes)) - msats_to_leave(leave)) as nat,
                ) matches Some(plan) && (gathered(
                    drawn(notes, plan, ascending(plan.dom())),
                ) matches Ok(bundle) && (shown matches Shown::AdminWithdraw(text) && hands_out(
                    notes,
                    plan,
                    bundle,
                    text,
                )))
            }
        },
{
    let total = worth(sizes(notes));
    if msats_to_leave(leave) < total <= u64::MAX {
        let amount = (total - msats_to_leave(leave)) as u64;
        assert(amount as nat == (total - msats_to_leave(leave)) as nat);
        if let Some(plan) = planned(stock(notes), amount as nat) {
            if let Ok(bundle) = gathered(drawn(notes, plan, ascending(plan.dom()))) {
                if writable(bundle) {
                    let text = encoded(true, true, bundle_bytes(bundle));
                    assert(hands_out(notes, plan, bundle, text));
                }
            }
        }
    }
}

/// Notes leave a genuine wallet only if they are shown: where a withdrawal shows nothing, the
/// wallet is as it was.
pub proof fn law_withdrawal_loses_nothing(
    notes: Map<u64, Seq<Seq<char>>>,
    leave: Seq<char>,
    prefix: Seq<u8>,
    format: NoteFormat,
)
    requires
        notes.dom().finite(),
        prefix.len() == 4,
        genuine_notes(notes, prefix, format),
    ensures
        withdrawn(notes, leave).0 matches Some(h) ==> (h.shown is None ==> withdrawn(
            notes,
            leave,
        ).1 == notes),
{
    let total = worth(sizes(notes));
    if msats_to_leave(leave) < total <= u64::MAX {
        law_handed_out_reads_back(notes, (total - msats_to_leave(leave)) as u64, prefix, format);
    }
}

/// What is said where a payment or a deposit is turned down, and where change is due but is not
/// given. Amounts are said in whole sats.
pub proof fn law_what_is_said(
    notes: Map<u64, Seq<Seq<char>>>,
    federation_id: Option<Seq<char>>,
    requested: u64,
    min_acceptable: u64,
    data: Seq<char>,
    bundle: Bundle,
)
    requires
        bundle_in_text(data) == Ok::<Bundle, Seq<char>>(bundle),
        worth(sizes(bundle.tiers)) <= u64::MAX,
        federation_id matches Some(id) && (hex_decoded(id) matches Ok(bytes) && bytes.len() >= 4),
    ensures
        ({
            let received = worth(sizes(bundle.tiers));
            let own = is_prefix_of_id(bundle.prefix, federation_id);
            let deposit = deposited(notes, federation_id, data).0->Some_0;
            &&& !own ==> deposit.error == Some("Wrong federation!"@)
            &&& own && !all_new(notes, bundle) ==> deposit.error == Some(
                "These notes are already in the wallet!"@,
            )
            &&& paid(notes, federation_id, requested, min_acceptable, data).0 matches Some(h) ==> {
                &&& !own ==> h.error == Some("Wrong federation! Ecash rejected."@)
                &&& own && received < min_acceptable ==> h.error == Some(
                    "Received "@ + decimal(received / 1000) + " sats but expected "@ + decimal(
                        (requested / 1000) as nat,
                    ) + " sats. Too low!"@,
                )
                &&& own && received >= min_acceptable && !all_new(notes, bundle) ==> h.error
                    == Some(
                    "These notes are already in the wallet! Possible double-spend attempt."@,
                )
                &&& h.entry is Some && h.error is Some ==> received > requested && h.error == Some(
                    "Payment accepted! Could not give exact change of "@ + decimal(
                        ((received - requested) / 1000) as nat,
                    ) + " sats."@,
                )
            }
        }),
{
    lemma_own(federation_id, data, "Wrong federation!"@);
    lemma_own(federation_id, data, "Wrong federation! Ecash rejected."@);
    lemma_all_new(notes, bundle);
}

/// There is always an outcome of a withdrawal but where the sats that are to be left or the notes
/// are worth more msats than a `u64` holds, or where the planned notes make up a text that is too
/// long. It says nothing is wrong.
#[verifier::rlimit(30)]
pub proof fn law_withdrawal_has_outcome(notes: Map<u64, Seq<Seq<char>>>, leave: Seq<char>)
    ensures
        withdrawn(notes, leave).0 is None <==> {
            ||| msats_to_leave(leave) > u64::MAX
            ||| worth(sizes(notes)) > u64::MAX
            ||| {
                &&& msats_to_leave(leave) < worth(sizes(notes))
                &&& planned(
                    stock(notes),
                    (worth(sizes(notes)) - msats_to_leave(leave)) as nat,
                ) matches Some(plan) && (gathered(
                    drawn(notes, plan, ascending(plan.dom())),
                ) matches Ok(bundle) && !writable(bundle))
            }
        },
        withdrawn(notes, leave).0 matches Some(h) ==> h.error is None,
        worth(sizes(notes)) <= msats_to_leave(leave) ==> withdrawn(notes, leave).1 == notes,
{
    let most = worth(sizes(notes));
    if msats_to_leave(leave) < most <= u64::MAX {
        let amount = (most - msats_to_leave(leave)) as u64;
        assert(amount as nat == (most - msats_to_leave(leave)) as nat);
    }
}

/// There is no outcome of a payment that is accepted only where the notes that are planned for the
/// change make up a text that is too long. They have left the wallet then.
pub proof fn law_change_too_large(
    notes: Map<u64, Seq<Seq<char>>>,
    federation_id: Option<Seq<char>>,
    requested: u64,
    min_acceptable: u64,
    data: Seq<char>,
    bundle: Bundle,
    all: Map<u64, Seq<Seq<char>>>,
)
    requires
        brings(notes, federation_id, data, bundle),
        min_acceptable <= worth(sizes(bundle.tiers)),
        takes_in(notes, bundle, all),
    ensures
        ({
            let received = worth(sizes(bundle.tiers));
            let due = (received - requested) as nat;
            let (outcome, left) = paid(notes, federation_id, requested, min_acceptable, data);
            &&& outcome is None <==> received > requested && (planned(stock(all), due) matches Some(
                plan,
            ) && (gathered(drawn(all, plan, ascending(plan.dom()))) matches Ok(change) && !writable(
                change,
            )))
            &&& outcome is None ==> (planned(stock(all), due) matches Some(plan) && left == without(
                all,
                plan,
            ))
        }),
{
    lemma_own(federation_id, data, "Wrong federation! Ecash rejected."@);
    lemma_all_new(notes, bundle);
    lemma_takes_in(notes, bundle);
    lemma_takes_in_once(notes, bundle, all, merged(notes, split_texts(bundle)));
}

} // verus!
