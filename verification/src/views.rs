//! What the till shows.

use vstd::prelude::*;

verus! {

/// A step of setting the till up.
#[derive(Clone, Copy, Debug, PartialEq, Eq, Structural)]
pub enum SetupStep {
    /// The federation is asked for.
    Federation,
    /// The PIN of the administrator is asked for.
    Pin,
    /// Notes to give change with are asked for.
    InitialDeposit,
    /// Notes are scanned.
    ScanDeposit,
}

/// What the till shows.
#[derive(Clone, Debug)]
pub enum AppView {
    /// A step of setting it up.
    Setup(SetupStep),
    /// The amount of a sale is entered.
    Pos,
    /// A payment of that many msats is awaited.
    AwaitPayment(u64),
    /// A payment was received.
    PaymentSuccess {
        /// What was paid, in whole sats.
        received_sats: u64,
        /// The change that was given, in whole sats.
        change_sats: u64,
    },
    /// Change is to be scanned by the customer.
    GiveChange {
        /// The notes.
        ecash_str: String,
        /// What was paid, in whole sats.
        received_sats: u64,
        /// The change, in whole sats.
        change_sats: u64,
    },
    /// The PIN is asked for.
    PinEntry,
    /// What the administrator sees.
    Admin,
    /// Notes that were withdrawn are to be scanned.
    AdminWithdraw(String),
}

/// What the till shows, with the contents of its texts.
pub enum Shown {
    /// A step of setting it up.
    Setup(SetupStep),
    /// The entry of a sale.
    Pos,
    /// A payment of that many msats is awaited.
    AwaitPayment(u64),
    /// A payment was received, with what was paid and the change in whole sats.
    PaymentSuccess(u64, u64),
    /// Change is given, with the notes, what was paid and the change in whole sats.
    GiveChange(Seq<char>, u64, u64),
    /// The PIN is asked for.
    PinEntry,
    /// What the administrator sees.
    Admin,
    /// Notes that were withdrawn.
    AdminWithdraw(Seq<char>),
}

impl View for AppView {
    type V = Shown;

    open spec fn view(&self) -> Shown {
        match self {
            AppView::Setup(step) => Shown::Setup(*step),
            AppView::Pos => Shown::Pos,
            AppView::AwaitPayment(msats) => Shown::AwaitPayment(*msats),
            AppView::PaymentSuccess { received_sats, change_sats } => Shown::PaymentSuccess(
                *received_sats,
                *change_sats,
            ),
            AppView::GiveChange { ecash_str, received_sats, change_sats } => Shown::GiveChange(
                ecash_str@,
                *received_sats,
                *change_sats,
            ),
            AppView::PinEntry => Shown::PinEntry,
            AppView::Admin => Shown::Admin,
            AppView::AdminWithdraw(ecash_str) => Shown::AdminWithdraw(ecash_str@),
        }
    }
}

/// What is shown first: the entry of a sale if the till has been set up.
pub fn initial_view(configured: bool) -> (view: AppView)
    ensures
        view == (if configured {
            AppView::Pos
        } else {
            AppView::Setup(SetupStep::Federation)
        }),
{
    if configured {
        AppView::Pos
    } else {
        AppView::Setup(SetupStep::Federation)
    }
}

/// The entry of a sale comes first exactly if the till has been set up.
pub proof fn law_first_view(configured: bool, view: AppView)
    requires
        call_ensures(initial_view, (configured,), view),
    ensures
        view is Pos <==> configured,
        !configured ==> view == AppView::Setup(SetupStep::Federation),
{
}

} // verus!
