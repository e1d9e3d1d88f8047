//! The wallet that the till holds its notes in.

use crate::plan::{
    bump_works, bumped, first_bump, fitting, law_plan, lemma_above, lemma_bumped, lemma_owed_step,
    lemma_used, owed, planned, taken, taken_from, TOLERANCE,
};
use crate::text::{decimal, push_decimal, text_tiers, texts};
use crate::tiers::{
    ascending, checked_worth, items, keys_ascending, lemma_ascending_is, lemma_merged_worth,
    lemma_take_contains, lemma_worth_add, lemma_worth_nonzero, listed, merge_tiers, merged, nats,
    sizes, strictly_ascending, worth,
};
use std::collections::BTreeMap;
use vstd::prelude::*;

verus! {

/// The notes that the till holds.
#[derive(Clone, Debug)]
pub struct Wallet {
    /// Under each denomination in msats, strings that hold one note of that denomination each.
    pub notes: BTreeMap<u64, Vec<String>>,
}

impl Default for Wallet {
    /// An empty wallet.
    fn default() -> (wallet: Self)
        ensures
            wallet@ == Map::<u64, Seq<Seq<char>>>::empty(),
    {
        let wallet = Wallet { notes: BTreeMap::new() };
        assert(wallet@ =~= Map::empty());
        wallet
    }
}

impl View for Wallet {
    type V = Map<u64, Seq<Seq<char>>>;

    open spec fn view(&self) -> Map<u64, Seq<Seq<char>>> {
        text_tiers(self.notes@)
    }
}

/// How many notes there are of each denomination of which there are any.
pub open spec fn stock(notes: Map<u64, Seq<Seq<char>>>) -> Map<u64, nat> {
    Map::new(|d: u64| notes.contains_key(d) && notes[d].len() > 0, |d: u64| notes[d].len())
}

/// The last `n` of `list`, the last one first.
pub open spec fn popped<T>(list: Seq<T>, n: nat) -> Seq<T> {
    list.skip(list.len() - n).reverse()
}

/// The notes that `plan` takes of the denominations `ds`.
pub open spec fn drawn(
    notes: Map<u64, Seq<Seq<char>>>,
    plan: Map<u64, nat>,
    ds: Seq<u64>,
) -> Seq<Seq<char>>
    decreases ds.len(),
{
    if ds.len() == 0 {
        Seq::empty()
    } else {
        drawn(notes, plan, ds.drop_last()) + popped(notes[ds.last()], plan[ds.last()])
    }
}

/// What is left once `plan` has been taken. A denomination of which nothing is left stays
/// listed.
pub open spec fn without(notes: Map<u64, Seq<Seq<char>>>, plan: Map<u64, nat>) -> Map<
    u64,
    Seq<Seq<char>>,
> {
    Map::new(
        |d: u64| notes.contains_key(d),
        |d: u64|
            if plan.contains_key(d) {
                notes[d].take(notes[d].len() - plan[d])
            } else {
                notes[d]
            },
    )
}

/// How many of `n` denominations are the lowest four fifths of them, rounded up.
pub open spec fn low_part(n: nat) -> nat {
    (n - n / 5) as nat
}

/// A denomination that was once in the wallet and of which nothing is left now lies within the
/// lowest four fifths of at least two denominations of which there are notes.
pub open spec fn change_gap(notes: Map<u64, Seq<Seq<char>>>) -> bool {
    let present = ascending(stock(notes).dom());
    &&& present.len() >= 2
    &&& exists|d: u64| #[trigger]
        notes.contains_key(d) && notes[d].len() == 0 && d <= present[low_part(present.len()) - 1]
}

/// How many notes there are of each of the denominations `ds`, in words.
pub open spec fn counts_text(ds: Seq<u64>, have: Map<u64, nat>) -> Seq<char>
    decreases ds.len(),
{
    if ds.len() == 0 {
        Seq::empty()
    } else {
        let before = counts_text(ds.drop_last(), have);
        let separator = if ds.len() == 1 {
            Seq::empty()
        } else {
            ", "@
        };
        before + separator + decimal(ds.last() as nat) + " msat x"@ + decimal(have[ds.last()])
    }
}

/// Some note is listed under `d` in both.
pub open spec fn share_note_under(
    a: Map<u64, Seq<Seq<char>>>,
    b: Map<u64, Seq<Seq<char>>>,
    d: u64,
) -> bool {
    &&& a.contains_key(d)
    &&& b.contains_key(d)
    &&& exists|note: Seq<char>| #[trigger] a[d].contains(note) && b[d].contains(note)
}

/// Some note is listed under the same denomination in both.
pub open spec fn share_note(a: Map<u64, Seq<Seq<char>>>, b: Map<u64, Seq<Seq<char>>>) -> bool {
    exists|d: u64| share_note_under(a, b, d)
}

/// Whether the list holds the string.
fn holds(list: &Vec<String>, item: &String) -> (found: bool)
    ensures
        found == texts(list@).contains(item@),
{
    let mut i: usize = 0;
    while i < list.len()
        invariant
            i <= list@.len(),
            forall|k: int| 0 <= k < i ==> (#[trigger] texts(list@)[k]) != item@,
        decreases list@.len() - i,
    {
        assert(texts(list@)[i as int] == list@[i as int]@);
        if list[i].eq(item) {
            return true;
        }
        i = i + 1;
    }
    false
}

/// Whether both lists hold the same string.
fn have_common(a: &Vec<String>, b: &Vec<String>) -> (found: bool)
    ensures
        found == exists|s: Seq<char>| #[trigger] texts(a@).contains(s) && texts(b@).contains(s),
{
    let mut i: usize = 0;
    while i < b.len()
        invariant
            i <= b@.len(),
            forall|k: int| 0 <= k < i ==> !texts(a@).contains(#[trigger] texts(b@)[k]),
        decreases b@.len() - i,
    {
        assert(texts(b@)[i as int] == b@[i as int]@);
        if holds(a, &b[i]) {
            assert(texts(b@).contains(b@[i as int]@));
            return true;
        }
        i = i + 1;
    }
    false
}

/// Takes the last `n` items off a list, the last one first.
pub fn pop_many<T>(list: &mut Vec<T>, n: usize) -> (items: Vec<T>)
    requires
        n <= old(list)@.len(),
    ensures
        items@ == popped(old(list)@, n as nat),
        final(list)@ == old(list)@.take(old(list)@.len() - n),
{
    let ghost all = list@;
    let mut items: Vec<T> = Vec::new();
    let mut i: usize = 0;
    while i < n
        invariant
            i <= n <= all.len(),
            list@ == all.take(all.len() - i),
            items@ == popped(all, i as nat),
        decreases n - i,
    {
        if let Some(item) = list.pop() {
            items.push(item);
        }
        i = i + 1;
        assert(items@ =~= popped(all, i as nat));
    }
    items
}

impl Wallet {
    /// Takes notes that are worth `amount_msats`, give or take one sat, out of the wallet.
    ///
    /// The notes that the plan names are taken off the ends of the lists, the smallest
    /// denomination first. Without a plan the wallet stays as it is.
    pub fn withdraw_exact(&mut self, amount_msats: u64) -> (selected: Option<Vec<String>>)
        ensures
            match planned(stock(old(self)@), amount_msats as nat) {
                Some(plan) => {
                    &&& selected matches Some(selected) && texts(selected@) == drawn(
                        old(self)@,
                        plan,
                        ascending(plan.dom()),
                    )
                    &&& final(self)@ == without(old(self)@, plan)
                },
                None => selected is None && final(self)@ == old(self)@,
            },
    {
        let available = self.denomination_counts();
        let plan = match self.plan_withdrawal(amount_msats, &available) {
            Some(plan) => plan,
            None => {
                return None;
            },
        };
        proof {
            assert(nats(available@).dom() =~= available@.dom());
            law_plan(stock(self@), amount_msats as nat);
        }
        Some(self.take_planned(&plan))
    }

    /// Takes the notes that a plan names out of the wallet, off the ends of the lists and the
    /// smallest denomination first.
    pub(crate) fn take_planned(&mut self, plan: &BTreeMap<u64, usize>) -> (selected: Vec<String>)
        requires
            forall|d: u64| #[trigger]
                nats(plan@).contains_key(d) ==> old(self)@.contains_key(d) && nats(plan@)[d]
                    <= old(self)@[d].len(),
        ensures
            texts(selected@) == drawn(
                old(self)@,
                nats(plan@),
                ascending(nats(plan@).dom()),
            ),
            final(self)@ == without(old(self)@, nats(plan@)),
    {
        let ghost before = self@;
        let ghost p = nats(plan@);
        let denoms = keys_ascending(plan);
        let ghost ds = denoms@;
        proof {
            assert(p.dom() =~= plan@.dom());
            assert(ds.take(0) =~= Seq::<u64>::empty());
        }
        let mut selected: Vec<String> = Vec::new();
        assert(texts(selected@) =~= drawn(before, p, ds.take(0)));
        let mut i: usize = 0;
        while i < denoms.len()
            invariant
                i <= ds.len(),
                ds == denoms@,
                p == nats(plan@),
                strictly_ascending(ds),
                ds.to_set() == plan@.dom(),
                forall|d: u64| #[trigger]
                    p.contains_key(d) ==> before.contains_key(d) && p[d] <= before[d].len(),
                self@.dom() == before.dom(),
                forall|d: u64| #[trigger]
                    before.contains_key(d) ==> self@[d] == (if ds.take(i as int).contains(d) {
                        before[d].take(before[d].len() - p[d])
                    } else {
                        before[d]
                    }),
                texts(selected@) == drawn(before, p, ds.take(i as int)),
            decreases ds.len() - i,
        {
            let denom: u64 = denoms[i];
            let ghost drawn_before = selected@;
            proof {
                assert(ds.to_set().contains(denom));
                assert(p.contains_key(denom));
                assert(!ds.take(i as int).contains(denom)) by {
                    assert forall|k: int| 0 <= k < i implies #[trigger] ds[k] != denom by {
                        assert(ds[k] < ds[i as int]);
                    }
                }
                assert(self@.contains_key(denom));
            }
            let count: usize = match plan.get(&denom) {
                Some(count) => *count,
                None => 0,
            };
            let mut taken = self.take_last(denom, count);
            let ghost taken_now = taken@;
            selected.append(&mut taken);
            proof {
                assert(texts(selected@) =~= texts(drawn_before) + texts(taken_now));
                assert(ds.take(i + 1).drop_last() =~= ds.take(i as int));
                assert(ds.take(i + 1).last() == denom);
                assert forall|d: u64| #[trigger] before.contains_key(d) implies self@[d] == (
                if ds.take(i + 1).contains(d) {
                    before[d].take(before[d].len() - p[d])
                } else {
                    before[d]
                }) by {
                    lemma_take_contains(ds, i as int, d);
                }
                assert(self@.dom() =~= before.dom());
            }
            i = i + 1;
        }
        proof {
            assert(ds.take(i as int) =~= ds);
            assert forall|d: u64| #[trigger] before.contains_key(d) implies ds.contains(d)
                == p.contains_key(d) by {
                assert(ds.to_set().contains(d) == plan@.contains_key(d));
            }
            assert(self@ =~= without(before, p));
        }
        selected
    }

    /// Takes the last `n` notes of `d` msats out of the wallet, the last one first.
    fn take_last(&mut self, d: u64, n: usize) -> (taken: Vec<String>)
        requires
            old(self)@.contains_key(d),
            n <= old(self)@[d].len(),
        ensures
            texts(taken@) == popped(old(self)@[d], n as nat),
            final(self)@ == old(self)@.insert(d, old(self)@[d].take(old(self)@[d].len() - n)),
    {
        let ghost before = self@;
        let mut list: Vec<String> = match self.notes.remove(&d) {
            Some(list) => list,
            None => Vec::new(),
        };
        assert(texts(list@) == before[d]);
        assert(texts(list@).len() == list@.len());
        let taken = pop_many(&mut list, n);
        proof {
            assert(texts(taken@) =~= popped(before[d], n as nat));
            assert(texts(list@) =~= before[d].take(before[d].len() - n));
        }
        self.notes.insert(d, list);
        assert(self@ =~= before.insert(d, before[d].take(before[d].len() - n)));
        taken
    }

    /// How many notes there are of each denomination of which there are any.
    pub fn denomination_counts(&self) -> (counts: BTreeMap<u64, usize>)
        ensures
            nats(counts@) == stock(self@),
    {
        let denoms = keys_ascending(&self.notes);
        let mut counts: BTreeMap<u64, usize> = BTreeMap::new();
        let mut i: usize = 0;
        while i < denoms.len()
            invariant
                i <= denoms@.len(),
                denoms@.to_set() == self@.dom(),
                forall|d: u64| #[trigger]
                    counts@.contains_key(d) <==> denoms@.take(i as int).contains(d) && self@[d].len()
                        > 0,
                forall|d: u64| #[trigger] counts@.contains_key(d) ==> counts@[d] == self@[d].len(),
            decreases denoms@.len() - i,
        {
            let d: u64 = denoms[i];
            assert(denoms@.to_set().contains(d));
            proof {
                assert forall|e: u64| #[trigger] denoms@.take(i + 1).contains(e) == (denoms@.take(
                    i as int,
                ).contains(e) || e == d) by {
                    lemma_take_contains(denoms@, i as int, e);
                }
            }
            if let Some(list) = self.notes.get(&d) {
                if list.len() > 0 {
                    counts.insert(d, list.len());
                }
            }
            i = i + 1;
        }
        proof {
            assert(denoms@.take(i as int) =~= denoms@);
            assert forall|d: u64| denoms@.contains(d) == self@.contains_key(d) by {
                assert(denoms@.to_set().contains(d) == denoms@.contains(d));
            }
            assert(nats(counts@) =~= stock(self@));
        }
        counts
    }

    /// How many notes of each denomination to hand out for `amount` where `available` says how
    /// many there are.
    pub fn plan_withdrawal(&self, amount: u64, available: &BTreeMap<u64, usize>) -> (plan: Option<
        BTreeMap<u64, usize>,
    >)
        ensures
            match plan {
                Some(plan) => planned(nats(available@), amount as nat) == Some(nats(plan@)),
                None => planned(nats(available@), amount as nat) is None,
            },
    {
        let denoms = keys_ascending(available);
        let ghost have = nats(available@);
        let ghost ds = denoms@;
        let n: usize = denoms.len();
        let mut plan: BTreeMap<u64, usize> = BTreeMap::new();
        let mut left: Vec<u64> = Vec::new();
        let mut remaining: u64 = amount;
        let mut i: usize = n;
        assert(have.dom() =~= available@.dom());
        assert(nats(plan@) =~= taken_from(ds, have, amount as nat, n as int));
        while i > 0
            invariant
                i <= n,
                n == ds.len(),
                ds == denoms@,
                ds == ascending(have.dom()),
                ds.to_set() == available@.dom(),
                have == nats(available@),
                strictly_ascending(ds),
                nats(plan@) == taken_from(ds, have, amount as nat, i as int),
                remaining == owed(ds, have, amount as nat, i as int),
                left@.len() == n - i,
                forall|k: int|
                    i <= k < n ==> left@[n - 1 - k] == #[trigger] owed(ds, have, amount as nat, k),
            decreases i,
        {
            i = i - 1;
            let denom: u64 = denoms[i];
            assert(ds.to_set().contains(ds[i as int]));
            let count: usize = match available.get(&denom) {
                Some(count) => *count,
                None => 0,
            };
            let use_n: usize = Self::fit(remaining, denom, count);
            proof {
                lemma_owed_step(ds, have, amount as nat, i as int);
                assert(use_n == taken(ds, have, amount as nat, i as int));
            }
            if use_n > 0 {
                let ghost before = plan@;
                plan.insert(denom, use_n);
                assert(nats(plan@) =~= nats(before).insert(denom, use_n as nat));
                remaining = remaining - denom * (use_n as u64);
            } else {
                assert(denom * 0 == 0) by (nonlinear_arith);
            }
            left.push(remaining);
        }
        if remaining <= TOLERANCE {
            return Some(plan);
        }
        let mut i: usize = 0;
        while i < n
            invariant
                i <= n,
                n == ds.len(),
                ds == denoms@,
                ds == ascending(have.dom()),
                ds.to_set() == available@.dom(),
                have == nats(available@),
                strictly_ascending(ds),
                nats(plan@) == taken_from(ds, have, amount as nat, 0),
                remaining == owed(ds, have, amount as nat, 0),
                remaining > TOLERANCE,
                left@.len() == n,
                forall|k: int|
                    0 <= k < n ==> left@[n - 1 - k] == #[trigger] owed(ds, have, amount as nat, k),
                forall|k: int| 0 <= k < i ==> !#[trigger] bump_works(ds, have, amount as nat, k),
            decreases n - i,
        {
            let denom: u64 = denoms[i];
            assert(ds.to_set().contains(ds[i as int]));
            let count: usize = match available.get(&denom) {
                Some(count) => *count,
                None => 0,
            };
            let used: usize = match plan.get(&denom) {
                Some(used) => *used,
                None => 0,
            };
            proof {
                lemma_used(ds, have, amount as nat, i as int);
                lemma_owed_step(ds, have, amount as nat, i as int);
                lemma_bumped(ds, have, amount as nat, i as int);
                assert(used == taken(ds, have, amount as nat, i as int)) by {
                    if plan@.contains_key(denom) {
                        assert(nats(plan@).contains_key(denom));
                    } else {
                        assert(!nats(plan@).contains_key(denom));
                    }
                }
                assert(left@[n - 1 - i] == owed(ds, have, amount as nat, i as int));
            }
            if count > used && denom > remaining && denom - left[n - 1 - i] <= TOLERANCE {
                let mut bumped_plan = Self::keep_above(&plan, denom);
                bumped_plan.insert(denom, used + 1);
                proof {
                    lemma_above(ds, have, amount as nat, i as int);
                    assert(nats(bumped_plan@) =~= bumped(ds, have, amount as nat, i as int));
                    assert(bump_works(ds, have, amount as nat, i as int));
                    assert(first_bump(ds, have, amount as nat, i as int));
                    let j = choose|j: int| first_bump(ds, have, amount as nat, j);
                    assert(first_bump(ds, have, amount as nat, j));
                    if j < i {
                        assert(bump_works(ds, have, amount as nat, j));
                    }
                    if i < j {
                        assert(bump_works(ds, have, amount as nat, i as int));
                    }
                }
                return Some(bumped_plan);
            }
            i = i + 1;
        }
        None
    }

    /// The wallet that was kept, or an empty one if there is none.
    pub fn load(stored: Option<Wallet>) -> (wallet: Wallet)
        ensures
            match stored {
                Some(stored) => wallet == stored,
                None => wallet@ == Map::<u64, Seq<Seq<char>>>::empty(),
            },
    {
        match stored {
            Some(stored) => stored,
            None => Wallet::default(),
        }
    }

    /// Says how many notes there are of each denomination, the smallest first.
    pub fn denomination_info(&self) -> (text: String)
        ensures
            text@ == counts_text(ascending(stock(self@).dom()), stock(self@)),
    {
        let counts = self.denomination_counts();
        assert(nats(counts@).dom() =~= counts@.dom());
        let denoms = keys_ascending(&counts);
        let ghost ds = denoms@;
        let ghost have = stock(self@);
        let mut text = String::new();
        let mut i: usize = 0;
        assert(ds.take(0) =~= Seq::empty());
        while i < denoms.len()
            invariant
                i <= ds.len(),
                ds == denoms@,
                have == nats(counts@),
                ds.to_set() == counts@.dom(),
                text@ == counts_text(ds.take(i as int), have),
            decreases ds.len() - i,
        {
            let d: u64 = denoms[i];
            assert(ds.to_set().contains(d));
            let n: usize = match counts.get(&d) {
                Some(n) => *n,
                None => 0,
            };
            assert(have[d] == n);
            if i > 0 {
                text.append(", ");
            }
            push_decimal(&mut text, d);
            text.append(" msat x");
            push_decimal(&mut text, n as u64);
            proof {
                assert(ds.take(i + 1).drop_last() =~= ds.take(i as int));
                assert(text@ =~= counts_text(ds.take(i + 1), have));
            }
            i = i + 1;
        }
        assert(ds.take(i as int) =~= ds);
        text
    }

    /// What all the notes are worth together in msats.
    pub fn total_msats(&self) -> (total: u64)
        requires
            worth(sizes(self@)) <= u64::MAX,
        ensures
            total == worth(sizes(self@)),
    {
        self.checked_total_msats().unwrap()
    }

    /// What all the notes are worth together in msats, unless that is more than a `u64` holds.
    pub fn checked_total_msats(&self) -> (total: Option<u64>)
        ensures
            match total {
                Some(total) => total == worth(sizes(self@)),
                None => worth(sizes(self@)) > u64::MAX,
            },
    {
        let counts = self.denomination_counts();
        proof {
            assert(nats(counts@).dom() =~= counts@.dom());
            assert(sizes(self@).dom() =~= self.notes@.dom());
            lemma_worth_nonzero(stock(self@), sizes(self@));
        }
        checked_worth(&counts)
    }

    /// The smallest denomination of which there are any notes.
    pub fn smallest_denomination(&self) -> (smallest: Option<u64>)
        ensures
            match smallest {
                Some(d) => {
                    &&& stock(self@).contains_key(d)
                    &&& forall|e: u64| #[trigger] stock(self@).contains_key(e) ==> d <= e
                },
                None => forall|e: u64| !#[trigger] stock(self@).contains_key(e),
            },
            smallest is None <==> stock(self@).dom() == Set::<u64>::empty(),
    {
        let counts = self.denomination_counts();
        let denoms = keys_ascending(&counts);
        proof {
            assert(nats(counts@).dom() =~= counts@.dom());
            assert forall|e: u64| #[trigger] stock(self@).contains_key(e) implies exists|i: int|
                0 <= i < denoms@.len() && denoms@[i] == e by {
                assert(denoms@.to_set().contains(e));
            }
        }
        if denoms.len() == 0 {
            assert(stock(self@).dom() =~= Set::empty());
            None
        } else {
            assert(denoms@.to_set().contains(denoms@[0]));
            assert(stock(self@).dom().contains(denoms@[0]));
            Some(denoms[0])
        }
    }

    /// Whether any of the given notes is in the wallet already, under its denomination.
    pub fn contains_any(&self, split: &BTreeMap<u64, Vec<String>>) -> (found: bool)
        ensures
            found == share_note(self@, text_tiers(split@)),
    {
        let denoms = keys_ascending(split);
        let ghost given = text_tiers(split@);
        let mut i: usize = 0;
        while i < denoms.len()
            invariant
                i <= denoms@.len(),
                given == text_tiers(split@),
                denoms@.to_set() == split@.dom(),
                forall|k: int|
                    0 <= k < i ==> !share_note_under(self@, given, #[trigger] denoms@[k]),
            decreases denoms@.len() - i,
        {
            let d: u64 = denoms[i];
            assert(denoms@.to_set().contains(d));
            if let Some(new_notes) = split.get(&d) {
                if let Some(existing) = self.notes.get(&d) {
                    if have_common(existing, new_notes) {
                        proof {
                            let note = choose|note: Seq<char>| #[trigger]
                                texts(existing@).contains(note) && texts(new_notes@).contains(note);
                            assert(self@[d].contains(note) && given[d].contains(note));
                            assert(share_note_under(self@, given, d));
                        }
                        return true;
                    }
                }
            }
            i = i + 1;
        }
        proof {
            assert forall|d: u64| !#[trigger] share_note_under(self@, given, d) by {
                if given.contains_key(d) {
                    assert(denoms@.to_set().contains(d));
                    let k = choose|k: int| 0 <= k < denoms@.len() && denoms@[k] == d;
                    assert(!share_note_under(self@, given, denoms@[k]));
                }
            }
        }
        false
    }

    /// Puts notes into the wallet, each list at the end of that of its denomination.
    pub fn deposit(&mut self, split: BTreeMap<u64, Vec<String>>)
        ensures
            final(self)@ == merged(old(self)@, text_tiers(split@)),
    {
        let ghost before = self.notes@;
        let ghost given = split@;
        merge_tiers(&mut self.notes, split);
        proof {
            let want = merged(text_tiers(before), text_tiers(given));
            assert forall|d: u64| #[trigger] self@.contains_key(d) implies self@[d] == want[d] by {
                assert(self.notes@.contains_key(d));
                assert(texts(items(before, d) + items(given, d)) =~= texts(items(before, d))
                    + texts(items(given, d)));
                assert(texts(items(before, d)) =~= listed(text_tiers(before), d));
                assert(texts(items(given, d)) =~= listed(text_tiers(given), d));
            }
            assert(self@ =~= want);
        }
    }

    /// Whether a denomination has run out that is needed for giving change.
    pub fn has_change_gaps(&self) -> (gaps: bool)
        ensures
            gaps == change_gap(self@),
    {
        let counts = self.denomination_counts();
        let present = keys_ascending(&counts);
        assert(nats(counts@).dom() =~= counts@.dom());
        if present.len() < 2 {
            return false;
        }
        let cutoff: usize = present.len() - present.len() / 5;
        let top: u64 = present[cutoff - 1];
        let denoms = keys_ascending(&self.notes);
        let mut i: usize = 0;
        while i < denoms.len()
            invariant
                i <= denoms@.len(),
                denoms@.to_set() == self@.dom(),
                present@ == ascending(stock(self@).dom()),
                present@.len() >= 2,
                top == present@[low_part(present@.len()) - 1],
                forall|k: int|
                    0 <= k < i ==> self@[#[trigger] denoms@[k]].len() > 0 || denoms@[k] > top,
            decreases denoms@.len() - i,
        {
            let d: u64 = denoms[i];
            assert(denoms@.to_set().contains(d));
            if let Some(list) = self.notes.get(&d) {
                if list.len() == 0 && d <= top {
                    assert(self@.contains_key(d) && self@[d].len() == 0);
                    return true;
                }
            }
            i = i + 1;
        }
        proof {
            assert forall|d: u64| #[trigger] self@.contains_key(d) implies self@[d].len() > 0 || d
                > top by {
                assert(denoms@.to_set().contains(d));
                let k = choose|k: int| 0 <= k < denoms@.len() && denoms@[k] == d;
                assert(self@[denoms@[k]].len() > 0 || denoms@[k] > top);
            }
        }
        false
    }

    /// How many notes of `denom` msats fit into `remaining` if there are `count`.
    fn fit(remaining: u64, denom: u64, count: usize) -> (n: usize)
        ensures
            n == fitting(remaining as nat, denom, count as nat),
    {
        if denom == 0 {
            return 0;
        }
        let whole: u64 = remaining / denom;
        if whole <= count as u64 {
            whole as usize
        } else {
            count
        }
    }

    /// The part of a plan that is about larger denominations than `denom`.
    fn keep_above(plan: &BTreeMap<u64, usize>, denom: u64) -> (kept: BTreeMap<u64, usize>)
        ensures
            kept@ == plan@.restrict(Set::new(|d: u64| d > denom)),
    {
        let mut kept: BTreeMap<u64, usize> = BTreeMap::new();
        let denoms = keys_ascending(plan);
        let mut i: usize = 0;
        assert(kept@ =~= plan@.restrict(denoms@.take(0).to_set().filter(|d: u64| d > denom)));
        while i < denoms.len()
            invariant
                i <= denoms@.len(),
                denoms@.to_set() == plan@.dom(),
                kept@ == plan@.restrict(denoms@.take(i as int).to_set().filter(|d: u64| d > denom)),
            decreases denoms@.len() - i,
        {
            let d: u64 = denoms[i];
            assert(denoms@.to_set().contains(denoms@[i as int]));
            let ghost before = denoms@.take(i as int);
            let ghost after = denoms@.take(i + 1);
            assert(after =~= before.push(d));
            assert(after.to_set() =~= before.to_set().insert(d)) by {
                before.lemma_push_to_set_commute(d);
            }
            if d > denom {
                if let Some(n) = plan.get(&d) {
                    kept.insert(d, *n);
                }
            }
            i = i + 1;
            assert(kept@ =~= plan@.restrict(after.to_set().filter(|d: u64| d > denom)));
        }
        assert(denoms@.take(i as int) =~= denoms@);
        assert(kept@ =~= plan@.restrict(Set::new(|d: u64| d > denom)));
        kept
    }
}

/// A deposit adds what the notes are worth.
pub proof fn law_deposit_adds(
    notes: Map<u64, Seq<Seq<char>>>,
    given: Map<u64, Seq<Seq<char>>>,
)
    requires
        notes.dom().finite(),
        given.dom().finite(),
    ensures
        worth(sizes(merged(notes, given))) == worth(sizes(notes)) + worth(sizes(given)),
{
    lemma_merged_worth(notes, given);
}

/// A note that was deposited is found if it is brought again.
pub proof fn law_deposited_is_known(
    notes: Map<u64, Seq<Seq<char>>>,
    given: Map<u64, Seq<Seq<char>>>,
    again: Map<u64, Seq<Seq<char>>>,
)
    requires
        share_note(given, again),
    ensures
        share_note(merged(notes, given), again),
{
    let d = choose|d: u64| share_note_under(given, again, d);
    let note = choose|note: Seq<char>| #[trigger]
        given[d].contains(note) && again[d].contains(note);
    let i = choose|i: int| 0 <= i < given[d].len() && given[d][i] == note;
    let all = merged(notes, given)[d];
    assert(all[listed(notes, d).len() + i] == note);
    assert(all.contains(note));
    assert(share_note_under(merged(notes, given), again, d));
}

/// Taking notes out loses none: each list is what stays of it and then what was taken off its
/// end, and what stays and what was taken are worth what there was.
pub proof fn law_withdrawal_conserves(notes: Map<u64, Seq<Seq<char>>>, plan: Map<u64, nat>)
    requires
        notes.dom().finite(),
        forall|d: u64| #[trigger]
            plan.contains_key(d) ==> notes.contains_key(d) && plan[d] <= notes[d].len(),
    ensures
        forall|d: u64| #[trigger]
            plan.contains_key(d) ==> without(notes, plan)[d] + popped(notes[d], plan[d]).reverse()
                == notes[d],
        worth(sizes(without(notes, plan))) + worth(plan) == worth(sizes(notes)),
{
    assert forall|d: u64| #[trigger] plan.contains_key(d) implies without(notes, plan)[d] + popped(
        notes[d],
        plan[d],
    ).reverse() == notes[d] by {
        assert(without(notes, plan)[d] + popped(notes[d], plan[d]).reverse() =~= notes[d]);
    }
    lemma_without_worth(notes, plan);
}

proof fn lemma_without_worth(notes: Map<u64, Seq<Seq<char>>>, plan: Map<u64, nat>)
    requires
        notes.dom().finite(),
        forall|d: u64| #[trigger]
            plan.contains_key(d) ==> notes.contains_key(d) && plan[d] <= notes[d].len(),
    ensures
        worth(sizes(without(notes, plan))) + worth(plan) == worth(sizes(notes)),
{
    let left = without(notes, plan);
    assert(left.dom() =~= notes.dom());
    assert(sizes(left).dom() =~= notes.dom());
    assert(plan.dom().subset_of(notes.dom()));
    vstd::set_lib::lemma_len_subset(plan.dom(), notes.dom());
    assert forall|k: u64| #[trigger]
        sizes(notes).contains_key(k) <==> sizes(left).contains_key(k) || plan.contains_key(k) by {}
    assert forall|k: u64| #[trigger] sizes(notes).contains_key(k) implies sizes(notes)[k] == (
    if sizes(left).contains_key(k) {
        sizes(left)[k]
    } else {
        0
    }) + (if plan.contains_key(k) {
        plan[k]
    } else {
        0
    }) by {
        assert(left.contains_key(k));
    }
    lemma_worth_add(sizes(left), plan, sizes(notes));
}

/// The smallest denomination is there, and no smaller one is.
pub proof fn law_smallest_denomination(wallet: Wallet, smallest: Option<u64>)
    requires
        call_ensures(Wallet::smallest_denomination, (&wallet,), smallest),
    ensures
        smallest matches Some(d) ==> listed(wallet@, d).len() > 0,
        smallest matches Some(d) ==> forall|e: u64| e < d ==> (#[trigger] listed(wallet@, e)).len()
            == 0,
        smallest is None ==> forall|e: u64| (#[trigger] listed(wallet@, e)).len() == 0,
{
    let have = stock(wallet@);
    assert forall|e: u64| (#[trigger] listed(wallet@, e)).len() > 0 implies have.contains_key(
        e,
    ) by {}
    match smallest {
        Some(d) => {
            assert(have.contains_key(d));
        },
        None => {
            assert(have.dom() =~= Set::empty());
        },
    }
}

/// What is said of the wallet lists each denomination of which there are notes, and no other.
pub proof fn law_saying_what_is_there(wallet: &Wallet, text: String, ds: Seq<u64>)
    requires
        call_ensures(Wallet::denomination_info, (wallet,), text),
        strictly_ascending(ds),
        forall|d: u64| #[trigger] ds.contains(d) <==> listed(wallet@, d).len() > 0,
    ensures
        text@ == counts_text(ds, stock(wallet@)),
{
    assert(ds.to_set() =~= stock(wallet@).dom()) by {
        assert forall|d: u64| #[trigger] ds.to_set().contains(d) <==> stock(
            wallet@,
        ).dom().contains(d) by {
            assert(ds.contains(d) <==> listed(wallet@, d).len() > 0);
        }
    }
    lemma_ascending_is(ds);
}

/// The balance is what all the notes are worth, unless that is more than a `u64` holds.
pub proof fn law_balance(wallet: &Wallet, sum: Option<u64>)
    requires
        call_ensures(Wallet::checked_total_msats, (wallet,), sum),
    ensures
        sum is Some <==> worth(sizes(wallet@)) <= u64::MAX,
        sum matches Some(sum) ==> sum == worth(sizes(wallet@)),
{
}

/// A wallet that was stored is the same when it is loaded, and there is an empty one where none
/// was.
pub proof fn law_loading(stored: Option<Wallet>, wallet: Wallet)
    requires
        call_ensures(Wallet::load, (stored,), wallet),
    ensures
        stored matches Some(stored) ==> wallet@ == stored@,
        stored is None ==> forall|d: u64| (#[trigger] listed(wallet@, d)).len() == 0,
{
}

} // verus!
