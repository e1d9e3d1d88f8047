//! What is in the wallet, what leaves it and what is said of it.

use crate::plan::count_of;
use crate::storage::{
    change_gap, counts_text, drawn, low_part, popped, share_note, share_note_under, stock, without,
};
use crate::text::decimal;
use crate::tiers::{
    ascending, lemma_ascending_exists, lemma_total_remove, lemma_worth_insert, listed,
    strictly_ascending, total, worth,
};
use vstd::prelude::*;

verus! {

/// No notes are worth nothing, and `n` notes of `d` msats add `n` times `d` to what others are
/// worth.
pub proof fn law_worth(counts: Map<u64, nat>, d: u64, n: nat)
    requires
        counts.dom().finite(),
        !counts.contains_key(d),
    ensures
        worth(Map::empty()) == 0,
        worth(counts.insert(d, n)) == worth(counts) + d * n,
{
    lemma_worth_insert(counts, d, n);
    let none = Map::<u64, nat>::empty();
    assert(none.map_entries(|d: u64, n: nat| (d * n) as nat) =~= Map::empty());
}

/// What there is of each denomination: as many as are listed, and none is left out.
pub proof fn law_stock(notes: Map<u64, Seq<Seq<char>>>, d: u64)
    ensures
        count_of(stock(notes), d) == listed(notes, d).len(),
        stock(notes).contains_key(d) <==> listed(notes, d).len() > 0,
{
}

/// The counts of the denominations below `d`.
pub open spec fn below(counts: Map<u64, nat>, d: u64) -> Map<u64, nat> {
    counts.restrict(Set::new(|e: u64| e < d))
}

proof fn lemma_drawn_places(
    notes: Map<u64, Seq<Seq<char>>>,
    plan: Map<u64, nat>,
    ds: Seq<u64>,
    m: int,
)
    requires
        strictly_ascending(ds),
        ds.to_set() == plan.dom(),
        plan.dom().finite(),
        forall|d: u64| #[trigger]
            plan.contains_key(d) ==> notes.contains_key(d) && plan[d] <= notes[d].len(),
        0 <= m <= ds.len(),
    ensures
        drawn(notes, plan, ds.take(m)).len() == total(plan.restrict(ds.take(m).to_set())),
        plan.restrict(ds.take(m).to_set()).dom().finite(),
        m < ds.len() ==> plan.restrict(ds.take(m).to_set()) == below(plan, ds[m]),
        forall|i: int, j: int|
            #![trigger notes[ds[i]][notes[ds[i]].len() - 1 - j]]
            0 <= i < m && 0 <= j < plan[ds[i]] ==> drawn(notes, plan, ds.take(m))[total(
                below(plan, ds[i]),
            ) + j] == notes[ds[i]][notes[ds[i]].len() - 1 - j],
        forall|i: int|
            0 <= i < m ==> total(below(plan, #[trigger] ds[i])) + plan[ds[i]] <= drawn(
                notes,
                plan,
                ds.take(m),
            ).len(),
    decreases m,
{
    let front = ds.take(m);
    let part = plan.restrict(front.to_set());
    assert(part.dom() =~= plan.dom().intersect(front.to_set()));
    if m < ds.len() {
        assert(part =~= below(plan, ds[m])) by {
            assert forall|e: u64| #[trigger] plan.contains_key(e) implies (front.to_set().contains(
                e,
            ) <==> e < ds[m]) by {
                assert(ds.to_set().contains(e));
                let i = choose|i: int| 0 <= i < ds.len() && ds[i] == e;
                if i < m {
                    assert(front[i] == e);
                } else if front.to_set().contains(e) {
                    let k = choose|k: int| 0 <= k < front.len() && front[k] == e;
                    assert(ds[k] == e);
                }
            }
        }
    }
    if m == 0 {
        assert(front =~= Seq::empty());
        assert(part =~= Map::empty());
    } else {
        lemma_drawn_places(notes, plan, ds, m - 1);
        let before = ds.take(m - 1);
        let d = ds[m - 1];
        assert(front.drop_last() =~= before);
        assert(front.last() == d);
        assert(ds.to_set().contains(d));
        assert(plan.contains_key(d));
        assert(front[m - 1] == d);
        assert(part.contains_key(d));
        let less = plan.restrict(before.to_set());
        assert(part.remove(d) =~= less) by {
            assert forall|e: u64| #[trigger] front.to_set().contains(e) && e != d implies
                before.to_set().contains(e) by {
                let k = choose|k: int| 0 <= k < front.len() && front[k] == e;
                assert(before[k] == e);
            }
            assert forall|e: u64| #[trigger] before.to_set().contains(e) implies
                front.to_set().contains(e) && e != d by {
                let k = choose|k: int| 0 <= k < before.len() && before[k] == e;
                assert(front[k] == e);
                assert(ds[k] < ds[m - 1]);
            }
        }
        lemma_total_remove(part, d);
        let old_part = drawn(notes, plan, before);
        let new_part = popped(notes[d], plan[d]);
        assert(drawn(notes, plan, front) == old_part + new_part);
        assert(less == below(plan, d));
        assert forall|i: int, j: int|
            #![trigger notes[ds[i]][notes[ds[i]].len() - 1 - j]]
            0 <= i < m && 0 <= j < plan[ds[i]] implies drawn(notes, plan, front)[total(
            below(plan, ds[i]),
        ) + j] == notes[ds[i]][notes[ds[i]].len() - 1 - j] by {
            if i < m - 1 {
                assert(total(below(plan, ds[i])) + plan[ds[i]] <= old_part.len());
                assert(old_part[total(below(plan, ds[i])) + j]
                    == notes[ds[i]][notes[ds[i]].len() - 1 - j]);
            } else {
                assert(new_part[j] == notes[d][notes[d].len() - 1 - j]);
            }
        }
    }
}

/// What a plan takes out of the wallet is just the notes that are then no longer listed: of each
/// denomination the last ones, the last one first, and the smallest denomination first. The others
/// stay in their places.
pub proof fn law_drawn_is_what_leaves(notes: Map<u64, Seq<Seq<char>>>, plan: Map<u64, nat>)
    requires
        plan.dom().finite(),
        forall|d: u64| #[trigger]
            plan.contains_key(d) ==> notes.contains_key(d) && plan[d] <= notes[d].len(),
    ensures
        ({
            let out = drawn(notes, plan, ascending(plan.dom()));
            &&& out.len() == total(plan)
            &&& forall|d: u64, j: int|
                #![trigger notes[d][notes[d].len() - 1 - j]]
                plan.contains_key(d) && 0 <= j < plan[d] ==> out[total(below(plan, d)) + j]
                    == notes[d][notes[d].len() - 1 - j]
        }),
        forall|d: u64| #[trigger]
            without(notes, plan).contains_key(d) <==> notes.contains_key(d),
        forall|d: u64|
            notes.contains_key(d) ==> #[trigger] without(notes, plan)[d].len() + count_of(plan, d)
                == notes[d].len(),
        forall|d: u64, i: int|
            #![trigger without(notes, plan)[d][i]]
            notes.contains_key(d) && 0 <= i < notes[d].len() - count_of(plan, d) ==> without(
                notes,
                plan,
            )[d][i] == notes[d][i],
{
    let ds = ascending(plan.dom());
    lemma_ascending_exists(plan.dom());
    let m = ds.len() as int;
    lemma_drawn_places(notes, plan, ds, m);
    assert(ds.take(m) =~= ds);
    assert(plan.restrict(ds.to_set()) =~= plan);
    let out = drawn(notes, plan, ds);
    assert forall|d: u64, j: int|
        #![trigger notes[d][notes[d].len() - 1 - j]]
        plan.contains_key(d) && 0 <= j < plan[d] implies out[total(below(plan, d)) + j]
        == notes[d][notes[d].len() - 1 - j] by {
        assert(ds.to_set().contains(d));
        let i = choose|i: int| 0 <= i < ds.len() && ds[i] == d;
        assert(notes[ds[i]][notes[ds[i]].len() - 1 - j] == notes[d][notes[d].len() - 1 - j]);
    }
}

/// Notes are known exactly if one of them is listed in the wallet under its own denomination.
pub proof fn law_known_notes(
    notes: Map<u64, Seq<Seq<char>>>,
    given: Map<u64, Seq<Seq<char>>>,
)
    ensures
        share_note(notes, given) <==> exists|d: u64, i: int, j: int|
            #![trigger notes[d][i], given[d][j]]
            notes.contains_key(d) && given.contains_key(d) && 0 <= i < notes[d].len() && 0 <= j
                < given[d].len() && notes[d][i] == given[d][j],
{
    if share_note(notes, given) {
        let d = choose|d: u64| share_note_under(notes, given, d);
        let note = choose|note: Seq<char>| #[trigger]
            notes[d].contains(note) && given[d].contains(note);
        let i = choose|i: int| 0 <= i < notes[d].len() && notes[d][i] == note;
        let j = choose|j: int| 0 <= j < given[d].len() && given[d][j] == note;
        assert(notes[d][i] == given[d][j]);
    }
    if exists|d: u64, i: int, j: int|
        #![trigger notes[d][i], given[d][j]]
        notes.contains_key(d) && given.contains_key(d) && 0 <= i < notes[d].len() && 0 <= j
            < given[d].len() && notes[d][i] == given[d][j] {
        let (d, i, j) = choose|d: u64, i: int, j: int|
            #![trigger notes[d][i], given[d][j]]
            notes.contains_key(d) && given.contains_key(d) && 0 <= i < notes[d].len() && 0 <= j
                < given[d].len() && notes[d][i] == given[d][j];
        assert(notes[d].contains(notes[d][i]) && given[d].contains(notes[d][i]));
        assert(share_note_under(notes, given, d));
    }
}

/// How many of the denominations are smaller than `d`.
pub open spec fn smaller_than(keys: Set<u64>, d: u64) -> nat {
    keys.filter(|e: u64| e < d).len()
}

/// The number of smaller denominations up to the place `r`.
proof fn lemma_rank(ds: Seq<u64>, d: u64, r: int)
    requires
        strictly_ascending(ds),
        0 <= r <= ds.len(),
        r > 0 ==> ds[r - 1] < d,
        r < ds.len() ==> ds[r] >= d,
    ensures
        smaller_than(ds.to_set(), d) == r,
{
    let front = ds.take(r);
    assert(ds.to_set().filter(|e: u64| e < d) =~= front.to_set()) by {
        assert forall|e: u64| #[trigger] ds.to_set().contains(e) && e < d implies
            front.to_set().contains(e) by {
            let i = choose|i: int| 0 <= i < ds.len() && ds[i] == e;
            if i >= r {
                assert(ds[r] <= ds[i]);
            }
            assert(front[i] == e);
        }
        assert forall|e: u64| #[trigger] front.to_set().contains(e) implies ds.to_set().contains(e)
            && e < d by {
            let i = choose|i: int| 0 <= i < front.len() && front[i] == e;
            assert(ds[i] == e);
            assert(ds[i] <= ds[r - 1]);
        }
    }
    assert(front.no_duplicates());
    front.unique_seq_to_set();
}

proof fn lemma_rank_at(ds: Seq<u64>, d: u64, k: int, r: int)
    requires
        strictly_ascending(ds),
        0 <= k < ds.len(),
        0 <= r <= ds.len(),
        forall|i: int| 0 <= i < r ==> #[trigger] ds[i] < d,
    ensures
        d <= ds[k] <==> smaller_than(ds.to_set(), d) <= k,
    decreases ds.len() - r,
{
    if r < ds.len() && ds[r] < d {
        lemma_rank_at(ds, d, k, r + 1);
    } else {
        lemma_rank(ds, d, r);
        if k < r {
            assert(ds[k] < d);
        } else {
            assert(ds[r] <= ds[k]);
        }
    }
}

/// Change is short exactly if at least two denominations are there and another one has run out
/// that is among the lowest four fifths: fewer of those that are there are smaller than it than
/// their number less a fifth of it, rounded down.
pub proof fn law_change_gap(notes: Map<u64, Seq<Seq<char>>>)
    requires
        notes.dom().finite(),
    ensures
        ({
            let n = stock(notes).dom().len();
            change_gap(notes) <==> n >= 2 && exists|d: u64| #[trigger]
                notes.contains_key(d) && notes[d].len() == 0 && smaller_than(stock(notes).dom(), d)
                    < n - n / 5
        }),
{
    let keys = stock(notes).dom();
    assert(keys.subset_of(notes.dom()));
    vstd::set_lib::lemma_len_subset(keys, notes.dom());
    let ds = ascending(keys);
    lemma_ascending_exists(keys);
    let n = ds.len();
    if n >= 2 {
        let k = low_part(n) - 1;
        assert forall|d: u64| #[trigger] notes.contains_key(d) implies (d <= ds[k]
            <==> smaller_than(keys, d) < n - n / 5) by {
            lemma_rank_at(ds, d, k, 0);
        }
    }
}

/// How many notes there are is said for each denomination in its turn, with a comma and a space
/// between two.
pub proof fn law_counts_are_listed(a: Seq<u64>, b: Seq<u64>, d: u64, have: Map<u64, nat>)
    ensures
        counts_text(Seq::empty(), have) == Seq::<char>::empty(),
        counts_text(seq![d], have) == decimal(d as nat) + " msat x"@ + decimal(have[d]),
        a.len() > 0 && b.len() > 0 ==> counts_text(a + b, have) == counts_text(a, have) + ", "@
            + counts_text(b, have),
    decreases b.len(),
{
    let one = seq![d];
    assert(one.drop_last() =~= Seq::empty());
    reveal_with_fuel(counts_text, 2);
    let none = Seq::<char>::empty();
    assert(none + none + decimal(d as nat) + " msat x"@ + decimal(have[d]) =~= decimal(d as nat)
        + " msat x"@ + decimal(have[d]));
    if a.len() > 0 && b.len() > 0 {
        let all = a + b;
        let e = b.last();
        let said = decimal(e as nat) + " msat x"@ + decimal(have[e]);
        assert(all.drop_last() =~= a + b.drop_last());
        assert(all.last() == e);
        lemma_counts_step(all, have);
        lemma_counts_step(b, have);
        if b.len() == 1 {
            assert(a + b.drop_last() =~= a);
            assert(b.drop_last() =~= Seq::empty());
            assert(counts_text(b, have) =~= said);
            assert(counts_text(all, have) =~= counts_text(a, have) + ", "@ + said);
        } else {
            law_counts_are_listed(a, b.drop_last(), d, have);
            let x = counts_text(a, have);
            let y = counts_text(b.drop_last(), have);
            assert(counts_text(all, have) =~= x + ", "@ + y + ", "@ + said);
            assert(counts_text(b, have) =~= y + ", "@ + said);
            assert(counts_text(all, have) =~= x + ", "@ + counts_text(b, have));
        }
    }
}

proof fn lemma_counts_step(ds: Seq<u64>, have: Map<u64, nat>)
    requires
        ds.len() > 0,
    ensures
        counts_text(ds, have) == counts_text(ds.drop_last(), have) + (if ds.len() == 1 {
            Seq::empty()
        } else {
            ", "@
        }) + (decimal(ds.last() as nat) + " msat x"@ + decimal(have[ds.last()])),
{
    let before = counts_text(ds.drop_last(), have);
    let separator = if ds.len() == 1 {
        Seq::empty()
    } else {
        ", "@
    };
    let x = decimal(ds.last() as nat);
    let y = decimal(have[ds.last()]);
    assert(before + separator + x + " msat x"@ + y =~= before + separator + (x + " msat x"@ + y));
}

} // verus!
