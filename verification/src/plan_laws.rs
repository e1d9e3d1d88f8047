//! What a plan is, said without how it is found.

use crate::plan::{
    bump_works, bumped, count_of, first_bump, lemma_above, lemma_first_bump, lemma_owed_step,
    lemma_taken_from, lemma_used, owed, planned, taken, taken_from,
};
use crate::tiers::{
    ascending, lemma_ascending_exists, lemma_worth_insert, lemma_worth_monotone, worth,
};
use vstd::prelude::*;

verus! {

/// The counts of the denominations from `d` up.
pub open spec fn from_up(counts: Map<u64, nat>, d: u64) -> Map<u64, nat> {
    counts.restrict(Set::new(|e: u64| e >= d))
}

/// The counts of the denominations above `d`.
pub open spec fn above(counts: Map<u64, nat>, d: u64) -> Map<u64, nat> {
    counts.restrict(Set::new(|e: u64| e > d))
}

/// The notes are those that are taken for `amount` out of `have` where large notes go first. They
/// are there and are worth no more than the amount, and where a note is left over, it does not fit
/// beside those that are taken and are no smaller.
pub open spec fn largest_first(
    have: Map<u64, nat>,
    amount: nat,
    notes: Map<u64, nat>,
) -> bool {
    &&& notes.dom().finite()
    &&& forall|d: u64| #[trigger]
        notes.contains_key(d) ==> d > 0 && have.contains_key(d) && 0 < notes[d] <= have[d]
    &&& worth(notes) <= amount
    &&& forall|d: u64| #[trigger]
        have.contains_key(d) && d > 0 && count_of(notes, d) < have[d] ==> worth(from_up(notes, d))
            + d > amount
}

/// The larger notes stay, one more of `d` is added and the smaller ones are dropped.
pub open spec fn topped_up(notes: Map<u64, nat>, d: u64) -> Map<u64, nat> {
    above(notes, d).insert(d, count_of(notes, d) + 1)
}

/// There is one more note of `d`, it is worth more than `notes` fall short of the amount, and
/// with it instead of the smaller ones the amount is exceeded by one sat at most.
pub open spec fn tops_up(
    have: Map<u64, nat>,
    amount: nat,
    notes: Map<u64, nat>,
    d: u64,
) -> bool {
    &&& have.contains_key(d)
    &&& count_of(notes, d) < have[d]
    &&& d > amount - worth(notes)
    &&& worth(topped_up(notes, d)) <= amount + 1000
}

proof fn lemma_fits(o: nat, d: nat, c: nat, have: nat)
    requires
        d > 0,
        d * c <= o,
        c <= have,
        c < have ==> d * c + d > o,
    ensures
        c == (if o / d <= have {
            o / d
        } else {
            have
        }),
{
    let q = o / d;
    assert(d * q <= o < d * q + d) by (nonlinear_arith)
        requires
            d > 0,
            q == o / d,
    ;
    assert(c <= q) by (nonlinear_arith)
        requires
            d * c <= o,
            o < d * q + d,
            d > 0,
    ;
    if c < have {
        assert(c >= q) by (nonlinear_arith)
            requires
                d * c + d > o,
                d * q <= o,
                d > 0,
        ;
    }
}

proof fn lemma_finite_part(counts: Map<u64, nat>, s: Set<u64>)
    requires
        counts.dom().finite(),
    ensures
        counts.restrict(s).dom().finite(),
        worth(counts.restrict(s)) <= worth(counts),
{
    assert(counts.restrict(s).dom() =~= counts.dom().intersect(s));
    lemma_worth_monotone(counts.restrict(s), counts);
}

proof fn lemma_from_up(counts: Map<u64, nat>, d: u64)
    requires
        counts.dom().finite(),
    ensures
        from_up(counts, d).dom().finite(),
        above(counts, d).dom().finite(),
        worth(from_up(counts, d)) <= worth(counts),
        worth(from_up(counts, d)) == worth(above(counts, d)) + d * count_of(counts, d),
{
    let up = from_up(counts, d);
    let more = above(counts, d);
    lemma_finite_part(counts, Set::new(|e: u64| e >= d));
    lemma_finite_part(counts, Set::new(|e: u64| e > d));
    lemma_worth_insert(more, d, count_of(counts, d));
    if counts.contains_key(d) {
        assert(up =~= more.insert(d, counts[d]));
    } else {
        assert(up =~= more);
        assert(d * 0 == 0) by (nonlinear_arith);
    }
}

/// What is taken largest first is the same from `ds[i]` up.
#[verifier::rlimit(30)]
proof fn lemma_same_from(have: Map<u64, nat>, amount: nat, notes: Map<u64, nat>, i: int)
    requires
        have.dom().finite(),
        largest_first(have, amount, notes),
        0 <= i <= ascending(have.dom()).len(),
    ensures
        ({
            let ds = ascending(have.dom());
            forall|j: int|
                i <= j < ds.len() ==> count_of(notes, #[trigger] ds[j]) == taken(
                    ds,
                    have,
                    amount,
                    j,
                )
        }),
    decreases ascending(have.dom()).len() - i,
{
    let ds = ascending(have.dom());
    lemma_ascending_exists(have.dom());
    if i < ds.len() {
        lemma_same_from(have, amount, notes, i + 1);
        let d = ds[i];
        assert(ds.to_set().contains(d));
        assert(have.contains_key(d));
        let all = taken_from(ds, have, amount, 0);
        lemma_taken_from(ds, have, amount, 0);
        lemma_taken_from(ds, have, amount, i + 1);
        lemma_above(ds, have, amount, i);
        assert(above(notes, d) =~= taken_from(ds, have, amount, i + 1)) by {
            let rest = taken_from(ds, have, amount, i + 1);
            assert forall|e: u64| #[trigger] above(notes, d).contains_key(e) implies
                rest.contains_key(e) && rest[e] == notes[e] by {
                assert(notes.contains_key(e));
                assert(ds.to_set().contains(e));
                let j = choose|j: int| 0 <= j < ds.len() && ds[j] == e;
                assert(j > i);
                lemma_used(ds, have, amount, j);
                assert(count_of(notes, ds[j]) == taken(ds, have, amount, j));
                assert(all.contains_key(e));
                assert(all.restrict(Set::new(|e: u64| e > ds[i])).contains_key(e));
            }
            assert forall|e: u64| #[trigger] rest.contains_key(e) implies above(
                notes,
                d,
            ).contains_key(e) by {
                let j = choose|j: int|
                    i + 1 <= j < ds.len() && #[trigger] ds[j] == e && rest[e] == taken(
                        ds,
                        have,
                        amount,
                        j,
                    ) && 0 < taken(ds, have, amount, j) <= have[e];
                assert(count_of(notes, ds[j]) == taken(ds, have, amount, j));
            }
        }
        lemma_from_up(notes, d);
        let o = owed(ds, have, amount, i + 1);
        let c = count_of(notes, d);
        if d > 0 {
            assert(d * c <= o);
            assert(c < have[d] ==> d * c + d > o);
            lemma_fits(o, d as nat, c, have[d]);
        }
    }
}

/// What is taken largest first is what `planned` starts from.
proof fn lemma_same(have: Map<u64, nat>, amount: nat, notes: Map<u64, nat>)
    requires
        have.dom().finite(),
        largest_first(have, amount, notes),
    ensures
        ({
            let ds = ascending(have.dom());
            &&& notes == taken_from(ds, have, amount, 0)
            &&& owed(ds, have, amount, 0) == amount - worth(notes)
        }),
{
    let ds = ascending(have.dom());
    lemma_ascending_exists(have.dom());
    lemma_same_from(have, amount, notes, 0);
    let all = taken_from(ds, have, amount, 0);
    lemma_taken_from(ds, have, amount, 0);
    assert forall|e: u64| #[trigger] notes.contains_key(e) implies all.contains_key(e) && all[e]
        == notes[e] by {
        assert(ds.to_set().contains(e));
        let j = choose|j: int| 0 <= j < ds.len() && ds[j] == e;
        lemma_used(ds, have, amount, j);
        assert(count_of(notes, ds[j]) == taken(ds, have, amount, j));
    }
    assert forall|e: u64| #[trigger] all.contains_key(e) implies notes.contains_key(e) by {
        let j = choose|j: int|
            0 <= j < ds.len() && #[trigger] ds[j] == e && all[e] == taken(ds, have, amount, j) && 0
                < taken(ds, have, amount, j) <= have[e];
        assert(count_of(notes, ds[j]) == taken(ds, have, amount, j));
    }
    assert(notes =~= all);
}

/// Whatever there is, there are notes that are taken largest first, and only one choice of them.
pub proof fn law_largest_first_is_one(have: Map<u64, nat>, amount: nat)
    requires
        have.dom().finite(),
    ensures
        exists|notes: Map<u64, nat>| #[trigger] largest_first(have, amount, notes),
        forall|a: Map<u64, nat>, b: Map<u64, nat>| #[trigger]
            largest_first(have, amount, a) && #[trigger] largest_first(have, amount, b) ==> a == b,
{
    let ds = ascending(have.dom());
    lemma_ascending_exists(have.dom());
    let all = taken_from(ds, have, amount, 0);
    lemma_taken_from(ds, have, amount, 0);
    assert forall|d: u64| #[trigger] all.contains_key(d) implies d > 0 && have.contains_key(d) && 0
        < all[d] <= have[d] by {
        let j = choose|j: int|
            0 <= j < ds.len() && #[trigger] ds[j] == d && all[d] == taken(ds, have, amount, j) && 0
                < taken(ds, have, amount, j) <= have[d];
        assert(ds.to_set().contains(d));
    }
    assert forall|d: u64| #[trigger] have.contains_key(d) && d > 0 && count_of(all, d)
        < have[d] implies worth(from_up(all, d)) + d > amount by {
        assert(ds.to_set().contains(d));
        let j = choose|j: int| 0 <= j < ds.len() && ds[j] == d;
        lemma_used(ds, have, amount, j);
        lemma_owed_step(ds, have, amount, j);
        lemma_above(ds, have, amount, j);
        lemma_taken_from(ds, have, amount, j);
        assert(from_up(all, d) == taken_from(ds, have, amount, j));
    }
    assert(largest_first(have, amount, all));
    assert forall|a: Map<u64, nat>, b: Map<u64, nat>| #[trigger]
        largest_first(have, amount, a) && #[trigger] largest_first(have, amount, b) implies a
        == b by {
        lemma_same(have, amount, a);
        lemma_same(have, amount, b);
    }
}

/// Where the notes that are taken largest first fall short of the amount by one sat at most, they
/// are the plan, however many they are.
pub proof fn law_plan_takes_largest_first(
    have: Map<u64, nat>,
    amount: nat,
    notes: Map<u64, nat>,
)
    requires
        have.dom().finite(),
        largest_first(have, amount, notes),
        amount <= worth(notes) + 1000,
    ensures
        planned(have, amount) == Some(notes),
{
    lemma_same(have, amount, notes);
}

proof fn lemma_bump_tops_up(have: Map<u64, nat>, amount: nat, notes: Map<u64, nat>, i: int)
    requires
        have.dom().finite(),
        largest_first(have, amount, notes),
        0 <= i < ascending(have.dom()).len(),
    ensures
        ({
            let ds = ascending(have.dom());
            &&& topped_up(notes, ds[i]) == bumped(ds, have, amount, i)
            &&& tops_up(have, amount, notes, ds[i]) <==> bump_works(ds, have, amount, i)
        }),
{
    let ds = ascending(have.dom());
    lemma_ascending_exists(have.dom());
    lemma_same(have, amount, notes);
    lemma_same_from(have, amount, notes, 0);
    assert(ds.to_set().contains(ds[i]));
    assert(have.contains_key(ds[i]));
    assert(count_of(notes, ds[i]) == taken(ds, have, amount, i));
    lemma_above(ds, have, amount, i);
    assert(above(notes, ds[i]) == taken_from(ds, have, amount, i + 1));
}

/// Where they fall short by more, and one more note of some denomination instead of the smaller
/// ones comes out right, the plan is that with the smallest such denomination.
pub proof fn law_plan_tops_up(have: Map<u64, nat>, amount: nat, notes: Map<u64, nat>, d: u64)
    requires
        have.dom().finite(),
        largest_first(have, amount, notes),
        amount > worth(notes) + 1000,
        tops_up(have, amount, notes, d),
        forall|e: u64| #[trigger] tops_up(have, amount, notes, e) ==> d <= e,
    ensures
        planned(have, amount) == Some(topped_up(notes, d)),
{
    let ds = ascending(have.dom());
    lemma_ascending_exists(have.dom());
    lemma_same(have, amount, notes);
    assert(ds.to_set().contains(d));
    let i = choose|i: int| 0 <= i < ds.len() && ds[i] == d;
    lemma_bump_tops_up(have, amount, notes, i);
    assert(bump_works(ds, have, amount, i));
    assert forall|k: int| #[trigger] first_bump(ds, have, amount, k) implies k == i by {
        lemma_bump_tops_up(have, amount, notes, k);
        assert(tops_up(have, amount, notes, ds[k]));
        if k < i {
            assert(ds[k] < ds[i]);
        }
        if i < k {
            assert(!bump_works(ds, have, amount, i));
        }
    }
    lemma_first_bump(ds, have, amount, i);
    let k = choose|k: int| first_bump(ds, have, amount, k);
    assert(first_bump(ds, have, amount, k));
}

/// There is no plan only where the notes that are taken largest first fall short by more than one
/// sat and no other note comes out right instead of the smaller ones.
pub proof fn law_no_plan(have: Map<u64, nat>, amount: nat, notes: Map<u64, nat>)
    requires
        have.dom().finite(),
        largest_first(have, amount, notes),
    ensures
        planned(have, amount) is None <==> amount > worth(notes) + 1000 && forall|d: u64|
            !#[trigger] tops_up(have, amount, notes, d),
{
    let ds = ascending(have.dom());
    lemma_ascending_exists(have.dom());
    lemma_same(have, amount, notes);
    if exists|i: int| bump_works(ds, have, amount, i) {
        let i = choose|i: int| bump_works(ds, have, amount, i);
        lemma_bump_tops_up(have, amount, notes, i);
        assert(tops_up(have, amount, notes, ds[i]));
    }
    if exists|d: u64| #[trigger] tops_up(have, amount, notes, d) {
        let d = choose|d: u64| #[trigger] tops_up(have, amount, notes, d);
        assert(ds.to_set().contains(d));
        let i = choose|i: int| 0 <= i < ds.len() && ds[i] == d;
        lemma_bump_tops_up(have, amount, notes, i);
        assert(bump_works(ds, have, amount, i));
    }
}

} // verus!
