//! Choosing which notes to hand out for an amount.

use crate::tiers::{
    ascending, lemma_ascending_exists, lemma_take_contains, lemma_worth_insert,
    lemma_worth_monotone, lemma_worth_nonzero, strictly_ascending, worth,
};
use vstd::prelude::*;

verus! {

/// How far, in msats, what is handed out may be off the amount asked for: one sat.
pub const TOLERANCE: u64 = 1000;

/// How many notes of `d` msats are taken while `owed` is to be paid and there are `have`: as
/// many as fit. Notes that are worth nothing pay nothing and are not taken.
pub open spec fn fitting(owed: nat, d: u64, have: nat) -> nat {
    if d == 0 {
        0
    } else if owed / (d as nat) <= have {
        owed / (d as nat)
    } else {
        have
    }
}

/// What is left to be paid of `amount` once the denominations `ds[i]` and up have been taken,
/// the largest first and as many of each as fit.
pub open spec fn owed(ds: Seq<u64>, have: Map<u64, nat>, amount: nat, i: int) -> nat
    decreases ds.len() - i,
{
    if i >= ds.len() {
        amount
    } else {
        let before = owed(ds, have, amount, i + 1);
        (before - ds[i] * fitting(before, ds[i], have[ds[i]])) as nat
    }
}

/// How many notes of `ds[i]` are taken that way.
pub open spec fn taken(ds: Seq<u64>, have: Map<u64, nat>, amount: nat, i: int) -> nat {
    fitting(owed(ds, have, amount, i + 1), ds[i], have[ds[i]])
}

/// How many are taken that way of each of `ds[i]` and up, as far as any are.
pub open spec fn taken_from(ds: Seq<u64>, have: Map<u64, nat>, amount: nat, i: int) -> Map<
    u64,
    nat,
>
    decreases ds.len() - i,
{
    if i >= ds.len() {
        Map::empty()
    } else if taken(ds, have, amount, i) > 0 {
        taken_from(ds, have, amount, i + 1).insert(ds[i], taken(ds, have, amount, i))
    } else {
        taken_from(ds, have, amount, i + 1)
    }
}

/// One more note of `ds[i]` than fits, and nothing below it.
pub open spec fn bumped(ds: Seq<u64>, have: Map<u64, nat>, amount: nat, i: int) -> Map<u64, nat> {
    taken_from(ds, have, amount, i + 1).insert(ds[i], taken(ds, have, amount, i) + 1)
}

/// There is one more note of `ds[i]`, it covers what is left, and paying with it overshoots the
/// amount by no more than the tolerance.
pub open spec fn bump_works(ds: Seq<u64>, have: Map<u64, nat>, amount: nat, i: int) -> bool {
    &&& 0 <= i < ds.len()
    &&& have[ds[i]] > taken(ds, have, amount, i)
    &&& ds[i] > owed(ds, have, amount, 0)
    &&& worth(bumped(ds, have, amount, i)) <= amount + TOLERANCE
}

/// `ds[i]` is the smallest denomination for which `bump_works`.
pub open spec fn first_bump(ds: Seq<u64>, have: Map<u64, nat>, amount: nat, i: int) -> bool {
    &&& bump_works(ds, have, amount, i)
    &&& forall|j: int| 0 <= j < i ==> !#[trigger] bump_works(ds, have, amount, j)
}

/// How many notes of each denomination to hand out for `amount` if there are `have`.
///
/// Notes are taken largest first while they fit. If that leaves no more than the tolerance, it
/// is the plan. Otherwise one more note of the smallest denomination that keeps the excess
/// within the tolerance is added and all below it is dropped. Where there is none, there is no
/// plan.
pub open spec fn planned(have: Map<u64, nat>, amount: nat) -> Option<Map<u64, nat>> {
    let ds = ascending(have.dom());
    if owed(ds, have, amount, 0) <= TOLERANCE {
        Some(taken_from(ds, have, amount, 0))
    } else if exists|i: int| bump_works(ds, have, amount, i) {
        Some(bumped(ds, have, amount, choose|i: int| first_bump(ds, have, amount, i)))
    } else {
        None
    }
}

/// One step of taking notes: what it takes off what is owed, and that it stops only where the
/// next note would not fit or there is none.
pub proof fn lemma_owed_step(ds: Seq<u64>, have: Map<u64, nat>, amount: nat, i: int)
    requires
        0 <= i < ds.len(),
    ensures
        ds[i] * taken(ds, have, amount, i) <= owed(ds, have, amount, i + 1),
        owed(ds, have, amount, i) == owed(ds, have, amount, i + 1) - ds[i] * taken(
            ds,
            have,
            amount,
            i,
        ),
        taken(ds, have, amount, i) <= have[ds[i]],
        ds[i] > 0 && taken(ds, have, amount, i) < have[ds[i]] ==> owed(ds, have, amount, i) < ds[i],
{
    let before = owed(ds, have, amount, i + 1);
    let d = ds[i] as nat;
    let n = taken(ds, have, amount, i);
    if d > 0 {
        let q = before / d;
        assert(d * q <= before && before - d * q < d) by (nonlinear_arith)
            requires
                d > 0,
                q == before / d,
        ;
        assert(d * n <= d * q) by (nonlinear_arith)
            requires
                n <= q,
        ;
    }
}

/// What is taken and what is owed make up the amount, and nothing is taken that is not there.
pub proof fn lemma_taken_from(ds: Seq<u64>, have: Map<u64, nat>, amount: nat, i: int)
    requires
        strictly_ascending(ds),
        0 <= i <= ds.len(),
    ensures
        taken_from(ds, have, amount, i).dom().finite(),
        worth(taken_from(ds, have, amount, i)) + owed(ds, have, amount, i) == amount,
        forall|d: u64| #[trigger]
            taken_from(ds, have, amount, i).contains_key(d) ==> exists|j: int|
                i <= j < ds.len() && #[trigger] ds[j] == d && taken_from(ds, have, amount, i)[d]
                    == taken(ds, have, amount, j) && 0 < taken(ds, have, amount, j) <= have[d],
    decreases ds.len() - i,
{
    let plan = taken_from(ds, have, amount, i);
    if i < ds.len() {
        let rest = taken_from(ds, have, amount, i + 1);
        lemma_taken_from(ds, have, amount, i + 1);
        lemma_owed_step(ds, have, amount, i);
        assert(!rest.contains_key(ds[i]));
        lemma_worth_insert(rest, ds[i], taken(ds, have, amount, i));
        assert(ds[i] * 0 == 0) by (nonlinear_arith);
        assert forall|d: u64| #[trigger] plan.contains_key(d) implies exists|j: int|
            i <= j < ds.len() && #[trigger] ds[j] == d && plan[d] == taken(ds, have, amount, j) && 0
                < taken(ds, have, amount, j) <= have[d] by {
            if d == ds[i] {
                assert(ds[i] == d);
            } else {
                assert(rest.contains_key(d));
            }
        }
    } else {
        assert(worth(plan) == 0);
    }
}

/// What is taken of `ds[i]` is what all that is taken lists under it.
pub proof fn lemma_used(ds: Seq<u64>, have: Map<u64, nat>, amount: nat, i: int)
    requires
        strictly_ascending(ds),
        0 <= i < ds.len(),
    ensures
        taken(ds, have, amount, i) == (if taken_from(ds, have, amount, 0).contains_key(ds[i]) {
            taken_from(ds, have, amount, 0)[ds[i]]
        } else {
            0
        }),
{
    lemma_above(ds, have, amount, i);
    lemma_taken_from(ds, have, amount, i + 1);
    let part = taken_from(ds, have, amount, 0).restrict(Set::new(|d: u64| d >= ds[i]));
    assert(part == taken_from(ds, have, amount, i));
    assert(part.contains_key(ds[i]) == taken_from(ds, have, amount, 0).contains_key(ds[i]));
    if part.contains_key(ds[i]) {
        assert(part[ds[i]] == taken_from(ds, have, amount, 0)[ds[i]]);
    }
    assert(!taken_from(ds, have, amount, i + 1).contains_key(ds[i]));
}

/// Of all that is taken, the part above `ds[i]` is what is taken before it.
pub proof fn lemma_above(ds: Seq<u64>, have: Map<u64, nat>, amount: nat, i: int)
    requires
        strictly_ascending(ds),
        0 <= i < ds.len(),
    ensures
        taken_from(ds, have, amount, 0).restrict(Set::new(|d: u64| d > ds[i])) == taken_from(
            ds,
            have,
            amount,
            i + 1,
        ),
        taken_from(ds, have, amount, 0).restrict(Set::new(|d: u64| d >= ds[i])) == taken_from(
            ds,
            have,
            amount,
            i,
        ),
{
    lemma_from_part(ds, have, amount, 0, i);
    lemma_from_part(ds, have, amount, 0, i + 1);
    let all = taken_from(ds, have, amount, 0);
    lemma_taken_from(ds, have, amount, 0);
    lemma_taken_from(ds, have, amount, i);
    lemma_taken_from(ds, have, amount, i + 1);
    assert(all.restrict(Set::new(|d: u64| d >= ds[i])) =~= taken_from(ds, have, amount, i));
    assert(all.restrict(Set::new(|d: u64| d > ds[i])) =~= taken_from(ds, have, amount, i + 1));
}

/// Taking more denominations does not change what was taken of the larger ones.
proof fn lemma_from_part(ds: Seq<u64>, have: Map<u64, nat>, amount: nat, i: int, j: int)
    requires
        strictly_ascending(ds),
        0 <= i <= j <= ds.len(),
    ensures
        forall|d: u64| #[trigger]
            taken_from(ds, have, amount, j).contains_key(d) ==> taken_from(
                ds,
                have,
                amount,
                i,
            ).contains_key(d) && taken_from(ds, have, amount, i)[d] == taken_from(
                ds,
                have,
                amount,
                j,
            )[d],
        forall|d: u64| #[trigger]
            taken_from(ds, have, amount, i).contains_key(d) ==> taken_from(
                ds,
                have,
                amount,
                j,
            ).contains_key(d) || exists|k: int| i <= k < j && #[trigger] ds[k] == d,
    decreases j - i,
{
    if i < j {
        lemma_from_part(ds, have, amount, i + 1, j);
        lemma_taken_from(ds, have, amount, i + 1);
        assert(ds[i] == ds[i]);
    }
}

/// What one more note of `ds[i]` makes the plan worth, if there is one more and it is worth
/// anything.
pub proof fn lemma_bumped(ds: Seq<u64>, have: Map<u64, nat>, amount: nat, i: int)
    requires
        strictly_ascending(ds),
        0 <= i < ds.len(),
    ensures
        bumped(ds, have, amount, i).dom().finite(),
        worth(bumped(ds, have, amount, i)) == amount - owed(ds, have, amount, i) + ds[i],
        forall|d: u64| #[trigger]
            bumped(ds, have, amount, i).contains_key(d) ==> ds.contains(d) && d >= ds[i] && 0
                < bumped(ds, have, amount, i)[d] && (d != ds[i] ==> bumped(ds, have, amount, i)[d]
                <= have[d]),
{
    let rest = taken_from(ds, have, amount, i + 1);
    lemma_taken_from(ds, have, amount, i + 1);
    lemma_owed_step(ds, have, amount, i);
    assert(!rest.contains_key(ds[i]));
    let n = taken(ds, have, amount, i);
    lemma_worth_insert(rest, ds[i], n + 1);
    assert(ds[i] * (n + 1) == ds[i] * n + ds[i]) by (nonlinear_arith);
    assert forall|d: u64| #[trigger] bumped(ds, have, amount, i).contains_key(d) implies ds.contains(
        d,
    ) && d >= ds[i] && 0 < bumped(ds, have, amount, i)[d] && (d != ds[i] ==> bumped(
        ds,
        have,
        amount,
        i,
    )[d] <= have[d]) by {
        if d != ds[i] {
            assert(rest.contains_key(d));
        }
    }
}

/// If one more note works for any denomination, it works for a smallest one.
pub proof fn lemma_first_bump(ds: Seq<u64>, have: Map<u64, nat>, amount: nat, i: int)
    requires
        bump_works(ds, have, amount, i),
    ensures
        exists|j: int| #[trigger] first_bump(ds, have, amount, j),
    decreases i,
{
    if exists|j: int| 0 <= j < i && #[trigger] bump_works(ds, have, amount, j) {
        let j = choose|j: int| 0 <= j < i && #[trigger] bump_works(ds, have, amount, j);
        lemma_first_bump(ds, have, amount, j);
    } else {
        assert(first_bump(ds, have, amount, i));
    }
}

/// A plan hands out only notes that are there, at least one of each denomination that it lists,
/// and is worth the amount up to the tolerance.
pub proof fn law_plan(have: Map<u64, nat>, amount: nat)
    requires
        have.dom().finite(),
    ensures
        planned(have, amount) matches Some(plan) ==> {
            &&& plan.dom().finite()
            &&& forall|d: u64| #[trigger]
                plan.contains_key(d) ==> have.contains_key(d) && 0 < plan[d] <= have[d]
            &&& amount <= worth(plan) + TOLERANCE
            &&& worth(plan) <= amount + TOLERANCE
        },
{
    let ds = ascending(have.dom());
    lemma_ascending_exists(have.dom());
    if owed(ds, have, amount, 0) <= TOLERANCE {
        lemma_taken_from(ds, have, amount, 0);
        assert forall|d: u64| #[trigger]
            taken_from(ds, have, amount, 0).contains_key(d) implies have.contains_key(d) by {
            assert(ds.to_set().contains(d));
        }
    } else if exists|i: int| bump_works(ds, have, amount, i) {
        let w = choose|i: int| bump_works(ds, have, amount, i);
        lemma_first_bump(ds, have, amount, w);
        let i = choose|i: int| first_bump(ds, have, amount, i);
        assert(first_bump(ds, have, amount, i));
        lemma_bumped(ds, have, amount, i);
        lemma_owed_step(ds, have, amount, i);
        assert forall|d: u64| #[trigger] bumped(ds, have, amount, i).contains_key(d) implies
            have.contains_key(d) by {
            assert(ds.to_set().contains(d));
        }
    }
}

/// Every denomination divides the next larger one, as powers of two do.
pub open spec fn chain(ds: Seq<u64>) -> bool {
    &&& forall|i: int| 0 <= i < ds.len() ==> #[trigger] ds[i] > 0
    &&& forall|i: int, j: int|
        0 <= i < ds.len() && j == i + 1 && j < ds.len() ==> #[trigger] ds[j] % #[trigger] ds[i] == 0
}

/// What `counts` are worth of the first `i` denominations.
pub open spec fn worth_below(ds: Seq<u64>, counts: Map<u64, nat>, i: int) -> nat
    decreases i,
{
    if i <= 0 {
        0
    } else {
        worth_below(ds, counts, i - 1) + (ds[i - 1] * count_of(counts, ds[i - 1])) as nat
    }
}

/// How many are counted of `d`.
pub open spec fn count_of(counts: Map<u64, nat>, d: u64) -> nat {
    if counts.contains_key(d) {
        counts[d]
    } else {
        0
    }
}

/// What `counts` are worth where they hold nothing but the first `i` denominations.
pub proof fn lemma_worth_below(ds: Seq<u64>, counts: Map<u64, nat>, i: int)
    requires
        strictly_ascending(ds),
        0 <= i <= ds.len(),
        counts.dom().finite(),
        forall|d: u64| #[trigger] counts.contains_key(d) ==> ds.take(i).contains(d),
    ensures
        worth(counts) == worth_below(ds, counts, i),
    decreases i,
{
    if i == 0 {
        assert(counts =~= Map::empty());
        assert(counts.map_entries(|d: u64, n: nat| (d * n) as nat) =~= Map::empty());
    } else {
        let d = ds[i - 1];
        let rest = counts.remove(d);
        assert forall|e: u64| #[trigger] rest.contains_key(e) implies ds.take(i - 1).contains(
            e,
        ) by {
            assert(counts.contains_key(e));
            lemma_take_contains(ds, i - 1, e);
        }
        lemma_worth_below(ds, rest, i - 1);
        lemma_below_same(ds, rest, counts, i - 1, i - 1);
        lemma_worth_insert(rest, d, count_of(counts, d));
        assert(d * 0 == 0) by (nonlinear_arith);
        assert(d * count_of(counts, d) >= 0) by (nonlinear_arith);
        if counts.contains_key(d) {
            assert(rest.insert(d, counts[d]) =~= counts);
        } else {
            assert(rest =~= counts);
        }
    }
}

proof fn lemma_below_same(ds: Seq<u64>, a: Map<u64, nat>, b: Map<u64, nat>, i: int, k: int)
    requires
        strictly_ascending(ds),
        0 <= k <= i < ds.len(),
        a == b.remove(ds[i]),
    ensures
        worth_below(ds, a, k) == worth_below(ds, b, k),
    decreases k,
{
    if k > 0 {
        lemma_below_same(ds, a, b, i, k - 1);
        assert(ds[k - 1] < ds[i]);
    }
}

proof fn lemma_below_monotone(ds: Seq<u64>, a: Map<u64, nat>, b: Map<u64, nat>, i: int)
    requires
        forall|d: u64| #[trigger] a.contains_key(d) ==> b.contains_key(d) && a[d] <= b[d],
    ensures
        worth_below(ds, a, i) <= worth_below(ds, b, i),
    decreases i,
{
    if i > 0 {
        lemma_below_monotone(ds, a, b, i - 1);
        let d = ds[i - 1];
        let x = count_of(a, d);
        let y = count_of(b, d);
        assert(0 <= d * x <= d * y) by (nonlinear_arith)
            requires
                0 <= x <= y,
                0 <= d,
        ;
    }
}

/// Taking the largest notes first leaves no more than the smaller notes can pay, if `chosen`
/// pays the amount.
proof fn lemma_chain_owed(
    ds: Seq<u64>,
    have: Map<u64, nat>,
    chosen: Map<u64, nat>,
    amount: nat,
    i: int,
) -> (m: int)
    requires
        strictly_ascending(ds),
        chain(ds),
        0 <= i <= ds.len(),
        ds.to_set() == have.dom(),
        forall|d: u64| #[trigger]
            chosen.contains_key(d) ==> have.contains_key(d) && chosen[d] <= have[d],
        worth_below(ds, chosen, ds.len() as int) == amount,
    ensures
        owed(ds, have, amount, i) <= worth_below(ds, have, i),
        i < ds.len() ==> owed(ds, have, amount, i) - worth_below(ds, chosen, i) == m * ds[i],
        i == ds.len() ==> owed(ds, have, amount, i) == worth_below(ds, chosen, i),
    decreases ds.len() - i,
{
    lemma_below_monotone(ds, chosen, have, i);
    if i == ds.len() {
        0
    } else {
        let above = lemma_chain_owed(ds, have, chosen, amount, i + 1);
        lemma_owed_step(ds, have, amount, i);
        let d = ds[i] as int;
        let k = taken(ds, have, amount, i) as int;
        let c = count_of(chosen, ds[i]) as int;
        let h = have[ds[i]] as int;
        assert(ds.to_set().contains(ds[i]));
        assert(d * c >= 0 && d * h >= 0) by (nonlinear_arith)
            requires
                d >= 0,
                c >= 0,
                h >= 0,
        ;
        let r = owed(ds, have, amount, i) as int;
        let u = worth_below(ds, chosen, i) as int;
        let m = if i + 1 < ds.len() {
            let next = ds[i + 1] as int;
            let q = next / d;
            assert(ds[i + 1] % ds[i] == 0);
            assert(next == q * d) by (nonlinear_arith)
                requires
                    next % d == 0,
                    q == next / d,
                    d > 0,
            ;
            let m = above * q - (k - c);
            assert(r - u == m * d) by (nonlinear_arith)
                requires
                    r + d * k - (u + d * c) == above * next,
                    next == q * d,
                    m == above * q - (k - c),
            ;
            m
        } else {
            let m = c - k;
            assert(r - u == m * d) by (nonlinear_arith)
                requires
                    r + d * k - (u + d * c) == 0,
                    m == c - k,
            ;
            m
        };
        if k < h {
            assert(r < d);
            assert(r <= u) by (nonlinear_arith)
                requires
                    0 <= r < d,
                    0 <= u,
                    r - u == m * d,
            ;
        } else {
            assert(k == h);
        }
        m
    }
}

/// Where every denomination divides the next larger one and some of the notes are worth exactly
/// the amount, taking the largest notes first leaves nothing owed.
pub proof fn lemma_nothing_owed(have: Map<u64, nat>, chosen: Map<u64, nat>, amount: nat)
    requires
        have.dom().finite(),
        chosen.dom().finite(),
        chain(ascending(have.dom())),
        forall|d: u64| #[trigger]
            chosen.contains_key(d) ==> have.contains_key(d) && chosen[d] <= have[d],
        worth(chosen) == amount,
    ensures
        owed(ascending(have.dom()), have, amount, 0) == 0,
{
    let ds = ascending(have.dom());
    lemma_ascending_exists(have.dom());
    assert forall|d: u64| #[trigger] chosen.contains_key(d) implies ds.take(
        ds.len() as int,
    ).contains(d) by {
        assert(ds.take(ds.len() as int) =~= ds);
        assert(ds.to_set().contains(d));
    }
    lemma_worth_below(ds, chosen, ds.len() as int);
    lemma_chain_owed(ds, have, chosen, amount, 0);
}

/// Where every denomination divides the next larger one and some of the notes are worth exactly
/// the amount, exactly the amount is handed out.
pub proof fn law_exact_where_possible(have: Map<u64, nat>, chosen: Map<u64, nat>, amount: nat)
    requires
        have.dom().finite(),
        chosen.dom().finite(),
        chain(ascending(have.dom())),
        forall|d: u64| #[trigger]
            chosen.contains_key(d) ==> have.contains_key(d) && chosen[d] <= have[d],
        worth(chosen) == amount,
    ensures
        planned(have, amount) matches Some(plan) && worth(plan) == amount,
{
    lemma_ascending_exists(have.dom());
    lemma_nothing_owed(have, chosen, amount);
    lemma_taken_from(ascending(have.dom()), have, amount, 0);
}

/// What is owed only falls as more denominations are taken.
pub proof fn lemma_owed_falls(ds: Seq<u64>, have: Map<u64, nat>, amount: nat, i: int, j: int)
    requires
        0 <= i <= j <= ds.len(),
    ensures
        owed(ds, have, amount, i) <= owed(ds, have, amount, j),
    decreases j - i,
{
    if i < j {
        lemma_owed_falls(ds, have, amount, i + 1, j);
        lemma_owed_step(ds, have, amount, i);
    }
}

/// As many notes fit into `before` as into `other` if the same number leaves less than one more
/// note, or all notes are taken from both.
proof fn lemma_fits_too(before: nat, other: nat, d: u64, have: nat)
    requires
        d > 0,
        other >= d * fitting(before, d, have),
        fitting(before, d, have) == have || other < d * fitting(before, d, have) + d,
    ensures
        fitting(other, d, have) == fitting(before, d, have),
{
    let k = fitting(before, d, have) as int;
    let di = d as int;
    let o = other as int;
    let q = o / di;
    assert(q >= k) by (nonlinear_arith)
        requires
            q == o / di,
            o >= di * k,
            di > 0,
    ;
    if k != have {
        assert(q <= k) by (nonlinear_arith)
            requires
                q == o / di,
                o < di * k + di,
                di > 0,
        ;
    }
}

/// Of a little less, as much is taken, as long as anything stays owed.
proof fn lemma_owed_less(ds: Seq<u64>, have: Map<u64, nat>, amount: nat, less: nat, i: int)
    requires
        0 <= i <= ds.len(),
        less < owed(ds, have, amount, 0),
        less <= amount,
    ensures
        owed(ds, have, (amount - less) as nat, i) == owed(ds, have, amount, i) - less,
    decreases ds.len() - i,
{
    if i < ds.len() {
        let before = owed(ds, have, amount, i + 1);
        let other = owed(ds, have, (amount - less) as nat, i + 1);
        lemma_owed_less(ds, have, amount, less, i + 1);
        lemma_owed_step(ds, have, amount, i);
        lemma_owed_falls(ds, have, amount, 0, i);
        if ds[i] > 0 {
            lemma_fits_too(before, other, ds[i], have[ds[i]]);
        } else {
            assert(ds[i] * 0 == 0) by (nonlinear_arith);
        }
    }
}

/// How often `ds[t]` goes into a larger denomination.
proof fn lemma_chain_multiple(ds: Seq<u64>, t: int, i: int) -> (q: int)
    requires
        chain(ds),
        0 <= t <= i < ds.len(),
    ensures
        ds[i] == q * ds[t],
        q >= 1,
    decreases i - t,
{
    if i == t {
        assert(1 * ds[t] == ds[t]) by (nonlinear_arith);
        1
    } else {
        let p = lemma_chain_multiple(ds, t, i - 1);
        let j = i - 1;
        let d = ds[t] as int;
        let e = ds[j] as int;
        let f = ds[i] as int;
        assert(ds[i] % ds[j] == 0);
        assert(ds[j] > 0 && ds[i] > 0);
        let r = f / e;
        assert(f == r * e && r >= 1) by (nonlinear_arith)
            requires
                f % e == 0,
                r == f / e,
                e > 0,
                f > 0,
        ;
        assert(r * (p * d) == (r * p) * d && r * p >= 1) by (nonlinear_arith)
            requires
                r >= 1,
                p >= 1,
        ;
        r * p
    }
}

/// What is owed before `ds[t]` is more than what is owed after it by a multiple of `ds[t]`.
proof fn lemma_owed_multiple(ds: Seq<u64>, have: Map<u64, nat>, amount: nat, t: int, i: int) -> (m:
    int)
    requires
        chain(ds),
        0 <= t <= i < ds.len(),
    ensures
        owed(ds, have, amount, i) == m * ds[t] + owed(ds, have, amount, t),
    decreases i - t,
{
    if i == t {
        assert(0 * ds[t] == 0) by (nonlinear_arith);
        0
    } else {
        let m = lemma_owed_multiple(ds, have, amount, t, i - 1);
        lemma_owed_step(ds, have, amount, i - 1);
        let q = lemma_chain_multiple(ds, t, i - 1);
        let k = taken(ds, have, amount, i - 1) as int;
        let d = ds[t] as int;
        assert(m * d + (q * d) * k == (m + q * k) * d) by (nonlinear_arith);
        m + q * k
    }
}

/// `ds[t]` is the smallest denomination of which a note is not taken.
pub open spec fn first_spare(ds: Seq<u64>, have: Map<u64, nat>, amount: nat, t: int) -> bool {
    &&& 0 <= t < ds.len()
    &&& taken(ds, have, amount, t) < have[ds[t]]
    &&& forall|j: int| 0 <= j < t ==> #[trigger] taken(ds, have, amount, j) == have[ds[j]]
}

/// Of a little more, as much is taken, as long as it does not make up for one more note of the
/// smallest denomination of which there is one.
proof fn lemma_owed_more(
    ds: Seq<u64>,
    have: Map<u64, nat>,
    amount: nat,
    more: nat,
    t: int,
    i: int,
)
    requires
        chain(ds),
        first_spare(ds, have, amount, t),
        owed(ds, have, amount, t) + more < ds[t],
        0 <= i <= ds.len(),
    ensures
        owed(ds, have, amount + more, i) == owed(ds, have, amount, i) + more,
    decreases ds.len() - i,
{
    if i < ds.len() {
        let before = owed(ds, have, amount, i + 1);
        let other = owed(ds, have, amount + more, i + 1);
        lemma_owed_more(ds, have, amount, more, t, i + 1);
        lemma_owed_step(ds, have, amount, i);
        assert(ds[i] > 0);
        if taken(ds, have, amount, i) < have[ds[i]] {
            assert(t <= i);
            let m = lemma_owed_multiple(ds, have, amount, t, i);
            let q = lemma_chain_multiple(ds, t, i);
            let d = ds[t] as int;
            let o = owed(ds, have, amount, t) as int;
            let x = more as int;
            assert(m * d + o + x < q * d) by (nonlinear_arith)
                requires
                    m * d + o < q * d,
                    0 <= o,
                    0 <= x,
                    o + x < d,
            ;
        }
        lemma_fits_too(before, other, ds[i], have[ds[i]]);
    }
}

/// No choice of notes from below comes closer to the amount than taking the largest first.
proof fn lemma_best_below(have: Map<u64, nat>, chosen: Map<u64, nat>, amount: nat)
    requires
        have.dom().finite(),
        chosen.dom().finite(),
        chain(ascending(have.dom())),
        forall|d: u64| #[trigger]
            chosen.contains_key(d) ==> have.contains_key(d) && chosen[d] <= have[d],
        worth(chosen) <= amount,
    ensures
        worth(chosen) + owed(ascending(have.dom()), have, amount, 0) <= amount,
{
    let ds = ascending(have.dom());
    let less = (amount - worth(chosen)) as nat;
    if less < owed(ds, have, amount, 0) {
        lemma_owed_less(ds, have, amount, less, 0);
        lemma_nothing_owed(have, chosen, worth(chosen));
    }
}

/// No choice of notes from above comes closer to the amount than one more note of the smallest
/// denomination of which there is one.
proof fn lemma_best_above(have: Map<u64, nat>, chosen: Map<u64, nat>, amount: nat, t: int)
    requires
        have.dom().finite(),
        chosen.dom().finite(),
        chain(ascending(have.dom())),
        forall|d: u64| #[trigger]
            chosen.contains_key(d) ==> have.contains_key(d) && chosen[d] <= have[d],
        first_spare(ascending(have.dom()), have, amount, t),
        owed(ascending(have.dom()), have, amount, 0) > 0,
        worth(chosen) >= amount,
    ensures
        worth(chosen) >= worth(bumped(ascending(have.dom()), have, amount, t)),
{
    let ds = ascending(have.dom());
    lemma_ascending_exists(have.dom());
    lemma_bumped(ds, have, amount, t);
    lemma_owed_step(ds, have, amount, t);
    let more = (worth(chosen) - amount) as nat;
    if owed(ds, have, amount, t) + more < ds[t] {
        lemma_owed_more(ds, have, amount, more, t, 0);
        lemma_nothing_owed(have, chosen, worth(chosen));
    }
}

/// Where no note is left, all notes are worth what is taken.
proof fn lemma_none_spare(have: Map<u64, nat>, amount: nat)
    requires
        have.dom().finite(),
        forall|j: int|
            0 <= j < ascending(have.dom()).len() ==> #[trigger] taken(
                ascending(have.dom()),
                have,
                amount,
                j,
            ) == have[ascending(have.dom())[j]],
    ensures
        worth(have) + owed(ascending(have.dom()), have, amount, 0) == amount,
{
    let ds = ascending(have.dom());
    lemma_ascending_exists(have.dom());
    lemma_taken_from(ds, have, amount, 0);
    let all = taken_from(ds, have, amount, 0);
    assert forall|d: u64| #[trigger] all.contains_key(d) implies have.contains_key(d) && all[d]
        == have[d] by {
        assert(ds.to_set().contains(d));
    }
    assert forall|d: u64| #[trigger] have.contains_key(d) implies all.contains_key(d) || have[d]
        == 0 by {
        assert(ds.to_set().contains(d));
        let j = choose|j: int| 0 <= j < ds.len() && ds[j] == d;
        lemma_used(ds, have, amount, j);
    }
    lemma_worth_nonzero(all, have);
}

proof fn lemma_first_spare(ds: Seq<u64>, have: Map<u64, nat>, amount: nat, i: int)
    requires
        0 <= i < ds.len(),
        taken(ds, have, amount, i) < have[ds[i]],
    ensures
        exists|t: int| #[trigger] first_spare(ds, have, amount, t),
    decreases i,
{
    if exists|j: int| 0 <= j < i && #[trigger] taken(ds, have, amount, j) != have[ds[j]] {
        let j = choose|j: int| 0 <= j < i && #[trigger] taken(ds, have, amount, j) != have[ds[j]];
        lemma_owed_step(ds, have, amount, j);
        lemma_first_spare(ds, have, amount, j);
    } else {
        assert(first_spare(ds, have, amount, i));
    }
}

/// Where one more note is added, it is one of the smallest denomination of which there is one.
proof fn lemma_bump_is_first_spare(have: Map<u64, nat>, amount: nat, t: int, i: int)
    requires
        have.dom().finite(),
        chain(ascending(have.dom())),
        first_spare(ascending(have.dom()), have, amount, t),
        owed(ascending(have.dom()), have, amount, 0) > 0,
        first_bump(ascending(have.dom()), have, amount, i),
    ensures
        i == t,
{
    let ds = ascending(have.dom());
    lemma_ascending_exists(have.dom());
    if i < t {
        assert(taken(ds, have, amount, i) == have[ds[i]]);
    }
    if t < i {
        let plan = bumped(ds, have, amount, i);
        lemma_bumped(ds, have, amount, i);
        lemma_owed_step(ds, have, amount, i);
        assert forall|d: u64| #[trigger] plan.contains_key(d) implies have.contains_key(d)
            && plan[d] <= have[d] by {
            assert(ds.to_set().contains(d));
        }
        lemma_best_above(have, plan, amount, t);
        lemma_owed_step(ds, have, amount, t);
        lemma_owed_falls(ds, have, amount, 0, t);
        assert(ds[t] > 0);
        assert(bump_works(ds, have, amount, t));
    }
}

/// Where every denomination divides the next larger one, there is no plan only if no choice of
/// notes is within the tolerance. A plan that is worth no more than the amount is worth the most
/// of all such choices. A plan that is worth more is made only where no choice that is worth less
/// is within the tolerance, and is worth the least of all choices that cover the amount.
pub proof fn law_plan_is_best(have: Map<u64, nat>, chosen: Map<u64, nat>, amount: nat)
    requires
        have.dom().finite(),
        chosen.dom().finite(),
        chain(ascending(have.dom())),
        forall|d: u64| #[trigger]
            chosen.contains_key(d) ==> have.contains_key(d) && chosen[d] <= have[d],
    ensures
        planned(have, amount) is None ==> worth(chosen) + TOLERANCE < amount || worth(chosen)
            > amount + TOLERANCE,
        planned(have, amount) matches Some(plan) ==> {
            &&& worth(plan) <= amount && worth(chosen) <= amount ==> worth(chosen) <= worth(plan)
            &&& worth(plan) > amount && worth(chosen) <= amount ==> worth(chosen) + TOLERANCE
                < amount
            &&& worth(plan) > amount && worth(chosen) >= amount ==> worth(chosen) >= worth(plan)
        },
{
    let ds = ascending(have.dom());
    lemma_ascending_exists(have.dom());
    lemma_taken_from(ds, have, amount, 0);
    let r = owed(ds, have, amount, 0);
    if worth(chosen) <= amount {
        lemma_best_below(have, chosen, amount);
    }
    if r > TOLERANCE {
        if exists|i: int|
            0 <= i < ds.len() && #[trigger] taken(ds, have, amount, i) < have[ds[i]] {
            let w = choose|i: int|
                0 <= i < ds.len() && #[trigger] taken(ds, have, amount, i) < have[ds[i]];
            lemma_first_spare(ds, have, amount, w);
            let t = choose|t: int| #[trigger] first_spare(ds, have, amount, t);
            lemma_bumped(ds, have, amount, t);
            lemma_owed_step(ds, have, amount, t);
            lemma_owed_falls(ds, have, amount, 0, t);
            assert(ds[t] > 0);
            if worth(chosen) >= amount {
                lemma_best_above(have, chosen, amount, t);
            }
            if exists|i: int| bump_works(ds, have, amount, i) {
                let v = choose|i: int| bump_works(ds, have, amount, i);
                lemma_first_bump(ds, have, amount, v);
                let i = choose|i: int| first_bump(ds, have, amount, i);
                lemma_bump_is_first_spare(have, amount, t, i);
            } else {
                assert(!bump_works(ds, have, amount, t));
            }
        } else {
            assert forall|j: int| 0 <= j < ds.len() implies #[trigger] taken(ds, have, amount, j)
                == have[ds[j]] by {
                lemma_owed_step(ds, have, amount, j);
            }
            lemma_none_spare(have, amount);
            lemma_worth_monotone(chosen, have);
            assert(forall|i: int| !bump_works(ds, have, amount, i));
        }
    }
}

} // verus!
