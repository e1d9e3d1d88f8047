//! Taking at least a given amount out of the wallet.

use crate::plan::{count_of, lemma_worth_below, worth_below};
use crate::storage::{drawn, law_withdrawal_conserves, stock, without, Wallet};
use crate::text::texts;
use crate::tiers::{
    ascending, keys_ascending, lemma_ascending_exists, lemma_worth_insert, lemma_worth_nonzero,
    nats, sizes, strictly_ascending, worth,
};
use std::collections::BTreeMap;
use vstd::prelude::*;

verus! {

/// What is left of `r` once `c` notes of `d` msats have been taken off it.
pub open spec fn rest(r: nat, d: u64, c: nat) -> nat {
    (r - d * c) as nat
}

/// Some of the notes of the first `i` denominations are worth exactly `r`.
pub open spec fn payable(ds: Seq<u64>, have: Map<u64, nat>, i: int, r: nat) -> bool
    decreases i,
{
    if i <= 0 {
        r == 0
    } else {
        exists|c: nat|
            c <= have[ds[i - 1]] && ds[i - 1] * c <= r && payable(
                ds,
                have,
                i - 1,
                #[trigger] rest(r, ds[i - 1], c),
            )
    }
}

/// With `c` notes of `ds[i - 1]`, some of the notes of the denominations before it are worth
/// exactly what is left of `r`.
pub open spec fn works(ds: Seq<u64>, have: Map<u64, nat>, i: int, r: nat, c: nat) -> bool {
    c <= have[ds[i - 1]] && ds[i - 1] * c <= r && payable(ds, have, i - 1, rest(r, ds[i - 1], c))
}

/// `c` is the smallest number for which `works`.
pub open spec fn is_fewest(ds: Seq<u64>, have: Map<u64, nat>, i: int, r: nat, c: nat) -> bool {
    &&& works(ds, have, i, r, c)
    &&& forall|b: nat| b < c ==> !#[trigger] works(ds, have, i, r, b)
}

/// How many notes of each of the first `i` denominations make up exactly `r`, the smallest
/// denominations first: as few as can be of the largest, then of the next one, and so on.
pub open spec fn exact_plan(ds: Seq<u64>, have: Map<u64, nat>, i: int, r: nat) -> Map<u64, nat>
    decreases i,
{
    if i <= 0 {
        Map::empty()
    } else if ds[i - 1] == 0 {
        exact_plan(ds, have, i - 1, r)
    } else {
        let c = choose|c: nat| is_fewest(ds, have, i, r, c);
        let smaller = exact_plan(ds, have, i - 1, rest(r, ds[i - 1], c));
        if c > 0 {
            smaller.insert(ds[i - 1], c)
        } else {
            smaller
        }
    }
}

/// How many notes of `d` msats are taken where the notes are taken in ascending order until
/// `amount` is covered.
pub open spec fn climbing(have: Map<u64, nat>, amount: nat, d: u64) -> nat {
    let smaller = worth(have.restrict(Set::new(|e: u64| e < d)));
    if smaller >= amount {
        0
    } else if smaller + d * have[d] < amount {
        have[d]
    } else {
        ((amount - smaller - 1) / (d as int) + 1) as nat
    }
}

/// The notes that are taken in ascending order until `amount` is covered.
pub open spec fn ascending_plan(have: Map<u64, nat>, amount: nat) -> Map<u64, nat> {
    Map::new(
        |d: u64| have.contains_key(d) && climbing(have, amount, d) > 0,
        |d: u64| climbing(have, amount, d),
    )
}

/// How many notes of each denomination are handed out for at least `amount`, the smallest
/// denominations first.
///
/// Where some of the notes are worth exactly the amount, that is what is handed out, along with
/// the notes that are worth nothing if anything is asked for. Otherwise notes are taken in
/// ascending order until the amount is covered.
pub open spec fn picked(have: Map<u64, nat>, amount: nat) -> Map<u64, nat> {
    let ds = ascending(have.dom());
    if payable(ds, have, ds.len() as int, amount) {
        let plan = exact_plan(ds, have, ds.len() as int, amount);
        if amount > 0 && have.contains_key(0) {
            plan.insert(0, have[0])
        } else {
            plan
        }
    } else {
        ascending_plan(have, amount)
    }
}

/// What `withdraw_at_least` takes out of `notes` for `amount`, and what it leaves: everything
/// where the notes are not worth enough.
pub open spec fn at_least(notes: Map<u64, Seq<Seq<char>>>, amount: nat) -> (
    Option<Seq<Seq<char>>>,
    Map<u64, Seq<Seq<char>>>,
) {
    let have = stock(notes);
    if worth(have) < amount {
        (None, notes)
    } else {
        let plan = picked(have, amount);
        (Some(drawn(notes, plan, ascending(plan.dom()))), without(notes, plan))
    }
}

proof fn lemma_payable_works(ds: Seq<u64>, have: Map<u64, nat>, i: int, r: nat)
    requires
        i > 0,
    ensures
        payable(ds, have, i, r) <==> exists|c: nat| #[trigger] works(ds, have, i, r, c),
{
    if payable(ds, have, i, r) {
        let c = choose|c: nat|
            c <= have[ds[i - 1]] && ds[i - 1] * c <= r && payable(
                ds,
                have,
                i - 1,
                #[trigger] rest(r, ds[i - 1], c),
            );
        assert(works(ds, have, i, r, c));
    }
    if exists|c: nat| #[trigger] works(ds, have, i, r, c) {
        let c = choose|c: nat| #[trigger] works(ds, have, i, r, c);
        assert(payable(ds, have, i - 1, rest(r, ds[i - 1], c)));
    }
}

/// If any number works, a smallest one does.
proof fn lemma_fewest(ds: Seq<u64>, have: Map<u64, nat>, i: int, r: nat, c: nat)
    requires
        works(ds, have, i, r, c),
    ensures
        exists|b: nat| #[trigger] is_fewest(ds, have, i, r, b),
    decreases c,
{
    if exists|b: nat| b < c && #[trigger] works(ds, have, i, r, b) {
        let b = choose|b: nat| b < c && #[trigger] works(ds, have, i, r, b);
        lemma_fewest(ds, have, i, r, b);
    } else {
        assert(is_fewest(ds, have, i, r, c));
    }
}

/// There is only one smallest number that works.
proof fn lemma_fewest_is(ds: Seq<u64>, have: Map<u64, nat>, i: int, r: nat, c: nat)
    requires
        is_fewest(ds, have, i, r, c),
    ensures
        c == choose|b: nat| is_fewest(ds, have, i, r, b),
{
    let b = choose|b: nat| is_fewest(ds, have, i, r, b);
    assert(is_fewest(ds, have, i, r, b));
    if b < c {
        assert(!works(ds, have, i, r, b));
    }
    if c < b {
        assert(!works(ds, have, i, r, c));
    }
}

/// What can be paid can be paid with more denominations too.
proof fn lemma_payable_monotone(ds: Seq<u64>, have: Map<u64, nat>, i: int, j: int, r: nat)
    requires
        0 <= i <= j,
        payable(ds, have, i, r),
    ensures
        payable(ds, have, j, r),
    decreases j - i,
{
    if i < j {
        lemma_payable_monotone(ds, have, i, j - 1, r);
        assert(ds[j - 1] * 0 == 0) by (nonlinear_arith);
        assert(rest(r, ds[j - 1], 0) == r);
        assert(works(ds, have, j, r, 0));
        lemma_payable_works(ds, have, j, r);
    }
}

/// Notes that are worth nothing do not make anything payable.
proof fn lemma_payable_worthless(ds: Seq<u64>, have: Map<u64, nat>, i: int, r: nat)
    requires
        i > 0,
        ds[i - 1] == 0,
    ensures
        payable(ds, have, i, r) == payable(ds, have, i - 1, r),
{
    lemma_payable_works(ds, have, i, r);
    if payable(ds, have, i, r) {
        let c = choose|c: nat| #[trigger] works(ds, have, i, r, c);
        assert(0 * c == 0) by (nonlinear_arith);
        assert(rest(r, ds[i - 1], c) == r);
    }
    if payable(ds, have, i - 1, r) {
        lemma_payable_monotone(ds, have, i - 1, i, r);
    }
}

/// No more can be paid than all the notes are worth.
proof fn lemma_payable_bound(ds: Seq<u64>, have: Map<u64, nat>, i: int, r: nat)
    requires
        0 <= i <= ds.len(),
        ds.to_set() == have.dom(),
        payable(ds, have, i, r),
    ensures
        r <= worth_below(ds, have, i),
    decreases i,
{
    if i > 0 {
        lemma_payable_works(ds, have, i, r);
        let c = choose|c: nat| #[trigger] works(ds, have, i, r, c);
        let d = ds[i - 1];
        assert(ds.to_set().contains(d));
        let h = have[d];
        lemma_payable_bound(ds, have, i - 1, rest(r, d, c));
        assert(0 <= d * c <= d * h) by (nonlinear_arith)
            requires
                0 <= c <= h,
                d >= 0,
        ;
    }
}

/// What chosen notes of the first `i` denominations are worth can be paid.
proof fn lemma_chosen_payable(ds: Seq<u64>, have: Map<u64, nat>, chosen: Map<u64, nat>, i: int)
    requires
        0 <= i <= ds.len(),
        ds.to_set() == have.dom(),
        forall|d: u64| #[trigger]
            chosen.contains_key(d) ==> have.contains_key(d) && chosen[d] <= have[d],
    ensures
        payable(ds, have, i, worth_below(ds, chosen, i)),
        i > 0 ==> works(
            ds,
            have,
            i,
            worth_below(ds, chosen, i),
            count_of(chosen, ds[i - 1]),
        ),
    decreases i,
{
    if i > 0 {
        lemma_chosen_payable(ds, have, chosen, i - 1);
        let d = ds[i - 1];
        let c = count_of(chosen, d);
        let r = worth_below(ds, chosen, i);
        assert(d * c >= 0) by (nonlinear_arith)
            requires
                d >= 0,
                c >= 0,
        ;
        assert(rest(r, d, c) == worth_below(ds, chosen, i - 1));
        assert(works(ds, have, i, r, c));
        lemma_payable_works(ds, have, i, r);
    }
}

/// The exact plan is worth what it is made for, takes only notes that are there, and none that
/// are worth nothing.
proof fn lemma_exact_plan(ds: Seq<u64>, have: Map<u64, nat>, i: int, r: nat)
    requires
        0 <= i <= ds.len(),
        strictly_ascending(ds),
        payable(ds, have, i, r),
    ensures
        exact_plan(ds, have, i, r).dom().finite(),
        worth(exact_plan(ds, have, i, r)) == r,
        forall|d: u64| #[trigger]
            exact_plan(ds, have, i, r).contains_key(d) ==> {
                &&& d > 0
                &&& 0 < exact_plan(ds, have, i, r)[d] <= have[d]
                &&& exists|j: int| 0 <= j < i && #[trigger] ds[j] == d
            },
    decreases i,
{
    let plan = exact_plan(ds, have, i, r);
    if i == 0 {
        assert(plan.map_entries(|d: u64, n: nat| (d * n) as nat) =~= Map::empty());
    } else if ds[i - 1] == 0 {
        lemma_payable_worthless(ds, have, i, r);
        lemma_exact_plan(ds, have, i - 1, r);
    } else {
        let d = ds[i - 1];
        lemma_payable_works(ds, have, i, r);
        let any = choose|c: nat| #[trigger] works(ds, have, i, r, c);
        lemma_fewest(ds, have, i, r, any);
        let c = choose|c: nat| is_fewest(ds, have, i, r, c);
        assert(is_fewest(ds, have, i, r, c));
        let left = rest(r, d, c);
        let smaller = exact_plan(ds, have, i - 1, left);
        lemma_exact_plan(ds, have, i - 1, left);
        assert(!smaller.contains_key(d)) by {
            if smaller.contains_key(d) {
                let j = choose|j: int| 0 <= j < i - 1 && #[trigger] ds[j] == d;
                assert(ds[j] < ds[i - 1]);
            }
        }
        lemma_worth_insert(smaller, d, c);
        assert(d * 0 == 0) by (nonlinear_arith);
        assert forall|e: u64| #[trigger] plan.contains_key(e) implies e > 0 && 0 < plan[e]
            <= have[e] && exists|j: int| 0 <= j < i && #[trigger] ds[j] == e by {
            if e == d {
                assert(ds[i - 1] == e);
            } else {
                assert(smaller.contains_key(e));
                let j = choose|j: int| 0 <= j < i - 1 && #[trigger] ds[j] == e;
                assert(ds[j] == e);
            }
        }
    }
}

/// What all notes of the first `i` denominations are worth, up to the largest number there is.
spec fn capped(ds: Seq<u64>, have: Map<u64, nat>, i: int) -> u64 {
    if worth_below(ds, have, i) > u64::MAX {
        u64::MAX
    } else {
        worth_below(ds, have, i) as u64
    }
}

/// What all notes of the first denominations are worth, for each number of denominations, up to
/// the largest number there is.
fn worths_below(counts: &BTreeMap<u64, usize>, denoms: &Vec<u64>) -> (below: Vec<u64>)
    requires
        denoms@.to_set() == counts@.dom(),
    ensures
        below@.len() == denoms@.len() + 1,
        forall|i: int|
            0 <= i <= denoms@.len() ==> #[trigger] below@[i] == capped(
                denoms@,
                nats(counts@),
                i,
            ),
{
    let ghost ds = denoms@;
    let ghost have = nats(counts@);
    let mut below: Vec<u64> = Vec::new();
    below.push(0);
    let mut sum: u64 = 0;
    let mut i: usize = 0;
    while i < denoms.len()
        invariant
            i <= ds.len(),
            ds == denoms@,
            have == nats(counts@),
            ds.to_set() == counts@.dom(),
            below@.len() == i + 1,
            sum == capped(ds, have, i as int),
            forall|j: int| 0 <= j <= i ==> #[trigger] below@[j] == capped(ds, have, j),
        decreases ds.len() - i,
    {
        let d: u64 = denoms[i];
        assert(ds.to_set().contains(d));
        let count: usize = match counts.get(&d) {
            Some(count) => *count,
            None => 0,
        };
        assert(have[d] == count && have.contains_key(d));
        proof {
            assert(d * count >= 0) by (nonlinear_arith);
        }
        sum = match d.checked_mul(count as u64) {
            Some(all) => match sum.checked_add(all) {
                Some(more) => more,
                None => u64::MAX,
            },
            None => u64::MAX,
        };
        below.push(sum);
        i = i + 1;
    }
    below
}

/// Every number of msats is listed with a number of denominations that cannot pay it.
spec fn all_failed(failed: Map<u64, usize>, ds: Seq<u64>, have: Map<u64, nat>) -> bool {
    forall|r: u64| #[trigger]
        failed.contains_key(r) ==> !payable(ds, have, failed[r] as int, r as nat)
}

/// Fewer notes than the smaller denominations leave to be paid do not work, nor do more than
/// there are or than fit.
proof fn lemma_range(
    ds: Seq<u64>,
    have: Map<u64, nat>,
    i: int,
    r: nat,
    least: nat,
    most: nat,
    c: nat,
)
    requires
        0 < i <= ds.len(),
        ds.to_set() == have.dom(),
        ds[i - 1] > 0,
        least > 0 ==> ds[i - 1] * (least - 1) + worth_below(ds, have, i - 1) < r,
        most >= have[ds[i - 1]] || r < ds[i - 1] * (most + 1),
        works(ds, have, i, r, c),
    ensures
        least <= c <= most,
{
    let d = ds[i - 1] as int;
    lemma_payable_bound(ds, have, i - 1, rest(r, ds[i - 1], c));
    if c < least {
        assert(d * c <= d * (least - 1)) by (nonlinear_arith)
            requires
                c <= least - 1,
                d > 0,
        ;
    }
    if c > most {
        assert(d * c >= d * (most + 1)) by (nonlinear_arith)
            requires
                c >= most + 1,
                d > 0,
        ;
    }
}

/// Looks for notes of the first `i` denominations that are worth exactly `r`, as few as can be of
/// the largest ones. What is found not to be payable is kept in `failed`, so that it is not looked
/// for again.
fn search(
    counts: &BTreeMap<u64, usize>,
    denoms: &Vec<u64>,
    below: &Vec<u64>,
    i: usize,
    r: u64,
    failed: &mut BTreeMap<u64, usize>,
) -> (plan: Option<BTreeMap<u64, usize>>)
    requires
        i <= denoms@.len(),
        strictly_ascending(denoms@),
        denoms@.to_set() == counts@.dom(),
        below@.len() == denoms@.len() + 1,
        forall|j: int|
            0 <= j <= denoms@.len() ==> #[trigger] below@[j] == capped(
                denoms@,
                nats(counts@),
                j,
            ),
        all_failed(old(failed)@, denoms@, nats(counts@)),
    ensures
        all_failed(final(failed)@, denoms@, nats(counts@)),
        match plan {
            Some(plan) => {
                &&& payable(denoms@, nats(counts@), i as int, r as nat)
                &&& nats(plan@) == exact_plan(denoms@, nats(counts@), i as int, r as nat)
            },
            None => !payable(denoms@, nats(counts@), i as int, r as nat),
        },
    decreases i,
{
    let ghost ds = denoms@;
    let ghost have = nats(counts@);
    if i == 0 {
        if r > 0 {
            return None;
        }
        let plan: BTreeMap<u64, usize> = BTreeMap::new();
        assert(nats(plan@) =~= Map::empty());
        return Some(plan);
    }
    if let Some(k) = failed.get(&r) {
        if *k >= i {
            proof {
                if payable(ds, have, i as int, r as nat) {
                    lemma_payable_monotone(ds, have, i as int, *k as int, r as nat);
                }
            }
            return None;
        }
    }
    let d: u64 = denoms[i - 1];
    if d == 0 {
        proof {
            lemma_payable_worthless(ds, have, i as int, r as nat);
        }
        return search(counts, denoms, below, i - 1, r, failed);
    }
    assert(have.dom() =~= counts@.dom());
    assert(ds.to_set().contains(d));
    let count: usize = match counts.get(&d) {
        Some(count) => *count,
        None => 0,
    };
    assert(count == have[d]);
    let low: u64 = below[i - 1];
    assert(low == capped(ds, have, i - 1));
    let least: u64 = if low >= r {
        0
    } else {
        proof {
            lemma_ceiling((r - low) as int, d as int);
        }
        (r - low - 1) / d + 1
    };
    let fit: u64 = r / d;
    let most: u64 = if fit < count as u64 {
        fit
    } else {
        count as u64
    };
    proof {
        lemma_floor(r as int, d as int);
        assert(least > 0 ==> d * (least - 1) + worth_below(ds, have, i - 1) < r);
        assert(most >= have[d] || r < d * (most + 1));
    }
    let mut c: u64 = least;
    let mut trying: bool = least <= most;
    proof {
        assert forall|b: nat| b < least || !trying implies !#[trigger] works(
            ds,
            have,
            i as int,
            r as nat,
            b,
        ) by {
            if works(ds, have, i as int, r as nat, b) {
                lemma_range(ds, have, i as int, r as nat, least as nat, most as nat, b);
            }
        }
    }
    while trying
        invariant
            0 < i <= denoms@.len(),
            ds == denoms@,
            have == nats(counts@),
            d == ds[i - 1],
            d > 0,
            have[d] == count,
            strictly_ascending(ds),
            ds.to_set() == counts@.dom(),
            ds.to_set() == have.dom(),
            below@.len() == ds.len() + 1,
            forall|j: int| 0 <= j <= ds.len() ==> #[trigger] below@[j] == capped(ds, have, j),
            all_failed(failed@, ds, have),
            most <= count,
            d * most <= r,
            most >= have[d] || r < d * (most + 1),
            least > 0 ==> d * (least - 1) + worth_below(ds, have, i - 1) < r,
            trying ==> c <= most && forall|b: nat|
                b < c ==> !#[trigger] works(ds, have, i as int, r as nat, b),
            !trying ==> forall|b: nat| !#[trigger] works(ds, have, i as int, r as nat, b),
        decreases most - c + (if trying {
            1int
        } else {
            0
        }),
    {
        proof {
            let x = c as int;
            let y = most as int;
            let e = d as int;
            assert(0 <= e * x <= e * y) by (nonlinear_arith)
                requires
                    0 <= x <= y,
                    e > 0,
            ;
        }
        let left: u64 = r - d * c;
        assert(left == rest(r as nat, d, c as nat));
        match search(counts, denoms, below, i - 1, left, failed) {
            Some(found) => {
                let mut plan = found;
                proof {
                    assert(is_fewest(ds, have, i as int, r as nat, c as nat));
                    lemma_fewest_is(ds, have, i as int, r as nat, c as nat);
                    lemma_payable_works(ds, have, i as int, r as nat);
                }
                let ghost smaller = plan@;
                if c > 0 {
                    plan.insert(d, c as usize);
                    assert(nats(plan@) =~= nats(smaller).insert(d, c as nat));
                }
                return Some(plan);
            },
            None => {
                assert(!works(ds, have, i as int, r as nat, c as nat));
                if c < most {
                    c = c + 1;
                } else {
                    trying = false;
                    proof {
                        assert forall|b: nat| !#[trigger] works(
                            ds,
                            have,
                            i as int,
                            r as nat,
                            b,
                        ) by {
                            if works(ds, have, i as int, r as nat, b) {
                                lemma_range(
                                    ds,
                                    have,
                                    i as int,
                                    r as nat,
                                    least as nat,
                                    most as nat,
                                    b,
                                );
                            }
                        }
                    }
                }
            },
        }
    }
    proof {
        lemma_payable_works(ds, have, i as int, r as nat);
    }
    failed.insert(r, i);
    None
}

/// How often `d` goes into a number, rounded up, and how often one less.
proof fn lemma_ceiling(n: int, d: int)
    requires
        n > 0,
        d > 0,
    ensures
        d * ((n - 1) / d) < n,
        n <= d * ((n - 1) / d) + d,
        0 <= (n - 1) / d < n,
{
    let q = (n - 1) / d;
    assert(d * q <= n - 1 && n - 1 < d * q + d && q >= 0) by (nonlinear_arith)
        requires
            q == (n - 1) / d,
            d > 0,
            n >= 1,
    ;
    assert(q <= d * q) by (nonlinear_arith)
        requires
            d >= 1,
            q >= 0,
    ;
}

proof fn lemma_floor(n: int, d: int)
    requires
        n >= 0,
        d > 0,
    ensures
        d * (n / d) <= n,
        n < d * (n / d + 1),
        forall|c: int| 0 <= c <= n / d ==> #[trigger] (d * c) <= n,
{
    let q = n / d;
    assert(d * q <= n && n < d * q + d) by (nonlinear_arith)
        requires
            q == n / d,
            d > 0,
    ;
    assert(d * (q + 1) == d * q + d) by (nonlinear_arith);
    assert forall|c: int| 0 <= c <= n / d implies #[trigger] (d * c) <= n by {
        assert(d * c <= d * q) by (nonlinear_arith)
            requires
                c <= q,
                d > 0,
        ;
    }
}

/// What the notes below `ds[i]` are worth.
proof fn lemma_smaller(ds: Seq<u64>, m: Map<u64, nat>, i: int)
    requires
        strictly_ascending(ds),
        0 <= i < ds.len(),
        m.dom().finite(),
        forall|d: u64| #[trigger] m.contains_key(d) ==> ds.contains(d),
    ensures
        worth(m.restrict(Set::new(|d: u64| d < ds[i]))) == worth_below(ds, m, i),
{
    let e = ds[i];
    let low = m.restrict(Set::new(|d: u64| d < e));
    assert(low.dom().subset_of(m.dom()));
    vstd::set_lib::lemma_len_subset(low.dom(), m.dom());
    assert forall|d: u64| #[trigger] low.contains_key(d) implies ds.take(i).contains(d) by {
        assert(m.contains_key(d));
        let k = choose|k: int| 0 <= k < ds.len() && ds[k] == d;
        assert(k < i) by {
            if i < k {
                assert(ds[i] < ds[k]);
            }
        }
        assert(ds.take(i)[k] == d);
    }
    lemma_worth_below(ds, low, i);
    lemma_below_agrees(ds, low, m, i);
}

proof fn lemma_below_agrees(ds: Seq<u64>, a: Map<u64, nat>, b: Map<u64, nat>, i: int)
    requires
        0 <= i <= ds.len(),
        strictly_ascending(ds),
        forall|d: u64| #[trigger] a.contains_key(d) ==> b.contains_key(d) && a[d] == b[d],
        forall|j: int|
            0 <= j < i && b.contains_key(#[trigger] ds[j]) ==> a.contains_key(ds[j]),
    ensures
        worth_below(ds, a, i) == worth_below(ds, b, i),
    decreases i,
{
    if i > 0 {
        lemma_below_agrees(ds, a, b, i - 1);
        assert(count_of(a, ds[i - 1]) == count_of(b, ds[i - 1]));
    }
}

/// Chooses notes in ascending order until the amount is covered.
fn climb(amount: u64, counts: &BTreeMap<u64, usize>, denoms: &Vec<u64>) -> (plan: BTreeMap<
    u64,
    usize,
>)
    requires
        denoms@ == ascending(counts@.dom()),
        counts@.dom().finite(),
    ensures
        nats(plan@) == ascending_plan(nats(counts@), amount as nat),
{
    let ghost ds = denoms@;
    let ghost have = nats(counts@);
    let ghost want = ascending_plan(have, amount as nat);
    proof {
        assert(have.dom() =~= counts@.dom());
        lemma_ascending_exists(have.dom());
        assert forall|d: u64| #[trigger] have.contains_key(d) implies ds.contains(d) by {
            assert(ds.to_set().contains(d));
        }
    }
    let mut plan: BTreeMap<u64, usize> = BTreeMap::new();
    let mut remaining: u64 = amount;
    let mut i: usize = 0;
    while i < denoms.len()
        invariant
            i <= ds.len(),
            ds == denoms@,
            have == nats(counts@),
            have.dom() == counts@.dom(),
            have.dom().finite(),
            strictly_ascending(ds),
            ds.to_set() == have.dom(),
            forall|d: u64| #[trigger] have.contains_key(d) ==> ds.contains(d),
            want == ascending_plan(have, amount as nat),
            remaining == (if worth_below(ds, have, i as int) < amount {
                amount - worth_below(ds, have, i as int)
            } else {
                0
            }),
            forall|d: u64| #[trigger]
                plan@.contains_key(d) ==> want.contains_key(d) && want[d] == plan@[d],
            forall|j: int|
                0 <= j < i && want.contains_key(#[trigger] ds[j]) ==> plan@.contains_key(ds[j]),
        decreases ds.len() - i,
    {
        let d: u64 = denoms[i];
        assert(ds.to_set().contains(d));
        let count: usize = match counts.get(&d) {
            Some(count) => *count,
            None => 0,
        };
        assert(count == have[d]);
        proof {
            lemma_smaller(ds, have, i as int);
            assert(d * count >= 0) by (nonlinear_arith);
        }
        if remaining > 0 {
            let all: Option<u64> = d.checked_mul(count as u64);
            let enough: bool = match all {
                Some(all) => all >= remaining,
                None => true,
            };
            if enough {
                proof {
                    if d == 0 {
                        assert(d * count == 0) by (nonlinear_arith)
                            requires
                                d == 0,
                        ;
                    }
                    lemma_ceiling(remaining as int, d as int);
                    let q = (remaining - 1) / d as int;
                    let e = d as int;
                    let h = count as int;
                    assert(q + 1 <= h) by (nonlinear_arith)
                        requires
                            e * q < remaining,
                            e * h >= remaining,
                            e > 0,
                    ;
                }
                let n: u64 = (remaining - 1) / d + 1;
                plan.insert(d, n as usize);
                remaining = 0;
            } else {
                if count > 0 {
                    plan.insert(d, count);
                }
                remaining = remaining - d * (count as u64);
            }
        }
        proof {
            assert forall|j: int|
                0 <= j < i + 1 && want.contains_key(#[trigger] ds[j]) implies plan@.contains_key(
                ds[j],
            ) by {
                if j == i {
                    assert(climbing(have, amount as nat, d) > 0);
                }
            }
        }
        i = i + 1;
    }
    proof {
        assert forall|d: u64| #[trigger] want.contains_key(d) implies plan@.contains_key(d) by {
            assert(ds.contains(d));
            let j = choose|j: int| 0 <= j < ds.len() && ds[j] == d;
            assert(want.contains_key(ds[j]));
        }
        assert(nats(plan@) =~= want);
    }
    plan
}

proof fn lemma_have_worth(have: Map<u64, nat>)
    requires
        have.dom().finite(),
    ensures
        ({
            let ds = ascending(have.dom());
            &&& strictly_ascending(ds)
            &&& ds.to_set() == have.dom()
            &&& worth(have) == worth_below(ds, have, ds.len() as int)
        }),
{
    let ds = ascending(have.dom());
    let n = ds.len() as int;
    lemma_ascending_exists(have.dom());
    assert(ds.take(n) =~= ds);
    assert forall|d: u64| #[trigger] have.contains_key(d) implies ds.take(n).contains(d) by {
        assert(ds.to_set().contains(d));
    }
    lemma_worth_below(ds, have, n);
}

/// What is taken in ascending order covers the amount as soon as the notes do, and is all there
/// is before that.
proof fn lemma_climbed(have: Map<u64, nat>, amount: nat, i: int)
    requires
        have.dom().finite(),
        0 <= i <= ascending(have.dom()).len(),
    ensures
        ({
            let ds = ascending(have.dom());
            let plan = ascending_plan(have, amount);
            &&& worth_below(ds, have, i) < amount ==> worth_below(ds, plan, i) == worth_below(
                ds,
                have,
                i,
            )
            &&& worth_below(ds, have, i) >= amount ==> worth_below(ds, plan, i) >= amount
            &&& i < ds.len() ==> {
                let d = ds[i];
                let smaller = worth_below(ds, have, i);
                &&& have.contains_key(d)
                &&& smaller == worth(have.restrict(Set::new(|e: u64| e < d)))
                &&& count_of(plan, d) == climbing(have, amount, d)
                &&& climbing(have, amount, d) <= have[d]
                &&& smaller < amount && smaller + d * have[d] < amount ==> climbing(
                    have,
                    amount,
                    d,
                ) == have[d]
                &&& smaller < amount && smaller + d * have[d] >= amount ==> {
                    &&& smaller + d * climbing(have, amount, d) >= amount
                    &&& smaller + d * climbing(have, amount, d) < amount + d
                }
                &&& smaller >= amount ==> climbing(have, amount, d) == 0
            }
        }),
    decreases i,
{
    let ds = ascending(have.dom());
    let plan = ascending_plan(have, amount);
    lemma_have_worth(have);
    assert forall|d: u64| #[trigger] have.contains_key(d) implies ds.contains(d) by {
        assert(ds.to_set().contains(d));
    }
    if i > 0 {
        lemma_climbed(have, amount, i - 1);
        let d = ds[i - 1];
        let h = have[d] as int;
        let c = climbing(have, amount, d) as int;
        let e = d as int;
        assert(0 <= e * c <= e * h) by (nonlinear_arith)
            requires
                0 <= c <= h,
                e >= 0,
        ;
    }
    if i < ds.len() {
        let d = ds[i];
        assert(ds.to_set().contains(d));
        lemma_smaller(ds, have, i);
        let smaller = worth_below(ds, have, i);
        if smaller < amount && smaller + d * have[d] >= amount {
            let need = amount - smaller;
            let e = d as int;
            let h = have[d] as int;
            if e == 0 {
                assert(e * h == 0) by (nonlinear_arith)
                    requires
                        e == 0,
                ;
            }
            lemma_ceiling(need, e);
            let q = (need - 1) / e;
            assert(q + 1 <= h) by (nonlinear_arith)
                requires
                    e * q < need,
                    e * h >= need,
                    e > 0,
            ;
            assert(e * (q + 1) == e * q + e) by (nonlinear_arith);
        }
    }
}

/// What is picked is there, and covers the amount if the notes do. It is worth more only where
/// nothing is worth exactly the amount.
proof fn lemma_picked(have: Map<u64, nat>, amount: nat)
    requires
        have.dom().finite(),
        worth(have) >= amount,
        forall|d: u64| #[trigger] have.contains_key(d) ==> have[d] > 0,
    ensures
        ({
            let ds = ascending(have.dom());
            let plan = picked(have, amount);
            &&& plan.dom().finite()
            &&& forall|d: u64| #[trigger]
                plan.contains_key(d) ==> have.contains_key(d) && 0 < plan[d] <= have[d]
            &&& worth(plan) >= amount
            &&& payable(ds, have, ds.len() as int, amount) ==> worth(plan) == amount
            &&& !payable(ds, have, ds.len() as int, amount) ==> plan == ascending_plan(have, amount)
        }),
{
    let ds = ascending(have.dom());
    let n = ds.len() as int;
    let plan = picked(have, amount);
    lemma_have_worth(have);
    if payable(ds, have, n, amount) {
        let exact = exact_plan(ds, have, n, amount);
        lemma_exact_plan(ds, have, n, amount);
        assert forall|d: u64| #[trigger] exact.contains_key(d) implies have.contains_key(d) by {
            let j = choose|j: int| 0 <= j < n && #[trigger] ds[j] == d;
            assert(ds.to_set().contains(ds[j]));
        }
        if amount > 0 && have.contains_key(0) {
            assert(!exact.contains_key(0));
            lemma_worth_insert(exact, 0, have[0]);
            assert(0 * have[0] == 0) by (nonlinear_arith);
        }
    } else {
        assert(plan.dom().subset_of(have.dom()));
        vstd::set_lib::lemma_len_subset(plan.dom(), have.dom());
        assert(ds.take(n) =~= ds);
        assert forall|d: u64| #[trigger] plan.contains_key(d) implies have.contains_key(d) && 0
            < plan[d] <= have[d] && ds.take(n).contains(d) by {
            assert(ds.to_set().contains(d));
            let j = choose|j: int| 0 <= j < n && ds[j] == d;
            lemma_climbed(have, amount, j);
        }
        lemma_worth_below(ds, plan, n);
        lemma_climbed(have, amount, n);
    }
}

impl Wallet {
    /// Takes notes for at least `amount_msats` out of the wallet, the smallest denominations
    /// first, and exactly for that amount where that can be done. Where there is not enough,
    /// nothing is taken.
    pub fn withdraw_at_least(&mut self, amount_msats: u64) -> (selected: Option<Vec<String>>)
        ensures
            match selected {
                Some(selected) => at_least(old(self)@, amount_msats as nat) == (
                    Some(texts(selected@)),
                    final(self)@,
                ),
                None => at_least(old(self)@, amount_msats as nat) == (
                    None::<Seq<Seq<char>>>,
                    final(self)@,
                ),
            },
    {
        let counts = self.denomination_counts();
        let denoms = keys_ascending(&counts);
        let below = worths_below(&counts, &denoms);
        let ghost have = nats(counts@);
        let n: usize = denoms.len();
        proof {
            assert(have.dom() =~= counts@.dom());
            lemma_have_worth(have);
            assert(below@[n as int] == capped(denoms@, have, n as int));
        }
        if below[n] < amount_msats {
            return None;
        }
        let mut failed: BTreeMap<u64, usize> = BTreeMap::new();
        let plan = match search(&counts, &denoms, &below, n, amount_msats, &mut failed) {
            Some(found) => {
                let mut plan = found;
                let ghost exact = plan@;
                if amount_msats > 0 {
                    if let Some(worthless) = counts.get(&0) {
                        plan.insert(0, *worthless);
                        assert(nats(plan@) =~= nats(exact).insert(0, have[0]));
                    }
                }
                plan
            },
            None => climb(amount_msats, &counts, &denoms),
        };
        proof {
            lemma_picked(have, amount_msats as nat);
        }
        Some(self.take_planned(&plan))
    }
}

/// The notes that there are any of are worth as much as all of them.
proof fn lemma_stock_worth(notes: Map<u64, Seq<Seq<char>>>)
    requires
        notes.dom().finite(),
    ensures
        stock(notes).dom().finite(),
        worth(stock(notes)) == worth(sizes(notes)),
{
    let have = stock(notes);
    assert(have.dom().subset_of(notes.dom()));
    vstd::set_lib::lemma_len_subset(have.dom(), notes.dom());
    assert(sizes(notes).dom() =~= notes.dom());
    lemma_worth_nonzero(have, sizes(notes));
}

/// Notes are handed out exactly if there are enough of them, and otherwise the wallet stays as it
/// is. What is handed out was in the wallet, covers the amount, and is what the wallet is poorer
/// by.
pub proof fn law_at_least(notes: Map<u64, Seq<Seq<char>>>, amount: nat)
    requires
        notes.dom().finite(),
    ensures
        at_least(notes, amount).0 is Some <==> worth(sizes(notes)) >= amount,
        at_least(notes, amount).0 is None ==> at_least(notes, amount).1 == notes,
        at_least(notes, amount).0 is Some ==> {
            let plan = picked(stock(notes), amount);
            &&& worth(sizes(at_least(notes, amount).1)) + worth(plan) == worth(sizes(notes))
            &&& worth(plan) >= amount
            &&& forall|d: u64| #[trigger]
                plan.contains_key(d) ==> notes.contains_key(d) && 0 < plan[d] <= notes[d].len()
        },
{
    let have = stock(notes);
    lemma_stock_worth(notes);
    if worth(have) >= amount {
        let plan = picked(have, amount);
        lemma_picked(have, amount);
        assert forall|d: u64| #[trigger] plan.contains_key(d) implies notes.contains_key(d) && 0
            < plan[d] <= notes[d].len() by {
            assert(have.contains_key(d));
        }
        law_withdrawal_conserves(notes, plan);
    }
}

/// Chosen notes, all of which there are, as a whole.
proof fn lemma_chosen_worth(have: Map<u64, nat>, chosen: Map<u64, nat>)
    requires
        have.dom().finite(),
        chosen.dom().finite(),
        forall|d: u64| #[trigger]
            chosen.contains_key(d) ==> have.contains_key(d) && chosen[d] <= have[d],
    ensures
        worth(chosen) == worth_below(
            ascending(have.dom()),
            chosen,
            ascending(have.dom()).len() as int,
        ),
{
    let ds = ascending(have.dom());
    let n = ds.len() as int;
    lemma_have_worth(have);
    assert(ds.take(n) =~= ds);
    assert forall|d: u64| #[trigger] chosen.contains_key(d) implies ds.take(n).contains(d) by {
        assert(ds.to_set().contains(d));
    }
    lemma_worth_below(ds, chosen, n);
}

/// Where some of the notes are worth exactly the amount, exactly the amount is handed out.
pub proof fn law_at_least_exact_where_possible(
    notes: Map<u64, Seq<Seq<char>>>,
    chosen: Map<u64, nat>,
    amount: nat,
)
    requires
        notes.dom().finite(),
        chosen.dom().finite(),
        forall|d: u64| #[trigger]
            chosen.contains_key(d) ==> stock(notes).contains_key(d) && chosen[d] <= stock(notes)[d],
        worth(chosen) == amount,
    ensures
        at_least(notes, amount).0 is Some,
        worth(picked(stock(notes), amount)) == amount,
        worth(sizes(at_least(notes, amount).1)) + amount == worth(sizes(notes)),
{
    let have = stock(notes);
    let ds = ascending(have.dom());
    lemma_stock_worth(notes);
    lemma_have_worth(have);
    lemma_chosen_worth(have, chosen);
    lemma_chosen_payable(ds, have, chosen, ds.len() as int);
    lemma_payable_bound(ds, have, ds.len() as int, amount);
    lemma_picked(have, amount);
    law_at_least(notes, amount);
}

/// The exact plan for the first `i` denominations takes no more of `ds[k]` than a choice does that
/// is worth as much and takes as many of each larger one.
proof fn lemma_fewest_first(
    ds: Seq<u64>,
    have: Map<u64, nat>,
    chosen: Map<u64, nat>,
    i: int,
    k: int,
)
    requires
        0 <= k < i <= ds.len(),
        strictly_ascending(ds),
        ds.to_set() == have.dom(),
        ds[k] > 0,
        forall|d: u64| #[trigger]
            chosen.contains_key(d) ==> have.contains_key(d) && chosen[d] <= have[d],
        forall|j: int|
            k < j < i ==> count_of(chosen, #[trigger] ds[j]) == count_of(
                exact_plan(ds, have, i, worth_below(ds, chosen, i)),
                ds[j],
            ),
    ensures
        count_of(exact_plan(ds, have, i, worth_below(ds, chosen, i)), ds[k]) <= count_of(
            chosen,
            ds[k],
        ),
    decreases i,
{
    let r = worth_below(ds, chosen, i);
    let d = ds[i - 1];
    let plan = exact_plan(ds, have, i, r);
    lemma_chosen_payable(ds, have, chosen, i);
    lemma_chosen_payable(ds, have, chosen, i - 1);
    assert(d > 0) by {
        if k < i - 1 {
            assert(ds[k] < ds[i - 1]);
        }
    }
    let b = count_of(chosen, d);
    assert(works(ds, have, i, r, b));
    lemma_fewest(ds, have, i, r, b);
    let c = choose|c: nat| is_fewest(ds, have, i, r, c);
    assert(is_fewest(ds, have, i, r, c));
    let left = rest(r, d, c);
    let smaller = exact_plan(ds, have, i - 1, left);
    lemma_exact_plan(ds, have, i - 1, left);
    assert(!smaller.contains_key(d)) by {
        if smaller.contains_key(d) {
            let j = choose|j: int| 0 <= j < i - 1 && #[trigger] ds[j] == d;
            assert(ds[j] < ds[i - 1]);
        }
    }
    assert(count_of(plan, d) == c);
    if k == i - 1 {
        if b < c {
            assert(!works(ds, have, i, r, b));
        }
    } else {
        assert(count_of(chosen, ds[i - 1]) == count_of(plan, ds[i - 1]));
        assert(b == c);
        assert(d * b >= 0) by (nonlinear_arith)
            requires
                d >= 0,
                b >= 0,
        ;
        assert(left == worth_below(ds, chosen, i - 1));
        assert forall|j: int| 0 <= j < i - 1 implies count_of(plan, #[trigger] ds[j]) == count_of(
            smaller,
            ds[j],
        ) by {
            assert(ds[j] < ds[i - 1]);
        }
        assert forall|j: int| k < j < i - 1 implies count_of(chosen, #[trigger] ds[j]) == count_of(
            exact_plan(ds, have, i - 1, worth_below(ds, chosen, i - 1)),
            ds[j],
        ) by {
            assert(count_of(chosen, ds[j]) == count_of(plan, ds[j]));
        }
        lemma_fewest_first(ds, have, chosen, i - 1, k);
    }
}

/// Of all choices that are worth exactly the amount, the one with the smallest denominations is
/// handed out: no other takes fewer notes of the largest denomination in which they differ.
pub proof fn law_exact_smallest_first(
    notes: Map<u64, Seq<Seq<char>>>,
    chosen: Map<u64, nat>,
    amount: nat,
    d: u64,
)
    requires
        notes.dom().finite(),
        chosen.dom().finite(),
        forall|e: u64| #[trigger]
            chosen.contains_key(e) ==> stock(notes).contains_key(e) && chosen[e] <= stock(notes)[e],
        worth(chosen) == amount,
        d > 0,
        forall|e: u64|
            e > d ==> #[trigger] count_of(chosen, e) == count_of(picked(stock(notes), amount), e),
    ensures
        count_of(picked(stock(notes), amount), d) <= count_of(chosen, d),
{
    let have = stock(notes);
    let ds = ascending(have.dom());
    let n = ds.len() as int;
    lemma_stock_worth(notes);
    lemma_have_worth(have);
    lemma_chosen_worth(have, chosen);
    lemma_chosen_payable(ds, have, chosen, n);
    lemma_payable_bound(ds, have, n, amount);
    lemma_picked(have, amount);
    if have.contains_key(d) {
        assert(ds.to_set().contains(d));
        let k = choose|k: int| 0 <= k < n && ds[k] == d;
        let plan = exact_plan(ds, have, n, amount);
        assert forall|j: int| k < j < n implies count_of(chosen, #[trigger] ds[j]) == count_of(
            plan,
            ds[j],
        ) by {
            assert(ds[k] < ds[j]);
            assert(count_of(chosen, ds[j]) == count_of(picked(have, amount), ds[j]));
        }
        lemma_fewest_first(ds, have, chosen, n, k);
    }
}

/// Where more than the amount is handed out, it is in ascending order until the amount is covered:
/// all notes that are smaller than one that is handed out are handed out too, and together with
/// the others of its denomination they do not cover the amount.
pub proof fn law_otherwise_ascending(notes: Map<u64, Seq<Seq<char>>>, amount: nat, d: u64)
    requires
        notes.dom().finite(),
        worth(sizes(notes)) >= amount,
        worth(picked(stock(notes), amount)) > amount,
        picked(stock(notes), amount).contains_key(d),
    ensures
        forall|e: u64|
            #![trigger stock(notes).contains_key(e)]
            stock(notes).contains_key(e) && e < d ==> count_of(picked(stock(notes), amount), e)
                == stock(notes)[e],
        worth(stock(notes).restrict(Set::new(|e: u64| e < d))) + d * (picked(
            stock(notes),
            amount,
        )[d] - 1) < amount,
{
    let have = stock(notes);
    let ds = ascending(have.dom());
    let plan = picked(have, amount);
    lemma_stock_worth(notes);
    lemma_have_worth(have);
    lemma_picked(have, amount);
    assert(have.contains_key(d));
    assert(ds.to_set().contains(d));
    let k = choose|k: int| 0 <= k < ds.len() && ds[k] == d;
    lemma_climbed(have, amount, k);
    let c = plan[d];
    assert(d * (c - 1) == d * c - d) by (nonlinear_arith);
    if worth_below(ds, have, k) + d * have[d] < amount && d == 0 {
        assert(d * c == 0) by (nonlinear_arith)
            requires
                d == 0,
        ;
    }
    assert forall|e: u64|
        #![trigger have.contains_key(e)]
        have.contains_key(e) && e < d implies count_of(plan, e) == have[e] by {
        assert(ds.to_set().contains(e));
        let j = choose|j: int| 0 <= j < ds.len() && ds[j] == e;
        assert(j < k) by {
            if k < j {
                assert(ds[k] < ds[j]);
            }
        }
        lemma_climbed(have, amount, j);
        lemma_below_grows(ds, have, j + 1, k);
        let h = have[e];
        assert(e * h >= 0) by (nonlinear_arith)
            requires
                e >= 0,
                h >= 0,
        ;
    }
}

proof fn lemma_below_grows(ds: Seq<u64>, m: Map<u64, nat>, i: int, j: int)
    requires
        0 <= i <= j <= ds.len(),
    ensures
        worth_below(ds, m, i) <= worth_below(ds, m, j),
    decreases j - i,
{
    if i < j {
        lemma_below_grows(ds, m, i, j - 1);
    }
}

/// Where nothing is asked for, nothing is handed out. Otherwise all the notes that are worth
/// nothing go too.
pub proof fn law_worthless_notes(notes: Map<u64, Seq<Seq<char>>>, amount: nat)
    requires
        notes.dom().finite(),
        worth(sizes(notes)) >= amount,
    ensures
        amount == 0 ==> at_least(notes, amount) == (Some(Seq::<Seq<char>>::empty()), notes),
        amount > 0 ==> count_of(picked(stock(notes), amount), 0) == count_of(stock(notes), 0),
{
    let have = stock(notes);
    let ds = ascending(have.dom());
    let n = ds.len() as int;
    let plan = picked(have, amount);
    lemma_stock_worth(notes);
    lemma_have_worth(have);
    lemma_picked(have, amount);
    if amount == 0 {
        let none = Map::<u64, nat>::empty();
        lemma_worth_below(ds, none, 0);
        lemma_chosen_worth(have, none);
        lemma_chosen_payable(ds, have, none, n);
        lemma_exact_plan(ds, have, n, amount);
        assert forall|d: u64| !#[trigger] plan.contains_key(d) by {
            if plan.contains_key(d) {
                let rest = plan.remove(d);
                assert(rest.insert(d, plan[d]) =~= plan);
                lemma_worth_insert(rest, d, plan[d]);
                let c = plan[d];
                assert(d > 0);
                assert(d * c > 0) by (nonlinear_arith)
                    requires
                        d > 0,
                        c > 0,
                ;
            }
        }
        assert(plan =~= none);
        assert(without(notes, plan) =~= notes);
        lemma_ascending_exists(plan.dom());
        assert(ascending(plan.dom()).len() == 0);
    } else if have.contains_key(0) {
        assert(ds.to_set().contains(0));
        let k = choose|k: int| 0 <= k < ds.len() && ds[k] == 0;
        if !payable(ds, have, n, amount) {
            lemma_climbed(have, amount, k);
            let low = have.restrict(Set::new(|e: u64| e < 0));
            assert(low =~= Map::empty());
            assert(low.map_entries(|d: u64, n: nat| (d * n) as nat) =~= Map::empty());
            let c = have[0];
            assert(0 * c == 0) by (nonlinear_arith);
        }
    }
}

/// The notes that are handed out are those that leave the wallet.
pub proof fn law_at_least_takes_its_notes(notes: Map<u64, Seq<Seq<char>>>, amount: nat)
    requires
        notes.dom().finite(),
        worth(sizes(notes)) >= amount,
    ensures
        at_least(notes, amount).0 == Some(
            drawn(
                notes,
                picked(stock(notes), amount),
                ascending(picked(stock(notes), amount).dom()),
            ),
        ),
        at_least(notes, amount).1 == without(notes, picked(stock(notes), amount)),
{
    lemma_stock_worth(notes);
}

/// Taking at least an amount out of the wallet succeeds exactly if there is enough. The notes that
/// are picked are handed out and leave the wallet, and otherwise nothing does.
pub proof fn law_withdrawing_at_least(
    wallet: &mut Wallet,
    amount: u64,
    selected: Option<Vec<String>>,
)
    requires
        call_ensures(Wallet::withdraw_at_least, (wallet, amount), selected),
        old(wallet)@.dom().finite(),
    ensures
        selected is Some <==> worth(sizes(old(wallet)@)) >= amount,
        selected is None ==> final(wallet)@ == old(wallet)@,
        selected matches Some(selected) ==> {
            let plan = picked(stock(old(wallet)@), amount as nat);
            &&& texts(selected@) == drawn(old(wallet)@, plan, ascending(plan.dom()))
            &&& final(wallet)@ == without(old(wallet)@, plan)
            &&& worth(sizes(final(wallet)@)) + amount <= worth(sizes(old(wallet)@))
        },
{
    law_at_least(old(wallet)@, amount as nat);
    lemma_stock_worth(old(wallet)@);
}

} // verus!
