//! Maps keyed by denomination: walking them in order, adding them up, merging them.

use std::collections::BTreeMap;
use vstd::prelude::*;
use vstd::std_specs::cmp::OrdSpec;
use vstd::std_specs::iter::IteratorSpec;

verus! {

/// Every element is smaller than all that come after it.
pub open spec fn strictly_ascending(s: Seq<u64>) -> bool {
    forall|i: int, j: int| 0 <= i < j < s.len() ==> s[i] < s[j]
}

/// The elements of a finite set of denominations, smallest first.
pub open spec fn ascending(keys: Set<u64>) -> Seq<u64> {
    choose|s: Seq<u64>| #[trigger] strictly_ascending(s) && s.to_set() == keys
}

/// The sum of all values of a map.
pub open spec fn total(m: Map<u64, nat>) -> nat
    recommends
        m.dom().finite(),
    decreases m.dom().len(),
{
    if m.dom().finite() && m.dom().len() > 0 {
        let k = m.dom().choose();
        m[k] + total(m.remove(k))
    } else {
        0
    }
}

/// The counts as natural numbers.
pub open spec fn nats(m: Map<u64, usize>) -> Map<u64, nat> {
    m.map_values(|n: usize| n as nat)
}

/// What `counts[d]` notes of each denomination `d` are worth together.
pub open spec fn worth(counts: Map<u64, nat>) -> nat {
    total(counts.map_entries(|d: u64, n: nat| (d * n) as nat))
}

/// What is listed under `d`: nothing where `d` is no key.
pub open spec fn listed<T>(m: Map<u64, Seq<T>>, d: u64) -> Seq<T> {
    if m.contains_key(d) {
        m[d]
    } else {
        Seq::empty()
    }
}

/// How many items are listed under each key.
pub open spec fn sizes<T>(m: Map<u64, Seq<T>>) -> Map<u64, nat> {
    m.map_values(|s: Seq<T>| s.len())
}

/// Both maps' lists under each key of either, those of `a` first.
pub open spec fn merged<T>(a: Map<u64, Seq<T>>, b: Map<u64, Seq<T>>) -> Map<u64, Seq<T>> {
    Map::new(
        |d: u64| a.contains_key(d) || b.contains_key(d),
        |d: u64| listed(a, d) + listed(b, d),
    )
}

/// Two strictly ascending sequences of the same elements are the same.
pub proof fn lemma_ascending_unique(a: Seq<u64>, b: Seq<u64>)
    requires
        strictly_ascending(a),
        strictly_ascending(b),
        a.to_set() == b.to_set(),
    ensures
        a == b,
    decreases a.len(),
{
    if a.len() == 0 {
        if b.len() > 0 {
            assert(b.to_set().contains(b[0]));
            assert(a.to_set().contains(b[0]));
        }
    } else {
        assert(a.to_set().contains(a.last()));
        assert(b.to_set().contains(a.last()));
        let j = choose|j: int| 0 <= j < b.len() && b[j] == a.last();
        assert(b.to_set().contains(b.last()));
        assert(a.to_set().contains(b.last()));
        let i = choose|i: int| 0 <= i < a.len() && a[i] == b.last();
        assert(a.last() == b.last());
        let x = a.drop_last();
        let y = b.drop_last();
        assert forall|k: u64| #[trigger] x.to_set().contains(k) == y.to_set().contains(k) by {
            if x.contains(k) {
                let p = choose|p: int| 0 <= p < x.len() && x[p] == k;
                assert(a[p] == k);
                assert(a.to_set().contains(k));
                assert(b.to_set().contains(k));
                let q = choose|q: int| 0 <= q < b.len() && b[q] == k;
                assert(y[q] == k);
            }
            if y.contains(k) {
                let p = choose|p: int| 0 <= p < y.len() && y[p] == k;
                assert(b[p] == k);
                assert(b.to_set().contains(k));
                assert(a.to_set().contains(k));
                let q = choose|q: int| 0 <= q < a.len() && a[q] == k;
                assert(x[q] == k);
            }
        }
        assert(x.to_set() =~= y.to_set());
        lemma_ascending_unique(x, y);
        assert(a =~= x.push(a.last()));
        assert(b =~= y.push(b.last()));
    }
}

/// A strictly ascending sequence is `ascending` of its own elements.
pub proof fn lemma_ascending_is(s: Seq<u64>)
    requires
        strictly_ascending(s),
    ensures
        ascending(s.to_set()) == s,
{
    let t = ascending(s.to_set());
    assert(strictly_ascending(t) && t.to_set() == s.to_set());
    lemma_ascending_unique(s, t);
}

/// What the first items of a sequence contain, with one item more.
pub proof fn lemma_take_contains<T>(s: Seq<T>, i: int, x: T)
    requires
        0 <= i < s.len(),
    ensures
        s.take(i + 1).contains(x) <==> s.take(i).contains(x) || s[i] == x,
{
    let a = s.take(i);
    let b = s.take(i + 1);
    if b.contains(x) {
        let k = choose|k: int| 0 <= k < b.len() && b[k] == x;
        assert(k < i ==> a[k] == x);
    }
    if a.contains(x) {
        let k = choose|k: int| 0 <= k < a.len() && a[k] == x;
        assert(b[k] == x);
    }
    assert(b[i] == s[i]);
}

/// Every finite set of denominations can be listed smallest first.
pub proof fn lemma_ascending_exists(keys: Set<u64>)
    requires
        keys.finite(),
    ensures
        strictly_ascending(ascending(keys)),
        ascending(keys).to_set() == keys,
        ascending(keys).len() == keys.len(),
    decreases keys.len(),
{
    if keys.len() == 0 {
        assert(Seq::<u64>::empty().to_set() =~= keys);
        lemma_ascending_is(Seq::<u64>::empty());
    } else {
        let top = largest(keys);
        let rest = ascending(keys.remove(top));
        lemma_ascending_exists(keys.remove(top));
        let s = rest.push(top);
        assert forall|i: int| 0 <= i < rest.len() implies #[trigger] rest[i] < top by {
            assert(rest.to_set().contains(rest[i]));
        }
        assert(s.to_set() =~= keys) by {
            assert forall|k: u64| keys.contains(k) implies s.to_set().contains(k) by {
                if k == top {
                    assert(s[rest.len() as int] == k);
                } else {
                    assert(rest.to_set().contains(k));
                    let i = choose|i: int| 0 <= i < rest.len() && rest[i] == k;
                    assert(s[i] == k);
                }
            }
            assert forall|k: u64| s.to_set().contains(k) implies keys.contains(k) by {
                let i = choose|i: int| 0 <= i < s.len() && s[i] == k;
                if i < rest.len() {
                    assert(rest.to_set().contains(rest[i]));
                }
            }
        }
        lemma_ascending_is(s);
    }
}

/// A largest element of a finite set that holds any.
proof fn largest(keys: Set<u64>) -> (top: u64)
    requires
        keys.finite(),
        keys.len() > 0,
    ensures
        keys.contains(top),
        forall|k: u64| #[trigger] keys.contains(k) ==> k <= top,
    decreases keys.len(),
{
    let k = keys.choose();
    assert(keys.contains(k));
    if keys.len() == 1 {
        assert forall|j: u64| #[trigger] keys.contains(j) implies j <= k by {
            if j != k {
                assert(keys.remove(k).contains(j));
                assert(keys.remove(k).len() == 0);
            }
        }
        k
    } else {
        let top = largest(keys.remove(k));
        if k > top {
            k
        } else {
            top
        }
    }
}

/// The sum of a map is the value under any one key and the sum of the rest.
pub proof fn lemma_total_remove(m: Map<u64, nat>, k: u64)
    requires
        m.dom().finite(),
        m.contains_key(k),
    ensures
        total(m) == m[k] + total(m.remove(k)),
    decreases m.dom().len(),
{
    let c = m.dom().choose();
    assert(m.dom().contains(c));
    if c != k {
        lemma_total_remove(m.remove(c), k);
        lemma_total_remove(m.remove(k), c);
        assert(m.remove(c).remove(k) =~= m.remove(k).remove(c));
    }
}

/// Setting the value under a key changes the sum by as much as that value changes.
pub proof fn lemma_total_insert(m: Map<u64, nat>, k: u64, v: nat)
    requires
        m.dom().finite(),
    ensures
        m.contains_key(k) ==> total(m.insert(k, v)) + m[k] == total(m) + v,
        !m.contains_key(k) ==> total(m.insert(k, v)) == total(m) + v,
{
    lemma_total_remove(m.insert(k, v), k);
    if m.contains_key(k) {
        lemma_total_remove(m, k);
        assert(m.insert(k, v).remove(k) =~= m.remove(k));
    } else {
        assert(m.insert(k, v).remove(k) =~= m);
    }
}

/// The sum of a map none of whose values exceeds the other's does not exceed its sum.
pub proof fn lemma_total_monotone(a: Map<u64, nat>, b: Map<u64, nat>)
    requires
        a.dom().finite(),
        b.dom().finite(),
        forall|k: u64| #[trigger] a.contains_key(k) ==> b.contains_key(k) && a[k] <= b[k],
    ensures
        total(a) <= total(b),
    decreases a.dom().len(),
{
    if a.dom().len() > 0 {
        let k = a.dom().choose();
        assert(a.dom().contains(k));
        assert(a.contains_key(k));
        lemma_total_remove(b, k);
        lemma_total_monotone(a.remove(k), b.remove(k));
    }
}

/// Adding two maps key by key adds their sums.
pub proof fn lemma_total_add(a: Map<u64, nat>, b: Map<u64, nat>, c: Map<u64, nat>)
    requires
        a.dom().finite(),
        b.dom().finite(),
        forall|k: u64| #[trigger]
            c.contains_key(k) <==> a.contains_key(k) || b.contains_key(k),
        forall|k: u64| #[trigger]
            c.contains_key(k) ==> c[k] == (if a.contains_key(k) {
                a[k]
            } else {
                0
            }) + (if b.contains_key(k) {
                b[k]
            } else {
                0
            }),
    ensures
        c.dom().finite(),
        total(c) == total(a) + total(b),
    decreases b.dom().len(),
{
    if b.dom().len() == 0 {
        assert(c =~= a) by {
            assert(b.dom() =~= Set::empty());
            assert forall|k: u64| !#[trigger] b.contains_key(k) by {
                assert(!b.dom().contains(k));
            }
            assert forall|k: u64| c.dom().contains(k) == a.dom().contains(k) by {
                assert(c.contains_key(k) == a.contains_key(k));
            }
            assert forall|k: u64| c.dom().contains(k) implies c[k] == a[k] by {
                assert(c.contains_key(k));
            }
        }
    } else {
        let k = b.dom().choose();
        assert(b.dom().contains(k));
        assert(b.contains_key(k));
        let a0 = a.remove(k);
        let b0 = b.remove(k);
        let c0 = c.remove(k);
        assert(c.contains_key(k));
        assert forall|j: u64| #[trigger]
            c0.contains_key(j) <==> a0.contains_key(j) || b0.contains_key(j) by {
            assert(c.contains_key(j) <==> a.contains_key(j) || b.contains_key(j));
        }
        assert forall|j: u64| #[trigger] c0.contains_key(j) implies c0[j] == (
        if a0.contains_key(j) {
            a0[j]
        } else {
            0
        }) + (if b0.contains_key(j) {
            b0[j]
        } else {
            0
        }) by {
            assert(c.contains_key(j));
        }
        lemma_total_add(a0, b0, c0);
        assert(c.dom() =~= c0.dom().insert(k));
        lemma_total_remove(b, k);
        lemma_total_remove(c, k);
        if a.contains_key(k) {
            lemma_total_remove(a, k);
        } else {
            assert(a0 =~= a);
        }
    }
}

/// Changing how many notes there are of one denomination changes the worth accordingly.
pub proof fn lemma_worth_insert(counts: Map<u64, nat>, d: u64, n: nat)
    requires
        counts.dom().finite(),
    ensures
        counts.contains_key(d) ==> worth(counts.insert(d, n)) + d * counts[d] == worth(counts) + d
            * n,
        !counts.contains_key(d) ==> worth(counts.insert(d, n)) == worth(counts) + d * n,
{
    let f = |d: u64, n: nat| (d * n) as nat;
    let m = counts.map_entries(f);
    assert(counts.insert(d, n).map_entries(f) =~= m.insert(d, (d * n) as nat));
    assert(m.dom() =~= counts.dom());
    lemma_total_insert(m, d, (d * n) as nat);
    assert(d * n >= 0) by (nonlinear_arith);
    if counts.contains_key(d) {
        assert(d * counts[d] >= 0) by (nonlinear_arith);
    }
}

/// The keys of the map, smallest first.
pub fn keys_ascending<V>(m: &BTreeMap<u64, V>) -> (keys: Vec<u64>)
    ensures
        keys@ == ascending(m@.dom()),
        strictly_ascending(keys@),
        keys@.to_set() == m@.dom(),
        keys@.len() == m@.dom().len(),
{
    let mut keys: Vec<u64> = Vec::new();
    let iter = m.iter();
    let ghost entries = iter.remaining();
    let ghost firsts = entries.map_values(|kv: (&u64, &V)| *kv.0);
    for e in it: iter
        invariant
            it.seq() == entries,
            firsts == entries.map_values(|kv: (&u64, &V)| *kv.0),
            keys@ == firsts.take(it.index()),
    {
        keys.push(*e.0);
    }
    proof {
        assert(keys@ =~= firsts);
        assert forall|i: int, j: int| 0 <= i < j < firsts.len() implies firsts[i] < firsts[j] by {
            assert(firsts[i].cmp_spec(&firsts[j]) is Less);
        }
        assert forall|k: u64| #[trigger] firsts.to_set().contains(k) == m@.dom().contains(k) by {
            if firsts.contains(k) {
                let i = choose|i: int| 0 <= i < firsts.len() && firsts[i] == k;
                assert(m@.contains_key(*entries[i].0));
            }
            if m@.contains_key(k) {
                assert(entries.contains((&k, &m@[k])));
                let i = choose|i: int| 0 <= i < entries.len() && entries[i] == (&k, &m@[k]);
                assert(firsts[i] == k);
            }
        }
        assert(firsts.to_set() =~= m@.dom());
        lemma_ascending_is(firsts);
    }
    keys
}

/// Adds items to the end of the list under `d`, which is made if `d` is no key yet.
pub fn append_at<T>(m: &mut BTreeMap<u64, Vec<T>>, d: u64, items: Vec<T>)
    ensures
        final(m)@.dom() == old(m)@.dom().insert(d),
        final(m)@[d]@ == (if old(m)@.contains_key(d) {
            old(m)@[d]@
        } else {
            Seq::empty()
        }) + items@,
        forall|k: u64| k != d && #[trigger] old(m)@.contains_key(k) ==> final(m)@[k] == old(m)@[k],
{
    let mut items = items;
    let mut list: Vec<T> = match m.remove(&d) {
        Some(list) => list,
        None => Vec::new(),
    };
    list.append(&mut items);
    m.insert(d, list);
    assert(m@.dom() =~= old(m)@.dom().insert(d));
}

/// What is in the list under `d`: nothing where `d` is no key.
pub open spec fn items<T>(m: Map<u64, Vec<T>>, d: u64) -> Seq<T> {
    if m.contains_key(d) {
        m[d]@
    } else {
        Seq::empty()
    }
}

/// Adds each list of `from` to the end of that under the same key.
pub fn merge_tiers<T>(into: &mut BTreeMap<u64, Vec<T>>, from: BTreeMap<u64, Vec<T>>)
    ensures
        forall|d: u64| #[trigger]
            final(into)@.contains_key(d) <==> old(into)@.contains_key(d) || from@.contains_key(d),
        forall|d: u64| #[trigger]
            final(into)@.contains_key(d) ==> final(into)@[d]@ == items(old(into)@, d) + items(
                from@,
                d,
            ),
{
    let denoms = keys_ascending(&from);
    let ghost ds = denoms@;
    let ghost before = into@;
    let ghost given = from@;
    let mut left = from;
    let mut i: usize = 0;
    while i < denoms.len()
        invariant
            i <= ds.len(),
            ds == denoms@,
            strictly_ascending(ds),
            ds.to_set() == given.dom(),
            forall|k: int| i <= k < ds.len() ==> left@.contains_key(#[trigger] ds[k]),
            forall|d: u64| #[trigger] left@.contains_key(d) ==> given.contains_key(d) && left@[d]
                == given[d],
            forall|d: u64| #[trigger]
                into@.contains_key(d) <==> before.contains_key(d) || ds.take(i as int).contains(d),
            forall|d: u64| #[trigger]
                into@.contains_key(d) ==> into@[d]@ == (if ds.take(i as int).contains(d) {
                    items(before, d) + given[d]@
                } else {
                    before[d]@
                }),
        decreases ds.len() - i,
    {
        let d: u64 = denoms[i];
        let ghost was = into@;
        assert(left@.contains_key(ds[i as int]));
        let list: Vec<T> = match left.remove(&d) {
            Some(list) => list,
            None => Vec::new(),
        };
        append_at(into, d, list);
        proof {
            assert(!ds.take(i as int).contains(d)) by {
                assert forall|k: int| 0 <= k < i implies #[trigger] ds[k] != d by {
                    assert(ds[k] < ds[i as int]);
                }
            }
            assert forall|k: int| i < k < ds.len() implies left@.contains_key(#[trigger] ds[k]) by {
                assert(ds[i as int] < ds[k]);
            }
            assert forall|e: u64| #[trigger] ds.take(i + 1).contains(e) == (ds.take(
                i as int,
            ).contains(e) || e == d) by {
                lemma_take_contains(ds, i as int, e);
            }
            assert(was.contains_key(d) == before.contains_key(d));
            assert forall|e: u64| #[trigger] into@.contains_key(e) implies into@[e]@ == (
            if ds.take(i + 1).contains(e) {
                items(before, e) + given[e]@
            } else {
                before[e]@
            }) by {
                if e != d {
                    assert(was.contains_key(e));
                    assert(into@[e] == was[e]);
                }
            }
        }
        i = i + 1;
    }
    proof {
        assert(ds.take(i as int) =~= ds);
        assert forall|d: u64| ds.contains(d) == given.contains_key(d) by {
            assert(ds.to_set().contains(d) == given.contains_key(d));
        }
        assert forall|d: u64| #[trigger] into@.contains_key(d) implies into@[d]@ == items(before, d)
            + items(given, d) by {
            if !ds.contains(d) {
                assert(before[d]@ + Seq::<T>::empty() =~= before[d]@);
            }
        }
    }
}

/// What `counts` are worth together, unless that is more than a `u64` holds.
pub fn checked_worth(counts: &BTreeMap<u64, usize>) -> (sum: Option<u64>)
    ensures
        match sum {
            Some(sum) => sum == worth(nats(counts@)),
            None => worth(nats(counts@)) > u64::MAX,
        },
{
    let ghost all = nats(counts@);
    let denoms = keys_ascending(counts);
    let ghost ds = denoms@;
    let mut sum: u64 = 0;
    let mut i: usize = 0;
    proof {
        assert(all.dom() =~= counts@.dom());
        assert(ds.take(0).to_set() =~= Set::empty());
        assert(all.restrict(ds.take(0).to_set()) =~= Map::empty());
        assert(Map::<u64, nat>::empty().map_entries(|d: u64, n: nat| (d * n) as nat)
            =~= Map::empty());
        assert(worth(Map::empty()) == 0);
    }
    while i < denoms.len()
        invariant
            i <= ds.len(),
            ds == denoms@,
            all == nats(counts@),
            all.dom() == counts@.dom(),
            strictly_ascending(ds),
            ds.to_set() == counts@.dom(),
            sum == worth(all.restrict(ds.take(i as int).to_set())),
        decreases ds.len() - i,
    {
        let d: u64 = denoms[i];
        assert(ds.to_set().contains(d));
        let n: usize = match counts.get(&d) {
            Some(n) => *n,
            None => 0,
        };
        let ghost before = all.restrict(ds.take(i as int).to_set());
        let ghost after = all.restrict(ds.take(i + 1).to_set());
        proof {
            assert(!ds.take(i as int).contains(d)) by {
                assert forall|k: int| 0 <= k < i implies #[trigger] ds[k] != d by {
                    assert(ds[k] < ds[i as int]);
                }
            }
            assert forall|k: u64| #[trigger] ds.take(i + 1).to_set().contains(k) == (ds.take(
                i as int,
            ).to_set().contains(k) || k == d) by {
                lemma_take_contains(ds, i as int, k);
            }
            assert(before.dom() =~= all.dom().intersect(ds.take(i as int).to_set()));
            assert(after =~= before.insert(d, n as nat));
            lemma_worth_insert(before, d, n as nat);
            lemma_worth_monotone(after, all);
        }
        let part: u64 = match d.checked_mul(n as u64) {
            Some(part) => part,
            None => {
                return None;
            },
        };
        sum = match sum.checked_add(part) {
            Some(sum) => sum,
            None => {
                return None;
            },
        };
        i = i + 1;
    }
    proof {
        assert(ds.take(i as int) =~= ds);
        assert(all.restrict(ds.to_set()) =~= all);
    }
    Some(sum)
}

/// Fewer notes are worth no more.
pub proof fn lemma_worth_monotone(a: Map<u64, nat>, b: Map<u64, nat>)
    requires
        a.dom().finite(),
        b.dom().finite(),
        forall|k: u64| #[trigger] a.contains_key(k) ==> b.contains_key(k) && a[k] <= b[k],
    ensures
        worth(a) <= worth(b),
{
    let f = |d: u64, n: nat| (d * n) as nat;
    let ma = a.map_entries(f);
    let mb = b.map_entries(f);
    assert(ma.dom() =~= a.dom());
    assert(mb.dom() =~= b.dom());
    assert forall|k: u64| #[trigger] ma.contains_key(k) implies mb.contains_key(k) && ma[k]
        <= mb[k] by {
        assert(a.contains_key(k));
        let x = a[k];
        let y = b[k];
        assert(0 <= k * x <= k * y) by (nonlinear_arith)
            requires
                0 <= x <= y,
                0 <= k,
        ;
    }
    lemma_total_monotone(ma, mb);
}

/// Notes that are counted together are worth what they are worth apart.
pub proof fn lemma_worth_add(a: Map<u64, nat>, b: Map<u64, nat>, c: Map<u64, nat>)
    requires
        a.dom().finite(),
        b.dom().finite(),
        forall|k: u64| #[trigger]
            c.contains_key(k) <==> a.contains_key(k) || b.contains_key(k),
        forall|k: u64| #[trigger]
            c.contains_key(k) ==> c[k] == (if a.contains_key(k) {
                a[k]
            } else {
                0
            }) + (if b.contains_key(k) {
                b[k]
            } else {
                0
            }),
    ensures
        worth(c) == worth(a) + worth(b),
{
    let f = |d: u64, n: nat| (d * n) as nat;
    let ma = a.map_entries(f);
    let mb = b.map_entries(f);
    let mc = c.map_entries(f);
    assert(ma.dom() =~= a.dom());
    assert(mb.dom() =~= b.dom());
    assert forall|k: u64| #[trigger]
        mc.contains_key(k) <==> ma.contains_key(k) || mb.contains_key(k) by {
        assert(c.contains_key(k) <==> a.contains_key(k) || b.contains_key(k));
    }
    assert forall|k: u64| #[trigger] mc.contains_key(k) implies mc[k] == (if ma.contains_key(k) {
        ma[k]
    } else {
        0
    }) + (if mb.contains_key(k) {
        mb[k]
    } else {
        0
    }) by {
        assert(c.contains_key(k));
        let x = if a.contains_key(k) {
            a[k]
        } else {
            0
        };
        let y = if b.contains_key(k) {
            b[k]
        } else {
            0
        };
        assert(k * (x + y) == k * x + k * y && k * x >= 0 && k * y >= 0) by (nonlinear_arith)
            requires
                k >= 0,
                x >= 0,
                y >= 0,
        ;
        assert(k * 0 == 0) by (nonlinear_arith);
    }
    lemma_total_add(ma, mb, mc);
}

/// Merged lists are worth what they are worth apart.
pub proof fn lemma_merged_worth<T>(a: Map<u64, Seq<T>>, b: Map<u64, Seq<T>>)
    requires
        a.dom().finite(),
        b.dom().finite(),
    ensures
        worth(sizes(merged(a, b))) == worth(sizes(a)) + worth(sizes(b)),
        merged(a, b).dom().finite(),
{
    let c = merged(a, b);
    assert(sizes(a).dom() =~= a.dom());
    assert(sizes(b).dom() =~= b.dom());
    assert(c.dom() =~= a.dom().union(b.dom()));
    assert forall|k: u64| #[trigger] sizes(c).contains_key(k) implies sizes(c)[k] == (if sizes(
        a,
    ).contains_key(k) {
        sizes(a)[k]
    } else {
        0
    }) + (if sizes(b).contains_key(k) {
        sizes(b)[k]
    } else {
        0
    }) by {
        assert(c.contains_key(k));
    }
    lemma_worth_add(sizes(a), sizes(b), sizes(c));
}

/// Denominations of which there are no notes add nothing.
pub proof fn lemma_worth_nonzero(a: Map<u64, nat>, b: Map<u64, nat>)
    requires
        a.dom().finite(),
        b.dom().finite(),
        forall|k: u64| #[trigger] a.contains_key(k) ==> b.contains_key(k) && a[k] == b[k],
        forall|k: u64| #[trigger] b.contains_key(k) ==> a.contains_key(k) || b[k] == 0,
    ensures
        worth(a) == worth(b),
    decreases b.dom().len(),
{
    lemma_worth_monotone(a, b);
    if exists|k: u64| b.contains_key(k) && !a.contains_key(k) {
        let k = choose|k: u64| b.contains_key(k) && !a.contains_key(k);
        let rest = b.remove(k);
        assert(rest.insert(k, 0) =~= b);
        lemma_worth_insert(rest, k, 0);
        assert(k * 0 == 0) by (nonlinear_arith);
        lemma_worth_nonzero(a, rest);
    } else {
        assert(a =~= b);
    }
}

} // verus!
