//! What happened at the till.

use crate::text::{chars_of, decimal, push_decimal, texts};
use vstd::prelude::*;

verus! {

/// What kind of business a transaction was.
#[derive(Clone, Copy, Debug, PartialEq, Eq, Structural)]
pub enum TxType {
    /// A customer paid.
    Sale,
    /// Notes were put into the wallet.
    Deposit,
    /// Notes were taken out of the wallet.
    Withdrawal,
}

impl TxType {
    /// The name of the kind.
    pub open spec fn spec_name(self) -> Seq<char> {
        match self {
            TxType::Sale => "Sale"@,
            TxType::Deposit => "Deposit"@,
            TxType::Withdrawal => "Withdrawal"@,
        }
    }

    /// The name of the kind.
    pub fn name(&self) -> (name: String)
        ensures
            name@ == self.spec_name(),
    {
        match self {
            TxType::Sale => "Sale".to_string(),
            TxType::Deposit => "Deposit".to_string(),
            TxType::Withdrawal => "Withdrawal".to_string(),
        }
    }

    /// The sign of the amount, and the colour that it is shown in.
    pub fn sign_and_color(&self) -> (shown: (&'static str, &'static str))
        ensures
            match self {
                TxType::Sale => shown.0@ == "+"@ && shown.1@ == "#059669"@,
                TxType::Deposit => shown.0@ == "+"@ && shown.1@ == "#2563eb"@,
                TxType::Withdrawal => shown.0@ == "-"@ && shown.1@ == "#dc2626"@,
            },
    {
        match self {
            TxType::Sale => ("+", "#059669"),
            TxType::Deposit => ("+", "#2563eb"),
            TxType::Withdrawal => ("-", "#dc2626"),
        }
    }
}

/// The amounts of a transaction.
#[derive(Clone, Copy, Debug, PartialEq, Eq, Structural)]
pub struct Entry {
    /// What was asked for, put in or taken out, in msats.
    pub amount_msats: u64,
    /// The change that was due, in msats.
    pub change_msats: u64,
    /// What the customer paid, in msats.
    pub paid_msats: u64,
    /// What kind of business it was.
    pub tx_type: TxType,
}

/// A transaction. The amount in its currency is of the type `F`.
#[derive(Clone, Debug)]
pub struct Transaction<F> {
    /// When it took place.
    pub timestamp: u64,
    /// What was asked for, put in or taken out, in msats.
    pub amount_msats: u64,
    /// The currency.
    pub currency: String,
    /// The amount in that currency.
    pub fiat_amount: F,
    /// The change that was due, in msats.
    pub change_msats: u64,
    /// What the customer paid, in msats.
    pub paid_msats: u64,
    /// What kind of business it was.
    pub tx_type: TxType,
}

impl<F> Transaction<F> {
    /// A transaction in sats.
    pub fn in_sats(timestamp: u64, entry: Entry, fiat_amount: F) -> (tx: Self)
        ensures
            tx.timestamp == timestamp,
            tx.amount_msats == entry.amount_msats,
            tx.currency@ == "sat"@,
            tx.fiat_amount == fiat_amount,
            tx.change_msats == entry.change_msats,
            tx.paid_msats == entry.paid_msats,
            tx.tx_type == entry.tx_type,
    {
        Transaction {
            timestamp,
            amount_msats: entry.amount_msats,
            currency: "sat".to_string(),
            fiat_amount,
            change_msats: entry.change_msats,
            paid_msats: entry.paid_msats,
            tx_type: entry.tx_type,
        }
    }

    /// The amount in whole sats, with its sign.
    pub fn amount_text(&self) -> (text: String)
        ensures
            text@ == (if self.tx_type is Withdrawal {
                "-"@
            } else {
                "+"@
            }) + decimal((self.amount_msats / 1000) as nat) + " sats"@,
    {
        let (sign, _color) = self.tx_type.sign_and_color();
        let mut text = sign.to_string();
        push_decimal(&mut text, self.amount_msats / 1000);
        text.append(" sats");
        text
    }
}

/// Adds a transaction to the list of all of them.
pub fn add_transaction<F>(txs: &mut Vec<Transaction<F>>, tx: Transaction<F>)
    ensures
        final(txs)@ == old(txs)@.push(tx),
{
    txs.push(tx);
}

/// `n` with at least two digits.
pub open spec fn two_digits(n: nat) -> Seq<char> {
    if n < 10 {
        "0"@ + decimal(n)
    } else {
        decimal(n)
    }
}

/// A date as year, month and day, where `month` counts from zero.
pub open spec fn date_text(year: nat, month: nat, day: nat) -> Seq<char> {
    decimal(year) + "-"@ + two_digits(month + 1) + "-"@ + two_digits(day)
}

/// Writes a date as year, month and day, where `month` counts from zero.
pub fn format_date(year: u32, month: u32, day: u32) -> (text: String)
    ensures
        text@ == date_text(year as nat, month as nat, day as nat),
{
    let mut text = String::new();
    push_decimal(&mut text, year as u64);
    text.append("-");
    push_two_digits(&mut text, month as u64 + 1);
    text.append("-");
    push_two_digits(&mut text, day as u64);
    assert(text@ =~= date_text(year as nat, month as nat, day as nat));
    text
}

fn push_two_digits(out: &mut String, n: u64)
    ensures
        final(out)@ == old(out)@ + two_digits(n as nat),
{
    if n < 10 {
        out.append("0");
    }
    push_decimal(out, n);
    assert(out@ =~= old(out)@ + two_digits(n as nat));
}

/// `a` comes before `b` in the order of a dictionary.
pub open spec fn comes_before(a: Seq<char>, b: Seq<char>) -> bool
    decreases b.len(),
{
    if b.len() == 0 {
        false
    } else if a.len() == 0 {
        true
    } else if a[0] != b[0] {
        a[0] < b[0]
    } else {
        comes_before(a.skip(1), b.skip(1))
    }
}

/// Of two texts, one comes before the other or they are the same.
pub proof fn lemma_comes_before_total(a: Seq<char>, b: Seq<char>)
    ensures
        comes_before(a, b) || comes_before(b, a) || a == b,
        !(comes_before(a, b) && comes_before(b, a)),
        !comes_before(a, a),
    decreases a.len(),
{
    if a.len() > 0 && b.len() > 0 && a[0] == b[0] {
        lemma_comes_before_total(a.skip(1), b.skip(1));
        if a.skip(1) == b.skip(1) {
            assert(a =~= seq![a[0]] + a.skip(1));
            assert(b =~= seq![b[0]] + b.skip(1));
        }
    } else if a.len() > 0 {
        lemma_comes_before_total(a.skip(1), a.skip(1));
    }
    if a.len() == 0 && b.len() == 0 {
        assert(a =~= b);
    }
    if a.len() > 0 {
        lemma_comes_before_total(a.skip(1), a.skip(1));
    }
}

/// What comes before what comes before a text comes before it too.
pub proof fn lemma_comes_before_transitive(a: Seq<char>, b: Seq<char>, c: Seq<char>)
    requires
        comes_before(a, b),
        comes_before(b, c),
    ensures
        comes_before(a, c),
    decreases a.len(),
{
    if a.len() > 0 && a[0] == b[0] && b[0] == c[0] {
        lemma_comes_before_transitive(a.skip(1), b.skip(1), c.skip(1));
    }
}

/// Whether `a` comes before `b` in the order of a dictionary.
pub fn is_before(a: &str, b: &str) -> (yes: bool)
    ensures
        yes == comes_before(a@, b@),
{
    let x = chars_of(a);
    let y = chars_of(b);
    let mut i: usize = 0;
    assert(a@.skip(0) =~= a@);
    assert(b@.skip(0) =~= b@);
    while i < x.len() && i < y.len()
        invariant
            i <= x@.len(),
            i <= y@.len(),
            x@ == a@,
            y@ == b@,
            comes_before(a@, b@) == comes_before(a@.skip(i as int), b@.skip(i as int)),
        decreases x@.len() - i,
    {
        assert(a@.skip(i as int)[0] == x@[i as int]);
        assert(b@.skip(i as int)[0] == y@[i as int]);
        if x[i] != y[i] {
            return x[i] < y[i];
        }
        assert(a@.skip(i as int).skip(1) =~= a@.skip(i + 1));
        assert(b@.skip(i as int).skip(1) =~= b@.skip(i + 1));
        i = i + 1;
    }
    i < y.len()
}

/// Transactions of one day, the latest first.
#[derive(Debug)]
pub struct DayGroup<F> {
    /// The day.
    pub date: String,
    /// The transactions.
    pub txs: Vec<Transaction<F>>,
}

/// Those of `txs` that have the date `date`, where `dates` holds the date of each.
pub open spec fn of_date<F>(
    txs: Seq<Transaction<F>>,
    dates: Seq<Seq<char>>,
    date: Seq<char>,
) -> Seq<Transaction<F>>
    decreases txs.len(),
{
    if txs.len() == 0 {
        Seq::empty()
    } else {
        let rest = of_date(txs.drop_last(), dates.drop_last(), date);
        if dates.last() == date {
            rest.push(txs.last())
        } else {
            rest
        }
    }
}

/// The groups are in the order of their dates, no two of one date. Each holds the transactions
/// of its date in their order, and there is one for each date.
pub open spec fn grouped<F>(
    groups: Seq<DayGroup<F>>,
    txs: Seq<Transaction<F>>,
    dates: Seq<Seq<char>>,
) -> bool {
    &&& forall|i: int, j: int|
        0 <= i < j < groups.len() ==> comes_before(
            (#[trigger] groups[i]).date@,
            (#[trigger] groups[j]).date@,
        )
    &&& forall|i: int|
        0 <= i < groups.len() ==> (#[trigger] groups[i]).txs@ == of_date(
            txs,
            dates,
            groups[i].date@,
        ) && dates.contains(groups[i].date@)
    &&& forall|k: int|
        0 <= k < dates.len() ==> exists|i: int|
            0 <= i < groups.len() && (#[trigger] groups[i]).date@ == #[trigger] dates[k]
}

/// What the transactions of a date are with one transaction more.
proof fn lemma_of_date_push<F>(
    txs: Seq<Transaction<F>>,
    dates: Seq<Seq<char>>,
    tx: Transaction<F>,
    d: Seq<char>,
    date: Seq<char>,
)
    ensures
        of_date(txs.push(tx), dates.push(d), date) == (if d == date {
            of_date(txs, dates, date).push(tx)
        } else {
            of_date(txs, dates, date)
        }),
{
    assert(txs.push(tx).drop_last() =~= txs);
    assert(dates.push(d).drop_last() =~= dates);
}

proof fn lemma_of_no_date<F>(txs: Seq<Transaction<F>>, dates: Seq<Seq<char>>, date: Seq<char>)
    requires
        txs.len() == dates.len(),
        !dates.contains(date),
    ensures
        of_date(txs, dates, date) == Seq::<Transaction<F>>::empty(),
    decreases txs.len(),
{
    if txs.len() > 0 {
        assert(dates[dates.len() - 1] != date);
        assert(!dates.drop_last().contains(date)) by {
            if dates.drop_last().contains(date) {
                let k = choose|k: int| 0 <= k < dates.len() - 1 && dates.drop_last()[k] == date;
                assert(dates[k] == date);
            }
        }
        lemma_of_no_date(txs.drop_last(), dates.drop_last(), date);
    }
}

/// Puts a transaction into the group of its date, which is made if there is none yet.
fn add_to_group<F>(
    groups: &mut Vec<DayGroup<F>>,
    tx: Transaction<F>,
    date: String,
    Ghost(seen): Ghost<Seq<Transaction<F>>>,
    Ghost(seen_dates): Ghost<Seq<Seq<char>>>,
)
    requires
        grouped(old(groups)@, seen, seen_dates),
        seen.len() == seen_dates.len(),
    ensures
        grouped(final(groups)@, seen.push(tx), seen_dates.push(date@)),
{
    let ghost before = groups@;
    let ghost all = seen.push(tx);
    let ghost all_dates = seen_dates.push(date@);
    let mut k: usize = 0;
    while k < groups.len() && is_before(groups[k].date.as_str(), date.as_str())
        invariant
            k <= groups@.len(),
            groups@ == before,
            forall|i: int| 0 <= i < k ==> comes_before((#[trigger] before[i]).date@, date@),
        decreases groups@.len() - k,
    {
        k = k + 1;
    }
    proof {
        assert forall|d: Seq<char>| of_date(all, all_dates, d) == (if d == date@ {
            of_date(seen, seen_dates, d).push(tx)
        } else {
            of_date(seen, seen_dates, d)
        }) by {
            lemma_of_date_push(seen, seen_dates, tx, date@, d);
        }
        assert(all_dates[seen_dates.len() as int] == date@);
        assert forall|d: Seq<char>| seen_dates.contains(d) implies all_dates.contains(d) by {
            let j = choose|j: int| 0 <= j < seen_dates.len() && seen_dates[j] == d;
            assert(all_dates[j] == d);
        }
    }
    if k < groups.len() && groups[k].date.eq(&date) {
        let mut group = groups.remove(k);
        group.txs.push(tx);
        groups.insert(k, group);
        proof {
            let after = groups@;
            assert(after.len() == before.len());
            assert forall|i: int| 0 <= i < after.len() implies (#[trigger] after[i]).date
                == before[i].date by {}
            assert forall|i: int| 0 <= i < after.len() implies (#[trigger] after[i]).txs@
                == of_date(all, all_dates, after[i].date@) && all_dates.contains(
                after[i].date@,
            ) by {
                assert(seen_dates.contains(before[i].date@));
                assert(before[i].txs@ == of_date(seen, seen_dates, before[i].date@));
                if i != k {
                    assert(after[i] == before[i]);
                    if i < k {
                        assert(comes_before(before[i].date@, before[k as int].date@));
                    } else {
                        assert(comes_before(before[k as int].date@, before[i].date@));
                    }
                    lemma_comes_before_total(before[i].date@, date@);
                }
            }
            assert forall|j: int| 0 <= j < all_dates.len() implies exists|i: int|
                0 <= i < after.len() && (#[trigger] after[i]).date@ == #[trigger] all_dates[j] by {
                if j < seen_dates.len() {
                    let i = choose|i: int|
                        0 <= i < before.len() && (#[trigger] before[i]).date@ == seen_dates[j];
                    assert(after[i].date@ == all_dates[j]);
                } else {
                    assert(after[k as int].date@ == all_dates[j]);
                }
            }
        }
    } else {
        let mut list: Vec<Transaction<F>> = Vec::new();
        list.push(tx);
        let ghost d = date@;
        let group = DayGroup { date, txs: list };
        let ghost new = group;
        proof {
            assert forall|i: int| k <= i < before.len() implies comes_before(
                d,
                (#[trigger] before[i]).date@,
            ) by {
                lemma_comes_before_total(before[k as int].date@, d);
                if i > k {
                    assert(comes_before(before[k as int].date@, before[i].date@));
                    lemma_comes_before_transitive(d, before[k as int].date@, before[i].date@);
                }
            }
            assert(!seen_dates.contains(d)) by {
                if seen_dates.contains(d) {
                    let j = choose|j: int| 0 <= j < seen_dates.len() && seen_dates[j] == d;
                    let i = choose|i: int|
                        0 <= i < before.len() && (#[trigger] before[i]).date@ == seen_dates[j];
                    lemma_comes_before_total(d, d);
                    assert(comes_before(before[i].date@, d) || comes_before(d, before[i].date@));
                }
            }
            lemma_of_no_date(seen, seen_dates, d);
        }
        groups.insert(k, group);
        proof {
            let after = groups@;
            assert(after =~= before.insert(k as int, new));
            assert forall|i: int, j: int| 0 <= i < j < after.len() implies comes_before(
                (#[trigger] after[i]).date@,
                (#[trigger] after[j]).date@,
            ) by {
                if i < k && j > k {
                    assert(comes_before(before[i].date@, before[j - 1].date@));
                } else if i < k && j < k {
                    assert(comes_before(before[i].date@, before[j].date@));
                } else if i > k {
                    assert(comes_before(before[i - 1].date@, before[j - 1].date@));
                } else if i == k {
                    assert(comes_before(d, before[j - 1].date@));
                }
            }
            assert forall|i: int| 0 <= i < after.len() implies (#[trigger] after[i]).txs@
                == of_date(all, all_dates, after[i].date@) && all_dates.contains(
                after[i].date@,
            ) by {
                if i == k {
                    assert(after[i].txs@ =~= Seq::<Transaction<F>>::empty().push(tx));
                } else {
                    let b = if i < k {
                        before[i]
                    } else {
                        before[i - 1]
                    };
                    assert(after[i] == b);
                    assert(seen_dates.contains(b.date@));
                }
            }
            assert forall|j: int| 0 <= j < all_dates.len() implies exists|i: int|
                0 <= i < after.len() && (#[trigger] after[i]).date@ == #[trigger] all_dates[j] by {
                if j < seen_dates.len() {
                    let i = choose|i: int|
                        0 <= i < before.len() && (#[trigger] before[i]).date@ == seen_dates[j];
                    if i < k {
                        assert(after[i].date@ == all_dates[j]);
                    } else {
                        assert(after[i + 1].date@ == all_dates[j]);
                    }
                } else {
                    assert(after[k as int].date@ == all_dates[j]);
                }
            }
        }
    }
}

/// Groups transactions by date, where `dates` holds the date of each. The groups come in the
/// order of their dates, and in each the last transaction of the list comes first.
pub fn group_by_date<F>(txs: Vec<Transaction<F>>, dates: Vec<String>) -> (groups: Vec<
    DayGroup<F>,
>)
    requires
        txs@.len() == dates@.len(),
    ensures
        grouped(groups@, txs@.reverse(), texts(dates@).reverse()),
{
    let ghost rev = txs@.reverse();
    let ghost rev_dates = texts(dates@).reverse();
    let n: usize = txs.len();
    let mut groups: Vec<DayGroup<F>> = Vec::new();
    let mut left = txs;
    let mut left_dates = dates;
    let mut i: usize = 0;
    assert(rev_dates.take(0) =~= Seq::empty());
    while i < n
        invariant
            i <= n,
            n == txs@.len(),
            n == dates@.len(),
            rev == txs@.reverse(),
            rev_dates == texts(dates@).reverse(),
            left@ == txs@.take(n - i),
            left_dates@ == dates@.take(n - i),
            grouped(groups@, rev.take(i as int), rev_dates.take(i as int)),
        decreases n - i,
    {
        let tx = left.pop();
        let date = left_dates.pop();
        if let (Some(tx), Some(date)) = (tx, date) {
            proof {
                assert(rev[i as int] == tx);
                assert(rev_dates[i as int] == date@);
                assert(rev.take(i + 1) =~= rev.take(i as int).push(tx));
                assert(rev_dates.take(i + 1) =~= rev_dates.take(i as int).push(date@));
            }
            add_to_group(
                &mut groups,
                tx,
                date,
                Ghost(rev.take(i as int)),
                Ghost(rev_dates.take(i as int)),
            );
        }
        i = i + 1;
    }
    assert(rev.take(i as int) =~= rev);
    assert(rev_dates.take(i as int) =~= rev_dates);
    groups
}

/// The order of a dictionary: at the first place where two texts differ, the one with the smaller
/// character comes first, and a text comes before those that go on behind it.
pub proof fn law_dictionary_order(a: Seq<char>, b: Seq<char>)
    ensures
        comes_before(a, b) <==> exists|k: int|
            #![trigger a.take(k)]
            0 <= k <= a.len() && k < b.len() && a.take(k) == b.take(k) && (k == a.len() || a[k]
                < b[k]),
{
    if comes_before(a, b) {
        let k = lemma_first_difference(a, b);
        assert(a.take(k) == b.take(k));
    }
    if exists|k: int|
        #![trigger a.take(k)]
        0 <= k <= a.len() && k < b.len() && a.take(k) == b.take(k) && (k == a.len() || a[k]
            < b[k]) {
        let k = choose|k: int|
            #![trigger a.take(k)]
            0 <= k <= a.len() && k < b.len() && a.take(k) == b.take(k) && (k == a.len() || a[k]
                < b[k]);
        lemma_differs_at(a, b, k);
    }
}

proof fn lemma_first_difference(a: Seq<char>, b: Seq<char>) -> (k: int)
    requires
        comes_before(a, b),
    ensures
        0 <= k <= a.len(),
        k < b.len(),
        a.take(k) == b.take(k),
        k == a.len() || a[k] < b[k],
    decreases a.len(),
{
    if a.len() > 0 && a[0] == b[0] {
        let k = lemma_first_difference(a.skip(1), b.skip(1));
        assert(a.take(k + 1) =~= seq![a[0]] + a.skip(1).take(k));
        assert(b.take(k + 1) =~= seq![b[0]] + b.skip(1).take(k));
        k + 1
    } else {
        assert(a.take(0) =~= b.take(0));
        0
    }
}

proof fn lemma_differs_at(a: Seq<char>, b: Seq<char>, k: int)
    requires
        0 <= k <= a.len(),
        k < b.len(),
        a.take(k) == b.take(k),
        k == a.len() || a[k] < b[k],
    ensures
        comes_before(a, b),
    decreases k,
{
    if k > 0 {
        assert(a.take(k)[0] == a[0]);
        assert(b.take(k)[0] == b[0]);
        assert(a.skip(1).take(k - 1) =~= a.take(k).skip(1));
        assert(b.skip(1).take(k - 1) =~= b.take(k).skip(1));
        lemma_differs_at(a.skip(1), b.skip(1), k - 1);
    }
}

/// Those of the transactions whose date is `date`, where `dates` holds the date of each.
pub open spec fn with_date<F>(
    txs: Seq<Transaction<F>>,
    dates: Seq<Seq<char>>,
    date: Seq<char>,
) -> Seq<Transaction<F>> {
    Seq::new(txs.len(), |i: int| (txs[i], dates[i])).filter(
        |p: (Transaction<F>, Seq<char>)| p.1 == date,
    ).map_values(|p: (Transaction<F>, Seq<char>)| p.0)
}

/// The transactions of a date are all those whose date it is, each once and in their order.
pub proof fn law_of_date<F>(txs: Seq<Transaction<F>>, dates: Seq<Seq<char>>, date: Seq<char>)
    requires
        txs.len() == dates.len(),
    ensures
        of_date(txs, dates, date) == with_date(txs, dates, date),
    decreases txs.len(),
{
    let pairs = Seq::new(txs.len(), |i: int| (txs[i], dates[i]));
    let p = |p: (Transaction<F>, Seq<char>)| p.1 == date;
    let f = |p: (Transaction<F>, Seq<char>)| p.0;
    reveal(Seq::filter);
    if txs.len() == 0 {
        assert(pairs.filter(p).map_values(f) =~= Seq::empty());
    } else {
        law_of_date(txs.drop_last(), dates.drop_last(), date);
        let front = Seq::new(
            txs.drop_last().len(),
            |i: int| (txs.drop_last()[i], dates.drop_last()[i]),
        );
        assert(pairs.drop_last() =~= front);
        assert(pairs.last() == (txs.last(), dates.last()));
        if dates.last() == date {
            assert(pairs.filter(p).map_values(f) =~= front.filter(p).map_values(f).push(
                txs.last(),
            ));
        }
    }
}

/// A date of four, two and two digits, with the month counted from one.
pub proof fn law_date_text(year: nat, month: nat, day: nat)
    requires
        1000 <= year <= 9999,
        month <= 11,
        day <= 31,
    ensures
        date_text(year, month, day) == seq![
            (48 + year / 1000) as char,
            (48 + year / 100 % 10) as char,
            (48 + year / 10 % 10) as char,
            (48 + year % 10) as char,
            '-',
            (48 + (month + 1) / 10) as char,
            (48 + (month + 1) % 10) as char,
            '-',
            (48 + day / 10) as char,
            (48 + day % 10) as char,
        ],
{
    reveal_strlit("-");
    reveal_strlit("0");
    reveal_with_fuel(decimal, 4);
    assert(year / 10 / 10 == year / 100);
    assert(year / 10 / 10 / 10 == year / 1000);
    assert(two_digits(month + 1) =~= seq![
        (48 + (month + 1) / 10) as char,
        (48 + (month + 1) % 10) as char,
    ]);
    assert(two_digits(day) =~= seq![(48 + day / 10) as char, (48 + day % 10) as char]);
    assert(decimal(year) =~= seq![
        (48 + year / 1000) as char,
        (48 + year / 100 % 10) as char,
        (48 + year / 10 % 10) as char,
        (48 + year % 10) as char,
    ]);
    assert("-"@ =~= seq!['-']);
}

/// A transaction keeps the amounts and the kind of its entry.
pub proof fn law_entry_is_kept<F>(
    timestamp: u64,
    entry: Entry,
    fiat_amount: F,
    tx: Transaction<F>,
)
    requires
        call_ensures(Transaction::<F>::in_sats, (timestamp, entry, fiat_amount), tx),
    ensures
        entry == (Entry {
            amount_msats: tx.amount_msats,
            change_msats: tx.change_msats,
            paid_msats: tx.paid_msats,
            tx_type: tx.tx_type,
        }),
        tx.timestamp == timestamp,
        tx.fiat_amount == fiat_amount,
        tx.currency@ == "sat"@,
{
}

/// Only what was taken out is shown with a minus, and each kind has a name of its own.
pub proof fn law_kinds_differ(
    a: TxType,
    b: TxType,
    name_a: String,
    name_b: String,
    shown: (&'static str, &'static str),
)
    requires
        call_ensures(TxType::name, (&a,), name_a),
        call_ensures(TxType::name, (&b,), name_b),
        call_ensures(TxType::sign_and_color, (&a,), shown),
    ensures
        name_a@ == name_b@ <==> a == b,
        shown.0@ == "-"@ <==> a is Withdrawal,
        shown.0@ == "+"@ <==> !(a is Withdrawal),
{
    reveal_strlit("Sale");
    reveal_strlit("Deposit");
    reveal_strlit("Withdrawal");
    reveal_strlit("-");
    reveal_strlit("+");
    assert("-"@[0] != "+"@[0]);
    assert(name_a@ == a.spec_name());
    assert(name_b@ == b.spec_name());
    assert("Sale"@.len() == 4);
    assert("Deposit"@.len() == 7);
    assert("Withdrawal"@.len() == 10);
}

/// The amount of a transaction is shown in whole sats, rounded down.
pub proof fn law_shown_in_whole_sats<F>(tx: &Transaction<F>, text: String, sats: nat)
    requires
        call_ensures(Transaction::<F>::amount_text, (tx,), text),
        1000 * sats <= tx.amount_msats < 1000 * sats + 1000,
    ensures
        tx.tx_type is Withdrawal ==> text@ == "-"@ + decimal(sats) + " sats"@,
        !(tx.tx_type is Withdrawal) ==> text@ == "+"@ + decimal(sats) + " sats"@,
{
}

/// A transaction is added behind all the others, which stay as they are.
pub proof fn law_added_last<F>(txs: &mut Vec<Transaction<F>>, tx: Transaction<F>)
    requires
        call_ensures(add_transaction::<F>, (txs, tx), ()),
    ensures
        final(txs)@.len() == old(txs)@.len() + 1,
        final(txs)@.last() == tx,
        final(txs)@.take(old(txs)@.len() as int) == old(txs)@,
{
    assert(final(txs)@.take(old(txs)@.len() as int) =~= old(txs)@);
}

/// One of the groups is that of the date.
pub open spec fn has_group<F>(groups: Seq<DayGroup<F>>, date: Seq<char>) -> bool {
    exists|i: int| 0 <= i < groups.len() && (#[trigger] groups[i]).date@ == date
}

/// Transactions are grouped by their dates, the earliest date first. Each group holds all of its
/// date, the one that was added last first, and there is one for each date.
pub proof fn law_grouping<F>(
    txs: Vec<Transaction<F>>,
    dates: Vec<String>,
    groups: Vec<DayGroup<F>>,
)
    requires
        call_ensures(group_by_date::<F>, (txs, dates), groups),
        txs@.len() == dates@.len(),
    ensures
        forall|i: int, j: int|
            0 <= i < j < groups@.len() ==> comes_before(
                (#[trigger] groups@[i]).date@,
                (#[trigger] groups@[j]).date@,
            ),
        forall|k: int|
            0 <= k < dates@.len() ==> #[trigger] has_group(groups@, texts(dates@)[k]),
        forall|i: int|
            0 <= i < groups@.len() ==> (#[trigger] groups@[i]).txs@ == with_date(
                txs@.reverse(),
                texts(dates@).reverse(),
                groups@[i].date@,
            ),
{
    let rev = txs@.reverse();
    let rev_dates = texts(dates@).reverse();
    assert(grouped(groups@, rev, rev_dates));
    assert forall|k: int| 0 <= k < dates@.len() implies #[trigger] has_group(
        groups@,
        texts(dates@)[k],
    ) by {
        let r = dates@.len() - 1 - k;
        assert(rev_dates[r] == texts(dates@)[k]);
        let i = choose|i: int|
            0 <= i < groups@.len() && (#[trigger] groups@[i]).date@ == rev_dates[r];
        assert(groups@[i].date@ == texts(dates@)[k]);
    }
    assert forall|i: int| 0 <= i < groups@.len() implies (#[trigger] groups@[i]).txs@ == with_date(
        rev,
        rev_dates,
        groups@[i].date@,
    ) by {
        law_of_date(rev, rev_dates, groups@[i].date@);
    }
}

/// A date is written with four, two and two digits.
pub proof fn law_writing_date(year: u32, month: u32, day: u32, text: String)
    requires
        call_ensures(format_date, (year, month, day), text),
        1000 <= year <= 9999,
        month <= 11,
        day <= 31,
    ensures
        text@ == seq![
            (48 + year / 1000) as char,
            (48 + year / 100 % 10) as char,
            (48 + year / 10 % 10) as char,
            (48 + year % 10) as char,
            '-',
            (48 + (month + 1) / 10) as char,
            (48 + (month + 1) % 10) as char,
            '-',
            (48 + day / 10) as char,
            (48 + day % 10) as char,
        ],
{
    law_date_text(year as nat, month as nat, day as nat);
}

} // verus!
