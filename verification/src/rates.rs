//! Exchange rates, as far as no rate has to be computed.

use crate::text::{chars_of, texts};
use vstd::prelude::*;

verus! {

/// How long fetched rates are good for: a day, in milliseconds.
pub const CACHE_TTL_MS: u64 = 86_400_000;

/// Whether rates that were fetched at `timestamp` are still good.
pub fn is_fresh(now: u64, timestamp: u64) -> (fresh: bool)
    requires
        timestamp <= now,
    ensures
        fresh == (now - timestamp <= CACHE_TTL_MS),
{
    now - timestamp <= CACHE_TTL_MS
}

/// The currency whose price in dollars is quoted under `key`: the name in front of `/USD`, unless
/// there is another slash in it or it names the dollar, the sat or bitcoin.
pub open spec fn currency_in(key: Seq<char>) -> Option<Seq<char>> {
    let n = key.len() - 4;
    if n < 0 || key.skip(n) != "/USD"@ {
        None
    } else {
        let name = key.take(n);
        if name.contains('/') || name == "USD"@ || name == "sat"@ || name == "BTC"@ {
            None
        } else {
            Some(name)
        }
    }
}

/// Finds the currency whose price in dollars is quoted under a key.
pub fn quoted_currency(key: &str) -> (name: Option<String>)
    ensures
        match name {
            Some(name) => currency_in(key@) == Some(name@),
            None => currency_in(key@) is None,
        },
{
    let chars = chars_of(key);
    if chars.len() < 4 {
        return None;
    }
    let n: usize = chars.len() - 4;
    let end = key.substring_char(n, chars.len()).to_string();
    assert(end@ =~= key@.skip(n as int));
    if !end.eq(&"/USD".to_string()) {
        return None;
    }
    let name = key.substring_char(0, n).to_string();
    assert(name@ =~= key@.take(n as int));
    let mut i: usize = 0;
    while i < n
        invariant
            i <= n,
            n + 4 == chars@.len(),
            chars@ == key@,
            name@ == key@.take(n as int),
            key@.skip(n as int) == "/USD"@,
            forall|k: int| 0 <= k < i ==> #[trigger] chars@[k] != '/',
        decreases n - i,
    {
        if chars[i] == '/' {
            assert(name@[i as int] == '/');
            return None;
        }
        i = i + 1;
    }
    assert(!name@.contains('/'));
    if name.eq(&"USD".to_string()) || name.eq(&"sat".to_string()) || name.eq(&"BTC".to_string()) {
        return None;
    }
    Some(name)
}

/// The currencies to choose from: those that there are rates for, and the sat in front of them
/// if there is none for it.
pub open spec fn offered(currencies: Seq<Seq<char>>) -> Seq<Seq<char>> {
    if currencies.contains("sat"@) {
        currencies
    } else {
        seq!["sat"@] + currencies
    }
}

/// Lists the currencies to choose from.
pub fn currency_list(currencies: Vec<String>) -> (list: Vec<String>)
    ensures
        texts(list@) == offered(texts(currencies@)),
{
    let sat = "sat".to_string();
    let mut i: usize = 0;
    while i < currencies.len()
        invariant
            i <= currencies@.len(),
            sat@ == "sat"@,
            forall|k: int| 0 <= k < i ==> (#[trigger] texts(currencies@)[k]) != "sat"@,
        decreases currencies@.len() - i,
    {
        assert(texts(currencies@)[i as int] == currencies@[i as int]@);
        if currencies[i].eq(&sat) {
            return currencies;
        }
        i = i + 1;
    }
    let mut list = currencies;
    list.insert(0, sat);
    assert(texts(list@) =~= seq!["sat"@] + texts(currencies@));
    list
}

/// The currency that is shown first: the one that the till was set up with, or the sat.
pub fn first_currency(configured: Option<&String>) -> (currency: String)
    ensures
        match configured {
            Some(configured) => currency@ == configured@,
            None => currency@ == "sat"@,
        },
{
    match configured {
        Some(configured) => configured.clone(),
        None => "sat".to_string(),
    }
}

/// The price of a currency in dollars is found under its name and `/USD`, for any name without a
/// slash but those of the dollar, the sat and bitcoin, and under no other key.
pub proof fn law_quoted_under_its_name(name: Seq<char>, key: Seq<char>)
    ensures
        ({
            let plain = !name.contains('/') && name != "USD"@ && name != "sat"@ && name != "BTC"@;
            &&& plain ==> currency_in(name + "/USD"@) == Some(name)
            &&& !plain ==> currency_in(name + "/USD"@) is None
        }),
        currency_in(key) == Some(name) ==> key == name + "/USD"@,
{
    reveal_strlit("/USD");
    let full = name + "/USD"@;
    assert(full.skip(full.len() - 4) =~= "/USD"@);
    assert(full.take(full.len() - 4) =~= name);
    if currency_in(key) == Some(name) {
        let n = key.len() - 4;
        assert(key =~= key.take(n) + key.skip(n));
    }
}

/// The sat can always be chosen, and so can each currency that there is a rate for, in the order
/// in which they are given. None is offered twice that is not given twice.
pub proof fn law_all_are_offered(currencies: Seq<Seq<char>>)
    ensures
        offered(currencies).contains("sat"@),
        currencies.contains("sat"@) ==> offered(currencies) == currencies,
        !currencies.contains("sat"@) ==> offered(currencies).len() == currencies.len() + 1
            && offered(currencies)[0] == "sat"@ && offered(currencies).skip(1) == currencies,
{
    if !currencies.contains("sat"@) {
        assert(offered(currencies)[0] == "sat"@);
        assert(offered(currencies).skip(1) =~= currencies);
    }
}

/// Rates are good for twenty-four hours.
pub proof fn law_good_for_a_day(now: u64, timestamp: u64, fresh: bool)
    requires
        call_ensures(is_fresh, (now, timestamp), fresh),
    ensures
        fresh <==> now <= timestamp + 24 * 60 * 60 * 1000,
{
}

/// The currency that is found under a key.
pub proof fn law_finding_currency(key: &str, name: Option<String>)
    requires
        call_ensures(quoted_currency, (key,), name),
    ensures
        name matches Some(name) ==> key@ == name@ + "/USD"@ && !name@.contains('/') && name@
            != "USD"@ && name@ != "sat"@ && name@ != "BTC"@,
        name is None ==> forall|other: Seq<char>|
            key@ == #[trigger] (other + "/USD"@) ==> other.contains('/') || other == "USD"@ || other
                == "sat"@ || other == "BTC"@,
{
    if let Some(name) = name {
        law_quoted_under_its_name(name@, key@);
    } else {
        assert forall|other: Seq<char>| key@ == #[trigger] (other + "/USD"@) implies other.contains(
            '/',
        ) || other == "USD"@ || other == "sat"@ || other == "BTC"@ by {
            law_quoted_under_its_name(other, key@);
        }
    }
}

/// The currencies that are listed are all that were given and the sat.
pub proof fn law_listing_currencies(currencies: Vec<String>, list: Vec<String>)
    requires
        call_ensures(currency_list, (currencies,), list),
    ensures
        texts(list@).contains("sat"@),
        texts(currencies@).contains("sat"@) ==> texts(list@) == texts(currencies@),
        !texts(currencies@).contains("sat"@) ==> texts(list@).skip(1) == texts(currencies@)
            && texts(list@)[0] == "sat"@,
{
    law_all_are_offered(texts(currencies@));
}

/// The currency that the till was set up with is shown first, and the sat where there is none.
pub proof fn law_first_currency(configured: Option<&String>, currency: String)
    requires
        call_ensures(first_currency, (configured,), currency),
    ensures
        configured matches Some(configured) ==> currency@ == configured@,
        configured is None ==> currency@ == "sat"@,
{
}

} // verus!
