//! Numbers as text.

use crate::config::{hashed_on, pin_hash};
use crate::text::{all_digits, decimal, digit, hexadecimal, number_of, parsed_u64};
use std::collections::hash_map::DefaultHasher;
use vstd::arithmetic::div_mod::{lemma_div_denominator, lemma_fundamental_div_mod};
use vstd::arithmetic::power::{lemma_pow0, lemma_pow1, lemma_pow_positive, pow};
use vstd::prelude::*;

verus! {

/// Which characters are digits.
pub proof fn law_digits(n: nat)
    requires
        n < 16,
    ensures
        digit(n) == "0123456789abcdef"@[n as int],
{
    reveal_strlit("0123456789abcdef");
}

/// The digit at place `i` of `k` in the base `base`.
pub open spec fn place(n: nat, base: nat, k: nat, i: int) -> nat {
    (n as int / pow(base as int, (k - 1 - i) as nat) % base as int) as nat
}

proof fn lemma_place_up(n: nat, base: nat, k: nat, i: int)
    requires
        base > 1,
        0 <= i < k,
    ensures
        place(n / base, base, k, i) == place(n, base, k + 1, i),
        place(n, base, k + 1, k as int) == n % base,
{
    let b = base as int;
    let e = (k - 1 - i) as nat;
    lemma_pow_positive(b, e);
    lemma_div_denominator(n as int, b, pow(b, e));
    assert(pow(b, e + 1) == b * pow(b, e)) by {
        reveal(pow);
    }
    assert((k + 1 - 1 - i) as nat == e + 1);
    lemma_pow0(b);
    assert(n as int / 1 == n);
}

/// A number in decimal has as many digits as it takes and no leading zero: the digit at each place
/// is how often the power of ten of that place fits into the number, modulo ten.
pub proof fn law_decimal(n: nat)
    ensures
        ({
            let text = decimal(n);
            &&& text.len() > 0
            &&& n < pow(10, text.len())
            &&& text.len() > 1 ==> n >= pow(10, (text.len() - 1) as nat)
            &&& forall|i: int|
                0 <= i < text.len() ==> #[trigger] text[i] == "0123456789"@[place(
                    n,
                    10,
                    text.len(),
                    i,
                ) as int]
        }),
    decreases n,
{
    reveal_strlit("0123456789");
    lemma_pow0(10);
    lemma_pow1(10);
    let text = decimal(n);
    if n < 10 {
        assert(place(n, 10, 1, 0) == n) by {
            assert(n as int / 1 == n);
        }
    } else {
        law_decimal(n / 10);
        let front = decimal(n / 10);
        let k = front.len();
        reveal(pow);
        assert(pow(10, k + 1) == 10 * pow(10, k));
        assert(k > 1 ==> pow(10, k) == 10 * pow(10, (k - 1) as nat));
        assert forall|i: int| 0 <= i < text.len() implies #[trigger] text[i] == "0123456789"@[place(
            n,
            10,
            text.len(),
            i,
        ) as int] by {
            if i < k {
                assert(text[i] == front[i]);
                lemma_place_up(n, 10, k, i);
            } else {
                lemma_place_up(n, 10, k, 0);
            }
        }
    }
}

/// A number in hexadecimal, in the same way, with lower case letters.
pub proof fn law_hexadecimal(n: nat)
    ensures
        ({
            let text = hexadecimal(n);
            &&& text.len() > 0
            &&& n < pow(16, text.len())
            &&& text.len() > 1 ==> n >= pow(16, (text.len() - 1) as nat)
            &&& forall|i: int|
                0 <= i < text.len() ==> #[trigger] text[i] == "0123456789abcdef"@[place(
                    n,
                    16,
                    text.len(),
                    i,
                ) as int]
        }),
    decreases n,
{
    reveal_strlit("0123456789abcdef");
    lemma_pow0(16);
    lemma_pow1(16);
    let text = hexadecimal(n);
    if n < 16 {
        assert(place(n, 16, 1, 0) == n) by {
            assert(n as int / 1 == n);
        }
    } else {
        law_hexadecimal(n / 16);
        let front = hexadecimal(n / 16);
        let k = front.len();
        reveal(pow);
        assert(pow(16, k + 1) == 16 * pow(16, k));
        assert(k > 1 ==> pow(16, k) == 16 * pow(16, (k - 1) as nat));
        assert forall|i: int| 0 <= i < text.len() implies #[trigger] text[i]
            == "0123456789abcdef"@[place(n, 16, text.len(), i) as int] by {
            if i < k {
                assert(text[i] == front[i]);
                lemma_place_up(n, 16, k, i);
            } else {
                lemma_place_up(n, 16, k, 0);
            }
        }
    }
}

proof fn lemma_decimal_back(n: nat)
    ensures
        all_digits(decimal(n)),
        number_of(decimal(n)) == n,
        decimal(n).len() > 0,
    decreases n,
{
    reveal_with_fuel(number_of, 2);
    if n < 10 {
        assert(decimal(n).drop_last() =~= Seq::empty());
        assert(decimal(n).last() == digit(n));
    } else {
        lemma_decimal_back(n / 10);
        let front = decimal(n / 10);
        assert(decimal(n).drop_last() =~= front);
        assert forall|i: int| 0 <= i < decimal(n).len() implies '0' <= #[trigger] decimal(n)[i]
            <= '9' by {
            if i < front.len() {
                assert(decimal(n)[i] == front[i]);
            }
        }
    }
}

/// A number in decimal, with or without a plus in front of it, is read as that number if a `u64`
/// holds it, and is not read otherwise.
pub proof fn law_number_is_read(n: nat)
    ensures
        n <= u64::MAX ==> parsed_u64(decimal(n)) == Some(n as u64),
        n <= u64::MAX ==> parsed_u64(seq!['+'] + decimal(n)) == Some(n as u64),
        n > u64::MAX ==> parsed_u64(decimal(n)) is None && parsed_u64(seq!['+'] + decimal(n))
            is None,
{
    lemma_decimal_back(n);
    assert('0' <= decimal(n)[0] <= '9');
    let text = seq!['+'] + decimal(n);
    assert(text.skip(1) =~= decimal(n));
}

proof fn lemma_leading_zero(digits: Seq<char>)
    ensures
        number_of(seq!['0'] + digits) == number_of(digits),
    decreases digits.len(),
{
    let all = seq!['0'] + digits;
    reveal_with_fuel(number_of, 2);
    if digits.len() == 0 {
        assert(all.last() == '0');
        assert(all.drop_last() =~= Seq::empty());
    } else {
        assert(all.drop_last() =~= seq!['0'] + digits.drop_last());
        lemma_leading_zero(digits.drop_last());
    }
}

/// Leading zeros do not change the number.
pub proof fn law_leading_zeros(digits: Seq<char>)
    requires
        digits.len() > 0,
        digits[0] != '+',
    ensures
        parsed_u64(seq!['0'] + digits) == parsed_u64(digits),
{
    let all = seq!['0'] + digits;
    lemma_leading_zero(digits);
    assert(all[0] == '0');
    if all_digits(all) {
        assert forall|i: int| 0 <= i < digits.len() implies '0' <= #[trigger] digits[i]
            <= '9' by {
            assert(digits[i] == all[i + 1]);
        }
    }
    if all_digits(digits) {
        assert forall|i: int| 0 <= i < all.len() implies '0' <= #[trigger] all[i] <= '9' by {
            if i > 0 {
                assert(all[i] == digits[i - 1]);
            }
        }
    }
}

/// A text is no number if it is empty or holds anything but digits behind a plus at its front.
pub proof fn law_no_number(text: Seq<char>, i: int)
    requires
        text.len() == 0 || (0 <= i < text.len() && !('0' <= text[i] <= '9') && (i > 0 || text[i]
            != '+' || text.len() == 1)),
    ensures
        parsed_u64(text) is None,
{
    if text.len() > 1 && text[0] == '+' {
        if i > 0 {
            assert(text.skip(1)[i - 1] == text[i]);
        }
    }
}

proof fn lemma_hexadecimal_len(n: nat)
    ensures
        hexadecimal(n).len() > 0,
        n >= 16 ==> hexadecimal(n).len() > 1,
    decreases n,
{
    if n >= 16 {
        lemma_hexadecimal_len(n / 16);
    }
}

/// Different numbers are different in hexadecimal.
pub proof fn law_hexadecimal_injective(a: nat, b: nat)
    requires
        hexadecimal(a) == hexadecimal(b),
    ensures
        a == b,
    decreases a,
{
    lemma_hexadecimal_len(a);
    lemma_hexadecimal_len(b);
    if a < 16 {
        assert(hexadecimal(a)[0] == digit(a));
        assert(b < 16);
        assert(hexadecimal(b)[0] == digit(b));
    } else {
        assert(b >= 16);
        assert(hexadecimal(a).drop_last() =~= hexadecimal(a / 16));
        assert(hexadecimal(b).drop_last() =~= hexadecimal(b / 16));
        law_hexadecimal_injective(a / 16, b / 16);
        assert(hexadecimal(a).last() == digit(a % 16));
        assert(hexadecimal(b).last() == digit(b % 16));
        lemma_fundamental_div_mod(a as int, 16);
        lemma_fundamental_div_mod(b as int, 16);
    }
}

/// What a hasher ends with once it has been fed.
pub open spec fn finished(fed: Seq<Seq<u8>>) -> u64 {
    <DefaultHasher as vstd::std_specs::hash::DefaultHasherAdditionalSpecFns>::spec_finish(fed)
}

/// Two PINs are hashed to the same exactly if a fresh hasher that is fed with the one ends with the
/// same number as one that is fed with the other, all of it.
pub proof fn law_pin_hash_is_of_the_whole_pin(a: Seq<char>, b: Seq<char>)
    ensures
        pin_hash(a) == pin_hash(b) <==> finished(hashed_on(Seq::empty(), a)) == finished(
            hashed_on(Seq::empty(), b),
        ),
{
    if pin_hash(a) == pin_hash(b) {
        law_hexadecimal_injective(
            finished(hashed_on(Seq::empty(), a)) as nat,
            finished(hashed_on(Seq::empty(), b)) as nat,
        );
    }
}

} // verus!
