//! Base32hex as RFC 4648 defines it, with the alphabet in lower case and without padding.

use vstd::arithmetic::div_mod::{
    lemma_div_by_multiple, lemma_div_denominator, lemma_fundamental_div_mod_converse,
    lemma_hoist_over_denominator, lemma_mod_multiples_vanish,
};
use vstd::arithmetic::power2::{
    lemma2_to64, lemma_pow2_adds, lemma_pow2_pos, lemma_pow2_strictly_increases, pow2,
};
use vstd::prelude::*;

verus! {

/// The number that the digits, of `w` bits each, make up, the most significant one first.
pub open spec fn number(w: nat, digits: Seq<u8>) -> nat
    decreases digits.len(),
{
    if digits.len() == 0 {
        0
    } else {
        number(w, digits.drop_last()) * pow2(w) + digits.last() as nat
    }
}

/// The `k` least significant digits of `n`, of `w` bits each, the most significant one first.
pub open spec fn digits(w: nat, n: nat, k: nat) -> Seq<u8>
    decreases k,
{
    if k == 0 {
        Seq::empty()
    } else {
        digits(w, n / pow2(w), (k - 1) as nat).push((n % pow2(w)) as u8)
    }
}

/// A character of the alphabet.
pub open spec fn in_alphabet(b: u8) -> bool {
    48 <= b <= 57 || 97 <= b <= 118
}

/// The five bits that a character of the alphabet stands for.
pub open spec fn value_of(b: u8) -> u8 {
    if b <= 57 {
        (b - 48) as u8
    } else {
        (b - 87) as u8
    }
}

/// The character that stands for five bits.
pub open spec fn character(v: u8) -> char {
    if v < 10 {
        (48 + v) as char
    } else {
        (87 + v) as char
    }
}

/// The first byte that is no character of the alphabet.
pub open spec fn first_bad(text: Seq<u8>) -> Option<u8>
    decreases text.len(),
{
    if text.len() == 0 {
        None
    } else if !in_alphabet(text[0]) {
        Some(text[0])
    } else {
        first_bad(text.skip(1))
    }
}

/// What is said of a byte that is no character of the alphabet.
pub open spec fn bad_character(b: u8) -> Seq<char> {
    "Invalid base32 character: '"@.push(b as char) + "'"@
}

/// The bytes that the text stands for: as many as its characters fill. The bits behind the last
/// byte, of which there are fewer than eight, are dropped.
pub open spec fn base32_decoded(text: Seq<u8>) -> Result<Seq<u8>, Seq<char>> {
    match first_bad(text) {
        Some(b) => Err(bad_character(b)),
        None => {
            let n = number(5, text.map_values(|b: u8| value_of(b)));
            Ok(digits(8, n / pow2(5 * text.len() % 8), 5 * text.len() / 8))
        },
    }
}

/// The text that stands for the bytes: as many characters as are needed to hold them, the last
/// one filled up with zeros.
pub open spec fn base32_encoded(bytes: Seq<u8>) -> Seq<char> {
    let k = (8 * bytes.len() + 4) / 5;
    let n = number(8, bytes) * pow2((5 * k - 8 * bytes.len()) as nat);
    digits(5, n, k).map_values(|v: u8| character(v))
}

proof fn lemma_number_push(w: nat, s: Seq<u8>, d: u8)
    ensures
        number(w, s.push(d)) == number(w, s) * pow2(w) + d,
{
    assert(s.push(d).drop_last() =~= s);
}

/// The digits of a number are those that it was made of.
proof fn lemma_digits_number(w: nat, s: Seq<u8>)
    requires
        forall|i: int| 0 <= i < s.len() ==> (#[trigger] s[i]) < pow2(w),
    ensures
        digits(w, number(w, s), s.len()) == s,
    decreases s.len(),
{
    if s.len() > 0 {
        let front = s.drop_last();
        assert forall|i: int| 0 <= i < front.len() implies (#[trigger] front[i]) < pow2(w) by {
            assert(front[i] == s[i]);
        }
        lemma_digits_number(w, front);
        lemma_pow2_pos(w);
        assert(s[s.len() - 1] < pow2(w));
        lemma_fundamental_div_mod_converse(
            number(w, s) as int,
            pow2(w) as int,
            number(w, front) as int,
            s.last() as int,
        );
        assert(front.push(s.last()) =~= s);
    }
}

proof fn lemma_number_bound(w: nat, s: Seq<u8>)
    requires
        forall|i: int| 0 <= i < s.len() ==> (#[trigger] s[i]) < pow2(w),
    ensures
        number(w, s) < pow2(w * s.len()),
    decreases s.len(),
{
    lemma2_to64();
    if s.len() == 0 {
        assert(w * 0 == 0) by (nonlinear_arith);
    } else {
        let front = s.drop_last();
        assert forall|i: int| 0 <= i < front.len() implies (#[trigger] front[i]) < pow2(w) by {
            assert(front[i] == s[i]);
        }
        lemma_number_bound(w, front);
        let n = front.len();
        lemma_pow2_adds(w * n, w);
        assert(w * n + w == w * s.len()) by (nonlinear_arith)
            requires
                n == s.len() - 1,
        ;
        assert(s[s.len() - 1] < pow2(w));
        let d = s.last() as int;
        let p = pow2(w) as int;
        let q = pow2(w * n) as int;
        let m = number(w, front) as int;
        assert(m * p + d < q * p) by (nonlinear_arith)
            requires
                0 <= d < p,
                0 <= m < q,
        ;
    }
}

/// The number that the digits make up.
proof fn lemma_number_digits(w: nat, n: nat, k: nat)
    requires
        w <= 8,
        n < pow2(w * k),
    ensures
        number(w, digits(w, n, k)) == n,
        digits(w, n, k).len() == k,
        forall|i: int| 0 <= i < k ==> (#[trigger] digits(w, n, k)[i]) < pow2(w),
    decreases k,
{
    lemma2_to64();
    if k == 0 {
        assert(w * 0 == 0) by (nonlinear_arith);
    } else {
        let p = pow2(w) as int;
        let j = (k - 1) as nat;
        lemma_pow2_adds(w * j, w);
        assert(w * j + w == w * k) by (nonlinear_arith)
            requires
                j == k - 1,
        ;
        let q = pow2(w * j) as int;
        lemma_pow2_pos(w);
        lemma_pow2_small(w);
        let up = n as int / p;
        let d = n as int % p;
        assert(n == up * p + d && 0 <= d < p && 0 <= up < q) by (nonlinear_arith)
            requires
                p > 0,
                0 <= n < q * p,
                up == n as int / p,
                d == n as int % p,
        ;
        lemma_number_digits(w, up as nat, j);
        let high = digits(w, up as nat, j);
        let all = digits(w, n, k);
        lemma_number_push(w, high, d as u8);
        assert(all == high.push(d as u8));
        assert forall|i: int| 0 <= i < k implies (#[trigger] all[i]) < pow2(w) by {
            if i < j {
                assert(all[i] == high[i]);
            }
        }
    }
}

proof fn lemma_pow2_small(w: nat)
    requires
        w <= 8,
    ensures
        pow2(w) <= 256,
{
    lemma2_to64();
    if w < 8 {
        lemma_pow2_strictly_increases(w, 8);
    }
}

/// The five bits of each character of the text that stands for the bytes.
proof fn lemma_encoded_values(bytes: Seq<u8>)
    ensures
        ({
            let k = (8 * bytes.len() + 4) / 5;
            let n = number(8, bytes) * pow2((5 * k - 8 * bytes.len()) as nat);
            &&& digits(5, n, k).len() == k
            &&& number(5, digits(5, n, k)) == n
            &&& forall|i: int| 0 <= i < k ==> (#[trigger] digits(5, n, k)[i]) < 32
        }),
{
    lemma2_to64();
    let m = bytes.len();
    let k = (8 * m + 4) / 5;
    let pad = (5 * k - 8 * m) as nat;
    lemma_number_bound(8, bytes);
    lemma_pow2_adds(8 * m, pad);
    lemma_pow2_pos(pad);
    let a = number(8, bytes) as int;
    let b = pow2(8 * m) as int;
    let c = pow2(pad) as int;
    assert(a * c < b * c) by (nonlinear_arith)
        requires
            0 <= a < b,
            c > 0,
    ;
    lemma_number_digits(5, (a * c) as nat, k);
}

/// Base32 text is made of lower case letters and digits.
pub proof fn lemma_base32_characters(bytes: Seq<u8>)
    ensures
        forall|i: int|
            0 <= i < base32_encoded(bytes).len() ==> {
                let c = #[trigger] base32_encoded(bytes)[i];
                '0' <= c <= '9' || 'a' <= c <= 'v'
            },
{
    lemma_encoded_values(bytes);
}

/// Decoding gives back the bytes that were encoded.
pub proof fn law_base32_round_trip(bytes: Seq<u8>)
    ensures
        base32_decoded(base32_encoded(bytes).map_values(|c: char| c as u8)) == Ok::<
            Seq<u8>,
            Seq<char>,
        >(bytes),
{
    lemma2_to64();
    let m = bytes.len();
    let k = (8 * m + 4) / 5;
    let pad = (5 * k - 8 * m) as nat;
    lemma_encoded_values(bytes);
    let ds = digits(5, number(8, bytes) * pow2(pad), k);
    let text = base32_encoded(bytes).map_values(|c: char| c as u8);
    assert forall|i: int| 0 <= i < text.len() implies in_alphabet(#[trigger] text[i]) && value_of(
        text[i],
    ) == ds[i] by {
        assert(ds[i] < 32);
    }
    lemma_none_bad(text);
    assert(text.map_values(|b: u8| value_of(b)) =~= ds);
    assert(5 * k / 8 == m && 5 * k % 8 == pad);
    lemma_pow2_pos(pad);
    lemma_div_by_multiple(number(8, bytes) as int, pow2(pad) as int);
    lemma_digits_number(8, bytes);
}

proof fn lemma_none_bad(text: Seq<u8>)
    requires
        forall|i: int| 0 <= i < text.len() ==> in_alphabet(#[trigger] text[i]),
    ensures
        first_bad(text) is None,
    decreases text.len(),
{
    if text.len() > 0 {
        let rest = text.skip(1);
        assert forall|i: int| 0 <= i < rest.len() implies in_alphabet(#[trigger] rest[i]) by {
            assert(rest[i] == text[i + 1]);
        }
        lemma_none_bad(rest);
    }
}

/// Takes in one more digit of `w` bits on top of what `out`, of `v` bits each, and the `bits` bits
/// of `buffer` hold.
proof fn lemma_take_in(w: nat, v: nat, taken: Seq<u8>, d: u8, out: Seq<u8>, buffer: nat, bits: nat)
    requires
        number(w, taken) == number(v, out) * pow2(bits) + buffer,
        buffer < pow2(bits),
        d < pow2(w),
    ensures
        number(w, taken.push(d)) == number(v, out) * pow2(bits + w) + (buffer * pow2(w) + d),
        buffer * pow2(w) + d < pow2(bits + w),
{
    lemma_number_push(w, taken, d);
    lemma_pow2_adds(bits, w);
    let n = number(v, out) as int;
    let a = pow2(bits) as int;
    let b = pow2(w) as int;
    let x = buffer as int;
    let e = d as int;
    assert((n * a + x) * b == n * (a * b) + x * b) by (nonlinear_arith);
    assert(x * b + e < a * b) by (nonlinear_arith)
        requires
            0 <= x < a,
            0 <= e < b,
    ;
}

/// Puts the `v` high bits of `buffer` out, which leaves `rest` bits of it.
proof fn lemma_put_out(v: nat, out: Seq<u8>, buffer: nat, rest: nat, high: u8, low: nat)
    requires
        buffer == high * pow2(rest) + low,
    ensures
        number(v, out.push(high)) * pow2(rest) + low == number(v, out) * pow2(rest + v) + buffer,
{
    lemma_number_push(v, out, high);
    lemma_pow2_adds(v, rest);
    let n = number(v, out) as int;
    let a = pow2(v) as int;
    let b = pow2(rest) as int;
    let h = high as int;
    assert((n * a + h) * b == n * (a * b) + h * b) by (nonlinear_arith);
}

/// The high bits of a buffer are a digit, and the others are fewer.
proof fn lemma_halves(buffer: nat, v: nat, rest: nat)
    requires
        buffer < pow2(rest + v),
    ensures
        buffer / pow2(rest) < pow2(v),
        buffer % pow2(rest) < pow2(rest),
        buffer == (buffer / pow2(rest)) * pow2(rest) + buffer % pow2(rest),
{
    lemma_pow2_adds(v, rest);
    lemma_pow2_pos(rest);
    let a = pow2(v) as int;
    let b = pow2(rest) as int;
    let x = buffer as int;
    assert(x / b < a && 0 <= x % b < b && x == (x / b) * b + x % b) by (nonlinear_arith)
        requires
            0 <= x < a * b,
            b > 0,
    ;
}

proof fn lemma_first_bad_at(text: Seq<u8>, i: int)
    requires
        0 <= i < text.len(),
        !in_alphabet(text[i]),
        forall|k: int| 0 <= k < i ==> in_alphabet(#[trigger] text[k]),
    ensures
        first_bad(text) == Some(text[i]),
    decreases i,
{
    if i > 0 {
        let rest = text.skip(1);
        assert(in_alphabet(text[0]));
        assert forall|k: int| 0 <= k < i - 1 implies in_alphabet(#[trigger] rest[k]) by {
            assert(rest[k] == text[k + 1]);
        }
        lemma_first_bad_at(rest, i - 1);
    }
}

/// `2` to the power of a small number.
fn power(bits: u32) -> (p: u32)
    requires
        bits <= 16,
    ensures
        p == pow2(bits as nat),
{
    let mut p: u32 = 1;
    let mut i: u32 = 0;
    proof {
        lemma2_to64();
    }
    while i < bits
        invariant
            i <= bits <= 16,
            p == pow2(i as nat),
            p <= 65536,
        decreases bits - i,
    {
        proof {
            vstd::arithmetic::power2::lemma_pow2_unfold((i + 1) as nat);
            lemma2_to64();
            if i + 1 < 16 {
                lemma_pow2_strictly_increases((i + 1) as nat, 16);
            }
        }
        p = p * 2;
        i = i + 1;
    }
    p
}

/// Decodes base32 text.
pub fn base32hex_decode(input: &[u8]) -> (output: Result<Vec<u8>, String>)
    ensures
        match output {
            Ok(output) => base32_decoded(input@) == Ok::<Seq<u8>, Seq<char>>(output@),
            Err(e) => base32_decoded(input@) == Err::<Seq<u8>, Seq<char>>(e@),
        },
{
    let mut output: Vec<u8> = Vec::new();
    let mut buffer: u32 = 0;
    let mut bits: u32 = 0;
    let mut i: usize = 0;
    let ghost values = input@.map_values(|b: u8| value_of(b));
    proof {
        lemma2_to64();
        assert(values.take(0) =~= Seq::<u8>::empty());
        assert(number(5, Seq::<u8>::empty()) == 0);
        assert(number(8, Seq::<u8>::empty()) == 0);
    }
    while i < input.len()
        invariant
            i <= input@.len(),
            values == input@.map_values(|b: u8| value_of(b)),
            forall|k: int| 0 <= k < i ==> in_alphabet(#[trigger] input@[k]),
            bits < 8,
            buffer < pow2(bits as nat),
            number(5, values.take(i as int)) == number(8, output@) * pow2(bits as nat) + buffer,
            5 * i == 8 * output@.len() + bits,
        decreases input@.len() - i,
    {
        let byte: u8 = input[i];
        let value: u8 = if 48 <= byte && byte <= 57 {
            byte - 48
        } else if 97 <= byte && byte <= 118 {
            byte - 87
        } else {
            proof {
                lemma_first_bad_at(input@, i as int);
            }
            let mut e = "Invalid base32 character: '".to_string();
            e.push(byte as char);
            e.append("'");
            return Err(e);
        };
        proof {
            lemma_pow2_small(bits as nat);
            lemma2_to64();
            lemma_take_in(
                5,
                8,
                values.take(i as int),
                value,
                output@,
                buffer as nat,
                bits as nat,
            );
            assert(values.take(i + 1) =~= values.take(i as int).push(value));
        }
        buffer = buffer * 32 + value as u32;
        bits = bits + 5;
        if bits >= 8 {
            let rest: u32 = bits - 8;
            let p: u32 = power(rest);
            proof {
                lemma2_to64();
                lemma_pow2_pos(rest as nat);
                lemma_halves(buffer as nat, 8, rest as nat);
            }
            let high: u8 = (buffer / p) as u8;
            let low: u32 = buffer % p;
            proof {
                lemma_put_out(8, output@, buffer as nat, rest as nat, high, low as nat);
            }
            output.push(high);
            buffer = low;
            bits = rest;
        }
        i = i + 1;
    }
    proof {
        assert(values.take(i as int) =~= values);
        lemma_none_bad(input@);
        lemma2_to64();
        lemma_pow2_pos(bits as nat);
        lemma_fundamental_div_mod_converse(
            number(5, values) as int,
            pow2(bits as nat) as int,
            number(8, output@) as int,
            buffer as int,
        );
        assert(5 * i % 8 == bits && 5 * i / 8 == output@.len());
        lemma_digits_number(8, output@);
    }
    Ok(output)
}

/// Encodes bytes as base32 text.
pub fn base32hex_encode(input: &[u8]) -> (output: String)
    ensures
        output@ == base32_encoded(input@),
{
    let mut output = String::new();
    let mut buffer: u32 = 0;
    let mut bits: u32 = 0;
    let mut i: usize = 0;
    let ghost mut out: Seq<u8> = Seq::empty();
    proof {
        lemma2_to64();
        assert(input@.take(0) =~= Seq::<u8>::empty());
        assert(number(5, Seq::<u8>::empty()) == 0);
        assert(number(8, Seq::<u8>::empty()) == 0);
        assert(output@ =~= out.map_values(|v: u8| character(v)));
    }
    while i < input.len()
        invariant
            i <= input@.len(),
            bits < 5,
            buffer < pow2(bits as nat),
            number(8, input@.take(i as int)) == number(5, out) * pow2(bits as nat) + buffer,
            8 * i == 5 * out.len() + bits,
            output@ == out.map_values(|v: u8| character(v)),
            forall|k: int| 0 <= k < out.len() ==> (#[trigger] out[k]) < 32,
        decreases input@.len() - i,
    {
        let byte: u8 = input[i];
        proof {
            lemma_pow2_small(bits as nat);
            lemma2_to64();
            lemma_take_in(8, 5, input@.take(i as int), byte, out, buffer as nat, bits as nat);
            assert(input@.take(i + 1) =~= input@.take(i as int).push(byte));
        }
        buffer = buffer * 256 + byte as u32;
        bits = bits + 8;
        while bits >= 5
            invariant
                bits < 13,
                i < input@.len(),
                buffer < pow2(bits as nat),
                number(8, input@.take(i + 1)) == number(5, out) * pow2(bits as nat) + buffer,
                8 * (i + 1) == 5 * out.len() + bits,
                output@ == out.map_values(|v: u8| character(v)),
                forall|k: int| 0 <= k < out.len() ==> (#[trigger] out[k]) < 32,
            decreases bits,
        {
            let rest: u32 = bits - 5;
            let p: u32 = power(rest);
            proof {
                lemma2_to64();
                lemma_pow2_pos(rest as nat);
                lemma_halves(buffer as nat, 5, rest as nat);
            }
            let high: u8 = (buffer / p) as u8;
            let low: u32 = buffer % p;
            proof {
                lemma_put_out(5, out, buffer as nat, rest as nat, high, low as nat);
                out = out.push(high);
            }
            output.push(character_of(high));
            assert(output@ =~= out.map_values(|v: u8| character(v)));
            buffer = low;
            bits = rest;
        }
        i = i + 1;
    }
    proof {
        assert(input@.take(i as int) =~= input@);
        lemma2_to64();
    }
    let ghost k = (8 * input@.len() + 4) / 5;
    if bits > 0 {
        let room: u32 = 5 - bits;
        let p: u32 = power(room);
        proof {
            lemma_pow2_adds(bits as nat, room as nat);
            let x = buffer as int;
            let a = pow2(bits as nat) as int;
            let q = p as int;
            assert(0 <= x * q < a * q) by (nonlinear_arith)
                requires
                    0 <= x < a,
                    q > 0,
            ;
        }
        let last: u8 = (buffer * p) as u8;
        proof {
            let n = number(5, out) as int;
            let x = buffer as int;
            let a = pow2(bits as nat) as int;
            let q = p as int;
            assert((n * a + x) * q == n * (a * q) + x * q) by (nonlinear_arith);
            lemma_number_push(5, out, last);
            out = out.push(last);
            assert(5 * k - 8 * input@.len() == room);
        }
        output.push(character_of(last));
        assert(output@ =~= out.map_values(|v: u8| character(v)));
    } else {
        proof {
            assert(5 * k == 8 * input@.len());
            let n = number(5, out) as int;
            assert(n * 1 == n) by (nonlinear_arith);
        }
    }
    proof {
        lemma_digits_number(5, out);
    }
    output
}

/// The character that stands for five bits.
fn character_of(v: u8) -> (c: char)
    requires
        v < 32,
    ensures
        c == character(v),
{
    if v < 10 {
        (48 + v) as char
    } else {
        (87 + v) as char
    }
}

/// The bit at place `b` where each of `s` is `w` bits, the most significant one first.
pub open spec fn bit_at(w: nat, s: Seq<u8>, b: int) -> nat {
    s[b / w as int] as nat / pow2((w - 1 - b % w as int) as nat) % 2
}

proof fn lemma_bit_at(w: nat, s: Seq<u8>, b: int)
    requires
        w > 0,
        forall|i: int| 0 <= i < s.len() ==> (#[trigger] s[i]) < pow2(w),
        0 <= b < w * s.len(),
    ensures
        number(w, s) / pow2((w * s.len() - 1 - b) as nat) % 2 == bit_at(w, s, b),
    decreases s.len(),
{
    assert(w * 0 == 0) by (nonlinear_arith);
    assert(s.len() > 0);
    let front = s.drop_last();
    assert forall|i: int| 0 <= i < front.len() implies (#[trigger] front[i]) < pow2(w) by {
        assert(front[i] == s[i]);
    }
    let n = front.len() as int;
    let m = number(w, front) as int;
    let d = s.last() as int;
    let p = pow2(w) as int;
    let wi = w as int;
    assert(s[s.len() - 1] < pow2(w));
    lemma_pow2_pos(w);
    assert(wi * s.len() == wi * n + wi) by (nonlinear_arith)
        requires
            n == s.len() - 1,
    ;
    lemma_fundamental_div_mod_converse(m * p + d, p, m, d);
    if b < wi * n {
        let e = (wi * n - 1 - b) as nat;
        lemma_pow2_adds(w, e);
        lemma_pow2_pos(e);
        lemma_div_denominator(m * p + d, p, pow2(e) as int);
        assert((w * s.len() - 1 - b) as nat == w + e);
        lemma_bit_at(w, front, b);
        assert(0 <= b / wi < n) by (nonlinear_arith)
            requires
                0 <= b < wi * n,
                wi > 0,
        ;
    } else {
        let r = b - wi * n;
        lemma_fundamental_div_mod_converse(b, wi, n, r);
        let e = (wi - 1 - r) as nat;
        assert((w * s.len() - 1 - b) as nat == e);
        lemma_pow2_adds(e, (r + 1) as nat);
        lemma_pow2_adds(r as nat, 1);
        lemma2_to64();
        lemma_pow2_pos(e);
        let pe = pow2(e) as int;
        let pr = pow2(r as nat) as int;
        assert(p == pe * (2 * pr)) by {
            assert(pr * 2 == 2 * pr);
        }
        assert(m * p == (2 * (m * pr)) * pe) by (nonlinear_arith)
            requires
                p == pe * (2 * pr),
        ;
        lemma_hoist_over_denominator(d, 2 * (m * pr), pe as nat);
        lemma_mod_multiples_vanish(m * pr, d / pe, 2);
    }
}

/// Base32 text is read bit by bit. It is made of the characters `0` to `9` and `a` to `v`, which
/// stand for five bits each, and the bits fill as many bytes as there are bits for.
pub proof fn law_base32_bits(text: Seq<u8>)
    ensures
        base32_decoded(text) is Ok <==> forall|i: int|
            0 <= i < text.len() ==> ('0' as u8 <= (#[trigger] text[i]) <= '9' as u8 || 'a' as u8
                <= text[i] <= 'v' as u8),
        base32_decoded(text) matches Ok(bytes) ==> {
            let values = text.map_values(
                |c: u8|
                    if c <= '9' as u8 {
                        (c - '0' as u8) as u8
                    } else {
                        (c - 'a' as u8 + 10) as u8
                    },
            );
            &&& bytes.len() == 5 * text.len() / 8
            &&& forall|b: int|
                0 <= b < 8 * bytes.len() ==> #[trigger] bit_at(8, bytes, b) == bit_at(5, values, b)
        },
{
    if forall|i: int| 0 <= i < text.len() ==> in_alphabet(#[trigger] text[i]) {
        lemma_none_bad(text);
        let values = text.map_values(|b: u8| value_of(b));
        assert(values =~= text.map_values(
            |c: u8|
                if c <= '9' as u8 {
                    (c - '0' as u8) as u8
                } else {
                    (c - 'a' as u8 + 10) as u8
                },
        ));
        lemma2_to64();
        assert forall|i: int| 0 <= i < values.len() implies (#[trigger] values[i]) < pow2(5) by {
            assert(in_alphabet(text[i]));
        }
        let len = text.len();
        let t = 5 * len % 8;
        let k = 5 * len / 8;
        let n = number(5, values);
        lemma_number_bound(5, values);
        lemma_pow2_adds(8 * k, t);
        lemma_pow2_pos(t);
        let a = n as int / pow2(t) as int;
        let x = pow2(8 * k) as int;
        let y = pow2(t) as int;
        assert(0 <= a < x) by (nonlinear_arith)
            requires
                0 <= n < x * y,
                y > 0,
                a == n as int / y,
        ;
        lemma_number_digits(8, a as nat, k);
        let bytes = digits(8, a as nat, k);
        assert forall|b: int| 0 <= b < 8 * bytes.len() implies #[trigger] bit_at(8, bytes, b)
            == bit_at(5, values, b) by {
            lemma_bit_at(8, bytes, b);
            lemma_bit_at(5, values, b);
            let e = (8 * k - 1 - b) as nat;
            lemma_pow2_adds(t, e);
            lemma_pow2_pos(e);
            lemma_div_denominator(n as int, y, pow2(e) as int);
            assert(t + e == (5 * len - 1 - b) as nat);
        }
    } else {
        let i = choose|i: int| 0 <= i < text.len() && !in_alphabet(#[trigger] text[i]);
        lemma_some_bad(text, i);
    }
}

proof fn lemma_some_bad(text: Seq<u8>, i: int)
    requires
        0 <= i < text.len(),
        !in_alphabet(text[i]),
    ensures
        first_bad(text) is Some,
    decreases text.len(),
{
    if i > 0 {
        assert(text.skip(1)[i - 1] == text[i]);
        lemma_some_bad(text.skip(1), i - 1);
    }
}

/// Decoding what was encoded gives it back, and only text of the alphabet is decoded.
pub proof fn law_decoding_base32(input: &[u8], text: String, back: &[u8], output: Result<
    Vec<u8>,
    String,
>)
    requires
        call_ensures(base32hex_encode, (input,), text),
        call_ensures(base32hex_decode, (back,), output),
    ensures
        back@ == text@.map_values(|c: char| c as u8) ==> (output matches Ok(output) && output@
            == input@),
        output is Ok <==> forall|i: int|
            0 <= i < back@.len() ==> ('0' as u8 <= (#[trigger] back@[i]) <= '9' as u8 || 'a' as u8
                <= back@[i] <= 'v' as u8),
{
    law_base32_round_trip(input@);
    law_base32_bits(back@);
}

} // verus!
