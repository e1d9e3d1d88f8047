//! Text as sequences of characters: taking it apart and writing numbers and bytes out.

use vstd::prelude::*;
use vstd::utf8::is_ascii_chars;

verus! {

/// The contents of a list of strings.
pub open spec fn texts(v: Seq<String>) -> Seq<Seq<char>> {
    v.map_values(|s: String| s@)
}

/// The contents of lists of strings that are kept by denomination.
pub open spec fn text_tiers(m: Map<u64, Vec<String>>) -> Map<u64, Seq<Seq<char>>> {
    m.map_values(|v: Vec<String>| texts(v@))
}

/// `String::push` adds the character to the end.
pub assume_specification[ String::push ](s: &mut String, c: char)
    ensures
        final(s)@ == old(s)@.push(c),
;

/// The digit that stands for `n`, which is less than sixteen.
pub open spec fn digit(n: nat) -> char {
    if n < 10 {
        (48 + n) as char
    } else {
        (87 + n) as char
    }
}

/// `n` in decimal, without leading zeros.
pub open spec fn decimal(n: nat) -> Seq<char>
    decreases n,
{
    if n < 10 {
        seq![digit(n)]
    } else {
        decimal(n / 10).push(digit(n % 10))
    }
}

/// `n` in lower case hexadecimal, without leading zeros.
pub open spec fn hexadecimal(n: nat) -> Seq<char>
    decreases n,
{
    if n < 16 {
        seq![digit(n)]
    } else {
        hexadecimal(n / 16).push(digit(n % 16))
    }
}

/// Two hexadecimal digits for each byte.
pub open spec fn hex_digits(bytes: Seq<u8>) -> Seq<char> {
    Seq::new(
        2 * bytes.len(),
        |i: int|
            if i % 2 == 0 {
                digit((bytes[i / 2] / 16) as nat)
            } else {
                digit((bytes[i / 2] % 16) as nat)
            },
    )
}

/// The bytes in hexadecimal between brackets, with commas between them.
pub open spec fn hex_list(bytes: Seq<u8>) -> Seq<char> {
    "["@ + hex_items(bytes) + "]"@
}

/// The bytes in hexadecimal with commas between them.
pub open spec fn hex_items(bytes: Seq<u8>) -> Seq<char>
    decreases bytes.len(),
{
    if bytes.len() == 0 {
        Seq::empty()
    } else if bytes.len() == 1 {
        hex_digits(bytes)
    } else {
        hex_items(bytes.drop_last()) + ", "@ + hex_digits(seq![bytes.last()])
    }
}

/// The digit that stands for `n`.
fn digit_char(n: u8) -> (c: char)
    requires
        n < 16,
    ensures
        c == digit(n as nat),
{
    if n < 10 {
        (48 + n) as char
    } else {
        (87 + n) as char
    }
}

/// Writes `n` in decimal behind `out`.
pub fn push_decimal(out: &mut String, n: u64)
    ensures
        final(out)@ == old(out)@ + decimal(n as nat),
    decreases n,
{
    if n >= 10 {
        push_decimal(out, n / 10);
    }
    out.push(digit_char((n % 10) as u8));
    assert(out@ =~= old(out)@ + decimal(n as nat));
}

/// Writes `n` in hexadecimal behind `out`.
pub fn push_hexadecimal(out: &mut String, n: u64)
    ensures
        final(out)@ == old(out)@ + hexadecimal(n as nat),
    decreases n,
{
    if n >= 16 {
        push_hexadecimal(out, n / 16);
    }
    out.push(digit_char((n % 16) as u8));
    assert(out@ =~= old(out)@ + hexadecimal(n as nat));
}

/// Writes the bytes as a list of hexadecimal numbers behind `out`.
pub fn push_hex_list(out: &mut String, bytes: &[u8])
    ensures
        final(out)@ == old(out)@ + hex_list(bytes@),
{
    out.append("[");
    let ghost start = out@;
    let mut i: usize = 0;
    while i < bytes.len()
        invariant
            i <= bytes@.len(),
            out@ == start + hex_items(bytes@.take(i as int)),
        decreases bytes@.len() - i,
    {
        if i > 0 {
            out.append(", ");
        }
        out.push(digit_char(bytes[i] / 16));
        out.push(digit_char(bytes[i] % 16));
        proof {
            let now = bytes@.take(i + 1);
            assert(now.drop_last() =~= bytes@.take(i as int));
            if i == 0 {
                assert(now =~= seq![bytes@[0]]);
            }
            assert(out@ =~= start + hex_items(now));
        }
        i = i + 1;
    }
    assert(bytes@.take(i as int) =~= bytes@);
    out.append("]");
    assert(out@ =~= old(out)@ + hex_list(bytes@));
}

/// The characters with Unicode's property `White_Space`.
pub open spec fn white(c: char) -> bool {
    let u = c as u32;
    ||| 0x09 <= u <= 0x0d
    ||| u == 0x20
    ||| u == 0x85
    ||| u == 0xa0
    ||| u == 0x1680
    ||| 0x2000 <= u <= 0x200a
    ||| u == 0x2028
    ||| u == 0x2029
    ||| u == 0x202f
    ||| u == 0x205f
    ||| u == 0x3000
}

/// Whether the character is white space.
pub fn is_whitespace(c: char) -> (yes: bool)
    ensures
        yes == white(c),
{
    let u: u32 = c as u32;
    (0x09 <= u && u <= 0x0d) || u == 0x20 || u == 0x85 || u == 0xa0 || u == 0x1680 || (0x2000 <= u
        && u <= 0x200a) || u == 0x2028 || u == 0x2029 || u == 0x202f || u == 0x205f || u == 0x3000
}

/// The text without its white space.
pub open spec fn squeezed(text: Seq<char>) -> Seq<char> {
    text.filter(|c: char| !white(c))
}

/// The text without the white space at its two ends.
pub open spec fn trimmed(text: Seq<char>) -> Seq<char>
    decreases text.len(),
{
    if text.len() == 0 {
        text
    } else if white(text[0]) {
        trimmed(text.skip(1))
    } else if white(text.last()) {
        trimmed(text.drop_last())
    } else {
        text
    }
}

/// The characters of a text.
pub fn chars_of(s: &str) -> (chars: Vec<char>)
    ensures
        chars@ == s@,
{
    let mut chars: Vec<char> = Vec::new();
    for c in it: s.chars()
        invariant
            it.seq() == s@,
            chars@ == s@.take(it.index()),
    {
        chars.push(c);
    }
    assert(chars@ =~= s@);
    chars
}

/// Takes all white space out of a text.
pub fn squeeze(s: &str) -> (out: String)
    ensures
        out@ == squeezed(s@),
{
    let mut out = String::new();
    for c in it: s.chars()
        invariant
            it.seq() == s@,
            out@ == squeezed(s@.take(it.index())),
    {
        proof {
            let i = it.index();
            let keep = |c: char| !white(c);
            assert(s@.take(i + 1) =~= s@.take(i).push(c));
            s@.take(i).lemma_filter_push(c, keep);
        }
        if !is_whitespace(c) {
            out.push(c);
        }
    }
    assert(s@.take(s@.len() as int) =~= s@);
    out
}

/// Takes the white space at the two ends off a text.
pub fn trim(s: &str) -> (out: String)
    ensures
        out@ == trimmed(s@),
{
    let chars = chars_of(s);
    let mut from: usize = 0;
    let mut to: usize = chars.len();
    assert(chars@.subrange(0, to as int) =~= chars@);
    while from < to && is_whitespace(chars[from])
        invariant
            from <= to,
            to == chars@.len(),
            trimmed(chars@) == trimmed(chars@.subrange(from as int, to as int)),
        decreases to - from,
    {
        assert(chars@.subrange(from as int, to as int).skip(1) =~= chars@.subrange(
            from + 1,
            to as int,
        ));
        from = from + 1;
    }
    while from < to && is_whitespace(chars[to - 1])
        invariant
            from <= to <= chars@.len(),
            trimmed(chars@) == trimmed(chars@.subrange(from as int, to as int)),
            from < to ==> !white(chars@[from as int]),
        decreases to - from,
    {
        assert(chars@.subrange(from as int, to as int).drop_last() =~= chars@.subrange(
            from as int,
            to - 1,
        ));
        to = to - 1;
    }
    s.substring_char(from, to).to_string()
}

/// An ASCII letter in lower case, and any other ASCII character itself.
pub open spec fn ascii_lower(c: char) -> char {
    if 'A' <= c && c <= 'Z' {
        (c as u32 + 32) as char
    } else {
        c
    }
}

/// What `str::to_lowercase` gives for text that is not plain ASCII.
pub uninterp spec fn unicode_lowered(text: Seq<char>) -> Seq<char>;

/// The text in lower case.
pub open spec fn lowered(text: Seq<char>) -> Seq<char> {
    if is_ascii_chars(text) {
        text.map_values(|c: char| ascii_lower(c))
    } else {
        unicode_lowered(text)
    }
}

/// `str::to_lowercase`: the ASCII letters of plain ASCII text in lower case and nothing else
/// changed. What it gives for other text follows Unicode's tables and is left open here.
#[verifier::external_body]
pub(crate) fn to_lowercase(s: &str) -> (out: String)
    ensures
        is_ascii_chars(s@) ==> out@ == s@.map_values(|c: char| ascii_lower(c)),
        !is_ascii_chars(s@) ==> out@ == unicode_lowered(s@),
{
    s.to_lowercase()
}

/// Printable ASCII, without the two characters that are escaped between quotes.
pub open spec fn plain(text: Seq<char>) -> bool {
    forall|i: int|
        0 <= i < text.len() ==> ' ' <= (#[trigger] text[i]) && text[i] <= '~' && text[i] != '"'
            && text[i] != '\\'
}

/// What the `Debug` form of a `str` is for text that is not `plain`.
pub uninterp spec fn escaped(text: Seq<char>) -> Seq<char>;

/// The text between quotes, with escapes where they are needed.
pub open spec fn quoted(text: Seq<char>) -> Seq<char> {
    if plain(text) {
        "\""@ + text + "\""@
    } else {
        escaped(text)
    }
}

/// The `Debug` form of a `str`: plain text between quotes. What it gives for other text is left
/// open here.
#[verifier::external_body]
pub(crate) fn quote(s: &str) -> (out: String)
    ensures
        plain(s@) ==> out@ == "\""@ + s@ + "\""@,
        !plain(s@) ==> out@ == escaped(s@),
{
    format!("{:?}", s)
}

/// How many bytes a character takes in UTF-8.
pub open spec fn width(c: char) -> nat {
    let u = c as u32;
    if u < 0x80 {
        1
    } else if u < 0x800 {
        2
    } else if u < 0x1_0000 {
        3
    } else {
        4
    }
}

/// As many characters at the front of the text as take no more than `room` bytes.
pub open spec fn head(text: Seq<char>, room: nat) -> Seq<char>
    decreases text.len(),
{
    if text.len() == 0 || width(text[0]) > room {
        Seq::empty()
    } else {
        seq![text[0]] + head(text.skip(1), (room - width(text[0])) as nat)
    }
}

/// Takes as many characters off the front of a text as take no more than `room` bytes.
pub fn take_head(s: &str, room: u32) -> (out: String)
    ensures
        out@ == head(s@, room as nat),
{
    let chars = chars_of(s);
    let mut out = String::new();
    let mut left: u32 = room;
    let mut i: usize = 0;
    assert(s@.skip(0) =~= s@);
    assert(out@ + head(s@.skip(0), left as nat) =~= head(s@, room as nat));
    while i < chars.len()
        invariant
            i <= chars@.len(),
            chars@ == s@,
            out@ + head(s@.skip(i as int), left as nat) == head(s@, room as nat),
        decreases chars@.len() - i,
    {
        let c: char = chars[i];
        let u: u32 = c as u32;
        let w: u32 = if u < 0x80 {
            1
        } else if u < 0x800 {
            2
        } else if u < 0x1_0000 {
            3
        } else {
            4
        };
        assert(s@.skip(i as int)[0] == c);
        assert(s@.skip(i as int).skip(1) =~= s@.skip(i + 1));
        if w > left {
            assert(out@ =~= head(s@, room as nat));
            return out;
        }
        let ghost before = out@;
        out.push(c);
        assert(out@ + head(s@.skip(i + 1), (left - w) as nat) =~= before + head(
            s@.skip(i as int),
            left as nat,
        ));
        left = left - w;
        i = i + 1;
    }
    assert(out@ =~= head(s@, room as nat));
    out
}

/// The bytes begin with those of `prefix`.
pub open spec fn begins_with(bytes: Seq<u8>, prefix: Seq<u8>) -> bool {
    prefix.len() <= bytes.len() && bytes.take(prefix.len() as int) == prefix
}

/// Whether the bytes begin with those of `prefix`.
pub fn starts_with(bytes: &[u8], prefix: &[u8]) -> (yes: bool)
    ensures
        yes == begins_with(bytes@, prefix@),
{
    if bytes.len() < prefix.len() {
        return false;
    }
    let mut i: usize = 0;
    while i < prefix.len()
        invariant
            i <= prefix@.len() <= bytes@.len(),
            forall|k: int| 0 <= k < i ==> bytes@[k] == prefix@[k],
        decreases prefix@.len() - i,
    {
        if bytes[i] != prefix[i] {
            assert(bytes@.take(prefix@.len() as int)[i as int] != prefix@[i as int]);
            return false;
        }
        i = i + 1;
    }
    assert(bytes@.take(prefix@.len() as int) =~= prefix@);
    true
}

/// Whether two byte strings are the same.
pub fn same_bytes(a: &[u8], b: &[u8]) -> (yes: bool)
    ensures
        yes == (a@ == b@),
{
    if a.len() != b.len() {
        return false;
    }
    assert(a@.take(b@.len() as int) =~= a@);
    starts_with(a, b)
}

/// Decimal digits only.
pub open spec fn all_digits(text: Seq<char>) -> bool {
    forall|i: int| 0 <= i < text.len() ==> '0' <= #[trigger] text[i] <= '9'
}

/// The number that decimal digits stand for.
pub open spec fn number_of(digits: Seq<char>) -> nat
    decreases digits.len(),
{
    if digits.len() == 0 {
        0
    } else {
        (10 * number_of(digits.drop_last()) + (digits.last() as u32 - 48)) as nat
    }
}

/// The number that a text is, if it is one that fits: decimal digits, which may follow a plus.
pub open spec fn parsed_u64(text: Seq<char>) -> Option<u64> {
    let digits = if text.len() > 1 && text[0] == '+' {
        text.skip(1)
    } else {
        text
    };
    if digits.len() > 0 && all_digits(digits) && number_of(digits) <= u64::MAX {
        Some(number_of(digits) as u64)
    } else {
        None
    }
}

/// Reads a number.
pub fn parse_u64(s: &str) -> (n: Option<u64>)
    ensures
        n == parsed_u64(s@),
{
    let chars = chars_of(s);
    let from: usize = if chars.len() > 1 && chars[0] == '+' {
        1
    } else {
        0
    };
    let ghost digits = s@.skip(from as int);
    assert(s@.skip(0) =~= s@);
    if chars.len() == from {
        return None;
    }
    let mut fits: bool = true;
    let mut n: u64 = 0;
    let mut i: usize = from;
    assert(digits.take(0) =~= Seq::empty());
    while i < chars.len()
        invariant
            from <= i <= chars@.len(),
            chars@ == s@,
            digits == s@.skip(from as int),
            digits.len() > 0,
            parsed_u64(s@) == (if digits.len() > 0 && all_digits(digits) && number_of(digits)
                <= u64::MAX {
                Some(number_of(digits) as u64)
            } else {
                None
            }),
            all_digits(digits.take(i - from)),
            fits ==> n == number_of(digits.take(i - from)),
            !fits ==> number_of(digits.take(i - from)) > u64::MAX,
        decreases chars@.len() - i,
    {
        let c: char = chars[i];
        assert(digits[i - from] == c);
        if c < '0' || c > '9' {
            assert(!all_digits(digits));
            return None;
        }
        proof {
            let now = digits.take(i - from);
            let next = digits.take(i - from + 1);
            assert(next.drop_last() =~= now);
            assert forall|k: int| 0 <= k < next.len() implies '0' <= #[trigger] next[k] <= '9' by {
                if k < now.len() {
                    assert(next[k] == now[k]);
                }
            }
        }
        let d: u64 = (c as u32 - 48) as u64;
        if fits {
            match n.checked_mul(10) {
                Some(m) => match m.checked_add(d) {
                    Some(m) => {
                        n = m;
                    },
                    None => {
                        fits = false;
                    },
                },
                None => {
                    fits = false;
                },
            }
        }
        i = i + 1;
    }
    assert(digits.take(i - from) =~= digits);
    if fits {
        Some(n)
    } else {
        None
    }
}

/// The characters that are white space.
pub proof fn law_white_space(c: char)
    ensures
        white(c) <==> {
            ||| c == '\t'
            ||| c == '\n'
            ||| c == '\u{b}'
            ||| c == '\u{c}'
            ||| c == '\r'
            ||| c == ' '
            ||| c == '\u{85}'
            ||| c == '\u{a0}'
            ||| c == '\u{1680}'
            ||| '\u{2000}' <= c <= '\u{200a}'
            ||| c == '\u{2028}'
            ||| c == '\u{2029}'
            ||| c == '\u{202f}'
            ||| c == '\u{205f}'
            ||| c == '\u{3000}'
        },
{
}

/// A number is read from text just as it is written there.
pub proof fn law_reading_number(s: &str, n: Option<u64>)
    requires
        call_ensures(parse_u64, (s,), n),
    ensures
        s@.len() > 0 && all_digits(s@) && number_of(s@) <= u64::MAX ==> n == Some(
            number_of(s@) as u64,
        ),
        s@.len() > 0 && all_digits(s@) && number_of(s@) > u64::MAX ==> n is None,
        s@.len() == 0 ==> n is None,
{
    if s@.len() > 0 && all_digits(s@) {
        assert('0' <= s@[0] <= '9');
    }
}

} // verus!
