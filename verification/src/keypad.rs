//! Entering PINs and amounts key by key.

use crate::config::{hash_pin, pin_hash};
use crate::text::{all_digits, chars_of};
use vstd::prelude::*;
use vstd::utf8::{encode_utf8, is_ascii_chars, is_ascii_chars_encode_utf8};

verus! {

/// How many digits a PIN has at most.
pub const MAX_PIN: usize = 6;

/// How many digits a PIN has at least.
pub const MIN_PIN: usize = 4;

/// The text without its last character.
pub open spec fn shortened(text: Seq<char>) -> Seq<char> {
    if text.len() == 0 {
        text
    } else {
        text.drop_last()
    }
}

/// Takes the last character off a text.
pub fn backspace(text: &mut String)
    ensures
        final(text)@ == shortened(old(text)@),
{
    let n: usize = text.as_str().unicode_len();
    if n > 0 {
        let kept = text.as_str().substring_char(0, n - 1).to_string();
        *text = kept;
        assert(text@ =~= shortened(old(text)@));
    }
}

/// The PIN with one more digit, if it is not as long as it may be.
pub open spec fn with_digit(pin: Seq<char>, d: char) -> Seq<char> {
    if encode_utf8(pin).len() < MAX_PIN {
        pin.push(d)
    } else {
        pin
    }
}

/// Adds a digit to a PIN, if it is not as long as it may be.
pub fn push_digit(pin: &mut String, d: char)
    ensures
        final(pin)@ == with_digit(old(pin)@, d),
{
    if pin.as_str().as_bytes().len() < MAX_PIN {
        pin.push(d);
    }
}

/// Setting a PIN: it is entered twice.
#[derive(Clone, Debug)]
pub struct PinSetup {
    /// What was entered first.
    pub pin: String,
    /// What was entered to confirm it.
    pub confirm_pin: String,
    /// Whether it is being confirmed.
    pub confirming: bool,
}

/// What comes of confirming an entry.
#[derive(Clone, Debug)]
pub enum PinStep {
    /// Nothing is done but saying what is wrong.
    Refused(String),
    /// The PIN is to be entered once more.
    EnterAgain,
    /// The PIN is set, and this is what it is hashed to.
    Done(String),
}

/// Setting a PIN, with the contents of its texts.
pub struct PinEntry {
    /// What was entered first.
    pub pin: Seq<char>,
    /// What was entered to confirm it.
    pub confirm_pin: Seq<char>,
    /// Whether it is being confirmed.
    pub confirming: bool,
}

impl View for PinSetup {
    type V = PinEntry;

    open spec fn view(&self) -> PinEntry {
        PinEntry {
            pin: self.pin@,
            confirm_pin: self.confirm_pin@,
            confirming: self.confirming,
        }
    }
}

/// What comes of confirming an entry, with the contents of its texts.
pub enum PinAnswer {
    /// Nothing is done but saying what is wrong.
    Refused(Seq<char>),
    /// The PIN is to be entered once more.
    EnterAgain,
    /// The PIN is set, and this is what it is hashed to.
    Done(Seq<char>),
}

impl View for PinStep {
    type V = PinAnswer;

    open spec fn view(&self) -> PinAnswer {
        match self {
            PinStep::Refused(said) => PinAnswer::Refused(said@),
            PinStep::EnterAgain => PinAnswer::EnterAgain,
            PinStep::Done(hash) => PinAnswer::Done(hash@),
        }
    }
}

/// What is being entered with one more digit.
pub open spec fn digit_entered(entry: PinEntry, d: char) -> PinEntry {
    if entry.confirming {
        PinEntry { confirm_pin: with_digit(entry.confirm_pin, d), ..entry }
    } else {
        PinEntry { pin: with_digit(entry.pin, d), ..entry }
    }
}

/// What is being entered without its last digit.
pub open spec fn digit_erased(entry: PinEntry) -> PinEntry {
    if entry.confirming {
        PinEntry { confirm_pin: shortened(entry.confirm_pin), ..entry }
    } else {
        PinEntry { pin: shortened(entry.pin), ..entry }
    }
}

/// What comes of confirming an entry, and how it goes on.
pub open spec fn confirmed(entry: PinEntry) -> (PinAnswer, PinEntry) {
    if !entry.confirming {
        if long_enough(entry.pin) {
            (PinAnswer::EnterAgain, PinEntry { confirming: true, ..entry })
        } else {
            (PinAnswer::Refused("PIN must be at least 4 digits"@), entry)
        }
    } else if entry.pin == entry.confirm_pin {
        (PinAnswer::Done(pin_hash(entry.pin)), entry)
    } else {
        (
            PinAnswer::Refused("PINs don't match"@),
            PinEntry { confirm_pin: Seq::empty(), ..entry },
        )
    }
}

/// A PIN is long enough.
pub open spec fn long_enough(pin: Seq<char>) -> bool {
    encode_utf8(pin).len() >= MIN_PIN
}

impl PinSetup {
    /// Nothing was entered yet.
    pub fn new() -> (setup: Self)
        ensures
            setup.pin@ == Seq::<char>::empty(),
            setup.confirm_pin@ == Seq::<char>::empty(),
            !setup.confirming,
    {
        PinSetup { pin: String::new(), confirm_pin: String::new(), confirming: false }
    }

    /// A digit goes to what is being entered.
    pub fn digit(&mut self, d: char)
        ensures
            final(self).confirming == old(self).confirming,
            final(self).pin@ == (if old(self).confirming {
                old(self).pin@
            } else {
                with_digit(old(self).pin@, d)
            }),
            final(self).confirm_pin@ == (if old(self).confirming {
                with_digit(old(self).confirm_pin@, d)
            } else {
                old(self).confirm_pin@
            }),
            final(self)@ == digit_entered(old(self)@, d),
    {
        if self.confirming {
            push_digit(&mut self.confirm_pin, d);
        } else {
            push_digit(&mut self.pin, d);
        }
    }

    /// The last digit of what is being entered goes.
    pub fn erase(&mut self)
        ensures
            final(self).confirming == old(self).confirming,
            final(self).pin@ == (if old(self).confirming {
                old(self).pin@
            } else {
                shortened(old(self).pin@)
            }),
            final(self).confirm_pin@ == (if old(self).confirming {
                shortened(old(self).confirm_pin@)
            } else {
                old(self).confirm_pin@
            }),
            final(self)@ == digit_erased(old(self)@),
    {
        if self.confirming {
            backspace(&mut self.confirm_pin);
        } else {
            backspace(&mut self.pin);
        }
    }

    /// What is being entered is done.
    ///
    /// A PIN that is too short is refused, and a long enough one has to be entered again. If what
    /// is entered then differs, it is refused and has to be entered anew.
    pub fn confirm(&mut self) -> (step: PinStep)
        ensures
            final(self).pin@ == old(self).pin@,
            !old(self).confirming ==> final(self).confirm_pin@ == old(self).confirm_pin@,
            !old(self).confirming && !long_enough(old(self).pin@) ==> {
                &&& step matches PinStep::Refused(said) && said@ == "PIN must be at least 4 digits"@
                &&& !final(self).confirming
            },
            !old(self).confirming && long_enough(old(self).pin@) ==> {
                &&& step is EnterAgain
                &&& final(self).confirming
            },
            old(self).confirming ==> final(self).confirming,
            old(self).confirming && old(self).pin@ != old(self).confirm_pin@ ==> {
                &&& step matches PinStep::Refused(said) && said@ == "PINs don't match"@
                &&& final(self).confirm_pin@ == Seq::<char>::empty()
            },
            old(self).confirming && old(self).pin@ == old(self).confirm_pin@ ==> {
                &&& step matches PinStep::Done(hash) && hash@ == pin_hash(old(self).pin@)
                &&& final(self).confirm_pin@ == old(self).confirm_pin@
            },
            (step@, final(self)@) == confirmed(old(self)@),
    {
        if !self.confirming {
            if self.pin.as_str().as_bytes().len() < MIN_PIN {
                return PinStep::Refused("PIN must be at least 4 digits".to_string());
            }
            self.confirming = true;
            PinStep::EnterAgain
        } else {
            if !self.pin.eq(&self.confirm_pin) {
                self.confirm_pin = String::new();
                return PinStep::Refused("PINs don't match".to_string());
            }
            PinStep::Done(hash_pin(self.pin.as_str()))
        }
    }

    /// Whether the dot at place `i` is shown filled.
    pub fn dot_filled(&self, i: usize) -> (filled: bool)
        ensures
            filled == (i < encode_utf8(
                if self.confirming {
                    self.confirm_pin@
                } else {
                    self.pin@
                },
            ).len()),
    {
        if self.confirming {
            i < self.confirm_pin.as_str().as_bytes().len()
        } else {
            i < self.pin.as_str().as_bytes().len()
        }
    }
}

/// What comes of entering a PIN to get at what only the administrator may do.
#[derive(Clone, Debug)]
pub enum PinCheck {
    /// It is the right one.
    Admitted,
    /// It is not, and this is said.
    Refused(String),
}

/// Whether a PIN is admitted where the right one is hashed to `expected`, and what is left of it.
pub open spec fn admitted(pin: Seq<char>, expected: Seq<char>) -> (bool, Seq<char>) {
    if pin_hash(pin) == expected {
        (true, pin)
    } else {
        (false, Seq::empty())
    }
}

/// Holds a PIN against what the right one is hashed to. A wrong one is cleared.
pub fn check_pin(pin: &mut String, expected_hash: &String) -> (check: PinCheck)
    ensures
        pin_hash(old(pin)@) == expected_hash@ ==> check is Admitted && final(pin)@ == old(pin)@,
        pin_hash(old(pin)@) != expected_hash@ ==> {
            &&& check matches PinCheck::Refused(said) && said@ == "Wrong PIN"@
            &&& final(pin)@ == Seq::<char>::empty()
        },
        (check is Admitted, final(pin)@) == admitted(old(pin)@, expected_hash@),
{
    if hash_pin(pin.as_str()).eq(expected_hash) {
        PinCheck::Admitted
    } else {
        *pin = String::new();
        PinCheck::Refused("Wrong PIN".to_string())
    }
}

/// A PIN of plain digits never gets longer than it may be.
pub proof fn law_pin_stays_short(pin: Seq<char>, d: char)
    requires
        is_ascii_chars(pin),
        '0' <= d <= '9',
        encode_utf8(pin).len() <= MAX_PIN,
    ensures
        is_ascii_chars(with_digit(pin, d)),
        encode_utf8(with_digit(pin, d)).len() <= MAX_PIN,
        with_digit(pin, d).len() <= MAX_PIN,
{
    is_ascii_chars_encode_utf8(pin);
    assert(is_ascii_chars(pin.push(d)));
    is_ascii_chars_encode_utf8(pin.push(d));
}

/// What is in front of the first dot, or all of the text if there is none.
pub open spec fn until_dot(text: Seq<char>) -> Seq<char>
    decreases text.len(),
{
    if text.len() == 0 || text[0] == '.' {
        Seq::empty()
    } else {
        seq![text[0]] + until_dot(text.skip(1))
    }
}

/// What is between the first dot and the next one or the end.
pub open spec fn decimals(text: Seq<char>) -> Seq<char> {
    until_dot(text.skip(until_dot(text).len() as int + 1))
}

/// An amount after one more key.
///
/// A dot is taken once, and not first. The key for erasing takes the last character away. Other
/// keys are added as long as there are fewer than ten characters, the amount is not a single
/// zero, and there are fewer than two decimals.
pub open spec fn typed(text: Seq<char>, key: Seq<char>) -> Seq<char> {
    if key == "."@ {
        if !text.contains('.') && text.len() > 0 {
            text.push('.')
        } else {
            text
        }
    } else if key == "\u{232b}"@ {
        shortened(text)
    } else if encode_utf8(text).len() >= 10 || text == "0"@ {
        text
    } else if text.contains('.') && encode_utf8(decimals(text)).len() >= 2 {
        text
    } else {
        text + key
    }
}

proof fn lemma_until_dot(text: Seq<char>, n: int)
    requires
        0 <= n <= text.len(),
        forall|i: int| 0 <= i < n ==> #[trigger] text[i] != '.',
        n < text.len() ==> text[n] == '.',
    ensures
        until_dot(text) == text.take(n),
    decreases text.len(),
{
    if n > 0 {
        let rest = text.skip(1);
        assert(text[0] != '.');
        assert forall|i: int| 0 <= i < n - 1 implies #[trigger] rest[i] != '.' by {
            assert(rest[i] == text[i + 1]);
        }
        lemma_until_dot(rest, n - 1);
        assert(text.take(n) =~= seq![text[0]] + rest.take(n - 1));
    } else {
        assert(text.take(n) =~= Seq::empty());
    }
}

/// The place of the first dot at `from` or behind it, or the end if there is none.
fn find_dot(chars: &Vec<char>, from: usize) -> (place: usize)
    requires
        from <= chars@.len(),
    ensures
        from <= place <= chars@.len(),
        forall|i: int| from <= i < place ==> #[trigger] chars@[i] != '.',
        place < chars@.len() ==> chars@[place as int] == '.',
{
    let mut i: usize = from;
    while i < chars.len() && chars[i] != '.'
        invariant
            from <= i <= chars@.len(),
            forall|k: int| from <= k < i ==> #[trigger] chars@[k] != '.',
        decreases chars@.len() - i,
    {
        i = i + 1;
    }
    i
}

/// Handles a key while an amount is entered.
pub fn handle_numpad(text: &mut String, key: &String)
    ensures
        final(text)@ == typed(old(text)@, key@),
{
    let chars = chars_of(text.as_str());
    let dot: usize = find_dot(&chars, 0);
    let has_dot: bool = dot < chars.len();
    proof {
        assert(has_dot == text@.contains('.')) by {
            if has_dot {
                assert(text@[dot as int] == '.');
            }
        }
        lemma_until_dot(text@, dot as int);
    }
    if key.eq(&".".to_string()) {
        if !has_dot && chars.len() > 0 {
            text.push('.');
        }
    } else if key.eq(&"\u{232b}".to_string()) {
        backspace(text);
    } else {
        if text.as_str().as_bytes().len() >= 10 {
            return ;
        }
        if (*text).eq(&"0".to_string()) {
            return ;
        }
        if has_dot {
            let next: usize = find_dot(&chars, dot + 1);
            let part = text.as_str().substring_char(dot + 1, next);
            proof {
                let rest = text@.skip(dot + 1);
                assert forall|i: int| 0 <= i < next - dot - 1 implies #[trigger] rest[i]
                    != '.' by {
                    assert(rest[i] == chars@[i + dot + 1]);
                }
                lemma_until_dot(rest, next - dot - 1);
                assert(part@ =~= decimals(text@));
            }
            if part.as_bytes().len() >= 2 {
                return ;
            }
        }
        text.append(key.as_str());
    }
}

/// Nothing, or a number without leading zeros and with at most two decimals behind a dot.
pub open spec fn is_amount(text: Seq<char>) -> bool {
    let n = until_dot(text).len() as int;
    &&& all_digits(until_dot(text))
    &&& text.len() > 0 ==> n > 0
    &&& n > 1 ==> text[0] != '0'
    &&& n < text.len() ==> all_digits(text.skip(n + 1)) && text.skip(n + 1).len() <= 2
    &&& n <= 10
    &&& text.len() <= 11
}

/// One of the keys: a digit, the dot or the key for erasing.
pub open spec fn is_key(key: Seq<char>) -> bool {
    key == "."@ || key == "\u{232b}"@ || (key.len() == 1 && '0' <= key[0] <= '9')
}

proof fn lemma_until_dot_is(text: Seq<char>)
    ensures
        until_dot(text).len() <= text.len(),
        until_dot(text) == text.take(until_dot(text).len() as int),
        forall|i: int| 0 <= i < until_dot(text).len() ==> #[trigger] text[i] != '.',
        until_dot(text).len() < text.len() ==> text[until_dot(text).len() as int] == '.',
    decreases text.len(),
{
    if text.len() == 0 || text[0] == '.' {
        assert(text.take(0) =~= Seq::empty());
    } else {
        let rest = text.skip(1);
        lemma_until_dot_is(rest);
        let n = until_dot(rest).len() as int;
        assert(text.take(n + 1) =~= seq![text[0]] + rest.take(n));
        assert forall|i: int| 0 <= i < n + 1 implies #[trigger] text[i] != '.' by {
            if i > 0 {
                assert(rest[i - 1] == text[i]);
            }
        }
    }
}

/// Whatever key is pressed, what was an amount stays one.
pub proof fn law_amount_stays_one(text: Seq<char>, key: Seq<char>)
    requires
        is_amount(text),
        is_key(key),
    ensures
        is_amount(typed(text, key)),
{
    reveal_strlit(".");
    reveal_strlit("\u{232b}");
    reveal_strlit("0");
    lemma_until_dot_is(text);
    let n = until_dot(text).len() as int;
    let after = typed(text, key);
    let tail = text.skip(n + 1);
    if n < text.len() {
        assert forall|i: int| n < i < text.len() implies '0' <= #[trigger] text[i] <= '9' by {
            assert(text[i] == tail[i - n - 1]);
        }
    }
    assert forall|i: int| 0 <= i < n implies '0' <= #[trigger] text[i] <= '9' by {
        assert(text[i] == until_dot(text)[i]);
    }
    assert(is_ascii_chars(text));
    is_ascii_chars_encode_utf8(text);
    assert(text.contains('.') == (n < text.len()));
    if key == "."@ {
        if n == text.len() && text.len() > 0 {
            lemma_until_dot(after, n);
            assert(after.take(n) =~= text.take(n));
            assert(after.skip(n + 1) =~= Seq::empty());
        }
    } else if key == "\u{232b}"@ {
        if text.len() > 0 {
            if n == text.len() {
                lemma_until_dot(after, n - 1);
                assert(until_dot(after) =~= text.take(n).drop_last());
            } else {
                lemma_until_dot(after, n);
                assert(after.take(n) =~= text.take(n));
                if after.len() > n {
                    assert(after.skip(n + 1) =~= tail.drop_last());
                }
            }
        }
    } else if after != text {
        assert(after =~= text.push(key[0]));
        if n == text.len() {
            lemma_until_dot(after, n + 1);
            assert(after.take(n + 1) =~= after);
            if n == 1 {
                assert(text[0] != '0') by {
                    if text[0] == '0' {
                        assert(text =~= "0"@);
                    }
                }
            }
        } else {
            lemma_until_dot(after, n);
            assert(after.take(n) =~= text.take(n));
            assert(after.skip(n + 1) =~= tail.push(key[0]));
            assert forall|i: int| 0 <= i < tail.len() implies #[trigger] tail[i] != '.' by {}
            lemma_until_dot(tail, tail.len() as int);
            assert(tail.take(tail.len() as int) =~= tail);
            assert(decimals(text) == tail);
            assert(is_ascii_chars(tail));
            is_ascii_chars_encode_utf8(tail);
        }
    }
}

/// A PIN is taken digit by digit until it has six, and the last digit can be taken back.
pub proof fn law_digits_are_taken(pin: Seq<char>, d: char)
    requires
        all_digits(pin),
        '0' <= d <= '9',
    ensures
        pin.len() < 6 ==> with_digit(pin, d) == pin.push(d),
        pin.len() >= 6 ==> with_digit(pin, d) == pin,
        shortened(pin.push(d)) == pin,
        long_enough(pin) <==> pin.len() >= 4,
{
    assert(is_ascii_chars(pin));
    is_ascii_chars_encode_utf8(pin);
    assert(pin.push(d).drop_last() =~= pin);
}

/// What is being entered after all of the digits.
pub open spec fn all_entered(entry: PinEntry, digits: Seq<char>) -> PinEntry
    decreases digits.len(),
{
    if digits.len() == 0 {
        entry
    } else {
        digit_entered(all_entered(entry, digits.drop_last()), digits.last())
    }
}

proof fn lemma_all_entered(entry: PinEntry, digits: Seq<char>)
    requires
        all_digits(digits),
        digits.len() <= 6,
        entry.confirming ==> entry.confirm_pin.len() == 0,
        !entry.confirming ==> entry.pin.len() == 0,
    ensures
        all_entered(entry, digits) == (if entry.confirming {
            PinEntry { confirm_pin: digits, ..entry }
        } else {
            PinEntry { pin: digits, ..entry }
        }),
    decreases digits.len(),
{
    if digits.len() == 0 {
        assert(entry.confirming ==> entry.confirm_pin =~= digits);
        assert(!entry.confirming ==> entry.pin =~= digits);
    } else {
        let front = digits.drop_last();
        assert forall|i: int| 0 <= i < front.len() implies '0' <= #[trigger] front[i] <= '9' by {
            assert(front[i] == digits[i]);
        }
        lemma_all_entered(entry, front);
        law_digits_are_taken(front, digits[digits.len() - 1]);
        assert(front.push(digits.last()) =~= digits);
    }
}

/// Any PIN of four to six digits can be set: it is entered, confirmed, entered again and confirmed
/// again, and what comes of it is its hash. If something else is entered the second time, that is
/// refused, and the PIN can be entered once more.
pub proof fn law_pin_is_set(pin: Seq<char>, other: Seq<char>)
    requires
        all_digits(pin),
        all_digits(other),
        4 <= pin.len() <= 6,
        other.len() <= 6,
        other != pin,
    ensures
        ({
            let fresh = PinEntry {
                pin: Seq::empty(),
                confirm_pin: Seq::empty(),
                confirming: false,
            };
            let (once, again) = confirmed(all_entered(fresh, pin));
            let (twice, _end) = confirmed(all_entered(again, pin));
            let (wrong, anew) = confirmed(all_entered(again, other));
            let (then, _end) = confirmed(all_entered(anew, pin));
            &&& once is EnterAgain
            &&& twice == PinAnswer::Done(pin_hash(pin))
            &&& wrong is Refused
            &&& then == PinAnswer::Done(pin_hash(pin))
        }),
{
    let fresh = PinEntry { pin: Seq::empty(), confirm_pin: Seq::empty(), confirming: false };
    lemma_all_entered(fresh, pin);
    law_digits_are_taken(pin, '0');
    let again = confirmed(all_entered(fresh, pin)).1;
    lemma_all_entered(again, pin);
    lemma_all_entered(again, other);
    let anew = confirmed(all_entered(again, other)).1;
    lemma_all_entered(anew, pin);
}

/// A PIN is set only by entering it twice, and one of fewer than four digits is never confirmed.
pub proof fn law_pin_is_entered_twice(entry: PinEntry)
    requires
        all_digits(entry.pin),
    ensures
        confirmed(entry).0 matches PinAnswer::Done(hash) ==> {
            &&& entry.confirming
            &&& entry.confirm_pin == entry.pin
            &&& hash == pin_hash(entry.pin)
        },
        confirmed(entry).0 is EnterAgain ==> !entry.confirming && entry.pin.len() >= 4,
        confirmed(entry).1.confirming ==> entry.confirming || entry.pin.len() >= 4,
        confirmed(entry).1.pin == entry.pin,
{
    law_digits_are_taken(entry.pin, '0');
}

proof fn lemma_amount_is_plain(text: Seq<char>)
    requires
        is_amount(text),
    ensures
        is_ascii_chars(text),
        encode_utf8(text).len() == text.len(),
        ({
            let n = until_dot(text).len() as int;
            &&& n <= text.len()
            &&& text.contains('.') <==> n < text.len()
            &&& forall|i: int| 0 <= i < text.len() && text[i] == '.' ==> i == n
            &&& n < text.len() ==> decimals(text) == text.skip(n + 1) && encode_utf8(
                decimals(text),
            ).len() == text.len() - n - 1
        }),
{
    lemma_until_dot_is(text);
    let n = until_dot(text).len() as int;
    let tail = text.skip(n + 1);
    assert forall|i: int| 0 <= i < n implies '0' <= #[trigger] text[i] <= '9' by {
        assert(text[i] == until_dot(text)[i]);
    }
    if n < text.len() {
        assert forall|i: int| n < i < text.len() implies '0' <= #[trigger] text[i] <= '9' by {
            assert(text[i] == tail[i - n - 1]);
        }
        assert(text[n] == '.');
        assert forall|i: int| 0 <= i < tail.len() implies #[trigger] tail[i] != '.' by {}
        lemma_until_dot(tail, tail.len() as int);
        assert(tail.take(tail.len() as int) =~= tail);
        assert(is_ascii_chars(tail));
        is_ascii_chars_encode_utf8(tail);
    }
    assert(is_ascii_chars(text));
    is_ascii_chars_encode_utf8(text);
}

/// A digit is added to an amount exactly if the amount has fewer than ten characters, is not a
/// single zero and has fewer than two decimals. `p` is the place of the dot.
pub proof fn law_digit_key(text: Seq<char>, c: char, p: int)
    requires
        is_amount(text),
        '0' <= c <= '9',
        text.contains('.') ==> 0 <= p < text.len() && text[p] == '.',
    ensures
        ({
            let room = text.len() < 10 && text != "0"@ && (text.contains('.') ==> text.len() - p - 1
                < 2);
            typed(text, seq![c]) == (if room {
                text.push(c)
            } else {
                text
            })
        }),
{
    reveal_strlit(".");
    reveal_strlit("\u{232b}");
    lemma_amount_is_plain(text);
    let key = seq![c];
    assert(key[0] == c);
    assert(text + key =~= text.push(c));
}

/// A dot is added to an amount exactly if there is something to stand in front of it and no other
/// dot, and the key for erasing takes away the last character, so that it undoes any other key.
pub proof fn law_dot_and_erasing_keys(text: Seq<char>, key: Seq<char>)
    requires
        is_amount(text),
        is_key(key),
    ensures
        typed(text, "."@) == (if text.len() > 0 && !text.contains('.') {
            text.push('.')
        } else {
            text
        }),
        text.len() > 0 ==> typed(text, "\u{232b}"@) == text.take(text.len() - 1),
        text.len() == 0 ==> typed(text, "\u{232b}"@) == text,
        key != "\u{232b}"@ && typed(text, key) != text ==> typed(typed(text, key), "\u{232b}"@)
            == text,
{
    reveal_strlit(".");
    reveal_strlit("\u{232b}");
    assert("."@[0] == '.');
    assert("\u{232b}"@[0] != '.');
    if text.len() > 0 {
        assert(text.drop_last() =~= text.take(text.len() - 1));
    }
    let after = typed(text, key);
    if key != "\u{232b}"@ && after != text {
        if key == "."@ {
            assert(after.drop_last() =~= text);
        } else {
            assert(after =~= text + key);
            assert(after.drop_last() =~= text);
        }
    }
}

/// The amount after the characters have been typed one by one.
pub open spec fn all_typed(chars: Seq<char>) -> Seq<char>
    decreases chars.len(),
{
    if chars.len() == 0 {
        Seq::empty()
    } else {
        typed(all_typed(chars.drop_last()), seq![chars.last()])
    }
}

/// Any amount of up to ten characters can be typed.
pub proof fn law_amount_can_be_typed(text: Seq<char>)
    requires
        is_amount(text),
        text.len() <= 10,
    ensures
        all_typed(text) == text,
    decreases text.len(),
{
    if text.len() == 0 {
        assert(all_typed(text) =~= text);
    } else {
        reveal_strlit(".");
        reveal_strlit("\u{232b}");
        reveal_strlit("0");
        let front = text.drop_last();
        let c = text.last();
        law_amount_stays_one(text, "\u{232b}"@);
        assert("\u{232b}"@ != "."@) by {
            assert("\u{232b}"@[0] != "."@[0]);
        }
        assert(typed(text, "\u{232b}"@) == front);
        law_amount_can_be_typed(front);
        lemma_amount_is_plain(text);
        lemma_amount_is_plain(front);
        assert(front.push(c) =~= text);
        let n = until_dot(text).len() as int;
        lemma_until_dot_is(text);
        lemma_until_dot_is(front);
        assert(front.contains('.') ==> until_dot(front).len() == n) by {
            if front.contains('.') {
                let m = until_dot(front).len() as int;
                assert(front[m] == text[m]);
            }
        }
        if c == '.' {
            assert(seq![c] =~= "."@);
            assert(!front.contains('.')) by {
                if front.contains('.') {
                    let i = choose|i: int| 0 <= i < front.len() && front[i] == '.';
                    assert(text[i] == '.');
                    assert(text[text.len() - 1] == '.');
                }
            }
            assert(n == text.len() - 1);
        } else {
            assert('0' <= c <= '9') by {
                let last = text.len() - 1;
                if last < n {
                    assert(until_dot(text)[last] == text[last]);
                } else {
                    assert(text.skip(n + 1)[last - n - 1] == text[last]);
                }
            }
            law_digit_key(front, c, n);
            assert(front != "0"@) by {
                if front == "0"@ {
                    assert(text[0] == front[0]);
                    assert(n == 2);
                }
            }
        }
    }
}

/// The PIN that was set is admitted, one that is hashed to something else is not, and only a wrong
/// one is cleared.
pub proof fn law_set_pin_is_admitted(entry: PinEntry, tried: Seq<char>)
    requires
        confirmed(entry).0 is Done,
    ensures
        ({
            let expected = confirmed(entry).0->Done_0;
            &&& admitted(entry.pin, expected) == (true, entry.pin)
            &&& admitted(tried, expected).0 <==> pin_hash(tried) == pin_hash(entry.pin)
            &&& admitted(tried, expected).0 ==> admitted(tried, expected).1 == tried
            &&& !admitted(tried, expected).0 ==> admitted(tried, expected).1.len() == 0
        }),
{
}

/// Pressing a digit adds it to an amount exactly if there is room for it.
pub proof fn law_pressing_digit(text: &mut String, key: &String, c: char, p: int)
    requires
        call_ensures(handle_numpad, (text, key), ()),
        key@ == seq![c],
        '0' <= c <= '9',
        is_amount(old(text)@),
        old(text)@.contains('.') ==> 0 <= p < old(text)@.len() && old(text)@[p] == '.',
    ensures
        ({
            let before = old(text)@;
            let room = before.len() < 10 && before != "0"@ && (before.contains('.')
                ==> before.len() - p - 1 < 2);
            final(text)@ == (if room {
                before.push(c)
            } else {
                before
            })
        }),
{
    law_digit_key(old(text)@, c, p);
}

/// Pressing the dot and the key for erasing.
pub proof fn law_pressing_dot_or_erasing(text: &mut String, key: &String)
    requires
        call_ensures(handle_numpad, (text, key), ()),
        is_amount(old(text)@),
        is_key(key@),
    ensures
        key@ == "."@ ==> final(text)@ == (if old(text)@.len() > 0 && !old(text)@.contains('.') {
            old(text)@.push('.')
        } else {
            old(text)@
        }),
        key@ == "\u{232b}"@ && old(text)@.len() > 0 ==> final(text)@ == old(text)@.take(
            old(text)@.len() - 1,
        ),
        key@ == "\u{232b}"@ && old(text)@.len() == 0 ==> final(text)@ == old(text)@,
        is_amount(final(text)@),
{
    law_dot_and_erasing_keys(old(text)@, key@);
    law_amount_stays_one(old(text)@, key@);
}

/// Entering a digit of a PIN adds it to what is being entered if that has fewer than six, and
/// erasing takes its last one away. The other entry is left alone.
pub proof fn law_entering_and_erasing(setup: &mut PinSetup, d: char)
    requires
        all_digits(old(setup).pin@),
        all_digits(old(setup).confirm_pin@),
        '0' <= d <= '9',
    ensures
        call_ensures(PinSetup::digit, (setup, d), ()) ==> {
            let now = if old(setup).confirming {
                old(setup).confirm_pin@
            } else {
                old(setup).pin@
            };
            let next = if now.len() < 6 {
                now.push(d)
            } else {
                now
            };
            &&& final(setup).confirming == old(setup).confirming
            &&& old(setup).confirming ==> final(setup).pin@ == old(setup).pin@
                && final(setup).confirm_pin@ == next
            &&& !old(setup).confirming ==> final(setup).confirm_pin@ == old(setup).confirm_pin@
                && final(setup).pin@ == next
        },
        call_ensures(PinSetup::erase, (setup,), ()) ==> {
            let now = if old(setup).confirming {
                old(setup).confirm_pin@
            } else {
                old(setup).pin@
            };
            let next = if now.len() > 0 {
                now.take(now.len() - 1)
            } else {
                now
            };
            &&& final(setup).confirming == old(setup).confirming
            &&& old(setup).confirming ==> final(setup).pin@ == old(setup).pin@
                && final(setup).confirm_pin@ == next
            &&& !old(setup).confirming ==> final(setup).confirm_pin@ == old(setup).confirm_pin@
                && final(setup).pin@ == next
        },
{
    law_digits_are_taken(old(setup).pin@, d);
    law_digits_are_taken(old(setup).confirm_pin@, d);
    let a = old(setup).pin@;
    let b = old(setup).confirm_pin@;
    if a.len() > 0 {
        assert(a.drop_last() =~= a.take(a.len() - 1));
    }
    if b.len() > 0 {
        assert(b.drop_last() =~= b.take(b.len() - 1));
    }
}

/// Confirming sets a PIN only where the same digits were entered twice, asks for them again where
/// four or more were entered once, and otherwise refuses.
pub proof fn law_confirming(setup: &mut PinSetup, step: PinStep)
    requires
        call_ensures(PinSetup::confirm, (setup,), step),
        all_digits(old(setup).pin@),
    ensures
        step is Done <==> old(setup).confirming && old(setup).confirm_pin@ == old(setup).pin@,
        step matches PinStep::Done(hash) ==> hash@ == pin_hash(old(setup).pin@),
        step is EnterAgain <==> !old(setup).confirming && old(setup).pin@.len() >= 4,
        final(setup).confirming <==> old(setup).confirming || step is EnterAgain,
        final(setup).pin@ == old(setup).pin@,
        old(setup).confirming && step is Refused ==> final(setup).confirm_pin@.len() == 0,
{
    law_digits_are_taken(old(setup).pin@, '0');
}

/// Whoever enters the PIN that was set is admitted. With another one they are not, unless it is
/// hashed to the same, and it is cleared.
pub proof fn law_checking(pin: &mut String, expected: &String, set: Seq<char>, check: PinCheck)
    requires
        call_ensures(check_pin, (pin, expected), check),
        expected@ == pin_hash(set),
    ensures
        old(pin)@ == set ==> check is Admitted,
        check is Admitted <==> pin_hash(old(pin)@) == pin_hash(set),
        check is Admitted ==> final(pin)@ == old(pin)@,
        !(check is Admitted) ==> final(pin)@.len() == 0,
{
}

/// As many dots are filled as digits of what is being entered there are.
pub proof fn law_dots(setup: &PinSetup, i: usize, filled: bool)
    requires
        call_ensures(PinSetup::dot_filled, (setup, i), filled),
        all_digits(setup.pin@),
        all_digits(setup.confirm_pin@),
    ensures
        setup.confirming ==> (filled <==> i < setup.confirm_pin@.len()),
        !setup.confirming ==> (filled <==> i < setup.pin@.len()),
{
    assert(is_ascii_chars(setup.pin@));
    assert(is_ascii_chars(setup.confirm_pin@));
    is_ascii_chars_encode_utf8(setup.pin@);
    is_ascii_chars_encode_utf8(setup.confirm_pin@);
}

/// Setting a PIN begins with nothing entered.
pub proof fn law_beginning(setup: PinSetup)
    requires
        call_ensures(PinSetup::new, (), setup),
    ensures
        setup@.pin.len() == 0,
        setup@.confirm_pin.len() == 0,
        !setup@.confirming,
{
}

} // verus!
