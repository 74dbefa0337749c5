//! Two games of rules on a text: the nice strings, and the password game.

use crate::parse::digit_value;
use crate::text::chars_of;
use vstd::prelude::*;
use vstd::utf8::encode_utf8;

verus! {

/// What a game says of a text.
#[derive(Clone, Copy, Debug, PartialEq, Eq)]
pub enum Verdict {
    Nice,
    Naughty,
}

/// Why the password game says what it says: the first rule that the text
/// breaks, or that it breaks none.
#[derive(Clone, Copy, Debug, PartialEq, Eq)]
pub enum Reason {
    /// No text was given.
    BadRequest,
    /// The text has fewer than 8 bytes.
    TooShort,
    /// An upper-case letter, a lower-case letter or a digit is missing.
    FewKinds,
    /// The text has fewer than 5 digits.
    FewDigits,
    /// The numbers in the text do not add up to 2023.
    WrongSum,
    /// One of the letters j, o and y stands twice or before its turn.
    NotJoyful,
    /// No letter stands on both sides of another character.
    NoSandwich,
    /// No character lies between U+2980 and U+2BFF.
    OutOfRange,
    /// No character is presented as an emoji.
    NoEmoji,
    /// The digest of the text does not end in `a`.
    WrongDigest,
    /// Every rule is kept.
    Success,
}

/// The answer of the password game.
#[derive(Clone, Copy, Debug, PartialEq, Eq)]
pub struct Task2Response {
    pub result: Verdict,
    pub reason: Reason,
}

impl Task2Response {
    /// The answer that calls the text nice, for this reason.
    pub fn nice(reason: Reason) -> (r: Task2Response)
        ensures
            r == (Task2Response { result: Verdict::Nice, reason }),
    {
        Task2Response { result: Verdict::Nice, reason }
    }

    /// The answer that calls the text naughty, for this reason.
    pub fn naughty(reason: Reason) -> (r: Task2Response)
        ensures
            r == (Task2Response { result: Verdict::Naughty, reason }),
    {
        Task2Response { result: Verdict::Naughty, reason }
    }
}

impl Verdict {
    /// The status code of an answer: 200 for nice, 400 for naughty.
    pub fn status(&self) -> (code: u16)
        ensures
            code == if *self == Verdict::Nice {
                200u16
            } else {
                400u16
            },
    {
        match self {
            Verdict::Nice => 200,
            Verdict::Naughty => 400,
        }
    }

    /// The word for the verdict.
    pub fn text(&self) -> (word: &'static str)
        ensures
            word@ == if *self == Verdict::Nice {
                "nice"@
            } else {
                "naughty"@
            },
    {
        match self {
            Verdict::Nice => "nice",
            Verdict::Naughty => "naughty",
        }
    }
}

impl Reason {
    /// The status code that goes with the reason.
    pub open spec fn status_code(self) -> int {
        match self {
            Reason::BadRequest | Reason::TooShort | Reason::FewKinds | Reason::FewDigits
            | Reason::WrongSum => 400,
            Reason::NotJoyful => 406,
            Reason::NoSandwich => 451,
            Reason::OutOfRange => 416,
            Reason::NoEmoji => 426,
            Reason::WrongDigest => 418,
            Reason::Success => 200,
        }
    }

    /// The status code that goes with the reason.
    pub fn status(&self) -> (code: u16)
        ensures
            code == self.status_code(),
    {
        match self {
            Reason::BadRequest | Reason::TooShort | Reason::FewKinds | Reason::FewDigits
            | Reason::WrongSum => 400,
            Reason::NotJoyful => 406,
            Reason::NoSandwich => 451,
            Reason::OutOfRange => 416,
            Reason::NoEmoji => 426,
            Reason::WrongDigest => 418,
            Reason::Success => 200,
        }
    }

    /// The words for the reason.
    pub fn text(&self) -> (words: &'static str)
        ensures
            words@ == self.words(),
    {
        match self {
            Reason::BadRequest => "BadRequest",
            Reason::TooShort => "8 chars",
            Reason::FewKinds => "more types of chars",
            Reason::FewDigits => "55555",
            Reason::WrongSum => "math is hard",
            Reason::NotJoyful => "not joyful enough",
            Reason::NoSandwich => "illegal: no sandwich",
            Reason::OutOfRange => "outranged",
            Reason::NoEmoji => "\u{f0}\u{178}\u{2dc}\u{b3}",
            Reason::WrongDigest => "not a coffee brewer",
            Reason::Success => "that's a nice password",
        }
    }

    /// The words for the reason.
    pub open spec fn words(self) -> Seq<char> {
        match self {
            Reason::BadRequest => "BadRequest"@,
            Reason::TooShort => "8 chars"@,
            Reason::FewKinds => "more types of chars"@,
            Reason::FewDigits => "55555"@,
            Reason::WrongSum => "math is hard"@,
            Reason::NotJoyful => "not joyful enough"@,
            Reason::NoSandwich => "illegal: no sandwich"@,
            Reason::OutOfRange => "outranged"@,
            Reason::NoEmoji => "\u{f0}\u{178}\u{2dc}\u{b3}"@,
            Reason::WrongDigest => "not a coffee brewer"@,
            Reason::Success => "that's a nice password"@,
        }
    }

    /// The answer for this reason: nice where every rule is kept, naughty
    /// otherwise.
    pub fn response(self) -> (r: Task2Response)
        ensures
            r.reason == self,
            r.result == if self == Reason::Success {
                Verdict::Nice
            } else {
                Verdict::Naughty
            },
    {
        match self {
            Reason::Success => Task2Response::nice(self),
            _ => Task2Response::naughty(self),
        }
    }
}

/// One of the letters of the English alphabet, small or capital.
pub open spec fn is_letter(c: char) -> bool {
    ('a' <= c && c <= 'z') || ('A' <= c && c <= 'Z')
}

/// One of a, e, i, o, u and y.
pub open spec fn is_vowel(c: char) -> bool {
    c == 'a' || c == 'e' || c == 'i' || c == 'o' || c == 'u' || c == 'y'
}

/// One of the pairs ab, cd, pq and xy.
pub open spec fn is_forbidden_pair(a: char, b: char) -> bool {
    (a == 'a' && b == 'b') || (a == 'c' && b == 'd') || (a == 'p' && b == 'q') || (a == 'x' && b
        == 'y')
}

/// The number of vowels in a text.
pub open spec fn vowels(text: Seq<char>) -> nat
    decreases text.len(),
{
    if text.len() == 0 {
        0
    } else {
        vowels(text.drop_last()) + if is_vowel(text.last()) {
            1nat
        } else {
            0nat
        }
    }
}

/// A forbidden pair stands somewhere in the text.
pub open spec fn has_forbidden_pair(text: Seq<char>) -> bool {
    exists|i: int| 0 <= i < text.len() - 1 && is_forbidden_pair(text[i], #[trigger] text[i + 1])
}

/// A letter stands twice in a row somewhere in the text.
pub open spec fn has_double_letter(text: Seq<char>) -> bool {
    exists|i: int|
        0 <= i < text.len() - 1 && is_letter(text[i]) && text[i] == #[trigger] text[i + 1]
}

/// The rule of the nice strings: no forbidden pair, a letter twice in a
/// row, and three vowels or more before the last character.
pub open spec fn is_nice(text: Seq<char>) -> bool {
    &&& text.len() > 0
    &&& !has_forbidden_pair(text)
    &&& has_double_letter(text)
    &&& vowels(text.drop_last()) >= 3
}

fn letter(c: char) -> (r: bool)
    ensures
        r == is_letter(c),
{
    ('a' <= c && c <= 'z') || ('A' <= c && c <= 'Z')
}

fn vowel(c: char) -> (r: bool)
    ensures
        r == is_vowel(c),
{
    c == 'a' || c == 'e' || c == 'i' || c == 'o' || c == 'u' || c == 'y'
}

fn forbidden_pair(a: char, b: char) -> (r: bool)
    ensures
        r == is_forbidden_pair(a, b),
{
    (a == 'a' && b == 'b') || (a == 'c' && b == 'd') || (a == 'p' && b == 'q') || (a == 'x' && b
        == 'y')
}

/// Says whether a text is a nice string.
pub fn nice(input: &str) -> (r: Verdict)
    ensures
        r == if is_nice(input@) {
            Verdict::Nice
        } else {
            Verdict::Naughty
        },
{
    let chars = chars_of(input);
    let n = chars.len();
    let ghost text = chars@;
    let mut forbidden = false;
    let mut doubled = false;
    let mut seen: u8 = 0;
    let mut i: usize = 0;
    proof {
        assert(text.take(0) =~= Seq::empty());
    }
    while i + 1 < n
        invariant
            n == chars.len(),
            text == chars@,
            (n == 0 && i == 0) || i < n,
            forbidden == exists|j: int|
                0 <= j < i && is_forbidden_pair(text[j], #[trigger] text[j + 1]),
            doubled == exists|j: int|
                0 <= j < i && is_letter(text[j]) && text[j] == #[trigger] text[j + 1],
            seen <= 3,
            seen == if vowels(text.take(i as int)) < 3 {
                vowels(text.take(i as int))
            } else {
                3
            },
        decreases n - i,
    {
        let a = chars[i];
        let b = chars[i + 1];
        if letter(a) && a == b {
            doubled = true;
        }
        if vowel(a) && seen < 3 {
            seen = seen + 1;
        }
        if forbidden_pair(a, b) {
            forbidden = true;
        }
        proof {
            assert(text.take(i + 1).drop_last() =~= text.take(i as int));
            assert(text.take(i + 1).last() == a);
            assert(text[i + 1] == b);
        }
        i = i + 1;
    }
    proof {
        if n > 0 {
            assert(text.take(i as int) =~= text.drop_last());
        }
    }
    if n > 0 && !forbidden && doubled && seen >= 3 {
        Verdict::Nice
    } else {
        Verdict::Naughty
    }
}

/// The number of decimal digits in a text.
pub open spec fn digits(text: Seq<char>) -> nat
    decreases text.len(),
{
    if text.len() == 0 {
        0
    } else {
        digits(text.drop_last()) + if digit_value(text.last()) is Some {
            1nat
        } else {
            0nat
        }
    }
}

/// A capital letter stands in the text.
pub open spec fn has_upper(text: Seq<char>) -> bool {
    exists|i: int| 0 <= i < text.len() && 'A' <= #[trigger] text[i] && text[i] <= 'Z'
}

/// A small letter stands in the text.
pub open spec fn has_lower(text: Seq<char>) -> bool {
    exists|i: int| 0 <= i < text.len() && 'a' <= #[trigger] text[i] && text[i] <= 'z'
}

/// The numbers read off a text from its start: the sum of those that have
/// ended, and the value of the run of digits that the text ends in.
pub open spec fn read_numbers(text: Seq<char>) -> (int, int)
    decreases text.len(),
{
    if text.len() == 0 {
        (0, 0)
    } else {
        let (sum, run) = read_numbers(text.drop_last());
        match digit_value(text.last()) {
            Some(d) => (sum, run * 10 + d),
            None => (sum + run, 0),
        }
    }
}

/// The sum of the numbers that are written in a text, each run of digits
/// being one number.
pub open spec fn number_sum(text: Seq<char>) -> int {
    read_numbers(text).0 + read_numbers(text).1
}

/// One of j, o and y.
pub open spec fn joy_letter() -> spec_fn(char) -> bool {
    |c: char| c == 'j' || c == 'o' || c == 'y'
}

/// The letters j, o and y of the text, as far as there are any, are the
/// start of `joy`: none of them stands twice or out of order.
pub open spec fn is_joyful(text: Seq<char>) -> bool {
    let found = text.filter(joy_letter());
    found.len() <= 3 && found == seq!['j', 'o', 'y'].take(found.len() as int)
}

/// Somewhere a letter stands on both sides of a character other than
/// itself.
pub open spec fn has_sandwich(text: Seq<char>) -> bool {
    exists|i: int|
        0 <= i < text.len() - 2 && is_letter(text[i]) && text[i] == #[trigger] text[i + 2]
            && text[i] != text[i + 1]
}

/// A character between U+2980 and U+2BFF stands in the text.
pub open spec fn has_ranged(text: Seq<char>) -> bool {
    exists|i: int| 0 <= i < text.len() && '\u{2980}' <= #[trigger] text[i] && text[i] <= '\u{2BFF}'
}

/// The number of bytes that the text takes in UTF-8, as `str::len` gives
/// it.
pub open spec fn byte_len(text: Seq<char>) -> usize {
    encode_utf8(text).len() as usize
}

/// The first of the rules on the characters alone that the text breaks,
/// in the order of the rules, or `None` where it keeps them all.
pub open spec fn broken_rule(text: Seq<char>) -> Option<Reason> {
    if byte_len(text) < 8 {
        Some(Reason::TooShort)
    } else if !has_upper(text) || !has_lower(text) || digits(text) == 0 {
        Some(Reason::FewKinds)
    } else if digits(text) < 5 {
        Some(Reason::FewDigits)
    } else if number_sum(text) != 2023 {
        Some(Reason::WrongSum)
    } else if !is_joyful(text) {
        Some(Reason::NotJoyful)
    } else if !has_sandwich(text) {
        Some(Reason::NoSandwich)
    } else if !has_ranged(text) {
        Some(Reason::OutOfRange)
    } else {
        None
    }
}

/// What the password game says of a text, given whether a character of
/// it is presented as an emoji and given the digest of the text: the
/// first rule that is broken, in the order of the rules.
pub open spec fn verdict(text: Seq<char>, emoji: bool, digest: Seq<char>) -> Reason {
    match broken_rule(text) {
        Some(reason) => reason,
        None => if !emoji {
            Reason::NoEmoji
        } else if !(digest.len() > 0 && digest.last() == 'a') {
            Reason::WrongDigest
        } else {
            Reason::Success
        },
    }
}

/// Looks for a capital letter, for a small letter, and counts the digits
/// up to 5.
fn kinds(chars: &Vec<char>) -> (r: (bool, bool, u8))
    ensures
        r.0 == has_upper(chars@),
        r.1 == has_lower(chars@),
        r.2 == if digits(chars@) < 5 {
            digits(chars@)
        } else {
            5
        },
{
    let ghost text = chars@;
    let mut upper = false;
    let mut lower = false;
    let mut count: u8 = 0;
    let mut i: usize = 0;
    proof {
        assert(text.take(0) =~= Seq::empty());
    }
    while i < chars.len()
        invariant
            i <= chars.len(),
            text == chars@,
            upper == exists|j: int| 0 <= j < i && 'A' <= #[trigger] text[j] && text[j] <= 'Z',
            lower == exists|j: int| 0 <= j < i && 'a' <= #[trigger] text[j] && text[j] <= 'z',
            count <= 5,
            count == if digits(text.take(i as int)) < 5 {
                digits(text.take(i as int))
            } else {
                5
            },
        decreases chars.len() - i,
    {
        let c = chars[i];
        if 'A' <= c && c <= 'Z' {
            upper = true;
        } else if 'a' <= c && c <= 'z' {
            lower = true;
        } else if '0' <= c && c <= '9' && count < 5 {
            count = count + 1;
        }
        proof {
            assert(text.take(i + 1).drop_last() =~= text.take(i as int));
            assert(text.take(i + 1).last() == c);
        }
        i = i + 1;
    }
    proof {
        assert(text.take(i as int) =~= text);
    }
    (upper, lower, count)
}

/// Both parts of `read_numbers` are at least 0.
proof fn lemma_read_numbers_nonnegative(text: Seq<char>)
    ensures
        read_numbers(text).0 >= 0,
        read_numbers(text).1 >= 0,
    decreases text.len(),
{
    if text.len() > 0 {
        lemma_read_numbers_nonnegative(text.drop_last());
    }
}

/// Whether the numbers in the text add up to `target`.
fn adds_up_to(chars: &Vec<char>, target: u32) -> (r: bool)
    requires
        target < 10000,
    ensures
        r == (number_sum(chars@) == target),
{
    let ghost text = chars@;
    // both parts of the sum, each held at 10000 once it has got that far
    let mut sum: u32 = 0;
    let mut run: u32 = 0;
    let mut i: usize = 0;
    proof {
        assert(text.take(0) =~= Seq::empty());
    }
    while i < chars.len()
        invariant
            i <= chars.len(),
            text == chars@,
            sum == if read_numbers(text.take(i as int)).0 < 10000 {
                read_numbers(text.take(i as int)).0
            } else {
                10000
            },
            run == if read_numbers(text.take(i as int)).1 < 10000 {
                read_numbers(text.take(i as int)).1
            } else {
                10000
            },
        decreases chars.len() - i,
    {
        let c = chars[i];
        proof {
            assert(text.take(i + 1).drop_last() =~= text.take(i as int));
            assert(text.take(i + 1).last() == c);
            lemma_read_numbers_nonnegative(text.take(i as int));
        }
        if '0' <= c && c <= '9' {
            let d = c as u32 - '0' as u32;
            run = if run >= 1000 {
                10000
            } else {
                run * 10 + d
            };
        } else {
            sum = if sum + run >= 10000 {
                10000
            } else {
                sum + run
            };
            run = 0;
        }
        i = i + 1;
    }
    proof {
        assert(text.take(i as int) =~= text);
        lemma_read_numbers_nonnegative(text);
    }
    sum + run == target
}

/// Whether the letters j, o and y of the text are the start of `joy`.
fn joyful(chars: &Vec<char>) -> (r: bool)
    ensures
        r == is_joyful(chars@),
{
    let ghost text = chars@;
    let ghost joy = seq!['j', 'o', 'y'];
    let mut matched: u8 = 0;
    let mut in_order = true;
    let mut i: usize = 0;
    proof {
        reveal(Seq::filter);
        assert(text.take(0) =~= Seq::empty());
        assert(text.take(0).filter(joy_letter()) =~= joy.take(0));
    }
    while i < chars.len()
        invariant
            i <= chars.len(),
            text == chars@,
            joy == seq!['j', 'o', 'y'],
            matched <= 3,
            in_order == is_joyful(text.take(i as int)),
            in_order ==> text.take(i as int).filter(joy_letter()).len() == matched,
        decreases chars.len() - i,
    {
        let c = chars[i];
        let ghost before = text.take(i as int).filter(joy_letter());
        let ghost after = text.take(i + 1).filter(joy_letter());
        proof {
            reveal(Seq::filter);
            assert(text.take(i + 1).drop_last() =~= text.take(i as int));
            assert(text.take(i + 1).last() == c);
            if joy_letter()(c) {
                assert(after == before.push(c));
                if after.len() <= 3 && after == joy.take(after.len() as int) {
                    assert(before =~= joy.take(before.len() as int));
                }
            } else {
                assert(after == before);
            }
        }
        if in_order {
            if c == 'j' {
                if matched == 0 {
                    matched = 1;
                } else {
                    in_order = false;
                }
            } else if c == 'o' {
                if matched == 1 {
                    matched = 2;
                } else {
                    in_order = false;
                }
            } else if c == 'y' {
                if matched == 2 {
                    matched = 3;
                } else {
                    in_order = false;
                }
            }
            proof {
                if in_order {
                    assert(after =~= joy.take(after.len() as int));
                } else {
                    assert(after[before.len() as int] == c);
                    if after.len() <= 3 {
                        let at = before.len() as int;
                        assert(joy.take(after.len() as int)[at] == joy[at]);
                    }
                }
            }
        }
        i = i + 1;
    }
    proof {
        assert(text.take(i as int) =~= text);
    }
    in_order
}

/// Whether a letter stands on both sides of another character.
fn sandwich(chars: &Vec<char>) -> (r: bool)
    ensures
        r == has_sandwich(chars@),
{
    let ghost text = chars@;
    let n = chars.len();
    let mut i: usize = 0;
    while i + 2 < n
        invariant
            n == chars.len(),
            text == chars@,
            i + 2 <= n || i == 0,
            forall|j: int|
                0 <= j < i ==> !(is_letter(text[j]) && text[j] == #[trigger] text[j + 2] && text[j]
                    != text[j + 1]),
        decreases n - i,
    {
        let a = chars[i];
        if letter(a) && a == chars[i + 2] && a != chars[i + 1] {
            return true;
        }
        i = i + 1;
    }
    false
}

/// Whether a character between U+2980 and U+2BFF stands in the text.
fn ranged(chars: &Vec<char>) -> (r: bool)
    ensures
        r == has_ranged(chars@),
{
    let ghost text = chars@;
    let mut i: usize = 0;
    while i < chars.len()
        invariant
            i <= chars.len(),
            text == chars@,
            forall|j: int|
                0 <= j < i ==> !('\u{2980}' <= #[trigger] text[j] && text[j] <= '\u{2BFF}'),
        decreases chars.len() - i,
    {
        let c = chars[i];
        if '\u{2980}' <= c && c <= '\u{2BFF}' {
            return true;
        }
        i = i + 1;
    }
    false
}

/// Finds the first of the rules on the characters alone that the text
/// breaks.
fn first_broken_rule(input: &str, chars: &Vec<char>) -> (r: Option<Reason>)
    requires
        chars@ == input@,
    ensures
        r == broken_rule(input@),
{
    if input.len() < 8 {
        return Some(Reason::TooShort);
    }
    let (upper, lower, count) = kinds(chars);
    if !upper || !lower || count == 0 {
        return Some(Reason::FewKinds);
    }
    if count < 5 {
        return Some(Reason::FewDigits);
    }
    if !adds_up_to(chars, 2023) {
        return Some(Reason::WrongSum);
    }
    if !joyful(chars) {
        return Some(Reason::NotJoyful);
    }
    if !sandwich(chars) {
        return Some(Reason::NoSandwich);
    }
    if !ranged(chars) {
        return Some(Reason::OutOfRange);
    }
    None
}

/// Whether a character has the Unicode property `Emoji_Presentation`, as
/// the tables of the crate `unic-emoji-char` give it.
pub uninterp spec fn emoji_presentation(c: char) -> bool;

/// The SHA-256 digest of the UTF-8 bytes of a text, written as 64
/// hexadecimal digits with small letters, as the crate `sha256` gives it.
pub uninterp spec fn sha256_hex(text: Seq<char>) -> Seq<char>;

/// `unic_emoji_char::is_emoji_presentation`: what it answers for a
/// character depends on the character alone.
#[verifier::external_body]
fn is_emoji_presentation(c: char) -> (r: bool)
    ensures
        r == emoji_presentation(c),
{
    unic_emoji_char::is_emoji_presentation(c)
}

/// `sha256::digest` on a string slice: the text that it returns depends on
/// the characters of the slice alone.
#[verifier::external_body]
fn digest(input: &str) -> (hex: String)
    ensures
        hex@ == sha256_hex(input@),
{
    sha256::digest(input)
}

/// A character of the text is presented as an emoji.
pub open spec fn has_emoji(text: Seq<char>) -> bool {
    exists|i: int| 0 <= i < text.len() && emoji_presentation(#[trigger] text[i])
}

/// Whether a character of the text is presented as an emoji.
fn emoji_among(chars: &Vec<char>) -> (r: bool)
    ensures
        r == has_emoji(chars@),
{
    let ghost text = chars@;
    let mut i: usize = 0;
    while i < chars.len()
        invariant
            i <= chars.len(),
            text == chars@,
            forall|j: int| 0 <= j < i ==> !emoji_presentation(#[trigger] text[j]),
        decreases chars.len() - i,
    {
        if is_emoji_presentation(chars[i]) {
            return true;
        }
        i = i + 1;
    }
    false
}

/// Whether the text ends in the letter a.
fn ends_in_a(digest: &str) -> (r: bool)
    ensures
        r == (digest@.len() > 0 && digest@.last() == 'a'),
{
    let chars = chars_of(digest);
    chars.len() > 0 && chars[chars.len() - 1] == 'a'
}

/// Plays the password game on a text for which it is known whether a
/// character of it is presented as an emoji, and what its digest is.
pub fn judge(input: &str, emoji: bool, digest: &str) -> (r: Reason)
    ensures
        r == verdict(input@, emoji, digest@),
{
    let chars = chars_of(input);
    match first_broken_rule(input, &chars) {
        Some(reason) => reason,
        None => {
            if !emoji {
                Reason::NoEmoji
            } else if !ends_in_a(digest) {
                Reason::WrongDigest
            } else {
                Reason::Success
            }
        },
    }
}

/// Plays the password game on a text: the first rule that the text breaks,
/// or that it breaks none.
pub fn game(input: &str) -> (r: Reason)
    ensures
        r == verdict(input@, has_emoji(input@), sha256_hex(input@)),
{
    let chars = chars_of(input);
    match first_broken_rule(input, &chars) {
        Some(reason) => reason,
        None => {
            if !emoji_among(&chars) {
                Reason::NoEmoji
            } else {
                let hex = digest(input);
                if !ends_in_a(hex.as_str()) {
                    Reason::WrongDigest
                } else {
                    Reason::Success
                }
            }
        },
    }
}

/// Says whether what was sent is a nice string: naughty where no text was
/// sent.
pub fn nice_of(input: Option<&str>) -> (r: Verdict)
    ensures
        r == match input {
            None => Verdict::Naughty,
            Some(text) => if is_nice(text@) {
                Verdict::Nice
            } else {
                Verdict::Naughty
            },
        },
{
    match input {
        None => Verdict::Naughty,
        Some(text) => nice(text),
    }
}

/// Plays the password game on what was sent: `BadRequest` where no text
/// was sent.
pub fn game_of(input: Option<&str>) -> (r: Reason)
    ensures
        r == match input {
            None => Reason::BadRequest,
            Some(text) => verdict(text@, has_emoji(text@), sha256_hex(text@)),
        },
{
    match input {
        None => Reason::BadRequest,
        Some(text) => game(text),
    }
}

} // verus!
