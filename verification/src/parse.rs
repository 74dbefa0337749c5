//! Numbers read from text: a text cut into parts, and the parts read as
//! numbers in decimal or in binary digits.

use vstd::prelude::*;

verus! {

/// The value of a decimal digit, or `None` for another character.
pub open spec fn digit_value(c: char) -> Option<int> {
    if '0' <= c && c <= '9' {
        Some(c as int - '0' as int)
    } else {
        None
    }
}

/// The number that a text of decimal digits writes; `None` for the empty
/// text and for a text with another character in it.
pub open spec fn digits_value(text: Seq<char>) -> Option<int>
    decreases text.len(),
{
    if text.len() == 0 {
        None
    } else if text.len() == 1 {
        digit_value(text[0])
    } else {
        match (digits_value(text.drop_last()), digit_value(text.last())) {
            (Some(v), Some(d)) => Some(v * 10 + d),
            _ => None,
        }
    }
}

/// The number that a text writes in decimal digits, with `+` before them
/// or nothing.
pub open spec fn unsigned_value(text: Seq<char>) -> Option<int> {
    if text.len() > 0 && text[0] == '+' {
        digits_value(text.drop_first())
    } else {
        digits_value(text)
    }
}

/// The number that a text writes in decimal digits, with `+` or `-` before
/// them or nothing.
pub open spec fn signed_value(text: Seq<char>) -> Option<int> {
    if text.len() > 0 && text[0] == '-' {
        match digits_value(text.drop_first()) {
            Some(v) => Some(-v),
            None => None,
        }
    } else {
        unsigned_value(text)
    }
}

/// The number that a text of the digits 0 and 1 writes in binary, with
/// `+` before them or nothing; `None` for a text without digits and for a
/// text with another character in it.
pub open spec fn binary_value(text: Seq<char>) -> Option<int> {
    if text.len() > 0 && text[0] == '+' {
        bits_value(text.drop_first())
    } else {
        bits_value(text)
    }
}

/// The number that a text of the digits 0 and 1 writes in binary.
pub open spec fn bits_value(text: Seq<char>) -> Option<int>
    decreases text.len(),
{
    if text.len() == 0 {
        None
    } else {
        let bit = if text.last() == '0' {
            Some(0int)
        } else if text.last() == '1' {
            Some(1int)
        } else {
            None
        };
        if text.len() == 1 {
            bit
        } else {
            match (bits_value(text.drop_last()), bit) {
                (Some(v), Some(b)) => Some(v * 2 + b),
                _ => None,
            }
        }
    }
}

/// A value that digits write is not negative.
proof fn lemma_digits_value_nonnegative(text: Seq<char>)
    ensures
        digits_value(text) matches Some(v) ==> v >= 0,
        bits_value(text) matches Some(v) ==> v >= 0,
    decreases text.len(),
{
    if text.len() > 1 {
        lemma_digits_value_nonnegative(text.drop_last());
    }
}

/// Reads the digits of `chars` from `from` on in the base 10 or 2, and
/// holds the value at 2^64 once it has got that far.
fn read_digits(chars: &Vec<char>, from: usize, binary: bool) -> (r: Option<u128>)
    requires
        from <= chars.len(),
    ensures
        ({
            let value = if binary {
                bits_value(chars@.skip(from as int))
            } else {
                digits_value(chars@.skip(from as int))
            };
            match value {
                Some(v) => r == Some(
                    if v < 0x1_0000_0000_0000_0000 {
                        v as u128
                    } else {
                        0x1_0000_0000_0000_0000u128
                    },
                ),
                None => r is None,
            }
        }),
{
    let ghost text = chars@.skip(from as int);
    if from == chars.len() {
        return None;
    }
    let mut value: u128 = 0;
    let mut i = from;
    while i < chars.len()
        invariant
            from <= i <= chars.len(),
            from < chars.len(),
            text == chars@.skip(from as int),
            value <= 0x1_0000_0000_0000_0000,
            i > from ==> match if binary {
                bits_value(text.take(i - from))
            } else {
                digits_value(text.take(i - from))
            } {
                Some(v) => value == if v < 0x1_0000_0000_0000_0000 {
                    v
                } else {
                    0x1_0000_0000_0000_0000
                },
                None => false,
            },
            i == from ==> value == 0,
        decreases chars.len() - i,
    {
        let c = chars[i];
        let ghost seen = text.take(i - from);
        let ghost more = text.take(i - from + 1);
        proof {
            assert(more.drop_last() =~= seen);
            assert(more.last() == c);
            lemma_digits_value_nonnegative(seen);
            lemma_rest_is_no_number(text, i - from + 1, binary);
        }
        let digit: u128 = if binary {
            if c == '0' {
                0
            } else if c == '1' {
                1
            } else {
                return None;
            }
        } else {
            if '0' <= c && c <= '9' {
                (c as u32 - '0' as u32) as u128
            } else {
                return None;
            }
        };
        let base: u128 = if binary {
            2
        } else {
            10
        };
        value = value * base + digit;
        if value > 0x1_0000_0000_0000_0000 {
            value = 0x1_0000_0000_0000_0000;
        }
        i = i + 1;
    }
    proof {
        assert(text.take(i - from) =~= text);
    }
    Some(value)
}

/// A text that starts with what is no number is no number.
proof fn lemma_rest_is_no_number(text: Seq<char>, upto: int, binary: bool)
    requires
        0 < upto <= text.len(),
    ensures
        digits_value(text.take(upto)) is None ==> digits_value(text) is None,
        bits_value(text.take(upto)) is None ==> bits_value(text) is None,
    decreases text.len(),
{
    if upto < text.len() {
        assert(text.drop_last().take(upto) =~= text.take(upto));
        lemma_rest_is_no_number(text.drop_last(), upto, binary);
    } else {
        assert(text.take(upto) =~= text);
    }
}

/// Reads a number without sign as `str::parse` of std reads a `u64`:
/// decimal digits, with `+` before them or nothing.
pub fn parse_u64(chars: &Vec<char>) -> (r: Option<u64>)
    ensures
        r == match unsigned_value(chars@) {
            Some(v) => if v <= u64::MAX {
                Some(v as u64)
            } else {
                None
            },
            None => None,
        },
{
    let from: usize = if chars.len() > 0 && chars[0] == '+' {
        1
    } else {
        0
    };
    proof {
        assert(chars@.skip(0) =~= chars@);
        assert(chars@.skip(1) =~= chars@.drop_first());
        lemma_digits_value_nonnegative(chars@.skip(from as int));
    }
    match read_digits(chars, from, false) {
        Some(v) => if v <= u64::MAX as u128 {
            Some(v as u64)
        } else {
            None
        },
        None => None,
    }
}

/// Reads a number as `str::parse` of std reads an `i64`: decimal digits,
/// with `+` or `-` before them or nothing.
pub fn parse_i64(chars: &Vec<char>) -> (r: Option<i64>)
    ensures
        r == match signed_value(chars@) {
            Some(v) => if i64::MIN <= v <= i64::MAX {
                Some(v as i64)
            } else {
                None
            },
            None => None,
        },
{
    let minus = chars.len() > 0 && chars[0] == '-';
    let from: usize = if chars.len() > 0 && (chars[0] == '+' || chars[0] == '-') {
        1
    } else {
        0
    };
    proof {
        assert(chars@.skip(0) =~= chars@);
        assert(chars@.skip(1) =~= chars@.drop_first());
        lemma_digits_value_nonnegative(chars@.skip(from as int));
    }
    match read_digits(chars, from, false) {
        Some(v) => {
            if minus {
                if v <= 0x8000_0000_0000_0000 {
                    Some((-(v as i128)) as i64)
                } else {
                    None
                }
            } else if v <= i64::MAX as u128 {
                Some(v as i64)
            } else {
                None
            }
        },
        None => None,
    }
}

/// Reads a number in binary digits as `u64::from_str_radix` of std reads
/// it in the base 2: digits 0 and 1, with `+` before them or nothing.
pub fn parse_binary(text: &str) -> (r: Option<u64>)
    ensures
        r == match binary_value(text@) {
            Some(v) => if v <= u64::MAX {
                Some(v as u64)
            } else {
                None
            },
            None => None,
        },
{
    let chars = crate::text::chars_of(text);
    let from: usize = if chars.len() > 0 && chars[0] == '+' {
        1
    } else {
        0
    };
    proof {
        assert(chars@.skip(0) =~= chars@);
        assert(chars@.skip(1) =~= chars@.drop_first());
        lemma_digits_value_nonnegative(chars@.skip(from as int));
    }
    match read_digits(&chars, from, true) {
        Some(v) => if v <= u64::MAX as u128 {
            Some(v as u64)
        } else {
            None
        },
        None => None,
    }
}

/// The parts of a text between the places at which `mark` stands: one
/// part more than there are marks, empty parts among them.
pub open spec fn split(text: Seq<char>, mark: char) -> Seq<Seq<char>>
    decreases text.len(),
{
    if text.len() == 0 {
        seq![Seq::empty()]
    } else {
        let parts = split(text.drop_last(), mark);
        if text.last() == mark {
            parts.push(Seq::empty())
        } else {
            parts.drop_last().push(parts.last().push(text.last()))
        }
    }
}

/// A text is cut into one part at least.
pub proof fn lemma_split_is_not_empty(text: Seq<char>, mark: char)
    ensures
        split(text, mark).len() > 0,
    decreases text.len(),
{
    if text.len() > 0 {
        lemma_split_is_not_empty(text.drop_last(), mark);
    }
}

/// Cuts a text at every place at which `mark` stands.
pub fn split_at(chars: &Vec<char>, mark: char) -> (parts: Vec<Vec<char>>)
    ensures
        parts.deep_view() == split(chars@, mark),
{
    let ghost text = chars@;
    let mut parts: Vec<Vec<char>> = Vec::new();
    let mut part: Vec<char> = Vec::new();
    let mut i: usize = 0;
    proof {
        assert(text.take(0) =~= Seq::empty());
        assert(parts.deep_view().push(part@) =~= split(text.take(0), mark));
    }
    while i < chars.len()
        invariant
            i <= chars.len(),
            text == chars@,
            parts.deep_view().push(part@) == split(text.take(i as int), mark),
        decreases chars.len() - i,
    {
        let c = chars[i];
        let ghost done = parts.deep_view();
        let ghost open = part@;
        proof {
            assert(part.deep_view() =~= open);
            assert(text.take(i + 1).drop_last() =~= text.take(i as int));
            assert(text.take(i + 1).last() == c);
            assert(done.push(open).drop_last() =~= done);
        }
        if c == mark {
            parts.push(part);
            part = Vec::new();
            proof {
                assert(parts.deep_view() =~= done.push(open));
                assert(part@ =~= Seq::empty());
            }
        } else {
            part.push(c);
            proof {
                assert(parts.deep_view() =~= done);
            }
        }
        i = i + 1;
    }
    proof {
        assert(text.take(i as int) =~= text);
    }
    let ghost done = parts.deep_view();
    let ghost open = part@;
    proof {
        assert(part.deep_view() =~= open);
    }
    parts.push(part);
    proof {
        assert(parts.deep_view() =~= done.push(open));
    }
    parts
}

/// One of the characters that Unicode calls white space.
pub open spec fn is_space(c: char) -> bool {
    ('\u{9}' <= c && c <= '\u{d}') || c == ' ' || c == '\u{85}' || c == '\u{a0}' || c
        == '\u{1680}' || ('\u{2000}' <= c && c <= '\u{200a}') || c == '\u{2028}' || c
        == '\u{2029}' || c == '\u{202f}' || c == '\u{205f}' || c == '\u{3000}'
}

/// The number of characters at the start of a text that are white space.
pub open spec fn leading_spaces(text: Seq<char>) -> nat
    decreases text.len(),
{
    if text.len() > 0 && is_space(text[0]) {
        1 + leading_spaces(text.drop_first())
    } else {
        0
    }
}

/// The number of characters at the end of a text that are white space.
pub open spec fn trailing_spaces(text: Seq<char>) -> nat
    decreases text.len(),
{
    if text.len() > 0 && is_space(text.last()) {
        1 + trailing_spaces(text.drop_last())
    } else {
        0
    }
}

/// A text without the white space at its start and at its end.
pub open spec fn trimmed(text: Seq<char>) -> Seq<char> {
    let from = leading_spaces(text) as int;
    if from == text.len() {
        Seq::empty()
    } else {
        text.subrange(from, text.len() - trailing_spaces(text))
    }
}

fn space(c: char) -> (r: bool)
    ensures
        r == is_space(c),
{
    ('\u{9}' <= c && c <= '\u{d}') || c == ' ' || c == '\u{85}' || c == '\u{a0}' || c
        == '\u{1680}' || ('\u{2000}' <= c && c <= '\u{200a}') || c == '\u{2028}' || c
        == '\u{2029}' || c == '\u{202f}' || c == '\u{205f}' || c == '\u{3000}'
}

/// The white space at the start of a text is as long as the text at most,
/// and behind it stands no white space.
proof fn lemma_leading_spaces(text: Seq<char>)
    ensures
        leading_spaces(text) <= text.len(),
        forall|j: int| 0 <= j < leading_spaces(text) ==> is_space(#[trigger] text[j]),
        leading_spaces(text) < text.len() ==> !is_space(text[leading_spaces(text) as int]),
    decreases text.len(),
{
    if text.len() > 0 && is_space(text[0]) {
        let rest = text.drop_first();
        lemma_leading_spaces(rest);
        assert forall|j: int| 0 <= j < leading_spaces(text) implies is_space(
            #[trigger] text[j],
        ) by {
            if j > 0 {
                assert(rest[j - 1] == text[j]);
            }
        }
        if leading_spaces(text) < text.len() {
            assert(rest[leading_spaces(rest) as int] == text[leading_spaces(text) as int]);
        }
    }
}

/// The white space at the end of a text is as long as the text at most,
/// and before it stands no white space.
proof fn lemma_trailing_spaces(text: Seq<char>)
    ensures
        trailing_spaces(text) <= text.len(),
        forall|j: int|
            text.len() - trailing_spaces(text) <= j < text.len() ==> is_space(#[trigger] text[j]),
        trailing_spaces(text) < text.len() ==> !is_space(
            text[text.len() - trailing_spaces(text) - 1],
        ),
    decreases text.len(),
{
    if text.len() > 0 && is_space(text.last()) {
        let rest = text.drop_last();
        lemma_trailing_spaces(rest);
        assert forall|j: int|
            text.len() - trailing_spaces(text) <= j < text.len() implies is_space(
            #[trigger] text[j],
        ) by {
            if j < text.len() - 1 {
                assert(rest[j] == text[j]);
            }
        }
        if trailing_spaces(text) < text.len() {
            assert(rest[rest.len() - trailing_spaces(rest) - 1] == text[text.len()
                - trailing_spaces(text) - 1]);
        }
    }
}

/// The white space at the start of a text ends at the first character
/// that is none.
proof fn lemma_leading_spaces_end(text: Seq<char>, at: int)
    requires
        0 <= at <= text.len(),
        forall|j: int| 0 <= j < at ==> is_space(#[trigger] text[j]),
        at < text.len() ==> !is_space(text[at]),
    ensures
        leading_spaces(text) == at,
{
    lemma_leading_spaces(text);
    let found = leading_spaces(text) as int;
    if found < at {
        assert(is_space(text[found]));
    } else if at < found {
        assert(is_space(text[at]));
    }
}

/// The white space at the end of a text starts behind the last character
/// that is none.
proof fn lemma_trailing_spaces_start(text: Seq<char>, at: int)
    requires
        0 <= at <= text.len(),
        forall|j: int| at <= j < text.len() ==> is_space(#[trigger] text[j]),
        at > 0 ==> !is_space(text[at - 1]),
    ensures
        trailing_spaces(text) == text.len() - at,
{
    lemma_trailing_spaces(text);
    let found = text.len() - trailing_spaces(text);
    if found < at {
        assert(is_space(text[at - 1]));
    } else if at < found {
        assert(is_space(text[found - 1]));
    }
}

/// Takes the white space off the start and off the end of a text, as
/// `str::trim` of std does.
pub fn trim(chars: &Vec<char>) -> (out: Vec<char>)
    ensures
        out@ == trimmed(chars@),
{
    let ghost text = chars@;
    let mut from: usize = 0;
    while from < chars.len() && space(chars[from])
        invariant
            from <= chars.len(),
            text == chars@,
            forall|j: int| 0 <= j < from ==> is_space(#[trigger] text[j]),
        decreases chars.len() - from,
    {
        from = from + 1;
    }
    proof {
        lemma_leading_spaces_end(text, from as int);
    }
    let mut out: Vec<char> = Vec::new();
    if from == chars.len() {
        return out;
    }
    let mut to = chars.len();
    while to > from && space(chars[to - 1])
        invariant
            from <= to <= chars.len(),
            from < chars.len(),
            !is_space(text[from as int]),
            text == chars@,
            forall|j: int| to <= j < text.len() ==> is_space(#[trigger] text[j]),
        decreases to,
    {
        to = to - 1;
    }
    proof {
        lemma_trailing_spaces_start(text, to as int);
    }
    let mut i = from;
    while i < to
        invariant
            from <= i <= to <= chars.len(),
            text == chars@,
            out@ == text.subrange(from as int, i as int),
        decreases to - i,
    {
        out.push(chars[i]);
        proof {
            assert(text.subrange(from as int, i as int).push(text[i as int]) =~= text.subrange(
                from as int,
                i + 1,
            ));
        }
        i = i + 1;
    }
    out
}

} // verus!
