//! Numbers folded together bit by bit, as values and as they are written
//! in a text.

use crate::parse::{
    parse_i64, parse_u64, signed_value, split, split_at, trim, trimmed, unsigned_value,
};
use crate::text::{chars_of, push_char};
use vstd::prelude::*;

verus! {

/// The exclusive or of all the values; 0 for none.
pub open spec fn xor_of(values: Seq<i64>) -> i64
    decreases values.len(),
{
    if values.len() == 0 {
        0
    } else {
        xor_of(values.drop_last()) ^ values.last()
    }
}

/// The exclusive or of all the values; 0 for none.
pub open spec fn xor_of_unsigned(values: Seq<u64>) -> u64
    decreases values.len(),
{
    if values.len() == 0 {
        0
    } else {
        xor_of_unsigned(values.drop_last()) ^ values.last()
    }
}

/// Folds the values together with exclusive or.
pub fn xor_all(values: &Vec<i64>) -> (r: i64)
    ensures
        r == xor_of(values@),
{
    let mut folded: i64 = 0;
    let mut i: usize = 0;
    proof {
        assert(values@.take(0) =~= Seq::empty());
    }
    while i < values.len()
        invariant
            i <= values.len(),
            folded == xor_of(values@.take(i as int)),
        decreases values.len() - i,
    {
        proof {
            assert(values@.take(i + 1).drop_last() =~= values@.take(i as int));
        }
        folded = folded ^ values[i];
        i = i + 1;
    }
    proof {
        assert(values@.take(i as int) =~= values@);
    }
    folded
}

/// Folds the values together with exclusive or.
pub fn xor_all_unsigned(values: &Vec<u64>) -> (r: u64)
    ensures
        r == xor_of_unsigned(values@),
{
    let mut folded: u64 = 0;
    let mut i: usize = 0;
    proof {
        assert(values@.take(0) =~= Seq::empty());
    }
    while i < values.len()
        invariant
            i <= values.len(),
            folded == xor_of_unsigned(values@.take(i as int)),
        decreases values.len() - i,
    {
        proof {
            assert(values@.take(i + 1).drop_last() =~= values@.take(i as int));
        }
        folded = folded ^ values[i];
        i = i + 1;
    }
    proof {
        assert(values@.take(i as int) =~= values@);
    }
    folded
}

/// Raises `x` to the third power, where the power fits.
pub fn cube(x: i64) -> (r: Option<i64>)
    ensures
        r == cube_of(x),
{
    if -2097152 <= x && x <= 2097151 {
        assert(0 <= x * x <= 4398046511104) by (nonlinear_arith)
            requires
                -2097152 <= x <= 2097151,
        ;
        assert(-9223372036854775808 <= x * x * x <= 9223372036854775807) by (nonlinear_arith)
            requires
                -2097152 <= x <= 2097151,
                0 <= x * x <= 4398046511104,
        ;
        Some(x * x * x)
    } else {
        assert(x * x * x > 9223372036854775807 || x * x * x < -9223372036854775808)
            by (nonlinear_arith)
            requires
                x > 2097151 || x < -2097152,
        ;
        None
    }
}

/// The third power of `x`, or `None` where it does not fit.
pub open spec fn cube_of(x: i64) -> Option<i64> {
    if i64::MIN <= x * x * x <= i64::MAX {
        Some((x * x * x) as i64)
    } else {
        None
    }
}

/// The exclusive or of all the values, raised to the third power; `None`
/// where the power does not fit.
pub fn xor_cubed(values: &Vec<i64>) -> (r: Option<i64>)
    ensures
        r == cube_of(xor_of(values@)),
{
    cube(xor_all(values))
}

/// A text without the marks at its end.
pub open spec fn without_trailing(text: Seq<char>, mark: char) -> Seq<char>
    decreases text.len(),
{
    if text.len() > 0 && text.last() == mark {
        without_trailing(text.drop_last(), mark)
    } else {
        text
    }
}

/// The numbers that the parts write, each read as an `i64`; `None` where
/// a part writes no such number.
pub open spec fn signed_values(parts: Seq<Seq<char>>) -> Option<Seq<i64>>
    decreases parts.len(),
{
    if parts.len() == 0 {
        Some(Seq::empty())
    } else {
        match (signed_values(parts.drop_last()), signed_value(parts.last())) {
            (Some(values), Some(v)) => if i64::MIN <= v <= i64::MAX {
                Some(values.push(v as i64))
            } else {
                None
            },
            _ => None,
        }
    }
}

/// The numbers that the lines write without sign, each read as a `u64`
/// once the white space around it is taken off; a line that writes no such
/// number is left out.
pub open spec fn line_values(lines: Seq<Seq<char>>) -> Seq<u64>
    decreases lines.len(),
{
    if lines.len() == 0 {
        Seq::empty()
    } else {
        let earlier = line_values(lines.drop_last());
        match unsigned_value(trimmed(lines.last())) {
            Some(v) => if v <= u64::MAX {
                earlier.push(v as u64)
            } else {
                earlier
            },
            None => earlier,
        }
    }
}

/// What `numbers` answers for a path.
pub open spec fn path_answer(path: Seq<char>) -> Option<i64> {
    match signed_values(split(without_trailing(path, '/'), '/')) {
        Some(values) => cube_of(xor_of(values)),
        None => None,
    }
}

/// Reads the numbers that stand in a path between `/`, whatever the number
/// of `/` at its end, folds them together with exclusive or and raises the
/// outcome to the third power.
///
/// `None` where a part of the path is no number that fits, or where the
/// power does not fit.
pub fn numbers(path: &str) -> (r: Option<i64>)
    ensures
        r == path_answer(path@),
{
    let mut chars = chars_of(path);
    while chars.len() > 0 && chars[chars.len() - 1] == '/'
        invariant
            without_trailing(chars@, '/') == without_trailing(path@, '/'),
        decreases chars.len(),
    {
        proof {
            assert(chars@.subrange(0, chars.len() - 1) =~= chars@.drop_last());
        }
        chars.pop();
    }
    let parts = split_at(&chars, '/');
    let ghost cut = parts.deep_view();
    let mut values: Vec<i64> = Vec::new();
    let mut i: usize = 0;
    proof {
        assert(cut.take(0) =~= Seq::empty());
    }
    while i < parts.len()
        invariant
            i <= parts.len(),
            cut == parts.deep_view(),
            cut == split(without_trailing(path@, '/'), '/'),
            signed_values(cut.take(i as int)) == Some(values@),
        decreases parts.len() - i,
    {
        proof {
            assert(cut.take(i + 1).drop_last() =~= cut.take(i as int));
            assert(cut.take(i + 1).last() =~= parts[i as int]@);
            lemma_values_stay_missing(cut, i + 1);
        }
        match parse_i64(&parts[i]) {
            Some(v) => {
                values.push(v);
            },
            None => {
                return None;
            },
        }
        i = i + 1;
    }
    proof {
        assert(cut.take(i as int) =~= cut);
    }
    xor_cubed(&values)
}

/// Where the first parts write no numbers, all the parts write none.
proof fn lemma_values_stay_missing(parts: Seq<Seq<char>>, upto: int)
    requires
        0 <= upto <= parts.len(),
    ensures
        signed_values(parts.take(upto)) is None ==> signed_values(parts) is None,
    decreases parts.len(),
{
    if upto < parts.len() {
        assert(parts.drop_last().take(upto) =~= parts.take(upto));
        lemma_values_stay_missing(parts.drop_last(), upto);
    } else {
        assert(parts.take(upto) =~= parts);
    }
}

/// Reads the numbers that stand on the lines of a text, one on a line and
/// white space around it, and folds them together with exclusive or; a
/// line that holds no number is passed over.
pub fn integers(body: &str) -> (r: u64)
    ensures
        r == xor_of_unsigned(line_values(split(body@, '\n'))),
{
    let chars = chars_of(body);
    let lines = split_at(&chars, '\n');
    let ghost cut = lines.deep_view();
    let mut values: Vec<u64> = Vec::new();
    let mut i: usize = 0;
    proof {
        assert(cut.take(0) =~= Seq::empty());
    }
    while i < lines.len()
        invariant
            i <= lines.len(),
            cut == lines.deep_view(),
            cut == split(body@, '\n'),
            values@ == line_values(cut.take(i as int)),
        decreases lines.len() - i,
    {
        proof {
            assert(cut.take(i + 1).drop_last() =~= cut.take(i as int));
            assert(cut.take(i + 1).last() =~= lines[i as int]@);
        }
        let line = trim(&lines[i]);
        match parse_u64(&line) {
            Some(v) => {
                values.push(v);
            },
            None => {},
        }
        i = i + 1;
    }
    proof {
        assert(cut.take(i as int) =~= cut);
    }
    xor_all_unsigned(&values)
}

/// As many wrapped gifts in a row as asked for.
pub fn gifts(count: usize) -> (row: String)
    ensures
        row@ == Seq::new(count as nat, |i: int| '\u{1f381}'),
{
    let mut row = String::new();
    let mut i: usize = 0;
    while i < count
        invariant
            i <= count,
            row@ == Seq::new(i as nat, |j: int| '\u{1f381}'),
        decreases count - i,
    {
        push_char(&mut row, '\u{1f381}');
        proof {
            assert(row@ =~= Seq::new((i + 1) as nat, |j: int| '\u{1f381}'));
        }
        i = i + 1;
    }
    row
}

} // verus!
