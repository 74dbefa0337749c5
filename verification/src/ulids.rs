//! ULIDs: what they say of the time at which they were made, and how they
//! read as UUIDs.

use chrono::{Datelike, TimeZone};
use vstd::prelude::*;

verus! {

/// The value that the crate `ulid` reads from a text, or `None` where it
/// takes the text for no ULID.
pub uninterp spec fn ulid_value(text: Seq<char>) -> Option<u128>;

/// The day of the week, counted from Monday as 0, on which the moment
/// `ms` milliseconds after the start of 1970 falls in UTC: a day has
/// 86 400 000 milliseconds, and 1970 began on a Thursday.
pub open spec fn utc_weekday(ms: i64) -> u8 {
    ((ms / 86_400_000 + 3) % 7) as u8
}

/// The month, counted from January as 1, in which the moment `ms`
/// milliseconds after the start of 1970 falls in UTC, as the crate
/// `chrono` gives it.
pub uninterp spec fn utc_month(ms: i64) -> u32;

/// The day of the month on which the moment `ms` milliseconds after the
/// start of 1970 falls in UTC, as the crate `chrono` gives it.
pub uninterp spec fn utc_day(ms: i64) -> u32;

/// `ulid::Ulid::from_string`: whether a text is read as a ULID, and the
/// value read, depend on the characters of the text alone.
#[verifier::external_body]
fn parse_ulid(text: &str) -> (value: Option<u128>)
    ensures
        value == ulid_value(text@),
{
    ulid::Ulid::from_string(text).ok().map(|id| id.0)
}

/// `chrono::Datelike::weekday` on the UTC time that
/// `chrono::TimeZone::timestamp_millis_opt` makes of `ms`, as
/// `chrono::Weekday::num_days_from_monday` numbers it: the number of whole
/// days since the start of 1970, a Thursday, taken round the week. The
/// time exists for every `ms` that a ULID can hold.
#[verifier::external_body]
fn weekday_at(ms: i64) -> (day: u8)
    requires
        0 <= ms < 0x1_0000_0000_0000,
    ensures
        day == utc_weekday(ms),
{
    chrono::Utc.timestamp_millis_opt(ms).unwrap().weekday().num_days_from_monday() as u8
}

/// `chrono::Datelike::month` on the UTC time that
/// `chrono::TimeZone::timestamp_millis_opt` makes of `ms`.
#[verifier::external_body]
fn month_at(ms: i64) -> (month: u32)
    requires
        0 <= ms < 0x1_0000_0000_0000,
    ensures
        month == utc_month(ms),
{
    chrono::Utc.timestamp_millis_opt(ms).unwrap().month()
}

/// `chrono::Datelike::day` on the UTC time that
/// `chrono::TimeZone::timestamp_millis_opt` makes of `ms`.
#[verifier::external_body]
fn day_at(ms: i64) -> (day: u32)
    requires
        0 <= ms < 0x1_0000_0000_0000,
    ensures
        day == utc_day(ms),
{
    chrono::Utc.timestamp_millis_opt(ms).unwrap().day()
}

/// The character for a hexadecimal digit.
pub open spec fn hex_char(d: int) -> char {
    if d == 0 {
        '0'
    } else if d == 1 {
        '1'
    } else if d == 2 {
        '2'
    } else if d == 3 {
        '3'
    } else if d == 4 {
        '4'
    } else if d == 5 {
        '5'
    } else if d == 6 {
        '6'
    } else if d == 7 {
        '7'
    } else if d == 8 {
        '8'
    } else if d == 9 {
        '9'
    } else if d == 10 {
        'a'
    } else if d == 11 {
        'b'
    } else if d == 12 {
        'c'
    } else if d == 13 {
        'd'
    } else if d == 14 {
        'e'
    } else {
        'f'
    }
}

/// 16 to the power of `n`.
pub open spec fn pow16(n: nat) -> nat
    decreases n,
{
    if n == 0 {
        1
    } else {
        16 * pow16((n - 1) as nat)
    }
}

/// The 32 hexadecimal digits of a value, the highest first.
pub open spec fn hex32(value: u128) -> Seq<char> {
    Seq::new(32, |i: int| hex_char(((value as nat) / pow16((31 - i) as nat)) as int % 16))
}

/// A value as a UUID is written: its 32 hexadecimal digits in groups of
/// 8, 4, 4, 4 and 12 with `-` between the groups.
pub open spec fn hyphenated(value: u128) -> Seq<char> {
    let digits = hex32(value);
    digits.subrange(0, 8) + seq!['-'] + digits.subrange(8, 12) + seq!['-'] + digits.subrange(
        12,
        16,
    ) + seq!['-'] + digits.subrange(16, 20) + seq!['-'] + digits.subrange(20, 32)
}

/// `uuid::Uuid::from_u128` and the `to_string` of the UUID that it makes:
/// the 16 bytes of the value from the highest down, each as two small
/// hexadecimal digits, with `-` behind the bytes 4, 6, 8 and 10.
#[verifier::external_body]
fn uuid_text(value: u128) -> (text: String)
    ensures
        text@ == hyphenated(value),
{
    uuid::Uuid::from_u128(value).to_string()
}

/// Writes each value as a UUID, the last value first.
pub fn uuids_of(values: &Vec<u128>) -> (out: Vec<String>)
    ensures
        out.len() == values.len(),
        forall|i: int|
            0 <= i < out.len() ==> (#[trigger] out[i])@ == hyphenated(
                values[values.len() - 1 - i],
            ),
{
    let mut out: Vec<String> = Vec::new();
    let mut i = values.len();
    while i > 0
        invariant
            i <= values.len(),
            out.len() == values.len() - i,
            forall|j: int|
                0 <= j < out.len() ==> (#[trigger] out[j])@ == hyphenated(
                    values[values.len() - 1 - j],
                ),
        decreases i,
    {
        i = i - 1;
        out.push(uuid_text(values[i]));
    }
    out
}

/// Reads every text as a ULID; `None` where one of them is none.
pub fn parse_ulids(texts: &Vec<String>) -> (r: Option<Vec<u128>>)
    ensures
        r is Some <==> forall|i: int|
            0 <= i < texts.len() ==> ulid_value(#[trigger] texts[i]@) is Some,
        r matches Some(values) ==> values.len() == texts.len() && forall|i: int|
            0 <= i < texts.len() ==> ulid_value(#[trigger] texts[i]@) == Some(values[i]),
{
    let mut values: Vec<u128> = Vec::new();
    let mut i: usize = 0;
    while i < texts.len()
        invariant
            i <= texts.len(),
            values.len() == i,
            forall|j: int| 0 <= j < i ==> ulid_value(#[trigger] texts[j]@) == Some(values[j]),
        decreases texts.len() - i,
    {
        match parse_ulid(texts[i].as_str()) {
            Some(value) => {
                values.push(value);
            },
            None => {
                return None;
            },
        }
        i = i + 1;
    }
    Some(values)
}

/// Reads the texts as ULIDs and writes them as UUIDs, the last text
/// first; `None` where a text is no ULID.
pub fn convert_ulids_to_uuids(texts: &Vec<String>) -> (r: Option<Vec<String>>)
    ensures
        r is Some <==> forall|i: int|
            0 <= i < texts.len() ==> ulid_value(#[trigger] texts[i]@) is Some,
        r matches Some(out) ==> out.len() == texts.len() && forall|i: int|
            0 <= i < out.len() ==> Some((#[trigger] out[i])@) == match ulid_value(
                texts[texts.len() - 1 - i]@,
            ) {
                Some(value) => Some(hyphenated(value)),
                None => None,
            },
{
    match parse_ulids(texts) {
        Some(values) => {
            let out = uuids_of(&values);
            proof {
                assert forall|i: int| 0 <= i < out.len() implies Some((#[trigger] out[i])@)
                    == match ulid_value(texts[texts.len() - 1 - i]@) {
                    Some(value) => Some(hyphenated(value)),
                    None => None,
                } by {
                    assert(ulid_value(texts[texts.len() - 1 - i]@) == Some(
                        values[values.len() - 1 - i],
                    ));
                }
            }
            Some(out)
        },
        None => None,
    }
}

/// A ULID together with the day on which it was made, in UTC.
#[derive(Clone, Copy, Debug, PartialEq, Eq)]
pub struct Stamp {
    pub value: u128,
    /// The day of the week, counted from Monday as 0.
    pub weekday: u8,
    /// The month, counted from January as 1.
    pub month: u32,
    /// The day of the month.
    pub day: u32,
}

/// How many of a list of ULIDs are of each of four kinds.
#[derive(Clone, Copy, Debug, PartialEq, Eq)]
pub struct Task3Output {
    /// Made on a 24th of December.
    pub christmas_eve: u64,
    /// Made on the day of the week that was asked for.
    pub weekday: u64,
    /// Made later than now.
    pub in_the_future: u64,
    /// With 1 as the lowest bit.
    pub lsb_is_1: u64,
}

/// The time at which a ULID was made, in milliseconds since the start of
/// 1970: its highest 48 bits.
pub open spec fn timestamp_of(value: u128) -> u64 {
    (value >> 80) as u64
}

/// The time at which a ULID was made.
pub fn timestamp_ms(value: u128) -> (ms: u64)
    ensures
        ms == timestamp_of(value),
        ms < 0x1_0000_0000_0000,
{
    assert((value >> 80) < 0x1_0000_0000_0000u128) by (bit_vector);
    (value >> 80) as u64
}

/// A ULID with the day on which it was made.
pub open spec fn stamp_of(value: u128) -> Stamp {
    let ms = timestamp_of(value) as i64;
    Stamp { value, weekday: utc_weekday(ms), month: utc_month(ms), day: utc_day(ms) }
}

/// Looks up the day on which a ULID was made.
pub fn stamp(value: u128) -> (s: Stamp)
    ensures
        s == stamp_of(value),
{
    let ms = timestamp_ms(value) as i64;
    Stamp { value, weekday: weekday_at(ms), month: month_at(ms), day: day_at(ms) }
}

/// Made on a 24th of December.
pub open spec fn on_christmas_eve() -> spec_fn(Stamp) -> bool {
    |s: Stamp| s.month == 12 && s.day == 24
}

/// Made on this day of the week.
pub open spec fn on_weekday(weekday: u8) -> spec_fn(Stamp) -> bool {
    |s: Stamp| s.weekday == weekday
}

/// Made later than `now_ms` milliseconds after the start of 1970.
pub open spec fn later_than(now_ms: i64) -> spec_fn(Stamp) -> bool {
    |s: Stamp| timestamp_of(s.value) > now_ms
}

/// With 1 as the lowest bit.
pub open spec fn is_odd() -> spec_fn(Stamp) -> bool {
    |s: Stamp| s.value & 1 == 1
}

/// The number of stamps of which `marked` holds.
pub open spec fn count_of(stamps: Seq<Stamp>, marked: spec_fn(Stamp) -> bool) -> nat
    decreases stamps.len(),
{
    if stamps.len() == 0 {
        0
    } else {
        count_of(stamps.drop_last(), marked) + if marked(stamps.last()) {
            1nat
        } else {
            0nat
        }
    }
}

/// No more stamps are counted than there are.
proof fn lemma_count_bound(stamps: Seq<Stamp>, marked: spec_fn(Stamp) -> bool)
    ensures
        count_of(stamps, marked) <= stamps.len(),
    decreases stamps.len(),
{
    if stamps.len() > 0 {
        lemma_count_bound(stamps.drop_last(), marked);
    }
}

/// What `count_stamps` answers.
pub open spec fn counted(stamps: Seq<Stamp>, weekday: u8, now_ms: i64) -> Task3Output {
    Task3Output {
        christmas_eve: count_of(stamps, on_christmas_eve()) as u64,
        weekday: count_of(stamps, on_weekday(weekday)) as u64,
        in_the_future: count_of(stamps, later_than(now_ms)) as u64,
        lsb_is_1: count_of(stamps, is_odd()) as u64,
    }
}

/// Counts the stamps made on a 24th of December, those made on the given
/// day of the week, those made later than `now_ms`, and those with 1 as
/// the lowest bit.
pub fn count_stamps(stamps: &Vec<Stamp>, weekday: u8, now_ms: i64) -> (out: Task3Output)
    ensures
        out == counted(stamps@, weekday, now_ms),
        out.christmas_eve == count_of(stamps@, on_christmas_eve()),
        out.weekday == count_of(stamps@, on_weekday(weekday)),
        out.in_the_future == count_of(stamps@, later_than(now_ms)),
        out.lsb_is_1 == count_of(stamps@, is_odd()),
{
    let mut eve: u64 = 0;
    let mut same_day: u64 = 0;
    let mut later: u64 = 0;
    let mut odd: u64 = 0;
    let mut i: usize = 0;
    proof {
        assert(stamps@.take(0) =~= Seq::empty());
    }
    while i < stamps.len()
        invariant
            i <= stamps.len(),
            eve == count_of(stamps@.take(i as int), on_christmas_eve()),
            same_day == count_of(stamps@.take(i as int), on_weekday(weekday)),
            later == count_of(stamps@.take(i as int), later_than(now_ms)),
            odd == count_of(stamps@.take(i as int), is_odd()),
        decreases stamps.len() - i,
    {
        let s = stamps[i];
        proof {
            let seen = stamps@.take(i as int);
            assert(stamps@.take(i + 1).drop_last() =~= seen);
            assert(stamps@.take(i + 1).last() == s);
            lemma_count_bound(seen, on_christmas_eve());
            lemma_count_bound(seen, on_weekday(weekday));
            lemma_count_bound(seen, later_than(now_ms));
            lemma_count_bound(seen, is_odd());
        }
        if s.month == 12 && s.day == 24 {
            eve = eve + 1;
        }
        if s.weekday == weekday {
            same_day = same_day + 1;
        }
        let ms = timestamp_ms(s.value);
        if now_ms < 0 || ms > now_ms as u64 {
            later = later + 1;
        }
        if s.value & 1 == 1 {
            odd = odd + 1;
        }
        i = i + 1;
    }
    proof {
        assert(stamps@.take(i as int) =~= stamps@);
    }
    Task3Output { christmas_eve: eve, weekday: same_day, in_the_future: later, lsb_is_1: odd }
}

/// The ULIDs that the texts are read as, each with the day on which it
/// was made.
pub open spec fn stamps_of(texts: Seq<Seq<char>>) -> Seq<Stamp> {
    texts.map_values(|text: Seq<char>| stamp_of(ulid_value(text)->0))
}

/// Reads the texts as ULIDs and counts those made on a 24th of December,
/// those made on the given day of the week, counted from Monday as 0,
/// those made later than `now_ms`, and those with 1 as the lowest bit.
///
/// `None` where `weekday` is over 6 or a text is no ULID.
pub fn process_ulids(texts: &Vec<String>, weekday: u8, now_ms: i64) -> (r: Option<Task3Output>)
    ensures
        r is Some <==> weekday < 7 && forall|i: int|
            0 <= i < texts.len() ==> ulid_value(#[trigger] texts[i]@) is Some,
        r matches Some(out) ==> out == counted(stamps_of(texts.deep_view()), weekday, now_ms),
{
    if weekday >= 7 {
        return None;
    }
    match parse_ulids(texts) {
        None => None,
        Some(values) => {
            let mut stamps: Vec<Stamp> = Vec::new();
            let mut i: usize = 0;
            while i < values.len()
                invariant
                    i <= values.len(),
                    stamps.len() == i,
                    forall|j: int| 0 <= j < i ==> #[trigger] stamps[j] == stamp_of(values[j]),
                decreases values.len() - i,
            {
                stamps.push(stamp(values[i]));
                i = i + 1;
            }
            proof {
                assert(stamps@ =~= stamps_of(texts.deep_view())) by {
                    assert forall|j: int| 0 <= j < stamps.len() implies stamps@[j] == stamps_of(
                        texts.deep_view(),
                    )[j] by {
                        assert(ulid_value(texts[j]@) == Some(values[j]));
                        assert(texts.deep_view()[j] == texts[j]@);
                    }
                }
            }
            Some(count_stamps(&stamps, weekday, now_ms))
        },
    }
}

} // verus!
