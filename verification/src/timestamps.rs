//! The timestamps of notes.
use crate::text::option_view;
use chrono::{DateTime, SecondsFormat};
use vstd::prelude::*;

verus! {

/// The start of Core Data's time, 2001-01-01 00:00:00 UTC, in milliseconds
/// since the Unix epoch.
pub const CORE_DATA_EPOCH_MILLIS: i64 = 978_307_200_000;

/// The start of the year 0 in milliseconds since the Unix epoch.
pub const YEAR_0_MILLIS: i64 = -62_167_219_200_000;

/// The start of the year 10000 in milliseconds since the Unix epoch.
pub const YEAR_10000_MILLIS: i64 = 253_402_300_800_000;

/// What `DateTime::to_rfc3339_opts` makes of the UTC time that
/// `DateTime::from_timestamp_millis` makes of `unix_millis`, to the second and
/// with a `Z`; nothing where the time is out of range.
pub uninterp spec fn rfc3339_text(unix_millis: int) -> Option<Seq<char>>;

/// Whether a year of the Gregorian calendar is a leap year.
pub open spec fn is_leap_year(year: int) -> bool {
    year % 4 == 0 && (year % 100 != 0 || year % 400 == 0)
}

/// The number of days from the start of the year 0 to the start of a year.
pub open spec fn days_before_year(year: int) -> int {
    365 * year + (year + 3) / 4 - (year + 99) / 100 + (year + 399) / 400
}

/// The number of days of a month.
pub open spec fn days_in_month(year: int, month: int) -> int {
    if month == 2 {
        if is_leap_year(year) {
            29
        } else {
            28
        }
    } else if month == 4 || month == 6 || month == 9 || month == 11 {
        30
    } else {
        31
    }
}

/// The number of days from the start of a year to the start of a month.
pub open spec fn days_before_month(year: int, month: int) -> int
    decreases month,
{
    if month <= 1 {
        0
    } else {
        days_before_month(year, month - 1) + days_in_month(year, month - 1)
    }
}

/// The number that two digits stand for, the first of them at `i`.
pub open spec fn two_digits(text: Seq<char>, i: int) -> int {
    (text[i] as int - '0' as int) * 10 + (text[i + 1] as int - '0' as int)
}

/// Whether `text` looks like `2001-01-01T00:00:00Z`.
pub open spec fn is_rfc3339_shaped(text: Seq<char>) -> bool {
    &&& text.len() == 20
    &&& text[4] == '-'
    &&& text[7] == '-'
    &&& text[10] == 'T'
    &&& text[13] == ':'
    &&& text[16] == ':'
    &&& text[19] == 'Z'
    &&& forall|i: int|
        0 <= i < 19 && i != 4 && i != 7 && i != 10 && i != 13 && i != 16 ==> '0' <= #[trigger] text[i] <= '9'
}

/// Whether `text` is a UTC time in the format of RFC 3339: that of a number of
/// seconds since the start of the year 0.
pub open spec fn is_rfc3339_time(text: Seq<char>, seconds: int) -> bool {
    let year = two_digits(text, 0) * 100 + two_digits(text, 2);
    let month = two_digits(text, 5);
    let day = two_digits(text, 8);
    let hour = two_digits(text, 11);
    let minute = two_digits(text, 14);
    let second = two_digits(text, 17);
    &&& is_rfc3339_shaped(text)
    &&& 1 <= month <= 12
    &&& 1 <= day <= days_in_month(year, month)
    &&& hour < 24
    &&& minute < 60
    &&& second < 60
    &&& seconds == (((days_before_year(year) + days_before_month(year, month) + day - 1) * 24 + hour) * 60
        + minute) * 60 + second
}

/// `DateTime::from_timestamp_millis` of the `chrono` crate, followed by its
/// `to_rfc3339_opts`. Every time in the years 0 to 9999 is in range; it is
/// written as the time in the Gregorian calendar, fractions of a second left
/// out. How times in other years are written is left to the crate.
#[verifier::external_body]
fn rfc3339(unix_millis: i64) -> (res: Option<String>)
    ensures
        option_view(res) == rfc3339_text(unix_millis as int),
        YEAR_0_MILLIS <= unix_millis < YEAR_10000_MILLIS ==> res is Some && is_rfc3339_time(
            res->0@,
            (unix_millis - YEAR_0_MILLIS) / 1000,
        ),
{
    DateTime::from_timestamp_millis(unix_millis).map(|time| time.to_rfc3339_opts(SecondsFormat::Secs, true))
}

/// The text of a Core Data timestamp, given in milliseconds; nothing where it
/// is out of range.
pub open spec fn core_data_text(millis: int) -> Option<Seq<char>> {
    if CORE_DATA_EPOCH_MILLIS + millis > i64::MAX {
        None
    } else {
        rfc3339_text(CORE_DATA_EPOCH_MILLIS + millis)
    }
}

/// Core Data stores timestamps as seconds since 2001-01-01 00:00:00 UTC; this
/// one is in milliseconds. The result is the time in the format of RFC 3339,
/// or nothing if it is too far away to be written.
pub fn from_core_data_timestamp(millis: i64) -> (res: Option<String>)
    ensures
        option_view(res) == core_data_text(millis as int),
        YEAR_0_MILLIS <= CORE_DATA_EPOCH_MILLIS + millis < YEAR_10000_MILLIS ==> res is Some
            && is_rfc3339_time(res->0@, (CORE_DATA_EPOCH_MILLIS + millis - YEAR_0_MILLIS) / 1000),
{
    if millis > i64::MAX - CORE_DATA_EPOCH_MILLIS {
        return None;
    }
    rfc3339(CORE_DATA_EPOCH_MILLIS + millis)
}

proof fn lemma_days_before_month(year: int, month: int)
    requires
        1 <= month <= 12,
    ensures
        0 <= days_before_month(year, month),
        days_before_month(year, month) + days_in_month(year, month) <= days_before_year(year + 1)
            - days_before_year(year),
{
    reveal_with_fuel(days_before_month, 13);
    assert(days_before_year(year + 1) - days_before_year(year) == if is_leap_year(year) {
        366int
    } else {
        365int
    });
}

proof fn lemma_later_month(year: int, month: int, later: int)
    requires
        1 <= month < later <= 12,
    ensures
        days_before_month(year, month) + days_in_month(year, month) <= days_before_month(year, later),
    decreases later,
{
    if month + 1 < later {
        lemma_later_month(year, month, later - 1);
    }
}

proof fn lemma_later_year(year: int, later: int)
    requires
        0 <= year < later,
    ensures
        days_before_year(year + 1) <= days_before_year(later),
{
}

proof fn lemma_later_date(
    year: int,
    month: int,
    day: int,
    later_year: int,
    later_month: int,
    later_day: int,
)
    requires
        0 <= year,
        0 <= later_year,
        1 <= month <= 12,
        1 <= later_month <= 12,
        1 <= day <= days_in_month(year, month),
        1 <= later_day <= days_in_month(later_year, later_month),
        year < later_year || (year == later_year && month < later_month) || (year == later_year && month
            == later_month && day < later_day),
    ensures
        days_before_year(year) + days_before_month(year, month) + day < days_before_year(later_year)
            + days_before_month(later_year, later_month) + later_day,
{
    lemma_days_before_month(year, month);
    lemma_days_before_month(later_year, later_month);
    if year < later_year {
        lemma_later_year(year, later_year);
    } else if month < later_month {
        lemma_later_month(year, month, later_month);
    }
}

/// A time has one text: two texts of the same time are the same.
pub proof fn law_time_has_one_text(a: Seq<char>, b: Seq<char>, seconds: int)
    requires
        is_rfc3339_time(a, seconds),
        is_rfc3339_time(b, seconds),
    ensures
        a == b,
{
    let (year_a, year_b) = (
        two_digits(a, 0) * 100 + two_digits(a, 2),
        two_digits(b, 0) * 100 + two_digits(b, 2),
    );
    let (month_a, month_b) = (two_digits(a, 5), two_digits(b, 5));
    let (day_a, day_b) = (two_digits(a, 8), two_digits(b, 8));
    assert forall|i: int| 0 <= i < 19 && i != 4 && i != 7 && i != 10 && i != 13 && i != 16 implies '0'
        <= #[trigger] a[i] <= '9' && '0' <= b[i] <= '9' by {}
    let days_a = days_before_year(year_a) + days_before_month(year_a, month_a) + day_a;
    let days_b = days_before_year(year_b) + days_before_month(year_b, month_b) + day_b;
    assert(days_a == days_b);
    if (year_a, month_a, day_a) != (year_b, month_b, day_b) {
        if year_a < year_b || (year_a == year_b && month_a < month_b) || (year_a == year_b && month_a
            == month_b && day_a < day_b) {
            lemma_later_date(year_a, month_a, day_a, year_b, month_b, day_b);
        } else {
            lemma_later_date(year_b, month_b, day_b, year_a, month_a, day_a);
        }
    }
    assert(two_digits(a, 0) == two_digits(b, 0) && two_digits(a, 2) == two_digits(b, 2));
    assert(two_digits(a, 11) == two_digits(b, 11));
    assert(two_digits(a, 14) == two_digits(b, 14));
    assert(two_digits(a, 17) == two_digits(b, 17));
    assert forall|i: int| 0 <= i < 20 implies a[i] == b[i] by {}
    assert(a =~= b);
}

} // verus!
