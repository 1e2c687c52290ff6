//! Calendar dates packed into a sortable 32-bit integer: `year << 9 | ordinal`.
use vstd::prelude::*;

use crate::text::{chars_of, find_char, next_index_of, parse_digit_field, parse_digits};

verus! {

/// Exclusive upper bound on the year a `CalendarDate` can hold.
pub const YEAR_LIMIT: u32 = 4194304;

pub open spec fn is_leap_year(y: int) -> bool {
    y % 4 == 0 && (y % 100 != 0 || y % 400 == 0)
}

pub open spec fn days_in_year(y: int) -> int {
    if is_leap_year(y) {
        366
    } else {
        365
    }
}

/// Days in all years before `y`, counting from year 0 of the proleptic
/// Gregorian calendar (negative for negative years).
pub open spec fn days_before_year(y: int) -> int {
    365 * y + (y + 3) / 4 - (y + 99) / 100 + (y + 399) / 400
}

/// A linear day count: consecutive days have consecutive numbers.
pub open spec fn day_number(y: int, ordinal: int) -> int {
    days_before_year(y) + ordinal
}

pub open spec fn is_ordinal_date(y: int, ordinal: int) -> bool {
    1 <= ordinal <= days_in_year(y)
}

pub open spec fn days_in_month(y: int, m: int) -> int {
    if m == 2 {
        if is_leap_year(y) {
            29
        } else {
            28
        }
    } else if m == 4 || m == 6 || m == 9 || m == 11 {
        30
    } else {
        31
    }
}

/// Days of the year `y` before the first day of month `m` (1-based).
pub open spec fn days_before_month(y: int, m: int) -> int
    decreases m,
{
    if m <= 1 {
        0
    } else {
        days_before_month(y, m - 1) + days_in_month(y, m - 1)
    }
}

pub open spec fn is_calendar_date(y: int, m: int, d: int) -> bool {
    1 <= m <= 12 && 1 <= d <= days_in_month(y, m)
}

proof fn lemma_year_step(y: int)
    ensures
        days_before_year(y + 1) == days_before_year(y) + days_in_year(y),
{
    assert((y + 4) / 4 - (y + 3) / 4 == if y % 4 == 0 { 1int } else { 0int });
    assert((y + 100) / 100 - (y + 99) / 100 == if y % 100 == 0 { 1int } else { 0int });
    assert((y + 400) / 400 - (y + 399) / 400 == if y % 400 == 0 { 1int } else { 0int });
}

/// Days of later years come after days of earlier years.
pub proof fn lemma_day_number_order(y1: int, o1: int, y2: int, o2: int)
    requires
        is_ordinal_date(y1, o1),
        is_ordinal_date(y2, o2),
        y1 < y2,
    ensures
        day_number(y1, o1) < day_number(y2, o2),
    decreases y2 - y1,
{
    lemma_year_step(y1);
    if y1 + 1 < y2 {
        lemma_day_number_order(y1 + 1, 1, y2, o2);
    }
}

/// A date as the year and the day of that year, packed so that the integer
/// order is the chronological order.
#[derive(Clone, Copy, Debug, PartialEq, Eq, Structural, PartialOrd, Ord, Hash)]
pub struct CalendarDate(pub u32);

impl CalendarDate {
    pub open spec fn year_spec(self) -> int {
        (self.0 >> 9u32) as int
    }

    pub open spec fn ordinal_spec(self) -> int {
        (self.0 & 0x1FFu32) as int
    }

    pub open spec fn packed_spec(self) -> u32 {
        self.0
    }

    /// The date names a real day of the calendar.
    pub open spec fn wf(self) -> bool {
        is_ordinal_date(self.year_spec(), self.ordinal_spec())
    }

    pub open spec fn day_number_spec(self) -> int {
        day_number(self.year_spec(), self.ordinal_spec())
    }

    /// Packs a year and a day of that year.
    pub fn from_year_ordinal(year: u32, ordinal: u16) -> (r: CalendarDate)
        requires
            year < YEAR_LIMIT,
            1 <= ordinal <= 366,
        ensures
            r.year_spec() == year,
            r.ordinal_spec() == ordinal,
            r.packed_spec() == (year * 512 + ordinal) as u32,
    {
        proof {
            lemma_pack_unpack(year, ordinal as u32);
        }
        CalendarDate(year << 9u32 | ordinal as u32)
    }

    pub fn year(&self) -> (r: u32)
        ensures
            r == self.year_spec(),
    {
        self.0 >> 9u32
    }

    pub fn ordinal(&self) -> (r: u16)
        ensures
            r == self.ordinal_spec(),
    {
        proof {
            let v = self.0;
            assert(v & 0x1FFu32 < 512u32) by (bit_vector);
        }
        (self.0 & 0x1FFu32) as u16
    }

    pub fn packed(&self) -> (r: u32)
        ensures
            r == self.packed_spec(),
    {
        self.0
    }

    /// The day number of a date no later than year 9999.
    pub fn day_number(&self) -> (r: u64)
        requires
            self.year_spec() <= 9999,
        ensures
            r == self.day_number_spec(),
            r <= 4000000,
    {
        let y = self.year() as u64;
        let o = self.ordinal() as u64;
        365 * y + (y + 3) / 4 - (y + 99) / 100 + (y + 399) / 400 + o
    }

    /// Whether the date names a real day.
    pub fn is_valid(&self) -> (r: bool)
        ensures
            r == self.wf(),
    {
        let y = self.year();
        let o = self.ordinal() as u32;
        let leap = y % 4 == 0 && (y % 100 != 0 || y % 400 == 0);
        let days: u32 = if leap {
            366
        } else {
            365
        };
        1 <= o && o <= days
    }

    /// The date `days` days earlier, or `None` for a date that names no day,
    /// lies after year 9999, or would move before year 0.
    pub fn checked_sub(self, days: u32) -> (r: Option<CalendarDate>)
        ensures
            r is Some <==> (self.wf() && self.year_spec() <= 9999 && self.day_number_spec() - days >= 1),
            r matches Some(d) ==> d.wf() && d.day_number_spec() == self.day_number_spec() - days,
    {
        if !self.is_valid() || self.year() > 9999 {
            return None;
        }
        if self.day_number() < days as u64 + 1 {
            return None;
        }
        Some(self.sub(days))
    }

    /// The date `days` days earlier, by calendar arithmetic.
    pub fn sub(self, days: u32) -> (r: CalendarDate)
        requires
            self.wf(),
            self.year_spec() <= 9999,
            self.day_number_spec() - days >= 1,
        ensures
            r.wf(),
            r.day_number_spec() == self.day_number_spec() - days,
    {
        let year = self.year();
        let ordinal = self.ordinal();
        let moved = ordinal_date_minus_days(year as i32, ordinal, days);
        match moved {
            Some((y, o)) => {
                proof {
                    lemma_non_negative_year(y as int, o as int);
                    if y > year {
                        lemma_day_number_order(year as int, ordinal as int, y as int, o as int);
                    }
                }
                CalendarDate::from_year_ordinal(y as u32, o)
            },
            None => {
                proof {
                    assert(false);
                }
                self
            },
        }
    }
}

proof fn lemma_pack_unpack(year: u32, ordinal: u32)
    requires
        year < 4194304,
        1 <= ordinal <= 366,
    ensures
        (year << 9u32 | ordinal) >> 9u32 == year,
        (year << 9u32 | ordinal) & 0x1FFu32 == ordinal,
        (year << 9u32 | ordinal) == year * 512 + ordinal,
{
    assert((year << 9u32 | ordinal) >> 9u32 == year) by (bit_vector)
        requires
            year < 4194304u32,
            ordinal <= 366u32,
    ;
    assert((year << 9u32 | ordinal) & 0x1FFu32 == ordinal) by (bit_vector)
        requires
            year < 4194304u32,
            ordinal <= 366u32,
    ;
    assert((year << 9u32 | ordinal) == year * 512 + ordinal) by (bit_vector)
        requires
            year < 4194304u32,
            ordinal <= 366u32,
    ;
}

proof fn lemma_non_negative_year(y: int, o: int)
    requires
        is_ordinal_date(y, o),
        day_number(y, o) >= 1,
    ensures
        y >= 0,
{
    if y < 0 {
        lemma_year_step(y);
        if y < -1 {
            lemma_day_number_order(y, o, -1, 1);
        }
    }
}

/// Decoding the encoding of a valid year and day of year gives them back.
pub proof fn lemma_calendar_date_round_trip(year: u32, ordinal: u16)
    requires
        year < YEAR_LIMIT,
        1 <= ordinal <= 366,
    ensures
        ({
            let d = CalendarDate((year << 9u32 | ordinal as u32));
            d.year_spec() == year && d.ordinal_spec() == ordinal
        }),
{
    lemma_pack_unpack(year, ordinal as u32);
}

proof fn lemma_month_ordinal(y: int, m: int, d: int)
    requires
        is_calendar_date(y, m, d),
    ensures
        is_ordinal_date(y, days_before_month(y, m) + d),
{
    reveal_with_fuel(days_before_month, 12);
}

/// The year, month and day fields of `YYYY-MM-DD` text: the first three
/// `-`-separated fields, read as decimals of `i32`, `u8` and `u8`.
pub open spec fn iso_date_fields(s: Seq<char>) -> Option<(int, int, int)> {
    let a = next_index_of(s, '-', 0);
    let b = next_index_of(s, '-', a + 1);
    let c = next_index_of(s, '-', b + 1);
    if a >= s.len() || b >= s.len() {
        None
    } else {
        match (
            parse_digits(s.subrange(0, a), 2147483647),
            parse_digits(s.subrange(a + 1, b), 255),
            parse_digits(s.subrange(b + 1, c), 255),
        ) {
            (Some(y), Some(m), Some(d)) => Some((y, m, d)),
            _ => None,
        }
    }
}

proof fn lemma_next_index_bounds(s: Seq<char>, c: char, from: int)
    requires
        0 <= from,
    ensures
        from <= next_index_of(s, c, from) <= s.len() || (from > s.len() && next_index_of(s, c, from) == s.len()),
    decreases s.len() - from,
{
    if from < s.len() && s[from] != c {
        lemma_next_index_bounds(s, c, from + 1);
    }
}

/// The date that ISO-8601 text names, for years up to 9999.
pub open spec fn iso_date(text: Seq<char>) -> Option<CalendarDate> {
    match iso_date_fields(text) {
        Some((y, m, d)) => if y <= 9999 && is_calendar_date(y, m, d) {
            Some(CalendarDate((y * 512 + days_before_month(y, m) + d) as u32))
        } else {
            None
        },
        None => None,
    }
}

/// Reads an ISO-8601 calendar date (`2024-01-10`).
///
/// Gives `None` where the fields are missing or not decimals, or name no day
/// of the calendar, or a year after 9999.
pub fn parse_iso_date(text: &str) -> (r: Option<CalendarDate>)
    ensures
        r == iso_date(text@),
        r matches Some(date) ==> iso_date_fields(text@) matches Some((y, m, d)) && is_calendar_date(
            y,
            m,
            d,
        ) && date.wf() && date.year_spec() == y && date.ordinal_spec() == days_before_month(y, m)
            + d,
{
    let s = chars_of(text);
    let a = find_char(&s, '-', 0);
    if a >= s.len() {
        return None;
    }
    let b = find_char(&s, '-', a + 1);
    if b >= s.len() {
        return None;
    }
    let c = find_char(&s, '-', b + 1);
    proof {
        lemma_next_index_bounds(s@, '-', 0);
        lemma_next_index_bounds(s@, '-', a + 1);
        lemma_next_index_bounds(s@, '-', b + 1);
    }
    let year = parse_digit_field(&s, 0, a, 2147483647);
    let month = parse_digit_field(&s, a + 1, b, 255);
    let day = parse_digit_field(&s, b + 1, c, 255);
    match (year, month, day) {
        (Some(y), Some(m), Some(d)) => {
            if y > 9999 {
                return None;
            }
            match ordinal_of_calendar_date(y as i32, m as u8, d as u8) {
                Some(o) => {
                    proof {
                        lemma_month_ordinal(y as int, m as int, d as int);
                    }
                    Some(CalendarDate::from_year_ordinal(y as u32, o))
                },
                None => None,
            }
        },
        _ => None,
    }
}

/// Relies on `time::Date::from_ordinal_date` and `time::Date::checked_sub`:
/// the proleptic Gregorian date `days` days before the given one.
#[verifier::external_body]
fn ordinal_date_minus_days(year: i32, ordinal: u16, days: u32) -> (r: Option<(i32, u16)>)
    ensures
        0 <= year <= 9999 && is_ordinal_date(year as int, ordinal as int) && day_number(
            year as int,
            ordinal as int,
        ) - days >= 1 ==> r.is_some(),
        r matches Some((y, o)) ==> is_ordinal_date(y as int, o as int) && day_number(
            y as int,
            o as int,
        ) == day_number(year as int, ordinal as int) - days,
{
    let date = time::Date::from_ordinal_date(year, ordinal).ok()?;
    let earlier = date.checked_sub(time::Duration::days(days as i64))?;
    Some((earlier.year(), earlier.ordinal()))
}

/// Relies on `time::Month::try_from` and `time::Date::from_calendar_date`:
/// a valid calendar date, as the day of its year.
#[verifier::external_body]
fn ordinal_of_calendar_date(year: i32, month: u8, day: u8) -> (r: Option<u16>)
    ensures
        -9999 <= year <= 9999 ==> (r.is_some() <==> is_calendar_date(
            year as int,
            month as int,
            day as int,
        )),
        r matches Some(o) ==> is_calendar_date(year as int, month as int, day as int) && o
            == days_before_month(year as int, month as int) + day,
{
    let month = time::Month::try_from(month).ok()?;
    time::Date::from_calendar_date(year, month, day).ok().map(|d| d.ordinal())
}

} // verus!
