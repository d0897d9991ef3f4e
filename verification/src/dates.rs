//! A calendar-valid Gregorian date type: leap years, month lengths, a
//! day index counted from 0000-01-01 (proleptic), weekday, ordinal day of
//! year, and parsing of `YYYY-MM-DD` text.

use vstd::prelude::*;
use crate::strutil::{parse_uint, parse_uint_bounded, chars_of};

verus! {

/// The Gregorian leap-year rule.
pub open spec fn spec_is_leap_year(y: int) -> bool {
    y % 4 == 0 && (y % 100 != 0 || y % 400 == 0)
}

/// Length of month `m` of year `y` in days; 0 for a month outside 1..=12.
pub open spec fn spec_days_in_month(y: int, m: int) -> int {
    if m == 1 || m == 3 || m == 5 || m == 7 || m == 8 || m == 10 || m == 12 {
        31
    } else if m == 4 || m == 6 || m == 9 || m == 11 {
        30
    } else if m == 2 {
        if spec_is_leap_year(y) {
            29
        } else {
            28
        }
    } else {
        0
    }
}

/// Days of year `y` that lie before month `m`.
pub open spec fn days_before_month(y: int, m: int) -> int
    decreases m,
        when 1 <= m
{
    if m <= 1 {
        0
    } else {
        days_before_month(y, m - 1) + spec_days_in_month(y, m - 1)
    }
}

/// Number of leap years among the years 0, 1, ..., y - 1.
pub open spec fn leap_years_before(y: int) -> int
    recommends
        y >= 0,
{
    (y + 3) / 4 - (y + 99) / 100 + (y + 399) / 400
}

/// Days before January 1 of year `y`, counted from 0000-01-01.
pub open spec fn days_before_year(y: int) -> int {
    365 * y + leap_years_before(y)
}

/// Index of the day `y`-`m`-`d` counted from 0000-01-01 (which has index 0).
pub open spec fn day_index(y: int, m: int, d: int) -> int {
    days_before_year(y) + days_before_month(y, m) + d - 1
}

/// Weekday of `y`-`m`-`d` with Monday = 0, ..., Saturday = 5, Sunday = 6.
pub open spec fn spec_day_of_week(y: int, m: int, d: int) -> int {
    (day_index(y, m, d) + 5) % 7
}

/// A month/day pair is a real calendar date of year `y`.
pub open spec fn valid_ymd(y: int, m: int, d: int) -> bool {
    1 <= m <= 12 && 1 <= d <= spec_days_in_month(y, m)
}

/// Days in year `y`: 366 for leap years, 365 otherwise.
pub open spec fn spec_days_in_year(y: int) -> int {
    if spec_is_leap_year(y) {
        366
    } else {
        365
    }
}

/// The whole year is the sum of its twelve months.
pub proof fn lemma_months_fill_year(y: int)
    ensures
        days_before_month(y, 13) == spec_days_in_year(y),
{
    reveal_with_fuel(days_before_month, 14);
}

/// Stepping from year `y` to year `y + 1` advances the day count by the
/// length of year `y`.
pub proof fn lemma_days_before_year_succ(y: int)
    requires
        y >= 0,
    ensures
        days_before_year(y + 1) == days_before_year(y) + spec_days_in_year(y),
{
    assert((y + 4) / 4 == (y + 3) / 4 + (if y % 4 == 0 { 1int } else { 0 }));
    assert((y + 100) / 100 == (y + 99) / 100 + (if y % 100 == 0 { 1int } else { 0 }));
    assert((y + 400) / 400 == (y + 399) / 400 + (if y % 400 == 0 { 1int } else { 0 }));
    assert(y % 100 == 0 ==> y % 4 == 0) by {
        if y % 100 == 0 {
            let q = y / 100;
            assert(y == 100 * q);
            assert(100 * q % 4 == 0) by (nonlinear_arith);
        }
    }
    assert(y % 400 == 0 ==> y % 100 == 0) by {
        if y % 400 == 0 {
            let q = y / 400;
            assert(y == 400 * q);
            assert(400 * q % 100 == 0) by (nonlinear_arith);
        }
    }
}

proof fn lemma_dbm_nonneg(y: int, m: int)
    requires
        1 <= m <= 13,
    ensures
        0 <= days_before_month(y, m),
    decreases m,
{
    if m > 1 {
        lemma_dbm_nonneg(y, m - 1);
    }
}

proof fn lemma_dbm_le_year(y: int, m: int)
    requires
        1 <= m <= 13,
    ensures
        days_before_month(y, m) <= days_before_month(y, 13),
    decreases 13 - m,
{
    if m < 13 {
        assert(days_before_month(y, m + 1) == days_before_month(y, m) + spec_days_in_month(y, m));
        lemma_dbm_le_year(y, m + 1);
    }
}

/// Days before any month of the year stay within the year's length.
pub proof fn lemma_days_before_month_bounds(y: int, m: int)
    requires
        1 <= m <= 13,
    ensures
        0 <= days_before_month(y, m) <= spec_days_in_year(y),
{
    lemma_dbm_nonneg(y, m);
    lemma_dbm_le_year(y, m);
    lemma_months_fill_year(y);
}

/// A calendar-valid Gregorian date.
#[derive(Clone, Copy, Debug)]
pub struct Date {
    year: i32,
    month: u32,
    day: u32,
}

/// The position of a date string's fields, as `str::split('-')` sees them:
/// exactly three `-`-separated parts, each an unsigned number in range, and
/// the whole a valid calendar date.
pub open spec fn spec_date_from_str(s: Seq<char>) -> Option<(int, int, int)> {
    let i1 = find_char(s, '-');
    if i1 >= s.len() {
        None
    } else {
        let s2 = s.subrange(i1 + 1, s.len() as int);
        let i2 = find_char(s2, '-');
        if i2 >= s2.len() {
            None
        } else {
            let s3 = s2.subrange(i2 + 1, s2.len() as int);
            if find_char(s3, '-') < s3.len() {
                None
            } else {
                match (parse_uint(s.subrange(0, i1)), parse_uint(s2.subrange(0, i2)), parse_uint(
                    s3,
                )) {
                    (Some(y), Some(m), Some(d)) => if y <= i32::MAX && m <= u32::MAX && d
                        <= u32::MAX && valid_ymd(y, m, d) {
                        Some((y, m, d))
                    } else {
                        None
                    },
                    _ => None,
                }
            }
        }
    }
}

/// Index of the first occurrence of `c` in `s`, or `s.len()` if absent.
pub open spec fn find_char(s: Seq<char>, c: char) -> int
    decreases s.len(),
{
    if s.len() == 0 {
        0
    } else if s[0] == c {
        0
    } else {
        1 + find_char(s.drop_first(), c)
    }
}

/// `find_char` returns the position of the first occurrence.
pub proof fn lemma_find_char(s: Seq<char>, c: char, i: int)
    requires
        0 <= i <= s.len(),
        forall|j: int| 0 <= j < i ==> s[j] != c,
        i < s.len() ==> s[i] == c,
    ensures
        find_char(s, c) == if i < s.len() {
            i
        } else {
            s.len() as int
        },
    decreases s.len(),
{
    if s.len() > 0 {
        if i == 0 {
        } else {
            assert(s[0] != c);
            lemma_find_char(s.drop_first(), c, i - 1);
        }
    }
}

/// Length in days of month `m` of year `y`, over machine integers.
pub fn days_in_month_of(y: u64, m: u32) -> (r: u32)
    requires
        y <= 0x8000_0000,
    ensures
        r == spec_days_in_month(y as int, m as int),
{
    match m {
        1 | 3 | 5 | 7 | 8 | 10 | 12 => 31,
        4 | 6 | 9 | 11 => 30,
        2 => if y % 4 == 0 && (y % 100 != 0 || y % 400 == 0) {
            29
        } else {
            28
        },
        _ => 0,
    }
}

/// Index of `y`-`m`-`d` counted from 0000-01-01, over machine integers.
pub fn rata_index(y: u64, m: u32, d: u32) -> (r: u64)
    requires
        y <= 0x8000_0000,
        1 <= m <= 12,
        1 <= d <= 31,
    ensures
        r == day_index(y as int, m as int, d as int),
        r <= 0x1000_0000_0000,
{
    let q4 = (y + 3) / 4;
    let q100 = (y + 99) / 100;
    let q400 = (y + 399) / 400;
    assert(q100 <= q4);
    assert(q4 <= y + 3 && q400 <= y + 399);
    let before_year = 365 * y + q4 - q100 + q400;
    assert(before_year == days_before_year(y as int));
    let mut before_month: u64 = 0;
    let mut month: u32 = 1;
    while month < m
        invariant
            1 <= month <= m <= 12,
            y <= 0x8000_0000,
            before_month == days_before_month(y as int, month as int),
            before_month <= 366,
        decreases m - month,
    {
        proof {
            lemma_days_before_month_bounds(y as int, month as int + 1);
        }
        before_month = before_month + days_in_month_of(y, month) as u64;
        month = month + 1;
    }
    before_year + before_month + (d as u64) - 1
}

/// Weekday of `y`-`m`-`d` (Monday = 0, ..., Sunday = 6), over machine
/// integers.
pub fn weekday_of(y: u64, m: u32, d: u32) -> (r: u8)
    requires
        y <= 0x8000_0000,
        1 <= m <= 12,
        1 <= d <= 31,
    ensures
        r == spec_day_of_week(y as int, m as int, d as int),
        r < 7,
{
    let idx = rata_index(y, m, d);
    ((idx + 5) % 7) as u8
}

impl Date {
    pub closed spec fn y(self) -> int {
        self.year as int
    }

    pub closed spec fn m(self) -> int {
        self.month as int
    }

    pub closed spec fn d(self) -> int {
        self.day as int
    }

    pub open spec fn is_valid(self) -> bool {
        valid_ymd(self.y(), self.m(), self.d())
    }

    pub fn year(&self) -> (r: i32)
        ensures
            r == self.y(),
    {
        self.year
    }

    pub fn month(&self) -> (r: u32)
        ensures
            r == self.m(),
    {
        self.month
    }

    pub fn day(&self) -> (r: u32)
        ensures
            r == self.d(),
    {
        self.day
    }

    /// The Gregorian leap-year rule: divisible by 4, and not by 100 unless
    /// by 400.
    pub fn is_leap_year(year: i32) -> (r: bool)
        requires
            year >= 0,
        ensures
            r == spec_is_leap_year(year as int),
    {
        year % 4 == 0 && (year % 100 != 0 || year % 400 == 0)
    }

    /// Length in days of month `month` of year `year`; 0 outside 1..=12.
    pub fn days_in_month(year: i32, month: u32) -> (r: u32)
        requires
            year >= 0,
        ensures
            r == spec_days_in_month(year as int, month as int),
    {
        days_in_month_of(year as u64, month)
    }

    /// A date is constructed only when the month and day ranges are valid
    /// for the year, including the leap-year rule for February.
    pub fn new(year: i32, month: u32, day: u32) -> (r: Option<Date>)
        requires
            year >= 0,
        ensures
            match r {
                Some(date) => valid_ymd(year as int, month as int, day as int) && date.y()
                    == year as int && date.m() == month as int && date.d() == day as int,
                None => !valid_ymd(year as int, month as int, day as int),
            },
    {
        if month < 1 || month > 12 {
            return None;
        }
        if day < 1 || day > Self::days_in_month(year, month) {
            return None;
        }
        Some(Date { year, month, day })
    }

    /// Parses `YYYY-MM-DD` text: exactly three `-`-separated unsigned
    /// numbers that form a calendar-valid date; anything else is rejected.
    pub fn from_str(date_str: &str) -> (r: Option<Date>)
        ensures
            match r {
                Some(date) => spec_date_from_str(date_str@) == Some(
                    (date.y(), date.m(), date.d()),
                ) && date.is_valid() && date.y() >= 0,
                None => spec_date_from_str(date_str@) is None,
            },
    {
        let v = chars_of(date_str);
        let n = v.len();
        let ghost s = date_str@;

        let mut i1: usize = 0;
        while i1 < n && v[i1] != '-'
            invariant
                0 <= i1 <= n,
                n == s.len(),
                v@ == s,
                forall|j: int| 0 <= j < i1 ==> s[j] != '-',
            decreases n - i1,
        {
            i1 = i1 + 1;
        }
        proof {
            lemma_find_char(s, '-', i1 as int);
        }
        if i1 == n {
            return None;
        }
        let ghost s2 = s.subrange(i1 + 1, n as int);

        let mut i2 = i1 + 1;
        while i2 < n && v[i2] != '-'
            invariant
                i1 < i2 <= n,
                n == s.len(),
                v@ == s,
                s2 == s.subrange(i1 + 1, n as int),
                forall|j: int| i1 < j < i2 ==> s[j] != '-',
            decreases n - i2,
        {
            i2 = i2 + 1;
        }
        proof {
            assert(forall|j: int| 0 <= j < i2 - i1 - 1 ==> s2[j] != '-');
            assert(i2 < n ==> s2[i2 - i1 - 1] == '-');
            lemma_find_char(s2, '-', i2 - i1 - 1);
        }
        if i2 == n {
            return None;
        }
        let ghost s3 = s2.subrange(i2 - i1, s2.len() as int);
        assert(s3 =~= s.subrange(i2 + 1, n as int));

        let mut i3 = i2 + 1;
        while i3 < n && v[i3] != '-'
            invariant
                i2 < i3 <= n,
                n == s.len(),
                v@ == s,
                s3 == s.subrange(i2 + 1, n as int),
                forall|j: int| i2 < j < i3 ==> s[j] != '-',
            decreases n - i3,
        {
            i3 = i3 + 1;
        }
        proof {
            assert(forall|j: int| 0 <= j < i3 - i2 - 1 ==> s3[j] != '-');
            assert(i3 < n ==> s3[i3 - i2 - 1] == '-');
            lemma_find_char(s3, '-', i3 - i2 - 1);
        }
        if i3 < n {
            return None;
        }
        let year_part = parse_uint_bounded(&v, 0, i1, 0x7FFF_FFFF);
        let month_part = parse_uint_bounded(&v, i1 + 1, i2, 0xFFFF_FFFF);
        let day_part = parse_uint_bounded(&v, i2 + 1, n, 0xFFFF_FFFF);
        proof {
            assert(s.subrange(0, i1 as int) =~= v@.subrange(0, i1 as int));
            assert(s2.subrange(0, i2 - i1 - 1) =~= v@.subrange(i1 + 1, i2 as int));
            assert(s3 =~= v@.subrange(i2 + 1, n as int));
        }
        match (year_part, month_part, day_part) {
            (Some(y), Some(m), Some(d)) => {
                let r = Self::new(y as i32, m as u32, d as u32);
                proof {
                    crate::strutil::lemma_parse_uint_nonneg(s.subrange(0, i1 as int));
                    crate::strutil::lemma_parse_uint_nonneg(s2.subrange(0, i2 - i1 - 1));
                    crate::strutil::lemma_parse_uint_nonneg(s3);
                }
                r
            },
            _ => None,
        }
    }

    /// Ordinal of the date within its year: Jan 1 is day 1.
    pub fn days_from_year_start(&self) -> (r: u32)
        requires
            self.is_valid(),
            self.y() >= 0,
        ensures
            r == days_before_month(self.y(), self.m()) + self.d(),
    {
        let mut total: u32 = self.day;
        let mut month: u32 = 1;
        while month < self.month
            invariant
                1 <= month <= self.m(),
                self.is_valid(),
                self.y() >= 0,
                total == days_before_month(self.y(), month as int) + self.d(),
                total <= 366 + 31,
            decreases self.m() - month,
        {
            proof {
                lemma_days_before_month_bounds(self.y(), month as int + 1);
            }
            total = total + Self::days_in_month(self.year, month);
            month = month + 1;
        }
        total
    }

    /// Number of days in the date's year.
    pub fn days_in_year(&self) -> (r: u32)
        requires
            self.y() >= 0,
        ensures
            r == spec_days_in_year(self.y()),
    {
        if Self::is_leap_year(self.year) {
            366
        } else {
            365
        }
    }

    /// Weekday of the date, with Monday = 0, ..., Saturday = 5, Sunday = 6,
    /// over the proleptic Gregorian calendar.
    pub fn day_of_week(&self) -> (r: u8)
        requires
            self.is_valid(),
            self.y() >= 0,
        ensures
            r == spec_day_of_week(self.y(), self.m(), self.d()),
            r < 7,
    {
        weekday_of(self.year as u64, self.month, self.day)
    }

    /// Ordinal day of the year: Jan 1 is 1, Dec 31 is 365 or 366.
    pub fn day_of_year(&self) -> (r: u32)
        requires
            self.is_valid(),
            self.y() >= 0,
        ensures
            r == days_before_month(self.y(), self.m()) + self.d(),
    {
        self.days_from_year_start()
    }
}

} // verus!
