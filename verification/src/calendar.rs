//! Calendar facts for a date given as `YYYY-MM-DD` text: week number,
//! weekday, ordinal day, remaining days, days to the next lunar new year
//! (from a bounded table), and days to the next trading day.

use vstd::prelude::*;
use crate::dates::{
    Date,
    day_index,
    days_before_month,
    lemma_days_before_month_bounds,
    rata_index,
    spec_date_from_str,
    spec_day_of_week,
    spec_days_in_year,
    valid_ymd,
};
use crate::strutil::{dec_str, dec_string};
use crate::trading::{spec_is_trading_day, trading_at};

verus! {

/// Week number of `y`-`m`-`d` within its year: week 1 is the opening
/// stretch up to the year's first Sunday; days in the closing stretch that
/// share a week with the next year's January 1 already count as week 1.
pub open spec fn spec_week_number(y: int, m: int, d: int) -> int {
    let wd1 = spec_day_of_week(y, 1, 1);
    let wd_next = spec_day_of_week(y + 1, 1, 1);
    let days = days_before_month(y, m) + d;
    let remaining = spec_days_in_year(y) - days + 1;
    if wd_next > remaining {
        1
    } else {
        let first_weekend = if wd1 == 6 {
            1int
        } else {
            7 - wd1
        };
        if days <= first_weekend {
            1
        } else {
            let after = days - first_weekend;
            if wd1 == 0 {
                (days - 1) / 7 + 1
            } else if after % 7 == 0 {
                if wd1 > 3 {
                    after / 7
                } else {
                    after / 7 + 1
                }
            } else {
                if wd1 > 3 {
                    after / 7 + 1
                } else {
                    after / 7 + 2
                }
            }
        }
    }
}

pub struct WeekCalculator;

impl WeekCalculator {
    /// Week number of the date within its year, as `spec_week_number`
    /// states it.
    pub fn calculate_week_number(date: &Date) -> (r: u32)
        requires
            date.is_valid(),
            date.y() >= 0,
        ensures
            r == spec_week_number(date.y(), date.m(), date.d()),
    {
        let y = date.year();
        let first_day_week = crate::dates::weekday_of(y as u64, 1, 1);
        let first_day_next_week = crate::dates::weekday_of(y as u64 + 1, 1, 1);
        let days = date.days_from_year_start();
        proof {
            lemma_days_before_month_bounds(date.y(), date.m() + 1);
        }
        let total_days = date.days_in_year();
        let remaining_days = total_days - days + 1;
        if first_day_next_week as u32 > remaining_days {
            return 1;
        }
        let first_weekend: u32 = if first_day_week == 6 {
            1
        } else {
            7 - first_day_week as u32
        };
        if days <= first_weekend {
            return 1;
        }
        let days_after_first_week = days - first_weekend;
        if first_day_week == 0 {
            return (days - 1) / 7 + 1;
        }
        if days_after_first_week % 7 == 0 {
            if first_day_week > 3 {
                days_after_first_week / 7
            } else {
                days_after_first_week / 7 + 1
            }
        } else {
            if first_day_week > 3 {
                days_after_first_week / 7 + 1
            } else {
                days_after_first_week / 7 + 2
            }
        }
    }
}

/// The bounded table of known lunar-new-year dates, one per Gregorian year
/// in its coverage range.
pub open spec fn lunar_table() -> Seq<(u32, u32, u32)> {
    seq![
        (2015u32, 2u32, 19u32),
        (2016u32, 2u32, 8u32),
        (2017u32, 1u32, 28u32),
        (2018u32, 2u32, 16u32),
        (2019u32, 2u32, 5u32),
        (2020u32, 1u32, 25u32),
        (2021u32, 2u32, 12u32),
        (2022u32, 2u32, 1u32),
        (2023u32, 1u32, 22u32),
        (2024u32, 2u32, 10u32),
        (2025u32, 1u32, 29u32),
        (2026u32, 2u32, 17u32),
        (2027u32, 2u32, 6u32),
        (2028u32, 1u32, 26u32),
        (2029u32, 2u32, 13u32),
        (2030u32, 2u32, 3u32),
        (2031u32, 1u32, 23u32),
        (2032u32, 2u32, 11u32),
        (2033u32, 1u32, 31u32),
        (2034u32, 2u32, 19u32),
    ]
}

/// Day index of a table entry.
pub open spec fn lny_index(e: (u32, u32, u32)) -> int {
    day_index(e.0 as int, e.1 as int, e.2 as int)
}

/// Position of the first table entry on or after day index `idx`, searching
/// from position `i`; the table length if there is none.
pub open spec fn first_lny_on_or_after(i: int, idx: int) -> int
    decreases lunar_table().len() - i,
        when 0 <= i <= lunar_table().len()
{
    if i >= lunar_table().len() {
        i
    } else if lny_index(lunar_table()[i]) >= idx {
        i
    } else {
        first_lny_on_or_after(i + 1, idx)
    }
}

/// Days from `y`-`m`-`d` to the next lunar new year: defined only inside
/// the table's coverage (not before its first year, not after its last
/// entry).
pub open spec fn spec_days_until_lny(y: int, m: int, d: int) -> Option<int> {
    let idx = day_index(y, m, d);
    let p = first_lny_on_or_after(0, idx);
    if y < 2015 || p >= lunar_table().len() {
        None
    } else {
        Some(lny_index(lunar_table()[p]) - idx)
    }
}

proof fn lemma_first_lny_skip(j: int, idx: int)
    requires
        0 <= j <= lunar_table().len(),
        forall|k: int| 0 <= k < j ==> lny_index(#[trigger] lunar_table()[k]) < idx,
    ensures
        first_lny_on_or_after(0, idx) == first_lny_on_or_after(j, idx),
    decreases j,
{
    if j > 0 {
        lemma_first_lny_skip(j - 1, idx);
    }
}

/// The table entry at position `i`.
fn lunar_entry(i: usize) -> (e: (u32, u32, u32))
    requires
        i < 20,
    ensures
        e == lunar_table()[i as int],
        1 <= e.1 <= 12 && 1 <= e.2 <= 31 && 2015 <= e.0 <= 2034,
{
    match i {
        0 => (2015, 2, 19),
        1 => (2016, 2, 8),
        2 => (2017, 1, 28),
        3 => (2018, 2, 16),
        4 => (2019, 2, 5),
        5 => (2020, 1, 25),
        6 => (2021, 2, 12),
        7 => (2022, 2, 1),
        8 => (2023, 1, 22),
        9 => (2024, 2, 10),
        10 => (2025, 1, 29),
        11 => (2026, 2, 17),
        12 => (2027, 2, 6),
        13 => (2028, 1, 26),
        14 => (2029, 2, 13),
        15 => (2030, 2, 3),
        16 => (2031, 1, 23),
        17 => (2032, 2, 11),
        18 => (2033, 1, 31),
        _ => (2034, 2, 19),
    }
}

/// Lookup of lunar-new-year distances from the bounded table.
pub struct LunarCalendar {}

impl LunarCalendar {
    pub fn new() -> LunarCalendar {
        LunarCalendar {  }
    }

    /// Days from `date` to the next lunar new year, or `None` when the date
    /// lies outside the table's coverage.
    pub fn days_until_lunar_new_year(&self, date: &Date) -> (r: Option<u32>)
        requires
            date.is_valid(),
            date.y() >= 0,
        ensures
            match r {
                Some(n) => spec_days_until_lny(date.y(), date.m(), date.d()) == Some(n as int),
                None => spec_days_until_lny(date.y(), date.m(), date.d()) is None,
            },
    {
        if date.year() < 2015 {
            return None;
        }
        let idx = rata_index(date.year() as u64, date.month(), date.day());
        let mut i: usize = 0;
        while i < 20
            invariant
                0 <= i <= 20,
                idx == day_index(date.y(), date.m(), date.d()),
                idx <= 0x1000_0000_0000,
                date.y() >= 2015,
                forall|k: int| 0 <= k < i ==> lny_index(#[trigger] lunar_table()[k]) < idx,
            decreases 20 - i,
        {
            let e = lunar_entry(i);
            let eidx = rata_index(e.0 as u64, e.1, e.2);
            if eidx >= idx {
                proof {
                    lemma_first_lny_skip(i as int, idx as int);
                }
                let n = eidx - idx;
                assert(n <= 0xFFFF_FFFF) by {
                    lemma_days_before_month_bounds(e.0 as int, e.1 as int);
                    assert((e.0 as int + 3) / 4 <= e.0 as int + 3);
                    assert((e.0 as int + 399) / 400 <= e.0 as int + 399);
                    assert((e.0 as int + 99) / 100 >= 0);
                };
                return Some(n as u32);
            }
            i = i + 1;
        }
        proof {
            lemma_first_lny_skip(20, idx as int);
        }
        None
    }
}

/// First positive offset at most 12 whose day trades, or 13 if none.
pub open spec fn first_trading_offset(y: int, m: int, d: int, k: int) -> int
    decreases 13 - k,
        when 1 <= k
{
    if k > 12 {
        13
    } else if trading_at(y, m, d, k) {
        k
    } else {
        first_trading_offset(y, m, d, k + 1)
    }
}

/// Days until the next trading day: 0 on a trading day, else the least
/// positive day offset whose day trades.
pub open spec fn spec_days_to_trading(y: int, m: int, d: int) -> int {
    if spec_is_trading_day(y, m, d) {
        0
    } else {
        first_trading_offset(y, m, d, 1)
    }
}

proof fn lemma_first_trading_skip(y: int, m: int, d: int, j: int)
    requires
        1 <= j <= 13,
        forall|k: int| 1 <= k < j ==> !trading_at(y, m, d, k),
    ensures
        first_trading_offset(y, m, d, 1) == first_trading_offset(y, m, d, j),
    decreases j,
{
    if j > 1 {
        lemma_first_trading_skip(y, m, d, j - 1);
    }
}

/// The text the calendar engine reports for input `s`: a comma-joined
/// record of week number, weekday, ordinal day, remaining days, lunar
/// new-year distance (or its unsupported marker), and days to the next
/// trading day; or the invalid marker when `s` is not a valid date.
pub open spec fn spec_time_info(s: Seq<char>) -> Seq<char> {
    match spec_date_from_str(s) {
        None => "Invalid date"@,
        Some(ymd) => {
            let y = ymd.0;
            let m = ymd.1;
            let d = ymd.2;
            let lunar_text = match spec_days_until_lny(y, m, d) {
                Some(n) => dec_str(n),
                None => "Unsupported date"@,
            };
            dec_str(spec_week_number(y, m, d)) + ","@ + dec_str(spec_day_of_week(y, m, d)) + ","@
                + dec_str(days_before_month(y, m) + d) + ","@ + dec_str(
                spec_days_in_year(y) - (days_before_month(y, m) + d),
            ) + ","@ + lunar_text + ","@ + dec_str(spec_days_to_trading(y, m, d))
        },
    }
}

/// Calendar facts for `time_str`, as `spec_time_info` states them.
pub fn time_info(time_str: &str) -> (r: String)
    ensures
        r@ == spec_time_info(time_str@),
{
    let date = match Date::from_str(time_str) {
        Some(date) => date,
        None => {
            return String::from_str("Invalid date");
        },
    };
    let ghost y = date.y();
    let ghost m = date.m();
    let ghost d = date.d();

    let week_num = WeekCalculator::calculate_week_number(&date);
    let weekday = date.day_of_week();
    let day_of_year = date.day_of_year();
    proof {
        lemma_days_before_month_bounds(y, m + 1);
    }
    let remaining_days = date.days_in_year() - date.days_from_year_start();

    let lunar_calendar = LunarCalendar::new();
    let days_to_new_year: String = match lunar_calendar.days_until_lunar_new_year(&date) {
        Some(days) => dec_string(days),
        None => String::from_str("Unsupported date"),
    };

    let days_to_trading: u32 = if date.is_trading_day() {
        0
    } else {
        let steps = date.days_until_next_trading_day();
        proof {
            lemma_first_trading_skip(y, m, d, steps as int);
        }
        steps
    };

    let mut out = dec_string(week_num);
    out.append(",");
    out.append(dec_string(weekday as u32).as_str());
    out.append(",");
    out.append(dec_string(day_of_year).as_str());
    out.append(",");
    out.append(dec_string(remaining_days).as_str());
    out.append(",");
    out.append(days_to_new_year.as_str());
    out.append(",");
    out.append(dec_string(days_to_trading).as_str());
    assert(out@ =~= spec_time_info(time_str@));
    out
}

} // verus!
