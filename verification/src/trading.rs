//! Market trading-day classification: weekends and a fixed annual holiday
//! table are non-trading, and from every date a trading day is reachable
//! within twelve days, which bounds the forward walk.

use vstd::prelude::*;
use crate::dates::{
    Date,
    day_index,
    days_before_month,
    days_in_month_of,
    lemma_days_before_month_bounds,
    lemma_days_before_year_succ,
    lemma_months_fill_year,
    spec_day_of_week,
    spec_days_in_month,
    valid_ymd,
    weekday_of,
};

verus! {

/// The fixed annual market-holiday table: New Year's Day, a seven-day
/// spring window, and five other fixed dates.
pub open spec fn is_holiday(m: int, d: int) -> bool {
    ||| (m == 1 && d == 1)
    ||| (m == 1 && 21 <= d <= 27)
    ||| (m == 4 && d == 5)
    ||| (m == 5 && d == 1)
    ||| (m == 6 && d == 22)
    ||| (m == 9 && d == 29)
    ||| (m == 10 && 1 <= d <= 7)
}

/// A day trades exactly when it is neither a weekend day (Saturday or
/// Sunday) nor a fixed holiday.
pub open spec fn spec_is_trading_day(y: int, m: int, d: int) -> bool {
    &&& spec_day_of_week(y, m, d) != 5
    &&& spec_day_of_week(y, m, d) != 6
    &&& !is_holiday(m, d)
}

/// The calendar day after `y`-`m`-`d`.
pub open spec fn next_ymd(y: int, m: int, d: int) -> (int, int, int) {
    if d < spec_days_in_month(y, m) {
        (y, m, d + 1)
    } else if m < 12 {
        (y, m + 1, 1)
    } else {
        (y + 1, 1, 1)
    }
}

/// The date `k` calendar days after `y`-`m`-`d`.
pub open spec fn advance_from(y: int, m: int, d: int, k: int) -> (int, int, int)
    decreases k,
        when k >= 0
{
    if k <= 0 {
        (y, m, d)
    } else {
        let p = advance_from(y, m, d, k - 1);
        next_ymd(p.0, p.1, p.2)
    }
}

/// The day `k` days after `y`-`m`-`d` is a trading day.
pub open spec fn trading_at(y: int, m: int, d: int, k: int) -> bool {
    let p = advance_from(y, m, d, k);
    spec_is_trading_day(p.0, p.1, p.2)
}

/// Stepping one day forward keeps the date valid and advances the day
/// index by exactly one.
pub proof fn lemma_next_props(y: int, m: int, d: int)
    requires
        valid_ymd(y, m, d),
        y >= 0,
    ensures
        ({
            let p = next_ymd(y, m, d);
            &&& valid_ymd(p.0, p.1, p.2)
            &&& y <= p.0 <= y + 1
            &&& day_index(p.0, p.1, p.2) == day_index(y, m, d) + 1
        }),
{
    let p = next_ymd(y, m, d);
    if d < spec_days_in_month(y, m) {
    } else if m < 12 {
        assert(days_before_month(y, m + 1) == days_before_month(y, m) + spec_days_in_month(y, m));
    } else {
        lemma_days_before_year_succ(y);
        lemma_months_fill_year(y);
        assert(days_before_month(y, 13) == days_before_month(y, 12) + spec_days_in_month(y, 12));
    }
}

/// Advancing up to twelve days keeps the date valid, adds the day count to
/// the day index, and enters at most the next year, within its January.
pub proof fn lemma_advance_props(y: int, m: int, d: int, k: int)
    requires
        valid_ymd(y, m, d),
        y >= 0,
        0 <= k <= 12,
    ensures
        ({
            let p = advance_from(y, m, d, k);
            &&& valid_ymd(p.0, p.1, p.2)
            &&& y <= p.0 <= y + 1
            &&& day_index(p.0, p.1, p.2) == day_index(y, m, d) + k
            &&& (p.0 == y + 1 ==> p.1 == 1 && p.2 <= k)
        }),
    decreases k,
{
    if k > 0 {
        lemma_advance_props(y, m, d, k - 1);
        let p = advance_from(y, m, d, k - 1);
        lemma_next_props(p.0, p.1, p.2);
    }
}

proof fn lemma_mod7_same(x: int, yv: int)
    requires
        x % 7 == yv % 7,
    ensures
        (yv - x) % 7 == 0,
{
    let qx = x / 7;
    let qy = yv / 7;
    assert(x == 7 * qx + x % 7);
    assert(yv == 7 * qy + yv % 7);
    assert(yv - x == 7 * (qy - qx));
    assert(7 * (qy - qx) % 7 == 0) by (nonlinear_arith);
}

/// Three offsets with pairwise distinct weekday residues cannot all land on
/// a weekend; if none of them lands on a holiday either, one of them is a
/// trading day.
proof fn lemma_trading_among(y: int, m: int, d: int, a: int, b: int, c: int)
    requires
        valid_ymd(y, m, d),
        y >= 0,
        1 <= a < b < c <= 12,
        (b - a) % 7 != 0,
        (c - a) % 7 != 0,
        (c - b) % 7 != 0,
        !is_holiday(advance_from(y, m, d, a).1, advance_from(y, m, d, a).2),
        !is_holiday(advance_from(y, m, d, b).1, advance_from(y, m, d, b).2),
        !is_holiday(advance_from(y, m, d, c).1, advance_from(y, m, d, c).2),
    ensures
        exists|k: int| 1 <= k <= 12 && trading_at(y, m, d, k),
{
    lemma_advance_props(y, m, d, a);
    lemma_advance_props(y, m, d, b);
    lemma_advance_props(y, m, d, c);
    let i = day_index(y, m, d) + 5;
    let pa = advance_from(y, m, d, a);
    let pb = advance_from(y, m, d, b);
    let pc = advance_from(y, m, d, c);
    assert(spec_day_of_week(pa.0, pa.1, pa.2) == (i + a) % 7);
    assert(spec_day_of_week(pb.0, pb.1, pb.2) == (i + b) % 7);
    assert(spec_day_of_week(pc.0, pc.1, pc.2) == (i + c) % 7);
    let wa = (i + a) % 7;
    let wb = (i + b) % 7;
    let wc = (i + c) % 7;
    if wa != 5 && wa != 6 {
        assert(trading_at(y, m, d, a));
    } else if wb != 5 && wb != 6 {
        assert(trading_at(y, m, d, b));
    } else if wc != 5 && wc != 6 {
        assert(trading_at(y, m, d, c));
    } else {
        if wa == wb {
            lemma_mod7_same(i + a, i + b);
        } else if wa == wc {
            lemma_mod7_same(i + a, i + c);
        } else {
            assert(wb == wc);
            lemma_mod7_same(i + b, i + c);
        }
        assert(false);
    }
}

/// Where one day lands after advancing at most twelve days: in the same
/// month, in the next month, or in January of the next year.
proof fn lemma_advance_formula(y: int, m: int, d: int, k: int)
    requires
        valid_ymd(y, m, d),
        y >= 0,
        0 <= k <= 12,
    ensures
        advance_from(y, m, d, k) == (if d + k <= spec_days_in_month(y, m) {
            (y, m, d + k)
        } else if m < 12 {
            (y, m + 1, d + k - spec_days_in_month(y, m))
        } else {
            (y + 1, 1, d + k - 31)
        }),
    decreases k,
{
    if k > 0 {
        lemma_advance_formula(y, m, d, k - 1);
    }
}

/// From every valid date, some day among the next twelve is a trading day:
/// the holiday table never yields more than seven holidays in a row, and
/// twelve consecutive days cannot be covered by holidays and weekends.
pub proof fn lemma_trading_within_12(y: int, m: int, d: int)
    requires
        valid_ymd(y, m, d),
        y >= 0,
    ensures
        exists|k: int| 1 <= k <= 12 && trading_at(y, m, d, k),
{
    let (a, b, c): (int, int, int) = if m == 1 {
        if d <= 17 {
            (1, 2, 3)
        } else if d <= 27 {
            (28 - d, 29 - d, 30 - d)
        } else {
            (1, 2, 3)
        }
    } else if m == 4 {
        if d <= 1 {
            (1, 2, 3)
        } else if d <= 4 {
            (6 - d, 7 - d, 8 - d)
        } else if d <= 27 {
            (1, 2, 3)
        } else {
            (32 - d, 33 - d, 34 - d)
        }
    } else if m == 6 {
        if d <= 18 {
            (1, 2, 3)
        } else if d <= 21 {
            (23 - d, 24 - d, 25 - d)
        } else {
            (1, 2, 3)
        }
    } else if m == 9 {
        if d <= 25 {
            (1, 2, 3)
        } else if d == 26 {
            (1, 2, 4)
        } else if d == 27 {
            (1, 3, 11)
        } else if d == 28 {
            (2, 10, 11)
        } else if d == 29 {
            (1, 9, 10)
        } else {
            (8, 9, 10)
        }
    } else if m == 10 {
        if d <= 7 {
            (8 - d, 9 - d, 10 - d)
        } else {
            (1, 2, 3)
        }
    } else if m == 12 {
        if d <= 28 {
            (1, 2, 3)
        } else if d == 29 {
            (1, 2, 4)
        } else if d == 30 {
            (1, 3, 4)
        } else {
            (2, 3, 4)
        }
    } else {
        (1, 2, 3)
    };
    lemma_advance_formula(y, m, d, a);
    lemma_advance_formula(y, m, d, b);
    lemma_advance_formula(y, m, d, c);
    assert(!is_holiday(advance_from(y, m, d, a).1, advance_from(y, m, d, a).2));
    assert(!is_holiday(advance_from(y, m, d, b).1, advance_from(y, m, d, b).2));
    assert(!is_holiday(advance_from(y, m, d, c).1, advance_from(y, m, d, c).2));
    lemma_trading_among(y, m, d, a, b, c);
}

/// The fixed market-holiday table on machine integers.
pub fn is_market_holiday(m: u32, d: u32) -> (r: bool)
    ensures
        r == is_holiday(m as int, d as int),
{
    (m == 1 && d == 1) || (m == 1 && 21 <= d && d <= 27) || (m == 4 && d == 5) || (m == 5 && d
        == 1) || (m == 6 && d == 22) || (m == 9 && d == 29) || (m == 10 && 1 <= d && d <= 7)
}

impl Date {
    /// A date trades exactly when it is neither a Saturday, nor a Sunday,
    /// nor a fixed market holiday.
    pub fn is_trading_day(&self) -> (r: bool)
        requires
            self.is_valid(),
            self.y() >= 0,
        ensures
            r == spec_is_trading_day(self.y(), self.m(), self.d()),
    {
        let wd = self.day_of_week();
        if wd == 5 || wd == 6 {
            return false;
        }
        !is_market_holiday(self.month(), self.day())
    }

    /// Walks forward one calendar day at a time and returns the number of
    /// days stepped to reach the first trading day: the least positive
    /// `k` whose day trades, always between 1 and 12.
    pub fn days_until_next_trading_day(&self) -> (r: u32)
        requires
            self.is_valid(),
            self.y() >= 0,
        ensures
            1 <= r <= 12,
            trading_at(self.y(), self.m(), self.d(), r as int),
            forall|j: int| 1 <= j < r as int ==> !trading_at(self.y(), self.m(), self.d(), j),
    {
        let ghost oy = self.y();
        let ghost om = self.m();
        let ghost od = self.d();
        let mut yy: u64 = self.year() as u64;
        let mut mm: u32 = self.month();
        let mut dd: u32 = self.day();
        let mut k: u32 = 0;
        proof {
            lemma_trading_within_12(oy, om, od);
        }
        loop
            invariant
                0 <= k <= 12,
                oy == self.y() && om == self.m() && od == self.d(),
                valid_ymd(oy, om, od) && oy >= 0 && oy <= 0x7FFF_FFFF,
                valid_ymd(yy as int, mm as int, dd as int),
                oy <= yy <= oy + 1,
                (yy as int, mm as int, dd as int) == advance_from(oy, om, od, k as int),
                yy == oy + 1 ==> mm == 1 && dd <= k,
                forall|j: int| 1 <= j <= k as int ==> !trading_at(oy, om, od, j),
                exists|j: int| 1 <= j <= 12 && trading_at(oy, om, od, j),
            decreases 12 - k,
        {
            let ghost prev = (yy as int, mm as int, dd as int);
            let dim = days_in_month_of(yy, mm);
            if dd < dim {
                dd = dd + 1;
            } else if mm < 12 {
                mm = mm + 1;
                dd = 1;
            } else {
                yy = yy + 1;
                mm = 1;
                dd = 1;
            }
            k = k + 1;
            proof {
                lemma_next_props(prev.0, prev.1, prev.2);
                assert((yy as int, mm as int, dd as int) == next_ymd(prev.0, prev.1, prev.2));
                assert((yy as int, mm as int, dd as int) == advance_from(oy, om, od, k as int));
            }
            let wd = weekday_of(yy, mm, dd);
            if wd != 5 && wd != 6 && !is_market_holiday(mm, dd) {
                assert(trading_at(oy, om, od, k as int));
                return k;
            }
            proof {
                assert(!trading_at(oy, om, od, k as int));
                if k == 12 {
                    let j = choose|j: int| 1 <= j <= 12 && trading_at(oy, om, od, j);
                    assert(!trading_at(oy, om, od, j));
                    assert(false);
                }
            }
        }
    }
}

} // verus!
