//! Retirement-date projection: a birth year-month and an employee category
//! give a policy-adjusted retirement year-month, an exact retirement age in
//! months, and the months of delay applied under the phased policy that
//! starts at 2025-01.

use vstd::prelude::*;
use crate::dates::find_char;
use crate::strutil::{
    chars_of,
    dec_str,
    dec_string,
    padded_dec_str,
    padded_dec_string,
    parse_uint,
    parse_uint_bounded,
    str_eq,
};

verus! {

/// A retirement category's policy: baseline retirement age in years,
/// maximum cumulative delay in months, and the month interval that adds one
/// month of delay.
#[derive(Debug)]
pub struct RetirementPolicy {
    pub original_age: u32,
    pub max_delay: u32,
    pub delay_interval: u32,
}

/// The three recognized personnel categories.
#[derive(Debug, Clone, Copy, PartialEq, Eq, Structural)]
pub enum RetirementCategory {
    Male,
    FemaleManagerial,
    FemaleOrdinary,
}

impl RetirementCategory {
    /// The policy table: 60/36/4 for men, 55/36/4 for the managerial-track
    /// women, 50/60/2 for the ordinary-track women.
    pub open spec fn spec_policy(self) -> RetirementPolicy {
        match self {
            RetirementCategory::Male => RetirementPolicy {
                original_age: 60,
                max_delay: 36,
                delay_interval: 4,
            },
            RetirementCategory::FemaleManagerial => RetirementPolicy {
                original_age: 55,
                max_delay: 36,
                delay_interval: 4,
            },
            RetirementCategory::FemaleOrdinary => RetirementPolicy {
                original_age: 50,
                max_delay: 60,
                delay_interval: 2,
            },
        }
    }

    pub fn get_policy(&self) -> (p: RetirementPolicy)
        ensures
            p == self.spec_policy(),
    {
        match self {
            RetirementCategory::Male => RetirementPolicy {
                original_age: 60,
                max_delay: 36,
                delay_interval: 4,
            },
            RetirementCategory::FemaleManagerial => RetirementPolicy {
                original_age: 55,
                max_delay: 36,
                delay_interval: 4,
            },
            RetirementCategory::FemaleOrdinary => RetirementPolicy {
                original_age: 50,
                max_delay: 60,
                delay_interval: 2,
            },
        }
    }
}

/// Whole months from `y1`-`m1` to `y2`-`m2`.
pub open spec fn spec_months_between(y1: int, m1: int, y2: int, m2: int) -> int {
    (y2 - y1) * 12 + m2 - m1
}

/// The year-month lying `k` months after `y`-`m`.
pub open spec fn spec_add_months(y: int, m: int, k: int) -> (int, int) {
    let total = y * 12 + m + k;
    let ny = total / 12;
    let nm = total % 12;
    if nm == 0 {
        (ny - 1, 12)
    } else {
        (ny, nm)
    }
}

/// Ceiling division for positive divisors.
pub open spec fn ceil_div(a: int, b: int) -> int {
    (a + b - 1) / b
}

/// The projected outcome for a birth year-month under a category's policy:
/// retirement year, retirement month, exact age at retirement in months,
/// and the delay months applied.
///
/// The baseline date is the birth month advanced by the baseline age. A
/// baseline before 2025-01 retires unchanged; exactly 2025-01 is delayed one
/// month; a later baseline is delayed one month per started delay interval
/// since 2025-01, capped at the category maximum.
pub open spec fn spec_retirement(by: int, bm: int, cat: RetirementCategory) -> (
    int,
    int,
    int,
    int,
) {
    let p = cat.spec_policy();
    let age = p.original_age as int;
    let base_y = by + age;
    if base_y < 2025 || (base_y == 2025 && bm < 1) {
        (base_y, bm, age * 12, 0)
    } else if base_y == 2025 && bm == 1 {
        (2025, 2, age * 12 + 1, 1)
    } else {
        let months_after = spec_months_between(2025, 1, base_y, bm);
        let uncapped = ceil_div(months_after, p.delay_interval as int);
        let delay = if uncapped <= p.max_delay as int {
            uncapped
        } else {
            p.max_delay as int
        };
        let fin = spec_add_months(base_y, bm, delay);
        (fin.0, fin.1, age * 12 + delay, delay)
    }
}

/// A projected retirement: final year-month, exact age in months, and the
/// delay in months.
#[derive(Debug, Clone, Copy)]
pub struct RetirementResult {
    pub retirement_year: u32,
    pub retirement_month: u32,
    pub age_months: u32,
    pub delay_months: u32,
}

/// The formatted record: zero-padded `YYYY-MM`, the age in years (plain
/// when whole, else with two decimals, rounded to nearest), and the delay
/// months, comma-joined.
pub open spec fn spec_format_result(ry: int, rm: int, age_months: int, delay: int) -> Seq<char> {
    let age_text = if age_months % 12 == 0 {
        dec_str(age_months / 12)
    } else {
        dec_str(age_months / 12) + "."@ + padded_dec_str(((age_months % 12) * 100 + 6) / 12, 2)
    };
    padded_dec_str(ry, 4) + "-"@ + padded_dec_str(rm, 2) + ","@ + age_text + ","@ + dec_str(delay)
}

impl RetirementResult {
    /// Renders the record exactly as `spec_format_result` states.
    pub fn format(&self) -> (r: String)
        ensures
            r@ == spec_format_result(
                self.retirement_year as int,
                self.retirement_month as int,
                self.age_months as int,
                self.delay_months as int,
            ),
    {
        let mut out = padded_dec_string(self.retirement_year, 4);
        out.append("-");
        out.append(padded_dec_string(self.retirement_month, 2).as_str());
        out.append(",");
        let whole = self.age_months / 12;
        let rem = self.age_months % 12;
        out.append(dec_string(whole).as_str());
        if rem != 0 {
            out.append(".");
            out.append(padded_dec_string((rem * 100 + 6) / 12, 2).as_str());
        }
        out.append(",");
        out.append(dec_string(self.delay_months).as_str());
        assert(out@ =~= spec_format_result(
            self.retirement_year as int,
            self.retirement_month as int,
            self.age_months as int,
            self.delay_months as int,
        ));
        out
    }
}

/// Projects retirement dates against the fixed 2025-01 policy start.
pub struct RetirementCalculator {
    pub policy_start_year: u32,
    pub policy_start_month: u32,
}

impl RetirementCalculator {
    pub fn new() -> (r: RetirementCalculator)
        ensures
            r.policy_start_year == 2025,
            r.policy_start_month == 1,
    {
        RetirementCalculator { policy_start_year: 2025, policy_start_month: 1 }
    }

    /// Whole months from the first year-month to the second.
    pub fn months_between(start_year: u32, start_month: u32, end_year: u32, end_month: u32) -> (r:
        u32)
        requires
            end_year <= 20000,
            start_month <= 12 && end_month <= 12,
            spec_months_between(start_year as int, start_month as int, end_year as int, end_month as int) >= 0,
        ensures
            r == spec_months_between(
                start_year as int,
                start_month as int,
                end_year as int,
                end_month as int,
            ),
    {
        (end_year * 12 + end_month) - (start_year * 12 + start_month)
    }

    /// The year-month `months` months after `year`-`month`.
    pub fn add_months(year: u32, month: u32, months: u32) -> (r: (u32, u32))
        requires
            year <= 20000,
            1 <= month <= 12,
            months <= 120,
        ensures
            (r.0 as int, r.1 as int) == spec_add_months(year as int, month as int, months as int),
            1 <= r.1 <= 12,
            r.0 <= year + 11,
    {
        let total = year * 12 + month + months;
        let new_year = total / 12;
        let new_month = total % 12;
        if new_month == 0 {
            (new_year - 1, 12)
        } else {
            (new_year, new_month)
        }
    }

    /// Projects the outcome for a birth year-month and category, exactly as
    /// `spec_retirement` states; the delay never exceeds the category
    /// maximum and the age never falls below the baseline age.
    pub fn calculate(&self, birth_year: u32, birth_month: u32, category: RetirementCategory) -> (r:
        RetirementResult)
        requires
            birth_year <= 9999,
            1 <= birth_month <= 12,
        ensures
            ({
                let s = spec_retirement(birth_year as int, birth_month as int, category);
                &&& r.retirement_year as int == s.0
                &&& r.retirement_month as int == s.1
                &&& r.age_months as int == s.2
                &&& r.delay_months as int == s.3
                &&& r.delay_months <= category.spec_policy().max_delay
                &&& r.age_months >= category.spec_policy().original_age * 12
            }),
    {
        let policy = category.get_policy();
        let base_year = birth_year + policy.original_age;
        let base_month = birth_month;

        if base_year < 2025 {
            RetirementResult {
                retirement_year: base_year,
                retirement_month: base_month,
                age_months: policy.original_age * 12,
                delay_months: 0,
            }
        } else if base_year == 2025 && base_month == 1 {
            RetirementResult {
                retirement_year: 2025,
                retirement_month: 2,
                age_months: policy.original_age * 12 + 1,
                delay_months: 1,
            }
        } else {
            let months_after = Self::months_between(2025, 1, base_year, base_month);
            let mut delay_months = (months_after + policy.delay_interval - 1)
                / policy.delay_interval;
            if delay_months > policy.max_delay {
                delay_months = policy.max_delay;
            }
            let fin = Self::add_months(base_year, base_month, delay_months);
            RetirementResult {
                retirement_year: fin.0,
                retirement_month: fin.1,
                age_months: policy.original_age * 12 + delay_months,
                delay_months,
            }
        }
    }
}

/// A birth far enough before the policy start retires with no delay at the
/// exact baseline age, and a birth far enough after it is delayed by
/// exactly the category maximum; the delay always stays within
/// [0, max_delay] and the age never falls below the baseline.
pub proof fn lemma_retirement_policy_bounds(by: int, bm: int, cat: RetirementCategory)
    requires
        1 <= bm <= 12,
    ensures
        ({
            let p = cat.spec_policy();
            let s = spec_retirement(by, bm, cat);
            &&& 0 <= s.3 <= p.max_delay as int
            &&& s.2 == p.original_age * 12 + s.3
            &&& (by + p.original_age < 2025 ==> s.3 == 0 && s.2 == p.original_age * 12)
            &&& (spec_months_between(2025, 1, by + p.original_age, bm) >= p.max_delay
                * p.delay_interval ==> s.3 == p.max_delay as int)
        }),
{
    let p = cat.spec_policy();
    let base_y = by + p.original_age;
    if base_y < 2025 || (base_y == 2025 && bm < 1) {
    } else if base_y == 2025 && bm == 1 {
    } else {
        let ma = spec_months_between(2025, 1, base_y, bm);
        assert(ma >= 1);
        match cat {
            RetirementCategory::Male => {
                assert(ma >= 36 * 4 ==> (ma + 3) / 4 >= 36);
            },
            RetirementCategory::FemaleManagerial => {
                assert(ma >= 36 * 4 ==> (ma + 3) / 4 >= 36);
            },
            RetirementCategory::FemaleOrdinary => {
                assert(ma >= 60 * 2 ==> (ma + 1) / 2 >= 60);
            },
        }
    }
}

/// The recognized category labels.
pub open spec fn spec_category_of(s: Seq<char>) -> Option<RetirementCategory> {
    if s == "男职工"@ {
        Some(RetirementCategory::Male)
    } else if s == "原法定退休年龄50周岁女职工"@ {
        Some(RetirementCategory::FemaleOrdinary)
    } else if s == "原法定退休年龄55周岁女职工"@ {
        Some(RetirementCategory::FemaleManagerial)
    } else {
        None
    }
}

/// A birth month in `YYYY-MM` form: exactly two `-`-separated unsigned
/// numbers, the year at most 9999 (so the projected date renders as four
/// digits) and the month between 1 and 12.
pub open spec fn spec_ym_from_str(s: Seq<char>) -> Option<(int, int)> {
    let i1 = find_char(s, '-');
    if i1 >= s.len() {
        None
    } else {
        let s2 = s.subrange(i1 + 1, s.len() as int);
        if find_char(s2, '-') < s2.len() {
            None
        } else {
            match (parse_uint(s.subrange(0, i1)), parse_uint(s2)) {
                (Some(y), Some(m)) => if y <= 9999 && 1 <= m <= 12 {
                    Some((y, m))
                } else {
                    None
                },
                _ => None,
            }
        }
    }
}

/// The reasons a projection request is rejected.
#[derive(Debug, Clone, Copy, PartialEq, Eq, Structural)]
pub enum RetirementError {
    /// The personnel-type label is not one of the three recognized values.
    InvalidCategory,
    /// The birth month is not supported `YYYY-MM` text.
    InvalidDate,
}

/// The record projected for a birth month and category label.
pub open spec fn spec_retire_time(time: Seq<char>, tp: Seq<char>) -> Result<
    Seq<char>,
    RetirementError,
> {
    match spec_category_of(tp) {
        None => Err(RetirementError::InvalidCategory),
        Some(cat) => match spec_ym_from_str(time) {
            None => Err(RetirementError::InvalidDate),
            Some(ym) => {
                let s = spec_retirement(ym.0, ym.1, cat);
                Ok(spec_format_result(s.0, s.1, s.2, s.3))
            },
        },
    }
}

/// Projects the retirement record for a `YYYY-MM` birth month and a
/// category label; rejects an unrecognized label or unsupported birth text.
pub fn retire_time(time: &str, tp: &str) -> (r: Result<String, RetirementError>)
    ensures
        match r {
            Ok(s) => spec_retire_time(time@, tp@) == Ok::<Seq<char>, RetirementError>(s@),
            Err(e) => spec_retire_time(time@, tp@) == Err::<Seq<char>, RetirementError>(e),
        },
{
    let category: RetirementCategory = if str_eq(tp, "男职工") {
        RetirementCategory::Male
    } else if str_eq(tp, "原法定退休年龄50周岁女职工") {
        RetirementCategory::FemaleOrdinary
    } else if str_eq(tp, "原法定退休年龄55周岁女职工") {
        RetirementCategory::FemaleManagerial
    } else {
        return Err(RetirementError::InvalidCategory);
    };

    let v = chars_of(time);
    let n = v.len();
    let ghost s = time@;

    let mut i1: usize = 0;
    while i1 < n && v[i1] != '-'
        invariant
            0 <= i1 <= n,
            n == s.len(),
            v@ == s,
            forall|j: int| 0 <= j < i1 ==> s[j] != '-',
        decreases n - i1,
    {
        i1 = i1 + 1;
    }
    proof {
        crate::dates::lemma_find_char(s, '-', i1 as int);
    }
    if i1 == n {
        return Err(RetirementError::InvalidDate);
    }
    let ghost s2 = s.subrange(i1 + 1, n as int);

    let mut i2 = i1 + 1;
    while i2 < n && v[i2] != '-'
        invariant
            i1 < i2 <= n,
            n == s.len(),
            v@ == s,
            s2 == s.subrange(i1 + 1, n as int),
            forall|j: int| i1 < j < i2 ==> s[j] != '-',
        decreases n - i2,
    {
        i2 = i2 + 1;
    }
    proof {
        assert(forall|j: int| 0 <= j < i2 - i1 - 1 ==> s2[j] != '-');
        assert(i2 < n ==> s2[i2 - i1 - 1] == '-');
        crate::dates::lemma_find_char(s2, '-', i2 - i1 - 1);
    }
    if i2 < n {
        return Err(RetirementError::InvalidDate);
    }

    let year_part = parse_uint_bounded(&v, 0, i1, 9999);
    let month_part = parse_uint_bounded(&v, i1 + 1, n, 0xFFFF_FFFF);
    proof {
        assert(s.subrange(0, i1 as int) =~= v@.subrange(0, i1 as int));
        assert(s2 =~= v@.subrange(i1 + 1, n as int));
    }
    let (by, bm): (u32, u32) = match (year_part, month_part) {
        (Some(y), Some(m)) => {
            if m < 1 || m > 12 {
                return Err(RetirementError::InvalidDate);
            }
            (y as u32, m as u32)
        },
        _ => {
            return Err(RetirementError::InvalidDate);
        },
    };

    let calculator = RetirementCalculator::new();
    let result = calculator.calculate(by, bm, category);
    Ok(result.format())
}

} // verus!
