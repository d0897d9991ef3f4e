use calckit::retirement::{retire_time, RetirementError};

#[test]
fn test_retire_before_policy_start() {
    // Baseline 2023-04 lies before 2025-01: no delay, exact baseline age.
    assert_eq!(retire_time("1963-04", "男职工").unwrap(), "2023-04,60,0");
}

#[test]
fn test_retire_exactly_at_policy_start() {
    // Baseline exactly 2025-01: one month of delay.
    assert_eq!(retire_time("1965-01", "男职工").unwrap(), "2025-02,60.08,1");
}

#[test]
fn test_retire_partial_delay() {
    // Baseline 2031-04 is 75 months past the start: ceil(75/4) = 19 months.
    assert_eq!(retire_time("1971-04", "男职工").unwrap(), "2032-11,61.58,19");
}

#[test]
fn test_retire_capped_delay_male() {
    // Far past the start: the delay is capped at 36 months.
    assert_eq!(retire_time("1990-01", "男职工").unwrap(), "2053-01,63,36");
}

#[test]
fn test_retire_capped_delay_female_ordinary() {
    // The 50-year category caps at 60 months.
    assert_eq!(
        retire_time("1985-06", "原法定退休年龄50周岁女职工").unwrap(),
        "2040-06,55,60"
    );
}

#[test]
fn test_retire_female_managerial() {
    // Baseline 2026-02, 13 months past the start: ceil(13/4) = 4 months.
    assert_eq!(
        retire_time("1971-02", "原法定退休年龄55周岁女职工").unwrap(),
        "2026-06,55.33,4"
    );
}

#[test]
fn test_retire_invalid_category() {
    assert_eq!(
        retire_time("1971-02", "工人"),
        Err(RetirementError::InvalidCategory)
    );
    assert_eq!(retire_time("1971-02", ""), Err(RetirementError::InvalidCategory));
}

#[test]
fn test_retire_invalid_date() {
    assert_eq!(retire_time("1971", "男职工"), Err(RetirementError::InvalidDate));
    assert_eq!(retire_time("1971-13", "男职工"), Err(RetirementError::InvalidDate));
    assert_eq!(retire_time("1971-0", "男职工"), Err(RetirementError::InvalidDate));
    assert_eq!(retire_time("abcd-05", "男职工"), Err(RetirementError::InvalidDate));
    assert_eq!(retire_time("1971-02-03", "男职工"), Err(RetirementError::InvalidDate));
}
