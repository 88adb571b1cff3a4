use accounting_rs::validators::{validate_date_format, validate_month_date_format};

#[test]
fn cli_test_validate_month_date_format() {
    assert_eq!(
        validate_month_date_format("2023-01"),
        Ok("2023-01".to_string())
    );
    assert_eq!(
        validate_month_date_format("2023"),
        Err("Date must be in the format YYYY-MM".to_string())
    );
}

#[test]
fn cli_test_validate_date_format() {
    assert_eq!(
        validate_date_format("2023-01-05"),
        Ok("2023-01-05".to_string())
    );
    assert_eq!(
        validate_date_format("2023-01"),
        Err("Date must be in the format YYYY-MM-DD".to_string())
    );
}

#[test]
fn validators_test_validate_month_date_format() {
    assert_eq!(
        validate_month_date_format("2023-01"),
        Ok("2023-01".to_string())
    );
    assert_eq!(
        validate_month_date_format("2023"),
        Err("Date must be in the format YYYY-MM".to_string())
    );
}

#[test]
fn validators_test_validate_date_format() {
    assert_eq!(
        validate_date_format("2023-01-05"),
        Ok("2023-01-05".to_string())
    );
    assert_eq!(
        validate_date_format("2023-01"),
        Err("Date must be in the format YYYY-MM-DD".to_string())
    );
}

#[test]
fn month_out_of_range_is_rejected() {
    assert_eq!(
        validate_month_date_format("2023-13"),
        Err("Date must be in the format YYYY-MM".to_string())
    );
    assert_eq!(
        validate_month_date_format("2023-01-15"),
        Err("Date must be in the format YYYY-MM".to_string())
    );
    assert_eq!(validate_month_date_format("2024-02"), Ok("2024-02".to_string()));
}

#[test]
fn impossible_day_is_rejected() {
    assert_eq!(
        validate_date_format("2023-02-30"),
        Err("Date must be in the format YYYY-MM-DD".to_string())
    );
    assert_eq!(validate_date_format("2024-02-29"), Ok("2024-02-29".to_string()));
    assert_eq!(
        validate_date_format("2023-02-29"),
        Err("Date must be in the format YYYY-MM-DD".to_string())
    );
}
