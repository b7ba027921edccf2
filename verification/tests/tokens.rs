use time_calculator::ParseError;
use time_calculator::TimeUnit;

#[test]
fn parse_seconds_token() {
    assert_eq!(TimeUnit::parse("7s"), Ok(TimeUnit::Seconds(7)));
}

#[test]
fn parse_minutes_token() {
    assert_eq!(TimeUnit::parse("45m"), Ok(TimeUnit::Minutes(45)));
}

#[test]
fn parse_hours_token() {
    assert_eq!(TimeUnit::parse("2h"), Ok(TimeUnit::Hours(2)));
}

#[test]
fn parse_keeps_leading_zero_value() {
    assert_eq!(TimeUnit::parse("007s"), Ok(TimeUnit::Seconds(7)));
}

#[test]
fn parse_largest_magnitude() {
    assert_eq!(TimeUnit::parse("2147483647s"), Ok(TimeUnit::Seconds(2147483647)));
}

#[test]
fn parse_format_round_trip() {
    let token = "123m";
    let unit = TimeUnit::parse(token).unwrap();
    assert_eq!(unit.format(), token);
}

#[test]
fn parse_format_drops_leading_zeros() {
    let unit = TimeUnit::parse("007s").unwrap();
    assert_eq!(unit.format(), "7s");
}

#[test]
fn parse_rejects_upper_case_unit() {
    assert_eq!(
        TimeUnit::parse("7S"),
        Err(ParseError::InvalidComponent(String::from("7S")))
    );
}

#[test]
fn parse_rejects_missing_unit() {
    assert_eq!(
        TimeUnit::parse("7"),
        Err(ParseError::InvalidComponent(String::from("7")))
    );
}

#[test]
fn parse_rejects_unknown_unit() {
    assert_eq!(
        TimeUnit::parse("1x"),
        Err(ParseError::InvalidComponent(String::from("1x")))
    );
}

#[test]
fn parse_rejects_non_digit_characters() {
    assert_eq!(
        TimeUnit::parse("1a2s"),
        Err(ParseError::InvalidComponent(String::from("1a2s")))
    );
}

#[test]
fn parse_rejects_empty_token() {
    assert_eq!(
        TimeUnit::parse(""),
        Err(ParseError::InvalidComponent(String::from("")))
    );
}

#[test]
fn parse_rejects_whitespace_token() {
    assert_eq!(
        TimeUnit::parse(" "),
        Err(ParseError::InvalidComponent(String::from(" ")))
    );
}

#[test]
fn parse_rejects_sign() {
    assert_eq!(
        TimeUnit::parse("-7s"),
        Err(ParseError::InvalidComponent(String::from("-7s")))
    );
    assert_eq!(
        TimeUnit::parse("+7s"),
        Err(ParseError::InvalidComponent(String::from("+7s")))
    );
}

#[test]
fn parse_rejects_fraction() {
    assert_eq!(
        TimeUnit::parse("1.5s"),
        Err(ParseError::InvalidComponent(String::from("1.5s")))
    );
}

#[test]
fn parse_rejects_surrounding_whitespace() {
    assert_eq!(
        TimeUnit::parse(" 7s"),
        Err(ParseError::InvalidComponent(String::from(" 7s")))
    );
    assert_eq!(
        TimeUnit::parse("7s "),
        Err(ParseError::InvalidComponent(String::from("7s ")))
    );
}

#[test]
fn parse_rejects_overflowing_number() {
    assert_eq!(
        TimeUnit::parse("2147483648s"),
        Err(ParseError::InvalidNumber(String::from("2147483648s")))
    );
    assert_eq!(
        TimeUnit::parse("99999999999h"),
        Err(ParseError::InvalidNumber(String::from("99999999999h")))
    );
}

#[test]
fn convert_seconds_is_identity() {
    assert_eq!(TimeUnit::Seconds(5).convert_to_seconds(), 5);
}

#[test]
fn convert_minutes_times_sixty() {
    assert_eq!(TimeUnit::Minutes(5).convert_to_seconds(), 300);
}

#[test]
fn convert_hours_times_thirty_six_hundred() {
    assert_eq!(TimeUnit::Hours(1).convert_to_seconds(), 3600);
    assert_eq!(TimeUnit::Hours(2).convert_to_seconds(), 7200);
}

#[test]
fn convert_is_linear_in_the_unit_ladder() {
    let n = 7;
    assert_eq!(
        TimeUnit::Minutes(n).convert_to_seconds(),
        60 * TimeUnit::Seconds(n).convert_to_seconds()
    );
    assert_eq!(
        TimeUnit::Hours(n).convert_to_seconds(),
        60 * TimeUnit::Minutes(n).convert_to_seconds()
    );
}

#[test]
fn format_writes_magnitude_then_letter() {
    assert_eq!(TimeUnit::Seconds(59).format(), "59s");
    assert_eq!(TimeUnit::Minutes(0).format(), "0m");
    assert_eq!(TimeUnit::Hours(100).format(), "100h");
}

#[test]
fn is_not_empty_iff_positive() {
    assert!(TimeUnit::Seconds(1).is_not_empty());
    assert!(TimeUnit::Hours(3).is_not_empty());
    assert!(!TimeUnit::Seconds(0).is_not_empty());
    assert!(!TimeUnit::Minutes(0).is_not_empty());
}
