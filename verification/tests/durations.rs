use time_calculator::DurationError;
use time_calculator::ParseError;
use time_calculator::TimeInterval;

#[test]
fn parse_single_token() {
    assert_eq!(TimeInterval::parse("19s").unwrap().total_seconds(), 19);
}

#[test]
fn parse_sums_tokens() {
    assert_eq!(TimeInterval::parse("1h 19s").unwrap().total_seconds(), 3619);
    assert_eq!(TimeInterval::parse("1m 45s").unwrap().total_seconds(), 105);
}

#[test]
fn parse_duplicate_units_accumulate() {
    assert_eq!(TimeInterval::parse("30s 30s").unwrap().total_seconds(), 60);
}

#[test]
fn duplicate_unit_accumulation_renders_normalized() {
    assert_eq!(TimeInterval::parse("30s 45s").unwrap().as_string(), "1m 15s");
}

#[test]
fn parse_order_does_not_matter() {
    let a = TimeInterval::parse("1h 19s").unwrap();
    let b = TimeInterval::parse("19s 1h").unwrap();
    assert_eq!(a.total_seconds(), b.total_seconds());
    assert_eq!(a.as_string(), "1h 19s");
    assert_eq!(b.as_string(), "1h 19s");
}

#[test]
fn parse_propagates_component_error() {
    assert_eq!(
        TimeInterval::parse("1x"),
        Err(DurationError::InvalidDuration(
            String::from("1x"),
            ParseError::InvalidComponent(String::from("1x"))
        ))
    );
}

#[test]
fn parse_fails_fast_on_first_bad_token() {
    assert_eq!(
        TimeInterval::parse("1h oops 1x"),
        Err(DurationError::InvalidDuration(
            String::from("1h oops 1x"),
            ParseError::InvalidComponent(String::from("oops"))
        ))
    );
}

#[test]
fn parse_wraps_invalid_number() {
    assert_eq!(
        TimeInterval::parse("1m 99999999999s"),
        Err(DurationError::InvalidDuration(
            String::from("1m 99999999999s"),
            ParseError::InvalidNumber(String::from("99999999999s"))
        ))
    );
}

#[test]
fn parse_rejects_empty_input() {
    assert_eq!(
        TimeInterval::parse(""),
        Err(DurationError::InvalidDuration(
            String::from(""),
            ParseError::InvalidComponent(String::from(""))
        ))
    );
}

#[test]
fn parse_rejects_stray_spaces() {
    assert_eq!(
        TimeInterval::parse("1s "),
        Err(DurationError::InvalidDuration(
            String::from("1s "),
            ParseError::InvalidComponent(String::from(""))
        ))
    );
    assert_eq!(
        TimeInterval::parse(" 1s"),
        Err(DurationError::InvalidDuration(
            String::from(" 1s"),
            ParseError::InvalidComponent(String::from(""))
        ))
    );
    assert_eq!(
        TimeInterval::parse("1s  2s"),
        Err(DurationError::InvalidDuration(
            String::from("1s  2s"),
            ParseError::InvalidComponent(String::from(""))
        ))
    );
}

#[test]
fn parse_reports_overflow_of_the_sum() {
    assert_eq!(
        TimeInterval::parse("2000000000s 2000000000s"),
        Err(DurationError::ArithmeticOverflow(String::from(
            "2000000000s 2000000000s"
        )))
    );
}

#[test]
fn parse_reports_overflow_of_a_conversion() {
    assert_eq!(
        TimeInterval::parse("600000000h"),
        Err(DurationError::ArithmeticOverflow(String::from("600000000h")))
    );
    assert_eq!(
        TimeInterval::parse("1000000000m"),
        Err(DurationError::ArithmeticOverflow(String::from("1000000000m")))
    );
}

#[test]
fn add_sums_totals() {
    let sum = TimeInterval::new(10).add(&TimeInterval::new(20));
    assert_eq!(sum.total_seconds(), 30);
}

#[test]
fn add_is_commutative() {
    let a = TimeInterval::new(105);
    let b = TimeInterval::new(3619);
    assert_eq!(a.add(&b).total_seconds(), b.add(&a).total_seconds());
}

#[test]
fn add_is_associative() {
    let a = TimeInterval::new(59);
    let b = TimeInterval::new(61);
    let c = TimeInterval::new(3600);
    assert_eq!(
        a.add(&b).add(&c).total_seconds(),
        a.add(&b.add(&c)).total_seconds()
    );
}

#[test]
fn render_round_trips_canonical_form() {
    assert_eq!(TimeInterval::parse("1h 1m 1s").unwrap().as_string(), "1h 1m 1s");
}

#[test]
fn render_zero_collapses_to_empty() {
    assert_eq!(TimeInterval::new(0).as_string(), "");
}

#[test]
fn render_drops_zero_components() {
    assert_eq!(TimeInterval::new(59).as_string(), "59s");
    assert_eq!(TimeInterval::new(3600).as_string(), "1h");
    assert_eq!(TimeInterval::new(3601).as_string(), "1h 1s");
    assert_eq!(TimeInterval::new(61).as_string(), "1m 1s");
}

#[test]
fn render_rolls_over_to_larger_units() {
    assert_eq!(TimeInterval::new(3661).as_string(), "1h 1m 1s");
    assert_eq!(TimeInterval::new(60).as_string(), "1m");
}

#[test]
fn render_keeps_large_hour_counts() {
    assert_eq!(TimeInterval::new(360000).as_string(), "100h");
}

#[test]
fn end_to_end_example() {
    let first = TimeInterval::parse("1m 45s").unwrap();
    let second = TimeInterval::parse("1h 19s").unwrap();
    let sum = first.add(&second);
    assert_eq!(sum.total_seconds(), 3724);
    assert_eq!(sum.as_string(), "1h 2m 4s");
}

#[test]
fn new_keeps_the_given_total() {
    assert_eq!(TimeInterval::new(12345).total_seconds(), 12345);
}
