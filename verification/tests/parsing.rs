use rational_tableau::rational::Rational;
use rational_tableau::text::{parse, parse_cell, ParseError};

fn rat(n: i32, d: i32) -> Rational {
    Rational::new(n, d).unwrap()
}

#[test]
fn parse_plain_integer() {
    assert_eq!(parse("5"), Ok(rat(5, 1)));
    assert_eq!(parse("-3"), Ok(rat(-3, 1)));
    assert_eq!(parse("+4"), Ok(rat(4, 1)));
    assert_eq!(parse("007"), Ok(rat(7, 1)));
    assert_eq!(parse("0"), Ok(rat(0, 1)));
}

#[test]
fn parse_fraction() {
    assert_eq!(parse("1/2"), Ok(rat(1, 2)));
    assert_eq!(parse("-1/2"), Ok(rat(-1, 2)));
    assert_eq!(parse("+3/4"), Ok(rat(3, 4)));
    assert_eq!(parse("4/-6"), Ok(rat(-2, 3)));
    assert_eq!(parse("-4/-6"), Ok(rat(2, 3)));
}

#[test]
fn parse_normalizes_to_lowest_terms() {
    // "3/6" must come back reduced, not stored as (3, 6).
    let r = parse("3/6").unwrap();
    assert_eq!(r.numer(), 1);
    assert_eq!(r.denom(), 2);
    assert_eq!(r, rat(1, 2));
}

#[test]
fn parse_negative_zero_is_canonical_zero() {
    let r = parse("-0/7").unwrap();
    assert_eq!(r.numer(), 0);
    assert_eq!(r.denom(), 1);
}

#[test]
fn parse_malformed_text() {
    assert_eq!(parse(""), Err(ParseError::Malformed));
    assert_eq!(parse("abc"), Err(ParseError::Malformed));
    assert_eq!(parse("-"), Err(ParseError::Malformed));
    assert_eq!(parse("+"), Err(ParseError::Malformed));
    assert_eq!(parse("1.5"), Err(ParseError::Malformed));
    assert_eq!(parse(" 1"), Err(ParseError::Malformed));
    assert_eq!(parse("1 "), Err(ParseError::Malformed));
    assert_eq!(parse("1/2/3"), Err(ParseError::Malformed));
    assert_eq!(parse("5/"), Err(ParseError::Malformed));
    assert_eq!(parse("/5"), Err(ParseError::Malformed));
    assert_eq!(parse("1/+"), Err(ParseError::Malformed));
}

#[test]
fn parse_division_by_zero() {
    assert_eq!(parse("1/0"), Err(ParseError::DivisionByZero));
    assert_eq!(parse("0/0"), Err(ParseError::DivisionByZero));
    assert_eq!(parse("-7/0"), Err(ParseError::DivisionByZero));
}

#[test]
fn parse_at_i32_bounds() {
    assert_eq!(parse("2147483647"), Ok(rat(2147483647, 1)));
    assert_eq!(parse("-2147483648"), Ok(rat(-2147483648, 1)));
    assert_eq!(parse("2147483648"), Err(ParseError::Malformed));
    assert_eq!(parse("-2147483649"), Err(ParseError::Malformed));
    assert_eq!(parse("99999999999999999999"), Err(ParseError::Malformed));
    assert_eq!(parse("1/99999999999999999999"), Err(ParseError::Malformed));
}

#[test]
fn parse_cell_fails_safe_to_zero() {
    // The documented policy: malformed cell text resolves to zero.
    assert_eq!(parse_cell("garbage"), rat(0, 1));
    assert_eq!(parse_cell(""), rat(0, 1));
    assert_eq!(parse_cell("1/0"), rat(0, 1));
    assert_eq!(parse_cell("3/6"), rat(1, 2));
    assert_eq!(parse_cell("-9"), rat(-9, 1));
}

#[test]
fn format_integer_and_fraction() {
    assert_eq!(rat(5, 1).format(), "5");
    assert_eq!(rat(-3, 1).format(), "-3");
    assert_eq!(rat(0, 1).format(), "0");
    assert_eq!(rat(1, 2).format(), "1/2");
    assert_eq!(rat(-7, 3).format(), "-7/3");
    assert_eq!(rat(120, 10).format(), "12");
}

#[test]
fn parse_format_round_trip() {
    let samples = [
        rat(0, 1),
        rat(1, 1),
        rat(-1, 1),
        rat(1, 2),
        rat(-22, 7),
        rat(2147483647, 1),
        rat(-2147483648, 1),
        rat(355, 113),
    ];
    for r in samples.iter() {
        assert_eq!(parse(&r.format()), Ok(*r));
    }
}

#[test]
fn rational_new_normalizes() {
    assert_eq!(rat(2, 4), rat(1, 2));
    assert_eq!(rat(1, -2).numer(), -1);
    assert_eq!(rat(1, -2).denom(), 2);
    assert_eq!(rat(0, -9), rat(0, 1));
    assert!(Rational::new(1, 0).is_none());
    // The one canonical numerator that cannot fit the fields.
    assert!(Rational::new(-2147483648, -1).is_none());
}

#[test]
fn checked_arithmetic_is_exact() {
    let half = rat(1, 2);
    let third = rat(1, 3);
    assert_eq!(half.checked_mul(third), Some(rat(1, 6)));
    assert_eq!(half.checked_sub(third), Some(rat(1, 6)));
    assert_eq!(half.checked_div(third), Some(rat(3, 2)));
    assert_eq!(rat(2, 3).checked_mul(rat(3, 2)), Some(rat(1, 1)));
    // Overflow of the 32-bit fields is reported, not wrapped.
    assert_eq!(rat(1073741824, 1).checked_mul(rat(4, 1)), None);
}
