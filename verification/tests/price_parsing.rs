use card_pricer::parse::{parse_price, PriceParseError};

#[test]
fn parses_whole_unit_prices() {
    assert_eq!(parse_price(b"3"), Ok(300));
    assert_eq!(parse_price(b"0"), Ok(0));
    assert_eq!(parse_price(b"12"), Ok(1200));
}

#[test]
fn parses_fractional_prices() {
    assert_eq!(parse_price(b"3.00"), Ok(300));
    assert_eq!(parse_price(b"1.5"), Ok(150));
    assert_eq!(parse_price(b"0.15"), Ok(15));
    assert_eq!(parse_price(b"0.09"), Ok(9));
    assert_eq!(parse_price(b"10.01"), Ok(1001));
}

#[test]
fn rejects_malformed_prices() {
    assert_eq!(parse_price(b""), Err(PriceParseError::Malformed));
    assert_eq!(parse_price(b"."), Err(PriceParseError::Malformed));
    assert_eq!(parse_price(b".5"), Err(PriceParseError::Malformed));
    assert_eq!(parse_price(b"1."), Err(PriceParseError::Malformed));
    assert_eq!(parse_price(b"1.234"), Err(PriceParseError::Malformed));
    assert_eq!(parse_price(b"1..2"), Err(PriceParseError::Malformed));
    assert_eq!(parse_price(b"a"), Err(PriceParseError::Malformed));
    assert_eq!(parse_price(b"1a.00"), Err(PriceParseError::Malformed));
    assert_eq!(parse_price(b"1.0a"), Err(PriceParseError::Malformed));
    assert_eq!(parse_price(b"-1.00"), Err(PriceParseError::Malformed));
    assert_eq!(parse_price(b"1,00"), Err(PriceParseError::Malformed));
}

#[test]
fn rejects_prices_beyond_the_fixed_point_range() {
    // u64::MAX is 18446744073709551615; one hundred times these overflows
    assert_eq!(
        parse_price(b"18446744073709551616"),
        Err(PriceParseError::TooLarge)
    );
    assert_eq!(
        parse_price(b"999999999999999999"),
        Err(PriceParseError::TooLarge)
    );
    assert_eq!(
        parse_price(b"999999999999999999.99"),
        Err(PriceParseError::TooLarge)
    );
    // the largest representable price in cents
    assert_eq!(parse_price(b"184467440737095516.15"), Ok(u64::MAX));
    assert_eq!(parse_price(b"184467440737095516.16"), Err(PriceParseError::TooLarge));
}
