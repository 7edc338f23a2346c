use hddwiper::size::{parse_num_bytes, SizeError};

#[test]
fn test_parse_num_bytes() {
    assert!(parse_num_bytes("").is_err());
    assert_eq!(0, parse_num_bytes("0").unwrap());
    assert!(parse_num_bytes(".5").is_err());
    assert!(parse_num_bytes("0.5").is_err());
    assert_eq!(1, parse_num_bytes("1").unwrap());
    assert_eq!(500, parse_num_bytes("500").unwrap());
    assert!(parse_num_bytes("500.123").is_err());
    assert_eq!(100_000, parse_num_bytes("100000").unwrap());

    assert!(parse_num_bytes("k").is_err());
    assert_eq!(0, parse_num_bytes("0k").unwrap());
    assert_eq!(512, parse_num_bytes(".5k").unwrap());
    assert_eq!(512, parse_num_bytes("0.5k").unwrap());
    assert_eq!(1024, parse_num_bytes("1k").unwrap());
    assert_eq!(500 * 1024, parse_num_bytes("500k").unwrap());
    assert_eq!(
        (500.123f64 * 1024f64) as u64,
        parse_num_bytes("500.123k").unwrap()
    );
    assert_eq!(100_000 * 1024, parse_num_bytes("100000k").unwrap());

    assert!(parse_num_bytes("K").is_err());
    assert_eq!(0, parse_num_bytes("0K").unwrap());
    assert_eq!(512, parse_num_bytes(".5K").unwrap());
    assert_eq!(512, parse_num_bytes("0.5K").unwrap());
    assert_eq!(1024, parse_num_bytes("1K").unwrap());
    assert_eq!(500 * 1024, parse_num_bytes("500K").unwrap());
    assert_eq!(
        (500.123f64 * 1024f64) as u64,
        parse_num_bytes("500.123K").unwrap()
    );
    assert_eq!(100_000 * 1024, parse_num_bytes("100000K").unwrap());

    assert!(parse_num_bytes("m").is_err());
    assert_eq!(0, parse_num_bytes("0m").unwrap());
    assert_eq!(512 * 1024, parse_num_bytes(".5m").unwrap());
    assert_eq!(512 * 1024, parse_num_bytes("0.5m").unwrap());
    assert_eq!(1024 * 1024, parse_num_bytes("1m").unwrap());
    assert_eq!(500 * 1024 * 1024, parse_num_bytes("500m").unwrap());
    assert_eq!(
        (500.123f64 * 1024f64 * 1024f64) as u64,
        parse_num_bytes("500.123m").unwrap()
    );
    assert_eq!(100_000 * 1024 * 1024, parse_num_bytes("100000m").unwrap());

    assert!(parse_num_bytes("M").is_err());
    assert_eq!(0, parse_num_bytes("0M").unwrap());
    assert_eq!(512 * 1024, parse_num_bytes(".5M").unwrap());
    assert_eq!(512 * 1024, parse_num_bytes("0.5M").unwrap());
    assert_eq!(1024 * 1024, parse_num_bytes("1M").unwrap());
    assert_eq!(500 * 1024 * 1024, parse_num_bytes("500M").unwrap());
    assert_eq!(
        (500.123f64 * 1024f64 * 1024f64) as u64,
        parse_num_bytes("500.123M").unwrap()
    );
    assert_eq!(100_000 * 1024 * 1024, parse_num_bytes("100000M").unwrap());

    assert!(parse_num_bytes("g").is_err());
    assert_eq!(0, parse_num_bytes("0g").unwrap());
    assert_eq!(512 * 1024 * 1024, parse_num_bytes(".5g").unwrap());
    assert_eq!(512 * 1024 * 1024, parse_num_bytes("0.5g").unwrap());
    assert_eq!(1024 * 1024 * 1024, parse_num_bytes("1g").unwrap());
    assert_eq!(500 * 1024 * 1024 * 1024, parse_num_bytes("500g").unwrap());
    assert_eq!(
        (500.123f64 * 1024f64 * 1024f64 * 1024f64) as u64,
        parse_num_bytes("500.123g").unwrap()
    );
    assert_eq!(
        100_000 * 1024 * 1024 * 1024,
        parse_num_bytes("100000g").unwrap()
    );

    assert!(parse_num_bytes("G").is_err());
    assert_eq!(0, parse_num_bytes("0G").unwrap());
    assert_eq!(512 * 1024 * 1024, parse_num_bytes(".5G").unwrap());
    assert_eq!(512 * 1024 * 1024, parse_num_bytes("0.5G").unwrap());
    assert_eq!(1024 * 1024 * 1024, parse_num_bytes("1G").unwrap());
    assert_eq!(500 * 1024 * 1024 * 1024, parse_num_bytes("500G").unwrap());
    assert_eq!(
        (500.123f64 * 1024f64 * 1024f64 * 1024f64) as u64,
        parse_num_bytes("500.123G").unwrap()
    );
    assert_eq!(
        100_000 * 1024 * 1024 * 1024,
        parse_num_bytes("100000G").unwrap()
    );

    assert!(parse_num_bytes("t").is_err());
    assert_eq!(0, parse_num_bytes("0t").unwrap());
    assert_eq!(512 * 1024 * 1024 * 1024, parse_num_bytes(".5t").unwrap());
    assert_eq!(512 * 1024 * 1024 * 1024, parse_num_bytes("0.5t").unwrap());
    assert_eq!(1024 * 1024 * 1024 * 1024, parse_num_bytes("1t").unwrap());
    assert_eq!(
        500 * 1024 * 1024 * 1024 * 1024,
        parse_num_bytes("500t").unwrap()
    );
    assert_eq!(
        (500.123f64 * 1024f64 * 1024f64 * 1024f64 * 1024f64) as u64,
        parse_num_bytes("500.123t").unwrap()
    );
    assert_eq!(
        100_000 * 1024 * 1024 * 1024 * 1024,
        parse_num_bytes("100000t").unwrap()
    );

    assert!(parse_num_bytes("T").is_err());
    assert_eq!(0, parse_num_bytes("0T").unwrap());
    assert_eq!(512 * 1024 * 1024 * 1024, parse_num_bytes(".5T").unwrap());
    assert_eq!(512 * 1024 * 1024 * 1024, parse_num_bytes("0.5T").unwrap());
    assert_eq!(1024 * 1024 * 1024 * 1024, parse_num_bytes("1T").unwrap());
    assert_eq!(
        500 * 1024 * 1024 * 1024 * 1024,
        parse_num_bytes("500T").unwrap()
    );
    assert_eq!(
        (500.123f64 * 1024f64 * 1024f64 * 1024f64 * 1024f64) as u64,
        parse_num_bytes("500.123T").unwrap()
    );
    assert_eq!(
        100_000 * 1024 * 1024 * 1024 * 1024,
        parse_num_bytes("100000T").unwrap()
    );

    assert!(parse_num_bytes("abc").is_err());
    assert!(parse_num_bytes("5c").is_err());
    assert!(parse_num_bytes("abc4").is_err());
    assert!(parse_num_bytes("a4bc4").is_err());
}

#[test]
fn parse_reports_each_error_kind() {
    assert_eq!(parse_num_bytes(""), Err(SizeError::Empty));
    assert_eq!(parse_num_bytes("1.2.3k"), Err(SizeError::Invalid));
    assert_eq!(parse_num_bytes("."), Err(SizeError::Invalid));
    assert_eq!(parse_num_bytes(".k"), Err(SizeError::Invalid));
    assert_eq!(parse_num_bytes("18446744073709551616"), Err(SizeError::TooLarge));
    assert_eq!(parse_num_bytes("18446744073709551616k"), Err(SizeError::TooLarge));
}

#[test]
fn parse_edges() {
    assert_eq!(parse_num_bytes("18446744073709551615"), Ok(u64::MAX));
    assert_eq!(parse_num_bytes("18446744073709551615T"), Ok(u64::MAX));
    assert_eq!(parse_num_bytes("1."), Err(SizeError::Invalid));
    assert_eq!(parse_num_bytes("1.k"), Ok(1024));
    assert_eq!(parse_num_bytes("0.1234567890123456789k"), Ok(126));
    assert_eq!(parse_num_bytes("0.12345678901234567890k"), Ok(126));
    assert_eq!(parse_num_bytes("0.99999999999999999999999999999999999999999T"), Ok(1099511627775));
    assert_eq!(parse_num_bytes("1.00000000000000000000000000000000000000001k"), Ok(1024));
    assert_eq!(parse_num_bytes("0.000000000000000000000000000001T"), Ok(0));
    assert_eq!(parse_num_bytes("0.5M"), Ok(524288));
    assert_eq!(parse_num_bytes("500.123G"), Ok(537002982244));
}
