use bundle_link::text::{decimal, padded_decimal, parse_decimal, DecimalError};

#[test]
fn decimal_writes_digits() {
    assert_eq!(decimal(0), "0");
    assert_eq!(decimal(9), "9");
    assert_eq!(decimal(10), "10");
    assert_eq!(decimal(1234), "1234");
    assert_eq!(decimal(usize::MAX), usize::MAX.to_string());
}

#[test]
fn padded_decimal_fills_with_zeros() {
    assert_eq!(padded_decimal(0, 6), "000000");
    assert_eq!(padded_decimal(42, 6), "000042");
    assert_eq!(padded_decimal(999999, 6), "999999");
    assert_eq!(padded_decimal(1000000, 6), "1000000");
    assert_eq!(padded_decimal(7, 0), "7");
}

#[test]
fn parse_decimal_reads_what_decimal_writes() {
    for n in [0usize, 1, 9, 10, 123, 65536, usize::MAX] {
        assert_eq!(parse_decimal(&decimal(n)), Ok(n));
        assert_eq!(parse_decimal(&padded_decimal(n, 25)), Ok(n));
    }
}

#[test]
fn parse_decimal_reports_each_error() {
    assert_eq!(parse_decimal(""), Err(DecimalError::Empty));
    assert_eq!(parse_decimal("12x"), Err(DecimalError::InvalidDigit));
    assert_eq!(parse_decimal("340282366920938463463374607431768211456"), Err(DecimalError::Overflow));
}

#[test]
fn parse_decimal_agrees_with_the_standard_library() {
    let texts = [
        "", "+", "-", "0", "+0", "-0", "+7", "++7", "7+", "-1", " 1", "1 ", "1_000", "0x10",
        "18446744073709551615", "18446744073709551616", "18446744073709551620",
        "99999999999999999999999", "99999999999999999999999x", "x99999999999999999999999",
        "1844674407370955161x", "\u{661}", "1\u{fffd}", "000000000000000000000000000005",
    ];
    for text in texts {
        match (parse_decimal(text), text.parse::<usize>()) {
            (Ok(n), Ok(m)) => assert_eq!(n, m),
            (Err(e), Err(f)) => assert_eq!(e.message(), f.to_string()),
            (ours, theirs) => panic!("{:?}: {:?} against {:?}", text, ours, theirs),
        }
    }
}
