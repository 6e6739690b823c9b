use dedupy::error::ReportError;
use dedupy::money::{
    format_dollars, handle_punct, parse_cents, parse_integer, per_unit, remove_punct, render_digits,
};

#[test]
fn assert_punct() {
    assert_eq!(handle_punct("1.00").unwrap_or_default(), 100);
    assert_eq!(handle_punct("1.0").unwrap_or_default(), 100);
    assert_eq!(handle_punct("1").unwrap_or_default(), 100);
    assert_eq!(handle_punct("1,345.3").unwrap_or_default(), 134_530);
    assert_eq!(handle_punct("0.30").unwrap_or_default(), 30);
    assert!(handle_punct("0.300").is_err());
}

#[test]
fn three_decimals_are_malformed() {
    assert_eq!(handle_punct("0.300"), Err(ReportError::MalformedAmount));
    assert_eq!(parse_cents(b"12.3456"), Err(ReportError::MalformedAmount));
}

#[test]
fn scale_follows_the_last_separator() {
    assert_eq!(parse_cents(b"1,234.56"), Ok(123_456));
    assert_eq!(parse_cents(b"1.234.56"), Ok(123_456));
    assert_eq!(parse_cents(b"1.234.5"), Ok(123_450));
    assert_eq!(parse_cents(b"7."), Ok(700));
    assert_eq!(parse_cents(b"1,345"), Ok(134_500));
}

#[test]
fn signs_are_read() {
    assert_eq!(parse_cents(b"-3.50"), Ok(-350));
    assert_eq!(parse_cents(b"+5"), Ok(500));
    assert_eq!(parse_cents(b"-0.05"), Ok(-5));
    assert_eq!(parse_cents(b"0.05"), Ok(5));
}

#[test]
fn text_without_digits_is_malformed() {
    assert_eq!(parse_cents(b""), Err(ReportError::MalformedAmount));
    assert_eq!(parse_cents(b"."), Err(ReportError::MalformedAmount));
    assert_eq!(parse_cents(b"-"), Err(ReportError::MalformedAmount));
    assert_eq!(parse_cents(b"abc"), Err(ReportError::MalformedAmount));
    assert_eq!(parse_cents(b"1 00"), Err(ReportError::MalformedAmount));
    assert_eq!(parse_cents(b"$1.00"), Err(ReportError::MalformedAmount));
    assert_eq!(parse_cents(b"1-2"), Err(ReportError::MalformedAmount));
}

#[test]
fn amounts_at_the_edge_of_the_range() {
    assert_eq!(parse_cents(b"92233720368547758.07"), Ok(i64::MAX));
    assert_eq!(parse_cents(b"-92233720368547758.08"), Ok(i64::MIN));
    assert_eq!(parse_cents(b"92233720368547758.08"), Err(ReportError::MalformedAmount));
    assert_eq!(parse_cents(b"92233720368547758"), Ok(9_223_372_036_854_775_800));
    assert_eq!(parse_cents(b"92233720368547759"), Err(ReportError::MalformedAmount));
    assert_eq!(parse_cents(b"9223372036854775807"), Err(ReportError::MalformedAmount));
}

#[test]
fn integers_are_parsed_as_std_does() {
    for text in ["0", "-0", "+7", "007", "-42", "9223372036854775807", "-9223372036854775808"] {
        assert_eq!(parse_integer(text.as_bytes()), text.parse::<i64>().ok());
    }
    for text in ["", "+", "-", "1a", " 1", "9223372036854775808", "-9223372036854775809", "--1"] {
        assert_eq!(parse_integer(text.as_bytes()), None);
        assert!(text.parse::<i64>().is_err());
    }
}

#[test]
fn punctuation_is_removed() {
    assert_eq!(remove_punct(b"1,345.30"), b"134530".to_vec());
    assert_eq!(remove_punct(b".,"), Vec::<u8>::new());
    assert_eq!(remove_punct(b"-12"), b"-12".to_vec());
}

#[test]
fn zero_quantity_falls_back_to_the_total() {
    assert_eq!(per_unit(250, 0), 250);
    assert_eq!(per_unit(-250, 0), -250);
}

#[test]
fn unit_price_rounds_towards_zero() {
    assert_eq!(per_unit(1000, 4), 250);
    assert_eq!(per_unit(7, 2), 3);
    assert_eq!(per_unit(-7, 2), -3);
    assert_eq!(per_unit(7, -2), -3);
    assert_eq!(per_unit(-7, -2), 3);
    assert_eq!(per_unit(0, 5), 0);
    assert_eq!(per_unit(i64::MIN, -1), i64::MIN);
    assert_eq!(per_unit(i64::MIN, 1), i64::MIN);
    assert_eq!(per_unit(i64::MAX, -1), -i64::MAX);
}

#[test]
fn cents_are_written_as_whole_units() {
    assert_eq!(format_dollars(100), b"1".to_vec());
    assert_eq!(format_dollars(150), b"1.5".to_vec());
    assert_eq!(format_dollars(134_530), b"1345.3".to_vec());
    assert_eq!(format_dollars(30), b"0.3".to_vec());
    assert_eq!(format_dollars(5), b"0.05".to_vec());
    assert_eq!(format_dollars(-5), b"-0.05".to_vec());
    assert_eq!(format_dollars(-350), b"-3.5".to_vec());
    assert_eq!(format_dollars(0), b"0".to_vec());
    assert_eq!(format_dollars(1999), b"19.99".to_vec());
    assert_eq!(format_dollars(i64::MAX), b"92233720368547758.07".to_vec());
    assert_eq!(format_dollars(i64::MIN), b"-92233720368547758.08".to_vec());
    assert_eq!(render_digits(0), b"0".to_vec());
    assert_eq!(render_digits(u64::MAX), b"18446744073709551615".to_vec());
}

#[test]
fn written_cents_match_the_float_rendering() {
    for cents in [0i64, 1, 5, 10, 30, 99, 100, 101, 150, 1999, 134_530, -1, -350, -500, 12_345_678] {
        let text = String::from_utf8(format_dollars(cents)).unwrap();
        assert_eq!(text, format!("{}", cents as f64 / 100.0));
    }
}

#[test]
fn amounts_survive_the_way_out_and_back() {
    for text in ["1.00", "1.0", "1", "1,345.3", "0.30", "-12.5", "0", "-0.01", "7."] {
        let cents = parse_cents(text.as_bytes()).unwrap();
        assert_eq!(parse_cents(&format_dollars(cents)), Ok(cents));
    }
    for cents in [i64::MIN, -101, -100, -99, -10, -1, 0, 1, 9, 10, 11, 99, 100, i64::MAX] {
        assert_eq!(parse_cents(&format_dollars(cents)), Ok(cents));
    }
}
