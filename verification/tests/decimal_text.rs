use verilog_macro_builder::decimal::{parse_decimal_i64, usize_to_decimal};

#[test]
fn reads_plain_and_signed_numbers() {
    assert_eq!(parse_decimal_i64("123"), Some(123));
    assert_eq!(parse_decimal_i64("007"), Some(7));
    assert_eq!(parse_decimal_i64("+5"), Some(5));
    assert_eq!(parse_decimal_i64("-42"), Some(-42));
    assert_eq!(parse_decimal_i64("-0"), Some(0));
}

#[test]
fn reads_the_extremes_of_i64() {
    assert_eq!(parse_decimal_i64("9223372036854775807"), Some(i64::MAX));
    assert_eq!(parse_decimal_i64("-9223372036854775808"), Some(i64::MIN));
    assert_eq!(parse_decimal_i64("9223372036854775808"), None);
    assert_eq!(parse_decimal_i64("-9223372036854775809"), None);
    assert_eq!(parse_decimal_i64("99999999999999999999999"), None);
}

#[test]
fn refuses_what_str_parse_refuses() {
    for text in ["", "-", "+", "1_000", "12a", " 1", "--1", "+-1", "0x10"] {
        assert_eq!(parse_decimal_i64(text), None, "{text:?}");
        assert!(text.parse::<i64>().is_err());
    }
}

#[test]
fn agrees_with_str_parse() {
    for text in ["0", "1", "-1", "+1", "65535", "-4294967296", "12345678901234"] {
        assert_eq!(parse_decimal_i64(text), text.parse::<i64>().ok(), "{text:?}");
    }
}

#[test]
fn writes_decimal_text() {
    assert_eq!(usize_to_decimal(0), "0");
    assert_eq!(usize_to_decimal(7), "7");
    assert_eq!(usize_to_decimal(10), "10");
    assert_eq!(usize_to_decimal(1234567), "1234567");
    assert_eq!(usize_to_decimal(usize::MAX), usize::MAX.to_string());
}

#[test]
fn decimal_round_trip() {
    for n in [0usize, 9, 10, 99, 100, 31415, 9223372036854775807] {
        assert_eq!(parse_decimal_i64(&usize_to_decimal(n)), Some(n as i64));
        let negative = format!("-{}", usize_to_decimal(n));
        assert_eq!(parse_decimal_i64(&negative), Some(-(n as i64)));
    }
    assert_eq!(parse_decimal_i64(&format!("-{}", usize_to_decimal(9223372036854775808))), Some(i64::MIN));
}
