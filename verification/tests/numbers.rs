use rustysozluk::numbers::{commas_to_points, decimal, is_digit_char, is_number, parse_integer};

#[test]
fn digits_are_the_ten_ascii_digits() {
    assert!(is_digit_char('0'));
    assert!(is_digit_char('9'));
    assert!(!is_digit_char('a'));
    assert!(!is_digit_char('/'));
    assert!(!is_digit_char(':'));
    assert!(!is_digit_char('٣'));
}

#[test]
fn whole_and_decimal_numbers_are_numbers() {
    for text in ["0", "12", "2.5", "-1.0", "+3.25", ".5", "5.", "-.5", "007", "1e5", "1.5E-3", "2e+10", ".5e1", "5.e1"] {
        assert!(is_number(text), "{}", text);
    }
}

#[test]
fn names_of_infinity_and_nan_are_numbers() {
    for text in ["inf", "-inf", "+INF", "Infinity", "-infinity", "nan", "NaN", "+nan"] {
        assert!(is_number(text), "{}", text);
    }
}

#[test]
fn other_texts_are_no_numbers() {
    for text in [
        "", "+", "-", ".", "e5", "1e", "1e+", "abc", "1,5", " 1", "1 ", "1.2.3", "--1", "1_000",
        "0x10", "infin", "infinityx", "na", "1e5.0", "+-1", "١٢",
    ] {
        assert!(!is_number(text), "{}", text);
    }
}

#[test]
fn numbers_are_what_the_standard_library_parses() {
    for text in [
        "0", "2.5", "-1.0", ".5", "5.", ".", "", "+", "1e5", "1e", "e1", "inf", "-Infinity",
        "nAn", "nan ", "1,5", "1.5.2", "+.e1", "+.0e-0", "1E+", "..", "5.e", "٣",
    ] {
        assert_eq!(is_number(text), text.parse::<f32>().is_ok(), "{}", text);
    }
}

#[test]
fn commas_become_points() {
    assert_eq!(commas_to_points("2,5"), "2.5");
    assert_eq!(commas_to_points("-0,75"), "-0.75");
    assert_eq!(commas_to_points("1,2,3"), "1.2.3");
    assert_eq!(commas_to_points("1.5"), "1.5");
    assert_eq!(commas_to_points(""), "");
}

#[test]
fn integers_with_and_without_sign() {
    assert_eq!(parse_integer("0"), Some(0));
    assert_eq!(parse_integer("1"), Some(1));
    assert_eq!(parse_integer("-1"), Some(-1));
    assert_eq!(parse_integer("+1"), Some(1));
    assert_eq!(parse_integer("-0"), Some(0));
    assert_eq!(parse_integer("007"), Some(7));
    assert_eq!(parse_integer("12345"), Some(12345));
}

#[test]
fn integers_at_the_ends_of_the_range() {
    assert_eq!(parse_integer("2147483647"), Some(i32::MAX));
    assert_eq!(parse_integer("-2147483648"), Some(i32::MIN));
    assert_eq!(parse_integer("2147483648"), None);
    assert_eq!(parse_integer("-2147483649"), None);
    assert_eq!(parse_integer("99999999999999999999999999"), None);
    assert_eq!(parse_integer("00000000000000000000000001"), Some(1));
}

#[test]
fn what_is_no_integer() {
    for text in ["", "+", "-", "1.0", "1 ", " 1", "a", "1a", "--1", "+-1", "1_0", "٣"] {
        assert_eq!(parse_integer(text), None, "{}", text);
    }
}

#[test]
fn integers_are_what_the_standard_library_parses() {
    for text in ["0", "-1", "+1", "", "-", "2147483647", "2147483648", "-2147483648", "1.0", "x", "0009", "-0"] {
        assert_eq!(parse_integer(text), text.parse::<i32>().ok(), "{}", text);
    }
}

#[test]
fn decimal_writes_numbers_in_base_ten() {
    assert_eq!(decimal(0), "0");
    assert_eq!(decimal(7), "7");
    assert_eq!(decimal(10), "10");
    assert_eq!(decimal(12345), "12345");
    assert_eq!(decimal(u64::MAX as u128), u64::MAX.to_string());
    assert_eq!(decimal(u128::MAX), u128::MAX.to_string());
}
