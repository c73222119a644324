use temp_checker::text::{
    one_decimal_text, parse_int, parse_milli, second_word_of, signed_one_decimal_text, trim_text,
};

#[test]
fn decimal_numbers_in_thousandths() {
    assert_eq!(parse_milli("42.5"), Some(42500));
    assert_eq!(parse_milli("-3.1416"), Some(-3141));
    assert_eq!(parse_milli(".5"), Some(500));
    assert_eq!(parse_milli("5."), Some(5000));
    assert_eq!(parse_milli("+3"), Some(3000));
    assert_eq!(parse_milli("9223372036854775.807"), Some(9223372036854775807));
    assert_eq!(parse_milli("9223372036854775.808"), None);
    assert_eq!(parse_milli("-"), None);
    assert_eq!(parse_milli("."), None);
    assert_eq!(parse_milli(""), None);
    assert_eq!(parse_milli("N/A"), None);
    assert_eq!(parse_milli("1e5"), Some(100000000));
}

#[test]
fn decimal_numbers_with_exponent() {
    assert_eq!(parse_milli("5e-1"), Some(500));
    assert_eq!(parse_milli("4.5E1"), Some(45000));
    assert_eq!(parse_milli("1e-5"), Some(0));
    assert_eq!(parse_milli("-1.5e+2"), Some(-150000));
    assert_eq!(parse_milli("123456e-7"), Some(12));
    assert_eq!(parse_milli(".5e1"), Some(5000));
    assert_eq!(parse_milli("0e999999999999999999999999999999999999"), Some(0));
    assert_eq!(parse_milli("1e999999999999999999999999999999999999"), None);
    assert_eq!(parse_milli("7e-999999999999999999999999999999999999"), Some(0));
    assert_eq!(parse_milli("9.223372036854775807e15"), Some(9223372036854775807));
    assert_eq!(parse_milli("1e16"), None);
    assert_eq!(parse_milli("1e"), None);
    assert_eq!(parse_milli("1e+"), None);
    assert_eq!(parse_milli("e5"), None);
    assert_eq!(parse_milli("1.5e2x"), None);
}

#[test]
fn integers_in_i32_range() {
    assert_eq!(parse_int("3"), Some(3));
    assert_eq!(parse_int("-1"), Some(-1));
    assert_eq!(parse_int("+7"), Some(7));
    assert_eq!(parse_int("2147483647"), Some(2147483647));
    assert_eq!(parse_int("-2147483648"), Some(-2147483648));
    assert_eq!(parse_int("2147483648"), None);
    assert_eq!(parse_int("3a"), None);
    assert_eq!(parse_int(""), None);
}

#[test]
fn second_word_and_trim() {
    assert_eq!(second_word_of("Core 3"), Some("3"));
    assert_eq!(second_word_of("  Core\t 12 extra"), Some("12"));
    assert_eq!(second_word_of("Core"), None);
    assert_eq!(second_word_of("Core   "), None);
    assert_eq!(trim_text(" \t61 \n"), "61");
    assert_eq!(trim_text("   "), "");
}

#[test]
fn one_decimal_place() {
    assert_eq!(one_decimal_text(45000), "45.0");
    assert_eq!(one_decimal_text(45050), "45.1");
    assert_eq!(one_decimal_text(49949), "49.9");
    assert_eq!(one_decimal_text(-40), "-0.0");
    assert_eq!(one_decimal_text(-5000), "-5.0");
    assert_eq!(signed_one_decimal_text(0), "+0.0");
    assert_eq!(signed_one_decimal_text(-5000), "-5.0");
    assert_eq!(signed_one_decimal_text(12345), "+12.3");
}
