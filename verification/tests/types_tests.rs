use parse_rust::compiler::FormatSpec;
use parse_rust::result::ParseValue;
use parse_rust::types::{convert_value, dt_format_to_regex, FormatType};

fn spec(format_string: &str, format_type: FormatType) -> FormatSpec {
    FormatSpec {
        format_string: format_string.to_string(),
        format_type,
        ..FormatSpec::default()
    }
}

#[test]
fn test_format_type_from_str() {
    assert_eq!(FormatType::from_str("d"), Some(FormatType::Decimal));
    assert_eq!(FormatType::from_str("f"), Some(FormatType::Float));
    assert_eq!(FormatType::from_str("ti"), Some(FormatType::DateTimeISO));
    assert_eq!(FormatType::from_str(""), Some(FormatType::Default));
    assert_eq!(FormatType::from_str("z"), None);
}

#[test]
fn test_convert_decimal() {
    match convert_value("42", &spec("d", FormatType::Decimal)) {
        Ok(ParseValue::Int(v)) => assert_eq!(v, 42),
        other => panic!("Expected Int(42), got {:?}", other),
    }
}

#[test]
fn test_convert_negative_decimal() {
    match convert_value("-17", &spec("d", FormatType::Decimal)) {
        Ok(ParseValue::Int(v)) => assert_eq!(v, -17),
        other => panic!("Expected Int(-17), got {:?}", other),
    }
}

#[test]
fn test_convert_hex() {
    match convert_value("0xFF", &spec("x", FormatType::Hex)) {
        Ok(ParseValue::Int(v)) => assert_eq!(v, 255),
        other => panic!("Expected Int(255), got {:?}", other),
    }
}

#[test]
fn test_convert_binary() {
    match convert_value("0b1010", &spec("b", FormatType::Binary)) {
        Ok(ParseValue::Int(v)) => assert_eq!(v, 10),
        other => panic!("Expected Int(10), got {:?}", other),
    }
}

#[test]
fn test_convert_octal() {
    match convert_value("0o77", &spec("o", FormatType::Octal)) {
        Ok(ParseValue::Int(v)) => assert_eq!(v, 63),
        other => panic!("Expected Int(63), got {:?}", other),
    }
}

#[test]
fn test_convert_float() {
    match convert_value("3.14", &spec("f", FormatType::Float)) {
        Ok(ParseValue::Float(v)) => assert!((v.parse::<f64>().unwrap() - 3.14).abs() < 1e-10),
        other => panic!("Expected Float(3.14), got {:?}", other),
    }
}

#[test]
fn test_convert_percentage() {
    match convert_value("50%", &spec("%", FormatType::Percentage)) {
        Ok(ParseValue::Percent(v)) => assert!((v.parse::<f64>().unwrap() / 100.0 - 0.5).abs() < 1e-10),
        other => panic!("Expected Percent(0.5), got {:?}", other),
    }
}

#[test]
fn test_convert_number_with_sep() {
    match convert_value("1,000,000", &spec("n", FormatType::NumberWithSeparator)) {
        Ok(ParseValue::Int(v)) => assert_eq!(v, 1_000_000),
        other => panic!("Expected Int(1000000), got {:?}", other),
    }
}

#[test]
fn test_convert_string_types() {
    match convert_value("hello", &spec("w", FormatType::Word)) {
        Ok(ParseValue::Str(v)) => assert_eq!(v, "hello"),
        other => panic!("Expected Str(hello), got {:?}", other),
    }
}

#[test]
fn test_string_type_regex_semantics() {
    let (string_regex, string_groups) = FormatType::NonWhitespace.regex_pattern();
    assert_eq!(string_regex, r".+");
    assert_eq!(string_groups, 0);

    let (non_space_regex, non_space_groups) = FormatType::Whitespace.regex_pattern();
    assert_eq!(non_space_regex, r"\S+");
    assert_eq!(non_space_groups, 0);
}

#[test]
fn test_convert_float_decimal_preserves_text() {
    match convert_value("12.3400", &spec("F", FormatType::FloatDecimal)) {
        Ok(ParseValue::Decimal(v)) => assert_eq!(v, "12.3400"),
        other => panic!("Expected Decimal(12.3400), got {:?}", other),
    }
}

#[test]
fn test_datetime_token_regex_helpers() {
    assert_eq!(dt_format_to_regex("%Y-%m-%d"), "[0-9]{4}-[0-9]{1,2}-[0-9]{1,2}");
    assert_eq!(dt_format_to_regex("%H:%M:%S"), "[0-9]{1,2}:[0-9]{2}:[0-9]{2}");
}

#[test]
fn test_is_numeric() {
    assert!(FormatType::Decimal.is_numeric());
    assert!(FormatType::Float.is_numeric());
    assert!(!FormatType::Word.is_numeric());
    assert!(!FormatType::Default.is_numeric());
}

#[test]
fn test_is_datetime() {
    assert!(FormatType::DateTimeISO.is_datetime());
    assert!(FormatType::TimeOnly.is_datetime());
    assert!(!FormatType::Decimal.is_datetime());
}

#[test]
fn test_custom_datetime_regex() {
    let (regex, groups) = FormatType::CustomDateTime("%Y-%m-%d".to_string()).regex_pattern();
    assert_eq!(groups, 0);
    assert_eq!(regex, "[0-9]{4}-[0-9]{1,2}-[0-9]{1,2}");
}

#[test]
fn float_text_is_checked_before_it_is_kept() {
    match convert_value("abc", &spec("f", FormatType::Float)) {
        Err(msg) => assert_eq!(msg, "Failed to parse float 'abc': invalid float literal"),
        other => panic!("Expected an error, got {:?}", other),
    }
    match convert_value("", &spec("e", FormatType::Scientific)) {
        Err(msg) => assert_eq!(msg, "Failed to parse scientific '': cannot parse float from empty string"),
        other => panic!("Expected an error, got {:?}", other),
    }
    match convert_value("1.2.3", &spec("g", FormatType::GeneralFloat)) {
        Err(msg) => assert_eq!(msg, "Failed to parse general float '1.2.3': invalid float literal"),
        other => panic!("Expected an error, got {:?}", other),
    }
    for ok in ["-1.5", "+2", ".5", "5.", "1e5", "1.5E-3", "inf", "-Infinity", "NaN"] {
        match convert_value(ok, &spec("f", FormatType::Float)) {
            Ok(ParseValue::Float(v)) => assert_eq!(v, ok),
            other => panic!("Expected Float for {}, got {:?}", ok, other),
        }
    }
    for bad in [".", "e5", "1e", "--1", "1 "] {
        assert!(convert_value(bad, &spec("f", FormatType::Float)).is_err(), "{}", bad);
    }
}

#[test]
fn percentages_check_the_number_before_the_sign() {
    match convert_value("-12.5%", &spec("%", FormatType::Percentage)) {
        Ok(ParseValue::Percent(v)) => assert_eq!(v, "-12.5"),
        other => panic!("Expected Percent, got {:?}", other),
    }
    match convert_value("abc%", &spec("%", FormatType::Percentage)) {
        Err(msg) => assert_eq!(msg, "Failed to parse percentage 'abc%': invalid float literal"),
        other => panic!("Expected an error, got {:?}", other),
    }
}

#[test]
fn custom_datetime_counts_the_groups_of_its_fragments() {
    assert_eq!(FormatType::CustomDateTime("%H:%M %z".to_string()).regex_pattern().1, 2);
    assert_eq!(FormatType::CustomDateTime("%Y-%m-%d".to_string()).regex_pattern().1, 0);
    assert_eq!(FormatType::Binary.regex_pattern().1, 1);
    assert_eq!(FormatType::GeneralFloat.regex_pattern().1, 2);
    assert_eq!(FormatType::Scientific.regex_pattern().1, 0);
}
