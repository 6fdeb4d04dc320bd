//! Edge cases, error variants and the calls into the regex engine.

use parse_rust::api::{
    classify_error, converter_fields, converter_input, spec_items, split_field_path, ConverterInput,
    ErrorKind, SpecItem,
};
use parse_rust::compiler::{compile_format, compile_format_with_custom, parse_format_spec, CustomTypePattern};
use parse_rust::datetime::{datetime_plan, fraction_is_cuttable, normalize_iso, plan_is_computable, Finish};
use parse_rust::datetime::{normalize_fractional_seconds, normalize_short_tz_offset};
use parse_rust::engine::{regex_error_message, CompiledRegex};
use parse_rust::parser::{evaluate_match, findall, parse, search, Parser};
use parse_rust::result::{FieldMap, ParseValue};
use parse_rust::text::{byte_to_char_index, char_is_alphabetic, slice_for_char_range};
use parse_rust::types::{convert_value, try_convert_value, FormatType};

#[test]
fn repeated_field_conflict_is_reported_with_its_name() {
    let parser = Parser::new("{name:w} {name:w}", false).unwrap();
    match parser.parse_with_error("Alice Bob") {
        Err(msg) => assert_eq!(msg, "RepeatedNameError: field 'name' matched conflicting values"),
        other => panic!("Expected a conflict, got {:?}", other),
    }
    let same = parser.parse_with_error("Alice Alice").unwrap().unwrap();
    match same.named.get("name") {
        Some(ParseValue::Str(s)) => assert_eq!(s, "Alice"),
        other => panic!("Expected Str, got {:?}", other),
    }
    assert!(parser.parse_with_error("Alice").unwrap().is_none());
}

#[test]
fn repeated_field_with_another_type_is_refused() {
    match Parser::new("{a:d} {a:w}", false) {
        Err(msg) => assert!(msg.starts_with("RepeatedNameError: field type 'w' for field 'a'")),
        Ok(_) => panic!("Expected a compile error"),
    }
}

#[test]
fn refused_custom_pattern_reports_the_match_regex() {
    let mut custom = FieldMap::new();
    custom.insert(
        "Bad".to_string(),
        CustomTypePattern {
            pattern: "(".to_string(),
            regex_group_count: 0,
        },
    );
    match Parser::new_with_custom("{:Bad}", false, &custom) {
        Err(msg) => assert!(msg.starts_with("Failed to compile match regex '\\A(?i)(()\\z': ")),
        Ok(_) => panic!("Expected a regex error"),
    }
}

#[test]
fn custom_type_keeps_the_text() {
    let mut custom = FieldMap::new();
    custom.insert(
        "Hex".to_string(),
        CustomTypePattern {
            pattern: "[0-9a-f]+".to_string(),
            regex_group_count: 0,
        },
    );
    let parser = Parser::new_with_custom("id={id:Hex}", false, &custom).unwrap();
    let result = parser.parse("id=ff").unwrap();
    match result.named.get("id") {
        Some(ParseValue::Str(s)) => assert_eq!(s, "ff"),
        other => panic!("Expected Str(ff), got {:?}", other),
    }
    let slots = converter_fields(parser.fields());
    assert_eq!(slots.len(), 1);
    assert_eq!(slots[0].field_name, "id");
    assert_eq!(slots[0].type_label, "Hex");
    match converter_input(&result, "id", None) {
        ConverterInput::Text(t) => assert_eq!(t, "ff"),
        other => panic!("Expected Text, got {:?}", other),
    }
    assert!(matches!(converter_input(&result, "other", None), ConverterInput::MissingField));
    assert!(matches!(converter_input(&result, "id", Some(3)), ConverterInput::MissingIndex(3)));
}

#[test]
fn converter_skips_values_that_are_not_text() {
    let result = parse("{:d}", "12", false).unwrap();
    assert!(matches!(converter_input(&result, "", Some(0)), ConverterInput::Skip));
}

#[test]
fn errors_are_classified_by_their_tag() {
    let (kind, msg) = classify_error("RepeatedNameError:  field clash ");
    assert_eq!(kind, ErrorKind::RepeatedName);
    assert_eq!(msg, "field clash");
    let (kind, msg) = classify_error("NotImplementedError: nope");
    assert_eq!(kind, ErrorKind::NotImplemented);
    assert_eq!(msg, "nope");
    let (kind, msg) = classify_error("Unknown format type: 'q'");
    assert_eq!(kind, ErrorKind::Value);
    assert_eq!(msg, "Unknown format type: 'q'");
}

#[test]
fn unknown_type_is_refused() {
    match compile_format("{:q}", false) {
        Err(msg) => assert_eq!(msg, "Unknown format type: 'q'"),
        Ok(_) => panic!("Expected an error"),
    }
    assert!(parse("{:q}", "x", false).is_none());
    assert!(findall("{:q}", "x", 0, None, false).is_empty());
}

#[test]
fn spec_items_list_the_parts_present() {
    let spec = parse_format_spec("*>010,.2f").unwrap();
    let items = spec_items(&spec);
    let keys: Vec<&str> = items.iter().map(|(k, _)| k.as_str()).collect();
    assert_eq!(keys, vec!["fill", "align", "zero", "width", "grouping", "precision", "type"]);
    match &items[3].1 {
        SpecItem::Text(t) => assert_eq!(t, "10"),
        other => panic!("Expected Text, got {:?}", other),
    }
    assert!(matches!(items[2].1, SpecItem::Flag));
    assert!(spec_items(&parse_format_spec("").unwrap()).is_empty());
}

#[test]
fn field_paths_split_bracketed_names() {
    let (base, keys) = split_field_path("a[b][c]x").unwrap();
    assert_eq!(base, "a");
    assert_eq!(keys, vec!["b".to_string(), "c".to_string()]);
    assert!(split_field_path("a[b").is_none());
    let (base, keys) = split_field_path("plain").unwrap();
    assert_eq!(base, "plain");
    assert!(keys.is_empty());
}

#[test]
fn unclosed_bracket_name_is_kept_whole() {
    let result = parse("{a[b:w}", "zz", false);
    if let Some(result) = result {
        assert!(result.named.get("a").is_none() || result.named.get("a[b").is_some());
    }
}

#[test]
fn short_offsets_gain_a_leading_zero() {
    assert_eq!(normalize_short_tz_offset("no offset"), "no offset");
    assert_eq!(normalize_short_tz_offset("10:00 +12:00"), "10:00 +12:00");
    assert_eq!(normalize_short_tz_offset("10:00 +1230"), "10:00 +1230");
    assert_eq!(normalize_short_tz_offset("10:00 -9:30"), "10:00 -09:30");
}

#[test]
fn fractions_are_written_with_six_digits() {
    assert_eq!(normalize_fractional_seconds("12:00:00"), None);
    assert_eq!(
        normalize_fractional_seconds("12:00:00.5+05:00").as_deref(),
        Some("12:00:00.500000+05:00")
    );
    assert_eq!(normalize_fractional_seconds("12:00:00.123456").as_deref(), Some("12:00:00.123456"));
    assert!(fraction_is_cuttable("1.1234é"));
    assert!(fraction_is_cuttable("1.123456é"));
    assert!(!fraction_is_cuttable("1.12345é"));
}

#[test]
fn iso_text_is_normalized_for_strptime() {
    assert_eq!(normalize_iso("1997-07-16T19:20Z"), "1997-07-16 19:20+00:00");
    assert_eq!(normalize_iso("1997-07-16T19:20 +01:00"), "1997-07-16 19:20+01:00");
}

#[test]
fn datetime_plans_follow_the_type() {
    let plan = datetime_plan("Oct 11 22:14:15", "ts");
    assert!(plan.replace_year);
    assert_eq!(plan.attempts.len(), 1);
    assert_eq!(plan.attempts[0].format, "%b %d %H:%M:%S");

    let plan = datetime_plan("10:21 +1:00", "tt");
    assert_eq!(plan.attempts[0].text, "10:21 +01:00");
    assert!(matches!(plan.attempts[0].finish, Finish::TimeWithZone));
    assert!(matches!(plan.attempts[2].finish, Finish::Time));

    let plan = datetime_plan("10:21", "%H:%M");
    assert!(plan.required.is_some());
    assert!(plan.attempts.is_empty());
    assert!(plan.replace_year);
    assert!(matches!(plan.required.unwrap().finish, Finish::Time));

    let plan = datetime_plan("2020-01-02", "%Y-%m-%d");
    assert!(!plan.replace_year);
    assert!(matches!(plan.required.unwrap().finish, Finish::Date));

    let plan = datetime_plan("x", "zz");
    assert!(plan.required.is_none() && plan.attempts.is_empty());

    let plan = datetime_plan("1997-07-16T19:20:30.25Z", "ti");
    assert_eq!(plan.attempts.len(), 17);
    assert_eq!(plan.attempts[13].text, "1997-07-16 19:20:30.250000+00:00");

    assert!(plan_is_computable("x", "te"));
    assert!(!plan_is_computable("2020-01-02T10:00:00.12345éé", "ti"));
}

#[test]
fn conversion_failures_and_overflow() {
    let spec = parse_format_spec("d").unwrap();
    match convert_value("abc", &spec) {
        Err(msg) => assert!(msg.starts_with("Failed to parse integer 'abc'")),
        other => panic!("Expected an error, got {:?}", other),
    }
    assert!(try_convert_value("--9223372036854775808", &spec).is_none());
    match convert_value("-9223372036854775807", &spec) {
        Ok(ParseValue::Int(v)) => assert_eq!(v, -9223372036854775807),
        other => panic!("Expected Int, got {:?}", other),
    }
}

#[test]
fn digits_outside_ascii_fall_back_to_text() {
    let result = parse("{:d}", "٣٣", false).unwrap();
    match &result.fixed[0] {
        ParseValue::Str(s) => assert_eq!(s, "٣٣"),
        other => panic!("Expected Str, got {:?}", other),
    }
}

#[test]
fn datetime_fields_keep_their_text_and_type() {
    let result = parse("at {:ti}", "at 1997-07-16T19:20Z", false).unwrap();
    match &result.fixed[0] {
        ParseValue::DateTime { raw, format } => {
            assert_eq!(raw, "1997-07-16T19:20Z");
            assert_eq!(format, "ti");
        }
        other => panic!("Expected DateTime, got {:?}", other),
    }
    assert_eq!(FormatType::from_str("%Y"), None);
    assert_eq!(
        parse_format_spec("%Y").unwrap().format_type,
        FormatType::CustomDateTime("%Y".to_string())
    );
}

#[test]
fn search_and_findall_ranges() {
    assert!(search("{:d}", "abc", 5, None, false).is_none());
    assert!(search("{:d}", "a1b", 2, Some(1), false).is_none());
    assert!(findall("{:d}", "a1b", 5, None, false).is_empty());
    let results = findall("{:d}", "1 2 3 4", 2, Some(5), false);
    assert_eq!(results.len(), 2);
    assert_eq!(results[0].fixed_spans[0], (2, 3));
    assert_eq!(results[1].fixed_spans[0], (3, 5));
    assert_eq!(results[1].fixed[0], ParseValue::Int(3));
}

#[test]
fn character_ranges_and_offsets() {
    let (sub, off) = slice_for_char_range("aé€b", 1, Some(3)).unwrap();
    assert_eq!(sub, "é€");
    assert_eq!(off, 1);
    assert!(slice_for_char_range("ab", 3, None).is_none());
    assert_eq!(slice_for_char_range("ab", 2, None).unwrap().0, "");
    assert_eq!(byte_to_char_index("aé€b", 6), 3);
    assert!(char_is_alphabetic('é'));
    assert!(!char_is_alphabetic('1'));
}

#[test]
fn regex_engine_calls() {
    let re = CompiledRegex::compile("(?P<w>[a-z]+)-(\\d+)").unwrap();
    let caps = re.captures("xx ab-12 yy").unwrap();
    assert_eq!(caps, vec![Some((3, 8)), Some((3, 5)), Some((6, 8))]);
    assert_eq!(re.capture_names(), vec![None, Some("w".to_string()), None]);
    let all = re.captures_all("a-1 b-2");
    assert_eq!(all.len(), 2);
    assert_eq!(all[1][0], Some((4, 7)));
    assert!(re.captures("none here").is_none());
    match CompiledRegex::compile("(") {
        Err(e) => assert!(!regex_error_message(&e).is_empty()),
        Ok(_) => panic!("Expected a refused pattern"),
    }
}

#[test]
fn evaluate_match_reads_given_spans() {
    let compiled = compile_format("{name} is {:d}", true).unwrap();
    let caps = vec![Some((0, 10)), Some((0, 3)), Some((7, 10))];
    let names = vec![None, Some("name".to_string()), None];
    let result = evaluate_match(&compiled, &caps, &names, "Bob is 123", 4).unwrap().unwrap();
    match result.named.get("name") {
        Some(ParseValue::Str(s)) => assert_eq!(s, "Bob"),
        other => panic!("Expected Str(Bob), got {:?}", other),
    }
    match &result.fixed[0] {
        ParseValue::Int(v) => assert_eq!(*v, 123),
        other => panic!("Expected Int(123), got {:?}", other),
    }
    assert_eq!(result.fixed_spans[0], (11, 14));
    assert_eq!(result.get_named_span("name"), Some((4, 7)));
    let unmatched = vec![Some((0, 10)), None, None];
    let empty = evaluate_match(&compiled, &unmatched, &names, "Bob is 123", 0).unwrap().unwrap();
    assert!(empty.fixed.is_empty() && empty.named.is_empty());
}

#[test]
fn custom_compile_counts_groups() {
    let mut custom = FieldMap::new();
    custom.insert(
        "Pair".to_string(),
        CustomTypePattern {
            pattern: "(a)(b)".to_string(),
            regex_group_count: 2,
        },
    );
    let compiled = compile_format_with_custom("{:Pair}{:d}", true, &custom).unwrap();
    assert_eq!(compiled.fixed_group_indices, vec![1, 4]);
    assert_eq!(compiled.group_count, 4);
}
