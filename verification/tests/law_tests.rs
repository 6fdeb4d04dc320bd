//! One concrete check of each law the library proves.

use parse_rust::api::named_value_at;
use parse_rust::compiler::{compile_format, escape_regex, FormatCompiler, FormatPart};
use parse_rust::parser::{cached_parser, clear_cache, parse, parse_values_equal, search, Parser, ParserCache};
use parse_rust::result::{FieldMap, ParseValue};
use parse_rust::types::dt_format_to_regex;

fn render(parts: &[FormatPart]) -> String {
    let mut out = String::new();
    for part in parts {
        match part {
            FormatPart::Literal(text) => out.push_str(text),
            FormatPart::EscapedOpen => out.push_str("{{"),
            FormatPart::EscapedClose => out.push_str("}}"),
            FormatPart::Field(f) => {
                out.push('{');
                out.push_str(f);
                out.push('}');
            }
        }
    }
    out
}

#[test]
fn split_parts_render_back_to_the_format() {
    let compiler = FormatCompiler::new(false);
    let format = "a{b:d}c{{d}}e{}";
    let parts = compiler.split_format(format);
    assert_eq!(parts.len(), 8);
    assert_eq!(render(&parts), format);
}

#[test]
fn unclosed_field_renders_back_with_a_closing_brace() {
    let compiler = FormatCompiler::new(false);
    let parts = compiler.split_format("x{name");
    assert_eq!(render(&parts), "x{name}");
}

#[test]
fn case_insensitive_patterns_start_with_the_flag() {
    assert!(compile_format("Hello {}", false).unwrap().pattern.starts_with("(?i)"));
    assert!(!compile_format("Hello {}", true).unwrap().pattern.starts_with("(?i)"));
}

#[test]
fn plain_datetime_format_is_escaped_text() {
    let format = "at 10.30 (local) [x]";
    assert_eq!(dt_format_to_regex(format), escape_regex(format));
    assert_eq!(dt_format_to_regex(format), r"at 10\.30 \(local\) \[x\]");
}

#[test]
fn spans_lie_within_the_input() {
    let input = "User Alice is 42";
    let result = parse("User {name} is {:d}", input, false).unwrap();
    assert_eq!(result.fixed.len(), result.fixed_spans.len());
    assert_eq!(result.fixed_spans[0], (14, 16));
    assert_eq!(result.get_named_span("name"), Some((5, 10)));
    for (start, end) in &result.fixed_spans {
        assert!(start <= end && *end <= input.chars().count());
    }
}

#[test]
fn search_spans_count_characters_of_the_whole_input() {
    let input = "héllo wörld 42 and 7";
    let result = search("{:d}", input, 12, Some(16), false).unwrap();
    match &result.fixed[0] {
        ParseValue::Int(v) => assert_eq!(*v, 42),
        other => panic!("Expected Int(42), got {:?}", other),
    }
    assert_eq!(result.fixed_spans[0], (12, 14));
}

#[test]
fn bracketed_names_are_read_back_under_their_path() {
    let result = parse("{a[b][c]:d} {a[b][d]}", "5 x", false).unwrap();
    match named_value_at(&result.named, "a[b][c]") {
        Some(ParseValue::Int(v)) => assert_eq!(*v, 5),
        other => panic!("Expected Int(5), got {:?}", other),
    }
    match named_value_at(&result.named, "a[b][d]") {
        Some(ParseValue::Str(s)) => assert_eq!(s, "x"),
        other => panic!("Expected Str(x), got {:?}", other),
    }
    match result.named.get("a") {
        Some(ParseValue::Dict(outer)) => match outer.get("b") {
            Some(ParseValue::Dict(inner)) => assert_eq!(inner.len(), 2),
            other => panic!("Expected Dict, got {:?}", other),
        },
        other => panic!("Expected Dict, got {:?}", other),
    }
}

#[test]
fn cached_parser_is_the_parser_new_builds() {
    let mut cache = ParserCache::new();
    let first = cached_parser(&mut cache, "User {name:w}", false).unwrap();
    let second = cached_parser(&mut cache, "User {name:w}", false).unwrap();
    let fresh = Parser::new("User {name:w}", false).unwrap();
    assert_eq!(first.pattern(), fresh.pattern());
    assert_eq!(second.pattern(), fresh.pattern());
    assert!(cached_parser(&mut cache, "{a:d} {a:w}", false).is_none());
    clear_cache(&mut cache);
    let again = cached_parser(&mut cache, "User {name:w}", true).unwrap();
    assert!(!again.pattern().starts_with("(?i)"));
}

#[test]
fn cache_keeps_working_past_its_limit() {
    let mut cache = ParserCache::new();
    for i in 0..300 {
        let format = format!("item {} {{:d}}", i);
        let parser = cached_parser(&mut cache, &format, false).unwrap();
        let input = format!("item {} 9", i);
        match &parser.parse(&input).unwrap().fixed[0] {
            ParseValue::Int(v) => assert_eq!(*v, 9),
            other => panic!("Expected Int(9), got {:?}", other),
        }
    }
}

#[test]
fn dictionaries_compare_whatever_the_order() {
    let mut a = FieldMap::new();
    a.insert("x".to_string(), ParseValue::Int(1));
    a.insert("y".to_string(), ParseValue::Str("z".to_string()));
    let mut b = FieldMap::new();
    b.insert("y".to_string(), ParseValue::Str("z".to_string()));
    b.insert("x".to_string(), ParseValue::Int(1));
    assert!(parse_values_equal(&ParseValue::Dict(a), &ParseValue::Dict(b)));
    let mut c = FieldMap::new();
    c.insert("x".to_string(), ParseValue::Int(2));
    let mut d = FieldMap::new();
    d.insert("x".to_string(), ParseValue::Int(1));
    assert!(!parse_values_equal(&ParseValue::Dict(c), &ParseValue::Dict(d)));
    assert!(!parse_values_equal(&ParseValue::Int(1), &ParseValue::Str("1".to_string())));
}

#[test]
fn parse_values_compare_with_eq() {
    assert!(ParseValue::Int(1) == ParseValue::Int(1));
    assert!(ParseValue::Str("a".to_string()) != ParseValue::Str("b".to_string()));
    assert!(ParseValue::Float("1.5".to_string()) != ParseValue::Decimal("1.5".to_string()));
}

#[test]
fn normalizing_an_offset_twice_changes_nothing_more() {
    for raw in ["10:21:36 PM +1:00", "10:21:36 PM -530", "10:00 +12:00", "no offset", "x -9:3"] {
        let once = parse_rust::datetime::normalize_short_tz_offset(raw);
        assert_eq!(parse_rust::datetime::normalize_short_tz_offset(&once), once);
    }
}

#[test]
fn fractions_get_six_digits() {
    for (raw, expected) in [
        ("08.1Z", "08.100000Z"),
        ("08.123+01:00", "08.123000+01:00"),
        ("08.1234567", "08.123456"),
    ] {
        assert_eq!(
            parse_rust::datetime::normalize_fractional_seconds(raw).as_deref(),
            Some(expected)
        );
    }
}

#[test]
fn findall_results_come_in_text_order() {
    let results = parse_rust::parser::findall("{:d}-{:d}", "1-2 x 30-4 y 5-60", 0, None, false);
    assert_eq!(results.len(), 3);
    let mut last_end = 0;
    for result in &results {
        for (start, end) in &result.fixed_spans {
            assert!(last_end <= *start);
            assert!(start <= end);
        }
        last_end = result.fixed_spans.iter().map(|s| s.1).max().unwrap();
    }
}

#[test]
fn balanced_format_splits_and_renders_back_exactly() {
    let compiler = FormatCompiler::new(false);
    for format in ["a{x}b{{c}}d{y:{w}}e", "{a.b}{c}", "", "}x{", "{{}}"] {
        let parts = compiler.split_format(format);
        if format == "}x{" {
            assert_eq!(render(&parts), "}x{}");
        } else {
            assert_eq!(render(&parts), format);
        }
        for (k, part) in parts.iter().enumerate() {
            if let FormatPart::Literal(s) = part {
                assert!(!s.is_empty());
                if let Some(FormatPart::Literal(_)) = parts.get(k + 1) {
                    panic!("two literal parts in a row in {:?}", parts);
                }
            }
        }
    }
}

#[test]
fn group_names_are_safe_and_owned_by_one_field() {
    let compiled = compile_format("{a.b} {a_b} {a.b} {x[0]-y}", true).unwrap();
    assert!(compiled.pattern.contains("(?P<a_b>"));
    assert!(compiled.pattern.contains("(?P<a_b_>"));
    assert!(compiled.pattern.contains("(?P<a_b__>"));
    assert!(compiled.pattern.contains("(?P<x_0__y>"));
    for field in &compiled.fields {
        if let Some(g) = &field.group_name {
            assert!(!g.contains(['.', '[', ']', '-']));
        }
    }
}

#[test]
fn search_result_is_the_first_findall_result() {
    let input = "a=1 b=x c=3";
    let first = search("{}={:d}", input, 0, None, false).unwrap();
    let all = parse_rust::parser::findall("{}={:d}", input, 0, None, false);
    assert!(!all.is_empty());
    assert_eq!(all[0].fixed, first.fixed);
    assert_eq!(all[0].fixed_spans, first.fixed_spans);
}

#[test]
fn compiled_positional_fields_are_numbered_in_order() {
    let compiled = compile_format("{} {a} {:x} {b:w} {:%H:%M %z} {}", true).unwrap();
    assert_eq!(compiled.fields.len(), 6);
    assert_eq!(compiled.fixed_fields, vec![0, 1, 2, 3]);
    assert_eq!(compiled.fixed_group_indices, vec![1, 3, 6, 9]);
    assert_eq!(compiled.group_count, 9);
}

#[test]
fn float_values_compare_as_numbers() {
    let f = |s: &str| ParseValue::Float(s.to_string());
    for (a, b) in [
        ("1.0", "1.00"),
        ("1.5", "1.50"),
        ("-0.0", "0"),
        ("1e2", "100"),
        ("1e-5", "0.00001"),
        ("+2.50E+1", "25"),
        ("inf", "Infinity"),
        ("-INF", "-inf"),
        ("1e100000000000000000000000000000000001", "10e100000000000000000000000000000000000"),
        ("0.5e-100000000000000000000000000000000000", "5e-100000000000000000000000000000000001"),
    ] {
        assert!(parse_values_equal(&f(a), &f(b)), "{} vs {}", a, b);
        assert!(parse_values_equal(&f(b), &f(a)), "{} vs {}", b, a);
    }
    for (a, b) in [
        ("nan", "nan"),
        ("NaN", "1"),
        ("0.1", "0.2"),
        ("-1", "1"),
        ("inf", "-inf"),
        ("1e100000000000000000000000000000000001", "1e-100000000000000000000000000000000001"),
    ] {
        assert!(!parse_values_equal(&f(a), &f(b)), "{} vs {}", a, b);
    }
    assert!(parse_values_equal(
        &ParseValue::Percent("50".to_string()),
        &ParseValue::Percent("50.0".to_string())
    ));
    let result = parse("{x:f} {x:f}", "1.0 1.00", false).unwrap();
    assert_eq!(result.named.get("x"), Some(&ParseValue::Float("1.0".to_string())));
    assert!(parse("{x:e} {x:e}", "nan nan", false).is_none());
}

#[test]
fn parse_errors_come_only_from_repeated_fields() {
    let p = Parser::new("{x:d}-{x:d}", false).unwrap();
    match p.parse_with_error("1-2") {
        Err(msg) => assert!(msg.starts_with("RepeatedNameError:")),
        other => panic!("Expected a conflict, got {:?}", other),
    }
    assert!(matches!(p.parse_with_error("1-x"), Ok(None)));
    assert!(matches!(p.parse_with_error("3-3"), Ok(Some(_))));
    assert!(p.parse("1-2").is_none());
}

#[test]
fn unknown_directives_stay_literal() {
    assert_eq!(dt_format_to_regex("%Y.%q"), r"[0-9]{4}\.%q");
    assert_eq!(dt_format_to_regex("100%"), "100%");
}
