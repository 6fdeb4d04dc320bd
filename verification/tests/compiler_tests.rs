use parse_rust::compiler::{compile_format, escape_regex, parse_format_spec, FormatCompiler};
use parse_rust::types::FormatType;

#[test]
fn test_escape_regex() {
    assert_eq!(escape_regex("hello"), "hello");
    assert_eq!(escape_regex("a.b"), r"a\.b");
    assert_eq!(escape_regex("a[0]"), r"a\[0\]");
    assert_eq!(escape_regex("$100"), r"\$100");
}

#[test]
fn test_split_format_simple() {
    let compiler = FormatCompiler::new(false);
    let parts = compiler.split_format("Hello {}!");
    assert_eq!(parts.len(), 3); // "Hello ", field, "!"
}

#[test]
fn test_split_format_named() {
    let compiler = FormatCompiler::new(false);
    let parts = compiler.split_format("User {name} from {city}");
    assert_eq!(parts.len(), 4); // "User ", field, " from ", field
}

#[test]
fn test_split_format_escaped_braces() {
    let compiler = FormatCompiler::new(false);
    let parts = compiler.split_format("{{literal}}");
    // "{{" -> EscapedOpen, "literal" -> Literal, "}}" -> EscapedClose
    assert_eq!(parts.len(), 3);
}

#[test]
fn test_parse_format_spec_empty() {
    let spec = parse_format_spec("").unwrap();
    assert_eq!(spec.format_type, FormatType::Default);
    assert!(spec.width.is_none());
}

#[test]
fn test_parse_format_spec_type_only() {
    let spec = parse_format_spec("d").unwrap();
    assert_eq!(spec.format_type, FormatType::Decimal);
}

#[test]
fn test_parse_format_spec_with_width() {
    let spec = parse_format_spec("10d").unwrap();
    assert_eq!(spec.format_type, FormatType::Decimal);
    assert_eq!(spec.width, Some(10));
}

#[test]
fn test_parse_format_spec_full() {
    let spec = parse_format_spec("<10.2f").unwrap();
    assert_eq!(spec.align, Some('<'));
    assert_eq!(spec.width, Some(10));
    assert_eq!(spec.precision, Some(2));
    assert_eq!(spec.format_type, FormatType::Float);
}

#[test]
fn test_parse_format_spec_fill_align() {
    let spec = parse_format_spec("*>10d").unwrap();
    assert_eq!(spec.fill, Some('*'));
    assert_eq!(spec.align, Some('>'));
    assert_eq!(spec.width, Some(10));
    assert_eq!(spec.format_type, FormatType::Decimal);
}

#[test]
fn test_compile_simple() {
    let result = compile_format("Hello {}!", false).unwrap();
    assert_eq!(result.fixed_fields.len(), 1);
    assert!(result.named_fields.is_empty());
}

#[test]
fn test_compile_named() {
    let result = compile_format("User {name} from {city}", false).unwrap();
    assert_eq!(result.named_fields.len(), 2);
    assert!(result.named_fields.contains(&"name".to_string()));
    assert!(result.named_fields.contains(&"city".to_string()));
}

#[test]
fn test_compile_typed() {
    let result = compile_format("{name:w} is {:d} years old", false).unwrap();
    assert_eq!(result.named_fields.len(), 1);
    assert_eq!(result.fixed_fields.len(), 1);
}

#[test]
fn test_compile_mixed() {
    let result = compile_format("User {name} performed {action} on {target} at {time}", false).unwrap();
    assert_eq!(result.named_fields.len(), 4);
    assert_eq!(result.fixed_fields.len(), 0);
}

#[test]
fn test_compile_datetime() {
    let result = compile_format("Date: {:ti}", false).unwrap();
    assert_eq!(result.fixed_fields.len(), 1);
}

#[test]
fn test_compile_escaped_braces() {
    let result = compile_format("{{not a field}}", false).unwrap();
    assert!(result.fields.is_empty());
    assert!(result.pattern.contains(r"\{"));
    assert!(result.pattern.contains(r"\}"));
}

#[test]
fn compiled_pattern_gives_numbers_an_optional_sign() {
    let result = compile_format("User {name:w} is {:d} years old", false).unwrap();
    assert_eq!(result.pattern, r"(?i)User (?P<name>\w+) is ([-+ ]?\d+) years old");
}

#[test]
fn alignment_puts_fill_runs_around_the_group() {
    assert_eq!(compile_format("{:>d}", true).unwrap().pattern, r" *([-+ ]?\d+)");
    assert_eq!(compile_format("{:*<}", true).unwrap().pattern, r"(.*?)\**");
    assert_eq!(compile_format("{x:.^w}", true).unwrap().pattern, r"\.*(?P<x>\w+)\.*");
}
