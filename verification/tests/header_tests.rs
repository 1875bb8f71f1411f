//! Tests of invocation-header parsing.

use lib::parser::header::InvocationHeader;
use lib::parser::line::split_lines;

/// Helper: parse a header from a raw string (wrapping :: line).
fn parse_header(raw: &str) -> InvocationHeader {
    let line = split_lines(raw)[0].clone();
    InvocationHeader::parse(&line)
}

#[test]
fn test_simple_name() {
    let h = parse_header("::func");
    assert_eq!(h.name, "func");
    assert!(h.parameters.is_empty());
}

#[test]
fn test_spaces_after_colons() {
    let h = parse_header("::  name");
    assert_eq!(h.name, "name");
}

#[test]
fn test_single_param() {
    let h = parse_header("::func key=value");
    assert_eq!(h.name, "func");
    assert_eq!(h.parameters.len(), 1);
    assert_eq!(h.parameters[0].name, "key");
    assert_eq!(h.parameters[0].value, "value");
}

#[test]
fn test_multiple_params() {
    let h = parse_header("::func a=1 b=2");
    assert_eq!(h.parameters.len(), 2);
    assert_eq!(h.parameters[0].name, "a");
    assert_eq!(h.parameters[0].value, "1");
    assert_eq!(h.parameters[1].name, "b");
    assert_eq!(h.parameters[1].value, "2");
}

#[test]
fn test_bool_param() {
    let h = parse_header("::func verbose");
    assert_eq!(h.parameters.len(), 1);
    assert_eq!(h.parameters[0].name, "verbose");
    assert_eq!(h.parameters[0].value, "true");
}

#[test]
fn test_mixed_params() {
    let h = parse_header("::cmd key=val flag");
    assert_eq!(h.parameters.len(), 2);
    assert_eq!(h.parameters[0].name, "key");
    assert_eq!(h.parameters[0].value, "val");
    assert_eq!(h.parameters[1].name, "flag");
    assert_eq!(h.parameters[1].value, "true");
}

#[test]
fn test_quoted_key() {
    let h = parse_header("::func \"my key\"=val");
    assert_eq!(h.parameters[0].name, "my key");
    assert_eq!(h.parameters[0].value, "val");
}

#[test]
fn test_quoted_value() {
    let h = parse_header("::func key=\"my value\"");
    assert_eq!(h.parameters[0].name, "key");
    assert_eq!(h.parameters[0].value, "my value");
}

#[test]
fn test_both_quoted() {
    let h = parse_header("::func \"param 2\"=\"value 2\"");
    assert_eq!(h.parameters[0].name, "param 2");
    assert_eq!(h.parameters[0].value, "value 2");
}

#[test]
fn test_escape_quote() {
    let h = parse_header("::func \"key\\\"name\"=val");
    assert_eq!(h.parameters[0].name, "key\"name");
}

#[test]
fn test_escape_backslash() {
    let h = parse_header("::func key=\"val\\\\ue\"");
    assert_eq!(h.parameters[0].value, "val\\ue");
}

#[test]
fn test_quoted_name() {
    let h = parse_header("::\"my func\" param=val");
    assert_eq!(h.name, "my func");
    assert_eq!(h.parameters.len(), 1);
    assert_eq!(h.parameters[0].name, "param");
    assert_eq!(h.parameters[0].value, "val");
}

#[test]
fn test_quoted_name_with_escape() {
    let h = parse_header("::\"hello\\\"world\"");
    assert_eq!(h.name, "hello\"world");
    assert!(h.parameters.is_empty());
}

#[test]
fn test_quoted_name_with_params() {
    let h = parse_header("::\"some name\" flag key=\"value\"");
    assert_eq!(h.name, "some name");
    assert_eq!(h.parameters.len(), 2);
    assert_eq!(h.parameters[0].name, "flag");
    assert_eq!(h.parameters[0].value, "true");
    assert_eq!(h.parameters[1].name, "key");
    assert_eq!(h.parameters[1].value, "value");
}

#[test]
fn test_just_colons() {
    let h = parse_header("::");
    assert_eq!(h.name, "");
    assert!(h.parameters.is_empty());
}

#[test]
fn test_complex() {
    let h = parse_header(
        "::render title=\"Hello World\" \"alt text\"=\"A quote: \\\"hi\\\"\" show",
    );
    assert_eq!(h.name, "render");
    assert_eq!(h.parameters.len(), 3);

    assert_eq!(h.parameters[0].name, "title");
    assert_eq!(h.parameters[0].value, "Hello World");

    assert_eq!(h.parameters[1].name, "alt text");
    assert_eq!(h.parameters[1].value, "A quote: \"hi\"");

    assert_eq!(h.parameters[2].name, "show");
    assert_eq!(h.parameters[2].value, "true");
}
