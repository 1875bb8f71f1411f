//! Tests of character normalisation.

use lib::parser::reader::normalize;

#[test]
fn test_tab_to_space() {
    let result = normalize("hello\tworld");
    assert_eq!(result, "hello world");
}

#[test]
fn test_vt_ff_to_lf() {
    let result = normalize("a\u{000B}b\u{000C}c");
    assert_eq!(result, "a\nb\nc");
}

#[test]
fn test_c0_controls_to_replacement() {
    let result = normalize("\u{0000}\u{0005}\u{000E}\u{001F}");
    assert_eq!(result, "\u{FFFD}\u{FFFD}\u{FFFD}\u{FFFD}");
}

#[test]
fn test_c1_controls_to_replacement() {
    let result = normalize("\u{0080}\u{0090}\u{0093}\u{009F}");
    assert_eq!(result, "\u{FFFD}\u{FFFD}\u{FFFD}\u{FFFD}");
}

#[test]
fn test_preserve_u0091_u0092() {
    let result = normalize("\u{0091}hello\u{0092}");
    assert_eq!(result, "\u{0091}hello\u{0092}");
}

#[test]
fn test_preserve_lf_cr() {
    let result = normalize("line1\nline2\r\nline3");
    assert_eq!(result, "line1\nline2\r\nline3");
}

#[test]
fn test_preserve_normal_text() {
    let input = "Hello, 世界! 🌍\n";
    let result = normalize(input);
    assert_eq!(result, input);
}
