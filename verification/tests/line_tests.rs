//! Tests of line splitting.

use lib::parser::line::split_lines;

#[test]
fn test_split_simple_lines() {
    let lines = split_lines("hello\nworld");
    assert_eq!(lines.len(), 2);
    assert_eq!(lines[0].content(), "hello");
    assert_eq!(lines[0].indentation, 0);
    assert_eq!(lines[1].content(), "world");
    assert_eq!(lines[1].indentation, 0);
}

#[test]
fn test_split_with_indentation() {
    let lines = split_lines("  indented\n    more");
    assert_eq!(lines[0].content(), "indented");
    assert_eq!(lines[0].indentation, 2);
    assert_eq!(lines[0].full_text(), "  indented");
    assert_eq!(lines[1].content(), "more");
    assert_eq!(lines[1].indentation, 4);
    assert_eq!(lines[1].full_text(), "    more");
}

#[test]
fn test_blank_lines() {
    let lines = split_lines("hello\n\n  \nworld");
    assert_eq!(lines.len(), 4);
    assert!(!lines[0].is_blank());
    assert!(lines[1].is_blank()); // empty
    assert!(lines[2].is_blank()); // spaces only
    assert!(!lines[3].is_blank());
    // Blank line full_text is just the spaces (or empty)
    assert_eq!(lines[1].full_text(), "");
    assert_eq!(lines[2].full_text(), "  ");
}

#[test]
fn test_crlf_line_endings() {
    let lines = split_lines("line1\r\nline2\r\nline3");
    assert_eq!(lines.len(), 3);
    assert_eq!(lines[0].content(), "line1");
    assert_eq!(lines[1].content(), "line2");
    assert_eq!(lines[2].content(), "line3");
}

#[test]
fn test_empty_input() {
    let lines = split_lines("");
    assert_eq!(lines.len(), 0);
}
