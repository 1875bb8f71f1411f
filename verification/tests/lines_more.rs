//! Further tests of line splitting and of `Line`.

use lib::parser::line::{split_lines, Line};

#[test]
fn trailing_newline_adds_no_line() {
    let lines = split_lines("a\n");
    assert_eq!(lines.len(), 1);
    assert_eq!(lines[0].full_text(), "a");
}

#[test]
fn lone_newline_is_one_empty_line() {
    let lines = split_lines("\n");
    assert_eq!(lines.len(), 1);
    assert_eq!(lines[0].full_text(), "");
    assert!(lines[0].is_blank());
}

#[test]
fn bare_cr_is_no_line_end() {
    let lines = split_lines("a\rb\r");
    assert_eq!(lines.len(), 1);
    assert_eq!(lines[0].full_text(), "a\rb\r");
}

#[test]
fn cr_before_crlf_is_kept() {
    let lines = split_lines("a\r\r\nb");
    assert_eq!(lines.len(), 2);
    assert_eq!(lines[0].full_text(), "a\r");
    assert_eq!(lines[1].full_text(), "b");
}

#[test]
fn crlf_and_lf_give_same_lines() {
    let lf = split_lines("x\n  y\n\nz\n");
    let crlf = split_lines("x\r\n  y\r\n\r\nz\r\n");
    assert_eq!(lf, crlf);
    assert_eq!(lf.len(), 4);
}

#[test]
fn lines_rejoin_to_text() {
    let text = "one\n  two\n\nthree";
    let lines = split_lines(text);
    let mut joined = String::new();
    for l in &lines {
        joined.push_str(l.full_text());
        joined.push('\n');
    }
    assert_eq!(joined, format!("{}\n", text));
}

#[test]
fn spaces_only_line_is_blank_with_full_indentation() {
    let lines = split_lines("   ");
    assert_eq!(lines.len(), 1);
    assert_eq!(lines[0].indentation, 3);
    assert!(lines[0].is_blank());
    assert_eq!(lines[0].content(), "");
}

#[test]
fn multibyte_content_after_indentation() {
    let lines = split_lines("  héllo wörld");
    assert_eq!(lines[0].indentation, 2);
    assert_eq!(lines[0].content(), "héllo wörld");
    assert!(!lines[0].is_blank());
}

#[test]
fn tab_does_not_count_as_indentation() {
    let lines = split_lines("\tx");
    assert_eq!(lines[0].indentation, 0);
    assert_eq!(lines[0].content(), "\tx");
}

#[test]
fn content_drops_leading_spaces_whatever_the_recorded_indentation() {
    let line = Line { raw: "ab".to_string(), indentation: 1 };
    assert_eq!(line.content(), "ab");
    assert!(!line.is_blank());
    let line = Line { raw: "   x".to_string(), indentation: 0 };
    assert_eq!(line.content(), "x");
}

#[test]
fn empty_line_with_indentation_is_blank() {
    let line = Line { raw: String::new(), indentation: 2 };
    assert!(line.is_blank());
    assert_eq!(line.content(), "");
    assert_eq!(line.full_text(), "");
}

#[test]
fn crlf_lines_join_to_lf_text() {
    let text = "a\r\n  b\r\n\r\nc\r\n";
    let lines = split_lines(text);
    let joined: Vec<&str> = lines.iter().map(|l| l.full_text()).collect();
    assert_eq!(joined.join("\n"), "a\n  b\n\nc");
}
