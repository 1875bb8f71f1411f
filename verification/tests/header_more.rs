//! Further tests of invocation-header parsing.

use lib::parser::header::InvocationHeader;
use lib::parser::line::split_lines;

fn header(raw: &str) -> InvocationHeader {
    let line = split_lines(raw)[0].clone();
    InvocationHeader::parse(&line)
}

#[test]
fn unknown_escape_keeps_backslash() {
    let h = header("::f k=\"a\\nb\"");
    assert_eq!(h.parameters[0].value, "a\\nb");
}

#[test]
fn unterminated_quote_reads_to_end() {
    let h = header("::f k=\"abc def");
    assert_eq!(h.parameters.len(), 1);
    assert_eq!(h.parameters[0].value, "abc def");
}

#[test]
fn trailing_backslash_in_quote() {
    let h = header("::f k=\"a\\");
    assert_eq!(h.parameters[0].value, "a\\");
}

#[test]
fn key_may_be_empty() {
    let h = header("::f =x");
    assert_eq!(h.parameters.len(), 1);
    assert_eq!(h.parameters[0].name, "");
    assert_eq!(h.parameters[0].value, "x");
}

#[test]
fn spaces_after_equals_are_skipped() {
    let h = header("::f k= z");
    assert_eq!(h.parameters.len(), 1);
    assert_eq!(h.parameters[0].name, "k");
    assert_eq!(h.parameters[0].value, "z");
}

#[test]
fn empty_value_at_end() {
    let h = header("::f k=");
    assert_eq!(h.parameters.len(), 1);
    assert_eq!(h.parameters[0].name, "k");
    assert_eq!(h.parameters[0].value, "");
}

#[test]
fn spaces_around_equals() {
    let h = header("::f  k  =  v   w");
    assert_eq!(h.parameters.len(), 2);
    assert_eq!(h.parameters[0].name, "k");
    assert_eq!(h.parameters[0].value, "v");
    assert_eq!(h.parameters[1].name, "w");
    assert_eq!(h.parameters[1].value, "true");
}

#[test]
fn quoted_text_keeps_multibyte_chars() {
    let h = header("::f k=\"é 世界\"");
    assert_eq!(h.parameters[0].value, "é 世界");
}

#[test]
fn unquoted_value_keeps_utf8() {
    let h = header("::f k=héllo");
    assert_eq!(h.parameters[0].value, "héllo");
}

#[test]
fn value_may_hold_equals() {
    let h = header("::f k=a=b");
    assert_eq!(h.parameters[0].value, "a=b");
}

#[test]
fn quoted_round_trip() {
    let h = header("::f k=\"say \\\"hi\\\" \\\\ done\"");
    assert_eq!(h.parameters[0].value, "say \"hi\" \\ done");
}

#[test]
fn indented_header_line() {
    let h = header("    ::  tool x=1");
    assert_eq!(h.name, "tool");
    assert_eq!(h.parameters[0].name, "x");
    assert_eq!(h.parameters[0].value, "1");
}

#[test]
fn multibyte_name_runs_to_first_space() {
    let h = header("::éa b");
    assert_eq!(h.name, "éa");
    assert_eq!(h.parameters.len(), 1);
    assert_eq!(h.parameters[0].name, "b");
    assert_eq!(h.parameters[0].value, "true");
}

#[test]
fn cjk_name_and_parameter() {
    let h = header("::函数 a=1");
    assert_eq!(h.name, "函数");
    assert_eq!(h.parameters.len(), 1);
    assert_eq!(h.parameters[0].name, "a");
    assert_eq!(h.parameters[0].value, "1");
}

#[test]
fn quoted_cjk_name() {
    let h = header("::\"中 文\" 键=\"值 \\\"x\\\"\"");
    assert_eq!(h.name, "中 文");
    assert_eq!(h.parameters[0].name, "键");
    assert_eq!(h.parameters[0].value, "值 \"x\"");
}
