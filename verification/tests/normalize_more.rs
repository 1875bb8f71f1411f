//! Further tests of character normalisation.

use lib::parser::reader::normalize;

#[test]
fn normalize_range_edges() {
    let input = "\u{0008}\u{000E}\u{001F}\u{007F}\u{0080}\u{0090}\u{0091}\u{0092}\u{0093}\u{009F}\u{00A0}\r";
    let expected = "\u{FFFD}\u{FFFD}\u{FFFD}\u{007F}\u{FFFD}\u{FFFD}\u{0091}\u{0092}\u{FFFD}\u{FFFD}\u{00A0}\r";
    assert_eq!(normalize(input), expected);
}

#[test]
fn normalize_is_idempotent_on_sample() {
    let input = "a\tb\u{000B}c\u{000C}d\u{0000}e\u{0085}f\u{0091}g\r\n";
    let once = normalize(input);
    let twice = normalize(&once);
    assert_eq!(once, twice);
    assert_eq!(once, "a b\nc\nd\u{FFFD}e\u{FFFD}f\u{0091}g\r\n");
}

#[test]
fn normalize_keeps_char_count() {
    let input = "\u{0001}世\t界\u{0093}";
    assert_eq!(normalize(input).chars().count(), input.chars().count());
}

#[test]
fn normalize_empty() {
    assert_eq!(normalize(""), "");
}
