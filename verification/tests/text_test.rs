use pruner::range::Point;
use pruner::text::{
    column_for_byte, min_leading_indent, offset_lines, point_for_byte, strip_leading_indent,
    strip_trailing_newlines, trailing_newlines,
};

#[test]
fn offset_lines_indents_text_lines_only() {
    let mut data = b"a\nb\n\nc\n".to_vec();
    offset_lines(&mut data, 2);
    assert_eq!(data, b"a\n  b\n\n  c\n".to_vec());
}

#[test]
fn offset_lines_leaves_blank_lines_and_carriage_returns() {
    let mut data = b"a\n\r\nb\n".to_vec();
    offset_lines(&mut data, 3);
    assert_eq!(data, b"a\n\r\n   b\n".to_vec());
}

#[test]
fn offset_lines_by_nothing_changes_nothing() {
    let mut data = b"a\nb\nc".to_vec();
    offset_lines(&mut data, 0);
    assert_eq!(data, b"a\nb\nc".to_vec());
}

#[test]
fn offset_lines_of_blank_text_is_the_text() {
    let mut data = b"\n\n\r\n\n".to_vec();
    offset_lines(&mut data, 7);
    assert_eq!(data, b"\n\n\r\n\n".to_vec());
}

#[test]
fn offset_lines_goes_through_parts_at_a_blank_line() {
    let mut whole = b"x\ny\n\nz\nw".to_vec();
    let mut first = b"x\ny\n".to_vec();
    let mut rest = b"\nz\nw".to_vec();
    offset_lines(&mut whole, 4);
    offset_lines(&mut first, 4);
    offset_lines(&mut rest, 4);
    first.extend_from_slice(&rest);
    assert_eq!(whole, first);
}

#[test]
fn column_for_byte_counts_from_line_start() {
    assert_eq!(column_for_byte(b"ab\ncde", 5), 2);
    assert_eq!(column_for_byte(b"ab\ncde", 3), 0);
    assert_eq!(column_for_byte(b"ab\ncde", 2), 2);
    assert_eq!(column_for_byte(b"ab\ncde", 100), 3);
    assert_eq!(column_for_byte(b"", 0), 0);
}

#[test]
fn point_for_byte_counts_rows_and_columns() {
    assert_eq!(point_for_byte(b"ab\ncde\n", 0), Point { row: 0, column: 0 });
    assert_eq!(point_for_byte(b"ab\ncde\n", 4), Point { row: 1, column: 1 });
    assert_eq!(point_for_byte(b"ab\ncde\n", 7), Point { row: 2, column: 0 });
    assert_eq!(point_for_byte(b"ab\ncde\n", 99), Point { row: 2, column: 0 });
}

#[test]
fn trailing_newlines_are_split_off() {
    assert_eq!(trailing_newlines(b"abc\r\n\n"), b"\r\n\n".to_vec());
    assert_eq!(trailing_newlines(b"abc"), Vec::<u8>::new());
    assert_eq!(trailing_newlines(b"\n\n"), b"\n\n".to_vec());
    let mut data = b"abc\r\n\n".to_vec();
    strip_trailing_newlines(&mut data);
    assert_eq!(data, b"abc".to_vec());
    let mut only = b"\n\r".to_vec();
    strip_trailing_newlines(&mut only);
    assert_eq!(only, Vec::<u8>::new());
}

#[test]
fn min_leading_indent_skips_blank_lines() {
    assert_eq!(min_leading_indent("   a\n  b\n\n    c"), 2);
    assert_eq!(min_leading_indent("   a\n \t \n     b\n"), 3);
    assert_eq!(min_leading_indent("a\n  b"), 0);
    assert_eq!(min_leading_indent("\n  \n\u{a0}\n"), 0);
    assert_eq!(min_leading_indent(""), 0);
    assert_eq!(min_leading_indent("  \u{e9}"), 2);
}

#[test]
fn strip_leading_indent_takes_what_a_line_has() {
    assert_eq!(strip_leading_indent("   a\n b\n\n     c\n", 3), "a\nb\n\n  c\n");
    assert_eq!(strip_leading_indent("   a\n   b", 0), "   a\n   b");
    assert_eq!(strip_leading_indent("  \n  x", 2), "\nx");
    assert_eq!(strip_leading_indent("", 4), "");
    assert_eq!(strip_leading_indent("  \u{e9}\n\t x", 2), "\u{e9}\n\t x");
}
