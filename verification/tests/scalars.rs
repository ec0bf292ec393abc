//! The scalar readers of the scanner: plain, double-quoted and single-quoted.

use std::borrow::Cow;

use yaml0::Parser;

#[test]
fn plain_scalar_simple() {
    let mut parser = Parser::new("foo\n");
    let res = parser.parse_plain_scalar(false);
    assert_eq!(res, "foo");
}

#[test]
fn plain_scalar_with_space() {
    let mut parser = Parser::new("hello world\n");
    let res = parser.parse_plain_scalar(false);
    assert_eq!(res, "hello world");
}

#[test]
fn plain_stops_at_colon_space() {
    let mut parser = Parser::new("key: val");
    let res = parser.parse_plain_scalar(false);
    assert_eq!(res, "key");
}

#[test]
fn plain_keeps_bare_colon() {
    let mut parser = Parser::new("http://foo\n");
    let res = parser.parse_plain_scalar(false);
    assert_eq!(res, "http://foo");
}

#[test]
fn plain_stops_at_space_hash() {
    let mut parser = Parser::new("foo # bar\n");
    let res = parser.parse_plain_scalar(false);
    assert_eq!(res, "foo");
}

#[test]
fn plain_keeps_bare_hash() {
    let mut parser = Parser::new("foo#bar\n");
    let res = parser.parse_plain_scalar(false);
    assert_eq!(res, "foo#bar");
}

#[test]
fn plain_trims_trailing_ws() {
    let mut parser = Parser::new("foo    \n");
    let res = parser.parse_plain_scalar(false);
    assert_eq!(res, "foo");
}

#[test]
fn plain_flow_stops_at_comma() {
    let mut parser = Parser::new("a,b");
    let res = parser.parse_plain_scalar(true);
    assert_eq!(res, "a");
}

#[test]
fn plain_flow_stops_at_bracket() {
    let mut parser = Parser::new("a]b");
    let res = parser.parse_plain_scalar(true);
    assert_eq!(res, "a");
}

fn dq(yaml: &str, indent: usize) -> String {
    let mut p = Parser::new(yaml);
    p.parse_double_quoted(indent).unwrap().into_owned()
}

fn sq(yaml: &str, indent: usize) -> String {
    let mut p = Parser::new(yaml);
    p.parse_single_quoted(indent).unwrap().into_owned()
}

#[test]
fn dq_simple() {
    assert_eq!(dq(r#""foo""#, 0), "foo");
}

#[test]
fn dq_empty() {
    assert_eq!(dq(r#""""#, 0), "");
}

#[test]
fn dq_with_space() {
    assert_eq!(dq(r#""hello world""#, 0), "hello world");
}

#[test]
fn dq_escape_newline() {
    assert_eq!(dq(r#""a\nb""#, 0), "a\nb");
}

#[test]
fn dq_escape_tab() {
    assert_eq!(dq(r#""a\tb""#, 0), "a\tb");
}

#[test]
fn dq_escape_cr() {
    assert_eq!(dq(r#""a\rb""#, 0), "a\rb");
}

#[test]
fn dq_escape_null() {
    assert_eq!(dq(r#""a\0b""#, 0), "a\0b");
}

#[test]
fn dq_escape_backslash() {
    assert_eq!(dq(r#""a\\b""#, 0), "a\\b");
}

#[test]
fn dq_escape_quote() {
    assert_eq!(dq(r#""a\"b""#, 0), "a\"b");
}

#[test]
fn dq_escape_slash() {
    assert_eq!(dq(r#""a\/b""#, 0), "a/b");
}

#[test]
fn dq_escape_space() {
    assert_eq!(dq(r#""a\ b""#, 0), "a b");
}

#[test]
fn dq_escape_bell_backspace_vt_ff_esc() {
    assert_eq!(dq(r#""\a\b\v\f\e""#, 0), "\x07\x08\x0B\x0C\x1B");
}

#[test]
fn dq_escape_next_line() {
    assert_eq!(dq(r#""\N""#, 0), "\u{85}");
}

#[test]
fn dq_escape_nbsp() {
    assert_eq!(dq(r#""\_""#, 0), "\u{A0}");
}

#[test]
fn dq_escape_line_separator() {
    assert_eq!(dq(r#""\L""#, 0), "\u{2028}");
}

#[test]
fn dq_escape_paragraph_separator() {
    assert_eq!(dq(r#""\P""#, 0), "\u{2029}");
}

#[test]
fn dq_escape_x_hex() {
    assert_eq!(dq(r#""\x41""#, 0), "A");
}

#[test]
fn dq_escape_u_hex_bmp() {
    assert_eq!(dq(r#""\u00E9""#, 0), "é");
}

#[test]
fn dq_escape_big_u_supplementary() {
    assert_eq!(dq(r#""\U0001F600""#, 0), "😀");
}

#[test]
fn dq_single_break_folds_to_space() {
    assert_eq!(dq("\"a\nb\"", 0), "a b");
}

#[test]
fn dq_empty_line_becomes_one_newline() {
    assert_eq!(dq("\"a\n\nb\"", 0), "a\nb");
}

#[test]
fn dq_two_empty_lines_become_two_newlines() {
    assert_eq!(dq("\"a\n\n\nb\"", 0), "a\n\nb");
}

#[test]
fn dq_crlf_fold() {
    assert_eq!(dq("\"a\r\nb\"", 0), "a b");
}

#[test]
fn dq_more_indented_preserves_break() {
    assert_eq!(dq("\"a\n  b\"", 0), "a\n  b");
}

#[test]
fn dq_trailing_ws_before_break_stripped() {
    assert_eq!(dq("\"a   \nb\"", 0), "a b");
}

#[test]
fn dq_line_continuation_swallows_break() {
    assert_eq!(dq("\"a\\\nb\"", 0), "ab");
}

#[test]
fn dq_line_continuation_strips_indent() {
    assert_eq!(dq("\"a\\\n  b\"", 0), "ab");
}

#[test]
fn dq_utf8_passthrough() {
    assert_eq!(dq(r#""café""#, 0), "café");
}

#[test]
fn dq_utf8_with_escape_mixed() {
    assert_eq!(dq(r#""\tcafé\n""#, 0), "\tcafé\n");
}

#[test]
fn dq_indent_aware_strip() {
    assert_eq!(dq("\"a\n    b\"", 4), "a b");
    assert_eq!(dq("\"a\n      b\"", 4), "a\n  b");
}

#[test]
fn dq_borrowed_when_no_escape() {
    let mut p = Parser::new(r#""foo""#);
    let cow = p.parse_double_quoted(0).unwrap();
    assert!(matches!(cow, Cow::Borrowed(_)), "expected borrowed, got owned");
}

#[test]
fn dq_owned_when_escape() {
    let mut p = Parser::new(r#""a\nb""#);
    let cow = p.parse_double_quoted(0).unwrap();
    assert!(matches!(cow, Cow::Owned(_)), "expected owned, got borrowed");
}

#[test]
fn sq_borrowed_when_no_escape() {
    let mut p = Parser::new(r#"'foo'"#);
    let cow = p.parse_single_quoted(0).unwrap();
    assert!(matches!(cow, Cow::Borrowed(_)));
}

#[test]
fn sq_owned_when_escape() {
    let mut p = Parser::new(r#"'it''s'"#);
    let cow = p.parse_single_quoted(0).unwrap();
    assert!(matches!(cow, Cow::Owned(_)));
}

#[test]
fn plain_scalar_borrows_from_the_source() {
    let src = "hello world\n";
    let mut p = Parser::new(src);
    match p.parse_plain_scalar(false) {
        Cow::Borrowed(s) => assert!(std::ptr::eq(s.as_ptr(), src.as_ptr())),
        Cow::Owned(_) => panic!("expected borrowed"),
    }
}

#[test]
fn errors_carry_the_line_and_column_of_the_cursor() {
    let mut p = Parser::new("\"ab\ncd");
    let e = p.parse_double_quoted(0).unwrap_err();
    assert_eq!((e.line, e.col), (Some(2), Some(3)));
    let mut p = Parser::new("'x");
    let e = p.parse_single_quoted(0).unwrap_err();
    assert_eq!((e.line, e.col), (Some(1), Some(3)));
}

#[test]
fn dq_cursor_lands_past_close() {
    let mut p = Parser::new(r#""x" y"#);
    p.parse_double_quoted(0).unwrap();
    assert_eq!(p.peek(), Some(' '));
}

#[test]
fn dq_err_unterminated() {
    let mut p = Parser::new(r#""foo"#);
    assert!(p.parse_double_quoted(0).is_err());
}

#[test]
fn dq_err_unknown_escape() {
    let mut p = Parser::new(r#""\q""#);
    assert!(p.parse_double_quoted(0).is_err());
}

#[test]
fn dq_err_truncated_hex() {
    let mut p = Parser::new(r#""\x4""#);
    assert!(p.parse_double_quoted(0).is_err());
}

#[test]
fn dq_err_invalid_hex_digit() {
    let mut p = Parser::new(r#""\xZZ""#);
    assert!(p.parse_double_quoted(0).is_err());
}

#[test]
fn dq_err_invalid_codepoint() {
    let mut p = Parser::new(r#""\uD800""#);
    assert!(p.parse_double_quoted(0).is_err());
}

#[test]
fn sq_simple() {
    assert_eq!(sq(r#"'foo'"#, 0), "foo");
}

#[test]
fn sq_empty() {
    assert_eq!(sq(r#"''"#, 0), "");
}

#[test]
fn sq_backslash_is_literal() {
    assert_eq!(sq(r#"'a\nb'"#, 0), "a\\nb");
}

#[test]
fn sq_escape_quote() {
    assert_eq!(sq(r#"'it''s'"#, 0), "it's");
}

#[test]
fn sq_escape_quote_multiple() {
    assert_eq!(sq(r#"'a''b''c'"#, 0), "a'b'c");
}

#[test]
fn sq_single_break_folds_to_space() {
    assert_eq!(sq("'a\nb'", 0), "a b");
}

#[test]
fn sq_trailing_ws_before_break_stripped() {
    assert_eq!(sq("'a   \nb'", 0), "a b");
}

#[test]
fn sq_more_indented_preserves_break() {
    assert_eq!(sq("'a\n  b'", 0), "a\n  b");
}

#[test]
fn sq_crlf_fold() {
    assert_eq!(sq("'a\r\nb'", 0), "a b");
}

#[test]
fn sq_err_unterminated() {
    let mut p = Parser::new(r#"'foo"#);
    assert!(p.parse_single_quoted(0).is_err());
}

#[test]
fn borrowed_slices_respect_multibyte_characters() {
    let src = "héllo wörld 🎉  : x";
    let mut p = Parser::new(src);
    let plain = p.parse_plain_scalar(false);
    assert!(matches!(plain, Cow::Borrowed("héllo wörld 🎉")));
    let mut p = Parser::new("\"日本語 ✓\" tail");
    let dq = p.parse_double_quoted(0).unwrap();
    assert!(matches!(dq, Cow::Borrowed("日本語 ✓")));
    assert_eq!(p.peek(), Some(' '));
    let mut p = Parser::new("'ça va' ");
    let sq = p.parse_single_quoted(0).unwrap();
    assert!(matches!(sq, Cow::Borrowed("ça va")));
}

#[test]
fn escape_errors_name_the_offending_character() {
    let mut p = Parser::new(r#""\xZZ""#);
    assert_eq!(p.parse_double_quoted(0).unwrap_err().msg, "invalid hex digit in \\2Z");
    let mut p = Parser::new(r#""\u12G4""#);
    assert_eq!(p.parse_double_quoted(0).unwrap_err().msg, "invalid hex digit in \\4G");
    let mut p = Parser::new(r#""\q""#);
    assert_eq!(p.parse_double_quoted(0).unwrap_err().msg, "unknown escape \\q");
    let mut p = Parser::new("\"\\\u{e9}\"");
    assert_eq!(p.parse_double_quoted(0).unwrap_err().msg, "unknown escape \\\u{c3}");
}

#[test]
fn a_failed_escape_appends_nothing() {
    for src in ["q", "x4", "xZZ", "uD800", ""] {
        let mut p = Parser::new(src);
        let mut out = String::from("kept");
        assert!(p.decode_double_quoted_escape(&mut out, 0).is_err(), "{src}");
        assert_eq!(out, "kept", "{src}");
    }
    let mut p = Parser::new("x41");
    let mut out = String::from("kept");
    p.decode_double_quoted_escape(&mut out, 0).unwrap();
    assert_eq!(out, "keptA");
}

fn error_place(src: &str, single: bool) -> (Option<usize>, Option<usize>) {
    let mut p = Parser::new(src);
    let e = if single { p.parse_single_quoted(0).unwrap_err() } else { p.parse_double_quoted(0).unwrap_err() };
    (e.line, e.col)
}

#[test]
fn quoted_scalar_errors_stop_where_reading_went_wrong() {
    assert_eq!(error_place("\"abc", false), (Some(1), Some(5)));
    assert_eq!(error_place("\"a\\qb\"", false), (Some(1), Some(4)));
    assert_eq!(error_place("\"ab\nc\\x4Z\"", false), (Some(2), Some(5)));
    assert_eq!(error_place("\"\\uD800\"", false), (Some(1), Some(8)));
    assert_eq!(error_place("\"x\\", false), (Some(1), Some(4)));
    assert_eq!(error_place("'ab\ncd", true), (Some(2), Some(3)));
}
