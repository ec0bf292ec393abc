//! Literal and folded block scalars, read from the value position of a
//! one-key mapping line (`k: |...`).

use yaml0::value::BorrowedValue;
use yaml0::Parser;

/// Reads the block scalar under the cursor, as a string.
fn block_text(p: &mut Parser) -> String {
    match p.parse_block_scalar().unwrap() {
        BorrowedValue::String(s) => s.to_string(),
        other => panic!("expected String value, got {other:?}"),
    }
}

/// Reads the block scalar whose indicator follows `k: ` on the first line.
fn parse_block(src: &str) -> String {
    let mut p = Parser::new(src);
    for _ in 0..3 {
        p.advance();
    }
    block_text(&mut p)
}

#[test]
fn clip_default_keeps_one_newline() {
    assert_eq!(parse_block("k: |\n  hello\n"), "hello\n");
}

#[test]
fn strip_removes_trailing_newline() {
    assert_eq!(parse_block("k: |-\n  hello\n"), "hello");
}

#[test]
fn keep_retains_trailing_blanks() {
    assert_eq!(parse_block("k: |+\n  hello\n\n"), "hello\n\n");
}

#[test]
fn two_lines_joined_with_newline() {
    assert_eq!(parse_block("k: |\n  a\n  b\n"), "a\nb\n");
}

#[test]
fn interior_blank_preserved() {
    assert_eq!(parse_block("k: |\n  a\n\n  b\n"), "a\n\nb\n");
}

#[test]
fn block_ends_on_dedent() {
    let mut p = Parser::new("k: |\n  a\n  b\nnext: v\n");
    for _ in 0..3 {
        p.advance();
    }
    assert_eq!(block_text(&mut p), "a\nb\n");
    assert_eq!(p.parse_plain_scalar(false), "next");
    assert_eq!(p.peek(), Some(':'));
}

#[test]
fn explicit_indent_indicator() {
    assert_eq!(
        parse_block("k: |2\n    indented line\n  short line\n"),
        "  indented line\nshort line\n",
    );
}

#[test]
fn eof_mid_block_no_trailing_newline() {
    assert_eq!(parse_block("k: |\n  hello"), "hello\n");
}

#[test]
fn empty_block_strip() {
    let mut p = Parser::new("k: |-\nnext: v\n");
    for _ in 0..3 {
        p.advance();
    }
    assert_eq!(block_text(&mut p), "");
    assert_eq!(p.parse_plain_scalar(false), "next");
}

#[test]
fn pem_blob_shape() {
    let src = "\
data: |
  -----BEGIN CERTIFICATE-----
  MIIDazCCAlOgAwIBAgI=
  -----END CERTIFICATE-----
";
    let mut p = Parser::new(src);
    for _ in 0..6 {
        p.advance();
    }
    assert_eq!(
        block_text(&mut p),
        "-----BEGIN CERTIFICATE-----\nMIIDazCCAlOgAwIBAgI=\n-----END CERTIFICATE-----\n",
    );
}

#[test]
fn header_comment_ok() {
    assert_eq!(parse_block("k: | # header comment\n  hi\n"), "hi\n");
}

#[test]
fn tab_in_indent_errors() {
    let mut p = Parser::new("k: |\n\thello\n");
    for _ in 0..3 {
        p.advance();
    }
    assert!(p.parse_block_scalar().is_err(), "expected tab-in-indent to error");
}

#[test]
fn folded_simple() {
    assert_eq!(parse_block("k: >\n  a\n  b\n"), "a b\n");
}

#[test]
fn folded_strip() {
    assert_eq!(parse_block("k: >-\n  a\n  b\n"), "a b");
}

#[test]
fn folded_keep() {
    assert_eq!(parse_block("k: >+\n  a\n\n"), "a\n\n");
}

#[test]
fn folded_blank_line_separates() {
    assert_eq!(parse_block("k: >\n  a\n\n  b\n"), "a\nb\n");
}

#[test]
fn folded_two_blank_lines() {
    assert_eq!(parse_block("k: >\n  a\n\n\n  b\n"), "a\n\nb\n");
}

#[test]
fn folded_more_indented_preserves_break() {
    assert_eq!(parse_block("k: >\n  a\n    code\n  b\n"), "a\n  code\nb\n");
}

#[test]
fn folded_more_indented_run() {
    assert_eq!(parse_block("k: >\n  a\n    one\n    two\n  b\n"), "a\n  one\n  two\nb\n");
}

#[test]
fn folded_explicit_indent_indicator() {
    assert_eq!(parse_block("k: >2\n    foo\n  bar\n"), "  foo\nbar\n");
}

#[test]
fn folded_eof_no_trailing_newline() {
    assert_eq!(parse_block("k: >\n  hello"), "hello\n");
}

#[test]
fn folded_empty_block_strip() {
    let mut p = Parser::new("k: >-\nnext: v\n");
    for _ in 0..3 {
        p.advance();
    }
    assert_eq!(block_text(&mut p), "");
    assert_eq!(p.parse_plain_scalar(false), "next");
}

#[test]
fn folded_paragraph_shape() {
    let src = "k: >\n  Lorem ipsum\n  dolor sit amet.\n\n  Consectetur adipiscing\n  elit.\n";
    assert_eq!(parse_block(src), "Lorem ipsum dolor sit amet.\nConsectetur adipiscing elit.\n");
}

#[test]
fn the_three_chomping_indicators_agree() {
    let body = "\n  one\n\n  two\n\n\nnext: 1\n";
    let read = |header: &str| {
        let src = format!("k: {header}{body}");
        let mut p = Parser::new(&src);
        for _ in 0..3 {
            p.advance();
        }
        block_text(&mut p)
    };
    let strip = read("|-");
    let clip = read("|");
    let keep = read("|+");
    assert_eq!(strip, "one\n\ntwo");
    assert_eq!(clip, "one\n\ntwo\n");
    assert_eq!(keep, "one\n\ntwo\n\n\n");
    assert!(keep.starts_with(&clip));
    assert!(keep[clip.len()..].chars().all(|c| c == '\n'));
}

#[test]
fn block_scalar_errors_stop_on_the_tab_line() {
    for (src, line) in [("k: |\n  a\n\t b\n", 3), ("k: |\n\n\tb\n", 3), ("k: |2\n  a\n\n\t\n", 4)] {
        let mut p = Parser::new(src);
        for _ in 0..3 {
            p.advance();
        }
        let e = p.parse_block_scalar().unwrap_err();
        assert_eq!((e.line, e.col), (Some(line), Some(1)), "{src:?}");
    }
}
