//! Whole values: merge-key splicing and the emitter.

use std::borrow::Cow;

use yaml0::emitter::{collect_floats, emit, is_inline, nesting_depth};
use yaml0::merge::{merge_in_map, resolve_merge_keys};
use yaml0::patterns::resolve_scalar;
use yaml0::owned::Value as Owned;
use yaml0::value::BorrowedValue as Value;
use yaml0::Parser;

fn text(s: &str) -> Value<'_> {
    Value::String(Cow::Borrowed(s))
}

fn map<'a>(pairs: Vec<(&'a str, Value<'a>)>) -> Value<'a> {
    Value::Mapping(pairs.into_iter().map(|(k, v)| (text(k), v)).collect())
}

fn show(v: &Value) -> String {
    emit(v, &Vec::new()).unwrap()
}

fn show_float(f: f64) -> String {
    let table = vec![(f.to_bits(), format!("{}", f))];
    emit(&Value::Float(f.to_bits()), &table).unwrap()
}

#[test]
fn explicit_keys_win_over_merged_ones() {
    let defaults = map(vec![("image", text("nginx")), ("port", Value::Int(80))]);
    let service = map(vec![("<<", defaults), ("port", Value::Int(443))]);
    let merged = resolve_merge_keys(service);
    let expected = map(vec![("port", Value::Int(443)), ("image", text("nginx"))]);
    assert_eq!(merged, expected);
}

#[test]
fn earlier_merge_sources_win() {
    let a = map(vec![("x", Value::Int(1))]);
    let b = map(vec![("x", Value::Int(2)), ("y", Value::Int(3))]);
    let m = merge_in_map(vec![(text("<<"), Value::Sequence(vec![a, Value::Int(7), b])), (text("z"), Value::Null)]);
    let expected = map(vec![("z", Value::Null), ("x", Value::Int(1)), ("y", Value::Int(3))]);
    assert_eq!(m, expected);
}

#[test]
fn merge_of_a_scalar_is_dropped() {
    let m = merge_in_map(vec![(text("<<"), text("oops")), (text("a"), Value::Int(1))]);
    assert_eq!(m, map(vec![("a", Value::Int(1))]));
}

#[test]
fn merges_resolve_bottom_up() {
    let inner_base = map(vec![("deep", Value::Bool(true))]);
    let base = map(vec![("<<", inner_base), ("k", Value::Int(1))]);
    let top = Value::Sequence(vec![map(vec![("<<", base)])]);
    let resolved = resolve_merge_keys(top);
    let expected = Value::Sequence(vec![map(vec![("k", Value::Int(1)), ("deep", Value::Bool(true))])]);
    assert_eq!(resolved, expected);
}

#[test]
fn struct_like_mapping_emits_one_line_per_field() {
    let v = map(vec![("name", text("web")), ("port", Value::Int(8080))]);
    assert_eq!(show(&v), "name: web\nport: 8080\n");
    let v = map(vec![("hello", text("world"))]);
    assert_eq!(show(&v), "hello: world\n");
}

#[test]
fn scalars_emit_alone() {
    assert_eq!(show(&Value::Null), "null\n");
    assert_eq!(show(&Value::Bool(true)), "true\n");
    assert_eq!(show(&Value::Int(-12)), "-12\n");
    assert_eq!(show(&text("plain")), "plain\n");
    assert_eq!(show(&text("42")), "'42'\n");
    assert_eq!(show(&text("a: b")), "'a: b'\n");
    assert_eq!(show(&text("it's: x")), "\"it's: x\"\n");
    assert_eq!(show(&text("bell\u{7}")), "\"bell\\x07\"\n");
    assert_eq!(show(&text("")), "''\n");
    assert_eq!(show(&text(" padded")), "' padded'\n");
}

#[test]
fn floats_emit_by_their_display_text() {
    assert_eq!(show_float(2.5), "2.5\n");
    assert_eq!(show_float(1.0), "1.0\n");
    assert_eq!(show_float(-0.0), "-0.0\n");
    assert_eq!(show_float(f64::NAN), ".nan\n");
    assert_eq!(show_float(f64::INFINITY), ".inf\n");
    assert_eq!(show_float(f64::NEG_INFINITY), "-.inf\n");
    assert_eq!(show_float(1e21), "1000000000000000000000.0\n");
}

#[test]
fn containers_emit_in_block_style() {
    assert_eq!(show(&Value::Sequence(vec![Value::Int(1), Value::Int(2)])), "- 1\n- 2\n");
    assert_eq!(show(&Value::Sequence(vec![])), "[]\n");
    assert_eq!(show(&Value::Mapping(vec![])), "{}\n");
    let v = map(vec![("a", Value::Sequence(vec![Value::Int(1), Value::Int(2)]))]);
    assert_eq!(show(&v), "a:\n  - 1\n  - 2\n");
    let v = Value::Sequence(vec![map(vec![("a", Value::Int(1)), ("b", Value::Int(2))])]);
    assert_eq!(show(&v), "- a: 1\n  b: 2\n");
    let v = map(vec![("outer", map(vec![("inner", Value::Sequence(vec![]))]))]);
    assert_eq!(show(&v), "outer:\n  inner: []\n");
}

#[test]
fn multi_line_strings_emit_as_literal_blocks() {
    let v = map(vec![("k", text("line1\nline2\n"))]);
    assert_eq!(show(&v), "k: |\n    line1\n    line2\n");
    let v = map(vec![("k", text("a\n\nb"))]);
    assert_eq!(show(&v), "k: |-\n    a\n\n    b\n");
    assert_eq!(show(&text("x\ny")), "|-\n  x\n  y\n");
}

#[test]
fn tags_precede_their_value() {
    let v = Value::Tagged(Cow::Borrowed("!t"), Box::new(Value::Int(1)));
    assert_eq!(show(&v), "!t 1\n");
    let v = Value::Tagged(Cow::Borrowed("!t"), Box::new(Value::Sequence(vec![Value::Int(1)])));
    assert_eq!(show(&v), "!t\n- 1\n");
    assert!(!is_inline(&v));
    assert!(is_inline(&Value::Tagged(Cow::Borrowed("!t"), Box::new(Value::Sequence(vec![])))));
}

#[test]
fn floats_and_depth_are_collected() {
    let v = map(vec![
        ("a", Value::Float(1.5f64.to_bits())),
        ("b", Value::Sequence(vec![Value::Float(2.5f64.to_bits()), map(vec![("c", Value::Float(0.25f64.to_bits()))])])),
    ]);
    let mut bits = Vec::new();
    collect_floats(&v, &mut bits);
    assert_eq!(bits, vec![1.5f64.to_bits(), 2.5f64.to_bits(), 0.25f64.to_bits()]);
    assert_eq!(nesting_depth(&v), 3);
    assert_eq!(nesting_depth(&Value::Null), 0);
}

#[test]
fn owned_and_borrowed_forms_convert_both_ways() {
    let v = map(vec![("k", Value::Sequence(vec![text("x"), Value::Int(3)]))]);
    let owned = Owned::from_borrowed(v);
    let back = Value::borrowing(&owned);
    assert_eq!(back, map(vec![("k", Value::Sequence(vec![text("x"), Value::Int(3)]))]));
    assert!(matches!(&back, Value::Mapping(p) if matches!(&p[0].0, Value::String(Cow::Borrowed(_)))));
}

#[test]
fn literal_blocks_read_back() {
    for s in ["line1\nline2\n", "a\n\nb", "x\n  indented\ny\n", "tab\tinside\nz"] {
        let out = show(&map(vec![("k", text(s))]));
        let mut p = Parser::new(&out);
        for _ in 0..3 {
            p.advance();
        }
        match p.parse_block_scalar().unwrap() {
            Value::String(back) => assert_eq!(back, s),
            other => panic!("expected a string, got {other:?}"),
        }
    }
}

#[test]
fn a_string_a_block_cannot_carry_is_double_quoted() {
    assert_eq!(show(&map(vec![("k", text("a\n\n"))])), "k: \"a\\n\\n\"\n");
    assert_eq!(show(&map(vec![("k", text(" a\nb"))])), "k: \" a\\nb\"\n");
    assert_eq!(show(&map(vec![("k", text("\na"))])), "k: \"\\na\"\n");
    assert_eq!(show(&map(vec![("k", text("a\n  \nb"))])), "k: \"a\\n  \\nb\"\n");
    assert_eq!(show(&text("it's\nhere\n\n")), "\"it's\\nhere\\n\\n\"\n");
    let out = show(&map(vec![("k", text("a\n\n"))]));
    let mut p = Parser::new(&out);
    for _ in 0..3 {
        p.advance();
    }
    assert_eq!(p.parse_double_quoted(0).unwrap(), "a\n\n");
}

#[test]
fn plain_written_strings_resolve_back() {
    for s in ["plain", "hello world", "a-b", "x.y.z", "v1", "1.2.3"] {
        assert_eq!(show(&text(s)), format!("{s}\n"));
        let parsed = s.parse::<f64>().ok().map(f64::to_bits);
        assert!(matches!(resolve_scalar(Cow::Borrowed(s), parsed), Value::String(t) if t == s), "{s}");
    }
}

#[test]
fn every_typed_spelling_is_quoted() {
    for s in ["True", "FALSE", "0xff", "0o17", ".NaN", ".Inf", "-.INF", "true", "null", "~", "12", "1.5"] {
        assert_eq!(show(&text(s)), format!("'{s}'\n"), "{s}");
    }
}

fn has_merge_key(v: &Value) -> bool {
    match v {
        Value::Mapping(pairs) => pairs.iter().any(|(k, v)| {
            matches!(k, Value::String(s) if s == "<<") || has_merge_key(k) || has_merge_key(v)
        }),
        Value::Sequence(items) => items.iter().any(has_merge_key),
        Value::Tagged(_, inner) => has_merge_key(inner),
        _ => false,
    }
}

fn nested_merges<'a>() -> Value<'a> {
    let inner_base = map(vec![("deep", Value::Bool(true))]);
    let base = map(vec![("<<", inner_base), ("k", Value::Int(1))]);
    let other = map(vec![("<<", map(vec![("z", Value::Null)])), ("k", Value::Int(2))]);
    Value::Sequence(vec![map(vec![("<<", Value::Sequence(vec![base, other])), ("own", text("x"))])])
}

#[test]
fn resolving_leaves_no_merge_key_and_is_idempotent() {
    let once = resolve_merge_keys(nested_merges());
    assert!(!has_merge_key(&once));
    let expected = Value::Sequence(vec![map(vec![
        ("own", text("x")),
        ("k", Value::Int(1)),
        ("deep", Value::Bool(true)),
        ("z", Value::Null),
    ])]);
    assert_eq!(once, expected);
    let twice = resolve_merge_keys(resolve_merge_keys(nested_merges()));
    assert_eq!(twice, once);
}

#[test]
fn merging_keeps_borrowed_text_borrowed() {
    let src = String::from("image: nginx");
    let key = &src[0..5];
    let val = &src[7..12];
    let base = Value::Mapping(vec![(Value::String(Cow::Borrowed(key)), Value::String(Cow::Borrowed(val)))]);
    let merged = resolve_merge_keys(map(vec![("<<", base), ("port", Value::Int(80))]));
    match merged {
        Value::Mapping(pairs) => {
            assert_eq!(pairs.len(), 2);
            match (&pairs[1].0, &pairs[1].1) {
                (Value::String(Cow::Borrowed(k)), Value::String(Cow::Borrowed(v))) => {
                    assert!(std::ptr::eq(*k, key));
                    assert!(std::ptr::eq(*v, val));
                }
                other => panic!("expected borrowed text, got {other:?}"),
            }
        }
        other => panic!("expected a mapping, got {other:?}"),
    }
}

#[test]
fn double_quoted_output_holds_no_control_character() {
    let out = show(&text("a\u{1}b\u{7f}c\td\0e\n\u{1b}"));
    assert_eq!(out, "\"a\\x01b\\x7fc\\td\\0e\\n\\x1b\"\n");
    let body = out.trim_end_matches('\n');
    assert!(body.chars().all(|c| c as u32 >= 0x20 && c as u32 != 0x7f));
}

#[test]
fn a_block_followed_by_another_entry_reads_back() {
    let out = show(&map(vec![("k", text("a\nb\n")), ("z", Value::Int(1))]));
    assert_eq!(out, "k: |\n    a\n    b\n\nz: 1\n");
    let mut p = Parser::new(&out);
    for _ in 0..3 {
        p.advance();
    }
    match p.parse_block_scalar().unwrap() {
        Value::String(back) => assert_eq!(back, "a\nb\n"),
        other => panic!("expected a string, got {other:?}"),
    }
}

#[test]
fn a_kept_block_carries_every_final_line_break() {
    let mut out = String::new();
    yaml0::emitter::emit_block_scalar("a\nb\n\n", 0, &mut out);
    assert_eq!(out, "|+\n  a\n  b\n\n");
    let src = format!("k: {out}");
    let mut p = Parser::new(&src);
    for _ in 0..3 {
        p.advance();
    }
    match p.parse_block_scalar().unwrap() {
        Value::String(back) => assert_eq!(back, "a\nb\n\n"),
        other => panic!("expected a string, got {other:?}"),
    }
    let mut one = String::new();
    yaml0::emitter::emit_block_scalar("a\n", 0, &mut one);
    assert_eq!(one, "|\n  a\n");
    let mut none = String::new();
    yaml0::emitter::emit_block_scalar("a\nb", 0, &mut none);
    assert_eq!(none, "|-\n  a\n  b");
}
