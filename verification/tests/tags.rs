//! Tags applied to the node they annotate.

use std::borrow::Cow;

use yaml0::emitter::collect_floats;
use yaml0::tags::apply_tag as apply;
use yaml0::tags::coerce_float as coerce_float_with;
use yaml0::value::BorrowedValue;

/// Applies `tag` with the doubles a caller supplies: the text of the
/// node's double, Rust's parsing of its text, and `as f64` of an integer.
fn apply_tag<'a>(tag: Cow<'a, str>, inner: BorrowedValue<'a>) -> BorrowedValue<'a> {
    let mut bits = Vec::new();
    collect_floats(&inner, &mut bits);
    let table: Vec<(u64, String)> = bits.into_iter().map(|b| (b, format!("{}", f64::from_bits(b)))).collect();
    let parsed = match &inner {
        BorrowedValue::String(s) => s.parse::<f64>().ok().map(f64::to_bits),
        _ => None,
    };
    let widened = match &inner {
        BorrowedValue::Int(i) => (*i as f64).to_bits(),
        _ => 0,
    };
    apply(tag, inner, &table, parsed, widened)
}

#[test]
fn apply_str_on_int() {
    let v = apply_tag(Cow::Borrowed("!!str"), BorrowedValue::Int(42));
    assert!(matches!(v, BorrowedValue::String(s) if s == "42"));
}

#[test]
fn apply_str_on_bool() {
    let v = apply_tag(Cow::Borrowed("!!str"), BorrowedValue::Bool(true));
    assert!(matches!(v, BorrowedValue::String(s) if s == "true"));
}

#[test]
fn apply_str_on_null() {
    let v = apply_tag(Cow::Borrowed("!!str"), BorrowedValue::Null);
    assert!(matches!(v, BorrowedValue::String(s) if s == "null"));
}

#[test]
fn apply_int_on_string_decimal() {
    let v = apply_tag(Cow::Borrowed("!!int"), BorrowedValue::String(Cow::Borrowed("42")));
    assert!(matches!(v, BorrowedValue::Int(42)));
}

#[test]
fn apply_int_on_string_hex() {
    let v = apply_tag(Cow::Borrowed("!!int"), BorrowedValue::String(Cow::Borrowed("0xff")));
    assert!(matches!(v, BorrowedValue::Int(255)));
}

#[test]
fn apply_int_on_string_garbage_passthrough() {
    let v = apply_tag(Cow::Borrowed("!!int"), BorrowedValue::String(Cow::Borrowed("nonsense")));
    assert!(matches!(v, BorrowedValue::String(s) if s == "nonsense"));
}

#[test]
fn apply_float_on_string() {
    let v = apply_tag(Cow::Borrowed("!!float"), BorrowedValue::String(Cow::Borrowed("3.1")));
    assert!(matches!(v, BorrowedValue::Float(f) if (f64::from_bits(f) - 3.1).abs() < 1e-9));
}

#[test]
fn apply_float_on_string_inf() {
    let v = apply_tag(Cow::Borrowed("!!float"), BorrowedValue::String(Cow::Borrowed(".inf")));
    assert!(matches!(v, BorrowedValue::Float(f) if f64::from_bits(f) == f64::INFINITY));
}

#[test]
fn apply_float_on_int_promotes() {
    let v = apply_tag(Cow::Borrowed("!!float"), BorrowedValue::Int(7));
    assert!(matches!(v, BorrowedValue::Float(f) if f64::from_bits(f) == 7.0));
}

#[test]
fn apply_bool_on_string_case_insensitive() {
    let v = apply_tag(Cow::Borrowed("!!bool"), BorrowedValue::String(Cow::Borrowed("TRUE")));
    assert!(matches!(v, BorrowedValue::Bool(true)));
    let v = apply_tag(Cow::Borrowed("!!bool"), BorrowedValue::String(Cow::Borrowed("False")));
    assert!(matches!(v, BorrowedValue::Bool(false)));
}

#[test]
fn apply_null_drops_inner() {
    let v = apply_tag(Cow::Borrowed("!!null"), BorrowedValue::String(Cow::Borrowed("ignored")));
    assert!(matches!(v, BorrowedValue::Null));
}

#[test]
fn apply_custom_tag_wraps() {
    let v = apply_tag(Cow::Borrowed("!myapp/Thing"), BorrowedValue::String(Cow::Borrowed("x")));
    match v {
        BorrowedValue::Tagged(tag, inner) => {
            assert_eq!(tag, "!myapp/Thing");
            assert!(matches!(*inner, BorrowedValue::String(s) if s == "x"));
        }
        other => panic!("expected Tagged, got {other:?}"),
    }
}

#[test]
fn apply_verbatim_tag_wraps() {
    let v = apply_tag(Cow::Borrowed("!<tag:example.com,2026:foo>"), BorrowedValue::Int(5));
    match v {
        BorrowedValue::Tagged(tag, inner) => {
            assert_eq!(tag, "!<tag:example.com,2026:foo>");
            assert!(matches!(*inner, BorrowedValue::Int(5)));
        }
        other => panic!("expected Tagged, got {other:?}"),
    }
}

#[test]
fn float_coercion_of_the_other_kinds() {
    assert!(matches!(apply_tag(Cow::Borrowed("!!float"), BorrowedValue::Bool(true)), BorrowedValue::Float(f) if f64::from_bits(f) == 1.0));
    assert!(matches!(apply_tag(Cow::Borrowed("!!float"), BorrowedValue::Bool(false)), BorrowedValue::Float(0)));
    assert!(matches!(apply_tag(Cow::Borrowed("!!float"), BorrowedValue::String(Cow::Borrowed("1e3"))), BorrowedValue::Float(f) if f64::from_bits(f) == 1000.0));
    assert!(matches!(apply_tag(Cow::Borrowed("!!float"), BorrowedValue::String(Cow::Borrowed("abc"))), BorrowedValue::String(s) if s == "abc"));
    let src = "keep";
    match apply_tag(Cow::Borrowed("!!float"), BorrowedValue::String(Cow::Borrowed(src))) {
        BorrowedValue::String(Cow::Borrowed(s)) => assert!(std::ptr::eq(s, src)),
        other => panic!("expected the borrowed text, got {other:?}"),
    }
}

/// `!!float` on a node, with the doubles a caller supplies.
fn coerce_float(v: BorrowedValue<'_>) -> BorrowedValue<'_> {
    let parsed = match &v {
        BorrowedValue::String(s) => s.parse::<f64>().ok().map(f64::to_bits),
        _ => None,
    };
    let widened = match &v {
        BorrowedValue::Int(i) => (*i as f64).to_bits(),
        _ => 0,
    };
    coerce_float_with(v, parsed, widened)
}

fn double(f: f64) -> BorrowedValue<'static> {
    BorrowedValue::Float(f.to_bits())
}

#[test]
fn coerce_float_from_int() {
    assert!(matches!(coerce_float(BorrowedValue::Int(-7)), BorrowedValue::Float(f) if f64::from_bits(f) == -7.0));
    assert!(matches!(coerce_float(BorrowedValue::Int(7)), BorrowedValue::Float(f) if f64::from_bits(f) == 7.0));
}

#[test]
fn coerce_float_from_bool() {
    assert!(matches!(coerce_float(BorrowedValue::Bool(true)), BorrowedValue::Float(f) if f64::from_bits(f) == 1.0));
    assert!(matches!(coerce_float(BorrowedValue::Bool(false)), BorrowedValue::Float(f) if f64::from_bits(f) == 0.0));
}

#[test]
fn coerce_float_identity() {
    assert!(matches!(coerce_float(double(2.5)), BorrowedValue::Float(f) if f64::from_bits(f) == 2.5));
}
