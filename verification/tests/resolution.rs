//! Plain-scalar resolution under the YAML 1.2 core schema, and the integer
//! and float readers it rests on.

use std::borrow::Cow;

use yaml0::owned::Value;
use yaml0::patterns::{parse_yaml_float, parse_yaml_int, resolve_scalar};
use yaml0::value::BorrowedValue;

/// What Rust's `f64` parsing gives for `s`, as a bit pattern.
fn std_parse(s: &str) -> Option<u64> {
    s.parse::<f64>().ok().map(f64::to_bits)
}

fn resolve(s: &str) -> BorrowedValue<'_> {
    resolve_scalar(Cow::Borrowed(s), std_parse(s))
}

fn yaml_float(s: &str) -> Option<f64> {
    parse_yaml_float(s, std_parse(s)).map(f64::from_bits)
}

#[test]
fn resolves_null() {
    assert!(matches!(resolve("null"), BorrowedValue::Null));
}

#[test]
fn resolves_tilde() {
    assert!(matches!(resolve("~"), BorrowedValue::Null));
}

#[test]
fn resolves_true() {
    assert!(matches!(resolve("true"), BorrowedValue::Bool(true)));
}

#[test]
fn resolves_int() {
    assert!(matches!(resolve("42"), BorrowedValue::Int(42)));
}

#[test]
fn resolves_negative_int() {
    assert!(matches!(resolve("-42"), BorrowedValue::Int(-42)));
}

#[test]
fn resolves_big_uint_as_string() {
    assert!(matches!(resolve("18446744073709551610"), BorrowedValue::String(_)));
}

#[test]
fn resolves_float() {
    assert!(matches!(resolve("1.5"), BorrowedValue::Float(_)));
}

#[test]
fn resolves_inf() {
    let v = resolve(".inf");
    assert!(matches!(v, BorrowedValue::Float(f) if f64::from_bits(f) == f64::INFINITY));
}

#[test]
fn resolves_neg_inf() {
    let v = resolve("-.inf");
    assert!(matches!(v, BorrowedValue::Float(f) if f64::from_bits(f) == f64::NEG_INFINITY));
}

#[test]
fn resolves_nan() {
    let v = resolve(".nan");
    assert!(matches!(v, BorrowedValue::Float(f) if f64::from_bits(f).is_nan()));
}

#[test]
fn resolves_int_text() {
    let v = resolve("42");
    assert!(!matches!(v, BorrowedValue::Float(_)));
}

#[test]
fn falls_back_to_string() {
    assert!(matches!(resolve("hello"), BorrowedValue::String(_)));
}

#[test]
fn preserves_borrow_on_string() {
    let src = "hello";
    let v = resolve_scalar(Cow::Borrowed(src), None);
    if let BorrowedValue::String(Cow::Borrowed(s)) = v {
        assert!(std::ptr::eq(s, src));
    } else {
        panic!("expected borrowed string");
    }
}

#[test]
fn yaml_int_decimal() {
    assert!(matches!(parse_yaml_int("42"), Some(BorrowedValue::Int(42))));
}

#[test]
fn yaml_int_negative() {
    assert!(matches!(parse_yaml_int("-42"), Some(BorrowedValue::Int(-42))));
}

#[test]
fn yaml_int_plus_prefix() {
    assert!(matches!(parse_yaml_int("+42"), Some(BorrowedValue::Int(42))));
}

#[test]
fn yaml_int_hex() {
    assert!(matches!(parse_yaml_int("0xff"), Some(BorrowedValue::Int(255))));
}

#[test]
fn yaml_int_hex_mixed_case() {
    assert!(matches!(parse_yaml_int("0xAbCd"), Some(BorrowedValue::Int(43981))));
}

#[test]
fn yaml_int_octal() {
    assert!(matches!(parse_yaml_int("0o755"), Some(BorrowedValue::Int(493))));
}

#[test]
fn yaml_int_hex_no_sign() {
    assert!(parse_yaml_int("+0xff").is_none());
    assert!(parse_yaml_int("-0xff").is_none());
}

#[test]
fn yaml_int_empty_radix() {
    assert!(parse_yaml_int("0x").is_none());
    assert!(parse_yaml_int("0o").is_none());
}

#[test]
fn yaml_int_i64_min() {
    assert!(matches!(parse_yaml_int("-9223372036854775808"), Some(BorrowedValue::Int(i64::MIN))));
}

#[test]
fn yaml_int_overflow_falls_back() {
    assert!(parse_yaml_int("-99999999999999999999").is_none());
}

#[test]
fn yaml_int_garbage() {
    assert!(parse_yaml_int("hello").is_none());
    assert!(parse_yaml_int("3.14").is_none());
}

#[test]
fn yaml_float_decimal() {
    assert!(matches!(yaml_float("3.1"), Some(f) if (f - 3.1).abs() < 1e-9));
}

#[test]
fn yaml_float_scientific() {
    assert!(matches!(yaml_float("1e5"), Some(f) if f == 100_000.0));
}

#[test]
fn yaml_float_inf_variants() {
    for s in [".inf", ".Inf", ".INF", "+.inf", "+.Inf", "+.INF"] {
        assert_eq!(yaml_float(s), Some(f64::INFINITY), "{s}");
    }
}

#[test]
fn yaml_float_neg_inf_variants() {
    for s in ["-.inf", "-.Inf", "-.INF"] {
        assert_eq!(yaml_float(s), Some(f64::NEG_INFINITY), "{s}");
    }
}

#[test]
fn yaml_float_nan_variants() {
    for s in [".nan", ".NaN", ".NAN"] {
        assert!(matches!(yaml_float(s), Some(f) if f.is_nan()), "{s}");
    }
}

#[test]
fn yaml_float_accepts_int_text() {
    assert!(matches!(yaml_float("42"), Some(f) if f == 42.0));
}

#[test]
fn yaml_float_garbage() {
    assert!(yaml_float("hello").is_none());
    assert!(yaml_float(".inferno").is_none());
}

#[test]
fn resolves_hex() {
    assert!(matches!(resolve("0xff"), BorrowedValue::Int(255)));
}

#[test]
fn resolves_octal() {
    assert!(matches!(resolve("0o17"), BorrowedValue::Int(15)));
}

#[test]
fn resolves_plus_int() {
    assert!(matches!(resolve("+42"), BorrowedValue::Int(42)));
}

#[test]
fn norway_words_stay_strings() {
    for s in ["yes", "no", "on", "off", "y", "n", "NO"] {
        assert!(matches!(resolve(s), BorrowedValue::String(ref t) if t == s), "{s}");
    }
}

#[test]
fn bool_spellings_resolve() {
    assert!(matches!(resolve("True"), BorrowedValue::Bool(true)));
    assert!(matches!(resolve("FALSE"), BorrowedValue::Bool(false)));
    assert!(matches!(resolve("tRUE"), BorrowedValue::String(_)));
}

#[test]
fn null_spellings_resolve() {
    for s in ["", "~", "null", "Null", "NULL"] {
        assert!(matches!(resolve(s), BorrowedValue::Null), "{s}");
    }
    assert!(matches!(resolve("nULL"), BorrowedValue::String(_)));
}

#[test]
fn i64_max_is_int_and_one_more_is_text() {
    assert!(matches!(resolve("9223372036854775807"), BorrowedValue::Int(i64::MAX)));
    assert!(matches!(resolve("9223372036854775808"), BorrowedValue::String(ref t) if t == "9223372036854775808"));
}

#[test]
fn float_needs_a_mark() {
    // "1e5" carries a mark; "inf" parses as a Rust float but has none.
    assert!(matches!(resolve("1e5"), BorrowedValue::Float(f) if f64::from_bits(f) == 100_000.0));
    assert!(matches!(resolve("inf"), BorrowedValue::String(_)));
    assert!(matches!(resolve("1.2.3"), BorrowedValue::String(_)));
}

#[test]
fn big_integer_text_reads_back_through_accessors() {
    let v = Value::from_borrowed(resolve("18446744073709551615"));
    assert_eq!(v.as_u64(), Some(18446744073709551615));
    assert_eq!(v.as_i128(), Some(18446744073709551615));
    assert_eq!(v.as_i64(), None);
}
