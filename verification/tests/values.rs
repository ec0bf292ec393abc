//! The value model: accessors, conversions, the total order, standard-tag
//! coercions and error text.

use std::cmp::Ordering;

use std::borrow::Cow;

use yaml0::owned::Value;
use yaml0::tags::{coerce_bool, coerce_int, coerce_str, float_to_i64, standard_tag, StandardTag};
use yaml0::value::BorrowedValue;
use yaml0::Error;

fn text(s: &str) -> Value {
    Value::String(s.to_string())
}

fn float(f: f64) -> Value {
    Value::Float(f.to_bits())
}

fn btext(s: &str) -> BorrowedValue<'_> {
    BorrowedValue::String(Cow::Borrowed(s))
}

fn bfloat<'a>(f: f64) -> BorrowedValue<'a> {
    BorrowedValue::Float(f.to_bits())
}

#[test]
fn coerce_int_from_bool() {
    assert!(matches!(coerce_int(BorrowedValue::Bool(true)), BorrowedValue::Int(1)));
    assert!(matches!(coerce_int(BorrowedValue::Bool(false)), BorrowedValue::Int(0)));
}

#[test]
fn coerce_int_from_float_truncates() {
    assert!(matches!(coerce_int(bfloat(3.7)), BorrowedValue::Int(3)));
    assert!(matches!(coerce_int(bfloat(-2.9)), BorrowedValue::Int(-2)));
}

#[test]
fn coerce_bool_from_zero_one() {
    assert!(matches!(coerce_bool(BorrowedValue::Int(0)), BorrowedValue::Bool(false)));
    assert!(matches!(coerce_bool(BorrowedValue::Int(1)), BorrowedValue::Bool(true)));
}

#[test]
fn coerce_bool_non_binary_int_passthrough() {
    assert!(matches!(coerce_bool(BorrowedValue::Int(2)), BorrowedValue::Int(2)));
    assert!(matches!(coerce_bool(BorrowedValue::Int(-1)), BorrowedValue::Int(-1)));
}

#[test]
fn coerce_bool_yes_no_not_coerced() {
    let v = coerce_bool(btext("yes"));
    assert!(matches!(v, BorrowedValue::String(s) if s == "yes"));
    let v = coerce_bool(btext("NO"));
    assert!(matches!(v, BorrowedValue::String(s) if s == "NO"));
}

#[test]
fn coerce_str_from_float() {
    let table = vec![(3.5f64.to_bits(), format!("{}", 3.5f64))];
    let v = coerce_str(bfloat(3.5), &table);
    assert!(matches!(v, BorrowedValue::String(s) if s == "3.5"));
}

#[test]
fn coerce_str_identity_on_string() {
    let v = coerce_str(btext("hi"), &Vec::new());
    assert!(matches!(v, BorrowedValue::String(s) if s == "hi"));
}

#[test]
fn coerce_str_of_scalars() {
    assert!(matches!(coerce_str(BorrowedValue::Int(42), &Vec::new()), BorrowedValue::String(s) if s == "42"));
    assert!(matches!(coerce_str(BorrowedValue::Int(i64::MIN), &Vec::new()), BorrowedValue::String(s) if s == "-9223372036854775808"));
    assert!(matches!(coerce_str(BorrowedValue::Bool(true), &Vec::new()), BorrowedValue::String(s) if s == "true"));
    assert!(matches!(coerce_str(BorrowedValue::Bool(false), &Vec::new()), BorrowedValue::String(s) if s == "false"));
    assert!(matches!(coerce_str(BorrowedValue::Null, &Vec::new()), BorrowedValue::String(s) if s == "null"));
    assert!(matches!(coerce_str(BorrowedValue::Sequence(vec![]), &Vec::new()), BorrowedValue::Sequence(v) if v.is_empty()));
}

#[test]
fn coerce_int_of_strings() {
    assert!(matches!(coerce_int(btext("42")), BorrowedValue::Int(42)));
    assert!(matches!(coerce_int(btext("0xff")), BorrowedValue::Int(255)));
    assert!(matches!(coerce_int(btext("nonsense")), BorrowedValue::String(s) if s == "nonsense"));
    assert!(matches!(coerce_int(BorrowedValue::Null), BorrowedValue::Null));
}

#[test]
fn coerce_bool_any_letter_case() {
    assert!(matches!(coerce_bool(btext("TRUE")), BorrowedValue::Bool(true)));
    assert!(matches!(coerce_bool(btext("False")), BorrowedValue::Bool(false)));
    assert!(matches!(coerce_bool(btext("tRuE")), BorrowedValue::Bool(true)));
    assert!(matches!(coerce_bool(btext("truth")), BorrowedValue::String(_)));
}

#[test]
fn coerce_bool_from_doubles() {
    assert!(matches!(coerce_bool(bfloat(0.0)), BorrowedValue::Bool(false)));
    assert!(matches!(coerce_bool(bfloat(-0.0)), BorrowedValue::Bool(false)));
    assert!(matches!(coerce_bool(bfloat(1.0)), BorrowedValue::Bool(true)));
    assert!(matches!(coerce_bool(bfloat(0.5)), BorrowedValue::Float(b) if b == 0.5f64.to_bits()));
}

#[test]
fn double_to_int_saturates() {
    assert_eq!(float_to_i64(f64::NAN.to_bits()), 0);
    assert_eq!(float_to_i64(f64::INFINITY.to_bits()), i64::MAX);
    assert_eq!(float_to_i64(f64::NEG_INFINITY.to_bits()), i64::MIN);
    assert_eq!(float_to_i64(1e20f64.to_bits()), i64::MAX);
    assert_eq!(float_to_i64((-1e20f64).to_bits()), i64::MIN);
    assert_eq!(float_to_i64(9.2233720368547758e18f64.to_bits()), i64::MAX);
    assert_eq!(float_to_i64((-9.2233720368547758e18f64).to_bits()), i64::MIN);
    assert_eq!(float_to_i64(0.999f64.to_bits()), 0);
    assert_eq!(float_to_i64(1e-310f64.to_bits()), 0);
    assert_eq!(float_to_i64(4503599627370497.0f64.to_bits()), 4503599627370497);
    assert_eq!(float_to_i64(1e18f64.to_bits()), 1_000_000_000_000_000_000);
    for f in [123.456f64, -7.5, 2.0e15, -3.0e17, 0.5] {
        assert_eq!(float_to_i64(f.to_bits()), f as i64, "{f}");
    }
}

#[test]
fn standard_tags_are_recognised() {
    assert_eq!(standard_tag("!!str"), Some(StandardTag::Str));
    assert_eq!(standard_tag("!!int"), Some(StandardTag::Int));
    assert_eq!(standard_tag("!!float"), Some(StandardTag::Float));
    assert_eq!(standard_tag("!!bool"), Some(StandardTag::Bool));
    assert_eq!(standard_tag("!!null"), Some(StandardTag::Null));
    assert_eq!(standard_tag("!myapp/Thing"), None);
    assert_eq!(standard_tag("!<tag:example.com,2026:foo>"), None);
    assert_eq!(standard_tag("!!Str"), None);
}

#[test]
fn integer_accessors() {
    assert_eq!(Value::Int(-5).as_i64(), Some(-5));
    assert_eq!(Value::Int(-5).as_u64(), None);
    assert_eq!(Value::Int(5).as_u64(), Some(5));
    assert_eq!(Value::Int(-5).as_i128(), Some(-5));
    assert_eq!(text("18446744073709551615").as_u64(), Some(u64::MAX));
    assert_eq!(text("18446744073709551616").as_u64(), None);
    assert_eq!(text("-170141183460469231731687303715884105728").as_i128(), Some(i128::MIN));
    assert_eq!(text("+12").as_u64(), Some(12));
    assert_eq!(text("12x").as_i128(), None);
    assert_eq!(float(1.0).as_i64(), None);
}

#[test]
fn kind_predicates() {
    assert!(Value::Null.is_null());
    assert!(Value::Int(1).is_integer() && Value::Int(1).is_numeric());
    assert!(float(1.0).is_numeric() && !float(1.0).is_integer());
    assert!(Value::Mapping(vec![]).is_map() && !Value::Mapping(vec![]).is_seq());
    assert!(Value::Sequence(vec![]).is_seq());
    assert_eq!(Value::Bool(true).as_bool(), Some(true));
    assert_eq!(Value::Int(1).as_bool(), None);
    assert_eq!(text("a").as_str(), Some("a"));
    assert_eq!(Value::Null.as_str(), None);
}

#[test]
fn truthiness() {
    assert!(!Value::Null.truthy());
    assert!(Value::Bool(true).truthy() && !Value::Bool(false).truthy());
    assert!(Value::Int(-1).truthy() && !Value::Int(0).truthy());
    assert!(!float(0.0).truthy() && !float(-0.0).truthy());
    assert!(float(f64::NAN).truthy() && float(0.1).truthy());
    assert!(!text("").truthy() && text("0").truthy());
    assert!(!Value::Sequence(vec![]).truthy() && Value::Sequence(vec![Value::Null]).truthy());
    assert!(!Value::Mapping(vec![]).truthy());
    assert!(!Value::Tagged("!t".to_string(), Box::new(Value::Int(0))).truthy());
    assert!(Value::Tagged("!t".to_string(), Box::new(Value::Int(3))).truthy());
}

#[test]
fn wide_integers_beyond_i64_become_text() {
    assert!(matches!(Value::from_u64(u64::MAX), Value::String(s) if s == "18446744073709551615"));
    assert!(matches!(Value::from_u64(7), Value::Int(7)));
    assert!(matches!(Value::from_u128(u128::MAX), Value::String(s) if s == "340282366920938463463374607431768211455"));
    assert!(matches!(Value::from_i128(i128::MIN), Value::String(s) if s == "-170141183460469231731687303715884105728"));
    assert!(matches!(Value::from_i128(-9223372036854775809), Value::String(s) if s == "-9223372036854775809"));
    assert!(matches!(Value::from_i128(i64::MIN as i128), Value::Int(i64::MIN)));
    assert!(matches!(Value::from_text("x"), Value::String(s) if s == "x"));
    assert!(matches!(Value::from(200u8), Value::Int(200)));
    assert!(matches!(Value::from(-3i8), Value::Int(-3)));
    assert!(matches!(Value::from(u32::MAX), Value::Int(4294967295)));
    assert!(matches!(Value::from(true), Value::Bool(true)));
    assert!(matches!(Value::from("s".to_string()), Value::String(s) if s == "s"));
}

#[test]
fn order_ranks_kinds_then_contents() {
    let order = [
        Value::Null,
        Value::Bool(false),
        Value::Bool(true),
        Value::Int(-3),
        Value::Int(2),
        float(f64::NEG_INFINITY),
        float(-0.0),
        float(0.0),
        float(1.5),
        float(f64::NAN),
        text(""),
        text("a"),
        text("ab"),
        text("b"),
        Value::Sequence(vec![]),
        Value::Sequence(vec![Value::Int(1)]),
        Value::Sequence(vec![Value::Int(1), Value::Null]),
        Value::Sequence(vec![Value::Int(2)]),
        Value::Mapping(vec![]),
        Value::Mapping(vec![(text("a"), Value::Int(1))]),
        Value::Mapping(vec![(text("a"), Value::Int(2))]),
        Value::Tagged("!a".to_string(), Box::new(Value::Int(9))),
        Value::Tagged("!b".to_string(), Box::new(Value::Int(1))),
    ];
    for (i, a) in order.iter().enumerate() {
        for (j, b) in order.iter().enumerate() {
            assert_eq!(a.cmp(b), i.cmp(&j), "{i} {j}");
            assert_eq!(a.equals(b), i == j, "{i} {j}");
        }
    }
}

#[test]
fn nan_equals_itself_under_the_order() {
    assert_eq!(float(f64::NAN).cmp(&float(f64::NAN)), Ordering::Equal);
    assert!(float(f64::NAN).equals(&float(f64::NAN)));
}

#[test]
fn error_text_names_the_place() {
    let e = Error { msg: "bad".to_string(), line: None, col: None };
    assert_eq!(e.describe(), "Parsing error: bad");
    let e = Error { msg: "bad".to_string(), line: Some(3), col: None };
    assert_eq!(e.describe(), "Parsing error on line 3: bad");
    let e = Error { msg: "bad".to_string(), line: None, col: Some(7) };
    assert_eq!(e.describe(), "Parsing error on pos 7: bad");
    let e = Error { msg: "bad".to_string(), line: Some(12), col: Some(40) };
    assert_eq!(e.describe(), "Parsing error on line 12, pos 40: bad");
    let e = Error::custom("custom".to_string());
    assert_eq!((e.line, e.col), (None, None));
    assert_eq!(e.msg, "custom");
}

#[test]
fn conversions_between_the_two_value_types() {
    let owned = Value::Mapping(vec![
        (text("name"), Value::Tagged("!t".to_string(), Box::new(text("x")))),
        (text("list"), Value::Sequence(vec![Value::Int(1), Value::Null, text("y")])),
    ]);
    let borrowed = BorrowedValue::from(&owned);
    match &borrowed {
        BorrowedValue::Mapping(pairs) => {
            assert!(matches!(&pairs[0].0, BorrowedValue::String(Cow::Borrowed(_))));
            match &pairs[0].1 {
                BorrowedValue::Tagged(Cow::Borrowed(t), inner) => {
                    assert_eq!(*t, "!t");
                    assert!(matches!(**inner, BorrowedValue::String(Cow::Borrowed("x"))));
                }
                other => panic!("expected a borrowed tag, got {other:?}"),
            }
        }
        other => panic!("expected a mapping, got {other:?}"),
    }
    let copied = Value::from(borrowed);
    assert_eq!(copied, owned);
    assert_eq!(BorrowedValue::from(&copied), BorrowedValue::from(&owned));
}
