//! The standard tags `!!str`, `!!int`, `!!float`, `!!bool` and `!!null`,
//! and the coercions that `!!str`, `!!int` and `!!bool` apply to the node
//! they annotate (doubles are made by the caller, which parses them).
use vstd::prelude::*;

use crate::emitter::{float_exponent, float_mantissa, table_text};
use crate::patterns::{parse_yaml_float, parse_yaml_int, spells, spells_word, yaml_float, yaml_int};
use crate::text::{push_signed_decimal, signed_decimal, str_chars};
use crate::text::cow_text;
use crate::value::{BorrowedValue, Node};

use std::borrow::Cow;

verus! {

/// A standard tag of the YAML core schema.
#[derive(Debug, PartialEq, Eq, Structural)]
pub enum StandardTag {
    Str,
    Int,
    Float,
    Bool,
    Null,
}

/// The standard tag a tag names, if it names one.
pub open spec fn standard_tag_of(t: Seq<char>) -> Option<StandardTag> {
    if t == "!!str"@ {
        Some(StandardTag::Str)
    } else if t == "!!int"@ {
        Some(StandardTag::Int)
    } else if t == "!!float"@ {
        Some(StandardTag::Float)
    } else if t == "!!bool"@ {
        Some(StandardTag::Bool)
    } else if t == "!!null"@ {
        Some(StandardTag::Null)
    } else {
        None
    }
}

/// Which standard tag `tag` is (see [`standard_tag_of`]); any other tag is
/// kept on its value.
pub fn standard_tag(tag: &str) -> (r: Option<StandardTag>)
    ensures
        r == standard_tag_of(tag@),
{
    let v = str_chars(tag);
    let w = v.as_slice();
    if crate::text::chars_equal_str(w, "!!str") {
        Some(StandardTag::Str)
    } else if crate::text::chars_equal_str(w, "!!int") {
        Some(StandardTag::Int)
    } else if crate::text::chars_equal_str(w, "!!float") {
        Some(StandardTag::Float)
    } else if crate::text::chars_equal_str(w, "!!bool") {
        Some(StandardTag::Bool)
    } else if crate::text::chars_equal_str(w, "!!null") {
        Some(StandardTag::Null)
    } else {
        None
    }
}

/// Two to the power `n`.
pub open spec fn two_pow(n: nat) -> nat
    decreases n,
{
    if n == 0 { 1 } else { 2 * two_pow((n - 1) as nat) }
}

proof fn lemma_two_pow_monotone(a: nat, b: nat)
    requires
        a <= b,
    ensures
        1 <= two_pow(a) <= two_pow(b),
    decreases b,
{
    if b > a {
        lemma_two_pow_monotone(a, (b - 1) as nat);
    } else if a > 0 {
        lemma_two_pow_monotone((a - 1) as nat, (a - 1) as nat);
    }
}

/// The whole part of the magnitude of a finite double, from its bit
/// pattern: the significand `2^52 + mantissa` scaled by `2^(exponent - 1075)`,
/// with the fraction dropped; zero for zeros and subnormals.
pub open spec fn truncated_magnitude(bits: u64) -> int {
    let e = float_exponent(bits);
    let significand = 0x10_0000_0000_0000 + float_mantissa(bits);
    if e == 0 {
        0
    } else if e >= 1075 {
        significand * two_pow((e - 1075) as nat)
    } else {
        significand / (two_pow((1075 - e) as nat) as int)
    }
}

/// What `as i64` gives for a double, from its bit pattern: rounded toward
/// zero, NaN as zero, saturated at `i64::MIN` and `i64::MAX`.
pub open spec fn saturating_truncation(bits: u64) -> int {
    let e = float_exponent(bits);
    if e == 2047 && float_mantissa(bits) != 0 {
        0
    } else {
        let magnitude = if e == 2047 { 0x1_0000_0000_0000_0000 } else { truncated_magnitude(bits) };
        if bits >= 0x8000_0000_0000_0000 {
            if magnitude >= 0x8000_0000_0000_0000 { -0x8000_0000_0000_0000 } else { -magnitude }
        } else {
            if magnitude >= 0x8000_0000_0000_0000 { 0x7fff_ffff_ffff_ffff } else { magnitude }
        }
    }
}

/// The `i64` a double converts to with `as` (see
/// [`saturating_truncation`]).
pub fn float_to_i64(bits: u64) -> (r: i64)
    ensures
        r as int == saturating_truncation(bits),
{
    let exponent = (bits / 0x10_0000_0000_0000) % 2048;
    let mantissa = bits % 0x10_0000_0000_0000;
    let negative = bits >= 0x8000_0000_0000_0000;
    if exponent == 2047 && mantissa != 0 {
        return 0;
    }
    let significand: u64 = 0x10_0000_0000_0000 + mantissa;
    if exponent >= 1086 {
        proof {
            if exponent < 2047 {
                lemma_two_pow_monotone(11, (exponent - 1075) as nat);
                assert(two_pow(11) == 2048) by {
                    reveal_with_fuel(two_pow, 12);
                }
                assert(significand * two_pow((exponent - 1075) as nat) >= 0x10_0000_0000_0000 * 2048) by (nonlinear_arith)
                    requires
                        significand >= 0x10_0000_0000_0000,
                        two_pow((exponent - 1075) as nat) >= 2048,
                ;
            }
        }
        return if negative { i64::MIN } else { i64::MAX };
    }
    if exponent == 0 {
        return 0;
    }
    let mut magnitude: u64 = significand;
    assert(two_pow(0) == 1);
    if exponent >= 1075 {
        let steps = exponent - 1075;
        let mut i: u64 = 0;
        while i < steps
            invariant
                i <= steps <= 10,
                magnitude as int == significand * two_pow(i as nat),
                significand < 0x20_0000_0000_0000,
            decreases steps - i,
        {
            proof {
                lemma_two_pow_monotone(i as nat, 9);
                assert(two_pow(9) == 512) by {
                    reveal_with_fuel(two_pow, 10);
                }
                assert(significand * two_pow(i as nat) < 0x20_0000_0000_0000 * 512) by (nonlinear_arith)
                    requires
                        significand < 0x20_0000_0000_0000,
                        two_pow(i as nat) <= 512,
                        1 <= two_pow(i as nat),
                ;
                assert(significand * two_pow((i + 1) as nat) == significand * two_pow(i as nat) * 2) by (nonlinear_arith)
                    requires
                        two_pow((i + 1) as nat) == 2 * two_pow(i as nat),
                ;
            }
            magnitude = magnitude * 2;
            i = i + 1;
        }
        proof {
            lemma_two_pow_monotone(steps as nat, 10);
            assert(two_pow(10) == 1024) by {
                    reveal_with_fuel(two_pow, 11);
                }
            assert(significand * two_pow(steps as nat) < 0x20_0000_0000_0000 * 1024) by (nonlinear_arith)
                requires
                    significand < 0x20_0000_0000_0000,
                    two_pow(steps as nat) <= 1024,
                    1 <= two_pow(steps as nat),
            ;
        }
    } else {
        let steps = 1075 - exponent;
        let mut i: u64 = 0;
        while i < steps
            invariant
                i <= steps,
                magnitude as int == significand as int / (two_pow(i as nat) as int),
            decreases steps - i,
        {
            proof {
                lemma_two_pow_monotone(0, i as nat);
                vstd::arithmetic::div_mod::lemma_div_denominator(significand as int, two_pow(i as nat) as int, 2);
                assert(two_pow((i + 1) as nat) == two_pow(i as nat) * 2);
            }
            magnitude = magnitude / 2;
            i = i + 1;
        }
        proof {
            lemma_two_pow_monotone(0, steps as nat);
            vstd::arithmetic::div_mod::lemma_div_is_ordered_by_denominator(significand as int, 1, two_pow(steps as nat) as int);
        }
    }
    assert(magnitude as int == truncated_magnitude(bits));
    if negative {
        0i64 - (magnitude as i64)
    } else {
        magnitude as i64
    }
}

/// What `!!str` makes of a node: null, booleans and numbers become their
/// text (a double the text `table` records for it, as Rust's `Display`
/// writes it); every other node is kept.
pub open spec fn str_coerced(n: Node, table: Seq<(u64, String)>) -> Node {
    match n {
        Node::Null => Node::Str("null"@),
        Node::Bool(b) => Node::Str(if b { "true"@ } else { "false"@ }),
        Node::Int(i) => Node::Str(signed_decimal(i)),
        Node::Float(bits) => Node::Str(table_text(table, bits)),
        _ => n,
    }
}

/// Applies `!!str` (see [`str_coerced`]).
pub fn coerce_str<'a>(v: BorrowedValue<'a>, table: &Vec<(u64, String)>) -> (r: BorrowedValue<'a>)
    ensures
        r.model() == str_coerced(v.model(), table@),
        v is String ==> r == v,
        r is String || r == v,
{
    match v {
        BorrowedValue::Null => BorrowedValue::String(Cow::Borrowed("null")),
        BorrowedValue::Bool(true) => BorrowedValue::String(Cow::Borrowed("true")),
        BorrowedValue::Bool(false) => BorrowedValue::String(Cow::Borrowed("false")),
        BorrowedValue::Int(n) => {
            let mut s = String::new();
            push_signed_decimal(&mut s, n);
            BorrowedValue::String(Cow::Owned(s))
        },
        BorrowedValue::Float(bits) => {
            let mut s = String::new();
            let mut k: usize = 0;
            let ghost recorded = table_text(table@, bits);
            assert(table@.skip(0) =~= table@);
            while k < table.len()
                invariant_except_break
                    k <= table.len(),
                    s@ == Seq::<char>::empty(),
                    recorded == table_text(table@.skip(k as int), bits),
                ensures
                    s@ == recorded,
                decreases table.len() - k,
            {
                assert(table@.skip(k as int).drop_first() =~= table@.skip(k + 1));
                assert(table@.skip(k as int)[0] == table@[k as int]);
                if table[k].0 == bits {
                    s.append(table[k].1.as_str());
                    break;
                }
                k = k + 1;
            }
            BorrowedValue::String(Cow::Owned(s))
        },
        other => other,
    }
}

/// What `!!int` makes of a node: a string that denotes an integer (see
/// [`yaml_int`]) becomes it, booleans become 1 and 0, a double is
/// converted as `as i64` converts it; every other node is kept.
pub open spec fn int_coerced(n: Node) -> Node {
    match n {
        Node::Str(s) => match yaml_int(s) {
            Some(i) => Node::Int(i),
            None => n,
        },
        Node::Bool(b) => Node::Int(if b { 1 } else { 0 }),
        Node::Float(bits) => Node::Int(saturating_truncation(bits)),
        _ => n,
    }
}

/// Applies `!!int` (see [`int_coerced`]).
pub fn coerce_int<'a>(v: BorrowedValue<'a>) -> (r: BorrowedValue<'a>)
    ensures
        r.model() == int_coerced(v.model()),
        v is Int ==> r == v,
        r is Int || r == v,
{
    match v {
        BorrowedValue::String(s) => match parse_yaml_int(cow_text(&s)) {
            Some(n) => n,
            None => BorrowedValue::String(s),
        },
        BorrowedValue::Bool(true) => BorrowedValue::Int(1),
        BorrowedValue::Bool(false) => BorrowedValue::Int(0),
        BorrowedValue::Float(bits) => BorrowedValue::Int(float_to_i64(bits)),
        other => other,
    }
}

/// The bit patterns of 0.0, -0.0 and 1.0.
pub const ZERO_BITS: u64 = 0;
pub const NEG_ZERO_BITS: u64 = 0x8000_0000_0000_0000;
pub const ONE_BITS: u64 = 0x3ff0_0000_0000_0000;

/// What `!!bool` makes of a node: `true` and `false` in any letter case,
/// the integers 1 and 0 and the doubles 1.0 and (either) zero become
/// booleans; every other node is kept.
pub open spec fn bool_coerced(n: Node) -> Node {
    match n {
        Node::Str(s) => if spells(s, "true"@) {
            Node::Bool(true)
        } else if spells(s, "false"@) {
            Node::Bool(false)
        } else {
            n
        },
        Node::Int(i) => if i == 0 {
            Node::Bool(false)
        } else if i == 1 {
            Node::Bool(true)
        } else {
            n
        },
        Node::Float(bits) => if bits == ZERO_BITS || bits == NEG_ZERO_BITS {
            Node::Bool(false)
        } else if bits == ONE_BITS {
            Node::Bool(true)
        } else {
            n
        },
        _ => n,
    }
}

/// Applies `!!bool` (see [`bool_coerced`]).
pub fn coerce_bool<'a>(v: BorrowedValue<'a>) -> (r: BorrowedValue<'a>)
    ensures
        r.model() == bool_coerced(v.model()),
        v is Bool ==> r == v,
        r is Bool || r == v,
{
    match v {
        BorrowedValue::String(s) => {
            let chars = str_chars(cow_text(&s));
            if spells_word(&chars, "true") {
                BorrowedValue::Bool(true)
            } else if spells_word(&chars, "false") {
                BorrowedValue::Bool(false)
            } else {
                BorrowedValue::String(s)
            }
        },
        BorrowedValue::Int(0) => BorrowedValue::Bool(false),
        BorrowedValue::Int(1) => BorrowedValue::Bool(true),
        BorrowedValue::Float(bits) => if bits == ZERO_BITS || bits == NEG_ZERO_BITS {
            BorrowedValue::Bool(false)
        } else if bits == ONE_BITS {
            BorrowedValue::Bool(true)
        } else {
            BorrowedValue::Float(bits)
        },
        other => other,
    }
}

/// What `!!float` makes of a node: a string that denotes a double (see
/// [`yaml_float`], `parsed` being what Rust's parsing gives for it) becomes
/// it, `true` and `false` become 1.0 and 0.0, an integer becomes `widened`
/// (the double that `as f64` makes of it, which the caller computes); every
/// other node is kept.
pub open spec fn float_coerced(n: Node, parsed: Option<u64>, widened: u64) -> Node {
    match n {
        Node::Str(s) => match yaml_float(s, parsed) {
            Some(bits) => Node::Float(bits),
            None => n,
        },
        Node::Bool(b) => Node::Float(if b { ONE_BITS } else { ZERO_BITS }),
        Node::Int(_) => Node::Float(widened),
        _ => n,
    }
}

/// Applies `!!float` (see [`float_coerced`]).
pub fn coerce_float<'a>(v: BorrowedValue<'a>, parsed: Option<u64>, widened: u64) -> (r: BorrowedValue<'a>)
    ensures
        r.model() == float_coerced(v.model(), parsed, widened),
        r matches BorrowedValue::String(c) ==> v == r,
        v is Float ==> r == v,
        r is Float || r == v,
{
    match v {
        BorrowedValue::String(s) => match parse_yaml_float(cow_text(&s), parsed) {
            Some(bits) => BorrowedValue::Float(bits),
            None => BorrowedValue::String(s),
        },
        BorrowedValue::Bool(true) => BorrowedValue::Float(ONE_BITS),
        BorrowedValue::Bool(false) => BorrowedValue::Float(ZERO_BITS),
        BorrowedValue::Int(_) => BorrowedValue::Float(widened),
        other => other,
    }
}

/// What a tag makes of the node it annotates: the standard tags coerce it
/// (`!!null` to null), any other tag stays on it.
pub open spec fn tag_applied(tag: Seq<char>, n: Node, table: Seq<(u64, String)>, parsed: Option<u64>, widened: u64) -> Node {
    match standard_tag_of(tag) {
        Some(StandardTag::Str) => str_coerced(n, table),
        Some(StandardTag::Int) => int_coerced(n),
        Some(StandardTag::Float) => float_coerced(n, parsed, widened),
        Some(StandardTag::Bool) => bool_coerced(n),
        Some(StandardTag::Null) => Node::Null,
        None => Node::Tagged(tag, Box::new(n)),
    }
}

/// Applies a tag to the node it annotates (see [`tag_applied`]). `table`
/// holds the text of the node's double for `!!str`; `parsed` and `widened`
/// are the doubles that `!!float` may need. A tag that is not standard is
/// kept as the very `Cow` it came in.
pub fn apply_tag<'a>(
    tag: Cow<'a, str>,
    inner: BorrowedValue<'a>,
    table: &Vec<(u64, String)>,
    parsed: Option<u64>,
    widened: u64,
) -> (r: BorrowedValue<'a>)
    ensures
        r.model() == tag_applied(tag@, inner.model(), table@, parsed, widened),
        standard_tag_of(tag@) is None ==> (r matches BorrowedValue::Tagged(t, _) && t == tag),
{
    match standard_tag(cow_text(&tag)) {
        Some(StandardTag::Str) => coerce_str(inner, table),
        Some(StandardTag::Int) => coerce_int(inner),
        Some(StandardTag::Float) => coerce_float(inner, parsed, widened),
        Some(StandardTag::Bool) => coerce_bool(inner),
        Some(StandardTag::Null) => BorrowedValue::Null,
        None => BorrowedValue::Tagged(tag, Box::new(inner)),
    }
}

/// Each standard tag's coercion leaves a node that is already of its kind
/// as it is (`!!int` an integer, `!!bool` a boolean, `!!str` a string,
/// `!!float` a double), and otherwise gives a node of its kind or the node
/// unchanged: a coercion never turns a node into a third kind.
pub proof fn coercions_keep_their_own_kind(n: Node, table: Seq<(u64, String)>, parsed: Option<u64>, widened: u64)
    ensures
        n is Int ==> int_coerced(n) == n,
        int_coerced(n) is Int || int_coerced(n) == n,
        n is Bool ==> bool_coerced(n) == n,
        bool_coerced(n) is Bool || bool_coerced(n) == n,
        n is Str ==> str_coerced(n, table) == n,
        str_coerced(n, table) is Str || str_coerced(n, table) == n,
        n is Float ==> float_coerced(n, parsed, widened) == n,
        float_coerced(n, parsed, widened) is Float || float_coerced(n, parsed, widened) == n,
{
}

/// `!!null` makes any node null, and a tag that is not standard stays on
/// the node it annotates, which is kept as it is.
pub proof fn other_tags_wrap(tag: Seq<char>, n: Node, table: Seq<(u64, String)>, parsed: Option<u64>, widened: u64)
    ensures
        tag == "!!null"@ ==> tag_applied(tag, n, table, parsed, widened) == Node::Null,
        standard_tag_of(tag) is None ==> tag_applied(tag, n, table, parsed, widened) == Node::Tagged(tag, Box::new(n)),
{
    reveal_strlit("!!null");
    reveal_strlit("!!str");
    reveal_strlit("!!int");
    reveal_strlit("!!float");
    reveal_strlit("!!bool");
    if tag == "!!null"@ {
        assert(tag[2] == 'n');
        assert(tag != "!!str"@ && tag != "!!int"@ && tag != "!!float"@ && tag != "!!bool"@) by {
            assert("!!str"@[2] == 's');
            assert("!!int"@[2] == 'i');
            assert("!!float"@[2] == 'f');
            assert("!!bool"@[2] == 'b');
        }
    }
}

} // verus!
