//! Classification of scalar text: which plain scalars resolve to null,
//! booleans and numbers, and which strings an emitter must quote.
use vstd::prelude::*;

use crate::text::{
    chars_equal_str, digits_u128, digits_u64, parse_digits, parse_digits_wide, str_chars,
};
use crate::text::cow_text;
use crate::value::{BorrowedValue, Node};

use std::borrow::Cow;

verus! {

/// A plain scalar that reads as null: empty, `~`, or `null` in one of its
/// three spellings.
pub open spec fn spec_seems_null(s: Seq<char>) -> bool {
    s.len() == 0 || s == "~"@ || s == "null"@ || s == "Null"@ || s == "NULL"@
}

/// A plain scalar that reads as a boolean, in its lower-case spelling.
pub open spec fn spec_seems_bool(s: Seq<char>) -> bool {
    s == "true"@ || s == "false"@
}

/// `s` with its first character dropped when that character is `c`.
pub open spec fn strip_char(s: Seq<char>, c: char) -> Seq<char> {
    if s.len() > 0 && s[0] == c { s.drop_first() } else { s }
}

/// What Rust's `u64` parsing accepts in base `radix`: an optional `+`, then
/// digits, the value at most `u64::MAX`.
pub open spec fn unsigned_parse(s: Seq<char>, radix: nat) -> Option<nat> {
    digits_u64(strip_char(s, '+'), radix)
}

/// What Rust's `i64` parsing accepts: an optional sign, then decimal
/// digits, the value within `i64`.
pub open spec fn signed_parse(s: Seq<char>) -> Option<int> {
    if s.len() > 0 && s[0] == '-' {
        match digits_u64(s.drop_first(), 10) {
            Some(v) => if v <= 0x8000_0000_0000_0000 { Some(-v) } else { None },
            None => None,
        }
    } else {
        match unsigned_parse(s, 10) {
            Some(v) => if v <= i64::MAX { Some(v as int) } else { None },
            None => None,
        }
    }
}

/// What Rust's `i128` parsing accepts: an optional sign, then decimal
/// digits, the value within `i128`.
pub open spec fn signed_parse_wide(s: Seq<char>) -> Option<int> {
    if s.len() > 0 && s[0] == '-' {
        match digits_u128(s.drop_first(), 10) {
            Some(v) => if v <= 0x8000_0000_0000_0000_0000_0000_0000_0000 { Some(-v) } else { None },
            None => None,
        }
    } else {
        match digits_u128(strip_char(s, '+'), 10) {
            Some(v) => if v <= i128::MAX { Some(v as int) } else { None },
            None => None,
        }
    }
}

/// Text that parses as an `i64` or as a `u64`.
pub open spec fn spec_seems_int(s: Seq<char>) -> bool {
    signed_parse(s) is Some || unsigned_parse(s, 10) is Some
}

/// The integer a YAML 1.2 plain scalar denotes: `0x` hexadecimal or `0o`
/// octal digits (no sign before the prefix), or a decimal integer with an
/// optional sign; `None` outside `i64` or when it is no integer.
pub open spec fn yaml_int(s: Seq<char>) -> Option<int> {
    if s.len() >= 2 && s[0] == '0' && s[1] == 'x' {
        match unsigned_parse(s.skip(2), 16) {
            Some(v) => if v <= i64::MAX { Some(v as int) } else { None },
            None => None,
        }
    } else if s.len() >= 2 && s[0] == '0' && s[1] == 'o' {
        match unsigned_parse(s.skip(2), 8) {
            Some(v) => if v <= i64::MAX { Some(v as int) } else { None },
            None => None,
        }
    } else {
        signed_parse(strip_char(s, '+'))
    }
}

/// A decimal digit.
pub open spec fn is_digit(c: char) -> bool {
    '0' <= c && c <= '9'
}

/// The end of the run of decimal digits from `i`.
pub open spec fn digit_run_end(s: Seq<char>, i: int) -> int
    decreases s.len() - i,
{
    if 0 <= i < s.len() && is_digit(s[i]) { digit_run_end(s, i + 1) } else { i }
}

/// `c` equals the lower-case letter `w`, ignoring ASCII case.
pub open spec fn same_letter(c: char, w: char) -> bool {
    c == w || ('A' <= c && c <= 'Z' && (c as u32) + 32 == (w as u32))
}

/// `s` spells the lower-case word `w`, ignoring ASCII case.
pub open spec fn spells(s: Seq<char>, w: Seq<char>) -> bool {
    s.len() == w.len() && forall|k: int| 0 <= k < s.len() ==> same_letter(#[trigger] s[k], w[k])
}

/// A decimal number as Rust's float parsing reads it: digits with an
/// optional fraction (at least one digit on one side of the point) and an
/// optional exponent `e`/`E`, sign, digits.
pub open spec fn is_float_number(t: Seq<char>) -> bool {
    let d1 = digit_run_end(t, 0);
    let (mantissa_ok, m_end) = if d1 < t.len() && t[d1] == '.' {
        let d2 = digit_run_end(t, d1 + 1);
        (d1 > 0 || d2 > d1 + 1, d2)
    } else {
        (d1 > 0, d1)
    };
    mantissa_ok && (m_end == t.len() || (
        (t[m_end] == 'e' || t[m_end] == 'E') && {
            let e = if m_end + 1 < t.len() && (t[m_end + 1] == '+' || t[m_end + 1] == '-') { m_end + 2 } else { m_end + 1 };
            e < t.len() && digit_run_end(t, e) == t.len()
        }
    ))
}

/// What Rust's `f64` parsing accepts: an optional sign, then `inf`,
/// `infinity` or `nan` in any case, or a decimal number.
pub open spec fn rust_float_syntax(s: Seq<char>) -> bool {
    let t = if s.len() > 0 && (s[0] == '+' || s[0] == '-') { s.drop_first() } else { s };
    spells(t, "inf"@) || spells(t, "infinity"@) || spells(t, "nan"@) || is_float_number(t)
}

/// Text that carries a `.`, `e` or `E`.
pub open spec fn has_float_mark(s: Seq<char>) -> bool {
    exists|k: int| 0 <= k < s.len() && (s[k] == '.' || s[k] == 'e' || s[k] == 'E')
}

/// A plain scalar that reads as a float: YAML's infinities and NaN, or a
/// number Rust parses as `f64` that carries a `.`, `e` or `E`.
pub open spec fn spec_seems_float(s: Seq<char>) -> bool {
    s == ".inf"@ || s == "-.inf"@ || s == "+.inf"@ || s == ".nan"@ || (rust_float_syntax(s) && has_float_mark(s))
}

/// A plain scalar that would not read back as a string.
pub open spec fn spec_seems_scalar_typed(s: Seq<char>) -> bool {
    spec_seems_null(s) || spec_seems_bool(s) || spec_seems_int(s) || spec_seems_float(s)
}

/// A control character other than tab and line feed.
pub open spec fn is_ctrl(c: char) -> bool {
    (c as u32) <= 0x08 || (0x0b <= (c as u32) && (c as u32) <= 0x1f) || (c as u32) == 0x7f
}

pub open spec fn spec_has_ctrl_chars(s: Seq<char>) -> bool {
    exists|k: int| 0 <= k < s.len() && is_ctrl(#[trigger] s[k])
}

pub open spec fn spec_has_newline(s: Seq<char>) -> bool {
    exists|k: int| 0 <= k < s.len() && #[trigger] s[k] == '\n'
}

/// Holds a `:` or `#`, which could end a plain scalar or start a comment.
pub open spec fn spec_has_yaml_special(s: Seq<char>) -> bool {
    exists|k: int| 0 <= k < s.len() && (#[trigger] s[k] == ':' || s[k] == '#')
}

/// A character that has a meaning of its own at the start of a plain
/// scalar.
pub open spec fn is_indicator(c: char) -> bool {
    c == '-' || c == '?' || c == '!' || c == '&' || c == '*' || c == '[' || c == ']' || c == '{'
        || c == '}' || c == '|' || c == '>' || c == '\'' || c == '"' || c == '%' || c == '@'
        || c == '`' || c == ',' || c == '#'
}

pub open spec fn spec_starts_with_indicator(s: Seq<char>) -> bool {
    s.len() > 0 && is_indicator(s[0])
}

pub open spec fn spec_has_leading_or_trailing_space(s: Seq<char>) -> bool {
    s.len() > 0 && ((s[0] == ' ' || s[0] == '\t') || (s.last() == ' ' || s.last() == '\t'))
}

/// Text that resolution reads as something other than a string in a
/// spelling the `seems_*` tests do not cover: a capitalised boolean, a
/// hexadecimal or octal integer, or a capitalised special float.
pub open spec fn spec_resolves_typed(s: Seq<char>) -> bool {
    bool_word(s) is Some || yaml_int(s) is Some || special_float(s) is Some
}

/// A string that a plain scalar cannot carry as it stands: one that would
/// read back as another value, or that the scanner would cut short.
pub open spec fn spec_needs_quotes(s: Seq<char>) -> bool {
    s.len() == 0 || spec_seems_scalar_typed(s) || spec_resolves_typed(s) || spec_has_ctrl_chars(s)
        || spec_has_newline(s) || spec_has_yaml_special(s) || spec_has_leading_or_trailing_space(s)
        || spec_starts_with_indicator(s)
}

pub fn seems_null(s: &str) -> (r: bool)
    ensures
        r == spec_seems_null(s@),
{
    let v = str_chars(s);
    v.len() == 0 || chars_equal_str(v.as_slice(), "~") || chars_equal_str(v.as_slice(), "null")
        || chars_equal_str(v.as_slice(), "Null") || chars_equal_str(v.as_slice(), "NULL")
}

pub fn seems_bool(s: &str) -> (r: bool)
    ensures
        r == spec_seems_bool(s@),
{
    let v = str_chars(s);
    chars_equal_str(v.as_slice(), "true") || chars_equal_str(v.as_slice(), "false")
}

/// `unsigned_parse` of the characters from `start`.
fn unsigned_parse_from(v: &Vec<char>, start: usize, radix: u32) -> (r: Option<u64>)
    requires
        start <= v.len(),
        2 <= radix <= 16,
    ensures
        match unsigned_parse(v@.skip(start as int), radix as nat) {
            Some(n) => r == Some(n as u64),
            None => r is None,
        },
{
    let ghost t = v@.skip(start as int);
    if start < v.len() && v[start] == '+' {
        assert(strip_char(t, '+') =~= v@.subrange(start + 1, v.len() as int));
        parse_digits(v, start + 1, radix)
    } else {
        assert(strip_char(t, '+') =~= v@.subrange(start as int, v.len() as int));
        parse_digits(v, start, radix)
    }
}

/// `signed_parse` of the characters from `start`.
fn signed_parse_from(v: &Vec<char>, start: usize) -> (r: Option<i64>)
    requires
        start <= v.len(),
    ensures
        match signed_parse(v@.skip(start as int)) {
            Some(n) => r == Some(n as i64),
            None => r is None,
        },
{
    let ghost t = v@.skip(start as int);
    if start < v.len() && v[start] == '-' {
        assert(t.drop_first() =~= v@.subrange(start + 1, v.len() as int));
        match parse_digits(v, start + 1, 10) {
            Some(m) => {
                if m <= 0x8000_0000_0000_0000u64 {
                    Some((0i128 - m as i128) as i64)
                } else {
                    None
                }
            },
            None => None,
        }
    } else {
        match unsigned_parse_from(v, start, 10) {
            Some(m) => {
                if m <= 0x7fff_ffff_ffff_ffffu64 {
                    Some(m as i64)
                } else {
                    None
                }
            },
            None => None,
        }
    }
}

pub fn seems_int(s: &str) -> (r: bool)
    ensures
        r == spec_seems_int(s@),
{
    let v = str_chars(s);
    assert(v@.skip(0) =~= v@);
    signed_parse_from(&v, 0).is_some() || unsigned_parse_from(&v, 0, 10).is_some()
}

/// The integer a plain scalar denotes (see [`yaml_int`]).
fn yaml_int_value(s: &str) -> (r: Option<i64>)
    ensures
        match yaml_int(s@) {
            Some(n) => r == Some(n as i64),
            None => r is None,
        },
{
    let v = str_chars(s);
    if v.len() >= 2 && v[0] == '0' && v[1] == 'x' {
        match unsigned_parse_from(&v, 2, 16) {
            Some(m) => if m <= 0x7fff_ffff_ffff_ffffu64 { Some(m as i64) } else { None },
            None => None,
        }
    } else if v.len() >= 2 && v[0] == '0' && v[1] == 'o' {
        match unsigned_parse_from(&v, 2, 8) {
            Some(m) => if m <= 0x7fff_ffff_ffff_ffffu64 { Some(m as i64) } else { None },
            None => None,
        }
    } else if v.len() > 0 && v[0] == '+' {
        assert(strip_char(v@, '+') =~= v@.skip(1));
        signed_parse_from(&v, 1)
    } else {
        assert(strip_char(v@, '+') =~= v@.skip(0));
        signed_parse_from(&v, 0)
    }
}

/// The integer node a plain scalar denotes (see [`yaml_int`]): hexadecimal
/// after `0x`, octal after `0o`, otherwise decimal with an optional sign.
pub fn parse_yaml_int(s: &str) -> (r: Option<BorrowedValue<'static>>)
    ensures
        match yaml_int(s@) {
            Some(n) => r == Some(BorrowedValue::Int(n as i64)),
            None => r is None,
        },
{
    match yaml_int_value(s) {
        Some(n) => Some(BorrowedValue::Int(n)),
        None => None,
    }
}

proof fn lemma_digit_run_end(s: Seq<char>, i: int)
    requires
        0 <= i <= s.len(),
    ensures
        i <= digit_run_end(s, i) <= s.len(),
    decreases s.len() - i,
{
    if i < s.len() && is_digit(s[i]) {
        lemma_digit_run_end(s, i + 1);
    }
}

fn digit_run_end_exec(t: &Vec<char>, i: usize) -> (r: usize)
    requires
        i <= t.len(),
    ensures
        r == digit_run_end(t@, i as int),
        i <= r <= t.len(),
{
    proof { lemma_digit_run_end(t@, i as int); }
    let mut k = i;
    while k < t.len() && '0' <= t[k] && t[k] <= '9'
        invariant
            i <= k <= t.len(),
            digit_run_end(t@, k as int) == digit_run_end(t@, i as int),
        decreases t.len() - k,
    {
        k = k + 1;
    }
    k
}

pub(crate) fn spells_word(t: &Vec<char>, w: &str) -> (r: bool)
    ensures
        r == spells(t@, w@),
{
    let wv = str_chars(w);
    if t.len() != wv.len() {
        return false;
    }
    let mut k: usize = 0;
    while k < t.len()
        invariant
            t@.len() == wv@.len(),
            wv@ == w@,
            k <= t.len(),
            forall|j: int| 0 <= j < k ==> same_letter(#[trigger] t@[j], w@[j]),
        decreases t.len() - k,
    {
        let c = t[k];
        let d = wv[k];
        if !(c == d || ('A' <= c && c <= 'Z' && (c as u32) + 32 == d as u32)) {
            return false;
        }
        k = k + 1;
    }
    true
}

fn is_float_number_exec(t: &Vec<char>) -> (r: bool)
    ensures
        r == is_float_number(t@),
{
    let d1 = digit_run_end_exec(t, 0);
    let mut ok = d1 > 0;
    let mut m_end = d1;
    if d1 < t.len() && t[d1] == '.' {
        let d2 = digit_run_end_exec(t, d1 + 1);
        ok = d1 > 0 || d2 > d1 + 1;
        m_end = d2;
    }
    if !ok {
        return false;
    }
    if m_end == t.len() {
        return true;
    }
    if !(t[m_end] == 'e' || t[m_end] == 'E') {
        return false;
    }
    let e = if m_end + 1 < t.len() && (t[m_end + 1] == '+' || t[m_end + 1] == '-') { m_end + 2 } else { m_end + 1 };
    e < t.len() && digit_run_end_exec(t, e) == t.len()
}

/// The characters of `v` from `start` on.
fn chars_from(v: &Vec<char>, start: usize) -> (r: Vec<char>)
    requires
        start <= v.len(),
    ensures
        r@ == v@.skip(start as int),
{
    let mut r: Vec<char> = Vec::new();
    let mut i = start;
    while i < v.len()
        invariant
            start <= i <= v.len(),
            r@ == v@.subrange(start as int, i as int),
        decreases v.len() - i,
    {
        r.push(v[i]);
        i = i + 1;
        assert(r@ =~= v@.subrange(start as int, i as int));
    }
    r
}

fn has_float_mark_exec(v: &Vec<char>) -> (r: bool)
    ensures
        r == has_float_mark(v@),
{
    let mut k: usize = 0;
    while k < v.len()
        invariant
            k <= v.len(),
            forall|j: int| 0 <= j < k ==> !(v@[j] == '.' || v@[j] == 'e' || v@[j] == 'E'),
        decreases v.len() - k,
    {
        if v[k] == '.' || v[k] == 'e' || v[k] == 'E' {
            return true;
        }
        k = k + 1;
    }
    false
}

pub fn seems_float(s: &str) -> (r: bool)
    ensures
        r == spec_seems_float(s@),
{
    let v = str_chars(s);
    if chars_equal_str(v.as_slice(), ".inf") || chars_equal_str(v.as_slice(), "-.inf")
        || chars_equal_str(v.as_slice(), "+.inf") || chars_equal_str(v.as_slice(), ".nan") {
        return true;
    }
    let t = if v.len() > 0 && (v[0] == '+' || v[0] == '-') { chars_from(&v, 1) } else { chars_from(&v, 0) };
    assert(v@.skip(0) =~= v@);
    let syntax = spells_word(&t, "inf") || spells_word(&t, "infinity") || spells_word(&t, "nan") || is_float_number_exec(&t);
    syntax && has_float_mark_exec(&v)
}

pub fn seems_scalar_typed(s: &str) -> (r: bool)
    ensures
        r == spec_seems_scalar_typed(s@),
{
    seems_null(s) || seems_bool(s) || seems_int(s) || seems_float(s)
}

pub fn has_ctrl_chars(s: &str) -> (r: bool)
    ensures
        r == spec_has_ctrl_chars(s@),
{
    let v = str_chars(s);
    let mut k: usize = 0;
    while k < v.len()
        invariant
            v@ == s@,
            k <= v.len(),
            forall|j: int| 0 <= j < k ==> !is_ctrl(#[trigger] v@[j]),
        decreases v.len() - k,
    {
        let b = v[k] as u32;
        if b <= 0x08 || (0x0b <= b && b <= 0x1f) || b == 0x7f {
            return true;
        }
        k = k + 1;
    }
    false
}

pub fn has_newline(s: &str) -> (r: bool)
    ensures
        r == spec_has_newline(s@),
{
    let v = str_chars(s);
    let mut k: usize = 0;
    while k < v.len()
        invariant
            v@ == s@,
            k <= v.len(),
            forall|j: int| 0 <= j < k ==> #[trigger] v@[j] != '\n',
        decreases v.len() - k,
    {
        if v[k] == '\n' {
            return true;
        }
        k = k + 1;
    }
    false
}

pub fn has_yaml_special(s: &str) -> (r: bool)
    ensures
        r == spec_has_yaml_special(s@),
{
    let v = str_chars(s);
    let mut k: usize = 0;
    while k < v.len()
        invariant
            v@ == s@,
            k <= v.len(),
            forall|j: int| 0 <= j < k ==> !(#[trigger] v@[j] == ':' || v@[j] == '#'),
        decreases v.len() - k,
    {
        if v[k] == ':' || v[k] == '#' {
            return true;
        }
        k = k + 1;
    }
    false
}

pub fn starts_with_indicator(s: &str) -> (r: bool)
    ensures
        r == spec_starts_with_indicator(s@),
{
    let v = str_chars(s);
    if v.len() == 0 {
        return false;
    }
    match v[0] {
        '-' | '?' | '!' | '&' | '*' | '[' | ']' | '{' | '}' | '|' | '>' | '\'' | '"' | '%' | '@' | '`' | ','
        | '#' => true,
        _ => false,
    }
}

pub fn has_leading_or_trailing_space(s: &str) -> (r: bool)
    ensures
        r == spec_has_leading_or_trailing_space(s@),
{
    let v = str_chars(s);
    if v.len() == 0 {
        return false;
    }
    let first = v[0];
    let last = v[v.len() - 1];
    first == ' ' || first == '\t' || last == ' ' || last == '\t'
}

/// Whether resolution reads `s` as a value that the `seems_*` tests miss
/// (see [`spec_resolves_typed`]).
fn resolves_typed(s: &str) -> (r: bool)
    ensures
        r == spec_resolves_typed(s@),
{
    let v = str_chars(s);
    let w = v.as_slice();
    let word = chars_equal_str(w, "true") || chars_equal_str(w, "True") || chars_equal_str(w, "TRUE")
        || chars_equal_str(w, "false") || chars_equal_str(w, "False") || chars_equal_str(w, "FALSE");
    word || yaml_int_value(s).is_some() || parse_yaml_float(s, None).is_some()
}

pub fn needs_quotes(s: &str) -> (r: bool)
    ensures
        r == spec_needs_quotes(s@),
{
    s.is_empty() || seems_scalar_typed(s) || resolves_typed(s) || has_ctrl_chars(s) || has_newline(s)
        || has_yaml_special(s) || has_leading_or_trailing_space(s) || starts_with_indicator(s)
}

/// `str::parse::<u64>`: an optional `+` and decimal digits within `u64`.
pub fn parse_u64(s: &str) -> (r: Option<u64>)
    ensures
        match unsigned_parse(s@, 10) {
            Some(n) => r == Some(n as u64),
            None => r is None,
        },
{
    let v = str_chars(s);
    assert(v@.skip(0) =~= v@);
    unsigned_parse_from(&v, 0, 10)
}

/// `str::parse::<i128>`: an optional sign and decimal digits within `i128`.
pub fn parse_i128(s: &str) -> (r: Option<i128>)
    ensures
        match signed_parse_wide(s@) {
            Some(n) => r == Some(n as i128),
            None => r is None,
        },
{
    let v = str_chars(s);
    if v.len() > 0 && v[0] == '-' {
        assert(v@.drop_first() =~= v@.subrange(1, v.len() as int));
        match parse_digits_wide(&v, 1, 10) {
            Some(m) => if m <= 0x8000_0000_0000_0000_0000_0000_0000_0000u128 {
                if m == 0x8000_0000_0000_0000_0000_0000_0000_0000u128 {
                    Some(i128::MIN)
                } else {
                    Some(0i128 - m as i128)
                }
            } else {
                None
            },
            None => None,
        }
    } else {
        let start: usize = if v.len() > 0 && v[0] == '+' { 1 } else { 0 };
        assert(strip_char(v@, '+') =~= v@.subrange(start as int, v.len() as int));
        match parse_digits_wide(&v, start, 10) {
            Some(m) => if m <= 0x7fff_ffff_ffff_ffff_ffff_ffff_ffff_ffffu128 { Some(m as i128) } else { None },
            None => None,
        }
    }
}

/// The three spellings YAML gives each boolean.
pub open spec fn bool_word(s: Seq<char>) -> Option<bool> {
    if s == "true"@ || s == "True"@ || s == "TRUE"@ {
        Some(true)
    } else if s == "false"@ || s == "False"@ || s == "FALSE"@ {
        Some(false)
    } else {
        None
    }
}

/// The bit patterns this crate gives YAML's special floats.
pub const NAN_BITS: u64 = 0x7ff8_0000_0000_0000;
pub const INFINITY_BITS: u64 = 0x7ff0_0000_0000_0000;
pub const NEG_INFINITY_BITS: u64 = 0xfff0_0000_0000_0000;

/// YAML's names for NaN and the infinities, in the three spellings each.
pub open spec fn special_float(s: Seq<char>) -> Option<u64> {
    if s == ".nan"@ || s == ".NaN"@ || s == ".NAN"@ {
        Some(NAN_BITS)
    } else if s == ".inf"@ || s == ".Inf"@ || s == ".INF"@ || s == "+.inf"@ || s == "+.Inf"@ || s == "+.INF"@ {
        Some(INFINITY_BITS)
    } else if s == "-.inf"@ || s == "-.Inf"@ || s == "-.INF"@ {
        Some(NEG_INFINITY_BITS)
    } else {
        None
    }
}

/// The double a YAML float denotes: a special name (see
/// [`special_float`]), otherwise what Rust's `f64` parsing gave (`parsed`).
pub open spec fn yaml_float(s: Seq<char>, parsed: Option<u64>) -> Option<u64> {
    match special_float(s) {
        Some(b) => Some(b),
        None => parsed,
    }
}

/// The bit pattern of the double a YAML float scalar denotes (see
/// [`yaml_float`]). `parsed` is what Rust's `f64` parsing gives for `s`, as
/// a bit pattern: floats are parsed by the caller.
pub fn parse_yaml_float(s: &str, parsed: Option<u64>) -> (r: Option<u64>)
    ensures
        r == yaml_float(s@, parsed),
{
    let v = str_chars(s);
    let w = v.as_slice();
    if chars_equal_str(w, ".nan") || chars_equal_str(w, ".NaN") || chars_equal_str(w, ".NAN") {
        return Some(NAN_BITS);
    }
    if chars_equal_str(w, ".inf") || chars_equal_str(w, ".Inf") || chars_equal_str(w, ".INF")
        || chars_equal_str(w, "+.inf") || chars_equal_str(w, "+.Inf") || chars_equal_str(w, "+.INF") {
        return Some(INFINITY_BITS);
    }
    if chars_equal_str(w, "-.inf") || chars_equal_str(w, "-.Inf") || chars_equal_str(w, "-.INF") {
        return Some(NEG_INFINITY_BITS);
    }
    parsed
}

/// The node a plain scalar resolves to under the YAML 1.2 core schema:
/// null, a boolean, an integer (see [`yaml_int`]), a float when the text
/// carries `.`, `e` or `E` and denotes one (see [`yaml_float`]), otherwise
/// the string itself.
pub open spec fn resolved_scalar(s: Seq<char>, parsed: Option<u64>) -> Node {
    if spec_seems_null(s) {
        Node::Null
    } else if bool_word(s) is Some {
        Node::Bool(bool_word(s).unwrap())
    } else if yaml_int(s) is Some {
        Node::Int(yaml_int(s).unwrap())
    } else if has_float_mark(s) && yaml_float(s, parsed) is Some {
        Node::Float(yaml_float(s, parsed).unwrap())
    } else {
        Node::Str(s)
    }
}

/// What a plain scalar resolves to is decided by its text alone: null only
/// for the null words, a boolean only for `true` and `false` in their three
/// spellings, a float only when the text carries `.`, `e` or `E` (so `1` is
/// an integer and `1.0` a float), and anything else stays the string it was.
pub proof fn resolution_follows_the_text(s: Seq<char>, parsed: Option<u64>)
    ensures
        resolved_scalar(s, parsed) is Null <==> spec_seems_null(s),
        resolved_scalar(s, parsed) is Bool ==> bool_word(s) is Some,
        resolved_scalar(s, parsed) is Float ==> has_float_mark(s),
        resolved_scalar(s, parsed) is Str ==> resolved_scalar(s, parsed) == Node::Str(s),
{
}

/// Resolves a plain scalar (see [`resolved_scalar`]). `parsed` is what
/// Rust's `f64` parsing gives for `s`, as a bit pattern. Text that stays a
/// string comes back as the very `Cow` it came in: a borrow stays a borrow.
pub fn resolve_scalar<'a>(s: Cow<'a, str>, parsed: Option<u64>) -> (r: BorrowedValue<'a>)
    ensures
        r.model() == resolved_scalar(s@, parsed),
        r matches BorrowedValue::String(c) ==> c == s,
{
    if seems_null(cow_text(&s)) {
        return BorrowedValue::Null;
    }
    let v = str_chars(cow_text(&s));
    if chars_equal_str(v.as_slice(), "true") || chars_equal_str(v.as_slice(), "True") || chars_equal_str(v.as_slice(), "TRUE") {
        return BorrowedValue::Bool(true);
    }
    if chars_equal_str(v.as_slice(), "false") || chars_equal_str(v.as_slice(), "False") || chars_equal_str(v.as_slice(), "FALSE") {
        return BorrowedValue::Bool(false);
    }
    if let Some(n) = yaml_int_value(cow_text(&s)) {
        return BorrowedValue::Int(n);
    }
    if has_float_mark_exec(&v) {
        if let Some(b) = parse_yaml_float(cow_text(&s), parsed) {
            return BorrowedValue::Float(b);
        }
    }
    BorrowedValue::String(s)
}

} // verus!
