//! Character-level helpers shared by the scanner and the emitter: the
//! conversions between `&str`/`String` and their character sequences, and
//! decimal and hexadecimal rendering of integers.
use vstd::prelude::*;

use std::borrow::Cow;

verus! {

/// The characters of `s`, in order, collected into a vector.
pub(crate) fn str_chars(s: &str) -> (v: Vec<char>)
    ensures
        v@ == s@,
{
    broadcast use vstd::string::axiom_spec_iter;
    let mut v: Vec<char> = Vec::new();
    for c in it: s.chars()
        invariant
            v@ == it.seq().take(it.index() as int),
    {
        v.push(c);
    }
    v
}

/// `String::push`: appends one character.
#[verifier::external_body]
pub(crate) fn string_push(s: &mut String, c: char)
    ensures
        final(s)@ == old(s)@.push(c),
{
    s.push(c)
}

/// `char::from_u32`: the character whose scalar value is `v`, when `v` is a
/// Unicode scalar value (not a surrogate, at most 0x10FFFF).
#[verifier::external_body]
pub(crate) fn char_from_u32(v: u32) -> (r: Option<char>)
    ensures
        is_unicode_scalar(v as nat) ==> r == Some(v as char),
        !is_unicode_scalar(v as nat) ==> r is None,
{
    char::from_u32(v)
}

/// A Unicode scalar value: a code point that is not a surrogate.
pub open spec fn is_unicode_scalar(v: nat) -> bool {
    v < 0xD800 || (0xE000 <= v && v <= 0x10FFFF)
}

/// The ASCII digit for `d`, for `d < 16`, lower case beyond nine.
pub open spec fn digit_char(d: nat) -> char {
    if d == 0 { '0' }
    else if d == 1 { '1' }
    else if d == 2 { '2' }
    else if d == 3 { '3' }
    else if d == 4 { '4' }
    else if d == 5 { '5' }
    else if d == 6 { '6' }
    else if d == 7 { '7' }
    else if d == 8 { '8' }
    else if d == 9 { '9' }
    else if d == 10 { 'a' }
    else if d == 11 { 'b' }
    else if d == 12 { 'c' }
    else if d == 13 { 'd' }
    else if d == 14 { 'e' }
    else { 'f' }
}

/// The value of a decimal digit character.
pub open spec fn decimal_digit_value(c: char) -> Option<nat> {
    if '0' <= c && c <= '9' { Some((c as nat - '0' as nat) as nat) } else { None }
}

/// The decimal representation of `n`, most significant digit first, with no
/// leading zeros.
pub open spec fn decimal(n: nat) -> Seq<char>
    decreases n,
{
    if n < 10 {
        seq![digit_char(n)]
    } else {
        decimal(n / 10).push(digit_char(n % 10))
    }
}

/// The decimal representation of a signed integer: a `-` before the
/// magnitude of a negative one.
pub open spec fn signed_decimal(i: int) -> Seq<char> {
    if i < 0 { seq!['-'] + decimal((-i) as nat) } else { decimal(i as nat) }
}

/// The value of a non-empty run of decimal digits, or `None` if any
/// character is not a digit.
pub open spec fn decimal_value(s: Seq<char>) -> Option<nat>
    decreases s.len(),
{
    if s.len() == 0 {
        None
    } else {
        match decimal_digit_value(s.last()) {
            None => None,
            Some(d) => if s.len() == 1 {
                Some(d)
            } else {
                match decimal_value(s.drop_last()) {
                    Some(v) => Some(v * 10 + d),
                    None => None,
                }
            },
        }
    }
}

/// The character for a digit below sixteen.
pub fn digit_to_char(d: u8) -> (c: char)
    requires
        d < 16,
    ensures
        c == digit_char(d as nat),
{
    match d {
        0 => '0',
        1 => '1',
        2 => '2',
        3 => '3',
        4 => '4',
        5 => '5',
        6 => '6',
        7 => '7',
        8 => '8',
        9 => '9',
        10 => 'a',
        11 => 'b',
        12 => 'c',
        13 => 'd',
        14 => 'e',
        _ => 'f',
    }
}

/// Appends the decimal representation of `n`.
pub fn push_decimal(out: &mut String, n: u64)
    ensures
        final(out)@ == old(out)@ + decimal(n as nat),
    decreases n,
{
    if n >= 10 {
        push_decimal(out, n / 10);
    }
    let d = (n % 10) as u8;
    string_push(out, digit_to_char(d));
    proof {
        if n >= 10 {
            assert(decimal(n as nat) == decimal((n / 10) as nat).push(digit_char((n % 10) as nat)));
        }
    }
    assert(final(out)@ =~= old(out)@ + decimal(n as nat));
}

/// Appends the decimal representation of a 128-bit `n`.
pub fn push_decimal_wide(out: &mut String, n: u128)
    ensures
        final(out)@ == old(out)@ + decimal(n as nat),
    decreases n,
{
    if n >= 10 {
        push_decimal_wide(out, n / 10);
    }
    let d = (n % 10) as u8;
    string_push(out, digit_to_char(d));
    proof {
        if n >= 10 {
            assert(decimal(n as nat) == decimal((n / 10) as nat).push(digit_char((n % 10) as nat)));
        }
    }
    assert(final(out)@ =~= old(out)@ + decimal(n as nat));
}

/// Appends the decimal representation of a 128-bit `n`, with a leading `-`
/// when it is negative.
pub fn push_signed_decimal_wide(out: &mut String, n: i128)
    ensures
        final(out)@ == old(out)@ + signed_decimal(n as int),
{
    if n < 0 {
        string_push(out, '-');
        let m: u128 = if n == i128::MIN { 0x8000_0000_0000_0000_0000_0000_0000_0000u128 } else { (0i128 - n) as u128 };
        push_decimal_wide(out, m);
        assert(final(out)@ =~= old(out)@ + signed_decimal(n as int));
    } else {
        push_decimal_wide(out, n as u128);
    }
}

/// Appends the decimal representation of `n`, with a leading `-` when it is
/// negative.
pub fn push_signed_decimal(out: &mut String, n: i64)
    ensures
        final(out)@ == old(out)@ + signed_decimal(n as int),
{
    if n < 0 {
        string_push(out, '-');
        let m: u64 = (0i128 - n as i128) as u64;
        push_decimal(out, m);
        assert(final(out)@ =~= old(out)@ + signed_decimal(n as int));
    } else {
        push_decimal(out, n as u64);
    }
}

/// The digits of a decimal representation are all decimal digits, and the
/// first is `0` only for zero itself.
pub proof fn lemma_decimal_digits(n: nat)
    ensures
        decimal(n).len() >= 1,
        forall|i: int| 0 <= i < decimal(n).len() ==> '0' <= #[trigger] decimal(n)[i] && decimal(n)[i] <= '9',
        decimal(n)[0] == '0' ==> n == 0,
    decreases n,
{
    if n >= 10 {
        lemma_decimal_digits(n / 10);
    }
}

/// Reading back a decimal representation gives the number.
pub proof fn lemma_decimal_value_of_decimal(n: nat)
    ensures
        decimal_value(decimal(n)) == Some(n),
    decreases n,
{
    if n >= 10 {
        lemma_decimal_value_of_decimal(n / 10);
        let s = decimal(n);
        assert(s.drop_last() =~= decimal(n / 10));
        lemma_decimal_digits(n / 10);
    }
}

/// The value of a hexadecimal digit (either case).
pub open spec fn hex_digit_value(c: char) -> Option<nat> {
    if '0' <= c && c <= '9' {
        Some((c as nat - '0' as nat) as nat)
    } else if 'a' <= c && c <= 'f' {
        Some((c as nat - 'a' as nat + 10) as nat)
    } else if 'A' <= c && c <= 'F' {
        Some((c as nat - 'A' as nat + 10) as nat)
    } else {
        None
    }
}

/// The value of a hexadecimal digit (either case).
pub fn hex_digit(c: char) -> (r: Option<u32>)
    ensures
        match hex_digit_value(c) {
            Some(d) => r == Some(d as u32),
            None => r is None,
        },
{
    if '0' <= c && c <= '9' {
        Some(c as u32 - '0' as u32)
    } else if 'a' <= c && c <= 'f' {
        Some(c as u32 - 'a' as u32 + 10)
    } else if 'A' <= c && c <= 'F' {
        Some(c as u32 - 'A' as u32 + 10)
    } else {
        None
    }
}

/// The value of a digit in base `radix` (at most sixteen).
pub open spec fn radix_digit_value(c: char, radix: nat) -> Option<nat> {
    match hex_digit_value(c) {
        Some(d) => if d < radix { Some(d) } else { None },
        None => None,
    }
}

/// The value of a non-empty run of base-`radix` digits, or `None` if it is
/// empty or any character is not such a digit.
pub open spec fn digits_value(s: Seq<char>, radix: nat) -> Option<nat>
    decreases s.len(),
{
    if s.len() == 0 {
        None
    } else {
        match radix_digit_value(s.last(), radix) {
            None => None,
            Some(d) => if s.len() == 1 {
                Some(d)
            } else {
                match digits_value(s.drop_last(), radix) {
                    Some(v) => Some(v * radix + d),
                    None => None,
                }
            },
        }
    }
}

/// `digits_value` when it fits in a `u64`.
pub open spec fn digits_u64(s: Seq<char>, radix: nat) -> Option<nat> {
    match digits_value(s, radix) {
        Some(v) => if v <= u64::MAX { Some(v) } else { None },
        None => None,
    }
}

/// `digits_value` when it fits in a `u128`.
pub open spec fn digits_u128(s: Seq<char>, radix: nat) -> Option<nat> {
    match digits_value(s, radix) {
        Some(v) => if v <= u128::MAX { Some(v) } else { None },
        None => None,
    }
}

/// Reads the base-`radix` digits of `s` from `start` to its end; `None` when
/// there are none, one is not a digit, or the value exceeds `u128::MAX`.
pub fn parse_digits_wide(s: &Vec<char>, start: usize, radix: u32) -> (r: Option<u128>)
    requires
        start <= s.len(),
        2 <= radix <= 16,
    ensures
        match digits_u128(s@.subrange(start as int, s.len() as int), radix as nat) {
            Some(v) => r == Some(v as u128),
            None => r is None,
        },
{
    if start == s.len() {
        return None;
    }
    let mut acc: u128 = 0;
    let mut big = false;
    let mut i = start;
    while i < s.len()
        invariant
            start <= i <= s.len(),
            2 <= radix <= 16,
            i > start ==> digits_value(s@.subrange(start as int, i as int), radix as nat) is Some,
            i > start && !big ==> digits_value(s@.subrange(start as int, i as int), radix as nat) == Some(acc as nat),
            i > start && big ==> digits_value(s@.subrange(start as int, i as int), radix as nat).unwrap() > u128::MAX,
            i == start ==> !big && acc == 0,
        decreases s.len() - i,
    {
        let c = s[i];
        let d = match hex_digit(c) {
            Some(d) => d,
            None => {
                proof { lemma_digits_none_after(s@, start as int, i as int + 1, radix as nat); }
                return None;
            },
        };
        if d >= radix {
            proof { lemma_digits_none_after(s@, start as int, i as int + 1, radix as nat); }
            return None;
        }
        let ghost prefix = s@.subrange(start as int, i + 1);
        assert(prefix.drop_last() =~= s@.subrange(start as int, i as int));
        assert(prefix.last() == c);
        if !big {
            if i == start {
                acc = d as u128;
            } else {
                match acc.checked_mul(radix as u128) {
                    Some(m) => match m.checked_add(d as u128) {
                        Some(x) => acc = x,
                        None => big = true,
                    },
                    None => {
                        assert(acc * radix + d > u128::MAX) by (nonlinear_arith)
                            requires acc * radix > u128::MAX, d >= 0;
                        big = true;
                    },
                }
            }
        } else {
            proof {
                let v = digits_value(s@.subrange(start as int, i as int), radix as nat).unwrap();
                assert(v * radix + d > u128::MAX) by (nonlinear_arith)
                    requires v > u128::MAX, radix >= 2, d >= 0;
            }
        }
        i = i + 1;
    }
    assert(s@.subrange(start as int, s.len() as int) =~= s@.subrange(start as int, i as int));
    if big { None } else { Some(acc) }
}

/// Reads the base-`radix` digits of `s` from `start` to its end; `None` when
/// there are none, one is not a digit, or the value exceeds `u64::MAX`.
pub fn parse_digits(s: &Vec<char>, start: usize, radix: u32) -> (r: Option<u64>)
    requires
        start <= s.len(),
        2 <= radix <= 16,
    ensures
        match digits_u64(s@.subrange(start as int, s.len() as int), radix as nat) {
            Some(v) => r == Some(v as u64),
            None => r is None,
        },
{
    match parse_digits_wide(s, start, radix) {
        Some(v) => if v <= 0xffff_ffff_ffff_ffff_u128 { Some(v as u64) } else { None },
        None => None,
    }
}

/// Once a character is not a digit, every longer run fails too.
pub proof fn lemma_digits_none_after(s: Seq<char>, start: int, k: int, radix: nat)
    requires
        0 <= start < k <= s.len(),
        radix_digit_value(s[k - 1], radix) is None,
    ensures
        digits_value(s.subrange(start, s.len() as int), radix) is None,
    decreases s.len() - k,
{
    let t = s.subrange(start, s.len() as int);
    if k < s.len() {
        lemma_digits_none_suffix(s, start, k, radix);
    }
}

proof fn lemma_digits_none_suffix(s: Seq<char>, start: int, k: int, radix: nat)
    requires
        0 <= start < k <= s.len(),
        radix_digit_value(s[k - 1], radix) is None,
    ensures
        forall|e: int| k <= e <= s.len() ==> #[trigger] digits_value(s.subrange(start, e), radix) is None,
{
    assert forall|e: int| k <= e <= s.len() implies #[trigger] digits_value(s.subrange(start, e), radix) is None by {
        lemma_digits_none_at(s, start, k, e, radix);
    }
}

proof fn lemma_digits_none_at(s: Seq<char>, start: int, k: int, e: int, radix: nat)
    requires
        0 <= start < k <= e <= s.len(),
        radix_digit_value(s[k - 1], radix) is None,
    ensures
        digits_value(s.subrange(start, e), radix) is None,
    decreases e - k,
{
    let t = s.subrange(start, e);
    if e > k {
        lemma_digits_none_at(s, start, k, e - 1, radix);
        assert(t.drop_last() =~= s.subrange(start, e - 1));
    }
}

/// True when `v` holds exactly the characters of `t`.
pub fn chars_equal_str(v: &[char], t: &str) -> (r: bool)
    ensures
        r == (v@ == t@),
{
    let w = str_chars(t);
    if v.len() != w.len() {
        return false;
    }
    let mut i: usize = 0;
    while i < v.len()
        invariant
            v@.len() == w@.len(),
            w@ == t@,
            i <= v@.len(),
            forall|k: int| 0 <= k < i ==> v@[k] == w@[k],
        decreases v@.len() - i,
    {
        if v[i] != w[i] {
            return false;
        }
        i = i + 1;
    }
    assert(v@ =~= w@);
    true
}

/// The text a `Cow<str>` holds, borrowed or owned.
pub fn cow_text<'b>(c: &'b Cow<'_, str>) -> (r: &'b str)
    ensures
        r@ == c@,
{
    match c {
        Cow::Borrowed(b) => b,
        Cow::Owned(o) => o.as_str(),
    }
}

} // verus!
