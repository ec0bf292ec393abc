//! What the emitter writes, the scanner reads back: the scalar forms the
//! emitter chooses decode to the string they were written for, and integers
//! written in decimal parse back to themselves.
use vstd::prelude::*;

use crate::emitter::{dq_encode, dq_escape_char, dq_escaped, quoted, scalar_text, sq_encode, written_as_block};
use crate::parser::escape::{escape, hex_escape, hex_run_value};
use crate::parser::scalar::{dq_body, plain_end, sq_body, trim_blanks_end};
use crate::parser::{char_at, is_blank, is_break};
use crate::patterns::{
    is_ctrl, is_indicator, spec_has_ctrl_chars, spec_has_newline, spec_needs_quotes, yaml_int,
    spec_has_yaml_special, strip_char, resolved_scalar, spec_seems_null, bool_word,
    has_float_mark, unsigned_parse, special_float, rust_float_syntax,
};
use crate::value::Node;
use crate::text::{
    decimal, digit_char, digits_value, hex_digit_value, is_unicode_scalar, lemma_decimal_digits,
    signed_decimal,
};

verus! {

broadcast use vstd::utf8::char_u32_cast;

proof fn lemma_hex_digit_of_digit_char(d: nat)
    requires
        d < 16,
    ensures
        hex_digit_value(digit_char(d)) == Some(d),
{
}

/// The two hex digits that `dq_escape_char` writes for a control character
/// read back as that character.
proof fn lemma_hex_pair(t: Seq<char>, k: int, c: char)
    requires
        0 <= k,
        k + 2 <= t.len(),
        (c as u32) < 0x80,
        t[k] == digit_char((c as u32 / 16) as nat),
        t[k + 1] == digit_char((c as u32 % 16) as nat),
    ensures
        hex_escape(t, k, 2) == Some((seq![c], k + 2)),
{
    let v = c as u32;
    lemma_hex_digit_of_digit_char((v / 16) as nat);
    lemma_hex_digit_of_digit_char((v % 16) as nat);
    reveal_with_fuel(hex_run_value, 3);
    assert(hex_run_value(t, k, 1) == Some((v / 16) as nat));
    assert((v / 16) as nat * 16 + (v % 16) as nat == v as nat);
    assert(hex_run_value(t, k, 2) == Some(v as nat));
    assert(is_unicode_scalar(v as nat));
    assert((v as nat) as char == c) by {
        vstd::utf8::char_u32_cast(c, v);
    }
}

/// Decoding the escaped form of `u` followed by a closing quote, with the
/// blanks `pend` held back, gives `pend` and `u`, and stops after the quote.
proof fn lemma_dq_decode(t: Seq<char>, i: int, u: Seq<char>, indent: nat, pend: Seq<char>)
    requires
        0 <= i,
        i + dq_escaped(u).len() + 1 <= t.len(),
        t.subrange(i, i + dq_escaped(u).len() + 1) == dq_escaped(u).push('"'),
    ensures
        dq_body(t, i, indent, pend) == Some((pend + u, i + dq_escaped(u).len() + 1)),
    decreases u.len(),
{
    let e = dq_escaped(u);
    assert(t[i] == e.push('"')[0]);
    if u.len() == 0 {
        assert(pend + u =~= pend);
    } else {
        let c = u[0];
        let u2 = u.drop_first();
        let ec = dq_escape_char(c);
        let e2 = dq_escaped(u2);
        assert(e == ec + e2);
        let n = ec.len() as int;
        assert forall|k: int| 0 <= k < n implies t[i + k] == ec[k] by {
            assert(t.subrange(i, i + e.len() + 1)[k] == e.push('"')[k]);
        }
        assert(t.subrange(i + n, i + n + e2.len() + 1) =~= e2.push('"')) by {
            assert forall|k: int| 0 <= k < e2.len() + 1 implies t.subrange(i + n, i + n + e2.len() + 1)[k] == e2.push('"')[k] by {
                assert(t.subrange(i, i + e.len() + 1)[n + k] == e.push('"')[n + k]);
            }
        }
        if c == '\\' || c == '"' || c == '\n' || c == '\t' || c == '\0' {
            lemma_dq_decode(t, i + 2, u2, indent, Seq::empty());
            assert(escape(t, i + 1) == Some((seq![c], i + 2)));
            assert(Seq::<char>::empty() + u2 =~= u2);
            assert(pend + seq![c] + u2 =~= pend + u);
        } else if (c as u32) < 0x20 || (c as u32) == 0x7f {
            lemma_dq_decode(t, i + 4, u2, indent, Seq::empty());
            lemma_hex_pair(t, i + 2, c);
            assert(escape(t, i + 1) == Some((seq![c], i + 4)));
            assert(Seq::<char>::empty() + u2 =~= u2);
            assert(pend + seq![c] + u2 =~= pend + u);
        } else {
            assert(t[i] == c);
            assert(!is_break(c));
            if is_blank(c) {
                lemma_dq_decode(t, i + 1, u2, indent, pend.push(c));
                assert(pend.push(c) + u2 =~= pend + u);
            } else {
                lemma_dq_decode(t, i + 1, u2, indent, Seq::empty());
                assert(pend.push(c) + (Seq::<char>::empty() + u2) =~= pend + u);
            }
        }
    }
}

/// What `emit_double_quoted` writes for `s`, `parse_double_quoted` reads
/// back as `s`, whatever follows it and whatever the indentation: the
/// cursor ends just past the closing quote.
pub proof fn double_quoted_reads_back(s: Seq<char>, rest: Seq<char>, indent: nat)
    ensures
        dq_body(dq_encode(s) + rest, 1, indent, Seq::empty()) == Some((s, dq_encode(s).len() as int)),
{
    let t = dq_encode(s) + rest;
    let e = dq_escaped(s);
    assert(t.subrange(1, e.len() as int + 2) =~= e.push('"'));
    lemma_dq_decode(t, 1, s, indent, Seq::empty());
    assert(Seq::<char>::empty() + s =~= s);
}

/// Decoding a run `u` with no quote and no line break, followed by a
/// closing quote that no second quote follows, gives `pend` and `u`.
proof fn lemma_sq_decode(t: Seq<char>, i: int, u: Seq<char>, indent: nat, pend: Seq<char>)
    requires
        0 <= i,
        i + u.len() + 1 <= t.len(),
        t.subrange(i, i + u.len() + 1) == u.push('\''),
        !u.contains('\''),
        forall|k: int| 0 <= k < u.len() ==> !is_break(#[trigger] u[k]),
        char_at(t, i + u.len() + 1) != Some('\''),
    ensures
        sq_body(t, i, indent, pend) == Some((pend + u, i + u.len() + 1)),
    decreases u.len(),
{
    assert(t[i] == t.subrange(i, i + u.len() + 1)[0]);
    if u.len() == 0 {
        assert(pend + u =~= pend);
    } else {
        let c = u[0];
        let u2 = u.drop_first();
        assert(c != '\'') by {
            assert(u.contains(c));
        }
        assert(!is_break(c));
        assert(t.subrange(i + 1, i + 1 + u2.len() + 1) =~= u2.push('\'')) by {
            assert forall|k: int| 0 <= k < u2.len() + 1 implies t.subrange(i + 1, i + 1 + u2.len() + 1)[k] == u2.push('\'')[k] by {
                assert(t.subrange(i, i + u.len() + 1)[1 + k] == u.push('\'')[1 + k]);
                assert(t.subrange(i, i + u.len() + 1)[1 + k] == t[i + 1 + k]);
                assert(t.subrange(i + 1, i + 1 + u2.len() + 1)[k] == t[i + 1 + k]);
                if k < u2.len() {
                    assert(u2[k] == u[k + 1]);
                }
            }
        }
        assert(!u2.contains('\'')) by {
            if u2.contains('\'') {
                let k = choose|k: int| 0 <= k < u2.len() && u2[k] == '\'';
                assert(u[k + 1] == '\'');
            }
        }
        assert forall|k: int| 0 <= k < u2.len() implies !is_break(#[trigger] u2[k]) by {
            assert(u2[k] == u[k + 1]);
        }
        if is_blank(c) {
            lemma_sq_decode(t, i + 1, u2, indent, pend.push(c));
            assert(pend.push(c) + u2 =~= pend + u);
        } else {
            lemma_sq_decode(t, i + 1, u2, indent, Seq::empty());
            assert(pend.push(c) + (Seq::<char>::empty() + u2) =~= pend + u);
        }
    }
}

/// What the emitter's single-quoted form of `s` holds (no quote, no line
/// break), `parse_single_quoted` reads back as `s`, provided what follows
/// does not start with another quote.
pub proof fn single_quoted_reads_back(s: Seq<char>, rest: Seq<char>, indent: nat)
    requires
        !s.contains('\''),
        forall|k: int| 0 <= k < s.len() ==> !is_break(#[trigger] s[k]),
        char_at(rest, 0) != Some('\''),
    ensures
        sq_body(sq_encode(s) + rest, 1, indent, Seq::empty()) == Some((s, sq_encode(s).len() as int)),
{
    let t = sq_encode(s) + rest;
    assert(t.subrange(1, s.len() as int + 2) =~= s.push('\''));
    assert(char_at(t, s.len() as int + 2) == char_at(rest, 0));
    lemma_sq_decode(t, 1, s, indent, Seq::empty());
    assert(Seq::<char>::empty() + s =~= s);
}

/// A plain scalar runs on while no character of the run stops it.
proof fn lemma_plain_run(t: Seq<char>, k: int, n: int)
    requires
        0 <= k <= n <= t.len(),
        forall|j: int| k <= j < n ==> !crate::parser::scalar::plain_stops(t, j, false),
        crate::parser::scalar::plain_stops(t, n, false),
    ensures
        plain_end(t, k, false) == n,
    decreases n - k,
{
    if k < n {
        lemma_plain_run(t, k + 1, n);
    }
}

/// A string that needs no quotes, written plain and followed by a line
/// break or the end of the text, is read back whole by
/// `parse_plain_scalar`.
pub proof fn plain_reads_back(s: Seq<char>, rest: Seq<char>)
    requires
        !spec_needs_quotes(s),
        rest.len() == 0 || is_break(rest[0]),
    ensures
        plain_end(s + rest, 0, false) == s.len(),
        trim_blanks_end(s + rest, 0, s.len() as int) == s.len(),
        (s + rest).subrange(0, s.len() as int) == s,
{
    let t = s + rest;
    let n = s.len() as int;
    assert forall|j: int| 0 <= j < n implies !crate::parser::scalar::plain_stops(t, j, false) by {
        let c = s[j];
        assert(t[j] == c);
        assert(c != '\n') by {
            if c == '\n' { assert(spec_has_newline(s)); }
        }
        assert(c != '\r') by {
            if c == '\r' { assert(is_ctrl(c)); assert(spec_has_ctrl_chars(s)); }
        }
        assert(c != ':' && c != '#') by {
            if c == ':' || c == '#' { assert(spec_has_yaml_special(s)); }
        }
    }
    lemma_plain_run(t, 0, n);
    assert(t[n - 1] == s.last());
    assert(t.subrange(0, n) =~= s);
}

/// A string the emitter writes as a flow scalar (not as a literal block)
/// reads back unchanged with the reader its first character selects:
/// double-quoted, single-quoted, or plain. It is followed by a line break
/// or the end of the text, as in the emitter's output.
pub proof fn scalar_reads_back(s: Seq<char>, rest: Seq<char>, indent: nat)
    requires
        !written_as_block(s),
        rest.len() == 0 || is_break(rest[0]),
    ensures
        ({
            let q = scalar_text(s, indent);
            &&& q.len() > 0
            &&& q[0] == '"' ==> dq_body(q + rest, 1, indent, Seq::empty()) == Some((s, q.len() as int))
            &&& q[0] == '\'' ==> sq_body(q + rest, 1, indent, Seq::empty()) == Some((s, q.len() as int))
            &&& (q[0] != '"' && q[0] != '\'') ==> q == s && plain_end(q + rest, 0, false) == q.len()
                && trim_blanks_end(q + rest, 0, q.len() as int) == q.len()
        }),
{
    let q = scalar_text(s, indent);
    if spec_needs_quotes(s) {
        if !spec_has_ctrl_chars(s) && !spec_has_newline(s) && !s.contains('\'') {
            assert forall|k: int| 0 <= k < s.len() implies !is_break(#[trigger] s[k]) by {
                if s[k] == '\n' { assert(spec_has_newline(s)); }
                if s[k] == '\r' { assert(is_ctrl(s[k])); }
            }
            assert(char_at(rest, 0) != Some('\''));
            single_quoted_reads_back(s, rest, indent);
        } else {
            double_quoted_reads_back(s, rest, indent);
        }
    } else {
        assert(s.len() > 0);
        assert(!is_indicator(s[0]));
        plain_reads_back(s, rest);
    }
}

/// The decimal digits of `n` read back as `n` in base ten.
proof fn lemma_digits_value_of_decimal(n: nat)
    ensures
        digits_value(decimal(n), 10) == Some(n),
    decreases n,
{
    if n >= 10 {
        lemma_digits_value_of_decimal(n / 10);
        assert(decimal(n).drop_last() =~= decimal(n / 10));
        lemma_decimal_digits(n / 10);
    }
}

/// An integer the emitter writes in decimal reads back as the same integer
/// when resolved as a YAML integer.
pub proof fn integer_reads_back(n: int)
    requires
        i64::MIN <= n <= i64::MAX,
    ensures
        yaml_int(signed_decimal(n)) == Some(n),
{
    let s = signed_decimal(n);
    if n < 0 {
        let m = (-n) as nat;
        lemma_digits_value_of_decimal(m);
        assert(s.drop_first() =~= decimal(m));
        assert(s[0] == '-');
        assert(strip_char(s, '+') == s);
    } else {
        let m = n as nat;
        lemma_digits_value_of_decimal(m);
        lemma_decimal_digits(m);
        assert(s == decimal(m));
        assert(s[0] != '-' && s[0] != '+');
        assert(strip_char(s, '+') == s);
        if s.len() >= 2 {
            assert(s[0] != '0');
        }
    }
}

/// An integer literal beyond `i64` is kept, not truncated: it resolves to
/// its own text, and `as_u64` reads the number back from that text when it
/// fits in a `u64`.
pub proof fn big_integer_kept_as_text(n: nat, parsed: Option<u64>)
    requires
        n > i64::MAX,
    ensures
        resolved_scalar(decimal(n), parsed) == Node::Str(decimal(n)),
        n <= u64::MAX ==> unsigned_parse(decimal(n), 10) == Some(n),
{
    let s = decimal(n);
    lemma_decimal_digits(n);
    lemma_digits_value_of_decimal(n);
    reveal_strlit("~");
    reveal_strlit("null");
    reveal_strlit("Null");
    reveal_strlit("NULL");
    reveal_strlit("true");
    reveal_strlit("True");
    reveal_strlit("TRUE");
    reveal_strlit("false");
    reveal_strlit("False");
    reveal_strlit("FALSE");
    assert('0' <= s[0] && s[0] <= '9');
    assert(s[0] != '0');
    assert(!spec_seems_null(s));
    assert(bool_word(s) is None);
    assert(strip_char(s, '+') == s);
    assert(yaml_int(s) is None);
    assert(!has_float_mark(s)) by {
        if has_float_mark(s) {
            let k = choose|k: int| 0 <= k < s.len() && (s[k] == '.' || s[k] == 'e' || s[k] == 'E');
            assert('0' <= s[k] && s[k] <= '9');
        }
    }
}

/// A string the emitter writes plain (unquoted) resolves back to the same
/// string, never to null, a boolean, an integer or a float; `parsed` is
/// what Rust's `f64` parsing gives for it, which accepts only the syntax
/// of [`rust_float_syntax`].
pub proof fn plain_text_resolves_to_itself(s: Seq<char>, parsed: Option<u64>)
    requires
        !spec_needs_quotes(s),
        parsed is Some ==> rust_float_syntax(s),
    ensures
        resolved_scalar(s, parsed) == Node::Str(s),
{
}

} // verus!
