//! Writing values as block-style YAML: scalars plain when that reads back
//! unchanged, single- or double-quoted otherwise, literal block scalars for
//! multi-line text; sequences as `- ` items and mappings as `key: value`
//! lines, nested by indentation.
use vstd::prelude::*;

use crate::patterns::{
    has_ctrl_chars, has_newline, needs_quotes, spec_has_ctrl_chars, spec_has_newline,
    spec_needs_quotes,
};
use crate::error::Error;
use crate::parser::skip_spaces;
use crate::value::{items_model, lemma_model_containers, pairs_model, BorrowedValue, Node};
use crate::text::{
    cow_text, decimal, digit_char, digit_to_char, push_decimal, push_signed_decimal,
    signed_decimal, str_chars, string_push,
};

verus! {

/// `n` spaces.
pub open spec fn spaces(n: nat) -> Seq<char> {
    Seq::new(n, |_i: int| ' ')
}

/// How a double-quoted scalar writes one character: backslash escapes for
/// the backslash, the quote, line feed, tab and NUL, `\xHH` for the other
/// control characters, and the character itself otherwise.
pub open spec fn dq_escape_char(c: char) -> Seq<char> {
    if c == '\\' {
        seq!['\\', '\\']
    } else if c == '"' {
        seq!['\\', '"']
    } else if c == '\n' {
        seq!['\\', 'n']
    } else if c == '\t' {
        seq!['\\', 't']
    } else if c == '\0' {
        seq!['\\', '0']
    } else if (c as u32) < 0x20 || (c as u32) == 0x7f {
        seq!['\\', 'x', digit_char((c as u32 / 16) as nat), digit_char((c as u32 % 16) as nat)]
    } else {
        seq![c]
    }
}

/// The escaped characters of `s`, one after another.
pub open spec fn dq_escaped(s: Seq<char>) -> Seq<char>
    decreases s.len(),
{
    if s.len() == 0 { Seq::empty() } else { dq_escape_char(s[0]) + dq_escaped(s.drop_first()) }
}

/// The double-quoted form of `s`.
pub open spec fn dq_encode(s: Seq<char>) -> Seq<char> {
    seq!['"'] + dq_escaped(s) + seq!['"']
}

/// Neither a C0 control character nor DEL.
pub open spec fn is_printable(c: char) -> bool {
    (c as u32) >= 0x20 && (c as u32) != 0x7f
}

proof fn lemma_dq_escaped_printable(s: Seq<char>)
    ensures
        forall|k: int| 0 <= k < dq_escaped(s).len() ==> is_printable(#[trigger] dq_escaped(s)[k]),
    decreases s.len(),
{
    if s.len() > 0 {
        let c = s[0];
        let e = dq_escape_char(c);
        lemma_dq_escaped_printable(s.drop_first());
        assert forall|k: int| 0 <= k < e.len() implies is_printable(#[trigger] e[k]) by {
            if (c as u32) < 0x20 || (c as u32) == 0x7f {
                if c != '\\' && c != '"' && c != '\n' && c != '\t' && c != '\0' {
                    assert((c as u32 / 16) < 16);
                    assert((c as u32 % 16) < 16);
                }
            }
        }
        let rest = dq_escaped(s.drop_first());
        assert(dq_escaped(s) == e + rest);
        assert forall|k: int| 0 <= k < dq_escaped(s).len() implies is_printable(#[trigger] dq_escaped(s)[k]) by {
            if k < e.len() {
                assert(dq_escaped(s)[k] == e[k]);
            } else {
                assert(dq_escaped(s)[k] == rest[k - e.len()]);
            }
        }
    }
}

/// Double-quoted output holds no control character and no DEL: escapes
/// stand for every one of them.
pub proof fn double_quoted_has_no_control_char(s: Seq<char>)
    ensures
        forall|k: int| 0 <= k < dq_encode(s).len() ==> is_printable(#[trigger] dq_encode(s)[k]),
{
    lemma_dq_escaped_printable(s);
    let d = dq_escaped(s);
    assert forall|k: int| 0 <= k < dq_encode(s).len() implies is_printable(#[trigger] dq_encode(s)[k]) by {
        if 1 <= k <= d.len() {
            assert(dq_encode(s)[k] == d[k - 1]);
        }
    }
}

/// The single-quoted form of `s` (which holds no quote of its own).
pub open spec fn sq_encode(s: Seq<char>) -> Seq<char> {
    seq!['\''] + s + seq!['\'']
}

/// The quoted form the emitter picks: single quotes when `s` holds no
/// control character, no line break and no `'`, double quotes otherwise (a
/// line break in single quotes would fold into a space).
pub open spec fn quoted(s: Seq<char>) -> Seq<char> {
    if !spec_has_ctrl_chars(s) && !spec_has_newline(s) && !s.contains('\'') {
        sq_encode(s)
    } else {
        dq_encode(s)
    }
}

/// The lines of a literal block scalar's body: each line of `s` on a line of
/// its own, non-empty ones behind the padding `pad`.
pub open spec fn block_body(s: Seq<char>, pad: Seq<char>, line_start: bool) -> Seq<char>
    decreases s.len(),
{
    if s.len() == 0 {
        Seq::empty()
    } else if s[0] == '\n' {
        seq!['\n'] + block_body(s.drop_first(), pad, true)
    } else {
        (if line_start { pad } else { Seq::empty() }) + seq![s[0]] + block_body(s.drop_first(), pad, false)
    }
}

/// Text that ends in two line breaks or more.
pub open spec fn ends_in_blank_lines(s: Seq<char>) -> bool {
    s.len() >= 2 && s[s.len() - 1] == '\n' && s[s.len() - 2] == '\n'
}

/// The header of a literal block for `s`: `|+` when it ends in two line
/// breaks or more (all of them kept), `|` when it ends in one, `|-` when it
/// ends in none.
pub open spec fn block_header(s: Seq<char>) -> Seq<char> {
    if ends_in_blank_lines(s) {
        seq!['|', '+']
    } else if s.len() > 0 && s.last() == '\n' {
        seq!['|']
    } else {
        seq!['|', '-']
    }
}

/// A literal block scalar for `s` at `indent`: its header (see
/// [`block_header`]), then its lines indented two further spaces.
pub open spec fn block_literal(s: Seq<char>, indent: nat) -> Seq<char> {
    block_header(s) + seq!['\n'] + block_body(s, spaces(indent + 2), true)
}

/// A line of `s` that starts at `k` and is not empty holds, after its
/// leading spaces, a character that is neither a tab nor a line break.
pub open spec fn line_has_content(s: Seq<char>, k: int) -> bool {
    (0 <= k < s.len() && (k == 0 || s[k - 1] == '\n') && s[k] != '\n') ==> {
        let j = skip_spaces(s, k);
        j < s.len() && s[j] != '\n' && s[j] != '\t'
    }
}

/// Every line of `s` is empty or holds more than its indentation, and no
/// tab follows the indentation.
pub open spec fn lines_have_content(s: Seq<char>) -> bool {
    forall|k: int| #[trigger] line_has_content(s, k)
}

/// A literal block carries the lines of `s` exactly: it does not start
/// with a space or an empty line (which would shift the block's
/// indentation), and every line is empty or holds content.
pub open spec fn block_carries(s: Seq<char>) -> bool {
    &&& s.len() > 0
    &&& s[0] != ' '
    &&& s[0] != '\n'
    &&& lines_have_content(s)
}

/// A literal block carries `s` exactly wherever the emitter writes it: its
/// lines (see [`block_carries`]), and at most one final line break (a `|+`
/// block keeps every line break up to the next entry, and the emitter
/// starts that entry on a line of its own).
pub open spec fn block_safe(s: Seq<char>) -> bool {
    block_carries(s) && !ends_in_blank_lines(s)
}

/// The strings the emitter writes as literal blocks: multi-line text
/// without control characters that a block carries exactly.
pub open spec fn written_as_block(s: Seq<char>) -> bool {
    s.len() > 0 && spec_has_newline(s) && !spec_has_ctrl_chars(s) && block_safe(s)
}

/// How the emitter writes a string at `indent`: a literal block for
/// multi-line text that a block carries exactly, quoted when a plain scalar
/// would not read back as this string, plain otherwise.
pub open spec fn scalar_text(s: Seq<char>, indent: nat) -> Seq<char> {
    if written_as_block(s) {
        block_literal(s, indent)
    } else if spec_needs_quotes(s) {
        quoted(s)
    } else {
        s
    }
}

pub fn emit_null(out: &mut String)
    ensures
        final(out)@ == old(out)@ + "null"@,
{
    out.append("null")
}

pub fn emit_bool(b: bool, out: &mut String)
    ensures
        final(out)@ == old(out)@ + (if b { "true"@ } else { "false"@ }),
{
    out.append(if b { "true" } else { "false" });
}

pub fn emit_int(n: &i64, out: &mut String)
    ensures
        final(out)@ == old(out)@ + signed_decimal(*n as int),
{
    push_signed_decimal(out, *n);
}

pub fn emit_uint(n: &u64, out: &mut String)
    ensures
        final(out)@ == old(out)@ + decimal(*n as nat),
{
    push_decimal(out, *n);
}

pub fn push_indent(out: &mut String, indent: usize)
    ensures
        final(out)@ == old(out)@ + spaces(indent as nat),
{
    let mut k: usize = 0;
    while k < indent
        invariant
            k <= indent,
            out@ == old(out)@ + spaces(k as nat),
        decreases indent - k,
    {
        string_push(out, ' ');
        k = k + 1;
        assert(out@ =~= old(out)@ + spaces(k as nat));
    }
}

pub fn push_block_prefix(out: &mut String)
    ensures
        final(out)@ == old(out)@ + seq!['-', ' '],
{
    string_push(out, '-');
    string_push(out, ' ');
    assert(final(out)@ =~= old(out)@ + seq!['-', ' ']);
}

/// Writes `s` as a scalar at `indent` (see [`scalar_text`]).
pub fn emit_scalar(s: &str, indent: usize, out: &mut String)
    requires
        indent + 2 <= usize::MAX,
    ensures
        final(out)@ == old(out)@ + scalar_text(s@, indent as nat),
{
    if !s.is_empty() && has_newline(s) && !has_ctrl_chars(s) && block_safe_exec(s) {
        emit_block_scalar(s, indent, out);
    } else if needs_quotes(s) {
        emit_quoted_scalar(s, out);
    } else {
        out.append(s);
    }
}

/// The index of the first character from `i` on that is not a space.
fn skip_spaces_in(v: &Vec<char>, i: usize) -> (j: usize)
    requires
        i <= v.len(),
    ensures
        j == skip_spaces(v@, i as int),
{
    let mut j = i;
    while j < v.len() && v[j] == ' '
        invariant
            i <= j <= v.len(),
            skip_spaces(v@, j as int) == skip_spaces(v@, i as int),
        decreases v.len() - j,
    {
        j = j + 1;
    }
    j
}

/// Whether every line of `v` is empty or holds content (see
/// [`lines_have_content`]).
fn lines_have_content_exec(v: &Vec<char>) -> (r: bool)
    ensures
        r == lines_have_content(v@),
{
    let mut k: usize = 0;
    while k < v.len()
        invariant
            k <= v.len(),
            forall|q: int| 0 <= q < k ==> #[trigger] line_has_content(v@, q),
        decreases v.len() - k,
    {
        if (k == 0 || v[k - 1] == '\n') && v[k] != '\n' {
            let j = skip_spaces_in(v, k);
            if !(j < v.len() && v[j] != '\n' && v[j] != '\t') {
                assert(!line_has_content(v@, k as int));
                return false;
            }
        }
        k = k + 1;
    }
    assert forall|q: int| #[trigger] line_has_content(v@, q) by {
        if 0 <= q < v.len() {
            assert(line_has_content(v@, q));
        }
    }
    true
}

/// Whether a literal block carries `s` exactly (see [`block_safe`]).
fn block_safe_exec(s: &str) -> (r: bool)
    ensures
        r == block_safe(s@),
{
    let v = str_chars(s);
    let n = v.len();
    if n == 0 || v[0] == ' ' || v[0] == '\n' {
        return false;
    }
    if n >= 2 && v[n - 1] == '\n' && v[n - 2] == '\n' {
        return false;
    }
    lines_have_content_exec(&v)
}

/// Writes `s` as a literal block scalar at `indent` (see [`block_literal`]).
pub fn emit_block_scalar(s: &str, indent: usize, out: &mut String)
    requires
        indent + 2 <= usize::MAX,
    ensures
        final(out)@ == old(out)@ + block_literal(s@, indent as nat),
{
    let v = str_chars(s);
    let ghost base = old(out)@;
    string_push(out, '|');
    if v.len() >= 2 && v[v.len() - 1] == '\n' && v[v.len() - 2] == '\n' {
        string_push(out, '+');
    } else if !(v.len() > 0 && v[v.len() - 1] == '\n') {
        string_push(out, '-');
    }
    string_push(out, '\n');
    let ghost head = out@;
    let ghost pad = spaces((indent + 2) as nat);
    let mut child = String::new();
    push_indent(&mut child, indent + 2);
    assert(child@ =~= pad);
    let mut line_start = true;
    let mut i: usize = 0;
    assert(v@.skip(0) =~= v@);
    assert(out@.skip(head.len() as int) =~= Seq::<char>::empty());
    while i < v.len()
        invariant
            v@ == s@,
            i <= v.len(),
            child@ == pad,
            block_body(v@, pad, true) == out@.skip(head.len() as int) + block_body(v@.skip(i as int), pad, line_start),
            head.len() <= out@.len(),
            out@.take(head.len() as int) == head,
        decreases v.len() - i,
    {
        let c = v[i];
        let ghost before = out@;
        assert(v@.skip(i as int).drop_first() =~= v@.skip(i + 1));
        if c == '\n' {
            string_push(out, '\n');
            line_start = true;
        } else {
            if line_start {
                out.append(child.as_str());
            }
            string_push(out, c);
            line_start = false;
        }
        assert(out@.take(head.len() as int) =~= head);
        assert(out@.skip(head.len() as int) =~= before.skip(head.len() as int) + (out@.skip(before.len() as int)));
        i = i + 1;
    }
    assert(v@.skip(i as int) =~= Seq::<char>::empty());
    assert(out@ =~= head + out@.skip(head.len() as int));
    assert(final(out)@ =~= base + block_literal(s@, indent as nat));
}

/// Writes `s` quoted (see [`quoted`]).
pub fn emit_quoted_scalar(s: &str, out: &mut String)
    ensures
        final(out)@ == old(out)@ + quoted(s@),
{
    let v = str_chars(s);
    let mut has_quote = false;
    let mut k: usize = 0;
    while k < v.len()
        invariant
            k <= v.len(),
            has_quote == exists|j: int| 0 <= j < k && v@[j] == '\'',
        decreases v.len() - k,
    {
        if v[k] == '\'' {
            has_quote = true;
        }
        k = k + 1;
    }
    assert(has_quote == v@.contains('\''));
    if !has_ctrl_chars(s) && !has_newline(s) && !has_quote {
        string_push(out, '\'');
        out.append(s);
        string_push(out, '\'');
        assert(final(out)@ =~= old(out)@ + quoted(s@));
    } else {
        emit_double_quoted(s, out);
    }
}

/// Writes `s` double-quoted (see [`dq_encode`]).
pub fn emit_double_quoted(s: &str, out: &mut String)
    ensures
        final(out)@ == old(out)@ + dq_encode(s@),
{
    let v = str_chars(s);
    let ghost base = old(out)@;
    string_push(out, '"');
    let mut i: usize = 0;
    assert(v@.skip(0) =~= v@);
    while i < v.len()
        invariant
            v@ == s@,
            i <= v.len(),
            out@ + dq_escaped(v@.skip(i as int)) == base + seq!['"'] + dq_escaped(v@),
        decreases v.len() - i,
    {
        let c = v[i];
        let ghost before = out@;
        assert(v@.skip(i as int).drop_first() =~= v@.skip(i + 1));
        assert(dq_escaped(v@.skip(i as int)) == dq_escape_char(c) + dq_escaped(v@.skip(i + 1)));
        if c == '\\' {
            string_push(out, '\\');
            string_push(out, '\\');
        } else if c == '"' {
            string_push(out, '\\');
            string_push(out, '"');
        } else if c == '\n' {
            string_push(out, '\\');
            string_push(out, 'n');
        } else if c == '\t' {
            string_push(out, '\\');
            string_push(out, 't');
        } else if c == '\0' {
            string_push(out, '\\');
            string_push(out, '0');
        } else if (c as u32) < 0x20 || (c as u32) == 0x7f {
            let code = c as u32;
            string_push(out, '\\');
            string_push(out, 'x');
            string_push(out, digit_to_char((code / 16) as u8));
            string_push(out, digit_to_char((code % 16) as u8));
        } else {
            string_push(out, c);
        }
        assert(out@ =~= before + dq_escape_char(c));
        i = i + 1;
    }
    assert(v@.skip(i as int) =~= Seq::<char>::empty());
    string_push(out, '"');
    assert(final(out)@ =~= base + dq_encode(s@));
}

/// The text recorded for the double with bit pattern `bits`: the first
/// entry of `table` for it, or nothing when there is none.
pub open spec fn table_text(table: Seq<(u64, String)>, bits: u64) -> Seq<char>
    decreases table.len(),
{
    if table.len() == 0 {
        Seq::empty()
    } else if table[0].0 == bits {
        table[0].1@
    } else {
        table_text(table.drop_first(), bits)
    }
}

/// The exponent field of a double's bit pattern.
pub open spec fn float_exponent(bits: u64) -> int {
    (bits as int / 0x10_0000_0000_0000) % 2048
}

/// The mantissa field of a double's bit pattern.
pub open spec fn float_mantissa(bits: u64) -> int {
    bits as int % 0x10_0000_0000_0000
}

/// How the emitter writes a double: `.nan`, `.inf` or `-.inf` for the
/// special values, otherwise the text `table` records for it (as Rust's
/// `Display` writes it), with `.0` appended when that has neither `.` nor
/// `e`.
pub open spec fn float_text(bits: u64, table: Seq<(u64, String)>) -> Seq<char> {
    if float_exponent(bits) == 2047 && float_mantissa(bits) != 0 {
        seq!['.', 'n', 'a', 'n']
    } else if float_exponent(bits) == 2047 {
        if bits < 0x8000_0000_0000_0000 { seq!['.', 'i', 'n', 'f'] } else { seq!['-', '.', 'i', 'n', 'f'] }
    } else {
        let t = table_text(table, bits);
        if !t.contains('.') && !t.contains('e') { t + seq!['.', '0'] } else { t }
    }
}

/// A node written on the same line as what precedes it: anything but a
/// non-empty sequence or mapping (looking through tags).
pub open spec fn is_inline_node(n: Node) -> bool
    decreases n,
{
    match n {
        Node::List(xs) => xs.len() == 0,
        Node::Pairs(ps) => ps.len() == 0,
        Node::Tagged(_, inner) => is_inline_node(*inner),
        _ => true,
    }
}

/// How deeply containers and tags nest in a node.
pub open spec fn depth(n: Node) -> nat
    decreases n,
{
    match n {
        Node::List(xs) => 1 + seq_depth(xs, 0),
        Node::Pairs(ps) => 1 + pairs_depth(ps, 0),
        Node::Tagged(_, inner) => 1 + depth(*inner),
        _ => 0,
    }
}

pub open spec fn seq_depth(xs: Seq<Node>, i: int) -> nat
    decreases xs, xs.len() - i,
{
    if i < 0 || i >= xs.len() {
        0
    } else {
        let a = depth(xs[i]);
        let b = seq_depth(xs, i + 1);
        if a > b { a } else { b }
    }
}

pub open spec fn pairs_depth(ps: Seq<(Node, Node)>, i: int) -> nat
    decreases ps, ps.len() - i,
{
    if i < 0 || i >= ps.len() {
        0
    } else {
        let a = depth(ps[i].0);
        let b = depth(ps[i].1);
        let c = pairs_depth(ps, i + 1);
        if a >= b && a >= c { a } else if b >= c { b } else { c }
    }
}

/// The text the emitter writes for a node at `indent`, before the final
/// tidying of [`emitted`]: scalars as they read back, block sequences as
/// `- ` items, block mappings as `key: value` lines, each line after a line
/// break and its indentation; tags before their value.
pub open spec fn node_text(n: Node, indent: nat, table: Seq<(u64, String)>) -> Seq<char>
    decreases n, 0int,
{
    match n {
        Node::Null => seq!['n', 'u', 'l', 'l'],
        Node::Bool(b) => if b { seq!['t', 'r', 'u', 'e'] } else { seq!['f', 'a', 'l', 's', 'e'] },
        Node::Int(i) => signed_decimal(i),
        Node::Float(bits) => float_text(bits, table),
        Node::Str(s) => scalar_text(s, indent),
        Node::Tagged(t, inner) => t + (if is_inline_node(*inner) { seq![' '] } else { Seq::empty() }) + node_text(*inner, indent, table),
        Node::List(xs) => if xs.len() == 0 { seq!['[', ']'] } else { seq_items_text(xs, 0, indent, table) },
        Node::Pairs(ps) => if ps.len() == 0 { seq!['{', '}'] } else { map_entries_text(ps, 0, indent, table) },
    }
}

/// The items of a block sequence from `i` on, each on a line of its own
/// after `- `; a non-empty mapping item starts on the dash's line.
pub open spec fn seq_items_text(xs: Seq<Node>, i: int, indent: nat, table: Seq<(u64, String)>) -> Seq<char>
    decreases xs, xs.len() - i,
{
    if i < 0 || i >= xs.len() {
        Seq::empty()
    } else {
        seq!['\n'] + spaces(indent) + seq!['-', ' '] + seq_item_text(xs[i], indent, table)
            + seq_items_text(xs, i + 1, indent, table)
    }
}

/// One item of a block sequence, after its `- `.
pub open spec fn seq_item_text(x: Node, indent: nat, table: Seq<(u64, String)>) -> Seq<char>
    decreases x, 1int,
{
    match x {
        Node::Pairs(ps) => if ps.len() > 0 {
            kv_text(ps[0], indent + 2, table) + map_entries_text(ps, 1, indent + 2, table)
        } else {
            node_text(x, indent + 2, table)
        },
        _ => node_text(x, indent + 2, table),
    }
}

/// Every item of a block sequence at `n` sits two further in, behind its
/// `- `: an item that is not a non-empty mapping is written as a node at
/// `n + 2`, so a non-empty nested sequence opens its own items on a new line
/// indented `n + 2`, and a non-empty mapping item writes its first entry at
/// `n + 2`.
pub proof fn sequence_items_sit_two_further_in(x: Node, n: nat, table: Seq<(u64, String)>)
    ensures
        !(x matches Node::Pairs(ps) && ps.len() > 0) ==> seq_item_text(x, n, table) == node_text(x, n + 2, table),
        x matches Node::List(ys) && ys.len() > 0 ==> seq_item_text(x, n, table).take(n + 5int)
            == seq!['\n'] + spaces(n + 2) + seq!['-', ' '],
        x matches Node::Pairs(ps) ==> (ps.len() > 0 ==> seq_item_text(x, n, table).take(kv_text(ps[0], n + 2, table).len() as int)
            == kv_text(ps[0], n + 2, table)),
{
    if let Node::List(ys) = x {
        if ys.len() > 0 {
            let head = seq!['\n'] + spaces(n + 2) + seq!['-', ' '];
            let rest = seq_item_text(ys[0], n + 2, table) + seq_items_text(ys, 1, n + 2, table);
            assert(seq_items_text(ys, 0, n + 2, table) == head + rest);
            assert((head + rest).take(n + 5int) =~= head);
        }
    }
    if let Node::Pairs(ps) = x {
        if ps.len() > 0 {
            let a = kv_text(ps[0], n + 2, table);
            assert((a + map_entries_text(ps, 1, n + 2, table)).take(a.len() as int) =~= a);
        }
    }
}

/// The entries of a block mapping from `i` on, each on a line of its own.
pub open spec fn map_entries_text(ps: Seq<(Node, Node)>, i: int, indent: nat, table: Seq<(u64, String)>) -> Seq<char>
    decreases ps, ps.len() - i,
{
    if i < 0 || i >= ps.len() {
        Seq::empty()
    } else {
        seq!['\n'] + spaces(indent) + kv_text(ps[i], indent, table) + map_entries_text(ps, i + 1, indent, table)
    }
}

/// One mapping entry: the key, `:`, a space before an inline value, the
/// value indented two further.
pub open spec fn kv_text(kv: (Node, Node), indent: nat, table: Seq<(u64, String)>) -> Seq<char>
    decreases kv, 0int,
{
    node_text(kv.0, indent, table) + seq![':'] + (if is_inline_node(kv.1) { seq![' '] } else { Seq::empty() })
        + node_text(kv.1, indent + 2, table)
}

proof fn lemma_seq_depth(xs: Seq<Node>, i: int, j: int)
    requires
        0 <= i <= j < xs.len(),
    ensures
        depth(xs[j]) <= seq_depth(xs, i),
    decreases j - i,
{
    if i < j {
        lemma_seq_depth(xs, i + 1, j);
    }
}

proof fn lemma_pairs_depth(ps: Seq<(Node, Node)>, i: int, j: int)
    requires
        0 <= i <= j < ps.len(),
    ensures
        depth(ps[j].0) <= pairs_depth(ps, i),
        depth(ps[j].1) <= pairs_depth(ps, i),
    decreases j - i,
{
    if i < j {
        lemma_pairs_depth(ps, i + 1, j);
    }
}

/// Writes a double (see [`float_text`]); `table` gives the display text of
/// finite doubles by bit pattern.
pub fn emit_float(f: &u64, table: &Vec<(u64, String)>, out: &mut String)
    ensures
        final(out)@ == old(out)@ + float_text(*f, table@),
{
    let bits = *f;
    let exponent = (bits / 0x10_0000_0000_0000) % 2048;
    let mantissa = bits % 0x10_0000_0000_0000;
    if exponent == 2047 && mantissa != 0 {
        out.append(".nan");
        proof { reveal_strlit(".nan"); }
        assert(final(out)@ =~= old(out)@ + float_text(*f, table@));
        return;
    }
    if exponent == 2047 {
        if bits < 0x8000_0000_0000_0000 {
            out.append(".inf");
            proof { reveal_strlit(".inf"); }
        } else {
            out.append("-.inf");
            proof { reveal_strlit("-.inf"); }
        }
        assert(final(out)@ =~= old(out)@ + float_text(*f, table@));
        return;
    }
    let mut k: usize = 0;
    let mut found: Option<usize> = None;
    let ghost recorded = table_text(table@, bits);
    assert(table@.skip(0) =~= table@);
    while k < table.len()
        invariant_except_break
            k <= table.len(),
            found is None,
            recorded == table_text(table@.skip(k as int), bits),
        ensures
            found matches Some(idx) ==> idx < table.len() && recorded == table@[idx as int].1@,
            found is None ==> recorded == Seq::<char>::empty(),
        decreases table.len() - k,
    {
        assert(table@.skip(k as int).drop_first() =~= table@.skip(k + 1));
        assert(table@.skip(k as int)[0] == table@[k as int]);
        if table[k].0 == bits {
            found = Some(k);
            break;
        }
        k = k + 1;
    }
    let text: &str = match found {
        Some(idx) => table[idx].1.as_str(),
        None => "",
    };
    proof { reveal_strlit(""); }
    assert(text@ == table_text(table@, bits));
    let chars = str_chars(text);
    let mut has_mark = false;
    let mut j: usize = 0;
    while j < chars.len()
        invariant
            j <= chars.len(),
            has_mark == exists|q: int| 0 <= q < j && (chars@[q] == '.' || chars@[q] == 'e'),
        decreases chars.len() - j,
    {
        if chars[j] == '.' || chars[j] == 'e' {
            has_mark = true;
        }
        j = j + 1;
    }
    assert(has_mark == (text@.contains('.') || text@.contains('e')));
    out.append(text);
    if !has_mark {
        string_push(out, '.');
        string_push(out, '0');
    }
    assert(final(out)@ =~= old(out)@ + float_text(*f, table@));
}

/// True when a value is written on the line of what precedes it (see
/// [`is_inline_node`]).
pub fn is_inline(v: &BorrowedValue<'_>) -> (r: bool)
    ensures
        r == is_inline_node(v.model()),
    decreases v,
{
    proof { lemma_model_containers(v); }
    match v {
        BorrowedValue::Sequence(items) => items.len() == 0,
        BorrowedValue::Mapping(items) => items.len() == 0,
        BorrowedValue::Tagged(_, value) => is_inline(value),
        _ => true,
    }
}

/// Writes one mapping entry (see [`kv_text`]).
pub fn emit_kv(kv: &(BorrowedValue<'_>, BorrowedValue<'_>), indent: usize, table: &Vec<(u64, String)>, out: &mut String) -> (r: Result<(), Error>)
    requires
        indent + 2 * depth(kv.0.model()) + 2 <= usize::MAX,
        indent + 2 * depth(kv.1.model()) + 4 <= usize::MAX,
    ensures
        r is Ok,
        final(out)@ == old(out)@ + kv_text((kv.0.model(), kv.1.model()), indent as nat, table@),
    decreases kv,
{
    let (k, v) = kv;
    let _ = emit_node(k, indent, table, out);
    string_push(out, ':');
    if is_inline(v) {
        string_push(out, ' ');
    }
    let _ = emit_node(v, indent + 2, table, out);
    assert(final(out)@ =~= old(out)@ + kv_text((kv.0.model(), kv.1.model()), indent as nat, table@));
    Ok(())
}

/// Writes a block mapping (see [`map_entries_text`]), or `{}` when empty.
pub fn emit_block_map(pairs: &Vec<(BorrowedValue<'_>, BorrowedValue<'_>)>, indent: usize, table: &Vec<(u64, String)>, out: &mut String) -> (r: Result<(), Error>)
    requires
        indent + 2 * pairs_depth(pairs_model(pairs@), 0) + 4 <= usize::MAX,
    ensures
        r is Ok,
        final(out)@ == old(out)@ + if pairs.len() == 0 {
            seq!['{', '}']
        } else {
            map_entries_text(pairs_model(pairs@), 0, indent as nat, table@)
        },
    decreases pairs,
{
    if pairs.len() == 0 {
        string_push(out, '{');
        string_push(out, '}');
        assert(final(out)@ =~= old(out)@ + seq!['{', '}']);
        return Ok(());
    }
    let ghost ps = pairs_model(pairs@);
    let mut i: usize = 0;
    while i < pairs.len()
        invariant
            ps == pairs_model(pairs@),
            i <= pairs.len(),
            indent + 2 * pairs_depth(ps, 0) + 4 <= usize::MAX,
            out@ + map_entries_text(ps, i as int, indent as nat, table@) == old(out)@ + map_entries_text(ps, 0, indent as nat, table@),
        decreases pairs.len() - i,
    {
        let ghost before = out@;
        proof {
            lemma_pairs_depth(ps, 0, i as int);
            vstd::std_specs::vec::axiom_vec_index_decreases(*pairs, i as int);
        }
        string_push(out, '\n');
        push_indent(out, indent);
        let _ = emit_kv(&pairs[i], indent, table, out);
        assert(out@ =~= before + seq!['\n'] + spaces(indent as nat) + kv_text(ps[i as int], indent as nat, table@));
        i = i + 1;
    }
    Ok(())
}

/// Writes a block sequence (see [`seq_items_text`]), or `[]` when empty.
pub fn emit_block_seq(items: &Vec<BorrowedValue<'_>>, indent: usize, table: &Vec<(u64, String)>, out: &mut String) -> (r: Result<(), Error>)
    requires
        indent + 2 * seq_depth(items_model(items@), 0) + 4 <= usize::MAX,
    ensures
        r is Ok,
        final(out)@ == old(out)@ + if items.len() == 0 {
            seq!['[', ']']
        } else {
            seq_items_text(items_model(items@), 0, indent as nat, table@)
        },
    decreases items,
{
    if items.len() == 0 {
        string_push(out, '[');
        string_push(out, ']');
        assert(final(out)@ =~= old(out)@ + seq!['[', ']']);
        return Ok(());
    }
    let ghost xs = items_model(items@);
    let mut i: usize = 0;
    while i < items.len()
        invariant
            xs == items_model(items@),
            i <= items.len(),
            indent + 2 * seq_depth(xs, 0) + 4 <= usize::MAX,
            out@ + seq_items_text(xs, i as int, indent as nat, table@) == old(out)@ + seq_items_text(xs, 0, indent as nat, table@),
        decreases items.len() - i,
    {
        let ghost before = out@;
        proof {
            lemma_seq_depth(xs, 0, i as int);
            vstd::std_specs::vec::axiom_vec_index_decreases(*items, i as int);
        }
        string_push(out, '\n');
        push_indent(out, indent);
        push_block_prefix(out);
        let ghost head = out@;
        let item = &items[i];
        proof { lemma_model_containers(item); }
        match item {
            BorrowedValue::Mapping(pairs) => {
                if pairs.len() > 0 {
                    let ghost ps = pairs_model(pairs@);
                    proof {
                        lemma_pairs_depth(ps, 0, 0);
                        assert(decreases_to!(*items => items@[i as int]));
                        assert(decreases_to!(items@[i as int] => *pairs));
                        vstd::std_specs::vec::axiom_vec_index_decreases(*pairs, 0);
                    }
                    let _ = emit_kv(&pairs[0], indent + 2, table, out);
                    let mut j: usize = 1;
                    while j < pairs.len()
                        invariant
                            ps == pairs_model(pairs@),
                            decreases_to!(*items => *pairs),
                            1 <= j <= pairs.len(),
                            indent + 2 + 2 * pairs_depth(ps, 0) + 4 <= usize::MAX,
                            out@ + map_entries_text(ps, j as int, (indent + 2) as nat, table@)
                                == head + kv_text(ps[0], (indent + 2) as nat, table@) + map_entries_text(ps, 1, (indent + 2) as nat, table@),
                        decreases pairs.len() - j,
                    {
                        let ghost b2 = out@;
                        proof {
                            lemma_pairs_depth(ps, 0, j as int);
                            vstd::std_specs::vec::axiom_vec_index_decreases(*pairs, j as int);
                            assert(decreases_to!(*items => pairs@[j as int]));
                        }
                        string_push(out, '\n');
                        push_indent(out, indent + 2);
                        let _ = emit_kv(&pairs[j], indent + 2, table, out);
                        assert(out@ =~= b2 + seq!['\n'] + spaces((indent + 2) as nat) + kv_text(ps[j as int], (indent + 2) as nat, table@));
                        j = j + 1;
                    }
                    assert(out@ =~= head + seq_item_text(xs[i as int], indent as nat, table@));
                } else {
                    let _ = emit_node(item, indent + 2, table, out);
                }
            },
            _ => {
                let _ = emit_node(item, indent + 2, table, out);
            },
        }
        assert(out@ =~= before + seq!['\n'] + spaces(indent as nat) + seq!['-', ' '] + seq_item_text(xs[i as int], indent as nat, table@));
        i = i + 1;
    }
    Ok(())
}

/// Writes a value at `indent` (see [`node_text`]).
pub fn emit_node(v: &BorrowedValue<'_>, indent: usize, table: &Vec<(u64, String)>, out: &mut String) -> (r: Result<(), Error>)
    requires
        indent + 2 * depth(v.model()) + 2 <= usize::MAX,
    ensures
        r is Ok,
        final(out)@ == old(out)@ + node_text(v.model(), indent as nat, table@),
    decreases v,
{
    proof { lemma_model_containers(v); }
    match v {
        BorrowedValue::Null => {
            emit_null(out);
            proof { reveal_strlit("null"); }
            assert(final(out)@ =~= old(out)@ + node_text(v.model(), indent as nat, table@));
        },
        BorrowedValue::Bool(b) => {
            emit_bool(*b, out);
            proof {
                reveal_strlit("true");
                reveal_strlit("false");
            }
            assert(final(out)@ =~= old(out)@ + node_text(v.model(), indent as nat, table@));
        },
        BorrowedValue::Int(n) => emit_int(n, out),
        BorrowedValue::Float(f) => emit_float(f, table, out),
        BorrowedValue::String(s) => emit_scalar(cow_text(s), indent, out),
        BorrowedValue::Tagged(tag, inner) => {
            out.append(cow_text(tag));
            if is_inline(inner) {
                string_push(out, ' ');
            }
            let _ = emit_node(inner, indent, table, out);
            assert(final(out)@ =~= old(out)@ + node_text(v.model(), indent as nat, table@));
        },
        BorrowedValue::Sequence(items) => {
            let _ = emit_block_seq(items, indent, table, out);
        },
        BorrowedValue::Mapping(pairs) => {
            let _ = emit_block_map(pairs, indent, table, out);
        },
    }
    Ok(())
}

/// The document text the emitter produces for a node: its text at
/// indentation zero, without a leading line break, ending with one.
pub open spec fn emitted(n: Node, table: Seq<(u64, String)>) -> Seq<char> {
    let t = node_text(n, 0, table);
    let u = if t.len() > 0 && t[0] == '\n' { t.drop_first() } else { t };
    if u.len() > 0 && u.last() == '\n' { u } else { u.push('\n') }
}

/// Every document the emitter writes ends with a line break.
pub proof fn emitted_ends_with_a_line_break(n: Node, table: Seq<(u64, String)>)
    ensures
        emitted(n, table).len() > 0,
        emitted(n, table).last() == '\n',
{
}

/// Writes `v` as a YAML document (see [`emitted`]). `table` gives, by bit
/// pattern, the display text of the finite doubles that `v` holds.
pub fn emit(v: &BorrowedValue<'_>, table: &Vec<(u64, String)>) -> (r: Result<String, Error>)
    requires
        2 * depth(v.model()) + 2 <= usize::MAX,
    ensures
        r matches Ok(s) && s@ == emitted(v.model(), table@),
{
    let mut out = String::new();
    let _ = emit_node(v, 0, table, &mut out);
    let chars = str_chars(out.as_str());
    let mut text = String::new();
    let start: usize = if chars.len() > 0 && chars[0] == '\n' { 1 } else { 0 };
    let mut i = start;
    while i < chars.len()
        invariant
            start <= i <= chars.len(),
            text@ == chars@.subrange(start as int, i as int),
        decreases chars.len() - i,
    {
        string_push(&mut text, chars[i]);
        i = i + 1;
        assert(text@ =~= chars@.subrange(start as int, i as int));
    }
    let ends_with_newline = i > start && chars[i - 1] == '\n';
    if !ends_with_newline {
        string_push(&mut text, '\n');
    }
    let ghost t = node_text(v.model(), 0, table@);
    assert(chars@.subrange(start as int, chars.len() as int) =~= if t.len() > 0 && t[0] == '\n' { t.drop_first() } else { t });
    Ok(text)
}

/// The bit patterns of the doubles a node holds, in document order.
pub open spec fn floats_of(n: Node) -> Seq<u64>
    decreases n, 0int,
{
    match n {
        Node::Float(bits) => seq![bits],
        Node::List(xs) => floats_of_items(xs, 0),
        Node::Pairs(ps) => floats_of_pairs(ps, 0),
        Node::Tagged(_, inner) => floats_of(*inner),
        _ => Seq::empty(),
    }
}

pub open spec fn floats_of_items(xs: Seq<Node>, i: int) -> Seq<u64>
    decreases xs, xs.len() - i,
{
    if i < 0 || i >= xs.len() {
        Seq::empty()
    } else {
        floats_of(xs[i]) + floats_of_items(xs, i + 1)
    }
}

pub open spec fn floats_of_pairs(ps: Seq<(Node, Node)>, i: int) -> Seq<u64>
    decreases ps, ps.len() - i,
{
    if i < 0 || i >= ps.len() {
        Seq::empty()
    } else {
        floats_of(ps[i].0) + floats_of(ps[i].1) + floats_of_pairs(ps, i + 1)
    }
}

/// Appends the bit patterns of the doubles `v` holds (see [`floats_of`]):
/// the doubles whose display text [`emit`] needs.
#[verifier::loop_isolation(false)]
pub fn collect_floats(v: &BorrowedValue<'_>, out: &mut Vec<u64>)
    ensures
        final(out)@ == old(out)@ + floats_of(v.model()),
    decreases v,
{
    proof { lemma_model_containers(v); }
    match v {
        BorrowedValue::Float(bits) => {
            out.push(*bits);
            assert(final(out)@ =~= old(out)@ + floats_of(v.model()));
        },
        BorrowedValue::Tagged(_, inner) => collect_floats(inner, out),
        BorrowedValue::Sequence(items) => {
            let ghost xs = items_model(items@);
            let mut i: usize = 0;
            while i < items.len()
                invariant
                    xs == items_model(items@),
                    i <= items.len(),
                    out@ + floats_of_items(xs, i as int) == old(out)@ + floats_of_items(xs, 0),
                decreases items.len() - i,
            {
                proof { vstd::std_specs::vec::axiom_vec_index_decreases(*items, i as int); }
                let ghost before = out@;
                collect_floats(&items[i], out);
                assert(before + floats_of_items(xs, i as int) =~= out@ + floats_of_items(xs, i + 1));
                i = i + 1;
            }
            assert(floats_of_items(xs, items.len() as int) =~= Seq::<u64>::empty());
            assert(final(out)@ =~= old(out)@ + floats_of(v.model()));
        },
        BorrowedValue::Mapping(pairs) => {
            let ghost ps = pairs_model(pairs@);
            let mut i: usize = 0;
            while i < pairs.len()
                invariant
                    ps == pairs_model(pairs@),
                    i <= pairs.len(),
                    out@ + floats_of_pairs(ps, i as int) == old(out)@ + floats_of_pairs(ps, 0),
                decreases pairs.len() - i,
            {
                proof {
                    vstd::std_specs::vec::axiom_vec_index_decreases(*pairs, i as int);
                    assert(decreases_to!(pairs@[i as int] => pairs@[i as int].0));
                    assert(decreases_to!(pairs@[i as int] => pairs@[i as int].1));
                }
                let ghost before = out@;
                collect_floats(&pairs[i].0, out);
                collect_floats(&pairs[i].1, out);
                assert(before + floats_of_pairs(ps, i as int) =~= out@ + floats_of_pairs(ps, i + 1));
                i = i + 1;
            }
            assert(floats_of_pairs(ps, pairs.len() as int) =~= Seq::<u64>::empty());
            assert(final(out)@ =~= old(out)@ + floats_of(v.model()));
        },
        _ => {
            assert(final(out)@ =~= old(out)@ + floats_of(v.model()));
        },
    }
}

/// `n`, or `usize::MAX` when it is larger.
pub open spec fn capped(n: nat) -> nat {
    if n < usize::MAX { n } else { usize::MAX as nat }
}

/// How deeply containers and tags nest in `v` (see [`depth`]), capped at
/// `usize::MAX`: what a caller of [`emit`] checks first.
#[verifier::loop_isolation(false)]
pub fn nesting_depth(v: &BorrowedValue<'_>) -> (r: usize)
    ensures
        r as nat == capped(depth(v.model())),
    decreases v,
{
    proof { lemma_model_containers(v); }
    match v {
        BorrowedValue::Tagged(_, inner) => {
            let d = nesting_depth(inner);
            if d < usize::MAX { d + 1 } else { d }
        },
        BorrowedValue::Sequence(items) => {
            let ghost xs = items_model(items@);
            let mut deepest: usize = 0;
            let mut i: usize = items.len();
            while i > 0
                invariant
                    xs == items_model(items@),
                    i <= items.len(),
                    deepest as nat == capped(seq_depth(xs, i as int)),
                decreases i,
            {
                i = i - 1;
                proof { vstd::std_specs::vec::axiom_vec_index_decreases(*items, i as int); }
                let d = nesting_depth(&items[i]);
                if d > deepest {
                    deepest = d;
                }
            }
            if deepest < usize::MAX { deepest + 1 } else { deepest }
        },
        BorrowedValue::Mapping(pairs) => {
            let ghost ps = pairs_model(pairs@);
            let mut deepest: usize = 0;
            let mut i: usize = pairs.len();
            while i > 0
                invariant
                    ps == pairs_model(pairs@),
                    i <= pairs.len(),
                    deepest as nat == capped(pairs_depth(ps, i as int)),
                decreases i,
            {
                i = i - 1;
                proof {
                    vstd::std_specs::vec::axiom_vec_index_decreases(*pairs, i as int);
                    assert(decreases_to!(pairs@[i as int] => pairs@[i as int].0));
                    assert(decreases_to!(pairs@[i as int] => pairs@[i as int].1));
                }
                let a = nesting_depth(&pairs[i].0);
                let b = nesting_depth(&pairs[i].1);
                if a >= b && a >= deepest {
                    deepest = a;
                } else if b >= deepest {
                    deepest = b;
                }
            }
            if deepest < usize::MAX { deepest + 1 } else { deepest }
        },
        _ => 0,
    }
}

} // verus!
