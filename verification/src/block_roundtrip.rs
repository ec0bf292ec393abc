//! The literal block scalars the emitter writes for multi-line strings read
//! back as the strings they were written for.
use vstd::prelude::*;

use crate::chomping::{lemma_line_end_shift, lemma_skip_spaces_shift};
use crate::emitter::{
    block_body, block_carries, block_header, block_literal, ends_in_blank_lines, line_has_content,
    lines_have_content, spaces, written_as_block,
};
use crate::parser::block_scalar::{
    block_lines, block_scalar, chomp_at, detect_indent, explicit_indent_at, header_end,
    line_indent, line_is_blank, newlines, Chomp,
};
use crate::parser::{
    after_break, char_at, indent_has_tab, is_break, line_end_from, lemma_line_end,
    lemma_skip_spaces, next_line, skip_blanks, skip_spaces,
};
use crate::patterns::{is_ctrl, spec_has_ctrl_chars, spec_has_newline};

verus! {

/// Skipping a run of spaces that ends before a character other than a
/// space, or at the end.
proof fn lemma_skip_spaces_to(x: Seq<char>, a: int, b: int)
    requires
        0 <= a <= b <= x.len(),
        forall|q: int| a <= q < b ==> #[trigger] x[q] == ' ',
        b == x.len() || x[b] != ' ',
    ensures
        skip_spaces(x, a) == b,
    decreases b - a,
{
    if a < b {
        lemma_skip_spaces_to(x, a + 1, b);
    }
}

/// The end of a line whose characters from `a` to `b` are no line breaks,
/// and which ends at `b`.
proof fn lemma_line_end_to(x: Seq<char>, a: int, b: int)
    requires
        0 <= a <= b <= x.len(),
        forall|q: int| a <= q < b ==> !is_break(#[trigger] x[q]),
        b == x.len() || is_break(x[b]),
    ensures
        line_end_from(x, a) == b,
    decreases b - a,
{
    if a < b {
        lemma_line_end_to(x, a + 1, b);
    }
}

/// The part of a line from `k` to its end `e`, written in a literal block
/// after the line's padding, comes out as it stands.
proof fn lemma_body_line(x: Seq<char>, pad: Seq<char>, k: int, e: int)
    requires
        0 <= k <= e <= x.len(),
        forall|q: int| k <= q < e ==> #[trigger] x[q] != '\n',
        e == x.len() || x[e] == '\n',
    ensures
        block_body(x.skip(k), pad, false) == x.subrange(k, e) + block_body(x.skip(e), pad, true),
    decreases e - k,
{
    if k < e {
        assert(x.skip(k).drop_first() =~= x.skip(k + 1));
        assert(x.skip(k)[0] == x[k]);
        lemma_body_line(x, pad, k + 1, e);
        assert(x.subrange(k, e) =~= seq![x[k]] + x.subrange(k + 1, e));
    } else {
        if e < x.len() {
            assert(x.skip(e)[0] == '\n');
        } else {
            assert(x.skip(e).len() == 0);
        }
        assert(x.subrange(k, e) =~= Seq::<char>::empty());
    }
}

/// The first line of `r` ends a block scalar whose content is indented by
/// `p`: there is none, or it is indented less, holds content, and no tab
/// follows its indentation.
pub open spec fn ends_block_at(r: Seq<char>, p: nat) -> bool {
    r.len() == 0 || (!indent_has_tab(r, 0) && !line_is_blank(r, 0) && skip_spaces(r, 0) < p)
}

/// What follows the literal block written for `s` ends it: nothing, or a
/// line that ends it, after a line break when `s` has no final line break
/// and after at most one empty line when it has one (as where the emitter
/// starts the next entry on a line of its own).
pub open spec fn follows_block(s: Seq<char>, rest: Seq<char>, p: nat) -> bool {
    if s.last() == '\n' {
        ends_block_at(rest, p) || (rest.len() > 0 && rest[0] == '\n' && ends_block_at(rest.drop_first(), p))
    } else {
        rest.len() == 0 || (rest[0] == '\n' && ends_block_at(rest.drop_first(), p))
    }
}

/// Where the scanner stops after a literal block for `s` followed by
/// `rest` in a text of length `n`.
pub open spec fn block_read_end(s: Seq<char>, rest: Seq<char>, n: int) -> int {
    n - rest.len() + if rest.len() > 0 && (s.last() != '\n' || rest[0] == '\n') { 1int } else { 0int }
}

/// An empty line follows a literal block written for `s` that ends in a
/// line break.
pub open spec fn blank_after(s: Seq<char>, rest: Seq<char>) -> bool {
    s.last() == '\n' && rest.len() > 0 && rest[0] == '\n'
}

/// The state of reading the lines of a literal block written for `s`, at
/// the line of `s` at `k` and index `pos` of the text `t`: what is left of
/// `t` is the rest of the block and then `rest`, and the lines gathered so
/// far are the first `k` characters of `s` but for their trailing line
/// breaks, `pending` blank lines among them.
pub open spec fn literal_reading(
    t: Seq<char>,
    s: Seq<char>,
    p: nat,
    k: int,
    pos: int,
    buf: Seq<char>,
    pending: nat,
    rest: Seq<char>,
) -> bool {
    &&& p >= 1
    &&& s.len() > 0
    &&& s[0] != '\n'
    &&& !spec_has_ctrl_chars(s)
    &&& lines_have_content(s)
    &&& follows_block(s, rest, p)
    &&& 0 <= k <= s.len()
    &&& (k == 0 || s[k - 1] == '\n')
    &&& 0 <= pos <= t.len()
    &&& t.skip(pos) == block_body(s.skip(k), spaces(p), true) + rest
    &&& (k == 0 ==> buf.len() == 0 && pending == 0)
    &&& (k > 0 ==> s.take(k) == buf + newlines(pending + 1))
    &&& (k > 0 ==> buf.len() > 0 && buf.last() != '\n')
}

/// The number of line breaks that end `s`.
pub open spec fn trailing_breaks(s: Seq<char>) -> nat
    decreases s.len(),
{
    if s.len() > 0 && s.last() == '\n' { 1 + trailing_breaks(s.drop_last()) } else { 0 }
}

/// `s` without the line breaks that end it.
pub open spec fn without_final_breaks(s: Seq<char>) -> Seq<char> {
    s.take(s.len() - trailing_breaks(s))
}

/// `s` is the text before its final line breaks, then those breaks.
proof fn lemma_final_breaks(s: Seq<char>)
    ensures
        trailing_breaks(s) <= s.len(),
        s == without_final_breaks(s) + newlines(trailing_breaks(s)),
        trailing_breaks(s) < s.len() ==> s[s.len() - trailing_breaks(s) - 1] != '\n',
    decreases s.len(),
{
    if s.len() > 0 && s.last() == '\n' {
        let d = s.drop_last();
        lemma_final_breaks(d);
        assert(s.take(s.len() - trailing_breaks(s)) =~= d.take(d.len() - trailing_breaks(d)));
        assert(newlines(trailing_breaks(s)) =~= newlines(trailing_breaks(d)).push('\n'));
        assert(s =~= d.push('\n'));
        if trailing_breaks(s) < s.len() {
            assert(s[s.len() - trailing_breaks(s) - 1] == d[d.len() - trailing_breaks(d) - 1]);
        }
    } else {
        assert(s.take(s.len() as int) =~= s);
        assert(newlines(0) =~= Seq::<char>::empty());
    }
}

/// Text that ends in a character other than a line break, then `n` line
/// breaks.
proof fn lemma_breaks_after(buf: Seq<char>, n: nat)
    requires
        buf.len() > 0,
        buf.last() != '\n',
    ensures
        trailing_breaks(buf + newlines(n)) == n,
        without_final_breaks(buf + newlines(n)) == buf,
    decreases n,
{
    let x = buf + newlines(n);
    if n == 0 {
        assert(x =~= buf);
        assert(buf.take(buf.len() as int) =~= buf);
    } else {
        lemma_breaks_after(buf, (n - 1) as nat);
        assert(x.drop_last() =~= buf + newlines((n - 1) as nat));
        assert(x.last() == '\n');
        assert(x.take(x.len() - n) =~= buf);
    }
}

/// What reading a literal block written for `s` and followed by `rest`
/// gives: `s` but for its final line breaks, as pending blank lines all of
/// them but the first (and one more for an empty line after the block),
/// and the index where reading stops.
pub open spec fn literal_result(t: Seq<char>, s: Seq<char>, rest: Seq<char>) -> Result<(Seq<char>, nat, int), ()> {
    Ok((
        without_final_breaks(s),
        if trailing_breaks(s) > 0 {
            (trailing_breaks(s) - 1 + if blank_after(s, rest) { 1int } else { 0int }) as nat
        } else {
            0nat
        },
        block_read_end(s, rest, t.len() as int),
    ))
}

proof fn lemma_literal_lines(
    t: Seq<char>,
    s: Seq<char>,
    p: nat,
    k: int,
    pos: int,
    buf: Seq<char>,
    pending: nat,
    pm: bool,
    rest: Seq<char>,
)
    requires
        literal_reading(t, s, p, k, pos, buf, pending, rest),
    ensures
        block_lines(t, pos, p, false, buf, pending, k == 0, pm) == literal_result(t, s, rest),
    decreases s.len() - k, 1int,
{
    if k == s.len() {
        lemma_literal_end(t, s, p, k, pos, buf, pending, pm, rest);
    } else if s[k] == '\n' {
        lemma_literal_blank(t, s, p, k, pos, buf, pending, pm, rest);
    } else {
        lemma_literal_content(t, s, p, k, pos, buf, pending, pm, rest);
    }
}

/// After the last line of the block.
proof fn lemma_literal_end(
    t: Seq<char>,
    s: Seq<char>,
    p: nat,
    k: int,
    pos: int,
    buf: Seq<char>,
    pending: nat,
    pm: bool,
    rest: Seq<char>,
)
    requires
        literal_reading(t, s, p, k, pos, buf, pending, rest),
        k == s.len(),
    ensures
        block_lines(t, pos, p, false, buf, pending, k == 0, pm) == literal_result(t, s, rest),
{
    let pad = spaces(p);
    let x = t.skip(pos);
    assert(t.len() == pos + x.len());
    assert(s.take(k) =~= s);
    assert(block_body(s.skip(k), pad, true) =~= Seq::<char>::empty()) by {
        assert(s.skip(k).len() == 0);
    }
    assert(x =~= rest);
    assert(s.last() == '\n');
    lemma_breaks_after(buf, pending + 1);
    assert(trailing_breaks(s) == pending + 1);
    assert(without_final_breaks(s) == buf);
    if blank_after(s, rest) {
        assert(t[pos] == '\n');
        lemma_skip_spaces_to(t, pos, pos);
        assert(!indent_has_tab(t, pos));
        assert(line_is_blank(t, pos));
        lemma_line_end_to(t, pos, pos);
        assert(next_line(t, pos) == pos + 1);
        let r2 = rest.drop_first();
        assert(ends_block_at(r2, p));
        assert(t.skip(pos + 1) =~= r2);
        if pos + 1 < t.len() {
            lemma_skip_spaces_shift(t, pos + 1, r2, 0);
            lemma_skip_spaces(r2, 0);
            assert(char_at(t, skip_spaces(t, pos + 1)) == char_at(r2, skip_spaces(r2, 0)));
        }
        assert(k != 0);
        assert(block_lines(t, pos + 1, p, false, buf, pending + 1, false, pm) == Ok::<(Seq<char>, nat, int), ()>((buf, pending + 1, pos + 1)));
        assert(block_lines(t, pos, p, false, buf, pending, k == 0, pm) == block_lines(t, pos + 1, p, false, buf, pending + 1, false, pm));
    } else if pos < t.len() {
        lemma_skip_spaces_shift(t, pos, rest, 0);
        lemma_skip_spaces(rest, 0);
        assert(char_at(t, skip_spaces(t, pos)) == char_at(rest, skip_spaces(rest, 0)));
    }
}

/// An empty line of `s`: a blank line of the block.
proof fn lemma_literal_blank(
    t: Seq<char>,
    s: Seq<char>,
    p: nat,
    k: int,
    pos: int,
    buf: Seq<char>,
    pending: nat,
    pm: bool,
    rest: Seq<char>,
)
    requires
        literal_reading(t, s, p, k, pos, buf, pending, rest),
        k < s.len(),
        s[k] == '\n',
    ensures
        block_lines(t, pos, p, false, buf, pending, k == 0, pm) == literal_result(t, s, rest),
    decreases s.len() - k, 0int,
{
    let pad = spaces(p);
    let x = t.skip(pos);
    assert(t.len() == pos + x.len());
    assert(k > 0);
    let y = block_body(s.skip(k + 1), pad, true);
    assert(s.skip(k)[0] == '\n');
    assert(s.skip(k).drop_first() =~= s.skip(k + 1));
    assert(block_body(s.skip(k), pad, true) == seq!['\n'] + y);
    assert(x[0] == '\n');
    assert(t[pos] == '\n');
    lemma_skip_spaces_to(t, pos, pos);
    assert(!indent_has_tab(t, pos));
    assert(line_is_blank(t, pos));
    lemma_line_end_to(t, pos, pos);
    assert(next_line(t, pos) == pos + 1);
    assert(t.skip(pos + 1) =~= y + rest) by {
        assert forall|q: int| 0 <= q < t.skip(pos + 1).len() implies t.skip(pos + 1)[q] == (y + rest)[q] by {
            assert(t.skip(pos + 1)[q] == x[q + 1]);
            assert((seq!['\n'] + y + rest)[q + 1] == (y + rest)[q]);
        }
    }
    assert(s.take(k + 1) =~= buf + newlines(pending + 2)) by {
        assert(s.take(k + 1) =~= s.take(k).push('\n'));
        assert(newlines(pending + 2) =~= newlines(pending + 1).push('\n'));
    }
    lemma_literal_lines(t, s, p, k + 1, pos + 1, buf, pending + 1, pm, rest);
}

/// A content line behind its padding: its indentation ends after the
/// padding and the line's own leading spaces, and the line ends where its
/// characters do.
proof fn lemma_padded_line(x: Seq<char>, p: nat, l: Seq<char>, tail: Seq<char>, lead: int)
    requires
        x == spaces(p) + l + tail,
        0 <= lead < l.len(),
        forall|q: int| 0 <= q < lead ==> #[trigger] l[q] == ' ',
        l[lead] != ' ',
        forall|q: int| 0 <= q < l.len() ==> !is_break(#[trigger] l[q]),
        tail.len() == 0 || is_break(tail[0]),
    ensures
        skip_spaces(x, 0) == p + lead,
        x[p + lead] == l[lead],
        line_end_from(x, p as int) == p + l.len(),
        x.subrange(p as int, (p + l.len()) as int) == l,
{
    let pl = p as int;
    assert forall|q: int| 0 <= q < pl + lead implies #[trigger] x[q] == ' ' by {
        if q < pl {
            assert(x[q] == spaces(p)[q]);
        } else {
            assert(x[q] == l[q - pl]);
        }
    }
    assert(x[pl + lead] == l[lead]);
    lemma_skip_spaces_to(x, 0, pl + lead);
    assert forall|q: int| pl <= q < pl + l.len() implies !is_break(#[trigger] x[q]) by {
        assert(x[q] == l[q - pl]);
    }
    if pl + l.len() < x.len() {
        assert(x[pl + l.len()] == tail[0]);
    }
    lemma_line_end_to(x, pl, pl + l.len());
    assert(x.subrange(pl, pl + l.len()) =~= l);
}

/// The line of `s` at `k`, which is not empty: it ends at `e` (a line feed
/// or the end of `s`), and its leading spaces end at `j`, before `e`, on a
/// character that is no tab.
proof fn lemma_content_line(s: Seq<char>, k: int) -> (r: (int, int))
    requires
        0 <= k < s.len(),
        k == 0 || s[k - 1] == '\n',
        s[k] != '\n',
        !spec_has_ctrl_chars(s),
        lines_have_content(s),
    ensures
        k <= r.1 < r.0 <= s.len(),
        r.0 == line_end_from(s, k),
        r.0 < s.len() ==> s[r.0] == '\n',
        forall|q: int| k <= q < r.0 ==> #[trigger] s[q] != '\n' && !is_break(s[q]),
        forall|q: int| k <= q < r.1 ==> #[trigger] s[q] == ' ',
        s[r.1] != ' ' && s[r.1] != '\t',
{
    lemma_line_end(s, k);
    let e = line_end_from(s, k);
    if e < s.len() {
        assert(is_break(s[e]));
        if s[e] == '\r' {
            assert(is_ctrl(s[e]));
            assert(spec_has_ctrl_chars(s));
        }
    }
    assert(line_has_content(s, k));
    lemma_skip_spaces(s, k);
    let j = skip_spaces(s, k);
    if s[j] == '\r' {
        assert(is_ctrl(s[j]));
        assert(spec_has_ctrl_chars(s));
    }
    if e <= j {
        if e < j {
            assert(s[e] == ' ');
        }
    }
    (e, j)
}

/// The block body for the lines of `s` from `k`, a line with content that
/// ends at `e`: the padding, the line, then the body for what follows.
proof fn lemma_body_content(s: Seq<char>, pad: Seq<char>, k: int, e: int)
    requires
        0 <= k < e <= s.len(),
        forall|q: int| k <= q < e ==> #[trigger] s[q] != '\n',
        e == s.len() || s[e] == '\n',
    ensures
        block_body(s.skip(k), pad, true) == pad + s.subrange(k, e) + block_body(s.skip(e), pad, true),
{
    lemma_body_line(s, pad, k + 1, e);
    assert(s.skip(k)[0] == s[k]);
    assert(s.skip(k).drop_first() =~= s.skip(k + 1));
    assert(s.subrange(k, e) =~= seq![s[k]] + s.subrange(k + 1, e));
    assert(block_body(s.skip(k), pad, true) =~= pad + s.subrange(k, e) + block_body(s.skip(e), pad, true));
}

/// A line of `s` with content: a content line of the block.
#[verifier::rlimit(40)]
proof fn lemma_literal_content(
    t: Seq<char>,
    s: Seq<char>,
    p: nat,
    k: int,
    pos: int,
    buf: Seq<char>,
    pending: nat,
    pm: bool,
    rest: Seq<char>,
)
    requires
        literal_reading(t, s, p, k, pos, buf, pending, rest),
        k < s.len(),
        s[k] != '\n',
    ensures
        block_lines(t, pos, p, false, buf, pending, k == 0, pm) == literal_result(t, s, rest),
    decreases s.len() - k, 0int,
{
    let pad = spaces(p);
    let x = t.skip(pos);
    assert(t.len() == pos + x.len());
    let (e, j) = lemma_content_line(s, k);
    let l = s.subrange(k, e);
    let y = block_body(s.skip(e), pad, true);
    lemma_body_content(s, pad, k, e);
    assert(x == pad + l + y + rest);
    let tail = y + rest;
    assert(tail.len() == 0 || is_break(tail[0])) by {
        if e < s.len() {
            assert(s.skip(e)[0] == '\n');
            assert(s.skip(e).drop_first() =~= s.skip(e + 1));
            assert(y[0] == '\n');
        } else {
            assert(s.skip(e).len() == 0);
            assert(y.len() == 0);
            assert(s.last() != '\n');
        }
    }
    assert(x =~= pad + l + tail);
    assert forall|q: int| 0 <= q < j - k implies #[trigger] l[q] == ' ' by {
        assert(l[q] == s[k + q]);
    }
    assert forall|q: int| 0 <= q < l.len() implies !is_break(#[trigger] l[q]) by {
        assert(l[q] == s[k + q]);
    }
    lemma_padded_line(x, p, l, tail, j - k);
    lemma_skip_spaces_shift(t, pos, x, 0);
    lemma_line_end_shift(t, pos, x, p as int);
    let pl = p as int;
    let lead = pl + (j - k);
    let cstart = pos + pl;
    let cend = pos + pl + l.len();
    assert(skip_spaces(t, pos) == pos + lead);
    assert(t[pos + lead] == x[lead]);
    assert(!indent_has_tab(t, pos));
    assert(!line_is_blank(t, pos));
    assert(line_end_from(t, cstart) == cend);
    assert(t.subrange(cstart, cend) =~= x.subrange(pl, pl + l.len()));
    let this_more = lead > pl;
    let sep = crate::parser::block_scalar::line_separator(false, k == 0, pending, pm, this_more);
    let line = buf + sep + l;
    assert(line =~= s.take(e)) by {
        if k == 0 {
            assert(sep =~= Seq::<char>::empty());
            assert(l =~= s.take(e));
        } else {
            assert(sep == newlines(pending + 1));
            assert(s.take(e) =~= s.take(k) + l);
        }
    }
    assert(t.skip(cend) =~= tail) by {
        assert forall|q: int| 0 <= q < t.skip(cend).len() implies t.skip(cend)[q] == tail[q] by {
            assert(t.skip(cend)[q] == x[pl + l.len() + q]);
            assert((pad + l + tail)[pl + l.len() + q] == tail[q]);
        }
    }
    assert(s[e - 1] == l[l.len() - 1]);
    lemma_literal_after_content(t, s, p, e, pos, cend, line, this_more, rest);
}

/// After a content line of `s` that ends at `e`, at index `cend` of `t`.
#[verifier::rlimit(40)]
proof fn lemma_literal_after_content(
    t: Seq<char>,
    s: Seq<char>,
    p: nat,
    e: int,
    pos: int,
    cend: int,
    line: Seq<char>,
    this_more: bool,
    rest: Seq<char>,
)
    requires
        p >= 1,
        s.len() > 0,
        s[0] != '\n',
        !spec_has_ctrl_chars(s),
        lines_have_content(s),
        follows_block(s, rest, p),
        0 < e <= s.len(),
        s[e - 1] != '\n',
        e < s.len() ==> s[e] == '\n',
        e == s.len() ==> s.last() != '\n',
        0 <= pos < cend <= t.len(),
        t.skip(cend) == block_body(s.skip(e), spaces(p), true) + rest,
        line == s.take(e),
    ensures
        pos < after_break(t, cend) <= t.len(),
        block_lines(t, after_break(t, cend), p, false, line, 0, false, this_more) == literal_result(t, s, rest),
    decreases s.len() - e, 2int,
{
    let pad = spaces(p);
    let y = block_body(s.skip(e), pad, true);
    let w = t.skip(cend);
    assert(t.len() == cend + w.len());
    let nxt = after_break(t, cend);
    if e < s.len() {
        assert(s.skip(e)[0] == '\n');
        assert(s.skip(e).drop_first() =~= s.skip(e + 1));
        let y2 = block_body(s.skip(e + 1), pad, true);
        assert(y == seq!['\n'] + y2);
        assert(w[0] == '\n');
        assert(t[cend] == '\n');
        assert(nxt == cend + 1);
        assert(t.skip(nxt) =~= y2 + rest) by {
            assert forall|q: int| 0 <= q < t.skip(nxt).len() implies t.skip(nxt)[q] == (y2 + rest)[q] by {
                assert(t.skip(nxt)[q] == w[1 + q]);
                assert((seq!['\n'] + y2 + rest)[1 + q] == (y2 + rest)[q]);
            }
        }
        assert(s.take(e + 1) =~= line + newlines(1)) by {
            assert(newlines(1) =~= seq!['\n']);
            assert(s.take(e + 1) =~= s.take(e).push('\n'));
        }
        lemma_literal_lines(t, s, p, e + 1, nxt, line, 0, this_more, rest);
    } else {
        assert(s.take(e) =~= s);
        assert(trailing_breaks(s) == 0);
        assert(without_final_breaks(s) =~= s);
        assert(s.skip(e).len() == 0);
        assert(y.len() == 0);
        assert(w =~= rest);
        if rest.len() == 0 {
            assert(nxt == cend);
        } else {
            assert(rest[0] == '\n');
            assert(t[cend] == '\n');
            assert(nxt == cend + 1);
            let r2 = rest.drop_first();
            assert(t.skip(nxt) =~= r2) by {
                assert forall|q: int| 0 <= q < t.skip(nxt).len() implies t.skip(nxt)[q] == r2[q] by {
                    assert(t.skip(nxt)[q] == w[1 + q]);
                }
            }
            if nxt < t.len() {
                lemma_skip_spaces_shift(t, nxt, r2, 0);
                lemma_skip_spaces(r2, 0);
                assert(char_at(t, skip_spaces(t, nxt)) == char_at(r2, skip_spaces(r2, 0)));
            }
        }
    }
}
/// Every multi-line string without control characters whose lines a
/// literal block carries (see [`block_carries`]) reads back unchanged from
/// the block `emit_block_scalar` writes for it (`|`, `|-` without a final
/// line break, `|+` with more than one), where the line holding the
/// indicator is indented less than the block's content and what follows
/// the block ends it; after a `|+` block that must come at once, as a kept
/// block also keeps an empty line after it. This covers every string the
/// emitter writes as a block (see [`written_as_block`]).
pub proof fn literal_block_reads_back(pre: Seq<char>, s: Seq<char>, rest: Seq<char>, indent: nat)
    requires
        s.len() > 0,
        spec_has_newline(s),
        !spec_has_ctrl_chars(s),
        block_carries(s),
        ends_in_blank_lines(s) ==> !blank_after(s, rest),
        line_indent(pre + block_literal(s, indent) + rest, pre.len() as int) < indent + 2,
        follows_block(s, rest, indent + 2),
    ensures
        ({
            let t = pre + block_literal(s, indent) + rest;
            block_scalar(t, pre.len() as int) == Ok::<(Seq<char>, int), ()>((s, block_read_end(s, rest, t.len() as int)))
        }),
{
    let p = (indent + 2) as nat;
    let pad = spaces(p);
    let lit = block_literal(s, indent);
    let t = pre + lit + rest;
    let i = pre.len() as int;
    let header = block_header(s);
    let body = block_body(s, pad, true);
    assert(lit == header + seq!['\n'] + body);
    let hl = header.len() as int;
    assert(t[i] == '|');
    let k1 = i + 1 + (if s.last() == '\n' && !ends_in_blank_lines(s) { 0int } else { 1int });
    if ends_in_blank_lines(s) {
        assert(t[i + 1] == '+');
        assert(t[i + 2] == '\n');
        assert(chomp_at(t, i + 1) == (Chomp::Keep, i + 2));
    } else if s.last() == '\n' {
        assert(t[i + 1] == '\n');
        assert(chomp_at(t, i + 1) == (Chomp::Clip, i + 1));
    } else {
        assert(t[i + 1] == '-');
        assert(t[i + 2] == '\n');
        assert(chomp_at(t, i + 1) == (Chomp::Strip, i + 2));
    }
    assert(t[k1] == '\n');
    assert(explicit_indent_at(t, k1) == (None::<nat>, k1));
    lemma_skip_spaces_to(t, k1, k1);
    assert(skip_blanks(t, k1) == k1);
    let b = k1 + 1;
    assert(header_end(t, k1) == b);
    assert(t.skip(b) =~= body + rest);
    // The first line of `s` opens the body: its indentation is the padding.
    assert(s.skip(0) =~= s);
    let (e0, j0) = lemma_content_line(s, 0);
    assert(j0 == 0) by {
        lemma_skip_spaces(s, 0);
    }
    let l0 = s.subrange(0, e0);
    lemma_body_content(s, pad, 0, e0);
    let y0 = block_body(s.skip(e0), pad, true);
    let tail0 = y0 + rest;
    assert(tail0.len() == 0 || is_break(tail0[0])) by {
        if e0 < s.len() {
            assert(s.skip(e0)[0] == '\n');
            assert(s.skip(e0).drop_first() =~= s.skip(e0 + 1));
            assert(y0[0] == '\n');
        } else {
            assert(s.skip(e0).len() == 0);
            assert(s.last() != '\n');
        }
    }
    assert(t.skip(b) =~= pad + l0 + tail0);
    assert forall|q: int| 0 <= q < l0.len() implies !is_break(#[trigger] l0[q]) by {
        assert(l0[q] == s[q]);
    }
    assert(l0[0] == s[0]);
    lemma_padded_line(t.skip(b), p, l0, tail0, 0);
    lemma_skip_spaces_shift(t, b, t.skip(b), 0);
    assert(skip_spaces(t, b) == b + p);
    assert(t[b + p] == s[0]);
    assert(!indent_has_tab(t, b));
    assert(!line_is_blank(t, b));
    let owning = line_indent(t, i);
    crate::parser::block_scalar::lemma_line_start(t, i);
    lemma_skip_spaces(t, crate::parser::block_scalar::line_start(t, i));
    assert(owning >= 0);
    assert(b + p < t.len());
    assert(skip_spaces(t, b) - b == p);
    assert(owning < p);
    assert(!(skip_spaces(t, b) - b < ((owning + 1) as nat)));
    assert(detect_indent(t, b, (owning + 1) as nat) == Ok::<nat, ()>(p));
    assert(literal_reading(t, s, p, 0, b, Seq::empty(), 0, rest));
    lemma_literal_lines(t, s, p, 0, b, Seq::empty(), 0, false, rest);
    lemma_final_breaks(s);
    let core = without_final_breaks(s);
    let n = trailing_breaks(s);
    assert(core.len() > 0) by {
        if core.len() == 0 {
            assert(s[0] == newlines(n)[0]);
        }
    }
    if n == 0 {
        assert(core =~= s);
    } else if n == 1 {
        assert(core.push('\n') =~= s);
    } else {
        assert(s[s.len() - 1] == newlines(n)[n - 1]);
        assert(s[s.len() - 2] == newlines(n)[n - 2]);
        assert(ends_in_blank_lines(s));
        assert(core.push('\n') + newlines((n - 1) as nat) =~= s);
    }
    if s.last() == '\n' {
        assert(n > 0);
    } else {
        assert(n == 0);
    }
    if ends_in_blank_lines(s) {
        assert(n >= 2) by {
            assert(s.drop_last().last() == '\n');
        }
    } else if s.last() == '\n' {
        assert(n == 1) by {
            assert(s.drop_last().len() > 0 && s.drop_last().last() != '\n');
        }
    }
}

} // verus!
