//! The chomping indicators of one block scalar: with the same header and
//! body, `-`, no indicator and `+` read the same lines and differ only in
//! the trailing line breaks they keep.
use vstd::prelude::*;

use crate::parser::block_scalar::{
    block_lines, block_scalar, chomp_at, chomped, detect_indent, explicit_indent_at, header_end,
    line_indent, line_is_blank, line_start, open_ended, strip_drops_every_trailing_break,
    Chomp,
};
use crate::parser::{
    after_break, char_at, indent_has_tab, is_break, lemma_line_end, lemma_skip_spaces,
    line_end_from, next_line, skip_blanks, skip_spaces,
};

verus! {

/// Where `t` holds `x` from `pos` on, reading characters of `t` from
/// `pos + q` is reading those of `x` from `q`.
proof fn lemma_char_shift(t: Seq<char>, pos: int, x: Seq<char>, q: int)
    requires
        0 <= pos <= t.len(),
        t.skip(pos) == x,
        0 <= q,
    ensures
        char_at(t, pos + q) == char_at(x, q),
{
    if q < x.len() {
        assert(t[pos + q] == x[q]);
    }
}

/// Where `t` holds `x` from `pos` on, skipping spaces in `t` from `pos + q`
/// is skipping them in `x` from `q`.
pub(crate) proof fn lemma_skip_spaces_shift(t: Seq<char>, pos: int, x: Seq<char>, q: int)
    requires
        0 <= pos <= t.len(),
        t.skip(pos) == x,
        0 <= q <= x.len(),
    ensures
        skip_spaces(t, pos + q) == pos + skip_spaces(x, q),
    decreases x.len() - q,
{
    if q < x.len() {
        assert(t[pos + q] == x[q]);
        if x[q] == ' ' {
            lemma_skip_spaces_shift(t, pos, x, q + 1);
        }
    }
}

proof fn lemma_skip_blanks_shift(t: Seq<char>, pos: int, x: Seq<char>, q: int)
    requires
        0 <= pos <= t.len(),
        t.skip(pos) == x,
        0 <= q <= x.len(),
    ensures
        skip_blanks(t, pos + q) == pos + skip_blanks(x, q),
        q <= skip_blanks(x, q) <= x.len(),
    decreases x.len() - q,
{
    if q < x.len() {
        assert(t[pos + q] == x[q]);
        if x[q] == ' ' || x[q] == '\t' {
            lemma_skip_blanks_shift(t, pos, x, q + 1);
        }
    }
}

/// Where `t` holds `x` from `pos` on, the end of a line in `t` from
/// `pos + q` is its end in `x` from `q`.
pub(crate) proof fn lemma_line_end_shift(t: Seq<char>, pos: int, x: Seq<char>, q: int)
    requires
        0 <= pos <= t.len(),
        t.skip(pos) == x,
        0 <= q <= x.len(),
    ensures
        line_end_from(t, pos + q) == pos + line_end_from(x, q),
    decreases x.len() - q,
{
    if q < x.len() {
        assert(t[pos + q] == x[q]);
        if !is_break(x[q]) {
            lemma_line_end_shift(t, pos, x, q + 1);
        }
    }
}

proof fn lemma_after_break_shift(t: Seq<char>, pos: int, x: Seq<char>, q: int)
    requires
        0 <= pos <= t.len(),
        t.skip(pos) == x,
        0 <= q <= x.len(),
    ensures
        after_break(t, pos + q) == pos + after_break(x, q),
{
    lemma_char_shift(t, pos, x, q);
    lemma_char_shift(t, pos, x, q + 1);
}

/// The line at `pos + q` of `t` is the line at `q` of `x`, shifted.
proof fn lemma_line_shift(t: Seq<char>, pos: int, x: Seq<char>, q: int)
    requires
        0 <= pos <= t.len(),
        t.skip(pos) == x,
        0 <= q <= x.len(),
    ensures
        skip_spaces(t, pos + q) == pos + skip_spaces(x, q),
        q <= skip_spaces(x, q) <= x.len(),
        indent_has_tab(t, pos + q) == indent_has_tab(x, q),
        line_is_blank(t, pos + q) == line_is_blank(x, q),
        next_line(t, pos + q) == pos + next_line(x, q),
{
    lemma_skip_spaces_shift(t, pos, x, q);
    lemma_skip_spaces(x, q);
    lemma_char_shift(t, pos, x, skip_spaces(x, q));
    lemma_line_end_shift(t, pos, x, q);
    lemma_line_end(x, q);
    lemma_after_break_shift(t, pos, x, line_end_from(x, q));
}

/// Reading the lines of a block body from `pos + q` in `t` is reading them
/// from `q` in `x`; only the index where reading stops is shifted.
proof fn lemma_block_lines_shift(
    t: Seq<char>,
    pos: int,
    x: Seq<char>,
    q: int,
    ci: nat,
    folded: bool,
    buf: Seq<char>,
    pending: nat,
    first: bool,
    prev_more: bool,
)
    requires
        0 <= pos <= t.len(),
        t.skip(pos) == x,
        0 <= q <= x.len(),
    ensures
        match block_lines(x, q, ci, folded, buf, pending, first, prev_more) {
            Ok((b, p, e)) => block_lines(t, pos + q, ci, folded, buf, pending, first, prev_more) == Ok::<
                (Seq<char>, nat, int),
                (),
            >((b, p, pos + e)),
            Err(()) => block_lines(t, pos + q, ci, folded, buf, pending, first, prev_more) is Err,
        },
    decreases x.len() - q,
{
    if q < x.len() {
        lemma_line_shift(t, pos, x, q);
        if !indent_has_tab(x, q) {
            if line_is_blank(x, q) {
                let j = next_line(x, q);
                if q < j <= x.len() {
                    lemma_block_lines_shift(t, pos, x, j, ci, folded, buf, if first { pending } else { pending + 1 }, first, prev_more);
                }
            } else if skip_spaces(x, q) - q >= ci {
                let lead = skip_spaces(x, q) - q;
                let this_more = lead > ci;
                let cstart = q + ci;
                lemma_line_end_shift(t, pos, x, cstart);
                lemma_line_end(x, cstart);
                let cend = line_end_from(x, cstart);
                lemma_after_break_shift(t, pos, x, cend);
                let j = after_break(x, cend);
                assert(t.subrange(pos + cstart, pos + cend) =~= x.subrange(cstart, cend)) by {
                    assert forall|k: int| 0 <= k < cend - cstart implies t.subrange(pos + cstart, pos + cend)[k] == x.subrange(cstart, cend)[k] by {
                        assert(t[pos + cstart + k] == x[cstart + k]);
                    }
                }
                let line = buf + crate::parser::block_scalar::line_separator(folded, first, pending, prev_more, this_more) + x.subrange(cstart, cend);
                if q < j <= x.len() {
                    lemma_block_lines_shift(t, pos, x, j, ci, folded, line, 0, false, this_more);
                }
            }
        }
    }
}

/// Detecting a block body's indentation from `pos + q` in `t` is detecting
/// it from `q` in `x`.
proof fn lemma_detect_indent_shift(t: Seq<char>, pos: int, x: Seq<char>, q: int, min: nat)
    requires
        0 <= pos <= t.len(),
        t.skip(pos) == x,
        0 <= q <= x.len(),
    ensures
        detect_indent(t, pos + q, min) == detect_indent(x, q, min),
    decreases x.len() - q,
{
    if q < x.len() {
        lemma_line_shift(t, pos, x, q);
        if !indent_has_tab(x, q) && line_is_blank(x, q) {
            let j = next_line(x, q);
            if q < j <= x.len() {
                lemma_detect_indent_shift(t, pos, x, j, min);
            }
        }
    }
}

/// The header read from `pos` in `t` (an explicit indentation, blanks, a
/// comment, a line break) is the header read from the start of `x`.
proof fn lemma_header_shift(t: Seq<char>, pos: int, x: Seq<char>)
    requires
        0 <= pos <= t.len(),
        t.skip(pos) == x,
    ensures
        explicit_indent_at(t, pos).0 == explicit_indent_at(x, 0).0,
        explicit_indent_at(t, pos).1 == pos + explicit_indent_at(x, 0).1,
        0 <= explicit_indent_at(x, 0).1 <= x.len(),
        header_end(t, explicit_indent_at(t, pos).1) == pos + header_end(x, explicit_indent_at(x, 0).1),
        0 <= header_end(x, explicit_indent_at(x, 0).1) <= x.len(),
{
    lemma_char_shift(t, pos, x, 0);
    let k = explicit_indent_at(x, 0).1;
    lemma_skip_blanks_shift(t, pos, x, k);
    let b = skip_blanks(x, k);
    lemma_char_shift(t, pos, x, b);
    lemma_line_end_shift(t, pos, x, b);
    lemma_line_end(x, b);
    let c = if char_at(x, b) == Some('#') { line_end_from(x, b) } else { b };
    lemma_after_break_shift(t, pos, x, c);
}

/// Two texts that agree up to and including `i`, where a character other
/// than a space stands, give the line holding `i` the same indentation.
proof fn lemma_line_indent_prefix(s1: Seq<char>, s2: Seq<char>, i: int)
    requires
        0 <= i < s1.len(),
        i < s2.len(),
        s1.take(i + 1) == s2.take(i + 1),
        s1[i] != ' ',
    ensures
        line_indent(s1, i) == line_indent(s2, i),
{
    lemma_line_start_prefix(s1, s2, i);
    let ls = line_start(s1, i);
    lemma_skip_spaces_prefix(s1, s2, i, ls);
}

proof fn lemma_line_start_prefix(s1: Seq<char>, s2: Seq<char>, k: int)
    requires
        0 <= k < s1.len(),
        k < s2.len(),
        s1.take(k + 1) == s2.take(k + 1),
    ensures
        line_start(s1, k) == line_start(s2, k),
        0 <= line_start(s1, k) <= k,
    decreases k,
{
    if k > 0 {
        assert(s1[k - 1] == s1.take(k + 1)[k - 1]);
        assert(s2[k - 1] == s2.take(k + 1)[k - 1]);
        if !is_break(s1[k - 1]) {
            assert(s1.take(k) =~= s1.take(k + 1).take(k));
            assert(s2.take(k) =~= s2.take(k + 1).take(k));
            lemma_line_start_prefix(s1, s2, k - 1);
        }
    }
}

proof fn lemma_skip_spaces_prefix(s1: Seq<char>, s2: Seq<char>, i: int, k: int)
    requires
        0 <= k <= i < s1.len(),
        i < s2.len(),
        s1.take(i + 1) == s2.take(i + 1),
        s1[i] != ' ',
    ensures
        skip_spaces(s1, k) == skip_spaces(s2, k),
    decreases i - k,
{
    assert(s1[k] == s1.take(i + 1)[k]);
    assert(s2[k] == s2.take(i + 1)[k]);
    if k < i && s1[k] == ' ' {
        lemma_skip_spaces_prefix(s1, s2, i, k + 1);
    }
}

/// The block scalar read at `i` in `t`, where `t` holds `x` from `pos` on,
/// the header starts at `pos` and the line holding `i` is the one of `t0`.
proof fn lemma_scalar_shift(t: Seq<char>, i: int, pos: int, x: Seq<char>)
    requires
        0 <= i < pos <= t.len(),
        t.skip(pos) == x,
        chomp_at(t, i + 1).1 == pos,
    ensures
        ({
            let (explicit, k) = explicit_indent_at(x, 0);
            let hq = header_end(x, k);
            let owning = line_indent(t, i);
            let folded = char_at(t, i) == Some('>');
            let ci = match explicit {
                Some(d) => Ok((owning + d) as nat),
                None => detect_indent(x, hq, (owning + 1) as nat),
            };
            block_scalar(t, i) == match ci {
                Err(()) => Err(()),
                Ok(ci) => match block_lines(x, hq, ci, folded, Seq::empty(), 0, true, false) {
                    Err(()) => Err(()),
                    Ok((buf, pending, end)) => Ok::<(Seq<char>, int), ()>(
                        (chomped(chomp_at(t, i + 1).0, buf, pending), pos + end),
                    ),
                },
            }
        }),
{
    lemma_header_shift(t, pos, x);
    let (explicit, k) = explicit_indent_at(x, 0);
    let hq = header_end(x, k);
    let owning = line_indent(t, i);
    let folded = char_at(t, i) == Some('>');
    lemma_detect_indent_shift(t, pos, x, hq, (owning + 1) as nat);
    let ci = match explicit {
        Some(d) => Ok((owning + d) as nat),
        None => detect_indent(x, hq, (owning + 1) as nat),
    };
    if let Ok(c) = ci {
        lemma_block_lines_shift(t, pos, x, hq, c, folded, Seq::empty(), 0, true, false);
    }
}

/// The three chomping indicators read one block the same way. Take a block
/// scalar header, `|` or `>`, once with no chomping indicator, once with `-`
/// and once with `+`, the text around it left as it is: all three read or
/// all three fail, and they end one character apart (the indicator's own).
/// Stripping leaves no final line break; clipping is the stripped text with
/// one line break added back when it is not empty; keeping is the clipped
/// text followed by nothing but the block's trailing line breaks.
pub proof fn chomping_indicators_agree(pre: Seq<char>, style: char, rest: Seq<char>)
    requires
        style == '|' || style == '>',
        char_at(rest, 0) != Some('-'),
        char_at(rest, 0) != Some('+'),
    ensures
        ({
            let i = pre.len() as int;
            let clip = block_scalar(pre + seq![style] + rest, i);
            let strip = block_scalar(pre + seq![style, '-'] + rest, i);
            let keep = block_scalar(pre + seq![style, '+'] + rest, i);
            &&& clip is Ok <==> strip is Ok
            &&& clip is Ok <==> keep is Ok
            &&& clip matches Ok((c, e)) ==> {
                let s = strip->Ok_0.0;
                let k = keep->Ok_0.0;
                &&& open_ended(s)
                &&& c == (if s.len() > 0 { s.push('\n') } else { s })
                &&& k.len() >= c.len()
                &&& k.take(c.len() as int) == c
                &&& forall|j: int| c.len() <= j < k.len() ==> #[trigger] k[j] == '\n'
                &&& strip->Ok_0.1 == e + 1
                &&& keep->Ok_0.1 == e + 1
            }
        }),
{
    let i = pre.len() as int;
    let tc = pre + seq![style] + rest;
    let ts = pre + seq![style, '-'] + rest;
    let tk = pre + seq![style, '+'] + rest;
    assert(tc.skip(i + 1) =~= rest);
    assert(ts.skip(i + 2) =~= rest);
    assert(tk.skip(i + 2) =~= rest);
    lemma_char_shift(tc, i + 1, rest, 0);
    assert(tc[i] == style && ts[i] == style && tk[i] == style);
    assert(ts[i + 1] == '-' && tk[i + 1] == '+');
    assert(chomp_at(tc, i + 1) == (Chomp::Clip, i + 1));
    assert(chomp_at(ts, i + 1) == (Chomp::Strip, i + 2));
    assert(chomp_at(tk, i + 1) == (Chomp::Keep, i + 2));
    assert(tc.take(i + 1) =~= ts.take(i + 1));
    assert(tc.take(i + 1) =~= tk.take(i + 1));
    lemma_line_indent_prefix(tc, ts, i);
    lemma_line_indent_prefix(tc, tk, i);
    lemma_scalar_shift(tc, i, i + 1, rest);
    lemma_scalar_shift(ts, i, i + 2, rest);
    lemma_scalar_shift(tk, i, i + 2, rest);
    let clip = block_scalar(tc, i);
    let strip = block_scalar(ts, i);
    let keep = block_scalar(tk, i);
    if clip is Ok {
        strip_drops_every_trailing_break(ts, i);
        let s = strip->Ok_0.0;
        let c = clip->Ok_0.0;
        let k = keep->Ok_0.0;
        assert(k.take(c.len() as int) =~= c);
    }
}

} // verus!
