//! Block scalars: literal (`|`) and folded (`>`), with chomping indicators
//! and an optional explicit indentation indicator.
use vstd::prelude::*;

use super::{
    after_break, char_at, indent_has_tab, is_break, lemma_line_end, lemma_skip_spaces,
    line_end_from, next_line, positioned_at, skip_blanks, skip_spaces, Parser,
};
use crate::error::Error;
use crate::text::string_push;
use crate::value::BorrowedValue;

use std::borrow::Cow;

verus! {

/// What happens to the line breaks at the end of a block scalar.
#[derive(Clone, Copy, PartialEq, Eq)]
pub enum Chomp {
    /// `-`: all trailing line breaks are dropped.
    Strip,
    /// no indicator: one trailing line break is kept.
    Clip,
    /// `+`: all trailing line breaks are kept.
    Keep,
}

/// The start of the line that `i` is on.
pub open spec fn line_start(s: Seq<char>, i: int) -> int
    decreases i,
{
    if 0 < i <= s.len() && !is_break(s[i - 1]) { line_start(s, i - 1) } else { i }
}

/// The number of spaces that open the line that `i` is on.
pub open spec fn line_indent(s: Seq<char>, i: int) -> int {
    skip_spaces(s, line_start(s, i)) - line_start(s, i)
}

/// The line at `i` holds nothing but its leading spaces.
pub open spec fn line_is_blank(s: Seq<char>, i: int) -> bool {
    match char_at(s, skip_spaces(s, i)) {
        None => true,
        Some(c) => is_break(c),
    }
}

/// The content indentation of a block scalar whose body starts at line `i`:
/// the indentation of its first non-blank line, or `min` when that is less
/// or when there is no such line; an error when an indentation holds a tab.
pub open spec fn detect_indent(s: Seq<char>, i: int, min: nat) -> Result<nat, ()>
    decreases s.len() - i,
{
    if i < 0 || i >= s.len() {
        Ok(min)
    } else if indent_has_tab(s, i) {
        Err(())
    } else if line_is_blank(s, i) {
        if i < next_line(s, i) <= s.len() { detect_indent(s, next_line(s, i), min) } else { Err(()) }
    } else if skip_spaces(s, i) - i < min {
        Ok(min)
    } else {
        Ok((skip_spaces(s, i) - i) as nat)
    }
}

/// `n` line breaks.
pub open spec fn newlines(n: nat) -> Seq<char> {
    Seq::new(n, |_i: int| '\n')
}

/// What joins a content line to the previous one: nothing before the first;
/// in a literal scalar a newline per line break; in a folded one a newline
/// per blank line between them, else a newline when either line is more
/// indented than the content, else a space.
pub open spec fn line_separator(folded: bool, first: bool, pending: nat, prev_more: bool, this_more: bool) -> Seq<char> {
    if first {
        Seq::empty()
    } else if !folded {
        newlines(pending + 1)
    } else if pending > 0 {
        newlines(pending)
    } else if prev_more || this_more {
        seq!['\n']
    } else {
        seq![' ']
    }
}

/// Reading the body of a block scalar from line `i` with content
/// indentation `ci`: the text gathered so far (`buf`), the blank lines seen
/// since the last content line (`pending`), whether no content line was read
/// yet (`first`) and whether the last one was more indented (`prev_more`).
/// Gives the whole text, the trailing blank lines and the index where the
/// scalar ends (the first line indented less than `ci`, or the end of the
/// text); an error when an indentation holds a tab.
pub open spec fn block_lines(
    s: Seq<char>,
    i: int,
    ci: nat,
    folded: bool,
    buf: Seq<char>,
    pending: nat,
    first: bool,
    prev_more: bool,
) -> Result<(Seq<char>, nat, int), ()>
    decreases s.len() - i,
{
    if i < 0 || i >= s.len() {
        Ok((buf, pending, i))
    } else if indent_has_tab(s, i) {
        Err(())
    } else if line_is_blank(s, i) {
        let j = next_line(s, i);
        if i < j <= s.len() {
            block_lines(s, j, ci, folded, buf, if first { pending } else { pending + 1 }, first, prev_more)
        } else {
            Err(())
        }
    } else if skip_spaces(s, i) - i < ci {
        Ok((buf, pending, i))
    } else {
        let lead = skip_spaces(s, i) - i;
        let this_more = lead > ci;
        let cstart = i + ci;
        let cend = line_end_from(s, cstart);
        let j = after_break(s, cend);
        let line = buf + line_separator(folded, first, pending, prev_more, this_more) + s.subrange(cstart, cend);
        if i < j <= s.len() { block_lines(s, j, ci, folded, line, 0, false, this_more) } else { Err(()) }
    }
}

/// The chomping indicator after the style character at `k`, and the index
/// after it.
pub open spec fn chomp_at(s: Seq<char>, k: int) -> (Chomp, int) {
    if char_at(s, k) == Some('-') {
        (Chomp::Strip, k + 1)
    } else if char_at(s, k) == Some('+') {
        (Chomp::Keep, k + 1)
    } else {
        (Chomp::Clip, k)
    }
}

/// The explicit indentation indicator (`1` to `9`) at `k`, and the index
/// after it.
pub open spec fn explicit_indent_at(s: Seq<char>, k: int) -> (Option<nat>, int) {
    match char_at(s, k) {
        Some(c) => if '1' <= c && c <= '9' { (Some((c as nat - '0' as nat) as nat), k + 1) } else { (None, k) },
        None => (None, k),
    }
}

/// The index where a block scalar's body starts, the header being read from
/// `k`: past blanks, an optional comment, and one line break.
pub open spec fn header_end(s: Seq<char>, k: int) -> int {
    let b = skip_blanks(s, k);
    let c = if char_at(s, b) == Some('#') { line_end_from(s, b) } else { b };
    after_break(s, c)
}

/// Applies the chomping indicator to a block scalar's text and its trailing
/// blank lines.
pub open spec fn chomped(chomp: Chomp, buf: Seq<char>, pending: nat) -> Seq<char> {
    match chomp {
        Chomp::Strip => buf,
        Chomp::Clip => if buf.len() > 0 { buf.push('\n') } else { buf },
        Chomp::Keep => (if buf.len() > 0 { buf.push('\n') } else { buf }) + newlines(pending),
    }
}

/// A block scalar whose indicator (`|` or `>`) is at `i`: its text and the
/// index where it ends, or an error when an indentation holds a tab.
pub open spec fn block_scalar(s: Seq<char>, i: int) -> Result<(Seq<char>, int), ()> {
    let folded = char_at(s, i) == Some('>');
    let owning = line_indent(s, i);
    let (chomp, k1) = chomp_at(s, i + 1);
    let (explicit, k2) = explicit_indent_at(s, k1);
    let body = header_end(s, k2);
    let ci = match explicit {
        Some(d) => Ok((owning + d) as nat),
        None => detect_indent(s, body, (owning + 1) as nat),
    };
    match ci {
        Err(()) => Err(()),
        Ok(ci) => match block_lines(s, body, ci, folded, Seq::empty(), 0, true, false) {
            Err(()) => Err(()),
            Ok((buf, pending, end)) => Ok((chomped(chomp, buf, pending), end)),
        },
    }
}

/// Where looking for a block body's indentation from line `i` stops on an
/// error: at the start of the first line, past blank ones, whose
/// indentation holds a tab.
pub open spec fn indent_stop(s: Seq<char>, i: int) -> int
    decreases s.len() - i,
{
    if 0 <= i < s.len() && !indent_has_tab(s, i) && line_is_blank(s, i) && i < next_line(s, i) <= s.len() {
        indent_stop(s, next_line(s, i))
    } else {
        i
    }
}

/// Where reading a block body from line `i` with content indentation `ci`
/// stops on an error: at the start of the first line of the body whose
/// indentation holds a tab.
pub open spec fn lines_stop(s: Seq<char>, i: int, ci: nat) -> int
    decreases s.len() - i,
{
    if 0 <= i < s.len() && !indent_has_tab(s, i) {
        if line_is_blank(s, i) {
            let j = next_line(s, i);
            if i < j <= s.len() { lines_stop(s, j, ci) } else { i }
        } else if skip_spaces(s, i) - i < ci {
            i
        } else {
            let j = after_break(s, line_end_from(s, i + ci));
            if i < j <= s.len() { lines_stop(s, j, ci) } else { i }
        }
    } else {
        i
    }
}

/// Where reading the block scalar whose indicator is at `i` stops on an
/// error (see [`indent_stop`] and [`lines_stop`]).
pub open spec fn block_stop(s: Seq<char>, i: int) -> int {
    let owning = line_indent(s, i);
    let (chomp, k1) = chomp_at(s, i + 1);
    let (explicit, k2) = explicit_indent_at(s, k1);
    let body = header_end(s, k2);
    match explicit {
        Some(d) => lines_stop(s, body, (owning + d) as nat),
        None => match detect_indent(s, body, (owning + 1) as nat) {
            Ok(ci) => lines_stop(s, body, ci),
            Err(()) => indent_stop(s, body),
        },
    }
}

proof fn lemma_detect_indent_bound(s: Seq<char>, i: int, min: nat)
    ensures
        detect_indent(s, i, min) matches Ok(n) ==> n <= min || n <= s.len(),
    decreases s.len() - i,
{
    if 0 <= i < s.len() {
        lemma_skip_spaces(s, i);
        if !indent_has_tab(s, i) && line_is_blank(s, i) && i < next_line(s, i) <= s.len() {
            lemma_detect_indent_bound(s, next_line(s, i), min);
        }
    }
}

pub proof fn lemma_line_start(s: Seq<char>, i: int)
    requires
        0 <= i <= s.len(),
    ensures
        0 <= line_start(s, i) <= i,
    decreases i,
{
    if 0 < i && !is_break(s[i - 1]) {
        lemma_line_start(s, i - 1);
    }
}

proof fn lemma_next_line(s: Seq<char>, i: int)
    requires
        0 <= i < s.len(),
    ensures
        i < next_line(s, i) <= s.len(),
{
    lemma_line_end(s, i);
}

/// Text that is empty or does not end in a line break.
pub open spec fn open_ended(t: Seq<char>) -> bool {
    t.len() == 0 || !is_break(t.last())
}

proof fn lemma_block_lines_open_ended(
    s: Seq<char>,
    i: int,
    ci: nat,
    folded: bool,
    buf: Seq<char>,
    pending: nat,
    first: bool,
    prev_more: bool,
)
    requires
        open_ended(buf),
    ensures
        block_lines(s, i, ci, folded, buf, pending, first, prev_more) matches Ok((t, _, _)) ==> open_ended(t),
    decreases s.len() - i,
{
    if 0 <= i < s.len() && !indent_has_tab(s, i) {
        if line_is_blank(s, i) {
            let j = next_line(s, i);
            if i < j <= s.len() {
                lemma_block_lines_open_ended(s, j, ci, folded, buf, if first { pending } else { pending + 1 }, first, prev_more);
            }
        } else if skip_spaces(s, i) - i >= ci {
            lemma_skip_spaces(s, i);
            let lead = skip_spaces(s, i) - i;
            let this_more = lead > ci;
            let cstart = i + ci;
            let cend = line_end_from(s, cstart);
            let j = after_break(s, cend);
            assert(cstart < s.len() && !is_break(s[cstart])) by {
                if lead > ci {
                    assert(s[cstart] == ' ');
                } else {
                    assert(skip_spaces(s, i) == cstart);
                }
            }
            lemma_line_end(s, cstart);
            let line = buf + line_separator(folded, first, pending, prev_more, this_more) + s.subrange(cstart, cend);
            assert(line.last() == s[cend - 1]);
            if i < j <= s.len() {
                lemma_block_lines_open_ended(s, j, ci, folded, line, 0, false, this_more);
            }
        }
    }
}

/// Chomping: with `-` a block scalar's text ends in no line break.
pub proof fn strip_drops_every_trailing_break(s: Seq<char>, i: int)
    requires
        chomp_at(s, i + 1).0 == Chomp::Strip,
        block_scalar(s, i) is Ok,
    ensures
        open_ended(block_scalar(s, i)->Ok_0.0),
{
    let (chomp, k1) = chomp_at(s, i + 1);
    let (explicit, k2) = explicit_indent_at(s, k1);
    let body = header_end(s, k2);
    let folded = char_at(s, i) == Some('>');
    let owning = line_indent(s, i);
    let ci = match explicit {
        Some(d) => Ok((owning + d) as nat),
        None => detect_indent(s, body, (owning + 1) as nat),
    };
    let c = ci->Ok_0;
    lemma_block_lines_open_ended(s, body, c, folded, Seq::empty(), 0, true, false);
}

/// Chomping: with no indicator a non-empty block scalar's text ends in
/// exactly one line break.
pub proof fn clip_keeps_one_trailing_break(s: Seq<char>, i: int)
    requires
        chomp_at(s, i + 1).0 == Chomp::Clip,
        block_scalar(s, i) is Ok,
    ensures
        ({
            let t = block_scalar(s, i)->Ok_0.0;
            t.len() == 0 || (t.last() == '\n' && open_ended(t.drop_last()))
        }),
{
    let (chomp, k1) = chomp_at(s, i + 1);
    let (explicit, k2) = explicit_indent_at(s, k1);
    let body = header_end(s, k2);
    let folded = char_at(s, i) == Some('>');
    let owning = line_indent(s, i);
    let ci = match explicit {
        Some(d) => Ok((owning + d) as nat),
        None => detect_indent(s, body, (owning + 1) as nat),
    };
    let c = ci->Ok_0;
    lemma_block_lines_open_ended(s, body, c, folded, Seq::empty(), 0, true, false);
    let buf = block_lines(s, body, c, folded, Seq::empty(), 0, true, false)->Ok_0.0;
    if buf.len() > 0 {
        assert(buf.push('\n').drop_last() =~= buf);
    }
}

impl<'a> Parser<'a> {
    /// The number of spaces that open the line the cursor is on.
    pub fn current_line_indent(&self) -> (n: usize)
        requires
            self.wf(),
        ensures
            n == line_indent(self.text(), self.cursor()),
    {
        let ghost s = self.text();
        let mut start = self.pos;
        while start > 0 && !(self.src[start - 1] == '\n' || self.src[start - 1] == '\r')
            invariant
                self.wf(),
                s == self.text(),
                start <= self.cursor(),
                line_start(s, start as int) == line_start(s, self.cursor()),
            decreases start,
        {
            start = start - 1;
        }
        proof { lemma_skip_spaces(s, start as int); }
        let mut n: usize = 0;
        while start + n < self.src.len() && self.src[start + n] == ' '
            invariant
                self.wf(),
                s == self.text(),
                start == line_start(s, self.cursor()),
                start + n <= s.len(),
                skip_spaces(s, start + n) == skip_spaces(s, start as int),
            decreases s.len() - start - n,
        {
            n = n + 1;
        }
        n
    }

    /// True when the character `leading` places after the cursor is a line
    /// break or past the end of the text.
    pub fn is_blank_at(&self, leading: usize) -> (r: bool)
        requires
            self.wf(),
        ensures
            r == match char_at(self.text(), self.cursor() + leading) {
                None => true,
                Some(c) => is_break(c),
            },
    {
        if leading >= self.src.len() - self.pos {
            true
        } else {
            let c = self.src[self.pos + leading];
            c == '\n' || c == '\r'
        }
    }

    /// Looks ahead from the cursor, over blank lines, for the indentation of
    /// a block scalar's first content line; on success the cursor is left where
    /// it was, on an error it stays on the line that caused it.
    pub fn detect_block_content_indent(&mut self, owning_line_indent: usize) -> (r: Result<usize, Error>)
        requires
            old(self).wf(),
            owning_line_indent < usize::MAX,
        ensures
            final(self).wf(),
            final(self).text() == old(self).text(),
            r is Ok ==> final(self).cursor() == old(self).cursor(),
            match detect_indent(old(self).text(), old(self).cursor(), (owning_line_indent + 1) as nat) {
                Ok(n) => r == Ok::<usize, Error>(n as usize),
                Err(()) => r matches Err(e) && positioned_at(e, final(self).text(), final(self).cursor())
                    && final(self).cursor() == indent_stop(old(self).text(), old(self).cursor()),
            },
    {
        let ghost s = self.text();
        let saved = (self.pos, self.line, self.col, self.byte);
        let min_required = owning_line_indent + 1;
        let mut indent: usize = min_required;
        loop
            invariant
                self.wf(),
                self.text() == s,
                s == old(self).text(),
                min_required == owning_line_indent + 1,
                saved.0 == old(self).cursor(),
                (saved.1 as nat, saved.2 as nat) == super::line_col(s, saved.0 as int),
                saved.3 == crate::utf8::byte_offset(s, saved.0 as int),
                1 <= saved.1 <= saved.0 + 1,
                1 <= saved.2 <= saved.0 + 1,
                detect_indent(s, self.cursor(), min_required as nat) == detect_indent(s, old(self).cursor(), min_required as nat),
                indent_stop(s, self.cursor()) == indent_stop(s, old(self).cursor()),
            ensures
                self.wf(),
                self.text() == s,
                detect_indent(s, old(self).cursor(), min_required as nat) == Ok::<nat, ()>(indent as nat),
            decreases s.len() - self.cursor(),
        {
            if self.at_eof() {
                indent = min_required;
                break;
            }
            proof {
                lemma_skip_spaces(s, self.cursor());
                lemma_next_line(s, self.cursor());
            }
            let leading = match self.current_indent() {
                Ok(n) => n,
                Err(e) => return Err(e),
            };
            if self.is_blank_at(leading) {
                self.skip_to_next_line();
                continue;
            }
            if leading < min_required {
                indent = min_required;
            } else {
                indent = leading;
            }
            break;
        }
        self.pos = saved.0;
        self.line = saved.1;
        self.col = saved.2;
        self.byte = saved.3;
        Ok(indent)
    }

    /// Reads a block scalar, the cursor on its `|` or `>` indicator, and
    /// leaves the cursor at the start of the first line after it; the
    /// result is the string it denotes. On an error the cursor is at the
    /// start of the line whose indentation holds a tab (see [`block_stop`]).
    pub fn parse_block_scalar(&mut self) -> (r: Result<BorrowedValue<'a>, Error>)
        requires
            old(self).wf(),
            char_at(old(self).text(), old(self).cursor()) == Some('|')
                || char_at(old(self).text(), old(self).cursor()) == Some('>'),
        ensures
            final(self).wf(),
            final(self).text() == old(self).text(),
            match block_scalar(old(self).text(), old(self).cursor()) {
                Ok((content, end)) => r matches Ok(BorrowedValue::String(v)) && v@ == content && final(self).cursor() == end,
                Err(()) => r matches Err(e) && positioned_at(e, final(self).text(), final(self).cursor())
                    && final(self).cursor() == block_stop(old(self).text(), old(self).cursor()),
            },
    {
        let ghost s = self.text();
        let ghost i0 = self.cursor();
        let folded = self.peek() == Some('>');
        let owning_line_indent = self.current_line_indent();
        proof {
            lemma_line_start(s, i0);
            lemma_skip_spaces(s, line_start(s, i0));
        }
        self.advance();
        let chomp = match self.peek() {
            Some('-') => {
                self.advance();
                Chomp::Strip
            },
            Some('+') => {
                self.advance();
                Chomp::Keep
            },
            _ => Chomp::Clip,
        };
        let ghost k1 = self.cursor();
        assert(chomp_at(s, i0 + 1) == (chomp, k1));
        let explicit_indent: Option<usize> = match self.peek() {
            Some(d) => {
                if '1' <= d && d <= '9' {
                    self.advance();
                    Some((d as u32 - '0' as u32) as usize)
                } else {
                    None
                }
            },
            None => None,
        };
        let ghost k2 = self.cursor();
        assert(explicit_indent_at(s, k1).1 == k2);
        assert(match explicit_indent {
            Some(d) => explicit_indent_at(s, k1).0 == Some(d as nat),
            None => explicit_indent_at(s, k1).0 is None,
        });
        self.skip_blank_chars();
        if self.peek() == Some('#') {
            self.skip_to_line_end();
        }
        self.consume_one_line_break();
        let ghost body = self.cursor();
        assert(body == header_end(s, k2));
        let content_indent = match explicit_indent {
            Some(d) => owning_line_indent + d,
            None => match {
                proof { lemma_detect_indent_bound(s, body, (owning_line_indent + 1) as nat); }
                self.detect_block_content_indent(owning_line_indent)
            } {
                Ok(n) => n,
                Err(e) => return Err(e),
            },
        };
        let ghost ci_spec = match explicit_indent_at(s, k1).0 {
            Some(d) => Ok((line_indent(s, i0) + d) as nat),
            None => detect_indent(s, body, (line_indent(s, i0) + 1) as nat),
        };
        assert(ci_spec == Ok::<nat, ()>(content_indent as nat));
        let mut buf = String::new();
        let mut pending_blanks: usize = 0;
        let mut first_content = true;
        let mut prev_was_more_indented = false;
        loop
            invariant
                self.wf(),
                self.text() == s,
                s == old(self).text(),
                pending_blanks <= self.cursor(),
                block_scalar(s, old(self).cursor()) == match block_lines(s, body, content_indent as nat, folded, Seq::empty(), 0, true, false) {
                    Err(()) => Err(()),
                    Ok((b, p, e)) => Ok((chomped(chomp, b, p), e)),
                },
                block_lines(s, self.cursor(), content_indent as nat, folded, buf@, pending_blanks as nat, first_content, prev_was_more_indented)
                    == block_lines(s, body, content_indent as nat, folded, Seq::empty(), 0, true, false),
                lines_stop(s, self.cursor(), content_indent as nat) == lines_stop(s, body, content_indent as nat),
                block_stop(s, old(self).cursor()) == lines_stop(s, body, content_indent as nat),
            ensures
                self.wf(),
                self.text() == s,
                pending_blanks <= self.cursor(),
                block_lines(s, body, content_indent as nat, folded, Seq::empty(), 0, true, false)
                    == Ok::<(Seq<char>, nat, int), ()>((buf@, pending_blanks as nat, self.cursor())),
            decreases s.len() - self.cursor(),
        {
            if self.at_eof() {
                break;
            }
            let ghost i = self.cursor();
            proof {
                lemma_skip_spaces(s, i);
                lemma_next_line(s, i);
            }
            let leading = match self.current_indent() {
                Ok(n) => n,
                Err(e) => return Err(e),
            };
            if self.is_blank_at(leading) {
                if !first_content {
                    pending_blanks = pending_blanks + 1;
                }
                self.skip_to_next_line();
                continue;
            }
            if leading < content_indent {
                break;
            }
            let this_is_more_indented = leading > content_indent;
            let ghost before = buf@;
            if !first_content {
                if !folded {
                    string_push(&mut buf, '\n');
                    push_newlines(&mut buf, pending_blanks);
                    assert(buf@ =~= before + newlines((pending_blanks + 1) as nat));
                } else if pending_blanks > 0 {
                    push_newlines(&mut buf, pending_blanks);
                } else if prev_was_more_indented || this_is_more_indented {
                    string_push(&mut buf, '\n');
                } else {
                    string_push(&mut buf, ' ');
                }
            }
            assert(buf@ =~= before + line_separator(folded, first_content, pending_blanks as nat, prev_was_more_indented, this_is_more_indented));
            pending_blanks = 0;
            first_content = false;
            let mut k: usize = 0;
            while k < content_indent
                invariant
                    self.wf(),
                    self.text() == s,
                    k <= content_indent <= leading,
                    self.cursor() == i + k,
                    i + leading <= s.len(),
                decreases content_indent - k,
            {
                self.advance();
                k = k + 1;
            }
            let start = self.pos;
            proof { lemma_line_end(s, start as int); }
            self.skip_to_line_end();
            let line = self.slice_string(start, self.pos);
            buf.append(line.as_str());
            self.consume_one_line_break();
            prev_was_more_indented = this_is_more_indented;
        }
        let ghost raw = buf@;
        match chomp {
            Chomp::Strip => {},
            Chomp::Clip => {
                if !buf.as_str().is_empty() {
                    string_push(&mut buf, '\n');
                }
            },
            Chomp::Keep => {
                if !buf.as_str().is_empty() {
                    string_push(&mut buf, '\n');
                }
                push_newlines(&mut buf, pending_blanks);
            },
        }
        assert(buf@ =~= chomped(chomp, raw, pending_blanks as nat));
        Ok(BorrowedValue::String(Cow::Owned(buf)))
    }
}

/// Appends `n` line breaks.
fn push_newlines(out: &mut String, n: usize)
    ensures
        final(out)@ == old(out)@ + newlines(n as nat),
{
    let mut k: usize = 0;
    while k < n
        invariant
            k <= n,
            out@ == old(out)@ + newlines(k as nat),
        decreases n - k,
    {
        string_push(out, '\n');
        k = k + 1;
        assert(out@ =~= old(out)@ + newlines(k as nat));
    }
}

} // verus!
