//! Plain, double-quoted and single-quoted scalars.
use vstd::prelude::*;

use super::escape::{escape, escape_stop, lemma_escape_advances};
use super::{char_at, fold, is_blank, is_break, lemma_fold, positioned_at, Parser};
use crate::error::Error;
use crate::text::string_push;

use std::borrow::Cow;

verus! {

/// `r` with `p` put in front of the characters it carries.
pub open spec fn prepend(p: Seq<char>, r: Option<(Seq<char>, int)>) -> Option<(Seq<char>, int)> {
    match r {
        Some((c, e)) => Some((p + c, e)),
        None => None,
    }
}

pub proof fn lemma_prepend_prepend(a: Seq<char>, b: Seq<char>, r: Option<(Seq<char>, int)>)
    ensures
        prepend(a, prepend(b, r)) == prepend(a + b, r),
{
    if let Some((c, e)) = r {
        assert(a + (b + c) =~= (a + b) + c);
    }
}

/// A colon at `i` ends a plain scalar when the text ends after it or
/// white space follows it.
pub open spec fn colon_terminates(s: Seq<char>, i: int) -> bool {
    match char_at(s, i + 1) {
        None => true,
        Some(c) => is_blank(c) || is_break(c),
    }
}

/// A `#` at `i` starts a comment when it opens the text or follows white
/// space.
pub open spec fn starts_comment(s: Seq<char>, i: int) -> bool {
    i == 0 || (0 < i <= s.len() && is_blank(s[i - 1]))
}

/// Where a plain scalar stops: the end of the text, a line break, a `: `
/// (any `:` in flow context), a ` #` comment, or in flow context one of
/// `,`, `]`, `}`.
pub open spec fn plain_stops(s: Seq<char>, i: int, in_flow: bool) -> bool {
    match char_at(s, i) {
        None => true,
        Some(c) => {
            ||| is_break(c)
            ||| (c == ':' && (in_flow || colon_terminates(s, i)))
            ||| (c == '#' && starts_comment(s, i))
            ||| (in_flow && (c == ',' || c == ']' || c == '}'))
        },
    }
}

/// The index at which a plain scalar starting at `i` stops.
pub open spec fn plain_end(s: Seq<char>, i: int, in_flow: bool) -> int
    decreases s.len() - i,
{
    if 0 <= i < s.len() && !plain_stops(s, i, in_flow) { plain_end(s, i + 1, in_flow) } else { i }
}

/// A plain scalar never runs past a line break, and in flow context never
/// past `,`, `[`-closing `]`, `}` or `:`: every character it spans from `i`
/// is none of them, and it stops within the text.
pub proof fn plain_scalar_stops_at_indicators(s: Seq<char>, i: int, in_flow: bool)
    requires
        0 <= i <= s.len(),
    ensures
        i <= plain_end(s, i, in_flow) <= s.len(),
        forall|k: int| i <= k < plain_end(s, i, in_flow) ==> !is_break(#[trigger] s[k]),
        in_flow ==> forall|k: int| i <= k < plain_end(s, i, in_flow)
            ==> #[trigger] s[k] != ',' && s[k] != ']' && s[k] != '}' && s[k] != ':',
    decreases s.len() - i,
{
    if i < s.len() && !plain_stops(s, i, in_flow) {
        plain_scalar_stops_at_indicators(s, i + 1, in_flow);
    }
}

/// `end` moved back over the blanks that precede it, but not before `start`.
pub open spec fn trim_blanks_end(s: Seq<char>, start: int, end: int) -> int
    decreases end - start,
{
    if start < end && 0 < end <= s.len() && is_blank(s[end - 1]) { trim_blanks_end(s, start, end - 1) } else { end }
}

/// The content of a double-quoted scalar from `i` up to and including its
/// closing quote, with `pend` the blanks read but not yet kept: the
/// characters it decodes to and the index after the closing quote, or
/// `None` when it is unterminated or holds an invalid escape. Blanks
/// before a line break are dropped; a line break folds (see [`fold`]).
pub open spec fn dq_body(s: Seq<char>, i: int, indent: nat, pend: Seq<char>) -> Option<(Seq<char>, int)>
    decreases s.len() - i,
{
    if i < 0 || i >= s.len() {
        None
    } else {
        let c = s[i];
        if c == '"' {
            Some((pend, i + 1))
        } else if c == '\\' {
            match escape(s, i + 1) {
                Some((chars, j)) => if i < j <= s.len() {
                    prepend(pend + chars, dq_body(s, j, indent, Seq::empty()))
                } else {
                    None
                },
                None => None,
            }
        } else if is_break(c) {
            let (chars, j) = fold(s, i, indent);
            if i < j <= s.len() { prepend(chars, dq_body(s, j, indent, Seq::empty())) } else { None }
        } else if is_blank(c) {
            dq_body(s, i + 1, indent, pend.push(c))
        } else {
            prepend(pend.push(c), dq_body(s, i + 1, indent, Seq::empty()))
        }
    }
}

/// Where reading a double-quoted scalar's content from `i` stops when it
/// fails: at the end of the text when the closing quote is missing, or
/// where its first invalid escape goes wrong (see [`escape_stop`]).
pub open spec fn dq_stop(s: Seq<char>, i: int, indent: nat) -> int
    decreases s.len() - i,
{
    if i < 0 || i >= s.len() {
        i
    } else {
        let c = s[i];
        if c == '"' {
            i
        } else if c == '\\' {
            match escape(s, i + 1) {
                Some((_, j)) => if i < j <= s.len() { dq_stop(s, j, indent) } else { i },
                None => escape_stop(s, i + 1),
            }
        } else if is_break(c) {
            let j = fold(s, i, indent).1;
            if i < j <= s.len() { dq_stop(s, j, indent) } else { i }
        } else {
            dq_stop(s, i + 1, indent)
        }
    }
}

/// The content of a single-quoted scalar from `i` up to and including its
/// closing quote; `''` stands for one quote. Blanks and line breaks as in
/// [`dq_body`].
pub open spec fn sq_body(s: Seq<char>, i: int, indent: nat, pend: Seq<char>) -> Option<(Seq<char>, int)>
    decreases s.len() - i,
{
    if i < 0 || i >= s.len() {
        None
    } else {
        let c = s[i];
        if c == '\'' {
            if char_at(s, i + 1) == Some('\'') {
                prepend(pend.push('\''), sq_body(s, i + 2, indent, Seq::empty()))
            } else {
                Some((pend, i + 1))
            }
        } else if is_break(c) {
            let (chars, j) = fold(s, i, indent);
            if i < j <= s.len() { prepend(chars, sq_body(s, j, indent, Seq::empty())) } else { None }
        } else if is_blank(c) {
            sq_body(s, i + 1, indent, pend.push(c))
        } else {
            prepend(pend.push(c), sq_body(s, i + 1, indent, Seq::empty()))
        }
    }
}

/// A character that a quoted scalar copies as it stands.
pub open spec fn dq_plain_char(c: char) -> bool {
    c != '"' && c != '\\' && !is_break(c)
}

/// A character that a single-quoted scalar copies as it stands.
pub open spec fn sq_plain_char(c: char) -> bool {
    c != '\'' && !is_break(c)
}

/// The first index from `i` that holds a quote, a backslash or a line
/// break (or the end of the text).
pub open spec fn dq_run_end(s: Seq<char>, i: int) -> int
    decreases s.len() - i,
{
    if 0 <= i < s.len() && dq_plain_char(s[i]) { dq_run_end(s, i + 1) } else { i }
}

/// The first index from `i` that holds a single quote or a line break (or
/// the end of the text).
pub open spec fn sq_run_end(s: Seq<char>, i: int) -> int
    decreases s.len() - i,
{
    if 0 <= i < s.len() && sq_plain_char(s[i]) { sq_run_end(s, i + 1) } else { i }
}

impl<'a> Parser<'a> {
    /// True when a `:` under the cursor is followed by white space or the
    /// end of the text.
    pub fn is_colon_terminator(&self) -> (r: bool)
        requires
            self.wf(),
        ensures
            r == colon_terminates(self.text(), self.cursor()),
    {
        match self.peek_at(self.pos + 1) {
            None => true,
            Some(c) => c == ' ' || c == '\t' || c == '\n' || c == '\r',
        }
    }

    /// True when a `#` under the cursor would start a comment.
    pub fn is_comment_start(&self) -> (r: bool)
        requires
            self.wf(),
        ensures
            r == starts_comment(self.text(), self.cursor()),
    {
        if self.pos == 0 {
            true
        } else {
            match self.peek_at(self.pos - 1) {
                Some(c) => c == ' ' || c == '\t',
                None => false,
            }
        }
    }

    /// Reads an unquoted plain scalar from the cursor: up to where it stops
    /// (see [`plain_stops`]), with trailing blanks trimmed.
    pub fn parse_plain_scalar(&mut self, in_flow: bool) -> (r: Cow<'a, str>)
        requires
            old(self).wf(),
        ensures
            final(self).wf(),
            final(self).text() == old(self).text(),
            final(self).cursor() == plain_end(old(self).text(), old(self).cursor(), in_flow),
            r@ == old(self).text().subrange(
                old(self).cursor(),
                trim_blanks_end(old(self).text(), old(self).cursor(), plain_end(old(self).text(), old(self).cursor(), in_flow)),
            ),
            r is Borrowed,
            forall|k: int| 0 <= k < r@.len() ==> !is_break(#[trigger] r@[k]),
            in_flow ==> forall|k: int| 0 <= k < r@.len()
                ==> #[trigger] r@[k] != ',' && r@[k] != ']' && r@[k] != '}' && r@[k] != ':',
    {
        let ghost s = self.text();
        let start = self.pos;
        let bstart = self.byte_cursor();
        loop
            invariant
                self.wf(),
                self.text() == s,
                s == old(self).text(),
                start == old(self).cursor(),
                start <= self.cursor() <= s.len(),
                plain_end(s, self.cursor(), in_flow) == plain_end(s, start as int, in_flow),
            ensures
                self.wf(),
                self.text() == s,
                start <= self.cursor() <= s.len(),
                self.cursor() == plain_end(s, start as int, in_flow),
            decreases s.len() - self.cursor(),
        {
            match self.peek() {
                None => break,
                Some(c) => {
                    if c == '\n' || c == '\r' {
                        break;
                    } else if c == ':' && in_flow {
                        break;
                    } else if c == ':' && self.is_colon_terminator() {
                        break;
                    } else if c == '#' && self.is_comment_start() {
                        break;
                    } else if in_flow && (c == ',' || c == ']' || c == '}') {
                        break;
                    } else {
                        self.advance();
                    }
                },
            }
        }
        let mut end = self.pos;
        let mut bend = self.byte_cursor();
        loop
            invariant
                self.wf(),
                self.text() == s,
                start <= end <= self.cursor() <= s.len(),
                bend == crate::utf8::byte_offset(s, end as int),
                trim_blanks_end(s, start as int, end as int) == trim_blanks_end(s, start as int, self.cursor()),
            ensures
                start <= end <= self.cursor(),
                bend == crate::utf8::byte_offset(s, end as int),
                end == trim_blanks_end(s, start as int, self.cursor()),
            decreases end,
        {
            if end > start {
                match self.peek_at(end - 1) {
                    Some(c) => {
                        if c == ' ' || c == '\t' {
                            proof { crate::utf8::lemma_byte_offset_step(s, end - 1); }
                            end = end - 1;
                            bend = bend - 1;
                        } else {
                            break;
                        }
                    },
                    None => break,
                }
            } else {
                break;
            }
        }
        proof { plain_scalar_stops_at_indicators(s, start as int, in_flow); }
        let r = self.slice(start, end, bstart, bend);
        proof {
            assert forall|k: int| 0 <= k < r@.len() implies r@[k] == s[start + k] by {}
        }
        r
    }

    /// Reads a double-quoted scalar, the cursor on its opening quote, and
    /// leaves the cursor after its closing quote. `parent_indent` is the
    /// indentation that continuation lines may carry before their content.
    /// The result borrows from the text unless an escape or a line break
    /// comes before the closing quote. On an error the cursor is left where
    /// reading went wrong (see [`dq_stop`]).
    pub fn parse_double_quoted(&mut self, parent_indent: usize) -> (r: Result<Cow<'a, str>, Error>)
        requires
            old(self).wf(),
            char_at(old(self).text(), old(self).cursor()) == Some('"'),
        ensures
            final(self).wf(),
            final(self).text() == old(self).text(),
            match dq_body(old(self).text(), old(self).cursor() + 1, parent_indent as nat, Seq::empty()) {
                Some((content, end)) => r matches Ok(v) && v@ == content && final(self).cursor() == end,
                None => r matches Err(e) && positioned_at(e, final(self).text(), final(self).cursor())
                    && final(self).cursor() == dq_stop(old(self).text(), old(self).cursor() + 1, parent_indent as nat),
            },
            r matches Ok(v) ==> (v is Borrowed <==> char_at(old(self).text(), dq_run_end(old(self).text(), old(self).cursor() + 1)) == Some('"')),
    {
        let ghost s = self.text();
        let ghost ind = parent_indent as nat;
        self.advance();
        let content_start = self.pos;
        let bstart = self.byte_cursor();
        let ghost mut kept: Seq<char> = Seq::empty();
        let ghost mut pend: Seq<char> = Seq::empty();
        loop
            invariant
                self.wf(),
                self.text() == s,
                s == old(self).text(),
                ind == parent_indent as nat,
                content_start == old(self).cursor() + 1,
                bstart == crate::utf8::byte_offset(s, content_start as int),
                content_start <= self.cursor() <= s.len(),
                kept + pend == s.subrange(content_start as int, self.cursor()),
                forall|k: int| content_start <= k < self.cursor() ==> dq_plain_char(#[trigger] s[k]),
                dq_body(s, content_start as int, ind, Seq::empty()) == prepend(kept, dq_body(s, self.cursor(), ind, pend)),
                dq_run_end(s, content_start as int) == dq_run_end(s, self.cursor()),
                dq_stop(s, content_start as int, ind) == dq_stop(s, self.cursor(), ind),
            decreases s.len() - self.cursor(),
        {
            let ghost i = self.cursor();
            match self.peek() {
                None => {
                    return Err(self.err("unterminated double-quoted string".to_owned()));
                },
                Some(c) => {
                    if c == '"' {
                        let end = self.pos;
                        let bend = self.byte_cursor();
                        self.advance();
                        assert(kept + pend == s.subrange(content_start as int, end as int));
                        return Ok(self.slice(content_start, end, bstart, bend));
                    } else if c == '\\' || c == '\n' || c == '\r' {
                        return self.parse_double_quoted_owned(content_start, parent_indent);
                    } else {
                        proof {
                            assert(s.subrange(content_start as int, i + 1) =~= s.subrange(content_start as int, i).push(c));
                            assert((kept + pend).push(c) =~= kept + pend.push(c));
                            if is_blank(c) {
                                pend = pend.push(c);
                            } else {
                                lemma_prepend_prepend(kept, pend.push(c), dq_body(s, i + 1, ind, Seq::empty()));
                                kept = kept + pend.push(c);
                                pend = Seq::empty();
                            }
                        }
                        self.advance();
                    }
                },
            }
        }
    }

    /// Continues a double-quoted scalar that needs decoding: the text from
    /// `content_start` to the cursor holds only characters copied as they
    /// stand, and the cursor is on an escape or a line break (or anywhere
    /// further in the scalar).
    pub fn parse_double_quoted_owned(&mut self, content_start: usize, parent_indent: usize) -> (r: Result<Cow<'a, str>, Error>)
        requires
            old(self).wf(),
            content_start <= old(self).cursor(),
            forall|k: int| content_start <= k < old(self).cursor() ==> dq_plain_char(#[trigger] old(self).text()[k]),
        ensures
            final(self).wf(),
            final(self).text() == old(self).text(),
            match dq_body(old(self).text(), content_start as int, parent_indent as nat, Seq::empty()) {
                Some((content, end)) => r matches Ok(v) && v@ == content && final(self).cursor() == end,
                None => r matches Err(e) && positioned_at(e, final(self).text(), final(self).cursor())
                    && final(self).cursor() == dq_stop(old(self).text(), content_start as int, parent_indent as nat),
            },
            r matches Ok(v) ==> v is Owned,
    {
        let ghost s = self.text();
        let ghost ind = parent_indent as nat;
        let mut out = String::new();
        let mut pend = String::new();
        let mut i = content_start;
        while i < self.pos
            invariant
                self.wf(),
                self.text() == s,
                s == old(self).text(),
                ind == parent_indent as nat,
                self.cursor() == old(self).cursor(),
                content_start <= i <= self.cursor(),
                forall|k: int| content_start <= k < self.cursor() ==> dq_plain_char(#[trigger] s[k]),
                dq_body(s, content_start as int, ind, Seq::empty()) == prepend(out@, dq_body(s, i as int, ind, pend@)),
                dq_stop(s, content_start as int, ind) == dq_stop(s, i as int, ind),
            decreases self.cursor() - i,
        {
            let c = self.src[i];
            assert(dq_plain_char(s[i as int]));
            if c == ' ' || c == '\t' {
                string_push(&mut pend, c);
            } else {
                proof { lemma_prepend_prepend(out@, pend@.push(c), dq_body(s, i + 1, ind, Seq::empty())); }
                out.append(pend.as_str());
                string_push(&mut out, c);
                pend = String::new();
            }
            i = i + 1;
        }
        loop
            invariant
                self.wf(),
                self.text() == s,
                s == old(self).text(),
                ind == parent_indent as nat,
                dq_body(s, content_start as int, ind, Seq::empty()) == prepend(out@, dq_body(s, self.cursor(), ind, pend@)),
                dq_stop(s, content_start as int, ind) == dq_stop(s, self.cursor(), ind),
            decreases s.len() - self.cursor(),
        {
            let ghost i = self.cursor();
            match self.peek() {
                None => return Err(self.err("unterminated double-quoted string".to_owned())),
                Some(c) => {
                    if c == '"' {
                        out.append(pend.as_str());
                        self.advance();
                        return Ok(Cow::Owned(out));
                    } else if c == '\\' {
                        proof { lemma_escape_advances(s, i + 1); }
                        let ghost o = out@;
                        let ghost p = pend@;
                        out.append(pend.as_str());
                        pend = String::new();
                        self.advance();
                        match self.decode_double_quoted_escape(&mut out, parent_indent) {
                            Ok(()) => {},
                            Err(e) => return Err(e),
                        }
                        proof {
                            let (chars, j) = escape(s, i + 1).unwrap();
                            lemma_prepend_prepend(o, p + chars, dq_body(s, j, ind, Seq::empty()));
                            assert(out@ =~= o + (p + chars));
                        }
                    } else if c == '\n' || c == '\r' {
                        proof { lemma_fold(s, i, ind); }
                        let ghost before = out@;
                        pend = String::new();
                        self.consume_line_fold(&mut out, parent_indent);
                        proof { lemma_prepend_prepend(before, fold(s, i, ind).0, dq_body(s, fold(s, i, ind).1, ind, Seq::empty())); }
                    } else if c == ' ' || c == '\t' {
                        string_push(&mut pend, c);
                        self.advance();
                    } else {
                        proof { lemma_prepend_prepend(out@, pend@.push(c), dq_body(s, i + 1, ind, Seq::empty())); }
                        out.append(pend.as_str());
                        string_push(&mut out, c);
                        pend = String::new();
                        self.advance();
                    }
                },
            }
        }
    }

    /// Reads a single-quoted scalar, the cursor on its opening quote, and
    /// leaves the cursor after its closing quote. The result borrows from
    /// the text unless a `''` or a line break comes before the closing quote.
    /// The only error is a missing closing quote, with the cursor at the end
    /// of the text.
    pub fn parse_single_quoted(&mut self, parent_indent: usize) -> (r: Result<Cow<'a, str>, Error>)
        requires
            old(self).wf(),
            char_at(old(self).text(), old(self).cursor()) == Some('\''),
        ensures
            final(self).wf(),
            final(self).text() == old(self).text(),
            match sq_body(old(self).text(), old(self).cursor() + 1, parent_indent as nat, Seq::empty()) {
                Some((content, end)) => r matches Ok(v) && v@ == content && final(self).cursor() == end,
                None => r matches Err(e) && positioned_at(e, final(self).text(), final(self).cursor())
                    && final(self).cursor() == final(self).text().len(),
            },
            r matches Ok(v) ==> (v is Borrowed <==> ({
                let q = sq_run_end(old(self).text(), old(self).cursor() + 1);
                char_at(old(self).text(), q) == Some('\'') && char_at(old(self).text(), q + 1) != Some('\'')
            })),
    {
        let ghost s = self.text();
        let ghost ind = parent_indent as nat;
        self.advance();
        let content_start = self.pos;
        let bstart = self.byte_cursor();
        let ghost mut kept: Seq<char> = Seq::empty();
        let ghost mut pend: Seq<char> = Seq::empty();
        loop
            invariant
                self.wf(),
                self.text() == s,
                s == old(self).text(),
                ind == parent_indent as nat,
                content_start == old(self).cursor() + 1,
                bstart == crate::utf8::byte_offset(s, content_start as int),
                content_start <= self.cursor() <= s.len(),
                kept + pend == s.subrange(content_start as int, self.cursor()),
                forall|k: int| content_start <= k < self.cursor() ==> sq_plain_char(#[trigger] s[k]),
                sq_body(s, content_start as int, ind, Seq::empty()) == prepend(kept, sq_body(s, self.cursor(), ind, pend)),
                sq_run_end(s, content_start as int) == sq_run_end(s, self.cursor()),
            decreases s.len() - self.cursor(),
        {
            let ghost i = self.cursor();
            match self.peek() {
                None => return Err(self.err("unterminated single-quoted string".to_owned())),
                Some(c) => {
                    if c == '\'' {
                        if self.peek_at(self.pos + 1) == Some('\'') {
                            return self.parse_single_quoted_owned(content_start, parent_indent);
                        }
                        let end = self.pos;
                        let bend = self.byte_cursor();
                        self.advance();
                        return Ok(self.slice(content_start, end, bstart, bend));
                    } else if c == '\n' || c == '\r' {
                        return self.parse_single_quoted_owned(content_start, parent_indent);
                    } else {
                        proof {
                            assert(s.subrange(content_start as int, i + 1) =~= s.subrange(content_start as int, i).push(c));
                            assert((kept + pend).push(c) =~= kept + pend.push(c));
                            if is_blank(c) {
                                pend = pend.push(c);
                            } else {
                                lemma_prepend_prepend(kept, pend.push(c), sq_body(s, i + 1, ind, Seq::empty()));
                                kept = kept + pend.push(c);
                                pend = Seq::empty();
                            }
                        }
                        self.advance();
                    }
                },
            }
        }
    }

    /// Continues a single-quoted scalar that needs decoding: the text from
    /// `content_start` to the cursor holds only characters copied as they
    /// stand.
    pub fn parse_single_quoted_owned(&mut self, content_start: usize, parent_indent: usize) -> (r: Result<Cow<'a, str>, Error>)
        requires
            old(self).wf(),
            content_start <= old(self).cursor(),
            forall|k: int| content_start <= k < old(self).cursor() ==> sq_plain_char(#[trigger] old(self).text()[k]),
        ensures
            final(self).wf(),
            final(self).text() == old(self).text(),
            match sq_body(old(self).text(), content_start as int, parent_indent as nat, Seq::empty()) {
                Some((content, end)) => r matches Ok(v) && v@ == content && final(self).cursor() == end,
                None => r matches Err(e) && positioned_at(e, final(self).text(), final(self).cursor())
                    && final(self).cursor() == final(self).text().len(),
            },
            r matches Ok(v) ==> v is Owned,
    {
        let ghost s = self.text();
        let ghost ind = parent_indent as nat;
        let mut out = String::new();
        let mut pend = String::new();
        let mut i = content_start;
        while i < self.pos
            invariant
                self.wf(),
                self.text() == s,
                s == old(self).text(),
                ind == parent_indent as nat,
                self.cursor() == old(self).cursor(),
                content_start <= i <= self.cursor(),
                forall|k: int| content_start <= k < self.cursor() ==> sq_plain_char(#[trigger] s[k]),
                sq_body(s, content_start as int, ind, Seq::empty()) == prepend(out@, sq_body(s, i as int, ind, pend@)),
            decreases self.cursor() - i,
        {
            let c = self.src[i];
            assert(sq_plain_char(s[i as int]));
            if c == ' ' || c == '\t' {
                string_push(&mut pend, c);
            } else {
                proof { lemma_prepend_prepend(out@, pend@.push(c), sq_body(s, i + 1, ind, Seq::empty())); }
                out.append(pend.as_str());
                string_push(&mut out, c);
                pend = String::new();
            }
            i = i + 1;
        }
        loop
            invariant
                self.wf(),
                self.text() == s,
                s == old(self).text(),
                ind == parent_indent as nat,
                sq_body(s, content_start as int, ind, Seq::empty()) == prepend(out@, sq_body(s, self.cursor(), ind, pend@)),
            decreases s.len() - self.cursor(),
        {
            let ghost i = self.cursor();
            match self.peek() {
                None => return Err(self.err("unterminated single-quoted string".to_owned())),
                Some(c) => {
                    if c == '\'' {
                        if self.peek_at(self.pos + 1) == Some('\'') {
                            proof { lemma_prepend_prepend(out@, pend@.push('\''), sq_body(s, i + 2, ind, Seq::empty())); }
                            out.append(pend.as_str());
                            string_push(&mut out, '\'');
                            pend = String::new();
                            self.advance();
                            self.advance();
                        } else {
                            out.append(pend.as_str());
                            self.advance();
                            return Ok(Cow::Owned(out));
                        }
                    } else if c == '\n' || c == '\r' {
                        proof { lemma_fold(s, i, ind); }
                        let ghost before = out@;
                        pend = String::new();
                        self.consume_line_fold(&mut out, parent_indent);
                        proof { lemma_prepend_prepend(before, fold(s, i, ind).0, sq_body(s, fold(s, i, ind).1, ind, Seq::empty())); }
                    } else if c == ' ' || c == '\t' {
                        string_push(&mut pend, c);
                        self.advance();
                    } else {
                        proof { lemma_prepend_prepend(out@, pend@.push(c), sq_body(s, i + 1, ind, Seq::empty())); }
                        out.append(pend.as_str());
                        string_push(&mut out, c);
                        pend = String::new();
                        self.advance();
                    }
                },
            }
        }
    }
}

} // verus!
