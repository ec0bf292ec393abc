//! The character scanner: a cursor over the source text with line and
//! column tracking, and the scalar readers built on it (plain, quoted and
//! block scalars, escape decoding).
use vstd::prelude::*;

use crate::error::Error;
use crate::text::{str_chars, string_push};
use crate::utf8::{byte_offset, lemma_byte_offset_split, lemma_byte_offset_step, slice_at_offsets, utf8_width};

use std::borrow::Cow;

pub mod block_scalar;
pub mod escape;
pub mod scalar;

verus! {

/// The character at `i`, if `i` is inside `s`.
pub open spec fn char_at(s: Seq<char>, i: int) -> Option<char> {
    if 0 <= i < s.len() { Some(s[i]) } else { None }
}

/// A line-break character.
pub open spec fn is_break(c: char) -> bool {
    c == '\n' || c == '\r'
}

/// An in-line white-space character.
pub open spec fn is_blank(c: char) -> bool {
    c == ' ' || c == '\t'
}

/// The index just past the line break at `i` (`\r\n` counts as one break);
/// `i` itself when there is no break there.
pub open spec fn after_break(s: Seq<char>, i: int) -> int {
    if 0 <= i && i + 1 < s.len() && s[i] == '\r' && s[i + 1] == '\n' {
        i + 2
    } else if 0 <= i < s.len() && is_break(s[i]) {
        i + 1
    } else {
        i
    }
}

/// The first index at or after `i` that does not hold a blank.
pub open spec fn skip_blanks(s: Seq<char>, i: int) -> int
    decreases s.len() - i,
{
    if 0 <= i < s.len() && is_blank(s[i]) { skip_blanks(s, i + 1) } else { i }
}

/// The first index at or after `i` that does not hold a space.
pub open spec fn skip_spaces(s: Seq<char>, i: int) -> int
    decreases s.len() - i,
{
    if 0 <= i < s.len() && s[i] == ' ' { skip_spaces(s, i + 1) } else { i }
}

/// The index after at most `n` spaces from `i`.
pub open spec fn skip_spaces_upto(s: Seq<char>, i: int, n: nat) -> int
    decreases n,
{
    if n > 0 && 0 <= i < s.len() && s[i] == ' ' { skip_spaces_upto(s, i + 1, (n - 1) as nat) } else { i }
}

/// The index of the end of the line that `i` is on: the first line break or
/// the end of the text.
pub open spec fn line_end_from(s: Seq<char>, i: int) -> int
    decreases s.len() - i,
{
    if 0 <= i < s.len() && !is_break(s[i]) { line_end_from(s, i + 1) } else { i }
}

/// The line and the column (both counted from one) of index `i`: one more
/// line per `\n` before it, the column restarting after each.
pub open spec fn line_col(s: Seq<char>, i: int) -> (nat, nat)
    decreases i,
{
    if i <= 0 {
        (1, 1)
    } else {
        let (l, c) = line_col(s, i - 1);
        if s[i - 1] == '\n' { (l + 1, 1) } else { (l, c + 1) }
    }
}

/// An error that names the line and column of index `i` of `s`.
pub open spec fn positioned_at(e: Error, s: Seq<char>, i: int) -> bool {
    e.line == Some(line_col(s, i).0 as usize) && e.col == Some(line_col(s, i).1 as usize)
}

pub proof fn lemma_line_col_bound(s: Seq<char>, i: int)
    requires
        0 <= i,
    ensures
        1 <= line_col(s, i).0 <= i + 1,
        1 <= line_col(s, i).1 <= i + 1,
    decreases i,
{
    if i > 0 {
        lemma_line_col_bound(s, i - 1);
    }
}

/// A tab follows the spaces that start the line at `i`.
pub open spec fn indent_has_tab(s: Seq<char>, i: int) -> bool {
    char_at(s, skip_spaces(s, i)) == Some('\t')
}

/// The start of the next line after `i`: past the end of this line and its
/// break.
pub open spec fn next_line(s: Seq<char>, i: int) -> int {
    after_break(s, line_end_from(s, i))
}

pub proof fn lemma_skip_blanks(s: Seq<char>, i: int)
    requires
        0 <= i <= s.len(),
    ensures
        i <= skip_blanks(s, i) <= s.len(),
        forall|k: int| i <= k < skip_blanks(s, i) ==> is_blank(#[trigger] s[k]),
        skip_blanks(s, i) < s.len() ==> !is_blank(s[skip_blanks(s, i)]),
    decreases s.len() - i,
{
    if i < s.len() && is_blank(s[i]) {
        lemma_skip_blanks(s, i + 1);
    }
}

pub proof fn lemma_skip_spaces(s: Seq<char>, i: int)
    requires
        0 <= i <= s.len(),
    ensures
        i <= skip_spaces(s, i) <= s.len(),
        forall|k: int| i <= k < skip_spaces(s, i) ==> #[trigger] s[k] == ' ',
        skip_spaces(s, i) < s.len() ==> s[skip_spaces(s, i)] != ' ',
    decreases s.len() - i,
{
    if i < s.len() && s[i] == ' ' {
        lemma_skip_spaces(s, i + 1);
    }
}

pub proof fn lemma_skip_spaces_upto(s: Seq<char>, i: int, n: nat)
    requires
        0 <= i <= s.len(),
    ensures
        i <= skip_spaces_upto(s, i, n) <= s.len(),
        skip_spaces_upto(s, i, n) <= i + n,
    decreases n,
{
    if n > 0 && i < s.len() && s[i] == ' ' {
        lemma_skip_spaces_upto(s, i + 1, (n - 1) as nat);
    }
}

pub proof fn lemma_line_end(s: Seq<char>, i: int)
    requires
        0 <= i <= s.len(),
    ensures
        i <= line_end_from(s, i) <= s.len(),
        forall|k: int| i <= k < line_end_from(s, i) ==> !is_break(#[trigger] s[k]),
        line_end_from(s, i) < s.len() ==> is_break(s[line_end_from(s, i)]),
    decreases s.len() - i,
{
    if i < s.len() && !is_break(s[i]) {
        lemma_line_end(s, i + 1);
    }
}

/// A cursor over YAML source text. Positions count characters; scalars
/// that need no decoding are handed out as slices of the text.
pub struct Parser<'a> {
    text: &'a str,
    src: Vec<char>,
    pos: usize,
    byte: usize,
    line: usize,
    col: usize,
}

impl<'a> Parser<'a> {
    /// The characters of the source text.
    pub closed spec fn text(&self) -> Seq<char> {
        self.src@
    }

    /// The cursor: the index of the next character to read.
    pub closed spec fn cursor(&self) -> int {
        self.pos as int
    }

    /// The cursor lies within the text, and the line and column counters
    /// are those of the cursor (see [`line_col`]).
    pub closed spec fn wf(&self) -> bool {
        &&& self.src@ == self.text@
        &&& self.pos <= self.src.len()
        &&& self.src.len() < usize::MAX - 16
        &&& vstd::utf8::encode_utf8(self.src@).len() < usize::MAX
        &&& self.byte == byte_offset(self.src@, self.pos as int)
        &&& (self.line as nat, self.col as nat) == line_col(self.src@, self.pos as int)
        &&& 1 <= self.line <= self.pos + 1
        &&& 1 <= self.col <= self.pos + 1
    }

    /// The cursor of a well-formed scanner lies within its text (it may
    /// stand just past the last character), and the text is as short as
    /// `new` asks.
    pub proof fn lemma_cursor_bound(&self)
        requires
            self.wf(),
        ensures
            0 <= self.cursor() <= self.text().len(),
            self.text().len() < usize::MAX - 16,
    {
    }

    /// A scanner at the start of `src`.
    pub fn new(src: &'a str) -> (p: Parser<'a>)
        requires
            src@.len() < usize::MAX - 16,
            vstd::utf8::encode_utf8(src@).len() < usize::MAX,
        ensures
            p.wf(),
            p.text() == src@,
            p.cursor() == 0,
    {
        let chars = str_chars(src);
        proof {
            assert(chars@.take(0) =~= Seq::<char>::empty());
            assert(vstd::utf8::encode_utf8(Seq::<char>::empty()) =~= Seq::<u8>::empty());
        }
        Parser { text: src, src: chars, pos: 0, byte: 0, line: 1, col: 1 }
    }

    /// The character under the cursor, if any.
    pub fn peek(&self) -> (r: Option<char>)
        requires
            self.wf(),
        ensures
            r == char_at(self.text(), self.cursor()),
    {
        if self.pos < self.src.len() { Some(self.src[self.pos]) } else { None }
    }

    /// The character at index `i`, if any.
    pub fn peek_at(&self, i: usize) -> (r: Option<char>)
        requires
            self.wf(),
        ensures
            r == char_at(self.text(), i as int),
    {
        if i < self.src.len() { Some(self.src[i]) } else { None }
    }

    /// True at the end of the text.
    pub fn at_eof(&self) -> (r: bool)
        requires
            self.wf(),
        ensures
            r == (self.cursor() >= self.text().len()),
    {
        self.pos >= self.src.len()
    }

    /// Moves the cursor one character forward, unless at the end of the text.
    pub fn advance(&mut self)
        requires
            old(self).wf(),
        ensures
            final(self).wf(),
            final(self).text() == old(self).text(),
            final(self).cursor() == if old(self).cursor() < old(self).text().len() {
                old(self).cursor() + 1
            } else {
                old(self).cursor()
            },
    {
        if self.pos < self.src.len() {
            proof {
                lemma_line_col_bound(self.src@, self.pos + 1);
                lemma_byte_offset_step(self.src@, self.pos as int);
                lemma_byte_offset_split(self.src@, self.pos + 1);
            }
            self.byte = self.byte + utf8_width(self.src[self.pos]);
            if self.src[self.pos] == '\n' {
                self.line = self.line + 1;
                self.col = 1;
            } else {
                self.col = self.col + 1;
            }
            self.pos = self.pos + 1;
        }
    }

    /// The text between `start` and `end`, as a string.
    pub(crate) fn slice_string(&self, start: usize, end: usize) -> (r: String)
        requires
            self.wf(),
            start <= end <= self.text().len(),
        ensures
            r@ == self.text().subrange(start as int, end as int),
    {
        let mut r = String::new();
        let mut i = start;
        while i < end
            invariant
                self.wf(),
                start <= i <= end <= self.text().len(),
                r@ == self.text().subrange(start as int, i as int),
            decreases end - i,
        {
            string_push(&mut r, self.src[i]);
            i = i + 1;
            assert(r@ =~= self.text().subrange(start as int, i as int));
        }
        r
    }

    /// The text between `start` and `end`, borrowed from the source;
    /// `bstart` and `bend` are their byte offsets.
    pub(crate) fn slice(&self, start: usize, end: usize, bstart: usize, bend: usize) -> (r: Cow<'a, str>)
        requires
            self.wf(),
            start <= end <= self.text().len(),
            bstart == byte_offset(self.text(), start as int),
            bend == byte_offset(self.text(), end as int),
        ensures
            r@ == self.text().subrange(start as int, end as int),
            r is Borrowed,
    {
        slice_at_offsets(self.text, start, end, bstart, bend)
    }

    /// The byte offset of the cursor.
    pub(crate) fn byte_cursor(&self) -> (b: usize)
        requires
            self.wf(),
        ensures
            b == byte_offset(self.text(), self.cursor()),
    {
        self.byte
    }

    /// An error positioned at the cursor.
    pub fn err(&self, msg: String) -> (e: Error)
        requires
            self.wf(),
        ensures
            e.msg@ == msg@,
            e.line == Some(line_col(self.text(), self.cursor()).0 as usize),
            e.col == Some(line_col(self.text(), self.cursor()).1 as usize),
    {
        Error { msg, line: Some(self.line), col: Some(self.col) }
    }

    /// Consumes one line break (`\r\n`, `\n` or `\r`) under the cursor, if any.
    pub fn consume_one_line_break(&mut self)
        requires
            old(self).wf(),
        ensures
            final(self).wf(),
            final(self).text() == old(self).text(),
            final(self).cursor() == after_break(old(self).text(), old(self).cursor()),
    {
        match self.peek() {
            Some('\r') => {
                self.advance();
                if self.peek() == Some('\n') {
                    self.advance();
                }
            },
            Some('\n') => self.advance(),
            _ => {},
        }
    }

    /// Skips spaces and tabs.
    pub fn skip_blank_chars(&mut self)
        requires
            old(self).wf(),
        ensures
            final(self).wf(),
            final(self).text() == old(self).text(),
            final(self).cursor() == skip_blanks(old(self).text(), old(self).cursor()),
    {
        loop
            invariant
                self.wf(),
                self.text() == old(self).text(),
                skip_blanks(self.text(), self.cursor()) == skip_blanks(old(self).text(), old(self).cursor()),
            ensures
                self.wf(),
                self.text() == old(self).text(),
                self.cursor() == skip_blanks(old(self).text(), old(self).cursor()),
            decreases self.text().len() - self.cursor(),
        {
            match self.peek() {
                Some(' ') | Some('\t') => self.advance(),
                _ => break,
            }
        }
    }

    /// Moves to the end of the current line (onto its line break, or to the
    /// end of the text).
    pub fn skip_to_line_end(&mut self)
        requires
            old(self).wf(),
        ensures
            final(self).wf(),
            final(self).text() == old(self).text(),
            final(self).cursor() == line_end_from(old(self).text(), old(self).cursor()),
    {
        loop
            invariant
                self.wf(),
                self.text() == old(self).text(),
                line_end_from(self.text(), self.cursor()) == line_end_from(old(self).text(), old(self).cursor()),
            ensures
                self.wf(),
                self.text() == old(self).text(),
                self.cursor() == line_end_from(old(self).text(), old(self).cursor()),
            decreases self.text().len() - self.cursor(),
        {
            match self.peek() {
                None => break,
                Some(c) => {
                    if c == '\n' || c == '\r' {
                        break;
                    }
                    self.advance();
                },
            }
        }
    }

    /// The number of spaces that start the line at the cursor; an error when
    /// a tab follows them, as tabs may not indent.
    pub fn current_indent(&self) -> (r: Result<usize, Error>)
        requires
            self.wf(),
        ensures
            indent_has_tab(self.text(), self.cursor()) ==> (r matches Err(e) && positioned_at(e, self.text(), self.cursor())),
            !indent_has_tab(self.text(), self.cursor()) ==> r == Ok::<usize, Error>((skip_spaces(self.text(), self.cursor()) - self.cursor()) as usize),
    {
        proof { lemma_skip_spaces(self.text(), self.cursor()); }
        let mut n: usize = 0;
        while self.pos + n < self.src.len() && self.src[self.pos + n] == ' '
            invariant
                self.wf(),
                self.pos + n <= self.src.len(),
                skip_spaces(self.text(), self.pos + n) == skip_spaces(self.text(), self.cursor()),
            decreases self.src.len() - self.pos - n,
        {
            n = n + 1;
        }
        if self.pos + n < self.src.len() && self.src[self.pos + n] == '\t' {
            Err(self.err("tab in indentation".to_owned()))
        } else {
            Ok(n)
        }
    }

    /// Moves to the start of the next line.
    pub fn skip_to_next_line(&mut self)
        requires
            old(self).wf(),
        ensures
            final(self).wf(),
            final(self).text() == old(self).text(),
            final(self).cursor() == next_line(old(self).text(), old(self).cursor()),
    {
        loop
            invariant
                self.wf(),
                self.text() == old(self).text(),
                line_end_from(self.text(), self.cursor()) == line_end_from(old(self).text(), old(self).cursor()),
            ensures
                self.wf(),
                self.text() == old(self).text(),
                self.cursor() == line_end_from(old(self).text(), old(self).cursor()),
            decreases self.text().len() - self.cursor(),
        {
            match self.peek() {
                None => break,
                Some(c) => {
                    if c == '\n' || c == '\r' {
                        break;
                    }
                    self.advance();
                },
            }
        }
        self.consume_one_line_break();
    }

    /// Consumes a line break inside a flow scalar and appends what it folds
    /// to: one newline per empty line that follows, otherwise a newline
    /// when the next line is more indented than `parent_indent`, otherwise a
    /// space. Up to `parent_indent` leading spaces of the next line are
    /// consumed as indentation.
    pub fn consume_line_fold(&mut self, out: &mut String, parent_indent: usize)
        requires
            old(self).wf(),
            old(self).cursor() < old(self).text().len(),
            is_break(old(self).text()[old(self).cursor()]),
        ensures
            final(self).wf(),
            final(self).text() == old(self).text(),
            final(self).cursor() == fold(old(self).text(), old(self).cursor(), parent_indent as nat).1,
            final(out)@ == old(out)@ + fold(old(self).text(), old(self).cursor(), parent_indent as nat).0,
    {
        let ghost s = self.text();
        let ghost i0 = self.cursor();
        self.consume_one_line_break();
        let ghost j0 = self.cursor();
        let mut empty_lines: usize = 0;
        loop
            invariant
                self.wf(),
                self.text() == s,
                j0 <= self.cursor() <= s.len(),
                empty_lines <= self.cursor(),
                empty_lines_after(s, j0) == ((empty_lines + empty_lines_after(s, self.cursor()).0) as nat, empty_lines_after(s, self.cursor()).1),
            ensures
                self.wf(),
                self.text() == s,
                j0 <= self.cursor() <= s.len(),
                empty_lines_after(s, j0) == (empty_lines as nat, self.cursor()),
            decreases s.len() - self.cursor(),
        {
            let save_pos = self.pos;
            let save_byte = self.byte;
            let save_line = self.line;
            let save_col = self.col;
            let ghost here = self.cursor();
            proof { lemma_skip_blanks(s, here); }
            self.skip_blank_chars();
            match self.peek() {
                Some(c) => {
                    if c == '\n' || c == '\r' {
                        self.consume_one_line_break();
                        empty_lines = empty_lines + 1;
                    } else {
                        self.pos = save_pos;
                        self.byte = save_byte;
                        self.line = save_line;
                        self.col = save_col;
                        break;
                    }
                },
                None => {
                    self.pos = save_pos;
                    self.byte = save_byte;
                    self.line = save_line;
                    self.col = save_col;
                    break;
                },
            }
        }
        let ghost j = self.cursor();
        let mut k: usize = 0;
        while k < parent_indent
            invariant
                self.wf(),
                self.text() == s,
                k <= parent_indent,
                skip_spaces_upto(s, self.cursor(), (parent_indent - k) as nat) == skip_spaces_upto(s, j, parent_indent as nat),
            ensures
                self.wf(),
                self.text() == s,
                self.cursor() == skip_spaces_upto(s, j, parent_indent as nat),
            decreases parent_indent - k,
        {
            if self.peek() == Some(' ') {
                self.advance();
                k = k + 1;
            } else {
                break;
            }
        }
        if empty_lines > 0 {
            let mut n: usize = 0;
            let ghost base = out@;
            while n < empty_lines
                invariant
                    n <= empty_lines,
                    out@ == base + Seq::new(n as nat, |_i: int| '\n'),
                decreases empty_lines - n,
            {
                string_push(out, '\n');
                n = n + 1;
                assert(out@ =~= base + Seq::new(n as nat, |_i: int| '\n'));
            }
        } else {
            match self.peek() {
                Some(' ') | Some('\t') => string_push(out, '\n'),
                _ => string_push(out, ' '),
            }
        }
    }
}

/// The blank lines that follow the start of a line at `j`: how many there
/// are, and the start of the first line that is not blank (or the end of the
/// text). A blank line holds only spaces and tabs.
pub open spec fn empty_lines_after(s: Seq<char>, j: int) -> (nat, int)
    decreases s.len() - j,
{
    let k = skip_blanks(s, j);
    if 0 <= j && 0 <= k < s.len() && is_break(s[k]) {
        proof { lemma_skip_blanks(s, j); }
        let r = empty_lines_after(s, after_break(s, k));
        ((r.0 + 1) as nat, r.1)
    } else {
        (0, j)
    }
}

/// What a line break at `i` inside a flow scalar folds to, and the index at
/// which the scalar's content resumes.
pub open spec fn fold(s: Seq<char>, i: int, indent: nat) -> (Seq<char>, int) {
    let (n, j) = empty_lines_after(s, after_break(s, i));
    let k = skip_spaces_upto(s, j, indent);
    let chars = if n > 0 {
        Seq::new(n, |_i: int| '\n')
    } else if 0 <= k < s.len() && is_blank(s[k]) {
        seq!['\n']
    } else {
        seq![' ']
    };
    (chars, k)
}

pub proof fn lemma_empty_lines_after(s: Seq<char>, j: int)
    requires
        0 <= j <= s.len(),
    ensures
        j <= empty_lines_after(s, j).1 <= s.len(),
        empty_lines_after(s, j).0 <= empty_lines_after(s, j).1 - j,
    decreases s.len() - j,
{
    let k = skip_blanks(s, j);
    lemma_skip_blanks(s, j);
    if 0 <= k < s.len() && is_break(s[k]) {
        lemma_empty_lines_after(s, after_break(s, k));
    }
}

/// The fold of a line break moves strictly forward.
pub proof fn lemma_fold(s: Seq<char>, i: int, indent: nat)
    requires
        0 <= i < s.len(),
        is_break(s[i]),
    ensures
        i < fold(s, i, indent).1 <= s.len(),
{
    let j0 = after_break(s, i);
    lemma_empty_lines_after(s, j0);
    let j = empty_lines_after(s, j0).1;
    lemma_skip_spaces_upto(s, j, indent);
}

} // verus!
