//! Escape sequences inside double-quoted scalars.
use vstd::prelude::*;

use super::{after_break, char_at, is_break, lemma_skip_blanks, positioned_at, skip_blanks, Parser};
use crate::error::Error;
use crate::text::{char_from_u32, hex_digit, hex_digit_value, is_unicode_scalar, push_decimal, string_push};

verus! {

/// The character that a one-character escape `\c` stands for.
pub open spec fn simple_escape(c: char) -> Option<char> {
    if c == '0' { Some('\0') }
    else if c == 'a' { Some('\x07') }
    else if c == 'b' { Some('\x08') }
    else if c == 't' { Some('\t') }
    else if c == 'n' { Some('\n') }
    else if c == 'v' { Some('\x0B') }
    else if c == 'f' { Some('\x0C') }
    else if c == 'r' { Some('\r') }
    else if c == 'e' { Some('\x1B') }
    else if c == ' ' { Some(' ') }
    else if c == '"' { Some('"') }
    else if c == '/' { Some('/') }
    else if c == '\\' { Some('\\') }
    else if c == 'N' { Some('\u{85}') }
    else if c == '_' { Some('\u{A0}') }
    else if c == 'L' { Some('\u{2028}') }
    else if c == 'P' { Some('\u{2029}') }
    else { None }
}

/// The value of the `n` hexadecimal digits starting at `i`, or `None` when
/// the text ends first or one of them is not a hex digit.
pub open spec fn hex_run_value(s: Seq<char>, i: int, n: nat) -> Option<nat>
    decreases n,
{
    if n == 0 {
        Some(0)
    } else {
        match (hex_run_value(s, i, (n - 1) as nat), char_at(s, i + n - 1)) {
            (Some(v), Some(c)) => match hex_digit_value(c) {
                Some(d) => Some(v * 16 + d),
                None => None,
            },
            _ => None,
        }
    }
}

/// A hex escape of `n` digits starting at `i`: the character it names and
/// the index after it, or `None` when the digits are missing or invalid or
/// do not name a Unicode scalar value.
pub open spec fn hex_escape(s: Seq<char>, i: int, n: nat) -> Option<(Seq<char>, int)> {
    match hex_run_value(s, i, n) {
        Some(v) => if is_unicode_scalar(v) { Some((seq![v as char], i + n)) } else { None },
        None => None,
    }
}

/// The characters that the escape after a backslash at `k - 1` stands for,
/// and the index after the escape. An escaped line break (a line
/// continuation) stands for nothing and also swallows the next line's
/// leading blanks.
pub open spec fn escape(s: Seq<char>, k: int) -> Option<(Seq<char>, int)> {
    match char_at(s, k) {
        None => None,
        Some(c) => match simple_escape(c) {
            Some(d) => Some((seq![d], k + 1)),
            None => if c == 'x' {
                hex_escape(s, k + 1, 2)
            } else if c == 'u' {
                hex_escape(s, k + 1, 4)
            } else if c == 'U' {
                hex_escape(s, k + 1, 8)
            } else if is_break(c) {
                Some((Seq::empty(), skip_blanks(s, after_break(s, k))))
            } else {
                None
            },
        },
    }
}

/// Where reading `n` hex digits from `i` stops on an error, the first `k`
/// of them read: at the first one that is missing or is not a hex digit,
/// or just after them all when they name no Unicode scalar value.
pub open spec fn hex_stop(s: Seq<char>, i: int, k: nat, n: nat) -> int
    decreases n - k,
{
    if k >= n {
        i + n
    } else {
        match char_at(s, i + k) {
            Some(c) => if hex_digit_value(c) is Some { hex_stop(s, i, k + 1, n) } else { i + k },
            None => i + k,
        }
    }
}

/// Where decoding the escape after a backslash at `k - 1` stops on an
/// error: on the character after the backslash (or at the end of the text),
/// or where its hex digits go wrong (see [`hex_stop`]).
pub open spec fn escape_stop(s: Seq<char>, k: int) -> int {
    match char_at(s, k) {
        Some(c) => if c == 'x' {
            hex_stop(s, k + 1, 0, 2)
        } else if c == 'u' {
            hex_stop(s, k + 1, 0, 4)
        } else if c == 'U' {
            hex_stop(s, k + 1, 0, 8)
        } else {
            k
        },
        None => k,
    }
}

pub open spec fn pow16(n: nat) -> nat
    decreases n,
{
    if n == 0 { 1 } else { 16 * pow16((n - 1) as nat) }
}

/// An escape moves forward and stays inside the text.
pub proof fn lemma_escape_advances(s: Seq<char>, k: int)
    requires
        0 <= k <= s.len(),
    ensures
        escape(s, k) matches Some((_, j)) ==> k < j <= s.len(),
{
    if let Some(c) = char_at(s, k) {
        if simple_escape(c) is None && is_break(c) {
            lemma_skip_blanks(s, after_break(s, k));
        }
        if c == 'x' { lemma_hex_run_in_text(s, k + 1, 2); }
        if c == 'u' { lemma_hex_run_in_text(s, k + 1, 4); }
        if c == 'U' { lemma_hex_run_in_text(s, k + 1, 8); }
    }
}

proof fn lemma_hex_run_in_text(s: Seq<char>, i: int, n: nat)
    requires
        0 <= i,
    ensures
        n > 0 && hex_run_value(s, i, n) is Some ==> i + n <= s.len(),
        hex_run_value(s, i, n) matches Some(v) ==> v < pow16(n),
    decreases n,
{
    if n > 0 {
        lemma_hex_run_in_text(s, i, (n - 1) as nat);
        if let Some(v) = hex_run_value(s, i, (n - 1) as nat) {
            if let Some(c) = char_at(s, i + n - 1) {
                if let Some(d) = hex_digit_value(c) {
                    let p = pow16((n - 1) as nat);
                    assert(v * 16 + d < 16 * p) by (nonlinear_arith)
                        requires v < p, d < 16;
                }
            }
        }
    }
}

/// The character whose code is the first byte of `c` in UTF-8: how a
/// reader that goes byte by byte names the character it stopped at.
fn first_byte_char(c: char) -> (r: char)
    ensures
        (c as u32) < 0x80 ==> r == c,
        (r as u32) < 0x100,
{
    let u = c as u32;
    let b: u32 = if u < 0x80 {
        u
    } else if u < 0x800 {
        0xC0 | (u >> 6u32)
    } else if u < 0x10000 {
        0xE0 | (u >> 12u32)
    } else {
        0xF0 | (u >> 18u32)
    };
    assert(b < 0x100) by (bit_vector)
        requires
            u <= 0x10FFFF,
            b == (if u < 0x80 { u } else if u < 0x800 { 0xC0 | (u >> 6u32) } else if u < 0x10000 {
                0xE0 | (u >> 12u32)
            } else {
                0xF0 | (u >> 18u32)
            });
    let r = char_from_u32(b).unwrap();
    r
}

impl<'a> Parser<'a> {
    /// Decodes the escape that follows a backslash (the cursor is just past
    /// the backslash), appending the characters it stands for. On an error
    /// nothing is appended and the cursor is left where the escape went
    /// wrong (see [`escape_stop`]).
    pub fn decode_double_quoted_escape(&mut self, out: &mut String, _parent_indent: usize) -> (r: Result<(), Error>)
        requires
            old(self).wf(),
        ensures
            final(self).wf(),
            final(self).text() == old(self).text(),
            match escape(old(self).text(), old(self).cursor()) {
                Some((chars, j)) => r is Ok && final(out)@ == old(out)@ + chars && final(self).cursor() == j,
                None => r matches Err(e) && positioned_at(e, final(self).text(), final(self).cursor())
                    && final(self).cursor() == escape_stop(old(self).text(), old(self).cursor()),
            },
            r is Err ==> final(out)@ == old(out)@,
    {
        let ghost s = self.text();
        let ghost k = self.cursor();
        let c = match self.peek() {
            Some(c) => c,
            None => return Err(self.err("escape at EOF".to_owned())),
        };
        match c {
            '0' => {
                string_push(out, '\0');
                self.advance();
            },
            'a' => {
                string_push(out, '\x07');
                self.advance();
            },
            'b' => {
                string_push(out, '\x08');
                self.advance();
            },
            't' => {
                string_push(out, '\t');
                self.advance();
            },
            'n' => {
                string_push(out, '\n');
                self.advance();
            },
            'v' => {
                string_push(out, '\x0B');
                self.advance();
            },
            'f' => {
                string_push(out, '\x0C');
                self.advance();
            },
            'r' => {
                string_push(out, '\r');
                self.advance();
            },
            'e' => {
                string_push(out, '\x1B');
                self.advance();
            },
            ' ' => {
                string_push(out, ' ');
                self.advance();
            },
            '"' => {
                string_push(out, '"');
                self.advance();
            },
            '/' => {
                string_push(out, '/');
                self.advance();
            },
            '\\' => {
                string_push(out, '\\');
                self.advance();
            },
            'N' => {
                string_push(out, '\u{85}');
                self.advance();
            },
            '_' => {
                string_push(out, '\u{A0}');
                self.advance();
            },
            'L' => {
                string_push(out, '\u{2028}');
                self.advance();
            },
            'P' => {
                string_push(out, '\u{2029}');
                self.advance();
            },
            'x' => {
                self.advance();
                return self.parse_hex_escape(2, out);
            },
            'u' => {
                self.advance();
                return self.parse_hex_escape(4, out);
            },
            'U' => {
                self.advance();
                return self.parse_hex_escape(8, out);
            },
            '\n' | '\r' => {
                self.consume_one_line_break();
                self.skip_blank_chars();
            },
            _ => {
                let mut msg = "unknown escape \\".to_owned();
                string_push(&mut msg, first_byte_char(c));
                return Err(self.err(msg));
            },
        }
        assert(final(out)@ =~= old(out)@ + escape(s, k).unwrap().0);
        Ok(())
    }

    /// Reads `n` hexadecimal digits and appends the character they name. On
    /// an error nothing is appended and the cursor is left where the digits
    /// went wrong (see [`hex_stop`]).
    pub fn parse_hex_escape(&mut self, n: usize, out: &mut String) -> (r: Result<(), Error>)
        requires
            old(self).wf(),
            n <= 8,
        ensures
            final(self).wf(),
            final(self).text() == old(self).text(),
            match hex_escape(old(self).text(), old(self).cursor(), n as nat) {
                Some((chars, j)) => r is Ok && final(out)@ == old(out)@ + chars && final(self).cursor() == j,
                None => r matches Err(e) && positioned_at(e, final(self).text(), final(self).cursor())
                    && final(self).cursor() == hex_stop(old(self).text(), old(self).cursor(), 0, n as nat),
            },
            r is Err ==> final(out)@ == old(out)@,
    {
        let ghost s = self.text();
        let start = self.pos;
        let mut v: u64 = 0;
        let mut k: usize = 0;
        proof {
            lemma_hex_run_in_text(s, start as int, 0);
            lemma_pow16_mono(0, 8);
            reveal_with_fuel(pow16, 9);
        }
        while k < n
            invariant
                self.wf(),
                s == old(self).text(),
                start == old(self).cursor(),
                out@ == old(out)@,
                self.text() == s,
                k <= n <= 8,
                self.cursor() == start + k,
                hex_run_value(s, start as int, k as nat) == Some(v as nat),
                hex_stop(s, start as int, 0, n as nat) == hex_stop(s, start as int, k as nat, n as nat),
                v < pow16(k as nat),
                pow16(k as nat) <= pow16(8),
                pow16(8) == 4294967296,
            decreases n - k,
        {
            let b = match self.peek() {
                Some(b) => b,
                None => {
                    proof { lemma_hex_run_none_after(s, start as int, (k + 1) as nat, n as nat); }
                    return Err(self.err("truncated hex escape".to_owned()));
                },
            };
            let d = match hex_digit(b) {
                Some(d) => d,
                None => {
                    proof { lemma_hex_run_none_after(s, start as int, (k + 1) as nat, n as nat); }
                    let mut msg = "invalid hex digit in \\".to_owned();
                    push_decimal(&mut msg, n as u64);
                    string_push(&mut msg, first_byte_char(b));
                    return Err(self.err(msg));
                },
            };
            proof {
                lemma_hex_run_in_text(s, start as int, (k + 1) as nat);
                lemma_pow16_mono((k + 1) as nat, 8);
            }
            v = v * 16 + d as u64;
            self.advance();
            k = k + 1;
        }
        let c = match char_from_u32(v as u32) {
            Some(c) => c,
            None => return Err(self.err("invalid unicode codepoint".to_owned())),
        };
        string_push(out, c);
        Ok(())
    }
}

proof fn lemma_pow16_mono(a: nat, b: nat)
    requires
        a <= b,
    ensures
        pow16(a) <= pow16(b),
    decreases b,
{
    if a < b {
        lemma_pow16_mono(a, (b - 1) as nat);
    }
}

/// Once a digit is missing, every longer run fails too.
proof fn lemma_hex_run_none_after(s: Seq<char>, i: int, k: nat, n: nat)
    requires
        hex_run_value(s, i, k) is None,
        k <= n,
    ensures
        hex_run_value(s, i, n) is None,
    decreases n - k,
{
    if k < n {
        lemma_hex_run_none_after(s, i, k + 1, n);
    }
}

} // verus!
