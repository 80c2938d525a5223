//! What a parse reports when the text is not well-formed.

use vstd::prelude::*;
use vstd::string::*;
use vstd::utf8::*;

use crate::grammar::Fault;
use crate::text;
use crate::text::{chars_of, decimal_chars, string_of};

verus! {

/// Where a text is not well-formed, in bytes from its start, and why.
#[derive(Debug, Clone, PartialEq, Eq)]
pub struct ParseError {
    pub offset: u32,
    pub message: String,
    pub expected: Vec<&'static str>,
}

impl View for ParseError {
    type V = Fault;

    open spec fn view(&self) -> Fault {
        Fault { offset: self.offset as int, message: self.message@ }
    }
}

/// How many line feeds there are before byte `n` of `s`.
pub open spec fn breaks_before(s: Seq<u8>, n: int) -> int
    decreases n,
{
    if n <= 0 {
        0
    } else {
        breaks_before(s, n - 1) + if s[n - 1] == 0x0a {
            1int
        } else {
            0int
        }
    }
}

/// How many bytes there are between the last line feed before byte `n` of `s`,
/// or the start, and `n`.
pub open spec fn since_break(s: Seq<u8>, n: int) -> int
    decreases n,
{
    if n <= 0 || s[n - 1] == 0x0a {
        0
    } else {
        since_break(s, n - 1) + 1
    }
}

impl ParseError {
    /// An error at byte `offset`.
    pub fn new(offset: u32, message: &str) -> (r: Self)
        ensures
            r@ == (Fault { offset: offset as int, message: message@ }),
            r.expected@.len() == 0,
    {
        Self { offset, message: string_of(&chars_of(message)), expected: Vec::new() }
    }

    /// The byte of `source` that the error is at, or its end where the error
    /// lies behind it.
    pub open spec fn clamped(&self, source: &str) -> int {
        if self.offset < source.spec_bytes().len() {
            self.offset as int
        } else {
            source.spec_bytes().len() as int
        }
    }

    /// 1-based line, 0-based byte column within the line.
    pub fn line_col(&self, source: &str) -> (r: (u32, u32))
        requires
            is_char_boundary(source.spec_bytes(), self.clamped(source)),
            breaks_before(source.spec_bytes(), self.clamped(source)) < u32::MAX,
        ensures
            r.0 == breaks_before(source.spec_bytes(), self.clamped(source)) + 1,
            r.1 == since_break(source.spec_bytes(), self.clamped(source)),
    {
        let bytes = source.as_bytes();
        let off: usize = if (self.offset as usize) < bytes.len() {
            self.offset as usize
        } else {
            bytes.len()
        };
        let ghost s = bytes@;
        let mut line: u32 = 1;
        let mut col: u32 = 0;
        let mut i: usize = 0;
        proof {
            lemma_breaks_grow(s, 0, off as int);
        }
        while i < off
            invariant
                s == bytes@,
                i <= off <= s.len(),
                off <= self.offset,
                line == breaks_before(s, i as int) + 1,
                col == since_break(s, i as int),
                col <= i,
                breaks_before(s, off as int) < u32::MAX,
            decreases off - i,
        {
            proof {
                lemma_breaks_grow(s, i + 1, off as int);
            }
            if bytes[i] == 0x0a {
                line = line + 1;
                col = 0;
            } else {
                col = col + 1;
            }
            i = i + 1;
        }
        (line, col)
    }

    /// The error in words, with the byte it is at.
    pub fn to_text(&self) -> (r: String)
        ensures
            r@ == self.message@ + " at byte "@ + text::decimal(self.offset as nat),
    {
        let mut out = string_of(&chars_of(self.message.as_str()));
        out.push_str(" at byte ");
        out.push_str(string_of(&decimal_chars(self.offset as u64)).as_str());
        out
    }
}

/// There are no fewer line feeds before a later byte.
proof fn lemma_breaks_grow(s: Seq<u8>, a: int, b: int)
    requires
        0 <= a <= b,
    ensures
        0 <= breaks_before(s, a) <= breaks_before(s, b),
    decreases b,
{
    if a < b {
        lemma_breaks_grow(s, a, b - 1);
    } else if b > 0 {
        lemma_breaks_grow(s, b - 1, b - 1);
    }
}

} // verus!
