//! Positions in a source text and how scanning moves them forward.

use vstd::prelude::*;
use crate::text::{byte_len, char_len_utf8, char_width, lemma_byte_len_concat, str_byte_len};

verus! {

/// Wrapping addition on `usize`, as release builds perform `+=`.
pub open spec fn wrap_add(x: usize, n: int) -> usize {
    if x + n > usize::MAX {
        (x + n - (usize::MAX + 1)) as usize
    } else {
        (x + n) as usize
    }
}

/// A position in a source text, advanced by the scanners as they consume input.
pub trait SourcePos: Sized {
    /// The position at the very beginning of a text.
    spec fn origin() -> Self;

    /// The position after one more character that is not a line break.
    spec fn after_char(self, c: char) -> Self;

    /// The position after a line break (`crlf`: it was written as `\r\n`).
    spec fn after_newline(self, crlf: bool) -> Self;

    /// The position after a piece of text that holds no line break.
    spec fn after_line(self, s: Seq<char>) -> Self;

    /// The position after a piece of text that may hold line breaks.
    spec fn after_text(self, s: Seq<char>) -> Self;

    fn start() -> (r: Self)
        ensures
            r == Self::origin(),
    ;

    /// A copy of this position.
    fn copied(&self) -> (r: Self)
        ensures
            r == *self,
    ;

    fn update(&mut self, c: char)
        ensures
            *final(self) == old(self).after_char(c),
    ;

    fn update_newline(&mut self, rn: bool)
        ensures
            *final(self) == old(self).after_newline(rn),
    ;

    fn update_str_no_newline(&mut self, s: &str)
        ensures
            *final(self) == old(self).after_line(s@),
    ;

    fn update_str_maybe_newline(&mut self, s: &str)
        ensures
            *final(self) == old(self).after_text(s@),
    ;
}

/// The unit position: for scanners that do not track where they are.
impl SourcePos for () {
    open spec fn origin() -> Self {
        ()
    }

    open spec fn after_char(self, c: char) -> Self {
        ()
    }

    open spec fn after_newline(self, crlf: bool) -> Self {
        ()
    }

    open spec fn after_line(self, s: Seq<char>) -> Self {
        ()
    }

    open spec fn after_text(self, s: Seq<char>) -> Self {
        ()
    }

    fn start() -> (r: Self) {
    }

    fn copied(&self) -> (r: Self) {
    }

    fn update(&mut self, c: char) {
    }

    fn update_newline(&mut self, rn: bool) {
    }

    fn update_str_no_newline(&mut self, s: &str) {
    }

    fn update_str_maybe_newline(&mut self, s: &str) {
    }
}

/// A position given as the number of UTF-8 bytes before it.
#[derive(Clone, Copy, Debug, PartialEq, Eq, Hash, Default)]
pub struct ByteOffset {
    pub offset: usize,
}

impl SourcePos for ByteOffset {
    open spec fn origin() -> Self {
        ByteOffset { offset: 0 }
    }

    open spec fn after_char(self, c: char) -> Self {
        ByteOffset { offset: wrap_add(self.offset, char_width(c) as int) }
    }

    open spec fn after_newline(self, crlf: bool) -> Self {
        ByteOffset { offset: wrap_add(self.offset, if crlf { 2 } else { 1 }) }
    }

    open spec fn after_line(self, s: Seq<char>) -> Self {
        ByteOffset { offset: wrap_add(self.offset, byte_len(s) as int) }
    }

    open spec fn after_text(self, s: Seq<char>) -> Self {
        ByteOffset { offset: wrap_add(self.offset, byte_len(s) as int) }
    }

    fn start() -> (r: Self) {
        ByteOffset { offset: 0 }
    }

    fn copied(&self) -> (r: Self) {
        *self
    }

    fn update(&mut self, c: char) {
        self.offset = self.offset.wrapping_add(char_len_utf8(c));
    }

    fn update_newline(&mut self, rn: bool) {
        self.offset = self.offset.wrapping_add(if rn { 2 } else { 1 });
    }

    fn update_str_no_newline(&mut self, s: &str) {
        self.offset = self.offset.wrapping_add(str_byte_len(s));
    }

    fn update_str_maybe_newline(&mut self, s: &str) {
        self.offset = self.offset.wrapping_add(str_byte_len(s));
    }
}

/// Moving a byte offset past `a` and then past `b` is moving it past `a + b`, by the
/// number of bytes they take, as long as the offset fits in a `usize`.
pub proof fn law_offset_additive(p: ByteOffset, a: Seq<char>, b: Seq<char>)
    requires
        p.offset + byte_len(a) + byte_len(b) <= usize::MAX,
    ensures
        p.after_text(a + b) == p.after_text(a).after_text(b),
        p.after_text(a + b).offset == p.offset + byte_len(a + b),
{
    lemma_byte_len_concat(a, b);
}

/// A stretch of source text between two positions.
#[derive(Clone, Copy, Debug, PartialEq, Eq, Hash)]
pub struct SourceRange<P> {
    pub start: P,
    pub end: P,
}

} // verus!
