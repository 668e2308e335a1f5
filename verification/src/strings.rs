//! `ParseStr`: a cursor over a borrowed string slice that keeps track of a
//! source position while it hands out the text it reads.

use vstd::prelude::*;
use crate::parsesource::ParseSource;
use crate::sourcerefs::{ByteOffset, SourcePos};
use crate::text::{
    byte_len, char_len_utf8, is_ws, lemma_byte_len_push, lemma_byte_len_take, split_at_chars,
    split_first_char, first_char, str_byte_len, str_starts_with,
};

verus! {

/// Whether `c` breaks a line.
pub open spec fn is_line_break(c: char) -> bool {
    c == '\r' || c == '\n'
}

/// The bracket depth before position `k` of `s`: `open` raises it, `close` lowers it
/// when it is positive. With `close_first`, a character equal to both counts as `close`
/// when the depth is positive.
pub open spec fn bracket_depth(s: Seq<char>, open: char, close: char, close_first: bool, k: int) -> int
    decreases k,
{
    if k <= 0 {
        0
    } else {
        let d = bracket_depth(s, open, close, close_first, k - 1);
        let c = s[k - 1];
        if close_first {
            if c == close && d > 0 {
                d - 1
            } else if c == open {
                d + 1
            } else {
                d
            }
        } else {
            if c == open {
                d + 1
            } else if c == close && d > 0 {
                d - 1
            } else {
                d
            }
        }
    }
}

/// Whether the predicate is asked about position `k`: the depth there is zero and the
/// character is not an opening bracket.
pub open spec fn bracket_free(s: Seq<char>, open: char, close: char, close_first: bool, k: int) -> bool {
    bracket_depth(s, open, close, close_first, k) == 0 && s[k] != open
}

/// With distinct brackets, it does not matter which of them a depth count tests first.
pub proof fn lemma_bracket_depth_order(s: Seq<char>, open: char, close: char, k: int)
    requires
        open != close,
    ensures
        bracket_depth(s, open, close, false, k) == bracket_depth(s, open, close, true, k),
    decreases k,
{
    if k > 0 {
        lemma_bracket_depth_order(s, open, close, k - 1);
    }
}

/// Whether a scan of `s` for a predicate `pred` may stop after `n` characters: every
/// character before, outside brackets, may be refused, and the one at `n`, if any, is
/// outside brackets and may be accepted.
pub open spec fn bracket_scan_may_stop<F: Fn(char) -> bool>(
    s: Seq<char>,
    open: char,
    close: char,
    close_first: bool,
    pred: F,
    n: int,
) -> bool {
    &&& 0 <= n <= s.len()
    &&& forall|j: int|
        0 <= j < n && bracket_free(s, open, close, close_first, j) ==> call_ensures(pred, (#[trigger] s[j],), false)
    &&& n < s.len() ==> bracket_free(s, open, close, close_first, n) && call_ensures(pred, (s[n],), true)
}

/// With distinct brackets and a predicate that answers each character one way,
/// `preview_until_with_brackets` gives what `read_until_with_brackets` would read from
/// the same text: both stop after the same number `n` of characters (and each returns
/// the first `n` characters of the text).
pub proof fn law_preview_reads_as_read<F: Fn(char) -> bool>(
    s: Seq<char>,
    open: char,
    close: char,
    pred: F,
    m: int,
    n: int,
)
    requires
        open != close,
        forall|c: char, x: bool, y: bool|
            call_ensures(pred, (c,), x) && call_ensures(pred, (c,), y) ==> x == y,
        bracket_scan_may_stop(s, open, close, false, pred, m),
        bracket_scan_may_stop(s, open, close, true, pred, n),
    ensures
        m == n,
{
    lemma_bracket_depth_order(s, open, close, m);
    lemma_bracket_depth_order(s, open, close, n);
    if m < n {
        assert(bracket_free(s, open, close, true, m));
        assert(call_ensures(pred, (s[m],), false));
        assert(call_ensures(pred, (s[m],), true));
    } else if n < m {
        assert(bracket_free(s, open, close, false, n));
        assert(call_ensures(pred, (s[n],), false));
        assert(call_ensures(pred, (s[n],), true));
    }
}

/// Depths are never negative and never exceed the number of characters seen.
pub proof fn lemma_bracket_depth_bounds(s: Seq<char>, open: char, close: char, close_first: bool, k: int)
    ensures
        0 <= bracket_depth(s, open, close, close_first, k),
        k >= 0 ==> bracket_depth(s, open, close, close_first, k) <= k,
    decreases k,
{
    if k > 0 {
        lemma_bracket_depth_bounds(s, open, close, close_first, k - 1);
    }
}

/// Where a scan for `find` stops when `escape` makes the character after it literal:
/// the index of the first unescaped `find` at or after `j`, or the length.
pub open spec fn escape_stop(s: Seq<char>, find: char, escape: char, j: int) -> int
    decreases s.len() + 1 - j,
{
    if j < 0 || j >= s.len() {
        s.len() as int
    } else if s[j] == escape {
        escape_stop(s, find, escape, j + 2)
    } else if s[j] == find {
        j
    } else {
        escape_stop(s, find, escape, j + 1)
    }
}

/// Whether every answer `pred` can give for `c` is `true`.
pub open spec fn must_accept<F: Fn(char) -> bool>(pred: F, c: char) -> bool {
    forall|b: bool| call_ensures(pred, (c,), b) ==> b
}

/// How many characters `pop_head` consumes from `s`: a `\r\n` pair counts as one line break.
pub open spec fn head_len(s: Seq<char>) -> int {
    if s.len() == 0 {
        0
    } else if s[0] == '\r' && s.len() > 1 && s[1] == '\n' {
        2
    } else {
        1
    }
}

/// What `pop_head` returns for `s`: line breaks of every kind read as `\n`.
pub open spec fn head_char(s: Seq<char>) -> Option<char> {
    if s.len() == 0 {
        None
    } else if s[0] == '\r' {
        Some('\n')
    } else {
        Some(s[0])
    }
}

/// The position after `pop_head` reads the head of `s`.
pub open spec fn pop_step<P: SourcePos>(p: P, s: Seq<char>) -> P {
    if s.len() == 0 {
        p
    } else if s[0] == '\n' {
        p.after_newline(false)
    } else if s[0] == '\r' {
        p.after_newline(s.len() > 1 && s[1] == '\n')
    } else {
        p.after_char(s[0])
    }
}

/// The position after reading `s` one character at a time, where `\n`, `\r\n` and a
/// lone `\r` each count as one line break.
pub open spec fn pos_after_pops<P: SourcePos>(p: P, s: Seq<char>) -> P
    decreases s.len(),
{
    if s.len() == 0 {
        p
    } else {
        pos_after_pops(pop_step(p, s), s.skip(head_len(s)))
    }
}

/// A cursor over a string slice: the text not yet read, and the position reached.
pub struct ParseStr<'a, P: SourcePos> {
    input: &'a str,
    pub pos: P,
}

impl<'a, P: SourcePos> ParseStr<'a, P> {
    /// The text not yet read.
    pub closed spec fn remaining(&self) -> Seq<char> {
        self.input@
    }

    /// Whether the first `i` bytes of the remaining text end on a character boundary.
    pub open spec fn is_boundary(&self, i: int) -> bool {
        exists|k: int| 0 <= k <= self.remaining().len() && i == byte_len(#[trigger] self.remaining().take(k))
    }

    /// The number of characters in the first `i` bytes of the remaining text.
    pub open spec fn chars_in(&self, i: int) -> int {
        choose|k: int| 0 <= k <= self.remaining().len() && i == byte_len(#[trigger] self.remaining().take(k))
    }

    /// The position reached.
    pub closed spec fn position(&self) -> P {
        self.pos
    }

    pub fn new(input: &'a str) -> (r: Self)
        ensures
            r.remaining() == input@,
            r.position() == P::origin(),
    {
        Self { input, pos: P::start() }
    }

    #[inline]
    pub fn starts_with_str(&self, s: &str) -> (b: bool)
        ensures
            b == s@.is_prefix_of(self.remaining()),
    {
        str_starts_with(self.input, s)
    }

    #[inline]
    pub fn rest(&self) -> (r: &'a str)
        ensures
            r@ == self.remaining(),
    {
        self.input
    }

    /// Reads up to the first suffix of the remaining text on which `pred` answers `true`
    /// (`pred` is never asked about the empty suffix); reads everything when there is none.
    pub fn read_until_is<F: Fn(&'a str) -> bool>(&mut self, pred: F) -> (r: &'a str)
        requires
            forall|t: &'a str| call_requires(pred, (t,)),
        ensures
            r@.len() <= old(self).remaining().len(),
            r@ == old(self).remaining().take(r@.len() as int),
            final(self).remaining() == old(self).remaining().skip(r@.len() as int),
            forall|j: int|
                #![trigger old(self).remaining().skip(j)]
                0 <= j < r@.len() ==> exists|t: &'a str|
                    t@ == old(self).remaining().skip(j) && call_ensures(pred, (t,), false),
            r@.len() < old(self).remaining().len() ==> exists|t: &'a str|
                t@ == old(self).remaining().skip(r@.len() as int) && call_ensures(pred, (t,), true),
            final(self).position() == old(self).position().after_text(r@),
    {
        let ghost s = self.input@;
        let n = str_byte_len(self.input);
        let mut curr = self.input;
        let mut i: usize = 0;
        let ghost mut k: int = 0;
        loop
            invariant
                0 <= k <= s.len(),
                curr@ == s.skip(k),
                i == byte_len(s.take(k)),
                n == byte_len(s),
                self.input@ == s,
                forall|t: &'a str| call_requires(pred, (t,)),
                forall|j: int|
                    #![trigger s.skip(j)]
                    0 <= j < k ==> exists|t: &'a str| t@ == s.skip(j) && call_ensures(pred, (t,), false),
            ensures
                0 <= k <= s.len(),
                i == byte_len(s.take(k)),
                self.input@ == s,
                forall|j: int|
                    #![trigger s.skip(j)]
                    0 <= j < k ==> exists|t: &'a str| t@ == s.skip(j) && call_ensures(pred, (t,), false),
                k < s.len() ==> exists|t: &'a str| t@ == s.skip(k) && call_ensures(pred, (t,), true),
            decreases curr@.len(),
        {
            if curr.is_empty() {
                break;
            }
            if pred(curr) {
                break;
            }
            let (c, next) = split_first_char(curr);
            proof {
                lemma_byte_len_push(s, k);
                lemma_byte_len_take(s, k + 1);
                assert(next@ =~= s.skip(k + 1));
                assert(s.skip(k) == curr@);
            }
            i = i + char_len_utf8(c);
            curr = next;
            proof {
                k = k + 1;
            }
        }
        let (l, r) = split_at_chars(self.input, i, Ghost(k));
        self.input = r;
        self.pos.update_str_maybe_newline(l);
        l
    }

    /// Reads up to and including the first character on which `pred` answers `true`.
    /// That character must be an ASCII one, and one must exist.
    pub fn read_until_inclusive<F: Fn(char) -> bool>(&mut self, pred: F) -> (r: &'a str)
        requires
            forall|c: char| call_requires(pred, (c,)),
            forall|j: int|
                #![trigger old(self).remaining()[j]]
                0 <= j < old(self).remaining().len() && call_ensures(pred, (old(self).remaining()[j],), true)
                    && (forall|i: int| 0 <= i < j ==> call_ensures(pred, (#[trigger] old(self).remaining()[i],), false))
                    ==> (old(self).remaining()[j] as u32) < 0x80,
            exists|k: int|
                0 <= k < old(self).remaining().len() && #[trigger] must_accept(
                    pred,
                    old(self).remaining()[k],
                ),
        ensures
            1 <= r@.len() <= old(self).remaining().len(),
            r@ == old(self).remaining().take(r@.len() as int),
            final(self).remaining() == old(self).remaining().skip(r@.len() as int),
            forall|j: int|
                0 <= j < r@.len() - 1 ==> call_ensures(pred, (#[trigger] old(self).remaining()[j],), false),
            call_ensures(pred, (old(self).remaining()[r@.len() - 1],), true),
            final(self).position() == old(self).position().after_text(r@),
    {
        let ghost s = self.input@;
        let n = str_byte_len(self.input);
        let (i, Ghost(k)) = scan_until(self.input, pred, true);
        proof {
            assert(s == old(self).remaining());
            if k == s.len() {
                let w = choose|w: int| 0 <= w < s.len() && #[trigger] must_accept(pred, s[w]);
                assert(0 <= w < k);
                assert(call_ensures(pred, (self.input@[w],), false));
                assert(false);
            }
            assert(call_ensures(pred, (s[k],), true));
            assert((s[k] as u32) < 0x80);
            lemma_byte_len_push(s, k);
            lemma_byte_len_take(s, k + 1);
        }
        let (l, r) = split_at_chars(self.input, i + 1, Ghost(k + 1));
        self.input = r;
        self.pos.update_str_maybe_newline(l);
        l
    }

    /// Reads `s` when the remaining text starts with it.
    pub fn drop_prefix(&mut self, s: &str) -> (b: bool)
        ensures
            b == s@.is_prefix_of(old(self).remaining()),
            b ==> final(self).remaining() == old(self).remaining().skip(s@.len() as int),
            b ==> final(self).position() == old(self).position().after_text(s@),
            !b ==> *final(self) == *old(self),
    {
        if str_starts_with(self.input, s) {
            let ghost t = self.input@;
            let n = str_byte_len(s);
            proof {
                assert(t.take(s@.len() as int) =~= s@);
            }
            let (_, r) = split_at_chars(self.input, n, Ghost(s@.len() as int));
            self.input = r;
            self.pos.update_str_maybe_newline(s);
            true
        } else {
            false
        }
    }

    /// The text before the first character, outside of `open`/`close` brackets, on which
    /// `pred` answers `true`; nothing is read.
    pub fn preview_until_with_brackets<F: Fn(char) -> bool>(
        &self,
        open: char,
        close: char,
        pred: F,
    ) -> (r: &'a str)
        requires
            forall|c: char| call_requires(pred, (c,)),
        ensures
            r@.len() <= self.remaining().len(),
            r@ == self.remaining().take(r@.len() as int),
            forall|j: int|
                0 <= j < r@.len() && bracket_free(self.remaining(), open, close, false, j)
                    ==> call_ensures(pred, (#[trigger] self.remaining()[j],), false),
            r@.len() < self.remaining().len() ==> bracket_free(
                self.remaining(),
                open,
                close,
                false,
                r@.len() as int,
            ) && call_ensures(pred, (self.remaining()[r@.len() as int],), true),
            bracket_scan_may_stop(self.remaining(), open, close, false, pred, r@.len() as int),
    {
        let (i, Ghost(k)) = scan_brackets(self.input, open, close, false, pred);
        let (l, _r) = split_at_chars(self.input, i, Ghost(k));
        l
    }

    /// Reads up to the first `find` that is not preceded by `escape` (the character after
    /// an `escape` is always taken literally).
    pub fn read_until_escaped(&mut self, find: char, escape: char) -> (r: &'a str)
        ensures
            r@ == old(self).remaining().take(escape_stop(old(self).remaining(), find, escape, 0)),
            final(self).remaining() == old(self).remaining().skip(
                escape_stop(old(self).remaining(), find, escape, 0),
            ),
            final(self).position() == old(self).position().after_text(r@),
    {
        let ghost s = self.input@;
        let n = str_byte_len(self.input);
        let mut rest = self.input;
        let mut i: usize = 0;
        let ghost mut k: int = 0;
        loop
            invariant
                0 <= k <= s.len(),
                rest@ == s.skip(k),
                i == byte_len(s.take(k)),
                n == byte_len(s),
                self.input@ == s,
                escape_stop(s, find, escape, 0) == escape_stop(s, find, escape, k),
            ensures
                0 <= k <= s.len(),
                i == byte_len(s.take(k)),
                self.input@ == s,
                escape_stop(s, find, escape, 0) == k,
            decreases rest@.len(),
        {
            if rest.is_empty() {
                break;
            }
            let (c, r1) = split_first_char(rest);
            proof {
                lemma_byte_len_push(s, k);
                lemma_byte_len_take(s, k + 1);
                assert(r1@ =~= s.skip(k + 1));
            }
            if c == escape {
                proof {
                    assert(escape_stop(s, find, escape, k) == escape_stop(s, find, escape, k + 2));
                    if k + 1 == s.len() {
                        assert(escape_stop(s, find, escape, k + 2) == s.len());
                        assert(escape_stop(s, find, escape, k + 1) == s.len());
                    }
                }
                i = i + char_len_utf8(c);
                rest = r1;
                proof {
                    k = k + 1;
                }
                if !rest.is_empty() {
                    let (d, r2) = split_first_char(rest);
                    proof {
                        lemma_byte_len_push(s, k);
                        lemma_byte_len_take(s, k + 1);
                        assert(r2@ =~= s.skip(k + 1));
                    }
                    i = i + char_len_utf8(d);
                    rest = r2;
                    proof {
                        k = k + 1;
                    }
                }
            } else if c == find {
                assert(escape_stop(s, find, escape, k) == k);
                break;
            } else {
                assert(escape_stop(s, find, escape, k) == escape_stop(s, find, escape, k + 1));
                i = i + char_len_utf8(c);
                rest = r1;
                proof {
                    k = k + 1;
                }
            }
        }
        let (l, r) = split_at_chars(self.input, i, Ghost(k));
        self.input = r;
        self.pos.update_str_maybe_newline(l);
        l
    }
}

/// Whether `c` breaks a line.
fn line_break(c: char) -> (b: bool)
    ensures
        b == is_line_break(c),
{
    c == '\r' || c == '\n'
}

/// The first position of `s` at which `stop` answers `want` (or the length), with the
/// number of bytes before it.
pub(crate) fn scan_until<F: Fn(char) -> bool>(s: &str, stop: F, want: bool) -> (r: (usize, Ghost<int>))
    requires
        forall|c: char| call_requires(stop, (c,)),
    ensures
        0 <= r.1@ <= s@.len(),
        r.0 == byte_len(s@.take(r.1@)),
        forall|j: int| 0 <= j < r.1@ ==> call_ensures(stop, (#[trigger] s@[j],), !want),
        r.1@ < s@.len() ==> call_ensures(stop, (s@[r.1@],), want),
{
    let n = str_byte_len(s);
    let mut rest = s;
    let mut i: usize = 0;
    let ghost mut k: int = 0;
    loop
        invariant
            0 <= k <= s@.len(),
            rest@ == s@.skip(k),
            i == byte_len(s@.take(k)),
            n == byte_len(s@),
            forall|c: char| call_requires(stop, (c,)),
            forall|j: int| 0 <= j < k ==> call_ensures(stop, (#[trigger] s@[j],), !want),
        ensures
            0 <= k <= s@.len(),
            i == byte_len(s@.take(k)),
            forall|j: int| 0 <= j < k ==> call_ensures(stop, (#[trigger] s@[j],), !want),
            k < s@.len() ==> call_ensures(stop, (s@[k],), want),
        decreases rest@.len(),
    {
        if rest.is_empty() {
            break;
        }
        let (c, r2) = split_first_char(rest);
        if stop(c) == want {
            break;
        }
        proof {
            lemma_byte_len_push(s@, k);
            lemma_byte_len_take(s@, k + 1);
            assert(r2@ =~= s@.skip(k + 1));
        }
        i = i + char_len_utf8(c);
        rest = r2;
        proof {
            k = k + 1;
        }
    }
    (i, Ghost(k))
}

impl<'a, P: SourcePos + 'a> ParseStr<'a, P> {

    pub fn source(&self) -> (r: &&'a str)
        ensures
            (*r)@ == self.remaining(),
    {
        &self.input
    }

    #[inline]
    pub fn curr_pos(&self) -> (r: P)
        ensures
            r == self.position(),
    {
        self.pos.copied()
    }

    pub fn pop_head(&mut self) -> (r: Option<char>)
        ensures
            r == head_char(old(self).remaining()),
            final(self).remaining() == old(self).remaining().skip(head_len(old(self).remaining())),
            final(self).position() == pop_step(old(self).position(), old(self).remaining()),
    {
        let ghost s = self.input@;
        let ghost p0 = self.pos;
        if self.input.is_empty() {
            assert(s.take(0) =~= Seq::<char>::empty());
            return None;
        }
        let (c, rest) = split_first_char(self.input);
        if c == '\n' {
            self.pos.update_newline(false);
            self.input = rest;
            proof {
                reveal_with_fuel(pos_after_pops, 2);
                assert(s.take(1).drop_first() =~= Seq::<char>::empty());
                assert(rest@ =~= s.skip(1));
            }
            Some('\n')
        } else if c == '\r' {
            let crlf = match first_char(rest) {
                Some(d) => d == '\n',
                None => false,
            };
            if crlf {
                let (_, r2) = split_first_char(rest);
                self.input = r2;
                self.pos.update_newline(true);
                proof {
                    reveal_with_fuel(pos_after_pops, 2);
                    assert(s.take(2).skip(2) =~= Seq::<char>::empty());
                    assert(r2@ =~= s.skip(2));
                }
            } else {
                self.input = rest;
                self.pos.update_newline(false);
                proof {
                    reveal_with_fuel(pos_after_pops, 2);
                    assert(s.take(1).drop_first() =~= Seq::<char>::empty());
                    assert(rest@ =~= s.skip(1));
                }
            }
            Some('\n')
        } else {
            self.pos.update(c);
            self.input = rest;
            proof {
                reveal_with_fuel(pos_after_pops, 2);
                assert(s.take(1).drop_first() =~= Seq::<char>::empty());
                assert(rest@ =~= s.skip(1));
            }
            Some(c)
        }
    }

    pub fn read_until_line_end(&mut self) -> (r: (&'a str, P))
        ensures
            r.0@.len() <= old(self).remaining().len(),
            r.0@ == old(self).remaining().take(r.0@.len() as int),
            forall|j: int|
                0 <= j < r.0@.len() ==> !is_line_break(#[trigger] old(self).remaining()[j]),
            r.0@.len() < old(self).remaining().len() ==> is_line_break(
                old(self).remaining()[r.0@.len() as int],
            ),
            final(self).remaining() == old(self).remaining().skip(
                r.0@.len() + head_len(old(self).remaining().skip(r.0@.len() as int)),
            ),
            r.1 == old(self).position().after_line(r.0@),
            final(self).position() == (if r.0@.len() < old(self).remaining().len() {
                r.1.after_newline(head_len(old(self).remaining().skip(r.0@.len() as int)) == 2)
            } else {
                r.1
            }),
    {
        let ghost s = self.input@;
        let (i, Ghost(k)) = scan_until(self.input, line_break, true);
        let (l, r) = split_at_chars(self.input, i, Ghost(k));
        if r.is_empty() {
            self.pos.update_str_no_newline(l);
            self.input = r;
            let pos = self.pos.copied();
            proof {
                assert(s.skip(k) =~= Seq::<char>::empty());
                assert(s.skip(k).skip(0) =~= s.skip(k));
            }
            return (l, pos);
        }
        let (c, r1) = split_first_char(r);
        let crlf = c == '\r' && match first_char(r1) {
            Some(d) => d == '\n',
            None => false,
        };
        self.pos.update_str_no_newline(l);
        let pos = self.pos.copied();
        if crlf {
            let (_, r2) = split_first_char(r1);
            self.input = r2;
            self.pos.update_newline(true);
            proof {
                assert(r2@ =~= s.skip(k + 2));
            }
        } else {
            self.input = r1;
            self.pos.update_newline(false);
            proof {
                assert(r1@ =~= s.skip(k + 1));
            }
        }
        (l, pos)
    }

    pub fn trim_start(&mut self)
        ensures
            final(self).remaining() == old(self).remaining().skip(
                crate::text::leading(old(self).remaining(), crate::text::ws()) as int,
            ),
            final(self).position() == pos_after_pops(
                old(self).position(),
                old(self).remaining().take(
                    crate::text::leading(old(self).remaining(), crate::text::ws()) as int,
                ),
            ),
    {
        let ghost s = self.input@;
        let ghost p0 = self.pos;
        let ghost mut k: int = 0;
        loop
            invariant
                0 <= k <= s.len(),
                self.input@ == s.skip(k),
                forall|j: int| 0 <= j < k ==> is_ws(#[trigger] s[j]),
                self.pos == pos_after_pops(p0, s.take(k)),
                pop_boundary(s, k),
            ensures
                0 <= k <= s.len(),
                self.input@ == s.skip(k),
                forall|j: int| 0 <= j < k ==> is_ws(#[trigger] s[j]),
                k < s.len() ==> !is_ws(s[k]),
                self.pos == pos_after_pops(p0, s.take(k)),
            decreases self.input@.len(),
        {
            if self.input.is_empty() {
                break;
            }
            let (c, rest) = split_first_char(self.input);
            if c == '\n' {
                self.input = rest;
                self.pos.update_newline(false);
                proof {
                    lemma_pops_step(p0, s, k);
                    assert(rest@ =~= s.skip(k + 1));
                    k = k + 1;
                }
            } else if c == '\r' {
                let crlf = match first_char(rest) {
                    Some(d) => d == '\n',
                    None => false,
                };
                if crlf {
                    let (_, r2) = split_first_char(rest);
                    self.input = r2;
                    self.pos.update_newline(true);
                    proof {
                        lemma_pops_step(p0, s, k);
                        assert(r2@ =~= s.skip(k + 2));
                        k = k + 2;
                    }
                } else {
                    self.input = rest;
                    self.pos.update_newline(false);
                    proof {
                        lemma_pops_step(p0, s, k);
                        assert(rest@ =~= s.skip(k + 1));
                        k = k + 1;
                    }
                }
            } else if crate::text::is_whitespace(c) {
                self.input = rest;
                self.pos.update(c);
                proof {
                    lemma_pops_step(p0, s, k);
                    assert(rest@ =~= s.skip(k + 1));
                    k = k + 1;
                }
            } else {
                break;
            }
        }
        proof {
            crate::text::lemma_leading_unique(s, crate::text::ws(), k);
        }
    }

    pub fn starts_with(&mut self, c: char) -> (b: bool)
        ensures
            b == (old(self).remaining().len() > 0 && old(self).remaining()[0] == c),
            *final(self) == *old(self),
    {
        match first_char(self.input) {
            Some(d) => d == c,
            None => false,
        }
    }

    pub fn peek_head(&mut self) -> (r: Option<char>)
        ensures
            r == (if old(self).remaining().len() > 0 {
                Some(old(self).remaining()[0])
            } else {
                None::<char>
            }),
            *final(self) == *old(self),
    {
        first_char(self.input)
    }

    pub fn read_n(&mut self, i: usize) -> (r: &'a str)
        requires
            old(self).is_boundary(i as int),
        ensures
            r@ == old(self).remaining().take(old(self).chars_in(i as int)),
            final(self).remaining() == (if r@.len() > 0 && r@.last() == '\r'
                && old(self).remaining().len() > r@.len()
                && old(self).remaining()[r@.len() as int] == '\n' {
                old(self).remaining().skip(r@.len() as int + 1)
            } else {
                old(self).remaining().skip(r@.len() as int)
            }),
            final(self).position() == old(self).position().after_text(r@),
    {
        let ghost s = self.input@;
        let ghost k = self.chars_in(i as int);
        let (l, r) = split_at_chars(self.input, i, Ghost(k));
        let ends_cr = if l.is_empty() {
            false
        } else {
            match last_char(l) {
                Some(c) => c == '\r',
                None => false,
            }
        };
        let mut rest = r;
        if ends_cr && !r.is_empty() {
            let (c, r1) = split_first_char(r);
            if c == '\n' {
                rest = r1;
                proof {
                    assert(r1@ =~= s.skip(k + 1));
                }
            }
        }
        self.input = rest;
        self.pos.update_str_maybe_newline(l);
        l
    }

    pub fn read_while<F: Fn(char) -> bool>(&mut self, pred: F) -> (r: &'a str)
        requires
            forall|c: char| call_requires(pred, (c,)),
        ensures
            r@.len() <= old(self).remaining().len(),
            r@ == old(self).remaining().take(r@.len() as int),
            final(self).remaining() == old(self).remaining().skip(r@.len() as int),
            forall|j: int|
                0 <= j < r@.len() ==> call_ensures(pred, (#[trigger] old(self).remaining()[j],), true),
            r@.len() < old(self).remaining().len() ==> call_ensures(
                pred,
                (old(self).remaining()[r@.len() as int],),
                false,
            ),
            final(self).position() == old(self).position().after_text(r@),
    {
        let (i, Ghost(k)) = scan_until(self.input, pred, false);
        let (l, r) = split_at_chars(self.input, i, Ghost(k));
        self.input = r;
        self.pos.update_str_maybe_newline(l);
        l
    }

    pub fn read_until<F: Fn(char) -> bool>(&mut self, pred: F) -> (r: &'a str)
        requires
            forall|c: char| call_requires(pred, (c,)),
        ensures
            r@.len() <= old(self).remaining().len(),
            r@ == old(self).remaining().take(r@.len() as int),
            final(self).remaining() == old(self).remaining().skip(r@.len() as int),
            forall|j: int|
                0 <= j < r@.len() ==> call_ensures(pred, (#[trigger] old(self).remaining()[j],), false),
            r@.len() < old(self).remaining().len() ==> call_ensures(
                pred,
                (old(self).remaining()[r@.len() as int],),
                true,
            ),
            final(self).position() == old(self).position().after_text(r@),
    {
        let (i, Ghost(k)) = scan_until(self.input, pred, true);
        let (l, r) = split_at_chars(self.input, i, Ghost(k));
        self.input = r;
        self.pos.update_str_maybe_newline(l);
        l
    }

    pub fn read_until_str(&mut self, s: &str) -> (r: &'a str)
        ensures
            r@.len() <= old(self).remaining().len(),
            r@ == old(self).remaining().take(r@.len() as int),
            final(self).remaining() == old(self).remaining().skip(r@.len() as int),
            forall|j: int|
                0 <= j < r@.len() ==> !s@.is_prefix_of(#[trigger] old(self).remaining().skip(j)),
            r@.len() < old(self).remaining().len() ==> s@.is_prefix_of(
                old(self).remaining().skip(r@.len() as int),
            ),
            final(self).position() == old(self).position().after_text(r@),
    {
        let (i, Ghost(k)) = find_str(self.input, s);
        let (l, r) = split_at_chars(self.input, i, Ghost(k));
        self.input = r;
        self.pos.update_str_maybe_newline(l);
        l
    }

    pub fn read_until_with_brackets<F: Fn(char) -> bool>(
        &mut self,
        open: char,
        close: char,
        pred: F,
    ) -> (r: &'a str)
        requires
            forall|c: char| call_requires(pred, (c,)),
        ensures
            r@.len() <= old(self).remaining().len(),
            r@ == old(self).remaining().take(r@.len() as int),
            final(self).remaining() == old(self).remaining().skip(r@.len() as int),
            forall|j: int|
                0 <= j < r@.len() && bracket_free(old(self).remaining(), open, close, true, j)
                    ==> call_ensures(pred, (#[trigger] old(self).remaining()[j],), false),
            r@.len() < old(self).remaining().len() ==> bracket_free(
                old(self).remaining(),
                open,
                close,
                true,
                r@.len() as int,
            ) && call_ensures(pred, (old(self).remaining()[r@.len() as int],), true),
            final(self).position() == old(self).position().after_text(r@),
            bracket_scan_may_stop(old(self).remaining(), open, close, true, pred, r@.len() as int),
    {
        let (i, Ghost(k)) = scan_brackets(self.input, open, close, true, pred);
        let (l, r) = split_at_chars(self.input, i, Ghost(k));
        self.input = r;
        self.pos.update_str_maybe_newline(l);
        l
    }

    pub fn skip(&mut self, i: usize)
        requires
            old(self).is_boundary(i as int),
        ensures
            final(self).remaining() == old(self).remaining().skip(old(self).chars_in(i as int)),
            final(self).position() == old(self).position().after_text(
                old(self).remaining().take(old(self).chars_in(i as int)),
            ),
    {
        let ghost k = self.chars_in(i as int);
        let (a, b) = split_at_chars(self.input, i, Ghost(k));
        self.input = b;
        self.pos.update_str_maybe_newline(a);
    }
}

impl<'a, P: SourcePos + 'a> ParseSource<'a> for ParseStr<'a, P> {
    type Pos = P;
    type Str = &'a str;
    type Source = &'a str;

    open spec fn can_split(&self, i: usize) -> bool {
        self.is_boundary(i as int)
    }

    open spec fn brackets_fit(&self, open: char, close: char, refuses: spec_fn(char) -> bool) -> bool {
        true
    }

    open spec fn until_fits(&self, s: Seq<char>) -> bool {
        true
    }

    fn source(&self) -> (r: &&'a str)
        ensures
            (*r)@ == self.remaining(),
    {
        ParseStr::source(self)
    }

    fn curr_pos(&self) -> (r: P)
        ensures
            r == self.position(),
    {
        ParseStr::curr_pos(self)
    }

    fn pop_head(&mut self) -> (r: Option<char>)
        ensures
            r == head_char(old(self).remaining()),
            final(self).remaining() == old(self).remaining().skip(head_len(old(self).remaining())),
            final(self).position() == pop_step(old(self).position(), old(self).remaining()),
    {
        ParseStr::pop_head(self)
    }

    fn read_until_line_end(&mut self) -> (r: (&'a str, P))
        ensures
            r.0@.len() <= old(self).remaining().len(),
            r.0@ == old(self).remaining().take(r.0@.len() as int),
            forall|j: int|
                0 <= j < r.0@.len() ==> !is_line_break(#[trigger] old(self).remaining()[j]),
            r.0@.len() < old(self).remaining().len() ==> is_line_break(
                old(self).remaining()[r.0@.len() as int],
            ),
            final(self).remaining() == old(self).remaining().skip(
                r.0@.len() + head_len(old(self).remaining().skip(r.0@.len() as int)),
            ),
            r.1 == old(self).position().after_line(r.0@),
            final(self).position() == (if r.0@.len() < old(self).remaining().len() {
                r.1.after_newline(head_len(old(self).remaining().skip(r.0@.len() as int)) == 2)
            } else {
                r.1
            }),
    {
        ParseStr::read_until_line_end(self)
    }

    fn trim_start(&mut self)
        ensures
            final(self).remaining() == old(self).remaining().skip(
                crate::text::leading(old(self).remaining(), crate::text::ws()) as int,
            ),
            final(self).position() == pos_after_pops(
                old(self).position(),
                old(self).remaining().take(
                    crate::text::leading(old(self).remaining(), crate::text::ws()) as int,
                ),
            ),
    {
        ParseStr::trim_start(self)
    }

    fn starts_with(&mut self, c: char) -> (b: bool)
        ensures
            b == (old(self).remaining().len() > 0 && old(self).remaining()[0] == c),
            *final(self) == *old(self),
    {
        ParseStr::starts_with(self, c)
    }

    fn peek_head(&mut self) -> (r: Option<char>)
        ensures
            r == (if old(self).remaining().len() > 0 {
                Some(old(self).remaining()[0])
            } else {
                None::<char>
            }),
            *final(self) == *old(self),
    {
        ParseStr::peek_head(self)
    }

    fn read_n(&mut self, i: usize) -> (r: &'a str)
        ensures
            r@ == old(self).remaining().take(old(self).chars_in(i as int)),
            final(self).remaining() == (if r@.len() > 0 && r@.last() == '\r'
                && old(self).remaining().len() > r@.len()
                && old(self).remaining()[r@.len() as int] == '\n' {
                old(self).remaining().skip(r@.len() as int + 1)
            } else {
                old(self).remaining().skip(r@.len() as int)
            }),
            final(self).position() == old(self).position().after_text(r@),
    {
        ParseStr::read_n(self, i)
    }

    fn read_while<F: Fn(char) -> bool>(&mut self, pred: F) -> (r: &'a str)
        ensures
            r@.len() <= old(self).remaining().len(),
            r@ == old(self).remaining().take(r@.len() as int),
            final(self).remaining() == old(self).remaining().skip(r@.len() as int),
            forall|j: int|
                0 <= j < r@.len() ==> call_ensures(pred, (#[trigger] old(self).remaining()[j],), true),
            r@.len() < old(self).remaining().len() ==> call_ensures(
                pred,
                (old(self).remaining()[r@.len() as int],),
                false,
            ),
            final(self).position() == old(self).position().after_text(r@),
    {
        ParseStr::read_while(self, pred)
    }

    fn read_until<F: Fn(char) -> bool>(&mut self, pred: F) -> (r: &'a str)
        ensures
            r@.len() <= old(self).remaining().len(),
            r@ == old(self).remaining().take(r@.len() as int),
            final(self).remaining() == old(self).remaining().skip(r@.len() as int),
            forall|j: int|
                0 <= j < r@.len() ==> call_ensures(pred, (#[trigger] old(self).remaining()[j],), false),
            r@.len() < old(self).remaining().len() ==> call_ensures(
                pred,
                (old(self).remaining()[r@.len() as int],),
                true,
            ),
            final(self).position() == old(self).position().after_text(r@),
    {
        ParseStr::read_until(self, pred)
    }

    fn read_until_str(&mut self, s: &str) -> (r: &'a str)
        ensures
            r@.len() <= old(self).remaining().len(),
            r@ == old(self).remaining().take(r@.len() as int),
            final(self).remaining() == old(self).remaining().skip(r@.len() as int),
            forall|j: int|
                0 <= j < r@.len() ==> !s@.is_prefix_of(#[trigger] old(self).remaining().skip(j)),
            r@.len() < old(self).remaining().len() ==> s@.is_prefix_of(
                old(self).remaining().skip(r@.len() as int),
            ),
            final(self).position() == old(self).position().after_text(r@),
    {
        ParseStr::read_until_str(self, s)
    }

    fn read_until_with_brackets<F: Fn(char) -> bool>(
        &mut self,
        open: char,
        close: char,
        pred: F,
    ) -> (r: &'a str)
        ensures
            r@.len() <= old(self).remaining().len(),
            r@ == old(self).remaining().take(r@.len() as int),
            final(self).remaining() == old(self).remaining().skip(r@.len() as int),
            forall|j: int|
                0 <= j < r@.len() && bracket_free(old(self).remaining(), open, close, true, j)
                    ==> call_ensures(pred, (#[trigger] old(self).remaining()[j],), false),
            r@.len() < old(self).remaining().len() ==> bracket_free(
                old(self).remaining(),
                open,
                close,
                true,
                r@.len() as int,
            ) && call_ensures(pred, (old(self).remaining()[r@.len() as int],), true),
            final(self).position() == old(self).position().after_text(r@),
    {
        ParseStr::read_until_with_brackets(self, open, close, pred)
    }

    fn skip(&mut self, i: usize)
        ensures
            final(self).remaining() == old(self).remaining().skip(old(self).chars_in(i as int)),
            final(self).position() == old(self).position().after_text(
                old(self).remaining().take(old(self).chars_in(i as int)),
            ),
    {
        ParseStr::skip(self, i)
    }
}

/// Reading `a` then `b` moves a position as reading `a + b` does, unless that would
/// split a `\r\n` pair.
pub proof fn lemma_pops_concat<P: SourcePos>(p: P, a: Seq<char>, b: Seq<char>)
    requires
        !(a.len() > 0 && a.last() == '\r' && b.len() > 0 && b[0] == '\n'),
    ensures
        pos_after_pops(p, a + b) == pos_after_pops(pos_after_pops(p, a), b),
    decreases a.len(),
{
    if a.len() == 0 {
        assert(a + b =~= b);
    } else {
        let ab = a + b;
        let n = head_len(a);
        assert(ab[0] == a[0]);
        assert(a.len() > 1 ==> ab[1] == a[1]);
        if a.len() == 1 && a[0] == '\r' && b.len() > 0 {
            assert(ab[1] == b[0]);
        }
        assert(head_len(ab) == n);
        assert(pop_step(p, ab) == pop_step(p, a));
        assert(ab.skip(n) =~= a.skip(n) + b);
        if a.skip(n).len() > 0 {
            assert(a.skip(n).last() == a.last());
        }
        lemma_pops_concat(pop_step(p, a), a.skip(n), b);
    }
}

/// Whether position `k` of `s` does not sit inside a `\r\n` pair.
pub open spec fn pop_boundary(s: Seq<char>, k: int) -> bool {
    !(0 < k < s.len() && s[k - 1] == '\r' && s[k] == '\n')
}

/// One more step of `pos_after_pops` at position `k`.
pub proof fn lemma_pops_step<P: SourcePos>(p: P, s: Seq<char>, k: int)
    requires
        0 <= k < s.len(),
        pop_boundary(s, k),
    ensures
        pos_after_pops(p, s.take(k + head_len(s.skip(k)))) == pop_step(
            pos_after_pops(p, s.take(k)),
            s.skip(k),
        ),
        pop_boundary(s, k + head_len(s.skip(k))),
{
    let n = head_len(s.skip(k));
    let t = s.skip(k).take(n);
    assert(s.take(k + n) =~= s.take(k) + t);
    lemma_pops_concat(p, s.take(k), t);
    let x = pos_after_pops(p, s.take(k));
    assert(t[0] == s[k]);
    assert(n == 2 ==> t[1] == s[k + 1]);
    assert(head_len(t) == n);
    assert(pop_step(x, t) == pop_step(x, s.skip(k)));
    assert(t.skip(n) =~= Seq::<char>::empty());
    reveal_with_fuel(pos_after_pops, 2);
    assert(pos_after_pops(x, t) == pop_step(x, t));
}

/// The last character of `s`, if any.
fn last_char(s: &str) -> (r: Option<char>)
    ensures
        r == (if s@.len() > 0 { Some(s@.last()) } else { None::<char> }),
{
    let mut rest = s;
    let mut last: Option<char> = None;
    let ghost mut k: int = 0;
    while !rest.is_empty()
        invariant
            0 <= k <= s@.len(),
            rest@ == s@.skip(k),
            last == (if k > 0 { Some(s@[k - 1]) } else { None::<char> }),
        decreases rest@.len(),
    {
        let (c, r2) = split_first_char(rest);
        last = Some(c);
        proof {
            assert(r2@ =~= s@.skip(k + 1));
            k = k + 1;
        }
        rest = r2;
    }
    last
}

/// The first position of `s` at which `p` starts (or the length when there is none),
/// with the number of bytes before it.
pub(crate) fn find_str(s: &str, p: &str) -> (r: (usize, Ghost<int>))
    ensures
        0 <= r.1@ <= s@.len(),
        r.0 == byte_len(s@.take(r.1@)),
        forall|j: int| 0 <= j < r.1@ ==> !p@.is_prefix_of(#[trigger] s@.skip(j)),
        r.1@ < s@.len() ==> p@.is_prefix_of(s@.skip(r.1@)),
{
    let n = str_byte_len(s);
    let mut rest = s;
    let mut i: usize = 0;
    let ghost mut k: int = 0;
    loop
        invariant
            0 <= k <= s@.len(),
            rest@ == s@.skip(k),
            i == byte_len(s@.take(k)),
            n == byte_len(s@),
            forall|j: int| 0 <= j < k ==> !p@.is_prefix_of(#[trigger] s@.skip(j)),
        ensures
            0 <= k <= s@.len(),
            i == byte_len(s@.take(k)),
            forall|j: int| 0 <= j < k ==> !p@.is_prefix_of(#[trigger] s@.skip(j)),
            k < s@.len() ==> p@.is_prefix_of(s@.skip(k)),
        decreases rest@.len(),
    {
        if rest.is_empty() || str_starts_with(rest, p) {
            break;
        }
        let (c, r2) = split_first_char(rest);
        proof {
            lemma_byte_len_push(s@, k);
            lemma_byte_len_take(s@, k + 1);
            assert(r2@ =~= s@.skip(k + 1));
        }
        i = i + char_len_utf8(c);
        rest = r2;
        proof {
            k = k + 1;
        }
    }
    (i, Ghost(k))
}

/// The first position of `s` at which `pred` is asked and answers `true`, counting
/// bracket depth with `open` and `close` (or the length), with the bytes before it.
fn scan_brackets<F: Fn(char) -> bool>(
    s: &str,
    open: char,
    close: char,
    close_first: bool,
    pred: F,
) -> (r: (usize, Ghost<int>))
    requires
        forall|c: char| call_requires(pred, (c,)),
    ensures
        0 <= r.1@ <= s@.len(),
        r.0 == byte_len(s@.take(r.1@)),
        forall|j: int|
            0 <= j < r.1@ && bracket_free(s@, open, close, close_first, j) ==> call_ensures(
                pred,
                (#[trigger] s@[j],),
                false,
            ),
        r.1@ < s@.len() ==> bracket_free(s@, open, close, close_first, r.1@) && call_ensures(
            pred,
            (s@[r.1@],),
            true,
        ),
{
    let n = str_byte_len(s);
    let mut rest = s;
    let mut i: usize = 0;
    let mut depth: usize = 0;
    let ghost mut k: int = 0;
    loop
        invariant
            0 <= k <= s@.len(),
            rest@ == s@.skip(k),
            i == byte_len(s@.take(k)),
            n == byte_len(s@),
            depth == bracket_depth(s@, open, close, close_first, k),
            forall|c: char| call_requires(pred, (c,)),
            forall|j: int|
                0 <= j < k && bracket_free(s@, open, close, close_first, j) ==> call_ensures(
                    pred,
                    (#[trigger] s@[j],),
                    false,
                ),
        ensures
            0 <= k <= s@.len(),
            i == byte_len(s@.take(k)),
            forall|j: int|
                0 <= j < k && bracket_free(s@, open, close, close_first, j) ==> call_ensures(
                    pred,
                    (#[trigger] s@[j],),
                    false,
                ),
            k < s@.len() ==> bracket_free(s@, open, close, close_first, k) && call_ensures(
                pred,
                (s@[k],),
                true,
            ),
        decreases rest@.len(),
    {
        if rest.is_empty() {
            break;
        }
        let (c, r2) = split_first_char(rest);
        proof {
            lemma_byte_len_push(s@, k);
            lemma_byte_len_take(s@, k + 1);
            lemma_bracket_depth_bounds(s@, open, close, close_first, k);
            assert(r2@ =~= s@.skip(k + 1));
            crate::text::lemma_byte_len_ge_len(s@);
        }
        if close_first && c == close && depth > 0 {
            depth = depth - 1;
        } else if c == open {
            depth = depth + 1;
        } else if !close_first && c == close && depth > 0 {
            depth = depth - 1;
        } else if depth == 0 && pred(c) {
            break;
        }
        i = i + char_len_utf8(c);
        rest = r2;
        proof {
            k = k + 1;
        }
    }
    (i, Ghost(k))
}

impl<'a> ParseStr<'a, ByteOffset> {
    /// The byte offset reached, to be read or moved by the caller.
    #[inline]
    pub fn offset(&mut self) -> (r: &mut ByteOffset)
        ensures
            *r == old(self).position(),
            final(self).position() == *final(r),
            final(self).remaining() == old(self).remaining(),
    {
        &mut self.pos
    }
}

/// When every answer of `f` for `c` is `p(c)`, the characters a scan with `f` accepted
/// (`want` not given) and the one it stopped at determine where `p` first gives `want`.
pub proof fn lemma_scan_is_leading<F: Fn(char) -> bool>(
    s: Seq<char>,
    k: int,
    f: F,
    p: spec_fn(char) -> bool,
    want: bool,
)
    requires
        0 <= k <= s.len(),
        forall|c: char, b: bool| call_ensures(f, (c,), b) ==> b == p(c),
        forall|j: int| 0 <= j < k ==> call_ensures(f, (#[trigger] s[j],), !want),
        k < s.len() ==> call_ensures(f, (s[k],), want),
    ensures
        k == crate::text::leading(s, |c: char| p(c) != want),
{
    let q = |c: char| p(c) != want;
    assert forall|j: int| 0 <= j < k implies q(#[trigger] s[j]) by {
        assert(call_ensures(f, (s[j],), !want));
    }
    crate::text::lemma_leading_unique(s, q, k);
}

} // verus!
