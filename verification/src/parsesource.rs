//! The interface shared by the scanners: read characters, lines and delimited
//! stretches of text while a source position follows along.

use vstd::prelude::*;
use crate::sourcerefs::SourcePos;
use crate::strings::bracket_free;
use crate::text::{
    byte_len, char_len_utf8, lemma_byte_len_push, lemma_byte_len_take, split_at_chars,
    split_first_char, str_byte_len, str_starts_with, trim, trim_start, trimmed, trimmed_start,
};
use std::borrow::Cow;

verus! {

/// Whether `s` is split at position `j`: the character there is `sep`, outside of any
/// `open`/`close` bracket.
pub open spec fn splits_at(s: Seq<char>, open: char, close: char, sep: char, j: int) -> bool {
    bracket_free(s, open, close, false, j) && s[j] == sep
}

/// The pieces of `s` from `start` on, cut at every split position at or after `j`.
pub open spec fn pieces_from(
    s: Seq<char>,
    open: char,
    close: char,
    sep: char,
    start: int,
    j: int,
) -> Seq<Seq<char>>
    decreases s.len() - j,
{
    if j >= s.len() {
        seq![s.subrange(start, s.len() as int)]
    } else if splits_at(s, open, close, sep, j) {
        seq![s.subrange(start, j)] + pieces_from(s, open, close, sep, j + 1, j + 1)
    } else {
        pieces_from(s, open, close, sep, start, j + 1)
    }
}

/// `s` cut at every `sep` that stands outside of `open`/`close` brackets.
pub open spec fn noparen_pieces(s: Seq<char>, open: char, close: char, sep: char) -> Seq<Seq<char>> {
    pieces_from(s, open, close, sep, 0, 0)
}

/// The pieces `ps` joined back together with `sep` between each two.
pub open spec fn joined(ps: Seq<Seq<char>>, sep: char) -> Seq<char>
    decreases ps.len(),
{
    if ps.len() == 0 {
        Seq::empty()
    } else if ps.len() == 1 {
        ps[0]
    } else {
        ps[0] + seq![sep] + joined(ps.drop_first(), sep)
    }
}

/// The pieces from `start`, scanning from `j`, join back to the text from `start`.
proof fn lemma_pieces_from_join(s: Seq<char>, open: char, close: char, sep: char, start: int, j: int)
    requires
        0 <= start <= j <= s.len(),
    ensures
        pieces_from(s, open, close, sep, start, j).len() >= 1,
        joined(pieces_from(s, open, close, sep, start, j), sep) == s.subrange(start, s.len() as int),
    decreases s.len() - j,
{
    if j >= s.len() {
    } else if splits_at(s, open, close, sep, j) {
        lemma_pieces_from_join(s, open, close, sep, j + 1, j + 1);
        let rest = pieces_from(s, open, close, sep, j + 1, j + 1);
        let ps = seq![s.subrange(start, j)] + rest;
        assert(ps.drop_first() =~= rest);
        assert(ps[0] == s.subrange(start, j));
        assert(s.subrange(start, j) + seq![sep] + s.subrange(j + 1, s.len() as int) =~= s.subrange(
            start,
            s.len() as int,
        ));
    } else {
        lemma_pieces_from_join(s, open, close, sep, start, j + 1);
    }
}

/// Joining the pieces of `split_noparens` with the separator gives the text back: the
/// text is cut only at separators, and every character stays in some piece.
pub proof fn law_split_noparens_joins(s: Seq<char>, open: char, close: char, sep: char)
    ensures
        noparen_pieces(s, open, close, sep).len() >= 1,
        joined(noparen_pieces(s, open, close, sep), sep) == s,
{
    lemma_pieces_from_join(s, open, close, sep, 0, 0);
    assert(s.subrange(0, s.len() as int) =~= s);
}

/// A piece of text, borrowed or owned.
pub trait Str<'a>: Sized {
    /// The characters of the text.
    spec fn text(&self) -> Seq<char>;

    /// Without `s` in front and without the white space after it; `Err` with the text
    /// unchanged when it does not start with `s`.
    fn strip_prefix(self, s: &str) -> (r: Result<Self, Self>)
        ensures
            s@.is_prefix_of(self.text()) ==> r is Ok && r->Ok_0.text() == trimmed_start(
                self.text().skip(s@.len() as int),
            ),
            !s@.is_prefix_of(self.text()) ==> r is Err && r->Err_0.text() == self.text(),
    ;

    /// The text split after its first `n` bytes, which must end on a character boundary.
    fn split_n(self, n: usize) -> (r: (Self, Self))
        requires
            exists|k: int| 0 <= k <= self.text().len() && n == byte_len(#[trigger] self.text().take(k)),
        ensures
            byte_len(r.0.text()) == n,
            r.0.text() + r.1.text() == self.text(),
    ;

    /// Removes leading and trailing white space.
    fn trim_ws(&mut self)
        ensures
            final(self).text() == trimmed(old(self).text()),
    ;

    /// The pieces of the text between the `split_char`s outside of `open`/`close` brackets.
    fn split_noparens(&'a self, open: char, close: char, split_char: char) -> (r: Vec<&'a str>)
        ensures
            r@.len() == noparen_pieces(self.text(), open, close, split_char).len(),
            forall|i: int|
                0 <= i < r@.len() ==> (#[trigger] r@[i])@ == noparen_pieces(
                    self.text(),
                    open,
                    close,
                    split_char,
                )[i],
    ;

    /// The text as a copy-on-write string.
    fn as_cow(&self) -> (r: Cow<'a, str>)
        ensures
            r@ == self.text(),
    ;
}

/// Cuts `s` at every `sep` outside of brackets.
fn split_noparens_str<'a>(s: &'a str, open: char, close: char, sep: char) -> (r: Vec<&'a str>)
    ensures
        r@.len() == noparen_pieces(s@, open, close, sep).len(),
        forall|i: int|
            0 <= i < r@.len() ==> (#[trigger] r@[i])@ == noparen_pieces(s@, open, close, sep)[i],
{
    let ghost t = s@;
    let n = str_byte_len(s);
    let mut out: Vec<&'a str> = Vec::new();
    let mut piece = s;
    let mut rest = s;
    let mut i: usize = 0;
    let mut depth: usize = 0;
    let ghost mut k: int = 0;
    let ghost mut start: int = 0;
    while !rest.is_empty()
        invariant
            0 <= start <= k <= t.len(),
            rest@ == t.skip(k),
            piece@ == t.skip(start),
            i == byte_len(t.subrange(start, k)),
            n == byte_len(t),
            depth == crate::strings::bracket_depth(t, open, close, false, k),
            out@.len() + pieces_from(t, open, close, sep, start, k).len() == noparen_pieces(
                t,
                open,
                close,
                sep,
            ).len(),
            forall|j: int|
                0 <= j < out@.len() ==> (#[trigger] out@[j])@ == noparen_pieces(
                    t,
                    open,
                    close,
                    sep,
                )[j],
            forall|j: int|
                0 <= j < pieces_from(t, open, close, sep, start, k).len() ==> noparen_pieces(
                    t,
                    open,
                    close,
                    sep,
                )[out@.len() + j] == #[trigger] pieces_from(t, open, close, sep, start, k)[j],
        decreases rest@.len(),
    {
        let (c, r2) = split_first_char(rest);
        proof {
            crate::strings::lemma_bracket_depth_bounds(t, open, close, false, k);
            crate::text::lemma_byte_len_ge_len(t);
            assert(r2@ =~= t.skip(k + 1));
            let u = t.skip(start);
            assert(t.subrange(start, k + 1) =~= u.take(k + 1 - start));
            assert(t.subrange(start, k) =~= u.take(k - start));
            assert(u[k - start] == t[k]);
            lemma_byte_len_push(u, k - start);
            lemma_byte_len_take(u, k + 1 - start);
            lemma_byte_len_take(t, start);
        }
        let split = depth == 0 && c != open && c == sep;
        if c == open {
            depth = depth + 1;
        } else if c == close && depth > 0 {
            depth = depth - 1;
        }
        if split {
            let (l, r) = split_at_chars(piece, i, Ghost(k - start));
            let ghost old_out = out@;
            let ghost pf = pieces_from(t, open, close, sep, start, k);
            let ghost np = noparen_pieces(t, open, close, sep);
            out.push(l);
            let (_, after) = split_first_char(r);
            proof {
                assert(l@ =~= t.subrange(start, k));
                assert(after@ =~= t.skip(k + 1));
                assert(t.subrange(k + 1, k + 1) =~= Seq::<char>::empty());
                let pf2 = pieces_from(t, open, close, sep, k + 1, k + 1);
                assert(pf =~= seq![t.subrange(start, k)] + pf2);
                assert(out@[old_out.len() as int]@ == np[old_out.len() as int]) by {
                    assert(np[old_out.len() as int] == pf[0]);
                }
                assert forall|j: int| 0 <= j < out@.len() implies (#[trigger] out@[j])@ == np[j] by {
                    if j < old_out.len() {
                        assert(out@[j] == old_out[j]);
                    }
                }
                assert forall|j: int| 0 <= j < pf2.len() implies np[out@.len() + j] == #[trigger] pf2[j] by {
                    assert(pf[1 + j] == pf2[j]);
                    assert(np[old_out.len() + (1 + j)] == pf[1 + j]);
                }
                start = k + 1;
            }
            piece = after;
            i = 0;
        } else {
            proof {
                assert(pieces_from(t, open, close, sep, start, k) == pieces_from(
                    t,
                    open,
                    close,
                    sep,
                    start,
                    k + 1,
                ));
            }
            i = i + char_len_utf8(c);
        }
        rest = r2;
        proof {
            k = k + 1;
        }
    }
    let ghost old_out = out@;
    let ghost np = noparen_pieces(t, open, close, sep);
    proof {
        assert(piece@ =~= t.subrange(start, t.len() as int));
        assert(pieces_from(t, open, close, sep, start, k) =~= seq![t.subrange(start, t.len() as int)]);
        assert(np[old_out.len() as int] == pieces_from(t, open, close, sep, start, k)[0]);
    }
    out.push(piece);
    proof {
        assert forall|j: int| 0 <= j < out@.len() implies (#[trigger] out@[j])@ == np[j] by {
            if j < old_out.len() {
                assert(out@[j] == old_out[j]);
            }
        }
    }
    out
}

impl<'a> Str<'a> for &'a str {
    open spec fn text(&self) -> Seq<char> {
        (*self)@
    }

    #[inline]
    fn strip_prefix(self, s: &str) -> (r: Result<Self, Self>) {
        if str_starts_with(self, s) {
            let n = str_byte_len(s);
            proof {
                assert(self@.take(s@.len() as int) =~= s@);
            }
            let (_, rest) = split_at_chars(self, n, Ghost(s@.len() as int));
            Ok(trim_start(rest))
        } else {
            Err(self)
        }
    }

    #[inline]
    fn split_n(self, n: usize) -> (r: (Self, Self)) {
        let ghost k = choose|k: int| 0 <= k <= self@.len() && n == byte_len(#[trigger] self@.take(k));
        let (a, b) = split_at_chars(self, n, Ghost(k));
        proof {
            assert(a@ + b@ =~= self@);
        }
        (a, b)
    }

    #[inline]
    fn trim_ws(&mut self) {
        *self = trim(*self);
    }

    fn split_noparens(&'a self, open: char, close: char, split_char: char) -> (r: Vec<&'a str>) {
        split_noparens_str(*self, open, close, split_char)
    }

    #[inline]
    fn as_cow(&self) -> (r: Cow<'a, str>) {
        Cow::Borrowed(*self)
    }
}

impl<'a> Str<'a> for String {
    open spec fn text(&self) -> Seq<char> {
        self@
    }

    fn strip_prefix(self, s: &str) -> (r: Result<Self, Self>) {
        let t = self.as_str();
        if str_starts_with(t, s) {
            let n = str_byte_len(s);
            proof {
                assert(t@.take(s@.len() as int) =~= s@);
            }
            let (_, rest) = split_at_chars(t, n, Ghost(s@.len() as int));
            Ok(trim_start(rest).to_string())
        } else {
            Err(self)
        }
    }

    #[inline]
    fn trim_ws(&mut self) {
        *self = trim(self.as_str()).to_string();
    }

    fn split_n(self, n: usize) -> (r: (Self, Self)) {
        let t = self.as_str();
        let ghost k = choose|k: int| 0 <= k <= t@.len() && n == byte_len(#[trigger] t@.take(k));
        let (a, b) = split_at_chars(t, n, Ghost(k));
        proof {
            assert(a@ + b@ =~= t@);
        }
        (a.to_string(), b.to_string())
    }

    fn split_noparens(&'a self, open: char, close: char, split_char: char) -> (r: Vec<&'a str>) {
        split_noparens_str(self.as_str(), open, close, split_char)
    }

    #[inline]
    fn as_cow(&self) -> (r: Cow<'a, str>) {
        Cow::Owned(self.clone())
    }
}

/// A scanner over some source text.
///
/// The two scanners of this crate state in their own `ensures` what each method
/// reads and how far it moves; this trait only fixes what a call may ask of its
/// arguments.
pub trait ParseSource<'a>: Sized {
    type Pos: SourcePos;
    type Str;
    type Source;

    /// Whether `read_n(i)` and `skip(i)` can split the remaining text after `i` units.
    spec fn can_split(&self, i: usize) -> bool;

    /// Whether `read_until_with_brackets` can count its bracket depth, for a predicate
    /// that may refuse the characters of which `refuses` holds.
    spec fn brackets_fit(&self, open: char, close: char, refuses: spec_fn(char) -> bool) -> bool;

    /// Whether `read_until_str(s)` can put back what it reads past.
    spec fn until_fits(&self, s: Seq<char>) -> bool;

    fn source(&self) -> &Self::Source;

    fn curr_pos(&self) -> Self::Pos;

    fn pop_head(&mut self) -> Option<char>;

    fn read_until_line_end(&mut self) -> (Self::Str, Self::Pos);

    fn trim_start(&mut self);

    fn starts_with(&mut self, c: char) -> bool;

    fn peek_head(&mut self) -> Option<char>;

    fn read_n(&mut self, i: usize) -> Self::Str
        requires
            old(self).can_split(i),
    ;

    fn read_while<F: Fn(char) -> bool>(&mut self, pred: F) -> Self::Str
        requires
            forall|c: char| call_requires(pred, (c,)),
    ;

    fn read_until<F: Fn(char) -> bool>(&mut self, pred: F) -> Self::Str
        requires
            forall|c: char| call_requires(pred, (c,)),
    ;

    fn read_until_str(&mut self, s: &str) -> Self::Str
        requires
            old(self).until_fits(s@),
    ;

    fn read_until_with_brackets<F: Fn(char) -> bool>(
        &mut self,
        open: char,
        close: char,
        pred: F,
    ) -> Self::Str
        requires
            forall|c: char| call_requires(pred, (c,)),
            old(self).brackets_fit(open, close, |c: char| call_ensures(pred, (c,), false)),
    ;

    fn skip(&mut self, i: usize)
        requires
            old(self).can_split(i),
    ;
}

} // verus!
