//! A scanner over a source of bytes that it reads as it goes, one character at a time,
//! with characters it has looked at and put back kept in a buffer.

use vstd::prelude::*;
use vstd::string::StrSliceExecFns;
use vstd::utf8::{decode_utf8, valid_utf8};
use crate::parsesource::ParseSource;
use crate::outside::push_char as push_to;
use crate::sourcerefs::SourcePos;
use crate::text::{byte_len, is_whitespace, is_ws, split_first_char, str_byte_len};

verus! {

/// Where a reader takes its bytes from: a file, a stream, or bytes in memory.
///
/// A source is modelled by the bytes it will deliver, in order, before it ends or
/// fails; a read that cannot be served leaves it exhausted.
pub trait ByteSource: Sized {
    /// The bytes that reads will deliver, in order.
    spec fn bytes(&self) -> Seq<u8>;

    /// Reads exactly `n` bytes; `None` when fewer are left, after which nothing is.
    fn read_exact(&mut self, n: usize) -> (r: Option<Vec<u8>>)
        ensures
            old(self).bytes().len() >= n ==> (r matches Some(v) && v@ == old(self).bytes().take(n as int)
                && final(self).bytes() == old(self).bytes().skip(n as int)),
            old(self).bytes().len() < n ==> r is None && final(self).bytes() == Seq::<u8>::empty(),
    ;
}

/// Bytes held in memory, read from the front.
pub struct Bytes {
    data: Vec<u8>,
    at: usize,
}

impl Bytes {
    /// A source that delivers `data`.
    pub fn new(data: Vec<u8>) -> (r: Self)
        ensures
            r.bytes() == data@,
    {
        Bytes { data, at: 0 }
    }
}

impl ByteSource for Bytes {
    closed spec fn bytes(&self) -> Seq<u8> {
        if self.at <= self.data@.len() {
            self.data@.skip(self.at as int)
        } else {
            Seq::empty()
        }
    }

    fn read_exact(&mut self, n: usize) -> (r: Option<Vec<u8>>) {
        let len = self.data.len();
        if self.at > len && n == 0 {
            return Some(Vec::new());
        }
        if self.at > len || len - self.at < n {
            self.at = len;
            proof {
                assert(self.data@.skip(len as int) =~= Seq::<u8>::empty());
            }
            return None;
        }
        let mut v: Vec<u8> = Vec::new();
        let start = self.at;
        let mut i: usize = 0;
        while i < n
            invariant
                start <= len,
                len == self.data@.len(),
                len - start >= n,
                i <= n,
                self.at == start,
                v@ == self.data@.subrange(start as int, start + i),
            decreases n - i,
        {
            v.push(self.data[start + i]);
            i = i + 1;
            proof {
                assert(v@ =~= self.data@.subrange(start as int, start + i));
            }
        }
        self.at = start + n;
        proof {
            assert(v@ =~= self.data@.skip(start as int).take(n as int));
            assert(self.data@.skip(self.at as int) =~= self.data@.skip(start as int).skip(n as int));
        }
        Some(v)
    }
}

/// `std::str::from_utf8`, which accepts exactly the byte strings that are valid UTF-8
/// and then holds the characters they encode. Trusted: that is what std documents.
#[verifier::external_body]
fn str_from_utf8(bytes: &[u8]) -> (r: Option<&str>)
    ensures
        r is Some <==> valid_utf8(bytes@),
        r matches Some(s) ==> s@ == decode_utf8(bytes@),
{
    std::str::from_utf8(bytes).ok()
}

/// How many bytes the character that starts with `b` takes: two, three or four for the
/// leading bytes of UTF-8, one for any other byte.
pub open spec fn lead_width(b: u8) -> nat {
    if b & 224u8 == 192u8 {
        2
    } else if b & 240u8 == 224u8 {
        3
    } else if b & 248u8 == 240u8 {
        4
    } else {
        1
    }
}

/// The first character that `bytes` encode in UTF-8, if they are valid UTF-8.
pub open spec fn utf8_char(bytes: Seq<u8>) -> Option<char> {
    if valid_utf8(bytes) && decode_utf8(bytes).len() > 0 {
        Some(decode_utf8(bytes)[0])
    } else {
        None
    }
}

/// What reading one character from `bytes` gives, and the bytes left after it. A byte
/// that does not lead a UTF-8 sequence stands for the character of that number; a
/// sequence cut short by the end, or invalid, gives `None`.
pub open spec fn read_char_spec(bytes: Seq<u8>) -> (Option<char>, Seq<u8>) {
    if bytes.len() == 0 {
        (None, bytes)
    } else {
        let w = lead_width(bytes[0]);
        if w == 1 {
            (Some(bytes[0] as char), bytes.skip(1))
        } else if bytes.len() < w {
            (None, Seq::empty())
        } else {
            (utf8_char(bytes.take(w as int)), bytes.skip(w as int))
        }
    }
}

/// The leading byte of each UTF-8 encoding announces its width.
proof fn lemma_lead_width_bits(v: u32)
    by (bit_vector)
    ensures
        v <= 0x7F ==> ((v & 0x7F) as u8) & 224u8 != 192u8 && ((v & 0x7F) as u8) & 240u8 != 224u8
            && ((v & 0x7F) as u8) & 248u8 != 240u8 && ((v & 0x7F) as u8) as u32 == v,
        (0xC0u8 | ((v >> 6) & 0x1F) as u8) & 224u8 == 192u8,
        (0xE0u8 | ((v >> 12) & 0x0F) as u8) & 224u8 != 192u8,
        (0xE0u8 | ((v >> 12) & 0x0F) as u8) & 240u8 == 224u8,
        (0xF0u8 | ((v >> 18) & 0x7) as u8) & 224u8 != 192u8,
        (0xF0u8 | ((v >> 18) & 0x7) as u8) & 240u8 != 224u8,
        (0xF0u8 | ((v >> 18) & 0x7) as u8) & 248u8 == 240u8,
{
}

/// Reading one character from bytes that start with the UTF-8 encoding of `c` gives
/// `c` and leaves exactly the bytes after that encoding, whatever its width.
pub proof fn law_read_char_decodes(c: char, rest: Seq<u8>)
    ensures
        read_char_spec(vstd::utf8::encode_utf8(seq![c]) + rest) == (Some(c), rest),
{
    let e = vstd::utf8::encode_utf8(seq![c]);
    let v = c as u32;
    vstd::utf8::char_is_scalar(c);
    assert(seq![c].drop_first() =~= Seq::<char>::empty());
    assert(vstd::utf8::encode_utf8(Seq::<char>::empty()) =~= Seq::<u8>::empty());
    assert(seq![c][0] == c);
    assert(e =~= vstd::utf8::encode_scalar(v));
    lemma_lead_width_bits(v);
    let b = e + rest;
    assert(b[0] == e[0]);
    if vstd::utf8::has_width_1_encoding(v) {
        assert(e[0] == vstd::utf8::leading_byte_width_1(v));
    } else if vstd::utf8::has_width_2_encoding(v) {
        assert(e[0] == vstd::utf8::leading_byte_width_2(v));
    } else if vstd::utf8::has_width_3_encoding(v) {
        assert(e[0] == vstd::utf8::leading_byte_width_3(v));
    } else {
        assert(e[0] == vstd::utf8::leading_byte_width_4(v));
    }
    assert(lead_width(e[0]) == e.len());
    if e.len() == 1 {
        assert(b.skip(1) =~= rest);
        vstd::utf8::char_u32_cast(c, v);
        assert((e[0] as u32) == v);
        assert((e[0] as char) == c);
    } else {
        assert(b.take(e.len() as int) =~= e);
        assert(b.skip(e.len() as int) =~= rest);
        vstd::utf8::encode_utf8_valid_utf8(seq![c]);
        vstd::utf8::encode_utf8_decode_utf8(seq![c]);
    }
}

/// A reader as values: the characters put back (the last one comes next), the bytes
/// still to be read, and the position.
pub struct ReaderV<P> {
    pub pending: Seq<char>,
    pub bytes: Seq<u8>,
    pub pos: P,
}

impl<P> ReaderV<P> {
    /// How much is left to read, counting each pending character and each byte.
    pub open spec fn size(self) -> nat {
        self.pending.len() + self.bytes.len()
    }

    /// `c` put back, to be read next.
    pub open spec fn put_back(self, c: char) -> ReaderV<P> {
        ReaderV { pending: self.pending.push(c), ..self }
    }

    /// The position moved to `p`.
    pub open spec fn at(self, p: P) -> ReaderV<P> {
        ReaderV { pos: p, ..self }
    }
}

/// What `get_char` gives: a character put back, or else one read from the bytes.
pub open spec fn get_spec<P>(r: ReaderV<P>) -> (Option<char>, ReaderV<P>) {
    if r.pending.len() > 0 {
        (Some(r.pending.last()), ReaderV { pending: r.pending.drop_last(), ..r })
    } else {
        let (c, b) = read_char_spec(r.bytes);
        (c, ReaderV { bytes: b, ..r })
    }
}

/// Reading a character leaves less to read, and keeps the position.
pub proof fn lemma_get_size<P>(r: ReaderV<P>)
    ensures
        get_spec(r).1.size() <= r.size(),
        get_spec(r).0 is Some ==> get_spec(r).1.size() < r.size(),
        get_spec(r).1.pos == r.pos,
{
}

/// A reader with nothing put back over the UTF-8 bytes of a text gives exactly the
/// characters of that text, one call of `get_char` after the other.
pub proof fn law_reader_gives_encoded_text<P>(s: Seq<char>, pos: P)
    ensures
        chars_of(ReaderV { pending: Seq::<char>::empty(), bytes: vstd::utf8::encode_utf8(s), pos }) == s,
    decreases s.len(),
{
    let r = ReaderV { pending: Seq::<char>::empty(), bytes: vstd::utf8::encode_utf8(s), pos };
    if s.len() == 0 {
        assert(r.bytes =~= Seq::<u8>::empty());
    } else {
        let t = s.drop_first();
        assert(seq![s[0]].drop_first() =~= Seq::<char>::empty());
        assert(vstd::utf8::encode_utf8(Seq::<char>::empty()) =~= Seq::<u8>::empty());
        assert(seq![s[0]][0] == s[0]);
        assert(vstd::utf8::encode_utf8(seq![s[0]]) =~= vstd::utf8::encode_scalar(s[0] as u32));
        assert(r.bytes =~= vstd::utf8::encode_utf8(seq![s[0]]) + vstd::utf8::encode_utf8(t));
        law_read_char_decodes(s[0], vstd::utf8::encode_utf8(t));
        law_reader_gives_encoded_text(t, pos);
        lemma_get_size(r);
        assert(get_spec(r).1 == ReaderV { pending: Seq::<char>::empty(), bytes: vstd::utf8::encode_utf8(t), pos });
        assert(seq![s[0]] + t =~= s);
    }
}

/// What `pop_head` gives: the next character, with `\r\n` and a lone `\r` read as
/// one `\n`, and the position moved past it.
pub open spec fn pop_head_spec<P: SourcePos>(r: ReaderV<P>) -> (Option<char>, ReaderV<P>) {
    let (c, r1) = get_spec(r);
    match c {
        None => (None, r1),
        Some(x) => if x == '\n' {
            (Some('\n'), r1.at(r.pos.after_newline(false)))
        } else if x == '\r' {
            let (d, r2) = get_spec(r1);
            match d {
                None => (Some('\n'), r2.at(r.pos.after_newline(false))),
                Some(y) => if y == '\n' {
                    (Some('\n'), r2.at(r.pos.after_newline(true)))
                } else {
                    (Some('\n'), r2.put_back(y).at(r.pos.after_newline(false)))
                },
            }
        } else {
            (Some(x), r1.at(r.pos.after_char(x)))
        },
    }
}

/// Popping a character leaves less to read.
pub proof fn lemma_pop_size<P: SourcePos>(r: ReaderV<P>)
    ensures
        pop_head_spec(r).1.size() <= r.size(),
        pop_head_spec(r).0 is Some ==> pop_head_spec(r).1.size() < r.size(),
{
    lemma_get_size(r);
    lemma_get_size(get_spec(r).1);
}

/// The reader after `i` calls of `pop_head`.
pub open spec fn pops_spec<P: SourcePos>(r: ReaderV<P>, i: nat) -> ReaderV<P>
    decreases i,
{
    if i == 0 {
        r
    } else {
        pops_spec(pop_head_spec(r).1, (i - 1) as nat)
    }
}

/// What `read_n` reads: up to `i` characters as `pop_head` gives them, fewer when the
/// source ends first.
pub open spec fn read_n_spec<P: SourcePos>(r: ReaderV<P>, i: nat) -> (Seq<char>, ReaderV<P>)
    decreases i,
{
    if i == 0 {
        (Seq::empty(), r)
    } else {
        match pop_head_spec(r) {
            (None, r1) => (Seq::empty(), r1),
            (Some(c), r1) => {
                let (s, r2) = read_n_spec(r1, (i - 1) as nat);
                (seq![c] + s, r2)
            },
        }
    }
}

/// The reader after looking at the next character and putting it back.
pub open spec fn peek_state<P>(r: ReaderV<P>) -> ReaderV<P> {
    match get_spec(r) {
        (Some(x), r1) => r1.put_back(x),
        (None, r1) => r1,
    }
}

/// What `find_line_end` gives: the characters before the first line break, whether
/// that break was a `\r` (`Some(true)`) or a `\n`, or `None` at the end; the break
/// itself is consumed, position untouched.
pub open spec fn line_end_spec<P>(r: ReaderV<P>) -> (Seq<char>, Option<bool>, ReaderV<P>)
    decreases r.size(),
{
    let (c, r1) = get_spec(r);
    match c {
        None => (Seq::empty(), None, r1),
        Some(x) => if x == '\n' {
            (Seq::empty(), Some(false), r1)
        } else if x == '\r' {
            let (d, r2) = get_spec(r1);
            (
                Seq::empty(),
                Some(true),
                match d {
                    Some(y) => if y == '\n' { r2 } else { r2.put_back(y) },
                    None => r2,
                },
            )
        } else {
            proof {
                lemma_get_size(r);
            }
            let (s, e, r3) = line_end_spec(r1);
            (seq![x] + s, e, r3)
        },
    }
}

/// What `trim_start` leaves: white space and line breaks consumed, the position moved
/// past them, and the first other character put back.
pub open spec fn trim_start_spec<P: SourcePos>(r: ReaderV<P>) -> ReaderV<P>
    decreases r.size(),
{
    let (c, r1) = get_spec(r);
    proof {
        lemma_get_size(r);
        lemma_get_size(r1);
    }
    match c {
        None => r1,
        Some(x) => if x == '\n' {
            trim_start_spec(r1.at(r.pos.after_newline(false)))
        } else if x == '\r' {
            let (d, r2) = get_spec(r1);
            match d {
                Some(y) => if y == '\n' {
                    trim_start_spec(r2.at(r.pos.after_newline(true)))
                } else {
                    trim_start_spec(r2.put_back(y).at(r.pos.after_newline(false)))
                },
                None => r2.at(r.pos.after_newline(false)),
            }
        } else if is_ws(x) {
            trim_start_spec(r1.at(r.pos.after_char(x)))
        } else {
            r1.put_back(x)
        },
    }
}

/// `find_line_end` leaves the position where it was.
pub proof fn lemma_line_end_pos<P>(r: ReaderV<P>)
    ensures
        line_end_spec(r).2.pos == r.pos,
    decreases r.size(),
{
    lemma_get_size(r);
    lemma_get_size(get_spec(r).1);
    let (c, r1) = get_spec(r);
    if let Some(x) = c {
        if x != '\n' && x != '\r' {
            lemma_line_end_pos(r1);
        }
    }
}

/// The characters that `get_char` gives, one call after the other, until it first
/// gives `None`.
pub open spec fn chars_of<P>(r: ReaderV<P>) -> Seq<char>
    decreases r.size(),
{
    match get_spec(r) {
        (Some(x), r1) => {
            proof {
                lemma_get_size(r);
            }
            seq![x] + chars_of(r1)
        },
        (None, _) => Seq::empty(),
    }
}

/// The reader after `k` calls of `get_char`.
pub open spec fn gets<P>(r: ReaderV<P>, k: nat) -> ReaderV<P>
    decreases k,
{
    if k == 0 {
        r
    } else {
        gets(get_spec(r).1, (k - 1) as nat)
    }
}

/// After `k` calls of `get_char`, the next call gives the `k`-th character of
/// `chars_of`, or `None` when they are used up.
pub proof fn lemma_gets<P>(r: ReaderV<P>, k: nat)
    ensures
        gets(r, k + 1) == get_spec(gets(r, k)).1,
        gets(r, k).pos == r.pos,
        k <= chars_of(r).len() ==> chars_of(gets(r, k)) == chars_of(r).skip(k as int),
        k < chars_of(r).len() ==> get_spec(gets(r, k)).0 == Some(chars_of(r)[k as int]),
        k == chars_of(r).len() ==> get_spec(gets(r, k)).0 is None,
    decreases k,
{
    lemma_get_size(r);
    if k == 0 {
        assert(chars_of(r).skip(0) =~= chars_of(r));
        assert(gets(get_spec(r).1, 0) == get_spec(r).1);
    } else {
        let r1 = get_spec(r).1;
        lemma_gets(r1, (k - 1) as nat);
        assert(gets(r, k) == gets(r1, (k - 1) as nat));
        assert(gets(r, k + 1) == gets(r1, k));
        assert((k - 1) as nat + 1 == k);
        if k <= chars_of(r).len() {
            assert(chars_of(r1).skip(k - 1) =~= chars_of(r).skip(k as int));
        }
    }
    let g = gets(r, k);
    if k <= chars_of(r).len() {
        if get_spec(g).0 is Some {
            assert(chars_of(g).len() > 0);
        }
        if k < chars_of(r).len() {
            assert(chars_of(g)[0] == chars_of(r)[k as int]);
        }
    }
}

/// What a scan has made of the characters it took so far: the text it keeps, whether
/// the last one was a `\r` still waiting for a `\n`, and the position.
pub struct Crlf<P> {
    pub text: Seq<char>,
    pub rn: bool,
    pub pos: P,
}

/// One more character taken by `read_while`: `\r\n`, a lone `\r` and `\n` each become
/// one `\n` in the text and one line break in the position.
pub open spec fn crlf_step<P: SourcePos>(s: Crlf<P>, x: char) -> Crlf<P> {
    if s.rn && x == '\n' {
        Crlf { text: s.text, rn: false, pos: s.pos.after_newline(true) }
    } else if s.rn {
        Crlf { text: s.text.push(x), rn: false, pos: s.pos.after_newline(false).after_char(x) }
    } else if x == '\n' {
        Crlf { text: s.text.push('\n'), rn: false, pos: s.pos.after_newline(false) }
    } else if x == '\r' {
        Crlf { text: s.text.push('\n'), rn: true, pos: s.pos }
    } else {
        Crlf { text: s.text.push(x), rn: false, pos: s.pos.after_char(x) }
    }
}

/// `crlf_step` over the characters `cs`, from `pos`.
pub open spec fn crlf_fold<P: SourcePos>(pos: P, cs: Seq<char>) -> Crlf<P>
    decreases cs.len(),
{
    if cs.len() == 0 {
        Crlf { text: Seq::empty(), rn: false, pos }
    } else {
        crlf_step(crlf_fold(pos, cs.drop_last()), cs.last())
    }
}

/// The position at the end of a scan: a `\r` still waiting counts as a line break.
pub open spec fn crlf_end<P: SourcePos>(s: Crlf<P>) -> P {
    if s.rn {
        s.pos.after_newline(false)
    } else {
        s.pos
    }
}

/// What `read_while` leaves after taking the first `k` characters of `chars_of(r)`:
/// the character that stopped it put back, or the reader past the end.
pub open spec fn scan_state<P: SourcePos>(r: ReaderV<P>, k: nat, pos: P) -> ReaderV<P> {
    let raw = chars_of(r);
    if k < raw.len() {
        gets(r, k + 1).put_back(raw[k as int]).at(pos)
    } else {
        gets(r, k + 1).at(pos)
    }
}

/// There are no more characters to get than there is left to read.
pub proof fn lemma_chars_len<P>(r: ReaderV<P>)
    ensures
        chars_of(r).len() <= r.size(),
    decreases r.size(),
{
    lemma_get_size(r);
    if let (Some(_), r1) = get_spec(r) {
        lemma_chars_len(r1);
    }
}

/// What `read_until_with_brackets` has made of the characters it took so far: the
/// text, a pending `\r`, the position, and how deep it is inside brackets.
pub struct Brk<P> {
    pub text: Seq<char>,
    pub rn: bool,
    pub pos: P,
    pub depth: int,
}

/// Whether the scan asks its predicate about `x`: outside any bracket, and `x` does
/// not open one.
pub open spec fn brk_checked<P>(s: Brk<P>, open: char, x: char) -> bool {
    s.depth == 0 && x != open
}

/// One more character taken by `read_until_with_brackets`. Brackets are counted; inside
/// them line breaks are read as `read_while` reads them.
pub open spec fn brk_step<P: SourcePos>(s: Brk<P>, open: char, close: char, x: char) -> Brk<P> {
    if x == open {
        Brk { text: s.text.push(x), pos: s.pos.after_char(x), depth: s.depth + 1, ..s }
    } else if x == close && s.depth > 0 {
        Brk { text: s.text.push(x), pos: s.pos.after_char(x), depth: s.depth - 1, ..s }
    } else if s.depth > 0 {
        let c = crlf_step(Crlf { text: s.text, rn: s.rn, pos: s.pos }, x);
        Brk { text: c.text, rn: c.rn, pos: c.pos, depth: s.depth }
    } else {
        Brk { text: s.text.push(x), pos: s.pos.after_char(x), ..s }
    }
}

/// `brk_step` over the characters `cs`, from `pos`.
pub open spec fn brk_fold<P: SourcePos>(pos: P, open: char, close: char, cs: Seq<char>) -> Brk<P>
    decreases cs.len(),
{
    if cs.len() == 0 {
        Brk { text: Seq::empty(), rn: false, pos, depth: 0 }
    } else {
        brk_step(brk_fold(pos, open, close, cs.drop_last()), open, close, cs.last())
    }
}

/// The bracket depth never falls below zero.
pub proof fn lemma_brk_depth<P: SourcePos>(pos: P, open: char, close: char, cs: Seq<char>)
    ensures
        0 <= brk_fold(pos, open, close, cs).depth,
    decreases cs.len(),
{
    if cs.len() > 0 {
        lemma_brk_depth(pos, open, close, cs.drop_last());
    }
}

/// Whether a bracket scan of what `r` holds can count its depth in an `i32`: wherever
/// it can get to, going on past each character it asks its predicate about only where
/// `refuses` holds of it (the predicate may answer `false`), the depth is at most
/// `i32::MAX`.
pub open spec fn brk_depth_fits<P: SourcePos>(r: ReaderV<P>, open: char, close: char, refuses: spec_fn(char) -> bool) -> bool {
    let raw = chars_of(r);
    forall|k: int|
        #![trigger raw.take(k)]
        0 <= k <= raw.len() && (forall|j: int|
            0 <= j < k && brk_checked(brk_fold(r.pos, open, close, raw.take(j)), open, raw[j]) ==> refuses(
                #[trigger] raw[j],
            )) ==> brk_fold(r.pos, open, close, raw.take(k)).depth <= i32::MAX
}

/// On a text without `\r`, with distinct brackets, the reader's bracket scan reads as the
/// string scan does: after the first `k` characters its text is those characters, its
/// depth is the string scan's depth, and it asks its predicate at the positions where
/// the string scan asks it.
pub proof fn law_bracket_scans_agree<P: SourcePos>(pos: P, open: char, close: char, raw: Seq<char>, k: int)
    requires
        0 <= k <= raw.len(),
        !raw.contains('\r'),
        open != close,
    ensures
        brk_fold(pos, open, close, raw.take(k)).text == raw.take(k),
        !brk_fold(pos, open, close, raw.take(k)).rn,
        brk_fold(pos, open, close, raw.take(k)).depth == crate::strings::bracket_depth(raw, open, close, true, k),
        k < raw.len() ==> (brk_checked(brk_fold(pos, open, close, raw.take(k)), open, raw[k])
            == crate::strings::bracket_free(raw, open, close, true, k)),
    decreases k,
{
    if k > 0 {
        law_bracket_scans_agree(pos, open, close, raw, k - 1);
        assert(raw.take(k).drop_last() =~= raw.take(k - 1));
        assert(raw.take(k).last() == raw[k - 1]);
        assert(raw.take(k - 1).push(raw[k - 1]) =~= raw.take(k));
        assert(raw[k - 1] != '\r');
    } else {
        assert(raw.take(0) =~= Seq::<char>::empty());
    }
}

/// With a text without `\r`, distinct brackets and a predicate that answers each
/// character one way, `ParseReader::read_until_with_brackets` reads what
/// `ParseStr::read_until_with_brackets` reads from the same characters: a stop `k` the
/// reader's contract allows and a stop `n` the string's allows are the same, the texts
/// are the same, and when the scan stops at a character the reader is left with exactly
/// the characters the string scanner has left.
pub proof fn law_bracket_reads_agree<P: SourcePos, F: Fn(char) -> bool>(
    r: ReaderV<P>,
    open: char,
    close: char,
    pred: F,
    k: nat,
    n: int,
    p: P,
)
    requires
        !chars_of(r).contains('\r'),
        open != close,
        forall|c: char, x: bool, y: bool|
            call_ensures(pred, (c,), x) && call_ensures(pred, (c,), y) ==> x == y,
        k <= chars_of(r).len(),
        forall|j: int|
            0 <= j < k && brk_checked(brk_fold(r.pos, open, close, chars_of(r).take(j)), open, chars_of(r)[j])
                ==> call_ensures(pred, (#[trigger] chars_of(r)[j],), false),
        k < chars_of(r).len() ==> brk_checked(brk_fold(r.pos, open, close, chars_of(r).take(k as int)), open, chars_of(r)[k as int])
            && call_ensures(pred, (chars_of(r)[k as int],), true),
        crate::strings::bracket_scan_may_stop(chars_of(r), open, close, true, pred, n),
    ensures
        k == n,
        brk_fold(r.pos, open, close, chars_of(r).take(k as int)).text == chars_of(r).take(n),
        n < chars_of(r).len() ==> chars_of(scan_state(r, k, p)) == chars_of(r).skip(n),
{
    let raw = chars_of(r);
    law_bracket_scans_agree(r.pos, open, close, raw, k as int);
    law_bracket_scans_agree(r.pos, open, close, raw, n);
    if (k as int) < n {
        assert(crate::strings::bracket_free(raw, open, close, true, k as int));
        assert(call_ensures(pred, (raw[k as int],), false));
    } else if n < k {
        assert(call_ensures(pred, (raw[n],), true));
        assert(call_ensures(pred, (raw[n],), false));
    }
    if n < raw.len() {
        law_scan_resumes(r, k, p);
    }
}

/// The position at the end of a bracket scan.
pub open spec fn brk_end<P: SourcePos>(s: Brk<P>) -> P {
    if s.rn {
        s.pos.after_newline(false)
    } else {
        s.pos
    }
}

/// What `read_until_str` gives from reader `r`, `ret` read so far: characters as
/// `pop_head` gives them, until the text read ends with `pat`; then as many characters
/// as `pat` has bytes (`n`) are taken off the end and put back, last first, so that they
/// are read again in order.
pub open spec fn until_str_spec<P: SourcePos>(r: ReaderV<P>, pat: Seq<char>, n: nat, ret: Seq<char>) -> (Seq<char>, ReaderV<P>)
    decreases r.size(),
{
    match pop_head_spec(r) {
        (None, r1) => (ret, r1),
        (Some(c), r1) => {
            let ret2 = ret.push(c);
            if pat.is_suffix_of(ret2) {
                let keep = ret2.len() - n;
                (ret2.take(keep), ReaderV { pending: r1.pending + ret2.skip(keep).reverse(), ..r1 })
            } else {
                proof {
                    lemma_pop_size(r);
                }
                until_str_spec(r1, pat, n, ret2)
            }
        },
    }
}

/// Whether `read_until_str` fails: when the text read ends with `pat`, it holds fewer
/// characters than `pat` has bytes, so there is not that much to put back.
pub open spec fn until_str_panics<P: SourcePos>(r: ReaderV<P>, pat: Seq<char>, n: nat, ret: Seq<char>) -> bool
    decreases r.size(),
{
    match pop_head_spec(r) {
        (None, _) => false,
        (Some(c), r1) => {
            let ret2 = ret.push(c);
            if pat.is_suffix_of(ret2) {
                ret2.len() < n
            } else {
                proof {
                    lemma_pop_size(r);
                }
                until_str_panics(r1, pat, n, ret2)
            }
        },
    }
}

/// The characters of `s`.
fn chars_vec(s: &str) -> (v: Vec<char>)
    ensures
        v@ == s@,
{
    let mut v: Vec<char> = Vec::new();
    let mut rest = s;
    while !rest.is_empty()
        invariant
            v@ + rest@ == s@,
        decreases rest@.len(),
    {
        let (c, r) = split_first_char(rest);
        proof {
            assert(v@.push(c) + r@ =~= v@ + rest@);
        }
        v.push(c);
        rest = r;
    }
    proof {
        assert(v@ + rest@ =~= v@);
    }
    v
}

/// Whether `p` is a suffix of `v`.
fn ends_with_chars(v: &Vec<char>, p: &Vec<char>) -> (r: bool)
    ensures
        r == p@.is_suffix_of(v@),
{
    if p.len() > v.len() {
        return false;
    }
    let off = v.len() - p.len();
    let mut i: usize = 0;
    while i < p.len()
        invariant
            off + p.len() == v.len(),
            i <= p.len(),
            forall|j: int| 0 <= j < i ==> p@[j] == v@[off + j],
        decreases p.len() - i,
    {
        if p[i] != v[off + i] {
            return false;
        }
        i = i + 1;
    }
    proof {
        assert(p@ =~= v@.subrange(off as int, v@.len() as int));
    }
    true
}

/// A string of the first `n` characters of `v`.
fn string_of(v: &Vec<char>, n: usize) -> (r: String)
    requires
        n <= v.len(),
    ensures
        r@ == v@.take(n as int),
{
    let mut r = String::new();
    let mut i: usize = 0;
    while i < n
        invariant
            i <= n,
            n <= v.len(),
            r@ == v@.take(i as int),
        decreases n - i,
    {
        push_to(&mut r, v[i]);
        i = i + 1;
        proof {
            assert(r@ =~= v@.take(i as int));
        }
    }
    r
}

/// Where the position stands does not change what is left to read.
pub proof fn lemma_chars_at<P>(r: ReaderV<P>, p: P)
    ensures
        chars_of(r.at(p)) == chars_of(r),
    decreases r.size(),
{
    lemma_get_size(r);
    assert(get_spec(r.at(p)).0 == get_spec(r).0);
    assert(get_spec(r.at(p)).1 == get_spec(r).1.at(p));
    if let (Some(_), r1) = get_spec(r) {
        lemma_chars_at(r1, p);
    }
}

/// A character put back is the next one read, before all that was left.
pub proof fn law_put_back_first<P>(r: ReaderV<P>, c: char)
    ensures
        get_spec(r.put_back(c)) == (Some(c), r),
        chars_of(r.put_back(c)) == seq![c] + chars_of(r),
{
    assert(r.put_back(c).pending.drop_last() =~= r.pending);
    lemma_get_size(r.put_back(c));
}

/// Looking at the next character loses nothing of what is left to read.
pub proof fn law_peek_keeps_input<P>(r: ReaderV<P>)
    ensures
        chars_of(r).is_prefix_of(chars_of(peek_state(r))),
{
    lemma_get_size(r);
    match get_spec(r) {
        (Some(x), r1) => {
            law_put_back_first(r1, x);
            assert(chars_of(peek_state(r)) =~= chars_of(r));
        },
        (None, _) => {},
    }
}

/// A scan that stopped at a character leaves exactly the characters from that one on
/// to be read: nothing it did not take is lost.
pub proof fn law_scan_resumes<P: SourcePos>(r: ReaderV<P>, k: nat, p: P)
    requires
        k < chars_of(r).len(),
    ensures
        chars_of(scan_state(r, k, p)) == chars_of(r).skip(k as int),
{
    let raw = chars_of(r);
    lemma_gets(r, k);
    lemma_gets(r, k + 1);
    let g = gets(r, k + 1);
    law_put_back_first(g, raw[k as int]);
    lemma_chars_at(g.put_back(raw[k as int]), p);
    assert(chars_of(gets(r, k)) == raw.skip(k as int));
    assert(raw.skip(k as int) =~= seq![raw[k as int]] + raw.skip((k + 1) as int));
}

/// Reads characters and scans them.
pub struct ParseReader<R: ByteSource, P: SourcePos> {
    inner: R,
    buf: Vec<char>,
    pos: P,
}

impl<R: ByteSource, P: SourcePos> ParseReader<R, P> {
    /// The reader as values.
    pub closed spec fn view(&self) -> ReaderV<P> {
        ReaderV { pending: self.buf@, bytes: self.inner.bytes(), pos: self.pos }
    }

    /// A reader at the origin of what `inner` delivers.
    pub fn new(inner: R) -> (r: Self)
        ensures
            r@ == (ReaderV { pending: Seq::empty(), bytes: inner.bytes(), pos: P::origin() }),
    {
        ParseReader { inner, buf: Vec::new(), pos: P::start() }
    }

    /// The next character: one put back, or else one read from the source.
    fn get_char(&mut self) -> (r: Option<char>)
        ensures
            (r, final(self)@) == get_spec(old(self)@),
    {
        match self.buf.pop() {
            Some(c) => Some(c),
            None => self.read_char(),
        }
    }

    /// Reads one character from the source.
    fn read_char(&mut self) -> (r: Option<char>)
        ensures
            (r, final(self).inner.bytes()) == read_char_spec(old(self).inner.bytes()),
            final(self).buf == old(self).buf,
            final(self).pos == old(self).pos,
    {
        let ghost b0 = self.inner.bytes();
        let first = match self.inner.read_exact(1) {
            Some(v) => v,
            None => {
                return None;
            },
        };
        let byte = first[0];
        proof {
            assert(b0[0] == byte);
        }
        let w: usize = if byte & 224u8 == 192u8 {
            2
        } else if byte & 240u8 == 224u8 {
            3
        } else if byte & 248u8 == 240u8 {
            4
        } else {
            1
        };
        if w == 1 {
            return Some(byte as char);
        }
        let rest = match self.inner.read_exact(w - 1) {
            Some(v) => v,
            None => {
                return None;
            },
        };
        let mut buf: Vec<u8> = Vec::new();
        buf.push(byte);
        let mut i: usize = 0;
        while i < rest.len()
            invariant
                i <= rest.len(),
                buf@ == seq![byte] + rest@.take(i as int),
            decreases rest.len() - i,
        {
            buf.push(rest[i]);
            i = i + 1;
            proof {
                assert(buf@ =~= seq![byte] + rest@.take(i as int));
            }
        }
        proof {
            assert(buf@ =~= b0.take(w as int));
            assert(self.inner.bytes() =~= b0.skip(w as int));
        }
        Self::char_from_utf8(buf.as_slice())
    }

    /// The next character, with `\r\n` and a lone `\r` read as one `\n`.
    pub fn pop_head(&mut self) -> (r: Option<char>)
        ensures
            (r, final(self)@) == pop_head_spec(old(self)@),
    {
        match self.get_char() {
            Some(c) => {
                if c == '\n' {
                    self.pos.update_newline(false);
                    Some('\n')
                } else if c == '\r' {
                    match self.get_char() {
                        Some(d) => {
                            if d == '\n' {
                                self.pos.update_newline(true);
                            } else {
                                self.pos.update_newline(false);
                                self.push_char(d);
                            }
                        },
                        None => {
                            self.pos.update_newline(false);
                        },
                    }
                    Some('\n')
                } else {
                    self.pos.update(c);
                    Some(c)
                }
            },
            None => None,
        }
    }

    /// The current position.
    pub fn curr_pos(&self) -> (r: P)
        ensures
            r == self@.pos,
    {
        self.pos.copied()
    }

    /// The source of bytes.
    pub fn source(&self) -> (r: &R)
        ensures
            r.bytes() == self@.bytes,
    {
        &self.inner
    }

    /// Skips `i` characters.
    pub fn skip(&mut self, i: usize)
        ensures
            final(self)@ == pops_spec(old(self)@, i as nat),
    {
        let mut j: usize = 0;
        while j < i
            invariant
                j <= i,
                pops_spec(self@, (i - j) as nat) == pops_spec(old(self)@, i as nat),
            decreases i - j,
        {
            let _ = self.pop_head();
            j = j + 1;
        }
    }

    /// Reads up to `i` characters.
    pub fn read_n(&mut self, i: usize) -> (r: String)
        ensures
            (r@, final(self)@) == read_n_spec(old(self)@, i as nat),
    {
        let mut ret = String::new();
        let mut j: usize = 0;
        while j < i
            invariant_except_break
                j <= i,
                ({
                    let rest = read_n_spec(self@, (i - j) as nat);
                    read_n_spec(old(self)@, i as nat) == (ret@ + rest.0, rest.1)
                }),
            ensures
                read_n_spec(old(self)@, i as nat) == (ret@, self@),
            decreases i - j,
        {
            match self.pop_head() {
                Some(c) => {
                    proof {
                        assert(ret@ + (seq![c] + read_n_spec(self@, (i - j - 1) as nat).0)
                            =~= ret@.push(c) + read_n_spec(self@, (i - j - 1) as nat).0);
                    }
                    push_to(&mut ret, c);
                },
                None => {
                    proof {
                        assert(ret@ + Seq::<char>::empty() =~= ret@);
                    }
                    break;
                },
            }
            j = j + 1;
        }
        proof {
            if j == i {
                assert(ret@ + Seq::<char>::empty() =~= ret@);
            }
        }
        ret
    }

    /// Whether the next character is `c`; nothing is consumed.
    pub fn starts_with(&mut self, c: char) -> (r: bool)
        ensures
            r == (get_spec(old(self)@).0 == Some(c)),
            final(self)@ == peek_state(old(self)@),
    {
        match self.get_char() {
            Some(c2) => {
                self.push_char(c2);
                c2 == c
            },
            None => false,
        }
    }

    /// The next character, left to be read.
    pub fn peek_head(&mut self) -> (r: Option<char>)
        ensures
            r == get_spec(old(self)@).0,
            final(self)@ == peek_state(old(self)@),
    {
        match self.get_char() {
            Some(c) => {
                self.push_char(c);
                Some(c)
            },
            None => None,
        }
    }

    /// The characters up to the next line break, and what the break was.
    fn find_line_end(&mut self) -> (r: (String, Option<bool>))
        ensures
            (r.0@, r.1, final(self)@) == line_end_spec(old(self)@),
    {
        let mut ret = String::new();
        loop
            invariant
                ({
                    let rest = line_end_spec(self@);
                    line_end_spec(old(self)@) == (ret@ + rest.0, rest.1, rest.2)
                }),
            decreases self@.size(),
        {
            let ghost r0 = self@;
            proof {
                lemma_get_size(r0);
            }
            match self.get_char() {
                None => {
                    proof {
                        assert(ret@ + Seq::<char>::empty() =~= ret@);
                    }
                    return (ret, None);
                },
                Some(c) => {
                    if c == '\n' {
                        proof {
                            assert(ret@ + Seq::<char>::empty() =~= ret@);
                        }
                        return (ret, Some(false));
                    }
                    if c == '\r' {
                        match self.get_char() {
                            Some(d) => {
                                if d != '\n' {
                                    self.push_char(d);
                                }
                            },
                            None => {},
                        }
                        proof {
                            assert(ret@ + Seq::<char>::empty() =~= ret@);
                        }
                        return (ret, Some(true));
                    }
                    proof {
                        assert(ret@ + (seq![c] + line_end_spec(self@).0) =~= ret@.push(c) + line_end_spec(self@).0);
                    }
                    push_to(&mut ret, c);
                },
            }
        }
    }

    /// The rest of the line and the position at its end; the line break is consumed.
    pub fn read_until_line_end(&mut self) -> (r: (String, P))
        ensures
            ({
                let (s, e, r1) = line_end_spec(old(self)@);
                let p = old(self)@.pos.after_line(s);
                &&& r.0@ == s
                &&& r.1 == p
                &&& final(self)@ == r1.at(
                    match e {
                        Some(rn) => p.after_newline(rn),
                        None => p,
                    },
                )
            }),
    {
        let ghost r0 = self@;
        let (s, rn) = self.find_line_end();
        proof {
            lemma_line_end_pos(r0);
        }
        self.pos.update_str_no_newline(s.as_str());
        let pos = self.pos.copied();
        match rn {
            Some(rn) => self.pos.update_newline(rn),
            None => {},
        }
        (s, pos)
    }

    /// Skips white space and line breaks.
    pub fn trim_start(&mut self)
        ensures
            final(self)@ == trim_start_spec(old(self)@),
    {
        loop
            invariant_except_break
                trim_start_spec(self@) == trim_start_spec(old(self)@),
            ensures
                self@ == trim_start_spec(old(self)@),
            decreases self@.size(),
        {
            let ghost r0 = self@;
            proof {
                lemma_get_size(r0);
                lemma_get_size(get_spec(r0).1);
            }
            match self.get_char() {
                None => {
                    break;
                },
                Some(c) => {
                    if c == '\n' {
                        self.pos.update_newline(false);
                    } else if c == '\r' {
                        match self.get_char() {
                            Some(d) => {
                                if d == '\n' {
                                    self.pos.update_newline(true);
                                } else {
                                    self.push_char(d);
                                    self.pos.update_newline(false);
                                }
                            },
                            None => {
                                self.pos.update_newline(false);
                                break;
                            },
                        }
                    } else if is_whitespace(c) {
                        self.pos.update(c);
                    } else {
                        self.push_char(c);
                        break;
                    }
                },
            }
        }
    }

    /// Reads characters while `pred` answers `want`; the first other one is put back.
    #[verifier::spinoff_prover]
    #[verifier::rlimit(50)]
    fn scan_chars<F: Fn(char) -> bool>(&mut self, pred: F, want: bool) -> (r: String)
        requires
            forall|c: char| call_requires(pred, (c,)),
        ensures
            exists|k: nat|
                #![trigger chars_of(old(self)@).take(k as int)]
                {
                    let raw = chars_of(old(self)@);
                    let f = crlf_fold(old(self)@.pos, raw.take(k as int));
                    &&& k <= raw.len()
                    &&& r@ == f.text
                    &&& forall|j: int| 0 <= j < k ==> call_ensures(pred, (#[trigger] raw[j],), want)
                    &&& k < raw.len() ==> call_ensures(pred, (raw[k as int],), !want)
                    &&& final(self)@ == scan_state(old(self)@, k, crlf_end(f))
                },
    {
        let ghost r0 = self@;
        let ghost raw = chars_of(r0);
        let ghost mut k: nat = 0;
        let mut ret = String::new();
        let mut rn = false;
        proof {
            assert(raw.take(0) =~= Seq::<char>::empty());
        }
        loop
            invariant_except_break
                k <= raw.len(),
                r0 == old(self)@,
                raw == chars_of(r0),
                ({
                    let f = crlf_fold(r0.pos, raw.take(k as int));
                    ret@ == f.text && rn == f.rn && self@.pos == f.pos
                }),
                self@ == gets(r0, k).at(self@.pos),
                forall|j: int| 0 <= j < k ==> call_ensures(pred, (#[trigger] raw[j],), want),
                forall|c: char| call_requires(pred, (c,)),
            ensures
                k <= raw.len(),
                ({
                    let f = crlf_fold(r0.pos, raw.take(k as int));
                    &&& ret@ == f.text
                    &&& k < raw.len() ==> call_ensures(pred, (raw[k as int],), !want)
                    &&& self@ == scan_state(r0, k, crlf_end(f))
                }),
                forall|j: int| 0 <= j < k ==> call_ensures(pred, (#[trigger] raw[j],), want),
            decreases raw.len() - k,
        {
            proof {
                lemma_gets(r0, k);
            }
            let ghost pos0 = self.pos;
            match self.get_char() {
                None => {
                    proof {
                        assert(k == raw.len());
                    }
                    if rn {
                        self.pos.update_newline(false);
                    }
                    break;
                },
                Some(c) => {
                    if pred(c) != want {
                        self.push_char(c);
                        if rn {
                            self.pos.update_newline(false);
                        }
                        break;
                    }
                    proof {
                        assert(raw.take((k + 1) as int).drop_last() =~= raw.take(k as int));
                        assert(raw.take((k + 1) as int).last() == c);
                    }
                    if rn && c == '\n' {
                        self.pos.update_newline(true);
                        rn = false;
                    } else {
                        if rn {
                            self.pos.update_newline(false);
                            rn = false;
                            self.pos.update(c);
                            push_to(&mut ret, c);
                        } else if c == '\n' {
                            self.pos.update_newline(false);
                            push_to(&mut ret, '\n');
                        } else if c == '\r' {
                            push_to(&mut ret, '\n');
                            rn = true;
                        } else {
                            self.pos.update(c);
                            push_to(&mut ret, c);
                        }
                    }
                    proof {
                        k = k + 1;
                    }
                },
            }
        }
        ret
    }

    /// Reads characters while `pred` accepts them; the first it refuses is put back.
    /// The text read has each `\r\n`, lone `\r` and `\n` as one `\n`.
    pub fn read_while<F: Fn(char) -> bool>(&mut self, pred: F) -> (r: String)
        requires
            forall|c: char| call_requires(pred, (c,)),
        ensures
            exists|k: nat|
                #![trigger chars_of(old(self)@).take(k as int)]
                {
                    let raw = chars_of(old(self)@);
                    let f = crlf_fold(old(self)@.pos, raw.take(k as int));
                    &&& k <= raw.len()
                    &&& r@ == f.text
                    &&& forall|j: int| 0 <= j < k ==> call_ensures(pred, (#[trigger] raw[j],), true)
                    &&& k < raw.len() ==> call_ensures(pred, (raw[k as int],), false)
                    &&& final(self)@ == scan_state(old(self)@, k, crlf_end(f))
                },
    {
        self.scan_chars(pred, true)
    }

    /// Reads characters until `pred` accepts one, which is put back; the text read is
    /// as `read_while` gives it.
    pub fn read_until<F: Fn(char) -> bool>(&mut self, pred: F) -> (r: String)
        requires
            forall|c: char| call_requires(pred, (c,)),
        ensures
            exists|k: nat|
                #![trigger chars_of(old(self)@).take(k as int)]
                {
                    let raw = chars_of(old(self)@);
                    let f = crlf_fold(old(self)@.pos, raw.take(k as int));
                    &&& k <= raw.len()
                    &&& r@ == f.text
                    &&& forall|j: int| 0 <= j < k ==> call_ensures(pred, (#[trigger] raw[j],), false)
                    &&& k < raw.len() ==> call_ensures(pred, (raw[k as int],), true)
                    &&& final(self)@ == scan_state(old(self)@, k, crlf_end(f))
                },
    {
        self.scan_chars(pred, false)
    }

    /// Reads characters until `pred` accepts one outside of `open`/`close` brackets; that
    /// one is put back. Inside brackets the text read has each `\r\n`, lone `\r` and
    /// `\n` as one `\n`. The depth is counted in an `i32`, so it is required never to
    /// pass `i32::MAX` before the scan stops.
    #[verifier::spinoff_prover]
    #[verifier::rlimit(50)]
    pub fn read_until_with_brackets<F: Fn(char) -> bool>(&mut self, open: char, close: char, pred: F) -> (r: String)
        requires
            forall|c: char| call_requires(pred, (c,)),
            brk_depth_fits(old(self)@, open, close, |c: char| call_ensures(pred, (c,), false)),
        ensures
            exists|k: nat|
                #![trigger chars_of(old(self)@).take(k as int)]
                {
                    let raw = chars_of(old(self)@);
                    let f = brk_fold(old(self)@.pos, open, close, raw.take(k as int));
                    &&& k <= raw.len()
                    &&& r@ == f.text
                    &&& forall|j: int|
                        0 <= j < k && brk_checked(brk_fold(old(self)@.pos, open, close, raw.take(j)), open, raw[j])
                            ==> call_ensures(pred, (#[trigger] raw[j],), false)
                    &&& k < raw.len() ==> brk_checked(f, open, raw[k as int]) && call_ensures(pred, (raw[k as int],), true)
                    &&& final(self)@ == scan_state(old(self)@, k, brk_end(f))
                },
    {
        let ghost r0 = self@;
        let ghost raw = chars_of(r0);
        let ghost mut k: nat = 0;
        let mut ret = String::new();
        let mut depth: i32 = 0;
        let mut rn = false;
        proof {
            assert(raw.take(0) =~= Seq::<char>::empty());
        }
        loop
            invariant_except_break
                k <= raw.len(),
                brk_depth_fits(r0, open, close, |c: char| call_ensures(pred, (c,), false)),
                r0 == old(self)@,
                raw == chars_of(r0),
                ({
                    let f = brk_fold(r0.pos, open, close, raw.take(k as int));
                    ret@ == f.text && rn == f.rn && self@.pos == f.pos && depth == f.depth
                }),
                self@ == gets(r0, k).at(self@.pos),
                forall|j: int|
                    0 <= j < k && brk_checked(brk_fold(r0.pos, open, close, raw.take(j)), open, raw[j])
                        ==> call_ensures(pred, (#[trigger] raw[j],), false),
                forall|c: char| call_requires(pred, (c,)),
            ensures
                k <= raw.len(),
                ({
                    let f = brk_fold(r0.pos, open, close, raw.take(k as int));
                    &&& ret@ == f.text
                    &&& k < raw.len() ==> brk_checked(f, open, raw[k as int]) && call_ensures(pred, (raw[k as int],), true)
                    &&& self@ == scan_state(r0, k, brk_end(f))
                }),
                forall|j: int|
                    0 <= j < k && brk_checked(brk_fold(r0.pos, open, close, raw.take(j)), open, raw[j])
                        ==> call_ensures(pred, (#[trigger] raw[j],), false),
            decreases raw.len() - k,
        {
            proof {
                lemma_gets(r0, k);
                lemma_brk_depth(r0.pos, open, close, raw.take(k as int));
                if k < raw.len() && raw[k as int] == open {
                    let k1 = (k + 1) as int;
                    assert forall|j: int|
                        0 <= j < k1 && brk_checked(brk_fold(r0.pos, open, close, raw.take(j)), open, raw[j])
                            implies call_ensures(pred, (#[trigger] raw[j],), false) by {
                        if j == k {
                            assert(!brk_checked(brk_fold(r0.pos, open, close, raw.take(j)), open, raw[j]));
                        }
                    }
                    assert(brk_fold(r0.pos, open, close, raw.take(k1)).depth <= i32::MAX);
                }
            }
            match self.get_char() {
                None => {
                    if rn {
                        self.pos.update_newline(false);
                    }
                    break;
                },
                Some(c) => {
                    proof {
                        assert(raw.take((k + 1) as int).drop_last() =~= raw.take(k as int));
                        assert(raw.take((k + 1) as int).last() == c);
                    }
                    if c == open {
                        depth = depth + 1;
                        self.pos.update(c);
                        push_to(&mut ret, c);
                    } else if c == close && depth > 0 {
                        depth = depth - 1;
                        self.pos.update(c);
                        push_to(&mut ret, c);
                    } else if depth > 0 {
                        if rn && c == '\n' {
                            self.pos.update_newline(true);
                            rn = false;
                        } else if rn {
                            self.pos.update_newline(false);
                            rn = false;
                            self.pos.update(c);
                            push_to(&mut ret, c);
                        } else if c == '\n' {
                            self.pos.update_newline(false);
                            push_to(&mut ret, '\n');
                        } else if c == '\r' {
                            push_to(&mut ret, '\n');
                            rn = true;
                        } else {
                            self.pos.update(c);
                            push_to(&mut ret, c);
                        }
                    } else {
                        if pred(c) {
                            self.push_char(c);
                            if rn {
                                self.pos.update_newline(false);
                            }
                            break;
                        }
                        self.pos.update(c);
                        push_to(&mut ret, c);
                    }
                    proof {
                        k = k + 1;
                    }
                },
            }
        }
        ret
    }

    /// Reads up to and including `s`, then puts back as many characters as `s` has
    /// bytes. A text read that ends with `s` but holds fewer characters than that
    /// makes the read fail, so such a call is excluded.
    pub fn read_until_str(&mut self, s: &str) -> (r: String)
        requires
            !until_str_panics(old(self)@, s@, byte_len(s@), Seq::empty()),
        ensures
            (r@, final(self)@) == until_str_spec(old(self)@, s@, byte_len(s@), Seq::empty()),
    {
        let pat = chars_vec(s);
        let n = str_byte_len(s);
        let mut ret: Vec<char> = Vec::new();
        loop
            invariant
                pat@ == s@,
                n == byte_len(s@),
                until_str_spec(self@, s@, n as nat, ret@) == until_str_spec(old(self)@, s@, n as nat, Seq::empty()),
                !until_str_panics(self@, s@, n as nat, ret@),
            decreases self@.size(),
        {
            let ghost r0 = self@;
            proof {
                lemma_pop_size(r0);
            }
            match self.pop_head() {
                None => {
                    return string_of(&ret, ret.len());
                },
                Some(c) => {
                    ret.push(c);
                    if ends_with_chars(&ret, &pat) {
                        let keep = ret.len() - n;
                        let ghost r1 = self@;
                        let ghost all = ret@;
                        let mut i: usize = ret.len();
                        while i > keep
                            invariant
                                keep <= i <= all.len(),
                                ret@ == all,
                                self@ == (ReaderV { pending: r1.pending + all.skip(i as int).reverse(), ..r1 }),
                            decreases i,
                        {
                            i = i - 1;
                            self.push_char(ret[i]);
                            proof {
                                assert(r1.pending + all.skip(i as int).reverse() =~= (r1.pending + all.skip(
                                    (i + 1) as int,
                                ).reverse()).push(all[i as int]));
                            }
                        }
                        return string_of(&ret, keep);
                    }
                },
            }
        }
    }

    /// Puts `c` back, to be read next.
    fn push_char(&mut self, c: char)
        ensures
            final(self)@ == old(self)@.put_back(c),
    {
        self.buf.push(c);
    }

    /// The character that `buf` encodes first, if `buf` is valid UTF-8.
    fn char_from_utf8(buf: &[u8]) -> (r: Option<char>)
        ensures
            r == utf8_char(buf@),
    {
        match str_from_utf8(buf) {
            Some(s) => {
                if s.unicode_len() > 0 {
                    Some(s.get_char(0))
                } else {
                    None
                }
            },
            None => None,
        }
    }
}

impl<'a, R: ByteSource + 'a, P: SourcePos + 'a> ParseSource<'a> for ParseReader<R, P> {
    type Pos = P;
    type Str = String;
    type Source = R;

    open spec fn can_split(&self, i: usize) -> bool {
        true
    }

    open spec fn brackets_fit(&self, open: char, close: char, refuses: spec_fn(char) -> bool) -> bool {
        brk_depth_fits(self@, open, close, refuses)
    }

    open spec fn until_fits(&self, s: Seq<char>) -> bool {
        !until_str_panics(self@, s, byte_len(s), Seq::empty())
    }

    fn source(&self) -> (r: &R)
        ensures
            r.bytes() == self@.bytes,
    {
        ParseReader::source(self)
    }

    fn curr_pos(&self) -> (r: P)
        ensures
            r == self@.pos,
    {
        ParseReader::curr_pos(self)
    }

    fn pop_head(&mut self) -> (r: Option<char>)
        ensures
            (r, final(self)@) == pop_head_spec(old(self)@),
    {
        ParseReader::pop_head(self)
    }

    fn read_until_line_end(&mut self) -> (r: (String, P))
        ensures
            ({
                let (s, e, r1) = line_end_spec(old(self)@);
                let p = old(self)@.pos.after_line(s);
                &&& r.0@ == s
                &&& r.1 == p
                &&& final(self)@ == r1.at(
                    match e {
                        Some(rn) => p.after_newline(rn),
                        None => p,
                    },
                )
            }),
    {
        ParseReader::read_until_line_end(self)
    }

    fn trim_start(&mut self)
        ensures
            final(self)@ == trim_start_spec(old(self)@),
    {
        ParseReader::trim_start(self)
    }

    fn starts_with(&mut self, c: char) -> (r: bool)
        ensures
            r == (get_spec(old(self)@).0 == Some(c)),
            final(self)@ == peek_state(old(self)@),
    {
        ParseReader::starts_with(self, c)
    }

    fn peek_head(&mut self) -> (r: Option<char>)
        ensures
            r == get_spec(old(self)@).0,
            final(self)@ == peek_state(old(self)@),
    {
        ParseReader::peek_head(self)
    }

    fn read_n(&mut self, i: usize) -> (r: String)
        ensures
            (r@, final(self)@) == read_n_spec(old(self)@, i as nat),
    {
        ParseReader::read_n(self, i)
    }

    fn read_while<F: Fn(char) -> bool>(&mut self, pred: F) -> (r: String)
        ensures
            exists|k: nat|
                #![trigger chars_of(old(self)@).take(k as int)]
                {
                    let raw = chars_of(old(self)@);
                    let f = crlf_fold(old(self)@.pos, raw.take(k as int));
                    &&& k <= raw.len()
                    &&& r@ == f.text
                    &&& forall|j: int| 0 <= j < k ==> call_ensures(pred, (#[trigger] raw[j],), true)
                    &&& k < raw.len() ==> call_ensures(pred, (raw[k as int],), false)
                    &&& final(self)@ == scan_state(old(self)@, k, crlf_end(f))
                },
    {
        ParseReader::read_while(self, pred)
    }

    fn read_until<F: Fn(char) -> bool>(&mut self, pred: F) -> (r: String)
        ensures
            exists|k: nat|
                #![trigger chars_of(old(self)@).take(k as int)]
                {
                    let raw = chars_of(old(self)@);
                    let f = crlf_fold(old(self)@.pos, raw.take(k as int));
                    &&& k <= raw.len()
                    &&& r@ == f.text
                    &&& forall|j: int| 0 <= j < k ==> call_ensures(pred, (#[trigger] raw[j],), false)
                    &&& k < raw.len() ==> call_ensures(pred, (raw[k as int],), true)
                    &&& final(self)@ == scan_state(old(self)@, k, crlf_end(f))
                },
    {
        ParseReader::read_until(self, pred)
    }

    fn read_until_str(&mut self, s: &str) -> (r: String)
        ensures
            (r@, final(self)@) == until_str_spec(old(self)@, s@, byte_len(s@), Seq::empty()),
    {
        ParseReader::read_until_str(self, s)
    }

    fn read_until_with_brackets<F: Fn(char) -> bool>(&mut self, open: char, close: char, pred: F) -> (r: String)
        ensures
            exists|k: nat|
                #![trigger chars_of(old(self)@).take(k as int)]
                {
                    let raw = chars_of(old(self)@);
                    let f = brk_fold(old(self)@.pos, open, close, raw.take(k as int));
                    &&& k <= raw.len()
                    &&& r@ == f.text
                    &&& forall|j: int|
                        0 <= j < k && brk_checked(brk_fold(old(self)@.pos, open, close, raw.take(j)), open, raw[j])
                            ==> call_ensures(pred, (#[trigger] raw[j],), false)
                    &&& k < raw.len() ==> brk_checked(f, open, raw[k as int]) && call_ensures(pred, (raw[k as int],), true)
                    &&& final(self)@ == scan_state(old(self)@, k, brk_end(f))
                },
    {
        ParseReader::read_until_with_brackets(self, open, close, pred)
    }

    fn skip(&mut self, i: usize)
        ensures
            final(self)@ == pops_spec(old(self)@, i as nat),
    {
        ParseReader::skip(self, i)
    }
}

} // verus!
