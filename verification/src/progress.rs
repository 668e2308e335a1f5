//! Why the tokenizer comes to an end: each token it hands out lowers a measure of what
//! is left, except a table start, which it hands out again and again.

use vstd::prelude::*;
use crate::blocks::lemma_first_index;
use crate::strings::{escape_stop, head_len};
use crate::text::{lemma_leading, lemma_leading_unique, leading};
use crate::tokenizer::{
    block_code_spec, block_math_spec, bracket_stop_at, custom_block_spec, dispatch_spec,
    eq_char, fence_of, frontmatter_spec, heading_spec, indent_char, indent_p, inline_after,
    inline_k, inline_spec, inline_stop, next_measure, next_panics, ends_within, inline_why, lemma_inline_k_bounds, lemma_inline_stop_kind,
    lemma_stop_wf, line_break_at, ne_char, negate, next_spec, pop_digits, prefix_at, second,
    skip_space_spec, space_tab_p, thematic_break_spec, tokenizer_wf, top_case, top_spec,
    trim_indent_spec, Cursor, NextV, StopV, TokView, TokenV, TokenizerState, TopCase,
};
use crate::text::{lemma_char_code, lemma_first_byte_is};
use vstd::utf8::encode_utf8;
use crate::sourcerefs::SourcePos;

verus! {

/// `read_until_escaped` stops within the text.
proof fn lemma_escape_stop(s: Seq<char>, find: char, escape: char, j: int)
    requires
        0 <= j,
    ensures
        0 <= escape_stop(s, find, escape, j) <= s.len(),
    decreases s.len() + 1 - j,
{
    if j < s.len() {
        if s[j] == escape {
            lemma_escape_stop(s, find, escape, j + 2);
        } else if s[j] != find {
            lemma_escape_stop(s, find, escape, j + 1);
        }
    }
}

/// What the cursor operations leave is a part of what was there.
pub proof fn lemma_cursor<P: SourcePos>(c: Cursor<P>)
    ensures
        c.pop().rest.len() <= c.rest.len(),
        c.rest.len() > 0 ==> c.pop().rest.len() < c.rest.len(),
        forall|p: spec_fn(char) -> bool| #[trigger] c.read_while(p).0.rest.len() <= c.rest.len(),
        forall|p: spec_fn(char) -> bool|
            c.rest.len() > 0 && p(c.rest[0]) ==> #[trigger] c.read_while(p).0.rest.len() < c.rest.len(),
        forall|p: spec_fn(char) -> bool| #[trigger] c.read_until(p).0.rest.len() <= c.rest.len(),
        forall|p: spec_fn(char) -> bool|
            c.rest.len() > 0 && !p(c.rest[0]) ==> #[trigger] c.read_until(p).0.rest.len() < c.rest.len(),
        forall|pat: Seq<char>| #[trigger] c.read_until_str(pat).0.rest.len() <= c.rest.len(),
        forall|o: char, cl: char, st: char| #[trigger] c.brackets(o, cl, st).0.rest.len() <= c.rest.len(),
        forall|f: char, e: char| #[trigger] c.escaped(f, e).0.rest.len() <= c.rest.len(),
        c.line().0.rest.len() <= c.rest.len(),
        c.trim_start().rest.len() <= c.rest.len(),
        forall|k: int| 0 <= k <= c.rest.len() ==> #[trigger] c.pops(k).rest.len() == c.rest.len() - k,
        forall|k: int| 0 <= k <= c.rest.len() ==> #[trigger] c.take(k).0.rest.len() == c.rest.len() - k,
{
    let s = c.rest;
    assert forall|p: spec_fn(char) -> bool| #[trigger] c.read_while(p).0.rest.len() <= c.rest.len() by {
        lemma_leading(s, p);
    }
    assert forall|p: spec_fn(char) -> bool|
        c.rest.len() > 0 && p(c.rest[0]) implies #[trigger] c.read_while(p).0.rest.len() < c.rest.len() by {
        lemma_leading(s, p);
    }
    assert forall|p: spec_fn(char) -> bool| #[trigger] c.read_until(p).0.rest.len() <= c.rest.len() by {
        lemma_leading(s, negate(p));
    }
    assert forall|p: spec_fn(char) -> bool|
        c.rest.len() > 0 && !p(c.rest[0]) implies #[trigger] c.read_until(p).0.rest.len() < c.rest.len() by {
        lemma_leading(s, negate(p));
    }
    assert forall|pat: Seq<char>| #[trigger] c.read_until_str(pat).0.rest.len() <= c.rest.len() by {
        lemma_first_index(prefix_at(s, pat), 0, s.len() as int);
    }
    assert forall|o: char, cl: char, st: char| #[trigger] c.brackets(o, cl, st).0.rest.len() <= c.rest.len() by {
        lemma_first_index(bracket_stop_at(s, o, cl, st), 0, s.len() as int);
    }
    assert forall|f: char, e: char| #[trigger] c.escaped(f, e).0.rest.len() <= c.rest.len() by {
        lemma_escape_stop(s, f, e, 0);
    }
    lemma_first_index(line_break_at(s), 0, s.len() as int);
    lemma_leading(s, crate::text::ws());
}

/// Whether `top` would start a paragraph right where the tokenizer is, reading nothing.
pub open spec fn top_quiet<P: SourcePos>(v: TokView<P>) -> bool {
    leading(v.cur.rest, indent_p()) == 0 && top_case(v.cur) is Paragraph
}

/// How much the tokenizer still has to do at the same place: a token it has recognised
/// and not handed out counts most, then a paragraph that `top` would start, then
/// inline text; a `top` that reads something counts nothing.
pub open spec fn rank<P: SourcePos>(v: TokView<P>) -> int {
    if v.next is Some {
        3
    } else if v.state == TokenizerState::Start || v.state == TokenizerState::Top {
        if top_quiet(v) { 2 } else { 0 }
    } else {
        1
    }
}

/// A measure of what is left: four per character, plus the rank.
pub open spec fn progress<P: SourcePos>(v: TokView<P>) -> int {
    4 * v.cur.rest.len() + rank(v)
}

/// Reading digits with `pop_head` reads something of a text that is not empty.
proof fn lemma_pop_digits<P: SourcePos>(c: Cursor<P>)
    ensures
        pop_digits(c).rest.len() <= c.rest.len(),
        c.rest.len() > 0 ==> pop_digits(c).rest.len() < c.rest.len(),
    decreases c.rest.len(),
{
    lemma_cursor(c);
    if c.rest.len() > 0 {
        lemma_pop_digits(c.pop());
    }
}

/// `skip_space` reads nothing but spaces and tabs.
proof fn lemma_skip_space<P: SourcePos>(c: Cursor<P>)
    ensures
        skip_space_spec(c).rest.len() <= c.rest.len(),
{
    lemma_cursor(c);
    lemma_leading(c.rest, space_tab_p());
}

/// The first character of a text whose UTF-8 encoding starts with the ASCII byte `b`.
proof fn lemma_head_is(s: Seq<char>, b: u8, d: char)
    requires
        s.len() > 0,
        b < 0x80,
        encode_utf8(s)[0] == b,
        d as u32 == b as u32,
    ensures
        s[0] == d,
{
    lemma_first_byte_is(s, b);
    lemma_char_code(s[0], d);
}

/// `top` reads its construct, or starts a paragraph, or ends; each token but a table
/// start leaves less to do.
pub proof fn lemma_top_progress<P: SourcePos>(v: TokView<P>)
    requires
        v.next is None,
    ensures
        top_spec(v).0.cur.rest.len() <= v.cur.rest.len(),
        top_spec(v).1 is Some && !(top_spec(v).1 matches Some(TokenV::TableStart(_)))
            ==> progress(top_spec(v).0) < 4 * v.cur.rest.len() + if top_quiet(v) { 2int } else { 0int },
{
    let k = leading(v.cur.rest, indent_p()) as int;
    lemma_leading(v.cur.rest, indent_p());
    lemma_cursor(v.cur);
    let c = trim_indent_spec(v.cur).0;
    assert(c.rest.len() == v.cur.rest.len() - k);
    if k == 0 {
        assert(c.rest =~= v.cur.rest);
    }
    lemma_cursor(c);
    let start = c.pos;
    if c.rest.len() > 0 {
        let b = encode_utf8(c.rest);
        crate::text::lemma_first_byte(c.rest);
        let h = b[0];
        lemma_cursor(c.pop());
        lemma_cursor(c.pop().pop());
        match top_case(c) {
            TopCase::Break(ch) => {
                assert(c.rest[0] == ch);
            },
            TopCase::Math => {
                let c2 = c.pop().pop();
                lemma_cursor(c2.read_until_str(seq!['$', '$']).0);
                lemma_cursor(c2.read_until_str(seq!['$', '$']).0.pop());
            },
            TopCase::Bullet => {
                lemma_skip_space(c.pop());
            },
            TopCase::Numbered => {
                lemma_pop_digits(c);
                lemma_skip_space(pop_digits(c));
            },
            TopCase::Heading => {
                lemma_head_is(c.rest, 35u8, '#');
                let c1 = c.read_while(eq_char('#')).0;
                lemma_cursor(c1);
            },
            TopCase::Code => {
                let c3 = c.pop().pop().pop();
                lemma_cursor(c3);
                let c4 = c3.line().0;
                lemma_cursor(c4);
                let c5 = c4.read_until_str(seq!['`', '`', '`']).0;
                lemma_cursor(c5);
                lemma_cursor(c5.pop());
                lemma_cursor(c5.pop().pop());
            },
            TopCase::Custom => {
                lemma_head_is(c.rest, 58u8, ':');
                let c1 = c.read_until(ne_char(':')).0;
                lemma_skip_space(c1);
                let c2 = skip_space_spec(c1);
                lemma_cursor(c2);
                let c3 = c2.read_until(indent_p()).0;
                lemma_cursor(c3);
            },
            _ => {},
        }
    }
}

/// A text whose UTF-8 encoding starts with two `$` bytes starts with `$$`.
proof fn lemma_two_dollars(src: Seq<char>)
    requires
        src.len() > 0,
        encode_utf8(src)[0] == 36u8,
        second(encode_utf8(src)) == Some(36u8),
    ensures
        seq!['$', '$'].is_prefix_of(src),
{
    lemma_first_byte_is(src, 36u8);
    lemma_char_code(src[0], '$');
    let t = src.drop_first();
    if t.len() > 0 {
        lemma_first_byte_is(t, 36u8);
        lemma_char_code(t[0], '$');
        assert(src[1] == t[0]);
        assert(src.subrange(0, 2) =~= seq!['$', '$']);
    } else {
        assert(encode_utf8(t) =~= Seq::<u8>::empty());
    }
}

/// Where the inline scanner stops at once to end a paragraph or a heading, `top` then
/// reads something: a line break, or the `$$` of block math.
proof fn lemma_end_stop_not_quiet<P: SourcePos>(v: TokView<P>, st: TokenizerState, in_link: bool, inline_only: bool)
    requires
        v.cur.rest.len() > 0,
        inline_stop(v.cur.rest, st, in_link, inline_only) == Some(StopV::Next(NextV::EndParagraph))
            || inline_stop(v.cur.rest, st, in_link, inline_only) == Some(StopV::Next(NextV::HeadingEnd)),
    ensures
        !top_quiet(v),
{
    let s = v.cur.rest;
    let b = encode_utf8(s);
    crate::text::lemma_first_byte(s);
    let h = b[0];
    lemma_leading(s, indent_p());
    if h == 13u8 {
        lemma_head_is(s, 13u8, '\r');
        assert(indent_char(s[0]));
    } else if h == 10u8 {
        lemma_head_is(s, 10u8, '\n');
        assert(indent_char(s[0]));
    } else {
        assert(h == 36u8 && second(b) == Some(36u8));
        lemma_two_dollars(s);
        assert(top_case(v.cur) is Math);
    }
}

/// Frontmatter reads at least its opening fence.
proof fn lemma_frontmatter_progress<P: SourcePos>(c: Cursor<P>)
    requires
        frontmatter_spec(c) is Some,
    ensures
        (frontmatter_spec(c)->0).0.rest.len() < c.rest.len(),
{
    let f = fence_of(c.rest)->0;
    lemma_cursor(c);
    let c1 = c.trim_start();
    lemma_cursor(c1);
    assert(c1.rest[0] == f);
    let c2 = c1.read_while(eq_char(f)).0;
    lemma_cursor(c2);
    let c3 = c2.trim_start();
    lemma_cursor(c3);
    let c4 = c3.read_until_str(seq![f, f, f]).0;
    lemma_cursor(c4);
}

/// `inline` leaves less to do, whatever token it hands out.
proof fn lemma_inline_progress<P: SourcePos>(v: TokView<P>)
    requires
        v.next is None,
        v.state != TokenizerState::Start,
        v.state != TokenizerState::Top,
    ensures
        inline_spec(v).1 is Some ==> progress(inline_spec(v).0) < progress(v),
    decreases 3 * v.cur.rest.len() + 1, 0int,
{
    let k = inline_k(v);
    lemma_inline_k_bounds(v);
    lemma_inline_stop_kind(v);
    lemma_cursor(v.cur);
    let v1 = inline_after(v);
    if k == 0 && inline_why(v) is Some && inline_why(v)->0 is Next {
        let x = inline_why(v)->0->0;
        let c = v1.cur;
        assert(c.rest =~= v.cur.rest);
        let s = v.cur.rest;
        assert(s.skip(0) =~= s);
        lemma_stop_wf(s, v.state, v.in_link, v.inline_only);
        lemma_cursor(c);
        lemma_cursor(c.pop());
        lemma_cursor(c.pop().pop());
        match x {
            NextV::EndParagraph => {
                lemma_end_stop_not_quiet(TokView { state: TokenizerState::Top, next: None, ..v1 }, v.state, v.in_link, v.inline_only);
            },
            NextV::HeadingEnd => {
                lemma_end_stop_not_quiet(TokView { state: TokenizerState::Top, next: None, ..v1 }, v.state, v.in_link, v.inline_only);
            },
            NextV::StrongEmph => {
                lemma_cursor(c.take(1).0);
            },
            NextV::Math => {
                lemma_cursor(c.pop().brackets('{', '}', '$').0);
            },
            NextV::InlineCode => {
                lemma_cursor(c.pop().escaped('`', '\\').0);
            },
            NextV::BlockCode => {
                let c3 = c.pop().pop().pop();
                lemma_cursor(c3);
                let c4 = c3.line().0;
                lemma_cursor(c4);
                let c5 = c4.read_until_str(seq!['`', '`', '`']).0;
                lemma_cursor(c5);
                lemma_cursor(c5.pop());
                lemma_cursor(c5.pop().pop());
            },
            NextV::LinkEnd => {
                lemma_cursor(c.pop().pop().brackets('(', ')', ')').0);
            },
            NextV::InlineCustom => {
                let c2 = c.pop().pop().read_until(eq_char(']')).0;
                lemma_cursor(c2);
                lemma_cursor(c2.pop());
                lemma_cursor(c2.pop().pop());
                lemma_cursor(c2.pop().pop().brackets('(', ')', ')').0);
            },
            NextV::Escape => {
                let c1 = c.pop();
                if c1.rest.len() == 0 {
                    lemma_dispatch_progress(TokView { cur: c1, next: None, ..v1 });
                }
            },
            _ => {},
        }
    }
}

/// The dispatch on the state leaves less to do, whatever token it hands out but a table
/// start.
proof fn lemma_dispatch_progress<P: SourcePos>(v: TokView<P>)
    requires
        v.next is None,
    ensures
        dispatch_spec(v).1 is Some && !(dispatch_spec(v).1 matches Some(TokenV::TableStart(_)))
            ==> progress(dispatch_spec(v).0) < progress(v),
    decreases 3 * v.cur.rest.len() + 2, 0int,
{
    match v.state {
        TokenizerState::Start => {
            if frontmatter_spec(v.cur) is Some {
                lemma_frontmatter_progress(v.cur);
            } else {
                lemma_top_progress(TokView { state: TokenizerState::Top, ..v });
            }
        },
        TokenizerState::Top => lemma_top_progress(v),
        _ => lemma_inline_progress(v),
    }
}

/// Each token the tokenizer hands out, but a table start, leaves less to do.
pub proof fn lemma_next_progress<P: SourcePos>(v: TokView<P>)
    requires
        tokenizer_wf(v),
    ensures
        next_spec(v).1 is Some && !(next_spec(v).1 matches Some(TokenV::TableStart(_)))
            ==> progress(next_spec(v).0) < progress(v),
{
    let c = v.cur;
    let v0 = TokView { next: None, ..v };
    lemma_cursor(c);
    lemma_cursor(c.pop());
    lemma_cursor(c.pop().pop());
    match v.next {
        Some(NextV::StrongEmph) => {
            lemma_cursor(c.take(1).0);
        },
        Some(NextV::Math) => {
            lemma_cursor(c.pop().brackets('{', '}', '$').0);
        },
        Some(NextV::InlineCode) => {
            lemma_cursor(c.pop().escaped('`', '\\').0);
        },
        Some(NextV::BlockCode) => {
            let c3 = c.pop().pop().pop();
            lemma_cursor(c3);
            let c4 = c3.line().0;
            lemma_cursor(c4);
            let c5 = c4.read_until_str(seq!['`', '`', '`']).0;
            lemma_cursor(c5);
            lemma_cursor(c5.pop());
            lemma_cursor(c5.pop().pop());
        },
        Some(NextV::LinkEnd) => {
            lemma_cursor(c.pop().pop().brackets('(', ')', ')').0);
        },
        Some(NextV::InlineCustom) => {
            let c2 = c.pop().pop().read_until(eq_char(']')).0;
            lemma_cursor(c2);
            lemma_cursor(c2.pop());
            lemma_cursor(c2.pop().pop());
            lemma_cursor(c2.pop().pop().brackets('(', ')', ')').0);
        },
        Some(NextV::Escape) => {
            let c1 = c.pop();
            if c1.rest.len() == 0 {
                lemma_dispatch_progress(TokView { cur: c1, ..v0 });
            }
        },
        Some(NextV::TableStart) => lemma_dispatch_progress(v0),
        None => {
            assert(v0 == v);
            lemma_dispatch_progress(v0);
        },
        _ => {},
    }
}

/// `inline` leaves a well-formed tokenizer.
proof fn lemma_inline_wf<P: SourcePos>(v: TokView<P>)
    requires
        v.next is None,
    ensures
        tokenizer_wf(inline_spec(v).0),
    decreases 3 * v.cur.rest.len() + 1, 0int,
{
    let k = inline_k(v);
    lemma_inline_k_bounds(v);
    lemma_inline_stop_kind(v);
    let v1 = inline_after(v);
    if k < v.cur.rest.len() {
        let s = v.cur.rest.skip(k);
        lemma_stop_wf(s, v.state, v.in_link, v.inline_only);
        assert(v1.cur.rest == s);
    }
    assert(tokenizer_wf(v1));
    let (c1, txt) = v.cur.take(k);
    if txt.len() == 0 && inline_why(v) is Some && inline_why(v)->0 is Next {
        lemma_next_wf(v1);
    }
}

/// The dispatch on the state leaves a well-formed tokenizer.
proof fn lemma_dispatch_wf<P: SourcePos>(v: TokView<P>)
    requires
        v.next is None,
    ensures
        tokenizer_wf(dispatch_spec(v).0),
    decreases 3 * v.cur.rest.len() + 2, 0int,
{
    match v.state {
        TokenizerState::Start => {},
        TokenizerState::Top => {},
        _ => lemma_inline_wf(v),
    }
}

/// `next` keeps the tokenizer well-formed.
pub proof fn lemma_next_wf<P: SourcePos>(v: TokView<P>)
    ensures
        tokenizer_wf(next_spec(v).0),
    decreases next_measure(v), 1int,
{
    let v0 = TokView { next: None, ..v };
    match v.next {
        Some(NextV::Escape) => {
            let c1 = v.cur.pop();
            if c1.rest.len() == 0 {
                lemma_dispatch_wf(TokView { cur: c1, ..v0 });
            }
        },
        Some(NextV::TableStart) => lemma_dispatch_wf(v0),
        None => lemma_dispatch_wf(v0),
        _ => {},
    }
}

/// The tokenizer after `n` calls of `next` from `v`.
pub open spec fn nth_view<P: SourcePos>(v: TokView<P>, n: nat) -> TokView<P>
    decreases n,
{
    if n == 0 {
        v
    } else {
        nth_view(next_spec(v).0, (n - 1) as nat)
    }
}

/// What the call of `next` after `n` calls from `v` hands out.
pub open spec fn nth_token<P: SourcePos>(v: TokView<P>, n: nat) -> Option<TokenV<P>> {
    next_spec(nth_view(v, n)).1
}

/// Whether the first `n` calls of `next` from `v` each hand out a token.
pub open spec fn still_going<P: SourcePos>(v: TokView<P>, n: nat) -> bool {
    forall|m: nat| m < n ==> (#[trigger] nth_token(v, m)) is Some
}

/// Whether each call of `next` from `v`, up to the one that reports the end, neither
/// fails a table check nor hands out a table start.
pub open spec fn runs_clean<P: SourcePos>(v: TokView<P>) -> bool {
    forall|n: nat|
        #![trigger nth_view(v, n)]
        still_going(v, n) ==> !next_panics(nth_view(v, n)) && !(nth_token(v, n) matches Some(
            TokenV::TableStart(_),
        ))
}

/// More calls of `next` do not hurt a tokenizer that ends within fewer.
pub proof fn lemma_ends_within_more<P: SourcePos>(v: TokView<P>, f: nat, g: nat)
    requires
        ends_within(v, f),
        f <= g,
    ensures
        ends_within(v, g),
    decreases f,
{
    if next_spec(v).1 is Some {
        lemma_ends_within_more(next_spec(v).0, (f - 1) as nat, (g - 1) as nat);
    }
}

/// What is left to do never falls below nothing.
pub proof fn lemma_progress_nonneg<P: SourcePos>(v: TokView<P>)
    ensures
        0 <= rank(v) <= 3,
        0 <= progress(v) <= 4 * v.cur.rest.len() + 3,
{
}

/// A clean run from `v` is clean at its first call, and from the tokenizer after it.
proof fn lemma_runs_clean_next<P: SourcePos>(v: TokView<P>)
    requires
        runs_clean(v),
    ensures
        !next_panics(v),
        !(next_spec(v).1 matches Some(TokenV::TableStart(_))),
        next_spec(v).1 is Some ==> runs_clean(next_spec(v).0),
{
    assert(nth_view(v, 0) == v);
    assert(still_going(v, 0));
    if next_spec(v).1 is Some {
        let v1 = next_spec(v).0;
        assert forall|n: nat| #![trigger nth_view(v1, n)]
            still_going(v1, n) implies !next_panics(nth_view(v1, n)) && !(nth_token(v1, n) matches Some(
                TokenV::TableStart(_),
            )) by {
            assert(nth_view(v, n + 1) == nth_view(v1, n));
            assert forall|m: nat| m < n + 1 implies (#[trigger] nth_token(v, m)) is Some by {
                if m > 0 {
                    assert(nth_view(v, m) == nth_view(v1, (m - 1) as nat));
                    assert(nth_token(v1, (m - 1) as nat) is Some);
                }
            }
            assert(still_going(v, n + 1));
        }
    }
}

/// A tokenizer that, up to its end, neither fails a table check nor stops at a table
/// start comes to its end: within one call of `next` more than its measure of what is
/// left, at most four per character and three more.
pub proof fn law_tokenizer_ends<P: SourcePos>(v: TokView<P>)
    requires
        tokenizer_wf(v),
        runs_clean(v),
    ensures
        ends_within(v, (progress(v) + 1) as nat),
    decreases progress(v),
{
    lemma_progress_nonneg(v);
    lemma_next_progress(v);
    lemma_runs_clean_next(v);
    if next_spec(v).1 is Some {
        let v1 = next_spec(v).0;
        lemma_next_wf(v);
        lemma_progress_nonneg(v1);
        law_tokenizer_ends(v1);
        lemma_ends_within_more(v1, (progress(v1) + 1) as nat, progress(v) as nat);
    }
}

/// A table start that `top` hands out leaves the tokenizer where `next` hands out the
/// same table start again, and changes nothing.
proof fn lemma_table_fixed<P: SourcePos>(x: TokView<P>)
    requires
        x.state == TokenizerState::Top,
        x.next is None,
        top_spec(x).1 matches Some(TokenV::TableStart(_)),
    ensures
        next_spec(top_spec(x).0) == top_spec(x),
{
    lemma_leading(x.cur.rest, indent_p());
    let c = trim_indent_spec(x.cur).0;
    assert(top_case(c) is Table);
    lemma_head_is(c.rest, 124u8, '|');
    lemma_leading_unique(c.rest, indent_p(), 0);
    assert(c.rest.skip(0) =~= c.rest);
    assert(c.rest.take(0) =~= Seq::<char>::empty());
    assert(trim_indent_spec(c).0 == c);
    let w = top_spec(x).0;
    let w0 = TokView { next: None, ..w };
    assert(w0 == TokView { cur: c, ..x });
}

/// `inline` hands out a table start only as `top` does.
proof fn lemma_inline_table<P: SourcePos>(v: TokView<P>) -> (x: TokView<P>)
    requires
        v.next is None,
    ensures
        inline_spec(v).1 matches Some(TokenV::TableStart(_)) ==> x.state == TokenizerState::Top
            && x.next is None && inline_spec(v) == top_spec(x),
    decreases 3 * v.cur.rest.len() + 1, 0int,
{
    lemma_inline_k_bounds(v);
    lemma_inline_stop_kind(v);
    let (c1, txt) = v.cur.take(inline_k(v));
    if txt.len() == 0 && inline_why(v) is Some && inline_why(v)->0 is Next {
        lemma_next_table(inline_after(v))
    } else {
        v
    }
}

/// The dispatch on the state hands out a table start only as `top` does.
proof fn lemma_dispatch_table<P: SourcePos>(v: TokView<P>) -> (x: TokView<P>)
    requires
        v.next is None,
    ensures
        dispatch_spec(v).1 matches Some(TokenV::TableStart(_)) ==> x.state == TokenizerState::Top
            && x.next is None && dispatch_spec(v) == top_spec(x),
    decreases 3 * v.cur.rest.len() + 2, 0int,
{
    match v.state {
        TokenizerState::Start => TokView { state: TokenizerState::Top, ..v },
        TokenizerState::Top => v,
        _ => lemma_inline_table(v),
    }
}

/// `next` hands out a table start only as `top` does.
proof fn lemma_next_table<P: SourcePos>(v: TokView<P>) -> (x: TokView<P>)
    ensures
        next_spec(v).1 matches Some(TokenV::TableStart(_)) ==> x.state == TokenizerState::Top
            && x.next is None && next_spec(v) == top_spec(x),
    decreases next_measure(v), 1int,
{
    let v0 = TokView { next: None, ..v };
    match v.next {
        Some(NextV::Escape) => {
            let c1 = v.cur.pop();
            if c1.rest.len() == 0 {
                lemma_dispatch_table(TokView { cur: c1, ..v0 })
            } else {
                v
            }
        },
        Some(NextV::TableStart) => lemma_dispatch_table(v0),
        None => lemma_dispatch_table(v0),
        _ => v,
    }
}

/// A tokenizer that hands out the same token forever, changing nothing, never ends.
proof fn lemma_fixed_never_ends<P: SourcePos>(w: TokView<P>, g: nat)
    requires
        next_spec(w).0 == w,
        next_spec(w).1 is Some,
    ensures
        !ends_within(w, g),
    decreases g,
{
    if g > 0 {
        lemma_fixed_never_ends(w, (g - 1) as nat);
    }
}

/// After a table start the tokenizer never ends: it hands out the same table start
/// again and again.
pub proof fn law_table_start_never_ends<P: SourcePos>(u: TokView<P>)
    requires
        next_spec(u).1 matches Some(TokenV::TableStart(_)),
    ensures
        next_spec(next_spec(u).0) == next_spec(u),
        forall|g: nat| !ends_within(next_spec(u).0, g),
{
    let x = lemma_next_table(u);
    lemma_table_fixed(x);
    let w = next_spec(u).0;
    assert forall|g: nat| !ends_within(w, g) by {
        lemma_fixed_never_ends(w, g);
    }
}

} // verus!
