//! A Markdown tokenizer: a state machine over a `ParseStr` that hands out one token
//! per call. Its behaviour is stated as the spec function `next_spec` over a view of
//! the tokenizer; `MarkdownTokenizer::next` is proved to follow it step by step.

use vstd::prelude::*;
use vstd::utf8::encode_utf8;
use crate::blocks::{
    first_index, is_numbered_list, is_table, numbered_list_bytes, table_bytes, table_panics,
};
use crate::outside::{parse_url, url_parse};
use crate::parsesource::ParseSource;
use crate::sourcerefs::{SourcePos, SourceRange};
use crate::strings::{bracket_free, escape_stop, head_char, head_len, pop_step, pos_after_pops, ParseStr};
use crate::text::{is_digit, is_ws, leading, trimmed, trimmed_start};

verus! {

/// A token that the tokenizer has recognised but not handed out yet.
#[derive(Debug)]
pub enum NextToken {
    TableStart,
    StrongEmph,
    EndParagraph,
    Math,
    HeadingEnd,
    Highlight,
    BlockCode,
    InlineCode,
    Escape,
    Link(String),
    LinkEnd,
    InlineCustom,
}

/// What the tokenizer is in the middle of.
#[derive(PartialEq, Eq, Structural, Debug, Clone, Copy)]
pub enum TokenizerState {
    Start,
    Top,
    Inline,
    InBlockQuote,
    InDefinition,
    InUnnumberedList,
    InNumberedList,
    InTable,
    Heading,
}

/// The tokens of a Markdown document.
#[derive(PartialEq, Eq, Debug, Clone)]
pub enum MarkdownToken<'a, Pos: SourcePos> {
    Text(&'a str, SourceRange<Pos>),
    FrontMatter(&'a str, SourceRange<Pos>),
    BlockQuoteStart(Pos),
    ParagraphStart(Pos),
    ParagraphEnd(Pos),
    BlockMath(&'a str, SourceRange<Pos>),
    BlockCode { language: &'a str, code: &'a str, range: SourceRange<Pos> },
    InlineMath(&'a str, SourceRange<Pos>),
    InlineCode(&'a str, SourceRange<Pos>),
    ThematicBreak(SourceRange<Pos>),
    FootnoteDefinition(&'a str, SourceRange<Pos>),
    Definition(&'a str, SourceRange<Pos>),
    UnnumberedListItem(u8, Pos),
    NumberedListItem(u8, Pos),
    Heading(u8, SourceRange<Pos>),
    TableStart(Pos),
    Strong(u8, Pos),
    Emph(u8, Pos),
    Subscript(Pos),
    Superscript(Pos),
    StrikeThrough(Pos),
    Highlight(Pos),
    HeadingEnd(Pos),
    Escaped(char, Pos),
    LinkStart(String, Pos),
    LinkOrCustomEnd(Pos),
    InlineCustom { label: &'a str, args: &'a str, range: SourceRange<Pos> },
    CustomBlockStart { label: &'a str, args: &'a str, colons: u8, range: SourceRange<Pos> },
    CustomBlockEnd(u8, Pos),
}

// ---------------------------------------------------------------------------
// The model: text as character sequences.

/// `NextToken`, with the link target as characters.
pub enum NextV {
    TableStart,
    StrongEmph,
    EndParagraph,
    Math,
    HeadingEnd,
    Highlight,
    BlockCode,
    InlineCode,
    Escape,
    Link(Seq<char>),
    LinkEnd,
    InlineCustom,
}

/// `MarkdownToken`, with its texts as characters.
pub enum TokenV<P> {
    Text(Seq<char>, SourceRange<P>),
    FrontMatter(Seq<char>, SourceRange<P>),
    BlockQuoteStart(P),
    ParagraphStart(P),
    ParagraphEnd(P),
    BlockMath(Seq<char>, SourceRange<P>),
    BlockCode { language: Seq<char>, code: Seq<char>, range: SourceRange<P> },
    InlineMath(Seq<char>, SourceRange<P>),
    InlineCode(Seq<char>, SourceRange<P>),
    ThematicBreak(SourceRange<P>),
    FootnoteDefinition(Seq<char>, SourceRange<P>),
    Definition(Seq<char>, SourceRange<P>),
    UnnumberedListItem(u8, P),
    NumberedListItem(u8, P),
    Heading(u8, SourceRange<P>),
    TableStart(P),
    Strong(u8, P),
    Emph(u8, P),
    Subscript(P),
    Superscript(P),
    StrikeThrough(P),
    Highlight(P),
    HeadingEnd(P),
    Escaped(char, P),
    LinkStart(Seq<char>, P),
    LinkOrCustomEnd(P),
    InlineCustom { label: Seq<char>, args: Seq<char>, range: SourceRange<P> },
    CustomBlockStart { label: Seq<char>, args: Seq<char>, colons: u8, range: SourceRange<P> },
    CustomBlockEnd(u8, P),
}

impl NextToken {
    pub open spec fn view(&self) -> NextV {
        match self {
            NextToken::TableStart => NextV::TableStart,
            NextToken::StrongEmph => NextV::StrongEmph,
            NextToken::EndParagraph => NextV::EndParagraph,
            NextToken::Math => NextV::Math,
            NextToken::HeadingEnd => NextV::HeadingEnd,
            NextToken::Highlight => NextV::Highlight,
            NextToken::BlockCode => NextV::BlockCode,
            NextToken::InlineCode => NextV::InlineCode,
            NextToken::Escape => NextV::Escape,
            NextToken::Link(u) => NextV::Link(u@),
            NextToken::LinkEnd => NextV::LinkEnd,
            NextToken::InlineCustom => NextV::InlineCustom,
        }
    }
}

impl<'a, P: SourcePos> MarkdownToken<'a, P> {
    pub open spec fn view(&self) -> TokenV<P> {
        match *self {
            MarkdownToken::Text(t, r) => TokenV::Text(t@, r),
            MarkdownToken::FrontMatter(t, r) => TokenV::FrontMatter(t@, r),
            MarkdownToken::BlockQuoteStart(p) => TokenV::BlockQuoteStart(p),
            MarkdownToken::ParagraphStart(p) => TokenV::ParagraphStart(p),
            MarkdownToken::ParagraphEnd(p) => TokenV::ParagraphEnd(p),
            MarkdownToken::BlockMath(t, r) => TokenV::BlockMath(t@, r),
            MarkdownToken::BlockCode { language, code, range } => TokenV::BlockCode {
                language: language@,
                code: code@,
                range,
            },
            MarkdownToken::InlineMath(t, r) => TokenV::InlineMath(t@, r),
            MarkdownToken::InlineCode(t, r) => TokenV::InlineCode(t@, r),
            MarkdownToken::ThematicBreak(r) => TokenV::ThematicBreak(r),
            MarkdownToken::FootnoteDefinition(t, r) => TokenV::FootnoteDefinition(t@, r),
            MarkdownToken::Definition(t, r) => TokenV::Definition(t@, r),
            MarkdownToken::UnnumberedListItem(i, p) => TokenV::UnnumberedListItem(i, p),
            MarkdownToken::NumberedListItem(i, p) => TokenV::NumberedListItem(i, p),
            MarkdownToken::Heading(l, r) => TokenV::Heading(l, r),
            MarkdownToken::TableStart(p) => TokenV::TableStart(p),
            MarkdownToken::Strong(u, p) => TokenV::Strong(u, p),
            MarkdownToken::Emph(u, p) => TokenV::Emph(u, p),
            MarkdownToken::Subscript(p) => TokenV::Subscript(p),
            MarkdownToken::Superscript(p) => TokenV::Superscript(p),
            MarkdownToken::StrikeThrough(p) => TokenV::StrikeThrough(p),
            MarkdownToken::Highlight(p) => TokenV::Highlight(p),
            MarkdownToken::HeadingEnd(p) => TokenV::HeadingEnd(p),
            MarkdownToken::Escaped(c, p) => TokenV::Escaped(c, p),
            MarkdownToken::LinkStart(u, p) => TokenV::LinkStart(u@, p),
            MarkdownToken::LinkOrCustomEnd(p) => TokenV::LinkOrCustomEnd(p),
            MarkdownToken::InlineCustom { label, args, range } => TokenV::InlineCustom {
                label: label@,
                args: args@,
                range,
            },
            MarkdownToken::CustomBlockStart { label, args, colons, range } =>
                TokenV::CustomBlockStart { label: label@, args: args@, colons, range },
            MarkdownToken::CustomBlockEnd(c, p) => TokenV::CustomBlockEnd(c, p),
        }
    }
}

/// The positions of `s` at which `pat` starts.
pub open spec fn prefix_at(s: Seq<char>, pat: Seq<char>) -> spec_fn(int) -> bool {
    |j: int| pat.is_prefix_of(s.skip(j))
}

/// The positions of `s` that hold a line break.
pub open spec fn line_break_at(s: Seq<char>) -> spec_fn(int) -> bool {
    |j: int| s[j] == '\r' || s[j] == '\n'
}

/// The opposite test.
pub open spec fn negate(p: spec_fn(char) -> bool) -> spec_fn(char) -> bool {
    |c: char| !p(c)
}

/// The text not yet read and the position reached.
pub struct Cursor<P> {
    pub rest: Seq<char>,
    pub pos: P,
}

/// The positions at which `read_until_with_brackets` stops for a predicate accepting `stop`.
pub open spec fn bracket_stop_at(s: Seq<char>, open: char, close: char, stop: char) -> spec_fn(int) -> bool {
    |j: int| bracket_free(s, open, close, true, j) && s[j] == stop
}

impl<P: SourcePos> Cursor<P> {
    /// `pop_head`.
    pub open spec fn pop(self) -> Cursor<P> {
        Cursor { rest: self.rest.skip(head_len(self.rest)), pos: pop_step(self.pos, self.rest) }
    }

    /// The character `pop_head` returns.
    pub open spec fn head(self) -> Option<char> {
        head_char(self.rest)
    }

    /// Whether the text starts with `c`.
    pub open spec fn starts(self, c: char) -> bool {
        self.rest.len() > 0 && self.rest[0] == c
    }

    /// Reading `k` characters as one piece of text.
    pub open spec fn take(self, k: int) -> (Cursor<P>, Seq<char>) {
        let t = self.rest.take(k);
        (Cursor { rest: self.rest.skip(k), pos: self.pos.after_text(t) }, t)
    }

    /// `read_while`.
    pub open spec fn read_while(self, p: spec_fn(char) -> bool) -> (Cursor<P>, Seq<char>) {
        self.take(leading(self.rest, p) as int)
    }

    /// `read_until`.
    pub open spec fn read_until(self, p: spec_fn(char) -> bool) -> (Cursor<P>, Seq<char>) {
        self.read_while(negate(p))
    }

    /// `read_until_str`.
    pub open spec fn read_until_str(self, pat: Seq<char>) -> (Cursor<P>, Seq<char>) {
        self.take(first_index(prefix_at(self.rest, pat), 0, self.rest.len() as int))
    }

    /// `read_until_with_brackets` with a predicate that accepts `stop` only.
    pub open spec fn brackets(self, open: char, close: char, stop: char) -> (Cursor<P>, Seq<char>) {
        self.take(first_index(bracket_stop_at(self.rest, open, close, stop), 0, self.rest.len() as int))
    }

    /// `read_until_escaped`.
    pub open spec fn escaped(self, find: char, escape: char) -> (Cursor<P>, Seq<char>) {
        self.take(escape_stop(self.rest, find, escape, 0))
    }

    /// `trim_start`.
    pub open spec fn trim_start(self) -> Cursor<P> {
        let k = leading(self.rest, crate::text::ws()) as int;
        Cursor { rest: self.rest.skip(k), pos: pos_after_pops(self.pos, self.rest.take(k)) }
    }

    /// Reading `k` characters one at a time with `pop_head`.
    pub open spec fn pops(self, k: int) -> Cursor<P> {
        Cursor { rest: self.rest.skip(k), pos: pos_after_pops(self.pos, self.rest.take(k)) }
    }

    /// `read_until_line_end`: the line, the position at its end, and the cursor after it.
    pub open spec fn line(self) -> (Cursor<P>, Seq<char>, P) {
        let k = first_index(line_break_at(self.rest), 0, self.rest.len() as int);
        let l = self.rest.take(k);
        let at = self.pos.after_line(l);
        let n = head_len(self.rest.skip(k));
        (
            Cursor {
                rest: self.rest.skip(k + n),
                pos: if k < self.rest.len() { at.after_newline(n == 2) } else { at },
            },
            l,
            at,
        )
    }
}

/// Whether `c` is a space or a tab.
pub open spec fn space_tab(c: char) -> bool {
    c == ' ' || c == '\t'
}

/// Whether `c` is white space that `trim_indent` reads over.
pub open spec fn indent_char(c: char) -> bool {
    c == ' ' || c == '\t' || c == '\r' || c == '\n'
}

/// The test for one character.
pub open spec fn eq_char(ch: char) -> spec_fn(char) -> bool {
    |x: char| x == ch
}

/// The test for any character but one.
pub open spec fn ne_char(ch: char) -> spec_fn(char) -> bool {
    |x: char| x != ch
}

/// The space-or-tab test.
pub open spec fn space_tab_p() -> spec_fn(char) -> bool {
    |x: char| space_tab(x)
}

/// The test for the white space of indentation.
pub open spec fn indent_p() -> spec_fn(char) -> bool {
    |x: char| indent_char(x)
}

/// Wrapping addition on `u8`.
pub open spec fn wrap_u8(a: u8, n: int) -> u8 {
    ((a + n) % 256) as u8
}

/// The indentation `trim_indent` computes for the white space `s` it reads: a space
/// counts one, a tab four, and a line break starts over at zero.
pub open spec fn indent_of(s: Seq<char>) -> u8
    decreases s.len(),
{
    if s.len() == 0 {
        0
    } else {
        let a = indent_of(s.drop_last());
        let c = s.last();
        if c == ' ' {
            wrap_u8(a, 1)
        } else if c == '\t' {
            wrap_u8(a, 4)
        } else {
            0
        }
    }
}

/// `skip_space`.
pub open spec fn skip_space_spec<P: SourcePos>(c: Cursor<P>) -> Cursor<P> {
    c.pops(leading(c.rest, space_tab_p()) as int)
}

/// `trim_indent`: the cursor after the leading white space and the indentation found.
pub open spec fn trim_indent_spec<P: SourcePos>(c: Cursor<P>) -> (Cursor<P>, u8) {
    let k = leading(c.rest, indent_p()) as int;
    (c.pops(k), indent_of(c.rest.take(k)))
}

/// `heading`.
pub open spec fn heading_spec<P: SourcePos>(c: Cursor<P>, start: P) -> (Cursor<P>, TokenV<P>) {
    let (c1, hashes) = c.read_while(eq_char('#'));
    let (c2, _) = c1.read_while(space_tab_p());
    (c2, TokenV::Heading(hashes.len() as u8, SourceRange { start, end: c2.pos }))
}

/// `thematic_break`.
pub open spec fn thematic_break_spec<P: SourcePos>(c: Cursor<P>, ch: char, start: P) -> (Cursor<P>, TokenV<P>) {
    let (c1, _) = c.read_while(eq_char(ch));
    (c1, TokenV::ThematicBreak(SourceRange { start, end: c1.pos }))
}

/// `start_definition`.
pub open spec fn start_definition_spec<P: SourcePos>(c: Cursor<P>, start: P) -> (Cursor<P>, TokenV<P>) {
    let c1 = c.pop();
    let footnote = c1.starts('^');
    let c2 = if footnote { c1.pop() } else { c1 };
    let (c3, lbl) = c2.read_until_str(seq![']', ':']);
    let range = SourceRange { start, end: c3.pos };
    (c3, if footnote { TokenV::FootnoteDefinition(trimmed(lbl), range) } else { TokenV::Definition(trimmed(lbl), range) })
}

/// `block_math`.
pub open spec fn block_math_spec<P: SourcePos>(c: Cursor<P>, start: P) -> (Cursor<P>, TokenV<P>) {
    let (c1, math) = c.pop().pop().read_until_str(seq!['$', '$']);
    let c2 = if seq!['$', '$'].is_prefix_of(c1.rest) { c1.pop().pop() } else { c1 };
    (c2, TokenV::BlockMath(math, SourceRange { start, end: c2.pos }))
}

/// `block_code`.
pub open spec fn block_code_spec<P: SourcePos>(c: Cursor<P>, start: P) -> (Cursor<P>, TokenV<P>) {
    let (c1, language, _) = c.pop().pop().pop().line();
    let (c2, code) = c1.read_until_str(seq!['`', '`', '`']);
    let c3 = if seq!['`', '`', '`'].is_prefix_of(c2.rest) { c2.pop().pop().pop() } else { c2 };
    (c3, TokenV::BlockCode { language, code, range: SourceRange { start, end: c3.pos } })
}

/// `custom_block`.
pub open spec fn custom_block_spec<P: SourcePos>(c: Cursor<P>, start: P) -> (Cursor<P>, TokenV<P>) {
    let (c1, colons) = c.read_until(ne_char(':'));
    let c2 = skip_space_spec(c1);
    let (c3, label) = c2.read_until(indent_p());
    let (c4, args, _) = c3.line();
    let label = trimmed(label);
    if label.len() == 0 {
        (c4, TokenV::CustomBlockEnd(colons.len() as u8, start))
    } else {
        (c4, TokenV::CustomBlockStart {
            label,
            args: trimmed(args),
            colons: colons.len() as u8,
            range: SourceRange { start, end: c4.pos },
        })
    }
}

/// `strong_emph`, for a text starting with `*`, `_`, `^` or `~`.
pub open spec fn strong_emph_spec<P: SourcePos>(c: Cursor<P>) -> (Cursor<P>, TokenV<P>) {
    let head = c.rest[0];
    let (c1, _) = c.take(1);
    let double = c1.starts(head);
    let c2 = if double { c1.take(1).0 } else { c1 };
    let h = head as u8;
    (c2, if (head == '*' || head == '_') && double {
        TokenV::Strong(h, c.pos)
    } else if head == '~' && double {
        TokenV::StrikeThrough(c.pos)
    } else if head == '~' {
        TokenV::Subscript(c.pos)
    } else if head == '^' {
        TokenV::Superscript(c.pos)
    } else {
        TokenV::Emph(h, c.pos)
    })
}

/// `highlight`, for a text starting with `==`.
pub open spec fn highlight_spec<P: SourcePos>(c: Cursor<P>) -> (Cursor<P>, TokenV<P>) {
    (c.take(2).0, TokenV::Highlight(c.pos))
}

/// The fence of a front matter block at the start of `s`, after white space.
pub open spec fn fence_of(s: Seq<char>) -> Option<char> {
    let t = trimmed_start(s);
    if seq!['+', '+', '+'].is_prefix_of(t) {
        Some('+')
    } else if seq!['-', '-', '-'].is_prefix_of(t) {
        Some('-')
    } else {
        None
    }
}

/// `frontmatter`: a block fenced by `+++` or `---` lines, when the text (after white
/// space) starts with one.
pub open spec fn frontmatter_spec<P: SourcePos>(c: Cursor<P>) -> Option<(Cursor<P>, TokenV<P>)> {
    match fence_of(c.rest) {
        None => None,
        Some(f) => {
            let fence = seq![f, f, f];
            let c1 = c.trim_start();
            let start = c1.pos;
            let (c2, _) = c1.read_while(eq_char(f));
            let c3 = c2.trim_start();
            let (c4, fm) = c3.read_until_str(fence);
            let (c5, _) = c4.read_while(eq_char(f));
            Some((c5, TokenV::FrontMatter(fm, SourceRange { start, end: c5.pos })))
        },
    }
}

/// A cursor over a text whose position is not tracked.
pub open spec fn plain(s: Seq<char>) -> Cursor<()> {
    Cursor { rest: s, pos: () }
}

/// Whether `s` holds a line break.
pub open spec fn has_line_break(s: Seq<char>) -> bool {
    exists|j: int| 0 <= j < s.len() && crate::strings::is_line_break(#[trigger] s[j])
}

/// The link target of a `[text](target)` at the start of `rest` (which starts with `[`),
/// as the URL parser serialises it; `None` when there is no such link.
pub open spec fn link_of(rest: Seq<char>) -> Option<Seq<char>> {
    let (c1, txt) = plain(rest.drop_first()).brackets('[', ']', ']');
    if has_line_break(txt) {
        None
    } else {
        let c2 = if c1.starts(']') { c1.pop() } else { c1 };
        if !c2.starts('(') {
            None
        } else {
            let (_, url) = c2.pop().brackets('(', ')', ')');
            url_parse(url)
        }
    }
}

/// Whether `c` is a white space that a custom label may not hold.
pub open spec fn label_space(c: char) -> bool {
    c == '\r' || c == ' ' || c == '\n' || c == '\t'
}

/// Whether `rest` (which starts with `@[`) starts a custom inline `@[label](args)` whose
/// label holds no white space inside.
pub open spec fn custom_of(rest: Seq<char>) -> bool {
    let (c1, label) = plain(rest.skip(2)).read_until(eq_char(']'));
    &&& seq![']', '('].is_prefix_of(c1.rest)
    &&& !(exists|j: int| 0 <= j < trimmed(label).len() && label_space(#[trigger] trimmed(label)[j]))
}

/// Reading characters with `pop_head` until one that is not a digit has been read.
pub open spec fn pop_digits<P: SourcePos>(c: Cursor<P>) -> Cursor<P>
    decreases c.rest.len(),
{
    if c.rest.len() == 0 {
        c
    } else {
        let h = c.head();
        let c2 = c.pop();
        if h matches Some(d) && is_digit(d) {
            pop_digits(c2)
        } else {
            c2
        }
    }
}

/// The block constructs `top` tells apart, in the order it tries them.
pub enum TopCase {
    End,
    Quote,
    Break(char),
    Math,
    Bullet,
    Numbered,
    Heading,
    Table,
    Code,
    Custom,
    Paragraph,
}

/// The second byte of `b`, if any.
pub open spec fn second(b: Seq<u8>) -> Option<u8> {
    if b.len() > 1 {
        Some(b[1])
    } else {
        None
    }
}

/// Which block construct the text of `c` (after the indentation) starts.
pub open spec fn top_case<P: SourcePos>(c: Cursor<P>) -> TopCase {
    if c.rest.len() == 0 {
        TopCase::End
    } else {
        let b = encode_utf8(c.rest);
        let h = b[0];
        let b1 = second(b);
        if h == 62u8 && (b1 == Some(32u8) || b1 == Some(9u8)) {
            TopCase::Quote
        } else if h == 95u8 && seq!['_', '_', '_'].is_prefix_of(c.rest) {
            TopCase::Break('_')
        } else if h == 45u8 && seq!['-', '-', '-'].is_prefix_of(c.rest) {
            TopCase::Break('-')
        } else if h == 42u8 && seq!['*', '*', '*'].is_prefix_of(c.rest) {
            TopCase::Break('*')
        } else if h == 36u8 && seq!['$', '$'].is_prefix_of(c.rest) {
            TopCase::Math
        } else if (h == 42u8 || h == 45u8) && (b1 == Some(32u8) || b1 == Some(9u8)) {
            TopCase::Bullet
        } else if 48u8 <= h <= 57u8 && numbered_list_bytes(b) {
            TopCase::Numbered
        } else if h == 35u8 {
            TopCase::Heading
        } else if h == 124u8 && table_bytes(b) {
            TopCase::Table
        } else if h == 96u8 && seq!['`', '`', '`'].is_prefix_of(c.rest) {
            TopCase::Code
        } else if h == 58u8 && b1 == Some(58u8) {
            TopCase::Custom
        } else {
            TopCase::Paragraph
        }
    }
}

/// Whether `top` fails on a table check of an empty second line.
pub open spec fn top_panics<P: SourcePos>(v: TokView<P>) -> bool {
    let c = trim_indent_spec(v.cur).0;
    &&& c.rest.len() > 0
    &&& encode_utf8(c.rest)[0] == 124u8
    &&& table_panics(encode_utf8(c.rest))
}

/// `top`: the block construct at the start of a line.
pub open spec fn top_spec<P: SourcePos>(v: TokView<P>) -> (TokView<P>, Option<TokenV<P>>) {
    let (c, indent) = trim_indent_spec(v.cur);
    let start = c.pos;
    match top_case(c) {
        TopCase::End => (TokView { cur: c, ..v }, None),
        TopCase::Quote => (
            TokView { cur: c.pop().pop(), state: TokenizerState::InBlockQuote, ..v },
            Some(TokenV::BlockQuoteStart(start)),
        ),
        TopCase::Break(ch) => {
            let (c2, t) = thematic_break_spec(c, ch, start);
            (TokView { cur: c2, state: TokenizerState::Top, ..v }, Some(t))
        },
        TopCase::Math => {
            let (c2, t) = block_math_spec(c, start);
            (TokView { cur: c2, ..v }, Some(t))
        },
        TopCase::Bullet => (
            TokView { cur: skip_space_spec(c.pop()), state: TokenizerState::InUnnumberedList, ..v },
            Some(TokenV::UnnumberedListItem(indent, start)),
        ),
        TopCase::Numbered => (
            TokView { cur: skip_space_spec(pop_digits(c)), state: TokenizerState::InNumberedList, ..v },
            Some(TokenV::NumberedListItem(indent, start)),
        ),
        TopCase::Heading => {
            let (c2, t) = heading_spec(c, start);
            (TokView { cur: c2, state: TokenizerState::Heading, ..v }, Some(t))
        },
        TopCase::Table => (
            TokView { cur: c, next: Some(NextV::TableStart), ..v },
            Some(TokenV::TableStart(start)),
        ),
        TopCase::Code => {
            let (c2, t) = block_code_spec(c, start);
            (TokView { cur: c2, ..v }, Some(t))
        },
        TopCase::Custom => {
            let (c2, t) = custom_block_spec(c, start);
            (TokView { cur: c2, ..v }, Some(t))
        },
        TopCase::Paragraph => (
            TokView { cur: c, state: TokenizerState::Inline, ..v },
            Some(TokenV::ParagraphStart(start)),
        ),
    }
}

/// Inline math: `$`, then text up to a `$` outside of braces, then that `$`.
pub open spec fn inline_math_spec<P: SourcePos>(c: Cursor<P>) -> (Cursor<P>, TokenV<P>) {
    let (c2, math) = c.pop().brackets('{', '}', '$');
    let c3 = if c2.starts('$') { c2.pop() } else { c2 };
    (c3, TokenV::InlineMath(math, SourceRange { start: c.pos, end: c3.pos }))
}

/// Inline code: a backtick, text up to an unescaped backtick, then that backtick.
pub open spec fn inline_code_spec<P: SourcePos>(c: Cursor<P>) -> (Cursor<P>, TokenV<P>) {
    let (c2, code) = c.pop().escaped('`', '\\');
    let c3 = if c2.starts('`') { c2.pop() } else { c2 };
    (c3, TokenV::InlineCode(code, SourceRange { start: c.pos, end: c3.pos }))
}

/// The end of a link text: `](`, the target up to `)` outside of parentheses, then `)`.
pub open spec fn link_end_spec<P: SourcePos>(c: Cursor<P>) -> (Cursor<P>, TokenV<P>) {
    let (c2, _) = c.pop().pop().brackets('(', ')', ')');
    let c3 = if c2.starts(')') { c2.pop() } else { c2 };
    (c3, TokenV::LinkOrCustomEnd(c3.pos))
}

/// A custom inline: `@[`, a label up to `]`, `](`, arguments up to `)` outside of
/// parentheses, then `)`.
pub open spec fn inline_custom_spec<P: SourcePos>(c: Cursor<P>) -> (Cursor<P>, TokenV<P>) {
    let (c2, label) = c.pop().pop().read_until(eq_char(']'));
    let (c4, args) = c2.pop().pop().brackets('(', ')', ')');
    let c5 = if c4.starts(')') { c4.pop() } else { c4 };
    (c5, TokenV::InlineCustom { label: trimmed(label), args, range: SourceRange { start: c.pos, end: c5.pos } })
}

/// Where the inline scanner stops: to hand out a recognised token next, or to go back
/// to block level.
pub enum StopV {
    Next(NextV),
    Top,
}

/// Whether a byte is a space or a tab.
pub open spec fn blank_byte(x: u8) -> bool {
    x == 32u8 || x == 9u8
}

/// The first byte of `r` that is not a space or tab (or the length).
pub open spec fn first_nonblank(r: Seq<u8>) -> int {
    first_index(nonblank_at(r), 0, r.len() as int)
}

/// The positions of `r` that hold neither a space nor a tab.
pub open spec fn nonblank_at(r: Seq<u8>) -> spec_fn(int) -> bool {
    |i: int| !blank_byte(r[i])
}

/// Whether the line after a line break (`r`, its bytes) ends a paragraph.
pub open spec fn line_stop(r: Seq<u8>, st: TokenizerState) -> Option<StopV> {
    let j = first_nonblank(r);
    if j >= r.len() {
        None
    } else {
        let h = r[j];
        let rr = r.skip(j + 1);
        let f = if rr.len() > 0 { Some(rr[0]) } else { None };
        if h == 13u8 || h == 10u8 || (h == 62u8 && (f == Some(32u8) || f == Some(9u8))) || (h
            == 95u8 && seq![95u8, 95u8].is_prefix_of(rr)) || (h == 45u8 && seq![45u8, 45u8].is_prefix_of(rr))
            || (h == 42u8 && seq![42u8, 42u8].is_prefix_of(rr)) || (h == 36u8 && f == Some(36u8)) || ((
        h == 42u8 || h == 45u8) && st != TokenizerState::InUnnumberedList && (f == Some(32u8) || f
            == Some(9u8))) || (48u8 <= h <= 57u8 && st != TokenizerState::InNumberedList
            && numbered_list_bytes(rr)) || (h == 124u8 && table_bytes(rr)) || (h == 58u8
            && seq![58u8, 58u8].is_prefix_of(rr)) || h == 35u8 {
            Some(StopV::Next(NextV::EndParagraph))
        } else if st == TokenizerState::InUnnumberedList && (h == 42u8 || h == 45u8) && f == Some(
            32u8,
        ) {
            Some(StopV::Top)
        } else if st == TokenizerState::InNumberedList && 48u8 <= h <= 57u8 && numbered_list_bytes(
            rr,
        ) {
            Some(StopV::Top)
        } else {
            None
        }
    }
}

/// Whether checking the line after a line break fails on a table check.
pub open spec fn line_stop_panics(r: Seq<u8>) -> bool {
    let j = first_nonblank(r);
    j < r.len() && r[j] == 124u8 && table_panics(r.skip(j + 1))
}

/// The bytes after the line break at the start of `b`.
pub open spec fn after_break(b: Seq<u8>) -> Seq<u8> {
    if b[0] == 13u8 && second(b) == Some(10u8) {
        b.skip(2)
    } else {
        b.skip(1)
    }
}

/// Whether the inline scanner stops in front of `src` (non-empty), and why.
pub open spec fn inline_stop(src: Seq<char>, st: TokenizerState, in_link: bool, inline_only: bool) -> Option<StopV> {
    let b = encode_utf8(src);
    let h = b[0];
    let nx = second(b);
    if h == 95u8 || h == 42u8 || h == 126u8 || h == 94u8 {
        Some(StopV::Next(NextV::StrongEmph))
    } else if h == 61u8 && nx == Some(61u8) {
        Some(StopV::Next(NextV::Highlight))
    } else if h == 36u8 && nx == Some(36u8) && !inline_only {
        Some(StopV::Next(NextV::EndParagraph))
    } else if h == 96u8 && seq!['`', '`', '`'].is_prefix_of(src) && !inline_only {
        Some(StopV::Next(NextV::BlockCode))
    } else if h == 96u8 {
        Some(StopV::Next(NextV::InlineCode))
    } else if h == 36u8 {
        Some(StopV::Next(NextV::Math))
    } else if h == 92u8 {
        Some(StopV::Next(NextV::Escape))
    } else if h == 91u8 {
        match link_of(src) {
            Some(u) => Some(StopV::Next(NextV::Link(u))),
            None => None,
        }
    } else if h == 93u8 && in_link && nx == Some(40u8) {
        Some(StopV::Next(NextV::LinkEnd))
    } else if h == 64u8 && nx == Some(91u8) && custom_of(src) {
        Some(StopV::Next(NextV::InlineCustom))
    } else if (h == 13u8 || h == 10u8) && !inline_only {
        if st == TokenizerState::Heading {
            Some(StopV::Next(NextV::HeadingEnd))
        } else {
            line_stop(after_break(b), st)
        }
    } else {
        None
    }
}

/// Whether the inline check of `src` fails on a table check.
pub open spec fn inline_stop_panics(src: Seq<char>, st: TokenizerState, inline_only: bool) -> bool {
    let b = encode_utf8(src);
    &&& (b[0] == 13u8 || b[0] == 10u8)
    &&& !inline_only
    &&& st != TokenizerState::Heading
    &&& line_stop_panics(after_break(b))
}

/// The positions at which the inline scanner stops or fails.
pub open spec fn inline_hit(s: Seq<char>, st: TokenizerState, in_link: bool, inline_only: bool) -> spec_fn(int) -> bool {
    |j: int| inline_stop_panics(s.skip(j), st, inline_only) || inline_stop(s.skip(j), st, in_link, inline_only) is Some
}

/// Where the inline scanner stops (or the length).
pub open spec fn inline_k<P: SourcePos>(v: TokView<P>) -> int {
    first_index(inline_hit(v.cur.rest, v.state, v.in_link, v.inline_only), 0, v.cur.rest.len() as int)
}

/// Why the inline scanner stops, if it does.
pub open spec fn inline_why<P: SourcePos>(v: TokView<P>) -> Option<StopV> {
    let k = inline_k(v);
    if k < v.cur.rest.len() {
        inline_stop(v.cur.rest.skip(k), v.state, v.in_link, v.inline_only)
    } else {
        None
    }
}

/// The tokenizer after the inline scan: text read, next token or state set.
pub open spec fn inline_after<P: SourcePos>(v: TokView<P>) -> TokView<P> {
    let c1 = v.cur.take(inline_k(v)).0;
    match inline_why(v) {
        Some(StopV::Next(n)) => TokView { cur: c1, next: Some(n), ..v },
        Some(StopV::Top) => TokView { cur: c1, state: TokenizerState::Top, ..v },
        None => TokView { cur: c1, ..v },
    }
}

/// How far the tokenizer is from its end, for `next` and `inline` calling each other.
pub open spec fn next_measure<P: SourcePos>(v: TokView<P>) -> int {
    3 * v.cur.rest.len() + match v.next {
        None => 2int,
        Some(NextV::TableStart) => 2int,
        Some(NextV::Escape) => if v.cur.rest.len() == 0 { 2int } else { 0int },
        _ => 0int,
    }
}

/// `inline`: text up to the next inline construct or paragraph end.
pub open spec fn inline_spec<P: SourcePos>(v: TokView<P>) -> (TokView<P>, Option<TokenV<P>>)
    decreases 3 * v.cur.rest.len() + 1, 0int,
{
    let k = inline_k(v);
    let (c1, txt) = v.cur.take(k);
    let v1 = inline_after(v);
    if txt.len() > 0 {
        (v1, Some(TokenV::Text(txt, SourceRange { start: v.cur.pos, end: c1.pos })))
    } else if inline_why(v) matches Some(StopV::Next(_)) {
        proof {
            lemma_inline_k_bounds(v);
            lemma_inline_stop_kind(v);
        }
        next_spec(v1)
    } else {
        (v1, None)
    }
}

/// The dispatch on the state, once no recognised token is waiting.
pub open spec fn dispatch_spec<P: SourcePos>(v: TokView<P>) -> (TokView<P>, Option<TokenV<P>>)
    decreases 3 * v.cur.rest.len() + 2, 0int,
{
    match v.state {
        TokenizerState::Start => match frontmatter_spec(v.cur) {
            Some((c, t)) => (TokView { cur: c, ..v }, Some(t)),
            None => top_spec(TokView { state: TokenizerState::Top, ..v }),
        },
        TokenizerState::Top => top_spec(v),
        _ => inline_spec(v),
    }
}

/// `next`: the next token, and the tokenizer after it.
pub open spec fn next_spec<P: SourcePos>(v: TokView<P>) -> (TokView<P>, Option<TokenV<P>>)
    decreases next_measure(v), 1int,
{
    let v0 = TokView { next: None, ..v };
    let c = v.cur;
    let start = c.pos;
    match v.next {
        Some(NextV::HeadingEnd) => (
            TokView { state: TokenizerState::Top, ..v0 },
            Some(TokenV::HeadingEnd(start)),
        ),
        Some(NextV::StrongEmph) => {
            let (c1, t) = strong_emph_spec(c);
            (TokView { cur: c1, ..v0 }, Some(t))
        },
        Some(NextV::Highlight) => {
            let (c1, t) = highlight_spec(c);
            (TokView { cur: c1, ..v0 }, Some(t))
        },
        Some(NextV::Escape) => {
            let c1 = c.pop();
            if c1.rest.len() > 0 {
                let c2 = c1.pop();
                (TokView { cur: c2, ..v0 }, Some(TokenV::Escaped(c1.head()->0, c2.pos)))
            } else {
                dispatch_spec(TokView { cur: c1, ..v0 })
            }
        },
        Some(NextV::EndParagraph) => (
            TokView { state: TokenizerState::Top, ..v0 },
            Some(TokenV::ParagraphEnd(start)),
        ),
        Some(NextV::Math) => {
            let (c1, t) = inline_math_spec(c);
            (TokView { cur: c1, ..v0 }, Some(t))
        },
        Some(NextV::InlineCode) => {
            let (c1, t) = inline_code_spec(c);
            (TokView { cur: c1, ..v0 }, Some(t))
        },
        Some(NextV::BlockCode) => {
            let (c1, t) = block_code_spec(c, start);
            (TokView { cur: c1, state: TokenizerState::Top, ..v0 }, Some(t))
        },
        Some(NextV::Link(url)) => (
            TokView { cur: c.pop(), in_link: true, ..v0 },
            Some(TokenV::LinkStart(url, start)),
        ),
        Some(NextV::LinkEnd) => {
            let (c1, t) = link_end_spec(c);
            (TokView { cur: c1, in_link: false, ..v0 }, Some(t))
        },
        Some(NextV::InlineCustom) => {
            let (c1, t) = inline_custom_spec(c);
            (TokView { cur: c1, ..v0 }, Some(t))
        },
        _ => dispatch_spec(v0),
    }
}

/// The inline stop position lies within the text.
pub proof fn lemma_inline_k_bounds<P: SourcePos>(v: TokView<P>)
    ensures
        0 <= inline_k(v) <= v.cur.rest.len(),
{
    crate::blocks::lemma_first_index(inline_hit(v.cur.rest, v.state, v.in_link, v.inline_only), 0, v.cur.rest.len() as int);
}

/// The inline scanner never recognises a table start.
pub proof fn lemma_inline_stop_kind<P: SourcePos>(v: TokView<P>)
    ensures
        !(inline_why(v) matches Some(StopV::Next(NextV::TableStart))),
        inline_why(v) matches Some(StopV::Next(NextV::Escape)) ==> inline_k(v) < v.cur.rest.len(),
{
}

/// Whether `inline` fails: on a table check at the stop, or in the token it hands on to.
pub open spec fn inline_panics<P: SourcePos>(v: TokView<P>) -> bool
    decreases 3 * v.cur.rest.len() + 1, 0int,
{
    let k = inline_k(v);
    if k < v.cur.rest.len() && inline_stop_panics(v.cur.rest.skip(k), v.state, v.inline_only) {
        true
    } else if k == 0 && inline_why(v) matches Some(StopV::Next(_)) {
        proof {
            lemma_inline_k_bounds(v);
            lemma_inline_stop_kind(v);
        }
        next_panics(inline_after(v))
    } else {
        false
    }
}

/// Whether the dispatch on the state fails.
pub open spec fn dispatch_panics<P: SourcePos>(v: TokView<P>) -> bool
    decreases 3 * v.cur.rest.len() + 2, 0int,
{
    match v.state {
        TokenizerState::Start => frontmatter_spec(v.cur) is None && top_panics(
            TokView { state: TokenizerState::Top, ..v },
        ),
        TokenizerState::Top => top_panics(v),
        _ => inline_panics(v),
    }
}

/// Whether `next` fails: only a table check on an empty second line does.
pub open spec fn next_panics<P: SourcePos>(v: TokView<P>) -> bool
    decreases next_measure(v), 1int,
{
    let v0 = TokView { next: None, ..v };
    match v.next {
        Some(NextV::Escape) => {
            let c1 = v.cur.pop();
            c1.rest.len() == 0 && dispatch_panics(TokView { cur: c1, ..v0 })
        },
        None => dispatch_panics(v0),
        Some(NextV::TableStart) => dispatch_panics(v0),
        _ => false,
    }
}

/// What a tokenizer keeps true between calls: a recognised token that `next` hands out
/// without checking again is really there.
pub open spec fn tokenizer_wf<P: SourcePos>(v: TokView<P>) -> bool {
    &&& v.next matches Some(NextV::StrongEmph) ==> v.cur.rest.len() > 0 && {
        let h = v.cur.rest[0];
        h == '*' || h == '_' || h == '^' || h == '~'
    }
    &&& v.next matches Some(NextV::Highlight) ==> seq!['=', '='].is_prefix_of(v.cur.rest)
    &&& v.next matches Some(NextV::TableStart) ==> v.state == TokenizerState::Top
}

/// A recognised emphasis or highlight token really starts the text it stops at.
pub proof fn lemma_stop_wf(src: Seq<char>, st: TokenizerState, in_link: bool, inline_only: bool)
    requires
        src.len() > 0,
    ensures
        inline_stop(src, st, in_link, inline_only) matches Some(StopV::Next(NextV::StrongEmph)) ==> {
            let h = src[0];
            h == '*' || h == '_' || h == '^' || h == '~'
        },
        inline_stop(src, st, in_link, inline_only) matches Some(StopV::Next(NextV::Highlight))
            ==> seq!['=', '='].is_prefix_of(src),
{
    let b = encode_utf8(src);
    crate::text::lemma_first_byte(src);
    let h = b[0];
    if h < 0x80 {
        crate::text::lemma_first_byte_is(src, h);
        if h == 95u8 {
            crate::text::lemma_char_code(src[0], '_');
        } else if h == 42u8 {
            crate::text::lemma_char_code(src[0], '*');
        } else if h == 126u8 {
            crate::text::lemma_char_code(src[0], '~');
        } else if h == 94u8 {
            crate::text::lemma_char_code(src[0], '^');
        } else if h == 61u8 && second(b) == Some(61u8) {
            crate::text::lemma_char_code(src[0], '=');
            let t = src.drop_first();
            assert(encode_utf8(t) == b.skip(1));
            if t.len() > 0 {
                crate::text::lemma_first_byte_is(t, 61u8);
                crate::text::lemma_char_code(t[0], '=');
                assert(src[1] == t[0]);
                assert(src.subrange(0, 2) =~= seq!['=', '=']);
            } else {
                assert(encode_utf8(t) =~= Seq::<u8>::empty());
            }
        }
    }
}

/// Whether `t` is a footnote or link definition, which only `start_definition` makes.
pub open spec fn is_definition_token<P>(t: Option<TokenV<P>>) -> bool {
    t matches Some(TokenV::FootnoteDefinition(..)) || t matches Some(TokenV::Definition(..))
}

/// `inline` hands out no definition.
proof fn lemma_inline_no_definition<P: SourcePos>(v: TokView<P>)
    ensures
        !is_definition_token(inline_spec(v).1),
    decreases 3 * v.cur.rest.len() + 1, 0int,
{
    let k = inline_k(v);
    let (c1, txt) = v.cur.take(k);
    if txt.len() == 0 && inline_why(v) matches Some(StopV::Next(_)) {
        lemma_inline_k_bounds(v);
        lemma_inline_stop_kind(v);
        lemma_next_no_definition(inline_after(v));
    }
}

/// The dispatch on the state hands out no definition.
proof fn lemma_dispatch_no_definition<P: SourcePos>(v: TokView<P>)
    ensures
        !is_definition_token(dispatch_spec(v).1),
    decreases 3 * v.cur.rest.len() + 2, 0int,
{
    match v.state {
        TokenizerState::Start => {},
        TokenizerState::Top => {},
        _ => lemma_inline_no_definition(v),
    }
}

/// The tokenizer never hands out a definition: nothing calls `start_definition`.
pub proof fn lemma_next_no_definition<P: SourcePos>(v: TokView<P>)
    ensures
        !is_definition_token(next_spec(v).1),
    decreases next_measure(v), 1int,
{
    let v0 = TokView { next: None, ..v };
    match v.next {
        Some(NextV::Escape) => {
            let c1 = v.cur.pop();
            if c1.rest.len() == 0 {
                lemma_dispatch_no_definition(TokView { cur: c1, ..v0 });
            }
        },
        Some(NextV::TableStart) => lemma_dispatch_no_definition(v0),
        None => lemma_dispatch_no_definition(v0),
        _ => {},
    }
}

/// Whether the tokenizer, from `v`, reaches its end within `fuel` calls of `next`, none
/// of which fails. A table start makes it hand out the same token forever.
pub open spec fn ends_within<P: SourcePos>(v: TokView<P>, fuel: nat) -> bool
    decreases fuel,
{
    &&& fuel > 0
    &&& !next_panics(v)
    &&& (next_spec(v).1 is None || ends_within(next_spec(v).0, (fuel - 1) as nat))
}

/// The views of an optional token.
pub open spec fn opt_view<'a, P: SourcePos>(r: Option<MarkdownToken<'a, P>>) -> Option<TokenV<P>> {
    match r {
        Some(t) => Some(t.view()),
        None => None,
    }
}

/// The tokenizer after `frontmatter`, and what it returns.
pub open spec fn frontmatter_step<P: SourcePos>(v: TokView<P>) -> (TokView<P>, Option<TokenV<P>>) {
    match frontmatter_spec(v.cur) {
        None => (v, None),
        Some((c, t)) => (TokView { cur: c, ..v }, Some(t)),
    }
}

/// The cursor of a `ParseStr`.
pub open spec fn cur<'a, P: SourcePos>(s: ParseStr<'a, P>) -> Cursor<P> {
    Cursor { rest: s.remaining(), pos: s.position() }
}

/// A fresh tokenizer on `text`, at the origin, in `state`.
pub open spec fn start_view<P: SourcePos>(text: Seq<char>, state: TokenizerState, inline_only: bool) -> TokView<P> {
    TokView {
        cur: Cursor { rest: text, pos: P::origin() },
        state,
        next: None,
        in_link: false,
        inline_only,
    }
}

/// The tokenizer's state as values: where it is, what it is in, what comes next.
pub struct TokView<P> {
    pub cur: Cursor<P>,
    pub state: TokenizerState,
    pub next: Option<NextV>,
    pub in_link: bool,
    pub inline_only: bool,
}

/// Splits a Markdown document into tokens.
pub struct MarkdownTokenizer<'a, Pos: SourcePos> {
    source: ParseStr<'a, Pos>,
    state: TokenizerState,
    next: Option<NextToken>,
    in_link: bool,
    inline_only: bool,
}

fn pop<'a, P: SourcePos + 'a>(src: &mut ParseStr<'a, P>) -> (r: Option<char>)
    ensures
        cur(*final(src)) == cur(*old(src)).pop(),
        r == cur(*old(src)).head(),
{
    src.pop_head()
}

fn starts<'a, P: SourcePos + 'a>(src: &mut ParseStr<'a, P>, c: char) -> (r: bool)
    ensures
        *final(src) == *old(src),
        r == cur(*old(src)).starts(c),
{
    src.starts_with(c)
}

fn read_while_by<'a, P: SourcePos + 'a, F: Fn(char) -> bool>(
    src: &mut ParseStr<'a, P>,
    f: F,
    Ghost(p): Ghost<spec_fn(char) -> bool>,
) -> (r: &'a str)
    requires
        forall|c: char| call_requires(f, (c,)),
        forall|c: char, b: bool| call_ensures(f, (c,), b) ==> b == p(c),
    ensures
        (cur(*final(src)), r@) == cur(*old(src)).read_while(p),
{
    let ghost s = src.remaining();
    let r = src.read_while(f);
    proof {
        crate::strings::lemma_scan_is_leading(s, r@.len() as int, f, p, false);
        assert((|c: char| p(c) != false) =~= p);
        assert(cur(*src).rest =~= s.skip(r@.len() as int));
    }
    r
}

fn read_until_by<'a, P: SourcePos + 'a, F: Fn(char) -> bool>(
    src: &mut ParseStr<'a, P>,
    f: F,
    Ghost(p): Ghost<spec_fn(char) -> bool>,
) -> (r: &'a str)
    requires
        forall|c: char| call_requires(f, (c,)),
        forall|c: char, b: bool| call_ensures(f, (c,), b) ==> b == p(c),
    ensures
        (cur(*final(src)), r@) == cur(*old(src)).read_until(p),
{
    let ghost s = src.remaining();
    let r = src.read_until(f);
    proof {
        crate::strings::lemma_scan_is_leading(s, r@.len() as int, f, p, true);
        assert((|c: char| p(c) != true) =~= negate(p));
        assert(cur(*src).rest =~= s.skip(r@.len() as int));
    }
    r
}

fn read_while_char<'a, P: SourcePos + 'a>(src: &mut ParseStr<'a, P>, ch: char) -> (r: &'a str)
    ensures
        (cur(*final(src)), r@) == cur(*old(src)).read_while(eq_char(ch)),
{
    let f = |x: char| -> (b: bool)
        ensures
            b == (x == ch),
        { x == ch };
    read_while_by(src, f, Ghost(eq_char(ch)))
}

fn read_until_str_c<'a, P: SourcePos + 'a>(src: &mut ParseStr<'a, P>, pat: &str) -> (r: &'a str)
    ensures
        (cur(*final(src)), r@) == cur(*old(src)).read_until_str(pat@),
{
    let ghost s = src.remaining();
    let r = src.read_until_str(pat);
    proof {
        let q = prefix_at(s, pat@);
        crate::blocks::lemma_first_index_unique(q, 0, s.len() as int, r@.len() as int);
        assert(cur(*src).rest =~= s.skip(r@.len() as int));
    }
    r
}

fn brackets_c<'a, P: SourcePos + 'a>(src: &mut ParseStr<'a, P>, open: char, close: char, stop: char) -> (r: &'a str)
    ensures
        (cur(*final(src)), r@) == cur(*old(src)).brackets(open, close, stop),
{
    let ghost s = src.remaining();
    let f = |x: char| -> (b: bool)
        ensures
            b == (x == stop),
        { x == stop };
    let r = src.read_until_with_brackets(open, close, f);
    proof {
        let q = bracket_stop_at(s, open, close, stop);
        assert forall|j: int| 0 <= j < r@.len() implies !#[trigger] q(j) by {
            if bracket_free(s, open, close, true, j) {
                assert(call_ensures(f, (s[j],), false));
            }
        }
        if r@.len() < s.len() {
            assert(call_ensures(f, (s[r@.len() as int],), true));
            assert(q(r@.len() as int));
        }
        crate::blocks::lemma_first_index_unique(q, 0, s.len() as int, r@.len() as int);
        assert(cur(*src).rest =~= s.skip(r@.len() as int));
    }
    r
}

fn escaped_c<'a, P: SourcePos + 'a>(src: &mut ParseStr<'a, P>, find: char, escape: char) -> (r: &'a str)
    ensures
        (cur(*final(src)), r@) == cur(*old(src)).escaped(find, escape),
{
    src.read_until_escaped(find, escape)
}

fn line_c<'a, P: SourcePos + 'a>(src: &mut ParseStr<'a, P>) -> (r: (&'a str, P))
    ensures
        (cur(*final(src)), r.0@, r.1) == cur(*old(src)).line(),
{
    let ghost s = src.remaining();
    let r = src.read_until_line_end();
    proof {
        let q = line_break_at(s);
        assert forall|j: int| 0 <= j < r.0@.len() implies !#[trigger] q(j) by {
            assert(!crate::strings::is_line_break(s[j]));
        }
        crate::blocks::lemma_first_index_unique(q, 0, s.len() as int, r.0@.len() as int);
    }
    r
}

fn trim_start_c<'a, P: SourcePos + 'a>(src: &mut ParseStr<'a, P>)
    ensures
        cur(*final(src)) == cur(*old(src)).trim_start(),
{
    src.trim_start()
}

fn starts_str<'a, P: SourcePos + 'a>(src: &ParseStr<'a, P>, pat: &str) -> (r: bool)
    ensures
        r == pat@.is_prefix_of(cur(*src).rest),
{
    src.starts_with_str(pat)
}

/// Skips `n` ASCII characters.
fn skip_ascii<'a, P: SourcePos + 'a>(src: &mut ParseStr<'a, P>, n: usize) -> (r: ())
    requires
        n <= old(src).remaining().len(),
        forall|j: int| 0 <= j < n ==> (#[trigger] old(src).remaining()[j] as u32) < 0x80,
    ensures
        cur(*final(src)) == cur(*old(src)).take(n as int).0,
{
    let ghost s = src.remaining();
    proof {
        lemma_ascii_prefix_bytes(s, n as int);
    }
    proof {
        assert(s.take(n as int) == src.remaining().take(n as int));
        assert(src.is_boundary(n as int));
        let k = src.chars_in(n as int);
        if k < n {
            crate::text::lemma_byte_len_monotone(s, k, n as int);
        } else if k > n {
            crate::text::lemma_byte_len_monotone(s, n as int, k);
        }
    }
    src.skip(n);
}

/// A prefix of ASCII characters takes one byte per character.
proof fn lemma_ascii_prefix_bytes(s: Seq<char>, n: int)
    requires
        0 <= n <= s.len(),
        forall|j: int| 0 <= j < n ==> (#[trigger] s[j] as u32) < 0x80,
    ensures
        crate::text::byte_len(s.take(n)) == n,
    decreases n,
{
    if n > 0 {
        lemma_ascii_prefix_bytes(s, n - 1);
        crate::text::lemma_byte_len_push(s, n - 1);
        assert((s[n - 1] as u32) < 0x80);
    } else {
        assert(s.take(0) =~= Seq::<char>::empty());
    }
}

/// Whether `s` holds a line break.
fn contains_line_break(s: &str) -> (r: bool)
    ensures
        r == has_line_break(s@),
{
    let mut rest = s;
    let ghost mut k: int = 0;
    while !rest.is_empty()
        invariant
            0 <= k <= s@.len(),
            rest@ == s@.skip(k),
            forall|j: int| 0 <= j < k ==> !crate::strings::is_line_break(#[trigger] s@[j]),
        decreases rest@.len(),
    {
        let (c, r2) = crate::text::split_first_char(rest);
        if c == '\r' || c == '\n' {
            assert(crate::strings::is_line_break(s@[k]));
            return true;
        }
        proof {
            assert(r2@ =~= s@.skip(k + 1));
            k = k + 1;
        }
        rest = r2;
    }
    false
}

/// Whether `s` holds a white space that a custom label may not hold.
fn contains_label_space(s: &str) -> (r: bool)
    ensures
        r == exists|j: int| 0 <= j < s@.len() && label_space(#[trigger] s@[j]),
{
    let mut rest = s;
    let ghost mut k: int = 0;
    while !rest.is_empty()
        invariant
            0 <= k <= s@.len(),
            rest@ == s@.skip(k),
            forall|j: int| 0 <= j < k ==> !label_space(#[trigger] s@[j]),
        decreases rest@.len(),
    {
        let (c, r2) = crate::text::split_first_char(rest);
        if c == '\r' || c == ' ' || c == '\n' || c == '\t' {
            assert(label_space(s@[k]));
            return true;
        }
        proof {
            assert(r2@ =~= s@.skip(k + 1));
            k = k + 1;
        }
        rest = r2;
    }
    false
}

/// The link target of a `[text](target)` at the start of `rest`.
fn is_link(rest: &str) -> (r: Option<String>)
    requires
        rest@.len() > 0,
        rest@[0] == '[',
    ensures
        r matches Some(u) ==> link_of(rest@) == Some(u@),
        r is None ==> link_of(rest@) is None,
{
    let (_, after) = crate::text::split_first_char(rest);
    let mut ps = ParseStr::<()>::new(after);
    let txt = brackets_c(&mut ps, '[', ']', ']');
    if contains_line_break(txt) {
        return None;
    }
    if starts(&mut ps, ']') {
        let _ = pop(&mut ps);
    }
    if !starts(&mut ps, '(') {
        return None;
    }
    let _ = pop(&mut ps);
    let url = brackets_c(&mut ps, '(', ')', ')');
    parse_url(url)
}

/// Whether `rest` starts a custom inline.
fn is_custom(rest: &str) -> (r: bool)
    requires
        rest@.len() >= 2,
    ensures
        r == custom_of(rest@),
{
    let (_, a) = crate::text::split_first_char(rest);
    let (_, b) = crate::text::split_first_char(a);
    proof {
        assert(b@ =~= rest@.skip(2));
    }
    let mut ps = ParseStr::<()>::new(b);
    assert(cur(ps) == plain(rest@.skip(2)));
    let f = |x: char| -> (r: bool)
        ensures
            r == (x == ']'),
        { x == ']' };
    let label = read_until_by(&mut ps, f, Ghost(eq_char(']')));
    let prefix = starts_str(&ps, "](");
    assert(cur(ps) == plain(rest@.skip(2)).read_until(eq_char(']')).0);
    proof {
        reveal_strlit("](");
        assert("]("@ =~= seq![']', '(']);
    }
    let t = crate::text::trim(label);
    let has = contains_label_space(t);
    proof {
        let tl = trimmed(label@);
        assert(t@ == tl);
        let (c1, lab) = plain(rest@.skip(2)).read_until(eq_char(']'));
        assert(lab == label@);
        assert(c1 == cur(ps));
        assert(prefix == seq![']', '('].is_prefix_of(c1.rest));
        if has {
            let j = choose|j: int| 0 <= j < t@.len() && label_space(#[trigger] t@[j]);
            assert(label_space(tl[j]));
        } else {
            assert forall|j: int| 0 <= j < tl.len() implies !label_space(#[trigger] tl[j]) by {
                assert(!label_space(t@[j]));
            }
        }
    }
    prefix && !has
}

/// Where the inline scanner stops.
enum InlineStop {
    Next(NextToken),
    Top,
}

impl InlineStop {
    spec fn view(&self) -> StopV {
        match self {
            InlineStop::Next(n) => StopV::Next(n.view()),
            InlineStop::Top => StopV::Top,
        }
    }
}

/// Whether `b` starts with the two bytes `x`, `y`.
fn starts2(b: &[u8], x: u8, y: u8) -> (r: bool)
    ensures
        r == seq![x, y].is_prefix_of(b@),
{
    let r = b.len() >= 2 && b[0] == x && b[1] == y;
    proof {
        if b@.len() >= 2 {
            if r {
                assert(b@.subrange(0, 2) =~= seq![x, y]);
            } else {
                assert(b@.subrange(0, 2)[0] == b@[0]);
                assert(b@.subrange(0, 2)[1] == b@[1]);
            }
        }
    }
    r
}

/// Whether the line after a line break ends a paragraph (bytes `r`).
fn line_stop_exec(r: &[u8], st: TokenizerState) -> (res: Option<InlineStop>)
    requires
        !line_stop_panics(r@),
    ensures
        match res {
            Some(s) => line_stop(r@, st) == Some(s.view()),
            None => line_stop(r@, st) is None,
        },
{
    let n = r.len();
    let mut j: usize = 0;
    while j < n && (r[j] == 32u8 || r[j] == 9u8)
        invariant
            j <= n == r@.len(),
            forall|i: int| 0 <= i < j ==> blank_byte(#[trigger] r@[i]),
        decreases n - j,
    {
        j = j + 1;
    }
    proof {
        assert forall|i: int| 0 <= i < j implies !#[trigger] nonblank_at(r@)(i) by {
            assert(blank_byte(r@[i]));
        }
        crate::blocks::lemma_first_index_unique(nonblank_at(r@), 0, n as int, j as int);
    }
    if j >= n {
        return None;
    }
    let h = r[j];
    let rr = &r[j + 1..n];
    proof {
        assert(rr@ =~= r@.skip(j + 1));
    }
    let f: Option<u8> = if rr.len() > 0 {
        Some(rr[0])
    } else {
        None
    };
    let sp = f == Some(32u8) || f == Some(9u8);
    let unnumbered = match st {
        TokenizerState::InUnnumberedList => true,
        _ => false,
    };
    let numbered = match st {
        TokenizerState::InNumberedList => true,
        _ => false,
    };
    if h == 13u8 || h == 10u8 || (h == 62u8 && sp) || (h == 95u8 && starts2(rr, 95u8, 95u8)) || (h
        == 45u8 && starts2(rr, 45u8, 45u8)) || (h == 42u8 && starts2(rr, 42u8, 42u8)) || (h == 36u8
        && f == Some(36u8)) || ((h == 42u8 || h == 45u8) && !unnumbered && sp) || (48u8 <= h && h
        <= 57u8 && !numbered && is_numbered_list(rr)) || (h == 124u8 && is_table(rr)) || (h == 58u8
        && starts2(rr, 58u8, 58u8)) || h == 35u8 {
        return Some(InlineStop::Next(NextToken::EndParagraph));
    }
    if unnumbered && (h == 42u8 || h == 45u8) && f == Some(32u8) {
        return Some(InlineStop::Top);
    }
    if numbered && 48u8 <= h && h <= 57u8 && is_numbered_list(rr) {
        return Some(InlineStop::Top);
    }
    None
}

/// Whether the inline scanner stops in front of `src`, and why.
fn check_stop(src: &str, st: TokenizerState, in_link: bool, inline_only: bool) -> (res: Option<InlineStop>)
    requires
        src@.len() > 0,
        !inline_stop_panics(src@, st, inline_only),
    ensures
        match res {
            Some(s) => inline_stop(src@, st, in_link, inline_only) == Some(s.view()),
            None => inline_stop(src@, st, in_link, inline_only) is None,
        },
{
    let b = src.as_bytes();
    proof {
        crate::text::lemma_first_byte(src@);
        reveal_strlit("```");
        assert("```"@ =~= seq!['`', '`', '`']);
    }
    let h = b[0];
    let nx: Option<u8> = if b.len() > 1 {
        Some(b[1])
    } else {
        None
    };
    assert(nx == second(b@));
    if h == 95u8 || h == 42u8 || h == 126u8 || h == 94u8 {
        Some(InlineStop::Next(NextToken::StrongEmph))
    } else if h == 61u8 && nx == Some(61u8) {
        Some(InlineStop::Next(NextToken::Highlight))
    } else if h == 36u8 && nx == Some(36u8) && !inline_only {
        Some(InlineStop::Next(NextToken::EndParagraph))
    } else if h == 96u8 && crate::text::str_starts_with(src, "```") && !inline_only {
        Some(InlineStop::Next(NextToken::BlockCode))
    } else if h == 96u8 {
        Some(InlineStop::Next(NextToken::InlineCode))
    } else if h == 36u8 {
        Some(InlineStop::Next(NextToken::Math))
    } else if h == 92u8 {
        Some(InlineStop::Next(NextToken::Escape))
    } else if h == 91u8 {
        proof {
            crate::text::lemma_first_byte_is(src@, 91u8);
            crate::text::lemma_char_code(src@[0], '[');
        }
        match is_link(src) {
            Some(url) => Some(InlineStop::Next(NextToken::Link(url))),
            None => None,
        }
    } else if h == 93u8 && in_link && nx == Some(40u8) {
        Some(InlineStop::Next(NextToken::LinkEnd))
    } else if h == 64u8 && nx == Some(91u8) && {
        proof {
            crate::text::lemma_first_byte_is(src@, 64u8);
            assert(src@.len() >= 2) by {
                if src@.len() == 1 {
                    assert(src@.drop_first() =~= Seq::<char>::empty());
                    assert(encode_utf8(src@.drop_first()) =~= Seq::<u8>::empty());
                }
            }
        }
        is_custom(src)
    } {
        Some(InlineStop::Next(NextToken::InlineCustom))
    } else if (h == 13u8 || h == 10u8) && !inline_only {
        match st {
            TokenizerState::Heading => Some(InlineStop::Next(NextToken::HeadingEnd)),
            _ => {
                let n = b.len();
                let r = if h == 13u8 && nx == Some(10u8) {
                    &b[2..n]
                } else {
                    &b[1..n]
                };
                proof {
                    assert(r@ =~= after_break(b@));
                }
                line_stop_exec(r, st)
            },
        }
    } else {
        None
    }
}

/// Whether the inline scanner of `s` fails: where it first stops or fails, a table check
/// fails.
pub open spec fn inline_fails_on(s: Seq<char>, st: TokenizerState, in_link: bool, inline_only: bool) -> bool {
    let k = first_index(inline_hit(s, st, in_link, inline_only), 0, s.len() as int);
    k < s.len() && inline_stop_panics(s.skip(k), st, inline_only)
}

/// Whether `top` fails on the text `s`: after its white space, a table check of an empty
/// second line.
pub open spec fn top_fails_on(s: Seq<char>) -> bool {
    let t = s.skip(leading(s, indent_p()) as int);
    t.len() > 0 && encode_utf8(t)[0] == 124u8 && table_panics(encode_utf8(t))
}

/// The dispatch on the state never fails at the end of the text.
proof fn lemma_empty_dispatch_ok<P: SourcePos>(w: TokView<P>)
    requires
        w.cur.rest.len() == 0,
    ensures
        !dispatch_panics(w),
{
    assert(w.cur.rest.skip(0).len() == 0);
    lemma_inline_k_bounds(w);
}

/// `inline` fails only where its scanner first stops, on a table check.
proof fn lemma_inline_panics_eq<P: SourcePos>(v: TokView<P>)
    ensures
        inline_panics(v) == inline_fails_on(v.cur.rest, v.state, v.in_link, v.inline_only),
{
    let k = inline_k(v);
    lemma_inline_k_bounds(v);
    lemma_inline_stop_kind(v);
    if k == 0 && inline_why(v) is Some && inline_why(v)->0 is Next {
        let w = inline_after(v);
        let c1 = w.cur.pop();
        if w.next == Some(NextV::Escape) && c1.rest.len() == 0 {
            lemma_empty_dispatch_ok(TokView { cur: c1, next: None, ..w });
        }
    }
}

/// `next` fails only in the dispatch on the state, and never at an escape.
proof fn lemma_next_panics_eq<P: SourcePos>(v: TokView<P>)
    ensures
        next_panics(v) == ((v.next is None || v.next == Some(NextV::TableStart)) && dispatch_panics(
            TokView { next: None, ..v },
        )),
{
    let v0 = TokView { next: None, ..v };
    if v.next == Some(NextV::Escape) {
        let c1 = v.cur.pop();
        if c1.rest.len() == 0 {
            lemma_empty_dispatch_ok(TokView { cur: c1, ..v0 });
        }
    }
}

/// A text with front matter does not fail `top`: it starts with a fence, not a `|`.
proof fn lemma_frontmatter_not_top_panics<P: SourcePos>(v: TokView<P>)
    requires
        frontmatter_spec(v.cur) is Some,
    ensures
        !top_panics(v),
{
    let s = v.cur.rest;
    let k = leading(s, indent_p()) as int;
    crate::text::lemma_leading(s, indent_p());
    let c = trim_indent_spec(v.cur).0;
    if top_panics(v) {
        assert(c.rest == s.skip(k));
        crate::text::lemma_first_byte_is(c.rest, 124u8);
        crate::text::lemma_char_code(c.rest[0], '|');
        assert(s[k] == '|');
        assert forall|j: int| 0 <= j < k implies #[trigger] crate::text::ws()(s[j]) by {
            assert(indent_char(s[j]));
        }
        crate::text::lemma_leading_unique(s, crate::text::ws(), k);
        let t = crate::text::trimmed_start(s);
        assert(t[0] == '|');
        assert(!seq!['+', '+', '+'].is_prefix_of(t));
        assert(!seq!['-', '-', '-'].is_prefix_of(t));
    }
}

/// Whether checking the line after a line break (`r`, its bytes) fails on a table check.
fn line_stop_fails(r: &[u8]) -> (res: bool)
    ensures
        res == line_stop_panics(r@),
{
    let n = r.len();
    let mut j: usize = 0;
    while j < n && (r[j] == 32u8 || r[j] == 9u8)
        invariant
            j <= n == r@.len(),
            forall|i: int| 0 <= i < j ==> blank_byte(#[trigger] r@[i]),
        decreases n - j,
    {
        j = j + 1;
    }
    proof {
        assert forall|i: int| 0 <= i < j implies !#[trigger] nonblank_at(r@)(i) by {
            assert(blank_byte(r@[i]));
        }
        crate::blocks::lemma_first_index_unique(nonblank_at(r@), 0, n as int, j as int);
    }
    if j >= n || r[j] != 124u8 {
        return false;
    }
    let rr = &r[j + 1..n];
    proof {
        assert(rr@ =~= r@.skip(j + 1));
    }
    crate::blocks::table_fails(rr)
}

/// Whether the inline check in front of `src` fails on a table check.
fn stop_fails(src: &str, st: TokenizerState, inline_only: bool) -> (res: bool)
    requires
        src@.len() > 0,
    ensures
        res == inline_stop_panics(src@, st, inline_only),
{
    let b = src.as_bytes();
    proof {
        crate::text::lemma_first_byte(src@);
    }
    let h = b[0];
    if !(h == 13u8 || h == 10u8) || inline_only {
        return false;
    }
    match st {
        TokenizerState::Heading => false,
        _ => {
            let n = b.len();
            let r = if h == 13u8 && n > 1 && b[1] == 10u8 {
                &b[2..n]
            } else {
                &b[1..n]
            };
            proof {
                assert(r@ =~= after_break(b@));
            }
            line_stop_fails(r)
        },
    }
}

/// Whether the inline scanner of `all` fails on a table check.
fn inline_fails(all: &str, st: TokenizerState, in_link: bool, inline_only: bool) -> (res: bool)
    ensures
        res == inline_fails_on(all@, st, in_link, inline_only),
{
    let ghost s = all@;
    let ghost q = inline_hit(s, st, in_link, inline_only);
    let mut rest = all;
    let ghost mut k: int = 0;
    assert(s.skip(0) =~= s);
    loop
        invariant
            0 <= k <= s.len(),
            all@ == s,
            rest@ == s.skip(k),
            forall|j: int| 0 <= j < k ==> !#[trigger] q(j),
            q == inline_hit(s, st, in_link, inline_only),
        decreases s.len() - k,
    {
        if rest.is_empty() {
            proof {
                crate::blocks::lemma_first_index_unique(q, 0, s.len() as int, k);
            }
            return false;
        }
        if stop_fails(rest, st, inline_only) {
            proof {
                assert(q(k));
                crate::blocks::lemma_first_index_unique(q, 0, s.len() as int, k);
            }
            return true;
        }
        let found = check_stop(rest, st, in_link, inline_only);
        if found.is_some() {
            proof {
                assert(q(k));
                crate::blocks::lemma_first_index_unique(q, 0, s.len() as int, k);
            }
            return false;
        }
        proof {
            assert(!q(k));
        }
        let (_, r2) = crate::text::split_first_char(rest);
        proof {
            assert(r2@ =~= s.skip(k + 1));
            k = k + 1;
        }
        rest = r2;
    }
}

/// Whether `top` fails on the text `all`: after its white space, a table check of an
/// empty second line.
fn top_fails(all: &str) -> (res: bool)
    ensures
        res == top_fails_on(all@),
{
    let ghost s = all@;
    let mut rest = all;
    let ghost mut k: int = 0;
    assert(s.skip(0) =~= s);
    loop
        invariant
            0 <= k <= s.len(),
            all@ == s,
            rest@ == s.skip(k),
            forall|j: int| 0 <= j < k ==> indent_char(#[trigger] s[j]),
        ensures
            0 <= k <= s.len(),
            rest@ == s.skip(k),
            forall|j: int| 0 <= j < k ==> indent_char(#[trigger] s[j]),
            k < s.len() ==> !indent_char(s[k]),
        decreases s.len() - k,
    {
        let h = match crate::text::first_char(rest) {
            Some(h) => h,
            None => break,
        };
        if !(h == ' ' || h == '\t' || h == '\r' || h == '\n') {
            break;
        }
        let (_, r2) = crate::text::split_first_char(rest);
        proof {
            assert(r2@ =~= s.skip(k + 1));
            k = k + 1;
        }
        rest = r2;
    }
    proof {
        crate::text::lemma_leading_unique(s, indent_p(), k);
    }
    let b = rest.as_bytes();
    if b.len() == 0 {
        proof {
            if rest@.len() > 0 {
                crate::text::lemma_first_byte(rest@);
            }
        }
        return false;
    }
    proof {
        crate::text::lemma_first_byte(rest@);
        assert(rest@.len() > 0);
    }
    b[0] == 124u8 && crate::blocks::table_fails(b)
}

impl<'a, Pos: SourcePos + 'a> MarkdownTokenizer<'a, Pos> {
    /// The tokenizer as values.
    pub closed spec fn view(&self) -> TokView<Pos> {
        TokView {
            cur: cur(self.source),
            state: self.state,
            next: match self.next {
                Some(n) => Some(n.view()),
                None => None,
            },
            in_link: self.in_link,
            inline_only: self.inline_only,
        }
    }

    /// The fields other than the cursor and the state are those of `old`.
    pub closed spec fn same_flags(&self, old: &Self) -> bool {
        &&& self.next == old.next
        &&& self.in_link == old.in_link
        &&& self.inline_only == old.inline_only
    }

    /// A tokenizer for a whole document, which may open with front matter.
    pub fn new(source: &'a str) -> (r: Self)
        ensures
            r.view() == start_view::<Pos>(source@, TokenizerState::Start, false),
            tokenizer_wf(r.view()),
    {
        Self {
            source: ParseStr::new(source),
            state: TokenizerState::Start,
            next: None,
            in_link: false,
            inline_only: false,
        }
    }

    /// A tokenizer for inline text only: no blocks, and a line break ends nothing.
    pub fn new_inline(source: &'a str) -> (r: Self)
        ensures
            r.view() == start_view::<Pos>(source@, TokenizerState::Inline, true),
            tokenizer_wf(r.view()),
    {
        Self {
            source: ParseStr::new(source),
            state: TokenizerState::Inline,
            next: None,
            in_link: false,
            inline_only: true,
        }
    }

    fn trim_indent(&mut self) -> (r: u8)
        ensures
            (final(self).view().cur, r) == trim_indent_spec(old(self).view().cur),
            final(self).state == old(self).state,
            final(self).same_flags(old(self)),
    {
        let ghost c0 = cur(self.source);
        let ghost mut k: int = 0;
        let mut curr: u8 = 0;
        assert(c0.rest.skip(0) =~= c0.rest);
        assert(c0.rest.take(0) =~= Seq::<char>::empty());
        loop
            invariant
                0 <= k <= c0.rest.len(),
                cur(self.source) == c0.pops(k),
                forall|j: int| 0 <= j < k ==> indent_char(#[trigger] c0.rest[j]),
                crate::strings::pop_boundary(c0.rest, k),
                curr == indent_of(c0.rest.take(k)),
                self.state == old(self).state,
                self.same_flags(old(self)),
            ensures
                0 <= k <= c0.rest.len(),
                cur(self.source) == c0.pops(k),
                forall|j: int| 0 <= j < k ==> indent_char(#[trigger] c0.rest[j]),
                k < c0.rest.len() ==> !indent_char(c0.rest[k]),
                curr == indent_of(c0.rest.take(k)),
                self.state == old(self).state,
                self.same_flags(old(self)),
            decreases c0.rest.len() - k,
        {
            let h = match self.source.peek_head() {
                Some(h) => h,
                None => break,
            };
            proof {
                assert(c0.rest.skip(k)[0] == c0.rest[k]);
            }
            if h == ' ' {
                curr = curr.wrapping_add(1);
            } else if h == '\t' {
                curr = curr.wrapping_add(4);
            } else if h == '\r' || h == '\n' {
                curr = 0;
            } else {
                break;
            }
            proof {
                crate::strings::lemma_pops_step(c0.pos, c0.rest, k);
                let n = head_len(c0.rest.skip(k));
                assert(c0.rest.skip(k).skip(n) =~= c0.rest.skip(k + n));
                assert(c0.rest.take(k + 1).drop_last() =~= c0.rest.take(k));
                if n == 2 {
                    assert(c0.rest[k + 1] == '\n');
                    assert(c0.rest.take(k + 2).drop_last() =~= c0.rest.take(k + 1));
                }
            }
            let _ = pop(&mut self.source);
            proof {
                k = k + head_len(c0.rest.skip(k));
            }
        }
        proof {
            crate::text::lemma_leading_unique(c0.rest, indent_p(), k);
        }
        curr
    }

    fn heading(&mut self, start: Pos) -> (r: MarkdownToken<'a, Pos>)
        ensures
            (final(self).view().cur, r.view()) == heading_spec(old(self).view().cur, start),
            final(self).state == TokenizerState::Heading,
            final(self).same_flags(old(self)),
    {
        let hashes = read_while_char(&mut self.source, '#');
        let f = |x: char| -> (b: bool)
            ensures
                b == space_tab(x),
            { x == ' ' || x == '\t' };
        let _ = read_while_by(&mut self.source, f, Ghost(space_tab_p()));
        self.state = TokenizerState::Heading;
        let num = crate::text::str_byte_len(hashes);
        proof {
            let c0 = old(self).view().cur;
            let k = leading(c0.rest, eq_char('#'));
            crate::text::lemma_leading(c0.rest, eq_char('#'));
            assert forall|j: int| 0 <= j < k implies (#[trigger] hashes@[j] as u32) < 0x80 by {
                assert(hashes@[j] == c0.rest[j]);
            }
            lemma_ascii_prefix_bytes(hashes@, k as int);
            assert(hashes@.take(k as int) =~= hashes@);
        }
        MarkdownToken::Heading(
            num as u8,
            SourceRange { start, end: self.source.curr_pos() },
        )
    }

    fn start_block_quote(&mut self, start: Pos) -> (r: MarkdownToken<'a, Pos>)
        ensures
            final(self).view().cur == old(self).view().cur.pop().pop(),
            r.view() == TokenV::BlockQuoteStart(start),
            final(self).state == TokenizerState::InBlockQuote,
            final(self).same_flags(old(self)),
    {
        let _ = pop(&mut self.source);
        let _ = pop(&mut self.source);
        self.state = TokenizerState::InBlockQuote;
        MarkdownToken::BlockQuoteStart(start)
    }

    fn thematic_break(&mut self, ch: char, start: Pos) -> (r: MarkdownToken<'a, Pos>)
        ensures
            (final(self).view().cur, r.view()) == thematic_break_spec(old(self).view().cur, ch, start),
            final(self).state == TokenizerState::Top,
            final(self).same_flags(old(self)),
    {
        let _ = read_while_char(&mut self.source, ch);
        let end = self.source.curr_pos();
        self.state = TokenizerState::Top;
        MarkdownToken::ThematicBreak(SourceRange { start, end })
    }

    fn start_definition(&mut self, start: Pos) -> (r: MarkdownToken<'a, Pos>)
        ensures
            (final(self).view().cur, r.view()) == start_definition_spec(old(self).view().cur, start),
            final(self).state == TokenizerState::InDefinition,
            final(self).same_flags(old(self)),
    {
        let _ = pop(&mut self.source);
        let is_footnote = starts(&mut self.source, '^') && {
            let _ = pop(&mut self.source);
            true
        };
        let lbl = crate::text::trim(read_until_str_c(&mut self.source, "]:"));
        proof {
            reveal_strlit("]:");
            assert("]:"@ =~= seq![']', ':']);
        }
        let range = SourceRange { start, end: self.source.curr_pos() };
        self.state = TokenizerState::InDefinition;
        if is_footnote {
            MarkdownToken::FootnoteDefinition(lbl, range)
        } else {
            MarkdownToken::Definition(lbl, range)
        }
    }

    fn block_math(&mut self, start: Pos) -> (r: MarkdownToken<'a, Pos>)
        ensures
            (final(self).view().cur, r.view()) == block_math_spec(old(self).view().cur, start),
            final(self).state == old(self).state,
            final(self).same_flags(old(self)),
    {
        let _ = pop(&mut self.source);
        let _ = pop(&mut self.source);
        let math = read_until_str_c(&mut self.source, "$$");
        proof {
            reveal_strlit("$$");
            assert("$$"@ =~= seq!['$', '$']);
        }
        if starts_str(&self.source, "$$") {
            let _ = pop(&mut self.source);
            let _ = pop(&mut self.source);
        }
        let end = self.source.curr_pos();
        MarkdownToken::BlockMath(math, SourceRange { start, end })
    }

    fn block_code(&mut self, start: Pos) -> (r: MarkdownToken<'a, Pos>)
        ensures
            (final(self).view().cur, r.view()) == block_code_spec(old(self).view().cur, start),
            final(self).state == old(self).state,
            final(self).same_flags(old(self)),
    {
        let _ = pop(&mut self.source);
        let _ = pop(&mut self.source);
        let _ = pop(&mut self.source);
        let (language, _) = line_c(&mut self.source);
        let code = read_until_str_c(&mut self.source, "```");
        proof {
            reveal_strlit("```");
            assert("```"@ =~= seq!['`', '`', '`']);
        }
        if starts_str(&self.source, "```") {
            let _ = pop(&mut self.source);
            let _ = pop(&mut self.source);
            let _ = pop(&mut self.source);
        }
        let end = self.source.curr_pos();
        MarkdownToken::BlockCode { language, code, range: SourceRange { start, end } }
    }

    fn custom_block(&mut self, start: Pos) -> (r: MarkdownToken<'a, Pos>)
        ensures
            (final(self).view().cur, r.view()) == custom_block_spec(old(self).view().cur, start),
            final(self).state == old(self).state,
            final(self).same_flags(old(self)),
    {
        let f = |x: char| -> (b: bool)
            ensures
                b == (x != ':'),
            { x != ':' };
        let colons = read_until_by(&mut self.source, f, Ghost(ne_char(':')));
        let indent = crate::text::str_byte_len(colons);
        proof {
            let c0 = old(self).view().cur;
            let k = leading(c0.rest, negate(ne_char(':')));
            crate::text::lemma_leading(c0.rest, negate(ne_char(':')));
            assert forall|j: int| 0 <= j < k implies (#[trigger] colons@[j] as u32) < 0x80 by {
                assert(colons@[j] == c0.rest[j]);
                assert(negate(ne_char(':'))(c0.rest[j]));
            }
            lemma_ascii_prefix_bytes(colons@, k as int);
            assert(colons@.take(k as int) =~= colons@);
        }
        self.skip_space();
        let g = |x: char| -> (b: bool)
            ensures
                b == indent_char(x),
            { x == '\r' || x == '\n' || x == ' ' || x == '\t' };
        let label = crate::text::trim(read_until_by(&mut self.source, g, Ghost(indent_p())));
        let (args, _) = line_c(&mut self.source);
        if label.is_empty() {
            MarkdownToken::CustomBlockEnd(indent as u8, start)
        } else {
            MarkdownToken::CustomBlockStart {
                label,
                args: crate::text::trim(args),
                colons: indent as u8,
                range: SourceRange { start, end: self.source.curr_pos() },
            }
        }
    }

    fn strong_emph(&mut self) -> (r: MarkdownToken<'a, Pos>)
        requires
            old(self).view().cur.rest.len() > 0,
            ({
                let h = old(self).view().cur.rest[0];
                h == '*' || h == '_' || h == '^' || h == '~'
            }),
        ensures
            (final(self).view().cur, r.view()) == strong_emph_spec(old(self).view().cur),
            final(self).state == old(self).state,
            final(self).same_flags(old(self)),
    {
        let start = self.source.curr_pos();
        let head = match self.source.peek_head() {
            Some(h) => h,
            None => ' ',
        };
        skip_ascii(&mut self.source, 1);
        let double = starts(&mut self.source, head) && {
            skip_ascii(&mut self.source, 1);
            true
        };
        let h = head as u8;
        if (head == '*' || head == '_') && double {
            MarkdownToken::Strong(h, start)
        } else if head == '~' && double {
            MarkdownToken::StrikeThrough(start)
        } else if head == '~' {
            MarkdownToken::Subscript(start)
        } else if head == '^' {
            MarkdownToken::Superscript(start)
        } else {
            MarkdownToken::Emph(h, start)
        }
    }

    fn highlight(&mut self) -> (r: MarkdownToken<'a, Pos>)
        requires
            seq!['=', '='].is_prefix_of(old(self).view().cur.rest),
        ensures
            (final(self).view().cur, r.view()) == highlight_spec(old(self).view().cur),
            final(self).state == old(self).state,
            final(self).same_flags(old(self)),
    {
        let start = self.source.curr_pos();
        proof {
            assert(old(self).view().cur.rest[0] == '=');
            assert(old(self).view().cur.rest[1] == '=');
        }
        skip_ascii(&mut self.source, 2);
        MarkdownToken::Highlight(start)
    }

    /// Reads a front matter block (`+++` or `---` fenced) when the text, after white
    /// space, starts with one.
    pub fn frontmatter(&mut self) -> (r: Option<MarkdownToken<'a, Pos>>)
        ensures
            (final(self).view(), opt_view(r)) == frontmatter_step(old(self).view()),
            final(self).same_flags(old(self)),
    {
        let t = crate::text::trim_start(self.source.rest());
        proof {
            reveal_strlit("+++");
            reveal_strlit("---");
            assert("+++"@ =~= seq!['+', '+', '+']);
            assert("---"@ =~= seq!['-', '-', '-']);
        }
        let (fence, fence_char) = if crate::text::str_starts_with(t, "+++") {
            ("+++", '+')
        } else if crate::text::str_starts_with(t, "---") {
            ("---", '-')
        } else {
            return None;
        };
        trim_start_c(&mut self.source);
        let start = self.source.curr_pos();
        let _ = read_while_char(&mut self.source, fence_char);
        trim_start_c(&mut self.source);
        let ghost s = self.source.remaining();
        let f = |x: &'a str| -> (b: bool)
            ensures
                b == fence@.is_prefix_of(x@),
            { crate::text::str_starts_with(x, fence) };
        let fm = self.source.read_until_is(f);
        proof {
            let q = prefix_at(s, fence@);
            assert forall|j: int| 0 <= j < fm@.len() implies !#[trigger] q(j) by {
                assert(s.skip(j) == s.skip(j));
                let w = choose|w: &'a str| w@ == s.skip(j) && call_ensures(f, (w,), false);
            }
            if fm@.len() < s.len() {
                let w = choose|w: &'a str| w@ == s.skip(fm@.len() as int) && call_ensures(f, (w,), true);
            }
            crate::blocks::lemma_first_index_unique(q, 0, s.len() as int, fm@.len() as int);
        }
        let _ = read_while_char(&mut self.source, fence_char);
        let range = SourceRange { start, end: self.source.curr_pos() };
        Some(MarkdownToken::FrontMatter(fm, range))
    }

    fn top(&mut self) -> (r: Option<MarkdownToken<'a, Pos>>)
        requires
            !top_panics(old(self).view()),
            old(self).next is None,
            old(self).state == TokenizerState::Top,
        ensures
            (final(self).view(), opt_view(r)) == top_spec(old(self).view()),
            tokenizer_wf(final(self).view()),
            final(self).in_link == old(self).in_link,
            final(self).inline_only == old(self).inline_only,
            final(self).next is None || final(self).next matches Some(NextToken::TableStart),
    {
        let indent = self.trim_indent();
        let rest = self.source.rest();
        if rest.is_empty() {
            return None;
        }
        let b = rest.as_bytes();
        proof {
            crate::text::lemma_first_byte(rest@);
        }
        let next = b[0];
        let b1: Option<u8> = if b.len() > 1 {
            Some(b[1])
        } else {
            None
        };
        let start = self.source.curr_pos();
        proof {
            reveal_strlit("___");
            reveal_strlit("---");
            reveal_strlit("***");
            reveal_strlit("$$");
            reveal_strlit("```");
            assert("___"@ =~= seq!['_', '_', '_']);
            assert("---"@ =~= seq!['-', '-', '-']);
            assert("***"@ =~= seq!['*', '*', '*']);
            assert("$$"@ =~= seq!['$', '$']);
            assert("```"@ =~= seq!['`', '`', '`']);
            assert(b1 == second(b@));
        }
        let sp = b1 == Some(32u8) || b1 == Some(9u8);
        if next == 62u8 && sp {
            Some(self.start_block_quote(start))
        } else if next == 95u8 && starts_str(&self.source, "___") {
            Some(self.thematic_break('_', start))
        } else if next == 45u8 && starts_str(&self.source, "---") {
            Some(self.thematic_break('-', start))
        } else if next == 42u8 && starts_str(&self.source, "***") {
            Some(self.thematic_break('*', start))
        } else if next == 36u8 && starts_str(&self.source, "$$") {
            Some(self.block_math(start))
        } else if (next == 42u8 || next == 45u8) && sp {
            self.state = TokenizerState::InUnnumberedList;
            let _ = pop(&mut self.source);
            self.skip_space();
            Some(MarkdownToken::UnnumberedListItem(indent, start))
        } else if 48u8 <= next && next <= 57u8 && is_numbered_list(b) {
            self.state = TokenizerState::InNumberedList;
            self.pop_digits();
            self.skip_space();
            Some(MarkdownToken::NumberedListItem(indent, start))
        } else if next == 35u8 {
            Some(self.heading(start))
        } else if next == 124u8 && is_table(b) {
            self.next = Some(NextToken::TableStart);
            Some(MarkdownToken::TableStart(start))
        } else if next == 96u8 && starts_str(&self.source, "```") {
            Some(self.block_code(start))
        } else if next == 58u8 && b1 == Some(58u8) {
            Some(self.custom_block(start))
        } else {
            self.state = TokenizerState::Inline;
            Some(MarkdownToken::ParagraphStart(start))
        }
    }

    fn pop_digits(&mut self)
        ensures
            final(self).view().cur == pop_digits(old(self).view().cur),
            final(self).state == old(self).state,
            final(self).same_flags(old(self)),
    {
        loop
            invariant_except_break
                pop_digits(cur(self.source)) == pop_digits(old(self).view().cur),
            invariant
                self.state == old(self).state,
                self.same_flags(old(self)),
            ensures
                cur(self.source) == pop_digits(old(self).view().cur),
                self.state == old(self).state,
                self.same_flags(old(self)),
            decreases self.source.remaining().len(),
        {
            let ghost c = cur(self.source);
            let h = pop(&mut self.source);
            proof {
                if c.rest.len() == 0 {
                    assert(c.rest.skip(0) =~= c.rest);
                }
            }
            match h {
                Some(d) => {
                    if !('0' <= d && d <= '9') {
                        break;
                    }
                },
                None => {
                    break;
                },
            }
        }
    }

    fn inline(&mut self) -> (r: Option<MarkdownToken<'a, Pos>>)
        requires
            old(self).next is None,
            !inline_panics(old(self).view()),
        ensures
            (final(self).view(), opt_view(r)) == inline_spec(old(self).view()),
            tokenizer_wf(final(self).view()),
        decreases 3 * old(self).view().cur.rest.len() + 1, 0int,
    {
        let ghost v = self.view();
        let ghost s = v.cur.rest;
        let ghost q = inline_hit(s, v.state, v.in_link, v.inline_only);
        let start = self.source.curr_pos();
        let st = self.state;
        let in_link = self.in_link;
        let inline_only = self.inline_only;
        let all = self.source.rest();
        let n = crate::text::str_byte_len(all);
        let mut rest = all;
        let mut i: usize = 0;
        let ghost mut k: int = 0;
        let mut stop: Option<InlineStop> = None;
        proof {
            crate::blocks::lemma_first_index(q, 0, s.len() as int);
        }
        loop
            invariant_except_break
                stop is None,
            invariant
                0 <= k <= s.len(),
                all@ == s,
                rest@ == s.skip(k),
                i == crate::text::byte_len(s.take(k)),
                n == crate::text::byte_len(s),
                forall|j: int| 0 <= j < k ==> !#[trigger] q(j),
                q == inline_hit(s, st, in_link, inline_only),
                k <= first_index(q, 0, s.len() as int) <= s.len(),
                first_index(q, 0, s.len() as int) < s.len() ==> q(first_index(q, 0, s.len() as int)),
                forall|j: int| 0 <= j < first_index(q, 0, s.len() as int) ==> !#[trigger] q(j),
                !(first_index(q, 0, s.len() as int) < s.len() && inline_stop_panics(
                    s.skip(first_index(q, 0, s.len() as int)),
                    st,
                    inline_only,
                )),
            ensures
                k == first_index(q, 0, s.len() as int),
                k < s.len() ==> (stop matches Some(x) && inline_stop(s.skip(k), st, in_link, inline_only)
                    == Some(x.view())),
                k == s.len() ==> stop is None,
            decreases s.len() - k,
        {
            if rest.is_empty() {
                proof {
                    crate::blocks::lemma_first_index_unique(q, 0, s.len() as int, k);
                }
                break;
            }
            proof {
                if k == first_index(q, 0, s.len() as int) {
                    assert(!inline_stop_panics(s.skip(k), st, inline_only));
                } else {
                    assert(!q(k));
                }
            }
            let found = check_stop(rest, st, in_link, inline_only);
            if found.is_some() {
                stop = found;
                proof {
                    assert(q(k));
                    crate::blocks::lemma_first_index_unique(q, 0, s.len() as int, k);
                }
                break;
            }
            proof {
                assert(!q(k));
            }
            let (c, r2) = crate::text::split_first_char(rest);
            proof {
                crate::text::lemma_byte_len_push(s, k);
                crate::text::lemma_byte_len_take(s, k + 1);
                assert(r2@ =~= s.skip(k + 1));
            }
            i = i + crate::text::char_len_utf8(c);
            rest = r2;
            proof {
                k = k + 1;
            }
        }
        let (txt, _) = crate::text::split_at_chars(all, i, Ghost(k));
        proof {
            assert(self.source.is_boundary(i as int));
            let kk = self.source.chars_in(i as int);
            if kk < k {
                crate::text::lemma_byte_len_monotone(s, kk, k);
            } else if kk > k {
                crate::text::lemma_byte_len_monotone(s, k, kk);
            }
        }
        self.source.skip(i);
        proof {
            assert(k == inline_k(v));
        }
        match stop {
            Some(InlineStop::Next(nt)) => {
                self.next = Some(nt);
            },
            Some(InlineStop::Top) => {
                self.state = TokenizerState::Top;
            },
            None => {},
        }
        proof {
            assert(self.view() == inline_after(v));
            if k < s.len() {
                lemma_stop_wf(s.skip(k), st, in_link, inline_only);
            }
        }
        if !txt.is_empty() {
            Some(MarkdownToken::Text(txt, SourceRange { start, end: self.source.curr_pos() }))
        } else if self.next.is_some() {
            proof {
                lemma_inline_k_bounds(v);
                lemma_inline_stop_kind(v);
            }
            self.next()
        } else {
            None
        }
    }

    fn dispatch(&mut self) -> (r: Option<MarkdownToken<'a, Pos>>)
        requires
            old(self).next is None,
            !dispatch_panics(old(self).view()),
        ensures
            (final(self).view(), opt_view(r)) == dispatch_spec(old(self).view()),
            tokenizer_wf(final(self).view()),
        decreases 3 * old(self).view().cur.rest.len() + 2, 0int,
    {
        match self.state {
            TokenizerState::Start => self.start(),
            TokenizerState::Top => self.top(),
            _ => self.inline(),
        }
    }

    fn start(&mut self) -> (r: Option<MarkdownToken<'a, Pos>>)
        requires
            old(self).next is None,
            old(self).state == TokenizerState::Start,
            !dispatch_panics(old(self).view()),
        ensures
            (final(self).view(), opt_view(r)) == dispatch_spec(old(self).view()),
            tokenizer_wf(final(self).view()),
    {
        let fm = self.frontmatter();
        if fm.is_some() {
            return fm;
        }
        self.state = TokenizerState::Top;
        self.top()
    }

    /// Whether the next call of `next` would fail: on a table check of an empty second
    /// line.
    pub fn next_fails(&self) -> (r: bool)
        ensures
            r == next_panics(self.view()),
    {
        let ghost v = self.view();
        let ghost v0 = TokView { next: None, ..v };
        proof {
            lemma_next_panics_eq(v);
            lemma_inline_panics_eq(v0);
            if frontmatter_spec(v.cur) is Some {
                lemma_frontmatter_not_top_panics(v0);
            }
        }
        let waiting = match &self.next {
            None => true,
            Some(NextToken::TableStart) => true,
            _ => false,
        };
        if !waiting {
            return false;
        }
        let rest = self.source.rest();
        match self.state {
            TokenizerState::Start => top_fails(rest),
            TokenizerState::Top => top_fails(rest),
            _ => inline_fails(rest, self.state, self.in_link, self.inline_only),
        }
    }

    /// The next token. A tokenizer whose text makes a table check read an empty second
    /// line fails there, so such a call is excluded.
    #[verifier::spinoff_prover]
    #[verifier::rlimit(40)]
    pub fn next(&mut self) -> (r: Option<MarkdownToken<'a, Pos>>)
        requires
            tokenizer_wf(old(self).view()),
            !next_panics(old(self).view()),
        ensures
            (final(self).view(), opt_view(r)) == next_spec(old(self).view()),
            tokenizer_wf(final(self).view()),
        decreases next_measure(old(self).view()), 1int,
    {
        let ghost v = self.view();
        match self.next.take() {
            Some(NextToken::HeadingEnd) => {
                self.state = TokenizerState::Top;
                return Some(MarkdownToken::HeadingEnd(self.source.curr_pos()));
            },
            Some(NextToken::StrongEmph) => {
                return Some(self.strong_emph());
            },
            Some(NextToken::Highlight) => {
                return Some(self.highlight());
            },
            Some(NextToken::Escape) => {
                let _ = pop(&mut self.source);
                let ghost c1 = cur(self.source);
                if let Some(next) = pop(&mut self.source) {
                    return Some(MarkdownToken::Escaped(next, self.source.curr_pos()));
                }
                proof {
                    assert(c1.rest.len() == 0);
                    assert(c1.rest.skip(0) =~= c1.rest);
                    assert(cur(self.source) == c1);
                }
            },
            Some(NextToken::EndParagraph) => {
                self.state = TokenizerState::Top;
                return Some(MarkdownToken::ParagraphEnd(self.source.curr_pos()));
            },
            Some(NextToken::Math) => {
                return Some(self.inline_math());
            },
            Some(NextToken::InlineCode) => {
                return Some(self.inline_code());
            },
            Some(NextToken::BlockCode) => {
                self.state = TokenizerState::Top;
                let start = self.source.curr_pos();
                return Some(self.block_code(start));
            },
            Some(NextToken::Link(url)) => {
                self.in_link = true;
                let start = self.source.curr_pos();
                let _ = pop(&mut self.source);
                return Some(MarkdownToken::LinkStart(url, start));
            },
            Some(NextToken::LinkEnd) => {
                self.in_link = false;
                return Some(self.link_end());
            },
            Some(NextToken::InlineCustom) => {
                return Some(self.inline_custom());
            },
            Some(NextToken::TableStart) => {},
            None => {},
        }
        self.dispatch()
    }

    fn inline_math(&mut self) -> (r: MarkdownToken<'a, Pos>)
        ensures
            (final(self).view().cur, r.view()) == inline_math_spec(old(self).view().cur),
            final(self).state == old(self).state,
            final(self).same_flags(old(self)),
    {
        let start = self.source.curr_pos();
        let _ = pop(&mut self.source);
        let math = brackets_c(&mut self.source, '{', '}', '$');
        if starts(&mut self.source, '$') {
            let _ = pop(&mut self.source);
        }
        MarkdownToken::InlineMath(math, SourceRange { start, end: self.source.curr_pos() })
    }

    fn inline_code(&mut self) -> (r: MarkdownToken<'a, Pos>)
        ensures
            (final(self).view().cur, r.view()) == inline_code_spec(old(self).view().cur),
            final(self).state == old(self).state,
            final(self).same_flags(old(self)),
    {
        let start = self.source.curr_pos();
        let _ = pop(&mut self.source);
        let code = escaped_c(&mut self.source, '`', '\\');
        if starts(&mut self.source, '`') {
            let _ = pop(&mut self.source);
        }
        MarkdownToken::InlineCode(code, SourceRange { start, end: self.source.curr_pos() })
    }

    fn link_end(&mut self) -> (r: MarkdownToken<'a, Pos>)
        ensures
            (final(self).view().cur, r.view()) == link_end_spec(old(self).view().cur),
            final(self).state == old(self).state,
            final(self).same_flags(old(self)),
    {
        let _ = pop(&mut self.source);
        let _ = pop(&mut self.source);
        let _ = brackets_c(&mut self.source, '(', ')', ')');
        if starts(&mut self.source, ')') {
            let _ = pop(&mut self.source);
        }
        MarkdownToken::LinkOrCustomEnd(self.source.curr_pos())
    }

    fn inline_custom(&mut self) -> (r: MarkdownToken<'a, Pos>)
        ensures
            (final(self).view().cur, r.view()) == inline_custom_spec(old(self).view().cur),
            final(self).state == old(self).state,
            final(self).same_flags(old(self)),
    {
        let start = self.source.curr_pos();
        let _ = pop(&mut self.source);
        let _ = pop(&mut self.source);
        let f = |x: char| -> (b: bool)
            ensures
                b == (x == ']'),
            { x == ']' };
        let label = crate::text::trim(read_until_by(&mut self.source, f, Ghost(eq_char(']'))));
        let _ = pop(&mut self.source);
        let _ = pop(&mut self.source);
        let args = brackets_c(&mut self.source, '(', ')', ')');
        if starts(&mut self.source, ')') {
            let _ = pop(&mut self.source);
        }
        let range = SourceRange { start, end: self.source.curr_pos() };
        MarkdownToken::InlineCustom { label, args, range }
    }

    fn skip_space(&mut self)
        ensures
            final(self).view().cur == skip_space_spec(old(self).view().cur),
            final(self).state == old(self).state,
            final(self).same_flags(old(self)),
    {
        let ghost c0 = cur(self.source);
        let ghost mut k: int = 0;
        assert(c0.rest.skip(0) =~= c0.rest);
        assert(c0.rest.take(0) =~= Seq::<char>::empty());
        loop
            invariant
                0 <= k <= c0.rest.len(),
                cur(self.source) == c0.pops(k),
                forall|j: int| 0 <= j < k ==> space_tab(#[trigger] c0.rest[j]),
                crate::strings::pop_boundary(c0.rest, k),
                self.state == old(self).state,
                self.same_flags(old(self)),
            ensures
                0 <= k <= c0.rest.len(),
                cur(self.source) == c0.pops(k),
                forall|j: int| 0 <= j < k ==> space_tab(#[trigger] c0.rest[j]),
                k < c0.rest.len() ==> !space_tab(c0.rest[k]),
                self.state == old(self).state,
                self.same_flags(old(self)),
            decreases c0.rest.len() - k,
        {
            if !(starts(&mut self.source, ' ') || starts(&mut self.source, '\t')) {
                break;
            }
            proof {
                assert(c0.rest.skip(k)[0] == c0.rest[k]);
                crate::strings::lemma_pops_step(c0.pos, c0.rest, k);
                assert(c0.rest.skip(k).skip(1) =~= c0.rest.skip(k + 1));
            }
            let _ = pop(&mut self.source);
            proof {
                k = k + 1;
            }
        }
        proof {
            crate::text::lemma_leading_unique(c0.rest, space_tab_p(), k);
        }
    }
}

/// A doubled `*` or `_` where the emphasis scan starts is strong emphasis with that
/// marker's byte, and both markers are read.
pub proof fn law_doubled_marker_is_strong<P: SourcePos>(c: Cursor<P>)
    requires
        c.rest.len() >= 2,
        c.rest[0] == '*' || c.rest[0] == '_',
        c.rest[1] == c.rest[0],
    ensures
        strong_emph_spec(c).1 == TokenV::<P>::Strong(if c.rest[0] == '*' { 42u8 } else { 95u8 }, c.pos),
        strong_emph_spec(c).0.rest == c.rest.skip(2),
{
    let c1 = c.take(1).0;
    assert(c1.rest[0] == c.rest[1]);
    assert(c1.rest.skip(1) =~= c.rest.skip(2));
    assert(('*' as u8) == 42u8);
    assert(('_' as u8) == 95u8);
}

/// A single `*` or `_` (not followed by the same marker) where the emphasis scan
/// starts is plain emphasis with that marker's byte, and only that marker is read.
pub proof fn law_single_marker_is_emph<P: SourcePos>(c: Cursor<P>)
    requires
        c.rest.len() >= 1,
        c.rest[0] == '*' || c.rest[0] == '_',
        c.rest.len() == 1 || c.rest[1] != c.rest[0],
    ensures
        strong_emph_spec(c).1 == TokenV::<P>::Emph(if c.rest[0] == '*' { 42u8 } else { 95u8 }, c.pos),
        strong_emph_spec(c).0.rest == c.rest.skip(1),
{
    let c1 = c.take(1).0;
    if c.rest.len() > 1 {
        assert(c1.rest[0] == c.rest[1]);
    }
    assert(('*' as u8) == 42u8);
    assert(('_' as u8) == 95u8);
}

/// `~~` is a strike-through, a single `~` a subscript and `^` a superscript.
pub proof fn law_tilde_and_caret_markers<P: SourcePos>(c: Cursor<P>)
    requires
        c.rest.len() >= 1,
        c.rest[0] == '~' || c.rest[0] == '^',
    ensures
        c.rest[0] == '~' && c.rest.len() >= 2 && c.rest[1] == '~' ==> strong_emph_spec(c).1
            == TokenV::<P>::StrikeThrough(c.pos) && strong_emph_spec(c).0.rest == c.rest.skip(2),
        c.rest[0] == '~' && (c.rest.len() == 1 || c.rest[1] != '~') ==> strong_emph_spec(c).1
            == TokenV::<P>::Subscript(c.pos) && strong_emph_spec(c).0.rest == c.rest.skip(1),
        c.rest[0] == '^' ==> strong_emph_spec(c).1 == TokenV::<P>::Superscript(c.pos),
{
    let c1 = c.take(1).0;
    if c.rest.len() > 1 {
        assert(c1.rest[0] == c.rest[1]);
        assert(c1.rest.skip(1) =~= c.rest.skip(2));
    }
}

/// `t` tabs.
pub open spec fn tabs(t: nat) -> Seq<char> {
    Seq::new(t, |i: int| '\t')
}

/// `s` spaces.
pub open spec fn spaces(s: nat) -> Seq<char> {
    Seq::new(s, |i: int| ' ')
}

/// Modular steps of the indentation count.
proof fn lemma_wrap_step(a: int, n: int)
    requires
        a >= 0,
        n >= 0,
    ensures
        wrap_u8((a % 256) as u8, n) == ((a + n) % 256) as u8,
{
    vstd::arithmetic::div_mod::lemma_add_mod_noop(a, n, 256);
    vstd::arithmetic::div_mod::lemma_mod_bound(a, 256);
    vstd::arithmetic::div_mod::lemma_small_mod(n as nat % 256, 256);
    vstd::arithmetic::div_mod::lemma_mod_twice(n, 256);
}

/// `t` tabs, then `s` spaces, count four per tab and one per space.
proof fn lemma_indent_of_run(t: nat, s: nat)
    ensures
        indent_of(tabs(t) + spaces(s)) == ((4 * t + s) % 256) as u8,
    decreases t + s,
{
    let r = tabs(t) + spaces(s);
    if s > 0 {
        lemma_indent_of_run(t, (s - 1) as nat);
        assert(r.drop_last() =~= tabs(t) + spaces((s - 1) as nat));
        assert(r.last() == ' ');
        lemma_wrap_step(4 * t + s - 1, 1);
    } else if t > 0 {
        lemma_indent_of_run((t - 1) as nat, 0);
        assert(r.drop_last() =~= tabs((t - 1) as nat) + spaces(0));
        assert(r.last() == '\t');
        lemma_wrap_step(4 * (t - 1), 4);
    } else {
        assert(r =~= Seq::<char>::empty());
    }
}

/// A line indented by `t` tabs and then `s` spaces has indentation `4 * t + s`
/// (wrapping at 256), and `trim_indent` reads exactly that white space.
pub proof fn law_indent_counts_tabs_as_four<P: SourcePos>(t: nat, s: nat, rest: Seq<char>, pos: P)
    requires
        rest.len() == 0 || !indent_char(rest[0]),
    ensures
        ({
            let c = Cursor { rest: tabs(t) + spaces(s) + rest, pos };
            &&& trim_indent_spec(c).1 == ((4 * t + s) % 256) as u8
            &&& trim_indent_spec(c).0.rest == rest
        }),
{
    let w = tabs(t) + spaces(s);
    let all = w + rest;
    assert forall|j: int| 0 <= j < w.len() implies #[trigger] indent_p()(all[j]) by {
        if j < t {
            assert(all[j] == '\t');
        } else {
            assert(all[j] == ' ');
        }
    }
    if rest.len() > 0 {
        assert(all[w.len() as int] == rest[0]);
    }
    crate::text::lemma_leading_unique(all, indent_p(), w.len() as int);
    assert(all.take(w.len() as int) =~= w);
    assert(all.skip(w.len() as int) =~= rest);
    lemma_indent_of_run(t, s);
}

/// A heading line of `n` `#`s (fewer than 256), followed by anything but another `#`,
/// is a heading of level `n`.
pub proof fn law_heading_level<P: SourcePos>(n: nat, rest: Seq<char>, c: Cursor<P>, start: P)
    requires
        n < 256,
        c.rest == Seq::new(n, |i: int| '#') + rest,
        rest.len() == 0 || rest[0] != '#',
    ensures
        heading_spec(c, start).1 matches TokenV::Heading(level, _) && level == n,
{
    let all = c.rest;
    assert forall|j: int| 0 <= j < n implies #[trigger] eq_char('#')(all[j]) by {
        assert(all[j] == '#');
    }
    if rest.len() > 0 {
        assert(all[n as int] == rest[0]);
    }
    crate::text::lemma_leading_unique(all, eq_char('#'), n as int);
    assert(all.take(n as int).len() == n);
}

/// How many times `c` occurs in `s`.
pub open spec fn occurrences(s: Seq<char>, c: char) -> nat
    decreases s.len(),
{
    if s.len() == 0 {
        0
    } else {
        occurrences(s.drop_last(), c) + if s.last() == c { 1nat } else { 0nat }
    }
}

/// After a line break the indentation starts over at zero.
pub proof fn law_indent_resets_at_line_break(p: Seq<char>, br: char)
    requires
        br == '\n' || br == '\r',
    ensures
        indent_of(p.push(br)) == 0,
{
    assert(p.push(br).drop_last() =~= p);
}

/// Spaces and tabs (no line break) after `p` add one per space and four per tab to the
/// indentation of `p`, wrapping at 256, in whatever order they come.
pub proof fn law_indent_adds_blanks(p: Seq<char>, x: Seq<char>)
    requires
        forall|i: int| 0 <= i < x.len() ==> space_tab(#[trigger] x[i]),
    ensures
        indent_of(p + x) == ((indent_of(p) + occurrences(x, ' ') + 4 * occurrences(x, '\t')) % 256) as u8,
    decreases x.len(),
{
    if x.len() == 0 {
        assert(p + x =~= p);
        vstd::arithmetic::div_mod::lemma_small_mod(indent_of(p) as nat, 256);
    } else {
        let y = x.drop_last();
        law_indent_adds_blanks(p, y);
        assert((p + x).drop_last() =~= p + y);
        assert((p + x).last() == x.last());
        assert(space_tab(x[x.len() - 1]));
        let a = indent_of(p) + occurrences(y, ' ') + 4 * occurrences(y, '\t');
        if x.last() == ' ' {
            lemma_wrap_step(a, 1);
        } else {
            lemma_wrap_step(a, 4);
        }
    }
}

} // verus!
