//! Markdown to HTML: a converter that walks the tokens of `MarkdownTokenizer` and keeps a
//! stack of the elements it has opened. Its behaviour is stated as the spec function
//! `step_spec` over a model of the converter, `Conv`, and the whole conversion as
//! `run_spec`.

use vstd::prelude::*;
use vstd::string::StringExecFns;
use crate::outside::{
    encode_safe, encode_safe_to_string, escape_char, escape_safe, parse_yaml, push_char, StateStack, stack_get, stack_items,
    stack_len, stack_new, stack_pop, stack_push, yaml_parse, STACK_LIMIT,
};
use crate::sourcerefs::SourceRange;
use crate::progress::{
    law_table_start_never_ends, law_tokenizer_ends, lemma_ends_within_more, lemma_next_progress,
    lemma_progress_nonneg, progress, runs_clean,
};
use crate::tokenizer::{
    dispatch_spec, ends_within, fence_of, inline_after, inline_k, inline_spec, inline_why,
    is_definition_token, lemma_inline_k_bounds, lemma_inline_stop_kind, lemma_next_no_definition,
    next_measure, next_panics, next_spec, start_view, tokenizer_wf, wrap_u8, MarkdownToken,
    MarkdownTokenizer, NextV, StopV, TokView, TokenV, TokenizerState,
};

verus! {

/// Hooks by which a caller renders front matter, custom elements and math itself.
///
/// Each method says through its return value whether it handled the element; when it
/// did not, the converter writes its own rendering after whatever the method wrote.
/// Each method's effect on the options and on the output is the matching `*_effect`
/// spec function, so the whole conversion is a function of the text and the options.
/// By default an effect is that of a hook that handles nothing and writes nothing. Only
/// an implementation verified against its effects meets the contracts of the
/// conversions: code outside Verus cannot declare effects, so an implementation there
/// inherits the defaults, and for it those contracts do not hold. They state the
/// default rendering, which such an implementation need not give.
pub trait Options: Sized {
    /// The options and the output after `frontmatter`.
    open spec fn frontmatter_effect(self, fm: serde_value::Value, out: Seq<char>) -> (Self, Seq<char>) {
        (self, out)
    }

    /// The options, the output and the answer of `inline_custom`.
    open spec fn inline_custom_effect(self, label: Seq<char>, args: Seq<char>, out: Seq<char>) -> (Self, Seq<char>, bool) {
        (self, out, false)
    }

    /// The options, the output and the answer of `custom_block_start`.
    open spec fn custom_block_start_effect(self, label: Seq<char>, args: Seq<char>, out: Seq<char>) -> (Self, Seq<char>, bool) {
        (self, out, false)
    }

    /// The options, the output and the answer of `custom_block_end`.
    open spec fn custom_block_end_effect(self, label: Seq<char>, out: Seq<char>) -> (Self, Seq<char>, bool) {
        (self, out, false)
    }

    /// The options, the output and the answer of `inline_math`.
    open spec fn inline_math_effect(self, math: Seq<char>, out: Seq<char>) -> (Self, Seq<char>, bool) {
        (self, out, false)
    }

    /// The options, the output and the answer of `block_math`.
    open spec fn block_math_effect(self, math: Seq<char>, out: Seq<char>) -> (Self, Seq<char>, bool) {
        (self, out, false)
    }

    /// Called with the document's front matter, parsed as YAML.
    fn frontmatter(&mut self, frontmatter: serde_value::Value, out: &mut String)
        ensures
            (*final(self), final(out)@) == old(self).frontmatter_effect(frontmatter, old(out)@),
    ;

    /// Called for `@[label](arguments)`.
    fn inline_custom(&mut self, label: &str, arguments: &str, out: &mut String) -> (r: bool)
        ensures
            (*final(self), final(out)@, r) == old(self).inline_custom_effect(label@, arguments@, old(out)@),
    ;

    /// Called where a `::label arguments` block opens.
    fn custom_block_start(&mut self, label: &str, arguments: &str, out: &mut String) -> (r: bool)
        ensures
            (*final(self), final(out)@, r) == old(self).custom_block_start_effect(label@, arguments@, old(out)@),
    ;

    /// Called where a custom block closes.
    fn custom_block_end(&mut self, label: &str, out: &mut String) -> (r: bool)
        ensures
            (*final(self), final(out)@, r) == old(self).custom_block_end_effect(label@, old(out)@),
    ;

    /// Called for `$math$`.
    fn inline_math(&mut self, math: &str, out: &mut String) -> (r: bool)
        ensures
            (*final(self), final(out)@, r) == old(self).inline_math_effect(math@, old(out)@),
    ;

    /// Called for `$$math$$`.
    fn block_math(&mut self, math: &str, out: &mut String) -> (r: bool)
        ensures
            (*final(self), final(out)@, r) == old(self).block_math_effect(math@, old(out)@),
    ;
}

/// Options that handle nothing: every element gets the converter's own rendering.
pub struct NoOptions;

impl Options for NoOptions {
    fn frontmatter(&mut self, frontmatter: serde_value::Value, out: &mut String) {
    }

    fn inline_custom(&mut self, label: &str, arguments: &str, out: &mut String) -> (r: bool) {
        false
    }

    fn custom_block_start(&mut self, label: &str, arguments: &str, out: &mut String) -> (r: bool) {
        false
    }

    fn custom_block_end(&mut self, label: &str, out: &mut String) -> (r: bool) {
        false
    }

    fn inline_math(&mut self, math: &str, out: &mut String) -> (r: bool) {
        false
    }

    fn block_math(&mut self, math: &str, out: &mut String) -> (r: bool) {
        false
    }
}

/// An element the converter has opened and not closed yet.
pub enum ConverterState {
    Emph(u8),
    Strong(u8),
    Strikethrough,
    Highlight,
    Superscript,
    Subscript,
    Paragraph,
    Heading(u8),
    UnorderedList(u8),
    OrderedList(u8),
    InLink,
    CustomBlock(u8, String),
}

/// `ConverterState`, with the custom block's label as characters.
pub enum StateV {
    Emph(u8),
    Strong(u8),
    Strikethrough,
    Highlight,
    Superscript,
    Subscript,
    Paragraph,
    Heading(u8),
    UnorderedList(u8),
    OrderedList(u8),
    InLink,
    CustomBlock(u8, Seq<char>),
}

impl ConverterState {
    pub open spec fn view(&self) -> StateV {
        match self {
            ConverterState::Emph(u) => StateV::Emph(*u),
            ConverterState::Strong(u) => StateV::Strong(*u),
            ConverterState::Strikethrough => StateV::Strikethrough,
            ConverterState::Highlight => StateV::Highlight,
            ConverterState::Superscript => StateV::Superscript,
            ConverterState::Subscript => StateV::Subscript,
            ConverterState::Paragraph => StateV::Paragraph,
            ConverterState::Heading(l) => StateV::Heading(*l),
            ConverterState::UnorderedList(i) => StateV::UnorderedList(*i),
            ConverterState::OrderedList(i) => StateV::OrderedList(*i),
            ConverterState::InLink => StateV::InLink,
            ConverterState::CustomBlock(n, l) => StateV::CustomBlock(*n, l@),
        }
    }
}

/// The open elements of a stack, bottom first.
pub open spec fn states_view(v: StateStack) -> Seq<StateV> {
    stack_items(v).map_values(|s: ConverterState| s@)
}

/// The converter as values: the open elements, the output so far, the options and
/// whether the options are consulted at all.
pub struct Conv<O> {
    pub stack: Seq<StateV>,
    pub out: Seq<char>,
    pub opts: O,
    pub active: bool,
}

impl<O: Options> Conv<O> {
    /// `s` appended to the output.
    pub open spec fn write(self, s: Seq<char>) -> Conv<O> {
        Conv { out: self.out + s, ..self }
    }

    /// `s` opened.
    pub open spec fn push(self, s: StateV) -> Conv<O> {
        Conv { stack: self.stack.push(s), ..self }
    }

    /// The innermost element dropped from the stack.
    pub open spec fn pop(self) -> Conv<O> {
        Conv { stack: self.stack.drop_last(), ..self }
    }

    /// After a hook that returned `r`: its options and output, followed by `fallback`
    /// when it did not handle the element; only `fallback` when there are no options.
    pub open spec fn call(self, r: (O, Seq<char>, bool), fallback: Seq<char>) -> Conv<O> {
        if !self.active {
            self.write(fallback)
        } else if r.2 {
            Conv { opts: r.0, out: r.1, ..self }
        } else {
            Conv { opts: r.0, out: r.1 + fallback, ..self }
        }
    }
}

/// The model of a converter with stack `states`, output `out` and options `opts`.
pub open spec fn conv_of<O: Options>(states: StateStack, out: Seq<char>, opts: O, active: bool) -> Conv<O> {
    Conv { stack: states_view(states), out, opts, active }
}

/// The tag name of a heading of level `u`, counted from zero.
pub open spec fn heading_name(u: u8) -> Seq<char> {
    if u == 0 {
        "h1"@
    } else if u == 1 {
        "h2"@
    } else if u == 2 {
        "h3"@
    } else if u == 3 {
        "h4"@
    } else if u == 4 {
        "h5"@
    } else {
        "h6"@
    }
}

/// `n` colons.
pub open spec fn colons(n: nat) -> Seq<char> {
    Seq::new(n, |i: int| ':')
}

/// What closing the element `s` writes, and what it does to the options.
pub open spec fn close_spec<O: Options>(c: Conv<O>, s: StateV) -> Conv<O> {
    match s {
        StateV::Emph(_) => c.write("</em>"@),
        StateV::Strong(_) => c.write("</strong>"@),
        StateV::Paragraph => c.write("</p>"@),
        StateV::Strikethrough => c.write("</s>"@),
        StateV::Highlight => c.write("</mark>"@),
        StateV::Superscript => c.write("</sup>"@),
        StateV::Subscript => c.write("</sub>"@),
        StateV::Heading(l) => c.write("</"@ + heading_name(l) + ">"@),
        StateV::UnorderedList(_) => c.write("</li></ul>"@),
        StateV::OrderedList(_) => c.write("</li></ol>"@),
        StateV::InLink => c.write("</a>"@),
        StateV::CustomBlock(n, label) => c.call(
            c.opts.custom_block_end_effect(label, c.out),
            colons(n as nat) + seq!['\n'],
        ),
    }
}

/// Elements that inline content closes before math or code.
pub open spec fn is_inline(s: StateV) -> bool {
    match s {
        StateV::Emph(_) | StateV::Strong(_) | StateV::Strikethrough | StateV::Highlight
        | StateV::Subscript | StateV::Superscript | StateV::Heading(_) | StateV::InLink => true,
        _ => false,
    }
}

/// Closes the inline elements at the top of the stack.
pub open spec fn close_inline_spec<O: Options>(c: Conv<O>) -> Conv<O>
    decreases c.stack.len(),
{
    if c.stack.len() > 0 && is_inline(c.stack.last()) {
        close_inline_spec(close_spec(c.pop(), c.stack.last()))
    } else {
        c
    }
}

/// The kinds of closing: through the innermost paragraph, custom block or link, or all.
pub enum Through {
    Paragraph,
    Custom,
    Link,
    All,
}

/// Whether closing `s` ends a closing of kind `k`.
pub open spec fn stops(k: Through, s: StateV) -> bool {
    match k {
        Through::Paragraph => s is Paragraph,
        Through::Custom => s is CustomBlock,
        Through::Link => s is InLink,
        Through::All => false,
    }
}

/// Pops and closes elements until one that `stops` the kind `k` is closed, or the stack
/// is empty.
pub open spec fn close_through_spec<O: Options>(c: Conv<O>, k: Through) -> Conv<O>
    decreases c.stack.len(),
{
    if c.stack.len() == 0 {
        c
    } else {
        let s = c.stack.last();
        let c1 = close_spec(c.pop(), s);
        if stops(k, s) {
            c1
        } else {
            close_through_spec(c1, k)
        }
    }
}

/// The opening of the block that shows a front matter the YAML parser refused.
pub open spec fn fm_error_open() -> Seq<char> {
    "<pre style=\"border:1px dotted gray;background-color:lightgray\">"@
}

/// The converter's own rendering of `@[label](args)`.
pub open spec fn custom_fallback(label: Seq<char>, args: Seq<char>) -> Seq<char> {
    "@["@ + escape_safe(label) + "]("@ + escape_safe(args) + ")"@
}

/// The converter's own rendering of the start of a custom block.
pub open spec fn block_start_fallback(n: u8, label: Seq<char>, args: Seq<char>) -> Seq<char> {
    colons(n as nat) + seq![' '] + label + seq![' '] + escape_safe(args) + seq!['\n']
}

/// The opening of inline math without a renderer.
pub open spec fn inline_math_open() -> Seq<char> {
    "<span style=\"font-family:monospace;background-color:crimson\">"@
}

/// The opening of block math without a renderer.
pub open spec fn block_math_open() -> Seq<char> {
    "<div style=\"width:100%\"><div style=\"font-family:monospace;margin-left:auto;margin-right:auto;background-color:crimson;width:fit-content;\">"@
}

/// The opening of inline code.
pub open spec fn code_open() -> Seq<char> {
    "<span style=\"font-family:monospace;background-color:lightgray\">"@
}

/// The opening of a code block.
pub open spec fn block_code_open() -> Seq<char> {
    "<pre style=\"background-color:lightgray\">"@
}

/// An element that the same token opens and closes: closed when it is the innermost
/// open element, opened otherwise.
pub open spec fn toggle<O: Options>(c: Conv<O>, s: StateV, open: Seq<char>, close: Seq<char>) -> Conv<O> {
    if c.stack.len() > 0 && c.stack.last() == s {
        c.pop().write(close)
    } else {
        c.push(s).write(open)
    }
}

/// The indentation of a list element.
pub open spec fn list_indent(s: StateV) -> Option<u8> {
    match s {
        StateV::UnorderedList(i) | StateV::OrderedList(i) => Some(i),
        _ => None,
    }
}

/// Whether `s` is a list of the kind that a numbered (or bulleted) item starts.
pub open spec fn same_list(s: StateV, numbered: bool) -> bool {
    if numbered {
        s is OrderedList
    } else {
        s is UnorderedList
    }
}

/// A list item with indentation `indent`: a sibling item in a list of about the same
/// indentation, a nested list in a list of smaller indentation, or the end of a
/// nested list when the list below is of the item's kind; otherwise a new list.
/// Indentations are compared as a release build computes them: `indent + 2` wraps
/// around past 255, and with a single element open there is no list below it.
pub open spec fn list_item_spec<O: Options>(c0: Conv<O>, indent: u8, numbered: bool) -> Conv<O> {
    let c = close_inline_spec(c0);
    let n = c.stack.len();
    let item = if numbered { StateV::OrderedList(indent) } else { StateV::UnorderedList(indent) };
    let open = if numbered { "<ol><li>"@ } else { "<ul><li>"@ };
    let opened = c.push(item).write(open);
    if n == 0 {
        opened
    } else {
        match list_indent(c.stack.last()) {
            None => opened,
            Some(i) => if i < wrap_u8(indent, 2) && indent < wrap_u8(i, 2) {
                c.write("</li><li>"@)
            } else if i < indent {
                opened
            } else if n >= 2 && same_list(c.stack[n - 2], numbered) {
                c.pop().write(
                    if c.stack.last() is OrderedList { "</ol><li>"@ } else { "</ul><li>"@ },
                )
            } else {
                opened
            },
        }
    }
}

/// The tokens that no tokenizer hands out: only a definition parser makes them.
pub open spec fn is_definition(t: TokenV<()>) -> bool {
    t is FootnoteDefinition || t is Definition
}

/// What the converter does with one token.
pub open spec fn step_spec<O: Options>(c: Conv<O>, t: TokenV<()>) -> Conv<O> {
    match t {
        TokenV::FrontMatter(s, _) => if !c.active {
            c
        } else {
            match yaml_parse(s) {
                Ok(v) => {
                    let (o, out) = c.opts.frontmatter_effect(v, c.out);
                    Conv { opts: o, out, ..c }
                },
                Err(e) => c.write(fm_error_open() + e + "</pre>"@),
            }
        },
        TokenV::InlineCustom { label, args, .. } => c.call(
            c.opts.inline_custom_effect(label, args, c.out),
            custom_fallback(label, args),
        ),
        TokenV::CustomBlockStart { label, args, colons: n, .. } => {
            let c1 = close_through_spec(c, Through::Paragraph).push(StateV::CustomBlock(n, label));
            c1.call(c1.opts.custom_block_start_effect(label, args, c1.out), block_start_fallback(n, label, args))
        },
        TokenV::CustomBlockEnd(..) => close_through_spec(c, Through::Custom),
        TokenV::ParagraphStart(_) => c.push(StateV::Paragraph).write("<p>"@),
        TokenV::ParagraphEnd(_) => close_through_spec(c, Through::Paragraph).write("</p>"@),
        TokenV::Text(txt, _) => c.write(escape_safe(txt)),
        TokenV::Emph(u, _) => toggle(c, StateV::Emph(u), "<em>"@, "</em>"@),
        TokenV::Strong(u, _) => toggle(c, StateV::Strong(u), "<strong>"@, "</strong>"@),
        TokenV::StrikeThrough(_) => toggle(c, StateV::Strikethrough, "<s>"@, "</s>"@),
        TokenV::Highlight(_) => toggle(c, StateV::Highlight, "<mark>"@, "</mark>"@),
        TokenV::Superscript(_) => toggle(c, StateV::Superscript, "<sup>"@, "</sup>"@),
        TokenV::Subscript(_) => toggle(c, StateV::Subscript, "<sub>"@, "</sub>"@),
        TokenV::InlineMath(m, _) => {
            let c1 = close_inline_spec(c);
            c1.call(c1.opts.inline_math_effect(m, c1.out), inline_math_open() + m + "</span>"@)
        },
        TokenV::BlockMath(m, _) => {
            let c1 = close_through_spec(c, Through::Paragraph);
            c1.call(c1.opts.block_math_effect(m, c1.out), block_math_open() + m + "</div>"@)
        },
        TokenV::InlineCode(code, _) => close_inline_spec(c).write(code_open() + escape_safe(code) + "</span>"@),
        TokenV::Heading(l, _) => close_through_spec(c, Through::Paragraph).push(StateV::Heading(l)).write(
            "<"@ + heading_name(l) + ">"@,
        ),
        TokenV::HeadingEnd(_) => close_through_spec(c, Through::Paragraph),
        TokenV::ThematicBreak(_) => close_through_spec(c, Through::Paragraph).write("<hr/>"@),
        TokenV::BlockCode { code, .. } => close_through_spec(c, Through::Paragraph).write(
            block_code_open() + escape_safe(code) + "</pre>"@,
        ),
        TokenV::LinkStart(url, _) => c.write("<a href=\""@ + url + "\">"@).push(StateV::InLink),
        TokenV::Escaped(ch, _) => c.write(escape_safe(seq![ch])),
        TokenV::LinkOrCustomEnd(_) => close_through_spec(c, Through::Link),
        TokenV::UnnumberedListItem(i, _) => list_item_spec(c, i, false),
        TokenV::NumberedListItem(i, _) => list_item_spec(c, i, true),
        TokenV::BlockQuoteStart(_) => c.write("<pre>TODO: BlockQuoteStart(\n    (),\n)</pre>"@),
        TokenV::TableStart(_) => c.write("<pre>TODO: TableStart(\n    (),\n)</pre>"@),
        TokenV::FootnoteDefinition(..) | TokenV::Definition(..) => c,
    }
}

/// `heading`: the tag name of a heading of level `u`, counted from zero.
pub fn heading(u: u8) -> (r: &'static str)
    ensures
        r@ == heading_name(u),
{
    if u == 0 {
        "h1"
    } else if u == 1 {
        "h2"
    } else if u == 2 {
        "h3"
    } else if u == 3 {
        "h4"
    } else if u == 4 {
        "h5"
    } else {
        "h6"
    }
}

/// Writes `n` colons.
fn write_colons(out: &mut String, n: u8)
    ensures
        final(out)@ == old(out)@ + colons(n as nat),
{
    let mut i: u8 = 0;
    while i < n
        invariant
            i <= n,
            out@ == old(out)@ + colons(i as nat),
        decreases n - i,
    {
        push_char(out, ':');
        proof {
            assert(old(out)@ + colons((i + 1) as nat) =~= (old(out)@ + colons(i as nat)).push(':'));
        }
        i = i + 1;
    }
}

/// Closes one element.
fn close<O: Options>(out: &mut String, state: ConverterState, opts: &mut O, active: bool)
    ensures
        ({
            let c0 = Conv { stack: Seq::<StateV>::empty(), out: old(out)@, opts: *old(opts), active };
            let c1 = close_spec(c0, state@);
            final(out)@ == c1.out && *final(opts) == c1.opts
        }),
{
    match state {
        ConverterState::Emph(_) => out.append("</em>"),
        ConverterState::Strong(_) => out.append("</strong>"),
        ConverterState::Paragraph => out.append("</p>"),
        ConverterState::Strikethrough => out.append("</s>"),
        ConverterState::Highlight => out.append("</mark>"),
        ConverterState::Superscript => out.append("</sup>"),
        ConverterState::Subscript => out.append("</sub>"),
        ConverterState::Heading(lvl) => {
            out.append("</");
            out.append(heading(lvl));
            out.append(">");
        },
        ConverterState::UnorderedList(_) => out.append("</li></ul>"),
        ConverterState::OrderedList(_) => out.append("</li></ol>"),
        ConverterState::InLink => out.append("</a>"),
        ConverterState::CustomBlock(n, label) => {
            let handled = active && opts.custom_block_end(label.as_str(), out);
            if !handled {
                write_colons(out, n);
                push_char(out, '\n');
            }
        },
    }
}

/// Whether `s` is an element that `close_inline` closes.
fn is_inline_state(s: &ConverterState) -> (r: bool)
    ensures
        r == is_inline(s@),
{
    match s {
        ConverterState::Emph(_) | ConverterState::Strong(_) | ConverterState::Strikethrough
        | ConverterState::Highlight | ConverterState::Subscript | ConverterState::Superscript
        | ConverterState::Heading(_) | ConverterState::InLink => true,
        _ => false,
    }
}

/// Whether closing `s` ends a closing of kind `k`.
fn stops_at(k: &Through, s: &ConverterState) -> (r: bool)
    ensures
        r == stops(*k, s@),
{
    match k {
        Through::Paragraph => matches!(s, ConverterState::Paragraph),
        Through::Custom => matches!(s, ConverterState::CustomBlock(_, _)),
        Through::Link => matches!(s, ConverterState::InLink),
        Through::All => false,
    }
}

/// The model after `stack_pop` took `s` off a non-empty stack and `close` closed it.
proof fn lemma_pop_close<O: Options>(
    before: StateStack,
    after: StateStack,
    s: ConverterState,
    out0: Seq<char>,
    opts0: O,
    out1: Seq<char>,
    opts1: O,
    active: bool,
)
    requires
        stack_items(before).len() > 0,
        s == stack_items(before).last(),
        stack_items(after) == stack_items(before).drop_last(),
        ({
            let c0 = Conv { stack: Seq::<StateV>::empty(), out: out0, opts: opts0, active };
            let c1 = close_spec(c0, s@);
            out1 == c1.out && opts1 == c1.opts
        }),
    ensures
        conv_of(after, out1, opts1, active) == close_spec(conv_of(before, out0, opts0, active).pop(), s@),
        conv_of(before, out0, opts0, active).stack.last() == s@,
        conv_of(before, out0, opts0, active).stack.len() > 0,
{
    assert(states_view(after) =~= states_view(before).drop_last());
}

/// Closes the inline elements at the top of the stack.
fn close_inline<O: Options>(states: &mut StateStack, out: &mut String, opts: &mut O, active: bool)
    ensures
        conv_of(*final(states), final(out)@, *final(opts), active)
            == close_inline_spec(conv_of(*old(states), old(out)@, *old(opts), active)),
{
    loop
        invariant
            close_inline_spec(conv_of(*states, out@, *opts, active))
                == close_inline_spec(conv_of(*old(states), old(out)@, *old(opts), active)),
        ensures
            conv_of(*states, out@, *opts, active)
                == close_inline_spec(conv_of(*old(states), old(out)@, *old(opts), active)),
        decreases stack_items(*states).len(),
    {
        let n = stack_len(states);
        if n == 0 {
            break;
        }
        let inline = match stack_get(states, n - 1) {
            Some(s) => is_inline_state(s),
            None => false,
        };
        if !inline {
            break;
        }
        let ghost before = *states;
        let ghost out0 = out@;
        let ghost opts0 = *opts;
        match stack_pop(states) {
            Some(s) => {
                let ghost sv = s;
                close(out, s, opts, active);
                proof {
                    lemma_pop_close(before, *states, sv, out0, opts0, out@, *opts, active);
                }
            },
            None => {},
        }
    }
}

/// Pops and closes elements until one that ends the closing of kind `k` is closed, or
/// the stack is empty.
fn close_through<O: Options>(states: &mut StateStack, out: &mut String, opts: &mut O, active: bool, k: Through)
    ensures
        conv_of(*final(states), final(out)@, *final(opts), active)
            == close_through_spec(conv_of(*old(states), old(out)@, *old(opts), active), k),
{
    loop
        invariant_except_break
            close_through_spec(conv_of(*states, out@, *opts, active), k)
                == close_through_spec(conv_of(*old(states), old(out)@, *old(opts), active), k),
        ensures
            conv_of(*states, out@, *opts, active)
                == close_through_spec(conv_of(*old(states), old(out)@, *old(opts), active), k),
        decreases stack_items(*states).len(),
    {
        let ghost before = *states;
        let ghost out0 = out@;
        let ghost opts0 = *opts;
        match stack_pop(states) {
            Some(s) => {
                let ghost sv = s;
                let stop = stops_at(&k, &s);
                close(out, s, opts, active);
                proof {
                    lemma_pop_close(before, *states, sv, out0, opts0, out@, *opts, active);
                }
                if stop {
                    break;
                }
            },
            None => {
                break;
            },
        }
    }
}

/// Closing pushes nothing and keeps the options on or off.
proof fn lemma_close_through_len<O: Options>(c: Conv<O>, k: Through)
    ensures
        close_through_spec(c, k).stack.len() <= c.stack.len(),
        close_through_spec(c, k).active == c.active,
    decreases c.stack.len(),
{
    if c.stack.len() > 0 {
        lemma_close_through_len(close_spec(c.pop(), c.stack.last()), k);
    }
}

/// Closing the inline elements pushes nothing and keeps the options on or off.
proof fn lemma_close_inline_len<O: Options>(c: Conv<O>)
    ensures
        close_inline_spec(c).stack.len() <= c.stack.len(),
        close_inline_spec(c).active == c.active,
    decreases c.stack.len(),
{
    if c.stack.len() > 0 && is_inline(c.stack.last()) {
        lemma_close_inline_len(close_spec(c.pop(), c.stack.last()));
    }
}

/// A token opens at most one element, and never turns the options on or off.
pub proof fn law_one_element_per_token<O: Options>(c: Conv<O>, t: TokenV<()>)
    ensures
        step_spec(c, t).stack.len() <= c.stack.len() + 1,
        step_spec(c, t).active == c.active,
{
    lemma_close_through_len(c, Through::Paragraph);
    lemma_close_through_len(c, Through::Custom);
    lemma_close_through_len(c, Through::Link);
    lemma_close_inline_len(c);
}

/// Whether two open elements are the same.
fn same_state(a: &ConverterState, b: &ConverterState) -> (r: bool)
    ensures
        r == (a@ == b@),
{
    match (a, b) {
        (ConverterState::Emph(x), ConverterState::Emph(y)) => *x == *y,
        (ConverterState::Strong(x), ConverterState::Strong(y)) => *x == *y,
        (ConverterState::Strikethrough, ConverterState::Strikethrough) => true,
        (ConverterState::Highlight, ConverterState::Highlight) => true,
        (ConverterState::Superscript, ConverterState::Superscript) => true,
        (ConverterState::Subscript, ConverterState::Subscript) => true,
        (ConverterState::Paragraph, ConverterState::Paragraph) => true,
        (ConverterState::Heading(x), ConverterState::Heading(y)) => *x == *y,
        (ConverterState::UnorderedList(x), ConverterState::UnorderedList(y)) => *x == *y,
        (ConverterState::OrderedList(x), ConverterState::OrderedList(y)) => *x == *y,
        (ConverterState::InLink, ConverterState::InLink) => true,
        (ConverterState::CustomBlock(n, l), ConverterState::CustomBlock(m, k)) => *n == *m && *l == *k,
        _ => false,
    }
}

/// Pushes `s`.
fn open_state(states: &mut StateStack, s: ConverterState)
    requires
        stack_items(*old(states)).len() < STACK_LIMIT,
    ensures
        states_view(*final(states)) == states_view(*old(states)).push(s@),
        stack_items(*final(states)).len() == stack_items(*old(states)).len() + 1,
{
    let ghost sv = s;
    stack_push(states, s);
    proof {
        assert(states_view(*states) =~= states_view(*old(states)).push(sv@));
    }
}

/// Drops the innermost element, which is known to be there.
fn drop_state(states: &mut StateStack)
    requires
        stack_items(*old(states)).len() > 0,
    ensures
        states_view(*final(states)) == states_view(*old(states)).drop_last(),
{
    let _ = stack_pop(states);
    proof {
        assert(states_view(*states) =~= states_view(*old(states)).drop_last());
    }
}

/// Whether the innermost open element is `s`.
fn innermost_is(states: &StateStack, s: &ConverterState) -> (r: bool)
    ensures
        r == (states_view(*states).len() > 0 && states_view(*states).last() == s@),
{
    let n = stack_len(states);
    if n == 0 {
        return false;
    }
    match stack_get(states, n - 1) {
        Some(t) => same_state(t, s),
        None => false,
    }
}

/// `toggle` on the stack and the output.
fn toggle_exec(states: &mut StateStack, out: &mut String, s: ConverterState, open: &str, close: &str)
    requires
        stack_items(*old(states)).len() < STACK_LIMIT,
    ensures
        ({
            let c = Conv { stack: states_view(*old(states)), out: old(out)@, opts: NoOptions, active: false };
            let c1 = Conv { stack: states_view(*final(states)), out: final(out)@, opts: NoOptions, active: false };
            c1 == toggle(c, s@, open@, close@)
        }),
{
    if innermost_is(states, &s) {
        drop_state(states);
        out.append(close);
    } else {
        open_state(states, s);
        out.append(open);
    }
}

/// A list item: a sibling, a nested list, or the end of a nested list.
fn list_item<O: Options>(states: &mut StateStack, out: &mut String, opts: &mut O, active: bool, indent: u8, numbered: bool)
    requires
        stack_items(*old(states)).len() < STACK_LIMIT,
    ensures
        conv_of(*final(states), final(out)@, *final(opts), active)
            == list_item_spec(conv_of(*old(states), old(out)@, *old(opts), active), indent, numbered),
{
    let ghost c0 = conv_of(*states, out@, *opts, active);
    close_inline(states, out, opts, active);
    proof {
        lemma_close_inline_len(c0);
    }
    let n = stack_len(states);
    // 0: a new list, 1: a sibling item, 2: the end of a nested list
    let mut case: u8 = 0;
    let mut last_ordered = false;
    if n > 0 {
        let last: Option<u8> = match stack_get(states, n - 1) {
            Some(ConverterState::UnorderedList(i)) => Some(*i),
            Some(ConverterState::OrderedList(i)) => {
                last_ordered = true;
                Some(*i)
            },
            _ => None,
        };
        if let Some(i) = last {
            if i < indent.wrapping_add(2) && indent < i.wrapping_add(2) {
                case = 1;
            } else if i < indent {
                case = 0;
            } else if n >= 2 {
                let below = match stack_get(states, n - 2) {
                    Some(ConverterState::UnorderedList(_)) => !numbered,
                    Some(ConverterState::OrderedList(_)) => numbered,
                    _ => false,
                };
                if below {
                    case = 2;
                }
            }
        }
    }
    proof {
        assert(forall|i: u8| #[trigger] wrap_u8(i, 2) == i.wrapping_add(2));
    }
    if case == 1 {
        out.append("</li><li>");
    } else if case == 2 {
        drop_state(states);
        if last_ordered {
            out.append("</ol><li>");
        } else {
            out.append("</ul><li>");
        }
    } else if numbered {
        open_state(states, ConverterState::OrderedList(indent));
        out.append("<ol><li>");
    } else {
        open_state(states, ConverterState::UnorderedList(indent));
        out.append("<ul><li>");
    }
}

/// The converter on one token.
#[verifier::spinoff_prover]
#[verifier::rlimit(30)]
fn step<'a, O: Options>(states: &mut StateStack, out: &mut String, opts: &mut O, active: bool, t: MarkdownToken<'a, ()>)
    requires
        stack_items(*old(states)).len() + 1 < STACK_LIMIT,
        !is_definition(t@),
    ensures
        conv_of(*final(states), final(out)@, *final(opts), active)
            == step_spec(conv_of(*old(states), old(out)@, *old(opts), active), t@),
{
    let ghost c0 = conv_of(*states, out@, *opts, active);
    let ghost tv = t@;
    proof {
        lemma_close_through_len(c0, Through::Paragraph);
    }
    match t {
        MarkdownToken::FrontMatter(s, _) => {
            if active {
                match parse_yaml(s) {
                    Ok(v) => opts.frontmatter(v, out),
                    Err(e) => {
                        out.append("<pre style=\"border:1px dotted gray;background-color:lightgray\">");
                        out.append(e.as_str());
                        out.append("</pre>");
                    },
                }
            }
        },
        MarkdownToken::InlineCustom { label, args, .. } => {
            let handled = active && opts.inline_custom(label, args, out);
            if !handled {
                out.append("@[");
                out.append(encode_safe(label).as_str());
                out.append("](");
                out.append(encode_safe(args).as_str());
                out.append(")");
            }
        },
        MarkdownToken::CustomBlockStart { label, args, colons, .. } => {
            close_through(states, out, opts, active, Through::Paragraph);
            open_state(states, ConverterState::CustomBlock(colons, String::from_str(label)));
            let handled = active && opts.custom_block_start(label, args, out);
            if !handled {
                write_colons(out, colons);
                push_char(out, ' ');
                out.append(label);
                push_char(out, ' ');
                encode_safe_to_string(args, out);
                push_char(out, '\n');
            }
        },
        MarkdownToken::CustomBlockEnd(_, _) => {
            close_through(states, out, opts, active, Through::Custom);
        },
        MarkdownToken::ParagraphStart(_) => {
            open_state(states, ConverterState::Paragraph);
            out.append("<p>");
        },
        MarkdownToken::ParagraphEnd(_) => {
            close_through(states, out, opts, active, Through::Paragraph);
            out.append("</p>");
        },
        MarkdownToken::Text(txt, _) => {
            out.append(encode_safe(txt).as_str());
        },
        MarkdownToken::Emph(u, _) => toggle_exec(states, out, ConverterState::Emph(u), "<em>", "</em>"),
        MarkdownToken::Strong(u, _) => toggle_exec(states, out, ConverterState::Strong(u), "<strong>", "</strong>"),
        MarkdownToken::StrikeThrough(_) => toggle_exec(states, out, ConverterState::Strikethrough, "<s>", "</s>"),
        MarkdownToken::Highlight(_) => toggle_exec(states, out, ConverterState::Highlight, "<mark>", "</mark>"),
        MarkdownToken::Superscript(_) => toggle_exec(states, out, ConverterState::Superscript, "<sup>", "</sup>"),
        MarkdownToken::Subscript(_) => toggle_exec(states, out, ConverterState::Subscript, "<sub>", "</sub>"),
        MarkdownToken::InlineMath(m, _) => {
            close_inline(states, out, opts, active);
            let handled = active && opts.inline_math(m, out);
            if !handled {
                out.append("<span style=\"font-family:monospace;background-color:crimson\">");
                out.append(m);
                out.append("</span>");
            }
        },
        MarkdownToken::BlockMath(m, _) => {
            close_through(states, out, opts, active, Through::Paragraph);
            let handled = active && opts.block_math(m, out);
            if !handled {
                out.append("<div style=\"width:100%\"><div style=\"font-family:monospace;margin-left:auto;margin-right:auto;background-color:crimson;width:fit-content;\">");
                out.append(m);
                out.append("</div>");
            }
        },
        MarkdownToken::InlineCode(code, _) => {
            close_inline(states, out, opts, active);
            out.append("<span style=\"font-family:monospace;background-color:lightgray\">");
            out.append(encode_safe(code).as_str());
            out.append("</span>");
        },
        MarkdownToken::Heading(lvl, _) => {
            close_through(states, out, opts, active, Through::Paragraph);
            open_state(states, ConverterState::Heading(lvl));
            out.append("<");
            out.append(heading(lvl));
            out.append(">");
        },
        MarkdownToken::HeadingEnd(_) => {
            close_through(states, out, opts, active, Through::Paragraph);
        },
        MarkdownToken::ThematicBreak(_) => {
            close_through(states, out, opts, active, Through::Paragraph);
            out.append("<hr/>");
        },
        MarkdownToken::BlockCode { code, .. } => {
            close_through(states, out, opts, active, Through::Paragraph);
            out.append("<pre style=\"background-color:lightgray\">");
            out.append(encode_safe(code).as_str());
            out.append("</pre>");
        },
        MarkdownToken::LinkStart(url, _) => {
            out.append("<a href=\"");
            out.append(url.as_str());
            out.append("\">");
            open_state(states, ConverterState::InLink);
        },
        MarkdownToken::Escaped(c, _) => {
            let mut one = String::new();
            push_char(&mut one, c);
            out.append(encode_safe(one.as_str()).as_str());
        },
        MarkdownToken::LinkOrCustomEnd(_) => {
            close_through(states, out, opts, active, Through::Link);
        },
        MarkdownToken::UnnumberedListItem(indent, _) => {
            list_item(states, out, opts, active, indent, false);
        },
        MarkdownToken::NumberedListItem(indent, _) => {
            list_item(states, out, opts, active, indent, true);
        },
        MarkdownToken::BlockQuoteStart(_) => {
            out.append("<pre>TODO: BlockQuoteStart(\n    (),\n)</pre>");
        },
        MarkdownToken::TableStart(_) => {
            out.append("<pre>TODO: TableStart(\n    (),\n)</pre>");
        },
        MarkdownToken::FootnoteDefinition(_, _) => {},
        MarkdownToken::Definition(_, _) => {},
    }
    proof {
        assert(out@ =~= step_spec(c0, tv).out);
    }
}

/// The converter over the tokens from `v` on, within `fuel` tokens; at the end it closes
/// every element still open.
pub open spec fn run_spec<O: Options>(v: TokView<()>, c: Conv<O>, fuel: nat) -> Conv<O>
    decreases fuel,
{
    if fuel == 0 {
        c
    } else {
        let (v1, t) = next_spec(v);
        match t {
            None => close_through_spec(c, Through::All),
            Some(t) => run_spec(v1, step_spec(c, t), (fuel - 1) as nat),
        }
    }
}

/// A converter with open elements `stack`, no output and no options.
pub open spec fn bare(stack: Seq<StateV>) -> Conv<NoOptions> {
    Conv { stack, out: Seq::empty(), opts: NoOptions, active: false }
}

/// Whether, from `v` on and within `fuel` tokens, no token finds the stack of open
/// elements `stack` full. What a token does to the stack does not depend on the output
/// or the options.
pub open spec fn stack_fits(v: TokView<()>, stack: Seq<StateV>, fuel: nat) -> bool
    decreases fuel,
{
    fuel > 0 ==> match next_spec(v).1 {
        None => true,
        Some(t) => stack.len() + 1 < STACK_LIMIT && stack_fits(
            next_spec(v).0,
            step_spec(bare(stack), t).stack,
            (fuel - 1) as nat,
        ),
    }
}

/// Closing pops the same elements whatever the output and the options.
proof fn lemma_close_through_stack<O: Options, Q: Options>(c: Conv<O>, d: Conv<Q>, k: Through)
    requires
        c.stack == d.stack,
    ensures
        close_through_spec(c, k).stack == close_through_spec(d, k).stack,
    decreases c.stack.len(),
{
    if c.stack.len() > 0 {
        let s = c.stack.last();
        if !stops(k, s) {
            lemma_close_through_stack(close_spec(c.pop(), s), close_spec(d.pop(), s), k);
        }
    }
}

/// Closing the inline elements pops the same elements whatever the output and options.
proof fn lemma_close_inline_stack<O: Options, Q: Options>(c: Conv<O>, d: Conv<Q>)
    requires
        c.stack == d.stack,
    ensures
        close_inline_spec(c).stack == close_inline_spec(d).stack,
    decreases c.stack.len(),
{
    if c.stack.len() > 0 && is_inline(c.stack.last()) {
        let s = c.stack.last();
        lemma_close_inline_stack(close_spec(c.pop(), s), close_spec(d.pop(), s));
    }
}

/// What a token does to the open elements depends on them alone.
pub proof fn lemma_step_stack<O: Options>(c: Conv<O>, t: TokenV<()>)
    ensures
        step_spec(c, t).stack == step_spec(bare(c.stack), t).stack,
{
    let d = bare(c.stack);
    lemma_close_through_stack(c, d, Through::Paragraph);
    lemma_close_through_stack(c, d, Through::Custom);
    lemma_close_through_stack(c, d, Through::Link);
    lemma_close_inline_stack(c, d);
}

/// A fresh tokenizer on `text`: for a document, or for inline text only.
pub open spec fn doc_view(text: Seq<char>, inline_only: bool) -> TokView<()> {
    start_view::<()>(
        text,
        if inline_only { TokenizerState::Inline } else { TokenizerState::Start },
        inline_only,
    )
}

/// Whether converting `text` ends, with no failing table check, and without the stack of
/// open elements ever growing to `STACK_LIMIT`.
pub open spec fn converts(text: Seq<char>, inline_only: bool) -> bool {
    exists|f: nat| ends_within(doc_view(text, inline_only), f) && stack_fits(doc_view(text, inline_only), Seq::empty(), f)
}

/// A number of tokens within which the conversion of `text` ends.
pub open spec fn doc_fuel(text: Seq<char>, inline_only: bool) -> nat {
    choose|f: nat| ends_within(doc_view(text, inline_only), f) && stack_fits(doc_view(text, inline_only), Seq::empty(), f)
}

/// The converter after converting `text` onto `out`, with options `opts` consulted when
/// `active` holds.
pub open spec fn convert_spec<O: Options>(text: Seq<char>, inline_only: bool, out: Seq<char>, opts: O, active: bool) -> Conv<O> {
    run_spec(
        doc_view(text, inline_only),
        Conv { stack: Seq::empty(), out, opts, active },
        doc_fuel(text, inline_only),
    )
}

/// Runs the converter over the tokens of `tok` until they end.
fn run<'a, O: Options>(
    tok: &mut MarkdownTokenizer<'a, ()>,
    states: &mut StateStack,
    out: &mut String,
    opts: &mut O,
    active: bool,
    Ghost(fuel): Ghost<nat>,
)
    requires
        tokenizer_wf(old(tok)@),
        ends_within(old(tok)@, fuel),
        stack_fits(old(tok)@, states_view(*old(states)), fuel),
    ensures
        conv_of(*final(states), final(out)@, *final(opts), active)
            == run_spec(old(tok)@, conv_of(*old(states), old(out)@, *old(opts), active), fuel),
{
    let ghost mut f = fuel;
    loop
        invariant_except_break
            tokenizer_wf(tok@),
            ends_within(tok@, f),
            stack_fits(tok@, states_view(*states), f),
            run_spec(tok@, conv_of(*states, out@, *opts, active), f)
                == run_spec(old(tok)@, conv_of(*old(states), old(out)@, *old(opts), active), fuel),
        ensures
            conv_of(*states, out@, *opts, active)
                == run_spec(old(tok)@, conv_of(*old(states), old(out)@, *old(opts), active), fuel),
        decreases f,
    {
        let ghost vb = tok@;
        let ghost cb = conv_of(*states, out@, *opts, active);
        proof {
            lemma_next_no_definition(vb);
        }
        match tok.next() {
            None => {
                close_through(states, out, opts, active, Through::All);
                break;
            },
            Some(t) => {
                proof {
                    lemma_step_stack(cb, t@);
                    assert(stack_items(*states).len() == cb.stack.len());
                }
                step(states, out, opts, active, t);
                proof {
                    f = (f - 1) as nat;
                }
            },
        }
    }
}

/// Converts `text` onto `out`: the shared body of the four public conversions.
fn convert<O: Options>(text: &str, inline_only: bool, out: &mut String, opts: &mut O, active: bool)
    requires
        converts(text@, inline_only),
    ensures
        ({
            let c = convert_spec(text@, inline_only, old(out)@, *old(opts), active);
            final(out)@ == c.out && *final(opts) == c.opts
        }),
{
    let mut tok = if inline_only {
        MarkdownTokenizer::<()>::new_inline(text)
    } else {
        MarkdownTokenizer::<()>::new(text)
    };
    let mut states = stack_new();
    let ghost fuel = doc_fuel(text@, inline_only);
    proof {
        assert(states_view(states) =~= Seq::<StateV>::empty());
    }
    run(&mut tok, &mut states, out, opts, active, Ghost(fuel));
}

/// Converts a Markdown document to HTML.
pub fn to_html(source: &str) -> (r: String)
    requires
        converts(source@, false),
    ensures
        r@ == convert_spec(source@, false, Seq::empty(), NoOptions, false).out,
{
    let mut out = String::new();
    let mut opts = NoOptions;
    convert(source, false, &mut out, &mut opts, false);
    out
}

/// Converts a Markdown document to HTML, letting `options` render what it handles.
pub fn to_html_with_options<O: Options>(source: &str, options: &mut O) -> (r: String)
    requires
        converts(source@, false),
    ensures
        ({
            let c = convert_spec(source@, false, Seq::empty(), *old(options), true);
            r@ == c.out && *final(options) == c.opts
        }),
{
    let mut out = String::new();
    convert(source, false, &mut out, options, true);
    out
}

/// Converts inline Markdown to HTML, appending to `out`.
pub fn inline_html(md: &str, out: &mut String)
    requires
        converts(md@, true),
    ensures
        final(out)@ == convert_spec(md@, true, old(out)@, NoOptions, false).out,
{
    let mut opts = NoOptions;
    convert(md, true, out, &mut opts, false);
}

/// Converts inline Markdown to HTML, appending to `out` and letting `options` render
/// what it handles.
pub fn inline_html_with_options<O: Options>(md: &str, out: &mut String, options: &mut O)
    requires
        converts(md@, true),
    ensures
        ({
            let c = convert_spec(md@, true, old(out)@, *old(options), true);
            final(out)@ == c.out && *final(options) == c.opts
        }),
{
    convert(md, true, out, options, true);
}

/// How a run from `v0` that has handed out `steps` tokens, reaching `u` with the open
/// elements `stk`, stands to the whole: the whole ends, and fits, within some number of
/// tokens exactly when the rest does within `steps` fewer.
pub open spec fn run_tracks(v0: TokView<()>, u: TokView<()>, stk: Seq<StateV>, steps: nat) -> bool {
    &&& forall|f: nat| #[trigger] ends_within(v0, f) ==> f > steps && ends_within(u, (f - steps) as nat)
    &&& forall|f: nat|
        #[trigger] stack_fits(v0, Seq::empty(), f) && f > steps ==> stack_fits(u, stk, (f - steps) as nat)
    &&& forall|g: nat| #[trigger] ends_within(u, g) ==> ends_within(v0, g + steps)
    &&& forall|g: nat| #[trigger] stack_fits(u, stk, g) ==> stack_fits(v0, Seq::empty(), g + steps)
}

/// A run that has handed out nothing tracks the whole.
proof fn lemma_run_tracks_start(v0: TokView<()>)
    ensures
        run_tracks(v0, v0, Seq::empty(), 0),
{
    assert forall|g: nat| #[trigger] ends_within(v0, g) implies g > 0 && ends_within(v0, (g - 0) as nat) by {}
    assert forall|g: nat| #[trigger] ends_within(v0, g) implies ends_within(v0, g + 0) by {}
    assert forall|g: nat| #[trigger] stack_fits(v0, Seq::empty(), g) implies stack_fits(v0, Seq::empty(), g + 0) by {}
}

/// Handing out one more token, with room on the stack and no failure, keeps tracking.
proof fn lemma_run_tracks_next(v0: TokView<()>, u: TokView<()>, stk: Seq<StateV>, steps: nat, t: TokenV<()>)
    requires
        run_tracks(v0, u, stk, steps),
        next_spec(u).1 == Some(t),
        !next_panics(u),
        stk.len() + 1 < STACK_LIMIT,
    ensures
        run_tracks(v0, next_spec(u).0, step_spec(bare(stk), t).stack, steps + 1),
{
    let u1 = next_spec(u).0;
    let stk1 = step_spec(bare(stk), t).stack;
    assert forall|f: nat| #[trigger] ends_within(v0, f) implies f > steps + 1 && ends_within(u1, (f - (steps + 1)) as nat) by {
        let g = (f - steps) as nat;
        assert(ends_within(u, g));
        assert(ends_within(u1, (g - 1) as nat));
        assert((g - 1) as nat == (f - (steps + 1)) as nat);
    }
    assert forall|f: nat| #[trigger] stack_fits(v0, Seq::empty(), f) && f > steps + 1 implies stack_fits(u1, stk1, (f - (steps + 1)) as nat) by {
        let g = (f - steps) as nat;
        assert(stack_fits(u, stk, g));
        assert((g - 1) as nat == (f - (steps + 1)) as nat);
    }
    assert forall|g: nat| #[trigger] ends_within(u1, g) implies ends_within(v0, g + (steps + 1)) by {
        assert(ends_within(u, g + 1));
        assert(g + 1 + steps == g + (steps + 1));
    }
    assert forall|g: nat| #[trigger] stack_fits(u1, stk1, g) implies stack_fits(v0, Seq::empty(), g + (steps + 1)) by {
        assert(stack_fits(u, stk, g + 1));
        assert(g + 1 + steps == g + (steps + 1));
    }
}

/// Whether converting `text` ends: runs the converter without options onto a scratch
/// output, and gives up at the first failing table check, table start (after which the
/// tokenizer hands out the same table start forever) or stack of open elements as full
/// as `STACK_LIMIT` allows.
pub fn conversion_ends(text: &str, inline_only: bool) -> (r: bool)
    ensures
        r == converts(text@, inline_only),
{
    let mut tok = if inline_only {
        MarkdownTokenizer::<()>::new_inline(text)
    } else {
        MarkdownTokenizer::<()>::new(text)
    };
    let mut states = stack_new();
    let mut out = String::new();
    let mut opts = NoOptions;
    let ghost v0 = tok@;
    let ghost mut steps: nat = 0;
    proof {
        assert(states_view(states) =~= Seq::<StateV>::empty());
        lemma_run_tracks_start(v0);
    }
    loop
        invariant
            v0 == doc_view(text@, inline_only),
            tokenizer_wf(tok@),
            run_tracks(v0, tok@, states_view(states), steps),
        decreases progress(tok@),
    {
        let ghost u = tok@;
        let ghost stk = states_view(states);
        if tok.next_fails() {
            proof {
                assert forall|f: nat| !(#[trigger] ends_within(v0, f)) by {
                    if ends_within(v0, f) {
                        assert(ends_within(u, (f - steps) as nat));
                    }
                }
            }
            return false;
        }
        proof {
            lemma_next_progress(u);
            lemma_next_no_definition(u);
            lemma_progress_nonneg(u);
        }
        match tok.next() {
            None => {
                proof {
                    assert(ends_within(u, 1));
                    assert(stack_fits(u, stk, 1));
                    assert(ends_within(v0, 1 + steps) && stack_fits(v0, Seq::empty(), 1 + steps));
                }
                return true;
            },
            Some(t) => {
                let table = match t {
                    MarkdownToken::TableStart(_) => true,
                    _ => false,
                };
                if table {
                    proof {
                        law_table_start_never_ends(u);
                        assert forall|f: nat| !(#[trigger] ends_within(v0, f)) by {
                            if ends_within(v0, f) {
                                let g = (f - steps) as nat;
                                assert(ends_within(u, g));
                                assert(ends_within(next_spec(u).0, (g - 1) as nat));
                            }
                        }
                    }
                    return false;
                }
                proof {
                    assert(stack_items(states).len() == stk.len());
                }
                if stack_len(&states) >= STACK_LIMIT - 1 {
                    proof {
                        assert forall|f: nat| !(#[trigger] ends_within(v0, f) && stack_fits(v0, Seq::empty(), f)) by {
                            if ends_within(v0, f) && stack_fits(v0, Seq::empty(), f) {
                                assert(stack_fits(u, stk, (f - steps) as nat));
                            }
                        }
                    }
                    return false;
                }
                let ghost tv = t@;
                proof {
                    lemma_step_stack(conv_of(states, out@, opts, false), tv);
                    lemma_run_tracks_next(v0, u, stk, steps, tv);
                }
                step(&mut states, &mut out, &mut opts, false, t);
                proof {
                    steps = steps + 1;
                }
            },
        }
    }
}

/// Converts a Markdown document to HTML, or gives `None` where the conversion would not
/// end (see `conversion_ends`).
pub fn try_to_html(source: &str) -> (r: Option<String>)
    ensures
        r is Some <==> converts(source@, false),
        r matches Some(s) ==> s@ == convert_spec(source@, false, Seq::empty(), NoOptions, false).out,
{
    if conversion_ends(source, false) {
        Some(to_html(source))
    } else {
        None
    }
}

/// `to_html_with_options`, or `None`, with the options untouched, where the conversion
/// would not end.
pub fn try_to_html_with_options<O: Options>(source: &str, options: &mut O) -> (r: Option<String>)
    ensures
        r is Some <==> converts(source@, false),
        r is None ==> *final(options) == *old(options),
        r matches Some(s) ==> ({
            let c = convert_spec(source@, false, Seq::empty(), *old(options), true);
            s@ == c.out && *final(options) == c.opts
        }),
{
    if conversion_ends(source, false) {
        Some(to_html_with_options(source, options))
    } else {
        None
    }
}

/// `inline_html`, or nothing appended where the conversion would not end; says which.
pub fn try_inline_html(md: &str, out: &mut String) -> (r: bool)
    ensures
        r == converts(md@, true),
        r ==> final(out)@ == convert_spec(md@, true, old(out)@, NoOptions, false).out,
        !r ==> final(out)@ == old(out)@,
{
    if conversion_ends(md, true) {
        inline_html(md, out);
        true
    } else {
        false
    }
}

/// `inline_html_with_options`, or nothing appended and the options untouched where the
/// conversion would not end; says which.
pub fn try_inline_html_with_options<O: Options>(md: &str, out: &mut String, options: &mut O) -> (r: bool)
    ensures
        r == converts(md@, true),
        r ==> ({
            let c = convert_spec(md@, true, old(out)@, *old(options), true);
            final(out)@ == c.out && *final(options) == c.opts
        }),
        !r ==> final(out)@ == old(out)@ && *final(options) == *old(options),
{
    if conversion_ends(md, true) {
        inline_html_with_options(md, out, options);
        true
    } else {
        false
    }
}

/// Closing everything leaves no element open.
proof fn lemma_close_all_empty<O: Options>(c: Conv<O>)
    ensures
        close_through_spec(c, Through::All).stack.len() == 0,
    decreases c.stack.len(),
{
    if c.stack.len() > 0 {
        lemma_close_all_empty(close_spec(c.pop(), c.stack.last()));
    }
}

/// A run that reaches the end of the tokens leaves no element open.
proof fn lemma_run_all_closed<O: Options>(v: TokView<()>, c: Conv<O>, fuel: nat)
    requires
        ends_within(v, fuel),
    ensures
        run_spec(v, c, fuel).stack.len() == 0,
    decreases fuel,
{
    let (v1, t) = next_spec(v);
    match t {
        None => lemma_close_all_empty(c),
        Some(t) => lemma_run_all_closed(v1, step_spec(c, t), (fuel - 1) as nat),
    }
}

/// Every element the converter opens (paragraph, list, emphasis, link, custom block) is
/// closed by the end of a conversion.
pub proof fn law_all_closed<O: Options>(text: Seq<char>, inline_only: bool, out: Seq<char>, opts: O, active: bool)
    requires
        converts(text, inline_only),
    ensures
        convert_spec(text, inline_only, out, opts, active).stack.len() == 0,
{
    let f = doc_fuel(text, inline_only);
    lemma_run_all_closed(doc_view(text, inline_only), Conv { stack: Seq::empty(), out, opts, active }, f);
}

/// The open elements never reach `STACK_LIMIT` within `fuel` tokens when there is room
/// for one more per token.
proof fn lemma_stack_fits(v: TokView<()>, stack: Seq<StateV>, fuel: nat)
    requires
        stack.len() + fuel < STACK_LIMIT,
    ensures
        stack_fits(v, stack, fuel),
    decreases fuel,
{
    if fuel > 0 {
        if let Some(t) = next_spec(v).1 {
            law_one_element_per_token(bare(stack), t);
            lemma_stack_fits(next_spec(v).0, step_spec(bare(stack), t).stack, (fuel - 1) as nat);
        }
    }
}

/// Conversion ends on every text on which the tokenizer, up to its end, neither fails a
/// table check nor stops at a table start, as long as four elements per character fit
/// under `STACK_LIMIT`: it ends within four tokens per character and four more.
pub proof fn law_conversion_ends(text: Seq<char>, inline_only: bool)
    requires
        runs_clean(doc_view(text, inline_only)),
        4 * text.len() + 4 < STACK_LIMIT,
    ensures
        converts(text, inline_only),
        ends_within(doc_view(text, inline_only), (4 * text.len() + 4) as nat),
{
    let v = doc_view(text, inline_only);
    lemma_progress_nonneg(v);
    law_tokenizer_ends(v);
    let f = (progress(v) + 1) as nat;
    lemma_stack_fits(v, Seq::empty(), f);
    assert(ends_within(v, f) && stack_fits(v, Seq::empty(), f));
    lemma_ends_within_more(v, f, (4 * text.len() + 4) as nat);
}

/// Closing, without options, only appends to the output.
proof fn lemma_close_extends<O: Options>(c: Conv<O>, k: Through)
    requires
        !c.active,
    ensures
        c.out.is_prefix_of(close_through_spec(c, k).out),
        !close_through_spec(c, k).active,
    decreases c.stack.len(),
{
    if c.stack.len() > 0 {
        let c1 = close_spec(c.pop(), c.stack.last());
        assert(c.out.is_prefix_of(c1.out));
        if !stops(k, c.stack.last()) {
            lemma_close_extends(c1, k);
        }
    }
}

/// Closing the inline elements, without options, only appends to the output.
proof fn lemma_close_inline_extends<O: Options>(c: Conv<O>)
    requires
        !c.active,
    ensures
        c.out.is_prefix_of(close_inline_spec(c).out),
        !close_inline_spec(c).active,
    decreases c.stack.len(),
{
    if c.stack.len() > 0 && is_inline(c.stack.last()) {
        let c1 = close_spec(c.pop(), c.stack.last());
        assert(c.out.is_prefix_of(c1.out));
        lemma_close_inline_extends(c1);
    }
}

/// A token, without options, only appends to the output.
proof fn lemma_step_extends<O: Options>(c: Conv<O>, t: TokenV<()>)
    requires
        !c.active,
    ensures
        c.out.is_prefix_of(step_spec(c, t).out),
        !step_spec(c, t).active,
{
    lemma_close_extends(c, Through::Paragraph);
    lemma_close_extends(c, Through::Custom);
    lemma_close_extends(c, Through::Link);
    lemma_close_inline_extends(c);
    let ci = close_inline_spec(c);
    let cp = close_through_spec(c, Through::Paragraph);
    assert(c.out.is_prefix_of(ci.out + "</span>"@));
    match t {
        TokenV::CustomBlockStart { label, args, colons: n, .. } => {
            assert(cp.out.is_prefix_of(cp.out + block_start_fallback(n, label, args)));
        },
        _ => {},
    }
}

/// A run without options only appends to the output.
proof fn lemma_run_extends<O: Options>(v: TokView<()>, c: Conv<O>, fuel: nat)
    requires
        !c.active,
    ensures
        c.out.is_prefix_of(run_spec(v, c, fuel).out),
    decreases fuel,
{
    if fuel > 0 {
        let (v1, t) = next_spec(v);
        match t {
            None => lemma_close_extends(c, Through::All),
            Some(t) => {
                lemma_step_extends(c, t);
                lemma_run_extends(v1, step_spec(c, t), (fuel - 1) as nat);
            },
        }
    }
}

/// Without options, a conversion keeps what `out` held and only appends after it, as
/// `inline_html` does on the caller's string.
pub proof fn law_converts_by_appending<O: Options>(text: Seq<char>, inline_only: bool, out: Seq<char>, opts: O)
    ensures
        out.is_prefix_of(convert_spec(text, inline_only, out, opts, false).out),
{
    lemma_run_extends(
        doc_view(text, inline_only),
        Conv { stack: Seq::empty(), out, opts, active: false },
        doc_fuel(text, inline_only),
    );
}

/// Escaping a text escapes its parts one after the other.
pub proof fn law_escape_concat(a: Seq<char>, b: Seq<char>)
    ensures
        escape_safe(a + b) == escape_safe(a) + escape_safe(b),
    decreases b.len(),
{
    if b.len() == 0 {
        assert(a + b =~= a);
        assert(escape_safe(b) =~= Seq::<char>::empty());
        assert(escape_safe(a) + escape_safe(b) =~= escape_safe(a));
    } else {
        law_escape_concat(a, b.drop_last());
        assert((a + b).drop_last() =~= a + b.drop_last());
        assert((a + b).last() == b.last());
        assert(escape_safe(a + b) =~= escape_safe(a) + escape_safe(b));
    }
}

/// The characters that escaping never lets through.
pub open spec fn markup_char(c: char) -> bool {
    c == '<' || c == '>' || c == '"' || c == '\'' || c == '/'
}

/// Escaped text holds no character that could start or end a tag or an attribute value,
/// so a text token can never open an element in the output.
pub proof fn law_escaped_text_has_no_markup(s: Seq<char>)
    ensures
        forall|i: int| 0 <= i < escape_safe(s).len() ==> !markup_char(#[trigger] escape_safe(s)[i]),
    decreases s.len(),
{
    if s.len() > 0 {
        law_escaped_text_has_no_markup(s.drop_last());
        let e = escape_safe(s.drop_last());
        let c = escape_char(s.last());
        assert(forall|i: int| 0 <= i < c.len() ==> !markup_char(#[trigger] c[i]));
        assert forall|i: int| 0 <= i < escape_safe(s).len() implies !markup_char(#[trigger] escape_safe(s)[i]) by {
            if i < e.len() {
                assert(escape_safe(s)[i] == e[i]);
            } else {
                assert(escape_safe(s)[i] == c[i - e.len()]);
            }
        }
    }
}

/// Whether the front matter tokens from `v` on, within `fuel` tokens, all parse as YAML.
pub open spec fn front_matter_parses(v: TokView<()>, fuel: nat) -> bool
    decreases fuel,
{
    fuel > 0 ==> match next_spec(v).1 {
        None => true,
        Some(t) => (t matches TokenV::FrontMatter(fm, _) ==> yaml_parse(fm) is Ok)
            && front_matter_parses(next_spec(v).0, (fuel - 1) as nat),
    }
}

/// Whether every hook of `O` has the trait's default effect: it handles nothing and
/// changes neither the options nor the output.
pub open spec fn keeps_defaults<O: Options>() -> bool {
    &&& forall|o: O, fm: serde_value::Value, out: Seq<char>|
        #[trigger] o.frontmatter_effect(fm, out) == (o, out)
    &&& forall|o: O, l: Seq<char>, a: Seq<char>, out: Seq<char>|
        #[trigger] o.inline_custom_effect(l, a, out) == (o, out, false)
    &&& forall|o: O, l: Seq<char>, a: Seq<char>, out: Seq<char>|
        #[trigger] o.custom_block_start_effect(l, a, out) == (o, out, false)
    &&& forall|o: O, l: Seq<char>, out: Seq<char>|
        #[trigger] o.custom_block_end_effect(l, out) == (o, out, false)
    &&& forall|o: O, m: Seq<char>, out: Seq<char>|
        #[trigger] o.inline_math_effect(m, out) == (o, out, false)
    &&& forall|o: O, m: Seq<char>, out: Seq<char>|
        #[trigger] o.block_math_effect(m, out) == (o, out, false)
}

/// A converter with options and one without that hold the same elements and output.
pub open spec fn same_but_options<O: Options>(c: Conv<O>, d: Conv<NoOptions>) -> bool {
    c.stack == d.stack && c.out == d.out && !d.active
}

/// Closing with options that keep the defaults writes what closing without options does.
proof fn lemma_close_no_options<O: Options>(c: Conv<O>, d: Conv<NoOptions>, k: Through)
    requires
        keeps_defaults::<O>(),
        same_but_options(c, d),
    ensures
        same_but_options(close_through_spec(c, k), close_through_spec(d, k)),
    decreases c.stack.len(),
{
    if c.stack.len() > 0 {
        let s = c.stack.last();
        if let StateV::CustomBlock(_, label) = s {
            assert(c.pop().opts.custom_block_end_effect(label, c.pop().out) == (c.pop().opts, c.pop().out, false));
        }
        if !stops(k, s) {
            lemma_close_no_options(close_spec(c.pop(), s), close_spec(d.pop(), s), k);
        }
    }
}

/// Closing the inline elements with options that keep the defaults writes what closing
/// them without options does.
proof fn lemma_close_inline_no_options<O: Options>(c: Conv<O>, d: Conv<NoOptions>)
    requires
        keeps_defaults::<O>(),
        same_but_options(c, d),
    ensures
        same_but_options(close_inline_spec(c), close_inline_spec(d)),
    decreases c.stack.len(),
{
    if c.stack.len() > 0 && is_inline(c.stack.last()) {
        let s = c.stack.last();
        lemma_close_inline_no_options(close_spec(c.pop(), s), close_spec(d.pop(), s));
    }
}

/// A token, with options that keep the defaults, writes what it writes without options,
/// but for front matter that does not parse.
proof fn lemma_step_no_options<O: Options>(c: Conv<O>, d: Conv<NoOptions>, t: TokenV<()>)
    requires
        keeps_defaults::<O>(),
        same_but_options(c, d),
        t matches TokenV::FrontMatter(fm, _) ==> yaml_parse(fm) is Ok,
    ensures
        same_but_options(step_spec(c, t), step_spec(d, t)),
{
    lemma_close_no_options(c, d, Through::Paragraph);
    lemma_close_no_options(c, d, Through::Custom);
    lemma_close_no_options(c, d, Through::Link);
    lemma_close_inline_no_options(c, d);
    let cp = close_through_spec(c, Through::Paragraph);
    let ci = close_inline_spec(c);
    match t {
        TokenV::FrontMatter(fm, _) => {
            if let Ok(v) = yaml_parse(fm) {
                assert(c.opts.frontmatter_effect(v, c.out) == (c.opts, c.out));
            }
        },
        TokenV::InlineCustom { label, args, .. } => {
            assert(c.opts.inline_custom_effect(label, args, c.out) == (c.opts, c.out, false));
        },
        TokenV::CustomBlockStart { label, args, colons: n, .. } => {
            let c1 = cp.push(StateV::CustomBlock(n, label));
            assert(c1.opts.custom_block_start_effect(label, args, c1.out) == (c1.opts, c1.out, false));
        },
        TokenV::InlineMath(m, _) => {
            assert(ci.opts.inline_math_effect(m, ci.out) == (ci.opts, ci.out, false));
        },
        TokenV::BlockMath(m, _) => {
            assert(cp.opts.block_math_effect(m, cp.out) == (cp.opts, cp.out, false));
        },
        _ => {},
    }
}

/// A run, with options that keep the defaults, writes what it writes without options,
/// when all its front matter parses.
proof fn lemma_run_no_options<O: Options>(v: TokView<()>, c: Conv<O>, d: Conv<NoOptions>, fuel: nat)
    requires
        keeps_defaults::<O>(),
        same_but_options(c, d),
        front_matter_parses(v, fuel),
    ensures
        same_but_options(run_spec(v, c, fuel), run_spec(v, d, fuel)),
    decreases fuel,
{
    if fuel > 0 {
        let (v1, t) = next_spec(v);
        match t {
            None => lemma_close_no_options(c, d, Through::All),
            Some(t) => {
                lemma_step_no_options(c, d, t);
                lemma_run_no_options(v1, step_spec(c, t), step_spec(d, t), (fuel - 1) as nat);
            },
        }
    }
}

/// Options whose hooks all keep the trait's defaults render a document as no options
/// do, as long as its front matter parses (in particular when there is none): only a
/// YAML error is shown, and only when there are options.
pub proof fn law_default_options_render_as_none<O: Options>(text: Seq<char>, inline_only: bool, out: Seq<char>, opts: O)
    requires
        keeps_defaults::<O>(),
        front_matter_parses(doc_view(text, inline_only), doc_fuel(text, inline_only)),
    ensures
        convert_spec(text, inline_only, out, opts, true).out
            == convert_spec(text, inline_only, out, NoOptions, false).out,
{
    lemma_run_no_options(
        doc_view(text, inline_only),
        Conv { stack: Seq::empty(), out, opts, active: true },
        Conv { stack: Seq::empty(), out, opts: NoOptions, active: false },
        doc_fuel(text, inline_only),
    );
}

/// `NoOptions` keeps the trait's defaults.
pub proof fn lemma_no_options_keep_defaults()
    ensures
        keeps_defaults::<NoOptions>(),
{
}

/// `inline` neither goes back to the start state nor hands out front matter.
proof fn lemma_inline_no_start(v: TokView<()>)
    requires
        v.state != TokenizerState::Start,
    ensures
        inline_spec(v).0.state != TokenizerState::Start,
        !(inline_spec(v).1 matches Some(TokenV::FrontMatter(..))),
    decreases 3 * v.cur.rest.len() + 1, 0int,
{
    lemma_inline_k_bounds(v);
    lemma_inline_stop_kind(v);
    let (c1, txt) = v.cur.take(inline_k(v));
    if txt.len() == 0 && inline_why(v) is Some && inline_why(v)->0 is Next {
        lemma_next_no_start(inline_after(v));
    }
}

/// The dispatch on a state other than the start neither goes back to the start state
/// nor hands out front matter.
proof fn lemma_dispatch_no_start(v: TokView<()>)
    requires
        v.state != TokenizerState::Start,
    ensures
        dispatch_spec(v).0.state != TokenizerState::Start,
        !(dispatch_spec(v).1 matches Some(TokenV::FrontMatter(..))),
    decreases 3 * v.cur.rest.len() + 2, 0int,
{
    match v.state {
        TokenizerState::Top => {},
        _ => lemma_inline_no_start(v),
    }
}

/// Past the start state, `next` never comes back to it and hands out no front matter.
proof fn lemma_next_no_start(v: TokView<()>)
    requires
        v.state != TokenizerState::Start,
    ensures
        next_spec(v).0.state != TokenizerState::Start,
        !(next_spec(v).1 matches Some(TokenV::FrontMatter(..))),
    decreases next_measure(v), 1int,
{
    let v0 = TokView { next: None, ..v };
    match v.next {
        Some(NextV::Escape) => {
            let c1 = v.cur.pop();
            if c1.rest.len() == 0 {
                lemma_dispatch_no_start(TokView { cur: c1, ..v0 });
            }
        },
        Some(NextV::TableStart) => lemma_dispatch_no_start(v0),
        None => lemma_dispatch_no_start(v0),
        _ => {},
    }
}

/// Past the start state there is no front matter left to parse.
proof fn lemma_no_start_parses(v: TokView<()>, fuel: nat)
    requires
        v.state != TokenizerState::Start,
    ensures
        front_matter_parses(v, fuel),
    decreases fuel,
{
    if fuel > 0 {
        lemma_next_no_start(v);
        if next_spec(v).1 is Some {
            lemma_no_start_parses(next_spec(v).0, (fuel - 1) as nat);
        }
    }
}

/// A text that, after its white space, starts with neither `---` nor `+++` (or any text
/// converted as inline text) has no front matter, so none fails to parse.
pub proof fn law_no_front_matter_parses(text: Seq<char>, inline_only: bool, fuel: nat)
    requires
        inline_only || fence_of(text) is None,
    ensures
        front_matter_parses(doc_view(text, inline_only), fuel),
{
    let v = doc_view(text, inline_only);
    if inline_only {
        lemma_no_start_parses(v, fuel);
    } else if fuel > 0 {
        let vt = TokView { state: TokenizerState::Top, ..v };
        assert(next_spec(v) == dispatch_spec(vt));
        lemma_dispatch_no_start(vt);
        if next_spec(v).1 is Some {
            lemma_no_start_parses(next_spec(v).0, (fuel - 1) as nat);
        }
    }
}

/// Options that keep the trait's defaults render a text without front matter exactly as
/// no options do.
pub proof fn law_no_front_matter_renders_as_none<O: Options>(text: Seq<char>, inline_only: bool, out: Seq<char>, opts: O)
    requires
        keeps_defaults::<O>(),
        inline_only || fence_of(text) is None,
    ensures
        convert_spec(text, inline_only, out, opts, true).out
            == convert_spec(text, inline_only, out, NoOptions, false).out,
{
    law_no_front_matter_parses(text, inline_only, doc_fuel(text, inline_only));
    law_default_options_render_as_none(text, inline_only, out, opts);
}

/// The tag of a heading of level `u`: `h` and the digit of `u + 1` for the levels
/// below five, `h6` from five on.
pub proof fn law_heading_tag(u: u8)
    ensures
        u < 5 ==> heading_name(u) == seq!['h', ((u as u32) + 49) as char],
        u >= 5 ==> heading_name(u) == seq!['h', '6'],
{
    reveal_strlit("h1");
    reveal_strlit("h2");
    reveal_strlit("h3");
    reveal_strlit("h4");
    reveal_strlit("h5");
    reveal_strlit("h6");
    if u == 0 {
        assert(((0u32 + 49) as char) == '1');
        assert("h1"@ =~= seq!['h', '1']);
    } else if u == 1 {
        assert(((1u32 + 49) as char) == '2');
        assert("h2"@ =~= seq!['h', '2']);
    } else if u == 2 {
        assert(((2u32 + 49) as char) == '3');
        assert("h3"@ =~= seq!['h', '3']);
    } else if u == 3 {
        assert(((3u32 + 49) as char) == '4');
        assert("h4"@ =~= seq!['h', '4']);
    } else if u == 4 {
        assert(((4u32 + 49) as char) == '5');
        assert("h5"@ =~= seq!['h', '5']);
    } else {
        assert("h6"@ =~= seq!['h', '6']);
    }
}

/// The digit of a heading tag of level `l`: `l + 1` below five, `6` from five on.
pub open spec fn heading_digit(l: u8) -> char {
    if l < 5 {
        ((l as u32) + 49) as char
    } else {
        '6'
    }
}

/// A heading token of level `l` ends the paragraph, opens a heading element and writes
/// `<h` with the digit of `l + 1` (at most `6`); closing that element writes the
/// matching `</h..>`.
pub proof fn law_heading_element<O: Options>(c: Conv<O>, l: u8, r: SourceRange<()>)
    ensures
        ({
            let c1 = close_through_spec(c, Through::Paragraph);
            let c2 = step_spec(c, TokenV::Heading(l, r));
            &&& c2.out == c1.out + seq!['<', 'h', heading_digit(l), '>']
            &&& c2.stack == c1.stack.push(StateV::Heading(l))
        }),
        close_spec(c, StateV::Heading(l)).out == c.out + seq!['<', '/', 'h', heading_digit(l), '>'],
{
    law_heading_tag(l);
    reveal_strlit("<");
    reveal_strlit(">");
    reveal_strlit("</");
    let c1 = close_through_spec(c, Through::Paragraph);
    assert("<"@ + heading_name(l) + ">"@ =~= seq!['<', 'h', heading_digit(l), '>']);
    assert("</"@ + heading_name(l) + ">"@ =~= seq!['<', '/', 'h', heading_digit(l), '>']);
    assert(c1.push(StateV::Heading(l)).write("<"@ + heading_name(l) + ">"@).out =~= c1.out + seq!['<', 'h', heading_digit(l), '>']);
    assert(c.write("</"@ + heading_name(l) + ">"@).out =~= c.out + seq!['<', '/', 'h', heading_digit(l), '>']);
}

} // verus!
