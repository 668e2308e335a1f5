use flodown::blocks::{is_footnote, is_numbered_list, is_table};
use flodown::custom::{definition_title, inline_element, is_definition_block, split_symbol_args, InlineElement};
use flodown::sourcerefs::{ByteOffset, SourceRange};
use flodown::tokenizer::{MarkdownToken, MarkdownTokenizer};

#[test]
fn symbol_arguments_split_at_the_first_comma() {
    assert_eq!(split_symbol_args("name,text"), ("name", Some("text")));
    assert_eq!(split_symbol_args("a,b,c"), ("a", Some("b,c")));
    assert_eq!(split_symbol_args("name"), ("name", None));
    assert_eq!(split_symbol_args(""), ("", None));
}

#[test]
fn definition_titles() {
    assert_eq!(definition_title("title=\"My Def\""), "My Def");
    assert_eq!(definition_title("x title='  T  ' y"), "T");
    assert_eq!(definition_title("title=T"), "");
    assert_eq!(definition_title("title = \"T\""), "");
    assert_eq!(definition_title("title=\"open"), "");
    assert_eq!(definition_title("none"), "");
}

#[test]
fn numbered_list_markers() {
    assert!(is_numbered_list(b"12. x"));
    assert!(is_numbered_list(b"3) x"));
    assert!(!is_numbered_list(b"12 x"));
    assert!(!is_numbered_list(b"12"));
}

#[test]
fn footnote_markers() {
    assert!(is_footnote(b"[^a]: x"));
    assert!(!is_footnote(b"[a]:x"));
    assert!(!is_footnote(b"[a]"));
}

#[test]
fn table_headers() {
    assert!(is_table(b"|a|\n|---|\nx"));
    assert!(!is_table(b"| a |\n| --- |\nx"));
    assert!(!is_table(b"|a|\n|---|"));
    assert!(!is_table(b"|a|"));
}

#[test]
fn tokens_of_a_paragraph() {
    let mut t = MarkdownTokenizer::<()>::new("hello");
    assert_eq!(t.next(), Some(MarkdownToken::ParagraphStart(())));
    assert_eq!(t.next(), Some(MarkdownToken::Text("hello", SourceRange { start: (), end: () })));
    assert_eq!(t.next(), None);
}

#[test]
fn tokens_carry_byte_offsets() {
    let mut t = MarkdownTokenizer::<ByteOffset>::new("ab *c*");
    assert_eq!(t.next(), Some(MarkdownToken::ParagraphStart(ByteOffset { offset: 0 })));
    assert_eq!(
        t.next(),
        Some(MarkdownToken::Text(
            "ab ",
            SourceRange { start: ByteOffset { offset: 0 }, end: ByteOffset { offset: 3 } }
        ))
    );
    assert_eq!(t.next(), Some(MarkdownToken::Emph(b'*', ByteOffset { offset: 3 })));
}

#[test]
fn inline_tokenizer_has_no_paragraphs() {
    let mut t = MarkdownTokenizer::<()>::new_inline("a\n\nb");
    assert_eq!(t.next(), Some(MarkdownToken::Text("a\n\nb", SourceRange { start: (), end: () })));
    assert_eq!(t.next(), None);
}

#[test]
fn front_matter_token() {
    let mut t = MarkdownTokenizer::<()>::new("+++\nk = 1\n+++\n");
    assert_eq!(t.frontmatter(), Some(MarkdownToken::FrontMatter("k = 1\n", SourceRange { start: (), end: () })));
    let mut u = MarkdownTokenizer::<()>::new("text");
    assert_eq!(u.frontmatter(), None);
}

#[test]
fn link_tokens() {
    let mut t = MarkdownTokenizer::<()>::new("[x](http://a.b)");
    assert_eq!(t.next(), Some(MarkdownToken::ParagraphStart(())));
    assert_eq!(t.next(), Some(MarkdownToken::LinkStart("http://a.b/".to_string(), ())));
    assert_eq!(t.next(), Some(MarkdownToken::Text("x", SourceRange { start: (), end: () })));
    assert_eq!(t.next(), Some(MarkdownToken::LinkOrCustomEnd(())));
    assert_eq!(t.next(), None);
}

#[test]
fn ftml_inline_elements_by_label() {
    assert!(matches!(inline_element("sym", false), Some(InlineElement::Symbol)));
    assert!(matches!(inline_element("definition", true), Some(InlineElement::Definition)));
    assert!(matches!(inline_element("def", true), Some(InlineElement::Definiendum)));
    assert!(inline_element("def", false).is_none());
    assert!(inline_element("symbol", true).is_none());
    assert!(inline_element("", true).is_none());
}

#[test]
fn ftml_definition_blocks_by_label() {
    assert!(is_definition_block("definition"));
    assert!(!is_definition_block("definitions"));
    assert!(!is_definition_block("def"));
}
