use flodown::blocks::table_fails;
use flodown::html::{
    conversion_ends, inline_html, to_html, try_inline_html, try_inline_html_with_options, try_to_html,
    try_to_html_with_options, NoOptions,
};
use flodown::tokenizer::MarkdownTokenizer;

#[test]
fn ordinary_documents_end() {
    assert!(conversion_ends("hello", false));
    assert!(conversion_ends("# Title\n\nsome *text* and `code`\n\n- a\n- b", false));
    assert!(conversion_ends("", false));
}

#[test]
fn a_table_start_never_ends() {
    assert!(!conversion_ends("|a|\n|---|\nx", false));
    assert_eq!(try_to_html("text\n\n|a|\n|---|\nx"), None);
}

#[test]
fn a_table_without_second_line_fails() {
    assert!(table_fails(b"|a\n\nb"));
    assert!(!table_fails(b"|a|\n|---|\nx"));
    assert!(!table_fails(b"|a"));
    assert!(!conversion_ends("|a\n\nb", false));
    assert_eq!(try_to_html("|a\n\nb"), None);
}

#[test]
fn next_fails_on_the_table_shape_only() {
    let tok = MarkdownTokenizer::<()>::new("  |a\n\nb");
    assert!(tok.next_fails());
    let tok = MarkdownTokenizer::<()>::new("a |b\n\nc");
    assert!(!tok.next_fails());
}

#[test]
fn a_paragraph_line_starting_a_bad_table_fails() {
    assert!(!conversion_ends("a\n|b\n\nc", false));
}

#[test]
fn checked_conversion_agrees() {
    let src = "# Hi\n\na *b* and **c**";
    assert_eq!(try_to_html(src), Some(to_html(src)));
    let mut opts = NoOptions;
    assert_eq!(try_to_html_with_options(src, &mut opts), Some(to_html(src)));
}

#[test]
fn checked_inline_conversion_agrees() {
    let mut a = String::from("x: ");
    let mut b = String::from("x: ");
    assert!(try_inline_html("a *b* `c`", &mut a));
    inline_html("a *b* `c`", &mut b);
    assert_eq!(a, b);
    let mut c = String::new();
    let mut opts = NoOptions;
    assert!(try_inline_html_with_options("|a\n\nb", &mut c, &mut opts));
    assert!(!c.is_empty());
}

#[test]
fn tokens_are_at_most_four_per_character_and_four() {
    for s in ["", "a", "# h\n\n- x\n- y\n\n1. z\n", "*a* **b** `c` $d$ [e](f) \\g", "> q\n\n---\n\n$$x$$"] {
        let mut tok = MarkdownTokenizer::<()>::new(s);
        let mut n = 0;
        while tok.next().is_some() {
            n += 1;
        }
        assert!(n + 1 <= 4 * s.chars().count() + 4);
    }
}
