use flodown::html::{
    heading, inline_html, inline_html_with_options, to_html, to_html_with_options, NoOptions, Options,
};

#[test]
fn plain_text_is_a_paragraph() {
    assert_eq!(to_html("hello"), "<p>hello</p>");
}

#[test]
fn text_is_escaped() {
    assert_eq!(to_html("a<b & c"), "<p>a&lt;b &amp; c</p>");
}

#[test]
fn emphasis_opens_and_closes() {
    assert_eq!(to_html("a *b*"), "<p>a <em>b</em></p>");
}

#[test]
fn strong_and_strikethrough() {
    assert_eq!(to_html("**b** ~~s~~"), "<p><strong>b</strong> <s>s</s></p>");
}

#[test]
fn superscript_and_subscript() {
    assert_eq!(to_html("x^2^ H~2~O"), "<p>x<sup>2</sup> H<sub>2</sub>O</p>");
}

#[test]
fn highlight() {
    assert_eq!(to_html("==m=="), "<p><mark>m</mark></p>");
}

#[test]
fn unclosed_emphasis_is_closed_at_the_end() {
    assert_eq!(to_html("a *b"), "<p>a <em>b</em></p>");
}

#[test]
fn heading_levels_count_from_zero() {
    assert_eq!(heading(0), "h1");
    assert_eq!(heading(4), "h5");
    assert_eq!(heading(5), "h6");
    assert_eq!(heading(200), "h6");
}

#[test]
fn heading_then_paragraph() {
    assert_eq!(to_html("# Title\nText"), "<h2>Title</h2><p>Text</p>");
}

#[test]
fn paragraph_end_before_thematic_break() {
    assert_eq!(to_html("a\n\n***"), "<p>a</p></p><hr/>");
}

#[test]
fn link_with_normalised_url() {
    assert_eq!(to_html("[x](http://a.b)"), "<p><a href=\"http://a.b/\">x</a></p>");
}

#[test]
fn inline_code_is_escaped() {
    assert_eq!(
        to_html("`a<b`"),
        "<p><span style=\"font-family:monospace;background-color:lightgray\">a&lt;b</span></p>"
    );
}

#[test]
fn inline_math_without_renderer() {
    assert_eq!(
        to_html("$x$"),
        "<p><span style=\"font-family:monospace;background-color:crimson\">x</span></p>"
    );
}

#[test]
fn block_math_without_renderer() {
    assert_eq!(
        to_html("$$a$$"),
        "<div style=\"width:100%\"><div style=\"font-family:monospace;margin-left:auto;margin-right:auto;background-color:crimson;width:fit-content;\">a</div>"
    );
}

#[test]
fn block_code_is_escaped() {
    assert_eq!(
        to_html("```rs\nfn x<T>\n```"),
        "<pre style=\"background-color:lightgray\">fn x&lt;T&gt;\n</pre>"
    );
}

#[test]
fn bullet_list() {
    assert_eq!(to_html("- a\n- b"), "<ul><li>a</li><li>b</li></ul>");
}

#[test]
fn numbered_list() {
    assert_eq!(to_html("1. a\n2. b"), "<ol><li>a</li><li>b</li></ol>");
}

#[test]
fn nested_list() {
    assert_eq!(to_html("- a\n  - b"), "<ul><li>a<ul><li>b</li></ul></li></ul>");
}

#[test]
fn inline_custom_without_options() {
    assert_eq!(to_html("@[sym](a<b)"), "<p>@[sym](a&lt;b)</p>");
}

#[test]
fn custom_block_without_options() {
    assert_eq!(to_html("::note a<b\ntext\n:::"), ":: note a&lt;b\n<p>text</p></p>::\n");
}

#[test]
fn escaped_character() {
    assert_eq!(to_html("a\\*b"), "<p>a*b</p>");
    assert_eq!(to_html("\\<"), "<p>&lt;</p>");
}

#[test]
fn block_quote_is_shown_as_unhandled() {
    assert_eq!(to_html("> q"), "<pre>TODO: BlockQuoteStart(\n    (),\n)</pre>q");
}

#[test]
fn empty_document() {
    assert_eq!(to_html(""), "");
}

#[test]
fn inline_html_appends() {
    let mut out = String::from("pre:");
    inline_html("x **y**", &mut out);
    assert_eq!(out, "pre:x <strong>y</strong>");
}

#[test]
fn front_matter_is_not_shown() {
    assert_eq!(to_html("---\ntitle: x\n---\nhi"), "<p>hi</p>");
    let mut opts = NoOptions;
    assert_eq!(to_html_with_options("---\ntitle: x\n---\nhi", &mut opts), "<p>hi</p>");
}

#[test]
fn front_matter_error_is_shown_with_options() {
    let mut opts = NoOptions;
    let out = to_html_with_options("---\na: [1, 2\n---\n", &mut opts);
    assert!(out.starts_with("<pre style=\"border:1px dotted gray;background-color:lightgray\">"));
    assert!(out.ends_with("</pre>"));
    assert!(out.len() > 80);
    assert_eq!(to_html("---\na: [1, 2\n---\n"), "");
}

struct Recorder {
    frontmatter_maps: usize,
    customs: Vec<(String, String)>,
}

impl Options for Recorder {
    fn frontmatter(&mut self, frontmatter: serde_value::Value, out: &mut String) {
        if let serde_value::Value::Map(_) = frontmatter {
            self.frontmatter_maps += 1;
            out.push_str("[fm]");
        }
    }

    fn inline_custom(&mut self, label: &str, arguments: &str, out: &mut String) -> bool {
        self.customs.push((label.to_string(), arguments.to_string()));
        if label == "sym" {
            out.push_str("[sym]");
            true
        } else {
            out.push_str("?");
            false
        }
    }

    fn custom_block_start(&mut self, _label: &str, _arguments: &str, out: &mut String) -> bool {
        out.push_str("<div>");
        true
    }

    fn custom_block_end(&mut self, _label: &str, out: &mut String) -> bool {
        out.push_str("</div>");
        true
    }

    fn inline_math(&mut self, math: &str, out: &mut String) -> bool {
        out.push_str("M(");
        out.push_str(math);
        out.push(')');
        true
    }

    fn block_math(&mut self, _math: &str, _out: &mut String) -> bool {
        false
    }
}

#[test]
fn options_render_what_they_handle() {
    let mut opts = Recorder { frontmatter_maps: 0, customs: Vec::new() };
    let out = to_html_with_options("---\nk: v\n---\n@[sym](x) @[other](y) $m$", &mut opts);
    assert_eq!(opts.frontmatter_maps, 1);
    assert_eq!(
        opts.customs,
        vec![("sym".to_string(), "x".to_string()), ("other".to_string(), "y".to_string())]
    );
    assert_eq!(out, "[fm]<p>[sym] ?@[other](y) M(m)</p>");
}

#[test]
fn options_close_custom_blocks() {
    let mut opts = Recorder { frontmatter_maps: 0, customs: Vec::new() };
    let out = to_html_with_options("::note\ntext\n:::", &mut opts);
    assert_eq!(out, "<div><p>text</p></p></div>");
}

#[test]
fn inline_html_with_options_appends() {
    let mut opts = Recorder { frontmatter_maps: 0, customs: Vec::new() };
    let mut out = String::from(">");
    inline_html_with_options("$a$", &mut out, &mut opts);
    assert_eq!(out, ">M(a)");
}

#[test]
fn footnote_syntax_is_not_a_definition() {
    assert_eq!(to_html("[^a]: note"), "<p>[<sup>a]: note</sup></p>");
}

#[test]
fn no_options_render_as_none() {
    let doc = "---\nk: v\n---\n# T\n- a *b*\n- @[x](y)\n\n$m$ `c`";
    let mut opts = NoOptions;
    assert_eq!(to_html_with_options(doc, &mut opts), to_html(doc));
}

#[test]
fn outdented_item_under_a_single_list_opens_a_new_list() {
    assert_eq!(to_html("  - a\n- b"), "<ul><li>a<ul><li>b</li></ul></li></ul>");
}

#[test]
fn second_level_heading() {
    assert_eq!(to_html("## Sub"), "<h3>Sub</h3>");
}

#[test]
fn label_with_space_is_not_custom() {
    assert_eq!(to_html("@[a b](c)"), "<p>@[a b](c)</p>");
}

#[test]
fn empty_line_ends_paragraph() {
    assert_eq!(to_html("a\n\nb"), "<p>a</p></p><p>b</p>");
}

#[test]
fn block_math_ends_paragraph() {
    assert_eq!(
        to_html("x $$y$$ z"),
        "<p>x </p></p><div style=\"width:100%\"><div style=\"font-family:monospace;margin-left:auto;margin-right:auto;background-color:crimson;width:fit-content;\">y</div><p>z</p>"
    );
}

#[test]
fn numbered_list_with_parenthesis() {
    assert_eq!(to_html("1) a"), "<ol><li>a</li></ol>");
}

#[test]
fn invalid_url_is_not_a_link() {
    assert_eq!(to_html("[x](y z)"), "<p>[x](y z)</p>");
}
