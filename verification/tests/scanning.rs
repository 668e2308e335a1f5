use flodown::parsesource::Str;
use flodown::sourcerefs::ByteOffset;
use flodown::strings::ParseStr;

#[test]
fn new_starts_at_origin() {
    let p = ParseStr::<ByteOffset>::new("abc");
    assert_eq!(p.rest(), "abc");
    assert_eq!(p.curr_pos(), ByteOffset { offset: 0 });
    assert!(p.starts_with_str("ab"));
    assert!(!p.starts_with_str("b"));
}

#[test]
fn line_end_counts_bytes() {
    let mut p = ParseStr::<ByteOffset>::new("h\u{e9}llo\r\nworld");
    let (line, pos) = p.read_until_line_end();
    assert_eq!(line, "h\u{e9}llo");
    assert_eq!(pos, ByteOffset { offset: 6 });
    assert_eq!(p.curr_pos(), ByteOffset { offset: 8 });
    assert_eq!(p.rest(), "world");
}

#[test]
fn pop_head_reads_crlf_as_one_line_break() {
    let mut p = ParseStr::<ByteOffset>::new("\r\nx");
    assert_eq!(p.pop_head(), Some('\n'));
    assert_eq!(p.curr_pos(), ByteOffset { offset: 2 });
    assert_eq!(p.pop_head(), Some('x'));
    assert_eq!(p.pop_head(), None);
}

#[test]
fn read_until_escaped_skips_escaped_finds() {
    let mut p = ParseStr::<ByteOffset>::new("a\\`b`c");
    assert_eq!(p.read_until_escaped('`', '\\'), "a\\`b");
    assert_eq!(p.rest(), "`c");
    let mut q = ParseStr::<ByteOffset>::new("abc");
    assert_eq!(q.read_until_escaped('`', '\\'), "abc");
    assert_eq!(q.rest(), "");
}

#[test]
fn drop_prefix_only_when_present() {
    let mut p = ParseStr::<ByteOffset>::new("abc");
    assert!(!p.drop_prefix("x"));
    assert!(p.drop_prefix("ab"));
    assert_eq!(p.rest(), "c");
    assert_eq!(p.curr_pos(), ByteOffset { offset: 2 });
}

#[test]
fn preview_keeps_the_input() {
    let p = ParseStr::<ByteOffset>::new("f(a,b),c");
    assert_eq!(p.preview_until_with_brackets('(', ')', |c| c == ','), "f(a,b)");
    assert_eq!(p.rest(), "f(a,b),c");
}

#[test]
fn read_until_inclusive_keeps_the_stop() {
    let mut p = ParseStr::<ByteOffset>::new("ab;cd");
    assert_eq!(p.read_until_inclusive(|c| c == ';'), "ab;");
    assert_eq!(p.rest(), "cd");
}

#[test]
fn read_until_is_on_the_rest() {
    let mut p = ParseStr::<ByteOffset>::new("ab--c");
    assert_eq!(p.read_until_is(|s: &str| s.starts_with("--")), "ab");
    assert_eq!(p.rest(), "--c");
}

#[test]
fn read_n_does_not_split_crlf() {
    let mut p = ParseStr::<ByteOffset>::new("\r\nx");
    assert_eq!(p.read_n(1), "\r");
    assert_eq!(p.rest(), "x");
}

#[test]
fn skip_and_read_until_str() {
    let mut p = ParseStr::<ByteOffset>::new("abcdef");
    p.skip(1);
    assert_eq!(p.read_until_str("de"), "bc");
    assert_eq!(p.rest(), "def");
    assert_eq!(p.read_until_str("zz"), "def");
    assert_eq!(p.rest(), "");
}

#[test]
fn brackets_hide_the_stop() {
    let mut p = ParseStr::<ByteOffset>::new("a(b,c),d");
    assert_eq!(p.read_until_with_brackets('(', ')', |c| c == ','), "a(b,c)");
    assert_eq!(p.rest(), ",d");
}

#[test]
fn read_while_and_until() {
    let mut p = ParseStr::<ByteOffset>::new("aab");
    assert_eq!(p.read_while(|c| c == 'a'), "aa");
    assert_eq!(p.read_until(|c| c == 'x'), "b");
}

#[test]
fn trim_start_skips_white_space() {
    let mut p = ParseStr::<ByteOffset>::new("  \r\n\tx");
    p.trim_start();
    assert_eq!(p.rest(), "x");
    assert_eq!(p.curr_pos(), ByteOffset { offset: 5 });
    assert_eq!(p.peek_head(), Some('x'));
    assert!(p.starts_with('x'));
}

#[test]
fn offset_can_be_moved() {
    let mut p = ParseStr::<ByteOffset>::new("abc");
    p.offset().offset = 10;
    assert_eq!(p.curr_pos(), ByteOffset { offset: 10 });
    assert_eq!(p.rest(), "abc");
}

#[test]
fn str_strip_prefix_trims() {
    assert_eq!(<&str as Str>::strip_prefix("abc  def", "abc"), Ok("def"));
    assert_eq!(<&str as Str>::strip_prefix("abc", "x"), Err("abc"));
    assert_eq!(<String as Str>::strip_prefix("ab c".to_string(), "ab"), Ok("c".to_string()));
}

#[test]
fn str_split_and_trim() {
    assert_eq!(<&str as Str>::split_n("abcd", 1), ("a", "bcd"));
    let mut s = "  x ";
    <&str as Str>::trim_ws(&mut s);
    assert_eq!(s, "x");
    let mut t = String::from(" y\t");
    <String as Str>::trim_ws(&mut t);
    assert_eq!(t, "y");
}

#[test]
fn str_split_noparens() {
    let s = "a,(b,c),d";
    assert_eq!(<&str as Str>::split_noparens(&s, '(', ')', ','), vec!["a", "(b,c)", "d"]);
    let t = String::from("x,y");
    assert_eq!(<String as Str>::split_noparens(&t, '(', ')', ','), vec!["x", "y"]);
}

#[test]
fn split_noparens_pieces_join_back() {
    for s in ["a,(b,c),d", "", ",,", "(a,b", "x)(,y", "a,b(c,d)e,f"] {
        let pieces = <&str as Str>::split_noparens(&s, '(', ')', ',');
        assert!(!pieces.is_empty());
        assert_eq!(pieces.join(","), s);
    }
}

#[test]
fn preview_gives_what_read_reads() {
    for s in ["a(b,c),d", "(x,(y,z)),w", "no stop", ",first", "a)(b,c),d"] {
        let p = ParseStr::<ByteOffset>::new(s);
        let mut q = ParseStr::<ByteOffset>::new(s);
        let a = p.preview_until_with_brackets('(', ')', |c| c == ',');
        let b = q.read_until_with_brackets('(', ')', |c| c == ',');
        assert_eq!(a, b);
        assert_eq!(p.rest(), s);
    }
}
