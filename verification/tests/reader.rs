use flodown::io::{Bytes, ParseReader};
use flodown::sourcerefs::ByteOffset;

fn reader(s: &[u8]) -> ParseReader<Bytes, ByteOffset> {
    ParseReader::new(Bytes::new(s.to_vec()))
}

#[test]
fn pop_head_reads_line_breaks_as_newline() {
    let mut r = reader(b"a\r\nb\rc");
    assert_eq!(r.pop_head(), Some('a'));
    assert_eq!(r.pop_head(), Some('\n'));
    assert_eq!(r.curr_pos(), ByteOffset { offset: 3 });
    assert_eq!(r.pop_head(), Some('b'));
    assert_eq!(r.pop_head(), Some('\n'));
    assert_eq!(r.pop_head(), Some('c'));
    assert_eq!(r.pop_head(), None);
}

#[test]
fn multibyte_characters_are_decoded() {
    let mut r = reader("\u{e9}\u{20ac}".as_bytes());
    assert_eq!(r.pop_head(), Some('\u{e9}'));
    assert_eq!(r.pop_head(), Some('\u{20ac}'));
    assert_eq!(r.pop_head(), None);
}

#[test]
fn invalid_sequences_give_none() {
    let mut r = reader(&[0xC3, 0x41, b'z']);
    assert_eq!(r.pop_head(), None);
    assert_eq!(r.pop_head(), Some('z'));
}

#[test]
fn stray_bytes_stand_for_their_number() {
    let mut r = reader(&[0xA9]);
    assert_eq!(r.pop_head(), Some('\u{a9}'));
}

#[test]
fn truncated_sequence_gives_none() {
    let mut r = reader(&[0xE2, 0x82]);
    assert_eq!(r.pop_head(), None);
    assert_eq!(r.pop_head(), None);
}

#[test]
fn read_while_normalises_line_breaks() {
    let mut r = reader(b"ab\r\ncx");
    assert_eq!(r.read_while(|c| c != 'x'), "ab\nc");
    assert_eq!(r.curr_pos(), ByteOffset { offset: 5 });
    assert_eq!(r.pop_head(), Some('x'));
}

#[test]
fn read_until_stops_before() {
    let mut r = reader(b"abc");
    assert_eq!(r.read_until(|c| c == 'c'), "ab");
    assert_eq!(r.peek_head(), Some('c'));
    assert!(r.starts_with('c'));
    assert!(!r.starts_with('d'));
}

#[test]
fn read_until_str_puts_the_pattern_back() {
    let mut r = reader(b"abcdef");
    assert_eq!(r.read_until_str("cd"), "ab");
    assert_eq!(r.read_n(10), "cdef");
}

#[test]
fn read_until_line_end_gives_the_line() {
    let mut r = reader(b"ab\ncd");
    let (line, pos) = r.read_until_line_end();
    assert_eq!(line, "ab");
    assert_eq!(pos, ByteOffset { offset: 2 });
    assert_eq!(r.curr_pos(), ByteOffset { offset: 3 });
    assert_eq!(r.read_n(2), "cd");
}

#[test]
fn reader_trim_start_skips_white_space() {
    let mut r = reader(b"  \n x");
    r.trim_start();
    assert_eq!(r.pop_head(), Some('x'));
}

#[test]
fn reader_brackets_hide_the_stop() {
    let mut r = reader(b"a(b,c),d");
    assert_eq!(r.read_until_with_brackets('(', ')', |c| c == ','), "a(b,c)");
    assert_eq!(r.pop_head(), Some(','));
}

#[test]
fn skip_moves_past_characters() {
    let mut r = reader(b"abc");
    r.skip(2);
    assert_eq!(r.pop_head(), Some('c'));
}

#[test]
fn reader_and_string_bracket_reads_agree() {
    for s in ["a(b,c),d", "(x,(y,z)),w", "no stop", ",first", "a\nb(c\nd),e", "é(,)ü,x"] {
        let mut r = reader(s.as_bytes());
        let mut p = flodown::strings::ParseStr::<ByteOffset>::new(s);
        let a = r.read_until_with_brackets('(', ')', |c| c == ',');
        let b = p.read_until_with_brackets('(', ')', |c| c == ',');
        assert_eq!(a, b);
        assert_eq!(r.curr_pos(), p.curr_pos());
        let mut rest = String::new();
        while let Some(c) = r.pop_head() {
            rest.push(c);
        }
        assert_eq!(rest, p.rest());
    }
}
