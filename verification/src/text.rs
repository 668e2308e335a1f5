//! Character-level views of `&str` slices: taking the first character and
//! splitting a slice after a given number of characters, with the UTF-8
//! bookkeeping proved once here.

use vstd::prelude::*;
use vstd::utf8::*;

verus! {

broadcast use vstd::string::group_string_axioms;

/// Number of bytes of the UTF-8 encoding of a character sequence.
pub open spec fn byte_len(s: Seq<char>) -> nat {
    encode_utf8(s).len()
}

/// The UTF-8 encoding of a concatenation is the concatenation of the encodings.
pub proof fn lemma_encode_concat(a: Seq<char>, b: Seq<char>)
    ensures
        encode_utf8(a + b) == encode_utf8(a) + encode_utf8(b),
    decreases a.len(),
{
    if a.len() == 0 {
        assert(a + b =~= b);
        assert(encode_utf8(a) =~= Seq::<u8>::empty());
        assert(encode_utf8(a) + encode_utf8(b) =~= encode_utf8(b));
    } else {
        lemma_encode_concat(a.drop_first(), b);
        assert((a + b).drop_first() =~= a.drop_first() + b);
        assert((a + b)[0] == a[0]);
        assert(encode_utf8(a + b) =~= encode_scalar(a[0] as u32) + encode_utf8(a.drop_first() + b));
    }
}

/// The end of the encoding of a prefix is a character boundary of the whole encoding.
pub proof fn lemma_prefix_boundary(a: Seq<char>, b: Seq<char>)
    ensures
        is_char_boundary(encode_utf8(a + b), byte_len(a) as int),
    decreases a.len(),
{
    broadcast use encode_utf8_valid_utf8;
    if a.len() == 0 {
    } else {
        lemma_prefix_boundary(a.drop_first(), b);
        lemma_encode_concat(a, b);
        lemma_encode_concat(a.drop_first(), b);
        assert((a + b).drop_first() =~= a.drop_first() + b);
        encode_utf8_first_scalar(a + b);
        let bytes = encode_utf8(a + b);
        assert(pop_first_scalar(bytes) =~= encode_utf8((a + b).drop_first()));
        assert(encode_scalar(a[0] as u32).len() > 0) by {
            reveal_with_fuel(encode_utf8, 1);
        }
        assert(byte_len(a) == encode_scalar(a[0] as u32).len() + byte_len(a.drop_first()));
    }
}

/// Splits `s` after its first `k` characters, where `mid` is the byte length of those characters.
pub fn split_at_chars<'a>(s: &'a str, mid: usize, Ghost(k): Ghost<int>) -> (res: (&'a str, &'a str))
    requires
        0 <= k <= s@.len(),
        mid == byte_len(s@.take(k)),
    ensures
        res.0@ == s@.take(k),
        res.1@ == s@.skip(k),
{
    proof {
        broadcast use encode_utf8_decode_utf8, encode_utf8_valid_utf8;
        assert(s@ =~= s@.take(k) + s@.skip(k));
        lemma_prefix_boundary(s@.take(k), s@.skip(k));
        lemma_encode_concat(s@.take(k), s@.skip(k));
    }
    let (l, r) = s.split_at(mid);
    proof {
        broadcast use encode_utf8_decode_utf8;
        let bytes = encode_utf8(s@);
        assert(bytes.subrange(0, mid as int) =~= encode_utf8(s@.take(k)));
        assert(bytes.subrange(mid as int, bytes.len() as int) =~= encode_utf8(s@.skip(k)));
        assert(decode_utf8(encode_utf8(l@)) == l@);
        assert(decode_utf8(encode_utf8(r@)) == r@);
    }
    (l, r)
}

/// The number of bytes of the UTF-8 encoding of `s`.
pub fn str_byte_len(s: &str) -> (n: usize)
    ensures
        n == byte_len(s@),
{
    s.as_bytes().len()
}

/// The first character of `s`, if any.
pub fn first_char(s: &str) -> (r: Option<char>)
    ensures
        r == (if s@.len() > 0 { Some(s@[0]) } else { None::<char> }),
{
    let mut it = s.chars();
    it.next()
}


/// Bytes taken by one character in UTF-8.
pub open spec fn char_width(c: char) -> nat {
    encode_scalar(c as u32).len()
}

/// The number of bytes `c` takes in UTF-8 (what `char::len_utf8` returns).
pub fn char_len_utf8(c: char) -> (n: usize)
    ensures
        n == char_width(c),
        1 <= n <= 4,
{
    proof {
        char_is_scalar(c);
    }
    let v = c as u32;
    if v < 0x80 {
        1
    } else if v < 0x800 {
        2
    } else if v < 0x10000 {
        3
    } else {
        4
    }
}

/// Byte length of a prefix extended by one character.
pub proof fn lemma_byte_len_push(s: Seq<char>, k: int)
    requires
        0 <= k < s.len(),
    ensures
        byte_len(s.take(k + 1)) == byte_len(s.take(k)) + char_width(s[k]),
        byte_len(s.take(k)) < byte_len(s.take(k + 1)),
{
    assert(s.take(k + 1) =~= s.take(k) + seq![s[k]]);
    lemma_encode_concat(s.take(k), seq![s[k]]);
    assert(seq![s[k]].drop_first() =~= Seq::<char>::empty());
    assert(encode_utf8(seq![s[k]]) =~= encode_scalar(s[k] as u32) + encode_utf8(Seq::<char>::empty()));
    char_is_scalar(s[k]);
}

/// Byte length of a concatenation.
pub proof fn lemma_byte_len_concat(a: Seq<char>, b: Seq<char>)
    ensures
        byte_len(a + b) == byte_len(a) + byte_len(b),
{
    lemma_encode_concat(a, b);
}

/// A prefix never takes more bytes than the whole sequence.
pub proof fn lemma_byte_len_take(s: Seq<char>, k: int)
    requires
        0 <= k <= s.len(),
    ensures
        byte_len(s.take(k)) <= byte_len(s),
        byte_len(s) == byte_len(s.take(k)) + byte_len(s.skip(k)),
{
    assert(s =~= s.take(k) + s.skip(k));
    lemma_encode_concat(s.take(k), s.skip(k));
}

/// Byte length of prefixes grows strictly with the number of characters.
pub proof fn lemma_byte_len_monotone(s: Seq<char>, j: int, k: int)
    requires
        0 <= j < k <= s.len(),
    ensures
        byte_len(s.take(j)) < byte_len(s.take(k)),
    decreases k - j,
{
    lemma_byte_len_push(s, k - 1);
    if j < k - 1 {
        lemma_byte_len_monotone(s, j, k - 1);
    }
}

/// Every character takes at least one byte.
pub proof fn lemma_byte_len_ge_len(s: Seq<char>)
    ensures
        byte_len(s) >= s.len(),
    decreases s.len(),
{
    if s.len() > 0 {
        lemma_byte_len_push(s, s.len() - 1);
        lemma_byte_len_ge_len(s.take(s.len() - 1));
        assert(s.take(s.len() as int) =~= s);
        assert(s.take(s.len() - 1).len() == s.len() - 1);
    }
}

/// `s` with its first character split off.
pub fn split_first_char<'a>(s: &'a str) -> (r: (char, &'a str))
    requires
        s@.len() > 0,
    ensures
        r.0 == s@[0],
        r.1@ == s@.drop_first(),
{
    let c = match first_char(s) {
        Some(c) => c,
        None => { assert(false); ' ' },
    };
    let n = char_len_utf8(c);
    proof {
        lemma_byte_len_push(s@, 0);
        assert(s@.take(0) =~= Seq::<char>::empty());
    }
    let (_, rest) = split_at_chars(s, n, Ghost(1));
    assert(s@.skip(1) =~= s@.drop_first());
    (c, rest)
}

/// Whether `s` starts with `p` (as `str::starts_with` with a string pattern).
pub fn str_starts_with(s: &str, p: &str) -> (b: bool)
    ensures
        b == p@.is_prefix_of(s@),
{
    let mut a = s;
    let mut q = p;
    let ghost mut k: int = 0;
    while !q.is_empty()
        invariant
            0 <= k <= p@.len(),
            k <= s@.len(),
            q@ == p@.skip(k),
            a@ == s@.skip(k),
            p@.take(k) == s@.take(k),
        decreases q@.len(),
    {
        if a.is_empty() {
            return false;
        }
        let (c, a2) = split_first_char(a);
        let (d, q2) = split_first_char(q);
        if c != d {
            return false;
        }
        proof {
            assert(p@.take(k + 1) =~= p@.take(k).push(d));
            assert(s@.take(k + 1) =~= s@.take(k).push(c));
            assert(a2@ =~= s@.skip(k + 1));
            assert(q2@ =~= p@.skip(k + 1));
            k = k + 1;
        }
        a = a2;
        q = q2;
    }
    assert(p@ =~= p@.take(k));
    assert(s@.subrange(0, p@.len() as int) =~= s@.take(k));
    true
}

/// The Unicode `White_Space` property, which `char::is_whitespace` tests.
pub open spec fn is_ws(c: char) -> bool {
    let v = c as u32;
    ||| 0x09 <= v <= 0x0D
    ||| v == 0x20
    ||| v == 0x85
    ||| v == 0xA0
    ||| v == 0x1680
    ||| 0x2000 <= v <= 0x200A
    ||| v == 0x2028
    ||| v == 0x2029
    ||| v == 0x202F
    ||| v == 0x205F
    ||| v == 0x3000
}

/// `char::is_whitespace`.
pub fn is_whitespace(c: char) -> (b: bool)
    ensures
        b == is_ws(c),
{
    let v = c as u32;
    (0x09 <= v && v <= 0x0D) || v == 0x20 || v == 0x85 || v == 0xA0 || v == 0x1680 || (0x2000
        <= v && v <= 0x200A) || v == 0x2028 || v == 0x2029 || v == 0x202F || v == 0x205F || v
        == 0x3000
}

/// `char::is_ascii_digit`.
pub open spec fn is_digit(c: char) -> bool {
    '0' <= c <= '9'
}

/// Number of leading characters of `s` that satisfy `p`.
pub open spec fn leading(s: Seq<char>, p: spec_fn(char) -> bool) -> nat
    decreases s.len(),
{
    if s.len() > 0 && p(s[0]) {
        1 + leading(s.drop_first(), p)
    } else {
        0
    }
}

/// Number of trailing characters of `s` that satisfy `p`.
pub open spec fn trailing(s: Seq<char>, p: spec_fn(char) -> bool) -> nat
    decreases s.len(),
{
    if s.len() > 0 && p(s.last()) {
        1 + trailing(s.drop_last(), p)
    } else {
        0
    }
}

/// `leading` characterised by the positions it covers.
pub proof fn lemma_leading(s: Seq<char>, p: spec_fn(char) -> bool)
    ensures
        leading(s, p) <= s.len(),
        forall|j: int| 0 <= j < leading(s, p) ==> p(#[trigger] s[j]),
        leading(s, p) < s.len() ==> !p(s[leading(s, p) as int]),
    decreases s.len(),
{
    if s.len() > 0 && p(s[0]) {
        lemma_leading(s.drop_first(), p);
        assert forall|j: int| 0 <= j < leading(s, p) implies p(#[trigger] s[j]) by {
            if j > 0 {
                assert(s[j] == s.drop_first()[j - 1]);
            }
        }
    }
}

/// A count that has the defining properties of `leading` is `leading`.
pub proof fn lemma_leading_unique(s: Seq<char>, p: spec_fn(char) -> bool, n: int)
    requires
        0 <= n <= s.len(),
        forall|j: int| 0 <= j < n ==> p(#[trigger] s[j]),
        n < s.len() ==> !p(s[n]),
    ensures
        leading(s, p) == n,
    decreases s.len(),
{
    if n > 0 {
        assert(p(s[0]));
        assert forall|j: int| 0 <= j < n - 1 implies p(#[trigger] s.drop_first()[j]) by {
            assert(s.drop_first()[j] == s[j + 1]);
        }
        lemma_leading_unique(s.drop_first(), p, n - 1);
    }
}

/// `trailing` characterised by the positions it covers.
pub proof fn lemma_trailing(s: Seq<char>, p: spec_fn(char) -> bool)
    ensures
        trailing(s, p) <= s.len(),
        forall|j: int| s.len() - trailing(s, p) <= j < s.len() ==> p(#[trigger] s[j]),
        trailing(s, p) < s.len() ==> !p(s[s.len() - trailing(s, p) - 1]),
    decreases s.len(),
{
    if s.len() > 0 && p(s.last()) {
        lemma_trailing(s.drop_last(), p);
        assert forall|j: int| s.len() - trailing(s, p) <= j < s.len() implies p(#[trigger] s[j]) by {
            if j < s.len() - 1 {
                assert(s[j] == s.drop_last()[j]);
            }
        }
    }
}

/// The white-space test as a predicate.
pub open spec fn ws() -> spec_fn(char) -> bool {
    |c: char| is_ws(c)
}

/// `str::trim`, on character sequences.
pub open spec fn trimmed(s: Seq<char>) -> Seq<char> {
    let a = leading(s, ws());
    if a == s.len() {
        Seq::empty()
    } else {
        s.subrange(a as int, s.len() - trailing(s, ws()))
    }
}

/// `str::trim_start`, on character sequences.
pub open spec fn trimmed_start(s: Seq<char>) -> Seq<char> {
    s.skip(leading(s, ws()) as int)
}

/// `str::trim_end`, on character sequences.
pub open spec fn trimmed_end(s: Seq<char>) -> Seq<char> {
    s.take(s.len() - trailing(s, ws()))
}

/// `s` without leading white space (`str::trim_start`).
pub fn trim_start<'a>(s: &'a str) -> (r: &'a str)
    ensures
        r@ == trimmed_start(s@),
{
    let mut rest = s;
    let ghost mut k: int = 0;
    loop
        invariant
            0 <= k <= s@.len(),
            rest@ == s@.skip(k),
            forall|j: int| 0 <= j < k ==> is_ws(#[trigger] s@[j]),
        ensures
            0 <= k <= s@.len(),
            rest@ == s@.skip(k),
            forall|j: int| 0 <= j < k ==> is_ws(#[trigger] s@[j]),
            k < s@.len() ==> !is_ws(s@[k]),
        decreases rest@.len(),
    {
        if rest.is_empty() {
            break;
        }
        let (c, r2) = split_first_char(rest);
        if !is_whitespace(c) {
            break;
        }
        proof {
            assert(r2@ =~= s@.skip(k + 1));
            k = k + 1;
        }
        rest = r2;
    }
    proof {
        lemma_leading_unique(s@, ws(), k);
    }
    rest
}

/// A count that has the defining properties of `trailing` is `trailing`.
pub proof fn lemma_trailing_unique(s: Seq<char>, p: spec_fn(char) -> bool, n: int)
    requires
        0 <= n <= s.len(),
        forall|j: int| s.len() - n <= j < s.len() ==> p(#[trigger] s[j]),
        n < s.len() ==> !p(s[s.len() - n - 1]),
    ensures
        trailing(s, p) == n,
    decreases s.len(),
{
    if n > 0 {
        assert(p(s.last()));
        assert forall|j: int| s.len() - 1 - (n - 1) <= j < s.len() - 1 implies p(
            #[trigger] s.drop_last()[j],
        ) by {
            assert(s.drop_last()[j] == s[j]);
        }
        lemma_trailing_unique(s.drop_last(), p, n - 1);
    }
}

/// `s` without trailing white space (`str::trim_end`).
pub fn trim_end<'a>(s: &'a str) -> (r: &'a str)
    ensures
        r@ == trimmed_end(s@),
{
    let n = str_byte_len(s);
    // scan forward, remembering where the last non-white-space character ends
    let mut rest = s;
    let mut i: usize = 0;
    let mut end: usize = 0;
    let ghost mut k: int = 0;
    let ghost mut e: int = 0;
    while !rest.is_empty()
        invariant
            0 <= e <= k <= s@.len(),
            rest@ == s@.skip(k),
            i == byte_len(s@.take(k)),
            end == byte_len(s@.take(e)),
            n == byte_len(s@),
            forall|j: int| e <= j < k ==> is_ws(#[trigger] s@[j]),
            e > 0 ==> !is_ws(s@[e - 1]),
        decreases rest@.len(),
    {
        let (c, r2) = split_first_char(rest);
        proof {
            lemma_byte_len_push(s@, k);
            lemma_byte_len_take(s@, k + 1);
        }
        i = i + char_len_utf8(c);
        if !is_whitespace(c) {
            end = i;
            proof {
                e = k + 1;
            }
        }
        proof {
            assert(r2@ =~= s@.skip(k + 1));
            k = k + 1;
        }
        rest = r2;
    }
    proof {
        assert(k == s@.len()) by {
            if k < s@.len() {
                assert(rest@.len() > 0);
                lemma_byte_len_push(rest@, 0);
            }
        }
        lemma_trailing_unique(s@, ws(), s@.len() - e);
    }
    let (l, _) = split_at_chars(s, end, Ghost(e));
    l
}

/// `s` without leading and trailing white space (`str::trim`).
pub fn trim<'a>(s: &'a str) -> (r: &'a str)
    ensures
        r@ == trimmed(s@),
{
    let a = trim_start(s);
    let b = trim_end(a);
    proof {
        let k = leading(s@, ws());
        lemma_leading(s@, ws());
        lemma_trailing(a@, ws());
        assert(a@ =~= s@.skip(k as int));
        if k == s@.len() {
            assert(b@ =~= Seq::<char>::empty());
        } else {
            assert(!is_ws(a@[0]));
            let t = trailing(a@, ws());
            assert(t < a@.len());
            assert forall|j: int| s@.len() - t <= j < s@.len() implies is_ws(#[trigger] s@[j]) by {
                assert(s@[j] == a@[j - k]);
            }
            assert(s@[s@.len() - t - 1] == a@[a@.len() - t - 1]);
            lemma_trailing_unique(s@, ws(), t as int);
            assert(b@ =~= s@.subrange(k as int, s@.len() - t));
        }
    }
    b
}

/// The first byte of an encoding tells whether the first character is ASCII, and is
/// that character when it is.
pub proof fn lemma_first_byte(s: Seq<char>)
    requires
        s.len() > 0,
    ensures
        encode_utf8(s).len() > 0,
        (s[0] as u32) < 0x80 ==> encode_utf8(s)[0] == (s[0] as u32) as u8,
        (s[0] as u32) < 0x80 ==> encode_utf8(s).skip(1) == encode_utf8(s.drop_first()),
        (s[0] as u32) >= 0x80 ==> encode_utf8(s)[0] >= 0xC0,
{
    char_is_scalar(s[0]);
    let v = s[0] as u32;
    let e = encode_scalar(v);
    assert(encode_utf8(s) == e + encode_utf8(s.drop_first()));
    if v < 0x80 {
        assert(e[0] == (v & 0x7F) as u8);
        assert((v & 0x7F) as u8 == v as u8) by (bit_vector)
            requires
                v < 0x80,
        ;
        assert((e + encode_utf8(s.drop_first())).skip(1) =~= encode_utf8(s.drop_first()));
    } else if has_width_2_encoding(v) {
        assert(0xC0u8 | ((v >> 6) & 0x1F) as u8 >= 0xC0) by (bit_vector);
    } else if has_width_3_encoding(v) {
        assert(0xE0u8 | ((v >> 12) & 0x0F) as u8 >= 0xC0) by (bit_vector);
    } else {
        assert(0xF0u8 | ((v >> 18) & 0x7) as u8 >= 0xC0) by (bit_vector);
    }
}

/// When the first byte of an encoding is an ASCII byte, the first character is that byte.
pub proof fn lemma_first_byte_is(s: Seq<char>, b: u8)
    requires
        s.len() > 0,
        b < 0x80,
        encode_utf8(s)[0] == b,
    ensures
        s[0] as u32 == b as u32,
        encode_utf8(s).skip(1) == encode_utf8(s.drop_first()),
{
    lemma_first_byte(s);
    let v = s[0] as u32;
    if v < 0x80 {
        assert(v as u8 == b);
        assert(v == b as u32) by (bit_vector)
            requires
                v < 0x80,
                v as u8 == b,
        ;
    }
}

/// Characters with the same code are the same character.
pub proof fn lemma_char_code(c: char, d: char)
    requires
        c as u32 == d as u32,
    ensures
        c == d,
{
    char_u32_cast(c, c as u32);
    char_u32_cast(d, d as u32);
}

} // verus!
