//! Byte-level tests that tell which block construct a line starts.

use vstd::prelude::*;

verus! {

/// The first `j` in `from..n` with `q(j)`, or `n`.
pub open spec fn first_index(q: spec_fn(int) -> bool, from: int, n: int) -> int
    decreases n - from,
{
    if from >= n {
        n
    } else if q(from) {
        from
    } else {
        first_index(q, from + 1, n)
    }
}

/// `first_index` is the first position where `q` holds.
pub proof fn lemma_first_index(q: spec_fn(int) -> bool, from: int, n: int)
    requires
        from <= n,
    ensures
        from <= first_index(q, from, n) <= n,
        forall|j: int| from <= j < first_index(q, from, n) ==> !#[trigger] q(j),
        first_index(q, from, n) < n ==> q(first_index(q, from, n)),
    decreases n - from,
{
    if from < n && !q(from) {
        lemma_first_index(q, from + 1, n);
    }
}

/// A position with the defining properties of `first_index` is `first_index`.
pub proof fn lemma_first_index_unique(q: spec_fn(int) -> bool, from: int, n: int, k: int)
    requires
        from <= k <= n,
        forall|j: int| from <= j < k ==> !#[trigger] q(j),
        k < n ==> q(k),
    ensures
        first_index(q, from, n) == k,
    decreases n - from,
{
    if from < k {
        lemma_first_index_unique(q, from + 1, n, k);
    }
}

/// The first position of `b` holding a line break byte (or the length).
pub open spec fn line_end_in(b: Seq<u8>) -> int {
    first_index(|j: int| b[j] == 13u8 || b[j] == 10u8, 0, b.len() as int)
}

/// `source` starts a numbered list item: digits followed by `.` or `)`.
pub open spec fn numbered_list_bytes(b: Seq<u8>) -> bool {
    let i = first_index(|j: int| !(48u8 <= b[j] <= 57u8), 0, b.len() as int);
    i < b.len() && (b[i] == 46u8 || b[i] == 41u8)
}

/// Whether the bytes start with digits followed by `.` or `)`.
pub fn is_numbered_list(source: &[u8]) -> (r: bool)
    ensures
        r == numbered_list_bytes(source@),
{
    let ghost q = |j: int| !(48u8 <= source@[j] <= 57u8);
    let mut i: usize = 0;
    while i < source.len()
        invariant
            i <= source@.len(),
            q == (|j: int| !(48u8 <= source@[j] <= 57u8)),
            forall|j: int| 0 <= j < i ==> !#[trigger] q(j),
        decreases source@.len() - i,
    {
        if !(48u8 <= source[i] && source[i] <= 57u8) {
            proof {
                lemma_first_index_unique(q, 0, source@.len() as int, i as int);
            }
            return source[i] == 46u8 || source[i] == 41u8;
        }
        i = i + 1;
    }
    proof {
        lemma_first_index_unique(q, 0, source@.len() as int, i as int);
    }
    false
}

/// `source` starts a footnote definition: `]` followed by `:` and a space or tab.
pub open spec fn footnote_bytes(b: Seq<u8>) -> bool {
    let i = first_index(|j: int| b[j] == 93u8, 0, b.len() as int);
    &&& i + 2 < b.len()
    &&& b[i + 1] == 58u8
    &&& (b[i + 2] == 32u8 || b[i + 2] == 9u8)
}

/// Whether the first `]` is followed by `:` and a space or tab.
pub fn is_footnote(source: &[u8]) -> (r: bool)
    ensures
        r == footnote_bytes(source@),
{
    let ghost q = |j: int| source@[j] == 93u8;
    let mut i: usize = 0;
    while i < source.len()
        invariant
            i <= source@.len(),
            q == (|j: int| source@[j] == 93u8),
            forall|j: int| 0 <= j < i ==> !#[trigger] q(j),
        decreases source@.len() - i,
    {
        if source[i] == 93u8 {
            proof {
                lemma_first_index_unique(q, 0, source@.len() as int, i as int);
            }
            if i + 1 < source.len() && source[i + 1] == 58u8 {
                if i + 2 < source.len() {
                    return source[i + 2] == 32u8 || source[i + 2] == 9u8;
                }
                return false;
            }
            return false;
        }
        i = i + 1;
    }
    proof {
        lemma_first_index_unique(q, 0, source@.len() as int, i as int);
    }
    false
}

/// Where the second line of `b` starts: after the first line break (`\r\n` counts as one).
pub open spec fn second_line_start(b: Seq<u8>) -> int {
    let e = line_end_in(b);
    if e + 1 < b.len() && b[e] == 13u8 && b[e + 1] == 10u8 {
        e + 2
    } else {
        e + 1
    }
}

/// Where the second line of `b` ends, relative to its start.
pub open spec fn second_line_len(b: Seq<u8>) -> int {
    line_end_in(b.skip(second_line_start(b)))
}

/// Whether `is_table` would cut an empty second line one byte short of its start, which
/// fails: a table needs a non-empty second line.
pub open spec fn table_panics(b: Seq<u8>) -> bool {
    &&& line_end_in(b) < b.len()
    &&& second_line_len(b) < b.len() - second_line_start(b)
    &&& second_line_len(b) == 0
}

/// Whether `is_table` would fail on `source`: its second line is empty.
pub fn table_fails(source: &[u8]) -> (r: bool)
    ensures
        r == table_panics(source@),
{
    let ghost b = source@;
    let n = source.len();
    let ghost q = |j: int| b[j] == 13u8 || b[j] == 10u8;
    let mut e: usize = 0;
    while e < n && !(source[e] == 13u8 || source[e] == 10u8)
        invariant
            e <= n == b.len(),
            b == source@,
            q == (|j: int| b[j] == 13u8 || b[j] == 10u8),
            forall|j: int| 0 <= j < e ==> !#[trigger] q(j),
        decreases n - e,
    {
        e = e + 1;
    }
    proof {
        lemma_first_index_unique(q, 0, n as int, e as int);
    }
    if e == n {
        return false;
    }
    let s = if e + 1 < n && source[e] == 13u8 && source[e + 1] == 10u8 {
        e + 2
    } else {
        e + 1
    };
    let r = s < n && (source[s] == 13u8 || source[s] == 10u8);
    proof {
        let rest = b.skip(s as int);
        let q2 = |j: int| rest[j] == 13u8 || rest[j] == 10u8;
        assert(second_line_start(b) == s);
        assert(second_line_len(b) == first_index(q2, 0, rest.len() as int));
        lemma_first_index(q2, 0, rest.len() as int);
        if s < n && !(source@[s as int] == 13u8 || source@[s as int] == 10u8) {
            assert(!q2(0));
        }
    }
    r
}

/// The states of the delimiter-row check: at a cell start, inside dashes, after a closing colon.
pub enum RowState {
    CellStart,
    Dashes,
    CellEnd,
}

/// Whether a delimiter row (without its leading `|`) is well formed from state `st` on.
pub open spec fn delimiter_row_ok(line: Seq<u8>, st: RowState) -> bool
    decreases line.len(),
{
    if line.len() == 0 {
        true
    } else {
        let b = line[0];
        let rest = line.drop_first();
        match st {
            RowState::CellStart => if b == 32u8 || b == 9u8 {
                delimiter_row_ok(rest, RowState::CellStart)
            } else if b == 45u8 || b == 58u8 {
                delimiter_row_ok(rest, RowState::Dashes)
            } else {
                false
            },
            RowState::Dashes => if b == 45u8 {
                delimiter_row_ok(rest, RowState::Dashes)
            } else if b == 58u8 {
                delimiter_row_ok(rest, RowState::CellEnd)
            } else if b == 124u8 {
                delimiter_row_ok(rest, RowState::CellStart)
            } else {
                false
            },
            RowState::CellEnd => false,
        }
    }
}

/// `source` (after a `|`) starts a table: its second line, without its last byte, is a
/// delimiter row `|` followed by cells of dashes with optional colons.
pub open spec fn table_bytes(b: Seq<u8>) -> bool {
    let s = second_line_start(b);
    let rest = b.skip(s);
    let e = second_line_len(b);
    &&& line_end_in(b) < b.len()
    &&& e < rest.len()
    &&& e >= 2
    &&& rest[0] == 124u8
    &&& delimiter_row_ok(rest.subrange(1, e - 1), RowState::CellStart)
}

/// Whether the line after the first line break is a table delimiter row.
pub fn is_table(source: &[u8]) -> (r: bool)
    requires
        !table_panics(source@),
    ensures
        r == table_bytes(source@),
{
    let ghost b = source@;
    let n = source.len();
    let ghost q = |j: int| b[j] == 13u8 || b[j] == 10u8;
    // the first line break
    let mut e: usize = 0;
    while e < n && !(source[e] == 13u8 || source[e] == 10u8)
        invariant
            e <= n == b.len(),
            b == source@,
            q == (|j: int| b[j] == 13u8 || b[j] == 10u8),
            forall|j: int| 0 <= j < e ==> !#[trigger] q(j),
        decreases n - e,
    {
        e = e + 1;
    }
    proof {
        lemma_first_index_unique(q, 0, n as int, e as int);
    }
    if e == n {
        return false;
    }
    let s = if e + 1 < n && source[e] == 13u8 && source[e + 1] == 10u8 {
        e + 2
    } else {
        e + 1
    };
    // the second line break
    let ghost rest = b.skip(s as int);
    let ghost q2 = |j: int| rest[j] == 13u8 || rest[j] == 10u8;
    let mut f: usize = s;
    while f < n && !(source[f] == 13u8 || source[f] == 10u8)
        invariant
            s <= f <= n == b.len(),
            b == source@,
            rest == b.skip(s as int),
            q2 == (|j: int| rest[j] == 13u8 || rest[j] == 10u8),
            forall|j: int| 0 <= j < f - s ==> !#[trigger] q2(j),
        decreases n - f,
    {
        f = f + 1;
    }
    proof {
        lemma_first_index_unique(q2, 0, rest.len() as int, f - s);
    }
    if f == n {
        return false;
    }
    let len = f - s;
    // cutting the line one byte short of its end
    if len < 2 {
        // a line of one byte leaves nothing to start with `|`
        return false;
    }
    if source[s] != 124u8 {
        return false;
    }
    let last = s + len - 1;
    let mut i: usize = s + 1;
    proof {
        assert(rest.subrange(1, (f - s) - 1) =~= b.subrange(s + 1, last as int));
    }
    let mut st = RowState::CellStart;
    while i < last
        invariant
            s + 1 <= i <= last < n == b.len(),
            b == source@,
            last == s + (f - s) - 1,
            table_bytes(b) == delimiter_row_ok(rest.subrange(1, (f - s) - 1), RowState::CellStart),
            rest == b.skip(s as int),
            delimiter_row_ok(rest.subrange(1, (f - s) - 1), RowState::CellStart)
                == delimiter_row_ok(b.subrange(i as int, last as int), st),
        decreases last - i,
    {
        let c = source[i];
        proof {
            assert(b.subrange(i as int, last as int).drop_first() =~= b.subrange(i + 1, last as int));
            assert(b.subrange(i as int, last as int)[0] == c);
        }
        match st {
            RowState::CellStart => {
                if c == 32u8 || c == 9u8 {
                } else if c == 45u8 || c == 58u8 {
                    st = RowState::Dashes;
                } else {
                    return false;
                }
            },
            RowState::Dashes => {
                if c == 45u8 {
                } else if c == 58u8 {
                    st = RowState::CellEnd;
                } else if c == 124u8 {
                    st = RowState::CellStart;
                } else {
                    return false;
                }
            },
            RowState::CellEnd => {
                return false;
            },
        }
        i = i + 1;
    }
    proof {
        assert(rest.subrange(1, (f - s) - 1) =~= b.subrange(s + 1, last as int));
        assert(b.subrange(i as int, last as int).len() == 0);
    }
    true
}

} // verus!
