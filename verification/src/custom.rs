//! The arguments of the custom elements that the FTML options render: `@[sym](name,
//! text)`, `@[def](name, text)` and `::definition title="..."`.

use vstd::prelude::*;
use crate::blocks::{first_index, lemma_first_index_unique};
use crate::strings::{find_str, scan_until};
use crate::text::{split_at_chars, split_first_char, trim, trimmed};
use crate::tokenizer::{eq_char, prefix_at};

verus! {

/// Whether `s` holds `c`.
pub open spec fn holds(s: Seq<char>, c: char) -> bool {
    exists|i: int| 0 <= i < s.len() && s[i] == c
}

/// `args` split at its first comma into a name and a text, as `str::split_once(',')`;
/// a name alone when there is no comma.
pub fn split_symbol_args(args: &str) -> (r: (&str, Option<&str>))
    ensures
        r.1 is Some <==> holds(args@, ','),
        r.1 is None ==> r.0@ == args@,
        r.1 matches Some(text) ==> !holds(r.0@, ',') && r.0@ + seq![','] + text@ == args@,
{
    let f = |c: char| -> (b: bool)
        ensures
            b == (c == ','),
        { c == ',' };
    let (i, Ghost(k)) = scan_until(args, f, true);
    let (name, rest) = split_at_chars(args, i, Ghost(k));
    if !rest.is_empty() {
        let (_, text) = split_first_char(rest);
        proof {
            assert(!holds(name@, ',')) by {
                if holds(name@, ',') {
                    let j = choose|j: int| 0 <= j < name@.len() && name@[j] == ',';
                    assert(args@[j] == name@[j]);
                }
            }
            assert(name@ + seq![','] + text@ =~= args@);
        }
        (name, Some(text))
    } else {
        proof {
            assert(args@.skip(k) =~= Seq::<char>::empty());
            assert(!holds(args@, ',')) by {
                if holds(args@, ',') {
                    let j = choose|j: int| 0 <= j < args@.len() && args@[j] == ',';
                    assert(call_ensures(f, (args@[j],), false));
                }
            }
        }
        (args, None)
    }
}

/// The positions of `s` that hold `c`.
pub open spec fn char_at(s: Seq<char>, c: char) -> spec_fn(int) -> bool {
    |i: int| s[i] == c
}

/// The text between the quote opening `rest` and the next `q`, trimmed; nothing when
/// the quote is not closed.
pub open spec fn quoted(rest: Seq<char>, q: char) -> Seq<char> {
    let j = first_index(char_at(rest, q), 0, rest.len() as int);
    if j < rest.len() {
        trimmed(rest.take(j))
    } else {
        Seq::empty()
    }
}

/// The title of a definition: the text after the first `title`, when an `=` and a
/// double or single quote follow it directly, up to the matching quote and trimmed;
/// empty otherwise.
pub open spec fn title_of(args: Seq<char>) -> Seq<char> {
    let i = first_index(prefix_at(args, "title"@), 0, args.len() as int);
    if i >= args.len() {
        Seq::empty()
    } else {
        let rest = args.skip(i + "title"@.len());
        if rest.len() > 0 && rest[0] == '=' {
            let r2 = rest.skip(1);
            if r2.len() > 0 && r2[0] == '"' {
                quoted(r2.skip(1), '"')
            } else if r2.len() > 0 && r2[0] == '\'' {
                quoted(r2.skip(1), '\'')
            } else {
                Seq::empty()
            }
        } else {
            Seq::empty()
        }
    }
}

/// The trimmed text up to the first `q` of `rest`; empty when there is none.
fn quoted_text(rest: &str, q: char) -> (r: &str)
    ensures
        r@ == quoted(rest@, q),
{
    let f = |c: char| -> (b: bool)
        ensures
            b == (c == q),
        { c == q };
    let (i, Ghost(k)) = scan_until(rest, f, true);
    let (inside, after) = split_at_chars(rest, i, Ghost(k));
    proof {
        let p = char_at(rest@, q);
        assert forall|j: int| 0 <= j < k implies !#[trigger] p(j) by {
            assert(call_ensures(f, (rest@[j],), false));
        }
        if k < rest@.len() {
            assert(call_ensures(f, (rest@[k],), true));
        }
        lemma_first_index_unique(p, 0, rest@.len() as int, k);
    }
    if after.is_empty() {
        proof {
            reveal_strlit("");
        }
        ""
    } else {
        trim(inside)
    }
}

/// The title of a `::definition` block, from its arguments.
pub fn definition_title(args: &str) -> (r: &str)
    ensures
        r@ == title_of(args@),
{
    proof {
        reveal_strlit("title");
        reveal_strlit("");
    }
    let (i, Ghost(k)) = find_str(args, "title");
    proof {
        lemma_first_index_unique(prefix_at(args@, "title"@), 0, args@.len() as int, k);
    }
    let (_, from) = split_at_chars(args, i, Ghost(k));
    if from.is_empty() {
        return "";
    }
    proof {
        assert("title"@.is_prefix_of(args@.skip(k)));
        assert(args@.skip(k).len() >= 5);
        assert(args@.skip(k + 0) =~= from@);
    }
    let mut rest = from;
    let mut n: usize = 0;
    while n < 5
        invariant
            n <= 5,
            0 <= k,
            k + 5 <= args@.len(),
            rest@ == args@.skip(k + n),
        decreases 5 - n,
    {
        let (_, r) = split_first_char(rest);
        proof {
            assert(r@ =~= args@.skip(k + n + 1));
        }
        rest = r;
        n = n + 1;
    }
    if rest.is_empty() {
        return "";
    }
    let (c, r2) = split_first_char(rest);
    if c != '=' {
        return "";
    }
    if r2.is_empty() {
        return "";
    }
    let (q, r3) = split_first_char(r2);
    if q == '"' || q == '\'' {
        proof {
            assert(r2@ =~= args@.skip(k + 5).skip(1));
            assert(r3@ =~= r2@.skip(1));
        }
        quoted_text(r3, q)
    } else {
        ""
    }
}

/// Whether two strings are the same text.
fn same_text(a: &str, b: &str) -> (r: bool)
    ensures
        r == (a@ == b@),
{
    let r = crate::text::str_starts_with(a, b) && crate::text::str_starts_with(b, a);
    proof {
        if a@.is_prefix_of(b@) && b@.is_prefix_of(a@) {
            assert(a@ =~= b@);
        }
    }
    r
}

/// The inline custom elements of FTML: a symbol, a definition, and a definiendum,
/// which stands only inside a definition.
pub enum InlineElement {
    Symbol,
    Definition,
    Definiendum,
}

/// The FTML element an inline custom element with `label` stands for, if any; `def`
/// is a definiendum only inside a definition.
pub fn inline_element(label: &str, in_definition: bool) -> (r: Option<InlineElement>)
    ensures
        r == (if label@ == "sym"@ {
            Some(InlineElement::Symbol)
        } else if label@ == "definition"@ {
            Some(InlineElement::Definition)
        } else if label@ == "def"@ && in_definition {
            Some(InlineElement::Definiendum)
        } else {
            None
        }),
{
    if same_text(label, "sym") {
        Some(InlineElement::Symbol)
    } else if same_text(label, "definition") {
        Some(InlineElement::Definition)
    } else if in_definition && same_text(label, "def") {
        Some(InlineElement::Definiendum)
    } else {
        None
    }
}

/// Whether a custom block with `label` is an FTML definition, the one block FTML
/// renders itself.
pub fn is_definition_block(label: &str) -> (r: bool)
    ensures
        r == (label@ == "definition"@),
{
    same_text(label, "definition")
}

/// A title written `title=` and a quote `q` (double or single), then a text `t`
/// without `q`, then `q` again, is `t` trimmed, whatever follows: the title runs to the
/// matching quote, and a quote of the other kind inside it is kept.
pub proof fn law_title_runs_to_matching_quote(q: char, t: Seq<char>, after: Seq<char>)
    requires
        q == '"' || q == '\'',
        !t.contains(q),
    ensures
        title_of("title="@ + seq![q] + t + seq![q] + after) == trimmed(t),
{
    reveal_strlit("title");
    reveal_strlit("title=");
    let args = "title="@ + seq![q] + t + seq![q] + after;
    let pat = "title"@;
    assert(pat.is_prefix_of(args)) by {
        assert(args.subrange(0, 5) =~= pat);
    }
    let pq = prefix_at(args, pat);
    assert(pq(0)) by {
        assert(args.skip(0) =~= args);
    }
    lemma_first_index_unique(pq, 0, args.len() as int, 0);
    let rest = args.skip(5);
    assert(rest =~= seq!['='] + seq![q] + t + seq![q] + after);
    let r2 = rest.skip(1);
    assert(r2 =~= seq![q] + t + seq![q] + after);
    let r3 = r2.skip(1);
    assert(r3 =~= t + seq![q] + after);
    let p = char_at(r3, q);
    assert forall|j: int| 0 <= j < t.len() implies !#[trigger] p(j) by {
        assert(r3[j] == t[j]);
    }
    assert(p(t.len() as int));
    lemma_first_index_unique(p, 0, r3.len() as int, t.len() as int);
    assert(r3.take(t.len() as int) =~= t);
}

/// Arguments without `title` have no title.
pub proof fn law_no_title_without_key(args: Seq<char>)
    requires
        forall|i: int| 0 <= i < args.len() ==> !#[trigger] prefix_at(args, "title"@)(i),
    ensures
        title_of(args) == Seq::<char>::empty(),
{
    lemma_first_index_unique(prefix_at(args, "title"@), 0, args.len() as int, args.len() as int);
}

} // verus!
