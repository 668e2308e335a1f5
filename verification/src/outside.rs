//! The calls into outside crates, each behind one trusted item whose contract
//! says what the crate's source shows of it.

use vstd::prelude::*;
use crate::html::ConverterState;
use smallvec::SmallVec;

verus! {

/// The serialization that `url::Url::parse` makes of `input`, or `None` when it
/// refuses the input. Parsing depends on the input alone.
pub uninterp spec fn url_parse(input: Seq<char>) -> Option<Seq<char>>;

/// `url::Url::parse` (what `str::parse::<Url>` calls), followed by `Url::as_str`, which
/// returns the serialization the parser built. Trusted: the result is the name
/// `url_parse` applied to the input; nothing more of URL syntax is stated.
#[verifier::external_body]
pub(crate) fn parse_url(input: &str) -> (r: Option<String>)
    ensures
        r matches Some(u) ==> url_parse(input@) == Some(u@),
        r is None ==> url_parse(input@) is None,
{
    match url::Url::parse(input) {
        Ok(u) => Some(u.as_str().to_string()),
        Err(_) => None,
    }
}

/// What `html_escape` writes for one character: `&`, `<`, `>`, `"`, `'` and `/`
/// become entities, every other character stays.
pub open spec fn escape_char(c: char) -> Seq<char> {
    if c == '&' {
        seq!['&', 'a', 'm', 'p', ';']
    } else if c == '<' {
        seq!['&', 'l', 't', ';']
    } else if c == '>' {
        seq!['&', 'g', 't', ';']
    } else if c == '"' {
        seq!['&', 'q', 'u', 'o', 't', ';']
    } else if c == '\'' {
        seq!['&', '#', 'x', '2', '7', ';']
    } else if c == '/' {
        seq!['&', '#', 'x', '2', 'F', ';']
    } else {
        seq![c]
    }
}

/// `html_escape::encode_safe` on a whole text.
pub open spec fn escape_safe(s: Seq<char>) -> Seq<char>
    decreases s.len(),
{
    if s.len() == 0 {
        Seq::empty()
    } else {
        escape_safe(s.drop_last()) + escape_char(s.last())
    }
}

/// `html_escape::encode_safe`, which the crate documents (and its source implements,
/// byte by byte over the UTF-8 encoding) as replacing `&`, `<`, `>`, `"`, `'` and `/`
/// by `&amp;`, `&lt;`, `&gt;`, `&quot;`, `&#x27;` and `&#x2F;`. Trusted: the result is
/// `escape_safe` of the input.
#[verifier::external_body]
pub(crate) fn encode_safe(text: &str) -> (r: String)
    ensures
        r@ == escape_safe(text@),
{
    html_escape::encode_safe(text).into_owned()
}

/// `html_escape::encode_safe_to_string`, which appends to `out` what `encode_safe`
/// returns for `text`. Trusted: `out` grows by `escape_safe` of the text.
#[verifier::external_body]
pub(crate) fn encode_safe_to_string(text: &str, out: &mut String)
    ensures
        final(out)@ == old(out)@ + escape_safe(text@),
{
    html_escape::encode_safe_to_string(text, out);
}

/// `String::push`: appends one character.
#[verifier::external_body]
pub(crate) fn push_char(s: &mut String, c: char)
    ensures
        final(s)@ == old(s)@.push(c),
{
    s.push(c);
}

/// The largest stack of open elements that `stack_push` accepts.
pub const STACK_LIMIT: usize = 0x0100_0000;

/// The converter's stack of open elements, a `SmallVec` with room for four inline.
/// Verus refuses to declare `SmallVec` itself (its `Array` bound), so the vector is a
/// private field of this opaque struct; `stack_items` names what it holds.
#[verifier::external_body]
pub struct StateStack {
    items: SmallVec<[ConverterState; 4]>,
}

/// The elements a stack of open elements holds, bottom first.
pub uninterp spec fn stack_items(v: StateStack) -> Seq<ConverterState>;

/// `SmallVec::new`: an empty vector.
#[verifier::external_body]
pub(crate) fn stack_new() -> (r: StateStack)
    ensures
        stack_items(r) == Seq::<ConverterState>::empty(),
{
    StateStack { items: SmallVec::new() }
}

/// `SmallVec::push`: appends at the end. When the vector is full it grows to the next
/// power of two above its length, and panics if that capacity, or its size in bytes,
/// overflows; below `STACK_LIMIT` elements neither can happen on a 32- or 64-bit
/// target, which the requirement states.
#[verifier::external_body]
pub(crate) fn stack_push(v: &mut StateStack, x: ConverterState)
    requires
        stack_items(*old(v)).len() < STACK_LIMIT,
    ensures
        stack_items(*final(v)) == stack_items(*old(v)).push(x),
{
    v.items.push(x);
}

/// `SmallVec::pop`: removes and returns the last element, `None` when empty.
#[verifier::external_body]
pub(crate) fn stack_pop(v: &mut StateStack) -> (r: Option<ConverterState>)
    ensures
        stack_items(*old(v)).len() == 0 ==> r is None && stack_items(*final(v)) == stack_items(*old(v)),
        stack_items(*old(v)).len() > 0 ==> r == Some(stack_items(*old(v)).last())
            && stack_items(*final(v)) == stack_items(*old(v)).drop_last(),
{
    v.items.pop()
}

/// `SmallVec::len`.
#[verifier::external_body]
pub(crate) fn stack_len(v: &StateStack) -> (r: usize)
    ensures
        r == stack_items(*v).len(),
{
    v.items.len()
}

/// `<[T]>::get` through `SmallVec`'s `Deref` to its slice of elements.
#[verifier::external_body]
pub(crate) fn stack_get(v: &StateStack, i: usize) -> (r: Option<&ConverterState>)
    ensures
        i < stack_items(*v).len() ==> r == Some(&stack_items(*v)[i as int]),
        i >= stack_items(*v).len() ==> r is None,
{
    v.items.get(i)
}

/// A YAML value as `serde_value` holds it.
#[verifier::external_type_specification]
#[verifier::external_body]
pub struct ExValue(serde_value::Value);

/// What `serde_yml::from_str::<serde_value::Value>` makes of `text`: the value, or the
/// error's pretty `Debug` text. It depends on the text alone.
pub uninterp spec fn yaml_parse(text: Seq<char>) -> Result<serde_value::Value, Seq<char>>;

/// `serde_yml::from_str` into a `serde_value::Value`; on failure, the error formatted
/// with `{:#?}`. Trusted: the result is the name `yaml_parse` applied to the text.
#[verifier::external_body]
pub(crate) fn parse_yaml(text: &str) -> (r: Result<serde_value::Value, String>)
    ensures
        r matches Ok(v) ==> (yaml_parse(text@) matches Ok(w) && w == v),
        r matches Err(e) ==> (yaml_parse(text@) matches Err(m) && m == e@),
{
    match serde_yml::from_str::<serde_value::Value>(text) {
        Ok(v) => Ok(v),
        Err(e) => Err(format!("{e:#?}")),
    }
}

} // verus!
