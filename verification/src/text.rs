//! Character classes and string primitives that the tokenizer and the matcher
//! build on.

use std::cmp::Ordering;
use vstd::prelude::*;

verus! {

/// Whether `c` carries the Unicode `White_Space` property.
pub uninterp spec fn char_is_whitespace(c: char) -> bool;

/// Whether `c` carries the Unicode `Uppercase` property.
pub uninterp spec fn char_is_uppercase(c: char) -> bool;

/// Whether `c` carries the Unicode `Lowercase` property.
pub uninterp spec fn char_is_lowercase(c: char) -> bool;

/// The Unicode lowercase form of a whole string.
pub uninterp spec fn str_to_lowercase(s: Seq<char>) -> Seq<char>;

/// `char::is_whitespace` decides the `White_Space` property of its argument.
pub assume_specification[ char::is_whitespace ](c: char) -> (b: bool)
    ensures
        b == char_is_whitespace(c),
;

/// `char::is_uppercase` decides the `Uppercase` property of its argument.
pub assume_specification[ char::is_uppercase ](c: char) -> (b: bool)
    ensures
        b == char_is_uppercase(c),
;

/// `char::is_lowercase` decides the `Lowercase` property of its argument.
pub assume_specification[ char::is_lowercase ](c: char) -> (b: bool)
    ensures
        b == char_is_lowercase(c),
;

/// `str::to_lowercase` returns the lowercase form of the string as a new `String`.
pub assume_specification[ str::to_lowercase ](s: &str) -> (r: String)
    ensures
        r@ == str_to_lowercase(s@),
;

/// `String::push` appends one character to the end of the string.
pub assume_specification[ String::push ](s: &mut String, c: char)
    ensures
        final(s)@ == old(s)@.push(c),
;

/// `str::starts_with` with a string pattern: whether `prefix` is a prefix of
/// `s`, character by character.
#[verifier::external_body]
pub(crate) fn str_starts_with(s: &str, prefix: &str) -> (b: bool)
    ensures
        b == prefix@.is_prefix_of(s@),
{
    s.starts_with(prefix)
}

/// The position of a character in the Unicode code charts.
pub open spec fn code_point(c: char) -> int {
    c as int
}

/// The opposite of an ordering.
pub open spec fn opposite(o: Ordering) -> Ordering {
    match o {
        Ordering::Less => Ordering::Greater,
        Ordering::Equal => Ordering::Equal,
        Ordering::Greater => Ordering::Less,
    }
}

/// Reverses an ordering: `Less` becomes `Greater` and the other way round.
pub fn flip(o: Ordering) -> (r: Ordering)
    ensures
        r == opposite(o),
{
    match o {
        Ordering::Less => Ordering::Greater,
        Ordering::Equal => Ordering::Equal,
        Ordering::Greater => Ordering::Less,
    }
}

/// How two integers stand to each other.
pub open spec fn int_order(x: int, y: int) -> Ordering {
    if x < y {
        Ordering::Less
    } else if x == y {
        Ordering::Equal
    } else {
        Ordering::Greater
    }
}

/// How two texts stand to each other in the lexicographic order of their
/// code points: the first difference decides, and a proper prefix comes first.
pub open spec fn text_order(a: Seq<char>, b: Seq<char>) -> Ordering
    decreases a.len(),
{
    if a.len() == 0 {
        if b.len() == 0 {
            Ordering::Equal
        } else {
            Ordering::Less
        }
    } else if b.len() == 0 {
        Ordering::Greater
    } else if code_point(a[0]) < code_point(b[0]) {
        Ordering::Less
    } else if code_point(a[0]) > code_point(b[0]) {
        Ordering::Greater
    } else {
        text_order(a.drop_first(), b.drop_first())
    }
}

/// Swapping the two texts reverses their order.
pub proof fn lemma_text_order_flip(a: Seq<char>, b: Seq<char>)
    ensures
        text_order(b, a) == opposite(text_order(a, b)),
    decreases a.len(),
{
    if a.len() > 0 && b.len() > 0 && code_point(a[0]) == code_point(b[0]) {
        lemma_text_order_flip(a.drop_first(), b.drop_first());
    }
}

/// Two texts are tied exactly when they are the same text.
pub proof fn lemma_text_order_equal(a: Seq<char>, b: Seq<char>)
    ensures
        text_order(a, b) == Ordering::Equal <==> a == b,
    decreases a.len(),
{
    if a.len() > 0 && b.len() > 0 && code_point(a[0]) == code_point(b[0]) {
        lemma_text_order_equal(a.drop_first(), b.drop_first());
        if a.drop_first() == b.drop_first() {
            assert(a =~= seq![a[0]] + a.drop_first());
            assert(b =~= seq![b[0]] + b.drop_first());
        }
    } else if a.len() == 0 && b.len() == 0 {
        assert(a =~= b);
    }
}

/// The lexicographic order is transitive.
pub proof fn lemma_text_order_transitive(a: Seq<char>, b: Seq<char>, c: Seq<char>)
    requires
        text_order(a, b) != Ordering::Greater,
        text_order(b, c) != Ordering::Greater,
    ensures
        text_order(a, c) != Ordering::Greater,
        text_order(a, c) == Ordering::Equal ==> text_order(a, b) == Ordering::Equal && text_order(
            b,
            c,
        ) == Ordering::Equal,
    decreases a.len(),
{
    if a.len() > 0 && b.len() > 0 && c.len() > 0 && code_point(a[0]) == code_point(b[0])
        && code_point(b[0]) == code_point(c[0]) {
        lemma_text_order_transitive(a.drop_first(), b.drop_first(), c.drop_first());
    }
}

/// `str::cmp` orders strings lexicographically by their bytes, which is the
/// lexicographic order of their code points.
#[verifier::external_body]
pub(crate) fn str_compare(a: &str, b: &str) -> (o: Ordering)
    ensures
        o == text_order(a@, b@),
{
    a.cmp(b)
}

/// Collects the characters of `input` in order.
pub fn chars_of(input: &str) -> (out: Vec<char>)
    ensures
        out@ == input@,
{
    let mut out: Vec<char> = Vec::new();
    for c in it: input.chars()
        invariant
            it.seq() == input@,
            out@ == it.seq().take(it.index() as int),
    {
        out.push(c);
        assert(it.seq().take(it.index() + 1) == it.seq().take(it.index() as int).push(c));
    }
    assert(input@.take(input@.len() as int) == input@);
    out
}

} // verus!
