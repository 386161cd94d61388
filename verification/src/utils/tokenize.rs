//! Splitting display names into lowercase word tokens.

use vstd::prelude::*;

use crate::text::{
    char_is_lowercase, char_is_uppercase, char_is_whitespace, chars_of, str_to_lowercase,
};

verus! {

/// Characters that separate tokens and never occur inside one: whitespace and
/// the punctuation `- _ . / ( ) [ ] { } : , ;`.
pub open spec fn is_delimiter(c: char) -> bool {
    char_is_whitespace(c) || c == '-' || c == '_' || c == '.' || c == '/' || c == '(' || c == ')'
        || c == '[' || c == ']' || c == '{' || c == '}' || c == ':' || c == ',' || c == ';'
}

/// A camelCase boundary lies before position `i`: `s[i]` is uppercase and
/// either follows a lowercase character, or follows an uppercase character
/// and is itself followed by a lowercase one (the `H` of `XMLHttp`).
pub open spec fn is_case_boundary(s: Seq<char>, i: int) -> bool {
    &&& 0 < i < s.len()
    &&& char_is_uppercase(s[i])
    &&& (char_is_lowercase(s[i - 1]) || (char_is_uppercase(s[i - 1]) && i + 1 < s.len()
        && char_is_lowercase(s[i + 1])))
}

/// The first position at or after `j` where a token that is open at `j` stops:
/// the end of the text, a delimiter, or a camelCase boundary.
pub open spec fn token_end(s: Seq<char>, j: int) -> int
    decreases s.len() - j,
{
    if j >= s.len() || is_delimiter(s[j]) || is_case_boundary(s, j) {
        j
    } else {
        token_end(s, j + 1)
    }
}

/// The tokens of `s` that start at or after position `i`, provided that no
/// token is open at `i`.
pub open spec fn tokens_from(s: Seq<char>, i: int) -> Seq<Seq<char>>
    decreases s.len() - i,
{
    if i < 0 || i >= s.len() {
        Seq::empty()
    } else if is_delimiter(s[i]) {
        tokens_from(s, i + 1)
    } else {
        proof {
            lemma_token_end_bounds(s, i + 1);
        }
        let j = token_end(s, i + 1);
        seq![str_to_lowercase(s.subrange(i, j))] + tokens_from(s, j)
    }
}

/// The tokens of a text, in order of appearance.
pub open spec fn tokens_of(s: Seq<char>) -> Seq<Seq<char>> {
    tokens_from(s, 0)
}

/// A token that is open at `j` stops at or after `j` and inside the text.
pub proof fn lemma_token_end_bounds(s: Seq<char>, j: int)
    requires
        0 <= j <= s.len(),
    ensures
        j <= token_end(s, j) <= s.len(),
        forall|k: int| j <= k < token_end(s, j) ==> !is_delimiter(#[trigger] s[k]),
    decreases s.len() - j,
{
    if j >= s.len() || is_delimiter(s[j]) || is_case_boundary(s, j) {
    } else {
        lemma_token_end_bounds(s, j + 1);
    }
}

/// A text made of delimiters only, the empty text among them, has no tokens.
pub proof fn lemma_only_delimiters_no_tokens(s: Seq<char>)
    requires
        forall|k: int| 0 <= k < s.len() ==> is_delimiter(#[trigger] s[k]),
    ensures
        tokens_of(s) == Seq::<Seq<char>>::empty(),
{
    lemma_only_delimiters_from(s, 0);
}

proof fn lemma_only_delimiters_from(s: Seq<char>, i: int)
    requires
        0 <= i,
        forall|k: int| 0 <= k < s.len() ==> is_delimiter(#[trigger] s[k]),
    ensures
        tokens_from(s, i) == Seq::<Seq<char>>::empty(),
    decreases s.len() - i,
{
    if i < s.len() {
        lemma_only_delimiters_from(s, i + 1);
    }
}

/// `t` is the lowercase form of a non-empty stretch of `s` that holds no
/// delimiter.
pub open spec fn is_lowered_segment(s: Seq<char>, t: Seq<char>) -> bool {
    exists|a: int, b: int|
        {
            &&& 0 <= a < b <= s.len()
            &&& #[trigger] str_to_lowercase(s.subrange(a, b)) == t
            &&& forall|k: int| a <= k < b ==> !is_delimiter(#[trigger] s[k])
        }
}

/// Every token is the lowercase form of a non-empty, delimiter-free stretch of
/// the text: delimiters are never emitted and runs of them yield no empty
/// token.
pub proof fn lemma_tokens_are_lowered_segments(s: Seq<char>)
    ensures
        forall|k: int|
            0 <= k < tokens_of(s).len() ==> is_lowered_segment(s, #[trigger] tokens_of(s)[k]),
{
    lemma_tokens_from_are_lowered_segments(s, 0);
}

proof fn lemma_tokens_from_are_lowered_segments(s: Seq<char>, i: int)
    requires
        0 <= i,
    ensures
        forall|k: int|
            0 <= k < tokens_from(s, i).len() ==> is_lowered_segment(
                s,
                #[trigger] tokens_from(s, i)[k],
            ),
    decreases s.len() - i,
{
    if i >= s.len() {
        assert(tokens_from(s, i).len() == 0);
    } else if is_delimiter(s[i]) {
        lemma_tokens_from_are_lowered_segments(s, i + 1);
        assert(tokens_from(s, i) == tokens_from(s, i + 1));
    } else {
        lemma_token_end_bounds(s, i + 1);
        let j = token_end(s, i + 1);
        lemma_tokens_from_are_lowered_segments(s, j);
        let head = str_to_lowercase(s.subrange(i, j));
        let rest = tokens_from(s, j);
        assert(tokens_from(s, i) == seq![head] + rest);
        assert(is_lowered_segment(s, head));
        assert forall|k: int| 0 <= k < tokens_from(s, i).len() implies is_lowered_segment(
            s,
            #[trigger] tokens_from(s, i)[k],
        ) by {
            if k > 0 {
                assert(tokens_from(s, i)[k] == rest[k - 1]);
                assert(is_lowered_segment(s, rest[k - 1]));
            } else {
                assert(tokens_from(s, i)[k] == head);
            }
        }
    }
}

/// Tokenizes `input` into lowercase words, splitting at delimiters and at
/// camelCase boundaries.
pub fn tokenize(input: &str) -> (tokens: Vec<String>)
    ensures
        tokens.deep_view() == tokens_of(input@),
{
    let mut result: Vec<String> = Vec::new();
    let mut current_token = String::new();
    let chars = chars_of(input);
    let ghost s = input@;
    let ghost mut start: int = 0;
    let n = chars.len();
    let mut i: usize = 0;
    proof {
        assert(result.deep_view() =~= Seq::<Seq<char>>::empty());
    }
    while i < n
        invariant
            n == chars.len(),
            chars@ == s,
            i <= n,
            current_token@.len() == 0 ==> tokens_of(s) == result.deep_view() + tokens_from(
                s,
                i as int,
            ),
            current_token@.len() > 0 ==> {
                &&& 0 <= start < i
                &&& current_token@ == s.subrange(start, i as int)
                &&& !is_delimiter(s[start])
                &&& token_end(s, start + 1) == token_end(s, i as int)
                &&& tokens_of(s) == result.deep_view() + tokens_from(s, start)
            },
        decreases n - i,
    {
        let ch = chars[i];
        let pending = !current_token.as_str().is_empty();
        if ch.is_whitespace() || ch == '-' || ch == '_' || ch == '.' || ch == '/' || ch == '('
            || ch == ')' || ch == '[' || ch == ']' || ch == '{' || ch == '}' || ch == ':' || ch
            == ',' || ch == ';' {
            if pending {
                let token = current_token.as_str().to_lowercase();
                proof {
                    lemma_deep_view_push(result, token);
                    lemma_close_token(s, start, i as int, result.deep_view());
                }
                result.push(token);
                current_token = String::new();
            }
        } else {
            let is_boundary = if i > 0 && ch.is_uppercase() {
                let prev = chars[i - 1];
                prev.is_lowercase() || (prev.is_uppercase() && i + 1 < n
                    && chars[i + 1].is_lowercase())
            } else {
                false
            };
            assert(is_boundary == is_case_boundary(s, i as int));
            if is_boundary && pending {
                let token = current_token.as_str().to_lowercase();
                proof {
                    lemma_deep_view_push(result, token);
                    lemma_close_token(s, start, i as int, result.deep_view());
                }
                result.push(token);
                current_token = String::new();
            }
            proof {
                if current_token@.len() == 0 {
                    start = i as int;
                    assert(s.subrange(start, i + 1) =~= Seq::<char>::empty().push(ch));
                } else {
                    assert(s.subrange(start, i + 1) =~= s.subrange(start, i as int).push(ch));
                }
            }
            current_token.push(ch);
        }
        i += 1;
    }
    if !current_token.as_str().is_empty() {
        let token = current_token.as_str().to_lowercase();
        proof {
            lemma_deep_view_push(result, token);
            lemma_close_token(s, start, i as int, result.deep_view());
        }
        result.push(token);
    }
    result
}

/// Closing the token that is open since `start` at a break position `i`
/// emits the lowercase form of `s[start..i]` and goes on from `i`.
proof fn lemma_close_token(s: Seq<char>, start: int, i: int, done: Seq<Seq<char>>)
    requires
        0 <= start < i <= s.len(),
        !is_delimiter(s[start]),
        token_end(s, start + 1) == token_end(s, i),
        i == s.len() || is_delimiter(s[i]) || is_case_boundary(s, i),
    ensures
        done + tokens_from(s, start) == done.push(str_to_lowercase(s.subrange(start, i)))
            + tokens_from(s, i),
{
    let t = str_to_lowercase(s.subrange(start, i));
    assert(token_end(s, i) == i);
    assert(tokens_from(s, start) == seq![t] + tokens_from(s, i));
    assert(done + (seq![t] + tokens_from(s, i)) =~= done.push(t) + tokens_from(s, i));
}

/// Pushing a string onto a vector of strings appends its characters to the
/// vector's view as sequences of characters.
proof fn lemma_deep_view_push(v: Vec<String>, t: String)
    ensures
        v@.push(t).len() == v@.len() + 1,
        Seq::new(v@.push(t).len(), |i: int| v@.push(t)[i].deep_view()) == v.deep_view().push(t@),
{
    assert(Seq::new(v@.push(t).len(), |i: int| v@.push(t)[i].deep_view()) =~= v.deep_view().push(
        t@,
    ));
}

} // verus!
