//! Matching query tokens against the tokens of a record's name.

use vstd::prelude::*;
use vstd::seq_lib::lemma_flatten_concat;
use vstd::string::StringExecFns;
use vstd::utf8::encode_utf8;

use crate::models::architecture::{Modality, ModalitySet};
use crate::text::str_starts_with;
use crate::utils::tokenize::{tokenize, tokens_of};

verus! {

/// The concatenation of the tokens at positions `start..end`.
pub open spec fn run_text(tokens: Seq<Seq<char>>, start: int, end: int) -> Seq<char> {
    tokens.subrange(start, end).flatten()
}

/// `query` is a prefix of the concatenation of the non-empty run of tokens at
/// positions `start..end`.
pub open spec fn matches_run(query: Seq<char>, tokens: Seq<Seq<char>>, start: int, end: int) -> bool {
    &&& 0 <= start < end <= tokens.len()
    &&& query.is_prefix_of(run_text(tokens, start, end))
}

/// `query` is a prefix of a single token or of the concatenation of some
/// contiguous run of tokens. No query matches an empty token sequence.
pub open spec fn matches_tokens(query: Seq<char>, tokens: Seq<Seq<char>>) -> bool {
    exists|start: int, end: int| matches_run(query, tokens, start, end)
}

/// Every query token matches: conjunctive across the query tokens.
pub open spec fn all_match(queries: Seq<Seq<char>>, tokens: Seq<Seq<char>>) -> bool {
    forall|k: int| 0 <= k < queries.len() ==> matches_tokens(#[trigger] queries[k], tokens)
}

/// The full-text predicate: every token of the filter text matches the
/// record's tokens.
pub open spec fn text_matches_tokens(filter_text: Seq<char>, tokens: Seq<Seq<char>>) -> bool {
    all_match(tokens_of(filter_text), tokens)
}

/// Nothing matches a record without tokens.
pub proof fn lemma_no_tokens_no_match(query: Seq<char>)
    ensures
        !matches_tokens(query, Seq::<Seq<char>>::empty()),
{
}

/// A query that is a prefix of one of the tokens matches.
pub proof fn lemma_prefix_of_a_token_matches(query: Seq<char>, tokens: Seq<Seq<char>>, i: int)
    requires
        0 <= i < tokens.len(),
        query.is_prefix_of(tokens[i]),
    ensures
        matches_tokens(query, tokens),
{
    lemma_run_single(tokens, i);
    assert(matches_run(query, tokens, i, i + 1));
}

/// The empty query matches every record that has a token.
pub proof fn lemma_empty_query_matches(tokens: Seq<Seq<char>>)
    requires
        tokens.len() > 0,
    ensures
        matches_tokens(Seq::<char>::empty(), tokens),
{
    assert(matches_run(Seq::<char>::empty(), tokens, 0, 1));
}

/// A filter text without tokens, the empty text among them, matches every
/// record.
pub proof fn lemma_blank_filter_matches(filter_text: Seq<char>, tokens: Seq<Seq<char>>)
    requires
        tokens_of(filter_text).len() == 0,
    ensures
        text_matches_tokens(filter_text, tokens),
{
}

/// A run of one token is that token.
proof fn lemma_run_single(tokens: Seq<Seq<char>>, i: int)
    requires
        0 <= i < tokens.len(),
    ensures
        run_text(tokens, i, i + 1) == tokens[i],
{
    let one = tokens.subrange(i, i + 1);
    assert(one.drop_first() =~= Seq::<Seq<char>>::empty());
    assert(one.drop_first().flatten() =~= Seq::<char>::empty());
    assert(one.flatten() =~= tokens[i]);
}

/// A run is a shorter run from the same start followed by the rest.
proof fn lemma_run_split(tokens: Seq<Seq<char>>, start: int, mid: int, end: int)
    requires
        0 <= start <= mid <= end <= tokens.len(),
    ensures
        run_text(tokens, start, end) == run_text(tokens, start, mid) + run_text(tokens, mid, end),
{
    assert(tokens.subrange(start, end) =~= tokens.subrange(start, mid) + tokens.subrange(mid, end));
    lemma_flatten_concat(tokens.subrange(start, mid), tokens.subrange(mid, end));
}

/// The UTF-8 encoding of a concatenation is the concatenation of the
/// encodings.
proof fn lemma_encode_concat(a: Seq<char>, b: Seq<char>)
    ensures
        encode_utf8(a + b) == encode_utf8(a) + encode_utf8(b),
    decreases a.len(),
{
    if a.len() == 0 {
        assert(a + b =~= b);
        assert(encode_utf8(a) + encode_utf8(b) =~= encode_utf8(b));
    } else {
        lemma_encode_concat(a.drop_first(), b);
        assert((a + b).drop_first() =~= a.drop_first() + b);
        assert((a + b)[0] == a[0]);
        assert(encode_utf8(a + b) =~= encode_utf8(a) + encode_utf8(b));
    }
}

/// Once a run's text is longer in bytes than the query without having the
/// query as a prefix, no longer run from the same start can match.
pub proof fn lemma_longer_run_cannot_match(
    query: Seq<char>,
    tokens: Seq<Seq<char>>,
    start: int,
    mid: int,
    end: int,
)
    requires
        0 <= start < mid <= end <= tokens.len(),
        !query.is_prefix_of(run_text(tokens, start, mid)),
        encode_utf8(run_text(tokens, start, mid)).len() > encode_utf8(query).len(),
    ensures
        !matches_run(query, tokens, start, end),
{
    let short = run_text(tokens, start, mid);
    let long = run_text(tokens, start, end);
    lemma_run_split(tokens, start, mid, end);
    if query.is_prefix_of(long) {
        if query.len() <= short.len() {
            assert(query =~= short.subrange(0, query.len() as int));
        } else {
            let rest = query.subrange(short.len() as int, query.len() as int);
            assert(query =~= short + rest);
            lemma_encode_concat(short, rest);
        }
    }
}

/// Checks whether a filter token matches a model token or the concatenation of
/// consecutive model tokens, as a prefix.
pub fn matches_any_token_sequence(filter_token: &str, model_tokens: &[String]) -> (found: bool)
    ensures
        found == matches_tokens(filter_token@, model_tokens.deep_view()),
{
    let ghost query = filter_token@;
    let ghost tokens = model_tokens.deep_view();
    let n = model_tokens.len();
    let mut i: usize = 0;
    while i < n
        invariant
            n == model_tokens@.len(),
            query == filter_token@,
            tokens == model_tokens.deep_view(),
            i <= n,
        decreases n - i,
    {
        if str_starts_with(model_tokens[i].as_str(), filter_token) {
            proof {
                lemma_run_single(tokens, i as int);
                assert(matches_run(query, tokens, i as int, i + 1));
            }
            return true;
        }
        i += 1;
    }
    let mut start: usize = 0;
    while start < n
        invariant
            n == model_tokens@.len(),
            query == filter_token@,
            tokens == model_tokens.deep_view(),
            start <= n,
            forall|s: int, e: int| 0 <= s < start ==> !matches_run(query, tokens, s, e),
        decreases n - start,
    {
        let mut concat = String::new();
        let mut end: usize = start;
        proof {
            assert(tokens.subrange(start as int, start as int) =~= Seq::<Seq<char>>::empty());
        }
        while end < n
            invariant
                n == model_tokens@.len(),
                query == filter_token@,
                tokens == model_tokens.deep_view(),
                start <= end <= n,
                concat@ == run_text(tokens, start as int, end as int),
                forall|e: int| start < e <= end ==> !matches_run(query, tokens, start as int, e),
            ensures
                forall|e: int| !matches_run(query, tokens, start as int, e),
            decreases n - end,
        {
            concat.append(model_tokens[end].as_str());
            proof {
                lemma_run_split(tokens, start as int, end as int, end + 1);
                lemma_run_single(tokens, end as int);
            }
            end += 1;
            if str_starts_with(concat.as_str(), filter_token) {
                proof {
                    assert(matches_run(query, tokens, start as int, end as int));
                }
                return true;
            }
            if concat.as_str().as_bytes().len() > filter_token.as_bytes().len() {
                proof {
                    assert forall|e: int| !matches_run(query, tokens, start as int, e) by {
                        if end <= e <= n {
                            lemma_longer_run_cannot_match(
                                query,
                                tokens,
                                start as int,
                                end as int,
                                e,
                            );
                        }
                    }
                }
                break ;
            }
        }
        start += 1;
    }
    false
}

/// Checks whether every one of the filter tokens matches the model tokens.
pub fn matches_all_tokens(filter_tokens: &[String], model_tokens: &[String]) -> (all: bool)
    ensures
        all == all_match(filter_tokens.deep_view(), model_tokens.deep_view()),
{
    let n = filter_tokens.len();
    let mut k: usize = 0;
    while k < n
        invariant
            n == filter_tokens@.len(),
            k <= n,
            forall|j: int|
                0 <= j < k ==> matches_tokens(
                    #[trigger] filter_tokens.deep_view()[j],
                    model_tokens.deep_view(),
                ),
        decreases n - k,
    {
        if !matches_any_token_sequence(filter_tokens[k].as_str(), model_tokens) {
            assert(!matches_tokens(filter_tokens.deep_view()[k as int], model_tokens.deep_view()));
            return false;
        }
        k += 1;
    }
    true
}

/// The full-text predicate: tokenizes the filter text and checks that every
/// one of its tokens matches the model tokens. An empty filter matches every
/// record.
pub fn text_matches(filter_text: &str, model_tokens: &[String]) -> (all: bool)
    ensures
        all == text_matches_tokens(filter_text@, model_tokens.deep_view()),
{
    let filter_tokens = tokenize(filter_text);
    matches_all_tokens(filter_tokens.as_slice(), model_tokens)
}

/// Every required modality occurs among `modalities`; order and repetition
/// do not matter.
pub open spec fn has_all(modalities: Seq<Modality>, required: Set<Modality>) -> bool {
    forall|m: Modality| required.contains(m) ==> modalities.contains(m)
}

/// Whatever a model offers, it passes when nothing is required, and so does
/// a model that offers nothing.
pub proof fn lemma_nothing_required(modalities: Seq<Modality>)
    ensures
        has_all(modalities, Set::<Modality>::empty()),
{
}

/// Checks whether `modality` occurs in `modalities`.
pub fn offers(modalities: &[Modality], modality: Modality) -> (found: bool)
    ensures
        found == modalities@.contains(modality),
{
    let n = modalities.len();
    let mut i: usize = 0;
    while i < n
        invariant
            n == modalities@.len(),
            i <= n,
            forall|k: int| 0 <= k < i ==> modalities@[k] != modality,
        decreases n - i,
    {
        if modalities[i] == modality {
            return true;
        }
        i += 1;
    }
    false
}

/// Checks whether a model has all required modalities. With nothing required
/// every model passes.
pub fn has_all_modalities(model_modalities: &[Modality], required: &ModalitySet) -> (all: bool)
    ensures
        all == has_all(model_modalities@, required@),
{
    if required.is_empty() {
        return true;
    }
    let wanted = required.as_slice();
    let n = wanted.len();
    let mut i: usize = 0;
    while i < n
        invariant
            n == wanted@.len(),
            wanted@.to_set() == required@,
            i <= n,
            forall|k: int| 0 <= k < i ==> model_modalities@.contains(#[trigger] wanted@[k]),
        decreases n - i,
    {
        if !offers(model_modalities, wanted[i]) {
            assert(wanted@.contains(wanted@[i as int]));
            assert(required@.contains(wanted@[i as int]));
            return false;
        }
        i += 1;
    }
    proof {
        assert forall|m: Modality| required@.contains(m) implies model_modalities@.contains(m) by {
            assert(wanted@.to_set().contains(m));
            let k = choose|k: int| 0 <= k < wanted@.len() && wanted@[k] == m;
            assert(model_modalities@.contains(wanted@[k]));
        }
    }
    true
}

} // verus!
