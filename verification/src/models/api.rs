//! Model records.

use vstd::prelude::*;
use vstd::string::StrSliceExecFns;

use super::architecture::{Architecture, Modality};
use super::pricing::Pricing;
use crate::text::{chars_of, str_starts_with};

verus! {

/// The limits that the model's main provider sets.
#[derive(Debug, Clone, Copy, PartialEq, Eq, Structural)]
pub struct TopProvider {
    pub context_length: usize,
    /// Zero means that completions are not limited.
    pub max_completion_tokens: usize,
    pub is_moderated: bool,
}

/// One model of the catalogue.
#[derive(Debug)]
pub struct Model {
    pub name: String,
    /// `provider/model`, optionally behind an `openrouter/` prefix.
    pub id: String,
    /// Seconds since the Unix epoch.
    pub created: i64,
    pub canonical_slug: String,
    pub pricing: Pricing,
    pub architecture: Architecture,
    /// The tokens of `name`; derived when a dataset is normalized.
    pub name_tokens: Vec<String>,
    pub top_provider: TopProvider,
    pub supported_parameters: Vec<String>,
}

/// A dataset as the remote source delivers it.
#[derive(Debug)]
pub struct ApiResponse {
    pub data: Vec<Model>,
}

/// The mathematical content of a model record.
pub struct ModelView {
    pub name: Seq<char>,
    pub id: Seq<char>,
    pub created: int,
    pub canonical_slug: Seq<char>,
    pub pricing: Pricing,
    pub input_modalities: Seq<Modality>,
    pub output_modalities: Seq<Modality>,
    pub name_tokens: Seq<Seq<char>>,
    pub top_provider: TopProvider,
    pub supported_parameters: Seq<Seq<char>>,
}

impl View for Model {
    type V = ModelView;

    open spec fn view(&self) -> ModelView {
        ModelView {
            name: self.name@,
            id: self.id@,
            created: self.created as int,
            canonical_slug: self.canonical_slug@,
            pricing: self.pricing,
            input_modalities: self.architecture.input_modalities@,
            output_modalities: self.architecture.output_modalities@,
            name_tokens: self.name_tokens.deep_view(),
            top_provider: self.top_provider,
            supported_parameters: self.supported_parameters.deep_view(),
        }
    }
}

impl DeepView for Model {
    type V = ModelView;

    open spec fn deep_view(&self) -> ModelView {
        self.view()
    }
}

/// Where the part of a slash-delimited text that starts at `from` ends: at
/// the next slash or at the end of the text.
pub open spec fn segment_end(s: Seq<char>, from: int) -> int
    decreases s.len() - from,
{
    if from >= s.len() || s[from] == '/' {
        from
    } else {
        segment_end(s, from + 1)
    }
}

/// The provider named by a model id: the first part of the id, or the second
/// one where the first is `openrouter`. An id that is nothing but
/// `openrouter` names none.
pub open spec fn provider_of(id: Seq<char>) -> Option<Seq<char>> {
    let first_end = segment_end(id, 0);
    let first = id.subrange(0, first_end);
    if first == "openrouter"@ {
        if first_end >= id.len() {
            None
        } else {
            Some(id.subrange(first_end + 1, segment_end(id, first_end + 1)))
        }
    } else {
        Some(first)
    }
}

/// A part of a text ends at or behind its start and inside the text.
pub proof fn lemma_segment_end_bounds(s: Seq<char>, from: int)
    requires
        0 <= from <= s.len(),
    ensures
        from <= segment_end(s, from) <= s.len(),
    decreases s.len() - from,
{
    if from < s.len() && s[from] != '/' {
        lemma_segment_end_bounds(s, from + 1);
    }
}

/// Finds where the part that starts at `from` ends.
fn find_segment_end(chars: &Vec<char>, from: usize) -> (end: usize)
    requires
        from <= chars@.len(),
    ensures
        end == segment_end(chars@, from as int),
        from <= end <= chars@.len(),
{
    let n = chars.len();
    let mut i = from;
    while i < n && chars[i] != '/'
        invariant
            n == chars@.len(),
            from <= i <= n,
            segment_end(chars@, from as int) == segment_end(chars@, i as int),
        decreases n - i,
    {
        i += 1;
    }
    i
}

/// Extracts the provider from a model id, not counting an `openrouter`
/// prefix.
pub fn provider_in(id: &str) -> (name: Option<&str>)
    ensures
        name.deep_view() == provider_of(id@),
{
    let chars = chars_of(id);
    let first_end = find_segment_end(&chars, 0);
    proof {
        reveal_strlit("openrouter");
    }
    if first_end == 10 && str_starts_with(id, "openrouter") {
        assert(id@.subrange(0, 10) =~= "openrouter"@);
        if first_end >= chars.len() {
            None
        } else {
            let second_end = find_segment_end(&chars, first_end + 1);
            Some(id.substring_char(first_end + 1, second_end))
        }
    } else {
        proof {
            if id@.subrange(0, first_end as int) == "openrouter"@ {
                assert("openrouter"@.is_prefix_of(id@));
            }
        }
        Some(id.substring_char(0, first_end))
    }
}

impl Model {
    /// Extracts the model's provider from its id, not counting an
    /// `openrouter` prefix.
    pub fn provider(&self) -> (name: Option<&str>)
        ensures
            name.deep_view() == provider_of(self.id@),
    {
        provider_in(self.id.as_str())
    }
}

impl Clone for Model {
    fn clone(&self) -> (copy: Model)
        ensures
            copy@ == self@,
    {
        let name_tokens = self.name_tokens.clone();
        let supported_parameters = self.supported_parameters.clone();
        let input_modalities = self.architecture.input_modalities.clone();
        let output_modalities = self.architecture.output_modalities.clone();
        proof {
            assert(input_modalities@ =~= self.architecture.input_modalities@);
            assert(output_modalities@ =~= self.architecture.output_modalities@);
            assert(name_tokens.deep_view() =~= self.name_tokens.deep_view());
            assert(supported_parameters.deep_view() =~= self.supported_parameters.deep_view());
        }
        Model {
            name: self.name.clone(),
            id: self.id.clone(),
            created: self.created,
            canonical_slug: self.canonical_slug.clone(),
            pricing: self.pricing,
            architecture: Architecture { input_modalities, output_modalities },
            name_tokens,
            top_provider: self.top_provider,
            supported_parameters,
        }
    }
}

} // verus!
