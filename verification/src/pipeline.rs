//! From a raw dataset to the normalized one, and from the normalized dataset
//! to the records of a view.

use vstd::prelude::*;

use crate::cache::{load_result, save_to_cache, Cache, CacheEntryView, CACHE_KEY};
use crate::models::api::{ApiResponse, Model, ModelView};
use crate::models::architecture::{
    in_rank_order, sort_modalities, Architecture, Modality, ModalitySet, MODALITY_COUNT,
};
use crate::models::ui::{SortDirection, SortField};
use crate::order::Arrangement;
use crate::sort::{is_stable_sort_of, sort_records};
use crate::utils::filter::{
    has_all, has_all_modalities, matches_all_tokens, offers, text_matches_tokens,
};
use crate::utils::tokenize::{tokenize, tokens_of};

verus! {

/// The record charges for something: its pricing is not empty.
pub open spec fn is_priced(m: ModelView) -> bool {
    !m.pricing.is_free()
}

/// The records that are kept when a dataset is normalized.
pub open spec fn priced() -> spec_fn(ModelView) -> bool {
    |m: ModelView| is_priced(m)
}

/// The records that are dropped when a dataset is normalized.
pub open spec fn unpriced() -> spec_fn(ModelView) -> bool {
    |m: ModelView| m.pricing.is_free()
}

/// A record as normalization leaves it: the name tokens are those of the name,
/// whatever was supplied, and the input modalities stand in canonical order.
pub open spec fn normal_form(m: ModelView) -> ModelView {
    ModelView {
        name_tokens: tokens_of(m.name),
        input_modalities: in_rank_order(m.input_modalities),
        ..m
    }
}

/// The normal forms of the records of `s`, in the order of `s`.
pub open spec fn normal_forms(s: Seq<ModelView>) -> Seq<ModelView> {
    s.map_values(|m: ModelView| normal_form(m))
}

/// `out` is the normalized dataset of `raw`: the normal forms of the priced
/// records of `raw`, in canonical order.
pub open spec fn is_normalization_of(out: Seq<ModelView>, raw: Seq<ModelView>) -> bool {
    is_stable_sort_of(out, normal_forms(raw.filter(priced())), Arrangement::Canonical)
}

/// What passes and what does not pass a predicate make up the whole.
proof fn lemma_filter_partition(
    s: Seq<ModelView>,
    yes: spec_fn(ModelView) -> bool,
    no: spec_fn(ModelView) -> bool,
)
    requires
        forall|m: ModelView| #[trigger] yes(m) != #[trigger] no(m),
    ensures
        s.filter(yes).len() + s.filter(no).len() == s.len(),
    decreases s.len(),
{
    if s.len() == 0 {
        s.lemma_filter_len(yes);
        s.lemma_filter_len(no);
    } else {
        let front = s.drop_last();
        lemma_filter_partition(front, yes, no);
        assert(s =~= front.push(s.last()));
        front.lemma_filter_push(s.last(), yes);
        front.lemma_filter_push(s.last(), no);
    }
}

/// The normalized dataset holds one record for each record of the raw dataset
/// that is priced: its size and the number of unpriced raw records add up to
/// the size of the raw dataset.
pub proof fn lemma_normalization_drops_unpriced_only(out: Seq<ModelView>, raw: Seq<ModelView>)
    requires
        is_normalization_of(out, raw),
    ensures
        out.len() + raw.filter(unpriced()).len() == raw.len(),
{
    lemma_filter_partition(raw, priced(), unpriced());
    out.to_multiset_ensures();
    normal_forms(raw.filter(priced())).to_multiset_ensures();
}

/// `m` is the normal form of a priced record of `raw`.
pub open spec fn is_normal_form_from(m: ModelView, raw: Seq<ModelView>) -> bool {
    exists|j: int| 0 <= j < raw.len() && is_priced(raw[j]) && m == normal_form(#[trigger] raw[j])
}

/// Every record of a normalized dataset is the normal form of a priced record
/// of the raw dataset: its name tokens are those of its name, its input
/// modalities stand in canonical order, and its pricing is not empty. The
/// records stand in the order of their names.
pub proof fn lemma_normalized_records(out: Seq<ModelView>, raw: Seq<ModelView>)
    requires
        is_normalization_of(out, raw),
    ensures
        forall|i: int| 0 <= i < out.len() ==> is_normal_form_from(#[trigger] out[i], raw),
        forall|i: int|
            0 <= i < out.len() ==> {
                &&& (#[trigger] out[i]).name_tokens == tokens_of(out[i].name)
                &&& is_priced(out[i])
            },
        forall|i: int, j: int|
            0 <= i < j < out.len() ==> Arrangement::Canonical.precedes(
                #[trigger] out[i],
                #[trigger] out[j],
            ),
{
    let kept = raw.filter(priced());
    let mid = normal_forms(kept);
    out.to_multiset_ensures();
    mid.to_multiset_ensures();
    assert forall|i: int| 0 <= i < out.len() implies is_normal_form_from(
        #[trigger] out[i],
        raw,
    ) by {
        assert(out.contains(out[i]));
        assert(out.to_multiset().count(out[i]) > 0);
        assert(mid.contains(out[i]));
        let k = choose|k: int| 0 <= k < mid.len() && mid[k] == out[i];
        assert(mid[k] == normal_form(kept[k]));
        raw.lemma_filter_pred(priced(), k);
        assert(kept.contains(kept[k]));
        raw.lemma_filter_contains_rev(priced(), kept[k]);
        let j = choose|j: int| 0 <= j < raw.len() && raw[j] == kept[k];
        assert(is_priced(raw[j]) && out[i] == normal_form(raw[j]));
    }
    assert forall|i: int| 0 <= i < out.len() implies {
        &&& (#[trigger] out[i]).name_tokens == tokens_of(out[i].name)
        &&& is_priced(out[i])
    } by {
        assert(is_normal_form_from(out[i], raw));
    }
}

/// Brings one record into normal form.
fn normalize_record(model: Model) -> (out: Model)
    ensures
        out@ == normal_form(model@),
{
    let Model {
        name,
        id,
        created,
        canonical_slug,
        pricing,
        architecture,
        name_tokens: _,
        top_provider,
        supported_parameters,
    } = model;
    let name_tokens = tokenize(name.as_str());
    let input_modalities = sort_modalities(&architecture.input_modalities);
    Model {
        name,
        id,
        created,
        canonical_slug,
        pricing,
        architecture: Architecture {
            input_modalities,
            output_modalities: architecture.output_modalities,
        },
        name_tokens,
        top_provider,
        supported_parameters,
    }
}

/// Normalizes a raw dataset: drops every record with empty pricing, derives
/// the name tokens of each remaining record from its name, puts its input
/// modalities into canonical order, and sorts the records by name, with
/// regard to case.
pub fn normalize(raw: Vec<Model>) -> (out: Vec<Model>)
    ensures
        is_normalization_of(out.deep_view(), raw.deep_view()),
{
    let ghost input = raw.deep_view();
    let mut rest = raw;
    let mut kept_reversed: Vec<Model> = Vec::new();
    proof {
        assert(rest.deep_view() =~= input.take(rest@.len() as int));
        assert(input.skip(input.len() as int) =~= Seq::<ModelView>::empty());
        lemma_filter_of_empty(priced());
        assert(kept_reversed.deep_view().reverse() =~= normal_forms(
            Seq::<ModelView>::empty().filter(priced()),
        ));
    }
    while rest.len() > 0
        invariant
            rest@.len() <= input.len(),
            rest.deep_view() == input.take(rest@.len() as int),
            kept_reversed.deep_view().reverse() == normal_forms(
                input.skip(rest@.len() as int).filter(priced()),
            ),
        decreases rest@.len(),
    {
        let ghost before = rest.deep_view();
        let ghost done = kept_reversed.deep_view();
        let model = rest.pop().unwrap();
        proof {
            let k = rest@.len() as int;
            assert(model@ == before[k]);
            assert(rest.deep_view() =~= input.take(k));
            assert(input.skip(k) =~= seq![model@] + input.skip(k + 1));
            Seq::filter_distributes_over_add(seq![model@], input.skip(k + 1), priced());
            lemma_filter_of_one(model@, priced());
        }
        if !model.pricing.is_empty() {
            let ghost mv = model@;
            let normal = normalize_record(model);
            kept_reversed.push(normal);
            proof {
                let k = rest@.len() as int;
                let tail = input.skip(k + 1).filter(priced());
                assert(kept_reversed.deep_view() =~= done.push(normal_form(mv)));
                assert(done.push(normal_form(mv)).reverse() =~= seq![normal_form(mv)]
                    + done.reverse());
                assert(normal_forms(seq![mv] + tail) =~= seq![normal_form(mv)] + normal_forms(
                    tail,
                ));
            }
        } else {
            proof {
                let k = rest@.len() as int;
                let tail = input.skip(k + 1).filter(priced());
                assert(Seq::<ModelView>::empty() + tail =~= tail);
            }
        }
    }
    let mut kept: Vec<Model> = Vec::new();
    let ghost stack = kept_reversed.deep_view();
    proof {
        assert(input.skip(0) =~= input);
        assert(kept.deep_view() =~= stack.reverse().take(0));
    }
    while kept_reversed.len() > 0
        invariant
            kept_reversed@.len() <= stack.len(),
            kept_reversed.deep_view() == stack.take(kept_reversed@.len() as int),
            kept.deep_view() == stack.reverse().take(stack.len() - kept_reversed@.len()),
        decreases kept_reversed@.len(),
    {
        let ghost before = kept_reversed.deep_view();
        let ghost done = kept.deep_view();
        let model = kept_reversed.pop().unwrap();
        let ghost mv = model@;
        kept.push(model);
        proof {
            let k = kept_reversed@.len() as int;
            assert(mv == before[k]);
            assert(kept_reversed.deep_view() =~= stack.take(k));
            assert(kept.deep_view() =~= done.push(mv));
            assert(done.push(mv) =~= stack.reverse().take(stack.len() - k));
        }
    }
    proof {
        assert(stack.reverse().take(stack.len() as int) =~= stack.reverse());
    }
    sort_records(kept, Arrangement::Canonical)
}

/// Filtering nothing leaves nothing.
proof fn lemma_filter_of_empty(pred: spec_fn(ModelView) -> bool)
    ensures
        Seq::<ModelView>::empty().filter(pred) == Seq::<ModelView>::empty(),
{
    Seq::<ModelView>::empty().lemma_filter_len(pred);
    assert(Seq::<ModelView>::empty().filter(pred) =~= Seq::<ModelView>::empty());
}

/// Filtering a single record leaves it or nothing.
proof fn lemma_filter_of_one(m: ModelView, pred: spec_fn(ModelView) -> bool)
    ensures
        seq![m].filter(pred) == if pred(m) {
            seq![m]
        } else {
            Seq::<ModelView>::empty()
        },
{
    lemma_filter_of_empty(pred);
    Seq::<ModelView>::empty().lemma_filter_push(m, pred);
    assert(Seq::<ModelView>::empty().push(m) =~= seq![m]);
}

/// A record passes the filters of a view: every token of the filter text
/// matches its name tokens, and it has every required input modality and
/// every required output modality.
pub open spec fn passes(
    m: ModelView,
    filter_text: Seq<char>,
    required_inputs: Set<Modality>,
    required_outputs: Set<Modality>,
) -> bool {
    &&& text_matches_tokens(filter_text, m.name_tokens)
    &&& has_all(m.input_modalities, required_inputs)
    &&& has_all(m.output_modalities, required_outputs)
}

/// The filters of a view as a predicate on records.
pub open spec fn selection(
    filter_text: Seq<char>,
    required_inputs: Set<Modality>,
    required_outputs: Set<Modality>,
) -> spec_fn(ModelView) -> bool {
    |m: ModelView| passes(m, filter_text, required_inputs, required_outputs)
}

/// `view` shows `records` under the given filters and sort settings: the
/// records that pass the filters, sorted stably by the field in the
/// direction.
pub open spec fn is_view_of(
    view: Seq<ModelView>,
    records: Seq<ModelView>,
    filter_text: Seq<char>,
    required_inputs: Set<Modality>,
    required_outputs: Set<Modality>,
    sort_field: SortField,
    sort_direction: SortDirection,
) -> bool {
    is_stable_sort_of(
        view,
        records.filter(selection(filter_text, required_inputs, required_outputs)),
        Arrangement::By(sort_field, sort_direction),
    )
}

/// The records of a view: those of `records` that pass the text filter and
/// both modality filters, sorted by `sort_field` in `sort_direction`. Records
/// with tied keys keep the order of `records`. The dataset is left as it is.
pub fn query(
    records: &[Model],
    filter_text: &str,
    required_inputs: &ModalitySet,
    required_outputs: &ModalitySet,
    sort_field: SortField,
    sort_direction: SortDirection,
) -> (view: Vec<Model>)
    ensures
        is_view_of(
            view.deep_view(),
            records.deep_view(),
            filter_text@,
            required_inputs@,
            required_outputs@,
            sort_field,
            sort_direction,
        ),
{
    let filter_tokens = tokenize(filter_text);
    let ghost chosen = selection(filter_text@, required_inputs@, required_outputs@);
    let ghost all = records.deep_view();
    let mut kept: Vec<Model> = Vec::new();
    let n = records.len();
    let mut i: usize = 0;
    proof {
        lemma_filter_of_empty(chosen);
        assert(all.take(0) =~= Seq::<ModelView>::empty());
        assert(kept.deep_view() =~= Seq::<ModelView>::empty());
    }
    while i < n
        invariant
            n == records@.len(),
            all == records.deep_view(),
            chosen == selection(filter_text@, required_inputs@, required_outputs@),
            filter_tokens.deep_view() == tokens_of(filter_text@),
            i <= n,
            kept.deep_view() == all.take(i as int).filter(chosen),
        decreases n - i,
    {
        let model = &records[i];
        let text_matches = matches_all_tokens(
            filter_tokens.as_slice(),
            model.name_tokens.as_slice(),
        );
        let input_matches = has_all_modalities(
            model.architecture.input_modalities.as_slice(),
            required_inputs,
        );
        let output_matches = has_all_modalities(
            model.architecture.output_modalities.as_slice(),
            required_outputs,
        );
        let ghost done = kept.deep_view();
        proof {
            assert(all.take(i + 1) =~= all.take(i as int).push(model@));
            all.take(i as int).lemma_filter_push(model@, chosen);
            assert(chosen(model@) == (text_matches && input_matches && output_matches));
        }
        if text_matches && input_matches && output_matches {
            let copy = model.clone();
            kept.push(copy);
            proof {
                assert(kept.deep_view() =~= done.push(model@));
            }
        }
        i += 1;
    }
    proof {
        assert(all.take(n as int) =~= all);
    }
    sort_records(kept, Arrangement::By(sort_field, sort_direction))
}

/// The modalities of one side of a record: what it takes in, or what it
/// gives out.
pub open spec fn side(m: ModelView, inputs: bool) -> Seq<Modality> {
    if inputs {
        m.input_modalities
    } else {
        m.output_modalities
    }
}

/// Some record of the dataset has `modality` on the given side.
pub open spec fn is_offered(records: Seq<ModelView>, inputs: bool, modality: Modality) -> bool {
    exists|i: int| 0 <= i < records.len() && side(#[trigger] records[i], inputs).contains(modality)
}

/// `list` holds the modalities that the dataset offers on the given side,
/// each once, in canonical order.
pub open spec fn lists_offered(
    list: Seq<Modality>,
    records: Seq<ModelView>,
    inputs: bool,
) -> bool {
    &&& forall|m: Modality| list.contains(m) <==> is_offered(records, inputs, m)
    &&& forall|i: int, j: int| 0 <= i < j < list.len() ==> list[i].rank() < list[j].rank()
}

/// Checks whether some record has `modality` on the given side.
fn any_offers(records: &[Model], inputs: bool, modality: Modality) -> (found: bool)
    ensures
        found == is_offered(records.deep_view(), inputs, modality),
{
    let n = records.len();
    let mut i: usize = 0;
    while i < n
        invariant
            n == records@.len(),
            i <= n,
            forall|k: int|
                0 <= k < i ==> !side(#[trigger] records.deep_view()[k], inputs).contains(modality),
        decreases n - i,
    {
        let architecture = &records[i].architecture;
        let hit = if inputs {
            offers(architecture.input_modalities.as_slice(), modality)
        } else {
            offers(architecture.output_modalities.as_slice(), modality)
        };
        if hit {
            assert(side(records.deep_view()[i as int], inputs).contains(modality));
            return true;
        }
        i += 1;
    }
    false
}

/// Lists the modalities that the dataset offers on one side.
fn available_modalities(records: &[Model], inputs: bool) -> (list: Vec<Modality>)
    ensures
        lists_offered(list@, records.deep_view(), inputs),
{
    let ghost all = records.deep_view();
    let mut list: Vec<Modality> = Vec::new();
    let mut r: u8 = 0;
    while r < MODALITY_COUNT
        invariant
            r <= MODALITY_COUNT,
            all == records.deep_view(),
            forall|m: Modality|
                list@.contains(m) <==> (m.rank() < r && is_offered(all, inputs, m)),
            forall|i: int, j: int| 0 <= i < j < list@.len() ==> list@[i].rank() < list@[j].rank(),
        decreases MODALITY_COUNT - r,
    {
        let modality = Modality::from_ordinal(r).unwrap();
        let ghost before = list@;
        if any_offers(records, inputs, modality) {
            list.push(modality);
            proof {
                assert forall|m: Modality| list@.contains(m) <==> (m.rank() < r + 1 && is_offered(
                    all,
                    inputs,
                    m,
                )) by {
                    crate::models::architecture::lemma_push_contains(before, modality, m);
                }
                assert forall|i: int, j: int| 0 <= i < j < list@.len() implies list@[i].rank()
                    < list@[j].rank() by {
                    if j == before.len() {
                        assert(before.contains(before[i]));
                    }
                }
            }
        }
        r += 1;
    }
    list
}

/// The input modalities that occur in the dataset, each once, in canonical
/// order.
pub fn available_input_modalities(records: &[Model]) -> (list: Vec<Modality>)
    ensures
        lists_offered(list@, records.deep_view(), true),
{
    available_modalities(records, true)
}

/// The output modalities that occur in the dataset, each once, in canonical
/// order.
pub fn available_output_modalities(records: &[Model]) -> (list: Vec<Modality>)
    ensures
        lists_offered(list@, records.deep_view(), false),
{
    available_modalities(records, false)
}

/// What to do when a dataset is wanted.
#[derive(Debug)]
pub enum FetchPlan {
    /// The cache holds a fresh dataset: use it.
    UseCached(ApiResponse),
    /// The cache holds nothing fresh: fetch the dataset from the remote source.
    FetchRemote,
}

/// Decides where a dataset comes from at `now`: from the cache if it holds a
/// fresh one, else from the remote source.
pub fn plan_fetch(cache: &Cache, now: i64) -> (plan: FetchPlan)
    ensures
        match plan {
            FetchPlan::UseCached(response) => load_result(cache@, CACHE_KEY@, now as int) == Some(
                response.data.deep_view(),
            ),
            FetchPlan::FetchRemote => load_result(cache@, CACHE_KEY@, now as int) is None,
        },
{
    match cache.load(CACHE_KEY, now) {
        Some(data) => FetchPlan::UseCached(ApiResponse { data }),
        None => FetchPlan::FetchRemote,
    }
}

/// Takes in a raw dataset that arrived at `now`: normalizes it and stores
/// the normalized dataset in the cache, in place of whatever was cached.
pub fn accept_response(cache: &mut Cache, raw: ApiResponse, now: i64) -> (response: ApiResponse)
    ensures
        is_normalization_of(response.data.deep_view(), raw.data.deep_view()),
        final(cache)@ == old(cache)@.insert(
            CACHE_KEY@,
            CacheEntryView { records: response.data.deep_view(), timestamp: now as int },
        ),
{
    let data = normalize(raw.data);
    save_to_cache(cache, data.as_slice(), now);
    ApiResponse { data }
}

} // verus!
