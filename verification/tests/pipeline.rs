use polza_models::cache::{load_from_cache, Cache};
use polza_models::models::api::{ApiResponse, Model, TopProvider};
use polza_models::models::architecture::{Architecture, Modality, ModalitySet};
use polza_models::models::pricing::{Price, Pricing};
use polza_models::models::ui::{SortDirection, SortField};
use polza_models::order::{compare, Arrangement};
use polza_models::pipeline::{
    accept_response, available_input_modalities, available_output_modalities, normalize,
    plan_fetch, query, FetchPlan,
};
use polza_models::sort::sort_records;
use std::cmp::Ordering;

fn price(mantissa: i128, scale: u32) -> Price {
    Price::new(mantissa, scale).unwrap()
}

fn pricing(prompt: Price, completion: Price) -> Pricing {
    Pricing {
        prompt,
        completion,
        image: Price::zero(),
        request: Price::zero(),
        web_search: Price::zero(),
        internal_reasoning: Price::zero(),
        input_cache_read: Price::zero(),
        input_cache_write: Price::zero(),
    }
}

fn model(name: &str, created: i64, prompt: Price, completion: Price) -> Model {
    Model {
        name: name.to_string(),
        id: format!("provider/{}", name),
        created,
        canonical_slug: format!("provider/{}", name),
        pricing: pricing(prompt, completion),
        architecture: Architecture {
            input_modalities: vec![Modality::Text],
            output_modalities: vec![Modality::Text],
        },
        name_tokens: vec![],
        top_provider: TopProvider {
            context_length: 1000,
            max_completion_tokens: 0,
            is_moderated: false,
        },
        supported_parameters: vec![],
    }
}

fn names(models: &[Model]) -> Vec<String> {
    models.iter().map(|m| m.name.clone()).collect()
}

fn dataset() -> Vec<Model> {
    normalize(vec![
        model("Alpha", 30, price(3, 6), price(9, 6)),
        model("beta-two", 10, price(1, 6), price(8, 6)),
        model("Gamma3", 20, price(2, 6), price(7, 6)),
    ])
}

#[test]
fn end_to_end_query_by_text() {
    let data = dataset();
    let none = ModalitySet::new();
    let view = query(&data, "two", &none, &none, SortField::Name, SortDirection::Ascending);
    assert_eq!(names(&view), vec!["beta-two"]);
}

#[test]
fn end_to_end_query_without_filter_sorts_by_name_ignoring_case() {
    let data = dataset();
    let none = ModalitySet::new();
    let view = query(&data, "", &none, &none, SortField::Name, SortDirection::Ascending);
    assert_eq!(names(&view), vec!["Alpha", "beta-two", "Gamma3"]);
}

#[test]
fn query_leaves_the_dataset_as_it_is() {
    let data = dataset();
    let before = names(&data);
    let none = ModalitySet::new();
    let _ = query(&data, "a", &none, &none, SortField::PromptPrice, SortDirection::Descending);
    assert_eq!(names(&data), before);
}

#[test]
fn normalize_sorts_by_name_with_regard_to_case() {
    // uppercase letters come before lowercase ones
    assert_eq!(names(&dataset()), vec!["Alpha", "Gamma3", "beta-two"]);
}

#[test]
fn normalize_drops_records_with_empty_pricing() {
    let raw = vec![
        model("free", 1, Price::zero(), Price::zero()),
        model("paid", 2, price(1, 3), Price::zero()),
        model("also free", 3, price(0, 5), price(0, 28)),
        model("completion only", 4, Price::zero(), price(5, 1)),
    ];
    let empty = raw.iter().filter(|m| m.pricing.is_empty()).count();
    let total = raw.len();
    assert_eq!(empty, 2);
    let out = normalize(raw);
    assert_eq!(out.len() + empty, total);
    assert_eq!(names(&out), vec!["completion only", "paid"]);
}

#[test]
fn normalize_counts_add_up_for_every_mix() {
    for mask in 0u32..16 {
        let mut raw = Vec::new();
        for bit in 0..4 {
            let p = if mask & (1 << bit) != 0 { price(1, 2) } else { Price::zero() };
            raw.push(model(&format!("m{}", bit), bit as i64, p, Price::zero()));
        }
        let empty = raw.iter().filter(|m| m.pricing.is_empty()).count();
        let total = raw.len();
        assert_eq!(normalize(raw).len() + empty, total);
    }
}

#[test]
fn normalize_counts_a_price_in_any_field() {
    let mut m = model("image only", 1, Price::zero(), Price::zero());
    m.pricing.image = price(1, 2);
    let mut w = model("cache write only", 1, Price::zero(), Price::zero());
    w.pricing.input_cache_write = price(1, 9);
    assert_eq!(normalize(vec![m, w]).len(), 2);
}

#[test]
fn normalize_derives_tokens_and_discards_supplied_ones() {
    let mut m = model("Google: Gemini 2.5 Flash", 1, price(1, 6), price(1, 6));
    m.name_tokens = vec!["bogus".to_string()];
    let out = normalize(vec![m]);
    assert_eq!(out[0].name_tokens, vec!["google", "gemini", "2", "5", "flash"]);
}

#[test]
fn normalize_sorts_input_modalities_and_keeps_output_order() {
    let mut m = model("m", 1, price(1, 6), price(1, 6));
    m.architecture.input_modalities =
        vec![Modality::Video, Modality::Text, Modality::Audio, Modality::Image, Modality::Text];
    m.architecture.output_modalities = vec![Modality::Image, Modality::Text];
    let out = normalize(vec![m]);
    assert_eq!(
        out[0].architecture.input_modalities,
        vec![Modality::Text, Modality::Text, Modality::Image, Modality::Audio, Modality::Video]
    );
    assert_eq!(out[0].architecture.output_modalities, vec![Modality::Image, Modality::Text]);
}

#[test]
fn normalize_keeps_the_other_fields() {
    let m = model("Keep", 77, price(15, 1), price(25, 2));
    let out = normalize(vec![m]);
    assert_eq!(out[0].id, "provider/Keep");
    assert_eq!(out[0].canonical_slug, "provider/Keep");
    assert_eq!(out[0].created, 77);
    assert_eq!(out[0].pricing.prompt.mantissa(), 15);
    assert_eq!(out[0].pricing.prompt.scale(), 1);
    assert_eq!(out[0].top_provider.context_length, 1000);
}

#[test]
fn normalize_of_nothing_is_nothing() {
    assert!(normalize(vec![]).is_empty());
}

#[test]
fn query_filters_by_modalities() {
    let mut a = model("a", 1, price(1, 6), price(1, 6));
    a.architecture.input_modalities = vec![Modality::Text, Modality::Image];
    a.architecture.output_modalities = vec![Modality::Text];
    let mut b = model("b", 2, price(2, 6), price(1, 6));
    b.architecture.input_modalities = vec![Modality::Text];
    b.architecture.output_modalities = vec![Modality::Text, Modality::Image];
    let data = normalize(vec![a, b]);
    let none = ModalitySet::new();
    let mut image = ModalitySet::new();
    image.insert(Modality::Image);

    let by_input = query(&data, "", &image, &none, SortField::Name, SortDirection::Ascending);
    assert_eq!(names(&by_input), vec!["a"]);
    let by_output = query(&data, "", &none, &image, SortField::Name, SortDirection::Ascending);
    assert_eq!(names(&by_output), vec!["b"]);
    let by_both = query(&data, "", &image, &image, SortField::Name, SortDirection::Ascending);
    assert!(by_both.is_empty());
    let by_text_and_input =
        query(&data, "b", &image, &none, SortField::Name, SortDirection::Ascending);
    assert!(by_text_and_input.is_empty());
}

#[test]
fn query_sorts_by_each_field() {
    let data = dataset();
    let none = ModalitySet::new();
    let by_created =
        query(&data, "", &none, &none, SortField::Created, SortDirection::Ascending);
    assert_eq!(names(&by_created), vec!["beta-two", "Gamma3", "Alpha"]);
    let by_prompt =
        query(&data, "", &none, &none, SortField::PromptPrice, SortDirection::Descending);
    assert_eq!(names(&by_prompt), vec!["Alpha", "Gamma3", "beta-two"]);
    let by_completion =
        query(&data, "", &none, &none, SortField::CompletionPrice, SortDirection::Ascending);
    assert_eq!(names(&by_completion), vec!["Gamma3", "beta-two", "Alpha"]);
}

#[test]
fn descending_is_the_reverse_of_ascending_without_ties() {
    let data = dataset();
    let none = ModalitySet::new();
    for field in [
        SortField::Name,
        SortField::Created,
        SortField::PromptPrice,
        SortField::CompletionPrice,
    ] {
        let up = query(&data, "", &none, &none, field, SortDirection::Ascending);
        let down = query(&data, "", &none, &none, field, SortDirection::Descending);
        let mut reversed = names(&up);
        reversed.reverse();
        assert_eq!(names(&down), reversed);
    }
}

#[test]
fn ties_keep_their_order_in_both_directions() {
    let data = vec![
        model("first", 5, price(1, 6), price(1, 6)),
        model("second", 1, price(2, 6), price(1, 6)),
        model("third", 5, price(10, 7), price(1, 6)),
        model("fourth", 5, price(1, 6), price(1, 6)),
    ];
    let none = ModalitySet::new();
    let up = query(&data, "", &none, &none, SortField::Created, SortDirection::Ascending);
    assert_eq!(names(&up), vec!["second", "first", "third", "fourth"]);
    let down = query(&data, "", &none, &none, SortField::Created, SortDirection::Descending);
    assert_eq!(names(&down), vec!["first", "third", "fourth", "second"]);
    // 0.000001 and 0.0000010 are the same price
    let by_price = query(&data, "", &none, &none, SortField::PromptPrice, SortDirection::Ascending);
    assert_eq!(names(&by_price), vec!["first", "third", "fourth", "second"]);
    let by_price_down =
        query(&data, "", &none, &none, SortField::PromptPrice, SortDirection::Descending);
    assert_eq!(names(&by_price_down), vec!["second", "first", "third", "fourth"]);
}

#[test]
fn names_that_differ_in_case_only_are_tied() {
    let data = vec![
        model("beta", 1, price(1, 6), price(1, 6)),
        model("Alpha", 2, price(1, 6), price(1, 6)),
        model("BETA", 3, price(1, 6), price(1, 6)),
        model("alpha", 4, price(1, 6), price(1, 6)),
    ];
    let none = ModalitySet::new();
    let up = query(&data, "", &none, &none, SortField::Name, SortDirection::Ascending);
    assert_eq!(names(&up), vec!["Alpha", "alpha", "beta", "BETA"]);
    let down = query(&data, "", &none, &none, SortField::Name, SortDirection::Descending);
    assert_eq!(names(&down), vec!["beta", "BETA", "Alpha", "alpha"]);
}

#[test]
fn sort_records_is_stable_on_a_longer_input() {
    let mut items = Vec::new();
    for i in 0..50i64 {
        items.push(model(&format!("m{:02}", i), (i * 7) % 5, price(1, 6), price(1, 6)));
    }
    let sorted = sort_records(items, Arrangement::By(SortField::Created, SortDirection::Ascending));
    assert_eq!(sorted.len(), 50);
    for pair in sorted.windows(2) {
        assert!(pair[0].created <= pair[1].created);
        if pair[0].created == pair[1].created {
            assert!(pair[0].name < pair[1].name);
        }
    }
}

#[test]
fn compare_by_field_and_direction() {
    let a = model("Apple", 1, price(15, 1), price(1, 0));
    let b = model("banana", 2, price(150, 2), price(2, 0));
    assert_eq!(compare(&a, &b, SortField::Name, SortDirection::Ascending), Ordering::Less);
    assert_eq!(compare(&a, &b, SortField::Name, SortDirection::Descending), Ordering::Greater);
    assert_eq!(compare(&b, &a, SortField::Name, SortDirection::Ascending), Ordering::Greater);
    assert_eq!(compare(&a, &b, SortField::Created, SortDirection::Ascending), Ordering::Less);
    assert_eq!(compare(&a, &b, SortField::Created, SortDirection::Descending), Ordering::Greater);
    // 1.5 and 1.50 are tied in both directions
    assert_eq!(compare(&a, &b, SortField::PromptPrice, SortDirection::Ascending), Ordering::Equal);
    assert_eq!(compare(&a, &b, SortField::PromptPrice, SortDirection::Descending), Ordering::Equal);
    assert_eq!(
        compare(&a, &b, SortField::CompletionPrice, SortDirection::Ascending),
        Ordering::Less
    );
    assert_eq!(
        compare(&a, &b, SortField::CompletionPrice, SortDirection::Descending),
        Ordering::Greater
    );
}

#[test]
fn compare_names_without_regard_to_case() {
    let a = model("ZEBRA", 1, price(1, 1), price(1, 1));
    let b = model("apple", 1, price(1, 1), price(1, 1));
    // by code points "ZEBRA" < "apple"; without regard to case it is greater
    assert_eq!(compare(&a, &b, SortField::Name, SortDirection::Ascending), Ordering::Greater);
    assert_eq!(Arrangement::Canonical.decide(&a, &b), Ordering::Less);
    let c = model("Apple", 1, price(1, 1), price(1, 1));
    assert_eq!(compare(&b, &c, SortField::Name, SortDirection::Ascending), Ordering::Equal);
    assert_eq!(Arrangement::Canonical.decide(&b, &c), Ordering::Greater);
    assert!(Arrangement::Canonical.may_precede(&c, &b));
    assert!(!Arrangement::Canonical.may_precede(&b, &c));
    // a proper prefix comes first
    let d = model("app", 1, price(1, 1), price(1, 1));
    assert_eq!(Arrangement::Canonical.decide(&d, &b), Ordering::Less);
}

#[test]
fn available_modalities_are_distinct_and_in_canonical_order() {
    let mut a = model("a", 1, price(1, 6), price(1, 6));
    a.architecture.input_modalities = vec![Modality::Video, Modality::Text];
    a.architecture.output_modalities = vec![Modality::Text];
    let mut b = model("b", 2, price(2, 6), price(1, 6));
    b.architecture.input_modalities = vec![Modality::Image, Modality::Text, Modality::Image];
    b.architecture.output_modalities = vec![Modality::Embeddings, Modality::Image];
    let data = vec![a, b];
    assert_eq!(
        available_input_modalities(&data),
        vec![Modality::Text, Modality::Image, Modality::Video]
    );
    assert_eq!(
        available_output_modalities(&data),
        vec![Modality::Text, Modality::Image, Modality::Embeddings]
    );
    assert!(available_input_modalities(&[]).is_empty());
}

#[test]
fn fetch_plan_prefers_a_fresh_cache() {
    let mut cache = Cache::new();
    assert!(matches!(plan_fetch(&cache, 0), FetchPlan::FetchRemote));
    let raw = vec![
        model("b", 1, price(1, 6), price(1, 6)),
        model("free", 1, Price::zero(), Price::zero()),
        model("a", 1, price(1, 6), price(1, 6)),
    ];
    let response = accept_response(&mut cache, ApiResponse { data: raw }, 1_000);
    assert_eq!(names(&response.data), vec!["a", "b"]);
    match plan_fetch(&cache, 1_000) {
        FetchPlan::UseCached(cached) => assert_eq!(names(&cached.data), vec!["a", "b"]),
        FetchPlan::FetchRemote => panic!("the cache is fresh"),
    }
    assert!(matches!(plan_fetch(&cache, 1_000 + 3_600_000), FetchPlan::FetchRemote));
    assert_eq!(names(&load_from_cache(&cache, 2_000).unwrap()), vec!["a", "b"]);
}
