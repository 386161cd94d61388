use polza_models::i18n::{detect_language, Language, LANGUAGE_STORAGE_KEY};
use polza_models::models::api::{provider_in, Model, TopProvider};
use polza_models::models::architecture::{sort_modalities, Architecture, Modality, ModalitySet};
use polza_models::models::pricing::{Price, Pricing, MAX_MANTISSA, MAX_SCALE};
use polza_models::models::ui::SortDirection;
use std::cmp::Ordering;

fn price(mantissa: i128, scale: u32) -> Price {
    Price::new(mantissa, scale).unwrap()
}

fn with_id(id: &str) -> Model {
    Model {
        name: "n".to_string(),
        id: id.to_string(),
        created: 0,
        canonical_slug: "s".to_string(),
        pricing: free(),
        architecture: Architecture { input_modalities: vec![], output_modalities: vec![] },
        name_tokens: vec![],
        top_provider: TopProvider {
            context_length: 0,
            max_completion_tokens: 0,
            is_moderated: false,
        },
        supported_parameters: vec![],
    }
}

fn free() -> Pricing {
    Pricing {
        prompt: Price::zero(),
        completion: Price::zero(),
        image: Price::zero(),
        request: Price::zero(),
        web_search: Price::zero(),
        internal_reasoning: Price::zero(),
        input_cache_read: Price::zero(),
        input_cache_write: Price::zero(),
    }
}

#[test]
fn provider_is_the_first_part_of_the_id() {
    assert_eq!(with_id("acme/gpt-4").provider(), Some("acme"));
    assert_eq!(with_id("google/gemini/flash").provider(), Some("google"));
    assert_eq!(with_id("solo").provider(), Some("solo"));
    assert_eq!(with_id("").provider(), Some(""));
    assert_eq!(with_id("/x").provider(), Some(""));
}

#[test]
fn provider_skips_the_openrouter_prefix() {
    assert_eq!(with_id("openrouter/acme/large").provider(), Some("acme"));
    assert_eq!(with_id("openrouter/auto").provider(), Some("auto"));
    assert_eq!(with_id("openrouter/").provider(), Some(""));
    assert_eq!(with_id("openrouter").provider(), None);
    // only the whole first part counts
    assert_eq!(with_id("openrouters/x").provider(), Some("openrouters"));
    assert_eq!(with_id("openroute/x").provider(), Some("openroute"));
    assert_eq!(with_id("Openrouter/x").provider(), Some("Openrouter"));
    assert_eq!(with_id("openrouter/\u{e9}t\u{e9}/x").provider(), Some("\u{e9}t\u{e9}"));
}

#[test]
fn provider_in_an_id() {
    assert_eq!(provider_in("meta/llama"), Some("meta"));
    assert_eq!(provider_in("openrouter/meta/llama"), Some("meta"));
    assert_eq!(provider_in("openrouter"), None);
}

#[test]
fn pricing_is_empty_only_if_all_eight_are_zero() {
    assert!(free().is_empty());
    let fields: [fn(&mut Pricing, Price); 8] = [
        |p, v| p.prompt = v,
        |p, v| p.completion = v,
        |p, v| p.image = v,
        |p, v| p.request = v,
        |p, v| p.web_search = v,
        |p, v| p.internal_reasoning = v,
        |p, v| p.input_cache_read = v,
        |p, v| p.input_cache_write = v,
    ];
    for set in fields {
        let mut p = free();
        set(&mut p, price(1, 28));
        assert!(!p.is_empty());
        let mut z = free();
        set(&mut z, price(0, 28));
        assert!(z.is_empty());
    }
}

#[test]
fn price_ranges() {
    assert!(Price::new(MAX_MANTISSA, MAX_SCALE).is_some());
    assert!(Price::new(-MAX_MANTISSA, 0).is_some());
    assert!(Price::new(MAX_MANTISSA + 1, 0).is_none());
    assert!(Price::new(-MAX_MANTISSA - 1, 0).is_none());
    assert!(Price::new(1, MAX_SCALE + 1).is_none());
    assert!(Price::new(i128::MAX, u32::MAX).is_none());
    let p = price(-12345678, 7);
    assert_eq!(p.mantissa(), -12345678);
    assert_eq!(p.scale(), 7);
    assert_eq!(MAX_MANTISSA, (1i128 << 96) - 1);
    assert_eq!(MAX_SCALE, 28);
    assert!(Price::zero().is_zero());
    assert!(price(0, 9).is_zero());
    assert!(!price(1, 28).is_zero());
}

#[test]
fn prices_compare_as_numbers() {
    assert_eq!(price(15, 1).compare(&price(150, 2)), Ordering::Equal);
    assert_eq!(price(1, 1).compare(&price(9, 2)), Ordering::Greater);
    assert_eq!(price(9, 2).compare(&price(1, 1)), Ordering::Less);
    assert_eq!(price(-1, 1).compare(&price(-9, 2)), Ordering::Less);
    assert_eq!(price(-1, 0).compare(&price(1, 28)), Ordering::Less);
    assert_eq!(price(0, 5).compare(&Price::zero()), Ordering::Equal);
    assert_eq!(price(MAX_MANTISSA, 0).compare(&price(MAX_MANTISSA, 28)), Ordering::Greater);
    assert_eq!(price(MAX_MANTISSA, 28).compare(&price(MAX_MANTISSA, 27)), Ordering::Less);
    assert_eq!(price(1, 28).compare(&price(MAX_MANTISSA, 0)), Ordering::Less);
    assert_eq!(price(2, 0).compare(&price(2, 0)), Ordering::Equal);
}

#[test]
fn price_normalize_and_text() {
    let n = price(3100, 3).normalize();
    assert_eq!((n.mantissa(), n.scale()), (31, 1));
    let n = price(0, 9).normalize();
    assert_eq!((n.mantissa(), n.scale()), (0, 0));
    let n = price(-500, 2).normalize();
    assert_eq!((n.mantissa(), n.scale()), (-5, 0));
    let n = price(120, 0).normalize();
    assert_eq!((n.mantissa(), n.scale()), (120, 0));
    let n = price(101, 2).normalize();
    assert_eq!((n.mantissa(), n.scale()), (101, 2));
    assert_eq!(price(3141, 3).to_text(), "3.141");
    assert_eq!(price(3100, 3).to_text(), "3.100");
    assert_eq!(price(5, 3).to_text(), "0.005");
    assert_eq!(price(-5, 1).to_text(), "-0.5");
    assert_eq!(price(42, 0).to_text(), "42");
}

#[test]
fn price_product() {
    let p = price(25, 7).checked_mul(&price(1_000_000, 0)).unwrap();
    assert_eq!(p.compare(&price(25, 1)), Ordering::Equal);
    let p = price(-3, 1).checked_mul(&price(2, 1)).unwrap();
    assert_eq!(p.compare(&price(-6, 2)), Ordering::Equal);
    assert!(price(MAX_MANTISSA, 0).checked_mul(&price(2, 0)).is_none());
}

#[test]
fn modality_ordinals() {
    let all = [
        Modality::Text,
        Modality::Image,
        Modality::File,
        Modality::Audio,
        Modality::Embeddings,
        Modality::Video,
    ];
    for (i, m) in all.iter().enumerate() {
        assert_eq!(m.ordinal() as usize, i);
        assert_eq!(Modality::from_ordinal(i as u8), Some(*m));
    }
    assert_eq!(Modality::from_ordinal(6), None);
    assert_eq!(Modality::from_ordinal(255), None);
    // the derived order is the canonical one
    assert!(Modality::Text < Modality::Image);
    assert!(Modality::Embeddings < Modality::Video);
}

#[test]
fn modalities_sort_into_canonical_order() {
    assert_eq!(sort_modalities(&vec![]), vec![]);
    assert_eq!(
        sort_modalities(&vec![
            Modality::Video,
            Modality::Embeddings,
            Modality::Audio,
            Modality::File,
            Modality::Image,
            Modality::Text
        ]),
        vec![
            Modality::Text,
            Modality::Image,
            Modality::File,
            Modality::Audio,
            Modality::Embeddings,
            Modality::Video
        ]
    );
    assert_eq!(
        sort_modalities(&vec![Modality::Audio, Modality::Text, Modality::Audio, Modality::Text]),
        vec![Modality::Text, Modality::Text, Modality::Audio, Modality::Audio]
    );
}

#[test]
fn modality_set_operations() {
    let mut set = ModalitySet::new();
    assert!(set.is_empty());
    assert!(!set.contains(&Modality::Text));
    assert!(set.insert(Modality::Text));
    assert!(!set.insert(Modality::Text));
    assert!(set.insert(Modality::Audio));
    assert!(set.contains(&Modality::Text));
    assert!(set.contains(&Modality::Audio));
    assert!(!set.contains(&Modality::Image));
    assert!(!set.is_empty());
    assert_eq!(set.as_slice().len(), 2);
    assert!(set.remove(&Modality::Text));
    assert!(!set.remove(&Modality::Text));
    assert!(!set.contains(&Modality::Text));
    assert!(set.contains(&Modality::Audio));
    assert!(set.remove(&Modality::Audio));
    assert!(set.is_empty());
}

#[test]
fn modality_set_toggle() {
    let mut set = ModalitySet::new();
    set.toggle(Modality::Image);
    assert!(set.contains(&Modality::Image));
    set.toggle(Modality::File);
    assert!(set.contains(&Modality::Image) && set.contains(&Modality::File));
    set.toggle(Modality::Image);
    assert!(!set.contains(&Modality::Image));
    assert!(set.contains(&Modality::File));
}

#[test]
fn sort_direction_toggles() {
    assert_eq!(SortDirection::Ascending.toggled(), SortDirection::Descending);
    assert_eq!(SortDirection::Descending.toggled(), SortDirection::Ascending);
}

#[test]
fn clone_of_a_model_keeps_every_field() {
    let mut m = with_id("a/b");
    m.name = "Name".to_string();
    m.created = -5;
    m.pricing.request = price(7, 2);
    m.architecture.input_modalities = vec![Modality::File];
    m.architecture.output_modalities = vec![Modality::Video, Modality::Text];
    m.name_tokens = vec!["name".to_string()];
    m.supported_parameters = vec!["a".to_string(), "b".to_string()];
    m.top_provider.context_length = 9;
    let c = m.clone();
    assert_eq!(c.name, "Name");
    assert_eq!(c.id, "a/b");
    assert_eq!(c.created, -5);
    assert_eq!(c.canonical_slug, "s");
    assert_eq!(c.pricing.request.mantissa(), 7);
    assert_eq!(c.architecture.input_modalities, vec![Modality::File]);
    assert_eq!(c.architecture.output_modalities, vec![Modality::Video, Modality::Text]);
    assert_eq!(c.name_tokens, vec!["name"]);
    assert_eq!(c.supported_parameters, vec!["a", "b"]);
    assert_eq!(c.top_provider.context_length, 9);
}

#[test]
fn language_detection() {
    assert_eq!(detect_language(Some("ru-RU"), None), Language::Russian);
    assert_eq!(detect_language(Some("ru"), Some("en-US")), Language::Russian);
    assert_eq!(detect_language(Some("en-US"), Some("ru-RU")), Language::English);
    assert_eq!(detect_language(Some("rus"), Some("ru-RU")), Language::English);
    assert_eq!(detect_language(Some(""), Some("ru")), Language::English);
    assert_eq!(detect_language(None, Some("ru")), Language::Russian);
    assert_eq!(detect_language(None, Some("ru-BY")), Language::Russian);
    assert_eq!(detect_language(None, Some("en-GB")), Language::English);
    assert_eq!(detect_language(None, Some("r")), Language::English);
    assert_eq!(detect_language(None, None), Language::English);
}

#[test]
fn language_toggle_and_code() {
    assert_eq!(Language::English.toggled(), Language::Russian);
    assert_eq!(Language::Russian.toggled(), Language::English);
    assert_eq!(Language::English.code(), "en-US");
    assert_eq!(Language::Russian.code(), "ru-RU");
    assert_eq!(LANGUAGE_STORAGE_KEY, "polza-models-language");
}
