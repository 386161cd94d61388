use polza_models::models::architecture::{Modality, ModalitySet};
use polza_models::utils::filter::{
    has_all_modalities, matches_all_tokens, matches_any_token_sequence, offers, text_matches,
};
use polza_models::utils::tokenize::tokenize;

#[test]
fn filter_test_matches_any_token_sequence_single_token() {
    let tokens = vec!["hello".to_string(), "world".to_string()];
    // Exact match
    assert!(matches_any_token_sequence("hello", &tokens));
    // Prefix match
    assert!(matches_any_token_sequence("hel", &tokens));
    assert!(matches_any_token_sequence("wor", &tokens));
    // No match
    assert!(!matches_any_token_sequence("xyz", &tokens));
}

#[test]
fn filter_test_matches_any_token_sequence_consecutive_tokens() {
    let tokens = vec!["foo".to_string(), "bar".to_string(), "baz".to_string()];
    // Concatenation of consecutive tokens
    assert!(matches_any_token_sequence("foobar", &tokens));
    assert!(matches_any_token_sequence("barbaz", &tokens));
    assert!(matches_any_token_sequence("foobarbaz", &tokens));
    // Prefix of concatenation
    assert!(matches_any_token_sequence("foob", &tokens));
}

#[test]
fn filter_test_matches_any_token_sequence_nano_case() {
    let model_name = "Google: Gemini 2.5 Flash Image (Nano Banana)";
    let tokens = tokenize(model_name);

    assert!(matches_any_token_sequence("nano", &tokens));
    assert!(matches_any_token_sequence("banana", &tokens));
    assert!(matches_any_token_sequence("nanobanana", &tokens));

    assert!(matches_any_token_sequence("google", &tokens));
    assert!(matches_any_token_sequence("gemini", &tokens));
    assert!(matches_any_token_sequence("flash", &tokens));
}

#[test]
fn filter_test_matches_any_token_sequence_empty() {
    let tokens = vec!["test".to_string()];
    // The empty filter is a prefix of anything
    assert!(matches_any_token_sequence("", &tokens));

    // Empty tokens: nothing to match against
    let empty_tokens: Vec<String> = vec![];
    assert!(!matches_any_token_sequence("test", &empty_tokens));
}

#[test]
fn main_test_matches_any_token_sequence_single_token() {
    let tokens = vec!["hello".to_string(), "world".to_string()];
    // Exact match
    assert!(matches_any_token_sequence("hello", &tokens));
    // Prefix match
    assert!(matches_any_token_sequence("hel", &tokens));
    assert!(matches_any_token_sequence("wor", &tokens));
    // No match
    assert!(!matches_any_token_sequence("xyz", &tokens));
}

#[test]
fn main_test_matches_any_token_sequence_consecutive_tokens() {
    let tokens = vec!["foo".to_string(), "bar".to_string(), "baz".to_string()];
    // Concatenation of consecutive tokens
    assert!(matches_any_token_sequence("foobar", &tokens));
    assert!(matches_any_token_sequence("barbaz", &tokens));
    assert!(matches_any_token_sequence("foobarbaz", &tokens));
    // Prefix of concatenation
    assert!(matches_any_token_sequence("foob", &tokens));
}

#[test]
fn main_test_matches_any_token_sequence_nano_case() {
    let model_name = "Google: Gemini 2.5 Flash Image (Nano Banana)";
    let tokens = tokenize(model_name);

    assert!(matches_any_token_sequence("nano", &tokens));
    assert!(matches_any_token_sequence("banana", &tokens));
    assert!(matches_any_token_sequence("nanobanana", &tokens));

    assert!(matches_any_token_sequence("google", &tokens));
    assert!(matches_any_token_sequence("gemini", &tokens));
    assert!(matches_any_token_sequence("flash", &tokens));
}

#[test]
fn main_test_matches_any_token_sequence_empty() {
    let tokens = vec!["test".to_string()];
    // The empty filter is a prefix of anything
    assert!(matches_any_token_sequence("", &tokens));

    // Empty tokens: nothing to match against
    let empty_tokens: Vec<String> = vec![];
    assert!(!matches_any_token_sequence("test", &empty_tokens));
}

#[test]
fn filter_test_has_all_modalities_empty_required() {
    // An empty required set matches any model
    let model_modalities = vec![Modality::Text, Modality::Image];
    let required = ModalitySet::new();
    assert!(has_all_modalities(&model_modalities, &required));

    // Even a model without modalities passes if nothing is required
    let empty_modalities: Vec<Modality> = vec![];
    assert!(has_all_modalities(&empty_modalities, &required));
}

#[test]
fn filter_test_has_all_modalities_single_required() {
    let model_modalities = vec![Modality::Text, Modality::Image, Modality::Audio];

    // The model has the required modality
    let mut required = ModalitySet::new();
    required.insert(Modality::Text);
    assert!(has_all_modalities(&model_modalities, &required));

    // The model lacks the required modality
    let mut required_missing = ModalitySet::new();
    required_missing.insert(Modality::Embeddings);
    assert!(!has_all_modalities(&model_modalities, &required_missing));
}

#[test]
fn filter_test_has_all_modalities_multiple_required() {
    let model_modalities = vec![Modality::Text, Modality::Image, Modality::Audio];

    // The model has all required modalities
    let mut required = ModalitySet::new();
    required.insert(Modality::Text);
    required.insert(Modality::Image);
    assert!(has_all_modalities(&model_modalities, &required));

    // The model lacks one of the required modalities
    let mut required_partial = ModalitySet::new();
    required_partial.insert(Modality::Text);
    required_partial.insert(Modality::Embeddings);
    assert!(!has_all_modalities(&model_modalities, &required_partial));

    // The model lacks all required modalities
    let mut required_none = ModalitySet::new();
    required_none.insert(Modality::Embeddings);
    required_none.insert(Modality::File);
    assert!(!has_all_modalities(&model_modalities, &required_none));
}

#[test]
fn filter_test_has_all_modalities_all_modalities() {
    let model_modalities = vec![
        Modality::Text,
        Modality::Image,
        Modality::File,
        Modality::Audio,
        Modality::Embeddings,
    ];

    let mut required_all = ModalitySet::new();
    required_all.insert(Modality::Text);
    required_all.insert(Modality::Image);
    required_all.insert(Modality::File);
    required_all.insert(Modality::Audio);
    required_all.insert(Modality::Embeddings);
    assert!(has_all_modalities(&model_modalities, &required_all));
}

#[test]
fn filter_test_has_all_modalities_empty_model() {
    let empty_modalities: Vec<Modality> = vec![];

    // Requiring any modality fails
    let mut required = ModalitySet::new();
    required.insert(Modality::Text);
    assert!(!has_all_modalities(&empty_modalities, &required));
}

#[test]
fn filter_test_has_all_modalities_extra_modalities() {
    // More modalities than required still passes
    let model_modalities = vec![
        Modality::Text,
        Modality::Image,
        Modality::Audio,
        Modality::Embeddings,
    ];

    let mut required = ModalitySet::new();
    required.insert(Modality::Text);
    required.insert(Modality::Image);
    assert!(has_all_modalities(&model_modalities, &required));
}

#[test]
fn main_test_has_all_modalities_empty_required() {
    // An empty required set matches any model
    let model_modalities = vec![Modality::Text, Modality::Image];
    let required = ModalitySet::new();
    assert!(has_all_modalities(&model_modalities, &required));

    // Even a model without modalities passes if nothing is required
    let empty_modalities: Vec<Modality> = vec![];
    assert!(has_all_modalities(&empty_modalities, &required));
}

#[test]
fn main_test_has_all_modalities_single_required() {
    let model_modalities = vec![Modality::Text, Modality::Image, Modality::Audio];

    // The model has the required modality
    let mut required = ModalitySet::new();
    required.insert(Modality::Text);
    assert!(has_all_modalities(&model_modalities, &required));

    // The model lacks the required modality
    let mut required_missing = ModalitySet::new();
    required_missing.insert(Modality::Embeddings);
    assert!(!has_all_modalities(&model_modalities, &required_missing));
}

#[test]
fn main_test_has_all_modalities_multiple_required() {
    let model_modalities = vec![Modality::Text, Modality::Image, Modality::Audio];

    // The model has all required modalities
    let mut required = ModalitySet::new();
    required.insert(Modality::Text);
    required.insert(Modality::Image);
    assert!(has_all_modalities(&model_modalities, &required));

    // The model lacks one of the required modalities
    let mut required_partial = ModalitySet::new();
    required_partial.insert(Modality::Text);
    required_partial.insert(Modality::Embeddings);
    assert!(!has_all_modalities(&model_modalities, &required_partial));

    // The model lacks all required modalities
    let mut required_none = ModalitySet::new();
    required_none.insert(Modality::Embeddings);
    required_none.insert(Modality::File);
    assert!(!has_all_modalities(&model_modalities, &required_none));
}

#[test]
fn main_test_has_all_modalities_all_modalities() {
    let model_modalities = vec![
        Modality::Text,
        Modality::Image,
        Modality::File,
        Modality::Audio,
        Modality::Embeddings,
    ];

    let mut required_all = ModalitySet::new();
    required_all.insert(Modality::Text);
    required_all.insert(Modality::Image);
    required_all.insert(Modality::File);
    required_all.insert(Modality::Audio);
    required_all.insert(Modality::Embeddings);
    assert!(has_all_modalities(&model_modalities, &required_all));
}

#[test]
fn main_test_has_all_modalities_empty_model() {
    let empty_modalities: Vec<Modality> = vec![];

    // Requiring any modality fails
    let mut required = ModalitySet::new();
    required.insert(Modality::Text);
    assert!(!has_all_modalities(&empty_modalities, &required));
}

#[test]
fn main_test_has_all_modalities_extra_modalities() {
    // More modalities than required still passes
    let model_modalities = vec![
        Modality::Text,
        Modality::Image,
        Modality::Audio,
        Modality::Embeddings,
    ];

    let mut required = ModalitySet::new();
    required.insert(Modality::Text);
    required.insert(Modality::Image);
    assert!(has_all_modalities(&model_modalities, &required));
}

#[test]
fn nothing_required_passes_any_model() {
    let required = ModalitySet::new();
    let all = vec![
        Modality::Text,
        Modality::Image,
        Modality::File,
        Modality::Audio,
        Modality::Embeddings,
        Modality::Video,
    ];
    for len in 0..=all.len() {
        assert!(has_all_modalities(&all[..len], &required));
    }
}

#[test]
fn duplicates_and_order_of_model_modalities_do_not_matter() {
    let model_modalities = vec![Modality::Video, Modality::Text, Modality::Video, Modality::Text];
    let mut required = ModalitySet::new();
    required.insert(Modality::Text);
    required.insert(Modality::Video);
    assert!(has_all_modalities(&model_modalities, &required));
    required.insert(Modality::Audio);
    assert!(!has_all_modalities(&model_modalities, &required));
}

#[test]
fn offers_finds_a_modality() {
    let list = vec![Modality::File, Modality::Audio];
    assert!(offers(&list, Modality::Audio));
    assert!(!offers(&list, Modality::Text));
    assert!(!offers(&[], Modality::Text));
}

#[test]
fn matches_xyz_not_found_in_nano_banana() {
    let tokens = tokenize("Google: Gemini 2.5 Flash Image (Nano Banana)");
    assert!(matches_any_token_sequence("nano", &tokens));
    assert!(matches_any_token_sequence("nanobanana", &tokens));
    assert!(!matches_any_token_sequence("xyz", &tokens));
}

#[test]
fn match_needs_a_contiguous_run() {
    let tokens = vec!["foo".to_string(), "bar".to_string(), "baz".to_string()];
    // "foobaz" skips "bar"
    assert!(!matches_any_token_sequence("foobaz", &tokens));
    // a run cannot start in the middle of a token
    assert!(!matches_any_token_sequence("oobar", &tokens));
    // longer than everything
    assert!(!matches_any_token_sequence("foobarbazqux", &tokens));
    // a run of all three, as a prefix
    assert!(matches_any_token_sequence("foobarba", &tokens));
}

#[test]
fn match_goes_on_behind_a_short_token() {
    let tokens = vec!["a".to_string(), "b".to_string(), "cdef".to_string()];
    assert!(matches_any_token_sequence("abcd", &tokens));
    assert!(matches_any_token_sequence("bcdef", &tokens));
    assert!(!matches_any_token_sequence("abd", &tokens));
}

#[test]
fn match_with_non_ascii_tokens() {
    let tokens = vec!["caf\u{e9}".to_string(), "r\u{e9}sum\u{e9}".to_string()];
    assert!(matches_any_token_sequence("caf\u{e9}r", &tokens));
    assert!(matches_any_token_sequence("r\u{e9}s", &tokens));
    // same length in bytes as "caf\u{e9}" but another text
    assert!(!matches_any_token_sequence("cafee", &tokens));
    assert!(!matches_any_token_sequence("cafe", &tokens));
}

#[test]
fn matcher_does_not_fold_case() {
    let tokens = vec!["hello".to_string()];
    assert!(!matches_any_token_sequence("Hello", &tokens));
}

#[test]
fn all_tokens_must_match() {
    let model = tokenize("Google: Gemini 2.5 Flash");
    assert!(matches_all_tokens(&tokenize("gem fla"), &model));
    assert!(!matches_all_tokens(&tokenize("gem pro"), &model));
    assert!(matches_all_tokens(&[], &model));
    assert!(matches_all_tokens(&[], &[]));
}

#[test]
fn text_matches_tokenizes_the_filter() {
    let model = tokenize("Google: Gemini 2.5 Flash Image (Nano Banana)");
    assert!(text_matches("Nano-Banana", &model));
    assert!(text_matches("GEMINI flash", &model));
    assert!(text_matches("geminiFlash", &model));
    assert!(text_matches("", &model));
    assert!(text_matches(" -- ", &model));
    assert!(!text_matches("gemini pro", &model));
    // an empty filter matches even a record without tokens
    assert!(text_matches("", &[]));
    assert!(!text_matches("a", &[]));
}
