use delve::schema::Crate;
use delve::score::{find_bytes, QueryScore, ScoreWeights, TextScore, Weighting, SCALE};
use delve::search::{keyword_prefix, query_words};

#[test]
fn text_score_classification() {
    assert_eq!(TextScore::score("a", "a"), Some(TextScore::ExactMatch));
    assert_eq!(
        TextScore::score("ser", "serde"),
        Some(TextScore::StartsWith { needle_len: 3, haystack_len: 5 })
    );
    assert_eq!(
        TextScore::score("de", "serde"),
        Some(TextScore::EndsWith { needle_len: 2, haystack_len: 5 })
    );
    assert_eq!(
        TextScore::score("rd", "serde"),
        Some(TextScore::Contains { needle_len: 2, haystack_len: 5 })
    );
    assert_eq!(TextScore::score("serde", "ser"), None);
    assert_eq!(TextScore::score("x", "serde"), None);
}

#[test]
fn text_score_weights() {
    let ends = TextScore::score("de", "serde").unwrap();
    // match ratio 0.4
    assert_eq!(ends.calculated_score(Weighting::Linear), 25 * 400_000);
    assert_eq!(ends.calculated_score(Weighting::Squared), 10 * 400_000 * 400_000 / SCALE);
    let contains = TextScore::score("rd", "serde").unwrap();
    assert_eq!(contains.calculated_score(Weighting::Linear), 400_000);
    assert_eq!(contains.calculated_score(Weighting::Squared), 160_000);
    assert_eq!(TextScore::ExactMatch.calculated_score(Weighting::Linear), 100 * SCALE);
}

#[test]
fn first_occurrence_is_found() {
    assert_eq!(find_bytes(b"de", b"dede"), Some(0));
    assert_eq!(find_bytes(b"ed", b"dede"), Some(1));
    assert_eq!(find_bytes(b"", b"abc"), Some(0));
    assert_eq!(find_bytes(b"abcd", b"abc"), None);
}

#[test]
fn normalizes_names() {
    assert_eq!(Crate::normalized_name("Serde-JSON"), "serde_json");
    assert_eq!(Crate::normalized_name("tokio"), "tokio");
    assert_eq!(Crate::normalized_name("Ünï-Code"), "Ünï_code");
}

#[test]
fn query_words_are_distinct() {
    assert_eq!(query_words("  serde\tjson serde \n"), vec!["serde", "json"]);
    assert!(query_words("   ").is_empty());
    assert_eq!(query_words("Tokio"), vec!["Tokio"]);
}

#[test]
fn combined_score_weighs_paths() {
    let mut q = QueryScore::new();
    q.name.push(TextScore::ExactMatch);
    q.keywords.push(TextScore::score("ser", "serde").unwrap());
    q.index_score = Some(7);
    let w = ScoreWeights::name_and_keyword();
    assert_eq!(
        q.calculated_score(&w),
        100 * 100 * SCALE as u128 + 50 * 15_000_000 + 7
    );
    assert_eq!(q.calculated_score(&ScoreWeights::full_text_only()), 7);
}

#[test]
fn keyword_prefix_lowercases_ascii() {
    assert_eq!(keyword_prefix("JSON-Rpc"), "json-rpc");
    assert_eq!(keyword_prefix("Ärger"), "Ärger");
}
