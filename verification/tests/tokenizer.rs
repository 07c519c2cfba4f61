use concept_graph::tokenizer::stopwords;
use concept_graph::tokenizer::tokenize;

fn strs(v: &[&str]) -> Vec<String> {
    v.iter().map(|s| s.to_string()).collect()
}

#[test]
fn tokenize_interleaves_bigrams() {
    let stop = strs(&["the"]);
    let toks = tokenize("The Quick-Brown fox jumps", &stop);
    assert_eq!(
        toks,
        strs(&[
            "quick-brown",
            "quick-brown fox",
            "fox",
            "fox jumps",
            "jumps",
        ])
    );
}

#[test]
fn tokenize_lowercases() {
    let stop: Vec<String> = Vec::new();
    assert_eq!(tokenize("RUST Rust rust", &stop).len(), 5);
    assert_eq!(tokenize("RUST", &stop), strs(&["rust"]));
}

#[test]
fn tokenize_trims_hyphens() {
    let stop: Vec<String> = Vec::new();
    assert_eq!(tokenize("-abc- x yz", &stop), strs(&["abc"]));
}

#[test]
fn tokenize_drops_short_tokens() {
    let stop: Vec<String> = Vec::new();
    assert_eq!(tokenize("an ox ate oats", &stop), strs(&["ate", "ate oats", "oats"]));
}

#[test]
fn tokenize_keeps_apostrophes() {
    let stop: Vec<String> = Vec::new();
    assert_eq!(tokenize("don't stop", &stop), strs(&["don't", "don't stop", "stop"]));
}

#[test]
fn tokenize_empty_text() {
    let stop: Vec<String> = Vec::new();
    assert_eq!(tokenize("", &stop), strs(&[]));
}

#[test]
fn tokenize_single_unigram_has_no_bigram() {
    let stop: Vec<String> = Vec::new();
    assert_eq!(tokenize("hello", &stop), strs(&["hello"]));
}

#[test]
fn stopwords_list() {
    let stop = stopwords();
    assert_eq!(stop.len(), 73);
    assert!(stop.iter().any(|w| w == "the"));
    assert!(stop.iter().any(|w| w == "via"));
    assert!(!stop.iter().any(|w| w == "fox"));
}
