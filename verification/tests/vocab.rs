use concept_graph::freq::count_frequencies;
use concept_graph::vocab::select_vocab;

fn docs(d: &[&[&str]]) -> Vec<Vec<String>> {
    d.iter().map(|doc| doc.iter().map(|s| s.to_string()).collect()).collect()
}

#[test]
fn frequencies_sum_across_documents() {
    let freq = count_frequencies(&docs(&[&["aaa", "bbb", "bbb", "ccc"], &["bbb", "ccc"]]));
    let mut by_term: Vec<(String, usize)> = freq.clone();
    by_term.sort();
    assert_eq!(
        by_term,
        vec![
            ("aaa".to_string(), 1),
            ("bbb".to_string(), 3),
            ("ccc".to_string(), 2),
        ]
    );
}

#[test]
fn selects_top_terms_by_descending_count() {
    let freq = count_frequencies(&docs(&[&["aaa", "bbb", "bbb", "ccc"], &["bbb", "ccc"]]));
    let vocab = select_vocab(freq, 2);
    assert_eq!(vocab, vec![("bbb".to_string(), 3), ("ccc".to_string(), 2)]);
}

#[test]
fn selection_size_is_min_of_cap_and_distinct_terms() {
    let freq = count_frequencies(&docs(&[&["aaa", "bbb", "ccc"]]));
    assert_eq!(select_vocab(freq.clone(), 30).len(), 3);
    assert_eq!(select_vocab(freq, 2).len(), 2);
}

#[test]
fn ties_break_by_term_text() {
    let freq = count_frequencies(&docs(&[&["xyz", "abc"]]));
    let vocab = select_vocab(freq, 30);
    assert_eq!(vocab, vec![("abc".to_string(), 1), ("xyz".to_string(), 1)]);
}

#[test]
fn a_selected_term_survives_a_frequency_raise() {
    // with a cap of 2, "ccc" is selected; raising its count keeps it selected
    let base = docs(&[&["bbb", "bbb", "bbb", "ccc", "ccc", "aaa"]]);
    let vocab = select_vocab(count_frequencies(&base), 2);
    assert!(vocab.iter().any(|e| e.0 == "ccc"));
    let more = docs(&[&["bbb", "bbb", "bbb", "ccc", "ccc", "aaa", "ccc", "ccc"]]);
    let vocab2 = select_vocab(count_frequencies(&more), 2);
    assert!(vocab2.iter().any(|e| e.0 == "ccc"));
    assert_eq!(vocab2[0].0, "ccc");
}

#[test]
fn raising_a_count_never_lowers_the_rank() {
    let base = docs(&[&["aaa", "bbb", "bbb", "ccc", "ccc", "ccc"]]);
    let vocab = select_vocab(count_frequencies(&base), 30);
    let rank_of = |v: &Vec<(String, usize)>, t: &str| v.iter().position(|e| e.0 == t).unwrap();
    assert_eq!(rank_of(&vocab, "aaa"), 2);
    // four more occurrences of "aaa" move it to the front
    let more = docs(&[&["aaa", "bbb", "bbb", "ccc", "ccc", "ccc", "aaa", "aaa", "aaa"]]);
    let vocab2 = select_vocab(count_frequencies(&more), 30);
    assert_eq!(rank_of(&vocab2, "aaa"), 0);
}
