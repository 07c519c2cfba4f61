use concept_graph::cooccur::cooccurrence;

fn docs(d: &[&[&str]]) -> Vec<Vec<String>> {
    d.iter().map(|doc| doc.iter().map(|s| s.to_string()).collect()).collect()
}

fn vocab(labels: &[&str]) -> Vec<(String, usize)> {
    labels.iter().map(|s| (s.to_string(), 1)).collect()
}

fn weight(pairs: &[((usize, usize), usize)], u: usize, v: usize) -> usize {
    pairs.iter().find(|e| e.0 == (u, v)).map(|e| e.1).unwrap_or(0)
}

#[test]
fn pair_weight_ignores_encounter_order() {
    let vs = vocab(&["aaa", "bbb"]);
    let (_, forward) = cooccurrence(&docs(&[&["aaa", "bbb"]]), &vs, 12);
    let (_, backward) = cooccurrence(&docs(&[&["bbb", "aaa"]]), &vs, 12);
    assert_eq!(weight(&forward, 0, 1), 1);
    assert_eq!(weight(&backward, 0, 1), 1);
}

#[test]
fn occurrences_count_every_position() {
    let vs = vocab(&["aaa", "bbb"]);
    let (counts, _) = cooccurrence(&docs(&[&["aaa", "bbb", "aaa"], &["bbb"]]), &vs, 12);
    assert_eq!(counts, vec![2, 2]);
}

#[test]
fn out_of_vocabulary_terms_close_the_gap() {
    // the window slides over the filtered id sequence, so a long run of
    // unknown terms between two known ones does not break the pair
    let vs = vocab(&["aaa", "bbb"]);
    let stream: Vec<&str> = vec![
        "aaa", "z1", "z2", "z3", "z4", "z5", "z6", "z7", "z8", "z9", "z10", "z11", "z12", "bbb",
    ];
    let (_, pairs) = cooccurrence(&docs(&[&stream]), &vs, 12);
    assert_eq!(weight(&pairs, 0, 1), 1);
}

#[test]
fn window_boundary_is_exclusive() {
    let labels: Vec<String> = (0..14).map(|i| format!("t{:02}", i)).collect();
    let label_refs: Vec<&str> = labels.iter().map(|s| s.as_str()).collect();
    let vs = vocab(&label_refs);
    // distance 11 is inside the window of 12, distance 12 is outside
    let (_, pairs) = cooccurrence(&docs(&[&label_refs[0..13]]), &vs, 12);
    assert_eq!(weight(&pairs, 0, 11), 1);
    assert_eq!(weight(&pairs, 0, 12), 0);
}

#[test]
fn repeated_proximity_accumulates() {
    let vs = vocab(&["aaa", "bbb"]);
    let (_, pairs) = cooccurrence(&docs(&[&["aaa", "bbb", "aaa", "bbb"]]), &vs, 12);
    // ordered occurrences within the window: (0,1) (0,3) (1,2) (2,3)
    assert_eq!(weight(&pairs, 0, 1), 4);
}

#[test]
fn a_term_never_cooccurs_with_itself() {
    let vs = vocab(&["aaa"]);
    let (counts, pairs) = cooccurrence(&docs(&[&["aaa", "aaa", "aaa"]]), &vs, 12);
    assert_eq!(counts, vec![3]);
    assert!(pairs.is_empty());
}
