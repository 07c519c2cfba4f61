use concept_graph::concept_graph;
use concept_graph::MAX_EDGES;
use concept_graph::MAX_NODES;
use concept_graph::WINDOW;

fn texts(ts: &[&str]) -> Vec<String> {
    ts.iter().map(|s| s.to_string()).collect()
}

#[test]
fn empty_corpus_yields_an_empty_graph() {
    let g = concept_graph(&texts(&[]), MAX_NODES, WINDOW, MAX_EDGES).unwrap();
    assert_eq!(g.nodes.len(), 0);
    assert_eq!(g.edges.len(), 0);
}

#[test]
fn stopword_only_corpus_yields_an_empty_graph() {
    let g = concept_graph(&texts(&["the and for", ""]), MAX_NODES, WINDOW, MAX_EDGES).unwrap();
    assert_eq!(g.nodes.len(), 0);
    assert_eq!(g.edges.len(), 0);
}

#[test]
fn small_corpus_end_to_end() {
    let g = concept_graph(&texts(&["apple banana apple"]), MAX_NODES, WINDOW, MAX_EDGES).unwrap();
    // token stream: apple, "apple banana", banana, "banana apple", apple
    let labels: Vec<&str> = g.nodes.iter().map(|n| n.label.as_str()).collect();
    assert_eq!(labels, vec!["apple", "apple banana", "banana", "banana apple"]);
    let counts: Vec<usize> = g.nodes.iter().map(|n| n.count).collect();
    assert_eq!(counts, vec![2, 1, 1, 1]);
    let edges: Vec<(usize, usize, usize)> =
        g.edges.iter().map(|e| (e.source, e.target, e.weight)).collect();
    assert_eq!(edges, vec![(0, 1, 2), (0, 2, 2), (0, 3, 2)]);
}

#[test]
fn node_cap_limits_the_vocabulary() {
    let g = concept_graph(&texts(&["aaa bbb ccc ddd"]), 2, WINDOW, MAX_EDGES).unwrap();
    assert_eq!(g.nodes.len(), 2);
    for e in &g.edges {
        assert!(e.target < 2);
    }
}
