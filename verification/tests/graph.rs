use concept_graph::graph::build_graph;
use concept_graph::MAX_EDGES;
use concept_graph::MAX_NODES;
use concept_graph::WINDOW;

fn vocab(entries: &[(&str, usize)]) -> Vec<(String, usize)> {
    entries.iter().map(|(s, c)| (s.to_string(), *c)).collect()
}

#[test]
fn constants_match_the_design() {
    assert_eq!(MAX_NODES, 30);
    assert_eq!(WINDOW, 12);
    assert_eq!(MAX_EDGES, 180);
}

#[test]
fn nodes_carry_labels_and_counts() {
    let vs = vocab(&[("aaa", 5), ("bbb", 3)]);
    let g = build_graph(&vs, &vec![7, 4], vec![], MAX_EDGES);
    assert_eq!(g.nodes.len(), 2);
    assert_eq!(g.nodes[0].id, 0);
    assert_eq!(g.nodes[0].label, "aaa");
    assert_eq!(g.nodes[0].count, 7);
    assert_eq!(g.nodes[1].id, 1);
    assert_eq!(g.nodes[1].label, "bbb");
    assert_eq!(g.nodes[1].count, 4);
    assert!(g.edges.is_empty());
}

#[test]
fn weight_one_edges_are_pruned() {
    let vs = vocab(&[("aaa", 1), ("bbb", 1), ("ccc", 1)]);
    let pairs = vec![((0, 1), 3), ((1, 2), 1), ((0, 2), 2)];
    let g = build_graph(&vs, &vec![0, 0, 0], pairs, MAX_EDGES);
    assert_eq!(g.edges.len(), 2);
    assert!(g.edges.iter().all(|e| e.weight > 1));
}

#[test]
fn edges_sort_by_descending_weight_and_cap_applies() {
    let vs = vocab(&[("aaa", 1), ("bbb", 1), ("ccc", 1)]);
    let pairs = vec![((1, 2), 2), ((0, 1), 4), ((0, 2), 3)];
    let g = build_graph(&vs, &vec![0, 0, 0], pairs.clone(), MAX_EDGES);
    let ws: Vec<usize> = g.edges.iter().map(|e| e.weight).collect();
    assert_eq!(ws, vec![4, 3, 2]);
    assert!(g.edges.windows(2).all(|p| p[0].weight >= p[1].weight));
    let capped = build_graph(&vs, &vec![0, 0, 0], pairs, 2);
    let ws2: Vec<usize> = capped.edges.iter().map(|e| e.weight).collect();
    assert_eq!(ws2, vec![4, 3]);
}

#[test]
fn edge_endpoints_are_valid_and_ordered() {
    let vs = vocab(&[("aaa", 1), ("bbb", 1)]);
    let g = build_graph(&vs, &vec![0, 0], vec![((0, 1), 5)], MAX_EDGES);
    assert_eq!(g.edges.len(), 1);
    assert_eq!(g.edges[0].source, 0);
    assert_eq!(g.edges[0].target, 1);
    assert_eq!(g.edges[0].weight, 5);
    assert!(g.edges[0].source < g.edges[0].target);
    assert!((g.edges[0].target) < g.nodes.len());
}
