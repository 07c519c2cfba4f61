//! Concept-graph pipeline: turns token streams of a document corpus into a
//! weighted term co-occurrence graph.
//!
//! The stages are: tokenization into unigrams and bigrams, selection of a
//! bounded most-frequent vocabulary, windowed co-occurrence accounting,
//! graph assembly with pruning of weak edges, and markup escaping for the
//! rendered labels. Each stage is a total function over plain values with a
//! contract describing its result exactly.
use vstd::prelude::*;

pub mod chars;
pub mod cooccur;
pub mod escape;
pub mod freq;
pub mod graph;
pub mod table;
pub mod tokenizer;
pub mod vocab;

use crate::chars::lower_of;
use crate::freq::total_len;
use crate::freq::total_count;
use crate::freq::count_frequencies;
use crate::table::tbl_get;
use crate::table::tbl_keys_unique;
use crate::table::tbl_all_pos;
use crate::table::lemma_tbl_get_at;
use crate::table::lemma_tbl_present;
use crate::graph::Node;
use crate::graph::Edge;
use crate::graph::Graph;
use crate::graph::graph_wf;
use crate::graph::edge_key;
use crate::graph::edge_before;
use crate::graph::strong_edges;
use crate::graph::lemma_strong_edges_elem;
use crate::graph::lemma_strong_edges_has;
use crate::graph::build_graph;
use crate::tokenizer::tokens_spec;
use crate::tokenizer::tokenize;
use crate::tokenizer::stop_list;
use crate::tokenizer::stopwords;
use crate::vocab::entry_before;
use crate::vocab::select_vocab;
use crate::cooccur::corpus_ids;
use crate::cooccur::corpus_occ;
use crate::cooccur::corpus_pairs;
use crate::cooccur::cooccurrence;

verus! {

/// Upper bound on the vocabulary size, and hence on the node count.
pub const MAX_NODES: usize = 30;

/// Length of the sliding co-occurrence window, counted in positions of the
/// vocabulary-filtered term stream.
pub const WINDOW: usize = 12;

/// Upper bound on the edge count of the pruned graph.
pub const MAX_EDGES: usize = 6 * MAX_NODES;

/// The token streams of a corpus, using the built-in stopword list.
pub open spec fn corpus_tokens(ts: Seq<Seq<char>>) -> Seq<Seq<Seq<char>>> {
    ts.map_values(|t: Seq<char>| tokens_spec(lower_of(t), stop_list()))
}

/// A frequency table holding exactly the corpus counts: unique keys,
/// positive counts, and for every term the count the corpus gives it.
/// Such a table is unique up to the order of its entries, so its length
/// is the corpus's number of distinct terms.
pub open spec fn freq_table_ok(fv: Seq<(Seq<char>, usize)>, dv: Seq<Seq<Seq<char>>>) -> bool {
    &&& tbl_keys_unique(fv)
    &&& tbl_all_pos(fv)
    &&& forall|w: Seq<char>| #[trigger] tbl_get(fv, w) == total_count(dv, w)
}

/// The vocabulary entries a node list stands for: each node's term,
/// paired with that term's frequency in the corpus.
pub open spec fn node_entries(ns: Seq<Node>, dv: Seq<Seq<Seq<char>>>) -> Seq<(Seq<char>, usize)> {
    Seq::new(ns.len(), |i: int| (ns[i].label@, total_count(dv, ns[i].label@) as usize))
}

/// The graph the corpus determines. The nodes are the top
/// `min(max_nodes, distinct terms)` vocabulary entries of some frequency
/// table of the corpus, in descending-frequency order with ties by term
/// text, every entry left behind ordering no earlier than any kept one;
/// each node's count is its term's occurrence total over the
/// vocabulary-filtered id streams. Every edge's weight is the windowed
/// co-occurrence count of its node pair; edges come heaviest first; and
/// any qualifying pair (weight above one between valid nodes) that is
/// missing can only have been displaced by a full list of edges at least
/// as heavy.
pub open spec fn graph_matches(
    g: Graph,
    dv: Seq<Seq<Seq<char>>>,
    max_nodes: usize,
    window: nat,
    max_edges: usize,
) -> bool {
    let ve = node_entries(g.nodes@, dv);
    let cid = corpus_ids(ve, dv);
    &&& exists|fv: Seq<(Seq<char>, usize)>|
        {
            &&& #[trigger] freq_table_ok(fv, dv)
            &&& g.nodes@.len() == (if max_nodes < fv.len() {
                max_nodes as int
            } else {
                fv.len() as int
            })
            &&& ve.to_multiset().subset_of(fv.to_multiset())
            &&& forall|i: int, e: (Seq<char>, usize)|
                0 <= i < ve.len() && fv.to_multiset().sub(ve.to_multiset()).count(e) > 0
                    ==> entry_before(ve[i], e)
        }
    &&& forall|i: int, j: int| 0 <= i < j < ve.len() ==> entry_before(ve[i], ve[j])
    &&& forall|i: int|
        0 <= i < g.nodes@.len() ==> (#[trigger] g.nodes@[i]).count as nat == corpus_occ(
            cid,
            i as usize,
        )
    &&& forall|i: int|
        0 <= i < g.edges@.len() ==> (#[trigger] g.edges@[i]).weight as nat == corpus_pairs(
            cid,
            window,
            g.edges@[i].source,
            g.edges@[i].target,
        )
    &&& forall|i: int, j: int| 0 <= i < j < g.edges@.len() ==> edge_before(g.edges@[i], g.edges@[j])
    &&& forall|u: usize, v: usize|
        (u < v && (v as int) < g.nodes@.len() && #[trigger] corpus_pairs(cid, window, u, v) > 1 && (
        forall|k: int| 0 <= k < g.edges@.len() ==> edge_key(#[trigger] g.edges@[k]) != (u, v)))
            ==> g.edges@.len() == max_edges && (forall|k: int|
            0 <= k < g.edges@.len() ==> (#[trigger] g.edges@[k]).weight as nat >= corpus_pairs(
                cid,
                window,
                u,
                v,
            ))
}

/// Runs the whole pipeline on the extracted document texts: tokenizes
/// each, selects the top `max_nodes` vocabulary, accumulates windowed
/// co-occurrence, and assembles the pruned graph. Returns `None` exactly
/// when the corpus is too large for the counters — when the combined
/// token count, or that count times the window, exceeds `usize::MAX`.
pub fn concept_graph(texts: &Vec<String>, max_nodes: usize, window: usize, max_edges: usize) -> (r:
    Option<Graph>)
    ensures
        (r is None) <==> (total_len(corpus_tokens(texts.deep_view())) > usize::MAX || total_len(
            corpus_tokens(texts.deep_view()),
        ) * window > usize::MAX),
        r is Some ==> graph_wf(r.unwrap()) && r.unwrap().nodes@.len() <= max_nodes
            && r.unwrap().edges@.len() <= max_edges,
        r is Some ==> forall|i: int|
            0 <= i < r.unwrap().nodes@.len() ==> total_count(
                corpus_tokens(texts.deep_view()),
                (#[trigger] r.unwrap().nodes@[i]).label@,
            ) >= 1,
        r is Some ==> graph_matches(
            r.unwrap(),
            corpus_tokens(texts.deep_view()),
            max_nodes,
            window as nat,
            max_edges,
        ),
{
    let ghost tv = texts.deep_view();
    let stop = stopwords();
    let mut docs: Vec<Vec<String>> = Vec::new();
    let mut k: usize = 0;
    while k < texts.len()
        invariant
            tv == texts.deep_view(),
            k <= texts.len(),
            docs@.len() == k,
            stop.deep_view() == stop_list(),
            forall|j: int| 0 <= j < k ==> docs.deep_view()[j] == corpus_tokens(tv)[j],
        decreases texts.len() - k,
    {
        let doc = tokenize(texts[k].as_str(), &stop);
        let ghost dd = docs.deep_view();
        docs.push(doc);
        proof {
            assert(tv[k as int] == texts@[k as int]@);
            assert forall|j: int| 0 <= j < k + 1 implies docs.deep_view()[j] == corpus_tokens(
                tv,
            )[j] by {
                if j < k {
                    assert(docs.deep_view()[j] == dd[j]);
                }
            }
        }
        k = k + 1;
    }
    proof {
        assert(docs.deep_view() =~= corpus_tokens(tv));
    }
    // guard the counters: the combined token count, and the number of
    // window slots, must fit in usize
    let mut total: usize = 0;
    let mut d: usize = 0;
    proof {
        assert(docs.deep_view().skip(0) =~= docs.deep_view());
    }
    while d < docs.len()
        invariant
            tv == texts.deep_view(),
            d <= docs.len(),
            docs.deep_view() == corpus_tokens(tv),
            docs.deep_view().len() == docs@.len(),
            total + total_len(docs.deep_view().skip(d as int)) == total_len(docs.deep_view()),
        decreases docs.len() - d,
    {
        proof {
            assert(docs.deep_view().skip(d as int)[0] == docs.deep_view()[d as int]);
            assert(docs.deep_view().skip(d as int).skip(1) =~= docs.deep_view().skip(d as int + 1));
            assert(docs.deep_view()[d as int].len() == docs@[d as int]@.len());
        }
        let dl = docs[d].len();
        match total.checked_add(dl) {
            Some(t2) => {
                total = t2;
            },
            None => {
                proof {
                    assert(total_len(docs.deep_view().skip(d as int)) == docs.deep_view()[
                        d as int
                    ].len() + total_len(docs.deep_view().skip(d as int + 1)));
                    assert(dl == docs.deep_view()[d as int].len());
                    assert(total_len(docs.deep_view()) > usize::MAX);
                }
                return None;
            },
        }
        d = d + 1;
    }
    proof {
        assert(docs.deep_view().skip(d as int) =~= Seq::<Seq<Seq<char>>>::empty());
        assert(total == total_len(docs.deep_view()));
    }
    match total.checked_mul(window) {
        Some(_) => {
        },
        None => {
            proof {
                assert(total_len(docs.deep_view()) * window > usize::MAX);
            }
            return None;
        },
    }
    let freq = count_frequencies(&docs);
    let ghost fv = freq.deep_view();
    let vocab = select_vocab(freq, max_nodes);
    let (counts, pairs) = cooccurrence(&docs, &vocab, window);
    let ghost pv = pairs@;
    let g = build_graph(&vocab, &counts, pairs, max_edges);
    proof {
        let dvv = docs.deep_view();
        let vd = vocab.deep_view();
        assert forall|i: int| 0 <= i < g.nodes@.len() implies total_count(
            corpus_tokens(tv),
            (#[trigger] g.nodes@[i]).label@,
        ) >= 1 && node_entries(g.nodes@, dvv)[i] == vd[i] by {
            let e = vd[i];
            vd.to_multiset_ensures();
            assert(vd.contains(e));
            assert(vd.to_multiset().count(e) > 0);
            assert(fv.to_multiset().count(e) > 0);
            fv.to_multiset_ensures();
            assert(fv.contains(e));
            let j = choose|j: int| 0 <= j < fv.len() && fv[j] == e;
            lemma_tbl_get_at(fv, j);
            assert(tbl_get(fv, e.0) == e.1);
            assert(g.nodes@[i].label@ == e.0);
            assert(total_count(dvv, e.0) == e.1 as nat);
        }
        assert(node_entries(g.nodes@, dvv) =~= vd);
        let ve = node_entries(g.nodes@, dvv);
        let cid = corpus_ids(ve, dvv);
        assert(freq_table_ok(fv, dvv));
        assert(g.nodes@.len() == (if max_nodes < fv.len() {
            max_nodes as int
        } else {
            fv.len() as int
        }));
        // per-node occurrence counts, via the accumulator's contract
        assert forall|i: int| 0 <= i < g.nodes@.len() implies (#[trigger] g.nodes@[i]).count
            as nat == corpus_occ(cid, i as usize) by {
            assert(g.nodes@[i].count == counts@[i]);
            assert(counts@[i] as nat == corpus_occ(corpus_ids(vd, dvv), i as usize));
        }
        // every edge carries exactly its pair's accumulated weight
        assert forall|i: int| 0 <= i < g.edges@.len() implies (#[trigger] g.edges@[i]).weight
            as nat == corpus_pairs(cid, window as nat, g.edges@[i].source, g.edges@[i].target) by {
            let e = g.edges@[i];
            g.edges@.to_multiset_ensures();
            assert(g.edges@.contains(e));
            assert(g.edges@.to_multiset().count(e) > 0);
            assert(strong_edges(pv).to_multiset().count(e) > 0);
            strong_edges(pv).to_multiset_ensures();
            assert(strong_edges(pv).contains(e));
            lemma_strong_edges_elem(pv, e);
            let k = choose|k: int|
                0 <= k < pv.len() && (#[trigger] pv[k]) == ((e.source, e.target), e.weight)
                    && e.weight > 1;
            lemma_tbl_get_at(pv, k);
            assert(tbl_get(pv, (e.source, e.target)) == e.weight);
            assert(e.source < e.target);
        }
        // a qualifying pair can only be missing from a full, heavier list
        assert forall|u: usize, v: usize|
            (u < v && (v as int) < g.nodes@.len() && #[trigger] corpus_pairs(
                cid,
                window as nat,
                u,
                v,
            ) > 1 && (forall|k: int|
                0 <= k < g.edges@.len() ==> edge_key(#[trigger] g.edges@[k]) != (u, v))) implies
            g.edges@.len() == max_edges && (forall|k: int|
            0 <= k < g.edges@.len() ==> (#[trigger] g.edges@[k]).weight as nat >= corpus_pairs(
                cid,
                window as nat,
                u,
                v,
            )) by {
            let w = corpus_pairs(cid, window as nat, u, v);
            assert(tbl_get(pv, (u, v)) == w);
            lemma_tbl_present(pv, (u, v));
            let k = choose|k: int| 0 <= k < pv.len() && pv[k].0 == (u, v);
            lemma_tbl_get_at(pv, k);
            assert(pv[k].1 as nat == w);
            assert(pv[k].1 > 1);
            lemma_strong_edges_has(pv, k);
            let ee = Edge { source: pv[k].0.0, target: pv[k].0.1, weight: pv[k].1 };
            assert(ee.source == u && ee.target == v);
            strong_edges(pv).to_multiset_ensures();
            assert(strong_edges(pv).to_multiset().count(ee) > 0);
            g.edges@.to_multiset_ensures();
            if g.edges@.to_multiset().count(ee) > 0 {
                assert(g.edges@.contains(ee));
                let t = choose|t: int| 0 <= t < g.edges@.len() && g.edges@[t] == ee;
                assert(edge_key(g.edges@[t]) == (u, v));
            }
            assert(g.edges@.to_multiset().count(ee) == 0);
            assert(strong_edges(pv).to_multiset().sub(g.edges@.to_multiset()).count(ee) > 0);
            assert(g.edges@.len() == max_edges);
            assert forall|t: int| 0 <= t < g.edges@.len() implies (#[trigger] g.edges@[t]).weight
                as nat >= w by {
                assert(edge_before(g.edges@[t], ee));
            }
        }
        assert(graph_matches(g, dvv, max_nodes, window as nat, max_edges));
    }
    Some(g)
}

} // verus!
