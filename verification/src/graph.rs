//! Graph assembly: one node per vocabulary term annotated with its
//! occurrence count, and the accumulated pairs turned into edges, pruned
//! of weight-one noise, sorted by descending weight and capped.
use vstd::prelude::*;
use crate::table::tbl_keys_unique;
use crate::table::tbl_all_pos;

verus! {

/// A graph node: a dense id, the term it stands for, and how often the
/// term occurred in the windowed scan.
pub struct Node {
    pub id: usize,
    pub label: String,
    pub count: usize,
}

/// An undirected edge, stored with `source < target`, weighted by the
/// number of windowed co-occurrences.
#[derive(Clone, Copy)]
pub struct Edge {
    pub source: usize,
    pub target: usize,
    pub weight: usize,
}

/// The assembled concept graph.
pub struct Graph {
    pub nodes: Vec<Node>,
    pub edges: Vec<Edge>,
}

/// The unordered node pair an edge connects.
pub open spec fn edge_key(e: Edge) -> (usize, usize) {
    (e.source, e.target)
}

/// `a` sorts no later than `b`: heavier first, ties by the node pair.
pub open spec fn edge_before(a: Edge, b: Edge) -> bool {
    a.weight > b.weight || (a.weight == b.weight && (a.source < b.source || (a.source == b.source
        && a.target <= b.target)))
}

/// The edges of all accumulated pairs whose weight survives pruning:
/// weight-one pairs are discarded as noise.
pub open spec fn strong_edges(ps: Seq<((usize, usize), usize)>) -> Seq<Edge>
    decreases ps.len(),
{
    if ps.len() == 0 {
        Seq::empty()
    } else {
        let rest = strong_edges(ps.skip(1));
        if ps[0].1 > 1 {
            seq![
                Edge { source: ps[0].0.0, target: ps[0].0.1, weight: ps[0].1 },
            ] + rest
        } else {
            rest
        }
    }
}

/// Every pruned edge comes from an accumulated pair of that weight.
pub proof fn lemma_strong_edges_elem(ps: Seq<((usize, usize), usize)>, e: Edge)
    requires
        strong_edges(ps).contains(e),
    ensures
        exists|k: int|
            0 <= k < ps.len() && (#[trigger] ps[k]) == ((e.source, e.target), e.weight)
                && e.weight > 1,
    decreases ps.len(),
{
    if ps.len() > 0 {
        let rest = strong_edges(ps.skip(1));
        if ps[0].1 > 1 {
            let h = Edge { source: ps[0].0.0, target: ps[0].0.1, weight: ps[0].1 };
            assert(strong_edges(ps) == seq![h] + rest);
            let i = choose|i: int| 0 <= i < strong_edges(ps).len() && strong_edges(ps)[i] == e;
            if i == 0 {
                assert(e == h);
                assert(ps[0] == ((e.source, e.target), e.weight));
            } else {
                assert(rest[i - 1] == e);
                assert(rest.contains(e));
                lemma_strong_edges_elem(ps.skip(1), e);
                let k = choose|k: int|
                    0 <= k < ps.skip(1).len() && (#[trigger] ps.skip(1)[k]) == ((
                        e.source,
                        e.target,
                    ), e.weight) && e.weight > 1;
                assert(ps[k + 1] == ((e.source, e.target), e.weight));
            }
        } else {
            assert(strong_edges(ps) == rest);
            lemma_strong_edges_elem(ps.skip(1), e);
            let k = choose|k: int|
                0 <= k < ps.skip(1).len() && (#[trigger] ps.skip(1)[k]) == ((e.source, e.target),
                e.weight) && e.weight > 1;
            assert(ps[k + 1] == ((e.source, e.target), e.weight));
        }
    }
}

/// Every accumulated pair of weight above one survives into the pruned
/// edge list.
pub proof fn lemma_strong_edges_has(ps: Seq<((usize, usize), usize)>, k: int)
    requires
        0 <= k < ps.len(),
        ps[k].1 > 1,
    ensures
        strong_edges(ps).contains((Edge { source: ps[k].0.0, target: ps[k].0.1, weight: ps[k].1 })),
    decreases k,
{
    let rest = strong_edges(ps.skip(1));
    if k == 0 {
        let h = Edge { source: ps[0].0.0, target: ps[0].0.1, weight: ps[0].1 };
        assert(strong_edges(ps)[0] == h);
    } else {
        assert(ps.skip(1)[k - 1] == ps[k]);
        lemma_strong_edges_has(ps.skip(1), k - 1);
        let e = Edge { source: ps[k].0.0, target: ps[k].0.1, weight: ps[k].1 };
        assert(rest.contains(e));
        let i = choose|i: int| 0 <= i < rest.len() && rest[i] == e;
        if ps[0].1 > 1 {
            let h = Edge { source: ps[0].0.0, target: ps[0].0.1, weight: ps[0].1 };
            assert(strong_edges(ps) == seq![h] + rest);
            assert(strong_edges(ps)[i + 1] == e);
        } else {
            assert(strong_edges(ps) == rest);
        }
    }
}

/// Well-formedness of the assembled graph: dense ids, edges between
/// valid distinct nodes with `source < target`, no duplicate pair, no
/// weight-one edge, and non-increasing weights.
pub open spec fn graph_wf(g: Graph) -> bool {
    &&& forall|i: int| 0 <= i < g.nodes@.len() ==> (#[trigger] g.nodes@[i]).id == i
    &&& forall|i: int|
        0 <= i < g.edges@.len() ==> (#[trigger] g.edges@[i]).source < g.edges@[i].target
            < g.nodes@.len()
    &&& forall|i: int| 0 <= i < g.edges@.len() ==> (#[trigger] g.edges@[i]).weight > 1
    &&& forall|i: int, j: int|
        0 <= i < j < g.edges@.len() ==> edge_key(g.edges@[i]) != edge_key(g.edges@[j])
    &&& forall|i: int, j: int|
        0 <= i < j < g.edges@.len() ==> (#[trigger] g.edges@[i]).weight
            >= (#[trigger] g.edges@[j]).weight
}

/// Builds the graph: node `i` carries vocabulary term `i` and its count;
/// the edge list keeps every accumulated pair of weight above one, sorted
/// by descending weight with ties by node pair, truncated to `max_edges`.
#[verifier::loop_isolation(false)]
pub fn build_graph(
    vocab: &Vec<(String, usize)>,
    counts: &Vec<usize>,
    pairs: Vec<((usize, usize), usize)>,
    max_edges: usize,
) -> (r: Graph)
    requires
        counts@.len() == vocab@.len(),
        tbl_keys_unique(pairs@),
        forall|i: int|
            0 <= i < pairs@.len() ==> (#[trigger] pairs@[i]).0.0 < pairs@[i].0.1 < vocab@.len(),
    ensures
        graph_wf(r),
        r.nodes@.len() == vocab@.len(),
        forall|i: int|
            0 <= i < r.nodes@.len() ==> (#[trigger] r.nodes@[i]).label@ == vocab.deep_view()[i].0
                && r.nodes@[i].count == counts@[i],
        r.edges@.len() == if max_edges < strong_edges(pairs@).len() {
            max_edges as int
        } else {
            strong_edges(pairs@).len() as int
        },
        r.edges@.to_multiset().subset_of(strong_edges(pairs@).to_multiset()),
        forall|i: int, e: Edge|
            0 <= i < r.edges@.len() && strong_edges(pairs@).to_multiset().sub(
                r.edges@.to_multiset(),
            ).count(e) > 0 ==> edge_before(r.edges@[i], e),
        forall|i: int, j: int|
            0 <= i < j < r.edges@.len() ==> edge_before(r.edges@[i], r.edges@[j]),
        r.edges@.len() < max_edges ==> forall|e: Edge|
            strong_edges(pairs@).to_multiset().sub(r.edges@.to_multiset()).count(e) == 0,
{
    let ghost pv = pairs@;
    let mut nodes: Vec<Node> = Vec::new();
    let mut i: usize = 0;
    while i < vocab.len()
        invariant
            i <= vocab.len(),
            counts@.len() == vocab@.len(),
            nodes@.len() == i,
            forall|k: int| 0 <= k < i ==> (#[trigger] nodes@[k]).id == k,
            forall|k: int|
                0 <= k < i ==> (#[trigger] nodes@[k]).label@ == vocab.deep_view()[k].0
                    && nodes@[k].count == counts@[k],
        decreases vocab.len() - i,
    {
        let lab = vocab[i].0.clone();
        nodes.push(Node { id: i, label: lab, count: counts[i] });
        i = i + 1;
    }
    // prune: keep pairs that co-occurred more than once
    let mut strong: Vec<Edge> = Vec::new();
    let mut k: usize = 0;
    proof {
        assert(pv.skip(0) =~= pv);
        assert(strong@ + strong_edges(pv) =~= strong_edges(pv));
    }
    while k < pairs.len()
        invariant
            pv == pairs@,
            k <= pairs.len(),
            tbl_keys_unique(pv),
            forall|t: int| 0 <= t < pv.len() ==> (#[trigger] pv[t]).0.0 < pv[t].0.1 < vocab@.len(),
            strong_edges(pv) == strong@ + strong_edges(pv.skip(k as int)),
            forall|t: int|
                0 <= t < strong@.len() ==> (#[trigger] strong@[t]).source < strong@[t].target
                    < vocab@.len() && strong@[t].weight > 1,
            forall|a: int, b: int|
                0 <= a < b < strong@.len() ==> edge_key(strong@[a]) != edge_key(strong@[b]),
            forall|a: int, l: int|
                0 <= a < strong@.len() && k <= l < pv.len() ==> edge_key(strong@[a]) != pv[l].0,
        decreases pairs.len() - k,
    {
        let ghost sp = strong@;
        proof {
            assert(pv.skip(k as int)[0] == pv[k as int]);
            assert(pv.skip(k as int).skip(1) =~= pv.skip(k as int + 1));
        }
        let w = pairs[k].1;
        if w > 1 {
            let e = Edge { source: pairs[k].0.0, target: pairs[k].0.1, weight: w };
            strong.push(e);
            proof {
                assert(strong@ =~= sp.push(e));
                assert(edge_key(e) == pv[k as int].0);
                assert(strong_edges(pv.skip(k as int)) == seq![e] + strong_edges(
                    pv.skip(k as int + 1),
                ));
                assert(sp + (seq![e] + strong_edges(pv.skip(k as int + 1))) =~= strong@
                    + strong_edges(pv.skip(k as int + 1)));
            }
        } else {
            proof {
                assert(strong_edges(pv.skip(k as int)) == strong_edges(pv.skip(k as int + 1)));
            }
        }
        k = k + 1;
    }
    proof {
        assert(pv.skip(k as int) =~= Seq::<((usize, usize), usize)>::empty());
        assert(strong@ + Seq::<Edge>::empty() =~= strong@);
        assert(strong@ == strong_edges(pv));
    }
    // sort by descending weight, ties by node pair, and cap the count
    let ghost s0 = strong@;
    let mut rest = strong;
    let mut out: Vec<Edge> = Vec::new();
    let m = if max_edges < rest.len() {
        max_edges
    } else {
        rest.len()
    };
    proof {
        assert(out@ =~= Seq::<Edge>::empty());
        out@.to_multiset_ensures();
        s0.to_multiset_ensures();
        assert(out@.to_multiset().add(rest@.to_multiset()) =~= s0.to_multiset());
    }
    while out.len() < m
        invariant
            out.len() <= m,
            m <= out.len() + rest.len(),
            out@.len() + rest@.len() == s0.len(),
            out@.to_multiset().add(rest@.to_multiset()) == s0.to_multiset(),
            forall|a: int, b: int| 0 <= a < b < out@.len() ==> edge_before(out@[a], out@[b]),
            forall|a: int, b: int|
                0 <= a < out@.len() && 0 <= b < rest@.len() ==> edge_before(out@[a], rest@[b]),
            forall|t: int|
                0 <= t < out@.len() ==> (#[trigger] out@[t]).source < out@[t].target
                    < vocab@.len() && out@[t].weight > 1,
            forall|t: int|
                0 <= t < rest@.len() ==> (#[trigger] rest@[t]).source < rest@[t].target
                    < vocab@.len() && rest@[t].weight > 1,
            forall|a: int, b: int|
                0 <= a < b < out@.len() ==> edge_key(out@[a]) != edge_key(out@[b]),
            forall|a: int, b: int|
                0 <= a < b < rest@.len() ==> edge_key(rest@[a]) != edge_key(rest@[b]),
            forall|a: int, b: int|
                0 <= a < out@.len() && 0 <= b < rest@.len() ==> edge_key(out@[a]) != edge_key(
                    rest@[b],
                ),
        decreases m - out.len(),
    {
        let mut best: usize = 0;
        let mut q: usize = 1;
        while q < rest.len()
            invariant
                rest.len() >= 1,
                best < q <= rest.len(),
                forall|j: int| 0 <= j < q ==> edge_before(rest@[best as int], rest@[j]),
            decreases rest.len() - q,
        {
            let rb = rest[best];
            let rq = rest[q];
            let le = rb.weight > rq.weight || (rb.weight == rq.weight && (rb.source < rq.source
                || (rb.source == rq.source && rb.target <= rq.target)));
            if !le {
                best = q;
            }
            q = q + 1;
        }
        let ghost restd = rest@;
        let ghost outd = out@;
        let e = rest.remove(best);
        out.push(e);
        proof {
            assert(rest@ =~= restd.remove(best as int));
            assert(out@ =~= outd.push(restd[best as int]));
            restd.to_multiset_ensures();
            outd.to_multiset_ensures();
            assert(rest@.to_multiset() =~= restd.to_multiset().remove(restd[best as int]));
            assert(out@.to_multiset() =~= outd.to_multiset().insert(restd[best as int]));
            assert(restd.to_multiset().count(restd[best as int]) > 0);
            assert(out@.to_multiset().add(rest@.to_multiset()) =~= s0.to_multiset());
            assert forall|a: int, b: int|
                0 <= a < out@.len() && 0 <= b < rest@.len() implies edge_before(
                out@[a],
                rest@[b],
            ) && edge_key(out@[a]) != edge_key(rest@[b]) by {
                if b < best {
                    assert(rest@[b] == restd[b]);
                } else {
                    assert(rest@[b] == restd[b + 1]);
                }
                if a < outd.len() {
                    assert(out@[a] == outd[a]);
                } else {
                    assert(out@[a] == restd[best as int]);
                }
            }
            assert forall|a: int, b: int|
                0 <= a < b < rest@.len() implies edge_key(rest@[a]) != edge_key(rest@[b]) by {
                if a < best {
                    assert(rest@[a] == restd[a]);
                } else {
                    assert(rest@[a] == restd[a + 1]);
                }
                if b < best {
                    assert(rest@[b] == restd[b]);
                } else {
                    assert(rest@[b] == restd[b + 1]);
                }
            }
            assert forall|a: int, b: int| 0 <= a < b < out@.len() implies edge_before(
                out@[a],
                out@[b],
            ) && edge_key(out@[a]) != edge_key(out@[b]) by {
                assert(out@[a] == outd[a]);
                if b < outd.len() {
                    assert(out@[b] == outd[b]);
                } else {
                    assert(out@[b] == restd[best as int]);
                }
            }
        }
    }
    proof {
        assert forall|i2: int, e: Edge|
            0 <= i2 < out@.len() && s0.to_multiset().sub(out@.to_multiset()).count(e)
                > 0 implies edge_before(out@[i2], e) by {
            assert(s0.to_multiset().sub(out@.to_multiset()).count(e) == rest@.to_multiset().count(
                e,
            ));
            rest@.to_multiset_ensures();
            assert(rest@.contains(e));
            let j = choose|j: int| 0 <= j < rest@.len() && rest@[j] == e;
            assert(rest@[j] == e);
        }
        if out@.len() < max_edges {
            assert(out@.len() == s0.len());
            assert(rest@.len() == 0);
            assert(rest@ =~= Seq::<Edge>::empty());
            assert forall|e: Edge| s0.to_multiset().sub(out@.to_multiset()).count(e) == 0 by {
                assert(s0.to_multiset().sub(out@.to_multiset()).count(e)
                    == rest@.to_multiset().count(e));
                rest@.to_multiset_ensures();
                if rest@.to_multiset().count(e) > 0 {
                    assert(rest@.contains(e));
                }
            }
        }
    }
    proof {
        assert(forall|t: int| 0 <= t < nodes@.len() ==> (#[trigger] nodes@[t]).id == t);
        assert(forall|t: int|
            0 <= t < out@.len() ==> (#[trigger] out@[t]).source < out@[t].target < nodes@.len());
        assert(forall|t: int| 0 <= t < out@.len() ==> (#[trigger] out@[t]).weight > 1);
        assert(forall|a: int, b: int|
            0 <= a < b < out@.len() ==> edge_key(out@[a]) != edge_key(out@[b]));
        assert forall|a: int, b: int|
            0 <= a < b < out@.len() implies (#[trigger] out@[a]).weight
            >= (#[trigger] out@[b]).weight by {
            assert(edge_before(out@[a], out@[b]));
        }
    }
    Graph { nodes, edges: out }
}

} // verus!
