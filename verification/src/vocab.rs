//! Vocabulary selection: the most frequent terms, at most `MAX_NODES` of
//! them, ordered by descending frequency with ties broken by ascending
//! term text, so that the selection is a function of the counts alone.
use vstd::prelude::*;
use vstd::set_lib::lemma_len_subset;
use crate::table::tbl_get;
use crate::table::tbl_contains;
use crate::table::tbl_keys_unique;
use crate::table::lemma_tbl_get_at;
use crate::chars::lex_lt;
use crate::chars::str_lt;
use crate::chars::lemma_lex_irrefl;
use crate::chars::lemma_lex_trans;
use crate::chars::lemma_lex_total;

verus! {

/// `a` comes no later than `b`: larger count first, ties by term text.
pub open spec fn entry_before(a: (Seq<char>, usize), b: (Seq<char>, usize)) -> bool {
    a.1 > b.1 || (a.1 == b.1 && !lex_lt(b.0, a.0))
}

/// The order is total.
pub proof fn lemma_entry_before_total(a: (Seq<char>, usize), b: (Seq<char>, usize))
    ensures
        entry_before(a, b) || entry_before(b, a),
{
    if a.1 == b.1 {
        if lex_lt(b.0, a.0) && lex_lt(a.0, b.0) {
            lemma_lex_trans(a.0, b.0, a.0);
            lemma_lex_irrefl(a.0);
        }
    }
}

/// The order is transitive.
pub proof fn lemma_entry_before_trans(
    a: (Seq<char>, usize),
    b: (Seq<char>, usize),
    c: (Seq<char>, usize),
)
    requires
        entry_before(a, b),
        entry_before(b, c),
    ensures
        entry_before(a, c),
{
    if a.1 == b.1 && b.1 == c.1 {
        if lex_lt(c.0, a.0) {
            lemma_lex_total(b.0, a.0);
            if b.0 == a.0 {
            } else {
                lemma_lex_trans(c.0, a.0, b.0);
            }
        }
    }
}

/// Executable comparison of two vocabulary entries.
fn entry_le(a: &(String, usize), b: &(String, usize)) -> (r: bool)
    ensures
        r == entry_before(a.deep_view(), b.deep_view()),
{
    if a.1 > b.1 {
        true
    } else if a.1 < b.1 {
        false
    } else {
        !str_lt(b.0.as_str(), a.0.as_str())
    }
}

/// What `select_vocab` promises of its result: the stated size, sorted
/// under `entry_before`, drawn from the table, and dominating every
/// entry left behind.
pub open spec fn selection_of(
    out: Seq<(Seq<char>, usize)>,
    fv: Seq<(Seq<char>, usize)>,
    m: int,
) -> bool {
    &&& out.len() == (if m < fv.len() {
        m
    } else {
        fv.len() as int
    })
    &&& forall|i: int, j: int| 0 <= i < j < out.len() ==> entry_before(out[i], out[j])
    &&& out.to_multiset().subset_of(fv.to_multiset())
    &&& forall|i: int, e: (Seq<char>, usize)|
        0 <= i < out.len() && fv.to_multiset().sub(out.to_multiset()).count(e) > 0
            ==> entry_before(out[i], e)
}

/// Picks the top `max_nodes` entries of the frequency table, ordered by
/// descending count with ties by ascending term text. Exactly
/// `min(max_nodes, freq.len())` entries are returned; they come from the
/// table, and every entry left behind orders no earlier than any kept one.
pub fn select_vocab(freq: Vec<(String, usize)>, max_nodes: usize) -> (r: Vec<(String, usize)>)
    ensures
        r.len() == if max_nodes < freq.len() {
            max_nodes as int
        } else {
            freq.len() as int
        },
        forall|i: int, j: int|
            0 <= i < j < r.deep_view().len() ==> entry_before(
                r.deep_view()[i],
                r.deep_view()[j],
            ),
        r.deep_view().to_multiset().subset_of(freq.deep_view().to_multiset()),
        forall|i: int, e: (Seq<char>, usize)|
            0 <= i < r.deep_view().len() && freq.deep_view().to_multiset().sub(
                r.deep_view().to_multiset(),
            ).count(e) > 0 ==> entry_before(r.deep_view()[i], e),
        tbl_keys_unique(freq.deep_view()) ==> tbl_keys_unique(r.deep_view()),
        selection_of(r.deep_view(), freq.deep_view(), max_nodes as int),
{
    let ghost uk = tbl_keys_unique(freq.deep_view());
    let ghost f0 = freq.deep_view();
    let mut rest = freq;
    let mut out: Vec<(String, usize)> = Vec::new();
    let m = if max_nodes < rest.len() {
        max_nodes
    } else {
        rest.len()
    };
    proof {
        assert(out.deep_view() =~= Seq::<(Seq<char>, usize)>::empty());
        out.deep_view().to_multiset_ensures();
        f0.to_multiset_ensures();
        assert(out.deep_view().to_multiset().add(rest.deep_view().to_multiset())
            =~= f0.to_multiset());
    }
    while out.len() < m
        invariant
            out.len() <= m,
            m <= out.len() + rest.len(),
            out.deep_view().to_multiset().add(rest.deep_view().to_multiset()) == f0.to_multiset(),
            forall|i: int, j: int|
                0 <= i < j < out.deep_view().len() ==> entry_before(
                    out.deep_view()[i],
                    out.deep_view()[j],
                ),
            forall|i: int, j: int|
                0 <= i < out.deep_view().len() && 0 <= j < rest.deep_view().len()
                    ==> entry_before(out.deep_view()[i], rest.deep_view()[j]),
            uk == tbl_keys_unique(freq.deep_view()),
            uk ==> tbl_keys_unique(out.deep_view()),
            uk ==> tbl_keys_unique(rest.deep_view()),
            uk ==> forall|i: int, j: int|
                0 <= i < out.deep_view().len() && 0 <= j < rest.deep_view().len()
                    ==> out.deep_view()[i].0 != rest.deep_view()[j].0,
        decreases m - out.len(),
    {
        let mut best: usize = 0;
        let mut q: usize = 1;
        proof {
            lemma_lex_irrefl(rest.deep_view()[0].0);
        }
        while q < rest.len()
            invariant
                rest.len() >= 1,
                best < q <= rest.len(),
                forall|j: int|
                    0 <= j < q ==> entry_before(
                        rest.deep_view()[best as int],
                        rest.deep_view()[j],
                    ),
            decreases rest.len() - q,
        {
            if !entry_le(&rest[best], &rest[q]) {
                proof {
                    lemma_entry_before_total(
                        rest.deep_view()[best as int],
                        rest.deep_view()[q as int],
                    );
                    assert forall|j: int| 0 <= j < q implies entry_before(
                        rest.deep_view()[q as int],
                        rest.deep_view()[j],
                    ) by {
                        lemma_entry_before_trans(
                            rest.deep_view()[q as int],
                            rest.deep_view()[best as int],
                            rest.deep_view()[j],
                        );
                    }
                    lemma_lex_irrefl(rest.deep_view()[q as int].0);
                }
                best = q;
            }
            q = q + 1;
        }
        let ghost restd = rest.deep_view();
        let ghost outd = out.deep_view();
        let e = rest.remove(best);
        out.push(e);
        proof {
            assert(e.deep_view() == restd[best as int]);
            assert(rest.deep_view() =~= restd.remove(best as int));
            assert(out.deep_view() =~= outd.push(restd[best as int]));
            restd.to_multiset_ensures();
            outd.to_multiset_ensures();
            assert(rest.deep_view().to_multiset() =~= restd.to_multiset().remove(
                restd[best as int],
            ));
            assert(out.deep_view().to_multiset() =~= outd.to_multiset().insert(
                restd[best as int],
            ));
            assert(restd.to_multiset().count(restd[best as int]) > 0) by {
                restd.to_multiset_ensures();
            }
            assert(out.deep_view().to_multiset().add(rest.deep_view().to_multiset())
                =~= f0.to_multiset());
            assert forall|i: int, j: int|
                0 <= i < out.deep_view().len() && 0 <= j < rest.deep_view().len() implies
                entry_before(out.deep_view()[i], rest.deep_view()[j]) by {
                if j < best {
                    assert(rest.deep_view()[j] == restd[j]);
                } else {
                    assert(rest.deep_view()[j] == restd[j + 1]);
                }
                if i < outd.len() {
                    assert(out.deep_view()[i] == outd[i]);
                } else {
                    assert(out.deep_view()[i] == restd[best as int]);
                }
            }
            assert forall|i: int, j: int|
                0 <= i < j < out.deep_view().len() implies entry_before(
                out.deep_view()[i],
                out.deep_view()[j],
            ) by {
                if j < outd.len() {
                    assert(out.deep_view()[i] == outd[i]);
                    assert(out.deep_view()[j] == outd[j]);
                } else {
                    assert(out.deep_view()[i] == outd[i]);
                    assert(out.deep_view()[j] == restd[best as int]);
                }
            }
            if uk {
                assert forall|i: int, j: int|
                    0 <= i < j < out.deep_view().len() implies out.deep_view()[i].0
                    != out.deep_view()[j].0 by {
                    assert(out.deep_view()[i] == outd[i]);
                    if j < outd.len() {
                        assert(out.deep_view()[j] == outd[j]);
                    } else {
                        assert(out.deep_view()[j] == restd[best as int]);
                    }
                }
                assert forall|i: int, j: int|
                    0 <= i < j < rest.deep_view().len() implies rest.deep_view()[i].0
                    != rest.deep_view()[j].0 by {
                    if i < best {
                        assert(rest.deep_view()[i] == restd[i]);
                    } else {
                        assert(rest.deep_view()[i] == restd[i + 1]);
                    }
                    if j < best {
                        assert(rest.deep_view()[j] == restd[j]);
                    } else {
                        assert(rest.deep_view()[j] == restd[j + 1]);
                    }
                }
                assert forall|i: int, j: int|
                    0 <= i < out.deep_view().len() && 0 <= j < rest.deep_view().len()
                    implies out.deep_view()[i].0 != rest.deep_view()[j].0 by {
                    if j < best {
                        assert(rest.deep_view()[j] == restd[j]);
                    } else {
                        assert(rest.deep_view()[j] == restd[j + 1]);
                    }
                    if i < outd.len() {
                        assert(out.deep_view()[i] == outd[i]);
                    } else {
                        assert(out.deep_view()[i] == restd[best as int]);
                    }
                }
            }
        }
    }
    proof {
        assert forall|e: (Seq<char>, usize)|
            f0.to_multiset().sub(out.deep_view().to_multiset()).count(e) > 0 implies exists|j: int|
            0 <= j < rest.deep_view().len() && rest.deep_view()[j] == e by {
            assert(f0.to_multiset().sub(out.deep_view().to_multiset()).count(e)
                == rest.deep_view().to_multiset().count(e));
            rest.deep_view().to_multiset_ensures();
            assert(rest.deep_view().contains(e));
            let j = choose|j: int| 0 <= j < rest.deep_view().len() && rest.deep_view()[j] == e;
            assert(rest.deep_view()[j] == e);
        }
    }
    out
}

/// Raising one term's frequency while every other term's count stays
/// fixed never drops that term from the selection: if `t` was among the
/// entries selected from the lower table, it is among those selected
/// from the higher one. The two tables must hold the same terms; the
/// selections are anything `select_vocab`'s contract admits.
pub proof fn lemma_selection_monotone(
    fv1: Seq<(Seq<char>, usize)>,
    fv2: Seq<(Seq<char>, usize)>,
    out1: Seq<(Seq<char>, usize)>,
    out2: Seq<(Seq<char>, usize)>,
    m: int,
    t: Seq<char>,
)
    requires
        tbl_keys_unique(fv1),
        tbl_keys_unique(fv2),
        fv1.len() == fv2.len(),
        forall|w: Seq<char>| tbl_contains(fv1, w) <==> tbl_contains(fv2, w),
        tbl_get(fv1, t) <= tbl_get(fv2, t),
        forall|w: Seq<char>| w != t ==> tbl_get(fv1, w) == tbl_get(fv2, w),
        selection_of(out1, fv1, m),
        selection_of(out2, fv2, m),
        tbl_keys_unique(out1),
        tbl_keys_unique(out2),
        tbl_contains(out1, t),
    ensures
        tbl_contains(out2, t),
{
    broadcast use vstd::set::group_set_axioms;
    broadcast use vstd::seq_lib::seq_to_set_is_finite;

    if !tbl_contains(out2, t) {
        let n = out1.len();
        assert(out2.len() == n);
        // the entry `t` holds in out1, and hence in fv1
        let i1 = choose|i: int| 0 <= i < out1.len() && out1[i].0 == t;
        let e1t = out1[i1];
        out1.to_multiset_ensures();
        assert(out1.contains(e1t));
        assert(out1.to_multiset().count(e1t) > 0);
        assert(fv1.to_multiset().count(e1t) > 0);
        fv1.to_multiset_ensures();
        assert(fv1.contains(e1t));
        let j1 = choose|j: int| 0 <= j < fv1.len() && fv1[j] == e1t;
        lemma_tbl_get_at(fv1, j1);
        assert(e1t.1 == tbl_get(fv1, t));
        // `t`'s entry in fv2 was left behind by out2
        assert(tbl_contains(fv1, t));
        let j2 = choose|j: int| 0 <= j < fv2.len() && fv2[j].0 == t;
        lemma_tbl_get_at(fv2, j2);
        let e2t = fv2[j2];
        assert(e2t.1 == tbl_get(fv2, t));
        fv2.to_multiset_ensures();
        assert(fv2.contains(e2t));
        assert(fv2.to_multiset().count(e2t) > 0);
        out2.to_multiset_ensures();
        if out2.to_multiset().count(e2t) > 0 {
            assert(out2.contains(e2t));
            let x = choose|x: int| 0 <= x < out2.len() && out2[x] == e2t;
            assert(out2[x].0 == t);
        }
        assert(out2.to_multiset().count(e2t) == 0);
        assert(fv2.to_multiset().sub(out2.to_multiset()).count(e2t) > 0);
        // every kept entry of out2 is also an fv1 entry, is not `t`, and
        // orders no later than `t`'s fv1 entry
        assert forall|x: int|
            0 <= x < out2.len() implies fv1.contains(out2[x]) && entry_before(out2[x], e1t)
            && out2[x].0 != t by {
            let e = out2[x];
            out2.to_multiset_ensures();
            assert(out2.contains(e));
            assert(out2.to_multiset().count(e) > 0);
            assert(fv2.to_multiset().count(e) > 0);
            fv2.to_multiset_ensures();
            assert(fv2.contains(e));
            let y = choose|y: int| 0 <= y < fv2.len() && fv2[y] == e;
            lemma_tbl_get_at(fv2, y);
            assert(e.1 == tbl_get(fv2, e.0));
            assert(e.0 != t);
            assert(tbl_contains(fv2, e.0));
            let z = choose|z: int| 0 <= z < fv1.len() && fv1[z].0 == e.0;
            lemma_tbl_get_at(fv1, z);
            assert(fv1[z].1 == tbl_get(fv1, e.0));
            assert(fv1[z] == e);
            assert(fv1.contains(e));
            assert(entry_before(e, e2t));
        }
        // out2 holds n distinct terms, none of them t; out1 holds only
        // n - 1 terms besides t, so some kept term of out2 was left
        // behind by out1
        let l1 = out1.map_values(|e: (Seq<char>, usize)| e.0);
        let l2 = out2.map_values(|e: (Seq<char>, usize)| e.0);
        assert(l1.no_duplicates());
        assert(l2.no_duplicates());
        l1.unique_seq_to_set();
        l2.unique_seq_to_set();
        assert(l1[i1] == t);
        assert(l1.contains(t));
        assert(l1.to_set().contains(t));
        if forall|x: int| 0 <= x < out2.len() ==> l1.to_set().contains(#[trigger] l2[x]) {
            assert forall|w: Seq<char>| l2.to_set().contains(w) implies l1.to_set().remove(
                t,
            ).contains(w) by {
                assert(l2.contains(w));
                let x = choose|x: int| 0 <= x < l2.len() && l2[x] == w;
                assert(l1.to_set().contains(l2[x]));
                assert(out2[x].0 != t);
            }
            assert(l2.to_set().subset_of(l1.to_set().remove(t)));
            lemma_len_subset(l2.to_set(), l1.to_set().remove(t));
            assert(l1.to_set().remove(t).len() == n - 1);
            assert(l2.to_set().len() == n);
            assert(false);
        }
        let x = choose|x: int| 0 <= x < out2.len() && !l1.to_set().contains(#[trigger] l2[x]);
        let es = out2[x];
        assert(l2[x] == es.0);
        // es was left behind by out1, so t's entry orders before it
        out1.to_multiset_ensures();
        if out1.to_multiset().count(es) > 0 {
            assert(out1.contains(es));
            let y = choose|y: int| 0 <= y < out1.len() && out1[y] == es;
            assert(l1[y] == es.0);
            assert(l1.contains(es.0));
            assert(l1.to_set().contains(es.0));
        }
        assert(out1.to_multiset().count(es) == 0);
        assert(fv1.to_multiset().count(es) > 0);
        assert(fv1.to_multiset().sub(out1.to_multiset()).count(es) > 0);
        assert(entry_before(e1t, es));
        // but es also orders before t's entry: the order's antisymmetry
        // on distinct terms closes the contradiction
        assert(entry_before(es, e1t));
        lemma_lex_total(es.0, e1t.0);
        assert(false);
    }
}

/// The set of terms ranked strictly above `t`: more frequent, or equally
/// frequent and earlier in term-text order.
pub open spec fn ranked_above(f: Map<Seq<char>, nat>, t: Seq<char>) -> Set<Seq<char>> {
    Set::new(
        |u: Seq<char>|
            f.dom().contains(u) && u != t && (f[u] > f[t] || (f[u] == f[t] && lex_lt(u, t))),
    )
}

/// A term's rank: how many terms are ordered strictly above it.
pub open spec fn rank(f: Map<Seq<char>, nat>, t: Seq<char>) -> nat {
    ranked_above(f, t).len()
}

/// Raising one term's frequency while every other count stays fixed never
/// pushes that term down: its rank — the number of terms ordered strictly
/// above it — can only shrink or stay the same.
pub proof fn lemma_rank_monotone(f1: Map<Seq<char>, nat>, f2: Map<Seq<char>, nat>, t: Seq<char>)
    requires
        f1.dom().finite(),
        f2.dom() == f1.dom(),
        f1.dom().contains(t),
        f1[t] <= f2[t],
        forall|u: Seq<char>| f1.dom().contains(u) && u != t ==> f2[u] == f1[u],
    ensures
        rank(f2, t) <= rank(f1, t),
{
    assert(ranked_above(f1, t).subset_of(f1.dom()));
    lemma_len_subset(ranked_above(f1, t), f1.dom());
    assert forall|u: Seq<char>| ranked_above(f2, t).contains(u) implies ranked_above(
        f1,
        t,
    ).contains(u) by {
        assert(f2[u] == f1[u]);
        if f2[u] > f2[t] {
            assert(f1[u] > f1[t]);
        }
    }
    assert(ranked_above(f2, t).subset_of(ranked_above(f1, t)));
    lemma_len_subset(ranked_above(f2, t), ranked_above(f1, t));
}

} // verus!
