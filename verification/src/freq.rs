//! Global term-frequency accounting: one pass over all token streams,
//! kept as an association list with unique keys.
use vstd::prelude::*;
use crate::table::tbl_get;
use crate::table::tbl_contains;
use crate::table::tbl_keys_unique;
use crate::table::tbl_all_pos;
use crate::table::lemma_tbl_get_at;
use crate::table::lemma_tbl_update;
use crate::table::lemma_tbl_absent;
use crate::table::lemma_tbl_push;

verus! {

/// Number of occurrences of `w` in one token stream.
pub open spec fn count_in(doc: Seq<Seq<char>>, w: Seq<char>) -> nat
    decreases doc.len(),
{
    if doc.len() == 0 {
        0
    } else {
        (if doc[0] == w {
            1nat
        } else {
            0nat
        }) + count_in(doc.skip(1), w)
    }
}

/// Total occurrences of `w` across all token streams.
pub open spec fn total_count(docs: Seq<Seq<Seq<char>>>, w: Seq<char>) -> nat
    decreases docs.len(),
{
    if docs.len() == 0 {
        0
    } else {
        count_in(docs[0], w) + total_count(docs.skip(1), w)
    }
}

/// Combined length of all token streams.
pub open spec fn total_len(docs: Seq<Seq<Seq<char>>>) -> nat
    decreases docs.len(),
{
    if docs.len() == 0 {
        0
    } else {
        docs[0].len() + total_len(docs.skip(1))
    }
}

pub proof fn lemma_count_in_le(doc: Seq<Seq<char>>, w: Seq<char>)
    ensures
        count_in(doc, w) <= doc.len(),
    decreases doc.len(),
{
    if doc.len() > 0 {
        lemma_count_in_le(doc.skip(1), w);
    }
}

pub proof fn lemma_total_count_le(docs: Seq<Seq<Seq<char>>>, w: Seq<char>)
    ensures
        total_count(docs, w) <= total_len(docs),
    decreases docs.len(),
{
    if docs.len() > 0 {
        lemma_count_in_le(docs[0], w);
        lemma_total_count_le(docs.skip(1), w);
    }
}

/// Adds one occurrence of `w` to the table, inserting the term if absent.
fn bump(t: &mut Vec<(String, usize)>, w: &String)
    requires
        tbl_keys_unique(old(t).deep_view()),
        tbl_all_pos(old(t).deep_view()),
        tbl_get(old(t).deep_view(), w@) < usize::MAX,
    ensures
        tbl_keys_unique(final(t).deep_view()),
        tbl_all_pos(final(t).deep_view()),
        tbl_get(final(t).deep_view(), w@) == tbl_get(old(t).deep_view(), w@) + 1,
        forall|u: Seq<char>|
            u != w@ ==> tbl_get(final(t).deep_view(), u) == tbl_get(old(t).deep_view(), u),
{
    let ghost t0 = t.deep_view();
    let mut i: usize = 0;
    while i < t.len()
        invariant
            t0 == t.deep_view(),
            t0 == old(t).deep_view(),
            tbl_keys_unique(t0),
            tbl_all_pos(t0),
            tbl_get(t0, w@) < usize::MAX,
            i <= t.len(),
            forall|j: int| 0 <= j < i ==> t0[j].0 != w@,
        decreases t.len() - i,
    {
        if t[i].0.eq(w) {
            proof {
                assert(t0[i as int].0 == w@);
                lemma_tbl_get_at(t0, i as int);
            }
            let c = t[i].1;
            let lab = t[i].0.clone();
            t[i] = (lab, c + 1);
            proof {
                assert(t.deep_view() =~= t0.update(i as int, (t0[i as int].0, (c + 1) as usize)));
                lemma_tbl_update(t0, i as int, (c + 1) as usize);
                assert forall|a: int, b: int|
                    0 <= a < b < t.deep_view().len() implies t.deep_view()[a].0
                    != t.deep_view()[b].0 by {
                    assert(t.deep_view()[a].0 == t0[a].0);
                    assert(t.deep_view()[b].0 == t0[b].0);
                }
            }
            return ;
        }
        i = i + 1;
    }
    proof {
        assert(!tbl_contains(t0, w@));
        lemma_tbl_absent(t0, w@);
        lemma_tbl_push(t0, (w@, 1usize));
    }
    t.push((w.clone(), 1));
    proof {
        assert(t.deep_view() =~= t0.push((w@, 1usize)));
        assert forall|a: int, b: int| 0 <= a < b < t.deep_view().len() implies t.deep_view()[a].0
            != t.deep_view()[b].0 by {
            if b < t0.len() {
                assert(t.deep_view()[a].0 == t0[a].0);
                assert(t.deep_view()[b].0 == t0[b].0);
            } else {
                assert(t.deep_view()[b].0 == w@);
                assert(t.deep_view()[a].0 == t0[a].0);
            }
        }
    }
}

/// Sums each term's occurrences across all documents. Every term that
/// occurs anywhere gets exactly one entry holding its total count; no
/// entry has a zero count.
pub fn count_frequencies(docs: &Vec<Vec<String>>) -> (r: Vec<(String, usize)>)
    requires
        total_len(docs.deep_view()) <= usize::MAX,
    ensures
        tbl_keys_unique(r.deep_view()),
        forall|w: Seq<char>| tbl_get(r.deep_view(), w) == total_count(docs.deep_view(), w),
        tbl_all_pos(r.deep_view()),
{
    let ghost dv = docs.deep_view();
    let mut t: Vec<(String, usize)> = Vec::new();
    let mut d: usize = 0;
    proof {
        assert(t.deep_view() =~= Seq::<(Seq<char>, usize)>::empty());
        assert(dv.skip(0) =~= dv);
    }
    while d < docs.len()
        invariant
            dv == docs.deep_view(),
            d <= docs.len(),
            tbl_keys_unique(t.deep_view()),
            forall|w: Seq<char>|
                tbl_get(t.deep_view(), w) + total_count(dv.skip(d as int), w) == total_count(
                    dv,
                    w,
                ),
            tbl_all_pos(t.deep_view()),
            total_len(dv) <= usize::MAX,
        decreases docs.len() - d,
    {
        let doc = &docs[d];
        let ghost dsv = dv[d as int];
        proof {
            assert(dsv =~= doc.deep_view());
        }
        let mut k: usize = 0;
        proof {
            assert(dsv.skip(0) =~= dsv);
            assert(dv.skip(d as int)[0] == dv[d as int]);
            assert(dv.skip(d as int).skip(1) =~= dv.skip(d as int + 1));
            assert forall|w: Seq<char>|
                tbl_get(t.deep_view(), w) + count_in(dsv.skip(0), w) + total_count(
                    dv.skip(d as int + 1),
                    w,
                ) == total_count(dv, w) by {
                assert(total_count(dv.skip(d as int), w) == count_in(dv[d as int], w)
                    + total_count(dv.skip(d as int + 1), w));
            }
        }
        while k < doc.len()
            invariant
                dv == docs.deep_view(),
                d < docs.len(),
                dsv == dv[d as int],
                dsv == doc.deep_view(),
                doc == &docs@[d as int],
                k <= doc.len(),
                dsv.len() == doc.len(),
                tbl_keys_unique(t.deep_view()),
                forall|w: Seq<char>|
                    tbl_get(t.deep_view(), w) + count_in(dsv.skip(k as int), w) + total_count(
                        dv.skip(d as int + 1),
                        w,
                    ) == total_count(dv, w),
                tbl_all_pos(t.deep_view()),
                total_len(dv) <= usize::MAX,
            decreases doc.len() - k,
        {
            let w = &doc[k];
            proof {
                assert(w@ == dsv[k as int]);
                assert(count_in(dsv.skip(k as int), w@) >= 1) by {
                    assert(dsv.skip(k as int)[0] == w@);
                }
                lemma_total_count_le(dv, w@);
                assert(tbl_get(t.deep_view(), w@) < usize::MAX);
            }
            let ghost tprev = t.deep_view();
            bump(&mut t, w);
            proof {
                assert forall|u: Seq<char>|
                    tbl_get(t.deep_view(), u) + count_in(dsv.skip(k as int + 1), u) + total_count(
                        dv.skip(d as int + 1),
                        u,
                    ) == total_count(dv, u) by {
                    assert(dsv.skip(k as int).skip(1) =~= dsv.skip(k as int + 1));
                    assert(count_in(dsv.skip(k as int), u) == (if dsv.skip(k as int)[0] == u {
                        1nat
                    } else {
                        0nat
                    }) + count_in(dsv.skip(k as int + 1), u));
                }
            }
            k = k + 1;
        }
        proof {
            assert(dsv.skip(k as int) =~= Seq::<Seq<char>>::empty());
            assert forall|w: Seq<char>|
                tbl_get(t.deep_view(), w) + total_count(dv.skip(d as int + 1), w) == total_count(
                    dv,
                    w,
                ) by {
                assert(count_in(Seq::<Seq<char>>::empty(), w) == 0);
            }
        }
        d = d + 1;
    }
    proof {
        assert(dv.skip(d as int) =~= Seq::<Seq<Seq<char>>>::empty());
        assert forall|w: Seq<char>| tbl_get(t.deep_view(), w) == total_count(dv, w) by {
            assert(total_count(Seq::<Seq<Seq<char>>>::empty(), w) == 0);
        }
    }
    t
}

} // verus!
