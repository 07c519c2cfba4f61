//! A small association table: a sequence of key/count entries with
//! unique keys, and the lemmas that relate lookup to update, insertion
//! and absence.
use vstd::prelude::*;

verus! {

/// The count the table holds for key `w`; 0 when `w` is absent.
pub open spec fn tbl_get<K>(t: Seq<(K, usize)>, w: K) -> nat
    decreases t.len(),
{
    if t.len() == 0 {
        0
    } else if t[0].0 == w {
        t[0].1 as nat
    } else {
        tbl_get(t.skip(1), w)
    }
}

/// Whether the table holds an entry for `w`.
pub open spec fn tbl_contains<K>(t: Seq<(K, usize)>, w: K) -> bool {
    exists|i: int| 0 <= i < t.len() && t[i].0 == w
}

/// No key occurs twice in the table.
pub open spec fn tbl_keys_unique<K>(t: Seq<(K, usize)>) -> bool {
    forall|i: int, j: int| 0 <= i < j < t.len() ==> t[i].0 != t[j].0
}

/// Every entry counts at least one occurrence.
pub open spec fn tbl_all_pos<K>(t: Seq<(K, usize)>) -> bool {
    forall|i: int| 0 <= i < t.len() ==> t[i].1 >= 1
}

/// With unique keys, the entry at `i` is what lookup finds.
pub proof fn lemma_tbl_get_at<K>(t: Seq<(K, usize)>, i: int)
    requires
        tbl_keys_unique(t),
        0 <= i < t.len(),
    ensures
        tbl_get(t, t[i].0) == t[i].1,
    decreases i,
{
    if i > 0 {
        assert(t[0].0 != t[i].0);
        assert forall|a: int, b: int| 0 <= a < b < t.skip(1).len() implies t.skip(1)[a].0 != t.skip(
            1,
        )[b].0 by {
            assert(t.skip(1)[a] == t[a + 1]);
            assert(t.skip(1)[b] == t[b + 1]);
        }
        lemma_tbl_get_at(t.skip(1), i - 1);
        assert(t.skip(1)[i - 1] == t[i]);
    }
}

pub proof fn lemma_tbl_update<K>(t: Seq<(K, usize)>, i: int, c: usize)
    requires
        0 <= i < t.len(),
        forall|j: int| 0 <= j < i ==> t[j].0 != t[i].0,
    ensures
        tbl_get(t.update(i, (t[i].0, c)), t[i].0) == c as nat,
        forall|u: K| u != t[i].0 ==> tbl_get(t.update(i, (t[i].0, c)), u) == tbl_get(t, u),
    decreases i,
{
    let t2 = t.update(i, (t[i].0, c));
    if i == 0 {
        assert(t2[0] == (t[0].0, c));
        assert(t2.skip(1) =~= t.skip(1));
        assert forall|u: K| u != t[i].0 implies tbl_get(t2, u) == tbl_get(t, u) by {
            assert(tbl_get(t2, u) == tbl_get(t2.skip(1), u));
            assert(tbl_get(t, u) == tbl_get(t.skip(1), u));
        }
    } else {
        assert(t2[0] == t[0]);
        assert(t[0].0 != t[i].0);
        let ts = t.skip(1);
        assert(ts[i - 1] == t[i]);
        assert(t2.skip(1) =~= ts.update(i - 1, (ts[i - 1].0, c)));
        assert forall|j: int| 0 <= j < i - 1 implies #[trigger] ts[j].0 != ts[i - 1].0 by {
            assert(ts[j] == t[j + 1]);
        }
        lemma_tbl_update(ts, i - 1, c);
        assert(tbl_get(t2, t[i].0) == tbl_get(ts.update(i - 1, (ts[i - 1].0, c)), t[i].0));
        assert forall|u: K| u != t[i].0 implies tbl_get(t2, u) == tbl_get(t, u) by {
            if t2[0].0 != u {
                assert(tbl_get(t2, u) == tbl_get(ts.update(i - 1, (ts[i - 1].0, c)), u));
                assert(tbl_get(t, u) == tbl_get(ts, u));
            }
        }
    }
}

/// A key with a positive count has an entry.
pub proof fn lemma_tbl_present<K>(t: Seq<(K, usize)>, w: K)
    requires
        tbl_get(t, w) > 0,
    ensures
        tbl_contains(t, w),
    decreases t.len(),
{
    if t.len() > 0 && t[0].0 != w {
        lemma_tbl_present(t.skip(1), w);
        let j = choose|j: int| 0 <= j < t.skip(1).len() && t.skip(1)[j].0 == w;
        assert(t[j + 1].0 == w);
    }
}

pub proof fn lemma_tbl_absent<K>(t: Seq<(K, usize)>, w: K)
    requires
        !tbl_contains(t, w),
    ensures
        tbl_get(t, w) == 0,
    decreases t.len(),
{
    if t.len() > 0 {
        assert(t[0].0 != w);
        assert forall|j: int| 0 <= j < t.skip(1).len() implies #[trigger] t.skip(1)[j].0 != w by {
            assert(t.skip(1)[j] == t[j + 1]);
        }
        lemma_tbl_absent(t.skip(1), w);
    }
}

pub proof fn lemma_tbl_push<K>(t: Seq<(K, usize)>, e: (K, usize))
    requires
        !tbl_contains(t, e.0),
    ensures
        tbl_get(t.push(e), e.0) == e.1 as nat,
        forall|u: K| u != e.0 ==> tbl_get(t.push(e), u) == tbl_get(t, u),
    decreases t.len(),
{
    if t.len() == 0 {
        assert(t.push(e)[0] == e);
        assert(t.push(e).skip(1) =~= Seq::<(K, usize)>::empty());
        assert forall|u: K| u != e.0 implies tbl_get(t.push(e), u) == tbl_get(t, u) by {
            assert(tbl_get(t.push(e), u) == tbl_get(t.push(e).skip(1), u));
        }
    } else {
        assert(t.push(e)[0] == t[0]);
        assert(t.push(e).skip(1) =~= t.skip(1).push(e));
        assert(t[0].0 != e.0);
        assert forall|j: int| 0 <= j < t.skip(1).len() implies #[trigger] t.skip(1)[j].0 != e.0 by {
            assert(t.skip(1)[j] == t[j + 1]);
        }
        lemma_tbl_push(t.skip(1), e);
        assert(tbl_get(t.push(e), e.0) == tbl_get(t.skip(1).push(e), e.0));
        assert forall|u: K| u != e.0 implies tbl_get(t.push(e), u) == tbl_get(t, u) by {
            if t[0].0 != u {
                assert(tbl_get(t.push(e), u) == tbl_get(t.skip(1).push(e), u));
                assert(tbl_get(t, u) == tbl_get(t.skip(1), u));
            }
        }
    }
}

} // verus!
