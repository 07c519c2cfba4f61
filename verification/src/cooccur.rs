//! Windowed co-occurrence accounting: each document's token stream is
//! mapped to the subsequence of vocabulary ids, per-term occurrences are
//! counted, and every ordered pair of distinct ids within the sliding
//! window adds one to the unordered pair's weight.
use vstd::prelude::*;
use crate::freq::total_len;
use crate::table::tbl_get;
use crate::table::tbl_contains;
use crate::table::tbl_keys_unique;
use crate::table::tbl_all_pos;
use crate::table::lemma_tbl_get_at;
use crate::table::lemma_tbl_update;
use crate::table::lemma_tbl_absent;
use crate::table::lemma_tbl_push;

verus! {

/// Index of the first vocabulary entry labelled `w`.
pub open spec fn label_index(vs: Seq<(Seq<char>, usize)>, w: Seq<char>) -> Option<usize>
    decreases vs.len(),
{
    if vs.len() == 0 {
        None
    } else if vs[0].0 == w {
        Some(0usize)
    } else {
        match label_index(vs.skip(1), w) {
            Some(i) => Some((i + 1) as usize),
            None => None,
        }
    }
}

proof fn lemma_label_index_bounds(vs: Seq<(Seq<char>, usize)>, w: Seq<char>)
    requires
        vs.len() <= usize::MAX,
    ensures
        match label_index(vs, w) {
            Some(i) => i < vs.len() && vs[i as int].0 == w,
            None => forall|j: int| 0 <= j < vs.len() ==> vs[j].0 != w,
        },
    decreases vs.len(),
{
    if vs.len() > 0 && vs[0].0 != w {
        lemma_label_index_bounds(vs.skip(1), w);
        match label_index(vs.skip(1), w) {
            Some(i) => {
                assert(vs.skip(1)[i as int] == vs[i as int + 1]);
            },
            None => {
                assert forall|j: int| 0 <= j < vs.len() implies vs[j].0 != w by {
                    if j > 0 {
                        assert(vs.skip(1)[j - 1] == vs[j]);
                    }
                }
            },
        }
    }
}

proof fn lemma_label_index_found(vs: Seq<(Seq<char>, usize)>, w: Seq<char>, i: int)
    requires
        vs.len() <= usize::MAX,
        0 <= i < vs.len(),
        vs[i].0 == w,
        forall|j: int| 0 <= j < i ==> vs[j].0 != w,
    ensures
        label_index(vs, w) == Some(i as usize),
    decreases i,
{
    if i > 0 {
        assert(vs[0].0 != w);
        assert forall|j: int| 0 <= j < i - 1 implies vs.skip(1)[j].0 != w by {
            assert(vs.skip(1)[j] == vs[j + 1]);
        }
        assert(vs.skip(1)[i - 1] == vs[i]);
        lemma_label_index_found(vs.skip(1), w, i - 1);
    }
}

proof fn lemma_label_index_missing(vs: Seq<(Seq<char>, usize)>, w: Seq<char>)
    requires
        forall|j: int| 0 <= j < vs.len() ==> vs[j].0 != w,
    ensures
        label_index(vs, w) is None,
    decreases vs.len(),
{
    if vs.len() > 0 {
        assert forall|j: int| 0 <= j < vs.skip(1).len() implies #[trigger] vs.skip(1)[j].0
            != w by {
            assert(vs.skip(1)[j] == vs[j + 1]);
        }
        lemma_label_index_missing(vs.skip(1), w);
    }
}

/// The vocabulary-id stream of a document: each in-vocabulary term maps
/// to its id, terms outside the vocabulary are dropped without a gap.
pub open spec fn vocab_ids(vs: Seq<(Seq<char>, usize)>, doc: Seq<Seq<char>>) -> Seq<usize>
    decreases doc.len(),
{
    if doc.len() == 0 {
        Seq::empty()
    } else {
        let rest = vocab_ids(vs, doc.skip(1));
        match label_index(vs, doc[0]) {
            Some(i) => seq![i] + rest,
            None => rest,
        }
    }
}

proof fn lemma_vocab_ids_len(vs: Seq<(Seq<char>, usize)>, doc: Seq<Seq<char>>)
    ensures
        vocab_ids(vs, doc).len() <= doc.len(),
    decreases doc.len(),
{
    if doc.len() > 0 {
        lemma_vocab_ids_len(vs, doc.skip(1));
    }
}

/// The id streams of all documents.
pub open spec fn corpus_ids(vs: Seq<(Seq<char>, usize)>, dvs: Seq<Seq<Seq<char>>>) -> Seq<
    Seq<usize>,
> {
    dvs.map_values(|d: Seq<Seq<char>>| vocab_ids(vs, d))
}

/// Occurrences of id `a` in `ids` from position `i` on.
pub open spec fn occ_from(ids: Seq<usize>, i: int, a: usize) -> nat
    decreases ids.len() - i,
{
    if i < 0 || i >= ids.len() {
        0
    } else {
        (if ids[i] == a {
            1nat
        } else {
            0nat
        }) + occ_from(ids, i + 1, a)
    }
}

/// Occurrences of id `a` over all id streams.
pub open spec fn corpus_occ(idss: Seq<Seq<usize>>, a: usize) -> nat
    decreases idss.len(),
{
    if idss.len() == 0 {
        0
    } else {
        occ_from(idss[0], 0, a) + corpus_occ(idss.skip(1), a)
    }
}

/// Combined length of all id streams.
pub open spec fn ids_total(idss: Seq<Seq<usize>>) -> nat
    decreases idss.len(),
{
    if idss.len() == 0 {
        0
    } else {
        idss[0].len() + ids_total(idss.skip(1))
    }
}

/// One past the last window position for a pair scan starting at `i`.
pub open spec fn win_end(ids: Seq<usize>, i: int, window: nat) -> int {
    if i + window < ids.len() {
        i + window
    } else {
        ids.len() as int
    }
}

/// Whether the ordered occurrence `(a, b)` is an occurrence of the
/// unordered pair `{u, v}`.
pub open spec fn pair_matches(a: usize, b: usize, u: usize, v: usize) -> bool {
    (a == u && b == v) || (a == v && b == u)
}

/// Pair occurrences of `{u, v}` anchored at position `i`, counting
/// partners from position `j` to the end of the window.
pub open spec fn win_count(ids: Seq<usize>, i: int, j: int, window: nat, u: usize, v: usize) -> nat
    decreases win_end(ids, i, window) - j,
{
    if j >= win_end(ids, i, window) {
        0
    } else {
        (if pair_matches(ids[i], ids[j], u, v) {
            1nat
        } else {
            0nat
        }) + win_count(ids, i, j + 1, window, u, v)
    }
}

/// Pair occurrences of `{u, v}` in one id stream from position `i` on.
pub open spec fn doc_pairs(ids: Seq<usize>, i: int, window: nat, u: usize, v: usize) -> nat
    decreases ids.len() - i,
{
    if i < 0 || i >= ids.len() {
        0
    } else {
        win_count(ids, i, i + 1, window, u, v) + doc_pairs(ids, i + 1, window, u, v)
    }
}

/// Pair occurrences of `{u, v}` over all id streams.
pub open spec fn corpus_pairs(idss: Seq<Seq<usize>>, window: nat, u: usize, v: usize) -> nat
    decreases idss.len(),
{
    if idss.len() == 0 {
        0
    } else {
        doc_pairs(idss[0], 0, window, u, v) + corpus_pairs(idss.skip(1), window, u, v)
    }
}

proof fn lemma_occ_le(ids: Seq<usize>, i: int, a: usize)
    requires
        0 <= i <= ids.len(),
    ensures
        occ_from(ids, i, a) <= ids.len() - i,
    decreases ids.len() - i,
{
    if i < ids.len() {
        lemma_occ_le(ids, i + 1, a);
    }
}

proof fn lemma_corpus_occ_le(idss: Seq<Seq<usize>>, a: usize)
    ensures
        corpus_occ(idss, a) <= ids_total(idss),
    decreases idss.len(),
{
    if idss.len() > 0 {
        lemma_occ_le(idss[0], 0, a);
        lemma_corpus_occ_le(idss.skip(1), a);
    }
}

proof fn lemma_win_count_le(ids: Seq<usize>, i: int, j: int, window: nat, u: usize, v: usize)
    requires
        j <= win_end(ids, i, window),
    ensures
        win_count(ids, i, j, window, u, v) <= win_end(ids, i, window) - j,
    decreases win_end(ids, i, window) - j,
{
    if j < win_end(ids, i, window) {
        lemma_win_count_le(ids, i, j + 1, window, u, v);
    }
}

proof fn lemma_doc_pairs_le(ids: Seq<usize>, i: int, window: nat, u: usize, v: usize)
    requires
        0 <= i <= ids.len(),
    ensures
        doc_pairs(ids, i, window, u, v) <= (ids.len() - i) * window,
    decreases ids.len() - i,
{
    if i < ids.len() {
        lemma_doc_pairs_le(ids, i + 1, window, u, v);
        if i + 1 <= win_end(ids, i, window) {
            lemma_win_count_le(ids, i, i + 1, window, u, v);
            assert(win_end(ids, i, window) - (i + 1) < window);
        } else {
            assert(win_count(ids, i, i + 1, window, u, v) == 0);
        }
        assert((ids.len() - i) * window == window + (ids.len() - i - 1) * window)
            by (nonlinear_arith);
    }
}

proof fn lemma_corpus_pairs_le(idss: Seq<Seq<usize>>, window: nat, u: usize, v: usize)
    ensures
        corpus_pairs(idss, window, u, v) <= ids_total(idss) * window,
    decreases idss.len(),
{
    if idss.len() > 0 {
        lemma_doc_pairs_le(idss[0], 0, window, u, v);
        lemma_corpus_pairs_le(idss.skip(1), window, u, v);
        assert((idss[0].len() + ids_total(idss.skip(1))) * window == idss[0].len() * window
            + ids_total(idss.skip(1)) * window) by (nonlinear_arith);
    }
}

proof fn lemma_ids_total_le(vs: Seq<(Seq<char>, usize)>, dvs: Seq<Seq<Seq<char>>>)
    ensures
        ids_total(corpus_ids(vs, dvs)) <= total_len(dvs),
    decreases dvs.len(),
{
    if dvs.len() > 0 {
        assert(corpus_ids(vs, dvs)[0] == vocab_ids(vs, dvs[0]));
        assert(corpus_ids(vs, dvs).skip(1) =~= corpus_ids(vs, dvs.skip(1)));
        lemma_vocab_ids_len(vs, dvs[0]);
        lemma_ids_total_le(vs, dvs.skip(1));
    }
}

proof fn lemma_win_count_sym(ids: Seq<usize>, i: int, j: int, window: nat, u: usize, v: usize)
    ensures
        win_count(ids, i, j, window, u, v) == win_count(ids, i, j, window, v, u),
    decreases win_end(ids, i, window) - j,
{
    if j < win_end(ids, i, window) {
        lemma_win_count_sym(ids, i, j + 1, window, u, v);
    }
}

proof fn lemma_doc_pairs_sym(ids: Seq<usize>, i: int, window: nat, u: usize, v: usize)
    ensures
        doc_pairs(ids, i, window, u, v) == doc_pairs(ids, i, window, v, u),
    decreases ids.len() - i,
{
    if 0 <= i < ids.len() {
        lemma_win_count_sym(ids, i, i + 1, window, u, v);
        lemma_doc_pairs_sym(ids, i + 1, window, u, v);
    }
}

/// Co-occurrence is symmetric: the accumulated weight of two terms does
/// not depend on which one is encountered first — the count of the
/// unordered pair `{u, v}` equals the count of `{v, u}`.
pub proof fn lemma_cooccurrence_symmetric(
    idss: Seq<Seq<usize>>,
    window: nat,
    u: usize,
    v: usize,
)
    ensures
        corpus_pairs(idss, window, u, v) == corpus_pairs(idss, window, v, u),
    decreases idss.len(),
{
    if idss.len() > 0 {
        lemma_doc_pairs_sym(idss[0], 0, window, u, v);
        lemma_cooccurrence_symmetric(idss.skip(1), window, u, v);
    }
}


/// Looks up a term's vocabulary id: the index of its entry, if any.
fn find_label(vocab: &Vec<(String, usize)>, w: &String) -> (r: Option<usize>)
    ensures
        r == label_index(vocab.deep_view(), w@),
{
    let ghost vs = vocab.deep_view();
    let mut i: usize = 0;
    while i < vocab.len()
        invariant
            vs == vocab.deep_view(),
            i <= vocab.len(),
            vs.len() == vocab.len(),
            forall|j: int| 0 <= j < i ==> vs[j].0 != w@,
        decreases vocab.len() - i,
    {
        if vocab[i].0.eq(w) {
            proof {
                assert(vs[i as int].0 == w@);
                lemma_label_index_found(vs, w@, i as int);
            }
            return Some(i);
        }
        i = i + 1;
    }
    proof {
        lemma_label_index_missing(vs, w@);
    }
    None
}

/// Maps one token stream to its vocabulary-id stream.
fn doc_ids(vocab: &Vec<(String, usize)>, doc: &Vec<String>) -> (r: Vec<usize>)
    ensures
        r@ == vocab_ids(vocab.deep_view(), doc.deep_view()),
        forall|k: int| 0 <= k < r@.len() ==> r@[k] < vocab@.len(),
{
    let ghost vs = vocab.deep_view();
    let ghost dv = doc.deep_view();
    let mut out: Vec<usize> = Vec::new();
    let mut k: usize = 0;
    proof {
        assert(dv.skip(0) =~= dv);
        assert(out@ + vocab_ids(vs, dv) =~= vocab_ids(vs, dv));
    }
    while k < doc.len()
        invariant
            vs == vocab.deep_view(),
            dv == doc.deep_view(),
            vs.len() == vocab.len(),
            k <= doc.len(),
            dv.len() == doc.len(),
            vocab_ids(vs, dv) == out@ + vocab_ids(vs, dv.skip(k as int)),
            forall|t: int| 0 <= t < out@.len() ==> out@[t] < vs.len(),
        decreases doc.len() - k,
    {
        proof {
            assert(dv.skip(k as int)[0] == dv[k as int]);
            assert(dv.skip(k as int).skip(1) =~= dv.skip(k as int + 1));
            assert(dv[k as int] == doc@[k as int]@);
        }
        let idr = find_label(vocab, &doc[k]);
        let ghost outp = out@;
        match idr {
            Some(id) => {
                proof {
                    lemma_label_index_bounds(vs, dv[k as int]);
                    assert(vocab_ids(vs, dv.skip(k as int)) == seq![id] + vocab_ids(
                        vs,
                        dv.skip(k as int + 1),
                    ));
                }
                out.push(id);
                proof {
                    assert(out@ =~= outp + seq![id]);
                    assert(outp + (seq![id] + vocab_ids(vs, dv.skip(k as int + 1))) =~= out@
                        + vocab_ids(vs, dv.skip(k as int + 1)));
                }
            },
            None => {
                proof {
                    assert(vocab_ids(vs, dv.skip(k as int)) == vocab_ids(
                        vs,
                        dv.skip(k as int + 1),
                    ));
                }
            },
        }
        k = k + 1;
    }
    proof {
        assert(dv.skip(k as int) =~= Seq::<Seq<char>>::empty());
        assert(out@ + Seq::<usize>::empty() =~= out@);
    }
    out
}

/// Adds one co-occurrence of the normalized pair `(u, v)` to the table.
fn bump_pair(t: &mut Vec<((usize, usize), usize)>, u: usize, v: usize)
    requires
        tbl_keys_unique(old(t)@),
        tbl_all_pos(old(t)@),
        tbl_get(old(t)@, (u, v)) < usize::MAX,
    ensures
        tbl_keys_unique(final(t)@),
        tbl_all_pos(final(t)@),
        tbl_get(final(t)@, (u, v)) == tbl_get(old(t)@, (u, v)) + 1,
        forall|p: (usize, usize)| p != (u, v) ==> tbl_get(final(t)@, p) == tbl_get(old(t)@, p),
        final(t)@.len() == old(t)@.len() || final(t)@.len() == old(t)@.len() + 1,
        forall|i: int| 0 <= i < old(t)@.len() ==> final(t)@[i].0 == old(t)@[i].0,
        final(t)@.len() == old(t)@.len() + 1 ==> final(t)@[old(t)@.len() as int].0 == (u, v),
{
    let ghost t0 = t@;
    let mut i: usize = 0;
    while i < t.len()
        invariant
            t0 == t@,
            t0 == old(t)@,
            tbl_keys_unique(t0),
            tbl_all_pos(t0),
            tbl_get(t0, (u, v)) < usize::MAX,
            i <= t.len(),
            forall|j: int| 0 <= j < i ==> t0[j].0 != (u, v),
        decreases t.len() - i,
    {
        if t[i].0.0 == u && t[i].0.1 == v {
            proof {
                assert(t0[i as int].0 == (u, v));
                lemma_tbl_get_at(t0, i as int);
            }
            let c = t[i].1;
            t[i] = ((u, v), c + 1);
            proof {
                assert(t@ =~= t0.update(i as int, (t0[i as int].0, (c + 1) as usize)));
                lemma_tbl_update(t0, i as int, (c + 1) as usize);
                assert forall|a: int, b: int| 0 <= a < b < t@.len() implies t@[a].0
                    != t@[b].0 by {
                    assert(t@[a].0 == t0[a].0);
                    assert(t@[b].0 == t0[b].0);
                }
            }
            return ;
        }
        i = i + 1;
    }
    proof {
        assert(!tbl_contains(t0, (u, v)));
        lemma_tbl_absent(t0, (u, v));
        lemma_tbl_push(t0, ((u, v), 1usize));
    }
    t.push(((u, v), 1));
    proof {
        assert(t@ =~= t0.push(((u, v), 1usize)));
        assert forall|a: int, b: int| 0 <= a < b < t@.len() implies t@[a].0 != t@[b].0 by {
            if b < t0.len() {
                assert(t@[a].0 == t0[a].0);
                assert(t@[b].0 == t0[b].0);
            } else {
                assert(t@[b].0 == (u, v));
                assert(t@[a].0 == t0[a].0);
            }
        }
    }
}

/// Scans every document's id stream: counts each id's occurrences and,
/// for every ordered occurrence of two distinct ids within the sliding
/// window, adds one to the unordered pair's accumulated weight.
pub fn cooccurrence(docs: &Vec<Vec<String>>, vocab: &Vec<(String, usize)>, window: usize) -> (r: (
    Vec<usize>,
    Vec<((usize, usize), usize)>,
))
    requires
        total_len(docs.deep_view()) <= usize::MAX,
        total_len(docs.deep_view()) * window <= usize::MAX,
    ensures
        r.0@.len() == vocab@.len(),
        forall|x: int|
            0 <= x < r.0@.len() ==> r.0@[x] as nat == corpus_occ(
                corpus_ids(vocab.deep_view(), docs.deep_view()),
                x as usize,
            ),
        tbl_keys_unique(r.1@),
        tbl_all_pos(r.1@),
        forall|i: int| 0 <= i < r.1@.len() ==> (#[trigger] r.1@[i]).0.0 < r.1@[i].0.1 < vocab@.len(),
        forall|u: usize, v: usize|
            u < v ==> tbl_get(r.1@, (u, v)) == corpus_pairs(
                corpus_ids(vocab.deep_view(), docs.deep_view()),
                window as nat,
                u,
                v,
            ),
{
    let ghost vs = vocab.deep_view();
    let ghost dvs = docs.deep_view();
    let ghost cidss = corpus_ids(vs, dvs);
    let n = vocab.len();
    let mut counts: Vec<usize> = Vec::new();
    let mut z: usize = 0;
    while z < n
        invariant
            z <= n,
            counts@.len() == z,
            forall|x: int| 0 <= x < z ==> counts@[x] == 0,
        decreases n - z,
    {
        counts.push(0);
        z = z + 1;
    }
    let mut pairs: Vec<((usize, usize), usize)> = Vec::new();
    let mut d: usize = 0;
    proof {
        lemma_ids_total_le(vs, dvs);
        assert(cidss.skip(0) =~= cidss);
        assert(pairs@ =~= Seq::<((usize, usize), usize)>::empty());
    }
    while d < docs.len()
        invariant
            vs == vocab.deep_view(),
            dvs == docs.deep_view(),
            cidss == corpus_ids(vs, dvs),
            d <= docs.len(),
            dvs.len() == docs.len(),
            cidss.len() == docs.len(),
            n == vocab@.len(),
            counts@.len() == n,
            forall|x: int|
                0 <= x < n ==> counts@[x] as nat + corpus_occ(cidss.skip(d as int), x as usize)
                    == corpus_occ(cidss, x as usize),
            tbl_keys_unique(pairs@),
            tbl_all_pos(pairs@),
            forall|i: int| 0 <= i < pairs@.len() ==> (#[trigger] pairs@[i]).0.0 < pairs@[i].0.1 < n,
            forall|u: usize, v: usize|
                u < v ==> tbl_get(pairs@, (u, v)) + corpus_pairs(
                    cidss.skip(d as int),
                    window as nat,
                    u,
                    v,
                ) == corpus_pairs(cidss, window as nat, u, v),
            ids_total(cidss) <= total_len(dvs),
            total_len(dvs) <= usize::MAX,
            total_len(dvs) * window <= usize::MAX,
        decreases docs.len() - d,
    {
        let ids = doc_ids(vocab, &docs[d]);
        let ghost idv = ids@;
        proof {
            assert(dvs[d as int] == docs@[d as int].deep_view());
            assert(cidss[d as int] == vocab_ids(vs, dvs[d as int]));
            assert(idv == cidss[d as int]);
            assert(cidss.skip(d as int)[0] == cidss[d as int]);
            assert(cidss.skip(d as int).skip(1) =~= cidss.skip(d as int + 1));
            assert forall|x: int|
                0 <= x < n implies counts@[x] as nat + occ_from(idv, 0, x as usize) + corpus_occ(
                cidss.skip(d as int + 1),
                x as usize,
            ) == corpus_occ(cidss, x as usize) by {
                assert(corpus_occ(cidss.skip(d as int), x as usize) == occ_from(idv, 0, x as usize)
                    + corpus_occ(cidss.skip(d as int + 1), x as usize));
            }
            assert forall|u: usize, v: usize|
                u < v implies tbl_get(pairs@, (u, v)) + doc_pairs(idv, 0, window as nat, u, v)
                + corpus_pairs(cidss.skip(d as int + 1), window as nat, u, v) == corpus_pairs(
                cidss,
                window as nat,
                u,
                v,
            ) by {
                assert(corpus_pairs(cidss.skip(d as int), window as nat, u, v) == doc_pairs(
                    idv,
                    0,
                    window as nat,
                    u,
                    v,
                ) + corpus_pairs(cidss.skip(d as int + 1), window as nat, u, v));
            }
        }
        let mut i: usize = 0;
        while i < ids.len()
            invariant
                vs == vocab.deep_view(),
                dvs == docs.deep_view(),
                cidss == corpus_ids(vs, dvs),
                d < docs.len(),
                dvs.len() == docs.len(),
                cidss.len() == docs.len(),
                n == vocab@.len(),
                counts@.len() == n,
                idv == ids@,
                i <= ids.len(),
                forall|k: int| 0 <= k < idv.len() ==> idv[k] < n,
                forall|x: int|
                    0 <= x < n ==> counts@[x] as nat + occ_from(idv, i as int, x as usize)
                        + corpus_occ(cidss.skip(d as int + 1), x as usize) == corpus_occ(
                        cidss,
                        x as usize,
                    ),
                tbl_keys_unique(pairs@),
                tbl_all_pos(pairs@),
                forall|ii: int| 0 <= ii < pairs@.len() ==> (#[trigger] pairs@[ii]).0.0 < pairs@[ii].0.1 < n,
                forall|u: usize, v: usize|
                    u < v ==> tbl_get(pairs@, (u, v)) + doc_pairs(idv, i as int, window as nat, u, v)
                        + corpus_pairs(cidss.skip(d as int + 1), window as nat, u, v)
                        == corpus_pairs(cidss, window as nat, u, v),
                ids_total(cidss) <= total_len(dvs),
                total_len(dvs) <= usize::MAX,
                total_len(dvs) * window <= usize::MAX,
            decreases ids.len() - i,
        {
            let a = ids[i];
            proof {
                assert(idv[i as int] == a);
                assert(occ_from(idv, i as int, a) >= 1);
                lemma_corpus_occ_le(cidss, a);
                assert(counts@[a as int] < usize::MAX);
            }
            let ca = counts[a];
            let ghost cprev = counts@;
            counts[a] = ca + 1;
            proof {
                assert(counts@ =~= cprev.update(a as int, (ca + 1) as usize));
                assert forall|x: int|
                    0 <= x < n implies counts@[x] as nat + occ_from(idv, i as int + 1, x as usize)
                    + corpus_occ(cidss.skip(d as int + 1), x as usize) == corpus_occ(
                    cidss,
                    x as usize,
                ) by {
                    assert(occ_from(idv, i as int, x as usize) == (if idv[i as int] == x as usize {
                        1nat
                    } else {
                        0nat
                    }) + occ_from(idv, i as int + 1, x as usize));
                }
                assert forall|u: usize, v: usize|
                    u < v implies tbl_get(pairs@, (u, v)) + win_count(
                    idv,
                    i as int,
                    i as int + 1,
                    window as nat,
                    u,
                    v,
                ) + doc_pairs(idv, i as int + 1, window as nat, u, v) + corpus_pairs(
                    cidss.skip(d as int + 1),
                    window as nat,
                    u,
                    v,
                ) == corpus_pairs(cidss, window as nat, u, v) by {
                    assert(doc_pairs(idv, i as int, window as nat, u, v) == win_count(
                        idv,
                        i as int,
                        i as int + 1,
                        window as nat,
                        u,
                        v,
                    ) + doc_pairs(idv, i as int + 1, window as nat, u, v));
                }
            }
            let end = if ids.len() - i > window {
                i + window
            } else {
                ids.len()
            };
            proof {
                assert(end as int == win_end(idv, i as int, window as nat));
            }
            let mut j: usize = i + 1;
            while j < end
                invariant
                    vs == vocab.deep_view(),
                    dvs == docs.deep_view(),
                    cidss == corpus_ids(vs, dvs),
                    d < docs.len(),
                    n == vocab@.len(),
                    idv == ids@,
                    i < ids.len(),
                    i + 1 <= j,
                    end <= ids.len(),
                    end as int == win_end(idv, i as int, window as nat),
                    idv[i as int] == a,
                    forall|k: int| 0 <= k < idv.len() ==> idv[k] < n,
                    tbl_keys_unique(pairs@),
                    tbl_all_pos(pairs@),
                    forall|ii: int| 0 <= ii < pairs@.len() ==> (#[trigger] pairs@[ii]).0.0 < pairs@[ii].0.1 < n,
                    forall|u: usize, v: usize|
                        u < v ==> tbl_get(pairs@, (u, v)) + win_count(
                            idv,
                            i as int,
                            j as int,
                            window as nat,
                            u,
                            v,
                        ) + doc_pairs(idv, i as int + 1, window as nat, u, v) + corpus_pairs(
                            cidss.skip(d as int + 1),
                            window as nat,
                            u,
                            v,
                        ) == corpus_pairs(cidss, window as nat, u, v),
                    ids_total(cidss) <= total_len(dvs),
                    total_len(dvs) <= usize::MAX,
                    total_len(dvs) * window <= usize::MAX,
                decreases end - j,
            {
                let b = ids[j];
                proof {
                    assert(idv[j as int] == b);
                }
                if a != b {
                    let u = if a < b {
                        a
                    } else {
                        b
                    };
                    let v = if a < b {
                        b
                    } else {
                        a
                    };
                    proof {
                        assert(pair_matches(a, b, u, v));
                        assert(win_count(idv, i as int, j as int, window as nat, u, v) >= 1);
                        lemma_corpus_pairs_le(cidss, window as nat, u, v);
                        assert(ids_total(cidss) * (window as nat) <= total_len(dvs) * (
                        window as nat)) by (nonlinear_arith)
                            requires
                                ids_total(cidss) <= total_len(dvs),
                        ;
                        assert(tbl_get(pairs@, (u, v)) < usize::MAX);
                    }
                    let ghost pprev = pairs@;
                    bump_pair(&mut pairs, u, v);
                    proof {
                        assert forall|ii: int|
                            0 <= ii < pairs@.len() implies (#[trigger] pairs@[ii]).0.0
                            < pairs@[ii].0.1 < n by {
                            if ii < pprev.len() {
                                assert(pairs@[ii].0 == pprev[ii].0);
                            } else {
                                assert(pairs@[ii].0 == (u, v));
                            }
                        }
                        assert forall|uu: usize, vv: usize|
                            uu < vv implies tbl_get(pairs@, (uu, vv)) + win_count(
                            idv,
                            i as int,
                            j as int + 1,
                            window as nat,
                            uu,
                            vv,
                        ) + doc_pairs(idv, i as int + 1, window as nat, uu, vv) + corpus_pairs(
                            cidss.skip(d as int + 1),
                            window as nat,
                            uu,
                            vv,
                        ) == corpus_pairs(cidss, window as nat, uu, vv) by {
                            assert(win_count(idv, i as int, j as int, window as nat, uu, vv) == (
                            if pair_matches(a, b, uu, vv) {
                                1nat
                            } else {
                                0nat
                            }) + win_count(idv, i as int, j as int + 1, window as nat, uu, vv));
                            if pair_matches(a, b, uu, vv) {
                                assert((uu, vv) == (u, v));
                            }
                        }
                    }
                } else {
                    proof {
                        assert forall|uu: usize, vv: usize|
                            uu < vv implies tbl_get(pairs@, (uu, vv)) + win_count(
                            idv,
                            i as int,
                            j as int + 1,
                            window as nat,
                            uu,
                            vv,
                        ) + doc_pairs(idv, i as int + 1, window as nat, uu, vv) + corpus_pairs(
                            cidss.skip(d as int + 1),
                            window as nat,
                            uu,
                            vv,
                        ) == corpus_pairs(cidss, window as nat, uu, vv) by {
                            assert(win_count(idv, i as int, j as int, window as nat, uu, vv) == (
                            if pair_matches(a, b, uu, vv) {
                                1nat
                            } else {
                                0nat
                            }) + win_count(idv, i as int, j as int + 1, window as nat, uu, vv));
                        }
                    }
                }
                j = j + 1;
            }
            proof {
                assert forall|u: usize, v: usize|
                    u < v implies win_count(idv, i as int, j as int, window as nat, u, v)
                    == 0 by {
                }
            }
            i = i + 1;
        }
        proof {
            assert forall|x: int| 0 <= x < n implies #[trigger] occ_from(
                idv,
                i as int,
                x as usize,
            ) == 0 by {
            }
            assert forall|u: usize, v: usize|
                u < v implies doc_pairs(idv, i as int, window as nat, u, v) == 0 by {
            }
        }
        d = d + 1;
    }
    proof {
        assert(cidss.skip(d as int) =~= Seq::<Seq<usize>>::empty());
        assert forall|x: int| 0 <= x < n implies counts@[x] as nat == corpus_occ(
            cidss,
            x as usize,
        ) by {
            assert(corpus_occ(Seq::<Seq<usize>>::empty(), x as usize) == 0);
        }
        assert forall|u: usize, v: usize| u < v implies tbl_get(pairs@, (u, v)) == corpus_pairs(
            cidss,
            window as nat,
            u,
            v,
        ) by {
            assert(corpus_pairs(Seq::<Seq<usize>>::empty(), window as nat, u, v) == 0);
        }
    }
    (counts, pairs)
}

} // verus!
