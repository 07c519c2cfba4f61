//! Tokenization: lowercases raw text, extracts maximal word-like runs
//! (a letter or digit followed by at least one more letter, digit, hyphen
//! or apostrophe), trims surrounding hyphens, drops short tokens and
//! stopwords, and interleaves bigrams of adjacent surviving unigrams.
use vstd::prelude::*;
use vstd::string::StrSliceExecFns;
use vstd::string::StringExecFns;
use crate::chars::is_alnum;
use crate::chars::is_word_char;
use crate::chars::alnum;
use crate::chars::word_char;
use crate::chars::no_ascii_upper;
use crate::chars::seq_contains_word;
use crate::chars::contains_word;
use crate::chars::lower_of;
use crate::chars::lower_chars;
use crate::chars::string_from_chars;

verus! {

/// First position at or after `j` that does not hold a word character.
pub open spec fn run_end(s: Seq<char>, j: int) -> int
    decreases s.len() - j,
{
    if j < s.len() && is_word_char(s[j]) {
        run_end(s, j + 1)
    } else {
        j
    }
}

/// `run_end` never moves backwards and never passes the end.
pub proof fn lemma_run_end_bounds(s: Seq<char>, j: int)
    requires
        j <= s.len(),
    ensures
        j <= run_end(s, j) <= s.len(),
    decreases s.len() - j,
{
    if j < s.len() && is_word_char(s[j]) {
        lemma_run_end_bounds(s, j + 1);
    }
}

/// The maximal word-like runs of `s` from position `i` on: each starts
/// with a letter or digit and continues with at least one more word
/// character; scanning resumes after each run.
pub open spec fn scan(s: Seq<char>, i: int) -> Seq<Seq<char>>
    decreases s.len() - i
        via scan_decreases
{
    if i >= s.len() {
        Seq::empty()
    } else if is_alnum(s[i]) && i + 1 < s.len() && is_word_char(s[i + 1]) {
        seq![s.subrange(i, run_end(s, i + 1))] + scan(s, run_end(s, i + 1))
    } else {
        scan(s, i + 1)
    }
}

#[via_fn]
proof fn scan_decreases(s: Seq<char>, i: int) {
    if i < s.len() {
        lemma_run_end_bounds(s, i + 1);
    }
}

/// `w` with every leading hyphen removed.
pub open spec fn trim_lead(w: Seq<char>) -> Seq<char>
    decreases w.len(),
{
    if w.len() > 0 && w[0] == '-' {
        trim_lead(w.skip(1))
    } else {
        w
    }
}

/// `w` with every trailing hyphen removed.
pub open spec fn trim_trail(w: Seq<char>) -> Seq<char>
    decreases w.len(),
{
    if w.len() > 0 && w[w.len() - 1] == '-' {
        trim_trail(w.take(w.len() - 1))
    } else {
        w
    }
}

/// `w` with leading and trailing hyphens removed.
pub open spec fn trim_hyphens(w: Seq<char>) -> Seq<char> {
    trim_trail(trim_lead(w))
}

/// A trimmed token survives if it is at least three characters long and
/// is not a stopword.
pub open spec fn keep_token(w: Seq<char>, stop: Seq<Seq<char>>) -> bool {
    w.len() >= 3 && !seq_contains_word(stop, w)
}

/// Trims each raw match and keeps the survivors, in order.
pub open spec fn sift(ms: Seq<Seq<char>>, stop: Seq<Seq<char>>) -> Seq<Seq<char>>
    decreases ms.len(),
{
    if ms.len() == 0 {
        Seq::empty()
    } else {
        let t = trim_hyphens(ms[0]);
        let rest = sift(ms.skip(1), stop);
        if keep_token(t, stop) {
            seq![t] + rest
        } else {
            rest
        }
    }
}

/// The surviving unigrams of `s`: raw matches, trimmed and filtered.
pub open spec fn unigrams(s: Seq<char>, stop: Seq<Seq<char>>) -> Seq<Seq<char>> {
    sift(scan(s, 0), stop)
}

/// The two-word bigram of adjacent unigrams.
pub open spec fn bigram(a: Seq<char>, b: Seq<char>) -> Seq<char> {
    a + seq![' '] + b
}

/// The term stream from position `i` on: each unigram, followed by the
/// bigram with its successor whenever neither half is a stopword.
pub open spec fn interleave(us: Seq<Seq<char>>, stop: Seq<Seq<char>>, i: int) -> Seq<Seq<char>>
    decreases us.len() - i,
{
    if i < 0 || i >= us.len() {
        Seq::empty()
    } else {
        let rest = interleave(us, stop, i + 1);
        if i + 1 < us.len() && !seq_contains_word(stop, us[i]) && !seq_contains_word(
            stop,
            us[i + 1],
        ) {
            seq![us[i], bigram(us[i], us[i + 1])] + rest
        } else {
            seq![us[i]] + rest
        }
    }
}

/// The full token stream of a lowercased text.
pub open spec fn tokens_spec(s: Seq<char>, stop: Seq<Seq<char>>) -> Seq<Seq<char>> {
    interleave(unigrams(s, stop), stop, 0)
}

proof fn lemma_scan_no_upper(s: Seq<char>, i: int)
    requires
        no_ascii_upper(s),
        0 <= i,
    ensures
        forall|k: int| 0 <= k < scan(s, i).len() ==> no_ascii_upper(#[trigger] scan(s, i)[k]),
    decreases s.len() - i,
{
    if i >= s.len() {
    } else if is_alnum(s[i]) && i + 1 < s.len() && is_word_char(s[i + 1]) {
        let j = run_end(s, i + 1);
        lemma_run_end_bounds(s, i + 1);
        lemma_scan_no_upper(s, j);
        let m = s.subrange(i, j);
        assert(no_ascii_upper(m)) by {
            assert forall|x: int| 0 <= x < m.len() implies !('A' <= #[trigger] m[x] && m[x]
                <= 'Z') by {
                assert(m[x] == s[i + x]);
            }
        }
        assert forall|k: int| 0 <= k < scan(s, i).len() implies no_ascii_upper(
            #[trigger] scan(s, i)[k],
        ) by {
            if k == 0 {
                assert(scan(s, i)[0] == m);
            } else {
                assert(scan(s, i)[k] == scan(s, j)[k - 1]);
            }
        }
    } else {
        lemma_scan_no_upper(s, i + 1);
        assert(scan(s, i) == scan(s, i + 1));
        assert forall|k: int| 0 <= k < scan(s, i).len() implies no_ascii_upper(
            #[trigger] scan(s, i)[k],
        ) by {
            assert(scan(s, i)[k] == scan(s, i + 1)[k]);
        }
    }
}

proof fn lemma_trim_no_upper(w: Seq<char>)
    requires
        no_ascii_upper(w),
    ensures
        no_ascii_upper(trim_hyphens(w)),
{
    lemma_trim_lead_no_upper(w);
    lemma_trim_trail_no_upper(trim_lead(w));
}

proof fn lemma_trim_lead_no_upper(w: Seq<char>)
    requires
        no_ascii_upper(w),
    ensures
        no_ascii_upper(trim_lead(w)),
    decreases w.len(),
{
    if w.len() > 0 && w[0] == '-' {
        assert forall|x: int| 0 <= x < w.skip(1).len() implies !('A' <= #[trigger] w.skip(1)[x]
            && w.skip(1)[x] <= 'Z') by {
            assert(w.skip(1)[x] == w[x + 1]);
        }
        lemma_trim_lead_no_upper(w.skip(1));
    }
}

proof fn lemma_trim_trail_no_upper(w: Seq<char>)
    requires
        no_ascii_upper(w),
    ensures
        no_ascii_upper(trim_trail(w)),
    decreases w.len(),
{
    if w.len() > 0 && w[w.len() - 1] == '-' {
        let w2 = w.take(w.len() - 1);
        assert forall|x: int| 0 <= x < w2.len() implies !('A' <= #[trigger] w2[x] && w2[x]
            <= 'Z') by {
            assert(w2[x] == w[x]);
        }
        lemma_trim_trail_no_upper(w2);
    }
}

proof fn lemma_sift_no_upper(ms: Seq<Seq<char>>, stop: Seq<Seq<char>>)
    requires
        forall|k: int| 0 <= k < ms.len() ==> no_ascii_upper(#[trigger] ms[k]),
    ensures
        forall|k: int| 0 <= k < sift(ms, stop).len() ==> no_ascii_upper(#[trigger] sift(ms, stop)[k]),
    decreases ms.len(),
{
    if ms.len() > 0 {
        assert forall|k: int| 0 <= k < ms.skip(1).len() implies no_ascii_upper(
            #[trigger] ms.skip(1)[k],
        ) by {
            assert(ms.skip(1)[k] == ms[k + 1]);
        }
        lemma_sift_no_upper(ms.skip(1), stop);
        lemma_trim_no_upper(ms[0]);
        let t = trim_hyphens(ms[0]);
        let rest = sift(ms.skip(1), stop);
        if keep_token(t, stop) {
            assert forall|k: int| 0 <= k < sift(ms, stop).len() implies no_ascii_upper(
                #[trigger] sift(ms, stop)[k],
            ) by {
                if k == 0 {
                    assert(sift(ms, stop)[0] == t);
                } else {
                    assert(sift(ms, stop)[k] == rest[k - 1]);
                }
            }
        }
    }
}

proof fn lemma_bigram_no_upper(a: Seq<char>, b: Seq<char>)
    requires
        no_ascii_upper(a),
        no_ascii_upper(b),
    ensures
        no_ascii_upper(bigram(a, b)),
{
    let g = bigram(a, b);
    assert forall|x: int| 0 <= x < g.len() implies !('A' <= #[trigger] g[x] && g[x] <= 'Z') by {
        if x < a.len() {
            assert(g[x] == a[x]);
        } else if x == a.len() {
            assert(g[x] == ' ');
        } else {
            assert(g[x] == b[x - a.len() - 1]);
        }
    }
}

proof fn lemma_interleave_no_upper(us: Seq<Seq<char>>, stop: Seq<Seq<char>>, i: int)
    requires
        forall|k: int| 0 <= k < us.len() ==> no_ascii_upper(#[trigger] us[k]),
    ensures
        forall|k: int|
            0 <= k < interleave(us, stop, i).len() ==> no_ascii_upper(
                #[trigger] interleave(us, stop, i)[k],
            ),
    decreases us.len() - i,
{
    if 0 <= i < us.len() {
        lemma_interleave_no_upper(us, stop, i + 1);
        let rest = interleave(us, stop, i + 1);
        if i + 1 < us.len() && !seq_contains_word(stop, us[i]) && !seq_contains_word(
            stop,
            us[i + 1],
        ) {
            lemma_bigram_no_upper(us[i], us[i + 1]);
            assert forall|k: int| 0 <= k < interleave(us, stop, i).len() implies no_ascii_upper(
                #[trigger] interleave(us, stop, i)[k],
            ) by {
                if k >= 2 {
                    assert(interleave(us, stop, i)[k] == rest[k - 2]);
                }
            }
        } else {
            assert forall|k: int| 0 <= k < interleave(us, stop, i).len() implies no_ascii_upper(
                #[trigger] interleave(us, stop, i)[k],
            ) by {
                if k >= 1 {
                    assert(interleave(us, stop, i)[k] == rest[k - 1]);
                }
            }
        }
    }
}

/// No term of the token stream of a case-folded text holds an ASCII
/// capital, because the folded text holds none.
pub proof fn lemma_tokens_no_ascii_upper(s: Seq<char>, stop: Seq<Seq<char>>)
    requires
        no_ascii_upper(s),
    ensures
        forall|k: int|
            0 <= k < tokens_spec(s, stop).len() ==> no_ascii_upper(
                #[trigger] tokens_spec(s, stop)[k],
            ),
{
    lemma_scan_no_upper(s, 0);
    lemma_sift_no_upper(scan(s, 0), stop);
    lemma_interleave_no_upper(unigrams(s, stop), stop, 0);
}

proof fn lemma_trim_lead_idx(w: Seq<char>, lo: int)
    requires
        0 <= lo <= w.len(),
        forall|k: int| 0 <= k < lo ==> w[k] == '-',
        lo == w.len() || w[lo] != '-',
    ensures
        trim_lead(w) == w.skip(lo),
    decreases lo,
{
    if lo == 0 {
        assert(w.skip(0) =~= w);
    } else {
        assert(w[0] == '-');
        assert forall|k: int| 0 <= k < lo - 1 implies w.skip(1)[k] == '-' by {
            assert(w.skip(1)[k] == w[k + 1]);
        }
        assert(lo - 1 == w.skip(1).len() || w.skip(1)[lo - 1] != '-');
        lemma_trim_lead_idx(w.skip(1), lo - 1);
        assert(w.skip(1).skip(lo - 1) =~= w.skip(lo));
    }
}

proof fn lemma_trim_trail_idx(w: Seq<char>, hi: int)
    requires
        0 <= hi <= w.len(),
        forall|k: int| hi <= k < w.len() ==> w[k] == '-',
        hi == 0 || w[hi - 1] != '-',
    ensures
        trim_trail(w) == w.take(hi),
    decreases w.len() - hi,
{
    if hi == w.len() {
        assert(w.take(hi) =~= w);
    } else {
        assert(w[w.len() - 1] == '-');
        let w2 = w.take(w.len() - 1);
        assert forall|k: int| hi <= k < w2.len() implies w2[k] == '-' by {
            assert(w2[k] == w[k]);
        }
        assert(hi == 0 || w2[hi - 1] != '-');
        lemma_trim_trail_idx(w2, hi);
        assert(w2.take(hi) =~= w.take(hi));
    }
}

/// Removes leading and trailing hyphens of a token.
fn trim_hyphens_vec(v: &Vec<char>) -> (r: Vec<char>)
    ensures
        r@ == trim_hyphens(v@),
{
    let n = v.len();
    let mut lo: usize = 0;
    while lo < n && v[lo] == '-'
        invariant
            lo <= n,
            n == v@.len(),
            forall|k: int| 0 <= k < lo ==> v@[k] == '-',
        decreases n - lo,
    {
        lo = lo + 1;
    }
    let mut hi: usize = n;
    while hi > lo && v[hi - 1] == '-'
        invariant
            lo <= hi <= n,
            n == v@.len(),
            forall|k: int| hi <= k < n ==> v@[k] == '-',
        decreases hi,
    {
        hi = hi - 1;
    }
    let mut out: Vec<char> = Vec::new();
    let mut k: usize = lo;
    proof {
        assert(out@ =~= v@.subrange(lo as int, lo as int));
    }
    while k < hi
        invariant
            lo <= k <= hi <= n,
            n == v@.len(),
            out@ == v@.subrange(lo as int, k as int),
        decreases hi - k,
    {
        out.push(v[k]);
        k = k + 1;
        proof {
            assert(out@ =~= v@.subrange(lo as int, k as int));
        }
    }
    proof {
        lemma_trim_lead_idx(v@, lo as int);
        let w2 = v@.skip(lo as int);
        assert forall|k2: int| hi - lo <= k2 < w2.len() implies w2[k2] == '-' by {
            assert(w2[k2] == v@[k2 + lo]);
        }
        assert(hi - lo == 0 || w2[hi - lo - 1] != '-');
        lemma_trim_trail_idx(w2, hi as int - lo as int);
        assert(w2.take(hi as int - lo as int) =~= v@.subrange(lo as int, hi as int));
    }
    out
}

/// Extracts the surviving unigrams of a lowercased text.
fn scan_words(v: &Vec<char>, stop: &Vec<String>) -> (r: Vec<Vec<char>>)
    ensures
        r.deep_view() == unigrams(v@, stop.deep_view()),
{
    let ghost stopv = stop.deep_view();
    let n = v.len();
    let mut out: Vec<Vec<char>> = Vec::new();
    let mut i: usize = 0;
    proof {
        assert(out.deep_view() + sift(scan(v@, 0), stopv) =~= sift(scan(v@, 0), stopv));
    }
    while i < n
        invariant
            n == v@.len(),
            i <= n,
            stopv == stop.deep_view(),
            sift(scan(v@, 0), stopv) == out.deep_view() + sift(scan(v@, i as int), stopv),
        decreases n - i,
    {
        if alnum(v[i]) && i + 1 < n && word_char(v[i + 1]) {
            let mut j: usize = i + 1;
            while j < n && word_char(v[j])
                invariant
                    i + 1 <= j <= n,
                    n == v@.len(),
                    run_end(v@, i as int + 1) == run_end(v@, j as int),
                decreases n - j,
            {
                j = j + 1;
            }
            let ghost m = v@.subrange(i as int, j as int);
            proof {
                assert(run_end(v@, j as int) == j as int);
                assert(scan(v@, i as int) == seq![m] + scan(v@, j as int));
            }
            let mut tok: Vec<char> = Vec::new();
            let mut k: usize = i;
            proof {
                assert(tok@ =~= v@.subrange(i as int, i as int));
            }
            while k < j
                invariant
                    i <= k <= j <= n,
                    n == v@.len(),
                    tok@ == v@.subrange(i as int, k as int),
                decreases j - k,
            {
                tok.push(v[k]);
                k = k + 1;
                proof {
                    assert(tok@ =~= v@.subrange(i as int, k as int));
                }
            }
            let t = trim_hyphens_vec(&tok);
            let kept = t.len() >= 3 && !contains_word(stop, &t);
            proof {
                let rest = scan(v@, j as int);
                assert((seq![m] + rest).skip(1) =~= rest);
                assert(sift(seq![m] + rest, stopv) == (if keep_token(trim_hyphens(m), stopv) {
                    seq![trim_hyphens(m)] + sift(rest, stopv)
                } else {
                    sift(rest, stopv)
                }));
                assert(t@ == trim_hyphens(m));
                assert(kept == keep_token(t@, stopv));
            }
            if kept {
                let ghost oldd = out.deep_view();
                proof {
                    assert(t.deep_view() =~= t@);
                }
                out.push(t);
                proof {
                    assert(out.deep_view() =~= oldd.push(t@));
                    assert(oldd.push(t@) =~= oldd + seq![t@]);
                    assert(oldd + (seq![t@] + sift(scan(v@, j as int), stopv)) =~= (oldd + seq![
                        t@,
                    ]) + sift(scan(v@, j as int), stopv));
                }
            }
            i = j;
        } else {
            proof {
                assert(scan(v@, i as int) == scan(v@, i as int + 1));
            }
            i = i + 1;
        }
    }
    proof {
        assert(scan(v@, n as int) =~= Seq::<Seq<char>>::empty());
        assert(sift(scan(v@, n as int), stopv) =~= Seq::<Seq<char>>::empty());
        assert(out.deep_view() + Seq::<Seq<char>>::empty() =~= out.deep_view());
    }
    out
}

/// Tokenizes raw text: lowercases it, extracts and filters unigrams, and
/// interleaves bigrams of adjacent survivors, each bigram directly after
/// its first half.
pub fn tokenize(text: &str, stop: &Vec<String>) -> (r: Vec<String>)
    ensures
        r.deep_view() == tokens_spec(lower_of(text@), stop.deep_view()),
        forall|k: int| 0 <= k < r.deep_view().len() ==> no_ascii_upper(#[trigger] r.deep_view()[k]),
{
    let ghost stopv = stop.deep_view();
    let low: Vec<char> = lower_chars(text);
    let toks: Vec<Vec<char>> = scan_words(&low, stop);
    let ghost us = toks.deep_view();
    let mut grams: Vec<String> = Vec::new();
    let mut i: usize = 0;
    proof {
        assert(grams.deep_view() + interleave(us, stopv, 0) =~= interleave(us, stopv, 0));
    }
    while i < toks.len()
        invariant
            us == toks.deep_view(),
            stopv == stop.deep_view(),
            i <= toks.len(),
            interleave(us, stopv, 0) == grams.deep_view() + interleave(us, stopv, i as int),
        decreases toks.len() - i,
    {
        let ghost oldd = grams.deep_view();
        proof {
            assert(us[i as int] =~= toks@[i as int]@);
            if i + 1 < toks.len() {
                assert(us[i as int + 1] =~= toks@[i as int + 1]@);
            }
        }
        let uni = string_from_chars(&toks[i]);
        grams.push(uni);
        proof {
            assert(grams.deep_view() =~= oldd.push(us[i as int]));
        }
        if i + 1 < toks.len() && !contains_word(stop, &toks[i]) && !contains_word(
            stop,
            &toks[i + 1],
        ) {
            let mut bi: Vec<char> = Vec::new();
            bi.extend_from_slice(toks[i].as_slice());
            bi.push(' ');
            bi.extend_from_slice(toks[i + 1].as_slice());
            proof {
                assert(bi@ =~= bigram(us[i as int], us[i as int + 1]));
            }
            let bis = string_from_chars(&bi);
            let ghost oldd2 = grams.deep_view();
            grams.push(bis);
            proof {
                assert(grams.deep_view() =~= oldd2.push(bigram(us[i as int], us[i as int + 1])));
                assert(interleave(us, stopv, i as int) == seq![
                    us[i as int],
                    bigram(us[i as int], us[i as int + 1]),
                ] + interleave(us, stopv, i as int + 1));
                assert(oldd + (seq![us[i as int], bigram(us[i as int], us[i as int + 1])]
                    + interleave(us, stopv, i as int + 1)) =~= grams.deep_view() + interleave(
                    us,
                    stopv,
                    i as int + 1,
                ));
            }
        } else {
            proof {
                assert(interleave(us, stopv, i as int) == seq![us[i as int]] + interleave(
                    us,
                    stopv,
                    i as int + 1,
                ));
                assert(oldd + (seq![us[i as int]] + interleave(us, stopv, i as int + 1))
                    =~= grams.deep_view() + interleave(us, stopv, i as int + 1));
            }
        }
        i = i + 1;
    }
    proof {
        assert(interleave(us, stopv, toks.len() as int) =~= Seq::<Seq<char>>::empty());
        assert(grams.deep_view() + Seq::<Seq<char>>::empty() =~= grams.deep_view());
        assert(no_ascii_upper(low@));
        lemma_tokens_no_ascii_upper(low@, stopv);
        assert(grams.deep_view() == tokens_spec(low@, stopv));
        assert forall|k: int| 0 <= k < grams.deep_view().len() implies no_ascii_upper(
            #[trigger] grams.deep_view()[k],
        ) by {
            assert(grams.deep_view()[k] == tokens_spec(low@, stopv)[k]);
        }
    }
    grams
}

/// When no unigram is a stopword — as `unigrams` guarantees, since
/// stopwords are filtered out — the bigram stopword check never rejects:
/// a bigram follows every adjacent pair of unigrams.
pub proof fn lemma_bigram_check_redundant(us: Seq<Seq<char>>, stop: Seq<Seq<char>>, i: int)
    requires
        forall|k: int| 0 <= k < us.len() ==> !seq_contains_word(stop, us[k]),
        0 <= i,
    ensures
        i + 1 < us.len() ==> interleave(us, stop, i) == seq![
            us[i],
            bigram(us[i], us[i + 1]),
        ] + interleave(us, stop, i + 1),
{
}

/// Every token that `sift` keeps is no stopword.
pub proof fn lemma_sift_no_stopwords(ms: Seq<Seq<char>>, stop: Seq<Seq<char>>)
    ensures
        forall|k: int|
            0 <= k < sift(ms, stop).len() ==> !seq_contains_word(stop, sift(ms, stop)[k]),
    decreases ms.len(),
{
    if ms.len() > 0 {
        lemma_sift_no_stopwords(ms.skip(1), stop);
        let t = trim_hyphens(ms[0]);
        let rest = sift(ms.skip(1), stop);
        if keep_token(t, stop) {
            assert forall|k: int|
                0 <= k < sift(ms, stop).len() implies !seq_contains_word(
                stop,
                sift(ms, stop)[k],
            ) by {
                if k > 0 {
                    assert(sift(ms, stop)[k] == rest[k - 1]);
                }
            }
        }
    }
}


/// The built-in stopword list.
pub open spec fn stop_list() -> Seq<Seq<char>> {
    seq![
        "the"@,
        "and"@,
        "for"@,
        "with"@,
        "that"@,
        "this"@,
        "you"@,
        "your"@,
        "from"@,
        "are"@,
        "but"@,
        "was"@,
        "were"@,
        "have"@,
        "has"@,
        "had"@,
        "not"@,
        "can"@,
        "will"@,
        "would"@,
        "could"@,
        "should"@,
        "about"@,
        "into"@,
        "out"@,
        "over"@,
        "under"@,
        "between"@,
        "within"@,
        "without"@,
        "after"@,
        "before"@,
        "when"@,
        "where"@,
        "how"@,
        "why"@,
        "what"@,
        "which"@,
        "while"@,
        "than"@,
        "then"@,
        "also"@,
        "just"@,
        "like"@,
        "some"@,
        "more"@,
        "most"@,
        "much"@,
        "many"@,
        "each"@,
        "other"@,
        "another"@,
        "been"@,
        "being"@,
        "use"@,
        "used"@,
        "using"@,
        "via"@,
        "a"@,
        "an"@,
        "in"@,
        "on"@,
        "of"@,
        "to"@,
        "as"@,
        "it"@,
        "is"@,
        "at"@,
        "by"@,
        "or"@,
        "if"@,
        "we"@,
        "i"@,
    ]
}

/// The built-in stopwords: common English function words that never
/// become terms.
pub fn stopwords() -> (r: Vec<String>)
    ensures
        r.deep_view() == stop_list(),
{
    let mut r: Vec<String> = Vec::new();
    r.push(String::from_str("the"));
    r.push(String::from_str("and"));
    r.push(String::from_str("for"));
    r.push(String::from_str("with"));
    r.push(String::from_str("that"));
    r.push(String::from_str("this"));
    r.push(String::from_str("you"));
    r.push(String::from_str("your"));
    r.push(String::from_str("from"));
    r.push(String::from_str("are"));
    r.push(String::from_str("but"));
    r.push(String::from_str("was"));
    r.push(String::from_str("were"));
    r.push(String::from_str("have"));
    r.push(String::from_str("has"));
    r.push(String::from_str("had"));
    r.push(String::from_str("not"));
    r.push(String::from_str("can"));
    r.push(String::from_str("will"));
    r.push(String::from_str("would"));
    r.push(String::from_str("could"));
    r.push(String::from_str("should"));
    r.push(String::from_str("about"));
    r.push(String::from_str("into"));
    r.push(String::from_str("out"));
    r.push(String::from_str("over"));
    r.push(String::from_str("under"));
    r.push(String::from_str("between"));
    r.push(String::from_str("within"));
    r.push(String::from_str("without"));
    r.push(String::from_str("after"));
    r.push(String::from_str("before"));
    r.push(String::from_str("when"));
    r.push(String::from_str("where"));
    r.push(String::from_str("how"));
    r.push(String::from_str("why"));
    r.push(String::from_str("what"));
    r.push(String::from_str("which"));
    r.push(String::from_str("while"));
    r.push(String::from_str("than"));
    r.push(String::from_str("then"));
    r.push(String::from_str("also"));
    r.push(String::from_str("just"));
    r.push(String::from_str("like"));
    r.push(String::from_str("some"));
    r.push(String::from_str("more"));
    r.push(String::from_str("most"));
    r.push(String::from_str("much"));
    r.push(String::from_str("many"));
    r.push(String::from_str("each"));
    r.push(String::from_str("other"));
    r.push(String::from_str("another"));
    r.push(String::from_str("been"));
    r.push(String::from_str("being"));
    r.push(String::from_str("use"));
    r.push(String::from_str("used"));
    r.push(String::from_str("using"));
    r.push(String::from_str("via"));
    r.push(String::from_str("a"));
    r.push(String::from_str("an"));
    r.push(String::from_str("in"));
    r.push(String::from_str("on"));
    r.push(String::from_str("of"));
    r.push(String::from_str("to"));
    r.push(String::from_str("as"));
    r.push(String::from_str("it"));
    r.push(String::from_str("is"));
    r.push(String::from_str("at"));
    r.push(String::from_str("by"));
    r.push(String::from_str("or"));
    r.push(String::from_str("if"));
    r.push(String::from_str("we"));
    r.push(String::from_str("i"));
    proof {
        assert(r.deep_view() =~= stop_list());
    }
    r
}

} // verus!
