//! The candidate retriever: narrows the corpus to the features that could
//! contain a term, by intersecting n-gram postings lists.  Sound: a feature
//! containing the term case-insensitively is never dropped here.

use vstd::prelude::*;
use crate::text::{folded, is_folded};
use crate::corpus::{Corpus, term_matches, matches_all, terms_view, lemma_term_matches_window};
use crate::index::{GramIndex, SearchIndexes, entry_has, sorted_strict, all_indexable, key_of, qual_window, key_of_window, window_indexable, lookup};

verus! {

/// Whether some posting equals `x`, executably.
pub fn vec_has(v: &Vec<usize>, x: usize) -> (r: bool)
    ensures
        r == entry_has(v@, x as int),
{
    let mut i: usize = 0;
    while i < v.len()
        invariant
            i <= v@.len(),
            forall|j: int| 0 <= j < i ==> v@[j] != x,
        decreases v@.len() - i,
    {
        if v[i] == x {
            return true;
        }
        i += 1;
    }
    false
}

/// A fresh copy of a postings list.
fn copy_postings(v: &Vec<usize>) -> (r: Vec<usize>)
    ensures
        r@ == v@,
{
    let mut r: Vec<usize> = Vec::new();
    let mut i: usize = 0;
    while i < v.len()
        invariant
            i <= v@.len(),
            r@ =~= v@.take(i as int),
        decreases v@.len() - i,
    {
        r.push(v[i]);
        proof {
            assert(r@ =~= v@.take(i + 1));
        }
        i += 1;
    }
    proof {
        assert(v@.take(v@.len() as int) =~= v@);
    }
    r
}

/// Ascending-merge intersection: keeps exactly the values present in both
/// lists, in ascending order.
pub fn intersect(a: &Vec<usize>, b: &Vec<usize>) -> (r: Vec<usize>)
    requires
        sorted_strict(a@),
    ensures
        sorted_strict(r@),
        forall|x: int| entry_has(r@, x) <==> entry_has(a@, x) && entry_has(b@, x),
{
    let mut r: Vec<usize> = Vec::new();
    let mut i: usize = 0;
    while i < a.len()
        invariant
            sorted_strict(a@),
            sorted_strict(r@),
            i <= a@.len(),
            forall|x: int|
                entry_has(r@, x) <==> (exists|j: int| 0 <= j < i && a@[j] == x) && entry_has(
                    b@,
                    x,
                ),
        decreases a@.len() - i,
    {
        let ghost pre = r@;
        if vec_has(b, a[i]) {
            proof {
                assert forall|k1: int| 0 <= k1 < pre.len() implies pre[k1] < a@[i as int] by {
                    assert(entry_has(pre, pre[k1] as int));
                    let j = choose|j: int| 0 <= j < i && a@[j] == pre[k1] as int;
                }
            }
            r.push(a[i]);
            proof {
                assert(forall|k1: int|
                    0 <= k1 < pre.len() ==> #[trigger] r@[k1] == pre[k1]);
                assert(r@[pre.len() as int] == a@[i as int]);
                assert(sorted_strict(r@));
                assert forall|x: int|
                    entry_has(r@, x) == ((exists|j: int| 0 <= j < i + 1 && a@[j] == x)
                        && entry_has(b@, x)) by {
                    if entry_has(r@, x) {
                        let k1 = choose|k1: int| 0 <= k1 < r@.len() && r@[k1] == x;
                        if k1 < pre.len() {
                            assert(entry_has(pre, x));
                            let j = choose|j: int| 0 <= j < i && a@[j] == x;
                        } else {
                            assert(a@[i as int] == x);
                        }
                    }
                    if (exists|j: int| 0 <= j < i + 1 && a@[j] == x) && entry_has(b@, x) {
                        let j = choose|j: int| 0 <= j < i + 1 && a@[j] == x;
                        if j < i {
                            assert(entry_has(pre, x));
                            let k1 = choose|k1: int| 0 <= k1 < pre.len() && pre[k1] == x;
                            assert(r@[k1] == x);
                        } else {
                            assert(r@[pre.len() as int] == x);
                        }
                        assert(entry_has(r@, x));
                    }
                }
            }
        } else {
            proof {
                assert forall|x: int|
                    entry_has(r@, x) == ((exists|j: int| 0 <= j < i + 1 && a@[j] == x)
                        && entry_has(b@, x)) by {
                    if (exists|j: int| 0 <= j < i + 1 && a@[j] == x) && entry_has(b@, x) {
                        let j = choose|j: int| 0 <= j < i + 1 && a@[j] == x;
                        assert(j != i);
                    }
                }
            }
        }
        i += 1;
    }
    proof {
        assert forall|x: int|
            entry_has(r@, x) == (entry_has(a@, x) && entry_has(b@, x)) by {
            if entry_has(a@, x) && entry_has(b@, x) {
                let j = choose|j: int| 0 <= j < a@.len() && a@[j] == x;
            }
        }
    }
    r
}

/// The whole corpus as a candidate list: every feature index, ascending.
pub fn all_indices(nfeat: usize) -> (r: Vec<usize>)
    ensures
        sorted_strict(r@),
        r@.len() == nfeat,
        forall|x: int| entry_has(r@, x) <==> 0 <= x < nfeat,
{
    let mut r: Vec<usize> = Vec::new();
    let mut i: usize = 0;
    while i < nfeat
        invariant
            i <= nfeat,
            r@.len() == i,
            forall|j: int| 0 <= j < i ==> r@[j] == j,
        decreases nfeat - i,
    {
        r.push(i);
        i += 1;
    }
    proof {
        assert forall|x: int| entry_has(r@, x) == (0 <= x < nfeat) by {
            if entry_has(r@, x) {
                let j = choose|j: int| 0 <= j < r@.len() && r@[j] == x;
            }
            if 0 <= x < nfeat {
                assert(r@[x] == x);
            }
        }
    }
    r
}

/// Finds candidate features for one term: the largest gram width not above
/// the term's length is chosen, every indexable window of the term is
/// looked up, and the postings are intersected.  A window no feature
/// carries empties the candidates; a term without any indexable window
/// falls back to the whole corpus.  Retrieval is sound: every feature
/// containing the term case-insensitively in some searchable field is in
/// the returned list.
pub fn candidates_for_term(idx: &SearchIndexes, corpus: &Corpus, term: &Vec<u8>) -> (r: Vec<
    usize,
>)
    requires
        idx.wf_for(corpus.feats()),
        term.len() >= 1,
        is_folded(term@),
    ensures
        sorted_strict(r@),
        forall|i: int| 0 <= i < r@.len() ==> (#[trigger] r@[i] as int) < corpus.feats().len(),
        forall|x: int|
            0 <= x < corpus.feats().len() && #[trigger] term_matches(corpus.feats()[x], term@)
                ==> entry_has(r@, x),
{
    let ghost feats = corpus.feats();
    let nfeat = corpus.len();
    let w: usize = if term.len() >= 3 {
        3
    } else {
        term.len()
    };
    let gidx: &GramIndex = if w == 1 {
        &idx.mono
    } else if w == 2 {
        &idx.bi
    } else {
        &idx.tri
    };
    let last = term.len() - w;
    let mut acc: Option<Vec<usize>> = None;
    let mut p: usize = 0;
    while p <= last
        invariant
            idx.wf_for(feats),
            feats == corpus.feats(),
            nfeat == feats.len(),
            term.len() >= 1,
            is_folded(term@),
            1 <= w <= 3,
            w <= term.len(),
            gidx == if w == 1 {
                &idx.mono
            } else if w == 2 {
                &idx.bi
            } else {
                &idx.tri
            },
            gidx.n == w,
            last == term.len() - w,
            p <= last + 1,
            match acc {
                None => forall|p1: int| 0 <= p1 < p ==> !qual_window(term@, p1, w as int),
                Some(v) => {
                    &&& sorted_strict(v@)
                    &&& forall|i: int| 0 <= i < v@.len() ==> (#[trigger] v@[i] as int) < nfeat
                    &&& forall|x: int|
                        0 <= x < nfeat && #[trigger] term_matches(feats[x], term@) ==> entry_has(
                            v@,
                            x,
                        )
                },
            },
        decreases last + 1 - p,
    {
        if window_indexable(term, p, w) {
            let ghost g = term@.subrange(p as int, p + w);
            proof {
                assert(folded(term@) == term@);
                assert(qual_window(term@, p as int, w as int));
                assert(all_indexable(g));
            }
            let key = key_of_window(term, p, w);
            proof {
                assert(key == key_of(g));
            }
            let ps_opt = lookup(gidx, key, nfeat);
            match ps_opt {
                Some(ps) => {
                    proof {
                        assert forall|x: int|
                            0 <= x < nfeat && #[trigger] term_matches(feats[x], term@)
                                implies entry_has(ps@, x) by {
                            lemma_term_matches_window(feats[x], term@, p as int, p + w);
                            assert(term_matches(feats[x], g));
                            assert(gidx.has(key_of(g), x));
                        }
                    }
                    let newv = match &acc {
                        None => copy_postings(ps),
                        Some(a) => intersect(a, ps),
                    };
                    proof {
                        assert forall|x: int|
                            0 <= x < nfeat && #[trigger] term_matches(feats[x], term@)
                                implies entry_has(newv@, x) by {
                            assert(entry_has(ps@, x));
                        }
                        assert forall|i: int|
                            0 <= i < newv@.len() implies (#[trigger] newv@[i] as int) < nfeat by {
                            assert(entry_has(newv@, newv@[i] as int));
                            assert(entry_has(ps@, newv@[i] as int));
                            let j = choose|j: int| 0 <= j < ps@.len() && ps@[j] == newv@[i] as int;
                        }
                    }
                    acc = Some(newv);
                },
                None => {
                    proof {
                        assert forall|x: int|
                            0 <= x < nfeat implies !term_matches(feats[x], term@) by {
                            if term_matches(feats[x], term@) {
                                lemma_term_matches_window(feats[x], term@, p as int, p + w);
                                assert(gidx.has(key_of(g), x));
                            }
                        }
                    }
                    acc = Some(Vec::new());
                },
            }
        }
        p += 1;
    }
    match acc {
        Some(v) => {
            proof {
                assert(sorted_strict(v@));
                assert(forall|i: int| 0 <= i < v@.len() ==> (#[trigger] v@[i] as int) < nfeat);
                assert(forall|x: int|
                    0 <= x < nfeat && #[trigger] term_matches(feats[x], term@) ==> entry_has(
                        v@,
                        x,
                    ));
            }
            v
        },
        None => {
            let fallback = all_indices(nfeat);
            proof {
                assert forall|i: int|
                    0 <= i < fallback@.len() implies (#[trigger] fallback@[i] as int) < nfeat by {
                    assert(entry_has(fallback@, fallback@[i] as int));
                }
            }
            fallback
        },
    }
}

/// Candidates that could match every term at once: the intersection of the
/// per-term candidate lists.
pub fn candidates_for_terms(idx: &SearchIndexes, corpus: &Corpus, terms: &Vec<Vec<u8>>) -> (r:
    Vec<usize>)
    requires
        idx.wf_for(corpus.feats()),
        terms.len() >= 1,
        forall|k: int|
            0 <= k < terms@.len() ==> (#[trigger] terms@[k])@.len() >= 1 && is_folded(
                terms@[k]@,
            ),
    ensures
        sorted_strict(r@),
        forall|i: int| 0 <= i < r@.len() ==> (#[trigger] r@[i] as int) < corpus.feats().len(),
        forall|x: int|
            0 <= x < corpus.feats().len() && matches_all(
                #[trigger] corpus.feats()[x],
                terms_view(terms@),
            ) ==> entry_has(r@, x),
{
    let ghost feats = corpus.feats();
    let ghost tv = terms_view(terms@);
    let nfeat = corpus.len();
    let mut r = candidates_for_term(idx, corpus, &terms[0]);
    let mut k: usize = 1;
    proof {
        assert(tv[0] == terms@[0]@);
        assert forall|x: int|
            0 <= x < nfeat && matches_all(#[trigger] feats[x], tv.take(1)) implies entry_has(
            r@,
            x,
        ) by {
            assert(tv.take(1)[0] == tv[0]);
            assert(term_matches(feats[x], tv.take(1)[0]));
            assert(term_matches(feats[x], terms@[0]@));
        }
    }
    while k < terms.len()
        invariant
            idx.wf_for(feats),
            feats == corpus.feats(),
            nfeat == feats.len(),
            tv == terms_view(terms@),
            tv.len() == terms@.len(),
            forall|k1: int|
                0 <= k1 < terms@.len() ==> (#[trigger] terms@[k1])@.len() >= 1 && is_folded(
                    terms@[k1]@,
                ),
            1 <= k <= terms@.len(),
            sorted_strict(r@),
            forall|i: int| 0 <= i < r@.len() ==> (#[trigger] r@[i] as int) < nfeat,
            forall|x: int|
                0 <= x < nfeat && matches_all(#[trigger] feats[x], tv.take(k as int)) ==> entry_has(
                    r@,
                    x,
                ),
        decreases terms@.len() - k,
    {
        let ck = candidates_for_term(idx, corpus, &terms[k]);
        let newr = intersect(&r, &ck);
        proof {
            assert forall|x: int|
                0 <= x < nfeat && matches_all(#[trigger] feats[x], tv.take(k + 1)) implies entry_has(
                newr@,
                x,
            ) by {
                assert(forall|k1: int|
                    0 <= k1 < k + 1 ==> #[trigger] tv.take(k + 1)[k1] == tv[k1]);
                assert(forall|k1: int| 0 <= k1 < k ==> #[trigger] tv.take(k as int)[k1] == tv[k1]);
                assert forall|k1: int|
                    0 <= k1 < k implies term_matches(feats[x], #[trigger] tv.take(k as int)[k1]) by {
                    assert(term_matches(feats[x], tv.take(k + 1)[k1]));
                }
                assert(matches_all(feats[x], tv.take(k as int)));
                assert(term_matches(feats[x], tv.take(k + 1)[k as int]));
                assert(term_matches(feats[x], tv[k as int]));
                assert(tv[k as int] == terms@[k as int]@);
                assert(entry_has(ck@, x));
                assert(entry_has(r@, x));
            }
            assert forall|i: int|
                0 <= i < newr@.len() implies (#[trigger] newr@[i] as int) < nfeat by {
                assert(entry_has(newr@, newr@[i] as int));
                assert(entry_has(r@, newr@[i] as int));
                let j = choose|j: int| 0 <= j < r@.len() && r@[j] == newr@[i] as int;
            }
        }
        r = newr;
        k += 1;
    }
    proof {
        assert(tv.take(k as int) =~= tv);
    }
    r
}

} // verus!
