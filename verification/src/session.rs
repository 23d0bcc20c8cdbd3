//! The incremental search session.  It keeps the previous query's terms
//! and ranked results; when a new query merely refines the old one (the
//! user kept typing the last word, or added words), only the previous
//! result set is re-matched and re-scored, skipping index retrieval —
//! with the same final result set as a full restart.

use vstd::prelude::*;
use crate::corpus::{Corpus, FeatureView, term_matches, matches_all, terms_view, lemma_term_matches_window};
use crate::text::is_folded;
use crate::index::{SearchIndexes, entry_has};
use crate::terms::{extract_search_terms, query_terms};
use crate::matcher::{MatchedFeature, out_view, match_spec, rank_before, is_search_output, score_candidates, run_search};

verus! {

/// `a` is a prefix of `b`.
pub open spec fn seq_is_prefix(a: Seq<u8>, b: Seq<u8>) -> bool {
    a.len() <= b.len() && b.subrange(0, a.len() as int) == a
}

/// The new terms `q` refine the previous terms `p`: all completed terms
/// of `p` are kept unchanged, and `p`'s last term is a prefix of the
/// corresponding term of `q` (equality included, so extending the query
/// with further terms refines it too).
pub open spec fn is_refinement(p: Seq<Seq<u8>>, q: Seq<Seq<u8>>) -> bool {
    &&& p.len() >= 1
    &&& p.len() <= q.len()
    &&& forall|k: int| 0 <= k < p.len() - 1 ==> p[k] == q[k]
    &&& seq_is_prefix(p[p.len() - 1], q[p.len() - 1])
}

/// A feature matching every refined term matches every previous term:
/// the previous result set can only shrink under refinement.
pub proof fn lemma_refinement_narrows(f: FeatureView, p: Seq<Seq<u8>>, q: Seq<Seq<u8>>)
    requires
        is_refinement(p, q),
        matches_all(f, q),
    ensures
        matches_all(f, p),
{
    assert forall|k: int| 0 <= k < p.len() implies term_matches(f, p[k]) by {
        if k < p.len() - 1 {
            assert(term_matches(f, q[k]));
        } else {
            assert(term_matches(f, q[k]));
            lemma_term_matches_window(f, q[k], 0, p[k].len() as int);
            assert(q[k].subrange(0, p[k].len() as int) == p[k]);
        }
    }
}

/// Byte-string equality.
fn vec_u8_eq(a: &Vec<u8>, b: &Vec<u8>) -> (r: bool)
    ensures
        r == (a@ == b@),
{
    if a.len() != b.len() {
        return false;
    }
    let mut i: usize = 0;
    while i < a.len()
        invariant
            a@.len() == b@.len(),
            i <= a@.len(),
            forall|x: int| 0 <= x < i ==> a@[x] == b@[x],
        decreases a@.len() - i,
    {
        if a[i] != b[i] {
            return false;
        }
        i += 1;
    }
    proof {
        assert(a@ =~= b@);
    }
    true
}

/// Whether `a` is a prefix of `b`.
fn is_prefix_of(a: &Vec<u8>, b: &Vec<u8>) -> (r: bool)
    ensures
        r == seq_is_prefix(a@, b@),
{
    if a.len() > b.len() {
        return false;
    }
    let mut i: usize = 0;
    while i < a.len()
        invariant
            a@.len() <= b@.len(),
            i <= a@.len(),
            forall|x: int| 0 <= x < i ==> a@[x] == b@[x],
        decreases a@.len() - i,
    {
        if a[i] != b[i] {
            proof {
                if seq_is_prefix(a@, b@) {
                    assert(b@.subrange(0, a@.len() as int)[i as int] == a@[i as int]);
                }
            }
            return false;
        }
        i += 1;
    }
    proof {
        assert(b@.subrange(0, a@.len() as int) =~= a@);
    }
    true
}

/// The refinement test on extracted term lists.
pub fn terms_refine(prev: &Vec<Vec<u8>>, new: &Vec<Vec<u8>>) -> (r: bool)
    ensures
        r == is_refinement(terms_view(prev@), terms_view(new@)),
{
    let ghost pv = terms_view(prev@);
    let ghost qv = terms_view(new@);
    if prev.len() == 0 || prev.len() > new.len() {
        return false;
    }
    let lastk = prev.len() - 1;
    let mut k: usize = 0;
    while k < lastk
        invariant
            pv == terms_view(prev@),
            qv == terms_view(new@),
            pv.len() == prev@.len(),
            qv.len() == new@.len(),
            lastk == prev@.len() - 1,
            prev@.len() <= new@.len(),
            k <= lastk,
            forall|x: int| 0 <= x < k ==> pv[x] == qv[x],
        decreases lastk - k,
    {
        if !vec_u8_eq(&prev[k], &new[k]) {
            proof {
                assert(pv[k as int] == prev@[k as int]@ && qv[k as int] == new@[k as int]@);
            }
            return false;
        }
        proof {
            assert(pv[k as int] == prev@[k as int]@ && qv[k as int] == new@[k as int]@);
        }
        k += 1;
    }
    let r = is_prefix_of(&prev[lastk], &new[lastk]);
    proof {
        assert(pv[lastk as int] == prev@[lastk as int]@);
        assert(qv[lastk as int] == new@[lastk as int]@);
    }
    r
}

/// The session's state: no active search, or the last query's terms with
/// their ranked results.
pub enum SearchState {
    Empty,
    Active { terms: Vec<Vec<u8>>, results: Vec<MatchedFeature> },
}

/// A single-owner incremental search session.
pub struct SearchSession {
    pub state: SearchState,
}

impl SearchSession {
    /// The session's stored results are exactly the search output for its
    /// stored terms over this corpus.
    pub open spec fn wf_for(&self, feats: Seq<FeatureView>) -> bool {
        match self.state {
            SearchState::Empty => true,
            SearchState::Active { terms, results } => {
                &&& terms@.len() >= 1
                &&& forall|k: int|
                    0 <= k < terms@.len() ==> (#[trigger] terms@[k])@.len() >= 1 && is_folded(
                        terms@[k]@,
                    )
                &&& is_search_output(feats, terms_view(terms@), out_view(results@))
            },
        }
    }

    /// A fresh session: no active search yet.
    pub fn new() -> (s: SearchSession)
        ensures
            s.state is Empty,
    {
        SearchSession { state: SearchState::Empty }
    }

    /// Feeds one query to the session.  Empty terms clear the search;
    /// otherwise the stored results become exactly the search output for
    /// the query, computed from the cached result set when the query
    /// refines the previous one and from full retrieval otherwise.
    pub fn on_query(&mut self, corpus: &Corpus, idx: &SearchIndexes, query: &Vec<u8>)
        requires
            old(self).wf_for(corpus.feats()),
            idx.wf_for(corpus.feats()),
        ensures
            final(self).wf_for(corpus.feats()),
            match final(self).state {
                SearchState::Empty => query_terms(query@).len() == 0,
                SearchState::Active { terms, results } => {
                    &&& terms_view(terms@) == query_terms(query@)
                    &&& is_search_output(
                        corpus.feats(),
                        query_terms(query@),
                        out_view(results@),
                    )
                },
            },
    {
        let terms = extract_search_terms(query);
        if terms.len() == 0 {
            self.state = SearchState::Empty;
            return ;
        }
        let ghost qv = terms_view(terms@);
        let mut cached: Option<Vec<usize>> = None;
        match &self.state {
            SearchState::Active { terms: pterms, results } => {
                if terms_refine(pterms, &terms) {
                    cached = Some(
                        refine_candidates(
                            results,
                            Ghost(corpus.feats()),
                            Ghost(terms_view(pterms@)),
                            Ghost(qv),
                        ),
                    );
                }
            },
            SearchState::Empty => {},
        }
        match cached {
            Some(cands) => {
                let results = score_candidates(corpus, &terms, &cands);
                self.state = SearchState::Active { terms, results };
            },
            None => {
                let results = run_search(corpus, idx, &terms);
                self.state = SearchState::Active { terms, results };
            },
        }
    }
}

/// The cached path's candidate list: the previous result set's feature
/// indices.  Under refinement this list still contains every feature
/// matching the new terms, so exact re-matching over it alone is
/// complete.
fn refine_candidates(
    results: &Vec<MatchedFeature>,
    Ghost(feats): Ghost<Seq<FeatureView>>,
    Ghost(ptv): Ghost<Seq<Seq<u8>>>,
    Ghost(qtv): Ghost<Seq<Seq<u8>>>,
) -> (cands: Vec<usize>)
    requires
        is_search_output(feats, ptv, out_view(results@)),
        is_refinement(ptv, qtv),
    ensures
        forall|c: int| 0 <= c < cands@.len() ==> (#[trigger] cands@[c] as int) < feats.len(),
        forall|c1: int, c2: int| 0 <= c1 < c2 < cands@.len() ==> cands@[c1] != cands@[c2],
        forall|i: int|
            0 <= i < feats.len() && matches_all(#[trigger] feats[i], qtv) ==> entry_has(
                cands@,
                i,
            ),
{
    let ghost ov = out_view(results@);
    proof {
        // strict ranking makes the stored indices pairwise distinct
        assert forall|c1: int, c2: int|
            0 <= c1 < c2 < ov.len() implies (#[trigger] ov[c1]).index != (
        #[trigger] ov[c2]).index by {
            if ov[c1].index == ov[c2].index {
                assert(ov[c1] == match_spec(feats, ptv, ov[c1].index));
                assert(ov[c2] == match_spec(feats, ptv, ov[c2].index));
                assert(rank_before(ov[c1], ov[c2]));
            }
        }
    }
    let mut cands: Vec<usize> = Vec::new();
    let mut c: usize = 0;
    while c < results.len()
        invariant
            ov == out_view(results@),
            ov.len() == results@.len(),
            is_search_output(feats, ptv, ov),
            forall|c1: int, c2: int|
                0 <= c1 < c2 < ov.len() ==> (#[trigger] ov[c1]).index != (
                #[trigger] ov[c2]).index,
            c <= results@.len(),
            cands@.len() == c,
            forall|c1: int| 0 <= c1 < c ==> cands@[c1] as int == (#[trigger] ov[c1]).index,
        decreases results@.len() - c,
    {
        let i = results[c].index;
        proof {
            assert(ov[c as int] == results@[c as int]@);
        }
        cands.push(i);
        c += 1;
    }
    proof {
        assert forall|i: int|
            0 <= i < feats.len() && matches_all(#[trigger] feats[i], qtv) implies entry_has(
            cands@,
            i,
        ) by {
            lemma_refinement_narrows(feats[i], ptv, qtv);
            let c1 = choose|c1: int| 0 <= c1 < ov.len() && (#[trigger] ov[c1]).index == i;
            assert(cands@[c1] as int == i);
        }
        assert forall|c1: int|
            0 <= c1 < cands@.len() implies (#[trigger] cands@[c1] as int) < feats.len() by {
            assert(cands@[c1] as int == ov[c1].index);
        }
        assert forall|c1: int, c2: int|
            0 <= c1 < c2 < cands@.len() implies cands@[c1] != cands@[c2] by {
            assert(cands@[c1] as int == ov[c1].index);
            assert(cands@[c2] as int == ov[c2].index);
        }
    }
    cands
}

} // verus!
