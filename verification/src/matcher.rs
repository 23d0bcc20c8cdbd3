//! The matcher and scorer.  Candidates surviving retrieval are checked
//! exactly — every term must occur case-insensitively in some searchable
//! field — then scored, annotated with highlight spans, and ranked by
//! descending score with ties broken by ascending feature index.

use vstd::prelude::*;
use crate::text::{folded, is_folded, first_occurrence, lemma_first_occ_from};
use crate::corpus::{Corpus, Feature, FeatureView, field_matches, any_item_matches, term_matches, matches_all, terms_view};
use crate::index::{SearchIndexes, entry_has};
use crate::retrieve::candidates_for_terms;
use crate::spans::{Span, cover_marks, marks_runs, field_spans};
use crate::score::{score_of, feature_score};

verus! {

/// One ranked match: the feature's stable corpus index, its score, and
/// one span list per searchable field.  The item span lists align
/// positionally with the feature's item strings; an item that did not
/// match carries an empty list.
pub struct MatchedFeature {
    pub index: usize,
    pub score: u128,
    pub title_spans: Vec<Span>,
    pub flag_spans: Vec<Span>,
    pub item_spans: Vec<Vec<Span>>,
}

/// The mathematical value of a match.
#[verifier::ext_equal]
pub ghost struct MatchView {
    pub index: int,
    pub score: int,
    pub title_spans: Seq<Span>,
    pub flag_spans: Seq<Span>,
    pub item_spans: Seq<Seq<Span>>,
}

impl View for MatchedFeature {
    type V = MatchView;

    open spec fn view(&self) -> MatchView {
        MatchView {
            index: self.index as int,
            score: self.score as int,
            title_spans: self.title_spans@,
            flag_spans: self.flag_spans@,
            item_spans: self.item_spans@.map_values(|v: Vec<Span>| v@),
        }
    }
}

/// The display payload for one hit, as a view layer consumes it: the
/// feature record to show, if any, and its match annotations.
pub struct Props {
    pub data: Option<Feature>,
    pub match_: MatchedFeature,
}

/// The views of a result list.
pub open spec fn out_view(s: Seq<MatchedFeature>) -> Seq<MatchView> {
    s.map_values(|m: MatchedFeature| m@)
}

/// The one value a match of feature `i` can take for a query: its exact
/// score, and per field the maximal runs of bytes covered by some term
/// occurrence.  The item span lists align with the item strings.
pub open spec fn match_spec(feats: Seq<FeatureView>, terms: Seq<Seq<u8>>, i: int) -> MatchView {
    let f = feats[i];
    MatchView {
        index: i,
        score: score_of(f, terms),
        title_spans: marks_runs(cover_marks(f.title, terms)),
        flag_spans: match f.flag {
            Some(fl) => marks_runs(cover_marks(fl, terms)),
            None => Seq::empty(),
        },
        item_spans: Seq::new(f.items.len(), |j: int| marks_runs(cover_marks(f.items[j], terms))),
    }
}

/// Ranking: higher score first; equal scores in ascending index order.
pub open spec fn rank_before(a: MatchView, b: MatchView) -> bool {
    a.score > b.score || (a.score == b.score && a.index < b.index)
}

/// The whole contract of a search over `feats` with `terms`:
/// every entry is the exact match of its feature, every entry's feature
/// matches all terms, entries are strictly rank-ordered, and every
/// feature matching all terms appears.
pub open spec fn is_search_output(
    feats: Seq<FeatureView>,
    terms: Seq<Seq<u8>>,
    out: Seq<MatchView>,
) -> bool {
    &&& forall|c: int|
        0 <= c < out.len() ==> 0 <= (#[trigger] out[c]).index < feats.len() && matches_all(
            feats[out[c].index],
            terms,
        ) && out[c] == match_spec(feats, terms, out[c].index)
    &&& forall|c1: int, c2: int|
        0 <= c1 < c2 < out.len() ==> rank_before(out[c1], out[c2])
    &&& forall|i: int|
        0 <= i < feats.len() && matches_all(#[trigger] feats[i], terms) ==> exists|c: int|
            0 <= c < out.len() && (#[trigger] out[c]).index == i
}

/// Whether the term occurs case-insensitively in the field.
fn field_contains(field: &Vec<u8>, t: &Vec<u8>) -> (r: bool)
    requires
        t.len() >= 1,
    ensures
        r == field_matches(field@, t@),
{
    proof {
        lemma_first_occ_from(folded(field@), t@, 0);
    }
    match first_occurrence(field, t) {
        Some(_) => true,
        None => false,
    }
}

/// Whether the term occurs in some searchable field of the feature.
pub fn feature_matches_term(f: &Feature, t: &Vec<u8>) -> (r: bool)
    requires
        t.len() >= 1,
    ensures
        r == term_matches(f@, t@),
{
    if field_contains(&f.title, t) {
        return true;
    }
    match &f.flag {
        Some(fl) => {
            if field_contains(fl, t) {
                return true;
            }
        },
        None => {},
    }
    let mut j: usize = 0;
    while j < f.items.len()
        invariant
            t.len() >= 1,
            j <= f.items@.len(),
            f@.items.len() == f.items@.len(),
            forall|j1: int| 0 <= j1 < j ==> !field_matches(#[trigger] f@.items[j1], t@),
            !field_matches(f@.title, t@),
            match f@.flag {
                Some(fl) => !field_matches(fl, t@),
                None => true,
            },
        decreases f.items@.len() - j,
    {
        if field_contains(&f.items[j], t) {
            proof {
                assert(f@.items[j as int] == f.items@[j as int]@);
                assert(any_item_matches(f@.items, t@));
            }
            return true;
        }
        proof {
            assert(f@.items[j as int] == f.items@[j as int]@);
        }
        j += 1;
    }
    proof {
        if any_item_matches(f@.items, t@) {
            let j1 = choose|j1: int|
                0 <= j1 < f@.items.len() && field_matches(f@.items[j1], t@);
        }
    }
    false
}

/// Whether every query term matches some searchable field: the exact
/// inclusion test for final results.
pub fn feature_matches_all(f: &Feature, terms: &Vec<Vec<u8>>) -> (r: bool)
    requires
        forall|k: int| 0 <= k < terms@.len() ==> (#[trigger] terms@[k])@.len() >= 1,
    ensures
        r == matches_all(f@, terms_view(terms@)),
{
    let ghost tv = terms_view(terms@);
    let mut k: usize = 0;
    while k < terms.len()
        invariant
            tv == terms_view(terms@),
            tv.len() == terms@.len(),
            forall|k1: int| 0 <= k1 < terms@.len() ==> (#[trigger] terms@[k1])@.len() >= 1,
            k <= terms@.len(),
            forall|k1: int| 0 <= k1 < k ==> term_matches(f@, #[trigger] tv[k1]),
        decreases terms@.len() - k,
    {
        if !feature_matches_term(f, &terms[k]) {
            proof {
                assert(tv[k as int] == terms@[k as int]@);
            }
            return false;
        }
        proof {
            assert(tv[k as int] == terms@[k as int]@);
        }
        k += 1;
    }
    true
}

/// Builds the exact match record of feature `i` for the query.
fn make_match(corpus: &Corpus, i: usize, terms: &Vec<Vec<u8>>) -> (m: MatchedFeature)
    requires
        i < corpus.feats().len(),
        forall|k: int| 0 <= k < terms@.len() ==> (#[trigger] terms@[k])@.len() >= 1,
    ensures
        m@ == match_spec(corpus.feats(), terms_view(terms@), i as int),
{
    let ghost tv = terms_view(terms@);
    let f = corpus.feature(i);
    let ghost fv = f@;
    proof {
        assert(fv == corpus.feats()[i as int]);
    }
    let title_spans = field_spans(&f.title, terms);
    proof {
        assert(title_spans@ == marks_runs(cover_marks(fv.title, tv)));
    }
    let flag_spans = match &f.flag {
        Some(fl) => {
            let v = field_spans(fl, terms);
            proof {
                assert(fv.flag == Some(fl@));
            }
            v
        },
        None => Vec::new(),
    };
    let mut item_spans: Vec<Vec<Span>> = Vec::new();
    let mut j: usize = 0;
    while j < f.items.len()
        invariant
            tv == terms_view(terms@),
            forall|k: int| 0 <= k < terms@.len() ==> (#[trigger] terms@[k])@.len() >= 1,
            fv == f@,
            fv.items.len() == f.items@.len(),
            j <= f.items@.len(),
            item_spans@.len() == j,
            forall|j1: int|
                0 <= j1 < j ==> (#[trigger] item_spans@[j1])@ == marks_runs(
                    cover_marks(fv.items[j1], tv),
                ),
        decreases f.items@.len() - j,
    {
        let sp = field_spans(&f.items[j], terms);
        proof {
            assert(fv.items[j as int] == f.items@[j as int]@);
        }
        item_spans.push(sp);
        j += 1;
    }
    let score = feature_score(f, terms);
    let m = MatchedFeature { index: i, score, title_spans, flag_spans, item_spans };
    proof {
        assert(m@.item_spans =~= Seq::new(
            fv.items.len(),
            |j1: int| marks_runs(cover_marks(fv.items[j1], tv)),
        ));
        assert(m@ =~= match_spec(corpus.feats(), tv, i as int));
    }
    m
}

/// Whether `a` ranks strictly before `b`.
fn ranks_before(a: &MatchedFeature, b: &MatchedFeature) -> (r: bool)
    ensures
        r == rank_before(a@, b@),
{
    a.score > b.score || (a.score == b.score && a.index < b.index)
}

/// Inserts a match into a rank-sorted list, keeping it sorted.  The new
/// match's feature index must be absent, so the ranking stays strict.
fn insert_ranked(out: &mut Vec<MatchedFeature>, m: MatchedFeature)
    requires
        forall|c1: int, c2: int|
            0 <= c1 < c2 < out_view(old(out)@).len() ==> rank_before(
                out_view(old(out)@)[c1],
                out_view(old(out)@)[c2],
            ),
        forall|c1: int|
            0 <= c1 < out_view(old(out)@).len() ==> (#[trigger] out_view(old(out)@)[c1]).index
                != m@.index,
    ensures
        out_view(final(out)@).len() == out_view(old(out)@).len() + 1,
        forall|c1: int, c2: int|
            0 <= c1 < c2 < out_view(final(out)@).len() ==> rank_before(
                out_view(final(out)@)[c1],
                out_view(final(out)@)[c2],
            ),
        forall|c1: int|
            0 <= c1 < out_view(final(out)@).len() ==> (#[trigger] out_view(final(out)@)[c1])
                == m@ || exists|c0: int|
                0 <= c0 < out_view(old(out)@).len() && out_view(final(out)@)[c1] == out_view(
                    old(out)@,
                )[c0],
        forall|c0: int|
            0 <= c0 < out_view(old(out)@).len() ==> exists|c1: int|
                0 <= c1 < out_view(final(out)@).len() && out_view(final(out)@)[c1] == (
                #[trigger] out_view(old(out)@)[c0]),
        exists|c1: int|
            0 <= c1 < out_view(final(out)@).len() && (#[trigger] out_view(final(out)@)[c1])
                == m@,
{
    let ghost pre = out_view(out@);
    let ghost pre_vec = out@;
    let mut pos: usize = 0;
    while pos < out.len() && !ranks_before(&m, &out[pos])
        invariant
            pre == out_view(out@),
            pre_vec == out@,
            pos <= out@.len(),
            forall|c1: int| 0 <= c1 < pos ==> !rank_before(m@, #[trigger] pre[c1]),
        decreases out@.len() - pos,
    {
        proof {
            assert(pre[pos as int] == out@[pos as int]@);
        }
        pos += 1;
    }
    proof {
        assert(pos == pre.len() || rank_before(m@, pre[pos as int]));
        assert forall|c1: int| 0 <= c1 < pos implies rank_before(#[trigger] pre[c1], m@) by {
            assert(!rank_before(m@, pre[c1]));
            assert(pre[c1].index != m@.index);
        }
    }
    out.insert(pos, m);
    proof {
        let now = out_view(out@);
        assert(out@ == pre_vec.insert(pos as int, m));
        assert(forall|c1: int|
            0 <= c1 < out@.len() ==> #[trigger] out@[c1] == (if c1 < pos {
                pre_vec[c1]
            } else if c1 == pos {
                m
            } else {
                pre_vec[c1 - 1]
            }));
        assert(forall|c1: int|
            0 <= c1 < now.len() ==> #[trigger] now[c1] == (if c1 < pos {
                pre[c1]
            } else if c1 == pos {
                m@
            } else {
                pre[c1 - 1]
            }));
        assert forall|c1: int, c2: int|
            0 <= c1 < c2 < now.len() implies rank_before(now[c1], now[c2]) by {
            if c1 == pos && c2 > pos {
                if c2 - 1 > pos {
                    assert(rank_before(pre[pos as int], pre[c2 - 1]));
                }
            } else if c1 < pos && c2 > pos {
                assert(rank_before(pre[c1], m@));
                assert(c1 < c2 - 1);
                assert(rank_before(pre[c1], pre[c2 - 1]));
            }
        }
        assert(now[pos as int] == m@);
        assert forall|c0: int|
            0 <= c0 < pre.len() implies exists|c1: int|
                0 <= c1 < now.len() && now[c1] == (#[trigger] pre[c0]) by {
            let c1 = if c0 < pos {
                c0
            } else {
                c0 + 1
            };
            assert(now[c1] == pre[c0]);
        }
    }
}

/// Checks each candidate exactly, builds its match record, and keeps the
/// result list strictly rank-ordered.  The candidate list must be
/// duplicate-free and contain every feature matching all terms; the
/// output then satisfies the whole search contract.
#[verifier::rlimit(80)]
pub fn score_candidates(corpus: &Corpus, terms: &Vec<Vec<u8>>, cands: &Vec<usize>) -> (out: Vec<
    MatchedFeature,
>)
    requires
        forall|k: int| 0 <= k < terms@.len() ==> (#[trigger] terms@[k])@.len() >= 1,
        forall|c: int|
            0 <= c < cands@.len() ==> (#[trigger] cands@[c] as int) < corpus.feats().len(),
        forall|c1: int, c2: int| 0 <= c1 < c2 < cands@.len() ==> cands@[c1] != cands@[c2],
        forall|i: int|
            0 <= i < corpus.feats().len() && matches_all(
                #[trigger] corpus.feats()[i],
                terms_view(terms@),
            ) ==> entry_has(cands@, i),
    ensures
        is_search_output(corpus.feats(), terms_view(terms@), out_view(out@)),
{
    let ghost feats = corpus.feats();
    let ghost tv = terms_view(terms@);
    let mut out: Vec<MatchedFeature> = Vec::new();
    let mut c: usize = 0;
    while c < cands.len()
        invariant
            feats == corpus.feats(),
            tv == terms_view(terms@),
            forall|k: int| 0 <= k < terms@.len() ==> (#[trigger] terms@[k])@.len() >= 1,
            forall|c1: int|
                0 <= c1 < cands@.len() ==> (#[trigger] cands@[c1] as int) < feats.len(),
            forall|c1: int, c2: int| 0 <= c1 < c2 < cands@.len() ==> cands@[c1] != cands@[c2],
            c <= cands@.len(),
            forall|c1: int|
                0 <= c1 < out_view(out@).len() ==> 0 <= (#[trigger] out_view(out@)[c1]).index
                    < feats.len() && matches_all(feats[out_view(out@)[c1].index], tv) && out_view(
                    out@,
                )[c1] == match_spec(feats, tv, out_view(out@)[c1].index),
            forall|c1: int, c2: int|
                0 <= c1 < c2 < out_view(out@).len() ==> rank_before(
                    out_view(out@)[c1],
                    out_view(out@)[c2],
                ),
            forall|c1: int|
                0 <= c1 < out_view(out@).len() ==> exists|c2: int|
                    0 <= c2 < c && cands@[c2] as int == (#[trigger] out_view(out@)[c1]).index,
            forall|c2: int|
                0 <= c2 < c && matches_all(feats[#[trigger] cands@[c2] as int], tv)
                    ==> exists|c1: int|
                    0 <= c1 < out_view(out@).len() && (#[trigger] out_view(out@)[c1]).index
                        == cands@[c2] as int,
        decreases cands@.len() - c,
    {
        let i = cands[c];
        let f = corpus.feature(i);
        let ghost pre = out_view(out@);
        if feature_matches_all(f, terms) {
            let m = make_match(corpus, i, terms);
            proof {
                assert forall|c1: int| 0 <= c1 < pre.len() implies (#[trigger] pre[c1]).index
                    != m@.index by {
                    let c2 = choose|c2: int|
                        0 <= c2 < c && cands@[c2] as int == (#[trigger] pre[c1]).index;
                }
            }
            insert_ranked(&mut out, m);
            proof {
                let now = out_view(out@);
                assert forall|c1: int|
                    0 <= c1 < now.len() implies 0 <= (#[trigger] now[c1]).index < feats.len()
                        && matches_all(feats[now[c1].index], tv) && now[c1] == match_spec(
                        feats,
                        tv,
                        now[c1].index,
                    ) && exists|c2: int|
                        0 <= c2 < c + 1 && cands@[c2] as int == now[c1].index by {
                    if now[c1] == m@ {
                        assert(cands@[c as int] as int == now[c1].index);
                    } else {
                        let c0 = choose|c0: int| 0 <= c0 < pre.len() && now[c1] == pre[c0];
                        let c2 = choose|c2: int|
                            0 <= c2 < c && cands@[c2] as int == (#[trigger] pre[c0]).index;
                        assert(0 <= c2 < c + 1 && cands@[c2] as int == now[c1].index);
                    }
                }
                assert forall|c2: int|
                    0 <= c2 < c + 1 && matches_all(feats[#[trigger] cands@[c2] as int], tv)
                        implies exists|c1: int|
                        0 <= c1 < now.len() && (#[trigger] now[c1]).index == cands@[c2]
                            as int by {
                    if c2 == c {
                        let c1 = choose|c1: int| 0 <= c1 < now.len() && (#[trigger] now[c1]) == m@;
                        assert(now[c1].index == cands@[c2] as int);
                    } else {
                        let c1o = choose|c1o: int|
                            0 <= c1o < pre.len() && (#[trigger] pre[c1o]).index == cands@[c2]
                                as int;
                        let c1 = choose|c1: int| 0 <= c1 < now.len() && now[c1] == pre[c1o];
                        assert(now[c1].index == cands@[c2] as int);
                    }
                }
            }
        } else {
            proof {
                assert forall|c2: int|
                    0 <= c2 < c + 1 && matches_all(feats[#[trigger] cands@[c2] as int], tv)
                        implies exists|c1: int|
                        0 <= c1 < out_view(out@).len() && (#[trigger] out_view(out@)[c1]).index
                            == cands@[c2] as int by {
                    assert(c2 != c);
                }
            }
        }
        c += 1;
    }
    proof {
        assert forall|i: int|
            0 <= i < feats.len() && matches_all(#[trigger] feats[i], tv) implies exists|c1: int|
                0 <= c1 < out_view(out@).len() && (#[trigger] out_view(out@)[c1]).index == i by {
            assert(entry_has(cands@, i));
            let c2 = choose|c2: int| 0 <= c2 < cands@.len() && cands@[c2] == i;
            assert(matches_all(feats[cands@[c2] as int], tv));
        }
    }
    out
}

/// The full search: narrow the corpus through the n-gram indexes, then
/// match, score and rank exactly.  A feature appears in the result
/// exactly when every term matches one of its searchable fields.
pub fn run_search(corpus: &Corpus, idx: &SearchIndexes, terms: &Vec<Vec<u8>>) -> (out: Vec<
    MatchedFeature,
>)
    requires
        idx.wf_for(corpus.feats()),
        terms.len() >= 1,
        forall|k: int|
            0 <= k < terms@.len() ==> (#[trigger] terms@[k])@.len() >= 1 && is_folded(
                terms@[k]@,
            ),
    ensures
        is_search_output(corpus.feats(), terms_view(terms@), out_view(out@)),
{
    let cands = candidates_for_terms(idx, corpus, terms);
    score_candidates(corpus, terms, &cands)
}

} // verus!
