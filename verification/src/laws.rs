//! The engine's global laws, stated and proved over the search output
//! contract: determinism of ranked results, equivalence of the cached
//! refinement path with a full restart, exact span coverage, and the
//! alignment of item span lists.

use vstd::prelude::*;
use crate::corpus::{FeatureView, matches_all};
use crate::matcher::{MatchView, match_spec, rank_before, is_search_output};
use crate::spans::{covered, in_spans, lemma_spans_exact, cover_marks, marks_runs};
use crate::session::is_refinement;

verus! {

/// Some entry of the output carries feature index `i`.
pub open spec fn has_index(out: Seq<MatchView>, i: int) -> bool {
    exists|c: int| 0 <= c < out.len() && (#[trigger] out[c]).index == i
}

/// Two strictly ranked lists of fully determined matches with the same
/// feature-index sets are the same list.
proof fn lemma_ranked_unique(
    feats: Seq<FeatureView>,
    terms: Seq<Seq<u8>>,
    o1: Seq<MatchView>,
    o2: Seq<MatchView>,
)
    requires
        forall|c: int|
            0 <= c < o1.len() ==> (#[trigger] o1[c]) == match_spec(feats, terms, o1[c].index),
        forall|c: int|
            0 <= c < o2.len() ==> (#[trigger] o2[c]) == match_spec(feats, terms, o2[c].index),
        forall|c1: int, c2: int| 0 <= c1 < c2 < o1.len() ==> rank_before(o1[c1], o1[c2]),
        forall|c1: int, c2: int| 0 <= c1 < c2 < o2.len() ==> rank_before(o2[c1], o2[c2]),
        forall|i: int| has_index(o1, i) <==> has_index(o2, i),
    ensures
        o1 == o2,
    decreases o1.len(),
{
    if o1.len() == 0 {
        if o2.len() > 0 {
            assert(has_index(o2, o2[0].index));
            let c = choose|c: int| 0 <= c < o1.len() && (#[trigger] o1[c]).index == o2[0].index;
            assert(false);
        }
        assert(o1 =~= o2);
    } else {
        assert(has_index(o1, o1[0].index));
        let c2 = choose|c: int| 0 <= c < o2.len() && (#[trigger] o2[c]).index == o1[0].index;
        assert(o2[c2] == match_spec(feats, terms, o1[0].index));
        assert(o2[c2] == o1[0]);
        assert(has_index(o2, o2[0].index));
        let c1 = choose|c: int| 0 <= c < o1.len() && (#[trigger] o1[c]).index == o2[0].index;
        assert(o1[c1] == o2[0]);
        if c2 > 0 && c1 > 0 {
            assert(rank_before(o2[0], o2[c2]));
            assert(rank_before(o1[0], o1[c1]));
            assert(false);
        }
        assert(o1[0] == o2[0]);
        let t1 = o1.drop_first();
        let t2 = o2.drop_first();
        assert(forall|c: int| 0 <= c < t1.len() ==> #[trigger] t1[c] == o1[c + 1]);
        assert(forall|c: int| 0 <= c < t2.len() ==> #[trigger] t2[c] == o2[c + 1]);
        // the head's index does not recur: equal entries cannot be ranked
        assert forall|c: int| 1 <= c < o1.len() implies (#[trigger] o1[c]).index
            != o1[0].index by {
            if o1[c].index == o1[0].index {
                assert(o1[c] == o1[0]);
                assert(rank_before(o1[0], o1[c]));
            }
        }
        assert forall|c: int| 1 <= c < o2.len() implies (#[trigger] o2[c]).index
            != o2[0].index by {
            if o2[c].index == o2[0].index {
                assert(o2[c] == o2[0]);
                assert(rank_before(o2[0], o2[c]));
            }
        }
        assert forall|i: int| has_index(t1, i) == has_index(t2, i) by {
            if has_index(t1, i) {
                let c = choose|c: int| 0 <= c < t1.len() && (#[trigger] t1[c]).index == i;
                assert(o1[c + 1].index == i);
                assert(i != o1[0].index);
                assert(has_index(o1, i));
                let cc = choose|cc: int| 0 <= cc < o2.len() && (#[trigger] o2[cc]).index == i;
                assert(cc != 0);
                assert(t2[cc - 1].index == i);
                assert(has_index(t2, i));
            }
            if has_index(t2, i) {
                let c = choose|c: int| 0 <= c < t2.len() && (#[trigger] t2[c]).index == i;
                assert(o2[c + 1].index == i);
                assert(i != o2[0].index);
                assert(has_index(o2, i));
                let cc = choose|cc: int| 0 <= cc < o1.len() && (#[trigger] o1[cc]).index == i;
                assert(cc != 0);
                assert(t1[cc - 1].index == i);
                assert(has_index(t1, i));
            }
        }
        lemma_ranked_unique(feats, terms, t1, t2);
        assert(o1.len() == o2.len());
        assert forall|c: int| 0 <= c < o1.len() implies o1[c] == o2[c] by {
            if c > 0 {
                assert(o1[c] == t1[c - 1]);
                assert(o2[c] == t2[c - 1]);
            }
        }
        assert(o1 =~= o2);
    }
}

/// Idempotence and determinism: one corpus and one query admit exactly
/// one ranked result list, so running the same query twice against an
/// unchanged corpus yields identical ordered results.
pub proof fn lemma_search_deterministic(
    feats: Seq<FeatureView>,
    terms: Seq<Seq<u8>>,
    o1: Seq<MatchView>,
    o2: Seq<MatchView>,
)
    requires
        is_search_output(feats, terms, o1),
        is_search_output(feats, terms, o2),
    ensures
        o1 == o2,
{
    assert forall|i: int| has_index(o1, i) == has_index(o2, i) by {
        if has_index(o1, i) {
            let c = choose|c: int| 0 <= c < o1.len() && (#[trigger] o1[c]).index == i;
            assert(matches_all(feats[i], terms));
        }
        if has_index(o2, i) {
            let c = choose|c: int| 0 <= c < o2.len() && (#[trigger] o2[c]).index == i;
            assert(matches_all(feats[i], terms));
        }
    }
    lemma_ranked_unique(feats, terms, o1, o2);
}

/// Incremental equivalence: when the new terms refine the previous ones,
/// the result computed by re-scoring the cached result set and the result
/// of a full restart are one and the same ranked list.  (The session's
/// cached path is proved to produce a search output for the new terms;
/// this law says any two such outputs coincide.)
pub proof fn lemma_incremental_equivalence(
    feats: Seq<FeatureView>,
    prev_terms: Seq<Seq<u8>>,
    new_terms: Seq<Seq<u8>>,
    cached: Seq<MatchView>,
    full: Seq<MatchView>,
)
    requires
        is_refinement(prev_terms, new_terms),
        is_search_output(feats, new_terms, cached),
        is_search_output(feats, new_terms, full),
    ensures
        cached == full,
{
    lemma_search_deterministic(feats, new_terms, cached, full);
}

/// Item alignment: every result's item span list has exactly one entry
/// per item string of its feature, positionally aligned.
pub proof fn lemma_item_alignment(
    feats: Seq<FeatureView>,
    terms: Seq<Seq<u8>>,
    out: Seq<MatchView>,
    c: int,
)
    requires
        is_search_output(feats, terms, out),
        0 <= c < out.len(),
    ensures
        out[c].item_spans.len() == feats[out[c].index].items.len(),
{
    assert(out[c] == match_spec(feats, terms, out[c].index));
}

/// Span coverage: in every result, every field's spans are ascending,
/// non-overlapping and non-adjacent, and their union covers exactly the
/// bytes where some term matched.
pub proof fn lemma_span_coverage(
    feats: Seq<FeatureView>,
    terms: Seq<Seq<u8>>,
    out: Seq<MatchView>,
    c: int,
)
    requires
        is_search_output(feats, terms, out),
        0 <= c < out.len(),
        feats[out[c].index].title.len() <= usize::MAX,
        match feats[out[c].index].flag {
            Some(fl) => fl.len() <= usize::MAX,
            None => true,
        },
        forall|j: int|
            0 <= j < feats[out[c].index].items.len() ==> (#[trigger] feats[out[c].index].items[j]).len()
                <= usize::MAX,
    ensures
        ({
            let f = feats[out[c].index];
            let m = out[c];
            &&& forall|pos: int|
                0 <= pos < f.title.len() ==> (in_spans(m.title_spans, pos) <==> covered(
                    f.title,
                    terms,
                    pos,
                ))
            &&& forall|j: int|
                0 <= j < m.title_spans.len() - 1 ==> (#[trigger] m.title_spans[j]).end
                    < m.title_spans[j + 1].start
            &&& match f.flag {
                Some(fl) => forall|pos: int|
                    0 <= pos < fl.len() ==> (in_spans(m.flag_spans, pos) <==> covered(
                        fl,
                        terms,
                        pos,
                    )),
                None => m.flag_spans.len() == 0,
            }
            &&& forall|j: int, pos: int|
                0 <= j < f.items.len() && 0 <= pos < f.items[j].len() ==> (#[trigger] in_spans(
                    m.item_spans[j],
                    pos,
                ) <==> covered(f.items[j], terms, pos))
        }),
{
    let f = feats[out[c].index];
    let m = out[c];
    assert(m == match_spec(feats, terms, out[c].index));
    lemma_spans_exact(f.title, terms, m.title_spans);
    match f.flag {
        Some(fl) => {
            lemma_spans_exact(fl, terms, m.flag_spans);
        },
        None => {},
    }
    assert forall|j: int, pos: int|
        0 <= j < f.items.len() && 0 <= pos < f.items[j].len() implies (#[trigger] in_spans(
        m.item_spans[j],
        pos,
    ) <==> covered(f.items[j], terms, pos)) by {
        assert(m.item_spans[j] == marks_runs(cover_marks(f.items[j], terms)));
        lemma_spans_exact(f.items[j], terms, m.item_spans[j]);
    }
}

} // verus!
