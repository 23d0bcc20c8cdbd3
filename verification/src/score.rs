//! Relevance scoring.  A term's score against a feature is the best score
//! it reaches in any searchable field: the field weight (title above flag
//! above items) times a positional factor that decays with the offset of
//! the earliest occurrence.  A feature's score is the sum over the query
//! terms.  Ties in total score are broken downstream by feature index.

use vstd::prelude::*;
use crate::text::{folded, first_occ, first_occurrence, lemma_first_occ_from};
use crate::corpus::{Feature, FeatureView, terms_view};

verus! {

/// Weight of a match in the title field.
pub const TITLE_WEIGHT: u64 = 4;

/// Weight of a match in the flag text.
pub const FLAG_WEIGHT: u64 = 2;

/// Weight of a match in an item string.
pub const ITEM_WEIGHT: u64 = 1;

/// The larger of two integers.
pub open spec fn int_max(a: int, b: int) -> int {
    if a >= b {
        a
    } else {
        b
    }
}

/// Positional decay: earlier occurrences count more, bottoming out at 1.
pub open spec fn pos_factor(p: int) -> int {
    256 - (if p < 255 {
        p
    } else {
        255
    })
}

/// What one field contributes for one term: weight times decay of the
/// earliest case-insensitive occurrence, zero when the term is absent.
pub open spec fn field_term_score(field: Seq<u8>, weight: int, t: Seq<u8>) -> int {
    match first_occ(folded(field), t) {
        Some(p) => weight * pos_factor(p),
        None => 0,
    }
}

/// The best item contribution for one term.
pub open spec fn items_best(items: Seq<Seq<u8>>, t: Seq<u8>) -> int
    decreases items.len(),
{
    if items.len() == 0 {
        0
    } else {
        int_max(
            field_term_score(items[0], ITEM_WEIGHT as int, t),
            items_best(items.drop_first(), t),
        )
    }
}

/// One term's score against a feature: its best field contribution.
pub open spec fn term_score(f: FeatureView, t: Seq<u8>) -> int {
    int_max(
        int_max(
            field_term_score(f.title, TITLE_WEIGHT as int, t),
            match f.flag {
                Some(fl) => field_term_score(fl, FLAG_WEIGHT as int, t),
                None => 0,
            },
        ),
        items_best(f.items, t),
    )
}

/// The summed score of the first `k` terms.
pub open spec fn score_prefix(f: FeatureView, terms: Seq<Seq<u8>>, k: int) -> int
    decreases k,
    when k >= 0
{
    if k <= 0 {
        0
    } else {
        score_prefix(f, terms, k - 1) + term_score(f, terms[k - 1])
    }
}

/// A feature's total score for a query.
pub open spec fn score_of(f: FeatureView, terms: Seq<Seq<u8>>) -> int {
    score_prefix(f, terms, terms.len() as int)
}

/// One field's contribution is between zero and 256 times the weight.
pub proof fn lemma_field_term_score_bound(field: Seq<u8>, weight: int, t: Seq<u8>)
    requires
        weight >= 0,
    ensures
        0 <= field_term_score(field, weight, t) <= weight * 256,
{
    lemma_first_occ_from(folded(field), t, 0);
    match first_occ(folded(field), t) {
        Some(p) => {
            assert(0 <= p);
            assert(1 <= pos_factor(p) <= 256);
            assert(weight * 1 <= weight * pos_factor(p) <= weight * 256) by (nonlinear_arith)
                requires
                    weight >= 0,
                    1 <= pos_factor(p) <= 256,
            ;
        },
        None => {},
    }
}

/// The best item contribution is between zero and 256.
pub proof fn lemma_items_best_bound(items: Seq<Seq<u8>>, t: Seq<u8>)
    ensures
        0 <= items_best(items, t) <= 256,
    decreases items.len(),
{
    if items.len() > 0 {
        lemma_field_term_score_bound(items[0], ITEM_WEIGHT as int, t);
        lemma_items_best_bound(items.drop_first(), t);
    }
}

/// One term contributes between zero and 1024.
pub proof fn lemma_term_score_bound(f: FeatureView, t: Seq<u8>)
    ensures
        0 <= term_score(f, t) <= 1024,
{
    lemma_field_term_score_bound(f.title, TITLE_WEIGHT as int, t);
    match f.flag {
        Some(fl) => lemma_field_term_score_bound(fl, FLAG_WEIGHT as int, t),
        None => (),
    }
    lemma_items_best_bound(f.items, t);
}

/// The score of a term prefix is between zero and 1024 per term.
pub proof fn lemma_score_prefix_bound(f: FeatureView, terms: Seq<Seq<u8>>, k: int)
    requires
        0 <= k,
    ensures
        0 <= score_prefix(f, terms, k) <= 1024 * k,
    decreases k,
{
    if k > 0 {
        lemma_score_prefix_bound(f, terms, k - 1);
        lemma_term_score_bound(f, terms[k - 1]);
    }
}

/// Computes one field's contribution for one term.
fn field_term_score_exec(field: &Vec<u8>, weight: u64, t: &Vec<u8>) -> (r: u64)
    requires
        t.len() >= 1,
        weight <= 4,
    ensures
        r as int == field_term_score(field@, weight as int, t@),
        r <= weight * 256,
{
    proof {
        lemma_field_term_score_bound(field@, weight as int, t@);
    }
    match first_occurrence(field, t) {
        Some(p) => {
            let pf: u64 = if p < 255 {
                256 - (p as u64)
            } else {
                1
            };
            proof {
                assert(pf as int == pos_factor(p as int));
                assert(weight * pf <= weight * 256) by (nonlinear_arith)
                    requires
                        0 <= weight,
                        0 <= pf <= 256,
                ;
            }
            weight * pf
        },
        None => 0,
    }
}

/// Computes one term's score against a feature.
pub fn feature_term_score(f: &Feature, t: &Vec<u8>) -> (r: u64)
    requires
        t.len() >= 1,
    ensures
        r as int == term_score(f@, t@),
        r <= 1024,
{
    proof {
        lemma_term_score_bound(f@, t@);
    }
    let s_title = field_term_score_exec(&f.title, TITLE_WEIGHT, t);
    let s_flag = match &f.flag {
        Some(fl) => field_term_score_exec(fl, FLAG_WEIGHT, t),
        None => 0,
    };
    let mut best: u64 = if s_title >= s_flag {
        s_title
    } else {
        s_flag
    };
    let ghost items = f@.items;
    let ghost target = term_score(f@, t@);
    proof {
        assert(items.skip(0) =~= items);
    }
    let mut j: usize = 0;
    while j < f.items.len()
        invariant
            t.len() >= 1,
            items == f@.items,
            items.len() == f.items@.len(),
            target == term_score(f@, t@),
            j <= f.items@.len(),
            best <= 1024,
            int_max(best as int, items_best(items.skip(j as int), t@)) == target,
        decreases f.items@.len() - j,
    {
        let sj = field_term_score_exec(&f.items[j], ITEM_WEIGHT, t);
        proof {
            assert(f.items@[j as int]@ == items[j as int]);
            assert(items.skip(j as int)[0] == items[j as int]);
            assert(items.skip(j as int).drop_first() =~= items.skip(j + 1));
            lemma_items_best_bound(items.skip(j + 1), t@);
        }
        if sj > best {
            best = sj;
        }
        proof {
            assert(int_max(best as int, items_best(items.skip(j + 1), t@)) == target);
        }
        j += 1;
    }
    proof {
        assert(items.skip(items.len() as int) =~= Seq::<Seq<u8>>::empty());
        assert(items_best(items.skip(j as int), t@) == 0);
    }
    best
}

/// Computes a feature's total score for the query terms.
pub fn feature_score(f: &Feature, terms: &Vec<Vec<u8>>) -> (r: u128)
    requires
        forall|k: int| 0 <= k < terms@.len() ==> (#[trigger] terms@[k])@.len() >= 1,
    ensures
        r as int == score_of(f@, terms_view(terms@)),
{
    let ghost tv = terms_view(terms@);
    let mut acc: u128 = 0;
    let mut k: usize = 0;
    while k < terms.len()
        invariant
            tv == terms_view(terms@),
            tv.len() == terms@.len(),
            forall|k1: int| 0 <= k1 < terms@.len() ==> (#[trigger] terms@[k1])@.len() >= 1,
            k <= terms@.len(),
            acc as int == score_prefix(f@, tv, k as int),
            acc <= 1024 * (k as u128),
        decreases terms@.len() - k,
    {
        let ts = feature_term_score(f, &terms[k]);
        proof {
            assert(tv[k as int] == terms@[k as int]@);
            assert(k as u128 <= u64::MAX as u128);
        }
        acc = acc + (ts as u128);
        k += 1;
    }
    acc
}

} // verus!
