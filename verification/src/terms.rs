//! The term extractor: splits a raw query into maximal runs of
//! non-whitespace bytes and case-folds each run.  An empty or
//! all-whitespace query yields no terms, the signal for "no active
//! search".

use vstd::prelude::*;
use crate::text::{fold_byte_exec, folded, is_folded, is_ws, is_ws_exec};
use crate::corpus::terms_view;

verus! {

/// The end of the run of non-whitespace bytes starting at `p`.
pub open spec fn token_end(s: Seq<u8>, p: int) -> int
    decreases s.len() + 1 - p,
    when 0 <= p
{
    if p >= s.len() {
        p
    } else if is_ws(s[p]) {
        p
    } else {
        token_end(s, p + 1)
    }
}

/// Where the token run ends: not before `p`, not past the end, only
/// non-whitespace inside, whitespace (or the end) right after.
pub proof fn lemma_token_end(s: Seq<u8>, p: int)
    requires
        0 <= p,
    ensures
        p <= token_end(s, p),
        token_end(s, p) <= s.len() || p >= s.len(),
        p < s.len() && !is_ws(s[p]) ==> token_end(s, p) > p,
        forall|x: int| p <= x < token_end(s, p) ==> !is_ws(s[x]),
        token_end(s, p) < s.len() ==> is_ws(s[token_end(s, p)]),
    decreases s.len() + 1 - p,
{
    if p >= s.len() {
    } else if is_ws(s[p]) {
    } else {
        lemma_token_end(s, p + 1);
    }
}

/// A maximal non-whitespace run determines the token end.
pub proof fn lemma_token_end_eq(s: Seq<u8>, a: int, b: int)
    requires
        0 <= a <= b <= s.len(),
        forall|x: int| a <= x < b ==> !is_ws(s[x]),
        b == s.len() || is_ws(s[b]),
    ensures
        token_end(s, a) == b,
    decreases b - a,
{
    if a < b {
        lemma_token_end_eq(s, a + 1, b);
    }
}

/// The terms of the query from offset `p` on: each maximal run of
/// non-whitespace bytes, case-folded, in order.
pub open spec fn terms_from(s: Seq<u8>, p: int) -> Seq<Seq<u8>>
    decreases s.len() + 1 - p,
    when 0 <= p
    via terms_from_dec
{
    if p >= s.len() {
        Seq::empty()
    } else if is_ws(s[p]) {
        terms_from(s, p + 1)
    } else {
        seq![folded(s.subrange(p, token_end(s, p)))] + terms_from(s, token_end(s, p))
    }
}

#[via_fn]
proof fn terms_from_dec(s: Seq<u8>, p: int) {
    lemma_token_end(s, p);
}

/// The terms of the whole query.
pub open spec fn query_terms(s: Seq<u8>) -> Seq<Seq<u8>> {
    terms_from(s, 0)
}

/// Folding is idempotent.
pub proof fn lemma_folded_idempotent(s: Seq<u8>)
    ensures
        is_folded(folded(s)),
{
    assert(folded(folded(s)) =~= folded(s));
}

/// Every extracted term is non-empty, whitespace-free and case-folded.
pub proof fn lemma_terms_from_wf(s: Seq<u8>, p: int)
    requires
        0 <= p,
    ensures
        forall|k: int|
            0 <= k < terms_from(s, p).len() ==> (#[trigger] terms_from(s, p)[k]).len() >= 1
                && is_folded(terms_from(s, p)[k]),
    decreases s.len() + 1 - p,
{
    if p >= s.len() {
        assert(terms_from(s, p).len() == 0);
    } else if is_ws(s[p]) {
        lemma_terms_from_wf(s, p + 1);
        assert(terms_from(s, p) == terms_from(s, p + 1));
    } else {
        lemma_token_end(s, p);
        let e = token_end(s, p);
        lemma_terms_from_wf(s, e);
        lemma_folded_idempotent(s.subrange(p, e));
        let t0 = folded(s.subrange(p, e));
        assert(terms_from(s, p) == seq![t0] + terms_from(s, e));
        assert forall|k: int|
            0 <= k < terms_from(s, p).len() implies (#[trigger] terms_from(s, p)[k]).len() >= 1
                && is_folded(terms_from(s, p)[k]) by {
            if k == 0 {
                assert(terms_from(s, p)[0] == t0);
                assert(s.subrange(p, e).len() == e - p);
            } else {
                assert(terms_from(s, p)[k] == terms_from(s, e)[k - 1]);
            }
        }
    }
}

/// No terms exactly when nothing but whitespace remains.
pub proof fn lemma_terms_from_empty(s: Seq<u8>, p: int)
    requires
        0 <= p,
    ensures
        terms_from(s, p).len() == 0 <==> forall|x: int| p <= x < s.len() ==> is_ws(s[x]),
    decreases s.len() + 1 - p,
{
    if p >= s.len() {
    } else if is_ws(s[p]) {
        lemma_terms_from_empty(s, p + 1);
    } else {
    }
}

/// Splits the query on ASCII whitespace and folds each term to lower
/// case.  Purely a function of the query string; an all-whitespace or
/// empty query yields no terms.
pub fn extract_search_terms(query: &Vec<u8>) -> (r: Vec<Vec<u8>>)
    ensures
        terms_view(r@) == query_terms(query@),
        forall|k: int|
            0 <= k < r@.len() ==> (#[trigger] r@[k])@.len() >= 1 && is_folded(r@[k]@),
        r@.len() == 0 <==> (forall|x: int| 0 <= x < query@.len() ==> is_ws(query@[x])),
{
    let ghost q = query@;
    let mut r: Vec<Vec<u8>> = Vec::new();
    let mut p: usize = 0;
    proof {
        assert(terms_view(r@) =~= Seq::<Seq<u8>>::empty());
        assert(terms_view(r@) + terms_from(q, 0) =~= terms_from(q, 0));
    }
    while p < query.len()
        invariant
            q == query@,
            p <= q.len(),
            terms_view(r@) + terms_from(q, p as int) == terms_from(q, 0),
        decreases q.len() - p,
    {
        if is_ws_exec(query[p]) {
            p += 1;
        } else {
            let start = p;
            let mut tok: Vec<u8> = Vec::new();
            while p < query.len() && !is_ws_exec(query[p])
                invariant
                    q == query@,
                    start <= p <= q.len(),
                    forall|x: int| start <= x < p ==> !is_ws(q[x]),
                    tok@ =~= folded(q.subrange(start as int, p as int)),
                decreases q.len() - p,
            {
                tok.push(fold_byte_exec(query[p]));
                proof {
                    assert(q.subrange(start as int, p + 1).drop_last() =~= q.subrange(
                        start as int,
                        p as int,
                    ));
                    assert(tok@ =~= folded(q.subrange(start as int, p + 1)));
                }
                p += 1;
            }
            proof {
                lemma_token_end_eq(q, start as int, p as int);
            }
            let ghost pre = r@;
            r.push(tok);
            proof {
                assert(terms_view(r@) =~= terms_view(pre).push(tok@));
                assert(terms_from(q, start as int) == seq![
                    folded(q.subrange(start as int, p as int)),
                ] + terms_from(q, p as int));
                assert(terms_view(r@) + terms_from(q, p as int) =~= terms_view(pre) + terms_from(
                    q,
                    start as int,
                ));
            }
        }
    }
    proof {
        assert(terms_from(q, p as int) =~= Seq::<Seq<u8>>::empty());
        assert(terms_view(r@) =~= terms_view(r@) + terms_from(q, p as int));
        lemma_terms_from_wf(q, 0);
        assert forall|k: int|
            0 <= k < r@.len() implies (#[trigger] r@[k])@.len() >= 1 && is_folded(r@[k]@) by {
            assert(terms_view(r@)[k] == r@[k]@);
        }
        lemma_terms_from_empty(q, 0);
    }
    r
}

} // verus!
