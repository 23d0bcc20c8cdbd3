//! Highlight spans.  For one field and a term list, the positions covered
//! by some term occurrence are marked, and the maximal runs of marked
//! positions become the field's spans: ascending, non-overlapping,
//! non-adjacent, covering exactly the matched bytes.

use vstd::prelude::*;
use crate::text::{folded, occurs_at, window_matches};
use crate::corpus::terms_view;

verus! {

/// A half-open byte range `[start, end)` in a field's text.
#[derive(Clone, Copy, PartialEq, Eq, Structural, Debug)]
pub struct Span {
    pub start: usize,
    pub end: usize,
}

/// Position `pos` of the field is inside some case-insensitive occurrence
/// of some term.
pub open spec fn covered(field: Seq<u8>, terms: Seq<Seq<u8>>, pos: int) -> bool {
    exists|k: int, p: int|
        0 <= k < terms.len() && occurs_at(folded(field), terms[k], p) && p <= pos < p
            + terms[k].len()
}

/// One mark per field byte: whether that byte is covered.
pub open spec fn cover_marks(field: Seq<u8>, terms: Seq<Seq<u8>>) -> Seq<bool> {
    Seq::new(field.len(), |pos: int| covered(field, terms, pos))
}

/// The end of the run of set marks starting at `i`.
pub open spec fn run_end(m: Seq<bool>, i: int) -> int
    decreases m.len() + 1 - i,
    when 0 <= i
{
    if i >= m.len() {
        i
    } else if !m[i] {
        i
    } else {
        run_end(m, i + 1)
    }
}

/// Bounds and content of a mark run.
pub proof fn lemma_run_end(m: Seq<bool>, i: int)
    requires
        0 <= i,
    ensures
        i <= run_end(m, i),
        run_end(m, i) <= m.len() || i >= m.len(),
        i < m.len() && m[i] ==> run_end(m, i) > i,
        forall|x: int| i <= x < run_end(m, i) ==> m[x],
        run_end(m, i) < m.len() ==> !m[run_end(m, i)],
    decreases m.len() + 1 - i,
{
    if i >= m.len() {
    } else if !m[i] {
    } else {
        lemma_run_end(m, i + 1);
    }
}

/// A maximal run of set marks determines its end.
pub proof fn lemma_run_end_eq(m: Seq<bool>, a: int, b: int)
    requires
        0 <= a <= b <= m.len(),
        forall|x: int| a <= x < b ==> m[x],
        b == m.len() || !m[b],
    ensures
        run_end(m, a) == b,
    decreases b - a,
{
    if a < b {
        lemma_run_end_eq(m, a + 1, b);
    }
}

/// The maximal runs of set marks from `i` on, as spans.
pub open spec fn runs_from(m: Seq<bool>, i: int) -> Seq<Span>
    decreases m.len() + 1 - i,
    when 0 <= i
    via runs_from_dec
{
    if i >= m.len() {
        Seq::empty()
    } else if !m[i] {
        runs_from(m, i + 1)
    } else {
        seq![Span { start: i as usize, end: run_end(m, i) as usize }] + runs_from(
            m,
            run_end(m, i),
        )
    }
}

#[via_fn]
proof fn runs_from_dec(m: Seq<bool>, i: int) {
    lemma_run_end(m, i);
}

/// The spans of a whole mark vector.
pub open spec fn marks_runs(m: Seq<bool>) -> Seq<Span> {
    runs_from(m, 0)
}

/// Position `pos` lies inside one of the spans.
pub open spec fn in_spans(spans: Seq<Span>, pos: int) -> bool {
    exists|j: int| 0 <= j < spans.len() && (#[trigger] spans[j]).start <= pos < spans[j].end
}

/// What the runs of a mark vector are: non-empty, ascending,
/// non-overlapping and non-adjacent spans covering exactly the set marks.
pub proof fn lemma_runs_from_props(m: Seq<bool>, i: int)
    requires
        0 <= i,
        m.len() <= usize::MAX,
    ensures
        forall|pos: int| in_spans(runs_from(m, i), pos) ==> i <= pos < m.len(),
        forall|pos: int| i <= pos < m.len() ==> (in_spans(runs_from(m, i), pos) <==> m[pos]),
        forall|j: int|
            0 <= j < runs_from(m, i).len() ==> i <= (#[trigger] runs_from(m, i)[j]).start
                && runs_from(m, i)[j].start < runs_from(m, i)[j].end && runs_from(m, i)[j].end
                <= m.len(),
        forall|j: int|
            0 <= j < runs_from(m, i).len() - 1 ==> (#[trigger] runs_from(m, i)[j]).end
                < runs_from(m, i)[j + 1].start,
    decreases m.len() + 1 - i,
{
    if i >= m.len() {
        assert(runs_from(m, i).len() == 0);
    } else if !m[i] {
        lemma_runs_from_props(m, i + 1);
        assert(runs_from(m, i) == runs_from(m, i + 1));
        assert forall|pos: int|
            i <= pos < m.len() implies (in_spans(runs_from(m, i), pos) <==> m[pos]) by {
            if pos == i {
                assert(!in_spans(runs_from(m, i + 1), i));
            }
        }
    } else {
        lemma_run_end(m, i);
        let e = run_end(m, i);
        lemma_runs_from_props(m, e);
        let first = Span { start: i as usize, end: e as usize };
        let tail = runs_from(m, e);
        assert(runs_from(m, i) == seq![first] + tail);
        let all = runs_from(m, i);
        assert(all[0] == first);
        assert(forall|j: int| 1 <= j < all.len() ==> #[trigger] all[j] == tail[j - 1]);
        // the tail starts strictly after the run: position e is unmarked
        assert forall|j: int|
            0 <= j < all.len() implies i <= (#[trigger] all[j]).start && all[j].start
                < all[j].end && all[j].end <= m.len() by {
            if j >= 1 {
                assert(tail[j - 1].start >= e);
            }
        }
        assert forall|j: int|
            0 <= j < all.len() - 1 implies (#[trigger] all[j]).end < all[j + 1].start by {
            if j == 0 {
                let nxt = tail[0];
                assert(e <= nxt.start);
                if nxt.start == e {
                    assert(e < m.len());
                    assert(in_spans(tail, e));
                    assert(m[e]);
                    assert(false);
                }
            } else {
                assert(tail[j - 1].end < tail[j].start);
            }
        }
        assert forall|pos: int|
            i <= pos < m.len() implies (in_spans(all, pos) <==> m[pos]) by {
            if i <= pos < e {
                assert(all[0].start <= pos < all[0].end);
                assert(in_spans(all, pos));
                assert(m[pos]);
            } else {
                assert(pos >= e);
                if in_spans(all, pos) {
                    let j = choose|j: int|
                        0 <= j < all.len() && (#[trigger] all[j]).start <= pos < all[j].end;
                    assert(j >= 1);
                    assert(in_spans(tail, pos));
                }
                if in_spans(tail, pos) {
                    let j = choose|j: int|
                        0 <= j < tail.len() && (#[trigger] tail[j]).start <= pos < tail[j].end;
                    assert(all[j + 1] == tail[j]);
                    assert(in_spans(all, pos));
                }
                assert(in_spans(tail, pos) <==> m[pos]);
            }
        }
        assert forall|pos: int| in_spans(all, pos) implies i <= pos < m.len() by {
            let j = choose|j: int|
                0 <= j < all.len() && (#[trigger] all[j]).start <= pos < all[j].end;
        }
    }
}

/// Which positions of a field the given spans must cover: exactly those
/// where some term matches.  This is the contract every span list in a
/// match result meets.
pub open spec fn spans_exact(field: Seq<u8>, terms: Seq<Seq<u8>>, spans: Seq<Span>) -> bool {
    spans == marks_runs(cover_marks(field, terms))
}

/// Coverage and shape of a result's span list: spans never overlap, sit
/// in ascending order inside the field, and their union covers exactly
/// the bytes where some term matched.
pub proof fn lemma_spans_exact(field: Seq<u8>, terms: Seq<Seq<u8>>, spans: Seq<Span>)
    requires
        field.len() <= usize::MAX,
        spans_exact(field, terms, spans),
    ensures
        forall|pos: int|
            0 <= pos < field.len() ==> (in_spans(spans, pos) <==> covered(field, terms, pos)),
        forall|pos: int| in_spans(spans, pos) ==> 0 <= pos < field.len(),
        forall|j: int|
            0 <= j < spans.len() ==> (#[trigger] spans[j]).start < spans[j].end && spans[j].end
                <= field.len(),
        forall|j: int|
            0 <= j < spans.len() - 1 ==> (#[trigger] spans[j]).end < spans[j + 1].start,
{
    let m = cover_marks(field, terms);
    lemma_runs_from_props(m, 0);
    assert(m.len() == field.len());
    assert forall|pos: int|
        0 <= pos < field.len() implies (in_spans(spans, pos) <==> covered(field, terms, pos)) by {
        assert(m[pos] == covered(field, terms, pos));
    }
}

/// Sets `marks[a..b]`.
fn mark_range(marks: &mut Vec<bool>, a: usize, b: usize)
    requires
        a <= b <= old(marks).len(),
    ensures
        final(marks).len() == old(marks).len(),
        forall|pos: int|
            0 <= pos < old(marks).len() ==> final(marks)@[pos] == (old(marks)@[pos] || a <= pos
                < b),
{
    let mut i = a;
    while i < b
        invariant
            a <= i <= b <= marks@.len(),
            marks@.len() == old(marks)@.len(),
            forall|pos: int|
                0 <= pos < marks@.len() ==> marks@[pos] == (old(marks)@[pos] || a <= pos < i),
        decreases b - i,
    {
        marks[i] = true;
        i += 1;
    }
}

/// Marks every byte of the field covered by a case-insensitive occurrence
/// of one of the (already folded, non-empty) terms.
fn compute_marks(field: &Vec<u8>, terms: &Vec<Vec<u8>>) -> (marks: Vec<bool>)
    requires
        forall|k: int| 0 <= k < terms@.len() ==> (#[trigger] terms@[k])@.len() >= 1,
    ensures
        marks@ == cover_marks(field@, terms_view(terms@)),
{
    let ghost tv = terms_view(terms@);
    let mut marks: Vec<bool> = vec![false; field.len()];
    let mut k: usize = 0;
    proof {
        assert(marks@.len() == field@.len());
        assert forall|pos: int|
            0 <= pos < marks@.len() implies marks@[pos] == covered_before(
            field@,
            tv,
            0,
            0,
            pos,
        ) by {
            if covered_before(field@, tv, 0, 0, pos) {
                let (k1, p1) = choose|k1: int, p1: int|
                    0 <= k1 < tv.len() && occurs_at(folded(field@), tv[k1], p1) && p1 <= pos < p1
                        + tv[k1].len() && (k1 < 0 || (k1 == 0 && p1 < 0));
            }
        }
    }
    while k < terms.len()
        invariant
            tv == terms_view(terms@),
            tv.len() == terms@.len(),
            forall|k1: int| 0 <= k1 < terms@.len() ==> (#[trigger] terms@[k1])@.len() >= 1,
            marks@.len() == field@.len(),
            k <= terms@.len(),
            forall|pos: int|
                0 <= pos < marks@.len() ==> marks@[pos] == covered_before(
                    field@,
                    tv,
                    k as int,
                    0,
                    pos,
                ),
        decreases terms@.len() - k,
    {
        let tk = &terms[k];
        proof {
            assert(tv[k as int] == tk@);
        }
        if tk.len() <= field.len() {
            let lastp = field.len() - tk.len();
            let mut p: usize = 0;
            while p <= lastp
                invariant
                    tv == terms_view(terms@),
                    tv.len() == terms@.len(),
                    k < terms@.len(),
                    tk == &terms[k as int],
                    tv[k as int] == tk@,
                    marks@.len() == field@.len(),
                    tk@.len() + lastp == field@.len(),
                    tk@.len() + lastp <= usize::MAX,
                    tk@.len() >= 1,
                    p <= lastp + 1,
                    forall|pos: int|
                        0 <= pos < marks@.len() ==> marks@[pos] == covered_before(
                            field@,
                            tv,
                            k as int,
                            p as int,
                            pos,
                        ),
                decreases lastp + 1 - p,
            {
                let ghost pre = marks@;
                if window_matches(field, tk, p) {
                    mark_range(&mut marks, p, p + tk.len());
                    proof {
                        assert forall|pos: int|
                            0 <= pos < marks@.len() implies marks@[pos] == covered_before(
                            field@,
                            tv,
                            k as int,
                            p + 1,
                            pos,
                        ) by {
                            if marks@[pos] {
                                if pre[pos] {
                                    let (k1, p1) = choose|k1: int, p1: int|
                                        0 <= k1 < tv.len() && occurs_at(folded(field@), tv[k1], p1)
                                            && p1 <= pos < p1 + tv[k1].len() && (k1 < k || (k1 == k
                                            && p1 < p));
                                    assert(covered_before(field@, tv, k as int, p + 1, pos));
                                } else {
                                    assert(occurs_at(folded(field@), tv[k as int], p as int));
                                    assert(covered_before(field@, tv, k as int, p + 1, pos));
                                }
                            }
                            if covered_before(field@, tv, k as int, p + 1, pos) {
                                let (k1, p1) = choose|k1: int, p1: int|
                                    0 <= k1 < tv.len() && occurs_at(folded(field@), tv[k1], p1)
                                        && p1 <= pos < p1 + tv[k1].len() && (k1 < k || (k1 == k
                                        && p1 < p + 1));
                                if k1 == k && p1 == p {
                                    assert(marks@[pos]);
                                } else {
                                    assert(covered_before(field@, tv, k as int, p as int, pos));
                                    assert(marks@[pos]);
                                }
                            }
                        }
                    }
                } else {
                    proof {
                        assert forall|pos: int|
                            0 <= pos < marks@.len() implies marks@[pos] == covered_before(
                            field@,
                            tv,
                            k as int,
                            p + 1,
                            pos,
                        ) by {
                            if covered_before(field@, tv, k as int, p + 1, pos) {
                                let (k1, p1) = choose|k1: int, p1: int|
                                    0 <= k1 < tv.len() && occurs_at(folded(field@), tv[k1], p1)
                                        && p1 <= pos < p1 + tv[k1].len() && (k1 < k || (k1 == k
                                        && p1 < p + 1));
                                assert(!(k1 == k && p1 == p));
                                assert(covered_before(field@, tv, k as int, p as int, pos));
                            }
                        }
                    }
                }
                p += 1;
            }
            proof {
                lemma_covered_step(field@, tv, k as int, lastp + 1);
            }
        } else {
            proof {
                assert forall|pos: int|
                    0 <= pos < marks@.len() implies marks@[pos] == covered_before(
                    field@,
                    tv,
                    k + 1,
                    0,
                    pos,
                ) by {
                    if covered_before(field@, tv, k + 1, 0, pos) {
                        let (k1, p1) = choose|k1: int, p1: int|
                            0 <= k1 < tv.len() && occurs_at(folded(field@), tv[k1], p1) && p1 <= pos
                                < p1 + tv[k1].len() && (k1 < k + 1 || (k1 == k + 1 && p1 < 0));
                        assert(k1 != k);
                        assert(covered_before(field@, tv, k as int, 0, pos));
                    }
                    if covered_before(field@, tv, k as int, 0, pos) {
                        let (k1, p1) = choose|k1: int, p1: int|
                            0 <= k1 < tv.len() && occurs_at(folded(field@), tv[k1], p1) && p1 <= pos
                                < p1 + tv[k1].len() && (k1 < k || (k1 == k && p1 < 0));
                        assert(covered_before(field@, tv, k + 1, 0, pos));
                    }
                }
            }
        }
        k += 1;
    }
    proof {
        assert forall|pos: int|
            0 <= pos < marks@.len() implies marks@[pos] == covered(field@, tv, pos) by {
            if covered(field@, tv, pos) {
                let (k1, p1) = choose|k1: int, p1: int|
                    0 <= k1 < tv.len() && occurs_at(folded(field@), tv[k1], p1) && p1 <= pos < p1
                        + tv[k1].len();
                assert(covered_before(field@, tv, tv.len() as int, 0, pos));
            }
            if covered_before(field@, tv, tv.len() as int, 0, pos) {
                let (k1, p1) = choose|k1: int, p1: int|
                    0 <= k1 < tv.len() && occurs_at(folded(field@), tv[k1], p1) && p1 <= pos < p1
                        + tv[k1].len() && (k1 < tv.len() || (k1 == tv.len() && p1 < 0));
                assert(covered(field@, tv, pos));
            }
        }
        assert(marks@ =~= cover_marks(field@, tv));
    }
    marks
}

/// Coverage of a position by a term occurrence seen before the (term,
/// offset) pair `(kk, pp)` in the marking order.
pub open spec fn covered_before(
    field: Seq<u8>,
    terms: Seq<Seq<u8>>,
    kk: int,
    pp: int,
    pos: int,
) -> bool {
    exists|k: int, p: int|
        0 <= k < terms.len() && occurs_at(folded(field), terms[k], p) && p <= pos < p
            + terms[k].len() && (k < kk || (k == kk && p < pp))
}

/// Offsets past the last window of term `kk` add nothing new.
proof fn lemma_covered_step(field: Seq<u8>, terms: Seq<Seq<u8>>, kk: int, pend: int)
    requires
        0 <= kk < terms.len(),
        pend >= field.len() - terms[kk].len() + 1,
    ensures
        forall|pos: int|
            covered_before(field, terms, kk, pend, pos) <==> covered_before(
                field,
                terms,
                kk + 1,
                0,
                pos,
            ),
{
    assert forall|pos: int|
        covered_before(field, terms, kk, pend, pos) == covered_before(
        field,
        terms,
        kk + 1,
        0,
        pos,
    ) by {
        if covered_before(field, terms, kk, pend, pos) {
            let (k1, p1) = choose|k1: int, p1: int|
                0 <= k1 < terms.len() && occurs_at(folded(field), terms[k1], p1) && p1 <= pos < p1
                    + terms[k1].len() && (k1 < kk || (k1 == kk && p1 < pend));
            assert(covered_before(field, terms, kk + 1, 0, pos));
        }
        if covered_before(field, terms, kk + 1, 0, pos) {
            let (k1, p1) = choose|k1: int, p1: int|
                0 <= k1 < terms.len() && occurs_at(folded(field), terms[k1], p1) && p1 <= pos < p1
                    + terms[k1].len() && (k1 < kk + 1 || (k1 == kk + 1 && p1 < 0));
            if k1 == kk {
                assert(p1 + terms[kk].len() <= folded(field).len());
                assert(folded(field).len() == field.len());
                assert(p1 < pend);
            }
            assert(covered_before(field, terms, kk, pend, pos));
        }
    }
}

/// Turns the mark vector into its maximal runs.
fn marks_to_spans(marks: &Vec<bool>) -> (r: Vec<Span>)
    ensures
        r@ == marks_runs(marks@),
{
    let ghost m = marks@;
    let mut r: Vec<Span> = Vec::new();
    let mut i: usize = 0;
    proof {
        assert(r@ + runs_from(m, 0) =~= runs_from(m, 0));
    }
    while i < marks.len()
        invariant
            m == marks@,
            i <= m.len(),
            r@ + runs_from(m, i as int) == runs_from(m, 0),
        decreases m.len() - i,
    {
        if !marks[i] {
            i += 1;
        } else {
            let start = i;
            while i < marks.len() && marks[i]
                invariant
                    m == marks@,
                    start <= i <= m.len(),
                    forall|x: int| start <= x < i ==> m[x],
                decreases m.len() - i,
            {
                i += 1;
            }
            proof {
                lemma_run_end_eq(m, start as int, i as int);
            }
            let ghost pre = r@;
            r.push(Span { start, end: i });
            proof {
                assert(runs_from(m, start as int) == seq![
                    Span { start, end: i },
                ] + runs_from(m, i as int));
                assert(r@ + runs_from(m, i as int) =~= pre + runs_from(m, start as int));
            }
        }
    }
    proof {
        assert(runs_from(m, i as int) =~= Seq::<Span>::empty());
        assert(r@ =~= r@ + runs_from(m, i as int));
    }
    r
}

/// The highlight spans of one field for the given terms: maximal runs of
/// bytes covered by some case-insensitive term occurrence.
pub fn field_spans(field: &Vec<u8>, terms: &Vec<Vec<u8>>) -> (r: Vec<Span>)
    requires
        forall|k: int| 0 <= k < terms@.len() ==> (#[trigger] terms@[k])@.len() >= 1,
    ensures
        spans_exact(field@, terms_view(terms@), r@),
{
    let marks = compute_marks(field, terms);
    marks_to_spans(&marks)
}

} // verus!
