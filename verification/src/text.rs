//! Byte-level vocabulary shared by the whole engine: which bytes the indexes
//! key on, ASCII case folding, and case-insensitive substring occurrence.

use vstd::prelude::*;

verus! {

/// A byte the n-gram indexes key on: printable ASCII graphic characters,
/// excluding the backtick reserved for markup upstream.  Whitespace and
/// control bytes carry no discriminative value and are never indexed.
pub open spec fn indexable(b: u8) -> bool {
    0x21 <= b <= 0x7e && b != 0x60
}

/// ASCII-only case folding of a single byte: `A`..`Z` map to `a`..`z`,
/// everything else is left alone.
pub open spec fn fold_byte(b: u8) -> u8 {
    if 0x41 <= b <= 0x5a {
        (b + 0x20) as u8
    } else {
        b
    }
}

/// ASCII-only case folding of a byte string.
pub open spec fn folded(s: Seq<u8>) -> Seq<u8> {
    s.map_values(|b: u8| fold_byte(b))
}

/// ASCII whitespace: the separators between query terms.
pub open spec fn is_ws(b: u8) -> bool {
    b == 0x20 || b == 0x09 || b == 0x0a || b == 0x0b || b == 0x0c || b == 0x0d
}

/// `needle` occurs in `hay` starting at byte offset `p`.
pub open spec fn occurs_at(hay: Seq<u8>, needle: Seq<u8>, p: int) -> bool {
    0 <= p && p + needle.len() <= hay.len() && hay.subrange(p, p + needle.len()) == needle
}

/// `needle` occurs somewhere in `hay`.
pub open spec fn occurs_in(hay: Seq<u8>, needle: Seq<u8>) -> bool {
    exists|p: int| occurs_at(hay, needle, p)
}

/// A term is already case-folded, as the term extractor produces it.
pub open spec fn is_folded(t: Seq<u8>) -> bool {
    folded(t) == t
}

pub fn indexable_exec(b: u8) -> (r: bool)
    ensures
        r == indexable(b),
{
    0x21 <= b && b <= 0x7e && b != 0x60
}

pub fn fold_byte_exec(b: u8) -> (r: u8)
    ensures
        r == fold_byte(b),
{
    if 0x41 <= b && b <= 0x5a {
        b + 0x20
    } else {
        b
    }
}

pub fn is_ws_exec(b: u8) -> (r: bool)
    ensures
        r == is_ws(b),
{
    b == 0x20 || b == 0x09 || b == 0x0a || b == 0x0b || b == 0x0c || b == 0x0d
}

/// Folding a byte string keeps its length and folds each byte.
pub proof fn lemma_folded_index(s: Seq<u8>)
    ensures
        folded(s).len() == s.len(),
        forall|i: int| 0 <= i < s.len() ==> folded(s)[i] == fold_byte(s[i]),
{
}

/// Any window of an occurrence is itself an occurrence of the window.
pub proof fn lemma_occurs_at_window(hay: Seq<u8>, needle: Seq<u8>, p: int, a: int, b: int)
    requires
        occurs_at(hay, needle, p),
        0 <= a <= b <= needle.len(),
    ensures
        occurs_at(hay, needle.subrange(a, b), p + a),
{
    assert(hay.subrange(p + a, p + a + (b - a)) =~= needle.subrange(a, b));
}

/// Any window of a term that occurs somewhere occurs there too.
pub proof fn lemma_occurs_in_window(hay: Seq<u8>, needle: Seq<u8>, a: int, b: int)
    requires
        occurs_in(hay, needle),
        0 <= a <= b <= needle.len(),
    ensures
        occurs_in(hay, needle.subrange(a, b)),
{
    let p = choose|p: int| occurs_at(hay, needle, p);
    lemma_occurs_at_window(hay, needle, p, a, b);
}

/// Case-insensitive window comparison against an already-folded term:
/// decides whether `term` occurs at offset `p` of the folded field.
pub fn window_matches(field: &Vec<u8>, term: &Vec<u8>, p: usize) -> (r: bool)
    requires
        p + term.len() <= field.len(),
    ensures
        r == occurs_at(folded(field@), term@, p as int),
{
    let ghost fhay = folded(field@);
    proof {
        lemma_folded_index(field@);
    }
    let n = term.len();
    let mut q: usize = 0;
    while q < n
        invariant
            n == term.len(),
            p + n <= field.len(),
            fhay == folded(field@),
            q <= n,
            forall|x: int| 0 <= x < q ==> fhay[p + x] == term@[x],
        decreases n - q,
    {
        if fold_byte_exec(field[p + q]) != term[q] {
            proof {
                if occurs_at(fhay, term@, p as int) {
                    assert(fhay.subrange(p as int, p + n)[q as int] == term@[q as int]);
                }
            }
            return false;
        }
        q += 1;
    }
    proof {
        assert(fhay.subrange(p as int, p + n) =~= term@);
    }
    true
}

/// First occurrence of `t` in `hay` at offset `p` or later, if any.
pub open spec fn first_occ_from(hay: Seq<u8>, t: Seq<u8>, p: int) -> Option<int>
    recommends
        0 <= p,
    decreases hay.len() + 1 - p,
    when 0 <= p
{
    if p + t.len() > hay.len() {
        None
    } else if occurs_at(hay, t, p) {
        Some(p)
    } else {
        first_occ_from(hay, t, p + 1)
    }
}

/// First occurrence of `t` in `hay`, if any.
pub open spec fn first_occ(hay: Seq<u8>, t: Seq<u8>) -> Option<int> {
    first_occ_from(hay, t, 0)
}

/// What `first_occ_from` returns: the earliest occurrence at or after `p`.
pub proof fn lemma_first_occ_from(hay: Seq<u8>, t: Seq<u8>, p: int)
    requires
        0 <= p,
    ensures
        match first_occ_from(hay, t, p) {
            Some(q) => p <= q && occurs_at(hay, t, q) && forall|x: int|
                p <= x < q ==> !occurs_at(hay, t, x),
            None => forall|x: int| p <= x ==> !occurs_at(hay, t, x),
        },
    decreases hay.len() + 1 - p,
{
    if p + t.len() > hay.len() {
    } else if occurs_at(hay, t, p) {
    } else {
        lemma_first_occ_from(hay, t, p + 1);
    }
}

/// Finds the first case-insensitive occurrence of an already-folded,
/// non-empty term in a field, as a byte offset into the raw field text.
pub fn first_occurrence(field: &Vec<u8>, term: &Vec<u8>) -> (r: Option<usize>)
    requires
        term.len() >= 1,
    ensures
        match r {
            Some(p) => Some(p as int) == first_occ(folded(field@), term@),
            None => first_occ(folded(field@), term@) is None,
        },
{
    let ghost fhay = folded(field@);
    proof {
        lemma_folded_index(field@);
    }
    if term.len() > field.len() {
        return None;
    }
    let last = field.len() - term.len();
    let mut p: usize = 0;
    while p <= last
        invariant
            fhay == folded(field@),
            fhay.len() == field@.len(),
            term.len() + last == field.len(),
            term.len() >= 1,
            p <= last + 1,
            first_occ_from(fhay, term@, 0) == first_occ_from(fhay, term@, p as int),
        decreases last + 1 - p,
    {
        if window_matches(field, term, p) {
            return Some(p);
        }
        p += 1;
    }
    proof {
        assert(first_occ_from(fhay, term@, p as int) is None);
    }
    None
}

} // verus!
