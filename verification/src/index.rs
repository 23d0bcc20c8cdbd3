//! The n-gram inverted indexes.  Each index maps every gram of its width
//! (1, 2 or 3 bytes, case-folded, restricted to indexable bytes) to the
//! ascending, duplicate-free list of features containing that gram in some
//! searchable field.  Built once from the corpus, read-only thereafter.

use vstd::prelude::*;
use crate::text::{folded, indexable, indexable_exec, fold_byte, fold_byte_exec, occurs_at, lemma_folded_index};
use crate::corpus::{Corpus, Feature, FeatureView, field_matches, any_item_matches, term_matches};

verus! {

/// Every byte of the gram is indexable.
pub open spec fn all_indexable(g: Seq<u8>) -> bool {
    forall|i: int| 0 <= i < g.len() ==> indexable(#[trigger] g[i])
}

/// Strictly ascending, hence duplicate-free.
pub open spec fn sorted_strict(s: Seq<usize>) -> bool {
    forall|i: int, j: int| 0 <= i < j < s.len() ==> s[i] < s[j]
}

/// The integer key a gram is stored under: its bytes read in base 256.
pub open spec fn key_of(g: Seq<u8>) -> int
    decreases g.len(),
{
    if g.len() == 0 {
        0
    } else {
        key_of(g.drop_last()) * 256 + g.last()
    }
}

/// Keys of grams up to three bytes are non-negative and fit in 24 bits.
pub proof fn lemma_key_bound(g: Seq<u8>)
    requires
        g.len() <= 3,
    ensures
        0 <= key_of(g),
        key_of(g) < if g.len() == 0 {
            1int
        } else if g.len() == 1 {
            256int
        } else if g.len() == 2 {
            65536int
        } else {
            16777216int
        },
    decreases g.len(),
{
    if g.len() > 0 {
        lemma_key_bound(g.drop_last());
    }
}

/// Equal keys of equal-length grams mean equal grams.
pub proof fn lemma_key_injective(a: Seq<u8>, b: Seq<u8>)
    requires
        a.len() == b.len(),
        key_of(a) == key_of(b),
    ensures
        a == b,
    decreases a.len(),
{
    if a.len() > 0 {
        let ka = key_of(a.drop_last());
        let kb = key_of(b.drop_last());
        assert(ka * 256 + a.last() == kb * 256 + b.last());
        assert(a.last() == b.last() && ka == kb) by {
            assert(0 <= a.last() < 256 && 0 <= b.last() < 256);
            assert((ka - kb) * 256 == b.last() - a.last()) by (nonlinear_arith)
                requires
                    ka * 256 + a.last() == kb * 256 + b.last(),
            ;
        }
        lemma_key_injective(a.drop_last(), b.drop_last());
        assert forall|i: int| 0 <= i < a.len() implies a[i] == b[i] by {
            if i < a.len() - 1 {
                assert(a[i] == a.drop_last()[i]);
                assert(b[i] == b.drop_last()[i]);
            } else {
                assert(a[i] == a.last() && b[i] == b.last());
            }
        }
        assert(a =~= b);
    } else {
        assert(a =~= b);
    }
}

/// Computes the key of the case-folded window of width `n` at offset `p`.
pub fn key_of_window(field: &Vec<u8>, p: usize, n: usize) -> (k: u32)
    requires
        p + n <= field.len(),
        n <= 3,
    ensures
        k == key_of(folded(field@).subrange(p as int, p + n)),
        k < 16777216,
{
    let ghost fhay = folded(field@);
    proof {
        lemma_folded_index(field@);
    }
    let mut k: u32 = 0;
    let mut q: usize = 0;
    while q < n
        invariant
            p + n <= field.len(),
            n <= 3,
            fhay == folded(field@),
            fhay.len() == field@.len(),
            q <= n,
            k == key_of(fhay.subrange(p as int, p + q)),
            k < if q == 0 {
                1u32
            } else if q == 1 {
                256u32
            } else if q == 2 {
                65536u32
            } else {
                16777216u32
            },
        decreases n - q,
    {
        let b = fold_byte_exec(field[p + q]);
        proof {
            let w1 = fhay.subrange(p as int, p + q + 1);
            assert(w1.drop_last() =~= fhay.subrange(p as int, p + q));
            assert(w1.last() == fhay[p + q]);
        }
        k = k * 256 + (b as u32);
        q += 1;
    }
    proof {
        lemma_key_bound(fhay.subrange(p as int, p + n));
    }
    k
}

/// Whether the case-folded window of width `n` at offset `p` consists of
/// indexable bytes only, and so belongs in the index.
pub fn window_indexable(field: &Vec<u8>, p: usize, n: usize) -> (r: bool)
    requires
        p + n <= field.len(),
    ensures
        r == all_indexable(folded(field@).subrange(p as int, p + n)),
{
    let ghost w = folded(field@).subrange(p as int, p + n);
    proof {
        lemma_folded_index(field@);
    }
    let mut q: usize = 0;
    while q < n
        invariant
            p + n <= field.len(),
            w == folded(field@).subrange(p as int, p + n),
            forall|i: int| 0 <= i < w.len() ==> w[i] == fold_byte(field@[p + i]),
            q <= n,
            forall|i: int| 0 <= i < q ==> indexable(#[trigger] w[i]),
        decreases n - q,
    {
        if !indexable_exec(fold_byte_exec(field[p + q])) {
            assert(!indexable(w[q as int]));
            return false;
        }
        q += 1;
    }
    true
}

/// Some posting in the list equals `x`.
pub open spec fn entry_has(post: Seq<usize>, x: int) -> bool {
    exists|i: int| 0 <= i < post.len() && post[i] == x
}

/// One inverted index for grams of width `n`.
pub struct GramIndex {
    /// The gram width this index serves.
    pub n: usize,
    /// Entries sorted by strictly ascending key; each postings list is a
    /// strictly ascending sequence of feature indices.
    pub entries: Vec<(u32, Vec<usize>)>,
}

impl GramIndex {
    /// Feature `x` is recorded under key `k`.
    pub open spec fn has(&self, k: int, x: int) -> bool {
        exists|e: int|
            0 <= e < self.entries@.len() && (#[trigger] self.entries@[e]).0 == k && entry_has(
                self.entries@[e].1@,
                x,
            )
    }

    /// Structural invariant: sorted keys, sorted postings, postings within
    /// the corpus bounds.
    pub open spec fn wf(&self, nfeat: int) -> bool {
        &&& 1 <= self.n <= 3
        &&& forall|e1: int, e2: int|
            0 <= e1 < e2 < self.entries@.len() ==> (#[trigger] self.entries@[e1]).0 < (
            #[trigger] self.entries@[e2]).0
        &&& forall|e: int|
            0 <= e < self.entries@.len() ==> sorted_strict((#[trigger] self.entries@[e]).1@)
        &&& forall|e: int, i: int|
            0 <= e < self.entries@.len() && 0 <= i < self.entries@[e].1@.len() ==> (
            #[trigger] self.entries@[e].1@[i] as int) < nfeat
    }

    /// Completeness: every indexable gram of width `n` occurring in a
    /// searchable field of a feature is recorded under the gram's key.
    pub open spec fn complete_for(&self, feats: Seq<FeatureView>) -> bool {
        forall|x: int, g: Seq<u8>|
            0 <= x < feats.len() && g.len() == self.n && all_indexable(g) && #[trigger] term_matches(
                feats[x],
                g,
            ) ==> self.has(key_of(g), x)
    }

    /// Soundness: everything recorded comes from an indexable gram of
    /// width `n` occurring in a searchable field of that feature.
    pub open spec fn sound_for(&self, feats: Seq<FeatureView>) -> bool {
        forall|k: int, x: int|
            #[trigger] self.has(k, x) ==> 0 <= x < feats.len() && exists|g: Seq<u8>|
                g.len() == self.n && all_indexable(g) && key_of(g) == k && term_matches(
                    feats[x],
                    g,
                )
    }

    /// Records feature `x` under `key`, keeping the structure sorted and
    /// duplicate-free.
    fn add(&mut self, key: u32, x: usize, nfeat: usize)
        requires
            old(self).wf(nfeat as int),
            x < nfeat,
        ensures
            final(self).wf(nfeat as int),
            final(self).n == old(self).n,
            forall|k: int, i: int|
                final(self).has(k, i) <==> old(self).has(k, i) || (k == key && i == x),
    {
        let ghost old_entries = self.entries@;
        let mut e: usize = 0;
        while e < self.entries.len() && self.entries[e].0 < key
            invariant
                self == old(self),
                e <= self.entries@.len(),
                forall|e1: int| 0 <= e1 < e ==> (#[trigger] self.entries@[e1]).0 < key,
            decreases self.entries@.len() - e,
        {
            e += 1;
        }
        if e < self.entries.len() && self.entries[e].0 == key {
            // the key exists: insert x into its postings, if absent
            let ghost post = self.entries@[e as int].1@;
            let mut i: usize = 0;
            while i < self.entries[e].1.len() && self.entries[e].1[i] < x
                invariant
                    self == old(self),
                    e < self.entries@.len(),
                    post == self.entries@[e as int].1@,
                    i <= post.len(),
                    forall|i1: int| 0 <= i1 < i ==> post[i1] < x,
                decreases post.len() - i,
            {
                i += 1;
            }
            if i < self.entries[e].1.len() && self.entries[e].1[i] == x {
                // already recorded; nothing changes
                proof {
                    assert(entry_has(post, x as int));
                    assert(old(self).has(key as int, x as int));
                }
            } else {
                self.entries[e].1.insert(i, x);
                proof {
                    let new_post = self.entries@[e as int].1@;
                    assert(new_post == post.insert(i as int, x));
                    assert(forall|i1: int|
                        0 <= i1 < new_post.len() ==> (#[trigger] new_post[i1]) == if i1 < i {
                            post[i1]
                        } else if i1 == i {
                            x
                        } else {
                            post[i1 - 1]
                        });
                    assert(sorted_strict(post));
                    assert(i < post.len() ==> x < post[i as int]);
                    assert(sorted_strict(new_post));
                    assert(forall|e1: int|
                        0 <= e1 < self.entries@.len() && e1 != e ==> #[trigger] self.entries@[e1]
                            == old_entries[e1]);
                    assert(new_post[i as int] == x);
                    assert(entry_has(new_post, x as int));
                    assert(self.entries@[e as int].0 == key);
                    assert(final(self).has(key as int, x as int));
                    assert forall|k: int, j: int| final(self).has(k, j) implies old(self).has(k, j)
                        || (k == key && j == x) by {
                        let e1 = choose|e1: int|
                            0 <= e1 < self.entries@.len() && (#[trigger] self.entries@[e1]).0 == k
                                && entry_has(self.entries@[e1].1@, j);
                        if e1 == e {
                            if j != x {
                                let i1 = choose|i1: int|
                                    0 <= i1 < new_post.len() && new_post[i1] == j;
                                if i1 < i {
                                    assert(post[i1] == j);
                                } else if i1 == i {
                                    assert(false);
                                } else {
                                    assert(post[i1 - 1] == j);
                                }
                                assert(entry_has(post, j));
                                assert(old_entries[e1].0 == k);
                            }
                        } else {
                            assert(old_entries[e1].0 == k && entry_has(old_entries[e1].1@, j));
                        }
                    }
                    assert forall|k: int, j: int|
                        old(self).has(k, j) implies final(self).has(k, j) by {
                        let e1 = choose|e1: int|
                            0 <= e1 < old_entries.len() && (#[trigger] old_entries[e1]).0 == k
                                && entry_has(old_entries[e1].1@, j);
                        if e1 == e {
                            let i1 = choose|i1: int| 0 <= i1 < post.len() && post[i1] == j;
                            if i1 < i {
                                assert(new_post[i1] == j);
                            } else {
                                assert(new_post[i1 + 1] == j);
                            }
                            assert(entry_has(new_post, j));
                            assert(self.entries@[e1].0 == k);
                        } else {
                            assert(self.entries@[e1].0 == k && entry_has(self.entries@[e1].1@, j));
                        }
                    }
                }
            }
        } else {
            // no entry for this key yet: insert one at the sorted position
            let mut single: Vec<usize> = Vec::new();
            single.push(x);
            self.entries.insert(e, (key, single));
            proof {
                let newe = self.entries@;
                assert(newe == old_entries.insert(e as int, (key, single)));
                assert(forall|e1: int| 0 <= e1 < newe.len() ==> (#[trigger] newe[e1]) == if e1 < e {
                    old_entries[e1]
                } else if e1 == e {
                    (key, single)
                } else {
                    old_entries[e1 - 1]
                });
                assert(e < old_entries.len() ==> key < old_entries[e as int].0);
                assert(single@ =~= seq![x]);
                assert(sorted_strict(single@));
                assert(newe[e as int].1@[0] == x);
                assert(entry_has(newe[e as int].1@, x as int));
                assert(final(self).has(key as int, x as int));
                assert forall|k: int, j: int| final(self).has(k, j) implies old(self).has(k, j) || (
                k == key && j == x) by {
                    let e1 = choose|e1: int|
                        0 <= e1 < newe.len() && (#[trigger] newe[e1]).0 == k && entry_has(
                            newe[e1].1@,
                            j,
                        );
                    if e1 != e {
                        let eo = if e1 < e { e1 } else { e1 - 1 };
                        assert(old_entries[eo].0 == k && entry_has(old_entries[eo].1@, j));
                    } else {
                        let i1 = choose|i1: int| 0 <= i1 < single@.len() && single@[i1] == j;
                        assert(i1 == 0 && j == x);
                    }
                }
                assert forall|k: int, j: int| old(self).has(k, j) implies final(self).has(k, j) by {
                    let e1 = choose|e1: int|
                        0 <= e1 < old_entries.len() && (#[trigger] old_entries[e1]).0 == k
                            && entry_has(old_entries[e1].1@, j);
                    let en = if e1 < e { e1 } else { e1 + 1 };
                    assert(newe[en] == old_entries[e1]);
                }
            }
        }
    }
}

/// The case-folded window of width `n` at `p` is fully indexable.
pub open spec fn qual_window(field: Seq<u8>, p: int, n: int) -> bool {
    0 <= p && p + n <= field.len() && all_indexable(folded(field).subrange(p, p + n))
}

/// The key of the case-folded window of width `n` at `p`.
pub open spec fn window_key(field: Seq<u8>, p: int, n: int) -> int {
    key_of(folded(field).subrange(p, p + n))
}

/// Some indexable window before offset `p` carries key `k`.
pub open spec fn field_gram_before(field: Seq<u8>, n: int, k: int, p: int) -> bool {
    exists|p1: int| 0 <= p1 < p && qual_window(field, p1, n) && window_key(field, p1, n) == k
}

/// Some indexable gram of width `n` with key `k` occurs in the field.
pub open spec fn field_gram(field: Seq<u8>, n: int, k: int) -> bool {
    exists|g: Seq<u8>|
        g.len() == n && all_indexable(g) && key_of(g) == k && field_matches(field, g)
}

/// Some indexable gram of width `n` with key `k` occurs in an item before `j`.
pub open spec fn items_gram_before(items: Seq<Seq<u8>>, n: int, k: int, j: int) -> bool {
    exists|j1: int| 0 <= j1 < j && field_gram(items[j1], n, k)
}

/// Some indexable gram of width `n` with key `k` occurs in a searchable
/// field of the feature.
pub open spec fn feature_gram(f: FeatureView, n: int, k: int) -> bool {
    exists|g: Seq<u8>|
        g.len() == n && all_indexable(g) && key_of(g) == k && term_matches(f, g)
}

/// Window form and gram form of "the field contributes key `k`" agree.
pub proof fn lemma_field_gram_iff(field: Seq<u8>, n: int, k: int)
    requires
        n >= 0,
    ensures
        field_gram_before(field, n, k, field.len() - n + 1) <==> field_gram(field, n, k),
{
    if field_gram_before(field, n, k, field.len() - n + 1) {
        let p = choose|p: int|
            0 <= p < field.len() - n + 1 && qual_window(field, p, n) && window_key(field, p, n)
                == k;
        let g = folded(field).subrange(p, p + n);
        assert(occurs_at(folded(field), g, p));
        assert(field_matches(field, g));
        assert(g.len() == n && all_indexable(g) && key_of(g) == k);
    }
    if field_gram(field, n, k) {
        let g = choose|g: Seq<u8>|
            g.len() == n && all_indexable(g) && key_of(g) == k && field_matches(field, g);
        let p = choose|p: int| occurs_at(folded(field), g, p);
        assert(folded(field).subrange(p, p + n) == g);
        assert(qual_window(field, p, n) && window_key(field, p, n) == k);
        assert(p < field.len() - n + 1);
    }
}

/// The per-field gram forms assemble into the per-feature gram form.
pub proof fn lemma_feature_gram_iff(f: FeatureView, n: int, k: int)
    ensures
        feature_gram(f, n, k) <==> {
            ||| field_gram(f.title, n, k)
            ||| match f.flag {
                Some(fl) => field_gram(fl, n, k),
                None => false,
            }
            ||| items_gram_before(f.items, n, k, f.items.len() as int)
        },
{
    if feature_gram(f, n, k) {
        let g = choose|g: Seq<u8>|
            g.len() == n && all_indexable(g) && key_of(g) == k && term_matches(f, g);
        if any_item_matches(f.items, g) {
            let j = choose|j: int| 0 <= j < f.items.len() && field_matches(f.items[j], g);
            assert(field_gram(f.items[j], n, k));
            assert(items_gram_before(f.items, n, k, f.items.len() as int));
        }
    }
    if field_gram(f.title, n, k) {
        let g = choose|g: Seq<u8>|
            g.len() == n && all_indexable(g) && key_of(g) == k && field_matches(f.title, g);
        assert(term_matches(f, g));
        assert(feature_gram(f, n, k));
    }
    match f.flag {
        Some(fl) => {
            if field_gram(fl, n, k) {
                let g = choose|g: Seq<u8>|
                    g.len() == n && all_indexable(g) && key_of(g) == k && field_matches(fl, g);
                assert(term_matches(f, g));
                assert(feature_gram(f, n, k));
            }
        },
        None => {},
    }
    if items_gram_before(f.items, n, k, f.items.len() as int) {
        let j = choose|j1: int|
            0 <= j1 < f.items.len() && field_gram(f.items[j1], n, k);
        let g = choose|g: Seq<u8>|
            g.len() == n && all_indexable(g) && key_of(g) == k && field_matches(f.items[j], g);
        assert(any_item_matches(f.items, g));
        assert(term_matches(f, g));
        assert(feature_gram(f, n, k));
    }
}

/// Records every indexable window of one field under feature `x`.
fn add_field(idx: &mut GramIndex, field: &Vec<u8>, x: usize, nfeat: usize)
    requires
        old(idx).wf(nfeat as int),
        x < nfeat,
    ensures
        final(idx).wf(nfeat as int),
        final(idx).n == old(idx).n,
        forall|k: int, i: int|
            final(idx).has(k, i) <==> old(idx).has(k, i) || (i == x && field_gram(
                field@,
                old(idx).n as int,
                k,
            )),
{
    let n = idx.n;
    let ghost gn = n as int;
    if field.len() < n {
        proof {
            assert forall|k: int, i: int|
                idx.has(k, i) == (old(idx).has(k, i) || (i == x && field_gram(field@, gn, k))) by {
                if field_gram(field@, gn, k) {
                    let g = choose|g: Seq<u8>|
                        g.len() == gn && all_indexable(g) && key_of(g) == k && field_matches(
                            field@,
                            g,
                        );
                    let p = choose|p: int| occurs_at(folded(field@), g, p);
                    assert(false);
                }
            }
        }
        return;
    }
    let last = field.len() - n;
    let mut p: usize = 0;
    proof {
        assert(!field_gram_before(field@, gn, 0, 0)) by {
            assert(forall|k: int| !field_gram_before(field@, gn, k, 0));
        }
    }
    while p <= last
        invariant
            old(idx).wf(nfeat as int),
            x < nfeat,
            idx.wf(nfeat as int),
            idx.n == old(idx).n,
            gn == idx.n as int,
            1 <= n <= 3,
            n == idx.n,
            field.len() - n == last,
            p <= last + 1,
            forall|k: int, i: int|
                idx.has(k, i) <==> old(idx).has(k, i) || (i == x && field_gram_before(
                    field@,
                    gn,
                    k,
                    p as int,
                )),
        decreases last + 1 - p,
    {
        let ghost pre = *idx;
        if window_indexable(field, p, n) {
            let key = key_of_window(field, p, n);
            idx.add(key, x, nfeat);
            proof {
                assert(qual_window(field@, p as int, gn));
                assert(window_key(field@, p as int, gn) == key);
                assert forall|k: int, i: int|
                    idx.has(k, i) == (old(idx).has(k, i) || (i == x && field_gram_before(
                        field@,
                        gn,
                        k,
                        p + 1,
                    ))) by {
                    if idx.has(k, i) {
                        if !pre.has(k, i) {
                            assert(k == key && i == x);
                            assert(field_gram_before(field@, gn, k, p + 1));
                        } else if !old(idx).has(k, i) {
                            let p1 = choose|p1: int|
                                0 <= p1 < p && qual_window(field@, p1, gn) && window_key(
                                    field@,
                                    p1,
                                    gn,
                                ) == k;
                            assert(field_gram_before(field@, gn, k, p + 1));
                        }
                    }
                    if i == x && field_gram_before(field@, gn, k, p + 1) {
                        let p1 = choose|p1: int|
                            0 <= p1 < p + 1 && qual_window(field@, p1, gn) && window_key(
                                field@,
                                p1,
                                gn,
                            ) == k;
                        if p1 == p {
                            assert(k == key);
                            assert(idx.has(k, i));
                        } else {
                            assert(field_gram_before(field@, gn, k, p as int));
                            assert(pre.has(k, i));
                            assert(idx.has(k, i));
                        }
                    }
                }
            }
        } else {
            proof {
                assert forall|k: int, i: int|
                    idx.has(k, i) == (old(idx).has(k, i) || (i == x && field_gram_before(
                        field@,
                        gn,
                        k,
                        p + 1,
                    ))) by {
                    if i == x && field_gram_before(field@, gn, k, p + 1) {
                        let p1 = choose|p1: int|
                            0 <= p1 < p + 1 && qual_window(field@, p1, gn) && window_key(
                                field@,
                                p1,
                                gn,
                            ) == k;
                        assert(p1 < p || !qual_window(field@, p1, gn));
                        assert(field_gram_before(field@, gn, k, p as int));
                    }
                    if i == x && field_gram_before(field@, gn, k, p as int) {
                        let p1 = choose|p1: int|
                            0 <= p1 < p && qual_window(field@, p1, gn) && window_key(
                                field@,
                                p1,
                                gn,
                            ) == k;
                        assert(field_gram_before(field@, gn, k, p + 1));
                    }
                }
            }
        }
        p += 1;
    }
    proof {
        lemma_field_gram_iff(field@, gn, 0);
        assert forall|k: int, i: int|
            idx.has(k, i) == (old(idx).has(k, i) || (i == x && field_gram(field@, gn, k))) by {
            lemma_field_gram_iff(field@, gn, k);
            assert(p as int == field@.len() - gn + 1);
        }
    }
}

/// Records every indexable gram of every searchable field of one feature.
fn add_feature(idx: &mut GramIndex, f: &Feature, x: usize, nfeat: usize)
    requires
        old(idx).wf(nfeat as int),
        x < nfeat,
    ensures
        final(idx).wf(nfeat as int),
        final(idx).n == old(idx).n,
        forall|k: int, i: int|
            final(idx).has(k, i) <==> old(idx).has(k, i) || (i == x && feature_gram(
                f@,
                old(idx).n as int,
                k,
            )),
{
    let ghost gn = idx.n as int;
    let ghost fv = f@;
    add_field(idx, &f.title, x, nfeat);
    let ghost after_title = *idx;
    match &f.flag {
        Some(fl) => {
            add_field(idx, fl, x, nfeat);
        },
        None => {},
    }
    let ghost after_flag = *idx;
    proof {
        assert(forall|k: int, i: int|
            after_flag.has(k, i) <==> old(idx).has(k, i) || (i == x && (field_gram(fv.title, gn, k)
                || match fv.flag {
                Some(fl) => field_gram(fl, gn, k),
                None => false,
            })));
    }
    let mut j: usize = 0;
    while j < f.items.len()
        invariant
            old(idx).wf(nfeat as int),
            x < nfeat,
            idx.wf(nfeat as int),
            idx.n == old(idx).n,
            gn == idx.n as int,
            fv == f@,
            j <= f.items.len(),
            fv.items.len() == f.items.len() as int,
            forall|k: int, i: int|
                idx.has(k, i) <==> old(idx).has(k, i) || (i == x && (field_gram(fv.title, gn, k)
                    || match fv.flag {
                    Some(fl) => field_gram(fl, gn, k),
                    None => false,
                } || items_gram_before(fv.items, gn, k, j as int))),
        decreases f.items.len() - j,
    {
        let ghost pre = *idx;
        add_field(idx, &f.items[j], x, nfeat);
        proof {
            assert(f.items@[j as int]@ == fv.items[j as int]);
            assert forall|k: int, i: int|
                idx.has(k, i) == (old(idx).has(k, i) || (i == x && (field_gram(fv.title, gn, k)
                    || match fv.flag {
                    Some(fl) => field_gram(fl, gn, k),
                    None => false,
                } || items_gram_before(fv.items, gn, k, j + 1)))) by {
                if idx.has(k, i) && !pre.has(k, i) {
                    assert(i == x && field_gram(fv.items[j as int], gn, k));
                    assert(items_gram_before(fv.items, gn, k, j + 1));
                }
                if i == x && items_gram_before(fv.items, gn, k, j + 1) {
                    let j1 = choose|j1: int| 0 <= j1 < j + 1 && field_gram(fv.items[j1], gn, k);
                    if j1 == j {
                        assert(idx.has(k, i));
                    } else {
                        assert(items_gram_before(fv.items, gn, k, j as int));
                        assert(pre.has(k, i));
                        assert(idx.has(k, i));
                    }
                }
                if i == x && items_gram_before(fv.items, gn, k, j as int) {
                    let j1 = choose|j1: int| 0 <= j1 < j && field_gram(fv.items[j1], gn, k);
                    assert(items_gram_before(fv.items, gn, k, j + 1));
                }
            }
        }
        j += 1;
    }
    proof {
        assert forall|k: int, i: int|
            idx.has(k, i) == (old(idx).has(k, i) || (i == x && feature_gram(fv, gn, k))) by {
            lemma_feature_gram_iff(fv, gn, k);
        }
    }
}

/// Builds the inverted index of gram width `n` for the whole corpus.
pub fn build_index(corpus: &Corpus, n: usize) -> (idx: GramIndex)
    requires
        1 <= n <= 3,
    ensures
        idx.n == n,
        idx.wf(corpus.feats().len() as int),
        idx.complete_for(corpus.feats()),
        idx.sound_for(corpus.feats()),
{
    let nfeat = corpus.len();
    let mut idx = GramIndex { n, entries: Vec::new() };
    proof {
        assert(forall|k: int, i: int| !idx.has(k, i));
    }
    let mut x: usize = 0;
    while x < nfeat
        invariant
            1 <= n <= 3,
            nfeat == corpus.feats().len(),
            idx.n == n,
            idx.wf(nfeat as int),
            x <= nfeat,
            forall|k: int, i: int|
                idx.has(k, i) <==> 0 <= i < x && feature_gram(corpus.feats()[i], n as int, k),
        decreases nfeat - x,
    {
        let ghost pre = idx;
        let f = corpus.feature(x);
        add_feature(&mut idx, f, x, nfeat);
        x += 1;
    }
    proof {
        assert forall|x1: int, g: Seq<u8>|
            0 <= x1 < corpus.feats().len() && g.len() == idx.n && all_indexable(g)
                && #[trigger] term_matches(corpus.feats()[x1], g) implies idx.has(
            key_of(g),
            x1,
        ) by {
            assert(feature_gram(corpus.feats()[x1], n as int, key_of(g)));
        }
    }
    idx
}

/// The three inverted indexes the retriever consults.
pub struct SearchIndexes {
    pub mono: GramIndex,
    pub bi: GramIndex,
    pub tri: GramIndex,
}

impl SearchIndexes {
    /// The indexes describe exactly this corpus.
    pub open spec fn wf_for(&self, feats: Seq<FeatureView>) -> bool {
        &&& self.mono.n == 1 && self.bi.n == 2 && self.tri.n == 3
        &&& self.mono.wf(feats.len() as int)
        &&& self.bi.wf(feats.len() as int)
        &&& self.tri.wf(feats.len() as int)
        &&& self.mono.complete_for(feats)
        &&& self.bi.complete_for(feats)
        &&& self.tri.complete_for(feats)
        &&& self.mono.sound_for(feats)
        &&& self.bi.sound_for(feats)
        &&& self.tri.sound_for(feats)
    }

    /// Builds all three indexes once, at startup, deterministically.
    pub fn build(corpus: &Corpus) -> (r: SearchIndexes)
        ensures
            r.wf_for(corpus.feats()),
    {
        SearchIndexes {
            mono: build_index(corpus, 1),
            bi: build_index(corpus, 2),
            tri: build_index(corpus, 3),
        }
    }
}

/// Looks a key up in one index: the postings list recorded under it, or
/// nothing when no feature carries the gram.
pub fn lookup<'a>(idx: &'a GramIndex, key: u32, nfeat: usize) -> (r: Option<&'a Vec<usize>>)
    requires
        idx.wf(nfeat as int),
    ensures
        match r {
            Some(v) => {
                &&& sorted_strict(v@)
                &&& forall|x: int| entry_has(v@, x) <==> idx.has(key as int, x)
                &&& forall|i: int| 0 <= i < v@.len() ==> (#[trigger] v@[i] as int) < nfeat
            },
            None => forall|x: int| !idx.has(key as int, x),
        },
{
    let mut e: usize = 0;
    while e < idx.entries.len()
        invariant
            idx.wf(nfeat as int),
            e <= idx.entries@.len(),
            forall|e1: int| 0 <= e1 < e ==> (#[trigger] idx.entries@[e1]).0 != key,
        decreases idx.entries@.len() - e,
    {
        if idx.entries[e].0 == key {
            proof {
                assert forall|x: int| entry_has(idx.entries@[e as int].1@, x) == idx.has(
                    key as int,
                    x,
                ) by {
                    if idx.has(key as int, x) {
                        let e1 = choose|e1: int|
                            0 <= e1 < idx.entries@.len() && (#[trigger] idx.entries@[e1]).0
                                == key as int && entry_has(idx.entries@[e1].1@, x);
                        if e1 < e {
                            assert(idx.entries@[e1].0 < idx.entries@[e as int].0);
                        } else if e1 > e {
                            assert(idx.entries@[e as int].0 < idx.entries@[e1].0);
                        }
                        assert(e1 == e);
                    }
                }
            }
            return Some(&idx.entries[e].1);
        }
        e += 1;
    }
    None
}

} // verus!
