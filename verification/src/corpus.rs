//! The corpus model: feature records grouped under optional release
//! versions, flattened into a stable 0-based feature order at construction.
//!
//! Construction validates every searchable field: the backtick byte is
//! reserved for markup upstream, so input containing it is rejected as a
//! configuration error.  After construction the corpus never changes.

use vstd::prelude::*;
use crate::text::{folded, occurs_in, lemma_occurs_in_window};

verus! {

/// The release channel of a version.
#[derive(Clone, Copy, PartialEq, Eq, Structural, Debug)]
pub enum Channel {
    Stable,
    Beta,
    Nightly,
}

/// Release metadata carried alongside matched features for display.
#[derive(Clone, Debug)]
pub struct Version {
    /// Version number, e.g. `1.0.0`, as UTF-8 bytes.
    pub number: Vec<u8>,
    pub channel: Channel,
}

/// One catalog entry.  The searchable fields are the title, the optional
/// flag text, and the item strings, in that order; all are UTF-8 bytes.
#[derive(Clone, Debug)]
pub struct Feature {
    pub title: Vec<u8>,
    pub flag: Option<Vec<u8>>,
    pub items: Vec<Vec<u8>>,
}

/// A contiguous run of features owned by one optional version, the shape
/// in which the corpus loader hands records over.
pub struct FeatureList {
    pub version: Option<Version>,
    pub features: Vec<Feature>,
}

/// The mathematical value of a feature: its searchable fields.
#[verifier::ext_equal]
pub ghost struct FeatureView {
    pub title: Seq<u8>,
    pub flag: Option<Seq<u8>>,
    pub items: Seq<Seq<u8>>,
}

impl View for Feature {
    type V = FeatureView;

    open spec fn view(&self) -> FeatureView {
        FeatureView {
            title: self.title@,
            flag: match self.flag {
                Some(f) => Some(f@),
                None => None,
            },
            items: self.items@.map_values(|v: Vec<u8>| v@),
        }
    }
}

/// The term (or gram) occurs case-insensitively in the field text.
pub open spec fn field_matches(field: Seq<u8>, t: Seq<u8>) -> bool {
    occurs_in(folded(field), t)
}

/// The term occurs case-insensitively in some item string.
pub open spec fn any_item_matches(items: Seq<Seq<u8>>, t: Seq<u8>) -> bool {
    exists|j: int| 0 <= j < items.len() && field_matches(items[j], t)
}

/// The term occurs case-insensitively in some searchable field.
pub open spec fn term_matches(f: FeatureView, t: Seq<u8>) -> bool {
    ||| field_matches(f.title, t)
    ||| match f.flag {
        Some(fl) => field_matches(fl, t),
        None => false,
    }
    ||| any_item_matches(f.items, t)
}

/// Every term of the query matches at least one searchable field.
pub open spec fn matches_all(f: FeatureView, terms: Seq<Seq<u8>>) -> bool {
    forall|k: int| 0 <= k < terms.len() ==> term_matches(f, terms[k])
}

/// The mathematical value of an extracted term list.
pub open spec fn terms_view(ts: Seq<Vec<u8>>) -> Seq<Seq<u8>> {
    ts.map_values(|t: Vec<u8>| t@)
}

/// A feature matching a term matches every window of the term.
pub proof fn lemma_term_matches_window(f: FeatureView, t: Seq<u8>, a: int, b: int)
    requires
        term_matches(f, t),
        0 <= a <= b <= t.len(),
    ensures
        term_matches(f, t.subrange(a, b)),
{
    if field_matches(f.title, t) {
        lemma_occurs_in_window(folded(f.title), t, a, b);
    } else {
        match f.flag {
            Some(fl) => {
                if field_matches(fl, t) {
                    lemma_occurs_in_window(folded(fl), t, a, b);
                    return ;
                }
            },
            None => {},
        }
        let j = choose|j: int| 0 <= j < f.items.len() && field_matches(f.items[j], t);
        lemma_occurs_in_window(folded(f.items[j]), t, a, b);
        assert(field_matches(f.items[j], t.subrange(a, b)));
        assert(any_item_matches(f.items, t.subrange(a, b)));
    }
}

/// No reserved backtick byte in the field.
pub open spec fn field_clean(s: Seq<u8>) -> bool {
    forall|i: int| 0 <= i < s.len() ==> s[i] != 0x60
}

/// No reserved backtick byte in any searchable field of the feature.
pub open spec fn feature_clean(f: FeatureView) -> bool {
    &&& field_clean(f.title)
    &&& match f.flag {
        Some(fl) => field_clean(fl),
        None => true,
    }
    &&& forall|j: int| 0 <= j < f.items.len() ==> field_clean(#[trigger] f.items[j])
}

/// The features of a sequence of lists, flattened in list order.
pub open spec fn flat_features(lists: Seq<FeatureList>) -> Seq<Feature>
    decreases lists.len(),
{
    if lists.len() == 0 {
        Seq::empty()
    } else {
        lists[0].features@ + flat_features(lists.drop_first())
    }
}

/// Flattening distributes over splitting the lists at `k`.
pub proof fn lemma_flat_split(lists: Seq<FeatureList>, k: int)
    requires
        0 <= k <= lists.len(),
    ensures
        flat_features(lists) == flat_features(lists.take(k)) + flat_features(lists.skip(k)),
    decreases k,
{
    if k == 0 {
        assert(lists.take(0) =~= Seq::<FeatureList>::empty());
        assert(lists.skip(0) =~= lists);
        assert(flat_features(lists) =~= flat_features(lists.take(0)) + flat_features(
            lists.skip(0),
        ));
    } else {
        lemma_flat_split(lists.drop_first(), k - 1);
        assert(lists.take(k)[0] == lists[0]);
        assert(lists.take(k).drop_first() =~= lists.drop_first().take(k - 1));
        assert(lists.skip(k) =~= lists.drop_first().skip(k - 1));
        assert(flat_features(lists) =~= flat_features(lists.take(k)) + flat_features(
            lists.skip(k),
        ));
    }
}

/// Flattening one more list appends its features.
pub proof fn lemma_flat_take_succ(lists: Seq<FeatureList>, k: int)
    requires
        0 <= k < lists.len(),
    ensures
        flat_features(lists.take(k + 1)) == flat_features(lists.take(k)) + lists[k].features@,
{
    lemma_flat_split(lists.take(k + 1), k);
    assert(lists.take(k + 1).take(k) =~= lists.take(k));
    let tail = lists.take(k + 1).skip(k);
    assert(tail.len() == 1 && tail[0] == lists[k]);
    assert(tail.drop_first() =~= Seq::<FeatureList>::empty());
    assert(flat_features(Seq::<FeatureList>::empty()) == Seq::<Feature>::empty());
    assert(flat_features(tail) == tail[0].features@ + flat_features(tail.drop_first()));
    assert(flat_features(tail) =~= lists[k].features@);
    assert(flat_features(lists.take(k + 1)) =~= flat_features(lists.take(k))
        + lists[k].features@);
}

/// Taking more lists never shortens the flattened feature sequence.
pub proof fn lemma_flat_len_le(lists: Seq<FeatureList>, a: int, b: int)
    requires
        0 <= a <= b <= lists.len(),
    ensures
        flat_features(lists.take(a)).len() <= flat_features(lists.take(b)).len(),
    decreases b - a,
{
    if a < b {
        lemma_flat_take_succ(lists, b - 1);
        lemma_flat_len_le(lists, a, b - 1);
    }
}

/// The error a corpus constructor reports: the first feature, in flattened
/// corpus order, with a reserved backtick byte in a searchable field.
#[derive(Clone, Copy, PartialEq, Eq, Structural, Debug)]
pub enum ConfigError {
    ReservedByte { feature: usize },
}

/// The immutable corpus: all features in stable 0-based order, each owning
/// list's version kept for display, with O(1) lookup by feature index.
pub struct Corpus {
    /// One entry per input list, in list order.
    pub versions: Vec<Option<Version>>,
    /// All features, flattened in list order.
    pub features: Vec<Feature>,
    /// For each feature, the index of its owning list in `versions`.
    pub owner: Vec<usize>,
}

impl Corpus {
    /// The mathematical value of the corpus: its features' fields.
    pub open spec fn feats(&self) -> Seq<FeatureView> {
        self.features@.map_values(|f: Feature| f@)
    }

    /// Construction establishes this and nothing ever changes it.
    pub open spec fn wf(&self) -> bool {
        &&& self.owner@.len() == self.features@.len()
        &&& forall|i: int|
            0 <= i < self.owner@.len() ==> (#[trigger] self.owner@[i]) < self.versions@.len()
        &&& forall|i: int| 0 <= i < self.feats().len() ==> feature_clean(#[trigger] self.feats()[i])
    }

    pub fn len(&self) -> (n: usize)
        ensures
            n == self.feats().len(),
    {
        self.features.len()
    }

    pub fn feature(&self, i: usize) -> (f: &Feature)
        requires
            i < self.feats().len(),
        ensures
            *f == self.features@[i as int],
            f@ == self.feats()[i as int],
    {
        &self.features[i]
    }

    pub fn version_of(&self, i: usize) -> (v: &Option<Version>)
        requires
            self.wf(),
            i < self.feats().len(),
        ensures
            *v == self.versions@[self.owner@[i as int] as int],
    {
        &self.versions[self.owner[i]]
    }

    /// Builds the corpus from the loader's lists, validating every
    /// searchable field.  Returns the flattened, immutable corpus, or the
    /// first (in corpus order) feature holding a reserved backtick byte.
    pub fn from_lists(lists: Vec<FeatureList>) -> (r: Result<Corpus, ConfigError>)
        ensures
            match r {
                Ok(c) => {
                    &&& c.wf()
                    &&& c.features@ == flat_features(lists@)
                    &&& c.versions@.len() == lists@.len()
                    &&& forall|l: int|
                        0 <= l < lists@.len() ==> c.versions@[l] == #[trigger] lists@[l].version
                    &&& forall|l: int, j: int|
                        0 <= l < lists@.len() && 0 <= j < lists@[l].features@.len()
                            ==> #[trigger] c.owner@[flat_features(lists@.take(l)).len() + j] == l
                },
                Err(e) => {
                    let flat = flat_features(lists@);
                    match e {
                        ConfigError::ReservedByte { feature } => {
                            &&& feature < flat.len()
                            &&& !feature_clean(flat[feature as int]@)
                            &&& forall|x: int|
                                0 <= x < feature ==> feature_clean(#[trigger] flat[x]@)
                        },
                    }
                },
            },
    {
        let ghost glists = lists@;
        let mut versions: Vec<Option<Version>> = Vec::new();
        let mut features: Vec<Feature> = Vec::new();
        let mut owner: Vec<usize> = Vec::new();
        let mut rest = lists;
        let n_lists = rest.len();
        let mut li: usize = 0;
        proof {
            assert(glists.len() == n_lists as int);
            assert(glists.take(0) =~= Seq::<FeatureList>::empty());
            assert(glists.skip(0) =~= glists);
            assert(flat_features(Seq::<FeatureList>::empty()) == Seq::<Feature>::empty());
            assert(features@ =~= flat_features(glists.take(0)));
        }
        while rest.len() > 0
            invariant
                glists == lists@,
                glists.len() <= usize::MAX,
                li <= glists.len(),
                rest@ =~= glists.skip(li as int),
                versions@.len() == li,
                forall|l: int| 0 <= l < li ==> versions@[l] == #[trigger] glists[l].version,
                features@ == flat_features(glists.take(li as int)),
                owner@.len() == features@.len(),
                forall|i: int| 0 <= i < owner@.len() ==> (#[trigger] owner@[i]) < li,
                forall|l: int, j: int|
                    0 <= l < li && 0 <= j < glists[l].features@.len()
                        ==> #[trigger] owner@[flat_features(glists.take(l)).len() + j] == l,
                forall|i: int|
                    0 <= i < features@.len() ==> feature_clean((#[trigger] features@[i])@),
            decreases rest@.len(),
        {
            let l = rest.remove(0);
            proof {
                assert(glists.skip(li as int)[0] == glists[li as int]);
                assert(glists.skip(li as int).remove(0) =~= glists.skip(li as int + 1));
            }
            versions.push(l.version);
            let mut fs = l.features;
            let n_feats = fs.len();
            let ghost cur = glists[li as int].features@;
            let ghost base = flat_features(glists.take(li as int)).len();
            let mut fi: usize = 0;
            proof {
                assert(cur.len() == n_feats as int);
                assert(cur.take(0) =~= Seq::<Feature>::empty());
                assert(cur.skip(0) =~= cur);
                assert(features@ =~= flat_features(glists.take(li as int)) + cur.take(0));
            }
            while fs.len() > 0
                invariant
                    glists == lists@,
                    glists.len() <= usize::MAX,
                    li < glists.len(),
                    cur == glists[li as int].features@,
                    cur.len() <= usize::MAX,
                    base == flat_features(glists.take(li as int)).len() as int,
                    fi <= cur.len(),
                    fs@ =~= cur.skip(fi as int),
                    versions@.len() == li + 1,
                    forall|l2: int| 0 <= l2 < li ==> versions@[l2] == #[trigger] glists[l2].version,
                    versions@[li as int] == glists[li as int].version,
                    features@ == flat_features(glists.take(li as int)) + cur.take(fi as int),
                    features@.len() == base + fi,
                    owner@.len() == features@.len(),
                    forall|i: int| 0 <= i < owner@.len() ==> (#[trigger] owner@[i]) <= li,
                    forall|l2: int, j: int|
                        0 <= l2 < li && 0 <= j < glists[l2].features@.len()
                            ==> #[trigger] owner@[flat_features(glists.take(l2)).len() + j] == l2,
                    forall|j: int| 0 <= j < fi ==> #[trigger] owner@[base + j] == li,
                    forall|i: int|
                        0 <= i < features@.len() ==> feature_clean((#[trigger] features@[i])@),
                decreases fs@.len(),
            {
                let f = fs.remove(0);
                proof {
                    assert(cur.skip(fi as int)[0] == cur[fi as int]);
                    assert(cur.skip(fi as int).remove(0) =~= cur.skip(fi as int + 1));
                }
                if !feature_is_clean(&f) {
                    proof {
                        lemma_flat_split(glists, li as int);
                        let tail = glists.skip(li as int);
                        assert(tail[0] == glists[li as int]);
                        assert(flat_features(tail) == cur + flat_features(tail.drop_first()));
                        let flat = flat_features(glists);
                        let rest2 = flat_features(tail.drop_first());
                        assert(flat =~= features@ + (cur.skip(fi as int) + rest2));
                        assert(flat[base + fi] == cur[fi as int]);
                        assert(forall|x: int|
                            0 <= x < base + fi ==> #[trigger] flat[x] == features@[x]);
                    }
                    return Err(ConfigError::ReservedByte { feature: features.len() });
                }
                features.push(f);
                owner.push(li);
                fi += 1;
                proof {
                    assert(cur.take(fi as int) =~= cur.take(fi - 1).push(cur[fi - 1]));
                    assert(features@ =~= flat_features(glists.take(li as int)) + cur.take(
                        fi as int,
                    ));
                    assert forall|l2: int, j: int|
                        0 <= l2 < li && 0 <= j < glists[l2].features@.len() implies #[trigger] owner@[flat_features(
                        glists.take(l2),
                    ).len() + j] == l2 by {
                        lemma_flat_take_succ(glists, l2);
                        lemma_flat_len_le(glists, l2 + 1, li as int);
                    }
                }
            }
            proof {
                assert(cur.take(fi as int) =~= cur);
                lemma_flat_take_succ(glists, li as int);
                assert(features@ =~= flat_features(glists.take(li as int + 1)));
                assert forall|l2: int, j: int|
                    0 <= l2 < li + 1 && 0 <= j < glists[l2].features@.len() implies #[trigger] owner@[flat_features(
                    glists.take(l2),
                ).len() + j] == l2 by {
                    lemma_flat_take_succ(glists, l2);
                    lemma_flat_len_le(glists, l2 + 1, li as int + 1);
                }
            }
            li += 1;
        }
        proof {
            assert(glists.take(li as int) =~= glists);
        }
        Ok(Corpus { versions, features, owner })
    }
}

/// True exactly when the field holds no reserved backtick byte.
pub fn field_is_clean(v: &Vec<u8>) -> (r: bool)
    ensures
        r == field_clean(v@),
{
    let mut i: usize = 0;
    while i < v.len()
        invariant
            i <= v.len(),
            forall|x: int| 0 <= x < i ==> v@[x] != 0x60,
        decreases v.len() - i,
    {
        if v[i] == 0x60 {
            return false;
        }
        i += 1;
    }
    true
}

/// True exactly when no searchable field of the feature holds a reserved
/// backtick byte.
pub fn feature_is_clean(f: &Feature) -> (r: bool)
    ensures
        r == feature_clean(f@),
{
    if !field_is_clean(&f.title) {
        return false;
    }
    match &f.flag {
        Some(fl) => {
            if !field_is_clean(fl) {
                return false;
            }
        },
        None => {},
    }
    let mut j: usize = 0;
    while j < f.items.len()
        invariant
            j <= f.items.len(),
            field_clean(f@.title),
            match f@.flag {
                Some(fl) => field_clean(fl),
                None => true,
            },
            forall|x: int| 0 <= x < j ==> field_clean(#[trigger] f@.items[x]),
        decreases f.items.len() - j,
    {
        if !field_is_clean(&f.items[j]) {
            proof {
                assert(f@.items[j as int] == f.items@[j as int]@);
            }
            return false;
        }
        j += 1;
    }
    true
}

} // verus!
