// End-to-end tests of the incremental n-gram search engine: corpus
// construction and validation, term extraction, retrieval, exact
// matching, ranking, highlight spans, and the incremental session.

use feature_search::corpus::{Channel, ConfigError, Corpus, Feature, FeatureList, Version};
use feature_search::index::SearchIndexes;
use feature_search::matcher::{run_search, MatchedFeature, Props};
use feature_search::retrieve::candidates_for_term;
use feature_search::session::{SearchSession, SearchState};
use feature_search::spans::Span;
use feature_search::terms::extract_search_terms;

fn bytes(s: &str) -> Vec<u8> {
    s.as_bytes().to_vec()
}

fn feat(title: &str, flag: Option<&str>, items: &[&str]) -> Feature {
    Feature {
        title: bytes(title),
        flag: flag.map(bytes),
        items: items.iter().map(|i| bytes(i)).collect(),
    }
}

fn corpus_of(features: Vec<Feature>) -> Corpus {
    let lists = vec![FeatureList { version: None, features }];
    Corpus::from_lists(lists).expect("valid corpus")
}

fn search(corpus: &Corpus, idx: &SearchIndexes, query: &str) -> Vec<MatchedFeature> {
    let terms = extract_search_terms(&bytes(query));
    assert!(!terms.is_empty(), "query must have terms for run_search");
    run_search(corpus, idx, &terms)
}

fn indices(results: &[MatchedFeature]) -> Vec<usize> {
    results.iter().map(|m| m.index).collect()
}

fn span(start: usize, end: usize) -> Span {
    Span { start, end }
}

#[test]
fn extracts_lowercase_terms() {
    let terms = extract_search_terms(&bytes("  Foo   BAR "));
    assert_eq!(terms, vec![bytes("foo"), bytes("bar")]);
}

#[test]
fn empty_and_whitespace_queries_have_no_terms() {
    assert!(extract_search_terms(&bytes("")).is_empty());
    assert!(extract_search_terms(&bytes(" \t\n  ")).is_empty());
}

#[test]
fn backtick_in_field_is_a_config_error() {
    let lists = vec![FeatureList {
        version: None,
        features: vec![feat("fine", None, &[]), feat("has `code`", None, &[])],
    }];
    match Corpus::from_lists(lists) {
        Err(ConfigError::ReservedByte { feature }) => assert_eq!(feature, 1),
        Ok(_) => panic!("backtick must be rejected"),
    }
}

#[test]
fn backtick_in_item_is_a_config_error() {
    let lists = vec![FeatureList {
        version: None,
        features: vec![feat("fine", None, &["also fine", "not `fine`"])],
    }];
    assert!(Corpus::from_lists(lists).is_err());
}

#[test]
fn example_corpus_query_matches_both_titles() {
    let corpus = corpus_of(vec![
        feat("async functions", None, &[]),
        feat("async blocks", Some("async_await"), &["await"]),
    ]);
    let idx = SearchIndexes::build(&corpus);
    let results = search(&corpus, &idx, "async");
    assert_eq!(indices(&results), vec![0, 1]);
}

#[test]
fn refinement_narrows_to_the_matching_feature() {
    let corpus = corpus_of(vec![
        feat("async functions", None, &[]),
        feat("async blocks", Some("async_await"), &["await"]),
    ]);
    let idx = SearchIndexes::build(&corpus);
    // only "async blocks" has a field containing a "b"
    let results = search(&corpus, &idx, "async b");
    assert_eq!(indices(&results), vec![1]);
}

#[test]
fn empty_query_is_no_active_search_not_zero_results() {
    let corpus = corpus_of(vec![feat("async functions", None, &[])]);
    let idx = SearchIndexes::build(&corpus);
    let mut session = SearchSession::new();

    session.on_query(&corpus, &idx, &bytes("qqqq"));
    match &session.state {
        SearchState::Active { results, .. } => assert!(results.is_empty()),
        SearchState::Empty => panic!("a query with terms is an active search"),
    }

    session.on_query(&corpus, &idx, &bytes(""));
    assert!(matches!(session.state, SearchState::Empty));
}

#[test]
fn single_character_query_uses_the_monogram_index() {
    let corpus = corpus_of(vec![
        feat("zebra", None, &[]),
        feat("other", None, &[]),
        feat("lazy", None, &[]),
    ]);
    let idx = SearchIndexes::build(&corpus);
    let results = search(&corpus, &idx, "z");
    assert_eq!(indices(&results), vec![0, 2]);
}

#[test]
fn single_character_candidates_are_sound() {
    let corpus = corpus_of(vec![
        feat("alpha", None, &[]),
        feat("beta", None, &[]),
        feat("gamma", None, &["a bit of alpha"]),
    ]);
    let idx = SearchIndexes::build(&corpus);
    let cands = candidates_for_term(&idx, &corpus, &bytes("a"));
    // every feature containing "a" somewhere must be present
    assert!(cands.contains(&0));
    assert!(cands.contains(&1));
    assert!(cands.contains(&2));
}

#[test]
fn case_insensitive_matching_with_spans() {
    let corpus = corpus_of(vec![feat("Async Functions", None, &[])]);
    let idx = SearchIndexes::build(&corpus);
    let results = search(&corpus, &idx, "ASYNC");
    assert_eq!(results.len(), 1);
    assert_eq!(results[0].title_spans, vec![span(0, 5)]);
}

#[test]
fn overlapping_matches_merge_into_one_span() {
    let corpus = corpus_of(vec![feat("aaa", None, &[])]);
    let idx = SearchIndexes::build(&corpus);
    let results = search(&corpus, &idx, "aa");
    // occurrences at 0 and 1 overlap: one covering span, never two
    assert_eq!(results[0].title_spans, vec![span(0, 3)]);
}

#[test]
fn spans_cover_every_occurrence() {
    let corpus = corpus_of(vec![feat("abc then abc", None, &[])]);
    let idx = SearchIndexes::build(&corpus);
    let results = search(&corpus, &idx, "abc");
    assert_eq!(results[0].title_spans, vec![span(0, 3), span(9, 12)]);
}

#[test]
fn item_span_lists_align_with_items() {
    let corpus = corpus_of(vec![feat("collections", None, &["foo", "bar", "rebar"])]);
    let idx = SearchIndexes::build(&corpus);
    let results = search(&corpus, &idx, "bar");
    assert_eq!(results.len(), 1);
    assert_eq!(results[0].item_spans.len(), 3);
    assert!(results[0].item_spans[0].is_empty());
    assert_eq!(results[0].item_spans[1], vec![span(0, 3)]);
    assert_eq!(results[0].item_spans[2], vec![span(2, 5)]);
}

#[test]
fn flag_text_is_searchable() {
    let corpus = corpus_of(vec![
        feat("one", Some("serde_rename"), &[]),
        feat("two", None, &[]),
    ]);
    let idx = SearchIndexes::build(&corpus);
    let results = search(&corpus, &idx, "rename");
    assert_eq!(indices(&results), vec![0]);
    assert_eq!(results[0].flag_spans, vec![span(6, 12)]);
    assert!(results[0].title_spans.is_empty());
}

#[test]
fn title_matches_outrank_item_matches() {
    let corpus = corpus_of(vec![
        feat("other", None, &["zebra"]),
        feat("zebra", None, &[]),
    ]);
    let idx = SearchIndexes::build(&corpus);
    let results = search(&corpus, &idx, "zebra");
    // the title match weighs more than the item match, despite the index order
    assert_eq!(indices(&results), vec![1, 0]);
    assert!(results[0].score > results[1].score);
}

#[test]
fn equal_scores_tie_break_by_feature_index() {
    let corpus = corpus_of(vec![
        feat("async functions", None, &[]),
        feat("async blocks", None, &[]),
    ]);
    let idx = SearchIndexes::build(&corpus);
    let results = search(&corpus, &idx, "async");
    assert_eq!(results[0].score, results[1].score);
    assert_eq!(indices(&results), vec![0, 1]);
}

#[test]
fn every_term_must_match_somewhere() {
    let corpus = corpus_of(vec![
        feat("alpha beta", None, &[]),
        feat("alpha", None, &["gamma"]),
    ]);
    let idx = SearchIndexes::build(&corpus);
    // "beta" only in feature 0, "gamma" only in feature 1
    assert_eq!(indices(&search(&corpus, &idx, "alpha")), vec![0, 1]);
    assert_eq!(indices(&search(&corpus, &idx, "alpha beta")), vec![0]);
    assert_eq!(indices(&search(&corpus, &idx, "alpha gamma")), vec![1]);
    assert!(search(&corpus, &idx, "alpha beta gamma").is_empty());
}

fn assert_same_results(a: &[MatchedFeature], b: &[MatchedFeature]) {
    assert_eq!(a.len(), b.len());
    for (x, y) in a.iter().zip(b.iter()) {
        assert_eq!(x.index, y.index);
        assert_eq!(x.score, y.score);
        assert_eq!(x.title_spans, y.title_spans);
        assert_eq!(x.flag_spans, y.flag_spans);
        assert_eq!(x.item_spans, y.item_spans);
    }
}

#[test]
fn same_query_twice_yields_identical_results() {
    let corpus = corpus_of(vec![
        feat("async functions", None, &[]),
        feat("async blocks", Some("async_await"), &["await"]),
        feat("const generics", None, &["min_const_generics"]),
    ]);
    let idx = SearchIndexes::build(&corpus);
    let first = search(&corpus, &idx, "async");
    let second = search(&corpus, &idx, "async");
    assert_same_results(&first, &second);
}

#[test]
fn incremental_refinement_equals_full_restart() {
    let corpus = corpus_of(vec![
        feat("async functions", None, &[]),
        feat("async blocks", Some("async_await"), &["await"]),
        feat("atomics", None, &["AtomicU8"]),
    ]);
    let idx = SearchIndexes::build(&corpus);

    // type "a", then "as", then "async b": each step refines the last
    let mut session = SearchSession::new();
    session.on_query(&corpus, &idx, &bytes("a"));
    session.on_query(&corpus, &idx, &bytes("as"));
    session.on_query(&corpus, &idx, &bytes("async b"));

    let full = search(&corpus, &idx, "async b");
    match &session.state {
        SearchState::Active { results, .. } => assert_same_results(results, &full),
        SearchState::Empty => panic!("active search expected"),
    }
}

#[test]
fn display_props_pair_a_feature_with_its_match() {
    let corpus = corpus_of(vec![feat("traits", None, &[])]);
    let idx = SearchIndexes::build(&corpus);
    let mut results = search(&corpus, &idx, "trait");
    let m = results.pop().expect("one hit");
    let props = Props { data: Some(corpus.feature(m.index).clone()), match_: m };
    assert_eq!(props.data.as_ref().map(|f| f.title.clone()), Some(bytes("traits")));
    assert_eq!(props.match_.title_spans, vec![span(0, 5)]);
}

#[test]
fn versions_are_carried_for_display() {
    let lists = vec![
        FeatureList {
            version: Some(Version { number: bytes("1.0.0"), channel: Channel::Stable }),
            features: vec![feat("first", None, &[])],
        },
        FeatureList {
            version: None,
            features: vec![feat("second", None, &[])],
        },
    ];
    let corpus = Corpus::from_lists(lists).expect("valid corpus");
    assert_eq!(corpus.len(), 2);
    match corpus.version_of(0) {
        Some(v) => {
            assert_eq!(v.number, bytes("1.0.0"));
            assert_eq!(v.channel, Channel::Stable);
        },
        None => panic!("feature 0 belongs to a version"),
    }
    assert!(corpus.version_of(1).is_none());
    assert_eq!(corpus.feature(1).title, bytes("second"));
}
