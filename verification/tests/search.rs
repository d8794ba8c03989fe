use seroost::index::model::{Model, Timestamp};
use seroost::index::term_processor::{Lowercase, Raw};
use seroost::search::{match_query, TfIdfSearcher};

fn model() -> Model {
    let t = Timestamp { secs: 1, nanos: 0 };
    let mut m = Model::new();
    m.index_doc("a", t, "cat dog cat", &Raw);
    m.index_doc("b", t, "bird", &Raw);
    m.index_doc("c", t, "dog dog fish", &Raw);
    m
}

#[test]
fn query_terms_carry_frequencies() {
    let m = model();
    let (qs, _) = match_query(&m, "dog Dog cow", &Lowercase);
    assert_eq!(qs.len(), 2);
    let dog = qs.iter().find(|q| q.term == "dog").unwrap();
    assert_eq!(dog.query_freq, 2);
    assert_eq!(dog.doc_freq, 2);
    let cow = qs.iter().find(|q| q.term == "cow").unwrap();
    assert_eq!(cow.query_freq, 1);
    assert_eq!(cow.doc_freq, 0);
}

#[test]
fn matches_are_documents_with_a_query_term() {
    let m = model();
    let (qs, ms) = match_query(&m, "dog cat", &Raw);
    let mut paths: Vec<&str> = ms.iter().map(|d| d.path.as_str()).collect();
    paths.sort();
    assert_eq!(paths, vec!["a", "c"]);
    let a = ms.iter().find(|d| d.path == "a").unwrap();
    assert_eq!(a.term_count, 3);
    for (j, q) in qs.iter().enumerate() {
        let expected = if q.term == "cat" { 2 } else { 1 };
        assert_eq!(a.counts[j], expected);
    }
    let c = ms.iter().find(|d| d.path == "c").unwrap();
    for (j, q) in qs.iter().enumerate() {
        let expected = if q.term == "cat" { 0 } else { 2 };
        assert_eq!(c.counts[j], expected);
    }
}

#[test]
fn query_without_known_terms_matches_nothing() {
    let searcher = TfIdfSearcher::new(model());
    let (qs, ms) = searcher.matches("zebra", &Raw);
    assert_eq!(qs.len(), 1);
    assert!(ms.is_empty());
    let (qs, ms) = searcher.matches("  ", &Raw);
    assert!(qs.is_empty());
    assert!(ms.is_empty());
}
