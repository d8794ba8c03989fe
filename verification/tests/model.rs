use seroost::index::model::{compute_term_freq, DocInfo, Model, Timestamp};
use seroost::index::str_map::StrMap;
use seroost::index::term_processor::{Lowercase, Raw};

fn at(secs: u64) -> Timestamp {
    Timestamp { secs, nanos: 0 }
}

#[test]
fn term_frequencies_count_processed_terms() {
    let tf = compute_term_freq("a b A a", &Raw);
    assert_eq!(tf.len(), 3);
    assert_eq!(tf.get("a"), Some(&2));
    assert_eq!(tf.get("A"), Some(&1));
    assert_eq!(tf.get("b"), Some(&1));
    let tf = compute_term_freq("a b A a", &Lowercase);
    assert_eq!(tf.len(), 2);
    assert_eq!(tf.get("a"), Some(&3));
    assert_eq!(tf.get("c"), None);
}

#[test]
fn indexing_records_the_document_and_statistics() {
    let mut m = Model::new();
    m.index_doc("docs/a.txt", at(10), "apple banana apple", &Raw);
    m.index_doc("docs/b.txt", at(20), "banana cherry", &Raw);
    assert_eq!(m.doc_count(), 2);
    assert_eq!(m.total_term_count(), 5);
    assert_eq!(m.doc_freq().get("banana"), Some(&2));
    assert_eq!(m.doc_freq().get("apple"), Some(&1));
    assert_eq!(m.doc_freq().get("cherry"), Some(&1));
    let a = m.docs().get("docs/a.txt").unwrap();
    assert_eq!(a.term_count, 3);
    assert_eq!(a.term_freq.get("apple"), Some(&2));
    assert_eq!(a.last_modified, at(10));
}

#[test]
fn reindexing_replaces_the_old_document() {
    let mut m = Model::new();
    m.index_doc("a", at(1), "x y z", &Raw);
    m.index_doc("b", at(1), "x", &Raw);
    m.index_doc("a", at(2), "y w", &Raw);
    assert_eq!(m.doc_count(), 2);
    assert_eq!(m.total_term_count(), 3);
    assert_eq!(m.doc_freq().get("x"), Some(&1));
    assert_eq!(m.doc_freq().get("z"), None);
    assert_eq!(m.doc_freq().get("w"), Some(&1));
    assert_eq!(m.doc_freq().get("y"), Some(&1));
    assert_eq!(m.docs().get("a").unwrap().term_count, 2);
}

#[test]
fn indexing_twice_is_indexing_once() {
    let mut once = Model::new();
    once.index_doc("a", at(1), "one two two", &Raw);
    let mut twice = Model::new();
    twice.index_doc("a", at(1), "one two two", &Raw);
    twice.index_doc("a", at(1), "one two two", &Raw);
    assert_eq!(once.doc_count(), twice.doc_count());
    assert_eq!(once.total_term_count(), twice.total_term_count());
    assert_eq!(twice.doc_freq().get("two"), Some(&1));
    assert_eq!(twice.doc_freq().len(), once.doc_freq().len());
}

#[test]
fn freshly_indexed_document_is_not_stale() {
    let mut m = Model::new();
    assert!(m.is_stale("a", at(5)));
    m.index_doc("a", at(5), "text", &Raw);
    assert!(!m.is_stale("a", at(5)));
    assert!(m.is_stale("a", at(6)));
    assert!(m.is_stale("a", Timestamp { secs: 5, nanos: 1 }));
    assert!(m.is_stale("b", at(5)));
}

#[test]
fn empty_document_is_indexed_with_no_terms() {
    let mut m = Model::default();
    m.index_doc("empty", at(0), "   ", &Raw);
    assert_eq!(m.doc_count(), 1);
    assert_eq!(m.total_term_count(), 0);
    assert_eq!(m.doc_freq().len(), 0);
}

fn doc(term_count: usize, terms: &[(&str, usize)]) -> DocInfo {
    let mut tf = StrMap::new();
    for (t, c) in terms {
        tf.insert(t.to_string(), *c);
    }
    DocInfo { term_count, term_freq: tf, last_modified: at(3) }
}

#[test]
fn restoring_documents_checks_them() {
    let mut m = Model::new();
    assert!(m.add_document("a", doc(3, &[("x", 2), ("y", 1)])));
    assert!(!m.add_document("a", doc(1, &[("x", 1)])));
    assert!(!m.add_document("b", doc(4, &[("x", 2), ("y", 1)])));
    assert!(!m.add_document("c", doc(1, &[("x", 1), ("y", 0)])));
    assert!(m.add_document("d", doc(1, &[("y", 1)])));
    assert_eq!(m.doc_count(), 2);
    assert_eq!(m.total_term_count(), 4);
    assert_eq!(m.doc_freq().get("y"), Some(&2));
    assert_eq!(m.doc_freq().get("x"), Some(&1));
}

#[test]
fn str_map_keeps_entries_in_order_and_removes_by_swapping() {
    let mut s: StrMap<usize> = StrMap::new();
    s.insert("a".to_string(), 1);
    s.insert("b".to_string(), 2);
    s.insert("c".to_string(), 3);
    s.insert("a".to_string(), 10);
    assert_eq!(s.len(), 3);
    assert_eq!(s.key_at(0), "a");
    assert_eq!(*s.value_at(0), 10);
    assert_eq!(s.remove("a"), Some(10));
    assert_eq!(s.remove("a"), None);
    assert_eq!(s.key_at(0), "c");
    assert_eq!(s.key_at(1), "b");
    assert!(!s.contains_key("a"));
    assert_eq!(s.get("c"), Some(&3));
}

#[test]
fn indexing_then_removing_a_new_document_restores_the_model() {
    let mut m = Model::new();
    m.index_doc("a", at(1), "x y", &Raw);
    m.index_doc("b", at(2), "y z z", &Raw);
    m.remove_doc("b");
    assert_eq!(m.doc_count(), 1);
    assert_eq!(m.total_term_count(), 2);
    assert_eq!(m.doc_freq().get("y"), Some(&1));
    assert_eq!(m.doc_freq().get("z"), None);
    assert_eq!(m.doc_freq().len(), 2);
    assert!(m.docs().get("b").is_none());
    m.remove_doc("missing");
    assert_eq!(m.doc_count(), 1);
}

#[test]
fn indexing_two_paths_commutes() {
    let mut m = Model::new();
    m.index_doc("a", at(1), "x y", &Raw);
    m.index_doc("b", at(2), "y z", &Raw);
    let mut n = Model::new();
    n.index_doc("b", at(2), "y z", &Raw);
    n.index_doc("a", at(1), "x y", &Raw);
    assert_eq!(m.doc_count(), n.doc_count());
    assert_eq!(m.total_term_count(), n.total_term_count());
    for t in ["x", "y", "z", "w"] {
        assert_eq!(m.doc_freq().get(t), n.doc_freq().get(t));
    }
}

#[test]
fn term_frequencies_of_joined_texts_add_up() {
    let a = compute_term_freq("x y x", &Raw);
    let b = compute_term_freq("x z", &Raw);
    let ab = compute_term_freq("x y x x z", &Raw);
    for t in ["x", "y", "z"] {
        assert_eq!(
            ab.get(t).copied().unwrap_or(0),
            a.get(t).copied().unwrap_or(0) + b.get(t).copied().unwrap_or(0)
        );
    }
}
