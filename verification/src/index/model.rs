//! The term-frequency model of a set of documents.
use vstd::prelude::*;
use crate::index::lexer::{law_lex_of_joined_texts, lex, lemma_lex_len, whitespace_is_separator, Lexer};
use crate::index::str_map::StrMap;
use crate::index::term_processor::TermProcessor;

verus! {

/// How often each term occurs in one text.
pub type TermFreq = StrMap<usize>;

/// In how many documents each term occurs.
pub type DocFreq = StrMap<usize>;

/// Number of occurrences of `t` in `ts`.
pub open spec fn occurrences(ts: Seq<Seq<char>>, t: Seq<char>) -> nat
    decreases ts.len(),
{
    if ts.len() == 0 {
        0
    } else {
        occurrences(ts.drop_last(), t) + if ts.last() == t {
            1nat
        } else {
            0nat
        }
    }
}

/// Sum of a sequence of counts.
pub open spec fn count_sum(s: Seq<usize>) -> int
    decreases s.len(),
{
    if s.len() == 0 {
        0
    } else {
        count_sum(s.drop_last()) + s.last()
    }
}

/// The terms that `p` makes of the tokens of `s`, in order.
pub open spec fn processed_terms<P: TermProcessor>(p: &P, s: Seq<char>) -> Seq<Seq<char>> {
    process_all(p, lex(s))
}

/// The terms that `p` makes of the tokens `ts`, in order.
pub open spec fn process_all<P: TermProcessor>(p: &P, ts: Seq<Seq<char>>) -> Seq<Seq<char>> {
    ts.map_values(|t: Seq<char>| p.spec_process(t))
}

/// `tf` counts the terms of `ts`: a term is a key exactly when it occurs,
/// its value is its number of occurrences, and the counts add up to the
/// number of terms.
pub open spec fn counts_terms(tf: TermFreq, ts: Seq<Seq<char>>) -> bool {
    &&& tf.wf()
    &&& forall|t: Seq<char>| #[trigger]
        tf@.contains_key(t) ==> tf@[t] == occurrences(ts, t) && occurrences(ts, t) > 0
    &&& forall|t: Seq<char>| #[trigger] occurrences(ts, t) > 0 ==> tf@.contains_key(t)
    &&& count_sum(tf.val_seq()) == ts.len()
}

proof fn lemma_occurrences_push(ts: Seq<Seq<char>>, x: Seq<char>, t: Seq<char>)
    ensures
        occurrences(ts.push(x), t) == occurrences(ts, t) + if x == t {
            1nat
        } else {
            0nat
        },
{
    assert(ts.push(x).drop_last() =~= ts);
}

proof fn lemma_occurrences_le(ts: Seq<Seq<char>>, t: Seq<char>)
    ensures
        occurrences(ts, t) <= ts.len(),
    decreases ts.len(),
{
    if ts.len() > 0 {
        lemma_occurrences_le(ts.drop_last(), t);
    }
}

pub proof fn lemma_count_sum_update(s: Seq<usize>, i: int, v: usize)
    requires
        0 <= i < s.len(),
    ensures
        count_sum(s.update(i, v)) == count_sum(s) - s[i] + v,
    decreases s.len(),
{
    if i == s.len() - 1 {
        assert(s.update(i, v).drop_last() =~= s.drop_last());
    } else {
        lemma_count_sum_update(s.drop_last(), i, v);
        assert(s.update(i, v).drop_last() =~= s.drop_last().update(i, v));
    }
}

proof fn lemma_count_sum_push(s: Seq<usize>, v: usize)
    ensures
        count_sum(s.push(v)) == count_sum(s) + v,
{
    assert(s.push(v).drop_last() =~= s);
}

/// Counts how often each processed term occurs in `content`.
pub fn compute_term_freq<P: TermProcessor>(content: &str, term_processor: &P) -> (tf: TermFreq)
    ensures
        counts_terms(tf, processed_terms(term_processor, content@)),
{
    let mut lexer = Lexer::new(content);
    let mut tf: TermFreq = StrMap::new();
    let ghost mut consumed: Seq<Seq<char>> = seq![];
    let ghost mut terms: Seq<Seq<char>> = seq![];
    proof {
        lemma_lex_len(content@);
    }
    loop
        invariant
            lexer.wf(),
            lexer.source() == content@,
            lex(content@) == consumed + lex(lexer.rest()),
            lex(content@).len() <= usize::MAX,
            terms == process_all(term_processor, consumed),
            counts_terms(tf, terms),
        ensures
            counts_terms(tf, processed_terms(term_processor, content@)),
        decreases lexer.rest().len(),
    {
        let ghost before = lexer.rest();
        match lexer.next() {
            None => {
                assert(consumed + lex(lexer.rest()) =~= consumed);
                assert(terms == processed_terms(term_processor, content@));
                break;
            },
            Some(tok) => {
                let term = term_processor.process(tok.as_str());
                proof {
                    assert(consumed + lex(before) =~= consumed.push(tok@) + lex(lexer.rest()));
                    consumed = consumed.push(tok@);
                    assert forall|t: Seq<char>| #[trigger]
                        occurrences(terms.push(term@), t) == occurrences(terms, t) + if term@
                            == t {
                            1nat
                        } else {
                            0nat
                        } by {
                        lemma_occurrences_push(terms, term@, t);
                    }
                }
                let ghost old_tf = tf;
                let ghost old_terms = terms;
                proof {
                    terms = terms.push(term@);
                    assert(terms =~= process_all(term_processor, consumed));
                    assert(terms.len() <= lex(content@).len());
                }
                match tf.get(term.as_str()) {
                    Some(count) => {
                        let c = *count;
                        proof {
                            lemma_occurrences_le(old_terms, term@);
                            old_tf.lemma_entries();
                            lemma_count_sum_update(
                                old_tf.val_seq(),
                                old_tf.position(term@),
                                (c + 1) as usize,
                            );
                        }
                        tf.insert(term, c + 1);
                    },
                    None => {
                        proof {
                            lemma_count_sum_push(old_tf.val_seq(), 1);
                        }
                        tf.insert(term, 1);
                    },
                }
                assert forall|t: Seq<char>| #[trigger]
                    tf@.contains_key(t) implies tf@[t] == occurrences(terms, t) && occurrences(
                    terms,
                    t,
                ) > 0 by {
                    if t != term@ {
                        assert(old_tf@.contains_key(t));
                    }
                }
                assert forall|t: Seq<char>| #[trigger]
                    occurrences(terms, t) > 0 implies tf@.contains_key(t) by {
                    if t != term@ {
                        assert(occurrences(old_terms, t) > 0);
                    }
                }
            },
        }
    }
    tf
}


/// When a file was last modified: seconds and nanoseconds since the Unix
/// epoch.
#[derive(Clone, Copy, Debug, PartialEq, Eq, Structural)]
pub struct Timestamp {
    pub secs: u64,
    pub nanos: u32,
}

/// What the model records of one document.
pub struct DocInfo {
    pub term_count: usize,
    pub term_freq: TermFreq,
    pub last_modified: Timestamp,
}

impl DocInfo {
    /// The term count is the sum of the term frequencies, and every term
    /// that is recorded occurs at least once.
    pub open spec fn wf(&self) -> bool {
        &&& self.term_freq.wf()
        &&& self.term_count == count_sum(self.term_freq.val_seq())
        &&& forall|i: int|
            0 <= i < self.term_freq.val_seq().len() ==> #[trigger] self.term_freq.val_seq()[i]
                >= 1
    }
}

/// The documents of the model, keyed by path.
pub type DocRegistry = StrMap<DocInfo>;

/// Sum of the term counts of `docs`.
pub open spec fn total_terms(docs: Seq<DocInfo>) -> int
    decreases docs.len(),
{
    if docs.len() == 0 {
        0
    } else {
        total_terms(docs.drop_last()) + docs.last().term_count
    }
}

/// 1 when `d` records the term `t`, else 0.
pub open spec fn holds_term(d: DocInfo, t: Seq<char>) -> int {
    if d.term_freq@.contains_key(t) {
        1
    } else {
        0
    }
}

/// Number of documents of `docs` that record the term `t`.
pub open spec fn docs_containing(docs: Seq<DocInfo>, t: Seq<char>) -> int
    decreases docs.len(),
{
    if docs.len() == 0 {
        0
    } else {
        docs_containing(docs.drop_last(), t) + holds_term(docs.last(), t)
    }
}

proof fn lemma_total_update(docs: Seq<DocInfo>, i: int, x: DocInfo)
    requires
        0 <= i < docs.len(),
    ensures
        total_terms(docs.update(i, x)) == total_terms(docs) - docs[i].term_count + x.term_count,
    decreases docs.len(),
{
    if i == docs.len() - 1 {
        assert(docs.update(i, x).drop_last() =~= docs.drop_last());
    } else {
        lemma_total_update(docs.drop_last(), i, x);
        assert(docs.update(i, x).drop_last() =~= docs.drop_last().update(i, x));
    }
}

proof fn lemma_containing_update(docs: Seq<DocInfo>, i: int, x: DocInfo, t: Seq<char>)
    requires
        0 <= i < docs.len(),
    ensures
        docs_containing(docs.update(i, x), t) == docs_containing(docs, t) - holds_term(docs[i], t)
            + holds_term(x, t),
    decreases docs.len(),
{
    if i == docs.len() - 1 {
        assert(docs.update(i, x).drop_last() =~= docs.drop_last());
    } else {
        lemma_containing_update(docs.drop_last(), i, x, t);
        assert(docs.update(i, x).drop_last() =~= docs.drop_last().update(i, x));
    }
}

proof fn lemma_total_nonneg(docs: Seq<DocInfo>)
    ensures
        total_terms(docs) >= 0,
    decreases docs.len(),
{
    if docs.len() > 0 {
        lemma_total_nonneg(docs.drop_last());
    }
}

proof fn lemma_containing_bounds(docs: Seq<DocInfo>, t: Seq<char>)
    ensures
        0 <= docs_containing(docs, t) <= docs.len(),
    decreases docs.len(),
{
    if docs.len() > 0 {
        lemma_containing_bounds(docs.drop_last(), t);
    }
}

/// Taking out the `i`-th document, with the last one moved into its
/// place, takes its term count out of the total and it out of the
/// documents that hold each of its terms.
proof fn lemma_swap_remove_stats(docs: Seq<DocInfo>, i: int)
    requires
        0 <= i < docs.len(),
    ensures
        total_terms(docs.update(i, docs.last()).drop_last()) == total_terms(docs)
            - docs[i].term_count,
        forall|t: Seq<char>|
            #[trigger] docs_containing(docs.update(i, docs.last()).drop_last(), t)
                == docs_containing(docs, t) - holds_term(docs[i], t),
{
    let s = docs.update(i, docs.last());
    lemma_total_update(docs, i, docs.last());
    assert(s.last() == docs.last());
    assert forall|t: Seq<char>|
        #[trigger] docs_containing(s.drop_last(), t) == docs_containing(docs, t) - holds_term(
            docs[i],
            t,
        ) by {
        lemma_containing_update(docs, i, docs.last(), t);
    }
}

proof fn lemma_push_stats(docs: Seq<DocInfo>, d: DocInfo)
    ensures
        total_terms(docs.push(d)) == total_terms(docs) + d.term_count,
        forall|t: Seq<char>|
            #[trigger] docs_containing(docs.push(d), t) == docs_containing(docs, t) + holds_term(
                d,
                t,
            ),
{
    assert(docs.push(d).drop_last() =~= docs);
}

proof fn lemma_count_sum_take(s: Seq<usize>, i: int)
    requires
        0 <= i < s.len(),
    ensures
        count_sum(s.take(i + 1)) == count_sum(s.take(i)) + s[i],
{
    assert(s.take(i + 1).drop_last() =~= s.take(i));
}

proof fn lemma_count_sum_take_le(s: Seq<usize>, i: int)
    requires
        0 <= i <= s.len(),
    ensures
        0 <= count_sum(s.take(i)) <= count_sum(s),
    decreases s.len() - i,
{
    if i < s.len() {
        lemma_count_sum_take(s, i);
        lemma_count_sum_take_le(s, i + 1);
        lemma_count_sum_nonneg(s.take(i));
    } else {
        assert(s.take(i) =~= s);
        lemma_count_sum_nonneg(s);
    }
}

proof fn lemma_count_sum_nonneg(s: Seq<usize>)
    ensures
        count_sum(s) >= 0,
    decreases s.len(),
{
    if s.len() > 0 {
        lemma_count_sum_nonneg(s.drop_last());
    }
}

/// What indexing `content` as the document at `path` does to a model:
/// the document is recorded with the terms of `content` as `p` makes them,
/// its number of tokens as its term count and the given modification time;
/// every other document stays as it was; and the statistics move by what
/// the old document at `path` (if any) took out and the new one brings in.
pub open spec fn indexed<P: TermProcessor>(
    before: Model,
    after: Model,
    path: Seq<char>,
    last_modified: Timestamp,
    content: Seq<char>,
    p: &P,
) -> bool {
    &&& after.wf()
    &&& after.documents().contains_key(path)
    &&& after.documents()[path].term_count == lex(content).len()
    &&& after.documents()[path].last_modified == last_modified
    &&& counts_terms(after.documents()[path].term_freq, processed_terms(p, content))
    &&& after.documents().remove(path) == before.documents().remove(path)
    &&& after.spec_doc_count() == before.spec_doc_count() - (if before.documents().contains_key(
        path,
    ) {
        1int
    } else {
        0int
    }) + 1
    &&& after.spec_total_term_count() == before.spec_total_term_count() - before.term_count_of(
        path,
    ) + lex(content).len()
    &&& forall|t: Seq<char>|
        #[trigger] after.doc_freq_of(t) == before.doc_freq_of(t) - (if before.records(path, t) {
            1int
        } else {
            0int
        }) + (if occurrences(processed_terms(p, content), t) > 0 {
            1int
        } else {
            0int
        })
}

/// What taking the document at `path` out of a model does: the document
/// is gone, every other document stays, and the statistics lose what the
/// document brought in.
pub open spec fn removed(before: Model, after: Model, path: Seq<char>) -> bool {
    &&& after.wf()
    &&& after.documents() == before.documents().remove(path)
    &&& after.spec_doc_count() == before.spec_doc_count() - if before.documents().contains_key(
        path,
    ) {
        1int
    } else {
        0int
    }
    &&& after.spec_total_term_count() == before.spec_total_term_count() - before.term_count_of(
        path,
    )
    &&& forall|t: Seq<char>|
        #[trigger] after.doc_freq_of(t) == before.doc_freq_of(t) - if before.records(path, t) {
            1int
        } else {
            0int
        }
}

/// Two models show the same: the same documents, each with the same term
/// count, modification time and term frequencies, and the same statistics.
pub open spec fn same_view(a: Model, b: Model) -> bool {
    &&& a.documents().dom() == b.documents().dom()
    &&& forall|k: Seq<char>| #[trigger]
        a.documents().contains_key(k) ==> {
            &&& a.documents()[k].term_count == b.documents()[k].term_count
            &&& a.documents()[k].last_modified == b.documents()[k].last_modified
            &&& a.documents()[k].term_freq@ == b.documents()[k].term_freq@
        }
    &&& a.spec_doc_count() == b.spec_doc_count()
    &&& a.spec_total_term_count() == b.spec_total_term_count()
    &&& a.frequencies() == b.frequencies()
}

/// The term-frequency model: the documents that were indexed, with the
/// statistics that ranking reads.
pub struct Model {
    doc_count: usize,
    total_term_count: usize,
    doc_freq: DocFreq,
    docs: DocRegistry,
}

impl Model {
    /// The documents, by path.
    pub closed spec fn documents(&self) -> Map<Seq<char>, DocInfo> {
        self.docs@
    }

    /// The paths of the documents, in the order in which they are walked.
    pub closed spec fn path_list(&self) -> Seq<Seq<char>> {
        self.docs.key_seq()
    }

    /// The documents, in the same order as `path_list`.
    pub closed spec fn doc_list(&self) -> Seq<DocInfo> {
        self.docs.val_seq()
    }

    /// For each term, the number of documents that record it.
    pub closed spec fn frequencies(&self) -> Map<Seq<char>, usize> {
        self.doc_freq@
    }

    pub closed spec fn spec_doc_count(&self) -> usize {
        self.doc_count
    }

    pub closed spec fn spec_total_term_count(&self) -> usize {
        self.total_term_count
    }

    pub closed spec fn tables_wf(&self) -> bool {
        self.docs.wf() && self.doc_freq.wf()
    }

    /// The statistics agree with the documents: `doc_count` is their
    /// number, `total_term_count` the sum of their term counts, and a term
    /// has a document frequency exactly when some document records it,
    /// which is then the number of documents that record it.
    pub open spec fn stats_agree(&self) -> bool {
        &&& self.spec_doc_count() == self.doc_list().len()
        &&& self.spec_total_term_count() == total_terms(self.doc_list())
        &&& forall|t: Seq<char>| #[trigger]
            self.frequencies().contains_key(t) ==> self.frequencies()[t] == docs_containing(
                self.doc_list(),
                t,
            )
        &&& forall|t: Seq<char>| #[trigger]
            docs_containing(self.doc_list(), t) > 0 <==> self.frequencies().contains_key(t)
    }

    pub open spec fn wf(&self) -> bool {
        &&& self.tables_wf()
        &&& forall|i: int| 0 <= i < self.doc_list().len() ==> (#[trigger] self.doc_list()[i]).wf()
        &&& self.stats_agree()
    }

    /// The document frequency of `t`, or 0 for a term that no document
    /// records.
    pub open spec fn doc_freq_of(&self, t: Seq<char>) -> int {
        if self.frequencies().contains_key(t) {
            self.frequencies()[t] as int
        } else {
            0
        }
    }

    /// Whether the document at `path` records the term `t`.
    pub open spec fn records(&self, path: Seq<char>, t: Seq<char>) -> bool {
        self.documents().contains_key(path) && self.documents()[path].term_freq@.contains_key(t)
    }

    /// A document is stale unless it is indexed with this very
    /// modification time.
    pub open spec fn stale(&self, path: Seq<char>, last_modified: Timestamp) -> bool {
        !(self.documents().contains_key(path) && self.documents()[path].last_modified
            == last_modified)
    }

    /// The term count recorded for `path`, or 0 for an unknown path.
    pub open spec fn term_count_of(&self, path: Seq<char>) -> int {
        if self.documents().contains_key(path) {
            self.documents()[path].term_count as int
        } else {
            0
        }
    }

    /// The paths and the documents in order describe the same documents
    /// as the map by path: each path once, with its own document.
    pub proof fn lemma_registry(&self)
        requires
            self.wf(),
        ensures
            self.path_list().len() == self.doc_list().len(),
            forall|i: int|
                0 <= i < self.path_list().len() ==> #[trigger] self.documents().contains_key(
                    self.path_list()[i],
                ) && self.documents()[self.path_list()[i]] == self.doc_list()[i],
            self.path_list().no_duplicates(),
            self.path_list().to_set() == self.documents().dom(),
    {
        self.docs.lemma_entries();
    }

    /// An empty model.
    pub fn new() -> (m: Self)
        ensures
            m.wf(),
            m.documents() == Map::<Seq<char>, DocInfo>::empty(),
            m.doc_list() == Seq::<DocInfo>::empty(),
            m.spec_doc_count() == 0,
            m.spec_total_term_count() == 0,
            m.frequencies() == Map::<Seq<char>, usize>::empty(),
    {
        Model { doc_count: 0, total_term_count: 0, doc_freq: StrMap::new(), docs: StrMap::new() }
    }

    pub fn doc_count(&self) -> (r: usize)
        ensures
            r == self.spec_doc_count(),
    {
        self.doc_count
    }

    pub fn total_term_count(&self) -> (r: usize)
        ensures
            r == self.spec_total_term_count(),
    {
        self.total_term_count
    }

    pub fn doc_freq(&self) -> (r: &DocFreq)
        requires
            self.wf(),
        ensures
            r.wf(),
            r@ == self.frequencies(),
    {
        &self.doc_freq
    }

    pub fn docs(&self) -> (r: &DocRegistry)
        requires
            self.wf(),
        ensures
            r.wf(),
            r@ == self.documents(),
            r.key_seq() == self.path_list(),
            r.val_seq() == self.doc_list(),
    {
        &self.docs
    }

    /// A document is stale unless it is indexed with this very
    /// modification time.
    pub fn is_stale(&self, path: &str, last_modified: Timestamp) -> (r: bool)
        requires
            self.wf(),
        ensures
            r == self.stale(path@, last_modified),
    {
        match self.docs.get(path) {
            Some(doc) => doc.last_modified != last_modified,
            None => true,
        }
    }

    /// Takes the document at `path` out of the model, if there is one,
    /// and takes it out of the statistics.
    pub fn remove_doc(&mut self, path: &str)
        requires
            old(self).wf(),
        ensures
            removed(*old(self), *final(self), path@),
    {
        let ghost old_list = self.docs.val_seq();
        proof {
            self.docs.lemma_entries();
        }
        let ghost i0 = self.docs.position(path@);
        match self.docs.remove(path) {
            None => {
                assert(self.documents() =~= old(self).documents().remove(path@));
            },
            Some(doc) => {
                let ghost list = self.docs.val_seq();
                proof {
                    lemma_swap_remove_stats(old_list, i0);
                    lemma_total_nonneg(list);
                    assert(old_list[i0] == doc);
                    assert forall|i: int| 0 <= i < list.len() implies (#[trigger] list[i]).wf() by {
                        if i == i0 {
                            assert(list[i] == old_list[old_list.len() - 1]);
                        } else {
                            assert(list[i] == old_list[i]);
                        }
                    }
                }
                self.doc_count = self.doc_count - 1;
                self.total_term_count = self.total_term_count - doc.term_count;
                let n = doc.term_freq.len();
                let mut i: usize = 0;
                proof {
                    doc.term_freq.lemma_entries();
                    assert forall|t: Seq<char>| #[trigger]
                        self.doc_freq@.contains_key(t) implies self.doc_freq@[t]
                        == docs_containing(list, t) + if doc.term_freq@.contains_key(t)
                        && doc.term_freq.position(t) >= 0 {
                        1int
                    } else {
                        0int
                    } by {
                        assert(old(self).frequencies().contains_key(t));
                        assert(docs_containing(list, t) == docs_containing(old_list, t)
                            - holds_term(doc, t));
                    }
                    assert forall|t: Seq<char>|
                        docs_containing(list, t) > 0 || (doc.term_freq@.contains_key(t)
                            && doc.term_freq.position(t) >= 0) implies #[trigger]
                    self.doc_freq@.contains_key(t) by {
                        assert(docs_containing(list, t) == docs_containing(old_list, t)
                            - holds_term(doc, t));
                        lemma_containing_bounds(list, t);
                        assert(docs_containing(old_list, t) > 0);
                    }
                }
                while i < n
                    invariant
                        doc.wf(),
                        n == doc.term_freq.key_seq().len(),
                        i <= n,
                        self.docs.wf(),
                        self.doc_freq.wf(),
                        self.docs.val_seq() == list,
                        self.docs@ == old(self).documents().remove(path@),
                        self.doc_count == list.len(),
                        self.total_term_count == total_terms(list),
                        forall|t: Seq<char>|
                            #[trigger] docs_containing(list, t) == docs_containing(old_list, t)
                                - holds_term(doc, t),
                        forall|t: Seq<char>| #[trigger]
                            self.doc_freq@.contains_key(t) ==> self.doc_freq@[t]
                                == docs_containing(list, t) + if doc.term_freq@.contains_key(t)
                                && doc.term_freq.position(t) >= i {
                                1int
                            } else {
                                0int
                            },
                        forall|t: Seq<char>| #[trigger]
                            self.doc_freq@.contains_key(t) <== docs_containing(list, t) > 0 || (
                            doc.term_freq@.contains_key(t) && doc.term_freq.position(t) >= i),
                        forall|t: Seq<char>|
                            #[trigger] self.doc_freq@.contains_key(t) ==> self.doc_freq@[t] >= 1,
                    decreases n - i,
                {
                    let term = doc.term_freq.key_at(i);
                    proof {
                        doc.term_freq.lemma_entries();
                        lemma_containing_bounds(list, term@);
                    }
                    let ghost before = self.doc_freq@;
                    match self.doc_freq.get(term.as_str()) {
                        Some(count) => {
                            let c = *count;
                            if c - 1 == 0 {
                                self.doc_freq.remove(term.as_str());
                            } else {
                                self.doc_freq.insert(term.clone(), c - 1);
                            }
                        },
                        None => {},
                    }
                    proof {
                        assert forall|t: Seq<char>| #[trigger]
                            self.doc_freq@.contains_key(t) implies self.doc_freq@[t]
                            == docs_containing(list, t) + if doc.term_freq@.contains_key(t)
                            && doc.term_freq.position(t) >= i + 1 {
                            1int
                        } else {
                            0int
                        } by {
                            if t != term@ && doc.term_freq@.contains_key(t) {
                                assert(doc.term_freq.position(t) != i);
                            }
                        }
                        assert forall|t: Seq<char>|
                            docs_containing(list, t) > 0 || (doc.term_freq@.contains_key(t)
                                && doc.term_freq.position(t) >= i + 1) implies #[trigger]
                        self.doc_freq@.contains_key(t) by {
                            if t != term@ {
                                assert(before.contains_key(t));
                            }
                        }
                    }
                    i = i + 1;
                }
                proof {
                    assert forall|t: Seq<char>| #[trigger]
                        self.doc_freq@.contains_key(t) implies self.doc_freq@[t]
                        == docs_containing(list, t) by {
                        if doc.term_freq@.contains_key(t) {
                            assert(doc.term_freq.position(t) < n);
                        }
                    }
                    assert(self.doc_list() == list);
                    assert(self.spec_doc_count() == list.len());
                    assert(self.spec_total_term_count() == total_terms(list));
                    assert(self.stats_agree());
                    assert(self.tables_wf());
                    assert forall|t: Seq<char>|
                        #[trigger] self.doc_freq_of(t) == old(self).doc_freq_of(t) - if old(
                            self,
                        ).records(path@, t) {
                            1int
                        } else {
                            0int
                        } by {
                        lemma_containing_bounds(list, t);
                        lemma_containing_bounds(old_list, t);
                        assert(old(self).documents()[path@] == doc);
                    }
                }
            },
        }
    }

    /// Indexes `content` as the document at `path`, replacing what was
    /// indexed there before: the document's terms are counted with
    /// `term_processor`, its term count is its number of tokens, and the
    /// statistics are brought up to date.
    pub fn index_doc<P: TermProcessor>(
        &mut self,
        path: &str,
        last_modified: Timestamp,
        content: &str,
        term_processor: &P,
    )
        requires
            old(self).wf(),
            old(self).spec_doc_count() - (if old(self).documents().contains_key(path@) {
                1int
            } else {
                0int
            }) < usize::MAX,
            old(self).spec_total_term_count() - old(self).term_count_of(path@) + lex(
                content@,
            ).len() <= usize::MAX,
        ensures
            indexed(*old(self), *final(self), path@, last_modified, content@, term_processor),
    {
        self.remove_doc(path);
        let ghost removed = *self;
        let term_freq = compute_term_freq(content, term_processor);
        let ghost terms = processed_terms(term_processor, content@);
        proof {
            term_freq.lemma_entries();
            assert(terms.len() == lex(content@).len());
        }
        let mut term_count: usize = 0;
        let n = term_freq.len();
        let mut i: usize = 0;
        assert(term_freq.val_seq().take(0) =~= Seq::<usize>::empty());
        while i < n
            invariant
                i <= n,
                n == term_freq.val_seq().len(),
                term_freq.wf(),
                count_sum(term_freq.val_seq()) == lex(content@).len(),
                lex(content@).len() <= usize::MAX,
                term_count == count_sum(term_freq.val_seq().take(i as int)),
            decreases n - i,
        {
            proof {
                lemma_count_sum_take(term_freq.val_seq(), i as int);
                lemma_count_sum_take_le(term_freq.val_seq(), i as int + 1);
            }
            term_count = term_count + *term_freq.value_at(i);
            i = i + 1;
        }
        proof {
            assert(term_freq.val_seq().take(n as int) =~= term_freq.val_seq());
        }
        let doc = DocInfo { term_count, term_freq, last_modified };
        proof {
            assert forall|j: int|
                0 <= j < doc.term_freq.val_seq().len() implies #[trigger] doc.term_freq.val_seq()[j]
                >= 1 by {
                doc.term_freq.lemma_entries();
                assert(doc.term_freq@.contains_key(doc.term_freq.key_seq()[j]));
            }
        }
        self.add_doc(path, doc);
        proof {
            assert(self.documents().remove(path@) =~= old(self).documents().remove(path@));
            assert forall|t: Seq<char>|
                #[trigger] self.doc_freq_of(t) == old(self).doc_freq_of(t) - (if old(self).records(
                    path@,
                    t,
                ) {
                    1int
                } else {
                    0int
                }) + (if occurrences(terms, t) > 0 {
                    1int
                } else {
                    0int
                }) by {
                assert(removed.doc_freq_of(t) == old(self).doc_freq_of(t) - if old(self).records(
                    path@,
                    t,
                ) {
                    1int
                } else {
                    0int
                });
                if doc.term_freq@.contains_key(t) {
                    assert(occurrences(terms, t) > 0);
                }
            }
        }
    }

    /// Adds a document at a path that is not indexed yet.
    fn add_doc(&mut self, path: &str, doc: DocInfo)
        requires
            old(self).wf(),
            !old(self).documents().contains_key(path@),
            doc.wf(),
            old(self).spec_doc_count() < usize::MAX,
            old(self).spec_total_term_count() + doc.term_count <= usize::MAX,
        ensures
            final(self).wf(),
            final(self).documents() == old(self).documents().insert(path@, doc),
            final(self).spec_doc_count() == old(self).spec_doc_count() + 1,
            final(self).spec_total_term_count() == old(self).spec_total_term_count()
                + doc.term_count,
            forall|t: Seq<char>|
                #[trigger] final(self).doc_freq_of(t) == old(self).doc_freq_of(t) + holds_term(
                    doc,
                    t,
                ),
    {
        let ghost list = self.docs.val_seq();
        proof {
            doc.term_freq.lemma_entries();
            self.docs.lemma_entries();
            lemma_total_nonneg(list);
        }
        let ghost start = *self;
        let n = doc.term_freq.len();
        let mut i: usize = 0;
        while i < n
            invariant
                i <= n,
                n == doc.term_freq.key_seq().len(),
                doc.wf(),
                self.docs == start.docs,
                self.doc_count == start.doc_count,
                self.total_term_count == start.total_term_count,
                start.wf(),
                start == *old(self),
                list == start.doc_list(),
                list.len() < usize::MAX,
                self.doc_freq.wf(),
                forall|t: Seq<char>| #[trigger]
                    self.doc_freq@.contains_key(t) ==> self.doc_freq@[t] == docs_containing(list, t)
                        + if doc.term_freq@.contains_key(t) && doc.term_freq.position(t) < i {
                        1int
                    } else {
                        0int
                    },
                forall|t: Seq<char>| #[trigger]
                    self.doc_freq@.contains_key(t) ==> docs_containing(list, t) > 0 || (
                    doc.term_freq@.contains_key(t) && doc.term_freq.position(t) < i),
                forall|t: Seq<char>|
                    docs_containing(list, t) > 0 || (doc.term_freq@.contains_key(t)
                        && doc.term_freq.position(t) < i) ==> #[trigger] self.doc_freq@.contains_key(
                        t,
                    ),
            decreases n - i,
        {
            let term = doc.term_freq.key_at(i);
            proof {
                doc.term_freq.lemma_entries();
                assert(doc.term_freq@.contains_key(doc.term_freq.key_seq()[i as int]));
                assert(doc.term_freq.position(term@) == i);
                lemma_containing_bounds(list, term@);
            }
            let ghost before = self.doc_freq@;
            match self.doc_freq.get(term.as_str()) {
                Some(count) => {
                    let c = *count;
                    self.doc_freq.insert(term.clone(), c + 1);
                },
                None => {
                    self.doc_freq.insert(term.clone(), 1);
                },
            }
            proof {
                assert forall|t: Seq<char>| #[trigger]
                    self.doc_freq@.contains_key(t) implies self.doc_freq@[t] == docs_containing(
                    list,
                    t,
                ) + if doc.term_freq@.contains_key(t) && doc.term_freq.position(t) < i + 1 {
                    1int
                } else {
                    0int
                } by {
                    if t != term@ && doc.term_freq@.contains_key(t) {
                        assert(doc.term_freq.position(t) != i);
                    }
                }
                assert forall|t: Seq<char>| #[trigger]
                    self.doc_freq@.contains_key(t) implies docs_containing(list, t) > 0 || (
                    doc.term_freq@.contains_key(t) && doc.term_freq.position(t) < i + 1) by {
                    if t != term@ {
                        assert(before.contains_key(t));
                    }
                }
                assert forall|t: Seq<char>|
                    docs_containing(list, t) > 0 || (doc.term_freq@.contains_key(t)
                        && doc.term_freq.position(t) < i + 1) implies #[trigger]
                self.doc_freq@.contains_key(t) by {
                    if t != term@ && doc.term_freq@.contains_key(t) {
                        assert(doc.term_freq.position(t) != i);
                    }
                }
            }
            i = i + 1;
        }
        self.doc_count = self.doc_count + 1;
        self.total_term_count = self.total_term_count + doc.term_count;
        proof {
            lemma_push_stats(list, doc);
        }
        let ghost d = doc;
        self.docs.insert(path.to_owned(), doc);
        proof {
            let new_list = self.docs.val_seq();
            assert(new_list == list.push(d));
            assert forall|j: int| 0 <= j < new_list.len() implies (#[trigger] new_list[j]).wf() by {
                if j < list.len() {
                    assert(new_list[j] == list[j]);
                }
            }
            assert forall|t: Seq<char>| #[trigger]
                self.doc_freq@.contains_key(t) implies self.doc_freq@[t] == docs_containing(
                new_list,
                t,
            ) by {
                if d.term_freq@.contains_key(t) {
                    assert(d.term_freq.position(t) < n);
                }
            }
            assert forall|t: Seq<char>|
                #[trigger] docs_containing(new_list, t) > 0 <==> self.doc_freq@.contains_key(t) by {
                lemma_containing_bounds(list, t);
                assert(docs_containing(new_list, t) == docs_containing(list, t) + holds_term(d, t));
                if d.term_freq@.contains_key(t) {
                    assert(d.term_freq.position(t) < n);
                }
            }
            assert forall|t: Seq<char>|
                #[trigger] self.doc_freq_of(t) == old(self).doc_freq_of(t) + holds_term(d, t) by {
                lemma_containing_bounds(list, t);
                lemma_containing_bounds(new_list, t);
            }
        }
    }


    /// Adds a document that was indexed before, as read back from a saved
    /// index. The document is refused, and the model left as it was, when
    /// its path is indexed already, when its term count is not the sum of
    /// its term frequencies or one of these is 0, or when the statistics
    /// would not fit.
    pub fn add_document(&mut self, path: &str, doc: DocInfo) -> (r: bool)
        requires
            old(self).wf(),
            doc.term_freq.wf(),
        ensures
            r == (!old(self).documents().contains_key(path@) && doc.wf() && old(
                self,
            ).spec_doc_count() < usize::MAX && old(self).spec_total_term_count() + doc.term_count
                <= usize::MAX),
            final(self).wf(),
            r ==> final(self).documents() == old(self).documents().insert(path@, doc),
            r ==> final(self).spec_doc_count() == old(self).spec_doc_count() + 1,
            r ==> final(self).spec_total_term_count() == old(self).spec_total_term_count()
                + doc.term_count,
            r ==> forall|t: Seq<char>|
                #[trigger] final(self).doc_freq_of(t) == old(self).doc_freq_of(t) + holds_term(
                    doc,
                    t,
                ),
            !r ==> *final(self) == *old(self),
    {
        if self.docs.contains_key(path) || self.doc_count == usize::MAX || doc.term_count
            > usize::MAX - self.total_term_count || !Self::consistent(&doc) {
            return false;
        }
        self.add_doc(path, doc);
        true
    }

    /// Whether a document's term count is the sum of its term frequencies,
    /// none of which is 0.
    fn consistent(doc: &DocInfo) -> (r: bool)
        requires
            doc.term_freq.wf(),
        ensures
            r == doc.wf(),
    {
        let ghost vals = doc.term_freq.val_seq();
        let n = doc.term_freq.len();
        let mut sum: usize = 0;
        let mut i: usize = 0;
        assert(vals.take(0) =~= Seq::<usize>::empty());
        while i < n
            invariant
                doc.term_freq.wf(),
                vals == doc.term_freq.val_seq(),
                n == vals.len(),
                i <= n,
                sum == count_sum(vals.take(i as int)),
                sum <= doc.term_count,
                forall|j: int| 0 <= j < i ==> #[trigger] vals[j] >= 1,
            decreases n - i,
        {
            let v = *doc.term_freq.value_at(i);
            proof {
                lemma_count_sum_take(vals, i as int);
                lemma_count_sum_take_le(vals, i as int + 1);
            }
            if v == 0 {
                return false;
            }
            if v > doc.term_count - sum {
                return false;
            }
            sum = sum + v;
            i = i + 1;
        }
        proof {
            assert(vals.take(n as int) =~= vals);
        }
        sum == doc.term_count
    }

}

impl Default for Model {
    /// An empty model.
    fn default() -> (m: Self)
        ensures
            m.wf(),
            m.documents() == Map::<Seq<char>, DocInfo>::empty(),
            m.spec_doc_count() == 0,
            m.spec_total_term_count() == 0,
            m.frequencies() == Map::<Seq<char>, usize>::empty(),
    {
        Model::new()
    }
}

proof fn lemma_occurrences_append(x: Seq<Seq<char>>, y: Seq<Seq<char>>, t: Seq<char>)
    ensures
        occurrences(x + y, t) == occurrences(x, t) + occurrences(y, t),
    decreases y.len(),
{
    if y.len() == 0 {
        assert(x + y =~= x);
    } else {
        assert((x + y).drop_last() =~= x + y.drop_last());
        lemma_occurrences_append(x, y.drop_last(), t);
    }
}

/// How often a term table counts `t` (0 where it has no entry).
pub open spec fn count_of(f: TermFreq, t: Seq<char>) -> int {
    if f@.contains_key(t) {
        f@[t] as int
    } else {
        0
    }
}

/// When ASCII whitespace is neither numeric nor alphabetic, the term
/// frequencies of two texts joined by a space are the sums of their
/// term frequencies.
pub proof fn law_term_freq_of_joined_texts<P: TermProcessor>(
    a: Seq<char>,
    b: Seq<char>,
    p: &P,
    fa: TermFreq,
    fb: TermFreq,
    fab: TermFreq,
)
    requires
        whitespace_is_separator(),
        counts_terms(fa, processed_terms(p, a)),
        counts_terms(fb, processed_terms(p, b)),
        counts_terms(fab, processed_terms(p, a + seq![' '] + b)),
    ensures
        forall|t: Seq<char>| #[trigger] count_of(fab, t) == count_of(fa, t) + count_of(fb, t),
{
    law_lex_of_joined_texts(a, b);
    let pa = processed_terms(p, a);
    let pb = processed_terms(p, b);
    assert(processed_terms(p, a + seq![' '] + b) =~= pa + pb);
    assert forall|t: Seq<char>| #[trigger] count_of(fab, t) == count_of(fa, t) + count_of(fb, t) by {
        lemma_occurrences_append(pa, pb, t);
        if !fa@.contains_key(t) {
            assert(occurrences(pa, t) == 0);
        }
        if !fb@.contains_key(t) {
            assert(occurrences(pb, t) == 0);
        }
        if !fab@.contains_key(t) {
            assert(occurrences(pa + pb, t) == 0);
        }
    }
}

/// A document that has just been indexed is fresh for the modification
/// time it was indexed with, and stale for any other time.
pub proof fn law_indexed_document_is_fresh<P: TermProcessor>(
    before: Model,
    after: Model,
    path: Seq<char>,
    last_modified: Timestamp,
    content: Seq<char>,
    p: &P,
    other: Timestamp,
)
    requires
        indexed(before, after, path, last_modified, content, p),
    ensures
        !after.stale(path, last_modified),
        other != last_modified ==> after.stale(path, other),
{
}

/// Two term tables that count the same terms are the same map.
pub proof fn lemma_counts_terms_unique(a: TermFreq, b: TermFreq, ts: Seq<Seq<char>>)
    requires
        counts_terms(a, ts),
        counts_terms(b, ts),
    ensures
        a@ == b@,
{
    assert forall|t: Seq<char>| a@.contains_key(t) <==> b@.contains_key(t) by {
        if a@.contains_key(t) {
            assert(occurrences(ts, t) > 0);
        }
        if b@.contains_key(t) {
            assert(occurrences(ts, t) > 0);
        }
    }
    assert(a@ =~= b@);
}

/// Well-formed models with the same document frequency for every term
/// have the same frequency table.
pub proof fn lemma_frequencies_equal(a: Model, b: Model)
    requires
        a.wf(),
        b.wf(),
        forall|t: Seq<char>| #[trigger] a.doc_freq_of(t) == b.doc_freq_of(t),
    ensures
        a.frequencies() == b.frequencies(),
{
    assert forall|t: Seq<char>| a.frequencies().contains_key(t) <==> b.frequencies().contains_key(
        t,
    ) by {
        assert(a.doc_freq_of(t) == b.doc_freq_of(t));
        if a.frequencies().contains_key(t) {
            assert(docs_containing(a.doc_list(), t) > 0);
        }
        if b.frequencies().contains_key(t) {
            assert(docs_containing(b.doc_list(), t) > 0);
        }
    }
    assert forall|t: Seq<char>| #[trigger] a.frequencies().contains_key(t) implies a.frequencies()[t]
        == b.frequencies()[t] by {
        assert(a.doc_freq_of(t) == b.doc_freq_of(t));
    }
    assert(a.frequencies() =~= b.frequencies());
}

/// Indexing a document into models that show the same gives models that
/// show the same: what indexing does depends on what a model shows alone.
pub proof fn law_index_doc_determined<P: TermProcessor>(
    a: Model,
    b: Model,
    a1: Model,
    b1: Model,
    path: Seq<char>,
    last_modified: Timestamp,
    content: Seq<char>,
    p: &P,
)
    requires
        a.wf(),
        b.wf(),
        same_view(a, b),
        indexed(a, a1, path, last_modified, content, p),
        indexed(b, b1, path, last_modified, content, p),
    ensures
        same_view(a1, b1),
{
    let ts = processed_terms(p, content);
    lemma_counts_terms_unique(a1.documents()[path].term_freq, b1.documents()[path].term_freq, ts);
    assert forall|k: Seq<char>| a1.documents().contains_key(k) <==> b1.documents().contains_key(k) by {
        if k != path {
            assert(a1.documents().remove(path).contains_key(k) == a.documents().remove(
                path,
            ).contains_key(k));
            assert(b1.documents().remove(path).contains_key(k) == b.documents().remove(
                path,
            ).contains_key(k));
            assert(a.documents().contains_key(k) == b.documents().contains_key(k));
        }
    }
    assert(a1.documents().dom() =~= b1.documents().dom());
    assert forall|k: Seq<char>| #[trigger] a1.documents().contains_key(k) implies {
        &&& a1.documents()[k].term_count == b1.documents()[k].term_count
        &&& a1.documents()[k].last_modified == b1.documents()[k].last_modified
        &&& a1.documents()[k].term_freq@ == b1.documents()[k].term_freq@
    } by {
        if k != path {
            assert(a1.documents().remove(path).contains_key(k));
            assert(a.documents().remove(path).contains_key(k));
            assert(a1.documents().remove(path)[k] == a.documents().remove(path)[k]);
            assert(b1.documents().remove(path)[k] == b.documents().remove(path)[k]);
        }
    }
    assert(a.documents().contains_key(path) == b.documents().contains_key(path));
    assert forall|t: Seq<char>| #[trigger] a1.doc_freq_of(t) == b1.doc_freq_of(t) by {
        assert(a.doc_freq_of(t) == b.doc_freq_of(t));
        assert(a.records(path, t) == b.records(path, t));
    }
    lemma_frequencies_equal(a1, b1);
}

/// Indexing the same document a second time changes nothing that the
/// model shows.
pub proof fn law_index_doc_idempotent<P: TermProcessor>(
    m0: Model,
    m1: Model,
    m2: Model,
    path: Seq<char>,
    last_modified: Timestamp,
    content: Seq<char>,
    p: &P,
)
    requires
        indexed(m0, m1, path, last_modified, content, p),
        indexed(m1, m2, path, last_modified, content, p),
    ensures
        same_view(m2, m1),
{
    let ts = processed_terms(p, content);
    lemma_counts_terms_unique(m1.documents()[path].term_freq, m2.documents()[path].term_freq, ts);
    assert(m2.documents().dom() =~= m1.documents().dom()) by {
        assert forall|k: Seq<char>| m2.documents().contains_key(k) <==> m1.documents().contains_key(
            k,
        ) by {
            if k != path {
                assert(m2.documents().remove(path).contains_key(k) == m1.documents().remove(
                    path,
                ).contains_key(k));
            }
        }
    }
    assert forall|k: Seq<char>| #[trigger] m2.documents().contains_key(k) implies {
        &&& m2.documents()[k].term_count == m1.documents()[k].term_count
        &&& m2.documents()[k].last_modified == m1.documents()[k].last_modified
        &&& m2.documents()[k].term_freq@ == m1.documents()[k].term_freq@
    } by {
        if k != path {
            assert(m2.documents().remove(path)[k] == m1.documents().remove(path)[k]);
        }
    }
    assert forall|t: Seq<char>| #[trigger] m2.doc_freq_of(t) == m1.doc_freq_of(t) by {
        let tf = m1.documents()[path].term_freq;
        if tf@.contains_key(t) {
            assert(occurrences(ts, t) > 0);
        }
        if occurrences(ts, t) > 0 {
            assert(tf@.contains_key(t));
        }
    }
    lemma_frequencies_equal(m2, m1);
}

/// Indexing documents at two different paths gives the same whichever is
/// indexed first.
pub proof fn law_index_doc_commutes<P: TermProcessor>(
    m: Model,
    m1: Model,
    m2: Model,
    n: Model,
    n1: Model,
    n2: Model,
    path_a: Seq<char>,
    time_a: Timestamp,
    content_a: Seq<char>,
    path_b: Seq<char>,
    time_b: Timestamp,
    content_b: Seq<char>,
    p: &P,
)
    requires
        path_a != path_b,
        m.wf(),
        n.wf(),
        same_view(m, n),
        indexed(m, m1, path_a, time_a, content_a, p),
        indexed(m1, m2, path_b, time_b, content_b, p),
        indexed(n, n1, path_b, time_b, content_b, p),
        indexed(n1, n2, path_a, time_a, content_a, p),
    ensures
        same_view(m2, n2),
{
    let ta = processed_terms(p, content_a);
    let tb = processed_terms(p, content_b);
    // m2 at path_a is m1 at path_a, and n2 at path_b is n1 at path_b
    assert(m1.documents().remove(path_b).contains_key(path_a));
    assert(m2.documents().remove(path_b)[path_a] == m1.documents().remove(path_b)[path_a]);
    assert(m2.documents()[path_a] == m1.documents()[path_a]);
    assert(n1.documents().remove(path_a).contains_key(path_b));
    assert(n2.documents().remove(path_a)[path_b] == n1.documents().remove(path_a)[path_b]);
    assert(n2.documents()[path_b] == n1.documents()[path_b]);
    lemma_counts_terms_unique(m1.documents()[path_a].term_freq, n2.documents()[path_a].term_freq, ta);
    lemma_counts_terms_unique(m2.documents()[path_b].term_freq, n1.documents()[path_b].term_freq, tb);
    assert forall|k: Seq<char>| m2.documents().contains_key(k) <==> n2.documents().contains_key(k) by {
        if k != path_a && k != path_b {
            assert(m2.documents().remove(path_b).contains_key(k) == m1.documents().remove(
                path_b,
            ).contains_key(k));
            assert(m1.documents().remove(path_a).contains_key(k) == m.documents().remove(
                path_a,
            ).contains_key(k));
            assert(n2.documents().remove(path_a).contains_key(k) == n1.documents().remove(
                path_a,
            ).contains_key(k));
            assert(n1.documents().remove(path_b).contains_key(k) == n.documents().remove(
                path_b,
            ).contains_key(k));
            assert(m.documents().contains_key(k) == n.documents().contains_key(k));
        }
    }
    assert(m2.documents().dom() =~= n2.documents().dom());
    assert forall|k: Seq<char>| #[trigger] m2.documents().contains_key(k) implies {
        &&& m2.documents()[k].term_count == n2.documents()[k].term_count
        &&& m2.documents()[k].last_modified == n2.documents()[k].last_modified
        &&& m2.documents()[k].term_freq@ == n2.documents()[k].term_freq@
    } by {
        if k != path_a && k != path_b {
            assert(m2.documents().remove(path_b)[k] == m1.documents().remove(path_b)[k]);
            assert(m1.documents().remove(path_a).contains_key(k));
            assert(m1.documents().remove(path_a)[k] == m.documents().remove(path_a)[k]);
            assert(n2.documents().remove(path_a)[k] == n1.documents().remove(path_a)[k]);
            assert(n1.documents().remove(path_b).contains_key(k));
            assert(n1.documents().remove(path_b)[k] == n.documents().remove(path_b)[k]);
            assert(m.documents().contains_key(k));
        }
    }
    // what m1 shows at path_b is what m shows there, and what n1 shows at
    // path_a is what n shows there
    assert(m1.documents().contains_key(path_b) == m.documents().contains_key(path_b)) by {
        assert(m1.documents().remove(path_a).contains_key(path_b) == m.documents().remove(
            path_a,
        ).contains_key(path_b));
    }
    assert(n1.documents().contains_key(path_a) == n.documents().contains_key(path_a)) by {
        assert(n1.documents().remove(path_b).contains_key(path_a) == n.documents().remove(
            path_b,
        ).contains_key(path_a));
    }
    if m.documents().contains_key(path_b) {
        assert(m1.documents().remove(path_a)[path_b] == m.documents().remove(path_a)[path_b]);
    }
    if n.documents().contains_key(path_a) {
        assert(n1.documents().remove(path_b)[path_a] == n.documents().remove(path_b)[path_a]);
    }
    assert(m.documents().contains_key(path_a) == n.documents().contains_key(path_a));
    assert(m.documents().contains_key(path_b) == n.documents().contains_key(path_b));
    assert(m.term_count_of(path_a) == n.term_count_of(path_a));
    assert(m.term_count_of(path_b) == n.term_count_of(path_b));
    assert(m1.term_count_of(path_b) == m.term_count_of(path_b));
    assert(n1.term_count_of(path_a) == n.term_count_of(path_a));
    assert forall|t: Seq<char>| #[trigger] m2.doc_freq_of(t) == n2.doc_freq_of(t) by {
        assert(m.doc_freq_of(t) == n.doc_freq_of(t));
        assert(m.records(path_a, t) == n.records(path_a, t));
        assert(m.records(path_b, t) == n.records(path_b, t));
        assert(m1.records(path_b, t) == m.records(path_b, t));
        assert(n1.records(path_a, t) == n.records(path_a, t));
        assert(m1.doc_freq_of(t) == m.doc_freq_of(t) - (if m.records(path_a, t) {
            1int
        } else {
            0int
        }) + (if occurrences(ta, t) > 0 {
            1int
        } else {
            0int
        }));
        assert(n1.doc_freq_of(t) == n.doc_freq_of(t) - (if n.records(path_b, t) {
            1int
        } else {
            0int
        }) + (if occurrences(tb, t) > 0 {
            1int
        } else {
            0int
        }));
    }
    lemma_frequencies_equal(m2, n2);
}

/// Indexing a document at a new path and then taking it out again leaves
/// a model that shows what the first one showed.
pub proof fn law_index_then_remove<P: TermProcessor>(
    m: Model,
    m1: Model,
    m2: Model,
    path: Seq<char>,
    last_modified: Timestamp,
    content: Seq<char>,
    p: &P,
)
    requires
        m.wf(),
        !m.documents().contains_key(path),
        indexed(m, m1, path, last_modified, content, p),
        removed(m1, m2, path),
    ensures
        same_view(m2, m),
{
    let ts = processed_terms(p, content);
    assert(m2.documents() =~= m.documents()) by {
        assert(m.documents().remove(path) =~= m.documents());
    }
    assert forall|t: Seq<char>| #[trigger] m2.doc_freq_of(t) == m.doc_freq_of(t) by {
        let tf = m1.documents()[path].term_freq;
        if tf@.contains_key(t) {
            assert(occurrences(ts, t) > 0);
        }
        if occurrences(ts, t) > 0 {
            assert(tf@.contains_key(t));
        }
        assert(!m.records(path, t));
    }
    lemma_frequencies_equal(m2, m);
}

} // verus!
