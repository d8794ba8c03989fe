//! Searching the model: which documents a query reaches, and with which
//! term counts. Ranking functions score these matches.
use vstd::prelude::*;
use crate::index::model::{
    compute_term_freq, counts_terms, occurrences, processed_terms, DocInfo, Model, TermFreq,
};
use crate::index::term_processor::TermProcessor;

verus! {

/// A distinct term of a query.
pub struct QueryTerm {
    pub term: String,
    /// How often the term occurs in the query.
    pub query_freq: usize,
    /// In how many documents of the model the term occurs.
    pub doc_freq: usize,
}

/// A document that records at least one term of a query.
pub struct DocMatch {
    pub path: String,
    pub term_count: usize,
    /// For each query term, in the order of the query terms, how often it
    /// occurs in the document (0 where it does not).
    pub counts: Vec<usize>,
}

/// The terms of a list of query terms, in order.
pub open spec fn query_terms_of(qs: Seq<QueryTerm>) -> Seq<Seq<char>> {
    qs.map_values(|q: QueryTerm| q.term@)
}

/// Whether document `d` records one of `terms`.
pub open spec fn doc_matches(d: DocInfo, terms: Seq<Seq<char>>) -> bool {
    exists|j: int| 0 <= j < terms.len() && d.term_freq@.contains_key(#[trigger] terms[j])
}

/// The positions, in order, of the documents of `docs` that record one of
/// `terms`.
pub open spec fn matching_positions(docs: Seq<DocInfo>, terms: Seq<Seq<char>>) -> Seq<int>
    decreases docs.len(),
{
    if docs.len() == 0 {
        seq![]
    } else {
        let prev = matching_positions(docs.drop_last(), terms);
        if doc_matches(docs.last(), terms) {
            prev.push(docs.len() - 1)
        } else {
            prev
        }
    }
}

/// How often `d` records the term `t` (0 where it does not).
pub open spec fn count_in(d: DocInfo, t: Seq<char>) -> int {
    if d.term_freq@.contains_key(t) {
        d.term_freq@[t] as int
    } else {
        0
    }
}

/// The query terms describe the query: each distinct term of the query
/// once, with how often it occurs there and its document frequency.
pub open spec fn describes_query<P: TermProcessor>(
    qs: Seq<QueryTerm>,
    model: Model,
    keywords: Seq<char>,
    p: &P,
) -> bool {
    let ts = processed_terms(p, keywords);
    &&& query_terms_of(qs).no_duplicates()
    &&& forall|j: int|
        0 <= j < qs.len() ==> {
            &&& occurrences(ts, (#[trigger] qs[j]).term@) == qs[j].query_freq
            &&& qs[j].query_freq > 0
            &&& qs[j].doc_freq == model.doc_freq_of(qs[j].term@)
        }
    &&& forall|t: Seq<char>| #[trigger] occurrences(ts, t) > 0 ==> query_terms_of(qs).contains(t)
}

/// The matches are, in the model's order, the documents that record a
/// query term, each with its path, term count and count of each term.
pub open spec fn describes_matches(ms: Seq<DocMatch>, qs: Seq<QueryTerm>, model: Model) -> bool {
    let pos = matching_positions(model.doc_list(), query_terms_of(qs));
    &&& ms.len() == pos.len()
    &&& forall|k: int|
        0 <= k < ms.len() ==> {
            let i = pos[k];
            let d = model.doc_list()[i];
            &&& (#[trigger] ms[k]).path@ == model.path_list()[i]
            &&& ms[k].term_count == d.term_count
            &&& ms[k].counts@.len() == qs.len()
            &&& forall|j: int|
                0 <= j < qs.len() ==> #[trigger] ms[k].counts@[j] == count_in(d, qs[j].term@)
        }
}

proof fn lemma_matching_positions_take(docs: Seq<DocInfo>, terms: Seq<Seq<char>>, i: int)
    requires
        0 <= i < docs.len(),
    ensures
        matching_positions(docs.take(i + 1), terms) == if doc_matches(docs[i], terms) {
            matching_positions(docs.take(i), terms).push(i)
        } else {
            matching_positions(docs.take(i), terms)
        },
{
    assert(docs.take(i + 1).drop_last() =~= docs.take(i));
}

proof fn lemma_matching_positions_bound(docs: Seq<DocInfo>, terms: Seq<Seq<char>>)
    ensures
        forall|k: int|
            0 <= k < matching_positions(docs, terms).len() ==> 0 <= #[trigger] matching_positions(
                docs,
                terms,
            )[k] < docs.len(),
    decreases docs.len(),
{
    if docs.len() > 0 {
        let prev = matching_positions(docs.drop_last(), terms);
        let all = matching_positions(docs, terms);
        lemma_matching_positions_bound(docs.drop_last(), terms);
        assert forall|k: int| 0 <= k < all.len() implies 0 <= #[trigger] all[k] < docs.len() by {
            if k < prev.len() {
                assert(all[k] == prev[k]);
            }
        }
    }
}

/// Finds the documents of `model` that a query reaches: the query's terms
/// (made by `term_processor`), with their frequencies, and the documents
/// that record at least one of them.
pub fn match_query<P: TermProcessor>(model: &Model, keywords: &str, term_processor: &P) -> (r: (
    Vec<QueryTerm>,
    Vec<DocMatch>,
))
    requires
        model.wf(),
    ensures
        describes_query(r.0@, *model, keywords@, term_processor),
        describes_matches(r.1@, r.0@, *model),
{
    let qtf: TermFreq = compute_term_freq(keywords, term_processor);
    let ghost ts = processed_terms(term_processor, keywords@);
    let df = model.doc_freq();
    let docs = model.docs();
    proof {
        qtf.lemma_entries();
        model.lemma_registry();
    }
    let nq = qtf.len();
    let mut terms: Vec<QueryTerm> = Vec::new();
    let mut j: usize = 0;
    while j < nq
        invariant
            nq == qtf.key_seq().len(),
            nq == qtf.val_seq().len(),
            j <= nq,
            counts_terms(qtf, ts),
            df.wf(),
            df@ == model.frequencies(),
            terms@.len() == j,
            query_terms_of(terms@) == qtf.key_seq().take(j as int),
            forall|q: int|
                0 <= q < j ==> {
                    &&& (#[trigger] terms@[q]).query_freq == qtf.val_seq()[q]
                    &&& terms@[q].doc_freq == model.doc_freq_of(terms@[q].term@)
                },
        decreases nq - j,
    {
        let t = qtf.key_at(j);
        let q = *qtf.value_at(j);
        let d = match df.get(t.as_str()) {
            Some(c) => *c,
            None => 0,
        };
        let ghost old_terms = terms@;
        terms.push(QueryTerm { term: t.clone(), query_freq: q, doc_freq: d });
        proof {
            assert(query_terms_of(terms@) =~= query_terms_of(old_terms).push(t@));
            assert(qtf.key_seq().take(j + 1) =~= qtf.key_seq().take(j as int).push(t@));
        }
        j = j + 1;
    }
    proof {
        assert(qtf.key_seq().take(nq as int) =~= qtf.key_seq());
        let qs = terms@;
        assert forall|q: int| 0 <= q < qs.len() implies {
            &&& occurrences(ts, (#[trigger] qs[q]).term@) == qs[q].query_freq
            &&& qs[q].query_freq > 0
            &&& qs[q].doc_freq == model.doc_freq_of(qs[q].term@)
        } by {
            assert(query_terms_of(qs)[q] == qs[q].term@);
            assert(qtf@.contains_key(qtf.key_seq()[q]));
        }
        assert forall|t: Seq<char>| #[trigger] occurrences(ts, t) > 0 implies query_terms_of(
            qs,
        ).contains(t) by {
            assert(qtf@.contains_key(t));
            assert(qtf.key_seq().to_set().contains(t));
        }
    }
    let ghost qterms = query_terms_of(terms@);
    let ghost list = model.doc_list();
    let n = docs.len();
    let mut matches: Vec<DocMatch> = Vec::new();
    let mut i: usize = 0;
    assert(list.take(0) =~= Seq::<DocInfo>::empty());
    while i < n
        invariant
            n == list.len(),
            n == model.path_list().len(),
            i <= n,
            docs.wf(),
            docs.val_seq() == list,
            docs.key_seq() == model.path_list(),
            qterms == query_terms_of(terms@),
            forall|q: int| 0 <= q < list.len() ==> (#[trigger] list[q]).wf(),
            matches@.len() == matching_positions(list.take(i as int), qterms).len(),
            forall|k: int|
                0 <= k < matches@.len() ==> {
                    let p = matching_positions(list.take(i as int), qterms)[k];
                    let d = list[p];
                    &&& 0 <= p < i
                    &&& (#[trigger] matches@[k]).path@ == model.path_list()[p]
                    &&& matches@[k].term_count == d.term_count
                    &&& matches@[k].counts@.len() == terms@.len()
                    &&& forall|jj: int|
                        0 <= jj < terms@.len() ==> #[trigger] matches@[k].counts@[jj] == count_in(
                            d,
                            terms@[jj].term@,
                        )
                },
        decreases n - i,
    {
        let doc = docs.value_at(i);
        let mut counts: Vec<usize> = Vec::new();
        let mut any = false;
        let mut jj: usize = 0;
        while jj < terms.len()
            invariant
                doc.wf(),
                jj <= terms@.len(),
                qterms == query_terms_of(terms@),
                counts@.len() == jj,
                forall|q: int|
                    0 <= q < jj ==> #[trigger] counts@[q] == count_in(*doc, terms@[q].term@),
                any <==> exists|q: int|
                    0 <= q < jj && doc.term_freq@.contains_key(#[trigger] qterms[q]),
            decreases terms@.len() - jj,
        {
            let c = match doc.term_freq.get(terms[jj].term.as_str()) {
                Some(c) => {
                    any = true;
                    *c
                },
                None => 0,
            };
            counts.push(c);
            proof {
                assert(qterms[jj as int] == terms@[jj as int].term@);
            }
            jj = jj + 1;
        }
        proof {
            lemma_matching_positions_take(list, qterms, i as int);
            assert(doc_matches(*doc, qterms) == any);
        }
        if any {
            let path = docs.key_at(i).clone();
            matches.push(DocMatch { path, term_count: doc.term_count, counts });
        }
        proof {
            lemma_matching_positions_bound(list.take(i + 1), qterms);
        }
        i = i + 1;
    }
    proof {
        assert(list.take(n as int) =~= list);
    }
    (terms, matches)
}

/// Searcher that ranks documents by TF-IDF.
pub struct TfIdfSearcher {
    pub model: Model,
}

impl TfIdfSearcher {
    pub fn new(model: Model) -> (s: Self)
        ensures
            s.model == model,
    {
        TfIdfSearcher { model }
    }

    /// The documents that a query reaches: those that record a query term.
    pub fn matches<P: TermProcessor>(&self, keywords: &str, term_processor: &P) -> (r: (
        Vec<QueryTerm>,
        Vec<DocMatch>,
    ))
        requires
            self.model.wf(),
        ensures
            describes_query(r.0@, self.model, keywords@, term_processor),
            describes_matches(r.1@, r.0@, self.model),
    {
        match_query(&self.model, keywords, term_processor)
    }
}

} // verus!
