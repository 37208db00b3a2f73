//! The index builder and query engine.
//!
//! The builder consumes documents in id order, computes per-document term
//! frequencies (surfaced for observability, never consumed by the index),
//! filters stopwords, and accumulates a term-to-document-ids postings
//! structure; it is consumed into an immutable [`SearchIndex`], which
//! answers a query by unioning the postings of the query's terms
//! (OR-retrieval, deduplicated, first-seen order) and resolving the
//! surviving ids through the document store.

use vstd::prelude::*;
use crate::model::{
    capped, count_occ, distinct_keys, docs_with_term, first_seen, ids_view, key_index,
    lemma_count_occ_le_len, lemma_docs_with_term_range, lemma_first_seen_contains,
    lemma_ids_view_contains, lemma_key_index_of, MAX_DOCS,
};
use crate::stopwords::{is_stopword, spec_is_stopword};
use crate::store::DocStore;
use crate::tokenize::{term_views, Tokenizer};

verus! {

broadcast use vstd::seq_lib::group_seq_properties;

/// The relative frequency of one term within one document: `count`
/// occurrences among `total` term occurrences. The ratio `count / total`
/// is measured during indexing and reported to the caller, but has no
/// effect on the index or on later queries.
pub struct TermFreq {
    pub term: String,
    pub count: usize,
    pub total: usize,
}

/// The term of each frequency record, in order.
pub open spec fn freq_terms(rs: Seq<TermFreq>) -> Seq<Seq<char>> {
    rs.map_values(|e: TermFreq| e.term@)
}

/// `rs` records, for each distinct term of `toks` in first-occurrence
/// order, how often it occurs among the `toks.len()` terms.
pub open spec fn freqs_match(rs: Seq<TermFreq>, toks: Seq<Seq<char>>) -> bool {
    &&& freq_terms(rs) == first_seen(toks)
    &&& forall|k: int|
        0 <= k < rs.len() ==> (#[trigger] rs[k]).count == count_occ(toks, rs[k].term@)
            && rs[k].total == toks.len()
}

/// Whether `v` holds `x`.
fn contains_id(v: &Vec<usize>, x: usize) -> (r: bool)
    ensures
        r == v@.contains(x),
{
    let mut m: usize = 0;
    while m < v.len()
        invariant
            m <= v@.len(),
            forall|i: int| 0 <= i < m ==> v@[i] != x,
        decreases v@.len() - m,
    {
        if v[m] == x {
            return true;
        }
        m += 1;
    }
    false
}

/// The position of `t` among `terms`, if present.
fn find_key(terms: &Vec<String>, t: &String) -> (r: Option<usize>)
    ensures
        match r {
            Some(i) => i < terms@.len() && terms@[i as int]@ == t@,
            None => !term_views(terms@).contains(t@),
        },
{
    let mut m: usize = 0;
    while m < terms.len()
        invariant
            m <= terms@.len(),
            forall|i: int| 0 <= i < m ==> terms@[i]@ != t@,
        decreases terms@.len() - m,
    {
        if terms[m] == *t {
            return Some(m);
        }
        m += 1;
    }
    proof {
        if term_views(terms@).contains(t@) {
            let i = choose|i: int|
                0 <= i < term_views(terms@).len() && term_views(terms@)[i] == t@;
            assert(terms@[i]@ == t@);
        }
    }
    None
}

/// Counts how many of `tokens` equal `t`.
fn count_token(tokens: &Vec<String>, t: &String) -> (c: usize)
    ensures
        c == count_occ(term_views(tokens@), t@),
{
    let ghost toks = term_views(tokens@);
    let mut c: usize = 0;
    let mut q: usize = 0;
    proof {
        assert(toks.take(0) =~= Seq::<Seq<char>>::empty());
        lemma_count_occ_le_len(toks, t@);
    }
    while q < tokens.len()
        invariant
            q <= tokens@.len(),
            toks == term_views(tokens@),
            c == count_occ(toks.take(q as int), t@),
            c <= q,
        decreases tokens@.len() - q,
    {
        proof {
            assert(toks.take(q + 1).drop_last() =~= toks.take(q as int));
            assert(toks.take(q + 1).last() == toks[q as int]);
        }
        if tokens[q] == *t {
            c += 1;
        }
        q += 1;
    }
    proof {
        assert(toks.take(tokens@.len() as int) =~= toks);
    }
    c
}

/// Computes, for each distinct term of `tokens` in first-occurrence order,
/// its occurrence count and the total number of term occurrences. This is
/// the term-frequency measurement: a pure side computation whose result the
/// caller may consume or discard.
pub fn term_frequencies(tokens: &Vec<String>) -> (r: Vec<TermFreq>)
    ensures
        freqs_match(r@, term_views(tokens@)),
{
    let ghost toks = term_views(tokens@);
    let total = tokens.len();
    let mut r: Vec<TermFreq> = Vec::new();
    let mut j: usize = 0;
    proof {
        assert(freq_terms(r@) =~= Seq::<Seq<char>>::empty());
        assert(toks.take(0) =~= Seq::<Seq<char>>::empty());
    }
    while j < total
        invariant
            total == tokens@.len(),
            j <= total,
            toks == term_views(tokens@),
            freq_terms(r@) == first_seen(toks.take(j as int)),
            forall|k: int|
                0 <= k < r@.len() ==> (#[trigger] r@[k]).count == count_occ(toks, r@[k].term@)
                    && r@[k].total == total,
        decreases total - j,
    {
        let ghost tv = toks[j as int];
        let mut present = false;
        let mut m: usize = 0;
        while m < r.len()
            invariant
                m <= r@.len(),
                tv == toks[j as int],
                j < total == tokens@.len(),
                toks == term_views(tokens@),
                present == exists|i: int| 0 <= i < m && r@[i].term@ == tv,
            decreases r@.len() - m,
        {
            if r[m].term == tokens[j] {
                present = true;
            }
            m += 1;
        }
        proof {
            assert(toks.take(j + 1).drop_last() =~= toks.take(j as int));
            assert(toks.take(j + 1).last() == tv);
            lemma_first_seen_contains(toks.take(j as int), tv);
            if present {
                let i = choose|i: int| 0 <= i < r@.len() && r@[i].term@ == tv;
                assert(freq_terms(r@)[i] == tv);
                assert(first_seen(toks.take(j as int)).contains(tv));
            } else {
                if first_seen(toks.take(j as int)).contains(tv) {
                    let i = choose|i: int|
                        0 <= i < freq_terms(r@).len() && freq_terms(r@)[i] == tv;
                    assert(r@[i].term@ == tv);
                }
            }
        }
        if !present {
            let c = count_token(tokens, &tokens[j]);
            let ghost prev = r@;
            r.push(TermFreq { term: tokens[j].clone(), count: c, total });
            proof {
                assert(freq_terms(r@) =~= freq_terms(prev).push(tv));
            }
        }
        j += 1;
    }
    proof {
        assert(toks.take(total as int) =~= toks);
    }
    r
}

/// The index builder: an owned, mutable accumulator of postings. It is
/// consumed by [`IndexBuilder::finish`] into an immutable [`SearchIndex`].
pub struct IndexBuilder {
    tok: Tokenizer,
    terms: Vec<String>,
    postings: Vec<Vec<usize>>,
    ndocs: usize,
    seen: Ghost<Seq<Seq<char>>>,
}

impl IndexBuilder {
    /// The tokenizer every document is segmented with.
    pub closed spec fn tok_spec(self) -> Tokenizer {
        self.tok
    }

    /// The texts of the documents indexed so far, in id order.
    pub closed spec fn docs_seen(self) -> Seq<Seq<char>> {
        self.seen@
    }

    /// The indexed terms, in first-encounter order.
    pub closed spec fn term_keys(self) -> Seq<Seq<char>> {
        term_views(self.terms@)
    }

    /// Whether `t` is a key of the postings accumulated so far.
    pub closed spec fn has_term(self, t: Seq<char>) -> bool {
        self.term_keys().contains(t)
    }

    /// The postings list of `t`: the ids of the documents containing `t`,
    /// in ascending order; empty for a term that is not a key.
    pub closed spec fn postings_of(self, t: Seq<char>) -> Seq<int> {
        if self.has_term(t) {
            ids_view(self.postings@[key_index(self.term_keys(), t)]@)
        } else {
            Seq::empty()
        }
    }

    /// The accumulated state is exactly the postings that the documents
    /// seen so far induce: stopwords are never keys, and each non-stopword
    /// term maps to the ascending ids of the documents containing it.
    pub closed spec fn wf(self) -> bool {
        &&& self.terms@.len() == self.postings@.len()
        &&& distinct_keys(self.term_keys())
        &&& self.ndocs == self.seen@.len()
        &&& self.seen@.len() <= MAX_DOCS
        &&& forall|t: Seq<char>|
            #[trigger] self.has_term(t) <==> (!spec_is_stopword(t) && docs_with_term(
                self.tok,
                self.seen@,
                t,
            ).len() != 0)
        &&& forall|t: Seq<char>|
            !spec_is_stopword(t) ==> #[trigger] self.postings_of(t) == docs_with_term(
                self.tok,
                self.seen@,
                t,
            )
    }

    /// An empty builder over the given tokenizer.
    pub fn new(tok: Tokenizer) -> (r: Self)
        ensures
            r.wf(),
            r.tok_spec() == tok,
            r.docs_seen() == Seq::<Seq<char>>::empty(),
    {
        let r = IndexBuilder {
            tok,
            terms: Vec::new(),
            postings: Vec::new(),
            ndocs: 0,
            seen: Ghost(Seq::empty()),
        };
        proof {
            assert(r.term_keys() =~= Seq::<Seq<char>>::empty());
            assert forall|t: Seq<char>| !(#[trigger] r.has_term(t)) by {}
        }
        r
    }

    /// Tokenizes one document, reports its term frequencies, and indexes it
    /// under the next sequential id. Once the ingestion cap is reached the
    /// call changes nothing and reports nothing: later documents are
    /// silently excluded, which is not an error.
    pub fn add_document(&mut self, text: &str) -> (tf: Vec<TermFreq>)
        requires
            old(self).wf(),
        ensures
            final(self).wf(),
            final(self).tok_spec() == old(self).tok_spec(),
            old(self).docs_seen().len() < MAX_DOCS ==> {
                &&& final(self).docs_seen() == old(self).docs_seen().push(text@)
                &&& freqs_match(tf@, old(self).tok_spec().spec_tokens(text@))
            },
            old(self).docs_seen().len() >= MAX_DOCS ==> *final(self) == *old(self) && tf@.len()
                == 0,
    {
        if self.ndocs >= MAX_DOCS {
            return Vec::new();
        }
        let toks = self.tok.tokenize(text);
        let tf = term_frequencies(&toks);
        let ghost tvs = term_views(toks@);
        let ghost c0 = self.seen@;
        let ghost tok = self.tok;
        let d = self.ndocs;
        proof {
            assert(tvs.take(0) =~= Seq::<Seq<char>>::empty());
        }
        let mut j: usize = 0;
        while j < toks.len()
            invariant
                self.tok == tok,
                self.ndocs == d,
                self.seen@ == c0,
                d == c0.len() < MAX_DOCS,
                j <= toks.len(),
                tvs == term_views(toks@),
                self.terms@.len() == self.postings@.len(),
                distinct_keys(self.term_keys()),
                forall|t: Seq<char>|
                    #[trigger] self.has_term(t) <==> (!spec_is_stopword(t) && (docs_with_term(
                        tok,
                        c0,
                        t,
                    ).len() != 0 || tvs.take(j as int).contains(t))),
                forall|t: Seq<char>|
                    !spec_is_stopword(t) ==> #[trigger] self.postings_of(t) == docs_with_term(
                        tok,
                        c0,
                        t,
                    ) + (if tvs.take(j as int).contains(t) {
                        seq![d as int]
                    } else {
                        Seq::<int>::empty()
                    }),
            decreases toks.len() - j,
        {
            let ghost pre = *self;
            let ghost tv = tvs[j as int];
            proof {
                assert(tvs.take(j + 1) =~= tvs.take(j as int).push(tv));
                lemma_docs_with_term_range(tok, c0, tv);
            }
            let t = &toks[j];
            proof {
                assert(t@ == tv);
            }
            if !is_stopword(t) {
                match find_key(&self.terms, t) {
                    Some(i) => {
                        proof {
                            lemma_key_index_of(pre.term_keys(), tv, i as int);
                            assert(pre.has_term(tv));
                            assert(pre.postings_of(tv) == ids_view(pre.postings@[i as int]@));
                        }
                        let mut lst = self.postings.remove(i);
                        let ghost oldl = lst@;
                        let already = lst.len() > 0 && lst[lst.len() - 1] == d;
                        proof {
                            if already {
                                assert(ids_view(oldl).last() == d as int);
                                if !tvs.take(j as int).contains(tv) {
                                    let p = docs_with_term(tok, c0, tv);
                                    assert(ids_view(oldl) =~= p + Seq::<int>::empty());
                                    assert(ids_view(oldl) =~= p);
                                    assert(p[p.len() - 1] == d as int);
                                    assert(false);
                                }
                            } else {
                                if tvs.take(j as int).contains(tv) {
                                    let p = docs_with_term(tok, c0, tv);
                                    assert(ids_view(oldl) =~= p.push(d as int));
                                    assert(ids_view(oldl).last() == d as int);
                                    assert(oldl[oldl.len() - 1] as int == d as int);
                                    assert(false);
                                }
                            }
                        }
                        if !already {
                            lst.push(d);
                        }
                        self.postings.insert(i, lst);
                        proof {
                            assert(self.terms@ == pre.terms@);
                            assert(self.term_keys() == pre.term_keys());
                            assert(self.postings@ =~= pre.postings@.update(
                                i as int,
                                self.postings@[i as int],
                            ));
                            if already {
                                assert(self.postings@ =~= pre.postings@);
                            } else {
                                assert(self.postings@[i as int]@ =~= oldl.push(d));
                            }
                            assert forall|t2: Seq<char>|
                                #[trigger] self.has_term(t2) <==> (!spec_is_stopword(t2) && (
                                docs_with_term(tok, c0, t2).len() != 0 || tvs.take(
                                    j + 1,
                                ).contains(t2))) by {
                                assert(tvs.take(j + 1).contains(t2) == (tvs.take(
                                    j as int,
                                ).contains(t2) || t2 == tv));
                                assert(self.has_term(t2) == pre.has_term(t2));
                                if t2 == tv {
                                    assert(pre.has_term(tv));
                                }
                            }
                            assert forall|t2: Seq<char>| !spec_is_stopword(t2) implies #[trigger] self.postings_of(
                                t2,
                            ) == docs_with_term(tok, c0, t2) + (if tvs.take(j + 1).contains(t2) {
                                seq![d as int]
                            } else {
                                Seq::<int>::empty()
                            }) by {
                                assert(tvs.take(j + 1).contains(t2) == (tvs.take(
                                    j as int,
                                ).contains(t2) || t2 == tv));
                                if t2 == tv {
                                    assert(self.postings_of(tv) == ids_view(
                                        self.postings@[i as int]@,
                                    ));
                                    if already {
                                        assert(self.postings_of(tv) == pre.postings_of(tv));
                                    } else {
                                        assert(ids_view(oldl.push(d)) =~= ids_view(oldl).push(
                                            d as int,
                                        ));
                                        assert(docs_with_term(tok, c0, tv) + Seq::<int>::empty()
                                            =~= docs_with_term(tok, c0, tv));
                                        assert(self.postings_of(tv) =~= docs_with_term(
                                            tok,
                                            c0,
                                            tv,
                                        ) + seq![d as int]);
                                    }
                                } else {
                                    if self.has_term(t2) {
                                        let k = key_index(pre.term_keys(), t2);
                                        assert(pre.term_keys()[k] == t2);
                                        assert(k != i as int);
                                        assert(self.postings@[k] == pre.postings@[k]);
                                        assert(self.postings_of(t2) == pre.postings_of(t2));
                                    } else {
                                        assert(self.postings_of(t2) == pre.postings_of(t2));
                                    }
                                }
                            }
                        }
                    },
                    None => {
                        proof {
                            assert(!pre.has_term(tv));
                            assert(docs_with_term(tok, c0, tv).len() == 0);
                            assert(!tvs.take(j as int).contains(tv));
                        }
                        self.terms.push(t.clone());
                        let mut nl: Vec<usize> = Vec::new();
                        nl.push(d);
                        self.postings.push(nl);
                        proof {
                            let ghost nkeys = self.term_keys();
                            let ghost olen = pre.terms@.len() as int;
                            assert(nkeys =~= pre.term_keys().push(tv));
                            assert forall|a: int, b: int| 0 <= a < b < nkeys.len() implies nkeys[a]
                                != nkeys[b] by {
                                if b == olen {
                                    assert(nkeys[a] == pre.term_keys()[a]);
                                    if nkeys[a] == tv {
                                        assert(pre.term_keys().contains(tv));
                                        assert(false);
                                    }
                                } else {
                                    assert(nkeys[a] == pre.term_keys()[a]);
                                    assert(nkeys[b] == pre.term_keys()[b]);
                                }
                            }
                            assert(distinct_keys(nkeys));
                            lemma_key_index_of(nkeys, tv, olen);
                            assert forall|t2: Seq<char>|
                                #[trigger] self.has_term(t2) <==> (!spec_is_stopword(t2) && (
                                docs_with_term(tok, c0, t2).len() != 0 || tvs.take(
                                    j + 1,
                                ).contains(t2))) by {
                                assert(tvs.take(j + 1).contains(t2) == (tvs.take(
                                    j as int,
                                ).contains(t2) || t2 == tv));
                                assert(nkeys.contains(t2) == (pre.term_keys().contains(t2) || t2
                                    == tv));
                                assert(pre.has_term(t2) == pre.term_keys().contains(t2));
                            }
                            assert forall|t2: Seq<char>| !spec_is_stopword(t2) implies #[trigger] self.postings_of(
                                t2,
                            ) == docs_with_term(tok, c0, t2) + (if tvs.take(j + 1).contains(t2) {
                                seq![d as int]
                            } else {
                                Seq::<int>::empty()
                            }) by {
                                assert(tvs.take(j + 1).contains(t2) == (tvs.take(
                                    j as int,
                                ).contains(t2) || t2 == tv));
                                assert(nkeys.contains(t2) == (pre.term_keys().contains(t2) || t2
                                    == tv));
                                assert(pre.has_term(t2) == pre.term_keys().contains(t2));
                                if t2 == tv {
                                    assert(self.postings_of(tv) == ids_view(
                                        self.postings@[olen]@,
                                    ));
                                    assert(ids_view(self.postings@[olen]@) =~= seq![d as int]);
                                    assert(docs_with_term(tok, c0, tv) + seq![d as int]
                                        =~= seq![d as int]);
                                } else {
                                    if pre.has_term(t2) {
                                        let k = key_index(pre.term_keys(), t2);
                                        assert(pre.term_keys()[k] == t2);
                                        lemma_key_index_of(nkeys, t2, k);
                                        assert(self.postings@[k] == pre.postings@[k]);
                                        assert(self.postings_of(t2) == pre.postings_of(t2));
                                    } else {
                                        assert(!self.has_term(t2));
                                        assert(self.postings_of(t2) == pre.postings_of(t2));
                                    }
                                }
                            }
                        }
                    },
                }
            } else {
                proof {
                    assert forall|t2: Seq<char>|
                        #[trigger] self.has_term(t2) <==> (!spec_is_stopword(t2) && (
                        docs_with_term(tok, c0, t2).len() != 0 || tvs.take(j + 1).contains(
                            t2,
                        ))) by {
                        assert(tvs.take(j + 1).contains(t2) == (tvs.take(j as int).contains(t2)
                            || t2 == tv));
                    }
                    assert forall|t2: Seq<char>| !spec_is_stopword(t2) implies #[trigger] self.postings_of(
                        t2,
                    ) == docs_with_term(tok, c0, t2) + (if tvs.take(j + 1).contains(t2) {
                        seq![d as int]
                    } else {
                        Seq::<int>::empty()
                    }) by {
                        assert(tvs.take(j + 1).contains(t2) == (tvs.take(j as int).contains(t2)
                            || t2 == tv));
                        assert(t2 != tv);
                    }
                }
            }
            j += 1;
        }
        let ghost s1 = *self;
        self.ndocs = d + 1;
        self.seen = Ghost(c0.push(text@));
        proof {
            assert forall|t2: Seq<char>|
                #[trigger] self.has_term(t2) == s1.has_term(t2) && #[trigger] self.postings_of(
                    t2,
                ) == s1.postings_of(t2) by {
                assert(self.term_keys() == s1.term_keys());
                assert(s1.has_term(t2) == s1.term_keys().contains(t2));
                assert(s1.postings_of(t2) == self.postings_of(t2));
            }
            assert(self.term_keys() == s1.term_keys());
            assert(tvs.take(toks@.len() as int) =~= tvs);
            assert(tvs == tok.spec_tokens(text@));
            let c1 = c0.push(text@);
            assert(c1.drop_last() =~= c0);
            assert(c1.last() == text@);
            assert forall|t2: Seq<char>| #[trigger] docs_with_term(tok, c1, t2)
                == docs_with_term(tok, c0, t2) + (if tvs.contains(t2) {
                seq![d as int]
            } else {
                Seq::<int>::empty()
            }) by {
                if tvs.contains(t2) {
                    assert(docs_with_term(tok, c1, t2) == docs_with_term(tok, c0, t2).push(
                        (c1.len() - 1) as int,
                    ));
                    assert(docs_with_term(tok, c0, t2).push(d as int) =~= docs_with_term(
                        tok,
                        c0,
                        t2,
                    ) + seq![d as int]);
                } else {
                    assert(docs_with_term(tok, c1, t2) =~= docs_with_term(tok, c0, t2)
                        + Seq::<int>::empty());
                }
            }
            assert(self.seen@ == c1);
            assert(self.tok == tok);
            assert forall|t2: Seq<char>|
                #[trigger] self.has_term(t2) <==> (!spec_is_stopword(t2) && docs_with_term(
                    self.tok,
                    self.seen@,
                    t2,
                ).len() != 0) by {
                assert(self.has_term(t2) == s1.has_term(t2));
                assert(s1.has_term(t2) <==> (!spec_is_stopword(t2) && (docs_with_term(
                    tok,
                    c0,
                    t2,
                ).len() != 0 || tvs.contains(t2))));
                assert(docs_with_term(tok, c1, t2) == docs_with_term(tok, c0, t2) + (if tvs.contains(
                    t2,
                ) {
                    seq![d as int]
                } else {
                    Seq::<int>::empty()
                }));
            }
            assert forall|t2: Seq<char>| !spec_is_stopword(t2) implies #[trigger] self.postings_of(
                t2,
            ) == docs_with_term(self.tok, self.seen@, t2) by {
                assert(self.postings_of(t2) == s1.postings_of(t2));
                assert(s1.postings_of(t2) == docs_with_term(tok, c0, t2) + (if tvs.contains(t2) {
                    seq![d as int]
                } else {
                    Seq::<int>::empty()
                }));
                assert(docs_with_term(tok, c1, t2) == docs_with_term(tok, c0, t2) + (if tvs.contains(
                    t2,
                ) {
                    seq![d as int]
                } else {
                    Seq::<int>::empty()
                }));
            }
        }
        tf
    }
}

/// The queryable unit: the completed postings mapping together with the
/// document store it was built from. Built once per session by
/// [`build`] (or [`IndexBuilder::finish`]) and immutable thereafter.
pub struct SearchIndex {
    tok: Tokenizer,
    terms: Vec<String>,
    postings: Vec<Vec<usize>>,
    store: DocStore,
}

impl SearchIndex {
    /// The tokenizer the index was built with; queries use the same one.
    pub closed spec fn tok_spec(self) -> Tokenizer {
        self.tok
    }

    /// The texts of the owned document store, in id order.
    pub closed spec fn docs(self) -> Seq<Seq<char>> {
        self.store.docs_view()
    }

    /// The corpus that was actually indexed: the store truncated to the
    /// ingestion cap.
    pub closed spec fn capped_docs(self) -> Seq<Seq<char>> {
        capped(self.docs())
    }

    /// The postings keys, in first-encounter order.
    pub closed spec fn term_keys(self) -> Seq<Seq<char>> {
        term_views(self.terms@)
    }

    /// Whether `t` is a key of the postings mapping.
    pub closed spec fn has_term(self, t: Seq<char>) -> bool {
        self.term_keys().contains(t)
    }

    /// The postings list of `t`: ascending document ids; empty for a term
    /// that is not a key.
    pub closed spec fn postings_of(self, t: Seq<char>) -> Seq<int> {
        if self.has_term(t) {
            ids_view(self.postings@[key_index(self.term_keys(), t)]@)
        } else {
            Seq::empty()
        }
    }

    /// The index is exactly the one its capped corpus induces: stopwords
    /// are never keys, and each non-stopword term maps to the ascending ids
    /// of the capped documents containing it.
    pub closed spec fn wf(self) -> bool {
        &&& self.terms@.len() == self.postings@.len()
        &&& distinct_keys(self.term_keys())
        &&& forall|t: Seq<char>|
            #[trigger] self.has_term(t) <==> (!spec_is_stopword(t) && docs_with_term(
                self.tok,
                self.capped_docs(),
                t,
            ).len() != 0)
        &&& forall|t: Seq<char>|
            !spec_is_stopword(t) ==> #[trigger] self.postings_of(t) == docs_with_term(
                self.tok,
                self.capped_docs(),
                t,
            )
    }
}

impl IndexBuilder {
    /// Consumes the builder and the document store into the immutable
    /// index, once every stored document (up to the cap) has been added.
    pub fn finish(self, store: DocStore) -> (r: SearchIndex)
        requires
            self.wf(),
            self.docs_seen() == capped(store.docs_view()),
        ensures
            r.wf(),
            r.tok_spec() == self.tok_spec(),
            r.docs() == store.docs_view(),
    {
        let r = SearchIndex { tok: self.tok, terms: self.terms, postings: self.postings, store };
        proof {
            assert(r.capped_docs() == self.seen@);
            assert forall|t: Seq<char>| #[trigger] r.has_term(t) == self.has_term(t) by {
                assert(r.term_keys() == self.term_keys());
            }
            assert forall|t: Seq<char>| #[trigger] r.postings_of(t) == self.postings_of(t) by {
                assert(r.term_keys() == self.term_keys());
                assert(r.has_term(t) == self.has_term(t));
            }
            assert(r.term_keys() == self.term_keys());
        }
        r
    }
}

/// Builds the index of `store`'s documents in id order, up to the
/// ingestion cap, under tokenizer `tok`. Per-document term frequencies are
/// computed along the way and discarded here; [`IndexBuilder::add_document`]
/// surfaces them to callers that want them.
pub fn build(store: DocStore, tok: Tokenizer) -> (r: SearchIndex)
    ensures
        r.wf(),
        r.tok_spec() == tok,
        r.docs() == store.docs_view(),
{
    let ghost dv = store.docs_view();
    let mut b = IndexBuilder::new(tok);
    let n = store.len();
    proof {
        assert(dv.take(0) =~= Seq::<Seq<char>>::empty());
        assert(capped(dv.take(0)) =~= Seq::<Seq<char>>::empty());
    }
    let mut d: usize = 0;
    while d < n
        invariant
            n == dv.len(),
            dv == store.docs_view(),
            d <= n,
            b.wf(),
            b.tok_spec() == tok,
            b.docs_seen() == capped(dv.take(d as int)),
        decreases n - d,
    {
        match store.get(d) {
            Some(text) => {
                proof {
                    if d < MAX_DOCS {
                        assert(capped(dv.take(d as int)) == dv.take(d as int));
                    } else {
                        assert(capped(dv.take(d as int)).len() == MAX_DOCS);
                    }
                }
                let _tf = b.add_document(text.as_str());
                proof {
                    if d < MAX_DOCS {
                        assert(dv.take(d + 1) =~= dv.take(d as int).push(dv[d as int]));
                        assert(capped(dv.take(d + 1)) == dv.take(d + 1));
                        assert(b.docs_seen() == capped(dv.take(d + 1)));
                    } else {
                        assert(capped(dv.take(d as int)) =~= dv.take(MAX_DOCS as int));
                        assert(capped(dv.take(d + 1)) =~= dv.take(MAX_DOCS as int));
                        assert(b.docs_seen() == capped(dv.take(d as int)));
                    }
                }
            },
            None => {
                proof {
                    assert(false);
                }
            },
        }
        d += 1;
    }
    proof {
        assert(dv.take(n as int) =~= dv);
    }
    b.finish(store)
}

/// The concatenation, in query order, of the postings of the query's
/// terms; a term that is not a key contributes nothing.
pub open spec fn cat_postings(idx: SearchIndex, qtoks: Seq<Seq<char>>) -> Seq<int>
    decreases qtoks.len(),
{
    if qtoks.len() == 0 {
        Seq::empty()
    } else {
        cat_postings(idx, qtoks.drop_last()) + idx.postings_of(qtoks.last())
    }
}

/// Each id resolved to its stored text, in order; an id that resolves to
/// nothing is silently dropped.
pub open spec fn resolve(docs: Seq<Seq<char>>, ids: Seq<int>) -> Seq<Seq<char>>
    decreases ids.len(),
{
    if ids.len() == 0 {
        Seq::empty()
    } else {
        let pre = resolve(docs, ids.drop_last());
        if 0 <= ids.last() < docs.len() {
            pre.push(docs[ids.last()])
        } else {
            pre
        }
    }
}

/// What a query returns: the query text is tokenized with the index's own
/// tokenizer, the postings of its terms are unioned (deduplicated, in
/// first-seen order, term order outer and document order inner), and the
/// surviving ids are resolved through the document store.
pub open spec fn query_result(idx: SearchIndex, text: Seq<char>) -> Seq<Seq<char>> {
    resolve(idx.docs(), first_seen(cat_postings(idx, idx.tok_spec().spec_tokens(text))))
}

impl SearchIndex {
    /// Answers `text` by OR-retrieval: the matched document texts, in
    /// discovery order, with no relevance ranking.
    pub fn query(&self, text: &str) -> (r: Vec<String>)
        requires
            self.wf(),
        ensures
            term_views(r@) == query_result(*self, text@),
    {
        let qtoks = self.tok.tokenize(text);
        let ghost qv = term_views(qtoks@);
        let mut ids: Vec<usize> = Vec::new();
        proof {
            assert(qv.take(0) =~= Seq::<Seq<char>>::empty());
            assert(ids_view(ids@) =~= Seq::<int>::empty());
        }
        let mut j: usize = 0;
        while j < qtoks.len()
            invariant
                self.wf(),
                j <= qtoks.len(),
                qv == term_views(qtoks@),
                ids_view(ids@) == first_seen(cat_postings(*self, qv.take(j as int))),
            decreases qtoks.len() - j,
        {
            let ghost tv = qv[j as int];
            proof {
                assert(qv.take(j + 1) =~= qv.take(j as int).push(tv));
                assert(qv.take(j + 1).drop_last() =~= qv.take(j as int));
                assert(qv.take(j + 1).last() == tv);
                assert(cat_postings(*self, qv.take(j + 1)) == cat_postings(
                    *self,
                    qv.take(j as int),
                ) + self.postings_of(tv));
                assert(qtoks@[j as int]@ == tv);
            }
            match find_key(&self.terms, &qtoks[j]) {
                Some(ti) => {
                    proof {
                        lemma_key_index_of(self.term_keys(), tv, ti as int);
                        assert(self.postings_of(tv) == ids_view(self.postings@[ti as int]@));
                    }
                    let lst = &self.postings[ti];
                    let ghost base = cat_postings(*self, qv.take(j as int));
                    let ghost lv = ids_view(lst@);
                    proof {
                        assert(lv.take(0) =~= Seq::<int>::empty());
                        assert(base + lv.take(0) =~= base);
                    }
                    let mut k: usize = 0;
                    while k < lst.len()
                        invariant
                            k <= lst@.len(),
                            lv == ids_view(lst@),
                            ids_view(ids@) == first_seen(base + lv.take(k as int)),
                        decreases lst@.len() - k,
                    {
                        let did = lst[k];
                        proof {
                            assert(lv[k as int] == did as int);
                            assert(lv.take(k + 1) =~= lv.take(k as int).push(did as int));
                            assert(base + lv.take(k + 1) =~= (base + lv.take(k as int)).push(
                                did as int,
                            ));
                            assert((base + lv.take(k + 1)).drop_last() =~= base + lv.take(
                                k as int,
                            ));
                            assert((base + lv.take(k + 1)).last() == did as int);
                            lemma_first_seen_contains(base + lv.take(k as int), did as int);
                            lemma_ids_view_contains(ids@, did);
                        }
                        if !contains_id(&ids, did) {
                            let ghost pids = ids@;
                            ids.push(did);
                            proof {
                                assert(ids_view(ids@) =~= ids_view(pids).push(did as int));
                            }
                        }
                        k += 1;
                    }
                    proof {
                        assert(lv.take(lst@.len() as int) =~= lv);
                    }
                },
                None => {
                    proof {
                        assert(!self.has_term(tv));
                        assert(self.postings_of(tv) == Seq::<int>::empty());
                        assert(cat_postings(*self, qv.take(j + 1)) =~= cat_postings(
                            *self,
                            qv.take(j as int),
                        ));
                    }
                },
            }
            j += 1;
        }
        let ghost fids = first_seen(cat_postings(*self, qv));
        proof {
            assert(qv.take(qtoks@.len() as int) =~= qv);
            assert(ids_view(ids@) == fids);
        }
        let mut res: Vec<String> = Vec::new();
        proof {
            assert(term_views(res@) =~= Seq::<Seq<char>>::empty());
            assert(fids.take(0) =~= Seq::<int>::empty());
        }
        let mut m: usize = 0;
        while m < ids.len()
            invariant
                m <= ids@.len(),
                ids_view(ids@) == fids,
                term_views(res@) == resolve(self.docs(), fids.take(m as int)),
            decreases ids@.len() - m,
        {
            let did = ids[m];
            proof {
                assert(fids[m as int] == did as int);
                assert(fids.take(m + 1) =~= fids.take(m as int).push(did as int));
                assert(fids.take(m + 1).drop_last() =~= fids.take(m as int));
                assert(fids.take(m + 1).last() == did as int);
            }
            match self.store.get(did) {
                Some(tx) => {
                    let ghost prev = res@;
                    res.push(tx.clone());
                    proof {
                        assert(term_views(res@) =~= term_views(prev).push(tx@));
                    }
                },
                None => {},
            }
            m += 1;
        }
        proof {
            assert(fids.take(ids@.len() as int) =~= fids);
        }
        res
    }
}

/// A term of the stopword set never appears as a postings key of a
/// well-formed index, regardless of the input text, and its postings are
/// empty.
pub proof fn lemma_stopword_never_indexed(idx: SearchIndex, t: Seq<char>)
    requires
        idx.wf(),
        spec_is_stopword(t),
    ensures
        !idx.has_term(t),
        idx.postings_of(t) == Seq::<int>::empty(),
{
    assert(!idx.has_term(t));
}

/// Querying the same index with the same query text twice yields identical
/// ordered results: the result a query's contract pins down is a function
/// of the index and the text alone.
pub proof fn lemma_query_idempotent(
    idx: SearchIndex,
    text: Seq<char>,
    r1: Seq<Seq<char>>,
    r2: Seq<Seq<char>>,
)
    requires
        r1 == query_result(idx, text),
        r2 == query_result(idx, text),
    ensures
        r1 == r2,
{
}

/// Every id in any postings list of a well-formed index refers to one of
/// the first `MAX_DOCS` stored documents: documents past the ingestion cap
/// are never indexed.
pub proof fn lemma_postings_capped(idx: SearchIndex, t: Seq<char>, k: int)
    requires
        idx.wf(),
        0 <= k < idx.postings_of(t).len(),
    ensures
        0 <= idx.postings_of(t)[k] < MAX_DOCS,
        idx.postings_of(t)[k] < idx.docs().len(),
{
    if spec_is_stopword(t) {
        assert(!idx.has_term(t));
        assert(idx.postings_of(t) == Seq::<int>::empty());
    } else {
        lemma_docs_with_term_range(idx.tok_spec(), idx.capped_docs(), t);
        assert(idx.postings_of(t) == docs_with_term(idx.tok_spec(), idx.capped_docs(), t));
        assert(idx.capped_docs().len() <= MAX_DOCS);
        assert(idx.capped_docs().len() <= idx.docs().len());
    }
}

} // verus!
