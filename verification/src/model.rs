//! The mathematical model of the engine: first-seen deduplication, term
//! counting, and the postings a corpus induces, stated over sequences.

use vstd::prelude::*;
use crate::tokenize::Tokenizer;

verus! {

broadcast use vstd::seq_lib::group_seq_properties;

/// The ingestion cap: at most this many documents are indexed in one
/// session; later documents are silently excluded.
pub const MAX_DOCS: usize = 10000;

/// `s` with repeated elements removed, keeping the first occurrence of
/// each element, in order.
pub open spec fn first_seen<A>(s: Seq<A>) -> Seq<A>
    decreases s.len(),
{
    if s.len() == 0 {
        Seq::empty()
    } else {
        let pre = first_seen(s.drop_last());
        if s.drop_last().contains(s.last()) {
            pre
        } else {
            pre.push(s.last())
        }
    }
}

/// Deduplication keeps exactly the elements of `s`.
pub proof fn lemma_first_seen_contains<A>(s: Seq<A>, x: A)
    ensures
        first_seen(s).contains(x) == s.contains(x),
    decreases s.len(),
{
    if s.len() > 0 {
        lemma_first_seen_contains(s.drop_last(), x);
        assert(s =~= s.drop_last().push(s.last()));
        assert(s.contains(x) == (s.drop_last().push(s.last())).contains(x));
    }
}

/// How many of the elements of `s` equal `t`.
pub open spec fn count_occ<A>(s: Seq<A>, t: A) -> nat
    decreases s.len(),
{
    if s.len() == 0 {
        0
    } else {
        count_occ(s.drop_last(), t) + (if s.last() == t {
            1nat
        } else {
            0nat
        })
    }
}

pub proof fn lemma_count_occ_le_len<A>(s: Seq<A>, t: A)
    ensures
        count_occ(s, t) <= s.len(),
    decreases s.len(),
{
    if s.len() > 0 {
        lemma_count_occ_le_len(s.drop_last(), t);
    }
}

/// No key occurs twice.
pub open spec fn distinct_keys(keys: Seq<Seq<char>>) -> bool {
    forall|i: int, j: int| 0 <= i < j < keys.len() ==> keys[i] != keys[j]
}

/// The position of `t` among `keys`.
pub open spec fn key_index(keys: Seq<Seq<char>>, t: Seq<char>) -> int {
    choose|i: int| 0 <= i < keys.len() && keys[i] == t
}

/// Among distinct keys, the position of a key is the position it is seen at.
pub proof fn lemma_key_index_of(keys: Seq<Seq<char>>, t: Seq<char>, i: int)
    requires
        distinct_keys(keys),
        0 <= i < keys.len(),
        keys[i] == t,
    ensures
        keys.contains(t),
        key_index(keys, t) == i,
{
    assert(keys.contains(t));
    let k = key_index(keys, t);
    assert(0 <= k < keys.len() && keys[k] == t);
    if k != i {
        assert(keys[k] == keys[i]);
        assert(false);
    }
}

/// Integer views of machine-sized ids.
pub open spec fn ids_view(v: Seq<usize>) -> Seq<int> {
    v.map_values(|u: usize| u as int)
}

pub proof fn lemma_ids_view_contains(v: Seq<usize>, x: usize)
    ensures
        v.contains(x) == ids_view(v).contains(x as int),
{
    if v.contains(x) {
        let i = choose|i: int| 0 <= i < v.len() && v[i] == x;
        assert(ids_view(v)[i] == x as int);
    }
    if ids_view(v).contains(x as int) {
        let i = choose|i: int| 0 <= i < ids_view(v).len() && ids_view(v)[i] == x as int;
        assert(v[i] == x);
    }
}

/// The ids, in ascending order, of the documents of `corpus` whose terms
/// include `t` under tokenizer `tok`.
pub open spec fn docs_with_term(tok: Tokenizer, corpus: Seq<Seq<char>>, t: Seq<char>) -> Seq<int>
    decreases corpus.len(),
{
    if corpus.len() == 0 {
        Seq::empty()
    } else {
        let pre = docs_with_term(tok, corpus.drop_last(), t);
        if tok.spec_tokens(corpus.last()).contains(t) {
            pre.push(corpus.len() - 1)
        } else {
            pre
        }
    }
}

/// Every id a corpus associates with a term is the id of one of its
/// documents.
pub proof fn lemma_docs_with_term_range(tok: Tokenizer, corpus: Seq<Seq<char>>, t: Seq<char>)
    ensures
        forall|k: int|
            0 <= k < docs_with_term(tok, corpus, t).len() ==> 0 <= #[trigger] docs_with_term(
                tok,
                corpus,
                t,
            )[k] < corpus.len(),
    decreases corpus.len(),
{
    if corpus.len() > 0 {
        lemma_docs_with_term_range(tok, corpus.drop_last(), t);
        let pre = docs_with_term(tok, corpus.drop_last(), t);
        let cur = docs_with_term(tok, corpus, t);
        assert forall|k: int| 0 <= k < cur.len() implies 0 <= #[trigger] cur[k] < corpus.len() by {
            if k < pre.len() {
                assert(cur[k] == pre[k]);
            }
        }
    }
}

/// The corpus truncated to the ingestion cap.
pub open spec fn capped(docs: Seq<Seq<char>>) -> Seq<Seq<char>> {
    if docs.len() <= MAX_DOCS {
        docs
    } else {
        docs.take(MAX_DOCS as int)
    }
}

} // verus!
