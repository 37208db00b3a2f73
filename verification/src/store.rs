//! The document store: owns the corpus and assigns each record a stable,
//! dense, zero-based identifier in ingestion order.

use vstd::prelude::*;

verus! {

/// Holds the ingested documents. A document's id is its zero-based position
/// in ingestion order; ids are dense and never reused within a session.
pub struct DocStore {
    docs: Vec<String>,
}

impl DocStore {
    /// The corpus as a sequence of texts; the id of a document is its index.
    pub closed spec fn docs_view(self) -> Seq<Seq<char>> {
        self.docs@.map_values(|t: String| t@)
    }

    /// An empty store.
    pub fn new() -> (r: Self)
        ensures
            r.docs_view() == Seq::<Seq<char>>::empty(),
    {
        let r = DocStore { docs: Vec::new() };
        proof {
            assert(r.docs_view() =~= Seq::<Seq<char>>::empty());
        }
        r
    }

    /// How many documents have been ingested.
    pub fn len(&self) -> (n: usize)
        ensures
            n == self.docs_view().len(),
    {
        self.docs.len()
    }

    /// Ingests a document and returns its id: the next sequential one,
    /// equal to the number of documents ingested before it.
    pub fn add(&mut self, text: String) -> (id: usize)
        ensures
            id == old(self).docs_view().len(),
            final(self).docs_view() == old(self).docs_view().push(text@),
    {
        let id = self.docs.len();
        self.docs.push(text);
        proof {
            assert(self.docs_view() =~= old(self).docs_view().push(self.docs@.last()@));
        }
        id
    }

    /// Returns the text stored under `id`, or absence for an id that was
    /// never assigned. Absence is not an error.
    pub fn get(&self, id: usize) -> (r: Option<&String>)
        ensures
            id < self.docs_view().len() ==> (r matches Some(t) && t@ == self.docs_view()[id as int]),
            id >= self.docs_view().len() ==> r is None,
    {
        if id < self.docs.len() {
            Some(&self.docs[id])
        } else {
            None
        }
    }
}

} // verus!
