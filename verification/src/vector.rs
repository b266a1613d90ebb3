//! The in-memory vector store: entries keyed by id, each a vector with a payload.
//! Vectors are held by the bit patterns of their `f32` coordinates; similarity search
//! over them is floating-point work that the caller does over `entries`.

use vstd::prelude::*;
use crate::assoc::{keys_unique, assoc_map, lemma_assoc_update, lemma_assoc_push, lemma_assoc_contains, lemma_assoc_remove, lemma_assoc_len, find_key};

verus! {

/// One stored vector.
#[derive(Debug)]
pub struct VectorEntry {
    pub id: String,
    /// The coordinates (`f32`), by their bit patterns.
    pub vector: Vec<u32>,
    pub payload: serde_json::Value,
}

/// What the store holds for an id: the vector's coordinates and the payload.
pub type StoredVector = (Seq<u32>, serde_json::Value);

/// The entries of the store, abstracted.
pub open spec fn vector_entries(r: Seq<(String, VectorEntry)>) -> Seq<(Seq<char>, StoredVector)> {
    Seq::new(r.len(), |i: int| (r[i].0@, (r[i].1.vector@, r[i].1.payload)))
}

/// Vectors keyed by id.
pub struct MemoryVectorStore {
    entries: Vec<(String, VectorEntry)>,
}

impl View for MemoryVectorStore {
    type V = Map<Seq<char>, StoredVector>;

    closed spec fn view(&self) -> Map<Seq<char>, StoredVector> {
        assoc_map(vector_entries(self.entries@))
    }
}

impl MemoryVectorStore {
    /// One entry per id, each knowing its id.
    pub closed spec fn wf(&self) -> bool {
        &&& keys_unique(vector_entries(self.entries@))
        &&& forall|i: int| 0 <= i < self.entries@.len() ==> (#[trigger] self.entries@[i]).1.id@ == self.entries@[i].0@
    }

    /// An empty store.
    pub fn new() -> (r: Self)
        ensures
            r.wf(),
            r@ == Map::<Seq<char>, StoredVector>::empty(),
    {
        let r = MemoryVectorStore { entries: Vec::new() };
        assert(vector_entries(r.entries@) =~= Seq::<(Seq<char>, StoredVector)>::empty());
        r
    }

    /// Stores `vector` and `payload` under `id`, replacing what was stored there.
    pub fn upsert(&mut self, id: &str, vector: Vec<u32>, payload: serde_json::Value)
        requires
            old(self).wf(),
        ensures
            final(self).wf(),
            final(self)@ == old(self)@.insert(id@, (vector@, payload)),
    {
        let key = id.to_owned();
        let ghost s = vector_entries(self.entries@);
        let ghost val: StoredVector = (vector@, payload);
        let entry = VectorEntry { id: id.to_owned(), vector, payload };
        match find_key(&self.entries, &key) {
            Some(i) => {
                proof {
                    lemma_assoc_update(s, i as int, val);
                }
                self.entries.set(i, (key, entry));
                assert(vector_entries(self.entries@) =~= s.update(i as int, (s[i as int].0, val)));
            }
            None => {
                proof {
                    assert forall|j: int| 0 <= j < s.len() implies #[trigger] s[j].0 != id@ by {
                        assert(self.entries@[j].0@ != key@);
                    }
                    lemma_assoc_push(s, id@, val);
                }
                self.entries.push((key, entry));
                assert(vector_entries(self.entries@) =~= s.push((id@, val)));
            }
        }
    }

    /// Removes what is stored under `id`, if anything.
    pub fn delete(&mut self, id: &str)
        requires
            old(self).wf(),
        ensures
            final(self).wf(),
            final(self)@ == old(self)@.remove(id@),
    {
        let key = id.to_owned();
        let ghost s = vector_entries(self.entries@);
        match find_key(&self.entries, &key) {
            Some(i) => {
                proof {
                    lemma_assoc_remove(s, i as int);
                }
                let ghost before = self.entries@;
                self.entries.remove(i);
                assert(vector_entries(self.entries@) =~= s.remove(i as int));
                assert forall|j: int| 0 <= j < self.entries@.len() implies (#[trigger] self.entries@[j]).1.id@ == self.entries@[j].0@ by {
                    if j < i {
                        assert(self.entries@[j] == before[j]);
                    } else {
                        assert(self.entries@[j] == before[j + 1]);
                    }
                }
            }
            None => {
                proof {
                    lemma_assoc_contains(s, id@);
                    if self@.contains_key(id@) {
                        let j = choose|j: int| 0 <= j < s.len() && #[trigger] s[j].0 == id@;
                        assert(self.entries@[j].0@ != key@);
                    }
                    assert(self@.remove(id@) =~= self@);
                }
            }
        }
    }

    /// Number of stored vectors.
    pub fn count(&self) -> (r: usize)
        requires
            self.wf(),
        ensures
            r == self@.dom().len(),
    {
        proof {
            lemma_assoc_len(vector_entries(self.entries@));
        }
        self.entries.len()
    }

    /// The stored entries, each with its id, in insertion order.
    pub fn entries(&self) -> (r: &Vec<(String, VectorEntry)>)
        requires
            self.wf(),
        ensures
            keys_unique(vector_entries(r@)),
            assoc_map(vector_entries(r@)) == self@,
            forall|i: int| 0 <= i < r@.len() ==> (#[trigger] r@[i]).1.id@ == r@[i].0@,
    {
        &self.entries
    }
}

/// Storing under a new id adds one vector, storing under a known id keeps the count;
/// a stored vector is what was stored last; deleting leaves nothing under the id.
pub proof fn law_upsert_and_delete(m: Map<Seq<char>, StoredVector>, id: Seq<char>, v: StoredVector)
    requires
        m.dom().finite(),
    ensures
        m.insert(id, v).dom().len() == m.dom().len() + if m.contains_key(id) { 0nat } else { 1nat },
        m.insert(id, v)[id] == v,
        !m.remove(id).contains_key(id),
        m.remove(id).dom().len() == m.dom().len() - if m.contains_key(id) { 1int } else { 0int },
{
    if m.contains_key(id) {
        assert(m.insert(id, v).dom() =~= m.dom());
    } else {
        assert(m.remove(id).dom() =~= m.dom());
    }
}

} // verus!
