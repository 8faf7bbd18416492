//! The record store: the durable side of a collection.
//!
//! It holds `(id, vector, payload)` triples, rejects duplicate ids and
//! wrong-length vectors at insert time, and can be scanned in full so that
//! the similarity index is always rebuildable from it.

use vstd::prelude::*;

use crate::errors::IndexError;
use crate::metric::{MAX_DIMENSION, vector_in_range};

verus! {

/// One stored document: a stable id, its fixed-point embedding vector, and
/// the opaque payload text it stands for.
pub struct VectorRecord {
    /// The record's stable unique identifier.
    pub id: u64,
    /// The record's fixed-point embedding vector.
    pub vector: Vec<i64>,
    /// The associated content.
    pub payload: String,
}

impl View for VectorRecord {
    type V = (u64, Seq<i64>, Seq<char>);

    open spec fn view(&self) -> (u64, Seq<i64>, Seq<char>) {
        (self.id, self.vector@, self.payload@)
    }
}

/// The mathematical contents of a record vector.
pub open spec fn records_view(rs: Seq<VectorRecord>) -> Seq<(u64, Seq<i64>, Seq<char>)> {
    rs.map_values(|r: VectorRecord| r@)
}

/// Some stored record carries this id.
pub open spec fn store_contains_id(s: Seq<(u64, Seq<i64>, Seq<char>)>, id: u64) -> bool {
    exists|i: int| 0 <= i < s.len() && s[i].0 == id
}

/// The position of the first record carrying this id, or `-1` if none does.
pub open spec fn store_index_of_id(s: Seq<(u64, Seq<i64>, Seq<char>)>, id: u64) -> int
    decreases s.len(),
{
    if s.len() == 0 {
        -1
    } else if s[0].0 == id {
        0
    } else {
        let r = store_index_of_id(s.drop_first(), id);
        if r == -1 {
            -1
        } else {
            r + 1
        }
    }
}

/// `store_index_of_id` finds exactly the first record with the id, and
/// `-1` means no record has it.
pub proof fn lemma_store_index_of_id(s: Seq<(u64, Seq<i64>, Seq<char>)>, id: u64)
    ensures
        store_contains_id(s, id) ==> {
            let ix = store_index_of_id(s, id);
            &&& 0 <= ix < s.len()
            &&& s[ix].0 == id
            &&& forall|j: int| 0 <= j < ix ==> (#[trigger] s[j]).0 != id
        },
        !store_contains_id(s, id) ==> store_index_of_id(s, id) == -1,
    decreases s.len(),
{
    if s.len() > 0 && s[0].0 != id {
        let rest = s.drop_first();
        lemma_store_index_of_id(rest, id);
        if store_contains_id(s, id) {
            let w = choose|i: int| 0 <= i < s.len() && s[i].0 == id;
            assert(rest[w - 1].0 == id);
            assert(store_contains_id(rest, id));
            let rx = store_index_of_id(rest, id);
            let ix = store_index_of_id(s, id);
            assert(ix == rx + 1);
            assert(s[ix] == rest[rx]);
            assert forall|j: int| 0 <= j < ix implies (#[trigger] s[j]).0 != id by {
                if j > 0 {
                    assert(s[j] == rest[j - 1]);
                }
            }
        } else {
            assert(!store_contains_id(rest, id)) by {
                if store_contains_id(rest, id) {
                    let w = choose|i: int| 0 <= i < rest.len() && rest[i].0 == id;
                    assert(s[w + 1].0 == id);
                }
            }
        }
    }
}

/// The state after a delete of `id`: every record but the deleted one, in
/// their original order.
pub open spec fn store_remove_view(
    s: Seq<(u64, Seq<i64>, Seq<char>)>,
    id: u64,
) -> Seq<(u64, Seq<i64>, Seq<char>)> {
    s.filter(|r: (u64, Seq<i64>, Seq<char>)| r.0 != id)
}

/// Deleting an id that no record carries leaves the store unchanged.
pub proof fn lemma_store_remove_view_absent(s: Seq<(u64, Seq<i64>, Seq<char>)>, id: u64)
    requires
        forall|j: int| 0 <= j < s.len() ==> (#[trigger] s[j]).0 != id,
    ensures
        store_remove_view(s, id) == s,
    decreases s.len(),
{
    reveal(Seq::filter);
    if s.len() > 0 {
        lemma_store_remove_view_absent(s.drop_last(), id);
        assert(s.drop_last().push(s.last()) =~= s);
    }
}

/// Removing the only record that carries `id` is exactly the id filter.
proof fn lemma_store_remove_is_filter(s: Seq<(u64, Seq<i64>, Seq<char>)>, i: int, id: u64)
    requires
        0 <= i < s.len(),
        s[i].0 == id,
        forall|j: int| 0 <= j < s.len() && j != i ==> (#[trigger] s[j]).0 != id,
    ensures
        s.remove(i) == store_remove_view(s, id),
    decreases s.len(),
{
    reveal(Seq::filter);
    if i == s.len() - 1 {
        lemma_store_remove_view_absent(s.drop_last(), id);
        assert(s.remove(i) =~= s.drop_last());
    } else {
        lemma_store_remove_is_filter(s.drop_last(), i, id);
        assert(s.remove(i) =~= s.drop_last().remove(i).push(s.last()));
        assert(store_remove_view(s, id) == store_remove_view(s.drop_last(), id).push(s.last()));
    }
}

/// The well-formedness of a record sequence: every vector has the
/// collection's dimension and in-range components, and ids are unique.
pub open spec fn valid_records(s: Seq<(u64, Seq<i64>, Seq<char>)>, dim: int) -> bool {
    &&& forall|i: int|
        0 <= i < s.len() ==> (#[trigger] s[i]).1.len() == dim && vector_in_range(s[i].1)
    &&& forall|i: int, j: int|
        0 <= i < j < s.len() ==> (#[trigger] s[i]).0 != (#[trigger] s[j]).0
}

/// The store of live records of one collection.
///
/// The view is the sequence of `(id, vector, payload)` triples in insertion
/// order; every operation's contract is stated over that view.
pub struct VectorStore {
    dim: usize,
    records: Vec<VectorRecord>,
}

impl View for VectorStore {
    type V = Seq<(u64, Seq<i64>, Seq<char>)>;

    closed spec fn view(&self) -> Seq<(u64, Seq<i64>, Seq<char>)> {
        records_view(self.records@)
    }
}

impl VectorStore {
    /// The collection's dimension.
    pub closed spec fn spec_dim(&self) -> int {
        self.dim as int
    }

    /// The store's internal invariant.
    pub open spec fn wf(&self) -> bool {
        &&& self.spec_dim() <= MAX_DIMENSION
        &&& valid_records(self@, self.spec_dim())
    }

    /// An empty store over vectors of the given dimension.
    pub fn new(dimension: usize) -> (s: VectorStore)
        requires
            dimension <= MAX_DIMENSION,
        ensures
            s.wf(),
            s@ == Seq::<(u64, Seq<i64>, Seq<char>)>::empty(),
            s.spec_dim() == dimension,
    {
        let s = VectorStore { dim: dimension, records: Vec::new() };
        proof {
            assert(s@ =~= Seq::<(u64, Seq<i64>, Seq<char>)>::empty());
        }
        s
    }

    /// The configured dimension.
    pub fn dimension(&self) -> (d: usize)
        ensures
            d as int == self.spec_dim(),
    {
        self.dim
    }

    /// How many live records the store holds.
    pub fn count(&self) -> (n: usize)
        ensures
            n == self@.len(),
    {
        self.records.len()
    }

    /// Where the record with this id sits, if anywhere.
    fn find_record(&self, id: u64) -> (r: Option<usize>)
        ensures
            match r {
                Some(i) => {
                    &&& i < self@.len()
                    &&& self@[i as int].0 == id
                    &&& i as int == store_index_of_id(self@, id)
                },
                None => !store_contains_id(self@, id),
            },
    {
        let n = self.records.len();
        let mut i: usize = 0;
        while i < n
            invariant
                n == self@.len(),
                0 <= i <= n,
                forall|j: int| 0 <= j < i ==> (#[trigger] self@[j]).0 != id,
            decreases n - i,
        {
            if self.records[i].id == id {
                proof {
                    assert(self@[i as int].0 == id);
                    assert(store_contains_id(self@, id));
                    lemma_store_index_of_id(self@, id);
                    let ix = store_index_of_id(self@, id);
                    if ix < i as int {
                        assert(self@[ix].0 != id);
                    }
                    if ix > i as int {
                        assert(self@[i as int].0 != id);
                    }
                }
                return Some(i);
            }
            i = i + 1;
        }
        proof {
            if store_contains_id(self@, id) {
                let w = choose|j: int| 0 <= j < self@.len() && self@[j].0 == id;
                assert(self@[w].0 != id);
            }
        }
        None
    }

    /// Durably insert one record.
    ///
    /// A vector of the wrong length is rejected with `DimensionMismatch`;
    /// an id that is already stored is rejected with `DuplicateId`.  In
    /// either case the store is unchanged.
    pub fn insert(&mut self, record: VectorRecord) -> (r: Result<(), IndexError>)
        requires
            old(self).wf(),
            vector_in_range(record.vector@),
        ensures
            final(self).wf(),
            final(self).spec_dim() == old(self).spec_dim(),
            record.vector@.len() != old(self).spec_dim() ==> r == Err::<(), IndexError>(
                IndexError::DimensionMismatch,
            ) && final(self)@ == old(self)@,
            record.vector@.len() == old(self).spec_dim() && store_contains_id(
                old(self)@,
                record.id,
            ) ==> r == Err::<(), IndexError>(IndexError::DuplicateId) && final(self)@ == old(
                self,
            )@,
            record.vector@.len() == old(self).spec_dim() && !store_contains_id(
                old(self)@,
                record.id,
            ) ==> r == Ok::<(), IndexError>(()) && final(self)@ == old(self)@.push(record@),
    {
        if record.vector.len() != self.dim {
            return Err(IndexError::DimensionMismatch);
        }
        match self.find_record(record.id) {
            Some(_) => Err(IndexError::DuplicateId),
            None => {
                let ghost rv = record@;
                self.records.push(record);
                proof {
                    assert(self@ =~= old(self)@.push(rv));
                }
                Ok(())
            },
        }
    }

    /// Look a record up by id.
    pub fn get(&self, id: u64) -> (r: Option<&VectorRecord>)
        ensures
            match r {
                Some(rec) => {
                    &&& store_contains_id(self@, id)
                    &&& rec@ == self@[store_index_of_id(self@, id)]
                    &&& rec.id == id
                },
                None => !store_contains_id(self@, id),
            },
    {
        match self.find_record(id) {
            Some(i) => Some(&self.records[i]),
            None => None,
        }
    }

    /// Delete the record stored under this id.  Deleting an absent id
    /// reports `NotFound` and leaves the store unchanged.
    pub fn delete(&mut self, id: u64) -> (r: Result<(), IndexError>)
        requires
            old(self).wf(),
        ensures
            final(self).wf(),
            final(self).spec_dim() == old(self).spec_dim(),
            store_contains_id(old(self)@, id) ==> r == Ok::<(), IndexError>(()) && final(self)@
                == store_remove_view(old(self)@, id),
            !store_contains_id(old(self)@, id) ==> r == Err::<(), IndexError>(
                IndexError::NotFound,
            ) && final(self)@ == old(self)@,
    {
        match self.find_record(id) {
            Some(i) => {
                self.records.remove(i);
                proof {
                    assert(self@ =~= old(self)@.remove(i as int));
                    lemma_store_remove_is_filter(old(self)@, i as int, id);
                }
                Ok(())
            },
            None => Err(IndexError::NotFound),
        }
    }

    /// Scan the live records, in insertion order.  The borrowed slice is a
    /// finite, restartable view of the whole store, used to rebuild the
    /// similarity index.
    pub fn scan(&self) -> (r: &Vec<VectorRecord>)
        ensures
            records_view(r@) == self@,
    {
        &self.records
    }
}

} // verus!
