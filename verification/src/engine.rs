//! The query engine: one collection, its store and its index, kept aligned.
//!
//! A `Collection` pairs the record store (the source of truth) with the
//! similarity index.  Writes go to the store first, then to the index, so
//! the index always mirrors the store; searches run through the index and
//! hydrate each hit's payload from the store.  The standalone `hydrate`
//! step tolerates an id that the index knows and the store does not — such
//! a hit is skipped, never fatal — and the collection's invariant proves
//! that under normal operation nothing is ever skipped.

use vstd::prelude::*;

use crate::errors::IndexError;
use crate::index::{
    SimilarityIndex, QueryHit, contains_id, query_spec, remove_view, lemma_query_ids_in_entries,
};
use crate::metric::{Metric, MAX_DIMENSION, MAX_COMPONENT, vector_in_range};
use crate::store::{
    VectorStore, VectorRecord, store_contains_id, store_index_of_id, store_remove_view,
};

verus! {

/// The `(id, vector)` part of stored records: what the index sees.
pub open spec fn project_records(
    s: Seq<(u64, Seq<i64>, Seq<char>)>,
) -> Seq<(u64, Seq<i64>)> {
    s.map_values(|r: (u64, Seq<i64>, Seq<char>)| (r.0, r.1))
}

/// Removing an id commutes with projecting records down to index entries.
pub proof fn lemma_project_remove(s: Seq<(u64, Seq<i64>, Seq<char>)>, id: u64)
    ensures
        remove_view(project_records(s), id) == project_records(store_remove_view(s, id)),
    decreases s.len(),
{
    reveal(Seq::filter);
    if s.len() == 0 {
        assert(project_records(s) =~= Seq::<(u64, Seq<i64>)>::empty());
        assert(store_remove_view(s, id) =~= Seq::<(u64, Seq<i64>, Seq<char>)>::empty());
        assert(project_records(store_remove_view(s, id)) =~= Seq::<(u64, Seq<i64>)>::empty());
    } else {
        let front = s.drop_last();
        let e = s.last();
        lemma_project_remove(front, id);
        assert(project_records(s).drop_last() =~= project_records(front));
        assert(project_records(s).last() == (e.0, e.1));
        if e.0 != id {
            assert(store_remove_view(s, id) == store_remove_view(front, id).push(e));
            assert(project_records(store_remove_view(front, id).push(e)) =~= project_records(
                store_remove_view(front, id),
            ).push((e.0, e.1)));
            assert(remove_view(project_records(s), id) == remove_view(
                project_records(front),
                id,
            ).push((e.0, e.1)));
        } else {
            assert(store_remove_view(s, id) == store_remove_view(front, id));
            assert(remove_view(project_records(s), id) == remove_view(project_records(front), id));
        }
    }
}

/// One hydrated answer of a search: an id, its better-first score, and the
/// stored payload text.
pub struct SearchResult {
    /// The matching record's identifier.
    pub id: u64,
    /// The record's score against the query; greater is always better.
    pub score: i128,
    /// The matching record's content.
    pub payload: String,
}

impl View for SearchResult {
    type V = (u64, i128, Seq<char>);

    open spec fn view(&self) -> (u64, i128, Seq<char>) {
        (self.id, self.score, self.payload@)
    }
}

/// The mathematical contents of a result vector.
pub open spec fn results_view(rs: Seq<SearchResult>) -> Seq<(u64, i128, Seq<char>)> {
    rs.map_values(|r: SearchResult| r@)
}

/// What hydration returns: every hit whose id the store knows, in hit
/// order, with its payload attached; hits the store does not know are
/// skipped.
pub open spec fn hydrated_spec(
    hits: Seq<QueryHit>,
    s: Seq<(u64, Seq<i64>, Seq<char>)>,
) -> Seq<(u64, i128, Seq<char>)> {
    hits.filter(|h: QueryHit| store_contains_id(s, h.id)).map_values(
        |h: QueryHit| (h.id, h.score, s[store_index_of_id(s, h.id)].2),
    )
}

/// Hydrating no hits yields no results.
proof fn lemma_hydrated_empty(s: Seq<(u64, Seq<i64>, Seq<char>)>)
    ensures
        hydrated_spec(Seq::<QueryHit>::empty(), s) == Seq::<(u64, i128, Seq<char>)>::empty(),
{
    reveal(Seq::filter);
    assert(hydrated_spec(Seq::<QueryHit>::empty(), s) =~= Seq::<(u64, i128, Seq<char>)>::empty());
}

/// How one more hit changes hydration: appended with its payload when the
/// store knows the id, skipped when it does not.
proof fn lemma_hydrated_push(hits: Seq<QueryHit>, h: QueryHit, s: Seq<(u64, Seq<i64>, Seq<char>)>)
    ensures
        hydrated_spec(hits.push(h), s) == if store_contains_id(s, h.id) {
            hydrated_spec(hits, s).push((h.id, h.score, s[store_index_of_id(s, h.id)].2))
        } else {
            hydrated_spec(hits, s)
        },
{
    reveal(Seq::filter);
    let pred = |h2: QueryHit| store_contains_id(s, h2.id);
    assert(hits.push(h).drop_last() =~= hits);
    if store_contains_id(s, h.id) {
        assert(hits.push(h).filter(pred) == hits.filter(pred).push(h));
        assert(hydrated_spec(hits.push(h), s) =~= hydrated_spec(hits, s).push(
            (h.id, h.score, s[store_index_of_id(s, h.id)].2),
        ));
    }
}

/// When the store knows every hit's id, hydration skips nothing: the
/// results correspond to the hits one for one, in order, with the same
/// ids and scores.
pub proof fn lemma_hydrated_all_live(hits: Seq<QueryHit>, s: Seq<(u64, Seq<i64>, Seq<char>)>)
    requires
        forall|j: int| 0 <= j < hits.len() ==> store_contains_id(s, (#[trigger] hits[j]).id),
    ensures
        hydrated_spec(hits, s).len() == hits.len(),
        forall|j: int|
            0 <= j < hits.len() ==> (#[trigger] hydrated_spec(hits, s)[j]).0 == hits[j].id
                && hydrated_spec(hits, s)[j].1 == hits[j].score,
    decreases hits.len(),
{
    reveal(Seq::filter);
    if hits.len() > 0 {
        let front = hits.drop_last();
        assert(forall|j: int| 0 <= j < front.len() ==> (#[trigger] front[j]) == hits[j]);
        lemma_hydrated_all_live(front, s);
        lemma_hydrated_push(front, hits.last(), s);
        assert(front.push(hits.last()) =~= hits);
        assert forall|j: int| 0 <= j < hits.len() implies (#[trigger] hydrated_spec(
            hits,
            s,
        )[j]).0 == hits[j].id && hydrated_spec(hits, s)[j].1 == hits[j].score by {
            if j < hits.len() - 1 {
                assert(hydrated_spec(hits, s)[j] == hydrated_spec(front, s)[j]);
            }
        }
    }
}

/// Attach payloads to ranked hits.  A hit whose id the store does not know
/// — a consistency anomaly between an index and a store — is skipped, and
/// the rest of the results still come back.
pub fn hydrate(hits: &Vec<QueryHit>, store: &VectorStore) -> (out: Vec<SearchResult>)
    ensures
        results_view(out@) == hydrated_spec(hits@, store@),
{
    let n = hits.len();
    let mut out: Vec<SearchResult> = Vec::new();
    let mut i: usize = 0;
    proof {
        lemma_hydrated_empty(store@);
        assert(hits@.take(0) =~= Seq::<QueryHit>::empty());
        assert(results_view(out@) =~= Seq::<(u64, i128, Seq<char>)>::empty());
    }
    while i < n
        invariant
            n == hits@.len(),
            0 <= i <= n,
            results_view(out@) == hydrated_spec(hits@.take(i as int), store@),
        decreases n - i,
    {
        let h = hits[i];
        proof {
            assert(hits@.take(i as int + 1) =~= hits@.take(i as int).push(hits@[i as int]));
            lemma_hydrated_push(hits@.take(i as int), hits@[i as int], store@);
        }
        match store.get(h.id) {
            Some(rec) => {
                let payload = rec.payload.clone();
                out.push(SearchResult { id: h.id, score: h.score, payload });
                proof {
                    assert(results_view(out@) =~= hydrated_spec(hits@.take(i as int + 1), store@));
                }
            },
            None => {},
        }
        i = i + 1;
    }
    proof {
        assert(hits@.take(n as int) =~= hits@);
    }
    out
}

/// An exec copy of a vector of components.
fn copy_vector(v: &Vec<i64>) -> (r: Vec<i64>)
    ensures
        r@ == v@,
{
    let n = v.len();
    let mut r: Vec<i64> = Vec::new();
    let mut i: usize = 0;
    while i < n
        invariant
            n == v@.len(),
            0 <= i <= n,
            r@ == v@.take(i as int),
        decreases n - i,
    {
        r.push(v[i]);
        proof {
            assert(v@.take(i as int + 1) =~= v@.take(i as int).push(v@[i as int]));
        }
        i = i + 1;
    }
    proof {
        assert(v@.take(n as int) =~= v@);
    }
    r
}

/// Decide whether every component of a vector is within the fixed-point
/// range the library accepts.
pub fn vector_range_ok(v: &Vec<i64>) -> (r: bool)
    ensures
        r == vector_in_range(v@),
{
    let n = v.len();
    let mut i: usize = 0;
    while i < n
        invariant
            n == v@.len(),
            0 <= i <= n,
            forall|j: int| 0 <= j < i ==> crate::metric::component_in_range(#[trigger] v@[j]),
        decreases n - i,
    {
        let c = v[i];
        if c < -MAX_COMPONENT || c > MAX_COMPONENT {
            return false;
        }
        i = i + 1;
    }
    true
}

/// One named collection's worth of state: the record store and the
/// similarity index over it, never out of step.
///
/// The view is the store's view — the sequence of `(id, vector, payload)`
/// triples — and the invariant says the index holds exactly the store's
/// `(id, vector)` pairs, in the same order.
pub struct Collection {
    store: VectorStore,
    index: SimilarityIndex,
}

impl View for Collection {
    type V = Seq<(u64, Seq<i64>, Seq<char>)>;

    closed spec fn view(&self) -> Seq<(u64, Seq<i64>, Seq<char>)> {
        self.store@
    }
}

impl Collection {
    /// The collection's dimension.
    pub closed spec fn spec_dim(&self) -> int {
        self.store.spec_dim()
    }

    /// The collection's metric.
    pub closed spec fn spec_metric(&self) -> Metric {
        self.index.spec_metric()
    }

    /// The collection's invariant: store and index are each well formed,
    /// agree on the dimension, and the index mirrors the store exactly.
    pub closed spec fn wf(&self) -> bool {
        &&& self.store.wf()
        &&& self.index.wf()
        &&& self.index.spec_dim() == self.store.spec_dim()
        &&& self.index@ == project_records(self.store@)
    }

    /// A well-formed collection's records are valid and its dimension
    /// admissible.
    pub proof fn lemma_wf_records(&self)
        requires
            self.wf(),
        ensures
            crate::store::valid_records(self@, self.spec_dim()),
            self.spec_dim() <= MAX_DIMENSION,
    {
    }

    /// An empty collection with the given dimension and metric.  Creation
    /// is idempotent at the caller: an existing collection is never
    /// implicitly replaced.
    pub fn new(dimension: usize, metric: Metric) -> (c: Collection)
        requires
            dimension <= MAX_DIMENSION,
        ensures
            c.wf(),
            c@ == Seq::<(u64, Seq<i64>, Seq<char>)>::empty(),
            c.spec_dim() == dimension,
            c.spec_metric() == metric,
    {
        let c = Collection {
            store: VectorStore::new(dimension),
            index: SimilarityIndex::new(dimension, metric),
        };
        proof {
            assert(project_records(c.store@) =~= Seq::<(u64, Seq<i64>)>::empty());
        }
        c
    }

    /// The configured dimension.
    pub fn dimension(&self) -> (d: usize)
        ensures
            d as int == self.spec_dim(),
    {
        self.store.dimension()
    }

    /// The configured metric.
    pub fn metric(&self) -> (m: Metric)
        ensures
            m == self.spec_metric(),
    {
        self.index.metric()
    }

    /// How many live records the collection holds.
    pub fn count(&self) -> (n: usize)
        ensures
            n == self@.len(),
    {
        self.store.count()
    }

    /// Look a record up by id.
    pub fn get(&self, id: u64) -> (r: Option<&VectorRecord>)
        ensures
            match r {
                Some(rec) => {
                    &&& store_contains_id(self@, id)
                    &&& rec@ == self@[store_index_of_id(self@, id)]
                    &&& rec.id == id
                },
                None => !store_contains_id(self@, id),
            },
    {
        self.store.get(id)
    }

    /// Insert one record: durably into the store first, then into the
    /// index, so that the store is always the source of truth and the
    /// index is always rebuildable from it.  Rejects a wrong-length vector
    /// with `DimensionMismatch` and a stored id with `DuplicateId`,
    /// leaving the collection unchanged either way.
    pub fn insert(&mut self, record: VectorRecord) -> (r: Result<(), IndexError>)
        requires
            old(self).wf(),
            vector_in_range(record.vector@),
        ensures
            final(self).wf(),
            final(self).spec_dim() == old(self).spec_dim(),
            final(self).spec_metric() == old(self).spec_metric(),
            record.vector@.len() != old(self).spec_dim() ==> r == Err::<(), IndexError>(
                IndexError::DimensionMismatch,
            ) && final(self)@ == old(self)@,
            record.vector@.len() == old(self).spec_dim() && store_contains_id(
                old(self)@,
                record.id,
            ) ==> r == Err::<(), IndexError>(IndexError::DuplicateId) && final(self)@ == old(
                self,
            )@,
            record.vector@.len() == old(self).spec_dim() && !store_contains_id(
                old(self)@,
                record.id,
            ) ==> r == Ok::<(), IndexError>(()) && final(self)@ == old(self)@.push(record@),
    {
        let id = record.id;
        let ghost rv = record@;
        let vector_copy = copy_vector(&record.vector);
        match self.store.insert(record) {
            Ok(()) => {
                proof {
                    if contains_id(self.index@, id) {
                        let w = choose|i: int|
                            0 <= i < self.index@.len() && self.index@[i].0 == id;
                        assert(old(self)@[w].0 == id);
                        assert(store_contains_id(old(self)@, id));
                    }
                }
                let _ = self.index.add(id, vector_copy);
                proof {
                    assert(project_records(old(self)@.push(rv)) =~= project_records(
                        old(self)@,
                    ).push((rv.0, rv.1)));
                }
                Ok(())
            },
            Err(e) => Err(e),
        }
    }

    /// Remove one record from the store and the index.  Removing an
    /// absent id reports `NotFound` and changes nothing; removing twice
    /// therefore has the same observable effect as removing once.
    pub fn remove(&mut self, id: u64) -> (r: Result<(), IndexError>)
        requires
            old(self).wf(),
        ensures
            final(self).wf(),
            final(self).spec_dim() == old(self).spec_dim(),
            final(self).spec_metric() == old(self).spec_metric(),
            store_contains_id(old(self)@, id) ==> r == Ok::<(), IndexError>(()) && final(self)@
                == store_remove_view(old(self)@, id),
            !store_contains_id(old(self)@, id) ==> r == Err::<(), IndexError>(
                IndexError::NotFound,
            ) && final(self)@ == old(self)@,
    {
        match self.store.delete(id) {
            Ok(()) => {
                proof {
                    let w = choose|i: int| 0 <= i < old(self)@.len() && old(self)@[i].0 == id;
                    assert(project_records(old(self)@)[w].0 == id);
                    assert(contains_id(self.index@, id));
                }
                let _ = self.index.remove(id);
                proof {
                    lemma_project_remove(old(self)@, id);
                }
                Ok(())
            },
            Err(e) => {
                proof {
                    if contains_id(self.index@, id) {
                        let w = choose|i: int|
                            0 <= i < self.index@.len() && self.index@[i].0 == id;
                        assert(old(self)@[w].0 == id);
                    }
                }
                Err(e)
            },
        }
    }

    /// Search the collection: rank the stored vectors against the query,
    /// keep the best `k` that pass the threshold, and attach each hit's
    /// payload.  Under the collection invariant no hit is ever skipped,
    /// so exactly the ranked hits come back, hydrated, in order.
    pub fn search(&self, q: &Vec<i64>, k: usize, threshold: Option<i128>) -> (r: Result<
        Vec<SearchResult>,
        IndexError,
    >)
        requires
            self.wf(),
            vector_in_range(q@),
        ensures
            q@.len() == self.spec_dim() ==> (r matches Ok(results) && {
                let hits = query_spec(
                    project_records(self@),
                    self.spec_metric(),
                    q@,
                    k as int,
                    threshold,
                );
                &&& results_view(results@) == hydrated_spec(hits, self@)
                &&& results@.len() == hits.len()
                &&& forall|i: int|
                    0 <= i < results@.len() ==> (#[trigger] results@[i]).id == hits[i].id
                        && results@[i].score == hits[i].score
            }),
            q@.len() != self.spec_dim() ==> r == Err::<Vec<SearchResult>, IndexError>(
                IndexError::DimensionMismatch,
            ),
    {
        match self.index.query(q, k, threshold) {
            Ok(hits) => {
                let out = hydrate(&hits, &self.store);
                proof {
                    let ghost_hits = query_spec(
                        project_records(self@),
                        self.spec_metric(),
                        q@,
                        k as int,
                        threshold,
                    );
                    lemma_query_ids_in_entries(
                        project_records(self@),
                        self.spec_metric(),
                        q@,
                        k as int,
                        threshold,
                    );
                    assert forall|j: int| 0 <= j < hits@.len() implies store_contains_id(
                        self@,
                        (#[trigger] hits@[j]).id,
                    ) by {
                        assert(ghost_hits.contains(hits@[j]));
                        assert(contains_id(project_records(self@), hits@[j].id));
                        let w = choose|i: int|
                            0 <= i < project_records(self@).len() && project_records(
                                self@,
                            )[i].0 == hits@[j].id;
                        assert(self@[w].0 == hits@[j].id);
                    }
                    lemma_hydrated_all_live(hits@, self@);
                    assert(out@.len() == results_view(out@).len());
                    assert forall|i: int| 0 <= i < out@.len() implies (#[trigger] out@[i]).id
                        == ghost_hits[i].id && out@[i].score == ghost_hits[i].score by {
                        assert(results_view(out@)[i] == out@[i]@);
                        assert(hydrated_spec(ghost_hits, self@)[i].0 == ghost_hits[i].id);
                    }
                }
                Ok(out)
            },
            Err(e) => Err(e),
        }
    }
}

/// The request to create one document: the content to store.  The caller
/// hands the embedding alongside, since embedding generation is an
/// external collaborator of the library.
pub struct Create {
    /// The text to store.
    pub content: String,
}

impl Collection {
    /// Create one document: store the content under the given id with the
    /// given embedding.  Exactly `insert`, phrased as the create request.
    pub fn create(&mut self, id: u64, vector: Vec<i64>, request: Create) -> (r: Result<
        (),
        IndexError,
    >)
        requires
            old(self).wf(),
            vector_in_range(vector@),
        ensures
            final(self).wf(),
            final(self).spec_dim() == old(self).spec_dim(),
            final(self).spec_metric() == old(self).spec_metric(),
            vector@.len() != old(self).spec_dim() ==> r == Err::<(), IndexError>(
                IndexError::DimensionMismatch,
            ) && final(self)@ == old(self)@,
            vector@.len() == old(self).spec_dim() && store_contains_id(old(self)@, id) ==> r
                == Err::<(), IndexError>(IndexError::DuplicateId) && final(self)@ == old(self)@,
            vector@.len() == old(self).spec_dim() && !store_contains_id(old(self)@, id) ==> r
                == Ok::<(), IndexError>(()) && final(self)@ == old(self)@.push(
                (id, vector@, request.content@),
            ),
    {
        self.insert(VectorRecord { id, vector, payload: request.content })
    }
}

/// What a best-effort rebuild accepts: each record in scan order whose
/// vector has the right length and in-range components and whose id has
/// not been accepted already.
pub open spec fn rebuild_accepted(
    rs: Seq<(u64, Seq<i64>, Seq<char>)>,
    dim: int,
) -> Seq<(u64, Seq<i64>, Seq<char>)>
    decreases rs.len(),
{
    if rs.len() == 0 {
        Seq::empty()
    } else {
        let acc = rebuild_accepted(rs.drop_last(), dim);
        let r = rs.last();
        if r.1.len() == dim && vector_in_range(r.1) && !store_contains_id(acc, r.0) {
            acc.push(r)
        } else {
            acc
        }
    }
}

/// The ids a best-effort rebuild skips, in scan order.
pub open spec fn rebuild_skipped(rs: Seq<(u64, Seq<i64>, Seq<char>)>, dim: int) -> Seq<u64>
    decreases rs.len(),
{
    if rs.len() == 0 {
        Seq::empty()
    } else {
        let acc = rebuild_accepted(rs.drop_last(), dim);
        let skip = rebuild_skipped(rs.drop_last(), dim);
        let r = rs.last();
        if r.1.len() == dim && vector_in_range(r.1) && !store_contains_id(acc, r.0) {
            skip
        } else {
            skip.push(r.0)
        }
    }
}

/// Rebuild a collection from a full scan of stored records, best-effort:
/// a record whose vector has the wrong length or out-of-range components,
/// or whose id was already accepted, is skipped and reported, and the
/// rebuild continues for all other records.
pub fn rebuild(dimension: usize, metric: Metric, records: &Vec<VectorRecord>) -> (r: (
    Collection,
    Vec<u64>,
))
    requires
        dimension <= MAX_DIMENSION,
    ensures
        r.0.wf(),
        r.0.spec_dim() == dimension,
        r.0.spec_metric() == metric,
        r.0@ == rebuild_accepted(crate::store::records_view(records@), dimension as int),
        r.1@ == rebuild_skipped(crate::store::records_view(records@), dimension as int),
{
    let ghost all = crate::store::records_view(records@);
    let n = records.len();
    let mut c = Collection::new(dimension, metric);
    let mut skipped: Vec<u64> = Vec::new();
    let mut i: usize = 0;
    proof {
        assert(all.take(0) =~= Seq::<(u64, Seq<i64>, Seq<char>)>::empty());
        assert(c@ =~= rebuild_accepted(all.take(0), dimension as int));
        assert(skipped@ =~= rebuild_skipped(all.take(0), dimension as int));
    }
    while i < n
        invariant
            n == records@.len(),
            all == crate::store::records_view(records@),
            0 <= i <= n,
            c.wf(),
            c.spec_dim() == dimension,
            c.spec_metric() == metric,
            dimension <= MAX_DIMENSION,
            c@ == rebuild_accepted(all.take(i as int), dimension as int),
            skipped@ == rebuild_skipped(all.take(i as int), dimension as int),
        decreases n - i,
    {
        let rec = &records[i];
        proof {
            assert(all[i as int] == rec@);
            assert(all.take(i as int + 1).drop_last() =~= all.take(i as int));
            assert(all.take(i as int + 1).last() == all[i as int]);
        }
        if !vector_range_ok(&rec.vector) {
            skipped.push(rec.id);
        } else {
            let copy = VectorRecord {
                id: rec.id,
                vector: copy_vector(&rec.vector),
                payload: rec.payload.clone(),
            };
            match c.insert(copy) {
                Ok(()) => {},
                Err(_) => {
                    skipped.push(rec.id);
                },
            }
        }
        i = i + 1;
    }
    proof {
        assert(all.take(n as int) =~= all);
    }
    (c, skipped)
}

} // verus!
