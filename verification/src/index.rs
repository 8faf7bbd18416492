//! The similarity index: incremental insert, logical removal, and exact
//! top-k search.
//!
//! The index is a brute-force linear scan — the simplest correct baseline,
//! and the one this crate proves exact.  The whole query pipeline is pinned
//! down by one specification: score every entry, drop the ones that miss the
//! threshold, rank the rest best-first (ties broken by ascending id), and
//! truncate to `k`.

use vstd::prelude::*;
use vstd::relations::{sorted_by, total_ordering};
use vstd::seq_lib::lemma_sorted_unique;
use vstd::seq_lib::group_to_multiset_ensures;

use crate::errors::IndexError;
use crate::metric::{Metric, MAX_DIMENSION, vector_in_range, goodness, score};

verus! {

/// One indexed vector.  Owned exclusively by the index.
pub struct IndexEntry {
    /// The record's stable identifier.
    pub id: u64,
    /// The record's fixed-point embedding vector.
    pub vector: Vec<i64>,
}

/// One ranked answer of a query: an id and its better-first score.
#[derive(Clone, Copy, Debug, PartialEq, Eq, Structural)]
pub struct QueryHit {
    /// The matching record's identifier.
    pub id: u64,
    /// The record's score against the query; greater is always better.
    pub score: i128,
}

/// `a` ranks at least as well as `b`: a better score, or an equal score and
/// an id that is not larger.  This is the total order queries return.
pub open spec fn hit_le(a: QueryHit, b: QueryHit) -> bool {
    a.score > b.score || (a.score == b.score && a.id <= b.id)
}

/// `hit_le` as a relation value, for sorting.
pub open spec fn hit_order() -> spec_fn(QueryHit, QueryHit) -> bool {
    |a: QueryHit, b: QueryHit| hit_le(a, b)
}

/// The ranking relation is a total order, so ranked output is unique.
pub proof fn lemma_hit_order_total()
    ensures
        total_ordering(hit_order()),
{
    let leq = hit_order();
    assert forall|a: QueryHit, b: QueryHit| #[trigger] leq(a, b) && leq(b, a) implies a == b by {
        assert(a.score == b.score && a.id == b.id);
    }
}

/// A score passes the threshold: with no threshold everything passes,
/// otherwise only scores at least as good as the bound do.
pub open spec fn pass_threshold(t: Option<i128>, s: i128) -> bool {
    match t {
        Option::None => true,
        Option::Some(m) => s >= m,
    }
}

/// The hit an entry produces against query `q`.
pub open spec fn mk_hit(id: u64, g: int) -> QueryHit {
    QueryHit { id, score: g as i128 }
}

/// Every entry scored against the query, in storage order.
pub open spec fn scored_of(entries: Seq<(u64, Seq<i64>)>, m: Metric, q: Seq<i64>) -> Seq<QueryHit> {
    entries.map_values(|e: (u64, Seq<i64>)| mk_hit(e.0, goodness(m, q, e.1)))
}

/// The scored entries that pass the threshold.  Filtering happens before
/// truncation to `k`, so a threshold can shrink a result set but never
/// admits an out-of-threshold hit to fill it.
pub open spec fn kept_of(
    entries: Seq<(u64, Seq<i64>)>,
    m: Metric,
    q: Seq<i64>,
    t: Option<i128>,
) -> Seq<QueryHit> {
    scored_of(entries, m, q).filter(|h: QueryHit| pass_threshold(t, h.score))
}

/// The kept hits ranked best-first, ties broken by ascending id.
pub open spec fn ranked_of(
    entries: Seq<(u64, Seq<i64>)>,
    m: Metric,
    q: Seq<i64>,
    t: Option<i128>,
) -> Seq<QueryHit> {
    kept_of(entries, m, q, t).sort_by(hit_order())
}

/// What a query returns: the ranked hits, truncated to the best `k`.
pub open spec fn query_spec(
    entries: Seq<(u64, Seq<i64>)>,
    m: Metric,
    q: Seq<i64>,
    k: int,
    t: Option<i128>,
) -> Seq<QueryHit> {
    let r = ranked_of(entries, m, q, t);
    if k < r.len() {
        r.take(k)
    } else {
        r
    }
}

/// Some entry carries this id.
pub open spec fn contains_id(entries: Seq<(u64, Seq<i64>)>, id: u64) -> bool {
    exists|i: int| 0 <= i < entries.len() && entries[i].0 == id
}

/// The position of the first entry carrying this id, or `-1` if none does.
pub open spec fn index_of_id(entries: Seq<(u64, Seq<i64>)>, id: u64) -> int
    decreases entries.len(),
{
    if entries.len() == 0 {
        -1
    } else if entries[0].0 == id {
        0
    } else {
        let r = index_of_id(entries.drop_first(), id);
        if r == -1 {
            -1
        } else {
            r + 1
        }
    }
}

/// `index_of_id` finds exactly the first entry with the id, and `-1` means
/// no entry has it.
pub proof fn lemma_index_of_id(entries: Seq<(u64, Seq<i64>)>, id: u64)
    ensures
        contains_id(entries, id) ==> {
            let ix = index_of_id(entries, id);
            &&& 0 <= ix < entries.len()
            &&& entries[ix].0 == id
            &&& forall|j: int| 0 <= j < ix ==> (#[trigger] entries[j]).0 != id
        },
        !contains_id(entries, id) ==> index_of_id(entries, id) == -1,
    decreases entries.len(),
{
    if entries.len() > 0 && entries[0].0 != id {
        let rest = entries.drop_first();
        lemma_index_of_id(rest, id);
        if contains_id(entries, id) {
            let w = choose|i: int| 0 <= i < entries.len() && entries[i].0 == id;
            assert(rest[w - 1].0 == id);
            assert(contains_id(rest, id));
            let rx = index_of_id(rest, id);
            let ix = index_of_id(entries, id);
            assert(ix == rx + 1);
            assert(entries[ix] == rest[rx]);
            assert forall|j: int| 0 <= j < ix implies (#[trigger] entries[j]).0 != id by {
                if j > 0 {
                    assert(entries[j] == rest[j - 1]);
                }
            }
        } else {
            assert(!contains_id(rest, id)) by {
                if contains_id(rest, id) {
                    let w = choose|i: int| 0 <= i < rest.len() && rest[i].0 == id;
                    assert(entries[w + 1].0 == id);
                }
            }
        }
    }
}

/// The state after an upsert of `(id, v)`: the entry is replaced in place
/// when the id is present, appended when it is not.
pub open spec fn upsert_view(
    entries: Seq<(u64, Seq<i64>)>,
    id: u64,
    v: Seq<i64>,
) -> Seq<(u64, Seq<i64>)> {
    if contains_id(entries, id) {
        entries.update(index_of_id(entries, id), (id, v))
    } else {
        entries.push((id, v))
    }
}

/// The state after a removal of `id`: every entry but the removed one, in
/// their original order.
pub open spec fn remove_view(entries: Seq<(u64, Seq<i64>)>, id: u64) -> Seq<(u64, Seq<i64>)> {
    entries.filter(|e: (u64, Seq<i64>)| e.0 != id)
}

/// The well-formedness of an entry sequence: every vector has the
/// collection's dimension and in-range components, and ids are unique.
pub open spec fn valid_entries(entries: Seq<(u64, Seq<i64>)>, dim: int) -> bool {
    &&& forall|i: int|
        0 <= i < entries.len() ==> (#[trigger] entries[i]).1.len() == dim && vector_in_range(
            entries[i].1,
        )
    &&& forall|i: int, j: int|
        0 <= i < j < entries.len() ==> (#[trigger] entries[i]).0 != (#[trigger] entries[j]).0
}

/// Removing an id that no entry carries leaves the sequence unchanged.
pub proof fn lemma_remove_view_absent(s: Seq<(u64, Seq<i64>)>, id: u64)
    requires
        forall|j: int| 0 <= j < s.len() ==> (#[trigger] s[j]).0 != id,
    ensures
        remove_view(s, id) == s,
    decreases s.len(),
{
    reveal(Seq::filter);
    if s.len() > 0 {
        lemma_remove_view_absent(s.drop_last(), id);
        assert(s.drop_last().push(s.last()) =~= s);
    }
}

/// Removing the only entry that carries `id` is exactly the id filter.
proof fn lemma_remove_is_filter(s: Seq<(u64, Seq<i64>)>, i: int, id: u64)
    requires
        0 <= i < s.len(),
        s[i].0 == id,
        forall|j: int| 0 <= j < s.len() && j != i ==> (#[trigger] s[j]).0 != id,
    ensures
        s.remove(i) == remove_view(s, id),
    decreases s.len(),
{
    reveal(Seq::filter);
    if i == s.len() - 1 {
        lemma_remove_view_absent(s.drop_last(), id);
        assert(s.remove(i) =~= s.drop_last());
    } else {
        lemma_remove_is_filter(s.drop_last(), i, id);
        assert(s.remove(i) =~= s.drop_last().remove(i).push(s.last()));
        assert(remove_view(s, id) == remove_view(s.drop_last(), id).push(s.last()));
    }
}

/// How one more entry changes the kept hits: its hit is appended when it
/// passes the threshold and dropped when it does not.
pub proof fn lemma_kept_push(
    entries: Seq<(u64, Seq<i64>)>,
    e: (u64, Seq<i64>),
    m: Metric,
    q: Seq<i64>,
    t: Option<i128>,
)
    ensures
        kept_of(entries.push(e), m, q, t) == {
            let hit = mk_hit(e.0, goodness(m, q, e.1));
            if pass_threshold(t, hit.score) {
                kept_of(entries, m, q, t).push(hit)
            } else {
                kept_of(entries, m, q, t)
            }
        },
{
    reveal(Seq::filter);
    let hit = mk_hit(e.0, goodness(m, q, e.1));
    let scored = scored_of(entries.push(e), m, q);
    assert(scored =~= scored_of(entries, m, q).push(hit));
    assert(scored.drop_last() =~= scored_of(entries, m, q));
    assert(scored.last() == hit);
}

/// An empty entry sequence keeps no hits.
pub proof fn lemma_kept_empty(m: Metric, q: Seq<i64>, t: Option<i128>)
    ensures
        kept_of(Seq::<(u64, Seq<i64>)>::empty(), m, q, t) == Seq::<QueryHit>::empty(),
{
    reveal(Seq::filter);
    assert(scored_of(Seq::<(u64, Seq<i64>)>::empty(), m, q) =~= Seq::<QueryHit>::empty());
}

/// Every kept hit arises from some entry: queries never invent ids.
pub proof fn lemma_kept_elements(
    entries: Seq<(u64, Seq<i64>)>,
    m: Metric,
    q: Seq<i64>,
    t: Option<i128>,
)
    ensures
        forall|x: QueryHit| #[trigger] kept_of(entries, m, q, t).contains(x) ==> exists|i: int|
            0 <= i < entries.len() && x == mk_hit(
                (#[trigger] entries[i]).0,
                goodness(m, q, entries[i].1),
            ),
    decreases entries.len(),
{
    if entries.len() == 0 {
        lemma_kept_empty(m, q, t);
        assert(entries =~= Seq::<(u64, Seq<i64>)>::empty());
    } else {
        let front = entries.drop_last();
        let e = entries.last();
        lemma_kept_elements(front, m, q, t);
        assert(front.push(e) =~= entries);
        lemma_kept_push(front, e, m, q, t);
        let hit = mk_hit(e.0, goodness(m, q, e.1));
        let kf = kept_of(front, m, q, t);
        let kp = kept_of(entries, m, q, t);
        assert forall|x: QueryHit| #[trigger] kp.contains(x) implies exists|i: int|
            0 <= i < entries.len() && x == mk_hit(
                (#[trigger] entries[i]).0,
                goodness(m, q, entries[i].1),
            ) by {
            let idx = choose|idx: int| 0 <= idx < kp.len() && kp[idx] == x;
            if pass_threshold(t, hit.score) && idx == kp.len() - 1 {
                assert(x == hit);
                assert(entries[entries.len() - 1] == e);
            } else {
                assert(kf.contains(x)) by {
                    assert(kf[idx] == x);
                }
                let i = choose|i: int|
                    0 <= i < front.len() && x == mk_hit(
                        (#[trigger] front[i]).0,
                        goodness(m, q, front[i].1),
                    );
                assert(entries[i] == front[i]);
            }
        }
    }
}

/// Every id a query returns belongs to some live entry.
pub proof fn lemma_query_ids_in_entries(
    entries: Seq<(u64, Seq<i64>)>,
    m: Metric,
    q: Seq<i64>,
    k: int,
    t: Option<i128>,
)
    requires
        k >= 0,
    ensures
        forall|x: QueryHit| #[trigger] query_spec(entries, m, q, k, t).contains(x) ==> contains_id(
            entries,
            x.id,
        ),
{
    let kept = kept_of(entries, m, q, t);
    let sorted = ranked_of(entries, m, q, t);
    let r = query_spec(entries, m, q, k, t);
    lemma_hit_order_total();
    kept.lemma_sort_by_ensures(hit_order());
    lemma_kept_elements(entries, m, q, t);
    assert forall|x: QueryHit| #[trigger] r.contains(x) implies contains_id(entries, x.id) by {
        let idx = choose|idx: int| 0 <= idx < r.len() && r[idx] == x;
        assert(sorted[idx] == x);
        assert(sorted.contains(x));
        assert(kept.contains(x));
        let i = choose|i: int|
            0 <= i < entries.len() && x == mk_hit(
                (#[trigger] entries[i]).0,
                goodness(m, q, entries[i].1),
            );
        assert(entries[i].0 == x.id);
    }
}

/// The in-process similarity index over one collection's vectors.
///
/// The view is the sequence of `(id, vector)` pairs in storage order; every
/// operation's contract is stated over that view.
pub struct SimilarityIndex {
    dim: usize,
    metric: Metric,
    entries: Vec<IndexEntry>,
}

impl View for SimilarityIndex {
    type V = Seq<(u64, Seq<i64>)>;

    closed spec fn view(&self) -> Seq<(u64, Seq<i64>)> {
        self.entries@.map_values(|e: IndexEntry| (e.id, e.vector@))
    }
}

impl SimilarityIndex {
    /// The collection's dimension.
    pub closed spec fn spec_dim(&self) -> int {
        self.dim as int
    }

    /// The collection's metric.
    pub closed spec fn spec_metric(&self) -> Metric {
        self.metric
    }

    /// The index's internal invariant.
    pub open spec fn wf(&self) -> bool {
        &&& self.spec_dim() <= MAX_DIMENSION
        &&& valid_entries(self@, self.spec_dim())
    }

    /// An empty index over vectors of the given dimension and metric.
    pub fn new(dimension: usize, metric: Metric) -> (idx: SimilarityIndex)
        requires
            dimension <= MAX_DIMENSION,
        ensures
            idx.wf(),
            idx@ == Seq::<(u64, Seq<i64>)>::empty(),
            idx.spec_dim() == dimension,
            idx.spec_metric() == metric,
    {
        let idx = SimilarityIndex { dim: dimension, metric, entries: Vec::new() };
        proof {
            assert(idx@ =~= Seq::<(u64, Seq<i64>)>::empty());
        }
        idx
    }

    /// The configured dimension.
    pub fn dimension(&self) -> (d: usize)
        ensures
            d as int == self.spec_dim(),
    {
        self.dim
    }

    /// The configured metric.
    pub fn metric(&self) -> (m: Metric)
        ensures
            m == self.spec_metric(),
    {
        self.metric
    }

    /// How many vectors are live in the index.
    pub fn len(&self) -> (n: usize)
        ensures
            n == self@.len(),
    {
        self.entries.len()
    }

    /// Where the entry with this id sits, if anywhere.
    fn find_entry(&self, id: u64) -> (r: Option<usize>)
        ensures
            match r {
                Some(i) => {
                    &&& i < self@.len()
                    &&& self@[i as int].0 == id
                    &&& i as int == index_of_id(self@, id)
                },
                None => !contains_id(self@, id),
            },
    {
        let n = self.entries.len();
        let mut i: usize = 0;
        while i < n
            invariant
                n == self@.len(),
                0 <= i <= n,
                forall|j: int| 0 <= j < i ==> (#[trigger] self@[j]).0 != id,
            decreases n - i,
        {
            if self.entries[i].id == id {
                proof {
                    assert(self@[i as int].0 == id);
                    assert(contains_id(self@, id));
                    lemma_index_of_id(self@, id);
                    let ix = index_of_id(self@, id);
                    if ix < i as int {
                        assert(self@[ix].0 != id);
                    }
                    if ix > i as int {
                        assert(self@[i as int].0 != id);
                    }
                }
                return Some(i);
            }
            i = i + 1;
        }
        proof {
            if contains_id(self@, id) {
                let w = choose|j: int| 0 <= j < self@.len() && self@[j].0 == id;
                assert(self@[w].0 != id);
            }
        }
        None
    }

    /// Incorporate one vector under the given id.
    ///
    /// Upsert policy: adding an id that is already present replaces its
    /// vector in place; this is the library's single, deliberate choice.
    /// A vector of the wrong length is rejected and the index is unchanged.
    pub fn add(&mut self, id: u64, vector: Vec<i64>) -> (r: Result<(), IndexError>)
        requires
            old(self).wf(),
            vector_in_range(vector@),
        ensures
            final(self).wf(),
            final(self).spec_dim() == old(self).spec_dim(),
            final(self).spec_metric() == old(self).spec_metric(),
            vector@.len() != old(self).spec_dim() ==> r == Err::<(), IndexError>(
                IndexError::DimensionMismatch,
            ) && final(self)@ == old(self)@,
            vector@.len() == old(self).spec_dim() ==> r == Ok::<(), IndexError>(())
                && final(self)@ == upsert_view(old(self)@, id, vector@),
    {
        if vector.len() != self.dim {
            return Err(IndexError::DimensionMismatch);
        }
        match self.find_entry(id) {
            Some(i) => {
                self.entries[i] = IndexEntry { id, vector };
                proof {
                    assert(self@ =~= old(self)@.update(i as int, (id, vector@)));
                }
            },
            None => {
                self.entries.push(IndexEntry { id, vector });
                proof {
                    assert(self@ =~= old(self)@.push((id, vector@)));
                }
            },
        }
        Ok(())
    }

    /// Logically remove the vector stored under this id, so that it never
    /// again appears in query results.  Removing an absent id reports
    /// `NotFound` and leaves the index unchanged.
    pub fn remove(&mut self, id: u64) -> (r: Result<(), IndexError>)
        requires
            old(self).wf(),
        ensures
            final(self).wf(),
            final(self).spec_dim() == old(self).spec_dim(),
            final(self).spec_metric() == old(self).spec_metric(),
            contains_id(old(self)@, id) ==> r == Ok::<(), IndexError>(()) && final(self)@
                == remove_view(old(self)@, id),
            !contains_id(old(self)@, id) ==> r == Err::<(), IndexError>(IndexError::NotFound)
                && final(self)@ == old(self)@,
    {
        match self.find_entry(id) {
            Some(i) => {
                self.entries.remove(i);
                proof {
                    assert(self@ =~= old(self)@.remove(i as int));
                    lemma_remove_is_filter(old(self)@, i as int, id);
                }
                Ok(())
            },
            None => Err(IndexError::NotFound),
        }
    }

    /// Return the best `k` stored vectors for the query, ranked best-first
    /// with ties broken by ascending id, after dropping every hit whose
    /// score misses the threshold.  A query against an empty index returns
    /// an empty vector, not an error; a query of the wrong length is
    /// rejected.
    pub fn query(&self, q: &Vec<i64>, k: usize, threshold: Option<i128>) -> (r: Result<
        Vec<QueryHit>,
        IndexError,
    >)
        requires
            self.wf(),
            vector_in_range(q@),
        ensures
            q@.len() == self.spec_dim() ==> (r matches Ok(hits) && hits@ == query_spec(
                self@,
                self.spec_metric(),
                q@,
                k as int,
                threshold,
            )),
            q@.len() != self.spec_dim() ==> r == Err::<Vec<QueryHit>, IndexError>(
                IndexError::DimensionMismatch,
            ),
    {
        if q.len() != self.dim {
            return Err(IndexError::DimensionMismatch);
        }
        let ghost m = self.spec_metric();
        let n = self.entries.len();
        let mut kept: Vec<QueryHit> = Vec::new();
        let mut i: usize = 0;
        proof {
            assert(self@.take(0) =~= Seq::<(u64, Seq<i64>)>::empty());
            lemma_kept_empty(m, q@, threshold);
            assert(kept@ =~= Seq::<QueryHit>::empty());
        }
        while i < n
            invariant
                n == self@.len(),
                0 <= i <= n,
                self.wf(),
                q@.len() == self.spec_dim(),
                vector_in_range(q@),
                m == self.spec_metric(),
                kept@ == kept_of(self@.take(i as int), m, q@, threshold),
            decreases n - i,
        {
            let e = &self.entries[i];
            proof {
                assert(self@[i as int] == (e.id, e.vector@));
            }
            let s = score(self.metric, q, &e.vector);
            let keep = match threshold {
                Option::None => true,
                Option::Some(t) => s >= t,
            };
            proof {
                let hit = mk_hit(e.id, goodness(m, q@, e.vector@));
                assert(hit.score == s);
                assert(self@.take(i as int + 1) =~= self@.take(i as int).push(self@[i as int]));
                lemma_kept_push(self@.take(i as int), self@[i as int], m, q@, threshold);
            }
            if keep {
                kept.push(QueryHit { id: e.id, score: s });
            }
            i = i + 1;
        }
        proof {
            assert(self@.take(n as int) =~= self@);
        }
        let mut result = sort_hits(kept);
        if k < result.len() {
            result.truncate(k);
        }
        Ok(result)
    }
}

/// Inserting `h` at the first position whose element does not rank at
/// least as well keeps a ranked sequence ranked.
proof fn lemma_insert_sorted(s: Seq<QueryHit>, j: int, h: QueryHit)
    requires
        sorted_by(s, hit_order()),
        0 <= j <= s.len(),
        forall|m2: int| 0 <= m2 < j ==> hit_le(#[trigger] s[m2], h),
        j < s.len() ==> !hit_le(s[j], h),
    ensures
        sorted_by(s.insert(j, h), hit_order()),
{
    let leq = hit_order();
    s.insert_ensures(j, h);
    let t = s.insert(j, h);
    assert forall|x: int, y: int| 0 <= x < y < t.len() implies #[trigger] leq(t[x], t[y]) by {
        if y < j {
            assert(leq(s[x], s[y]));
        } else if y == j {
            assert(t[y] == h);
            assert(hit_le(s[x], h));
        } else if x < j {
            assert(leq(s[x], s[y - 1]));
        } else if x == j {
            assert(t[x] == h);
            assert(hit_le(h, s[j]));
            if y - 1 > j {
                assert(leq(s[j], s[y - 1]));
            }
        } else {
            assert(leq(s[x - 1], s[y - 1]));
        }
    }
}

/// An exec decision of the ranking relation.
fn hit_before(a: &QueryHit, b: &QueryHit) -> (r: bool)
    ensures
        r == hit_le(*a, *b),
{
    a.score > b.score || (a.score == b.score && a.id <= b.id)
}

/// Sort hits best-first by insertion, proving the result is exactly the
/// mathematical `sort_by` of the input under the ranking order.
fn sort_hits(hits: Vec<QueryHit>) -> (r: Vec<QueryHit>)
    ensures
        r@ == hits@.sort_by(hit_order()),
{
    broadcast use group_to_multiset_ensures;

    let n = hits.len();
    let mut out: Vec<QueryHit> = Vec::new();
    let mut i: usize = 0;
    proof {
        assert(hits@.take(0) =~= Seq::<QueryHit>::empty());
        assert(out@.to_multiset() =~= hits@.take(0).to_multiset());
    }
    while i < n
        invariant
            n == hits@.len(),
            0 <= i <= n,
            sorted_by(out@, hit_order()),
            out@.to_multiset() == hits@.take(i as int).to_multiset(),
            out@.len() == i,
        decreases n - i,
    {
        let h = hits[i];
        let mut j: usize = 0;
        while j < out.len() && hit_before(&out[j], &h)
            invariant
                0 <= j <= out@.len(),
                forall|m2: int| 0 <= m2 < j ==> hit_le(#[trigger] out@[m2], h),
            decreases out@.len() - j,
        {
            j = j + 1;
        }
        let ghost old_out = out@;
        out.insert(j, h);
        proof {
            lemma_insert_sorted(old_out, j as int, h);
            assert(out@ == old_out.insert(j as int, h));
            vstd::seq_lib::to_multiset_insert(old_out, j as int, h);
            vstd::seq_lib::to_multiset_build(hits@.take(i as int), hits@[i as int]);
            assert(old_out.insert(j as int, h).to_multiset() == old_out.to_multiset().insert(h));
            assert(hits@.take(i as int + 1) =~= hits@.take(i as int).push(hits@[i as int]));
            assert(hits@.take(i as int).push(hits@[i as int]).to_multiset() == hits@.take(
                i as int,
            ).to_multiset().insert(hits@[i as int]));
            assert(out@.to_multiset() =~= hits@.take(i as int + 1).to_multiset());
        }
        i = i + 1;
    }
    proof {
        assert(hits@.take(n as int) =~= hits@);
        hits@.lemma_sort_by_ensures(hit_order());
        lemma_hit_order_total();
        lemma_sorted_unique(out@, hits@.sort_by(hit_order()), hit_order());
    }
    out
}

} // verus!
