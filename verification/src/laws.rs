//! Laws of the search pipeline, stated and proved once and for all.
//!
//! Each public proof function here is a property of every collection state
//! the library can reach, proved from the same specifications the
//! executable functions are verified against.

use vstd::prelude::*;
use vstd::seq_lib::group_to_multiset_ensures;

use crate::metric::{
    Metric, MAX_DIMENSION, vector_in_range, goodness, lemma_goodness_in_range,
    lemma_euclidean_self_best,
};
use crate::index::{
    QueryHit, hit_le, hit_order, lemma_hit_order_total, pass_threshold, mk_hit, kept_of,
    ranked_of, query_spec, contains_id, remove_view, valid_entries, lemma_kept_empty,
    lemma_kept_push, lemma_kept_elements, lemma_remove_view_absent,
};

verus! {

/// A query returns at most `k` results, and they are ranked: each result
/// ranks at least as well as the next, so scores never improve down the
/// list.
pub proof fn lemma_query_bounded_and_ranked(
    entries: Seq<(u64, Seq<i64>)>,
    m: Metric,
    q: Seq<i64>,
    k: int,
    t: Option<i128>,
)
    requires
        k >= 0,
    ensures
        query_spec(entries, m, q, k, t).len() <= k,
        forall|i: int, j: int|
            0 <= i < j < query_spec(entries, m, q, k, t).len() ==> hit_le(
                #[trigger] query_spec(entries, m, q, k, t)[i],
                #[trigger] query_spec(entries, m, q, k, t)[j],
            ),
{
    let kept = kept_of(entries, m, q, t);
    let sorted = ranked_of(entries, m, q, t);
    let r = query_spec(entries, m, q, k, t);
    lemma_hit_order_total();
    kept.lemma_sort_by_ensures(hit_order());
    let leq = hit_order();
    assert forall|i: int, j: int| 0 <= i < j < r.len() implies hit_le(
        #[trigger] r[i],
        #[trigger] r[j],
    ) by {
        assert(leq(sorted[i], sorted[j]));
    }
}

/// Every element the removal filter keeps carries another id.
proof fn lemma_remove_view_elements(s: Seq<(u64, Seq<i64>)>, id: u64)
    ensures
        forall|j: int|
            0 <= j < remove_view(s, id).len() ==> (#[trigger] remove_view(s, id)[j]).0 != id,
    decreases s.len(),
{
    reveal(Seq::filter);
    if s.len() > 0 {
        lemma_remove_view_elements(s.drop_last(), id);
        assert(remove_view(s, id) == if s.last().0 != id {
            remove_view(s.drop_last(), id).push(s.last())
        } else {
            remove_view(s.drop_last(), id)
        });
    }
}

/// Removal is idempotent: after one removal the id is gone, and removing
/// it again changes nothing — which is why a second `remove` of the same
/// id reports `NotFound` and leaves the state untouched.
pub proof fn lemma_remove_idempotent(entries: Seq<(u64, Seq<i64>)>, id: u64)
    ensures
        !contains_id(remove_view(entries, id), id),
        remove_view(remove_view(entries, id), id) == remove_view(entries, id),
{
    let once = remove_view(entries, id);
    lemma_remove_view_elements(entries, id);
    assert(!contains_id(once, id)) by {
        if contains_id(once, id) {
            let w = choose|i: int| 0 <= i < once.len() && once[i].0 == id;
            assert(once[w].0 != id);
        }
    }
    lemma_remove_view_absent(once, id);
}

/// The hit of a passing entry is among the kept hits.
proof fn lemma_kept_contains(
    entries: Seq<(u64, Seq<i64>)>,
    m: Metric,
    q: Seq<i64>,
    t: Option<i128>,
    i: int,
)
    requires
        0 <= i < entries.len(),
        pass_threshold(t, mk_hit(entries[i].0, goodness(m, q, entries[i].1)).score),
    ensures
        kept_of(entries, m, q, t).contains(mk_hit(entries[i].0, goodness(m, q, entries[i].1))),
    decreases entries.len(),
{
    let front = entries.drop_last();
    let e = entries.last();
    assert(front.push(e) =~= entries);
    lemma_kept_push(front, e, m, q, t);
    let hit = mk_hit(entries[i].0, goodness(m, q, entries[i].1));
    if i == entries.len() - 1 {
        assert(entries[i] == e);
        let kp = kept_of(entries, m, q, t);
        assert(kp == kept_of(front, m, q, t).push(hit));
        assert(kp[kp.len() - 1] == hit);
    } else {
        assert(front[i] == entries[i]);
        lemma_kept_contains(front, m, q, t, i);
        let kf = kept_of(front, m, q, t);
        let w = choose|w: int| 0 <= w < kf.len() && kf[w] == hit;
        let kp = kept_of(entries, m, q, t);
        assert(kp[w] == hit);
    }
}

/// Round trip: when some entry holds the query vector itself under id `x`,
/// no stored vector scores better, and the self-score passes the
/// threshold, a query with `k >= 1` returns at least one result and its
/// top result carries exactly the self-score — `x` is top or tied for
/// top.
pub proof fn lemma_round_trip_top(
    entries: Seq<(u64, Seq<i64>)>,
    m: Metric,
    q: Seq<i64>,
    k: int,
    t: Option<i128>,
    x: u64,
    i0: int,
)
    requires
        k >= 1,
        q.len() <= MAX_DIMENSION,
        vector_in_range(q),
        valid_entries(entries, q.len() as int),
        0 <= i0 < entries.len(),
        entries[i0] == (x, q),
        forall|i: int|
            0 <= i < entries.len() ==> goodness(m, q, (#[trigger] entries[i]).1) <= goodness(
                m,
                q,
                q,
            ),
        pass_threshold(t, mk_hit(x, goodness(m, q, q)).score),
    ensures
        query_spec(entries, m, q, k, t).len() >= 1,
        query_spec(entries, m, q, k, t)[0].score == mk_hit(x, goodness(m, q, q)).score,
{
    broadcast use group_to_multiset_ensures;

    let kept = kept_of(entries, m, q, t);
    let sorted = ranked_of(entries, m, q, t);
    let r = query_spec(entries, m, q, k, t);
    let hit = mk_hit(x, goodness(m, q, q));
    lemma_hit_order_total();
    kept.lemma_sort_by_ensures(hit_order());
    lemma_kept_elements(entries, m, q, t);
    lemma_goodness_in_range(m, q, q);

    assert(mk_hit(entries[i0].0, goodness(m, q, entries[i0].1)) == hit);
    lemma_kept_contains(entries, m, q, t, i0);
    assert(kept.contains(hit));
    assert(kept.to_multiset().count(hit) > 0);
    assert(sorted.to_multiset().count(hit) > 0);
    assert(sorted.contains(hit));
    assert(kept.len() == kept.to_multiset().len());
    assert(sorted.len() == sorted.to_multiset().len());
    assert(sorted.len() == kept.len());
    assert(sorted.len() >= 1);
    assert(r.len() >= 1);
    assert(r[0] == sorted[0]);

    let w = choose|w: int| 0 <= w < sorted.len() && sorted[w] == hit;
    let leq = hit_order();
    if w > 0 {
        assert(leq(sorted[0], sorted[w]));
    }
    assert(sorted[0].score >= hit.score);

    assert(sorted.contains(sorted[0]));
    assert(kept.contains(sorted[0]));
    let j = choose|j: int|
        0 <= j < entries.len() && sorted[0] == mk_hit(
            (#[trigger] entries[j]).0,
            goodness(m, q, entries[j].1),
        );
    lemma_goodness_in_range(m, q, entries[j].1);
    assert(goodness(m, q, entries[j].1) <= goodness(m, q, q));
    assert(sorted[0].score <= hit.score);
}

/// The Euclidean round trip needs no side condition on the other stored
/// vectors: self-distance is zero and no vector is nearer than that.
pub proof fn lemma_euclidean_round_trip(
    entries: Seq<(u64, Seq<i64>)>,
    q: Seq<i64>,
    k: int,
    t: Option<i128>,
    x: u64,
    i0: int,
)
    requires
        k >= 1,
        q.len() <= MAX_DIMENSION,
        vector_in_range(q),
        valid_entries(entries, q.len() as int),
        0 <= i0 < entries.len(),
        entries[i0] == (x, q),
        pass_threshold(t, mk_hit(x, goodness(Metric::Euclidean, q, q)).score),
    ensures
        query_spec(entries, Metric::Euclidean, q, k, t).len() >= 1,
        query_spec(entries, Metric::Euclidean, q, k, t)[0].score == mk_hit(
            x,
            goodness(Metric::Euclidean, q, q),
        ).score,
{
    assert forall|i: int| 0 <= i < entries.len() implies goodness(
        Metric::Euclidean,
        q,
        (#[trigger] entries[i]).1,
    ) <= goodness(Metric::Euclidean, q, q) by {
        lemma_euclidean_self_best(q, entries[i].1);
    }
    lemma_round_trip_top(entries, Metric::Euclidean, q, k, t, x, i0);
}

/// `t2` admits no score that `t1` rejects: `t2` is at least as tight.
pub open spec fn threshold_no_looser(t1: Option<i128>, t2: Option<i128>) -> bool {
    match (t1, t2) {
        (Option::None, _) => true,
        (Option::Some(a), Option::Some(b)) => a <= b,
        (Option::Some(_), Option::None) => false,
    }
}

/// Tightening the threshold never lengthens the kept list.
proof fn lemma_kept_len_monotone(
    entries: Seq<(u64, Seq<i64>)>,
    m: Metric,
    q: Seq<i64>,
    t1: Option<i128>,
    t2: Option<i128>,
)
    requires
        threshold_no_looser(t1, t2),
    ensures
        kept_of(entries, m, q, t2).len() <= kept_of(entries, m, q, t1).len(),
    decreases entries.len(),
{
    if entries.len() == 0 {
        lemma_kept_empty(m, q, t1);
        lemma_kept_empty(m, q, t2);
    } else {
        let front = entries.drop_last();
        let e = entries.last();
        assert(front.push(e) =~= entries);
        lemma_kept_len_monotone(front, m, q, t1, t2);
        lemma_kept_push(front, e, m, q, t1);
        lemma_kept_push(front, e, m, q, t2);
    }
}

/// Threshold monotonicity: for a fixed query and `k`, tightening the
/// threshold never increases the number of results.
pub proof fn lemma_threshold_monotone(
    entries: Seq<(u64, Seq<i64>)>,
    m: Metric,
    q: Seq<i64>,
    k: int,
    t1: Option<i128>,
    t2: Option<i128>,
)
    requires
        k >= 0,
        threshold_no_looser(t1, t2),
    ensures
        query_spec(entries, m, q, k, t2).len() <= query_spec(entries, m, q, k, t1).len(),
{
    broadcast use group_to_multiset_ensures;

    lemma_hit_order_total();
    lemma_kept_len_monotone(entries, m, q, t1, t2);
    kept_of(entries, m, q, t1).lemma_sort_by_ensures(hit_order());
    kept_of(entries, m, q, t2).lemma_sort_by_ensures(hit_order());
    assert(kept_of(entries, m, q, t1).len() == kept_of(entries, m, q, t1).to_multiset().len());
    assert(kept_of(entries, m, q, t2).len() == kept_of(entries, m, q, t2).to_multiset().len());
    assert(ranked_of(entries, m, q, t1).len() == ranked_of(entries, m, q, t1).to_multiset().len());
    assert(ranked_of(entries, m, q, t2).len() == ranked_of(entries, m, q, t2).to_multiset().len());
    assert(ranked_of(entries, m, q, t1).len() == kept_of(entries, m, q, t1).len());
    assert(ranked_of(entries, m, q, t2).len() == kept_of(entries, m, q, t2).len());
}

/// Kept hits carry pairwise distinct ids whenever the entries do.
proof fn lemma_kept_distinct_ids(
    entries: Seq<(u64, Seq<i64>)>,
    m: Metric,
    q: Seq<i64>,
    t: Option<i128>,
)
    requires
        forall|a: int, b: int|
            0 <= a < b < entries.len() ==> (#[trigger] entries[a]).0 != (#[trigger] entries[b]).0,
    ensures
        forall|a: int, b: int|
            0 <= a < b < kept_of(entries, m, q, t).len() ==> (#[trigger] kept_of(
                entries,
                m,
                q,
                t,
            )[a]).id != (#[trigger] kept_of(entries, m, q, t)[b]).id,
    decreases entries.len(),
{
    if entries.len() == 0 {
        lemma_kept_empty(m, q, t);
    } else {
        let front = entries.drop_last();
        let e = entries.last();
        assert(front.push(e) =~= entries);
        assert forall|a: int, b: int| 0 <= a < b < front.len() implies (#[trigger] front[a]).0 != (
        #[trigger] front[b]).0 by {
            assert(front[a] == entries[a]);
            assert(front[b] == entries[b]);
        }
        lemma_kept_distinct_ids(front, m, q, t);
        lemma_kept_push(front, e, m, q, t);
        lemma_kept_elements(front, m, q, t);
        let kf = kept_of(front, m, q, t);
        let kp = kept_of(entries, m, q, t);
        let hit = mk_hit(e.0, goodness(m, q, e.1));
        if pass_threshold(t, hit.score) {
            assert(kp == kf.push(hit));
            assert forall|a: int, b: int| 0 <= a < b < kp.len() implies (#[trigger] kp[a]).id != (
            #[trigger] kp[b]).id by {
                if b == kp.len() - 1 {
                    assert(kp[a] == kf[a]);
                    assert(kf.contains(kf[a]));
                    let i = choose|i: int|
                        0 <= i < front.len() && kf[a] == mk_hit(
                            (#[trigger] front[i]).0,
                            goodness(m, q, front[i].1),
                        );
                    assert(entries[i] == front[i]);
                    assert(entries[i].0 != entries[entries.len() - 1].0);
                } else {
                    assert(kp[a] == kf[a]);
                    assert(kp[b] == kf[b]);
                }
            }
        }
    }
}

/// Two equal elements at two positions put the value twice in the
/// multiset.
proof fn lemma_two_positions_count(s: Seq<QueryHit>, i: int, j: int)
    requires
        0 <= i < j < s.len(),
        s[i] == s[j],
    ensures
        s.to_multiset().count(s[i]) >= 2,
{
    broadcast use group_to_multiset_ensures;
    broadcast use vstd::multiset::group_multiset_axioms;

    let v = s[i];
    assert(s.remove(i).to_multiset() == s.to_multiset().remove(v));
    s.remove_ensures(i);
    assert(s.remove(i)[j - 1] == v);
    assert(s.remove(i).contains(v));
    assert(s.remove(i).to_multiset().count(v) > 0);
    assert(s.to_multiset().remove(v).count(v) == s.to_multiset().count(v) - 1);
}

/// A value the multiset holds twice sits at two distinct positions.
proof fn lemma_count_two_positions(s: Seq<QueryHit>, v: QueryHit) -> (r: (int, int))
    requires
        s.to_multiset().count(v) >= 2,
    ensures
        0 <= r.0 < r.1 < s.len(),
        s[r.0] == v,
        s[r.1] == v,
{
    broadcast use group_to_multiset_ensures;
    broadcast use vstd::multiset::group_multiset_axioms;

    assert(s.contains(v));
    let a = choose|a: int| 0 <= a < s.len() && s[a] == v;
    assert(s.remove(a).to_multiset() == s.to_multiset().remove(v));
    assert(s.remove(a).to_multiset().count(v) >= 1);
    assert(s.remove(a).contains(v));
    let b0 = choose|b0: int| 0 <= b0 < s.remove(a).len() && s.remove(a)[b0] == v;
    s.remove_ensures(a);
    if b0 < a {
        (b0, a)
    } else {
        (a, b0 + 1)
    }
}

/// Query results never repeat an id: each live record appears at most
/// once in a result list.
pub proof fn lemma_query_distinct_ids(
    entries: Seq<(u64, Seq<i64>)>,
    m: Metric,
    q: Seq<i64>,
    k: int,
    t: Option<i128>,
)
    requires
        k >= 0,
        forall|a: int, b: int|
            0 <= a < b < entries.len() ==> (#[trigger] entries[a]).0 != (#[trigger] entries[b]).0,
    ensures
        forall|i: int, j: int|
            0 <= i < j < query_spec(entries, m, q, k, t).len() ==> (#[trigger] query_spec(
                entries,
                m,
                q,
                k,
                t,
            )[i]).id != (#[trigger] query_spec(entries, m, q, k, t)[j]).id,
{
    broadcast use group_to_multiset_ensures;

    let kept = kept_of(entries, m, q, t);
    let sorted = ranked_of(entries, m, q, t);
    let r = query_spec(entries, m, q, k, t);
    lemma_hit_order_total();
    kept.lemma_sort_by_ensures(hit_order());
    lemma_kept_distinct_ids(entries, m, q, t);
    assert forall|i: int, j: int| 0 <= i < j < r.len() implies (#[trigger] r[i]).id != (
    #[trigger] r[j]).id by {
        assert(r[i] == sorted[i]);
        assert(r[j] == sorted[j]);
        if r[i].id == r[j].id {
            if sorted[i] == sorted[j] {
                lemma_two_positions_count(sorted, i, j);
                assert(kept.to_multiset().count(sorted[i]) >= 2);
                let (a, b) = lemma_count_two_positions(kept, sorted[i]);
                assert(kept[a].id != kept[b].id);
                assert(false);
            } else {
                assert(sorted.contains(sorted[i]));
                assert(sorted.contains(sorted[j]));
                assert(kept.contains(sorted[i]));
                assert(kept.contains(sorted[j]));
                let a = choose|a: int| 0 <= a < kept.len() && kept[a] == sorted[i];
                let b = choose|b: int| 0 <= b < kept.len() && kept[b] == sorted[j];
                assert(a != b);
                if a < b {
                    assert(kept[a].id != kept[b].id);
                } else {
                    assert(kept[b].id != kept[a].id);
                }
                assert(false);
            }
        }
    }
}

/// Deterministic tie-break: among returned results with equal scores, ids
/// strictly ascend, so two records with identical vectors come back in
/// ascending id order.
pub proof fn lemma_tie_break(
    entries: Seq<(u64, Seq<i64>)>,
    m: Metric,
    q: Seq<i64>,
    k: int,
    t: Option<i128>,
    i: int,
    j: int,
)
    requires
        k >= 0,
        forall|a: int, b: int|
            0 <= a < b < entries.len() ==> (#[trigger] entries[a]).0 != (#[trigger] entries[b]).0,
        0 <= i < j < query_spec(entries, m, q, k, t).len(),
    ensures
        hit_le(query_spec(entries, m, q, k, t)[i], query_spec(entries, m, q, k, t)[j]),
        query_spec(entries, m, q, k, t)[i].score == query_spec(entries, m, q, k, t)[j].score
            ==> query_spec(entries, m, q, k, t)[i].id < query_spec(entries, m, q, k, t)[j].id,
{
    lemma_query_bounded_and_ranked(entries, m, q, k, t);
    lemma_query_distinct_ids(entries, m, q, k, t);
}

/// Rebuildability: replaying a valid store through the best-effort
/// rebuild reproduces it exactly and skips nothing, so the index can
/// always be reconstructed from the stored records.
pub proof fn lemma_rebuild_roundtrip(s: Seq<(u64, Seq<i64>, Seq<char>)>, dim: int)
    requires
        crate::store::valid_records(s, dim),
    ensures
        crate::engine::rebuild_accepted(s, dim) == s,
        crate::engine::rebuild_skipped(s, dim) == Seq::<u64>::empty(),
    decreases s.len(),
{
    if s.len() == 0 {
        assert(crate::engine::rebuild_accepted(s, dim) =~= s);
    } else {
        let front = s.drop_last();
        let e = s.last();
        assert forall|a: int| 0 <= a < front.len() implies (#[trigger] front[a]).1.len() == dim
            && vector_in_range(front[a].1) by {
            assert(front[a] == s[a]);
        }
        assert forall|a: int, b: int| 0 <= a < b < front.len() implies (#[trigger] front[a]).0 != (
        #[trigger] front[b]).0 by {
            assert(front[a] == s[a]);
            assert(front[b] == s[b]);
        }
        lemma_rebuild_roundtrip(front, dim);
        assert(!crate::store::store_contains_id(front, e.0)) by {
            if crate::store::store_contains_id(front, e.0) {
                let w = choose|w: int| 0 <= w < front.len() && front[w].0 == e.0;
                assert(s[w].0 != s[s.len() - 1].0);
            }
        }
        assert(front.push(e) =~= s);
    }
}

/// A query against an empty index returns an empty sequence, not an
/// error.
pub proof fn lemma_query_empty_index(m: Metric, q: Seq<i64>, k: int, t: Option<i128>)
    requires
        k >= 0,
    ensures
        query_spec(Seq::<(u64, Seq<i64>)>::empty(), m, q, k, t) == Seq::<QueryHit>::empty(),
{
    broadcast use group_to_multiset_ensures;

    lemma_hit_order_total();
    lemma_kept_empty(m, q, t);
    let kept = kept_of(Seq::<(u64, Seq<i64>)>::empty(), m, q, t);
    kept.lemma_sort_by_ensures(hit_order());
    let sorted = ranked_of(Seq::<(u64, Seq<i64>)>::empty(), m, q, t);
    assert(kept.len() == kept.to_multiset().len());
    assert(sorted.len() == sorted.to_multiset().len());
    assert(sorted.len() == kept.len());
    assert(sorted =~= Seq::<QueryHit>::empty());
}

} // verus!
