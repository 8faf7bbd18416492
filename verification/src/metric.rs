//! Distance metrics and exact integer scoring.
//!
//! Vector components are scaled integers (fixed-point), so scores are exact:
//! the cosine score of two unit-scaled vectors is their dot product, and the
//! Euclidean score is the negated squared distance.  Both are arranged so
//! that a *higher* score always means a *better* match, whatever the metric;
//! callers never branch on the metric when consuming results.

use vstd::prelude::*;

verus! {

/// The distance metric of a collection, fixed at creation time.
#[derive(Clone, Copy, Debug, PartialEq, Eq, Structural)]
pub enum Metric {
    /// Normalized-dot-product similarity on unit-scaled vectors; higher is better.
    Cosine,
    /// Straight-line distance; internally negated so that higher is better.
    Euclidean,
}

/// The largest dimension a collection may be created with.
pub const MAX_DIMENSION: usize = 65536;

/// The largest magnitude a single fixed-point component may have.
///
/// Together with `MAX_DIMENSION` this keeps every score well inside `i128`:
/// a dot product is at most `MAX_DIMENSION * MAX_COMPONENT * MAX_COMPONENT`
/// and a squared distance at most four times that.
pub const MAX_COMPONENT: i64 = 1_000_000_000;

/// One component is within the fixed-point range the library accepts.
pub open spec fn component_in_range(c: i64) -> bool {
    -MAX_COMPONENT <= c <= MAX_COMPONENT
}

/// Every component of the vector is within the fixed-point range.
pub open spec fn vector_in_range(v: Seq<i64>) -> bool {
    forall|i: int| 0 <= i < v.len() ==> component_in_range(#[trigger] v[i])
}

/// The mathematical dot product of two equal-length vectors.
pub open spec fn dot(a: Seq<i64>, b: Seq<i64>) -> int
    decreases a.len(),
{
    if a.len() == 0 || b.len() == 0 {
        0
    } else {
        a.last() * b.last() + dot(a.drop_last(), b.drop_last())
    }
}

/// The mathematical squared Euclidean distance of two equal-length vectors.
pub open spec fn sq_dist(a: Seq<i64>, b: Seq<i64>) -> int
    decreases a.len(),
{
    if a.len() == 0 || b.len() == 0 {
        0
    } else {
        (a.last() - b.last()) * (a.last() - b.last()) + sq_dist(a.drop_last(), b.drop_last())
    }
}

/// The uniform better-first score of candidate `v` against query `q`:
/// the dot product for cosine, the negated squared distance for Euclidean.
/// Under either metric, greater means more similar.
pub open spec fn goodness(m: Metric, q: Seq<i64>, v: Seq<i64>) -> int {
    match m {
        Metric::Cosine => dot(q, v),
        Metric::Euclidean => -sq_dist(q, v),
    }
}

/// Every score of in-range vectors of an admissible dimension lies in this
/// interval, which sits comfortably inside `i128`.
pub open spec fn score_in_range(g: int) -> bool {
    -262144000000000000000000 <= g <= 262144000000000000000000
}

proof fn lemma_mul_bound(x: int, y: int, b: int)
    by (nonlinear_arith)
    requires
        -b <= x <= b,
        -b <= y <= b,
        0 <= b,
    ensures
        -(b * b) <= x * y <= b * b,
{
}

/// The dot product of in-range vectors grows at most linearly with length.
pub proof fn lemma_dot_bound(a: Seq<i64>, b: Seq<i64>)
    requires
        a.len() == b.len(),
        vector_in_range(a),
        vector_in_range(b),
    ensures
        -(a.len() as int) * 1000000000000000000 <= dot(a, b) <= (a.len() as int)
            * 1000000000000000000,
    decreases a.len(),
{
    if a.len() > 0 {
        lemma_dot_bound(a.drop_last(), b.drop_last());
        lemma_mul_bound(a.last() as int, b.last() as int, MAX_COMPONENT as int);
    }
}

/// The squared distance of in-range vectors grows at most linearly with length.
pub proof fn lemma_sq_dist_bound(a: Seq<i64>, b: Seq<i64>)
    requires
        a.len() == b.len(),
        vector_in_range(a),
        vector_in_range(b),
    ensures
        0 <= sq_dist(a, b) <= (a.len() as int) * 4000000000000000000,
    decreases a.len(),
{
    if a.len() > 0 {
        lemma_sq_dist_bound(a.drop_last(), b.drop_last());
        lemma_square_bound(a.last() - b.last(), 2000000000, 4000000000000000000);
    }
}

proof fn lemma_square_bound(x: int, b: int, bsq: int)
    by (nonlinear_arith)
    requires
        -b <= x <= b,
        0 <= b,
        b * b <= bsq,
    ensures
        0 <= x * x <= bsq,
{
}

/// Scores of in-range vectors of admissible dimension stay in `score_in_range`.
pub proof fn lemma_goodness_in_range(m: Metric, q: Seq<i64>, v: Seq<i64>)
    requires
        q.len() == v.len(),
        q.len() <= MAX_DIMENSION,
        vector_in_range(q),
        vector_in_range(v),
    ensures
        score_in_range(goodness(m, q, v)),
{
    lemma_dot_bound(q, v);
    lemma_sq_dist_bound(q, v);
}

/// A vector is at squared distance zero from itself.
pub proof fn lemma_sq_dist_self_zero(v: Seq<i64>)
    ensures
        sq_dist(v, v) == 0,
    decreases v.len(),
{
    if v.len() > 0 {
        lemma_sq_dist_self_zero(v.drop_last());
    }
}

/// Under the Euclidean metric, no stored vector can score better against a
/// query than the query itself: self-distance is zero and distances are
/// non-negative.
pub proof fn lemma_euclidean_self_best(q: Seq<i64>, v: Seq<i64>)
    requires
        q.len() == v.len(),
        vector_in_range(q),
        vector_in_range(v),
    ensures
        goodness(Metric::Euclidean, q, v) <= goodness(Metric::Euclidean, q, q),
{
    lemma_sq_dist_self_zero(q);
    lemma_sq_dist_bound(q, v);
}

/// Exact exec dot product, accumulated in `i128`.
fn dot_product(q: &Vec<i64>, v: &Vec<i64>) -> (s: i128)
    requires
        q@.len() == v@.len(),
        q@.len() <= MAX_DIMENSION,
        vector_in_range(q@),
        vector_in_range(v@),
    ensures
        s as int == dot(q@, v@),
{
    let n = q.len();
    let mut acc: i128 = 0;
    let mut i: usize = 0;
    while i < n
        invariant
            n == q@.len(),
            q@.len() == v@.len(),
            q@.len() <= MAX_DIMENSION,
            vector_in_range(q@),
            vector_in_range(v@),
            0 <= i <= n,
            acc as int == dot(q@.take(i as int), v@.take(i as int)),
            -(i as int) * 1000000000000000000 <= acc as int <= (i as int) * 1000000000000000000,
        decreases n - i,
    {
        proof {
            lemma_mul_bound(q@[i as int] as int, v@[i as int] as int, MAX_COMPONENT as int);
            assert(q@.take(i as int + 1).drop_last() =~= q@.take(i as int));
            assert(v@.take(i as int + 1).drop_last() =~= v@.take(i as int));
            assert(q@.take(i as int + 1).last() == q@[i as int]);
        }
        let term: i128 = (q[i] as i128) * (v[i] as i128);
        acc = acc + term;
        i = i + 1;
    }
    proof {
        assert(q@.take(n as int) =~= q@);
        assert(v@.take(n as int) =~= v@);
    }
    acc
}

/// Exact exec squared Euclidean distance, accumulated in `i128`.
fn squared_distance(q: &Vec<i64>, v: &Vec<i64>) -> (s: i128)
    requires
        q@.len() == v@.len(),
        q@.len() <= MAX_DIMENSION,
        vector_in_range(q@),
        vector_in_range(v@),
    ensures
        s as int == sq_dist(q@, v@),
        s >= 0,
{
    let n = q.len();
    let mut acc: i128 = 0;
    let mut i: usize = 0;
    while i < n
        invariant
            n == q@.len(),
            q@.len() == v@.len(),
            q@.len() <= MAX_DIMENSION,
            vector_in_range(q@),
            vector_in_range(v@),
            0 <= i <= n,
            acc as int == sq_dist(q@.take(i as int), v@.take(i as int)),
            0 <= acc as int <= (i as int) * 4000000000000000000,
        decreases n - i,
    {
        proof {
            lemma_square_bound(q@[i as int] - v@[i as int], 2000000000, 4000000000000000000);
            assert(q@.take(i as int + 1).drop_last() =~= q@.take(i as int));
            assert(v@.take(i as int + 1).drop_last() =~= v@.take(i as int));
            assert(q@.take(i as int + 1).last() == q@[i as int]);
        }
        let diff: i128 = (q[i] as i128) - (v[i] as i128);
        let term: i128 = diff * diff;
        acc = acc + term;
        i = i + 1;
    }
    proof {
        assert(q@.take(n as int) =~= q@);
        assert(v@.take(n as int) =~= v@);
    }
    acc
}

/// The exact better-first score of candidate `v` against query `q`.
pub fn score(metric: Metric, q: &Vec<i64>, v: &Vec<i64>) -> (s: i128)
    requires
        q@.len() == v@.len(),
        q@.len() <= MAX_DIMENSION,
        vector_in_range(q@),
        vector_in_range(v@),
    ensures
        s as int == goodness(metric, q@, v@),
        score_in_range(s as int),
{
    proof {
        lemma_goodness_in_range(metric, q@, v@);
    }
    match metric {
        Metric::Cosine => dot_product(q, v),
        Metric::Euclidean => {
            let d = squared_distance(q, v);
            proof {
                lemma_sq_dist_bound(q@, v@);
            }
            -d
        },
    }
}

} // verus!
