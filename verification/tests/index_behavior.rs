use vector_index::errors::IndexError;
use vector_index::index::SimilarityIndex;
use vector_index::metric::Metric;

fn v(components: &[i64]) -> Vec<i64> {
    components.to_vec()
}

#[test]
fn empty_index_query_returns_empty() {
    let idx = SimilarityIndex::new(3, Metric::Cosine);
    let hits = idx.query(&v(&[1, 2, 3]), 5, None).unwrap();
    assert_eq!(hits.len(), 0);
}

#[test]
fn empty_index_query_euclidean_returns_empty() {
    let idx = SimilarityIndex::new(4, Metric::Euclidean);
    let hits = idx.query(&v(&[0, 0, 0, 0]), 5, None).unwrap();
    assert!(hits.is_empty());
}

#[test]
fn add_wrong_length_fails_and_leaves_index_unchanged() {
    let mut idx = SimilarityIndex::new(3, Metric::Cosine);
    idx.add(1, v(&[1, 0, 0])).unwrap();
    let before = idx.len();
    let r = idx.add(7, v(&[1, 2]));
    assert_eq!(r, Err(IndexError::DimensionMismatch));
    assert_eq!(idx.len(), before);
    let hits = idx.query(&v(&[1, 0, 0]), 10, None).unwrap();
    assert_eq!(hits.len(), 1);
    assert_eq!(hits[0].id, 1);
}

#[test]
fn query_wrong_length_fails() {
    let idx = SimilarityIndex::new(3, Metric::Cosine);
    let r = idx.query(&v(&[1, 2]), 5, None);
    assert_eq!(r, Err(IndexError::DimensionMismatch));
}

#[test]
fn remove_twice_reports_not_found_and_state_unchanged() {
    let mut idx = SimilarityIndex::new(2, Metric::Cosine);
    idx.add(1, v(&[3, 4])).unwrap();
    idx.add(2, v(&[5, 6])).unwrap();
    assert_eq!(idx.remove(1), Ok(()));
    let after_first: Vec<(u64, i128)> = idx
        .query(&v(&[1, 1]), 10, None)
        .unwrap()
        .iter()
        .map(|h| (h.id, h.score))
        .collect();
    assert_eq!(idx.remove(1), Err(IndexError::NotFound));
    let after_second: Vec<(u64, i128)> = idx
        .query(&v(&[1, 1]), 10, None)
        .unwrap()
        .iter()
        .map(|h| (h.id, h.score))
        .collect();
    assert_eq!(after_first, after_second);
    assert_eq!(idx.len(), 1);
}

#[test]
fn removed_id_never_appears_in_results() {
    let mut idx = SimilarityIndex::new(2, Metric::Cosine);
    idx.add(1, v(&[1, 0])).unwrap();
    idx.add(2, v(&[0, 1])).unwrap();
    idx.remove(2).unwrap();
    let hits = idx.query(&v(&[1, 1]), 10, None).unwrap();
    assert!(hits.iter().all(|h| h.id != 2));
}

#[test]
fn tie_break_orders_equal_scores_by_ascending_id() {
    let mut idx = SimilarityIndex::new(3, Metric::Cosine);
    idx.add(5, v(&[2, 2, 2])).unwrap();
    idx.add(3, v(&[2, 2, 2])).unwrap();
    let hits = idx.query(&v(&[1, 1, 1]), 10, None).unwrap();
    assert_eq!(hits.len(), 2);
    assert_eq!(hits[0].score, hits[1].score);
    assert_eq!(hits[0].id, 3);
    assert_eq!(hits[1].id, 5);
}

#[test]
fn cosine_score_is_exact_dot_product() {
    let mut idx = SimilarityIndex::new(3, Metric::Cosine);
    idx.add(1, v(&[4, 5, 6])).unwrap();
    let hits = idx.query(&v(&[1, 2, 3]), 1, None).unwrap();
    assert_eq!(hits[0].score, 1 * 4 + 2 * 5 + 3 * 6);
    assert_eq!(hits[0].score, 32);
}

#[test]
fn euclidean_score_is_negated_squared_distance() {
    let mut idx = SimilarityIndex::new(3, Metric::Euclidean);
    idx.add(1, v(&[4, 6, 3])).unwrap();
    let hits = idx.query(&v(&[1, 2, 3]), 1, None).unwrap();
    assert_eq!(hits[0].score, -(9 + 16 + 0));
    assert_eq!(hits[0].score, -25);
}

#[test]
fn euclidean_round_trip_self_is_top() {
    let mut idx = SimilarityIndex::new(3, Metric::Euclidean);
    idx.add(1, v(&[10, 0, 0])).unwrap();
    idx.add(2, v(&[0, 10, 0])).unwrap();
    idx.add(9, v(&[3, 4, 5])).unwrap();
    let hits = idx.query(&v(&[3, 4, 5]), 3, None).unwrap();
    assert_eq!(hits[0].id, 9);
    assert_eq!(hits[0].score, 0);
}

#[test]
fn cosine_round_trip_self_is_top_when_nothing_closer() {
    let mut idx = SimilarityIndex::new(3, Metric::Cosine);
    idx.add(1, v(&[1, 0, 0])).unwrap();
    idx.add(2, v(&[0, 1, 0])).unwrap();
    idx.add(9, v(&[7, 7, 7])).unwrap();
    let hits = idx.query(&v(&[7, 7, 7]), 3, None).unwrap();
    assert_eq!(hits[0].id, 9);
    assert_eq!(hits[0].score, 3 * 49);
}

#[test]
fn results_are_ranked_best_first_and_truncated_to_k() {
    let mut idx = SimilarityIndex::new(2, Metric::Cosine);
    idx.add(1, v(&[1, 0])).unwrap();
    idx.add(2, v(&[2, 0])).unwrap();
    idx.add(3, v(&[3, 0])).unwrap();
    idx.add(4, v(&[4, 0])).unwrap();
    let hits = idx.query(&v(&[1, 0]), 2, None).unwrap();
    assert_eq!(hits.len(), 2);
    assert_eq!(hits[0].id, 4);
    assert_eq!(hits[1].id, 3);
    assert!(hits[0].score >= hits[1].score);
}

#[test]
fn threshold_filters_before_truncation() {
    let mut idx = SimilarityIndex::new(2, Metric::Cosine);
    idx.add(1, v(&[1, 0])).unwrap();
    idx.add(2, v(&[2, 0])).unwrap();
    idx.add(3, v(&[3, 0])).unwrap();
    // Scores against [1, 0] are 1, 2 and 3; only 3 passes the bound.
    let hits = idx.query(&v(&[1, 0]), 3, Some(3)).unwrap();
    assert_eq!(hits.len(), 1);
    assert_eq!(hits[0].id, 3);
}

#[test]
fn tightening_threshold_never_lengthens_results() {
    let mut idx = SimilarityIndex::new(2, Metric::Cosine);
    idx.add(1, v(&[1, 0])).unwrap();
    idx.add(2, v(&[2, 0])).unwrap();
    idx.add(3, v(&[3, 0])).unwrap();
    let loose = idx.query(&v(&[1, 0]), 3, Some(1)).unwrap();
    let mid = idx.query(&v(&[1, 0]), 3, Some(2)).unwrap();
    let tight = idx.query(&v(&[1, 0]), 3, Some(3)).unwrap();
    assert_eq!(loose.len(), 3);
    assert_eq!(mid.len(), 2);
    assert_eq!(tight.len(), 1);
    assert!(tight.len() <= mid.len() && mid.len() <= loose.len());
}

#[test]
fn adding_duplicate_id_replaces_the_vector() {
    let mut idx = SimilarityIndex::new(2, Metric::Cosine);
    idx.add(1, v(&[1, 0])).unwrap();
    idx.add(1, v(&[0, 1])).unwrap();
    assert_eq!(idx.len(), 1);
    let hits = idx.query(&v(&[0, 1]), 1, None).unwrap();
    assert_eq!(hits[0].id, 1);
    assert_eq!(hits[0].score, 1);
}

#[test]
fn dimension_and_metric_are_fixed_at_creation() {
    let idx = SimilarityIndex::new(384, Metric::Cosine);
    assert_eq!(idx.dimension(), 384);
    assert_eq!(idx.metric(), Metric::Cosine);
}
