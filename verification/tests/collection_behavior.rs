use vector_index::engine::{rebuild, Collection, Create};
use vector_index::errors::IndexError;
use vector_index::metric::{Metric, MAX_COMPONENT};
use vector_index::store::{VectorRecord, VectorStore};

fn record(id: u64, components: &[i64], payload: &str) -> VectorRecord {
    VectorRecord { id, vector: components.to_vec(), payload: payload.to_string() }
}

#[test]
fn empty_collection_search_returns_empty() {
    let c = Collection::new(3, Metric::Cosine);
    let results = c.search(&vec![1, 2, 3], 5, None).unwrap();
    assert!(results.is_empty());
}

#[test]
fn insert_then_search_hydrates_payloads() {
    let mut c = Collection::new(3, Metric::Cosine);
    c.insert(record(1, &[9, 8, 1], "cats are mammals")).unwrap();
    c.insert(record(2, &[8, 9, 1], "dogs are mammals")).unwrap();
    c.insert(record(3, &[0, 1, 9], "stock market fell today")).unwrap();
    // A query near the two animal vectors must rank records 1 and 2
    // above record 3.
    let results = c.search(&vec![10, 7, 0], 2, None).unwrap();
    assert_eq!(results.len(), 2);
    assert_eq!(results[0].id, 1);
    assert_eq!(results[1].id, 2);
    assert_eq!(results[0].payload, "cats are mammals");
    assert_eq!(results[1].payload, "dogs are mammals");
    assert!(results.iter().all(|r| r.id != 3));
}

#[test]
fn insert_duplicate_id_is_rejected() {
    let mut c = Collection::new(2, Metric::Cosine);
    c.insert(record(1, &[1, 0], "first")).unwrap();
    let r = c.insert(record(1, &[0, 1], "second"));
    assert_eq!(r, Err(IndexError::DuplicateId));
    assert_eq!(c.count(), 1);
    assert_eq!(c.get(1).unwrap().payload, "first");
}

#[test]
fn insert_wrong_dimension_is_rejected_with_no_partial_state() {
    let mut c = Collection::new(3, Metric::Cosine);
    let r = c.insert(record(7, &[1, 2], "short"));
    assert_eq!(r, Err(IndexError::DimensionMismatch));
    assert_eq!(c.count(), 0);
    assert!(c.get(7).is_none());
    let results = c.search(&vec![1, 2, 3], 5, None).unwrap();
    assert!(results.is_empty());
}

#[test]
fn remove_twice_is_idempotent() {
    let mut c = Collection::new(2, Metric::Euclidean);
    c.insert(record(4, &[1, 2], "keep")).unwrap();
    c.insert(record(5, &[3, 4], "drop")).unwrap();
    assert_eq!(c.remove(5), Ok(()));
    assert_eq!(c.count(), 1);
    assert_eq!(c.remove(5), Err(IndexError::NotFound));
    assert_eq!(c.count(), 1);
    let results = c.search(&vec![0, 0], 10, None).unwrap();
    assert_eq!(results.len(), 1);
    assert_eq!(results[0].id, 4);
}

#[test]
fn search_wrong_dimension_is_rejected() {
    let c = Collection::new(3, Metric::Cosine);
    let r = c.search(&vec![1, 2], 5, None);
    assert!(matches!(r, Err(IndexError::DimensionMismatch)));
}

#[test]
fn search_results_respect_threshold_and_k() {
    let mut c = Collection::new(2, Metric::Euclidean);
    c.insert(record(1, &[0, 0], "origin")).unwrap();
    c.insert(record(2, &[3, 4], "near")).unwrap();
    c.insert(record(3, &[30, 40], "far")).unwrap();
    // Euclidean scores against [0, 0]: 0, -25, -2500.
    let all = c.search(&vec![0, 0], 10, None).unwrap();
    assert_eq!(all.len(), 3);
    assert_eq!(all[0].id, 1);
    assert_eq!(all[0].score, 0);
    assert_eq!(all[1].score, -25);
    assert_eq!(all[2].score, -2500);
    let near_only = c.search(&vec![0, 0], 10, Some(-100)).unwrap();
    assert_eq!(near_only.len(), 2);
    let top_one = c.search(&vec![0, 0], 1, Some(-100)).unwrap();
    assert_eq!(top_one.len(), 1);
    assert_eq!(top_one[0].id, 1);
}

#[test]
fn store_insert_get_delete_count() {
    let mut s = VectorStore::new(2);
    assert_eq!(s.count(), 0);
    s.insert(record(1, &[1, 2], "one")).unwrap();
    s.insert(record(2, &[3, 4], "two")).unwrap();
    assert_eq!(s.count(), 2);
    assert_eq!(s.get(1).unwrap().payload, "one");
    assert_eq!(s.get(2).unwrap().vector, vec![3, 4]);
    assert!(s.get(9).is_none());
    assert_eq!(s.delete(9), Err(IndexError::NotFound));
    assert_eq!(s.delete(1), Ok(()));
    assert!(s.get(1).is_none());
    assert_eq!(s.count(), 1);
    assert_eq!(s.insert(record(2, &[5, 6], "again")), Err(IndexError::DuplicateId));
    assert_eq!(s.insert(record(3, &[5, 6, 7], "long")), Err(IndexError::DimensionMismatch));
}

#[test]
fn store_scan_lists_records_in_insertion_order() {
    let mut s = VectorStore::new(1);
    s.insert(record(5, &[1], "a")).unwrap();
    s.insert(record(2, &[2], "b")).unwrap();
    let ids: Vec<u64> = s.scan().iter().map(|r| r.id).collect();
    assert_eq!(ids, vec![5, 2]);
}

#[test]
fn rebuild_skips_bad_records_and_keeps_the_rest() {
    let records = vec![
        record(1, &[1, 2], "good"),
        record(2, &[1, 2, 3], "wrong length"),
        record(1, &[4, 5], "duplicate id"),
        record(3, &[MAX_COMPONENT + 1, 0], "component out of range"),
        record(4, &[6, 7], "also good"),
    ];
    let (c, skipped) = rebuild(2, Metric::Cosine, &records);
    assert_eq!(skipped, vec![2, 1, 3]);
    assert_eq!(c.count(), 2);
    assert_eq!(c.get(1).unwrap().payload, "good");
    assert_eq!(c.get(4).unwrap().payload, "also good");
}

#[test]
fn rebuild_of_valid_records_skips_nothing() {
    let records = vec![record(1, &[1, 2], "a"), record(2, &[3, 4], "b"), record(3, &[5, 6], "c")];
    let (c, skipped) = rebuild(2, Metric::Euclidean, &records);
    assert!(skipped.is_empty());
    assert_eq!(c.count(), 3);
    let results = c.search(&vec![3, 4], 3, None).unwrap();
    assert_eq!(results[0].id, 2);
    assert_eq!(results[0].score, 0);
}

#[test]
fn create_request_stores_content_under_the_given_id() {
    let mut c = Collection::new(2, Metric::Cosine);
    let r = c.create(11, vec![1, 2], Create { content: "hello".to_string() });
    assert_eq!(r, Ok(()));
    assert_eq!(c.count(), 1);
    assert_eq!(c.get(11).unwrap().payload, "hello");
    let again = c.create(11, vec![3, 4], Create { content: "again".to_string() });
    assert_eq!(again, Err(IndexError::DuplicateId));
}

#[test]
fn error_descriptions_are_stable() {
    assert_eq!(
        IndexError::DimensionMismatch.describe(),
        "vector length disagrees with the collection dimension"
    );
    assert_eq!(IndexError::DuplicateId.describe(), "a record with this id already exists");
    assert_eq!(IndexError::NotFound.describe(), "no record with this id exists");
}

#[test]
fn collection_reports_dimension_and_metric() {
    let c = Collection::new(384, Metric::Euclidean);
    assert_eq!(c.dimension(), 384);
    assert_eq!(c.metric(), Metric::Euclidean);
    assert_eq!(c.count(), 0);
}
