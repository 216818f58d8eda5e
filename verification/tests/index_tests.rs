//! Lifecycle, mutation, and error-path tests for the index.

use diskann::index::{DeleteOutcome, DiskAnnIndex, IndexError};

fn small_index() -> DiskAnnIndex {
    DiskAnnIndex::create_index(2, 0, 4, 8, 120).unwrap()
}

#[test]
fn create_index_validates_parameters() {
    assert!(DiskAnnIndex::create_index(2, 0, 4, 8, 120).is_ok());
    assert!(DiskAnnIndex::create_index(1, 1, 2, 2, 100).is_ok());
    // non-positive dimension
    assert_eq!(
        DiskAnnIndex::create_index(0, 0, 4, 8, 120).unwrap_err(),
        IndexError::InvalidParameter
    );
    // unsupported metric code
    assert_eq!(
        DiskAnnIndex::create_index(2, 2, 4, 8, 120).unwrap_err(),
        IndexError::InvalidParameter
    );
    // degree bound below 2
    assert_eq!(
        DiskAnnIndex::create_index(2, 0, 1, 8, 120).unwrap_err(),
        IndexError::InvalidParameter
    );
    // search width below the degree bound
    assert_eq!(
        DiskAnnIndex::create_index(2, 0, 4, 3, 120).unwrap_err(),
        IndexError::InvalidParameter
    );
    // alpha below 1.00
    assert_eq!(
        DiskAnnIndex::create_index(2, 0, 4, 8, 99).unwrap_err(),
        IndexError::InvalidParameter
    );
}

#[test]
fn insert_rejects_dimension_mismatch() {
    let mut ix = small_index();
    assert_eq!(
        ix.insert(vec![1, 2, 3], 7).unwrap_err(),
        IndexError::DimensionMismatch
    );
    // nothing was stored
    assert_eq!(ix.slot_count(), 0);
    assert_eq!(ix.search(&vec![0, 0], 1).unwrap(), vec![]);
    assert!(ix.insert(vec![1, 2], 7).is_ok());
    assert_eq!(ix.slot_count(), 1);
}

#[test]
fn delete_is_idempotent() {
    let mut ix = small_index();
    ix.insert(vec![0, 0], 10).unwrap();
    let id_b = ix.insert(vec![1, 0], 11).unwrap();
    ix.insert(vec![2, 0], 12).unwrap();
    assert_eq!(ix.delete(11), DeleteOutcome::Deleted);
    let nbrs_before: Vec<Vec<usize>> = (0..ix.slot_count()).map(|i| ix.neighbors_of(i)).collect();
    // the second delete of the same row reports NotFound and leaves the
    // graph untouched
    assert_eq!(ix.delete(11), DeleteOutcome::NotFound);
    let nbrs_after: Vec<Vec<usize>> = (0..ix.slot_count()).map(|i| ix.neighbors_of(i)).collect();
    assert_eq!(nbrs_before, nbrs_after);
    assert!(!ix.is_live_id(id_b));
}

#[test]
fn delete_unknown_row_is_not_found() {
    let mut ix = small_index();
    ix.insert(vec![0, 0], 10).unwrap();
    assert_eq!(ix.delete(99), DeleteOutcome::NotFound);
    assert!(ix.is_live_id(0));
}

#[test]
fn search_rejects_bad_arguments() {
    let mut ix = small_index();
    ix.insert(vec![0, 0], 10).unwrap();
    assert_eq!(
        ix.search(&vec![0, 0], 0).unwrap_err(),
        IndexError::InvalidParameter
    );
    assert_eq!(
        ix.search(&vec![0, 0, 0], 1).unwrap_err(),
        IndexError::InvalidParameter
    );
}

#[test]
fn search_on_empty_index_returns_empty() {
    let ix = small_index();
    assert_eq!(ix.search(&vec![3, 4], 5).unwrap(), vec![]);
}

#[test]
fn tombstoned_rows_never_returned() {
    let mut ix = small_index();
    ix.insert(vec![0, 0], 10).unwrap();
    ix.insert(vec![1, 0], 11).unwrap();
    ix.insert(vec![2, 0], 12).unwrap();
    assert_eq!(ix.delete(10), DeleteOutcome::Deleted);
    let res = ix.search(&vec![0, 0], 3).unwrap();
    assert_eq!(res.len(), 2);
    assert!(res.iter().all(|p| p.0 != 10));
}

#[test]
fn degree_bound_holds_after_many_inserts() {
    let mut ix = DiskAnnIndex::create_index(2, 0, 2, 4, 120).unwrap();
    for i in 0..20i32 {
        ix.insert(vec![i, -i], 100 + i as i64).unwrap();
    }
    for id in 0..ix.slot_count() {
        assert!(ix.neighbors_of(id).len() <= 2);
    }
}

#[test]
fn robust_prune_respects_degree_bound() {
    let mut ix = DiskAnnIndex::create_index(2, 0, 2, 4, 120).unwrap();
    for i in 0..6i32 {
        ix.insert(vec![i, 0], 200 + i as i64).unwrap();
    }
    let pool: Vec<(usize, u128)> = (0..6usize).map(|i| (i, i as u128)).collect();
    let acc = ix.robust_prune(&vec![0, 0], &pool, 120);
    assert!(acc.len() <= 2);
    let mut seen = acc.clone();
    seen.sort();
    seen.dedup();
    assert_eq!(seen.len(), acc.len());
    assert!(acc.iter().all(|id| *id < 6));
}

#[test]
fn consolidate_removes_tombstones_and_keeps_live_reachable() {
    let mut ix = DiskAnnIndex::create_index(2, 0, 3, 6, 120).unwrap();
    for i in 0..10i32 {
        ix.insert(vec![i, i * 2], 300 + i as i64).unwrap();
    }
    assert_eq!(ix.delete(300), DeleteOutcome::Deleted);
    assert_eq!(ix.delete(303), DeleteOutcome::Deleted);
    assert_eq!(ix.delete(307), DeleteOutcome::Deleted);
    ix.consolidate();
    // every tombstoned row is gone; the live ones survive with their data
    let res = ix.search(&vec![0, 0], 10).unwrap();
    assert_eq!(res.len(), 7);
    assert!(res.iter().all(|p| p.0 != 300 && p.0 != 303 && p.0 != 307));
    // every live node is reachable from some entry point
    let mut seen = vec![false; ix.slot_count()];
    let mut queue: Vec<usize> = ix.entry_points();
    for &e in &queue {
        seen[e] = true;
    }
    while let Some(v) = queue.pop() {
        for n in ix.neighbors_of(v) {
            if !seen[n] {
                seen[n] = true;
                queue.push(n);
            }
        }
    }
    for id in 0..ix.slot_count() {
        if ix.is_live_id(id) {
            assert!(seen[id], "live node {} unreachable", id);
        }
    }
    // freed slots are reused before the store grows
    let slots = ix.slot_count();
    ix.insert(vec![50, 50], 400).unwrap();
    assert_eq!(ix.slot_count(), slots);
}

#[test]
fn parameter_getters_echo_creation() {
    let ix = DiskAnnIndex::create_index(6, 1, 3, 9, 150).unwrap();
    assert_eq!(ix.dimension(), 6);
    assert_eq!(ix.metric_code(), 1);
    assert_eq!(ix.degree_bound(), 3);
    assert_eq!(ix.search_width(), 9);
    assert_eq!(ix.alpha_hundredths(), 150);
}

#[test]
fn create_index_rejects_oversized_dimension() {
    assert_eq!(
        DiskAnnIndex::create_index(0x10_0001, 0, 4, 8, 120).unwrap_err(),
        IndexError::InvalidParameter
    );
}
