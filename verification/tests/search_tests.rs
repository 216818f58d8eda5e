//! Search-quality scenarios: the concrete four-vector example, self
//! retrieval, result sizing, the codebook, and a recall benchmark over a
//! bulk-built index.

use diskann::builder::IndexBuilder;
use diskann::codebook::CompressedCodebook;
use diskann::index::{DeleteOutcome, DiskAnnIndex, IndexError};

/// Distances are returned squared under the L2 metric; this recovers the
/// Euclidean value for assertions against the designed figures.
fn euclid(d: u128) -> f64 {
    (d as f64).sqrt()
}

#[test]
fn concrete_example_four_vectors() {
    // A=[0,0], B=[1,0], C=[5,5], D=[1,1] under L2; the query [0,0] ranks
    // them A (0), B (1), D (1.414...), C (7.07...).
    let mut ix = DiskAnnIndex::create_index(2, 0, 4, 8, 120).unwrap();
    ix.insert(vec![0, 0], 1).unwrap(); // A
    ix.insert(vec![1, 0], 2).unwrap(); // B
    ix.insert(vec![5, 5], 3).unwrap(); // C
    ix.insert(vec![1, 1], 4).unwrap(); // D
    let res = ix.search(&vec![0, 0], 2).unwrap();
    assert_eq!(res, vec![(1, 0), (2, 1)]);
    let all = ix.search(&vec![0, 0], 4).unwrap();
    assert_eq!(
        all.iter().map(|p| p.0).collect::<Vec<i64>>(),
        vec![1, 2, 4, 3]
    );
    assert_eq!(
        all.iter().map(|p| p.1).collect::<Vec<u128>>(),
        vec![0, 1, 2, 50]
    );
    assert!((euclid(all[2].1) - 1.4142135623730951).abs() < 1e-9);
    assert!((euclid(all[3].1) - 7.0710678118654755).abs() < 1e-9);
}

#[test]
fn self_retrieval_returns_own_row() {
    let mut ix = DiskAnnIndex::create_index(3, 0, 4, 8, 120).unwrap();
    let vectors: Vec<Vec<i32>> = vec![
        vec![0, 0, 0],
        vec![10, -3, 7],
        vec![-5, 2, 2],
        vec![100, 50, -20],
        vec![1, 1, 1],
    ];
    for (i, v) in vectors.iter().enumerate() {
        ix.insert(v.clone(), 500 + i as i64).unwrap();
    }
    for (i, v) in vectors.iter().enumerate() {
        let res = ix.search(v, 1).unwrap();
        assert_eq!(res, vec![(500 + i as i64, 0)]);
    }
}

#[test]
fn result_sizing_is_min_of_k_and_live() {
    let mut ix = DiskAnnIndex::create_index(2, 0, 4, 8, 120).unwrap();
    for i in 0..5i32 {
        ix.insert(vec![i, i], 600 + i as i64).unwrap();
    }
    assert_eq!(ix.delete(601), DeleteOutcome::Deleted);
    assert_eq!(ix.delete(604), DeleteOutcome::Deleted);
    // three live vectors remain
    let q = vec![2, 2];
    assert_eq!(ix.search(&q, 1).unwrap().len(), 1);
    assert_eq!(ix.search(&q, 2).unwrap().len(), 2);
    assert_eq!(ix.search(&q, 3).unwrap().len(), 3);
    assert_eq!(ix.search(&q, 8).unwrap().len(), 3);
    assert_eq!(ix.search(&q, 100).unwrap().len(), 3);
}

#[test]
fn manhattan_metric_distances() {
    let mut ix = DiskAnnIndex::create_index(2, 1, 2, 4, 100).unwrap();
    ix.insert(vec![0, 0], 1).unwrap();
    ix.insert(vec![3, 4], 2).unwrap();
    let res = ix.search(&vec![0, 0], 2).unwrap();
    assert_eq!(res, vec![(1, 0), (2, 7)]);
}

#[test]
fn ties_break_by_lower_node_id() {
    let mut ix = DiskAnnIndex::create_index(2, 0, 2, 4, 100).unwrap();
    ix.insert(vec![1, 0], 11).unwrap(); // node 0
    ix.insert(vec![0, 1], 12).unwrap(); // node 1, same distance to origin
    let res = ix.search(&vec![0, 0], 1).unwrap();
    assert_eq!(res, vec![(11, 1)]);
}

#[test]
fn codebook_trains_encodes_and_scores() {
    let samples: Vec<Vec<i32>> = vec![vec![0, 0, 10, 10], vec![10, 10, 0, 0]];
    let cb = CompressedCodebook::train(4, 2, 2, &samples).unwrap();
    // nearest centroid per sub-space
    let code = cb.encode(&vec![1, 1, 9, 9]);
    assert_eq!(code.len(), 2);
    assert_eq!(code, vec![0, 0]); // sub-vectors [1,1]->[0,0], [9,9]->[10,10]
    let other = cb.encode(&vec![9, 9, 1, 1]);
    assert_eq!(other, vec![1, 1]);
    // the approximate distance is exactly the distance to the decoded
    // centroids: [0,0] and [10,10] against the query's halves
    let d = cb.approx_distance(&code, &vec![0, 0, 0, 0]);
    assert_eq!(d, 0 + 200);
}

#[test]
fn codebook_rejects_bad_parameters() {
    let samples: Vec<Vec<i32>> = vec![vec![0, 0, 0, 0]];
    assert_eq!(
        CompressedCodebook::train(0, 1, 2, &samples).unwrap_err(),
        IndexError::InvalidParameter
    );
    assert_eq!(
        CompressedCodebook::train(4, 3, 2, &samples).unwrap_err(),
        IndexError::InvalidParameter
    );
    assert_eq!(
        CompressedCodebook::train(4, 2, 0, &samples).unwrap_err(),
        IndexError::InvalidParameter
    );
    let empty: Vec<Vec<i32>> = vec![];
    assert_eq!(
        CompressedCodebook::train(4, 2, 2, &empty).unwrap_err(),
        IndexError::InvalidParameter
    );
    let ragged: Vec<Vec<i32>> = vec![vec![0, 0, 0]];
    assert_eq!(
        CompressedCodebook::train(4, 2, 2, &ragged).unwrap_err(),
        IndexError::InvalidParameter
    );
}

#[test]
fn builder_validates_and_builds() {
    let b = IndexBuilder::new(2, 0, 2, 4, 120, 42);
    let vectors = vec![vec![0, 0], vec![3, 3], vec![9, 9]];
    let rows = vec![1, 2, 3];
    let ix = b.build(&vectors, &rows).unwrap();
    let res = ix.search(&vec![0, 0], 3).unwrap();
    assert_eq!(res.iter().map(|p| p.0).collect::<Vec<i64>>(), vec![1, 2, 3]);
    // mismatched lengths are rejected
    assert!(b.build(&vectors, &vec![1, 2]).is_err());
    // a misdimensioned vector is rejected
    assert_eq!(
        b.build(&vec![vec![0, 0], vec![1, 2, 3]], &vec![1, 2]).unwrap_err(),
        IndexError::DimensionMismatch
    );
    // deterministic for a fixed seed
    let again = b.build(&vectors, &rows).unwrap();
    for id in 0..ix.slot_count() {
        assert_eq!(ix.neighbors_of(id), again.neighbors_of(id));
    }
}

fn lcg(state: &mut u64) -> u64 {
    *state = state
        .wrapping_mul(6364136223846793005)
        .wrapping_add(1442695040888963407);
    *state
}

#[test]
fn recall_against_brute_force() {
    // Bulk-build over random 8-dimensional vectors under L2, then check
    // that graph search overlaps exact k-nearest-neighbour results by at
    // least 90% over random queries.
    let n = 300usize;
    let dim = 8usize;
    let k = 10usize;
    let mut st = 0xDEADBEEFu64;
    let mut vectors: Vec<Vec<i32>> = Vec::new();
    let mut rows: Vec<i64> = Vec::new();
    for i in 0..n {
        let v: Vec<i32> = (0..dim).map(|_| (lcg(&mut st) % 1000) as i32 - 500).collect();
        vectors.push(v);
        rows.push(i as i64);
    }
    let b = IndexBuilder::new(dim, 0, 32, 64, 120, 7);
    let ix = b.build(&vectors, &rows).unwrap();
    let mut hits = 0usize;
    let mut total = 0usize;
    for _ in 0..20 {
        let q: Vec<i32> = (0..dim).map(|_| (lcg(&mut st) % 1000) as i32 - 500).collect();
        let got: Vec<i64> = ix.search(&q, k).unwrap().iter().map(|p| p.0).collect();
        let mut exact: Vec<(u128, i64)> = vectors
            .iter()
            .zip(rows.iter())
            .map(|(v, r)| {
                let d: u128 = v
                    .iter()
                    .zip(q.iter())
                    .map(|(a, b)| {
                        let t = (*a as i64 - *b as i64).unsigned_abs();
                        (t * t) as u128
                    })
                    .sum();
                (d, *r)
            })
            .collect();
        exact.sort();
        let want: Vec<i64> = exact.iter().take(k).map(|p| p.1).collect();
        total += k;
        hits += got.iter().filter(|r| want.contains(r)).count();
    }
    assert!(
        hits * 10 >= total * 9,
        "recall too low: {}/{} overlap",
        hits,
        total
    );
}
