//! Offline construction of an index from a bulk vector set.
//!
//! The build inserts every vector in a seeded, reproducible random order,
//! first with `alpha = 1` (hundredths value 100) to establish baseline
//! connectivity, then runs a second refinement pass over the same order
//! with the configured `alpha` to add the longer-range edges.

use crate::index::{valid_params, DiskAnnIndex, IndexError};
use crate::store::{copy_vec, live_count, NodeView};
use vstd::pervasive::VecAdditionalExecFns;
use vstd::prelude::*;

verus! {

/// A deterministic linear-congruential step; any value is acceptable, the
/// seed only fixes the insertion order.
fn lcg_step(x: u64) -> u64 {
    let prod: u128 = (x as u128) * 6364136223846793005u128;
    let sum: u128 = prod + 1442695040888963407u128;
    #[verifier::truncate]
    (sum as u64)
}

/// Offline index construction parameters, including the shuffle seed.
pub struct IndexBuilder {
    pub dim: usize,
    pub metric_code: u32,
    pub r: usize,
    pub l: usize,
    pub alpha: usize,
    pub seed: u64,
}

impl IndexBuilder {
    pub fn new(dim: usize, metric_code: u32, r: usize, l: usize, alpha: usize, seed: u64) -> (b:
        IndexBuilder)
        ensures
            b == (IndexBuilder { dim, metric_code, r, l, alpha, seed }),
    {
        IndexBuilder { dim, metric_code, r, l, alpha, seed }
    }

    /// Build an index over `vectors`, with `rows[j]` the external row id of
    /// `vectors[j]`. Every vector ends up stored live; construction is
    /// deterministic for a fixed seed.
    pub fn build(&self, vectors: &Vec<Vec<i32>>, rows: &Vec<i64>) -> (res: Result<
        DiskAnnIndex,
        IndexError,
    >)
        ensures
            res is Ok <==> (valid_params(
                self.dim as int,
                self.metric_code as int,
                self.r as int,
                self.l as int,
                self.alpha as int,
            ) && rows@.len() == vectors@.len() && (forall|j: int|
                0 <= j < vectors@.len() ==> (#[trigger] vectors@[j])@.len() == self.dim)),
            res is Ok ==> ({
                let ix = res->Ok_0;
                &&& ix.wf()
                &&& ix.store.dim == self.dim
                &&& live_count(ix.nodes()) == vectors@.len()
                &&& forall|j: int|
                    0 <= j < vectors@.len() ==> exists|i: int|
                        0 <= i < ix.nodes().len() && ix.nodes()[i] == Some(
                            NodeView {
                                vec: (#[trigger] vectors@[j])@,
                                row: rows@[j],
                                tombstone: false,
                            },
                        )
            }),
    {
        let mut ix = match DiskAnnIndex::create_index(
            self.dim,
            self.metric_code,
            self.r,
            self.l,
            self.alpha,
        ) {
            Ok(ix) => ix,
            Err(e) => {
                return Err(e);
            },
        };
        ix.alpha = 100;
        proof {
            assert(ix.wf());
        }
        if rows.len() != vectors.len() {
            return Err(IndexError::InvalidParameter);
        }
        let n = vectors.len();
        let mut j: usize = 0;
        while j < n
            invariant
                n == vectors@.len(),
                0 <= j <= n,
                forall|x: int| 0 <= x < j ==> (#[trigger] vectors@[x])@.len() == self.dim,
                ix.wf(),
                ix.store.dim == self.dim,
                live_count(ix.nodes()) == 0,
            decreases n - j,
        {
            if vectors[j].len() != self.dim {
                return Err(IndexError::DimensionMismatch);
            }
            j = j + 1;
        }
        // Seeded shuffle of the insertion order.
        let mut order: Vec<usize> = Vec::new();
        let mut i: usize = 0;
        while i < n
            invariant
                0 <= i <= n,
                order@.len() == i,
                forall|x: int| 0 <= x < i ==> (#[trigger] order@[x]) == x,
            decreases n - i,
        {
            order.push(i);
            i = i + 1;
        }
        proof {
            assert forall|v: int| #![trigger order@.contains((v as usize))] 0 <= v < n implies order@.contains(
                (v as usize),
            ) by {
                assert(order@[v] == v);
            }
        }
        let mut st = self.seed;
        let mut w: usize = n;
        while w > 1
            invariant
                order@.len() == n,
                0 <= w <= n,
                forall|v: int| #![trigger order@.contains((v as usize))] 0 <= v < n ==> order@.contains(
                    (v as usize),
                ),
                forall|x: int| 0 <= x < order@.len() ==> (#[trigger] order@[x]) < n,
            decreases w,
        {
            w = w - 1;
            st = lcg_step(st);
            let pick = (st % ((w as u64) + 1)) as usize;
            proof {
                assert(pick <= w);
            }
            let ghost before = order@;
            let a = order[w];
            let b = order[pick];
            order.set(w, b);
            order.set(pick, a);
            proof {
                assert forall|v: int| #![trigger order@.contains((v as usize))] 0 <= v < n implies order@.contains(
                    (v as usize),
                ) by {
                    assert(before.contains((v as usize)));
                    assert(order@ == before.update(w as int, b).update(pick as int, a));
                    let x = choose|x: int| 0 <= x < before.len() && before[x] == (v as usize);
                    if x == w {
                        assert(order@[pick as int] == (v as usize));
                    } else if x == pick {
                        assert(order@[w as int] == (v as usize));
                    } else {
                        assert(order@[x] == (v as usize));
                    }
                }
            }
        }
        // Pass one: alpha = 1 for baseline connectivity.
        let mut ids: Vec<usize> = Vec::new();
        let mut m: usize = 0;
        while m < n
            invariant
                n == vectors@.len(),
                n == rows@.len(),
                0 <= m <= n,
                order@.len() == n,
                forall|x: int| 0 <= x < order@.len() ==> (#[trigger] order@[x]) < n,
                forall|v: int| #![trigger order@.contains((v as usize))] 0 <= v < n ==> order@.contains(
                    (v as usize),
                ),
                forall|x: int| 0 <= x < vectors@.len() ==> (#[trigger] vectors@[x])@.len()
                    == self.dim,
                ix.wf(),
                ix.store.dim == self.dim,
                ix.r == self.r,
                ix.l == self.l,
                live_count(ix.nodes()) == m,
                ids@.len() == m,
                forall|x: int|
                    0 <= x < m ==> (#[trigger] ids@[x]) < ix.nodes().len() && ix.nodes()[ids@[x] as int]
                        == Some(
                        NodeView {
                            vec: vectors@[order@[x] as int]@,
                            row: rows@[order@[x] as int],
                            tombstone: false,
                        },
                    ),
            decreases n - m,
        {
            let src = order[m];
            proof {
                assert(vectors@[src as int]@.len() == self.dim);
            }
            let v = copy_vec(&vectors[src]);
            let row = rows[src];
            let id = match ix.insert(v, row) {
                Ok(id) => id,
                Err(_) => {
                    proof {
                        assert(false);
                    }
                    vstd::pervasive::unreached()
                },
            };
            ids.push(id);
            m = m + 1;
        }
        // Pass two: refine every node under the configured alpha.
        ix.alpha = self.alpha;
        proof {
            assert(crate::index::MIN_ALPHA <= self.alpha <= crate::index::MAX_ALPHA);
            assert(ix.wf());
        }
        let mut m2: usize = 0;
        while m2 < n
            invariant
                n == vectors@.len(),
                n == rows@.len(),
                0 <= m2 <= n,
                order@.len() == n,
                forall|x: int| 0 <= x < order@.len() ==> (#[trigger] order@[x]) < n,
                forall|v: int| #![trigger order@.contains((v as usize))] 0 <= v < n ==> order@.contains(
                    (v as usize),
                ),
                ix.wf(),
                ix.store.dim == self.dim,
                ix.alpha == self.alpha,
                live_count(ix.nodes()) == n,
                ids@.len() == n,
                forall|x: int|
                    0 <= x < n ==> (#[trigger] ids@[x]) < ix.nodes().len() && ix.nodes()[ids@[x] as int]
                        == Some(
                        NodeView {
                            vec: vectors@[order@[x] as int]@,
                            row: rows@[order@[x] as int],
                            tombstone: false,
                        },
                    ),
            decreases n - m2,
        {
            let id = ids[m2];
            let alpha = ix.alpha;
            proof {
                assert(crate::store::occupied(ix.nodes(), id as int));
            }
            ix.connect_node(id, alpha);
            m2 = m2 + 1;
        }
        proof {
            assert forall|jj: int| 0 <= jj < vectors@.len() implies exists|i2: int|
                0 <= i2 < ix.nodes().len() && ix.nodes()[i2] == Some(
                    NodeView {
                        vec: (#[trigger] vectors@[jj])@,
                        row: rows@[jj],
                        tombstone: false,
                    },
                ) by {
                assert(order@.contains((jj as usize)));
                let x = choose|x: int| 0 <= x < order@.len() && order@[x] == (jj as usize);
                assert(ix.nodes()[ids@[x] as int] == Some(
                    NodeView { vec: vectors@[jj]@, row: rows@[jj], tombstone: false },
                ));
            }
        }
        Ok(ix)
    }
}

} // verus!
