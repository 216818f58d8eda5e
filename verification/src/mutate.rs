//! Incremental mutation: insert with diversity-aware pruning, and the lazy
//! consolidation pass that physically removes tombstoned nodes.

use crate::dist::{dist_exec, TERM_MAX};
use crate::graph::graph_wf;
use crate::index::{DiskAnnIndex, IndexError, MAX_ALPHA, MAX_DIM};
use crate::store::{copy_usize_vec, copy_vec, is_live, live_count, live_set, occupied, NodeView};
use crate::search::{contains_usize, node_dist};
use vstd::pervasive::VecAdditionalExecFns;
use vstd::prelude::*;

verus! {

/// Largest distance the supported dimension can produce: `MAX_DIM` times the
/// largest single-coordinate contribution.
pub const MAX_DIST: u128 = 0xFFFF_FFFE_0000_0001 * 0x10_0000;

/// Some pool entry carries node id `id`.
pub open spec fn pool_has_id(pool: Seq<(usize, u128)>, id: usize) -> bool {
    exists|y: int| 0 <= y < pool.len() && (#[trigger] pool[y]).0 == id
}

/// Element-for-element copy of a scored-pair list.
fn copy_scored_vec(v: &Vec<(usize, u128)>) -> (r: Vec<(usize, u128)>)
    ensures
        r@ == v@,
{
    let mut r: Vec<(usize, u128)> = Vec::new();
    let n = v.len();
    for i in 0..n
        invariant
            n == v@.len(),
            r@ == v@.subrange(0, i as int),
    {
        r.push(v[i]);
        proof {
            assert(r@ =~= v@.subrange(0, i + 1));
        }
    }
    proof {
        assert(v@.subrange(0, n as int) =~= v@);
    }
    r
}

impl DiskAnnIndex {
    /// Exact distances from the query to each listed node.
    fn score_ids(&self, q: &Vec<i32>, ids: &Vec<usize>) -> (pool: Vec<(usize, u128)>)
        requires
            self.wf(),
            q@.len() == self.store.dim,
            forall|x: int| 0 <= x < ids@.len() ==> occupied(
                self.nodes(),
                (#[trigger] ids@[x]) as int,
            ),
        ensures
            pool@.len() == ids@.len(),
            forall|x: int|
                0 <= x < pool@.len() ==> (#[trigger] pool@[x]).0 == ids@[x] && pool@[x].1
                    == node_dist(self.nodes(), self.metric, q@, ids@[x] as int) && pool@[x].1
                    <= MAX_DIST,
    {
        let mut pool: Vec<(usize, u128)> = Vec::new();
        let n = ids.len();
        let mut i: usize = 0;
        while i < n
            invariant
                self.wf(),
                q@.len() == self.store.dim,
                n == ids@.len(),
                0 <= i <= n,
                forall|x: int| 0 <= x < ids@.len() ==> occupied(
                    self.nodes(),
                    (#[trigger] ids@[x]) as int,
                ),
                pool@.len() == i,
                forall|x: int|
                    0 <= x < pool@.len() ==> (#[trigger] pool@[x]).0 == ids@[x] && pool@[x].1
                        == node_dist(self.nodes(), self.metric, q@, ids@[x] as int) && pool@[x].1
                        <= MAX_DIST,
            decreases n - i,
        {
            let v = ids[i];
            let rec = self.store.node_at(v);
            let d = dist_exec(self.metric, &rec.vec, q);
            proof {
                crate::dist::lemma_dist_upto_bound(
                    self.metric,
                    rec.vec@,
                    q@,
                    rec.vec@.len() as int,
                );
                assert(rec.vec@.len() * TERM_MAX <= MAX_DIM * TERM_MAX) by (nonlinear_arith)
                    requires
                        0 <= rec.vec@.len() <= MAX_DIM,
                ;
            }
            pool.push((v, d));
            i = i + 1;
        }
        pool
    }

    /// Diversity-aware neighbour selection.
    ///
    /// Walks the scored pool in ascending distance from the target and
    /// accepts a candidate `c` unless some already-accepted `p` satisfies
    /// `alpha * dist(p, c) <= dist(target, c)` (with `alpha` in hundredths),
    /// stopping once `R` neighbours are accepted. The result is a duplicate-
    /// free subset of the pool of size at most `R`.
    pub fn robust_prune(&self, q: &Vec<i32>, pool: &Vec<(usize, u128)>, alpha: usize) -> (acc: Vec<
        usize,
    >)
        requires
            self.wf(),
            q@.len() == self.store.dim,
            100 <= alpha <= MAX_ALPHA,
            forall|x: int| 0 <= x < pool@.len() ==> occupied(
                self.nodes(),
                (#[trigger] pool@[x]).0 as int,
            ) && pool@[x].1 <= MAX_DIST,
            forall|x: int, y: int| 0 <= x < y < pool@.len() ==> (#[trigger] pool@[x]).0 != (
            #[trigger] pool@[y]).0,
        ensures
            acc@.no_duplicates(),
            acc@.len() <= self.r,
            pool@.len() > 0 ==> acc@.len() >= 1,
            forall|x: int| 0 <= x < acc@.len() ==> pool_has_id(pool@, #[trigger] acc@[x]),
    {
        let ghost pool0 = pool@;
        let mut rem = copy_scored_vec(pool);
        let mut acc: Vec<usize> = Vec::new();
        while acc.len() < self.r && rem.len() > 0
            invariant
                self.wf(),
                q@.len() == self.store.dim,
                100 <= alpha <= MAX_ALPHA,
                forall|x: int| 0 <= x < pool0.len() ==> occupied(
                    self.nodes(),
                    (#[trigger] pool0[x]).0 as int,
                ) && pool0[x].1 <= MAX_DIST,
                forall|x: int| 0 <= x < rem@.len() ==> pool0.contains(#[trigger] rem@[x]),
                forall|x: int, y: int| 0 <= x < y < rem@.len() ==> (#[trigger] rem@[x]).0 != (
                #[trigger] rem@[y]).0,
                forall|x: int| 0 <= x < acc@.len() ==> pool_has_id(pool0, #[trigger] acc@[x]),
                forall|x: int| 0 <= x < acc@.len() ==> occupied(
                    self.nodes(),
                    (#[trigger] acc@[x]) as int,
                ),
                acc@.no_duplicates(),
                forall|a: int, x: int|
                    0 <= a < acc@.len() && 0 <= x < rem@.len() ==> (#[trigger] acc@[a]) != (
                    #[trigger] rem@[x]).0,
                acc@.len() <= self.r,
                acc@.len() >= 1 || rem@.len() == pool0.len(),
            decreases rem@.len(),
        {
            let rlen = rem.len();
            let mut mi: usize = 0;
            let mut j: usize = 1;
            while j < rlen
                invariant
                    rlen == rem@.len(),
                    0 < rlen,
                    mi < j,
                    1 <= j <= rlen,
                decreases rlen - j,
            {
                if rem[j].1 < rem[mi].1 || (rem[j].1 == rem[mi].1 && rem[j].0 < rem[mi].0) {
                    mi = j;
                }
                j = j + 1;
            }
            let ghost before = rem@;
            let p = rem.remove(mi);
            proof {
                before.remove_ensures(mi as int);
                assert(before.contains(p));
                assert(pool0.contains(p));
                assert forall|x: int| 0 <= x < rem@.len() implies pool0.contains(#[trigger] rem@[x])
                    && rem@[x].0 != p.0 by {
                    if x < mi {
                        assert(rem@[x] == before[x]);
                    } else {
                        assert(rem@[x] == before[x + 1]);
                    }
                }
                let y = choose|y: int| 0 <= y < pool0.len() && pool0[y] == p;
                assert(occupied(self.nodes(), p.0 as int));
                assert(p.1 <= MAX_DIST);
                assert(pool_has_id(pool0, p.0));
            }
            let cid = p.0;
            let cd = p.1;
            let cvec = copy_vec(&self.store.node_at(cid).vec);
            let mut keep = true;
            let alen = acc.len();
            let mut ai: usize = 0;
            while ai < alen && keep
                invariant
                    self.wf(),
                    alen == acc@.len(),
                    0 <= ai <= alen,
                    alen == 0 ==> keep,
                    100 <= alpha <= MAX_ALPHA,
                    cd <= MAX_DIST,
                    cvec@.len() == self.store.dim,
                    forall|x: int| 0 <= x < acc@.len() ==> occupied(
                        self.nodes(),
                        (#[trigger] acc@[x]) as int,
                    ),
                decreases alen - ai,
            {
                let arec = self.store.node_at(acc[ai]);
                let dpc = dist_exec(self.metric, &arec.vec, &cvec);
                proof {
                    crate::dist::lemma_dist_upto_bound(
                        self.metric,
                        arec.vec@,
                        cvec@,
                        arec.vec@.len() as int,
                    );
                    assert(arec.vec@.len() * TERM_MAX <= MAX_DIM * TERM_MAX) by (nonlinear_arith)
                        requires
                            0 <= arec.vec@.len() <= MAX_DIM,
                    ;
                    assert((alpha as u128) * dpc <= 0x1_0000u128 * MAX_DIST) by (nonlinear_arith)
                        requires
                            0 <= alpha <= 0x1_0000u128,
                            0 <= dpc <= MAX_DIST,
                    ;
                    assert(100u128 * cd <= 100u128 * MAX_DIST) by (nonlinear_arith)
                        requires
                            0 <= cd <= MAX_DIST,
                    ;
                }
                if (alpha as u128) * dpc <= 100u128 * cd {
                    keep = false;
                }
                ai = ai + 1;
            }
            if keep {
                proof {
                    assert(forall|a: int| 0 <= a < acc@.len() ==> (#[trigger] acc@[a]) != cid);
                    assert(!acc@.contains(cid));
                    crate::search::lemma_push_distinct(acc@, cid);
                }
                acc.push(cid);
            }
        }
        acc
    }
}

/// Filling a free slot with a live node, or appending one, raises the live
/// count by exactly one.
pub proof fn lemma_live_count_add(
    s: Seq<Option<NodeView>>,
    s2: Seq<Option<NodeView>>,
    i: int,
    nv: NodeView,
)
    requires
        !nv.tombstone,
        (0 <= i < s.len() && s[i] is None && s2 == s.update(i, Some(nv))) || (i == s.len() && s2
            == s.push(Some(nv))),
    ensures
        live_count(s2) == live_count(s) + 1,
{
    crate::store::lemma_live_set_finite(s);
    assert(live_set(s2) =~= live_set(s).insert(i));
    assert(!live_set(s).contains(i));
}

impl DiskAnnIndex {
    /// Choose neighbours for node `id` from a fresh traversal (plus its
    /// current neighbours), install them, and add the reverse edges,
    /// re-pruning any neighbour the degree bound would otherwise overflow.
    pub(crate) fn connect_node(&mut self, id: usize, alpha: usize)
        requires
            old(self).wf(),
            occupied(old(self).nodes(), id as int),
            100 <= alpha <= MAX_ALPHA,
        ensures
            final(self).wf(),
            final(self).nodes() == old(self).nodes(),
            final(self).metric == old(self).metric,
            final(self).r == old(self).r,
            final(self).l == old(self).l,
            final(self).alpha == old(self).alpha,
            final(self).store.dim == old(self).store.dim,
    {
        let qv = copy_vec(&self.store.node_at(id).vec);
        let visited = self.greedy_search(&qv);
        let mut pool_ids: Vec<usize> = Vec::new();
        let vlen = visited.len();
        let mut i: usize = 0;
        while i < vlen
            invariant
                self.wf(),
                vlen == visited@.len(),
                0 <= i <= vlen,
                visited@.no_duplicates(),
                forall|x: int| 0 <= x < visited@.len() ==> occupied(
                    self.nodes(),
                    (#[trigger] visited@[x]) as int,
                ),
                pool_ids@.no_duplicates(),
                forall|x: int| 0 <= x < pool_ids@.len() ==> occupied(
                    self.nodes(),
                    (#[trigger] pool_ids@[x]) as int,
                ) && pool_ids@[x] != id,
                forall|x: int| 0 <= x < pool_ids@.len() ==> visited@.contains(
                    #[trigger] pool_ids@[x],
                ),
            decreases vlen - i,
        {
            let v = visited[i];
            if v != id && !contains_usize(&pool_ids, v) {
                proof {
                    crate::search::lemma_push_distinct(pool_ids@, v);
                    assert(visited@.contains(v));
                }
                pool_ids.push(v);
            }
            i = i + 1;
        }
        let deg0 = self.graph.adj[id].len();
        let mut t0: usize = 0;
        while t0 < deg0
            invariant
                self.wf(),
                id < self.graph.adj@.len(),
                deg0 == self.graph.adj@[id as int]@.len(),
                0 <= t0 <= deg0,
                pool_ids@.no_duplicates(),
                forall|x: int| 0 <= x < pool_ids@.len() ==> occupied(
                    self.nodes(),
                    (#[trigger] pool_ids@[x]) as int,
                ) && pool_ids@[x] != id,
            decreases deg0 - t0,
        {
            let nb = self.graph.adj[id][t0];
            if nb != id && !contains_usize(&pool_ids, nb) {
                proof {
                    crate::search::lemma_push_distinct(pool_ids@, nb);
                    assert(occupied(self.nodes(), nb as int));
                }
                pool_ids.push(nb);
            }
            t0 = t0 + 1;
        }
        let pool = self.score_ids(&qv, &pool_ids);
        proof {
            assert(forall|x: int, y: int|
                0 <= x < y < pool@.len() ==> (#[trigger] pool@[x]).0 != (#[trigger] pool@[y]).0);
        }
        let nbrs = self.robust_prune(&qv, &pool, alpha);
        proof {
            assert forall|x: int| 0 <= x < nbrs@.len() implies occupied(
                self.nodes(),
                (#[trigger] nbrs@[x]) as int,
            ) && nbrs@[x] != id by {
                assert(pool_has_id(pool@, nbrs@[x]));
                let y = choose|y: int| 0 <= y < pool@.len() && (#[trigger] pool@[y]).0 == nbrs@[x];
                assert(pool@[y].0 == pool_ids@[y]);
            }
        }
        let ghost nodes0 = self.nodes();
        self.graph.adj.set(id, nbrs);
        proof {
            assert(self.nodes() == nodes0);
            assert(graph_wf(self.nodes(), self.graph, self.r as int)) by {
                assert(forall|i2: int|
                    0 <= i2 < self.graph.adj@.len() && i2 != id
                        ==> self.graph.adj@[i2] == old(self).graph.adj@[i2]);
            }
            assert(self.wf());
        }
        let deg = self.graph.adj[id].len();
        let mut t: usize = 0;
        while t < deg
            invariant
                self.wf(),
                occupied(self.nodes(), id as int),
                100 <= alpha <= MAX_ALPHA,
                self.nodes() == old(self).nodes(),
                self.metric == old(self).metric,
                self.r == old(self).r,
                self.l == old(self).l,
                self.alpha == old(self).alpha,
                self.store.dim == old(self).store.dim,
                self.graph.entries@ == old(self).graph.entries@,
                id < self.graph.adj@.len(),
                deg == self.graph.adj@[id as int]@.len(),
                0 <= t <= deg,
                forall|x: int|
                    0 <= x < self.graph.adj@[id as int]@.len()
                        ==> (#[trigger] self.graph.adj@[id as int]@[x]) != id,
            decreases deg - t,
        {
            let nb = self.graph.adj[id][t];
            proof {
                assert(occupied(self.nodes(), nb as int));
                assert(nb != id);
            }
            let ghost gprev = self.graph.adj@;
            if !contains_usize(&self.graph.adj[nb], id) {
                if self.graph.adj[nb].len() < self.r {
                    let mut lst = copy_usize_vec(&self.graph.adj[nb]);
                    lst.push(id);
                    self.graph.adj.set(nb, lst);
                    proof {
                        assert(graph_wf(self.nodes(), self.graph, self.r as int)) by {
                            assert(forall|i2: int|
                                0 <= i2 < self.graph.adj@.len() && i2 != nb
                                    ==> self.graph.adj@[i2] == gprev[i2]);
                        }
                    }
                } else {
                    let nvec = copy_vec(&self.store.node_at(nb).vec);
                    let mut cand: Vec<usize> = Vec::new();
                    let dlen = self.graph.adj[nb].len();
                    let mut u: usize = 0;
                    while u < dlen
                        invariant
                            self.wf(),
                            nb < self.graph.adj@.len(),
                            dlen == self.graph.adj@[nb as int]@.len(),
                            0 <= u <= dlen,
                            forall|x: int|
                                0 <= x < self.graph.adj@[nb as int]@.len() ==> (
                                #[trigger] self.graph.adj@[nb as int]@[x]) != id,
                            cand@.no_duplicates(),
                            forall|x: int| 0 <= x < cand@.len() ==> occupied(
                                self.nodes(),
                                (#[trigger] cand@[x]) as int,
                            ) && cand@[x] != id,
                        decreases dlen - u,
                    {
                        let w = self.graph.adj[nb][u];
                        if !contains_usize(&cand, w) {
                            proof {
                                crate::search::lemma_push_distinct(cand@, w);
                                assert(occupied(self.nodes(), w as int));
                            }
                            cand.push(w);
                        }
                        u = u + 1;
                    }
                    proof {
                        assert(!cand@.contains(id));
                        crate::search::lemma_push_distinct(cand@, id);
                    }
                    cand.push(id);
                    let pool2 = self.score_ids(&nvec, &cand);
                    proof {
                        assert(forall|x: int, y: int|
                            0 <= x < y < pool2@.len() ==> (#[trigger] pool2@[x]).0 != (
                            #[trigger] pool2@[y]).0);
                    }
                    let lst = self.robust_prune(&nvec, &pool2, alpha);
                    proof {
                        assert forall|x: int| 0 <= x < lst@.len() implies occupied(
                            self.nodes(),
                            (#[trigger] lst@[x]) as int,
                        ) by {
                            assert(pool_has_id(pool2@, lst@[x]));
                            let y = choose|y: int|
                                0 <= y < pool2@.len() && (#[trigger] pool2@[y]).0 == lst@[x];
                            assert(pool2@[y].0 == cand@[y]);
                        }
                    }
                    self.graph.adj.set(nb, lst);
                    proof {
                        assert(graph_wf(self.nodes(), self.graph, self.r as int)) by {
                            assert(forall|i2: int|
                                0 <= i2 < self.graph.adj@.len() && i2 != nb
                                    ==> self.graph.adj@[i2] == gprev[i2]);
                        }
                    }
                }
            }
            t = t + 1;
        }
        if self.graph.entries.len() == 0 {
            self.graph.entries.push(id);
            proof {
                assert(graph_wf(self.nodes(), self.graph, self.r as int));
            }
        }
    }

    /// Insert a vector with its external row id.
    ///
    /// The vector is appended to the store (reusing a freed slot when one
    /// exists), neighbours are selected by a greedy search followed by
    /// `robust_prune`, and reverse edges are installed with the degree bound
    /// enforced on every touched neighbour. A vector of the wrong dimension
    /// is rejected with `DimensionMismatch` before anything is mutated.
    pub fn insert(&mut self, vec: Vec<i32>, row: i64) -> (res: Result<usize, IndexError>)
        requires
            old(self).wf(),
        ensures
            final(self).wf(),
            res is Ok <==> vec@.len() == old(self).store.dim,
            res is Err ==> *final(self) == *old(self) && res->Err_0
                == IndexError::DimensionMismatch,
            res is Ok ==> ({
                let id = res->Ok_0 as int;
                let nv = NodeView { vec: vec@, row: row, tombstone: false };
                &&& 0 <= id < final(self).nodes().len()
                &&& final(self).nodes()[id] == Some(nv)
                &&& ((id < old(self).nodes().len() && old(self).nodes()[id] is None
                    && final(self).nodes() == old(self).nodes().update(id, Some(nv)))
                    || (id == old(self).nodes().len()
                    && final(self).nodes() == old(self).nodes().push(Some(nv))))
                &&& live_count(final(self).nodes()) == live_count(old(self).nodes()) + 1
                &&& final(self).metric == old(self).metric
                &&& final(self).r == old(self).r
                &&& final(self).l == old(self).l
                &&& final(self).alpha == old(self).alpha
                &&& final(self).store.dim == old(self).store.dim
            }),
    {
        if vec.len() != self.store.dim {
            return Err(IndexError::DimensionMismatch);
        }
        let ghost nodes0 = self.nodes();
        let ghost nv = NodeView { vec: vec@, row: row, tombstone: false };
        let alpha = self.alpha;
        let id = self.store.append(vec, row);
        if id == self.graph.adj.len() {
            self.graph.adj.push(Vec::new());
        }
        proof {
            lemma_live_count_add(nodes0, self.nodes(), id as int, nv);
            assert(occupied(self.nodes(), id as int));
            assert(forall|i2: int|
                0 <= i2 < nodes0.len() && i2 != id ==> self.nodes()[i2] == nodes0[i2]);
            assert(forall|i2: int| occupied(nodes0, i2) ==> occupied(self.nodes(), i2));
            assert(graph_wf(self.nodes(), self.graph, self.r as int)) by {
                assert(forall|i2: int|
                    0 <= i2 < old(self).graph.adj@.len()
                        ==> self.graph.adj@[i2] == old(self).graph.adj@[i2]);
                assert(forall|i2: int|
                    0 <= i2 < self.graph.adj@.len() && !occupied(self.nodes(), i2) ==> !occupied(
                        nodes0,
                        i2,
                    ) && i2 != id);
            }
            assert(self.wf());
        }
        let ghost mid = *self;
        self.connect_node(id, alpha);
        proof {
            assert(self.nodes() == mid.nodes());
        }
        Ok(id)
    }
}

impl DiskAnnIndex {
    /// Physically remove one tombstoned node: reconnect every node that
    /// pointed at it to its live out-neighbours (pruned back under the
    /// degree bound), drop it from the entry points, and free its slot.
    fn remove_node(&mut self, t: usize)
        requires
            old(self).wf(),
            occupied(old(self).nodes(), t as int),
            !is_live(old(self).nodes(), t as int),
        ensures
            final(self).wf(),
            final(self).nodes() == old(self).nodes().update(t as int, None),
            final(self).metric == old(self).metric,
            final(self).r == old(self).r,
            final(self).l == old(self).l,
            final(self).alpha == old(self).alpha,
            final(self).store.dim == old(self).store.dim,
            live_count(final(self).nodes()) == live_count(old(self).nodes()),
    {
        let alpha = self.alpha;
        let mut out_live: Vec<usize> = Vec::new();
        let dlen = self.graph.adj[t].len();
        let mut u: usize = 0;
        while u < dlen
            invariant
                self.wf(),
                t < self.graph.adj@.len(),
                dlen == self.graph.adj@[t as int]@.len(),
                0 <= u <= dlen,
                out_live@.no_duplicates(),
                forall|x: int|
                    0 <= x < out_live@.len() ==> is_live(
                        self.nodes(),
                        (#[trigger] out_live@[x]) as int,
                    ) && out_live@[x] != t,
            decreases dlen - u,
        {
            let w = self.graph.adj[t][u];
            if w != t && self.is_live_id(w) && !contains_usize(&out_live, w) {
                proof {
                    crate::search::lemma_push_distinct(out_live@, w);
                }
                out_live.push(w);
            }
            u = u + 1;
        }
        let n = self.graph.adj.len();
        let mut p: usize = 0;
        while p < n
            invariant
                self.wf(),
                *self == (DiskAnnIndex { graph: self.graph, ..*old(self) }),
                self.graph.entries@ == old(self).graph.entries@,
                n == self.graph.adj@.len(),
                0 <= p <= n,
                occupied(self.nodes(), t as int),
                !is_live(self.nodes(), t as int),
                100 <= alpha <= MAX_ALPHA,
                out_live@.no_duplicates(),
                forall|x: int|
                    0 <= x < out_live@.len() ==> is_live(
                        self.nodes(),
                        (#[trigger] out_live@[x]) as int,
                    ) && out_live@[x] != t,
                forall|pp: int, x: int|
                    0 <= pp < p && 0 <= x < self.graph.adj@[pp]@.len()
                        ==> (#[trigger] self.graph.adj@[pp]@[x]) != t,
            decreases n - p,
        {
            if contains_usize(&self.graph.adj[p], t) {
                proof {
                    assert(self.graph.adj@[p as int]@.len() > 0);
                    assert(occupied(self.nodes(), p as int));
                }
                let ghost gprev = self.graph.adj@;
                let mut cand: Vec<usize> = Vec::new();
                let dl = self.graph.adj[p].len();
                let mut u2: usize = 0;
                while u2 < dl
                    invariant
                        self.wf(),
                        p < self.graph.adj@.len(),
                        dl == self.graph.adj@[p as int]@.len(),
                        0 <= u2 <= dl,
                        cand@.no_duplicates(),
                        forall|x: int|
                            0 <= x < cand@.len() ==> occupied(
                                self.nodes(),
                                (#[trigger] cand@[x]) as int,
                            ) && cand@[x] != t && cand@[x] != p,
                    decreases dl - u2,
                {
                    let w = self.graph.adj[p][u2];
                    if w != t && w != p && !contains_usize(&cand, w) {
                        proof {
                            crate::search::lemma_push_distinct(cand@, w);
                            assert(occupied(self.nodes(), w as int));
                        }
                        cand.push(w);
                    }
                    u2 = u2 + 1;
                }
                let ol = out_live.len();
                let mut u3: usize = 0;
                while u3 < ol
                    invariant
                        self.wf(),
                        ol == out_live@.len(),
                        0 <= u3 <= ol,
                        forall|x: int|
                            0 <= x < out_live@.len() ==> is_live(
                                self.nodes(),
                                (#[trigger] out_live@[x]) as int,
                            ) && out_live@[x] != t,
                        cand@.no_duplicates(),
                        forall|x: int|
                            0 <= x < cand@.len() ==> occupied(
                                self.nodes(),
                                (#[trigger] cand@[x]) as int,
                            ) && cand@[x] != t && cand@[x] != p,
                    decreases ol - u3,
                {
                    let w = out_live[u3];
                    if w != p && !contains_usize(&cand, w) {
                        proof {
                            crate::search::lemma_push_distinct(cand@, w);
                        }
                        cand.push(w);
                    }
                    u3 = u3 + 1;
                }
                if cand.len() <= self.r {
                    self.graph.adj.set(p, cand);
                    proof {
                        assert(graph_wf(self.nodes(), self.graph, self.r as int)) by {
                            assert(forall|i2: int|
                                0 <= i2 < self.graph.adj@.len() && i2 != p ==> self.graph.adj@[i2]
                                    == gprev[i2]);
                        }
                    }
                } else {
                    let pvec = copy_vec(&self.store.node_at(p).vec);
                    let pool = self.score_ids(&pvec, &cand);
                    proof {
                        assert(forall|x: int, y: int|
                            0 <= x < y < pool@.len() ==> (#[trigger] pool@[x]).0 != (
                            #[trigger] pool@[y]).0);
                    }
                    let lst = self.robust_prune(&pvec, &pool, alpha);
                    proof {
                        assert forall|x: int| 0 <= x < lst@.len() implies occupied(
                            self.nodes(),
                            (#[trigger] lst@[x]) as int,
                        ) && lst@[x] != t by {
                            assert(pool_has_id(pool@, lst@[x]));
                            let y = choose|y: int|
                                0 <= y < pool@.len() && (#[trigger] pool@[y]).0 == lst@[x];
                            assert(pool@[y].0 == cand@[y]);
                        }
                    }
                    self.graph.adj.set(p, lst);
                    proof {
                        assert(graph_wf(self.nodes(), self.graph, self.r as int)) by {
                            assert(forall|i2: int|
                                0 <= i2 < self.graph.adj@.len() && i2 != p ==> self.graph.adj@[i2]
                                    == gprev[i2]);
                        }
                    }
                }
                proof {
                    assert forall|pp: int, x: int|
                        0 <= pp < p + 1 && 0 <= x < self.graph.adj@[pp]@.len() implies (
                    #[trigger] self.graph.adj@[pp]@[x]) != t by {
                        if pp < p {
                            assert(self.graph.adj@[pp] == gprev[pp]);
                        }
                    }
                }
            }
            p = p + 1;
        }
        let ghost gprev2 = self.graph.adj@;
        self.graph.adj.set(t, Vec::new());
        proof {
            assert(graph_wf(self.nodes(), self.graph, self.r as int)) by {
                assert(forall|i2: int|
                    0 <= i2 < self.graph.adj@.len() && i2 != t ==> self.graph.adj@[i2] == gprev2[i2]);
            }
        }
        let elen = self.graph.entries.len();
        let mut new_entries: Vec<usize> = Vec::new();
        let mut e: usize = 0;
        while e < elen
            invariant
                self.wf(),
                elen == self.graph.entries@.len(),
                0 <= e <= elen,
                forall|x: int|
                    0 <= x < new_entries@.len() ==> occupied(
                        self.nodes(),
                        (#[trigger] new_entries@[x]) as int,
                    ) && new_entries@[x] != t,
            decreases elen - e,
        {
            let ep = self.graph.entries[e];
            if ep != t {
                proof {
                    assert(occupied(self.nodes(), ep as int));
                }
                new_entries.push(ep);
            }
            e = e + 1;
        }
        self.graph.entries = new_entries;
        proof {
            assert(graph_wf(self.nodes(), self.graph, self.r as int));
        }
        let ghost nodes_before = self.nodes();
        self.store.release(t);
        proof {
            assert(self.nodes() == nodes_before.update(t as int, None));
            assert(graph_wf(self.nodes(), self.graph, self.r as int)) by {
                assert(forall|i2: int|
                    0 <= i2 < nodes_before.len() && i2 != t ==> self.nodes()[i2] == nodes_before[i2]);
                assert(forall|i2: int|
                    occupied(self.nodes(), i2) <==> (occupied(nodes_before, i2) && i2 != t));
            }
            assert(self.wf());
            crate::store::lemma_live_set_finite(nodes_before);
            assert(live_set(self.nodes()) =~= live_set(nodes_before));
        }
    }

    /// Maintenance pass that removes every tombstoned node, node by node,
    /// with each node's change committed before the next is touched; live
    /// nodes keep their slots, vectors, and row ids.
    pub fn consolidate(&mut self)
        requires
            old(self).wf(),
        ensures
            final(self).wf(),
            final(self).nodes().len() == old(self).nodes().len(),
            forall|i: int|
                is_live(old(self).nodes(), i) ==> final(self).nodes()[i] == old(self).nodes()[i],
            forall|i: int|
                0 <= i < old(self).nodes().len() && !is_live(old(self).nodes(), i)
                    ==> final(self).nodes()[i] is None,
            forall|i: int| occupied(final(self).nodes(), i) ==> is_live(final(self).nodes(), i),
            live_count(final(self).nodes()) == live_count(old(self).nodes()),
            final(self).metric == old(self).metric,
            final(self).r == old(self).r,
            final(self).l == old(self).l,
            final(self).alpha == old(self).alpha,
            final(self).store.dim == old(self).store.dim,
    {
        let n = self.store.slots.len();
        let mut t: usize = 0;
        while t < n
            invariant
                self.wf(),
                n == old(self).nodes().len(),
                n == self.nodes().len(),
                n == self.store.slots@.len(),
                0 <= t <= n,
                self.metric == old(self).metric,
                self.r == old(self).r,
                self.l == old(self).l,
                self.alpha == old(self).alpha,
                self.store.dim == old(self).store.dim,
                forall|i: int|
                    is_live(old(self).nodes(), i) ==> self.nodes()[i] == old(self).nodes()[i],
                forall|i: int|
                    0 <= i < t && !is_live(old(self).nodes(), i) ==> self.nodes()[i] is None,
                forall|i: int| t <= i < n ==> self.nodes()[i] == old(self).nodes()[i],
                live_count(self.nodes()) == live_count(old(self).nodes()),
            decreases n - t,
        {
            let tomb = match &self.store.slots[t] {
                Some(rec) => rec.tombstone,
                None => false,
            };
            if tomb {
                proof {
                    assert(occupied(self.nodes(), t as int));
                    assert(!is_live(self.nodes(), t as int));
                }
                self.remove_node(t);
            }
            t = t + 1;
        }
        // Removals may have emptied the entry set; appoint the first live
        // node so searches keep a starting point.
        if self.graph.entries.len() == 0 {
            let ghost snap = *self;
            let n3 = self.store.slots.len();
            let mut i3: usize = 0;
            let mut found = false;
            while i3 < n3 && !found
                invariant
                    *self == snap,
                    snap.wf(),
                    n3 == self.store.slots@.len(),
                    0 <= i3 <= n3,
                    !found,
                    snap.metric == old(self).metric,
                    snap.r == old(self).r,
                    snap.l == old(self).l,
                    snap.alpha == old(self).alpha,
                    snap.store.dim == old(self).store.dim,
                    snap.nodes().len() == old(self).nodes().len(),
                    forall|i: int|
                        is_live(old(self).nodes(), i) ==> snap.nodes()[i] == old(self).nodes()[i],
                    forall|i: int|
                        0 <= i < old(self).nodes().len() && !is_live(old(self).nodes(), i)
                            ==> snap.nodes()[i] is None,
                    live_count(snap.nodes()) == live_count(old(self).nodes()),
                    forall|i: int|
                        occupied(snap.nodes(), i) ==> is_live(snap.nodes(), i),
                decreases n3 - i3,
            {
                if self.is_live_id(i3) {
                    self.graph.entries.push(i3);
                    proof {
                        assert(occupied(self.nodes(), i3 as int));
                        assert(graph_wf(self.nodes(), self.graph, self.r as int));
                        assert(self.wf());
                    }
                    return ;
                }
                i3 = i3 + 1;
            }
        }
    }
}

} // verus!
