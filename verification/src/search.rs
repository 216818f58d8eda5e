//! Greedy best-first graph traversal and exact re-ranking.
//!
//! A search seeds a bounded frontier with the entry points, repeatedly
//! expands the unexpanded frontier member with the smallest distance, and
//! finally re-scores the live nodes it has seen with exact full-precision
//! distances, topping the candidate pool up from the store when the
//! traversal saw fewer live nodes than the search width calls for. The
//! terminal step returns the `k` best candidates, ordered by distance and,
//! on ties, by lower node id.

use crate::dist::{dist, dist_exec, Metric};
use crate::index::{DiskAnnIndex, IndexError};
use crate::store::{is_live, live_count, live_set, occupied, NodeView};
use vstd::prelude::*;

verus! {

pub open spec fn min_int(a: int, b: int) -> int {
    if a <= b {
        a
    } else {
        b
    }
}

pub open spec fn max_int(a: int, b: int) -> int {
    if a >= b {
        a
    } else {
        b
    }
}

/// Exact distance from the node in slot `i` to the query.
pub open spec fn node_dist(s: Seq<Option<NodeView>>, m: Metric, q: Seq<i32>, i: int) -> int {
    dist(m, s[i]->Some_0.vec, q)
}

/// The result order: smaller distance first, ties broken by lower node id.
pub open spec fn key_lt(s: Seq<Option<NodeView>>, m: Metric, q: Seq<i32>, i: int, j: int) -> bool {
    ||| node_dist(s, m, q, i) < node_dist(s, m, q, j)
    ||| (node_dist(s, m, q, i) == node_dist(s, m, q, j) && i < j)
}

/// The same order on (node id, distance) pairs.
pub open spec fn pair_lt(a: (usize, u128), b: (usize, u128)) -> bool {
    ||| a.1 < b.1
    ||| (a.1 == b.1 && a.0 < b.0)
}

/// What a search may return as its ranked node ids: distinct live nodes,
/// exactly `min(k, live)` of them, sorted by the result order; and whenever
/// at most `bound` live nodes exist, they beat every live node left out.
pub open spec fn valid_result(
    s: Seq<Option<NodeView>>,
    m: Metric,
    q: Seq<i32>,
    k: int,
    bound: int,
    ids: Seq<int>,
) -> bool {
    &&& ids.no_duplicates()
    &&& forall|x: int| 0 <= x < ids.len() ==> is_live(s, #[trigger] ids[x])
    &&& ids.len() == min_int(k, live_count(s) as int)
    &&& forall|x: int, y: int| 0 <= x < y < ids.len() ==> key_lt(s, m, q, ids[x], ids[y])
    &&& live_count(s) <= bound ==> forall|n: int, x: int|
        #![trigger is_live(s, n), ids[x]]
        is_live(s, n) && !ids.contains(n) && 0 <= x < ids.len() ==> key_lt(s, m, q, ids[x], n)
}

/// Links a returned `(row id, distance)` sequence to a ranked id sequence.
pub open spec fn search_result_matches(
    s: Seq<Option<NodeView>>,
    m: Metric,
    q: Seq<i32>,
    k: int,
    bound: int,
    ids: Seq<int>,
    res: Seq<(i64, u128)>,
) -> bool {
    &&& valid_result(s, m, q, k, bound, ids)
    &&& res.len() == ids.len()
    &&& forall|x: int|
        0 <= x < ids.len() ==> (#[trigger] res[x]).0 == s[ids[x]]->Some_0.row && res[x].1
            == node_dist(s, m, q, ids[x])
}

pub proof fn lemma_push_distinct(s: Seq<usize>, v: usize)
    requires
        s.no_duplicates(),
        !s.contains(v),
    ensures
        s.push(v).no_duplicates(),
{
    let t = s.push(v);
    assert forall|i: int, j: int| 0 <= i < j < t.len() implies t[i] != t[j] by {
        if j == t.len() - 1 {
            assert(t[i] == s[i]);
            assert(!s.contains(v));
            assert(s[i] != v);
        }
    }
}

/// A finite subset with the same cardinality is the whole set.
proof fn lemma_subset_same_len_equal(a: Set<int>, b: Set<int>)
    requires
        b.finite(),
        a.subset_of(b),
        a.len() == b.len(),
    ensures
        a == b,
{
    vstd::set_lib::lemma_len_subset(a, b);
    if exists|x: int| b.contains(x) && !a.contains(x) {
        let x = choose|x: int| b.contains(x) && !a.contains(x);
        let b2 = b.remove(x);
        assert(a.subset_of(b2));
        vstd::set_lib::lemma_len_subset(a, b2);
        assert(b2.len() == b.len() - 1);
        assert(false);
    }
    assert(a =~= b);
}

/// Distinct live scored pairs number at most the live count; if they cover
/// every live node they number exactly the live count.
proof fn lemma_scored_pairs_card(s: Seq<Option<NodeView>>, c: Seq<(usize, u128)>)
    requires
        forall|x: int, y: int| 0 <= x < y < c.len() ==> (#[trigger] c[x]).0 != (#[trigger] c[y]).0,
        forall|x: int| 0 <= x < c.len() ==> is_live(s, (#[trigger] c[x]).0 as int),
    ensures
        c.len() <= live_count(s),
        (forall|n: int|
            is_live(s, n) ==> exists|x: int| 0 <= x < c.len() && (#[trigger] c[x]).0 == n)
            ==> c.len() == live_count(s),
{
    let ids = c.map_values(|p: (usize, u128)| p.0 as int);
    assert(ids.len() == c.len());
    assert(forall|x: int| 0 <= x < ids.len() ==> ids[x] == (#[trigger] c[x]).0 as int);
    assert(ids.no_duplicates()) by {
        assert(forall|x: int, y: int| 0 <= x < y < ids.len() ==> ids[x] != ids[y]);
    }
    ids.unique_seq_to_set();
    let idset = ids.to_set();
    assert(idset.len() == c.len());
    crate::store::lemma_live_set_finite(s);
    assert(idset.subset_of(live_set(s))) by {
        assert forall|n: int| idset.contains(n) implies live_set(s).contains(n) by {
            let x = choose|x: int| 0 <= x < ids.len() && ids[x] == n;
            assert(is_live(s, n));
        }
    }
    vstd::set_lib::lemma_len_subset(idset, live_set(s));
    if forall|n: int|
        is_live(s, n) ==> exists|x: int| 0 <= x < c.len() && (#[trigger] c[x]).0 == n {
        assert forall|n: int| live_set(s).contains(n) implies idset.contains(n) by {
            assert(is_live(s, n));
            let x = choose|x: int| 0 <= x < c.len() && (#[trigger] c[x]).0 == n;
            assert(ids[x] == n);
            assert(ids.contains(n));
        }
        assert(idset =~= live_set(s));
    }
}

/// Whether `id` occurs in an id list.
pub(crate) fn contains_usize(v: &Vec<usize>, id: usize) -> (b: bool)
    ensures
        b == v@.contains(id),
{
    let n = v.len();
    let mut i: usize = 0;
    while i < n
        invariant
            n == v@.len(),
            0 <= i <= n,
            forall|j: int| 0 <= j < i ==> v@[j] != id,
        decreases n - i,
    {
        if v[i] == id {
            assert(v@.contains(id));
            return true;
        }
        i = i + 1;
    }
    assert(!v@.contains(id));
    false
}

/// Whether `id` occurs as the node id of a scored pair.
fn contains_scored(v: &Vec<(usize, u128)>, id: usize) -> (b: bool)
    ensures
        b == exists|j: int| 0 <= j < v@.len() && (#[trigger] v@[j]).0 == id,
{
    let n = v.len();
    let mut i: usize = 0;
    while i < n
        invariant
            n == v@.len(),
            0 <= i <= n,
            forall|j: int| 0 <= j < i ==> (#[trigger] v@[j]).0 != id,
        decreases n - i,
    {
        if v[i].0 == id {
            return true;
        }
        i = i + 1;
    }
    false
}

/// Keep the `keep` best frontier members, by distance then id.
fn best_subset(inp: Vec<(usize, u128, bool)>, keep: usize) -> (out: Vec<(usize, u128, bool)>)
    ensures
        forall|x: int| 0 <= x < out@.len() ==> inp@.contains(#[trigger] out@[x]),
        out@.len() <= keep,
{
    let ghost inp0 = inp@;
    let mut rem = inp;
    let mut out: Vec<(usize, u128, bool)> = Vec::new();
    while out.len() < keep && rem.len() > 0
        invariant
            forall|x: int| 0 <= x < out@.len() ==> inp0.contains(#[trigger] out@[x]),
            forall|x: int| 0 <= x < rem@.len() ==> inp0.contains(#[trigger] rem@[x]),
            out@.len() <= keep,
        decreases rem@.len(),
    {
        let rlen = rem.len();
        let mut mi: usize = 0;
        let mut j: usize = 1;
        while j < rlen
            invariant
                rlen == rem@.len(),
                0 < rlen,
                mi < rlen,
                1 <= j <= rlen,
            decreases rlen - j,
        {
            if rem[j].1 < rem[mi].1 || (rem[j].1 == rem[mi].1 && rem[j].0 < rem[mi].0) {
                mi = j;
            }
            j = j + 1;
        }
        let ghost before = rem@;
        let p = rem.remove(mi);
        proof {
            before.remove_ensures(mi as int);
            assert(before.contains(p));
            assert forall|x: int| 0 <= x < rem@.len() implies inp0.contains(#[trigger] rem@[x]) by {
                if x < mi {
                    assert(rem@[x] == before[x]);
                } else {
                    assert(rem@[x] == before[x + 1]);
                }
            }
        }
        out.push(p);
    }
    out
}

impl DiskAnnIndex {
    /// Greedy best-first traversal from the entry points: the visited set.
    ///
    /// Tombstoned nodes are traversed like any other — they keep the graph
    /// connected — and are filtered out only when results are ranked.
    pub fn greedy_search(&self, q: &Vec<i32>) -> (visited: Vec<usize>)
        requires
            self.wf(),
            q@.len() == self.store.dim,
        ensures
            visited@.no_duplicates(),
            forall|x: int| 0 <= x < visited@.len() ==> occupied(
                self.nodes(),
                (#[trigger] visited@[x]) as int,
            ),
            forall|e: int|
                0 <= e < self.graph.entries@.len() ==> visited@.contains(
                    #[trigger] self.graph.entries@[e],
                ),
    {
        let mut visited: Vec<usize> = Vec::new();
        let mut frontier: Vec<(usize, u128, bool)> = Vec::new();
        let elen = self.graph.entries.len();
        let mut ei: usize = 0;
        while ei < elen
            invariant
                self.wf(),
                q@.len() == self.store.dim,
                elen == self.graph.entries@.len(),
                0 <= ei <= elen,
                visited@.no_duplicates(),
                forall|x: int| 0 <= x < visited@.len() ==> occupied(
                    self.nodes(),
                    (#[trigger] visited@[x]) as int,
                ),
                forall|x: int| 0 <= x < frontier@.len() ==> occupied(
                    self.nodes(),
                    (#[trigger] frontier@[x]).0 as int,
                ),
                forall|e: int|
                    0 <= e < ei ==> visited@.contains(#[trigger] self.graph.entries@[e]),
            decreases elen - ei,
        {
            let ghost vis_prev = visited@;
            let e = self.graph.entries[ei];
            if !contains_usize(&visited, e) {
                let d = {
                    let rec = self.store.node_at(e);
                    dist_exec(self.metric, &rec.vec, q)
                };
                proof {
                    lemma_push_distinct(visited@, e);
                }
                visited.push(e);
                frontier.push((e, d, false));
            }
            proof {
                assert(visited@.contains(self.graph.entries@[ei as int])) by {
                    if vis_prev.contains(self.graph.entries@[ei as int]) {
                        let x = choose|x: int|
                            0 <= x < vis_prev.len() && vis_prev[x] == self.graph.entries@[ei as int];
                        assert(visited@[x] == vis_prev[x]);
                    } else {
                        assert(visited@[visited@.len() - 1] == self.graph.entries@[ei as int]);
                    }
                }
                assert forall|e2: int| 0 <= e2 < ei + 1 implies visited@.contains(
                    #[trigger] self.graph.entries@[e2],
                ) by {
                    if e2 < ei {
                        let x = choose|x: int|
                            0 <= x < vis_prev.len() && vis_prev[x] == self.graph.entries@[e2];
                        assert(visited@[x] == vis_prev[x]);
                    }
                }
            }
            ei = ei + 1;
        }
        let n = self.store.slots.len();
        let mut steps: usize = 0;
        let mut done = false;
        while !done && steps < n
            invariant
                self.wf(),
                q@.len() == self.store.dim,
                n == self.nodes().len(),
                n == self.store.slots@.len(),
                steps <= n,
                visited@.no_duplicates(),
                forall|x: int| 0 <= x < visited@.len() ==> occupied(
                    self.nodes(),
                    (#[trigger] visited@[x]) as int,
                ),
                forall|x: int| 0 <= x < frontier@.len() ==> occupied(
                    self.nodes(),
                    (#[trigger] frontier@[x]).0 as int,
                ),
                forall|e: int|
                    0 <= e < self.graph.entries@.len() ==> visited@.contains(
                        #[trigger] self.graph.entries@[e],
                    ),
            decreases n - steps,
        {
            steps = steps + 1;
            let flen = frontier.len();
            let mut best: usize = flen;
            let mut bd: u128 = 0;
            let mut bid: usize = 0;
            let mut fi: usize = 0;
            while fi < flen
                invariant
                    flen == frontier@.len(),
                    0 <= fi <= flen,
                    best <= flen,
                    best < flen ==> frontier@[best as int].0 == bid && frontier@[best as int].1
                        == bd && !frontier@[best as int].2,
                decreases flen - fi,
            {
                let (id, d, exp) = frontier[fi];
                if !exp && (best == flen || d < bd || (d == bd && id < bid)) {
                    best = fi;
                    bd = d;
                    bid = id;
                }
                fi = fi + 1;
            }
            if best == flen {
                done = true;
            } else {
                frontier.set(best, (bid, bd, true));
                proof {
                    assert(occupied(self.nodes(), bid as int));
                }
                let deg = self.graph.adj[bid].len();
                let mut t: usize = 0;
                while t < deg
                    invariant
                        self.wf(),
                        q@.len() == self.store.dim,
                        occupied(self.nodes(), bid as int),
                        bid < self.graph.adj@.len(),
                        deg == self.graph.adj@[bid as int]@.len(),
                        0 <= t <= deg,
                        visited@.no_duplicates(),
                        forall|x: int| 0 <= x < visited@.len() ==> occupied(
                            self.nodes(),
                            (#[trigger] visited@[x]) as int,
                        ),
                        forall|x: int| 0 <= x < frontier@.len() ==> occupied(
                            self.nodes(),
                            (#[trigger] frontier@[x]).0 as int,
                        ),
                        forall|e: int|
                            0 <= e < self.graph.entries@.len() ==> visited@.contains(
                                #[trigger] self.graph.entries@[e],
                            ),
                    decreases deg - t,
                {
                    let ghost vis_prev2 = visited@;
                    let nb = self.graph.adj[bid][t];
                    proof {
                        assert(occupied(self.nodes(), nb as int));
                    }
                    if !contains_usize(&visited, nb) {
                        let d2 = {
                            let rec = self.store.node_at(nb);
                            dist_exec(self.metric, &rec.vec, q)
                        };
                        proof {
                            lemma_push_distinct(visited@, nb);
                        }
                        visited.push(nb);
                        frontier.push((nb, d2, false));
                        proof {
                            assert forall|e2: int|
                                0 <= e2 < self.graph.entries@.len() implies visited@.contains(
                                #[trigger] self.graph.entries@[e2],
                            ) by {
                                let x = choose|x: int|
                                    0 <= x < vis_prev2.len() && vis_prev2[x]
                                        == self.graph.entries@[e2];
                                assert(visited@[x] == vis_prev2[x]);
                            }
                        }
                    }
                    t = t + 1;
                }
                if frontier.len() > 2 * self.l {
                    frontier = best_subset(frontier, self.l);
                }
            }
        }
        visited
    }

    /// Score the live visited nodes exactly, topping the pool up from the
    /// store when the traversal saw fewer live nodes than `target`.
    fn collect_candidates(&self, q: &Vec<i32>, visited: &Vec<usize>, target: usize) -> (c: Vec<
        (usize, u128),
    >)
        requires
            self.wf(),
            q@.len() == self.store.dim,
            visited@.no_duplicates(),
            forall|x: int| 0 <= x < visited@.len() ==> occupied(
                self.nodes(),
                (#[trigger] visited@[x]) as int,
            ),
        ensures
            forall|x: int, y: int| 0 <= x < y < c@.len() ==> (#[trigger] c@[x]).0 != (
            #[trigger] c@[y]).0,
            forall|x: int| 0 <= x < c@.len() ==> is_live(self.nodes(), (#[trigger] c@[x]).0 as int)
                && c@[x].1 == node_dist(self.nodes(), self.metric, q@, c@[x].0 as int),
            c@.len() >= target || forall|id: int|
                is_live(self.nodes(), id) ==> exists|x: int|
                    0 <= x < c@.len() && (#[trigger] c@[x]).0 == id,
    {
        let mut c: Vec<(usize, u128)> = Vec::new();
        let vlen = visited.len();
        let mut i: usize = 0;
        while i < vlen
            invariant
                self.wf(),
                q@.len() == self.store.dim,
                vlen == visited@.len(),
                0 <= i <= vlen,
                visited@.no_duplicates(),
                forall|x: int| 0 <= x < visited@.len() ==> occupied(
                    self.nodes(),
                    (#[trigger] visited@[x]) as int,
                ),
                forall|x: int| 0 <= x < c@.len() ==> exists|j: int|
                    0 <= j < i && visited@[j] == (#[trigger] c@[x]).0,
                forall|x: int, y: int| 0 <= x < y < c@.len() ==> (#[trigger] c@[x]).0 != (
                #[trigger] c@[y]).0,
                forall|x: int| 0 <= x < c@.len() ==> is_live(
                    self.nodes(),
                    (#[trigger] c@[x]).0 as int,
                ) && c@[x].1 == node_dist(self.nodes(), self.metric, q@, c@[x].0 as int),
            decreases vlen - i,
        {
            let v = visited[i];
            let live = match &self.store.slots[v] {
                Some(rec) => !rec.tombstone,
                None => false,
            };
            proof {
                assert(live == is_live(self.nodes(), v as int));
            }
            if live {
                let d = {
                    let rec = self.store.node_at(v);
                    dist_exec(self.metric, &rec.vec, q)
                };
                proof {
                    assert forall|x: int| 0 <= x < c@.len() implies (#[trigger] c@[x]).0 != v by {
                        let j = choose|j: int| 0 <= j < i && visited@[j] == c@[x].0;
                        assert(visited@[j] != visited@[i as int]);
                    }
                }
                c.push((v, d));
            }
            i = i + 1;
        }
        if c.len() >= target {
            return c;
        }
        let n = self.store.slots.len();
        let mut id: usize = 0;
        while id < n && c.len() < target
            invariant
                self.wf(),
                q@.len() == self.store.dim,
                n == self.nodes().len(),
                n == self.store.slots@.len(),
                0 <= id <= n,
                c@.len() <= target,
                forall|x: int, y: int| 0 <= x < y < c@.len() ==> (#[trigger] c@[x]).0 != (
                #[trigger] c@[y]).0,
                forall|x: int| 0 <= x < c@.len() ==> is_live(
                    self.nodes(),
                    (#[trigger] c@[x]).0 as int,
                ) && c@[x].1 == node_dist(self.nodes(), self.metric, q@, c@[x].0 as int),
                forall|j: int|
                    0 <= j < id && is_live(self.nodes(), j) ==> exists|x: int|
                        0 <= x < c@.len() && (#[trigger] c@[x]).0 == j,
            decreases n - id,
        {
            let ghost c_prev = c@;
            let live = match &self.store.slots[id] {
                Some(rec) => !rec.tombstone,
                None => false,
            };
            proof {
                assert(live == is_live(self.nodes(), id as int));
            }
            if live && !contains_scored(&c, id) {
                let d = {
                    let rec = self.store.node_at(id);
                    dist_exec(self.metric, &rec.vec, q)
                };
                c.push((id, d));
                proof {
                    assert((c@[c@.len() - 1]).0 == id);
                }
            }
            proof {
                assert forall|j: int|
                    0 <= j < id + 1 && is_live(self.nodes(), j) implies exists|x: int|
                    0 <= x < c@.len() && (#[trigger] c@[x]).0 == j by {
                    if j < id {
                        let x = choose|x: int|
                            0 <= x < c_prev.len() && (#[trigger] c_prev[x]).0 == j;
                        assert(c@[x] == c_prev[x]);
                    } else {
                        assert(exists|x: int| 0 <= x < c@.len() && (#[trigger] c@[x]).0 == id);
                    }
                }
            }
            id = id + 1;
        }
        proof {
            if c@.len() < target {
                assert(forall|j: int|
                    0 <= j < n && is_live(self.nodes(), j) ==> exists|x: int|
                        0 <= x < c@.len() && (#[trigger] c@[x]).0 == j);
                assert forall|j: int| is_live(self.nodes(), j) implies exists|x: int|
                    0 <= x < c@.len() && (#[trigger] c@[x]).0 == j by {
                    assert(0 <= j < self.nodes().len());
                }
            }
        }
        c
    }
}

/// The `k` smallest scored pairs, in the result order.
fn select_smallest(cand: Vec<(usize, u128)>, k: usize) -> (out: Vec<(usize, u128)>)
    requires
        forall|x: int, y: int| 0 <= x < y < cand@.len() ==> (#[trigger] cand@[x]).0 != (
        #[trigger] cand@[y]).0,
    ensures
        out@.len() == min_int(k as int, cand@.len() as int),
        forall|x: int| 0 <= x < out@.len() ==> cand@.contains(#[trigger] out@[x]),
        forall|x: int, y: int| 0 <= x < y < out@.len() ==> pair_lt(out@[x], out@[y]),
        forall|x: int, y: int| 0 <= x < y < out@.len() ==> (#[trigger] out@[x]).0 != (
        #[trigger] out@[y]).0,
        forall|y: int|
            0 <= y < cand@.len() && !out@.contains(#[trigger] cand@[y]) ==> forall|x: int|
                0 <= x < out@.len() ==> pair_lt(#[trigger] out@[x], cand@[y]),
    {
    let ghost cand0 = cand@;
    let mut rem = cand;
    let mut out: Vec<(usize, u128)> = Vec::new();
    while out.len() < k && rem.len() > 0
        invariant
            forall|x: int, y: int| 0 <= x < y < cand0.len() ==> (#[trigger] cand0[x]).0 != (
            #[trigger] cand0[y]).0,
            out@.len() <= k,
            out@.len() + rem@.len() == cand0.len(),
            forall|x: int| 0 <= x < out@.len() ==> cand0.contains(#[trigger] out@[x]),
            forall|x: int| 0 <= x < rem@.len() ==> cand0.contains(#[trigger] rem@[x]),
            forall|y: int|
                0 <= y < cand0.len() ==> out@.contains(#[trigger] cand0[y]) || rem@.contains(
                    cand0[y],
                ),
            forall|x: int, y: int| 0 <= x < y < out@.len() ==> (#[trigger] out@[x]).0 != (
            #[trigger] out@[y]).0,
            forall|x: int, y: int| 0 <= x < y < rem@.len() ==> (#[trigger] rem@[x]).0 != (
            #[trigger] rem@[y]).0,
            forall|x: int, y: int|
                0 <= x < out@.len() && 0 <= y < rem@.len() ==> (#[trigger] out@[x]).0 != (
                #[trigger] rem@[y]).0,
            forall|x: int, y: int| 0 <= x < y < out@.len() ==> pair_lt(out@[x], out@[y]),
            forall|x: int, y: int|
                0 <= x < out@.len() && 0 <= y < rem@.len() ==> pair_lt(
                    #[trigger] out@[x],
                    #[trigger] rem@[y],
                ),
        decreases rem@.len(),
    {
        let rlen = rem.len();
        let mut mi: usize = 0;
        let mut j: usize = 1;
        while j < rlen
            invariant
                rlen == rem@.len(),
                0 < rlen,
                mi < j,
                1 <= j <= rlen,
                forall|jj: int|
                    0 <= jj < j && jj != mi ==> pair_lt(rem@[mi as int], #[trigger] rem@[jj]),
                forall|x: int, y: int| 0 <= x < y < rem@.len() ==> (#[trigger] rem@[x]).0 != (
                #[trigger] rem@[y]).0,
            decreases rlen - j,
        {
            let a = rem[j];
            let b = rem[mi];
            if a.1 < b.1 || (a.1 == b.1 && a.0 < b.0) {
                proof {
                    assert forall|jj: int|
                        0 <= jj < j + 1 && jj != j implies pair_lt(rem@[j as int], #[trigger] rem@[jj]) by {
                        if jj != mi {
                            assert(pair_lt(rem@[mi as int], rem@[jj]));
                        }
                    }
                }
                mi = j;
            } else {
                proof {
                    assert(rem@[j as int].0 != rem@[mi as int].0);
                    assert(pair_lt(rem@[mi as int], rem@[j as int]));
                }
            }
            j = j + 1;
        }
        let ghost before = rem@;
        let p = rem.remove(mi);
        proof {
            before.remove_ensures(mi as int);
            assert(before.contains(p));
            assert forall|x: int| 0 <= x < rem@.len() implies cand0.contains(#[trigger] rem@[x])
                && rem@[x].0 != p.0 && pair_lt(p, rem@[x]) by {
                if x < mi {
                    assert(rem@[x] == before[x]);
                } else {
                    assert(rem@[x] == before[x + 1]);
                    assert(pair_lt(before[mi as int], before[x + 1]));
                }
            }
            assert forall|y: int|
                0 <= y < cand0.len() && !(out@.push(p)).contains(#[trigger] cand0[y]) implies rem@.contains(
                cand0[y],
            ) by {
                assert(out@.contains(cand0[y]) || before.contains(cand0[y]));
                if out@.contains(cand0[y]) {
                    let x = choose|x: int| 0 <= x < out@.len() && out@[x] == cand0[y];
                    assert((out@.push(p))[x] == cand0[y]);
                    assert(false);
                } else {
                    let x = choose|x: int| 0 <= x < before.len() && before[x] == cand0[y];
                    if x == mi {
                        assert((out@.push(p))[out@.len() as int] == p);
                        assert(false);
                    } else if x < mi {
                        assert(rem@[x] == before[x]);
                        assert(rem@.contains(cand0[y]));
                    } else {
                        assert(rem@[x - 1] == before[x]);
                        assert(rem@.contains(cand0[y]));
                    }
                }
            }
        }
        out.push(p);
    }
    proof {
        if out@.len() < k {
            assert(rem@.len() == 0);
        }
    }
    out
}

impl DiskAnnIndex {
    /// Find the `k` nearest live vectors to `q`.
    ///
    /// Fails with `InvalidParameter` when `k` is zero or the query dimension
    /// differs from the index's; an empty index yields an empty result. The
    /// result holds exactly `min(k, live)` pairs of external row id and
    /// exact distance, ascending by distance with ties broken by lower node
    /// id; and whenever at most `max(k, L)` live nodes exist, the result is
    /// exactly the `k` best of them.
    pub fn search(&self, q: &Vec<i32>, k: usize) -> (res: Result<Vec<(i64, u128)>, IndexError>)
        requires
            self.wf(),
        ensures
            res is Ok <==> (k >= 1 && q@.len() == self.store.dim),
            res is Err ==> res->Err_0 == IndexError::InvalidParameter,
            res is Ok ==> {
                let out = res->Ok_0;
                &&& out@.len() == min_int(k as int, live_count(self.nodes()) as int)
                &&& (forall|x: int, y: int|
                    0 <= x < y < out@.len() ==> (#[trigger] out@[x]).1 <= (#[trigger] out@[y]).1)
                &&& exists|ids: Seq<int>|
                    search_result_matches(
                        self.nodes(),
                        self.metric,
                        q@,
                        k as int,
                        max_int(k as int, self.l as int),
                        ids,
                        out@,
                    )
            },
    {
        if k == 0 || q.len() != self.store.dim {
            return Err(IndexError::InvalidParameter);
        }
        let visited = self.greedy_search(q);
        let target = if k > self.l {
            k
        } else {
            self.l
        };
        let cand = self.collect_candidates(q, &visited, target);
        let picked = select_smallest(cand, k);
        let ghost s = self.nodes();
        let ghost m = self.metric;
        let ghost cand_seq = cand@;
        let ghost picked_seq = picked@;
        let ghost ids = Seq::new(picked@.len(), |x: int| picked@[x].0 as int);
        proof {
            lemma_scored_pairs_card(s, cand_seq);
            let bound = max_int(k as int, self.l as int);
            // Result length is exactly min(k, live).
            if cand_seq.len() >= k {
                assert(picked_seq.len() == k);
            } else {
                assert(picked_seq.len() == cand_seq.len());
                assert(cand_seq.len() < target);
                assert(forall|id: int|
                    is_live(s, id) ==> exists|x: int|
                        0 <= x < cand_seq.len() && (#[trigger] cand_seq[x]).0 == id);
                assert(cand_seq.len() == live_count(s));
            }
            // Each picked pair is a candidate pair.
            assert forall|x: int| 0 <= x < picked_seq.len() implies is_live(s, #[trigger] ids[x])
                && picked_seq[x].1 == node_dist(s, m, q@, ids[x]) by {
                assert(cand_seq.contains(picked_seq[x]));
                let y = choose|y: int| 0 <= y < cand_seq.len() && cand_seq[y] == picked_seq[x];
                assert(is_live(s, cand_seq[y].0 as int));
            }
            assert(ids.no_duplicates()) by {
                assert(forall|x: int, y: int| 0 <= x < y < ids.len() ==> ids[x] != ids[y]);
            }
            assert forall|x: int, y: int| 0 <= x < y < ids.len() implies key_lt(
                s,
                m,
                q@,
                ids[x],
                ids[y],
            ) by {
                assert(pair_lt(picked_seq[x], picked_seq[y]));
            }
            // Under the bound, every live node is covered by the candidates,
            // so everything left out ranks worse.
            if live_count(s) <= bound {
                if cand_seq.len() >= target {
                    assert(cand_seq.len() <= live_count(s));
                    assert(target >= bound);
                    assert(cand_seq.len() == live_count(s));
                }
                assert(cand_seq.len() == live_count(s));
                assert forall|id: int|
                    is_live(s, id) implies exists|x: int|
                    0 <= x < cand_seq.len() && (#[trigger] cand_seq[x]).0 == id by {
                    if !(exists|x: int| 0 <= x < cand_seq.len() && (#[trigger] cand_seq[x]).0
                        == id) {
                        let idsc = cand_seq.map_values(|p: (usize, u128)| p.0 as int);
                        assert(idsc.no_duplicates()) by {
                            assert(forall|x: int, y: int|
                                0 <= x < y < idsc.len() ==> idsc[x] != idsc[y]);
                        }
                        idsc.unique_seq_to_set();
                        crate::store::lemma_live_set_finite(s);
                        assert(idsc.to_set().subset_of(live_set(s))) by {
                            assert forall|nn: int| idsc.to_set().contains(nn) implies live_set(
                                s,
                            ).contains(nn) by {
                                let x = choose|x: int| 0 <= x < idsc.len() && idsc[x] == nn;
                                assert(is_live(s, cand_seq[x].0 as int));
                            }
                        }
                        lemma_subset_same_len_equal(idsc.to_set(), live_set(s));
                        assert(idsc.to_set().contains(id));
                        let x = choose|x: int| 0 <= x < idsc.len() && idsc[x] == id;
                        assert(cand_seq[x].0 == id);
                        assert(false);
                    }
                }
                assert forall|nid: int, x: int|
                    is_live(s, nid) && !ids.contains(nid) && 0 <= x < ids.len() implies key_lt(
                    s,
                    m,
                    q@,
                    ids[x],
                    nid,
                ) by {
                    let y = choose|y: int| 0 <= y < cand_seq.len() && (#[trigger] cand_seq[y]).0
                        == nid;
                    assert(cand_seq[y].1 == node_dist(s, m, q@, nid));
                    if picked_seq.contains(cand_seq[y]) {
                        let z = choose|z: int|
                            0 <= z < picked_seq.len() && picked_seq[z] == cand_seq[y];
                        assert(ids[z] == nid);
                        assert(ids.contains(nid));
                        assert(false);
                    }
                    assert(pair_lt(picked_seq[x], cand_seq[y]));
                }
            }
            assert(valid_result(s, m, q@, k as int, bound, ids));
        }
        let mut out: Vec<(i64, u128)> = Vec::new();
        let plen = picked.len();
        let mut x: usize = 0;
        while x < plen
            invariant
                self.wf(),
                s == self.nodes(),
                m == self.metric,
                plen == picked@.len(),
                picked_seq == picked@,
                ids.len() == picked_seq.len(),
                forall|i: int| 0 <= i < ids.len() ==> ids[i] == (#[trigger] picked_seq[i]).0 as int,
                forall|i: int| 0 <= i < ids.len() ==> is_live(s, #[trigger] ids[i]),
                0 <= x <= plen,
                out@.len() == x,
                forall|i: int|
                    0 <= i < x ==> (#[trigger] out@[i]).0 == s[ids[i]]->Some_0.row && out@[i].1
                        == picked_seq[i].1,
            decreases plen - x,
        {
            let (id, d) = picked[x];
            let rec = self.store.node_at(id);
            out.push((rec.row, d));
            x = x + 1;
        }
        proof {
            let bound = max_int(k as int, self.l as int);
            assert forall|i: int| 0 <= i < ids.len() implies (#[trigger] out@[i]).0
                == s[ids[i]]->Some_0.row && out@[i].1 == node_dist(s, m, q@, ids[i]) by {
                assert(out@[i].1 == picked_seq[i].1);
            }
            assert(search_result_matches(s, m, q@, k as int, bound, ids, out@));
            assert(search_result_matches(
                self.nodes(),
                self.metric,
                q@,
                k as int,
                max_int(k as int, self.l as int),
                ids,
                out@,
            ));
            assert(out@.len() == min_int(k as int, live_count(self.nodes()) as int));
            assert forall|x2: int, y2: int| 0 <= x2 < y2 < out@.len() implies (
            #[trigger] out@[x2]).1 <= (#[trigger] out@[y2]).1 by {
                assert(key_lt(s, m, q@, ids[x2], ids[y2]));
            }
        }
        let res: Result<Vec<(i64, u128)>, IndexError> = Ok(out);
        proof {
            assert(search_result_matches(
                self.nodes(),
                self.metric,
                q@,
                k as int,
                max_int(k as int, self.l as int),
                ids,
                res->Ok_0@,
            ));
        }
        res
    }
}

} // verus!
