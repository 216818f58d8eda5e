//! The library's laws, stated and proved over the index model.
//!
//! Each law is a public proof function whose premises are only what the law
//! itself needs; `search`, `delete`, `insert`, and `consolidate` state the
//! rest of their behaviour directly in their own contracts.

use crate::dist::Metric;
use crate::index::{delete_hits, delete_spec, find_live_row, lemma_find_live_row_props,
    DiskAnnIndex};
use crate::search::{key_lt, node_dist, valid_result};
use crate::store::{is_live, live_count, live_set, NodeView};
use vstd::prelude::*;

verus! {

/// A live node makes the live count positive.
pub proof fn lemma_live_member_count(s: Seq<Option<NodeView>>, n: int)
    requires
        is_live(s, n),
    ensures
        live_count(s) >= 1,
{
    crate::store::lemma_live_set_finite(s);
    let single = set![n];
    assert(single.subset_of(live_set(s)));
    vstd::set_lib::lemma_len_subset(single, live_set(s));
    assert(single.len() == 1);
}

/// Self-retrieval: when a live node's own vector is the query, a search for
/// the single best result must rank exactly that node — provided no live
/// node of lower id sits at distance zero too (with duplicated vectors the
/// tie-break by lower id decides). Combined with `search`'s contract, which
/// guarantees `valid_result` whenever at most `bound = max(k, L)` live nodes
/// exist, `search(v, 1)` then returns that node's row id at distance zero.
pub proof fn lemma_self_retrieval(
    s: Seq<Option<NodeView>>,
    m: Metric,
    q: Seq<i32>,
    bound: int,
    ids: Seq<int>,
    n: int,
)
    requires
        is_live(s, n),
        s[n]->Some_0.vec == q,
        live_count(s) <= bound,
        valid_result(s, m, q, 1, bound, ids),
        forall|j: int| is_live(s, j) && j != n ==> node_dist(s, m, q, j) > 0 || j > n,
    ensures
        ids =~= seq![n],
        node_dist(s, m, q, n) == 0,
{
    crate::dist::lemma_dist_self_zero(m, q);
    assert(node_dist(s, m, q, n) == 0);
    lemma_live_member_count(s, n);
    assert(ids.len() == 1);
    let j = ids[0];
    assert(is_live(s, j));
    if j != n {
        if ids.contains(n) {
            let x = choose|x: int| 0 <= x < ids.len() && ids[x] == n;
            assert(x == 0);
            assert(false);
        }
        assert(key_lt(s, m, q, j, n));
        crate::dist::lemma_dist_upto_nonneg(m, s[j]->Some_0.vec, q, s[j]->Some_0.vec.len() as int);
        assert(node_dist(s, m, q, j) >= 0);
        assert(node_dist(s, m, q, j) == 0 && j < n);
        assert(false);
    }
    assert(ids =~= seq![n]);
}

/// Delete idempotence: once a row's node is tombstoned, deleting the same
/// row again finds nothing and changes nothing — provided at most one live
/// node carries the row, as host row ids do.
pub proof fn lemma_delete_idempotent(s: Seq<Option<NodeView>>, row: i64)
    requires
        forall|i: int, j: int|
            #![trigger is_live(s, i), is_live(s, j)]
            is_live(s, i) && is_live(s, j) && s[i]->Some_0.row == row && s[j]->Some_0.row == row
                ==> i == j,
    ensures
        !delete_hits(delete_spec(s, row), row),
        delete_spec(delete_spec(s, row), row) == delete_spec(s, row),
{
    lemma_find_live_row_props(s, row, 0);
    let s1 = delete_spec(s, row);
    if delete_hits(s, row) {
        let f = find_live_row(s, row, 0);
        assert(is_live(s, f) && s[f]->Some_0.row == row);
        assert forall|j: int| 0 <= j < s1.len() implies !(is_live(s1, j) && s1[j]->Some_0.row
            == row) by {
            if j == f {
                assert(!is_live(s1, j));
            } else {
                assert(s1[j] == s[j]);
                if is_live(s1, j) && s1[j]->Some_0.row == row {
                    assert(is_live(s, j) && s[j]->Some_0.row == row);
                    assert(j == f);
                    assert(false);
                }
            }
        }
        lemma_find_live_row_props(s1, row, 0);
        if find_live_row(s1, row, 0) < s1.len() {
            let f2 = find_live_row(s1, row, 0);
            assert(is_live(s1, f2) && s1[f2]->Some_0.row == row);
            assert(false);
        }
    } else {
        assert(s1 == s);
    }
}

/// Degree bound: in every well-formed index — and every mutation's contract
/// returns a well-formed index — each adjacency list holds at most `R` ids.
pub proof fn lemma_degree_bound(ix: DiskAnnIndex)
    requires
        ix.wf(),
    ensures
        forall|i: int|
            0 <= i < ix.graph.adj@.len() ==> (#[trigger] ix.graph.adj@[i])@.len() <= ix.r,
{
}

} // verus!
