//! The index object: parameters, vector store, navigation graph, and the
//! host-facing lifecycle and mutation operations.

use crate::dist::Metric;
use crate::graph::{graph_wf, NavigationGraph};
use crate::store::{is_live, live_count, live_set, occupied, NodeView, VectorStore};
use vstd::prelude::*;

verus! {

/// Largest supported vector dimension; keeps every distance, scaled by the
/// pruning factor, within `u128`.
pub const MAX_DIM: usize = 0x10_0000;

/// Largest supported degree bound `R`.
pub const MAX_DEGREE: usize = 0x1_0000;

/// Largest supported search-list width `L`.
pub const MAX_WIDTH: usize = 0x10_0000;

/// `alpha` is configured in hundredths; `100` means no extra aggressiveness.
pub const MIN_ALPHA: usize = 100;

/// Largest supported `alpha`, in hundredths.
pub const MAX_ALPHA: usize = 0x1_0000;

/// Errors a caller can provoke; invalid inputs never mutate the index.
#[derive(Clone, Copy, PartialEq, Eq, Structural, Debug)]
pub enum IndexError {
    /// A creation parameter or a search argument is outside its valid range.
    InvalidParameter,
    /// A vector's length differs from the index dimension.
    DimensionMismatch,
}

/// Outcome of `delete`: deleting an unknown or already-tombstoned row is a
/// status, not an error.
#[derive(Clone, Copy, PartialEq, Eq, Structural, Debug)]
pub enum DeleteOutcome {
    Deleted,
    NotFound,
}

/// The ranges `create_index` accepts.
pub open spec fn valid_params(dim: int, metric_code: int, r: int, l: int, alpha: int) -> bool {
    &&& 1 <= dim <= MAX_DIM
    &&& 0 <= metric_code <= 1
    &&& 2 <= r <= MAX_DEGREE
    &&& r <= l <= MAX_WIDTH
    &&& MIN_ALPHA <= alpha <= MAX_ALPHA
}

/// The metric each supported metric code denotes.
pub open spec fn metric_of(metric_code: int) -> Metric {
    if metric_code == 0 {
        Metric::L2
    } else {
        Metric::L1
    }
}

/// A disk-style approximate nearest-neighbour index over fixed-precision
/// vectors.
#[derive(Debug)]
pub struct DiskAnnIndex {
    pub metric: Metric,
    pub r: usize,
    pub l: usize,
    pub alpha: usize,
    pub store: VectorStore,
    pub graph: NavigationGraph,
}

impl DiskAnnIndex {
    /// The node slots, as their mathematical model.
    pub open spec fn nodes(&self) -> Seq<Option<NodeView>> {
        self.store@
    }

    /// Well-formedness: parameters in range, store and graph consistent,
    /// and — the degree-bound law — every adjacency list within `R`.
    pub open spec fn wf(&self) -> bool {
        &&& self.store.wf()
        &&& 1 <= self.store.dim <= MAX_DIM
        &&& 2 <= self.r <= MAX_DEGREE
        &&& self.r <= self.l <= MAX_WIDTH
        &&& MIN_ALPHA <= self.alpha <= MAX_ALPHA
        &&& graph_wf(self.nodes(), self.graph, self.r as int)
    }

    /// Create an empty index, validating every parameter.
    ///
    /// `metric_code` 0 is squared Euclidean, 1 is Manhattan; `alpha` is the
    /// pruning aggressiveness in hundredths (at least 100).
    pub fn create_index(dim: usize, metric_code: u32, r: usize, l: usize, alpha: usize) -> (res:
        Result<DiskAnnIndex, IndexError>)
        ensures
            res is Ok <==> valid_params(
                dim as int,
                metric_code as int,
                r as int,
                l as int,
                alpha as int,
            ),
            res is Err ==> res->Err_0 == IndexError::InvalidParameter,
            res is Ok ==> {
                let ix = res->Ok_0;
                &&& ix.wf()
                &&& ix.nodes().len() == 0
                &&& live_count(ix.nodes()) == 0
                &&& ix.metric == metric_of(metric_code as int)
                &&& ix.store.dim == dim
                &&& ix.r == r
                &&& ix.l == l
                &&& ix.alpha == alpha
            },
    {
        if dim < 1 || dim > MAX_DIM || metric_code > 1 || r < 2 || r > MAX_DEGREE || l < r || l
            > MAX_WIDTH || alpha < MIN_ALPHA || alpha > MAX_ALPHA {
            return Err(IndexError::InvalidParameter);
        }
        let metric = if metric_code == 0 {
            Metric::L2
        } else {
            Metric::L1
        };
        let ix = DiskAnnIndex {
            metric,
            r,
            l,
            alpha,
            store: VectorStore::new(dim),
            graph: NavigationGraph::new(),
        };
        proof {
            crate::store::lemma_live_set_finite(ix.nodes());
        }
        Ok(ix)
    }

    /// The fixed vector dimension of this index.
    pub fn dimension(&self) -> (d: usize)
        ensures
            d == self.store.dim,
    {
        self.store.dim
    }

    /// The metric identifier, as `create_index` took it.
    pub fn metric_code(&self) -> (c: u32)
        ensures
            c == 0 <==> self.metric == Metric::L2,
            c == 1 <==> self.metric == Metric::L1,
    {
        match self.metric {
            Metric::L2 => 0,
            Metric::L1 => 1,
        }
    }

    /// The degree bound `R`.
    pub fn degree_bound(&self) -> (r: usize)
        ensures
            r == self.r,
    {
        self.r
    }

    /// The search-list width `L`.
    pub fn search_width(&self) -> (l: usize)
        ensures
            l == self.l,
    {
        self.l
    }

    /// The pruning aggressiveness, in hundredths.
    pub fn alpha_hundredths(&self) -> (a: usize)
        ensures
            a == self.alpha,
    {
        self.alpha
    }

    /// Number of slots (live, tombstoned, or free) the arena currently has.
    pub fn slot_count(&self) -> (n: usize)
        ensures
            n == self.nodes().len(),
    {
        self.store.slots.len()
    }

    /// The adjacency list of an occupied node, for diagnostics.
    pub fn neighbors_of(&self, id: usize) -> (nbrs: Vec<usize>)
        requires
            self.wf(),
            id < self.nodes().len(),
        ensures
            nbrs@ == self.graph.adj@[id as int]@,
    {
        crate::store::copy_usize_vec(&self.graph.adj[id])
    }

    /// The current entry-point ids.
    pub fn entry_points(&self) -> (e: Vec<usize>)
        requires
            self.wf(),
        ensures
            e@ == self.graph.entries@,
    {
        crate::store::copy_usize_vec(&self.graph.entries)
    }

    /// Whether slot `id` currently holds a live (non-tombstoned) node.
    pub fn is_live_id(&self, id: usize) -> (b: bool)
        ensures
            b == is_live(self.nodes(), id as int),
    {
        if id < self.store.slots.len() {
            match &self.store.slots[id] {
                Some(rec) => !rec.tombstone,
                None => false,
            }
        } else {
            false
        }
    }
}

/// `s` with the node at `i` tombstoned.
pub open spec fn tombstone_at(s: Seq<Option<NodeView>>, i: int) -> Seq<Option<NodeView>> {
    s.update(
        i,
        Some(NodeView { vec: s[i]->Some_0.vec, row: s[i]->Some_0.row, tombstone: true }),
    )
}

/// First index at or after `i` holding a live node with row id `row`, or
/// `s.len()` when there is none.
pub open spec fn find_live_row(s: Seq<Option<NodeView>>, row: i64, i: int) -> int
    decreases s.len() - i,
{
    if !(0 <= i < s.len()) {
        s.len() as int
    } else if is_live(s, i) && s[i]->Some_0.row == row {
        i
    } else {
        find_live_row(s, row, i + 1)
    }
}

/// Whether a delete of `row` finds a live node.
pub open spec fn delete_hits(s: Seq<Option<NodeView>>, row: i64) -> bool {
    find_live_row(s, row, 0) < s.len()
}

/// The node slots after a delete of `row`: the first live node carrying the
/// row is tombstoned, everything else is untouched.
pub open spec fn delete_spec(s: Seq<Option<NodeView>>, row: i64) -> Seq<Option<NodeView>> {
    if delete_hits(s, row) {
        tombstone_at(s, find_live_row(s, row, 0))
    } else {
        s
    }
}

pub proof fn lemma_find_live_row_props(s: Seq<Option<NodeView>>, row: i64, i: int)
    requires
        0 <= i <= s.len(),
    ensures
        i <= find_live_row(s, row, i) <= s.len(),
        find_live_row(s, row, i) < s.len() ==> {
            let f = find_live_row(s, row, i);
            &&& is_live(s, f)
            &&& s[f]->Some_0.row == row
            &&& forall|j: int| i <= j < f ==> !(is_live(s, j) && s[j]->Some_0.row == row)
        },
        find_live_row(s, row, i) == s.len() ==> forall|j: int|
            i <= j < s.len() ==> !(is_live(s, j) && s[j]->Some_0.row == row),
    decreases s.len() - i,
{
    if i < s.len() && !(is_live(s, i) && s[i]->Some_0.row == row) {
        lemma_find_live_row_props(s, row, i + 1);
    }
}

impl DiskAnnIndex {
    /// Tombstone the first live node whose external row id is `row`.
    ///
    /// Edges are left intact so the node keeps serving as a traversal
    /// stepping-stone; the slot is reclaimed only by `consolidate`. Deleting
    /// an unknown or already-tombstoned row changes nothing and reports
    /// `NotFound`, so a repeated delete is harmless.
    pub fn delete(&mut self, row: i64) -> (r: DeleteOutcome)
        requires
            old(self).wf(),
        ensures
            final(self).wf(),
            final(self).nodes() == delete_spec(old(self).nodes(), row),
            r == (if delete_hits(old(self).nodes(), row) {
                DeleteOutcome::Deleted
            } else {
                DeleteOutcome::NotFound
            }),
            final(self).graph == old(self).graph,
            final(self).metric == old(self).metric,
            final(self).r == old(self).r,
            final(self).l == old(self).l,
            final(self).alpha == old(self).alpha,
            final(self).store.dim == old(self).store.dim,
            live_count(final(self).nodes()) == (if delete_hits(old(self).nodes(), row) {
                live_count(old(self).nodes()) - 1
            } else {
                live_count(old(self).nodes()) as int
            }),
    {
        let ghost s0 = self.nodes();
        let n = self.store.slots.len();
        let mut i: usize = 0;
        while i < n
            invariant
                old(self).wf(),
                *self == *old(self),
                s0 == self.nodes(),
                n == s0.len(),
                n == self.store.slots@.len(),
                0 <= i <= n,
                find_live_row(s0, row, 0) == find_live_row(s0, row, i as int),
            decreases n - i,
        {
            let hit = match &self.store.slots[i] {
                Some(rec) => !rec.tombstone && rec.row == row,
                None => false,
            };
            proof {
                assert(hit == (is_live(s0, i as int) && s0[i as int]->Some_0.row == row));
            }
            if hit {
                proof {
                    assert(find_live_row(s0, row, i as int) == i);
                }
                self.store.set_tombstone(i, true);
                proof {
                    assert(self.nodes() == tombstone_at(s0, i as int));
                    lemma_wf_after_occupancy_preserving_update(*old(self), *self);
                    lemma_live_count_tombstone(s0, i as int);
                }
                return DeleteOutcome::Deleted;
            }
            proof {
                assert(!(is_live(s0, i as int) && s0[i as int]->Some_0.row == row));
            }
            i = i + 1;
        }
        proof {
            lemma_find_live_row_props(s0, row, 0);
            assert(find_live_row(s0, row, 0) == s0.len());
        }
        DeleteOutcome::NotFound
    }
}

/// Tombstoning a node changes no slot's occupancy, so a well-formed graph
/// stays well-formed.
pub proof fn lemma_wf_after_occupancy_preserving_update(a: DiskAnnIndex, b: DiskAnnIndex)
    requires
        a.wf(),
        b.graph == a.graph,
        b.metric == a.metric,
        b.r == a.r,
        b.l == a.l,
        b.alpha == a.alpha,
        b.store.wf(),
        b.store.dim == a.store.dim,
        b.nodes().len() == a.nodes().len(),
        forall|i: int| 0 <= i < a.nodes().len() ==> (b.nodes()[i] is Some <==> a.nodes()[i] is Some),
    ensures
        b.wf(),
{
    assert(forall|i: int| occupied(b.nodes(), i) <==> occupied(a.nodes(), i));
}

/// Tombstoning a live node lowers the live count by exactly one.
pub proof fn lemma_live_count_tombstone(s: Seq<Option<NodeView>>, i: int)
    requires
        is_live(s, i),
    ensures
        live_count(tombstone_at(s, i)) == live_count(s) - 1,
{
    let t = tombstone_at(s, i);
    crate::store::lemma_live_set_finite(s);
    crate::store::lemma_live_set_finite(t);
    assert(live_set(t) =~= live_set(s).remove(i));
}

} // verus!
