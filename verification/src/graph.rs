//! Navigation graph: a degree-bounded adjacency list per node slot, plus the
//! fixed entry-point set every traversal starts from.

use crate::store::{occupied, NodeView};
use vstd::prelude::*;

verus! {

/// Adjacency structure of the index, kept as a dense arena aligned with the
/// vector store's slots.
#[derive(Debug)]
pub struct NavigationGraph {
    pub adj: Vec<Vec<usize>>,
    pub entries: Vec<usize>,
}

/// Well-formedness of the graph against the node slots `s` and the degree
/// bound `r`: one adjacency list per slot, every list within the bound,
/// every edge and every entry point aimed at an occupied slot, and no edges
/// left on a freed slot.
pub open spec fn graph_wf(s: Seq<Option<NodeView>>, g: NavigationGraph, r: int) -> bool {
    &&& g.adj@.len() == s.len()
    &&& forall|i: int| 0 <= i < g.adj@.len() ==> (#[trigger] g.adj@[i])@.len() <= r
    &&& forall|i: int, j: int|
        0 <= i < g.adj@.len() && 0 <= j < g.adj@[i]@.len() ==> occupied(
            s,
            (#[trigger] g.adj@[i]@[j]) as int,
        )
    &&& forall|i: int|
        0 <= i < g.adj@.len() && !occupied(s, i) ==> (#[trigger] g.adj@[i])@.len() == 0
    &&& forall|e: int| 0 <= e < g.entries@.len() ==> occupied(s, (#[trigger] g.entries@[e]) as int)
}

impl NavigationGraph {
    pub fn new() -> (g: NavigationGraph)
        ensures
            g.adj@.len() == 0,
            g.entries@.len() == 0,
    {
        NavigationGraph { adj: Vec::new(), entries: Vec::new() }
    }
}

} // verus!
