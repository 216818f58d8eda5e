//! Durable, fixed-stride storage of raw vectors keyed by dense node id.
//!
//! Each slot holds one node record (coordinates, external row id, tombstone
//! flag) or is free. Freed slots are remembered and reused by `append`
//! before the store grows, so node ids stay dense and stable.

use vstd::pervasive::VecAdditionalExecFns;
use vstd::prelude::*;

verus! {

/// One indexed node: its raw vector, the host's row identifier, and the
/// logical-delete marker.
#[derive(Debug)]
pub struct NodeRec {
    pub vec: Vec<i32>,
    pub row: i64,
    pub tombstone: bool,
}

/// Mathematical model of a node record.
pub struct NodeView {
    pub vec: Seq<i32>,
    pub row: i64,
    pub tombstone: bool,
}

impl View for NodeRec {
    type V = NodeView;

    open spec fn view(&self) -> NodeView {
        NodeView { vec: self.vec@, row: self.row, tombstone: self.tombstone }
    }
}

/// Slot `i` holds a node.
pub open spec fn occupied(s: Seq<Option<NodeView>>, i: int) -> bool {
    0 <= i < s.len() && s[i] is Some
}

/// Slot `i` holds a node that has not been tombstoned.
pub open spec fn is_live(s: Seq<Option<NodeView>>, i: int) -> bool {
    occupied(s, i) && !s[i]->Some_0.tombstone
}

/// The set of live node ids.
pub open spec fn live_set(s: Seq<Option<NodeView>>) -> Set<int> {
    Set::new(|i: int| is_live(s, i))
}

/// How many live nodes the store holds.
pub open spec fn live_count(s: Seq<Option<NodeView>>) -> nat {
    live_set(s).len()
}

pub proof fn lemma_live_set_finite(s: Seq<Option<NodeView>>)
    ensures
        live_set(s).finite(),
        live_set(s).len() <= s.len(),
{
    let r = vstd::set_lib::set_int_range(0, s.len() as int);
    vstd::set_lib::lemma_int_range(0, s.len() as int);
    assert(live_set(s).subset_of(r));
    vstd::set_lib::lemma_len_subset(live_set(s), r);
}

/// Vector storage: a dense arena of slots plus the free list.
#[derive(Debug)]
pub struct VectorStore {
    pub dim: usize,
    pub slots: Vec<Option<NodeRec>>,
    pub free: Vec<usize>,
}

impl View for VectorStore {
    type V = Seq<Option<NodeView>>;

    open spec fn view(&self) -> Seq<Option<NodeView>> {
        Seq::new(
            self.slots@.len(),
            |i: int|
                match self.slots@[i] {
                    Some(r) => Some(r@),
                    None => None,
                },
        )
    }
}

impl VectorStore {
    pub open spec fn wf(&self) -> bool {
        &&& forall|i: int| occupied(self@, i) ==> (#[trigger] self@[i])->Some_0.vec.len()
            == self.dim
        &&& forall|j: int|
            0 <= j < self.free@.len() ==> (#[trigger] self.free@[j]) < self@.len()
                && self@[self.free@[j] as int] is None
        &&& self.free@.no_duplicates()
    }

    pub fn new(dim: usize) -> (r: VectorStore)
        ensures
            r.wf(),
            r.dim == dim,
            r@.len() == 0,
    {
        VectorStore { dim, slots: Vec::new(), free: Vec::new() }
    }

    /// Borrow the record stored in an occupied slot.
    pub fn node_at(&self, i: usize) -> (r: &NodeRec)
        requires
            occupied(self@, i as int),
        ensures
            r@ == self@[i as int]->Some_0,
    {
        match &self.slots[i] {
            Some(r) => r,
            None => {
                proof {
                    assert(false);
                }
                vstd::pervasive::unreached()
            },
        }
    }

    /// Store a vector, reusing a freed slot when one exists.
    ///
    /// Either an old free slot `id` is filled, or the store grows by one
    /// slot; no other slot changes.
    pub fn append(&mut self, vec: Vec<i32>, row: i64) -> (id: usize)
        requires
            old(self).wf(),
            vec@.len() == old(self).dim,
        ensures
            final(self).wf(),
            final(self).dim == old(self).dim,
            ({
                let nv = NodeView { vec: vec@, row: row, tombstone: false };
                ||| {
                    &&& (id as int) < old(self)@.len()
                    &&& old(self)@[id as int] is None
                    &&& final(self)@ == old(self)@.update(id as int, Some(nv))
                }
                ||| {
                    &&& id as int == old(self)@.len()
                    &&& final(self)@ == old(self)@.push(Some(nv))
                }
            }),
    {
        let ghost nv = NodeView { vec: vec@, row: row, tombstone: false };
        let rec = NodeRec { vec, row, tombstone: false };
        let id: usize = match self.free.pop() {
            Some(slot) => {
                self.slots.set(slot, Some(rec));
                slot
            },
            None => {
                let slot = self.slots.len();
                self.slots.push(Some(rec));
                slot
            },
        };
        proof {
            if (id as int) < old(self)@.len() {
                assert(self@ =~= old(self)@.update(id as int, Some(nv)));
            } else {
                assert(self@ =~= old(self)@.push(Some(nv)));
            }
        }
        id
    }

    /// Flip the tombstone flag of an occupied slot to `mark`.
    pub fn set_tombstone(&mut self, i: usize, mark: bool)
        requires
            old(self).wf(),
            occupied(old(self)@, i as int),
        ensures
            final(self).wf(),
            final(self).dim == old(self).dim,
            final(self)@ == old(self)@.update(
                i as int,
                Some(
                    NodeView {
                        vec: old(self)@[i as int]->Some_0.vec,
                        row: old(self)@[i as int]->Some_0.row,
                        tombstone: mark,
                    },
                ),
            ),
    {
        let rec = {
            let r = self.node_at(i);
            NodeRec { vec: copy_vec(&r.vec), row: r.row, tombstone: mark }
        };
        self.slots.set(i, Some(rec));
        proof {
            assert(self@ =~= old(self)@.update(
                i as int,
                Some(
                    NodeView {
                        vec: old(self)@[i as int]->Some_0.vec,
                        row: old(self)@[i as int]->Some_0.row,
                        tombstone: mark,
                    },
                ),
            ));
        }
    }

    /// Free the slot of an occupied node and remember it for reuse.
    pub fn release(&mut self, i: usize)
        requires
            old(self).wf(),
            occupied(old(self)@, i as int),
        ensures
            final(self).wf(),
            final(self).dim == old(self).dim,
            final(self)@ == old(self)@.update(i as int, None),
    {
        proof {
            assert(forall|j: int|
                0 <= j < self.free@.len() ==> (#[trigger] self.free@[j]) != i) by {
                assert(self@[i as int] is Some);
            }
        }
        self.slots.set(i, None);
        self.free.push(i);
        proof {
            assert(self@ =~= old(self)@.update(i as int, None));
            assert(self.free@.no_duplicates()) by {
                assert(forall|j: int|
                    0 <= j < old(self).free@.len() ==> self.free@[j] == old(self).free@[j]);
            }
        }
    }
}

/// Element-for-element copy of a coordinate vector.
pub fn copy_vec(v: &Vec<i32>) -> (r: Vec<i32>)
    ensures
        r@ == v@,
{
    let mut r: Vec<i32> = Vec::new();
    let n = v.len();
    for i in 0..n
        invariant
            n == v@.len(),
            r@ == v@.subrange(0, i as int),
    {
        r.push(v[i]);
        proof {
            assert(r@ =~= v@.subrange(0, i + 1));
        }
    }
    proof {
        assert(v@.subrange(0, n as int) =~= v@);
    }
    r
}

/// Element-for-element copy of an id list.
pub fn copy_usize_vec(v: &Vec<usize>) -> (r: Vec<usize>)
    ensures
        r@ == v@,
{
    let mut r: Vec<usize> = Vec::new();
    let n = v.len();
    for i in 0..n
        invariant
            n == v@.len(),
            r@ == v@.subrange(0, i as int),
    {
        r.push(v[i]);
        proof {
            assert(r@ =~= v@.subrange(0, i + 1));
        }
    }
    proof {
        assert(v@.subrange(0, n as int) =~= v@);
    }
    r
}

} // verus!
