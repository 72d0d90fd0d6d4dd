//! Persistence by path copying: a node is never changed once written, and a
//! change to a node writes a new node that shares the datum.

use crate::node_access::NodeAccess;
use vstd::prelude::*;

verus! {

/// A node that is written once: a datum, a height and two children.
#[derive(Clone, Copy, Debug)]
pub struct CopyNode {
    pub datum_ptr: usize,
    pub height: u64,
    pub left: Option<usize>,
    pub right: Option<usize>,
}

impl CopyNode {
    /// A node with the same datum and the given height and children.
    pub fn update(&self, height: u64, new_left: Option<usize>, new_right: Option<usize>) -> (node:
        CopyNode)
        ensures
            node == (CopyNode {
                datum_ptr: self.datum_ptr,
                height: height,
                left: new_left,
                right: new_right,
            }),
    {
        CopyNode { datum_ptr: self.datum_ptr, height: height, left: new_left, right: new_right }
    }
}

/// The nodes of all versions of a tree, in the order in which they were
/// written.
pub struct PathCopyStore {
    nodes: Vec<CopyNode>,
    latest: Ghost<u64>,
}

impl NodeAccess for PathCopyStore {
    closed spec fn wf(&self) -> bool {
        true
    }

    closed spec fn node_count(&self) -> nat {
        self.nodes@.len()
    }

    closed spec fn horizon(&self) -> u64 {
        self.latest@
    }

    closed spec fn datum_of(&self, node: usize) -> usize {
        self.nodes@[node as int].datum_ptr
    }

    closed spec fn left_at(&self, node: usize, t: u64) -> Option<usize> {
        self.nodes@[node as int].left
    }

    closed spec fn right_at(&self, node: usize, t: u64) -> Option<usize> {
        self.nodes@[node as int].right
    }

    closed spec fn height_at(&self, node: usize, t: u64) -> u64 {
        self.nodes@[node as int].height
    }

    proof fn lemma_settled(&self, node: usize, t: u64) {
    }

    fn new() -> (store: Self) {
        PathCopyStore { nodes: Vec::new(), latest: Ghost(0) }
    }

    fn len(&self) -> (count: usize) {
        self.nodes.len()
    }

    fn get_left(&self, node: usize, t: u64) -> (child: Option<usize>) {
        self.nodes[node].left
    }

    fn get_right(&self, node: usize, t: u64) -> (child: Option<usize>) {
        self.nodes[node].right
    }

    fn get_height(&self, node: usize, t: u64) -> (height: u64) {
        self.nodes[node].height
    }

    fn get_datum(&self, node: usize) -> (datum: usize) {
        self.nodes[node].datum_ptr
    }

    fn create(&mut self, datum: usize, t: u64) -> (node: usize) {
        self.nodes.push(CopyNode { datum_ptr: datum, height: 1, left: None, right: None });
        self.latest = Ghost(t);
        self.nodes.len() - 1
    }

    /// Writes a copy of `node` with the new children and height, and gives
    /// back the handle of the copy. `node` itself stays as it was.
    fn modify(
        &mut self,
        node: usize,
        t: u64,
        left: Option<usize>,
        right: Option<usize>,
        height: u64,
    ) -> (handle: usize)
        ensures
            handle == old(self).node_count(),
            final(self).node_count() == old(self).node_count() + 1,
            forall|m: usize, u: u64|
                m < old(self).node_count() ==> {
                    &&& #[trigger] final(self).left_at(m, u) == old(self).left_at(m, u)
                    &&& final(self).right_at(m, u) == old(self).right_at(m, u)
                    &&& final(self).height_at(m, u) == old(self).height_at(m, u)
                },
    {
        let copy = self.nodes[node].update(height, left, right);
        self.nodes.push(copy);
        self.latest = Ghost(t);
        self.nodes.len() - 1
    }
}

} // verus!
