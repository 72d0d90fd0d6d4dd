//! Persistence by bounded node copying: a node has room for one change, and
//! only a second change to it writes a new node.

use crate::node_access::NodeAccess;
use vstd::prelude::*;

verus! {

/// A node with two slots for its children and height. Before `timestamp`
/// the first slot is what the node is. From `timestamp` on it is the second
/// slot, where that one is occupied.
pub struct OptAVLNode {
    pub datum_ptr: usize,
    pub timestamp: u64,
    pub l1: Option<usize>,
    pub r1: Option<usize>,
    pub h1: u64,
    pub occupied: bool,
    pub l2: Option<usize>,
    pub r2: Option<usize>,
    pub h2: u64,
}

impl OptAVLNode {
    /// Whether the second slot is what the node is as of time `t`.
    pub open spec fn second_at(&self, t: u64) -> bool {
        self.occupied && t >= self.timestamp
    }

    pub open spec fn left_at(&self, t: u64) -> Option<usize> {
        if self.second_at(t) {
            self.l2
        } else {
            self.l1
        }
    }

    pub open spec fn right_at(&self, t: u64) -> Option<usize> {
        if self.second_at(t) {
            self.r2
        } else {
            self.r1
        }
    }

    pub open spec fn height_at(&self, t: u64) -> u64 {
        if self.second_at(t) {
            self.h2
        } else {
            self.h1
        }
    }

    /// A node for `datum` without children, of height 1, whose second slot
    /// is free.
    pub fn new(datum_ptr: usize, timestamp: u64) -> (node: OptAVLNode)
        ensures
            node.datum_ptr == datum_ptr,
            node.timestamp == timestamp,
            !node.occupied,
            node.l1 is None,
            node.r1 is None,
            node.h1 == 1,
    {
        OptAVLNode {
            datum_ptr,
            timestamp,
            l1: None,
            r1: None,
            h1: 1,
            occupied: false,
            l2: None,
            r2: None,
            h2: 0,
        }
    }

    pub fn get_left(&self, timestamp: u64) -> (child: Option<usize>)
        ensures
            child == self.left_at(timestamp),
    {
        if self.occupied && timestamp >= self.timestamp {
            self.l2
        } else {
            self.l1
        }
    }

    pub fn get_right(&self, timestamp: u64) -> (child: Option<usize>)
        ensures
            child == self.right_at(timestamp),
    {
        if self.occupied && timestamp >= self.timestamp {
            self.r2
        } else {
            self.r1
        }
    }

    pub fn get_height(&self, timestamp: u64) -> (height: u64)
        ensures
            height == self.height_at(timestamp),
    {
        if self.occupied && timestamp >= self.timestamp {
            self.h2
        } else {
            self.h1
        }
    }

    /// A new node that has in its first slot what this node has in its
    /// second, and in its second slot the given children and height, from
    /// `timestamp` on.
    pub fn duplicate_with_new_ptrs(
        &self,
        timestamp: u64,
        l2: Option<usize>,
        r2: Option<usize>,
        h2: u64,
    ) -> (node: OptAVLNode)
        ensures
            node == (OptAVLNode {
                datum_ptr: self.datum_ptr,
                timestamp: timestamp,
                l1: self.l2,
                r1: self.r2,
                h1: self.h2,
                occupied: true,
                l2: l2,
                r2: r2,
                h2: h2,
            }),
    {
        OptAVLNode {
            datum_ptr: self.datum_ptr,
            timestamp,
            l1: self.l2,
            r1: self.r2,
            h1: self.h2,
            occupied: true,
            l2,
            r2,
            h2,
        }
    }

    /// Records the given children and height from `timestamp` on. Where the
    /// second slot is free it takes them and nothing is given back; where it
    /// is occupied the node stays as it is and the copy to put in its place
    /// is given back.
    pub fn modify_or_duplicate(
        &mut self,
        timestamp: u64,
        new_left: Option<usize>,
        new_right: Option<usize>,
        height: u64,
    ) -> (copy: Option<OptAVLNode>)
        ensures
            old(self).occupied ==> *final(self) == *old(self) && copy == Some(
                OptAVLNode {
                    datum_ptr: old(self).datum_ptr,
                    timestamp: timestamp,
                    l1: old(self).l2,
                    r1: old(self).r2,
                    h1: old(self).h2,
                    occupied: true,
                    l2: new_left,
                    r2: new_right,
                    h2: height,
                },
            ),
            !old(self).occupied ==> copy is None && *final(self) == (OptAVLNode {
                timestamp: timestamp,
                occupied: true,
                l2: new_left,
                r2: new_right,
                h2: height,
                ..*old(self)
            }),
    {
        if self.occupied {
            Some(self.duplicate_with_new_ptrs(timestamp, new_left, new_right, height))
        } else {
            self.timestamp = timestamp;
            self.occupied = true;
            self.l2 = new_left;
            self.r2 = new_right;
            self.h2 = height;
            None
        }
    }
}

/// The nodes of all versions of a tree.
pub struct OptStore {
    nodes: Vec<OptAVLNode>,
    latest: Ghost<u64>,
}

impl OptStore {
    /// Whether the second slot of `node` is free.
    pub closed spec fn slot_free(&self, node: usize) -> bool {
        !self.nodes@[node as int].occupied
    }

    /// Records at time `t` the given children and height for `node`: in the
    /// node's free slot, or in a copy of the node where the slot is occupied.
    /// Gives back the handle under which the node is found from `t` on.
    pub fn modify_or_split(
        &mut self,
        node: usize,
        t: u64,
        new_left: Option<usize>,
        new_right: Option<usize>,
        height: u64,
    ) -> (handle: usize)
        requires
            old(self).wf(),
            node < old(self).node_count(),
            t >= old(self).horizon(),
        ensures
            final(self).wf(),
            final(self).horizon() == t,
            handle < final(self).node_count(),
            !old(self).slot_free(node) ==> handle == old(self).node_count() && final(self).node_count() == old(self).node_count() + 1,
            old(self).slot_free(node) ==> handle == node && final(self).node_count() == old(self).node_count(),
            !final(self).slot_free(handle),
            final(self).datum_of(handle) == old(self).datum_of(node),
            final(self).left_at(handle, t) == new_left,
            final(self).right_at(handle, t) == new_right,
            final(self).height_at(handle, t) == height,
            forall|m: usize|
                m < old(self).node_count() ==> #[trigger] final(self).datum_of(m) == old(self).datum_of(m),
            forall|m: usize, u: u64|
                m < old(self).node_count() && (u < t || m != node) ==> #[trigger] final(self).left_at(m, u) == old(self).left_at(m, u),
            forall|m: usize, u: u64|
                m < old(self).node_count() && (u < t || m != node) ==> #[trigger] final(self).right_at(m, u) == old(self).right_at(m, u),
            forall|m: usize, u: u64|
                m < old(self).node_count() && (u < t || m != node) ==> #[trigger] final(self).height_at(m, u) == old(self).height_at(m, u),
    {
        let copy = self.nodes[node].modify_or_duplicate(t, new_left, new_right, height);
        self.latest = Ghost(t);
        match copy {
            Some(duplicate) => {
                self.nodes.push(duplicate);
                self.nodes.len() - 1
            },
            None => node,
        }
    }
}

impl NodeAccess for OptStore {
    closed spec fn wf(&self) -> bool {
        forall|m: int|
            0 <= m < self.nodes@.len() ==> (#[trigger] self.nodes@[m]).occupied
                ==> self.nodes@[m].timestamp <= self.latest@
    }

    closed spec fn node_count(&self) -> nat {
        self.nodes@.len()
    }

    closed spec fn horizon(&self) -> u64 {
        self.latest@
    }

    closed spec fn datum_of(&self, node: usize) -> usize {
        self.nodes@[node as int].datum_ptr
    }

    closed spec fn left_at(&self, node: usize, t: u64) -> Option<usize> {
        self.nodes@[node as int].left_at(t)
    }

    closed spec fn right_at(&self, node: usize, t: u64) -> Option<usize> {
        self.nodes@[node as int].right_at(t)
    }

    closed spec fn height_at(&self, node: usize, t: u64) -> u64 {
        self.nodes@[node as int].height_at(t)
    }

    proof fn lemma_settled(&self, node: usize, t: u64) {
    }

    fn new() -> (store: Self) {
        OptStore { nodes: Vec::new(), latest: Ghost(0) }
    }

    fn len(&self) -> (count: usize) {
        self.nodes.len()
    }

    fn get_left(&self, node: usize, t: u64) -> (child: Option<usize>) {
        self.nodes[node].get_left(t)
    }

    fn get_right(&self, node: usize, t: u64) -> (child: Option<usize>) {
        self.nodes[node].get_right(t)
    }

    fn get_height(&self, node: usize, t: u64) -> (height: u64) {
        self.nodes[node].get_height(t)
    }

    fn get_datum(&self, node: usize) -> (datum: usize) {
        self.nodes[node].datum_ptr
    }

    fn create(&mut self, datum: usize, t: u64) -> (node: usize) {
        self.nodes.push(OptAVLNode::new(datum, t));
        self.latest = Ghost(t);
        self.nodes.len() - 1
    }

    fn modify(
        &mut self,
        node: usize,
        t: u64,
        left: Option<usize>,
        right: Option<usize>,
        height: u64,
    ) -> (handle: usize) {
        self.modify_or_split(node, t, left, right, height)
    }
}

} // verus!
