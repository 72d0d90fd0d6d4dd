//! Persistence by fat nodes: every node keeps a log of what it was, and a
//! change appends to the log of the node it concerns.

use crate::node_access::NodeAccess;
use crate::order::lemma_total_order_u64;
use crate::timestamp::current_index;
use crate::timestamp::get_time;
use crate::timestamp::lemma_current_index;
use crate::timestamp::lemma_current_index_unique;
use crate::timestamp::sorted_by_time;
use crate::timestamp::TimestampSupplier;
use vstd::prelude::*;

verus! {

/// What a node was from `timestamp` on: its children and its height.
pub struct ChildrenAtTime {
    pub timestamp: u64,
    pub left: Option<usize>,
    pub right: Option<usize>,
    pub height: u64,
}

impl TimestampSupplier for ChildrenAtTime {
    type Timestamp = u64;

    open spec fn timestamp(&self) -> u64 {
        self.timestamp
    }

    fn get_timestamp(&self) -> (t: &u64) {
        &self.timestamp
    }
}

/// A node with the log of its changes, oldest first.
pub struct FatNode {
    pub datum: usize,
    pub children: Vec<ChildrenAtTime>,
}

impl FatNode {
    /// The log is in order of time.
    pub open spec fn wf(&self) -> bool {
        sorted_by_time(self.children@)
    }

    /// Every entry of the log was written at or before `t`.
    pub open spec fn written_by(&self, t: u64) -> bool {
        forall|i: int| 0 <= i < self.children@.len() ==> self.children@[i].timestamp <= t
    }

    /// Left child as of time `t`; none before the first entry.
    pub open spec fn left_at(&self, t: u64) -> Option<usize> {
        let i = current_index(self.children@, t);
        if i < 0 {
            None
        } else {
            self.children@[i].left
        }
    }

    /// Right child as of time `t`; none before the first entry.
    pub open spec fn right_at(&self, t: u64) -> Option<usize> {
        let i = current_index(self.children@, t);
        if i < 0 {
            None
        } else {
            self.children@[i].right
        }
    }

    /// Height as of time `t`; 0 before the first entry.
    pub open spec fn height_at(&self, t: u64) -> u64 {
        let i = current_index(self.children@, t);
        if i < 0 {
            0
        } else {
            self.children@[i].height
        }
    }

    /// A node for `datum` without children, of height 1, from time `t` on.
    pub fn new(datum: usize, t: u64) -> (node: FatNode)
        ensures
            node.wf(),
            node.written_by(t),
            node.datum == datum,
            node.left_at(t) is None,
            node.right_at(t) is None,
            node.height_at(t) == 1,
    {
        let mut children: Vec<ChildrenAtTime> = Vec::new();
        children.push(ChildrenAtTime { timestamp: t, left: None, right: None, height: 1 });
        FatNode { datum, children }
    }

    pub fn get_left(&self, t: u64) -> (child: Option<usize>)
        requires
            self.wf(),
        ensures
            child == self.left_at(t),
    {
        proof {
            lemma_total_order_u64();
        }
        match get_time(&self.children, &t) {
            Some(entry) => entry.left,
            None => None,
        }
    }

    pub fn get_right(&self, t: u64) -> (child: Option<usize>)
        requires
            self.wf(),
        ensures
            child == self.right_at(t),
    {
        proof {
            lemma_total_order_u64();
        }
        match get_time(&self.children, &t) {
            Some(entry) => entry.right,
            None => None,
        }
    }

    pub fn get_height(&self, t: u64) -> (height: u64)
        requires
            self.wf(),
        ensures
            height == self.height_at(t),
    {
        proof {
            lemma_total_order_u64();
        }
        match get_time(&self.children, &t) {
            Some(entry) => entry.height,
            None => 0,
        }
    }

    /// Records that from time `timestamp` on the node has the children
    /// `new_left` and `new_right` and the height `height`. Where the last
    /// entry of the log was written at that same time it is replaced, so
    /// that one operation leaves one entry; otherwise an entry is appended.
    pub fn modify(
        &mut self,
        timestamp: u64,
        height: u64,
        new_right: Option<usize>,
        new_left: Option<usize>,
    )
        requires
            old(self).wf(),
            old(self).written_by(timestamp),
        ensures
            final(self).wf(),
            final(self).written_by(timestamp),
            final(self).datum == old(self).datum,
            final(self).children@ == (if old(self).children@.len() > 0 && old(self).children@.last().timestamp == timestamp {
                old(self).children@.update(
                    old(self).children@.len() - 1,
                    ChildrenAtTime { timestamp, left: new_left, right: new_right, height },
                )
            } else {
                old(self).children@.push(
                    ChildrenAtTime { timestamp, left: new_left, right: new_right, height },
                )
            }),
            final(self).left_at(timestamp) == new_left,
            final(self).right_at(timestamp) == new_right,
            final(self).height_at(timestamp) == height,
            forall|u: u64| u < timestamp ==> #[trigger] final(self).left_at(u) == old(self).left_at(u),
            forall|u: u64|
                u < timestamp ==> #[trigger] final(self).right_at(u) == old(self).right_at(u),
            forall|u: u64|
                u < timestamp ==> #[trigger] final(self).height_at(u) == old(self).height_at(u),
    {
        let entry = ChildrenAtTime { timestamp, left: new_left, right: new_right, height };
        let n: usize = self.children.len();
        if n > 0 && self.children[n - 1].timestamp == timestamp {
            self.children[n - 1] = entry;
        } else {
            self.children.push(entry);
        }
        proof {
            let before = old(self).children@;
            let after = self.children@;
            lemma_total_order_u64();
            lemma_current_index_unique(after, timestamp, after.len() - 1);
            assert forall|u: u64| u < timestamp implies current_index(after, u) == current_index(
                before,
                u,
            ) && (current_index(before, u) >= 0 ==> after[current_index(before, u)]
                == before[current_index(before, u)]) by {
                lemma_current_index(before, u);
                lemma_current_index_unique(after, u, current_index(before, u));
            }
        }
    }
}

/// The nodes of a tree, each with its log.
pub struct FatNodeStore {
    nodes: Vec<FatNode>,
    latest: Ghost<u64>,
}

impl NodeAccess for FatNodeStore {
    closed spec fn wf(&self) -> bool {
        forall|m: int|
            0 <= m < self.nodes@.len() ==> (#[trigger] self.nodes@[m]).wf() && self.nodes@[m].written_by(
                self.latest@,
            )
    }

    closed spec fn node_count(&self) -> nat {
        self.nodes@.len()
    }

    closed spec fn horizon(&self) -> u64 {
        self.latest@
    }

    closed spec fn datum_of(&self, node: usize) -> usize {
        self.nodes@[node as int].datum
    }

    closed spec fn left_at(&self, node: usize, t: u64) -> Option<usize> {
        self.nodes@[node as int].left_at(t)
    }

    closed spec fn right_at(&self, node: usize, t: u64) -> Option<usize> {
        self.nodes@[node as int].right_at(t)
    }

    closed spec fn height_at(&self, node: usize, t: u64) -> u64 {
        self.nodes@[node as int].height_at(t)
    }

    proof fn lemma_settled(&self, node: usize, t: u64) {
        lemma_total_order_u64();
        let log = self.nodes@[node as int].children@;
        let last = log.len() - 1;
        lemma_current_index_unique(log, t, last);
        lemma_current_index_unique(log, self.latest@, last);
    }

    fn new() -> (store: Self) {
        FatNodeStore { nodes: Vec::new(), latest: Ghost(0) }
    }

    fn len(&self) -> (count: usize) {
        self.nodes.len()
    }

    fn get_left(&self, node: usize, t: u64) -> (child: Option<usize>) {
        self.nodes[node].get_left(t)
    }

    fn get_right(&self, node: usize, t: u64) -> (child: Option<usize>) {
        self.nodes[node].get_right(t)
    }

    fn get_height(&self, node: usize, t: u64) -> (height: u64) {
        self.nodes[node].get_height(t)
    }

    fn get_datum(&self, node: usize) -> (datum: usize) {
        self.nodes[node].datum
    }

    fn create(&mut self, datum: usize, t: u64) -> (node: usize) {
        self.nodes.push(FatNode::new(datum, t));
        self.latest = Ghost(t);
        self.nodes.len() - 1
    }

    /// Appends the change to the log of `node`, which keeps its handle.
    fn modify(
        &mut self,
        node: usize,
        t: u64,
        left: Option<usize>,
        right: Option<usize>,
        height: u64,
    ) -> (handle: usize)
        ensures
            handle == node,
            final(self).node_count() == old(self).node_count(),
    {
        self.nodes[node].modify(t, height, right, left);
        self.latest = Ghost(t);
        node
    }
}

} // verus!
