//! The persistent tree that keeps its past in fat nodes: each node with the
//! log of its changes.

use crate::fat_node::FatNodeStore;
use crate::model::with_key;
use crate::model::without;
use crate::node_access::evolves;
use crate::node_access::NodeAccess;
use crate::order::total_order;
use crate::persistent_avl_tree::PersistentAvlTree;
use crate::tree::Change;
use crate::tree::PersistentTree;
use vstd::multiset::Multiset;
use vstd::prelude::*;

verus! {

/// A persistent tree whose nodes are kept in fat nodes: each node with the
/// log of its changes.
pub struct FatNodeAvl<Data: Ord> {
    pub tree: PersistentTree<Data, FatNodeStore>,
}

impl<Data: Ord> FatNodeAvl<Data> {
    /// An empty tree, without versions.
    pub fn new() -> (tree: Self)
        requires
            total_order::<Data>(),
        ensures
            tree.wf(),
            tree.version_count() == 0,
            tree.history() == Seq::<Change<Data>>::empty(),
            tree.latest() == Multiset::<Data>::empty(),
            forall|t: u64| #[trigger] tree.contents_at(t) == Multiset::<Data>::empty(),
    {
        FatNodeAvl { tree: PersistentTree::new() }
    }
}

impl<Data: Ord> PersistentAvlTree for FatNodeAvl<Data> {
    type Data = Data;

    type Timestamp = u64;

    open spec fn ordinal(t: u64) -> nat {
        t as nat
    }

    open spec fn wf(&self) -> bool {
        self.tree.wf()
    }

    open spec fn version_count(&self) -> nat {
        self.tree.version_count()
    }

    open spec fn history(&self) -> Seq<Change<Data>> {
        self.tree.history()
    }

    open spec fn contents_at(&self, t: u64) -> Multiset<Data> {
        self.tree.contents_at(t)
    }

    open spec fn latest(&self) -> Multiset<Data> {
        self.tree.latest()
    }

    proof fn lemma_latest(&self, t: u64) {
        self.tree.lemma_latest(t);
    }

    proof fn lemma_history_sound(&self) {
        self.tree.lemma_history_sound();
    }

    proof fn lemma_contents_replay(&self, t: u64) {
        self.tree.lemma_contents_replay(t);
    }

    fn insert(&mut self, item: Data) -> (stamp: u64)
        ensures
            final(self).tree.data() == old(self).tree.data().push(item),
            final(self).tree.latest_shape() == with_key(
                final(self).tree.data(),
                old(self).tree.latest_shape(),
                old(self).tree.data().len() as usize,
            ),
            forall|u: u64|
                u < stamp ==> #[trigger] final(self).tree.shape_at(u) == old(self).tree.shape_at(u),
            evolves(old(self).tree.nodes(), final(self).tree.nodes(), stamp, Set::full()),
            final(self).tree.nodes().node_count() <= old(self).tree.nodes().node_count() + 2 + 6
                * old(self).tree.latest_shape().height(),
    {
        self.tree.insert(item)
    }

    fn delete(&mut self, item: Data) -> (stamp: Option<u64>)
        ensures
            stamp is None ==> *final(self) == *old(self),
            stamp matches Some(t) ==> {
                &&& final(self).tree.data() == old(self).tree.data()
                &&& final(self).tree.latest_shape() == without(
                    old(self).tree.data(),
                    old(self).tree.latest_shape(),
                    item,
                )
                &&& forall|u: u64|
                    u < t ==> #[trigger] final(self).tree.shape_at(u) == old(self).tree.shape_at(u)
                &&& evolves(old(self).tree.nodes(), final(self).tree.nodes(), t, Set::full())
                &&& final(self).tree.nodes().node_count() <= old(self).tree.nodes().node_count()
                    + 2 + 6 * old(self).tree.latest_shape().height()
            },
    {
        self.tree.delete(item)
    }

    fn contains(&self, item: &Data, timestamp: u64) -> (present: bool) {
        self.tree.contains(item, timestamp)
    }

    fn predecessor(&self, item: &Data, timestamp: u64) -> (found: Option<&Data>) {
        self.tree.predecessor(item, timestamp)
    }

    fn successor(&self, item: &Data, timestamp: u64) -> (found: Option<&Data>) {
        self.tree.successor(item, timestamp)
    }
}

} // verus!
