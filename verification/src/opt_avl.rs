//! The persistent tree that keeps its past by bounded node copying: a node
//! takes one change in place and is copied at the next.

use crate::model::with_key;
use crate::model::without;
use crate::node_access::evolves;
use crate::node_access::NodeAccess;
use crate::opt::OptStore;
use crate::order::total_order;
use crate::persistent_avl_tree::PersistentAvlTree;
use crate::tree::Change;
use crate::tree::PersistentTree;
use crate::tree::stamped;
use vstd::multiset::Multiset;
use vstd::prelude::*;

verus! {

/// A persistent tree whose nodes are kept by bounded node copying: a node
/// takes one change in place and is copied at the next.
pub struct OptAVL<Data: Ord> {
    pub tree: PersistentTree<Data, OptStore>,
}

impl<Data: Ord> OptAVL<Data> {
    /// An empty tree, without versions.
    pub fn new() -> (tree: Self)
        requires
            total_order::<Data>(),
        ensures
            tree.wf(),
            tree.version_count() == 0,
            tree.history() == Seq::<Change<Data>>::empty(),
            tree.latest() == Multiset::<Data>::empty(),
            forall|t: u64| #[trigger] tree.contents_at(t) == Multiset::<Data>::empty(),
    {
        OptAVL { tree: PersistentTree::new() }
    }

    /// Adds `item` to the latest version and so makes a new version, whose
    /// timestamp is given back.
    pub fn insert(&mut self, item: Data) -> (stamp: u64)
        requires
            old(self).wf(),
        ensures
            final(self).wf(),
            stamped(old(self).version_count(), final(self).version_count(), stamp as nat),
            final(self).history() == old(self).history().push(Change::Insert(item)),
            forall|u: u64|
                u < stamp ==> #[trigger] final(self).contents_at(u) == old(self).contents_at(u),
            final(self).latest() == old(self).latest().insert(item),
            final(self).contents_at(stamp) == final(self).latest(),
            final(self).tree.data() == old(self).tree.data().push(item),
            final(self).tree.latest_shape() == with_key(
                final(self).tree.data(),
                old(self).tree.latest_shape(),
                old(self).tree.data().len() as usize,
            ),
            forall|u: u64|
                u < stamp ==> #[trigger] final(self).tree.shape_at(u) == old(self).tree.shape_at(u),
            evolves(old(self).tree.nodes(), final(self).tree.nodes(), stamp, Set::full()),
            final(self).tree.nodes().node_count() <= old(self).tree.nodes().node_count() + 2 + 6
                * old(self).tree.latest_shape().height(),
    {
        self.tree.insert(item)
    }
}

impl<Data: Ord> PersistentAvlTree for OptAVL<Data> {
    type Data = Data;

    type Timestamp = u64;

    open spec fn ordinal(t: u64) -> nat {
        t as nat
    }

    open spec fn wf(&self) -> bool {
        self.tree.wf()
    }

    open spec fn version_count(&self) -> nat {
        self.tree.version_count()
    }

    open spec fn history(&self) -> Seq<Change<Data>> {
        self.tree.history()
    }

    open spec fn contents_at(&self, t: u64) -> Multiset<Data> {
        self.tree.contents_at(t)
    }

    open spec fn latest(&self) -> Multiset<Data> {
        self.tree.latest()
    }

    proof fn lemma_latest(&self, t: u64) {
        self.tree.lemma_latest(t);
    }

    proof fn lemma_history_sound(&self) {
        self.tree.lemma_history_sound();
    }

    proof fn lemma_contents_replay(&self, t: u64) {
        self.tree.lemma_contents_replay(t);
    }

    fn insert(&mut self, item: Data) -> (stamp: u64)
        ensures
            final(self).tree.data() == old(self).tree.data().push(item),
            final(self).tree.latest_shape() == with_key(
                final(self).tree.data(),
                old(self).tree.latest_shape(),
                old(self).tree.data().len() as usize,
            ),
            forall|u: u64|
                u < stamp ==> #[trigger] final(self).tree.shape_at(u) == old(self).tree.shape_at(u),
            evolves(old(self).tree.nodes(), final(self).tree.nodes(), stamp, Set::full()),
            final(self).tree.nodes().node_count() <= old(self).tree.nodes().node_count() + 2 + 6
                * old(self).tree.latest_shape().height(),
    {
        self.tree.insert(item)
    }

    fn delete(&mut self, item: Data) -> (stamp: Option<u64>)
        ensures
            stamp is None ==> *final(self) == *old(self),
            stamp matches Some(t) ==> {
                &&& final(self).tree.data() == old(self).tree.data()
                &&& final(self).tree.latest_shape() == without(
                    old(self).tree.data(),
                    old(self).tree.latest_shape(),
                    item,
                )
                &&& forall|u: u64|
                    u < t ==> #[trigger] final(self).tree.shape_at(u) == old(self).tree.shape_at(u)
                &&& evolves(old(self).tree.nodes(), final(self).tree.nodes(), t, Set::full())
                &&& final(self).tree.nodes().node_count() <= old(self).tree.nodes().node_count()
                    + 2 + 6 * old(self).tree.latest_shape().height()
            },
    {
        self.tree.delete(item)
    }

    fn contains(&self, item: &Data, timestamp: u64) -> (present: bool) {
        self.tree.contains(item, timestamp)
    }

    fn predecessor(&self, item: &Data, timestamp: u64) -> (found: Option<&Data>) {
        self.tree.predecessor(item, timestamp)
    }

    fn successor(&self, item: &Data, timestamp: u64) -> (found: Option<&Data>) {
        self.tree.successor(item, timestamp)
    }
}

} // verus!
