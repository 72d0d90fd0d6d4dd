//! The persistent tree over any store of nodes: the table of versions, the
//! queries on a version, insertion and deletion.

use crate::edit::grow;
use crate::edit::shrink;
use crate::keys::lemma_contents;
use crate::keys::lemma_empty_contents;
use crate::keys::lemma_key_after;
use crate::keys::lemma_key_before;
use crate::keys::lemma_ordered_at;
use crate::keys::lemma_ordered_extend;
use crate::keys::lemma_ordered_values;
use crate::keys::lemma_values_insert;
use crate::keys::lemma_values_remove;
use crate::keys::ordered;
use crate::keys::values;
use crate::model::with_key;
use crate::model::without;
use crate::node_access::evolves;
use crate::node_access::lemma_represents_evolves;
use crate::node_access::lemma_represents_node;
use crate::node_access::lemma_represents_root;
use crate::node_access::lemma_represents_settled;
use crate::node_access::NodeAccess;
use crate::node_access::represents;
use crate::order::is_lt;
use crate::order::is_same;
use crate::order::le;
use crate::order::lemma_le_transitive;
use crate::order::lemma_lt_transitive;
use crate::order::lemma_total_order_u64;
use crate::order::lemma_trichotomy;
use crate::order::lt;
use crate::order::total_order;
use crate::shape::lemma_node;
use crate::shape::lemma_window_split;
use crate::shape::Shape;
use crate::timestamp::get_latest;
use crate::timestamp::get_time;
use crate::timestamp::lemma_current_index_unique;
use crate::timestamp::TimestampSupplier;
use vstd::multiset::Multiset;
use vstd::prelude::*;

verus! {

/// The root of the version that was made at `timestamp`.
pub struct RootNode {
    pub timestamp: u64,
    pub root: Option<usize>,
}

impl TimestampSupplier for RootNode {
    type Timestamp = u64;

    open spec fn timestamp(&self) -> u64 {
        self.timestamp
    }

    fn get_timestamp(&self) -> (t: &u64) {
        &self.timestamp
    }
}

/// An operation that made a version.
pub enum Change<D> {
    Insert(D),
    Delete(D),
}

/// The data that are there after the operations of `history`, in their order.
pub open spec fn replay<D>(history: Seq<Change<D>>) -> Multiset<D>
    decreases history.len(),
{
    if history.len() == 0 {
        Multiset::empty()
    } else {
        match history.last() {
            Change::Insert(d) => replay(history.drop_last()).insert(d),
            Change::Delete(d) => replay(history.drop_last()).remove(d),
        }
    }
}

/// An operation that finds `before` versions and leaves `after` makes the
/// version with the number `ordinal`: that number is the number of versions
/// found, and one version is added.
pub open spec fn stamped(before: nat, after: nat, ordinal: nat) -> bool {
    ordinal == before && after == before + 1
}

/// Every deletion of `history` takes out a datum that is there.
pub open spec fn sound<D>(history: Seq<Change<D>>) -> bool {
    forall|i: int|
        0 <= i < history.len() ==> ((#[trigger] history[i]) matches Change::Delete(d) ==> replay(
            history.take(i),
        ).contains(d))
}

/// How often `history` inserts `x`.
pub open spec fn inserted<D>(history: Seq<Change<D>>, x: D) -> nat
    decreases history.len(),
{
    if history.len() == 0 {
        0
    } else {
        inserted(history.drop_last(), x) + (if history.last() == Change::Insert(x) {
            1nat
        } else {
            0nat
        })
    }
}

/// How often `history` deletes `x`.
pub open spec fn deleted<D>(history: Seq<Change<D>>, x: D) -> nat
    decreases history.len(),
{
    if history.len() == 0 {
        0
    } else {
        deleted(history.drop_last(), x) + (if history.last() == Change::Delete(x) {
            1nat
        } else {
            0nat
        })
    }
}

/// `found` is the greatest of `contents` that is at most `item`, or `None`
/// where there is none.
pub open spec fn is_predecessor<D: Ord>(contents: Multiset<D>, item: D, found: Option<D>) -> bool {
    match found {
        Some(d) => {
            &&& contents.contains(d)
            &&& le(d, item)
            &&& forall|e: D| contents.contains(e) && le(e, item) ==> le(e, d)
        },
        None => forall|e: D| contents.contains(e) ==> !le(e, item),
    }
}

/// `found` is the least of `contents` that is at least `item`, or `None`
/// where there is none.
pub open spec fn is_successor<D: Ord>(contents: Multiset<D>, item: D, found: Option<D>) -> bool {
    match found {
        Some(d) => {
            &&& contents.contains(d)
            &&& le(item, d)
            &&& forall|e: D| contents.contains(e) && le(item, e) ==> le(d, e)
        },
        None => forall|e: D| contents.contains(e) ==> !le(item, e),
    }
}

/// A partially persistent ordered multiset over the store `B`.
///
/// Each insertion and each deletion that finds its item makes a version,
/// named by a timestamp: 0 for the first, one more for each that follows.
/// Every version can be queried at any later time.
pub struct PersistentTree<D: Ord, B: NodeAccess> {
    store: B,
    data: Vec<D>,
    roots: Vec<RootNode>,
    last_time: u64,
    shapes: Ghost<Seq<Shape>>,
    changes: Ghost<Seq<Change<D>>>,
}

impl<D: Ord, B: NodeAccess> PersistentTree<D, B> {
    /// Version `i` is in the table under its own timestamp, the store stands
    /// for its tree at that time, the tree is balanced and ordered, and its
    /// data are those that the first `i + 1` operations leave.
    pub closed spec fn version_ok(&self, i: int) -> bool {
        &&& self.roots@[i].timestamp == i
        &&& represents(self.store, i as u64, self.roots@[i].root, self.shapes@[i])
        &&& self.shapes@[i].balanced()
        &&& ordered(self.data@, self.shapes@[i].keys())
        &&& values(self.data@, self.shapes@[i].keys()).to_multiset() == replay(
            self.changes@.take(i + 1),
        )
        &&& self.changes@[i] matches Change::Delete(d) ==> replay(self.changes@.take(i)).contains(d)
    }

    /// The invariant of the tree.
    pub closed spec fn wf(&self) -> bool {
        &&& total_order::<D>()
        &&& self.store.wf()
        &&& self.last_time == self.roots@.len()
        &&& self.roots@.len() == self.shapes@.len()
        &&& self.roots@.len() == self.changes@.len()
        &&& self.roots@.len() == 0 ==> self.store.horizon() == 0
        &&& self.roots@.len() > 0 ==> self.store.horizon() < self.roots@.len()
        &&& forall|i: int| 0 <= i < self.roots@.len() ==> self.version_ok(i)
    }

    /// Number of versions made so far, which is the next timestamp.
    pub closed spec fn version_count(&self) -> nat {
        self.roots@.len()
    }

    /// The operations that made the versions, in order.
    pub closed spec fn history(&self) -> Seq<Change<D>> {
        self.changes@
    }

    /// The tree of the version that is seen at time `t`: the version made at
    /// `t`, or the latest where `t` is later than all. A leaf before the
    /// first version.
    pub closed spec fn shape_at(&self, t: u64) -> Shape {
        if self.roots@.len() == 0 {
            Shape::Leaf
        } else if t < self.roots@.len() {
            self.shapes@[t as int]
        } else {
            self.shapes@.last()
        }
    }

    /// The store of the nodes.
    pub closed spec fn nodes(&self) -> B {
        self.store
    }

    /// The data that were ever inserted, in the order of insertion.
    pub closed spec fn data(&self) -> Seq<D> {
        self.data@
    }

    /// The root of the version seen at time `t`; none before the first
    /// version.
    pub closed spec fn root_of(&self, t: u64) -> Option<usize> {
        if self.roots@.len() == 0 {
            None
        } else if t < self.roots@.len() {
            self.roots@[t as int].root
        } else {
            self.roots@.last().root
        }
    }

    /// The data of the version seen at time `t`, in in-order.
    pub closed spec fn in_order_at(&self, t: u64) -> Seq<D> {
        values(self.data@, self.shape_at(t).keys())
    }

    /// The data of the version seen at time `t`.
    pub open spec fn contents_at(&self, t: u64) -> Multiset<D> {
        self.in_order_at(t).to_multiset()
    }

    /// The tree of the latest version; a leaf before the first version.
    pub closed spec fn latest_shape(&self) -> Shape {
        if self.roots@.len() == 0 {
            Shape::Leaf
        } else {
            self.shapes@.last()
        }
    }

    /// The data of the latest version.
    pub closed spec fn latest(&self) -> Multiset<D> {
        values(self.data@, self.latest_shape().keys()).to_multiset()
    }

    /// From the timestamp of the latest version on, the latest version is
    /// seen.
    pub proof fn lemma_latest(&self, t: u64)
        requires
            self.wf(),
            t + 1 >= self.version_count(),
        ensures
            self.shape_at(t) == self.latest_shape(),
            self.contents_at(t) == self.latest(),
    {
    }

    /// An empty tree, without versions.
    pub fn new() -> (tree: Self)
        requires
            total_order::<D>(),
        ensures
            tree.wf(),
            tree.version_count() == 0,
            tree.history() == Seq::<Change<D>>::empty(),
            tree.latest() == Multiset::<D>::empty(),
            forall|t: u64| #[trigger] tree.contents_at(t) == Multiset::<D>::empty(),
    {
        proof {
            lemma_empty_contents(Seq::<D>::empty(), Seq::<usize>::empty());
            assert(Shape::Leaf.keys() =~= Seq::<usize>::empty());
        }
        PersistentTree {
            store: B::new(),
            data: Vec::new(),
            roots: Vec::new(),
            last_time: 0,
            shapes: Ghost(Seq::empty()),
            changes: Ghost(Seq::empty()),
        }
    }

    /// Adds `item` to the latest version and so makes a new version, whose
    /// timestamp is given back. Among equal data the one inserted later comes
    /// first in in-order. Earlier versions stay as they are.
    pub fn insert(&mut self, item: D) -> (stamp: u64)
        requires
            old(self).wf(),
        ensures
            final(self).wf(),
            stamped(old(self).version_count(), final(self).version_count(), stamp as nat),
            final(self).history() == old(self).history().push(Change::Insert(item)),
            forall|u: u64| u < stamp ==> #[trigger] final(self).shape_at(u) == old(self).shape_at(u),
            forall|u: u64|
                u < stamp ==> #[trigger] final(self).in_order_at(u) == old(self).in_order_at(u),
            final(self).latest() == old(self).latest().insert(item),
            final(self).contents_at(stamp) == final(self).latest(),
            final(self).data() == old(self).data().push(item),
            final(self).latest_shape() == with_key(
                final(self).data(),
                old(self).latest_shape(),
                old(self).data().len() as usize,
            ),
            evolves(old(self).nodes(), final(self).nodes(), stamp, Set::full()),
            final(self).nodes().node_count() <= old(self).nodes().node_count() + 2 + 6 * old(self).latest_shape().height(),
    {
        let ghost n = self.roots@.len() as int;
        let t: u64 = self.last_time;
        let fresh: usize = self.data.len();
        let ghost was = old(self).latest_shape();
        let root = self.latest_root(t);
        proof {
            if n > 0 {
                assert(self.version_ok(n - 1));
            }
            assert(old(self).changes@.take(n as int) =~= old(self).changes@);
        }
        self.data.push(item);
        proof {
            lemma_ordered_extend(old(self).data@, self.data@, was.keys());
        }
        let grown = grow(&mut self.store, &self.data, t, root, fresh, Ghost(was));
        self.roots.push(RootNode { timestamp: t, root: Some(grown.root) });
        self.last_time = self.roots.len() as u64;
        self.shapes = Ghost(self.shapes@.push(grown.shape@));
        self.changes = Ghost(self.changes@.push(Change::Insert(item)));
        proof {
            broadcast use vstd::seq_lib::to_multiset_insert;

            lemma_values_insert(self.data@, was.keys(), grown.at@, fresh);
            assert(self.changes@.take(n + 1) =~= self.changes@);
            assert(self.changes@.drop_last() =~= old(self).changes@);
            assert forall|i: int| 0 <= i < self.roots@.len() implies self.version_ok(i) by {
                if i < n {
                    assert(old(self).version_ok(i));
                    lemma_represents_evolves(
                        old(self).store,
                        self.store,
                        t,
                        Set::full(),
                        i as u64,
                        old(self).roots@[i].root,
                        old(self).shapes@[i],
                    );
                    lemma_ordered_extend(old(self).data@, self.data@, old(self).shapes@[i].keys());
                    assert(self.changes@.take(i + 1) =~= old(self).changes@.take(i + 1));
                    assert(self.changes@.take(i) =~= old(self).changes@.take(i));
                    assert(self.changes@[i] == old(self).changes@[i]);
                    assert(self.roots@[i] == old(self).roots@[i]);
                    assert(self.shapes@[i] == old(self).shapes@[i]);
                } else {
                    assert(self.shapes@[i] == grown.shape@);
                    if n == 0 {
                        lemma_empty_contents(self.data@, was.keys());
                    }
                    assert(values(self.data@, was.keys()).to_multiset() == replay(
                        old(self).changes@,
                    ));
                }
            }
            assert forall|u: u64| u < t implies #[trigger] self.in_order_at(u) == old(self).in_order_at(u) by {
                assert(old(self).version_ok(u as int));
                lemma_ordered_extend(old(self).data@, self.data@, old(self).shapes@[u as int].keys());
            }
        }
        t
    }

    /// Takes one `item` out of the latest version, if it is there, and so
    /// makes a new version, whose timestamp is given back. Where `item` is
    /// not in the latest version, nothing changes and `None` is given back.
    pub fn delete(&mut self, item: D) -> (stamp: Option<u64>)
        requires
            old(self).wf(),
        ensures
            final(self).wf(),
            stamp is Some <==> old(self).latest().contains(item),
            stamp is None ==> *final(self) == *old(self),
            stamp matches Some(t) ==> {
                &&& stamped(old(self).version_count(), final(self).version_count(), t as nat)
                &&& final(self).history() == old(self).history().push(Change::Delete(item))
                &&& forall|u: u64| u < t ==> #[trigger] final(self).shape_at(u) == old(self).shape_at(u)
                &&& forall|u: u64|
                    u < t ==> #[trigger] final(self).in_order_at(u) == old(self).in_order_at(u)
                &&& final(self).latest() == old(self).latest().remove(item)
                &&& final(self).contents_at(t) == final(self).latest()
                &&& final(self).data() == old(self).data()
                &&& final(self).latest_shape() == without(
                    old(self).data(),
                    old(self).latest_shape(),
                    item,
                )
                &&& evolves(old(self).nodes(), final(self).nodes(), t, Set::full())
                &&& final(self).nodes().node_count() <= old(self).nodes().node_count() + 2 + 6
                    * old(self).latest_shape().height()
            },
    {
        let ghost n = self.roots@.len() as int;
        let t: u64 = self.last_time;
        let ghost was = old(self).latest_shape();
        let root = self.latest_root(t);
        proof {
            if n > 0 {
                assert(self.version_ok(n - 1));
            }
            assert(old(self).changes@.take(n as int) =~= old(self).changes@);
            lemma_contents(self.data@, was.keys());
        }
        let shrunk = match shrink(&mut self.store, &self.data, t, root, &item, Ghost(was)) {
            Some(shrunk) => shrunk,
            None => {
                return None;
            },
        };
        self.roots.push(RootNode { timestamp: t, root: shrunk.root });
        self.last_time = self.roots.len() as u64;
        self.shapes = Ghost(self.shapes@.push(shrunk.shape@));
        self.changes = Ghost(self.changes@.push(Change::Delete(item)));
        proof {
            broadcast use vstd::seq_lib::to_multiset_remove;

            lemma_values_remove(self.data@, was.keys(), shrunk.at@);
            assert(values(self.data@, was.keys())[shrunk.at@] == item);
            assert(self.changes@.take(n + 1) =~= self.changes@);
            assert(self.changes@.drop_last() =~= old(self).changes@);
            if n == 0 {
                lemma_empty_contents(self.data@, was.keys());
            }
            assert forall|i: int| 0 <= i < self.roots@.len() implies self.version_ok(i) by {
                if i < n {
                    assert(old(self).version_ok(i));
                    lemma_represents_evolves(
                        old(self).store,
                        self.store,
                        t,
                        Set::full(),
                        i as u64,
                        old(self).roots@[i].root,
                        old(self).shapes@[i],
                    );
                    assert(self.changes@.take(i + 1) =~= old(self).changes@.take(i + 1));
                    assert(self.changes@.take(i) =~= old(self).changes@.take(i));
                    assert(self.changes@[i] == old(self).changes@[i]);
                    assert(self.roots@[i] == old(self).roots@[i]);
                    assert(self.shapes@[i] == old(self).shapes@[i]);
                } else {
                    assert(self.shapes@[i] == shrunk.shape@);
                    assert(self.changes@.take(i) =~= old(self).changes@);
                    assert(values(self.data@, was.keys()).to_multiset().contains(item));
                }
            }
        }
        Some(t)
    }

    /// There is a version for each operation, and the data of the version
    /// seen at a time are what the operations up to then leave.
    pub proof fn lemma_contents_replay(&self, t: u64)
        requires
            self.wf(),
        ensures
            self.history().len() == self.version_count(),
            self.contents_at(t) == replay(
                self.history().take(
                    if t < self.version_count() {
                        t + 1
                    } else {
                        self.version_count() as int
                    },
                ),
            ),
    {
        let n = self.roots@.len() as int;
        if n == 0 {
            lemma_empty_contents(self.data@, self.shape_at(t).keys());
            assert(self.changes@.take(0) =~= Seq::<Change<D>>::empty());
        } else if t < n {
            assert(self.version_ok(t as int));
        } else {
            assert(self.version_ok(n - 1));
        }
    }

    /// Every deletion in the history took out a datum that was there.
    pub proof fn lemma_history_sound(&self)
        requires
            self.wf(),
        ensures
            total_order::<D>(),
            sound(self.history()),
    {
        assert forall|i: int| 0 <= i < self.changes@.len() implies ((
        #[trigger] self.changes@[i]) matches Change::Delete(d) ==> replay(
            self.changes@.take(i),
        ).contains(d)) by {
            assert(self.version_ok(i));
        }
    }

    /// What the store holds of a version: as of time `t` it stands, from the
    /// root of the version seen at `t`, for the tree of that version, which
    /// is balanced and ordered and whose data in in-order are `in_order_at`.
    pub proof fn lemma_version(&self, t: u64)
        requires
            self.wf(),
        ensures
            total_order::<D>(),
            self.nodes().wf(),
            represents(self.nodes(), t, self.root_of(t), self.shape_at(t)),
            self.shape_at(t).balanced(),
            ordered(self.data(), self.shape_at(t).keys()),
            self.in_order_at(t) == values(self.data(), self.shape_at(t).keys()),
    {
        let n = self.roots@.len() as int;
        if n > 0 {
            let i = if t < n {
                t as int
            } else {
                n - 1
            };
            assert(self.version_ok(i));
            if t >= n {
                lemma_represents_settled(
                    self.store,
                    i as u64,
                    t,
                    self.roots@[i].root,
                    self.shapes@[i],
                );
            }
        }
    }

    /// The root of the version seen at time `t`, looked up in the table of
    /// versions.
    pub fn root(&self, t: u64) -> (root: Option<usize>)
        requires
            self.wf(),
        ensures
            root == self.root_of(t),
            represents(self.nodes(), t, root, self.shape_at(t)),
            ordered(self.data(), self.shape_at(t).keys()),
            self.shape_at(t).balanced(),
    {
        proof {
            let n = self.roots@.len() as int;
            lemma_total_order_u64();
            self.lemma_version(t);
            if n > 0 {
                let i = if t < n {
                    t as int
                } else {
                    n - 1
                };
                assert(self.version_ok(i));
                assert forall|j: int| i < j < n implies (#[trigger] self.roots@[j]).timestamp
                    > t by {
                    assert(self.version_ok(j));
                }
                lemma_current_index_unique(self.roots@, t, i);
            }
            assert forall|i: int, j: int| 0 <= i <= j < n implies self.roots@[i].timestamp()
                <= self.roots@[j].timestamp() by {
                assert(self.version_ok(i));
                assert(self.version_ok(j));
            }
        }
        match get_time(&self.roots, &t) {
            Some(entry) => entry.root,
            None => None,
        }
    }

    /// The root of the latest version, which an operation at the next
    /// timestamp starts from.
    fn latest_root(&self, t: u64) -> (root: Option<usize>)
        requires
            self.wf(),
            t == self.version_count(),
        ensures
            represents(self.nodes(), t, root, self.latest_shape()),
            ordered(self.data(), self.latest_shape().keys()),
            self.latest_shape().balanced(),
    {
        proof {
            self.lemma_version(t);
        }
        match get_latest(&self.roots) {
            Some(entry) => entry.root,
            None => None,
        }
    }

    /// The store of the nodes.
    pub fn store(&self) -> (store: &B)
        ensures
            *store == self.nodes(),
    {
        &self.store
    }

    /// The datum with index `key`.
    pub fn datum(&self, key: usize) -> (datum: &D)
        requires
            key < self.data().len(),
        ensures
            *datum == self.data()[key as int],
    {
        &self.data[key]
    }

    /// Appends to `out` the keys of the tree under `node` in in-order.
    fn collect_keys(&self, node: Option<usize>, t: u64, out: &mut Vec<usize>, Ghost(shape): Ghost<Shape>)
        requires
            self.nodes().wf(),
            represents(self.nodes(), t, node, shape),
        ensures
            final(out)@ =~= old(out)@ + shape.keys(),
        decreases shape,
    {
        match node {
            None => {},
            Some(n) => {
                let ghost left = *shape->left;
                let ghost right = *shape->right;
                proof {
                    assert(shape == Shape::node(left, shape->key, right));
                    lemma_represents_node(self.store, t, node, left, shape->key, right);
                    lemma_node(left, shape->key, right);
                }
                self.collect_keys(self.store.get_left(n, t), t, out, Ghost(left));
                out.push(self.store.get_datum(n));
                self.collect_keys(self.store.get_right(n, t), t, out, Ghost(right));
            },
        }
    }

    /// The data of the version seen at time `t`, in in-order.
    pub fn in_order(&self, t: u64) -> (data: Vec<&D>)
        requires
            self.wf(),
        ensures
            data@.len() == self.in_order_at(t).len(),
            forall|i: int| 0 <= i < data@.len() ==> *(#[trigger] data@[i]) == self.in_order_at(t)[i],
    {
        let root = self.root(t);
        let mut keys: Vec<usize> = Vec::new();
        self.collect_keys(root, t, &mut keys, Ghost(self.shape_at(t)));
        let mut data: Vec<&D> = Vec::new();
        let mut i: usize = 0;
        while i < keys.len()
            invariant
                i <= keys@.len(),
                keys@ =~= self.shape_at(t).keys(),
                ordered(self.data@, keys@),
                data@.len() == i,
                forall|j: int| 0 <= j < i ==> *(#[trigger] data@[j]) == self.in_order_at(t)[j],
            decreases keys@.len() - i,
        {
            data.push(&self.data[keys[i]]);
            i = i + 1;
        }
        data
    }

    /// The greatest datum of the version seen at time `t` that is at most
    /// `item`, or `None` where there is none.
    pub fn predecessor(&self, item: &D, t: u64) -> (found: Option<&D>)
        requires
            self.wf(),
        ensures
            is_predecessor(
                self.contents_at(t),
                *item,
                match found {
                    Some(d) => Some(*d),
                    None => None,
                },
            ),
    {
        let mut cur = self.root(t);
        let mut best: Option<usize> = None;
        let ghost keys = self.shape_at(t).keys();
        let ghost mut sub = self.shape_at(t);
        let ghost mut lo: int = 0;
        let ghost mut hi: int = keys.len() as int;
        proof {
            lemma_ordered_values(self.data@, keys);
            assert(keys.subrange(0, keys.len() as int) =~= keys);
        }
        while cur.is_some()
            invariant
                self.wf(),
                total_order::<D>(),
                keys == self.shape_at(t).keys(),
                ordered(self.data@, keys),
                represents(self.store, t, cur, sub),
                0 <= lo <= hi <= keys.len(),
                sub.keys() =~= keys.subrange(lo, hi),
                forall|j: int| 0 <= j < lo ==> le(self.data@[(#[trigger] keys[j]) as int], *item),
                forall|j: int|
                    hi <= j < keys.len() ==> lt(*item, self.data@[(#[trigger] keys[j]) as int]),
                best == (if lo > 0 {
                    Some(keys[lo - 1])
                } else {
                    None
                }),
            decreases sub.height(),
        {
            let node = cur.unwrap();
            let ghost left = *sub->left;
            let ghost right = *sub->right;
            let ghost p = lo + left.keys().len();
            proof {
                lemma_represents_root(self.store, t, cur, sub);
                assert(sub == Shape::node(left, sub->key, right));
                lemma_represents_node(self.store, t, cur, left, sub->key, right);
                lemma_window_split(keys, lo, hi, left, sub->key, right);
            }
            let key = self.store.get_datum(node);
            if is_lt(item, &self.data[key]) {
                proof {
                    assert forall|j: int| p <= j < keys.len() implies lt(
                        *item,
                        self.data@[(#[trigger] keys[j]) as int],
                    ) by {
                        lemma_key_after(self.data@, keys, p, j, *item);
                    }
                    hi = p;
                    sub = left;
                }
                cur = self.store.get_left(node, t);
            } else {
                proof {
                    lemma_trichotomy(*item, self.data@[key as int]);
                    assert forall|j: int| 0 <= j < p + 1 implies le(
                        self.data@[(#[trigger] keys[j]) as int],
                        *item,
                    ) by {
                        lemma_key_before(self.data@, keys, j, p, *item);
                    }
                    lo = p + 1;
                    sub = right;
                }
                best = Some(key);
                cur = self.store.get_right(node, t);
            }
        }
        proof {
            lemma_contents(self.data@, keys);
        }
        match best {
            Some(key) => {
                proof {
                    let d = self.data@[key as int];
                    assert(values(self.data@, keys)[lo - 1] == d);
                    assert forall|e: D| self.contents_at(t).contains(e) && le(e, *item) implies le(
                        e,
                        d,
                    ) by {
                        let j = choose|j: int|
                            0 <= j < keys.len() && values(self.data@, keys)[j] == e;
                        lemma_trichotomy(e, *item);
                        assert(values(self.data@, keys)[j] == self.data@[keys[j] as int]);
                        assert(j < lo);
                        lemma_ordered_at(self.data@, keys, j, lo - 1);
                    }
                }
                Some(&self.data[key])
            },
            None => {
                proof {
                    assert forall|e: D| self.contents_at(t).contains(e) implies !le(e, *item) by {
                        let j = choose|j: int|
                            0 <= j < keys.len() && values(self.data@, keys)[j] == e;
                        assert(values(self.data@, keys)[j] == self.data@[keys[j] as int]);
                        lemma_trichotomy(e, *item);
                    }
                }
                None
            },
        }
    }

    /// The least datum of the version seen at time `t` that is at least
    /// `item`, or `None` where there is none.
    pub fn successor(&self, item: &D, t: u64) -> (found: Option<&D>)
        requires
            self.wf(),
        ensures
            is_successor(
                self.contents_at(t),
                *item,
                match found {
                    Some(d) => Some(*d),
                    None => None,
                },
            ),
    {
        let mut cur = self.root(t);
        let mut best: Option<usize> = None;
        let ghost keys = self.shape_at(t).keys();
        let ghost mut sub = self.shape_at(t);
        let ghost mut lo: int = 0;
        let ghost mut hi: int = keys.len() as int;
        proof {
            assert(keys.subrange(0, keys.len() as int) =~= keys);
        }
        while cur.is_some()
            invariant
                self.wf(),
                total_order::<D>(),
                keys == self.shape_at(t).keys(),
                ordered(self.data@, keys),
                represents(self.store, t, cur, sub),
                0 <= lo <= hi <= keys.len(),
                sub.keys() =~= keys.subrange(lo, hi),
                forall|j: int| 0 <= j < lo ==> lt(self.data@[(#[trigger] keys[j]) as int], *item),
                forall|j: int|
                    hi <= j < keys.len() ==> le(*item, self.data@[(#[trigger] keys[j]) as int]),
                best == (if hi < keys.len() {
                    Some(keys[hi])
                } else {
                    None
                }),
            decreases sub.height(),
        {
            let node = cur.unwrap();
            let ghost left = *sub->left;
            let ghost right = *sub->right;
            let ghost p = lo + left.keys().len();
            proof {
                lemma_represents_root(self.store, t, cur, sub);
                assert(sub == Shape::node(left, sub->key, right));
                lemma_represents_node(self.store, t, cur, left, sub->key, right);
                lemma_window_split(keys, lo, hi, left, sub->key, right);
            }
            let key = self.store.get_datum(node);
            if is_lt(&self.data[key], item) {
                proof {
                    assert forall|j: int| 0 <= j < p + 1 implies lt(
                        self.data@[(#[trigger] keys[j]) as int],
                        *item,
                    ) by {
                        lemma_ordered_at(self.data@, keys, j, p);
                        if lt(self.data@[keys[j] as int], self.data@[keys[p] as int]) {
                            lemma_lt_transitive(
                                self.data@[keys[j] as int],
                                self.data@[keys[p] as int],
                                *item,
                            );
                        }
                    }
                    lo = p + 1;
                    sub = right;
                }
                cur = self.store.get_right(node, t);
            } else {
                proof {
                    lemma_trichotomy(self.data@[key as int], *item);
                    assert forall|j: int| p <= j < keys.len() implies le(
                        *item,
                        self.data@[(#[trigger] keys[j]) as int],
                    ) by {
                        lemma_ordered_at(self.data@, keys, p, j);
                        lemma_le_transitive(
                            *item,
                            self.data@[keys[p] as int],
                            self.data@[keys[j] as int],
                        );
                    }
                    hi = p;
                    sub = left;
                }
                best = Some(key);
                cur = self.store.get_left(node, t);
            }
        }
        proof {
            lemma_contents(self.data@, keys);
        }
        match best {
            Some(key) => {
                proof {
                    let d = self.data@[key as int];
                    assert(values(self.data@, keys)[hi] == d);
                    assert forall|e: D| self.contents_at(t).contains(e) && le(*item, e) implies le(
                        d,
                        e,
                    ) by {
                        let j = choose|j: int|
                            0 <= j < keys.len() && values(self.data@, keys)[j] == e;
                        lemma_trichotomy(e, *item);
                        assert(values(self.data@, keys)[j] == self.data@[keys[j] as int]);
                        assert(j >= hi);
                        lemma_ordered_at(self.data@, keys, hi, j);
                    }
                }
                Some(&self.data[key])
            },
            None => {
                proof {
                    assert forall|e: D| self.contents_at(t).contains(e) implies !le(*item, e) by {
                        let j = choose|j: int|
                            0 <= j < keys.len() && values(self.data@, keys)[j] == e;
                        assert(values(self.data@, keys)[j] == self.data@[keys[j] as int]);
                        lemma_trichotomy(e, *item);
                    }
                }
                None
            },
        }
    }

    /// Whether `item` is among the data of the version seen at time `t`.
    pub fn contains(&self, item: &D, t: u64) -> (present: bool)
        requires
            self.wf(),
        ensures
            present == self.contents_at(t).contains(*item),
    {
        match self.predecessor(item, t) {
            Some(found) => {
                proof {
                    lemma_trichotomy(*item, *found);
                }
                is_same(item, found)
            },
            None => false,
        }
    }
}

} // verus!
