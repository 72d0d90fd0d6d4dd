//! What holds of every persistent tree of this library, whatever way it
//! keeps its past.

use crate::keys::lemma_ordered_values;
use crate::node_access::height_of;
use crate::node_access::lemma_represents_node;
use crate::node_access::lemma_represents_root;
use crate::node_access::NodeAccess;
use crate::node_access::represents;
use crate::order::le;
use crate::order::lemma_trichotomy;
use crate::order::total_order;
use crate::persistent_avl_tree::PersistentAvlTree;
use crate::shape::larger;
use crate::shape::lemma_node;
use crate::shape::Shape;
use crate::tree::Change;
use crate::tree::deleted;
use crate::tree::inserted;
use crate::tree::is_predecessor;
use crate::tree::is_successor;
use crate::tree::PersistentTree;
use crate::tree::replay;
use crate::tree::sound;
use crate::tree::stamped;
use vstd::prelude::*;

verus! {

/// The node that is reached from `start` by `turns`, each to the left child
/// (`true`) or to the right child (`false`), as of time `t`; `None` where a
/// turn leads to no node.
pub open spec fn walk<B: NodeAccess>(store: B, t: u64, start: Option<usize>, turns: Seq<bool>) -> Option<
    usize,
>
    decreases turns.len(),
{
    if turns.len() == 0 {
        start
    } else {
        match start {
            None => None,
            Some(node) => walk(
                store,
                t,
                if turns[0] {
                    store.left_at(node, t)
                } else {
                    store.right_at(node, t)
                },
                turns.drop_first(),
            ),
        }
    }
}

/// Height of the right subtree of `node` minus height of its left subtree,
/// by the heights that the store has recorded as of time `t`.
pub open spec fn balance_factor_at<B: NodeAccess>(store: B, t: u64, node: usize) -> int {
    height_of(store, store.right_at(node, t), t) - height_of(store, store.left_at(node, t), t)
}

/// Height of `node` as it follows from the heights of its children that the
/// store has recorded as of time `t`.
pub open spec fn height_from_children<B: NodeAccess>(store: B, t: u64, node: usize) -> nat {
    1 + larger(
        height_of(store, store.left_at(node, t), t) as nat,
        height_of(store, store.right_at(node, t), t) as nat,
    )
}

/// In a store that stands for a balanced tree, the recorded heights of the
/// two subtrees of every node that can be reached from the root differ by
/// at most one, and the recorded height of the node is one more than the
/// greater of the two.
pub proof fn lemma_walk_balanced<B: NodeAccess>(
    store: B,
    t: u64,
    root: Option<usize>,
    shape: Shape,
    turns: Seq<bool>,
)
    requires
        represents(store, t, root, shape),
        shape.balanced(),
    ensures
        walk(store, t, root, turns) matches Some(node) ==> -1 <= balance_factor_at(store, t, node)
            <= 1 && store.height_at(node, t) == height_from_children(store, t, node),
    decreases turns.len(),
{
    if root is Some {
        let node = root.unwrap();
        let left = *shape->left;
        let right = *shape->right;
        assert(shape == Shape::node(left, shape->key, right));
        lemma_represents_node(store, t, root, left, shape->key, right);
        lemma_node(left, shape->key, right);
        lemma_represents_root(store, t, store.left_at(node, t), left);
        lemma_represents_root(store, t, store.right_at(node, t), right);
        if turns.len() > 0 {
            if turns[0] {
                lemma_walk_balanced(store, t, store.left_at(node, t), left, turns.drop_first());
            } else {
                lemma_walk_balanced(store, t, store.right_at(node, t), right, turns.drop_first());
            }
        }
    }
}

/// Balance: at every time, every node that can be reached from the root of
/// the version seen at that time has subtrees whose heights, as recorded for
/// that time, differ by at most one, and its own recorded height is one more
/// than the greater of the two.
pub proof fn lemma_balance_invariant<D: Ord, B: NodeAccess>(
    tree: PersistentTree<D, B>,
    t: u64,
    turns: Seq<bool>,
)
    requires
        tree.wf(),
    ensures
        walk(tree.nodes(), t, tree.root_of(t), turns) matches Some(node) ==> -1
            <= balance_factor_at(tree.nodes(), t, node) <= 1 && tree.nodes().height_at(node, t)
            == height_from_children(tree.nodes(), t, node),
{
    tree.lemma_version(t);
    lemma_walk_balanced(tree.nodes(), t, tree.root_of(t), tree.shape_at(t), turns);
}

/// Order: the in-order traversal of the version seen at any time never
/// decreases.
pub proof fn lemma_order_invariant<D: Ord, B: NodeAccess>(
    tree: PersistentTree<D, B>,
    t: u64,
    i: int,
    j: int,
)
    requires
        tree.wf(),
        0 <= i <= j < tree.in_order_at(t).len(),
    ensures
        le(tree.in_order_at(t)[i], tree.in_order_at(t)[j]),
{
    tree.lemma_version(t);
    lemma_ordered_values(tree.data(), tree.shape_at(t).keys());
}

/// A history of which a part is taken from the start is sound if the whole
/// is.
pub proof fn lemma_sound_prefix<D>(history: Seq<Change<D>>, n: int)
    requires
        sound(history),
        0 <= n <= history.len(),
    ensures
        sound(history.take(n)),
{
    assert forall|i: int| 0 <= i < n implies ((
    #[trigger] history.take(n)[i]) matches Change::Delete(d) ==> replay(
        history.take(n).take(i),
    ).contains(d)) by {
        assert(history.take(n).take(i) =~= history.take(i));
        assert(history.take(n)[i] == history[i]);
    }
}

/// After a sound history a datum is there as often as it was inserted, less
/// the times it was deleted.
pub proof fn lemma_replay_count<D>(history: Seq<Change<D>>, x: D)
    requires
        sound(history),
    ensures
        replay(history).count(x) + deleted(history, x) == inserted(history, x),
    decreases history.len(),
{
    broadcast use vstd::multiset::group_multiset_axioms;

    if history.len() > 0 {
        let before = history.drop_last();
        assert(before =~= history.take(history.len() - 1));
        lemma_sound_prefix(history, history.len() - 1);
        lemma_replay_count(before, x);
        match history.last() {
            Change::Insert(d) => {},
            Change::Delete(d) => {
                assert(history[history.len() - 1] == history.last());
                assert(replay(before).contains(d));
            },
        }
    }
}

/// Time: a datum is in the version made at time `t` exactly if, up to and
/// including `t`, it was inserted more often than it was deleted.
pub proof fn lemma_temporal_correctness<T: PersistentAvlTree>(tree: &T, x: T::Data, t: T::Timestamp)
    requires
        tree.wf(),
        T::ordinal(t) < tree.version_count(),
    ensures
        tree.contents_at(t).count(x) + deleted(tree.history().take((T::ordinal(t) + 1) as int), x)
            == inserted(tree.history().take((T::ordinal(t) + 1) as int), x),
        tree.contents_at(t).contains(x) <==> inserted(tree.history().take((T::ordinal(t) + 1) as int), x)
            > deleted(tree.history().take((T::ordinal(t) + 1) as int), x),
{
    tree.lemma_contents_replay(t);
    tree.lemma_history_sound();
    lemma_sound_prefix(tree.history(), (T::ordinal(t) + 1) as int);
    lemma_replay_count(tree.history().take((T::ordinal(t) + 1) as int), x);
}

/// Between two places of a history, a datum is inserted no fewer times up
/// to the later one, and deleted as often if no deletion of it lies between.
pub proof fn lemma_counts_between<D>(history: Seq<Change<D>>, x: D, from: int, to: int)
    requires
        0 <= from <= to <= history.len(),
    ensures
        inserted(history.take(from), x) <= inserted(history.take(to), x),
        (forall|j: int| from <= j < to ==> #[trigger] history[j] != Change::Delete(x)) ==> deleted(
            history.take(from),
            x,
        ) == deleted(history.take(to), x),
    decreases to - from,
{
    if from < to {
        lemma_counts_between(history, x, from, to - 1);
        assert(history.take(to).drop_last() =~= history.take(to - 1));
        assert(history.take(to).last() == history[to - 1]);
    }
}

/// Time, for one insertion: a datum that was inserted at time `at` is in
/// every version from then on up to the first in which it is deleted again.
pub proof fn lemma_kept_until_deleted<T: PersistentAvlTree>(
    tree: &T,
    x: T::Data,
    at: T::Timestamp,
    t: T::Timestamp,
)
    requires
        tree.wf(),
        T::ordinal(at) <= T::ordinal(t) < tree.version_count(),
        tree.history()[T::ordinal(at) as int] == Change::Insert(x),
        forall|j: int|
            T::ordinal(at) < j <= T::ordinal(t) ==> #[trigger] tree.history()[j]
                != Change::Delete(x),
    ensures
        tree.contents_at(t).contains(x),
{
    let h = tree.history();
    let i = T::ordinal(at) as int;
    let n = T::ordinal(t) as int;
    lemma_temporal_correctness(tree, x, t);
    tree.lemma_contents_replay(t);
    tree.lemma_history_sound();
    lemma_sound_prefix(h, i);
    lemma_replay_count(h.take(i), x);
    lemma_counts_between(h, x, i + 1, n + 1);
    lemma_counts_between(h, x, i, i + 1);
    assert(h.take(i + 1).drop_last() =~= h.take(i));
    assert(h.take(i + 1).last() == h[i]);
}

/// A datum that a history inserts at all is inserted at some place of it.
pub proof fn lemma_inserted_somewhere<D>(history: Seq<Change<D>>, x: D) -> (i: int)
    requires
        inserted(history, x) > 0,
    ensures
        0 <= i < history.len(),
        history[i] == Change::Insert(x),
    decreases history.len(),
{
    if history.last() == Change::Insert(x) {
        history.len() - 1
    } else {
        let i = lemma_inserted_somewhere(history.drop_last(), x);
        assert(history.drop_last()[i] == history[i]);
        i
    }
}

/// Time, the other way round: a datum that is in the version made at time
/// `t` was inserted at that time or before.
pub proof fn lemma_present_was_inserted<T: PersistentAvlTree>(tree: &T, x: T::Data, t: T::Timestamp)
    requires
        tree.wf(),
        T::ordinal(t) < tree.version_count(),
        tree.contents_at(t).contains(x),
    ensures
        exists|i: int|
            0 <= i <= T::ordinal(t) && #[trigger] tree.history()[i] == Change::Insert(x),
{
    lemma_temporal_correctness(tree, x, t);
    tree.lemma_contents_replay(t);
    let part = tree.history().take((T::ordinal(t) + 1) as int);
    let i = lemma_inserted_somewhere(part, x);
    assert(part[i] == tree.history()[i]);
}

/// Timestamps: of two operations that each make a version, the later one
/// gets the timestamp with the greater number, whatever happens to the tree
/// in between, since versions are never taken away.
pub proof fn lemma_timestamps_increase<T: PersistentAvlTree>(
    start: &T,
    then: &T,
    later: &T,
    end: &T,
    first: T::Timestamp,
    second: T::Timestamp,
)
    requires
        stamped(start.version_count(), then.version_count(), T::ordinal(first)),
        then.version_count() <= later.version_count(),
        stamped(later.version_count(), end.version_count(), T::ordinal(second)),
    ensures
        T::ordinal(first) < T::ordinal(second),
{
}

/// Two trees with the same history hold the same data at every time, that
/// is at timestamps with the same number.
pub proof fn lemma_same_contents<A: PersistentAvlTree, B: PersistentAvlTree<Data = A::Data>>(
    a: &A,
    b: &B,
    at_a: A::Timestamp,
    at_b: B::Timestamp,
)
    requires
        a.wf(),
        b.wf(),
        a.history() == b.history(),
        A::ordinal(at_a) == B::ordinal(at_b),
    ensures
        a.version_count() == b.version_count(),
        a.contents_at(at_a) == b.contents_at(at_b),
{
    a.lemma_contents_replay(at_a);
    b.lemma_contents_replay(at_b);
}

/// What is greatest among the data that are at most `item` is one value.
pub proof fn lemma_predecessor_unique<D: Ord>(
    contents: vstd::multiset::Multiset<D>,
    item: D,
    one: Option<D>,
    other: Option<D>,
)
    requires
        total_order::<D>(),
        is_predecessor(contents, item, one),
        is_predecessor(contents, item, other),
    ensures
        one == other,
{
    if one is Some && other is Some {
        lemma_trichotomy(one.unwrap(), other.unwrap());
    }
}

/// What is least among the data that are at least `item` is one value.
pub proof fn lemma_successor_unique<D: Ord>(
    contents: vstd::multiset::Multiset<D>,
    item: D,
    one: Option<D>,
    other: Option<D>,
)
    requires
        total_order::<D>(),
        is_successor(contents, item, one),
        is_successor(contents, item, other),
    ensures
        one == other,
{
    if one is Some && other is Some {
        lemma_trichotomy(one.unwrap(), other.unwrap());
    }
}

/// Equivalence: two trees with the same history, whatever their stores,
/// answer every query alike at every time. `in_a` and `in_b` stand for what
/// `contains` gives on the two trees, `below_a` and `below_b` for what
/// `predecessor` gives, `above_a` and `above_b` for what `successor` gives.
pub proof fn lemma_backend_equivalence<A: PersistentAvlTree, B: PersistentAvlTree<Data = A::Data>>(
    a: &A,
    b: &B,
    item: A::Data,
    at_a: A::Timestamp,
    at_b: B::Timestamp,
    in_a: bool,
    in_b: bool,
    below_a: Option<A::Data>,
    below_b: Option<A::Data>,
    above_a: Option<A::Data>,
    above_b: Option<A::Data>,
)
    requires
        a.wf(),
        b.wf(),
        a.history() == b.history(),
        A::ordinal(at_a) == B::ordinal(at_b),
        in_a == a.contents_at(at_a).contains(item),
        in_b == b.contents_at(at_b).contains(item),
        is_predecessor(a.contents_at(at_a), item, below_a),
        is_predecessor(b.contents_at(at_b), item, below_b),
        is_successor(a.contents_at(at_a), item, above_a),
        is_successor(b.contents_at(at_b), item, above_b),
    ensures
        in_a == in_b,
        below_a == below_b,
        above_a == above_b,
{
    lemma_same_contents(a, b, at_a, at_b);
    a.lemma_history_sound();
    lemma_predecessor_unique(a.contents_at(at_a), item, below_a, below_b);
    lemma_successor_unique(a.contents_at(at_a), item, above_a, above_b);
}

/// The least number of nodes of a balanced tree of height `h`.
pub open spec fn least_size(h: nat) -> nat
    decreases h,
{
    if h == 0 {
        0
    } else if h == 1 {
        1
    } else {
        1 + least_size((h - 1) as nat) + least_size((h - 2) as nat)
    }
}

/// A higher balanced tree needs no fewer nodes.
pub proof fn lemma_least_size_grows(h: nat)
    ensures
        least_size(h) <= least_size(h + 1),
    decreases h,
{
    if h >= 2 {
        lemma_least_size_grows((h - 1) as nat);
        lemma_least_size_grows((h - 2) as nat);
    }
}

/// A balanced tree has at least the least number of nodes of its height, so
/// its height grows only with the logarithm of its size: from height 2 on
/// the least size more than doubles with every two levels.
pub proof fn lemma_balanced_size(s: Shape)
    requires
        s.balanced(),
    ensures
        s.keys().len() >= least_size(s.height()),
        s.height() >= 2 ==> least_size(s.height()) > 2 * least_size((s.height() - 2) as nat),
    decreases s,
{
    match s {
        Shape::Leaf => {},
        Shape::Node { left, key, right } => {
            lemma_balanced_size(*left);
            lemma_balanced_size(*right);
            let h = s.height();
            if left.height() < right.height() {
                lemma_least_size_grows(left.height());
            } else if right.height() < left.height() {
                lemma_least_size_grows(right.height());
            } else if h >= 2 {
                lemma_least_size_grows((h - 2) as nat);
            }
            if h >= 2 {
                lemma_least_size_grows((h - 2) as nat);
            }
        },
    }
}

/// Height: the tree of every version has at least the least number of data
/// of a balanced tree of its height, so that a descent, and with it every
/// operation and query, visits a number of nodes that grows only with the
/// logarithm of the number of data.
pub proof fn lemma_height_bound<D: Ord, B: NodeAccess>(tree: PersistentTree<D, B>, t: u64)
    requires
        tree.wf(),
    ensures
        tree.in_order_at(t).len() >= least_size(tree.shape_at(t).height()),
{
    tree.lemma_version(t);
    lemma_balanced_size(tree.shape_at(t));
}

} // verus!
