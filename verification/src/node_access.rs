//! What the balancing code needs from a store of tree nodes, whatever way the
//! store keeps the past, and how a store stands for a mathematical tree.

use crate::shape::lemma_node_keys;
use crate::shape::Shape;
use vstd::prelude::*;

verus! {

/// A store of tree nodes that remembers what each node was at every past time.
///
/// A node is named by a handle, a number below `node_count`. A change to a
/// node is recorded at a time and gives back the handle under which the node
/// is found from then on: the same handle where the store changes the node
/// in place, a new one where it copies the node.
pub trait NodeAccess: Sized {
    /// The store's own invariant.
    spec fn wf(&self) -> bool;

    /// Number of nodes in the store.
    spec fn node_count(&self) -> nat;

    /// No change was recorded after this time.
    spec fn horizon(&self) -> u64;

    /// Index of the datum that `node` carries.
    spec fn datum_of(&self, node: usize) -> usize;

    /// Left child of `node` as of time `t`.
    spec fn left_at(&self, node: usize, t: u64) -> Option<usize>;

    /// Right child of `node` as of time `t`.
    spec fn right_at(&self, node: usize, t: u64) -> Option<usize>;

    /// Height of `node` as of time `t`.
    spec fn height_at(&self, node: usize, t: u64) -> u64;

    /// From the horizon on, a node looks the same at every time.
    proof fn lemma_settled(&self, node: usize, t: u64)
        requires
            self.wf(),
            node < self.node_count(),
            t >= self.horizon(),
        ensures
            self.left_at(node, t) == self.left_at(node, self.horizon()),
            self.right_at(node, t) == self.right_at(node, self.horizon()),
            self.height_at(node, t) == self.height_at(node, self.horizon()),
    ;

    /// An empty store.
    fn new() -> (store: Self)
        ensures
            store.wf(),
            store.node_count() == 0,
            store.horizon() == 0,
    ;

    /// Number of nodes in the store.
    fn len(&self) -> (count: usize)
        requires
            self.wf(),
        ensures
            count == self.node_count(),
    ;

    fn get_left(&self, node: usize, t: u64) -> (child: Option<usize>)
        requires
            self.wf(),
            node < self.node_count(),
        ensures
            child == self.left_at(node, t),
    ;

    fn get_right(&self, node: usize, t: u64) -> (child: Option<usize>)
        requires
            self.wf(),
            node < self.node_count(),
        ensures
            child == self.right_at(node, t),
    ;

    fn get_height(&self, node: usize, t: u64) -> (height: u64)
        requires
            self.wf(),
            node < self.node_count(),
        ensures
            height == self.height_at(node, t),
    ;

    fn get_datum(&self, node: usize) -> (datum: usize)
        requires
            self.wf(),
            node < self.node_count(),
        ensures
            datum == self.datum_of(node),
    ;

    /// Adds a node without children, of height 1, that carries `datum`.
    fn create(&mut self, datum: usize, t: u64) -> (node: usize)
        requires
            old(self).wf(),
            t >= old(self).horizon(),
        ensures
            final(self).wf(),
            final(self).horizon() == t,
            node == old(self).node_count(),
            final(self).node_count() == old(self).node_count() + 1,
            final(self).datum_of(node) == datum,
            final(self).left_at(node, t) is None,
            final(self).right_at(node, t) is None,
            final(self).height_at(node, t) == 1,
            forall|m: usize|
                m < old(self).node_count() ==> #[trigger] final(self).datum_of(m) == old(self).datum_of(m),
            forall|m: usize, u: u64|
                m < old(self).node_count() ==> #[trigger] final(self).left_at(m, u) == old(self).left_at(m, u),
            forall|m: usize, u: u64|
                m < old(self).node_count() ==> #[trigger] final(self).right_at(m, u) == old(self).right_at(m, u),
            forall|m: usize, u: u64|
                m < old(self).node_count() ==> #[trigger] final(self).height_at(m, u) == old(self).height_at(m, u),
    ;

    /// Records at time `t` that `node` has the children `left` and `right`
    /// and the height `height`. The node keeps its datum. Nothing that could
    /// be seen before `t` changes, and nothing changes for a node that carries
    /// another datum.
    fn modify(
        &mut self,
        node: usize,
        t: u64,
        left: Option<usize>,
        right: Option<usize>,
        height: u64,
    ) -> (handle: usize)
        requires
            old(self).wf(),
            node < old(self).node_count(),
            t >= old(self).horizon(),
        ensures
            final(self).wf(),
            final(self).horizon() == t,
            handle < final(self).node_count(),
            final(self).datum_of(handle) == old(self).datum_of(node),
            final(self).left_at(handle, t) == left,
            final(self).right_at(handle, t) == right,
            final(self).height_at(handle, t) == height,
            old(self).node_count() <= final(self).node_count() <= old(self).node_count() + 1,
            forall|m: usize|
                m < old(self).node_count() ==> #[trigger] final(self).datum_of(m) == old(self).datum_of(m),
            forall|m: usize, u: u64|
                m < old(self).node_count() && (u < t || old(self).datum_of(m) != old(self).datum_of(node)) ==> #[trigger] final(self).left_at(m, u) == old(self).left_at(
                    m,
                    u,
                ),
            forall|m: usize, u: u64|
                m < old(self).node_count() && (u < t || old(self).datum_of(m) != old(self).datum_of(node)) ==> #[trigger] final(self).right_at(m, u) == old(self).right_at(
                    m,
                    u,
                ),
            forall|m: usize, u: u64|
                m < old(self).node_count() && (u < t || old(self).datum_of(m) != old(self).datum_of(node)) ==> #[trigger] final(self).height_at(m, u) == old(self).height_at(m, u),
    ;
}

/// `post` comes from `pre` by changes recorded at time `t` to nodes whose
/// datum is in `touched`, and by new nodes: every node of `pre` keeps its
/// datum, looks as it did at every time before `t`, and, unless its datum is
/// in `touched`, at every other time too.
pub open spec fn evolves<B: NodeAccess>(pre: B, post: B, t: u64, touched: Set<usize>) -> bool {
    &&& pre.node_count() <= post.node_count()
    &&& forall|m: usize| m < pre.node_count() ==> #[trigger] post.datum_of(m) == pre.datum_of(m)
    &&& forall|m: usize, u: u64|
        m < pre.node_count() && (u < t || !touched.contains(pre.datum_of(m)))
            ==> #[trigger] post.left_at(m, u) == pre.left_at(m, u)
    &&& forall|m: usize, u: u64|
        m < pre.node_count() && (u < t || !touched.contains(pre.datum_of(m)))
            ==> #[trigger] post.right_at(m, u) == pre.right_at(m, u)
    &&& forall|m: usize, u: u64|
        m < pre.node_count() && (u < t || !touched.contains(pre.datum_of(m)))
            ==> #[trigger] post.height_at(m, u) == pre.height_at(m, u)
}

/// As of time `t`, what is reachable from `root` in `store` is the tree
/// `shape`: same form, same data, and every node's height as the form gives it.
pub open spec fn represents<B: NodeAccess>(store: B, t: u64, root: Option<usize>, shape: Shape) -> bool
    decreases shape,
{
    match shape {
        Shape::Leaf => root is None,
        Shape::Node { left, key, right } => {
            &&& root is Some
            &&& root.unwrap() < store.node_count()
            &&& store.datum_of(root.unwrap()) == key
            &&& store.height_at(root.unwrap(), t) == shape.height()
            &&& represents(store, t, store.left_at(root.unwrap(), t), *left)
            &&& represents(store, t, store.right_at(root.unwrap(), t), *right)
        },
    }
}

/// Height of the subtree under `node`, 0 where there is none.
pub open spec fn height_of<B: NodeAccess>(store: B, node: Option<usize>, t: u64) -> u64 {
    match node {
        Some(n) => store.height_at(n, t),
        None => 0,
    }
}

/// Changes made one after the other add up.
pub proof fn lemma_evolves_chain<B: NodeAccess>(
    a: B,
    b: B,
    c: B,
    t: u64,
    first: Set<usize>,
    second: Set<usize>,
    both: Set<usize>,
)
    requires
        evolves(a, b, t, first),
        evolves(b, c, t, second),
        first.subset_of(both),
        second.subset_of(both),
    ensures
        evolves(a, c, t, both),
{
    assert forall|m: usize| m < a.node_count() implies #[trigger] c.datum_of(m) == a.datum_of(
        m,
    ) by {
        assert(b.datum_of(m) == a.datum_of(m));
    }
    assert forall|m: usize, u: u64|
        m < a.node_count() && (u < t || !both.contains(a.datum_of(m))) implies #[trigger] c.left_at(
        m,
        u,
    ) == a.left_at(m, u) by {
        assert(b.datum_of(m) == a.datum_of(m));
        assert(b.left_at(m, u) == a.left_at(m, u));
    }
    assert forall|m: usize, u: u64|
        m < a.node_count() && (u < t || !both.contains(a.datum_of(m))) implies #[trigger] c.right_at(
        m,
        u,
    ) == a.right_at(m, u) by {
        assert(b.datum_of(m) == a.datum_of(m));
        assert(b.right_at(m, u) == a.right_at(m, u));
    }
    assert forall|m: usize, u: u64|
        m < a.node_count() && (u < t || !both.contains(a.datum_of(m))) implies #[trigger] c.height_at(
        m,
        u,
    ) == a.height_at(m, u) by {
        assert(b.datum_of(m) == a.datum_of(m));
        assert(b.height_at(m, u) == a.height_at(m, u));
    }
}

/// A tree that a store stands for is still there after changes that were
/// recorded later than the time it is looked at, or that touched none of its
/// keys.
pub proof fn lemma_represents_evolves<B: NodeAccess>(
    pre: B,
    post: B,
    t: u64,
    touched: Set<usize>,
    u: u64,
    root: Option<usize>,
    shape: Shape,
)
    requires
        evolves(pre, post, t, touched),
        represents(pre, u, root, shape),
        u < t || forall|k: usize| shape.keys().contains(k) ==> !touched.contains(k),
    ensures
        represents(post, u, root, shape),
    decreases shape,
{
    match shape {
        Shape::Leaf => {},
        Shape::Node { left, key, right } => {
            let n = root.unwrap();
            lemma_node_keys(*left, key, *right);
            assert(shape == Shape::node(*left, key, *right));
            assert(shape.keys().contains(key));
            assert(post.datum_of(n) == pre.datum_of(n));
            assert(post.left_at(n, u) == pre.left_at(n, u));
            assert(post.right_at(n, u) == pre.right_at(n, u));
            assert(post.height_at(n, u) == pre.height_at(n, u));
            lemma_represents_evolves(pre, post, t, touched, u, pre.left_at(n, u), *left);
            lemma_represents_evolves(pre, post, t, touched, u, pre.right_at(n, u), *right);
        },
    }
}

/// From the horizon on, the store stands for the same tree at every time.
pub proof fn lemma_represents_settled<B: NodeAccess>(
    store: B,
    from: u64,
    to: u64,
    root: Option<usize>,
    shape: Shape,
)
    requires
        store.wf(),
        from >= store.horizon(),
        to >= store.horizon(),
        represents(store, from, root, shape),
    ensures
        represents(store, to, root, shape),
    decreases shape,
{
    match shape {
        Shape::Leaf => {},
        Shape::Node { left, key, right } => {
            let n = root.unwrap();
            store.lemma_settled(n, from);
            store.lemma_settled(n, to);
            lemma_represents_settled(store, from, to, store.left_at(n, from), *left);
            lemma_represents_settled(store, from, to, store.right_at(n, from), *right);
        },
    }
}

/// The height recorded at the root of a tree that a store stands for is the
/// tree's height, and there is a root exactly if the tree is not a leaf.
pub proof fn lemma_represents_root<B: NodeAccess>(
    store: B,
    t: u64,
    root: Option<usize>,
    shape: Shape,
)
    requires
        represents(store, t, root, shape),
    ensures
        height_of(store, root, t) == shape.height(),
        root is Some <==> shape is Node,
        root matches Some(n) ==> n < store.node_count() && store.datum_of(n) == shape->key,
{
}

/// What it means for a store to stand for a tree that is not a leaf.
pub proof fn lemma_represents_node<B: NodeAccess>(
    store: B,
    t: u64,
    root: Option<usize>,
    left: Shape,
    key: usize,
    right: Shape,
)
    ensures
        represents(store, t, root, Shape::node(left, key, right)) <==> {
            &&& root is Some
            &&& root.unwrap() < store.node_count()
            &&& store.datum_of(root.unwrap()) == key
            &&& store.height_at(root.unwrap(), t) == Shape::node(left, key, right).height()
            &&& represents(store, t, store.left_at(root.unwrap(), t), left)
            &&& represents(store, t, store.right_at(root.unwrap(), t), right)
        },
{
}

} // verus!
