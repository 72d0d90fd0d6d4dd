//! AVL maintenance over any store of nodes: heights, rotations, rebalancing of
//! one node, and rebalancing along a path after an insertion or a deletion.

use crate::keys::key_before;
use crate::keys::key_lt;
use crate::keys::lemma_distinct_count;
use crate::keys::lemma_key_order;
use crate::keys::lemma_ordered_distinct;
use crate::keys::lemma_ordered_part;
use crate::keys::ordered;
use crate::node_access::evolves;
use crate::node_access::height_of;
use crate::node_access::lemma_evolves_chain;
use crate::node_access::lemma_represents_evolves;
use crate::node_access::lemma_represents_node;
use crate::node_access::NodeAccess;
use crate::node_access::represents;
use crate::order::total_order;
use crate::shape::fill;
use crate::shape::Frame;
use crate::shape::keys_after;
use crate::shape::keys_before;
use crate::shape::lemma_frames_apart;
use crate::shape::lemma_height_le_size;
use crate::shape::lemma_node;
use crate::shape::lemma_node_distinct;
use crate::shape::lemma_node_keys;
use crate::shape::lemma_plug_balanced;
use crate::shape::lemma_plug_keys;
use crate::shape::lemma_plug_same_keys;
use crate::shape::lemma_plug_step;
use crate::shape::lemma_rebalanced;
use crate::shape::lemma_rebuild_step;
use crate::shape::lemma_rotation_keys;
use crate::shape::plug;
use crate::shape::rebuilt;
use crate::shape::Shape;
use vstd::prelude::*;

verus! {

/// Height of the subtree under `node` as of time `t`; 0 where there is none.
pub fn height<B: NodeAccess>(store: &B, node: Option<usize>, t: u64) -> (h: u64)
    requires
        store.wf(),
        node matches Some(n) ==> n < store.node_count(),
    ensures
        h == height_of(*store, node, t),
{
    match node {
        Some(n) => store.get_height(n, t),
        None => 0,
    }
}

/// Height of the right subtree of `node` minus height of its left subtree, as
/// of time `t`.
pub fn get_balance_factor<B: NodeAccess>(store: &B, t: u64, node: usize) -> (factor: i128)
    requires
        store.wf(),
        node < store.node_count(),
        store.left_at(node, t) matches Some(c) ==> c < store.node_count(),
        store.right_at(node, t) matches Some(c) ==> c < store.node_count(),
    ensures
        factor == height_of(*store, store.right_at(node, t), t) - height_of(
            *store,
            store.left_at(node, t),
            t,
        ),
{
    let left: u64 = height(store, store.get_left(node, t), t);
    let right: u64 = height(store, store.get_right(node, t), t);
    right as i128 - left as i128
}

/// Records at time `t` that `node` stands over the subtrees under `left` and
/// `right`, with the height that follows from theirs, and gives back the
/// handle of the node from then on.
pub fn relink<B: NodeAccess>(
    store: &mut B,
    t: u64,
    node: usize,
    left: Option<usize>,
    right: Option<usize>,
    Ghost(l): Ghost<Shape>,
    Ghost(r): Ghost<Shape>,
) -> (handle: usize)
    requires
        old(store).wf(),
        t >= old(store).horizon(),
        node < old(store).node_count(),
        represents(*old(store), t, left, l),
        represents(*old(store), t, right, r),
        !l.keys().contains(old(store).datum_of(node)),
        !r.keys().contains(old(store).datum_of(node)),
        l.height() < u64::MAX,
        r.height() < u64::MAX,
    ensures
        final(store).wf(),
        final(store).horizon() == t,
        represents(
            *final(store),
            t,
            Some(handle),
            Shape::node(l, old(store).datum_of(node), r),
        ),
        evolves(*old(store), *final(store), t, set![old(store).datum_of(node)]),
        final(store).node_count() <= old(store).node_count() + 1,
{
    let left_height: u64 = height(store, left, t);
    let right_height: u64 = height(store, right, t);
    let below: u64 = if left_height >= right_height {
        left_height
    } else {
        right_height
    };
    let handle = store.modify(node, t, left, right, below + 1);
    proof {
        let touched = set![old(store).datum_of(node)];
        assert(evolves(*old(store), *store, t, touched));
        lemma_represents_evolves(*old(store), *store, t, touched, t, left, l);
        lemma_represents_evolves(*old(store), *store, t, touched, t, right, r);
        lemma_node(l, old(store).datum_of(node), r);
    }
    handle
}

/// Recomputes the height of `node` from the heights of its children as of
/// time `t`, and gives back the handle of the node from then on.
pub fn set_height<B: NodeAccess>(
    store: &mut B,
    t: u64,
    node: usize,
    Ghost(l): Ghost<Shape>,
    Ghost(r): Ghost<Shape>,
) -> (handle: usize)
    requires
        old(store).wf(),
        t >= old(store).horizon(),
        node < old(store).node_count(),
        represents(*old(store), t, old(store).left_at(node, t), l),
        represents(*old(store), t, old(store).right_at(node, t), r),
        !l.keys().contains(old(store).datum_of(node)),
        !r.keys().contains(old(store).datum_of(node)),
        l.height() < u64::MAX,
        r.height() < u64::MAX,
    ensures
        final(store).wf(),
        final(store).horizon() == t,
        represents(
            *final(store),
            t,
            Some(handle),
            Shape::node(l, old(store).datum_of(node), r),
        ),
        evolves(*old(store), *final(store), t, set![old(store).datum_of(node)]),
        final(store).node_count() <= old(store).node_count() + 1,
{
    let left = store.get_left(node, t);
    let right = store.get_right(node, t);
    relink(store, t, node, left, right, Ghost(l), Ghost(r))
}

/// Makes the right child of `node` the root of the subtree: `node` becomes
/// its left child and takes over its former left subtree. The lower node is
/// recorded first, then the new root over it. Gives back the new root.
pub fn rotate_left<B: NodeAccess>(store: &mut B, t: u64, node: usize, Ghost(shape): Ghost<Shape>) -> (handle: usize)
    requires
        old(store).wf(),
        t >= old(store).horizon(),
        represents(*old(store), t, Some(node), shape),
        shape is Node,
        *shape->right is Node,
        shape.keys().no_duplicates(),
        shape.keys().len() <= u64::MAX,
    ensures
        final(store).wf(),
        final(store).horizon() == t,
        represents(*final(store), t, Some(handle), shape.rotated_left()),
        evolves(*old(store), *final(store), t, shape.keys().to_set()),
        final(store).node_count() <= old(store).node_count() + 2,
{
    let ghost l = *shape->left;
    let ghost k = shape->key;
    let ghost up = *shape->right;
    let ghost mid = *up->left;
    let ghost far = *up->right;
    let ghost top = up->key;
    let ghost whole = shape.keys().to_set();
    proof {
        assert(shape == Shape::node(l, k, up));
        assert(up == Shape::node(mid, top, far));
        lemma_node_distinct(l, k, up);
        lemma_node_distinct(mid, top, far);
        lemma_node_keys(l, k, up);
        lemma_node_keys(mid, top, far);
        lemma_node_keys(l, k, mid);
        lemma_height_le_size(shape);
        lemma_node(l, k, up);
        lemma_node(mid, top, far);
        lemma_node(l, k, mid);
        lemma_represents_node(*old(store), t, Some(node), l, k, up);
        lemma_represents_node(*old(store), t, old(store).right_at(node, t), mid, top, far);
        lemma_height_le_size(Shape::node(l, k, mid));
        lemma_height_le_size(l);
        lemma_height_le_size(mid);
        lemma_height_le_size(far);
    }
    let new_root = store.get_right(node, t).unwrap();
    let left = store.get_left(node, t);
    let inner = store.get_left(new_root, t);
    let outer = store.get_right(new_root, t);
    let lower = relink(store, t, node, left, inner, Ghost(l), Ghost(mid));
    let ghost between = *store;
    proof {
        lemma_represents_evolves(*old(store), between, t, set![k], t, outer, far);
    }
    let upper = relink(
        store,
        t,
        new_root,
        Some(lower),
        outer,
        Ghost(Shape::node(l, k, mid)),
        Ghost(far),
    );
    proof {
        lemma_evolves_chain(*old(store), between, *store, t, set![k], set![top], whole);
    }
    upper
}

/// Mirror image of `rotate_left`: the left child of `node` becomes the root
/// of the subtree.
pub fn rotate_right<B: NodeAccess>(store: &mut B, t: u64, node: usize, Ghost(shape): Ghost<Shape>) -> (handle: usize)
    requires
        old(store).wf(),
        t >= old(store).horizon(),
        represents(*old(store), t, Some(node), shape),
        shape is Node,
        *shape->left is Node,
        shape.keys().no_duplicates(),
        shape.keys().len() <= u64::MAX,
    ensures
        final(store).wf(),
        final(store).horizon() == t,
        represents(*final(store), t, Some(handle), shape.rotated_right()),
        evolves(*old(store), *final(store), t, shape.keys().to_set()),
        final(store).node_count() <= old(store).node_count() + 2,
{
    let ghost r = *shape->right;
    let ghost k = shape->key;
    let ghost up = *shape->left;
    let ghost mid = *up->right;
    let ghost far = *up->left;
    let ghost top = up->key;
    let ghost whole = shape.keys().to_set();
    proof {
        assert(shape == Shape::node(up, k, r));
        assert(up == Shape::node(far, top, mid));
        lemma_node_distinct(up, k, r);
        lemma_node_distinct(far, top, mid);
        lemma_node_keys(up, k, r);
        lemma_node_keys(far, top, mid);
        lemma_node_keys(mid, k, r);
        lemma_height_le_size(shape);
        lemma_node(up, k, r);
        lemma_node(far, top, mid);
        lemma_node(mid, k, r);
        lemma_represents_node(*old(store), t, Some(node), up, k, r);
        lemma_represents_node(*old(store), t, old(store).left_at(node, t), far, top, mid);
        lemma_height_le_size(Shape::node(mid, k, r));
        lemma_height_le_size(r);
        lemma_height_le_size(mid);
        lemma_height_le_size(far);
    }
    let new_root = store.get_left(node, t).unwrap();
    let right = store.get_right(node, t);
    let inner = store.get_right(new_root, t);
    let outer = store.get_left(new_root, t);
    let lower = relink(store, t, node, inner, right, Ghost(mid), Ghost(r));
    let ghost between = *store;
    proof {
        lemma_represents_evolves(*old(store), between, t, set![k], t, outer, far);
    }
    let upper = relink(
        store,
        t,
        new_root,
        outer,
        Some(lower),
        Ghost(far),
        Ghost(Shape::node(mid, k, r)),
    );
    proof {
        lemma_evolves_chain(*old(store), between, *store, t, set![k], set![top], whole);
    }
    upper
}

/// The keys of a subtree are among the keys of the tree.
proof fn lemma_subtree_sets(left: Shape, key: usize, right: Shape)
    ensures
        left.keys().to_set().subset_of(Shape::node(left, key, right).keys().to_set()),
        right.keys().to_set().subset_of(Shape::node(left, key, right).keys().to_set()),
        set![key].subset_of(Shape::node(left, key, right).keys().to_set()),
{
    lemma_node_keys(left, key, right);
}

/// Restores the balance at `node`, whose subtrees are balanced and differ by
/// at most two in height. Where the left subtree is higher by two, the left
/// child is first rotated left if its own right subtree is the higher one,
/// and `node` is then rotated right; the mirror image where the right subtree
/// is higher by two; nothing otherwise. Gives back the root of the subtree.
pub fn balance_node<B: NodeAccess>(store: &mut B, t: u64, node: usize, Ghost(shape): Ghost<Shape>) -> (handle: usize)
    requires
        old(store).wf(),
        t >= old(store).horizon(),
        represents(*old(store), t, Some(node), shape),
        shape.subtrees_balanced(),
        -2 <= shape.skew() <= 2,
        shape.keys().no_duplicates(),
        shape.keys().len() <= u64::MAX,
    ensures
        final(store).wf(),
        t >= final(store).horizon(),
        represents(*final(store), t, Some(handle), shape.rebalanced()),
        evolves(*old(store), *final(store), t, shape.keys().to_set()),
        final(store).node_count() <= old(store).node_count() + 5,
{
    let ghost l = *shape->left;
    let ghost k = shape->key;
    let ghost r = *shape->right;
    let ghost whole = shape.keys().to_set();
    proof {
        assert(shape == Shape::node(l, k, r));
        lemma_represents_node(*old(store), t, Some(node), l, k, r);
        lemma_node_distinct(l, k, r);
        lemma_node_keys(l, k, r);
        lemma_subtree_sets(l, k, r);
        lemma_height_le_size(shape);
        lemma_node(l, k, r);
    }
    let factor = get_balance_factor(store, t, node);
    assert(factor == shape.skew());
    if factor <= -2 {
        let left_child = store.get_left(node, t).unwrap();
        proof {
            assert(l == Shape::node(*l->left, l->key, *l->right));
            lemma_represents_node(
                *old(store),
                t,
                old(store).left_at(node, t),
                *l->left,
                l->key,
                *l->right,
            );
            lemma_node(*l->left, l->key, *l->right);
        }
        if get_balance_factor(store, t, left_child) >= 1 {
            assert(l.skew() >= 1);
            let new_left = rotate_left(store, t, left_child, Ghost(l));
            let ghost first = *store;
            let ghost low = l.rotated_left();
            proof {
                lemma_rotation_keys(l);
                lemma_represents_evolves(
                    *old(store),
                    first,
                    t,
                    l.keys().to_set(),
                    t,
                    old(store).right_at(node, t),
                    r,
                );
                lemma_height_le_size(low);
                lemma_height_le_size(r);
            }
            let right = store.get_right(node, t);
            let relinked = relink(store, t, node, Some(new_left), right, Ghost(low), Ghost(r));
            let ghost second = *store;
            proof {
                lemma_node(low, k, r);
                assert(Shape::node(low, k, r).keys() =~= shape.keys());
                lemma_evolves_chain(*old(store), first, second, t, l.keys().to_set(), set![k], whole);
            }
            let rotated = rotate_right(store, t, relinked, Ghost(Shape::node(low, k, r)));
            proof {
                lemma_evolves_chain(*old(store), second, *store, t, whole, whole, whole);
            }
            rotated
        } else {
            rotate_right(store, t, node, Ghost(shape))
        }
    } else if factor >= 2 {
        let right_child = store.get_right(node, t).unwrap();
        proof {
            assert(r == Shape::node(*r->left, r->key, *r->right));
            lemma_represents_node(
                *old(store),
                t,
                old(store).right_at(node, t),
                *r->left,
                r->key,
                *r->right,
            );
            lemma_node(*r->left, r->key, *r->right);
        }
        if get_balance_factor(store, t, right_child) <= -1 {
            assert(r.skew() <= -1);
            let new_right = rotate_right(store, t, right_child, Ghost(r));
            let ghost first = *store;
            let ghost low = r.rotated_right();
            proof {
                lemma_rotation_keys(r);
                lemma_represents_evolves(
                    *old(store),
                    first,
                    t,
                    r.keys().to_set(),
                    t,
                    old(store).left_at(node, t),
                    l,
                );
                lemma_height_le_size(low);
                lemma_height_le_size(l);
            }
            let left = store.get_left(node, t);
            let relinked = relink(store, t, node, left, Some(new_right), Ghost(l), Ghost(low));
            let ghost second = *store;
            proof {
                lemma_node(l, k, low);
                assert(Shape::node(l, k, low).keys() =~= shape.keys());
                lemma_evolves_chain(*old(store), first, second, t, r.keys().to_set(), set![k], whole);
            }
            let rotated = rotate_left(store, t, relinked, Ghost(Shape::node(l, k, low)));
            proof {
                lemma_evolves_chain(*old(store), second, *store, t, whole, whole, whole);
            }
            rotated
        } else {
            rotate_left(store, t, node, Ghost(shape))
        }
    } else {
        proof {
            lemma_rebalanced(shape);
        }
        node
    }
}

/// As of time `t`, `node` is the node of `frame`: it carries the frame's
/// datum, and on the side that the descent did not take, the store stands
/// for the frame's other subtree.
pub open spec fn hangs<B: NodeAccess>(store: B, t: u64, node: usize, frame: Frame) -> bool {
    &&& node < store.node_count()
    &&& store.datum_of(node) == frame.key
    &&& represents(
        store,
        t,
        if frame.left_turn {
            store.right_at(node, t)
        } else {
            store.left_at(node, t)
        },
        frame.other,
    )
}

/// As of time `t`, the children of `node` are the roots of `left` and `right`.
pub open spec fn links<B: NodeAccess>(store: B, t: u64, node: usize, left: Shape, right: Shape) -> bool {
    &&& node < store.node_count()
    &&& represents(store, t, store.left_at(node, t), left)
    &&& represents(store, t, store.right_at(node, t), right)
}

/// The first `upto` handles of `path` are the nodes of the frames of `ctx`.
pub open spec fn path_hangs<B: NodeAccess>(
    store: B,
    t: u64,
    path: Seq<usize>,
    ctx: Seq<Frame>,
    upto: int,
) -> bool {
    forall|j: int| 0 <= j < upto ==> hangs(store, t, #[trigger] path[j], ctx[j])
}

/// A node of a frame is still that after changes that touched neither its
/// datum nor a key of the frame's other subtree.
pub proof fn lemma_hangs_evolves<B: NodeAccess>(
    pre: B,
    post: B,
    t: u64,
    touched: Set<usize>,
    node: usize,
    frame: Frame,
)
    requires
        evolves(pre, post, t, touched),
        hangs(pre, t, node, frame),
        !touched.contains(frame.key),
        forall|k: usize| frame.other.keys().contains(k) ==> !touched.contains(k),
    ensures
        hangs(post, t, node, frame),
{
    assert(post.datum_of(node) == pre.datum_of(node));
    assert(post.left_at(node, t) == pre.left_at(node, t));
    assert(post.right_at(node, t) == pre.right_at(node, t));
    let side = if frame.left_turn {
        pre.right_at(node, t)
    } else {
        pre.left_at(node, t)
    };
    lemma_represents_evolves(pre, post, t, touched, t, side, frame.other);
}

/// In an ordered tree, the root of the subtree below a frame comes before
/// the frame's node exactly if the descent went left there.
pub proof fn lemma_turn<D: Ord>(data: Seq<D>, frame: Frame, sub: Shape)
    requires
        total_order::<D>(),
        ordered(data, fill(frame, sub).keys()),
        sub is Node,
    ensures
        key_lt(data, sub->key, frame.key) == frame.left_turn,
        sub->key < data.len(),
        frame.key < data.len(),
{
    let all = fill(frame, sub).keys();
    let p = sub->left.keys().len() as int;
    let n = sub.keys().len() as int;
    assert(sub.keys()[p] == sub->key);
    lemma_key_order(data, sub->key, frame.key);
    if frame.left_turn {
        assert(all =~= sub.keys().push(frame.key) + frame.other.keys());
        assert(all[p] == sub->key);
        assert(all[n] == frame.key);
    } else {
        let m = frame.other.keys().len() as int;
        assert(all =~= frame.other.keys().push(frame.key) + sub.keys());
        assert(all[m] == frame.key);
        assert(all[m + 1 + p] == sub->key);
    }
}

/// The conditions under which a path can be rebalanced: every handle of
/// `path` but the last is the node of its frame of `ctx`; the last one has
/// the balanced subtrees `left` and `right` below it, which differ by at most
/// two in height; the tree that this makes is ordered; and the tree was
/// balanced when it had `was` at the end of the descent, from which the last
/// node's subtree, once rebalanced, differs by at most one in height.
pub open spec fn rebalance_ready<B: NodeAccess, D: Ord>(
    store: B,
    data: Seq<D>,
    t: u64,
    path: Seq<usize>,
    ctx: Seq<Frame>,
    left: Shape,
    right: Shape,
    was: Shape,
) -> bool {
    let deepest = Shape::node(left, store.datum_of(path.last()), right);
    &&& path.len() == ctx.len() + 1
    &&& path_hangs(store, t, path, ctx, ctx.len() as int)
    &&& links(store, t, path.last(), left, right)
    &&& left.balanced()
    &&& right.balanced()
    &&& -2 <= deepest.skew() <= 2
    &&& ordered(data, plug(ctx, deepest).keys())
    &&& plug(ctx, was).balanced()
    &&& was.height() <= deepest.rebalanced().height() + 1
    &&& deepest.rebalanced().height() <= was.height() + 1
}

/// Recomputes heights and restores the balance along `path`, which leads from
/// the root to the node whose children were just changed. From the deepest
/// node upward: the node's height is recomputed and the node rebalanced, and
/// the root of the resulting subtree is linked into the next node up, on the
/// left if it comes before that node in the order of keys, on the right
/// otherwise. Gives back the root of the whole tree, `None` for an empty path.
pub fn balance<B: NodeAccess, D: Ord>(
    store: &mut B,
    data: &Vec<D>,
    t: u64,
    path: &Vec<usize>,
    Ghost(ctx): Ghost<Seq<Frame>>,
    Ghost(left): Ghost<Shape>,
    Ghost(right): Ghost<Shape>,
    Ghost(was): Ghost<Shape>,
) -> (root: Option<usize>)
    requires
        total_order::<D>(),
        old(store).wf(),
        t >= old(store).horizon(),
        path@.len() > 0 ==> rebalance_ready(*old(store), data@, t, path@, ctx, left, right, was),
    ensures
        final(store).wf(),
        t >= final(store).horizon(),
        path@.len() == 0 ==> root is None && *final(store) == *old(store),
        path@.len() > 0 ==> {
            let deepest = Shape::node(left, old(store).datum_of(path@.last()), right);
            &&& root is Some
            &&& represents(*final(store), t, root, rebuilt(ctx, deepest.rebalanced()))
            &&& evolves(*old(store), *final(store), t, plug(ctx, deepest).keys().to_set())
        },
        final(store).node_count() <= old(store).node_count() + 6 * path@.len(),
{
    let n: usize = path.len();
    if n == 0 {
        return None;
    }
    let mut i: usize = n - 1;
    let ghost last_key = store.datum_of(path@.last());
    let ghost deepest = Shape::node(left, last_key, right);
    let ghost all = plug(ctx, deepest).keys();
    let ghost whole = all.to_set();
    proof {
        lemma_ordered_distinct(data@, all);
        assert(data.len() == data@.len());
        lemma_distinct_count(all, data@.len());
        lemma_plug_keys(ctx, deepest);
        lemma_ordered_part(data@, keys_before(ctx), deepest.keys(), keys_after(ctx));
        lemma_ordered_distinct(data@, deepest.keys());
        lemma_node_distinct(left, last_key, right);
        lemma_height_le_size(left);
        lemma_height_le_size(right);
        lemma_node(left, last_key, right);
        assert(all.len() == keys_before(ctx).len() + deepest.keys().len() + keys_after(
            ctx,
        ).len());
    }
    let raised = set_height(store, t, path[i], Ghost(left), Ghost(right));
    let ghost first = *store;
    let mut child = balance_node(store, t, raised, Ghost(deepest));
    let ghost mut cur = deepest.rebalanced();
    let ghost mut prior = was;
    proof {
        lemma_rebalanced(deepest);
        assert forall|k: usize| deepest.keys().to_set().contains(k) implies whole.contains(k) by {
            broadcast use vstd::seq_lib::lemma_seq_concat_contains_all_elements;

        }
        assert(set![last_key].subset_of(deepest.keys().to_set())) by {
            lemma_node_keys(left, last_key, right);
        }
        lemma_evolves_chain(
            *old(store),
            first,
            *store,
            t,
            set![last_key],
            deepest.keys().to_set(),
            whole,
        );
        assert(ctx.take(ctx.len() as int) =~= ctx);
        lemma_plug_same_keys(ctx, cur, deepest);
        assert forall|j: int| 0 <= j < i implies hangs(*store, t, #[trigger] path@[j], ctx[j]) by {
            lemma_ordered_distinct(data@, all);
            lemma_frames_apart(ctx, deepest, j);
            lemma_hangs_evolves(*old(store), *store, t, deepest.keys().to_set(), path@[j], ctx[j]);
        }
    }
    while i > 0
        invariant
            total_order::<D>(),
            n == path@.len(),
            n == ctx.len() + 1,
            i < n,
            store.wf(),
            t >= store.horizon(),
            represents(*store, t, Some(child), cur),
            cur.balanced(),
            cur is Node,
            plug(ctx.take(i as int), prior).balanced(),
            prior.height() <= cur.height() + 1,
            cur.height() <= prior.height() + 1,
            plug(ctx.take(i as int), cur).keys() =~= all,
            rebuilt(ctx.take(i as int), cur) == rebuilt(ctx, deepest.rebalanced()),
            path_hangs(*store, t, path@, ctx, i as int),
            evolves(*old(store), *store, t, whole),
            store.node_count() <= old(store).node_count() + 6 * (n - i),
            ordered(data@, all),
            all.len() <= u64::MAX,
            whole == all.to_set(),
        decreases i,
    {
        i = i - 1;
        let parent = path[i];
        let ghost frame = ctx[i as int];
        let ghost joined = fill(frame, cur);
        let ghost above = ctx.take(i as int);
        let ghost before = *store;
        proof {
            lemma_plug_step(ctx, i as int, cur);
            lemma_plug_step(ctx, i as int, prior);
            lemma_plug_keys(above, joined);
            lemma_ordered_part(data@, keys_before(above), joined.keys(), keys_after(above));
            lemma_ordered_distinct(data@, joined.keys());
            lemma_turn(data@, frame, cur);
            assert(hangs(*store, t, path@[i as int], ctx[i as int]));
            lemma_plug_balanced(above, fill(frame, prior));
            lemma_rebuild_step(frame, prior, cur);
            if frame.left_turn {
                lemma_node_distinct(cur, frame.key, frame.other);
            } else {
                lemma_node_distinct(frame.other, frame.key, cur);
            }
            lemma_height_le_size(cur);
            lemma_height_le_size(frame.other);
            lemma_node(cur, frame.key, frame.other);
            lemma_node(frame.other, frame.key, cur);
            assert(all.len() == keys_before(above).len() + joined.keys().len() + keys_after(
                above,
            ).len());
        }
        let child_datum = store.get_datum(child);
        let parent_datum = store.get_datum(parent);
        let relinked = if key_before(data, child_datum, parent_datum) {
            let other = store.get_right(parent, t);
            relink(store, t, parent, Some(child), other, Ghost(cur), Ghost(frame.other))
        } else {
            let other = store.get_left(parent, t);
            relink(store, t, parent, other, Some(child), Ghost(frame.other), Ghost(cur))
        };
        let ghost between = *store;
        child = balance_node(store, t, relinked, Ghost(joined));
        proof {
            assert forall|k: usize| joined.keys().to_set().contains(k) implies whole.contains(
                k,
            ) by {
                broadcast use vstd::seq_lib::lemma_seq_concat_contains_all_elements;

            }
            assert(set![frame.key].subset_of(joined.keys().to_set())) by {
                lemma_node_keys(cur, frame.key, frame.other);
                lemma_node_keys(frame.other, frame.key, cur);
            }
            lemma_evolves_chain(
                before,
                between,
                *store,
                t,
                set![frame.key],
                joined.keys().to_set(),
                joined.keys().to_set(),
            );
            lemma_evolves_chain(*old(store), before, *store, t, whole, joined.keys().to_set(), whole);
            assert forall|j: int| 0 <= j < i implies hangs(
                *store,
                t,
                #[trigger] path@[j],
                ctx[j],
            ) by {
                lemma_ordered_distinct(data@, all);
                assert(above[j] == ctx[j]);
                lemma_frames_apart(above, joined, j);
                lemma_hangs_evolves(before, *store, t, joined.keys().to_set(), path@[j], ctx[j]);
            }
            lemma_plug_same_keys(above, joined.rebalanced(), joined);
            cur = joined.rebalanced();
            prior = fill(frame, prior);
        }
    }
    proof {
        assert(ctx.take(0) =~= Seq::<Frame>::empty());
    }
    Some(child)
}

} // verus!
