//! The two changes to the latest version of a tree: a new node is hung in
//! where its datum belongs, or a node is taken out; the path to the place is
//! then rebalanced.

use crate::descent::all_left;
use crate::descent::find_least;
use crate::descent::find_node;
use crate::descent::find_slot;
use crate::descent::lemma_all_left;
use crate::descent::lemma_window;
use crate::descent::located;
use crate::descent::Located;
use crate::descent::slot;
use crate::kernel::balance;
use crate::kernel::hangs;
use crate::kernel::lemma_hangs_evolves;
use crate::kernel::links;
use crate::kernel::rebalance_ready;
use crate::keys::lemma_ordered_distinct;
use crate::keys::lemma_ordered_insert;
use crate::keys::lemma_ordered_remove;
use crate::keys::ordered;
use crate::keys::values;
use crate::model::lemma_with_key_plug;
use crate::model::lemma_without_least_plug;
use crate::model::lemma_without_plug;
use crate::model::with_key;
use crate::model::without;
use crate::node_access::evolves;
use crate::node_access::lemma_evolves_chain;
use crate::node_access::lemma_represents_evolves;
use crate::node_access::lemma_represents_node;
use crate::node_access::NodeAccess;
use crate::node_access::represents;
use crate::order::total_order;
use crate::shape::fill;
use crate::shape::Frame;
use crate::shape::keys_after;
use crate::shape::keys_before;
use crate::shape::lemma_frames_apart;
use crate::shape::lemma_node;
use crate::shape::lemma_node_distinct;
use crate::shape::lemma_node_keys;
use crate::shape::lemma_plug_balanced;
use crate::shape::lemma_plug_concat;
use crate::shape::lemma_plug_exchange;
use crate::shape::lemma_plug_height;
use crate::shape::lemma_plug_keys;
use crate::shape::lemma_plug_step;
use crate::shape::lemma_rebalanced;
use crate::shape::lemma_rebuild_step;
use crate::shape::lemma_rebuilt;
use crate::shape::plug;
use crate::shape::rebuilt;
use crate::shape::Shape;
use vstd::prelude::*;

verus! {

/// The root of a tree after a change, with the tree that it stands for and
/// the place of the change in the order of keys.
pub struct Grown {
    pub root: usize,
    pub shape: Ghost<Shape>,
    pub at: Ghost<int>,
}

/// Adds a node for the datum with index `fresh` to the tree under `root`:
/// makes the node, descends to where the datum belongs, hangs the node in
/// there and rebalances the path. Gives back the new root.
#[verifier::rlimit(40)]
pub fn grow<B: NodeAccess, D: Ord>(
    store: &mut B,
    data: &Vec<D>,
    t: u64,
    root: Option<usize>,
    fresh: usize,
    Ghost(shape): Ghost<Shape>,
) -> (grown: Grown)
    requires
        total_order::<D>(),
        old(store).wf(),
        t >= old(store).horizon(),
        represents(*old(store), t, root, shape),
        shape.balanced(),
        ordered(data@, shape.keys()),
        fresh < data@.len(),
        forall|j: int| 0 <= j < shape.keys().len() ==> (#[trigger] shape.keys()[j]) < fresh,
    ensures
        final(store).wf(),
        t >= final(store).horizon(),
        represents(*final(store), t, Some(grown.root), grown.shape@),
        grown.shape@ == with_key(data@, shape, fresh),
        grown.shape@.balanced(),
        ordered(data@, grown.shape@.keys()),
        0 <= grown.at@ <= shape.keys().len(),
        grown.shape@.keys() =~= shape.keys().insert(grown.at@, fresh),
        evolves(*old(store), *final(store), t, Set::full()),
        final(store).node_count() <= old(store).node_count() + 2 + 6 * shape.height(),
{
    let ghost leaf = Shape::node(Shape::Leaf, fresh, Shape::Leaf);
    let node = store.create(fresh, t);
    let ghost made = *store;
    proof {
        assert(evolves(*old(store), made, t, Set::empty()));
        lemma_represents_evolves(*old(store), made, t, Set::empty(), t, root, shape);
        lemma_node(Shape::Leaf, fresh, Shape::Leaf);
        lemma_represents_node(made, t, Some(node), Shape::Leaf, fresh, Shape::Leaf);
    }
    match root {
        None => {
            proof {
                assert(shape.keys() =~= Seq::<usize>::empty());
                assert(leaf.keys() =~= shape.keys().insert(0, fresh));
                lemma_evolves_chain(
                    *old(store),
                    made,
                    made,
                    t,
                    Set::empty(),
                    Set::empty(),
                    Set::full(),
                );
                assert(leaf.keys()[0] == fresh);
            }
            Grown { root: node, shape: Ghost(leaf), at: Ghost(0) }
        },
        Some(top) => {
            let landing = find_slot(&*store, data, t, top, fresh, Ghost(shape));
            let left = landing.left;
            let mut path = landing.path;
            let ghost ctx = landing.ctx@;
            let ghost sub = landing.sub@;
            let ghost l = *sub->left;
            let ghost r = *sub->right;
            let ghost k = sub->key;
            let ghost at = slot(ctx, sub, left);
            let ghost keys = shape.keys();
            let last: usize = path.len() - 1;
            let cur = path[last];
            proof {
                assert(sub == Shape::node(l, k, r));
                lemma_represents_node(made, t, Some(cur), l, k, r);
                lemma_node(l, k, r);
                lemma_node_keys(l, k, r);
                lemma_ordered_distinct(data@, keys);
                lemma_plug_keys(ctx, sub);
                lemma_window(ctx, sub);
                crate::shape::lemma_plug_balanced(ctx, sub);
                lemma_frames_apart_all(ctx, sub);
                lemma_node_distinct(l, k, r);
                assert(sub.keys()[l.keys().len() as int] == k);
                assert(k < fresh);
            }
            let stale = store.get_height(cur, t);
            let attached = if left {
                let other = store.get_right(cur, t);
                store.modify(cur, t, Some(node), other, stale)
            } else {
                let other = store.get_left(cur, t);
                store.modify(cur, t, other, Some(node), stale)
            };
            let ghost hung = *store;
            let ghost before = path@;
            path[last] = attached;
            let ghost l2 = if left {
                leaf
            } else {
                l
            };
            let ghost r2 = if left {
                r
            } else {
                leaf
            };
            let ghost deepest = Shape::node(l2, k, r2);
            proof {
                assert(evolves(made, hung, t, set![k]));
                assert forall|j: int| 0 <= j < ctx.len() implies hangs(
                    hung,
                    t,
                    #[trigger] path@[j],
                    ctx[j],
                ) by {
                    assert(path@[j] == before[j]);
                    lemma_frames_apart(ctx, sub, j);
                    assert(sub.keys().contains(k));
                    assert(!ctx[j].other.keys().contains(k));
                    lemma_hangs_evolves(made, hung, t, set![k], before[j], ctx[j]);
                }
                lemma_represents_evolves(made, hung, t, set![k], t, Some(node), leaf);
                lemma_represents_evolves(made, hung, t, set![k], t, made.left_at(cur, t), l);
                lemma_represents_evolves(made, hung, t, set![k], t, made.right_at(cur, t), r);
                assert(links(hung, t, attached, l2, r2));
                lemma_node(l2, k, r2);
                lemma_plug_keys(ctx, deepest);
                assert(deepest.keys() =~= if left {
                    sub.keys().insert(0, fresh)
                } else {
                    sub.keys().insert(sub.keys().len() as int, fresh)
                });
                assert(plug(ctx, deepest).keys() =~= keys.insert(at, fresh));
                lemma_ordered_insert(data@, keys, at, fresh);
                lemma_rebalanced(deepest);
                assert(rebalance_ready(hung, data@, t, path@, ctx, l2, r2, sub));
            }
            let new_root = balance(store, data, t, &path, Ghost(ctx), Ghost(l2), Ghost(r2), Ghost(sub));
            proof {
                lemma_rebuilt(ctx, sub, deepest.rebalanced());
                crate::shape::lemma_plug_same_keys(ctx, deepest.rebalanced(), deepest);
                lemma_with_key_plug(data@, ctx, sub, fresh);
                assert(with_key(data@, Shape::Leaf, fresh) == leaf);
                assert(with_key(data@, sub, fresh) == deepest.rebalanced());
                lemma_evolves_chain(*old(store), made, hung, t, Set::empty(), set![k], Set::full());
                lemma_evolves_chain(
                    *old(store),
                    hung,
                    *store,
                    t,
                    Set::full(),
                    plug(ctx, deepest).keys().to_set(),
                    Set::full(),
                );
            }
            Grown {
                root: new_root.unwrap(),
                shape: Ghost(rebuilt(ctx, deepest.rebalanced())),
                at: Ghost(at),
            }
        },
    }
}

/// Where no key occurs twice in the tree with `sub` at the end of a descent,
/// no key of a frame of the descent occurs in `sub`.
pub proof fn lemma_frames_apart_all(ctx: Seq<Frame>, sub: Shape)
    requires
        plug(ctx, sub).keys().no_duplicates(),
    ensures
        sub.keys().no_duplicates(),
        forall|j: int|
            0 <= j < ctx.len() ==> !sub.keys().contains((#[trigger] ctx[j]).key) && forall|
                k: usize,
            |
                ctx[j].other.keys().contains(k) ==> !sub.keys().contains(k),
{
    lemma_plug_keys(ctx, sub);
    crate::shape::lemma_middle_distinct(keys_before(ctx), sub.keys(), keys_after(ctx));
    assert forall|j: int| 0 <= j < ctx.len() implies !sub.keys().contains((#[trigger] ctx[j]).key)
        && forall|k: usize| ctx[j].other.keys().contains(k) ==> !sub.keys().contains(k) by {
        lemma_frames_apart(ctx, sub, j);
    }
}

/// The root of a tree after a node was taken out, with the tree that it
/// stands for and the place of the node's key in the former order of keys.
pub struct Shrunk {
    pub root: Option<usize>,
    pub shape: Ghost<Shape>,
    pub at: Ghost<int>,
}

/// The place of the key of the node at the end of a descent in the order of
/// the keys of the tree.
pub open spec fn place_index(ctx: Seq<Frame>, sub: Shape) -> int {
    (keys_before(ctx).len() + sub->left.keys().len()) as int
}

/// The key of the node at the end of a descent is at its place in the order
/// of keys, and taking it out leaves the keys of the tree in which the
/// node's subtrees are put end to end.
pub proof fn lemma_place(ctx: Seq<Frame>, sub: Shape)
    requires
        sub is Node,
    ensures
        0 <= place_index(ctx, sub) < plug(ctx, sub).keys().len(),
        plug(ctx, sub).keys()[place_index(ctx, sub)] == sub->key,
        plug(ctx, sub).keys().remove(place_index(ctx, sub)) =~= keys_before(ctx) + (
        sub->left.keys() + sub->right.keys()) + keys_after(ctx),
{
    lemma_plug_keys(ctx, sub);
    lemma_node(*sub->left, sub->key, *sub->right);
    assert(sub == Shape::node(*sub->left, sub->key, *sub->right));
}

/// Takes out the node at the end of `place`, which has at most one child,
/// `replacement`: the child takes the node's place under the node above,
/// and the path from there up is rebalanced.
#[verifier::rlimit(40)]
pub fn splice_out<B: NodeAccess, D: Ord>(
    store: &mut B,
    data: &Vec<D>,
    t: u64,
    place: Located,
    replacement: Option<usize>,
    Ghost(shape): Ghost<Shape>,
) -> (out: Shrunk)
    requires
        total_order::<D>(),
        old(store).wf(),
        t >= old(store).horizon(),
        shape.balanced(),
        ordered(data@, shape.keys()),
        located(*old(store), t, shape, place.path@, place.ctx@, place.sub@),
        place.ctx@.len() > 0 ==> place.left == place.ctx@.last().left_turn,
        (*place.sub@->left is Leaf && replacement == old(store).right_at(place.path@.last(), t))
            || (*place.sub@->right is Leaf && replacement == old(store).left_at(
            place.path@.last(),
            t,
        )),
    ensures
        final(store).wf(),
        t >= final(store).horizon(),
        evolves(*old(store), *final(store), t, Set::full()),
        represents(*final(store), t, out.root, out.shape@),
        out.shape@ == rebuilt(
            place.ctx@,
            if *place.sub@->left is Leaf {
                *place.sub@->right
            } else {
                *place.sub@->left
            },
        ),
        out.shape@.balanced(),
        ordered(data@, out.shape@.keys()),
        out.at@ == place_index(place.ctx@, place.sub@),
        out.shape@.keys() =~= shape.keys().remove(out.at@),
        final(store).node_count() <= old(store).node_count() + 2 + 6 * shape.height(),
{
    let ghost ctx = place.ctx@;
    let ghost sub = place.sub@;
    let ghost l = *sub->left;
    let ghost r = *sub->right;
    let ghost k = sub->key;
    let ghost rest = if l is Leaf {
        r
    } else {
        l
    };
    let ghost at = place_index(ctx, sub);
    let ghost keys = shape.keys();
    let mut path = place.path;
    let ghost whole = path@;
    proof {
        assert(sub == Shape::node(l, k, r));
        lemma_represents_node(*old(store), t, Some(whole.last()), l, k, r);
        lemma_node(l, k, r);
        lemma_place(ctx, sub);
        lemma_plug_height(ctx, sub);
        lemma_plug_balanced(ctx, sub);
        lemma_ordered_remove(data@, keys, at);
        lemma_ordered_distinct(data@, keys);
        assert(l.keys() + r.keys() =~= rest.keys());
        lemma_plug_keys(ctx, rest);
    }
    if path.len() == 1 {
        proof {
            assert(ctx =~= Seq::<Frame>::empty());
            assert(evolves(*old(store), *store, t, Set::full()));
        }
        return Shrunk { root: replacement, shape: Ghost(rest), at: Ghost(at) };
    }
    path.pop();
    let last: usize = path.len() - 1;
    let parent = path[last];
    let ghost frame = ctx.last();
    let ghost above = ctx.drop_last();
    proof {
        lemma_plug_step(ctx, ctx.len() - 1, sub);
        lemma_plug_step(ctx, ctx.len() - 1, rest);
        assert(ctx.take(ctx.len() - 1) =~= above);
        assert(ctx.take(ctx.len() as int) =~= ctx);
        assert(hangs(*old(store), t, whole[ctx.len() - 1], ctx[ctx.len() - 1]));
        lemma_plug_balanced(above, fill(frame, sub));
        lemma_rebuild_step(frame, sub, rest);
        lemma_frames_apart(ctx, sub, ctx.len() - 1);
        lemma_node_keys(l, k, r);
        lemma_node(sub, frame.key, frame.other);
        lemma_node(frame.other, frame.key, sub);
        if frame.left_turn {
            lemma_node_distinct_under(above, sub, frame.key, frame.other);
        } else {
            lemma_node_distinct_under(above, frame.other, frame.key, sub);
        }
    }
    let stale = store.get_height(parent, t);
    let relinked = if place.left {
        let other = store.get_right(parent, t);
        store.modify(parent, t, replacement, other, stale)
    } else {
        let other = store.get_left(parent, t);
        store.modify(parent, t, other, replacement, stale)
    };
    let ghost cut = *store;
    let ghost before = path@;
    path[last] = relinked;
    let ghost l2 = if frame.left_turn {
        rest
    } else {
        frame.other
    };
    let ghost r2 = if frame.left_turn {
        frame.other
    } else {
        rest
    };
    let ghost deepest = Shape::node(l2, frame.key, r2);
    proof {
        let touched = set![frame.key];
        assert(evolves(*old(store), cut, t, touched));
        assert forall|j: int| 0 <= j < above.len() implies hangs(
            cut,
            t,
            #[trigger] path@[j],
            above[j],
        ) by {
            assert(path@[j] == whole[j]);
            assert(above[j] == ctx[j]);
            lemma_frames_apart(above, fill(frame, sub), j);
            assert(fill(frame, sub).keys().contains(frame.key)) by {
                lemma_node_keys(sub, frame.key, frame.other);
                lemma_node_keys(frame.other, frame.key, sub);
            }
            lemma_hangs_evolves(*old(store), cut, t, touched, whole[j], ctx[j]);
        }
        lemma_represents_evolves(*old(store), cut, t, touched, t, replacement, rest);
        lemma_represents_evolves(
            *old(store),
            cut,
            t,
            touched,
            t,
            if frame.left_turn {
                old(store).right_at(parent, t)
            } else {
                old(store).left_at(parent, t)
            },
            frame.other,
        );
        assert(links(cut, t, relinked, l2, r2));
        assert(deepest == fill(frame, rest));
        assert(plug(above, deepest).keys() =~= keys.remove(at));
        assert(rebalance_ready(cut, data@, t, path@, above, l2, r2, fill(frame, sub)));
    }
    let new_root = balance(
        store,
        data,
        t,
        &path,
        Ghost(above),
        Ghost(l2),
        Ghost(r2),
        Ghost(fill(frame, sub)),
    );
    proof {
        lemma_rebuilt(above, fill(frame, sub), deepest.rebalanced());
        crate::shape::lemma_plug_same_keys(above, deepest.rebalanced(), deepest);
        lemma_evolves_chain(
            *old(store),
            cut,
            *store,
            t,
            set![frame.key],
            plug(above, deepest).keys().to_set(),
            Set::full(),
        );
    }
    Shrunk { root: new_root, shape: Ghost(rebuilt(above, deepest.rebalanced())), at: Ghost(at) }
}

/// Where no key occurs twice in a tree, none occurs twice in the subtree of
/// a node of it: the node's key is in neither of its subtrees, and no key is
/// in both.
pub proof fn lemma_node_distinct_under(ctx: Seq<Frame>, left: Shape, key: usize, right: Shape)
    requires
        plug(ctx, Shape::node(left, key, right)).keys().no_duplicates(),
    ensures
        Shape::node(left, key, right).keys().no_duplicates(),
        left.keys().no_duplicates(),
        right.keys().no_duplicates(),
        !left.keys().contains(key),
        !right.keys().contains(key),
        forall|k: usize| left.keys().contains(k) ==> !right.keys().contains(k),
{
    lemma_frames_apart_all(ctx, Shape::node(left, key, right));
    lemma_node_distinct(left, key, right);
}

/// Takes out the node at the end of `place`, whose right child has no left
/// child: the right child takes the node's place and its left subtree, and
/// the path down to it is rebalanced.
#[verifier::rlimit(40)]
pub fn promote_child<B: NodeAccess, D: Ord>(
    store: &mut B,
    data: &Vec<D>,
    t: u64,
    place: Located,
    Ghost(shape): Ghost<Shape>,
) -> (out: Shrunk)
    requires
        total_order::<D>(),
        old(store).wf(),
        t >= old(store).horizon(),
        shape.balanced(),
        ordered(data@, shape.keys()),
        located(*old(store), t, shape, place.path@, place.ctx@, place.sub@),
        *place.sub@->right is Node,
        *(*place.sub@->right)->left is Leaf,
    ensures
        final(store).wf(),
        t >= final(store).horizon(),
        evolves(*old(store), *final(store), t, Set::full()),
        represents(*final(store), t, out.root, out.shape@),
        out.shape@ == rebuilt(
            place.ctx@,
            Shape::node(
                *place.sub@->left,
                (*place.sub@->right)->key,
                *(*place.sub@->right)->right,
            ).rebalanced(),
        ),
        out.shape@.balanced(),
        ordered(data@, out.shape@.keys()),
        out.at@ == place_index(place.ctx@, place.sub@),
        out.shape@.keys() =~= shape.keys().remove(out.at@),
        final(store).node_count() <= old(store).node_count() + 2 + 6 * shape.height(),
{
    let ghost ctx = place.ctx@;
    let ghost sub = place.sub@;
    let ghost l = *sub->left;
    let ghost r = *sub->right;
    let ghost k = sub->key;
    let ghost up = r->key;
    let ghost rest = *r->right;
    let ghost at = place_index(ctx, sub);
    let ghost keys = shape.keys();
    let ghost deepest = Shape::node(l, up, rest);
    let ghost turn = Frame { key: up, other: l, left_turn: false };
    let mut path = place.path;
    let ghost whole = path@;
    let last: usize = path.len() - 1;
    let node = path[last];
    proof {
        assert(sub == Shape::node(l, k, r));
        assert(r == Shape::node(Shape::Leaf, up, rest));
        lemma_represents_node(*old(store), t, Some(node), l, k, r);
        lemma_represents_node(*old(store), t, old(store).right_at(node, t), Shape::Leaf, up, rest);
        lemma_node(l, k, r);
        lemma_node(Shape::Leaf, up, rest);
        lemma_node(l, up, r);
        lemma_node(l, up, rest);
        lemma_node_keys(l, k, r);
        lemma_node_keys(Shape::Leaf, up, rest);
        lemma_place(ctx, sub);
        lemma_plug_height(ctx, sub);
        lemma_plug_balanced(ctx, sub);
        lemma_ordered_remove(data@, keys, at);
        lemma_ordered_distinct(data@, keys);
        lemma_node_distinct_under(ctx, l, k, r);
        lemma_node_distinct(Shape::Leaf, up, rest);
        lemma_plug_keys(ctx, deepest);
        assert(l.keys() + r.keys() =~= deepest.keys());
        lemma_rebuild_step(turn, r, rest);
    }
    let left = store.get_left(node, t);
    let child = store.get_right(node, t).unwrap();
    let right = store.get_right(child, t);
    let stale = store.get_height(child, t);
    let raised = store.modify(child, t, left, right, stale);
    let ghost cut = *store;
    path[last] = raised;
    proof {
        let touched = set![up];
        assert(evolves(*old(store), cut, t, touched));
        assert forall|j: int| 0 <= j < ctx.len() implies hangs(cut, t, #[trigger] path@[j], ctx[j]) by {
            assert(path@[j] == whole[j]);
            lemma_frames_apart(ctx, sub, j);
            assert(sub.keys().contains(up));
            lemma_hangs_evolves(*old(store), cut, t, touched, whole[j], ctx[j]);
        }
        lemma_represents_evolves(*old(store), cut, t, touched, t, left, l);
        lemma_represents_evolves(*old(store), cut, t, touched, t, right, rest);
        assert(links(cut, t, raised, l, rest));
        assert(plug(ctx, deepest).keys() =~= keys.remove(at));
        assert(rebalance_ready(cut, data@, t, path@, ctx, l, rest, sub));
    }
    let new_root = balance(store, data, t, &path, Ghost(ctx), Ghost(l), Ghost(rest), Ghost(sub));
    proof {
        lemma_rebuilt(ctx, sub, deepest.rebalanced());
        crate::shape::lemma_plug_same_keys(ctx, deepest.rebalanced(), deepest);
        lemma_evolves_chain(
            *old(store),
            cut,
            *store,
            t,
            set![up],
            plug(ctx, deepest).keys().to_set(),
            Set::full(),
        );
    }
    Shrunk { root: new_root, shape: Ghost(rebuilt(ctx, deepest.rebalanced())), at: Ghost(at) }
}

/// The frame of the node that takes the place of a node that is taken out:
/// it carries the key `up`, keeps the left subtree of the node that was
/// there, and the descent goes on to its right.
pub open spec fn promoted(sub: Shape, up: usize) -> Frame {
    Frame { key: up, other: *sub->left, left_turn: false }
}

/// The descent to the former place of the least node of the right subtree
/// of `sub`, after that node has taken the place of the root of `sub`: the
/// descent `ctx` to `sub`, the frame of the promoted node, and the descent
/// `down` within the right subtree without its last step.
pub open spec fn promotion(ctx: Seq<Frame>, sub: Shape, down: Seq<Frame>, up: usize) -> Seq<Frame> {
    ctx.push(promoted(sub, up)) + down.drop_last()
}

/// Taking out the root of `sub` by promoting the least node of its right
/// subtree. Where `down` leads, by left turns only, from the right subtree
/// of `sub` to its least node `least`, the tree in which `least` stands in
/// place of the root of `sub`, and the right subtree of `least` in place of
/// `least`, has the keys of the former tree without the key of the root of
/// `sub`. With `least` still in its place too, that tree is balanced if the
/// former was.
pub proof fn lemma_promotion(ctx: Seq<Frame>, sub: Shape, down: Seq<Frame>, least: Shape)
    requires
        sub is Node,
        least is Node,
        *least->left is Leaf,
        down.len() > 0,
        all_left(down),
        plug(down, least) == *sub->right,
        plug(ctx, sub).balanced(),
    ensures
        plug(
            promotion(ctx, sub, down, least->key),
            fill(down.last(), *least->right),
        ).keys() =~= plug(ctx, sub).keys().remove(place_index(ctx, sub)),
        plug(promotion(ctx, sub, down, least->key), fill(down.last(), least)).balanced(),
{
    let up = least->key;
    let rest = *least->right;
    let l = *sub->left;
    let r = *sub->right;
    let f = down.last();
    let below = down.drop_last();
    let turn = promoted(sub, up);
    let now = fill(f, rest);
    let was = fill(f, least);
    assert(sub == Shape::node(l, sub->key, r));
    assert(least == Shape::node(Shape::Leaf, up, rest));
    assert(f.left_turn);
    assert(all_left(below)) by {
        assert forall|j: int| 0 <= j < below.len() implies (#[trigger] below[j]).left_turn by {
            assert(below[j] == down[j]);
        }
    }
    lemma_all_left(below);
    lemma_all_left(down);
    lemma_node(l, sub->key, r);
    lemma_node(Shape::Leaf, up, rest);
    lemma_node(rest, f.key, f.other);
    lemma_node(least, f.key, f.other);
    lemma_place(ctx, sub);
    // the keys
    lemma_plug_concat(ctx.push(turn), below, now);
    crate::descent::lemma_descend_step(ctx, turn, plug(below, now));
    lemma_plug_keys(ctx, fill(turn, plug(below, now)));
    lemma_node(l, up, plug(below, now));
    lemma_plug_keys(below, now);
    lemma_plug_keys(down, least);
    assert(seq![up] + plug(below, now).keys() =~= r.keys());
    assert(fill(turn, plug(below, now)).keys() =~= l.keys() + r.keys());
    // the balance
    lemma_plug_concat(ctx.push(turn), below, was);
    crate::descent::lemma_descend_step(ctx, turn, plug(below, was));
    assert(plug(below, was) == r) by {
        assert(plug(down, least) == plug(down.drop_last(), fill(down.last(), least)));
    }
    lemma_plug_balanced(ctx, sub);
    lemma_node(l, up, r);
    lemma_plug_exchange(ctx, sub, Shape::node(l, up, r));
}

/// A key of the subtree at the end of a descent is a key of the tree.
pub proof fn lemma_plug_contains(ctx: Seq<Frame>, sub: Shape, key: usize)
    requires
        sub.keys().contains(key),
    ensures
        plug(ctx, sub).keys().contains(key),
{
    broadcast use vstd::seq_lib::lemma_seq_concat_contains_all_elements;

    lemma_plug_keys(ctx, sub);
}

/// Takes out the node at the end of `place` by putting in its place the
/// least node of its right subtree, to which `least` leads from the node's
/// right child. The right child of the least node takes that node's former
/// place, the least node takes over both subtrees of the node that is taken
/// out, and the path from the root through the promoted node down to the
/// former place of the least node is rebalanced.
#[verifier::rlimit(80)]
pub fn promote_successor<B: NodeAccess, D: Ord>(
    store: &mut B,
    data: &Vec<D>,
    t: u64,
    place: Located,
    least: Located,
    Ghost(shape): Ghost<Shape>,
) -> (out: Shrunk)
    requires
        total_order::<D>(),
        old(store).wf(),
        t >= old(store).horizon(),
        shape.balanced(),
        ordered(data@, shape.keys()),
        located(*old(store), t, shape, place.path@, place.ctx@, place.sub@),
        located(*old(store), t, *place.sub@->right, least.path@, least.ctx@, least.sub@),
        all_left(least.ctx@),
        *least.sub@->left is Leaf,
        least.ctx@.len() > 0,
    ensures
        final(store).wf(),
        t >= final(store).horizon(),
        evolves(*old(store), *final(store), t, Set::full()),
        represents(*final(store), t, out.root, out.shape@),
        out.shape@ == rebuilt(
            place.ctx@,
            Shape::node(
                *place.sub@->left,
                least.sub@->key,
                rebuilt(least.ctx@, *least.sub@->right),
            ).rebalanced(),
        ),
        out.shape@.balanced(),
        ordered(data@, out.shape@.keys()),
        out.at@ == place_index(place.ctx@, place.sub@),
        out.shape@.keys() =~= shape.keys().remove(out.at@),
        final(store).node_count() <= old(store).node_count() + 2 + 6 * shape.height(),
{
    let ghost ctx = place.ctx@;
    let ghost sub = place.sub@;
    let ghost l = *sub->left;
    let ghost r = *sub->right;
    let ghost k = sub->key;
    let ghost down = least.ctx@;
    let ghost low = least.sub@;
    let ghost up = low->key;
    let ghost rest = *low->right;
    let ghost f = down.last();
    let ghost below = down.drop_last();
    let ghost turn = promoted(sub, up);
    let ghost route = promotion(ctx, sub, down, up);
    let ghost was = fill(f, low);
    let ghost deepest = fill(f, rest);
    let ghost at = place_index(ctx, sub);
    let ghost keys = shape.keys();
    let ghost touched = set![f.key, up];
    let mut path = place.path;
    let mut tail = least.path;
    let ghost whole = path@;
    let ghost lower = tail@;
    let last: usize = path.len() - 1;
    let node = path[last];
    let successor = tail.pop().unwrap();
    let hold: usize = tail.len() - 1;
    let above_it = tail[hold];
    proof {
        assert(sub == Shape::node(l, k, r));
        assert(low == Shape::node(Shape::Leaf, up, rest));
        assert(f.left_turn);
        assert(was == Shape::node(low, f.key, f.other));
        assert(deepest == Shape::node(rest, f.key, f.other));
        assert(plug(down, low) == plug(below, was));
        lemma_represents_node(*old(store), t, Some(node), l, k, r);
        lemma_represents_node(*old(store), t, Some(successor), Shape::Leaf, up, rest);
        assert(hangs(*old(store), t, lower[hold as int], down[hold as int]));
        lemma_node(l, k, r);
        lemma_node(Shape::Leaf, up, rest);
        lemma_node(low, f.key, f.other);
        lemma_node(rest, f.key, f.other);
        lemma_node_keys(l, k, r);
        lemma_node_keys(Shape::Leaf, up, rest);
        lemma_node_keys(low, f.key, f.other);
        lemma_place(ctx, sub);
        lemma_plug_balanced(ctx, sub);
        lemma_plug_height(ctx, sub);
        lemma_plug_height(below, was);
        lemma_plug_balanced(below, was);
        lemma_ordered_remove(data@, keys, at);
        lemma_ordered_distinct(data@, keys);
        lemma_node_distinct_under(ctx, l, k, r);
        lemma_node_distinct_under(below, low, f.key, f.other);
        lemma_node_distinct(Shape::Leaf, up, rest);
        lemma_plug_contains(below, was, f.key);
        lemma_plug_contains(below, was, up);
        lemma_promotion(ctx, sub, down, low);
        lemma_rebuild_step(f, low, rest);
    }
    let orphan = store.get_right(successor, t);
    let keep = store.get_right(above_it, t);
    let stale = store.get_height(above_it, t);
    let lowered = store.modify(above_it, t, orphan, keep, stale);
    let ghost first = *store;
    let left = store.get_left(node, t);
    let right = store.get_right(node, t);
    let aged = store.get_height(successor, t);
    let raised = store.modify(successor, t, left, right, aged);
    let ghost cut = *store;
    path[last] = raised;
    tail[hold] = lowered;
    let ghost upper = path@;
    let ghost tailed = tail@;
    path.append(&mut tail);
    proof {
        assert(evolves(*old(store), first, t, set![f.key]));
        assert(evolves(first, cut, t, set![up]));
        lemma_evolves_chain(*old(store), first, cut, t, set![f.key], set![up], touched);
        assert(route.len() == ctx.len() + 1 + below.len());
        assert(path@.len() == route.len() + 1);
        assert forall|j: int| 0 <= j < route.len() implies hangs(
            cut,
            t,
            #[trigger] path@[j],
            route[j],
        ) by {
            if j < ctx.len() {
                assert(path@[j] == whole[j]);
                assert(route[j] == ctx[j]);
                lemma_frames_apart(ctx, sub, j);
                assert(r.keys().contains(f.key) && r.keys().contains(up));
                assert(sub.keys().contains(f.key) && sub.keys().contains(up));
                assert(!ctx[j].other.keys().contains(f.key));
                assert(!ctx[j].other.keys().contains(up));
                lemma_hangs_evolves(*old(store), cut, t, touched, whole[j], ctx[j]);
            } else if j == ctx.len() {
                assert(path@[j] == raised);
                assert(route[j] == turn);
                lemma_represents_evolves(*old(store), cut, t, touched, t, left, l);
            } else {
                let i = j - ctx.len() - 1;
                assert(path@[j] == tailed[i]);
                assert(tailed[i] == lower[i]);
                assert(route[j] == below[i]);
                assert(below[i] == down[i]);
                lemma_frames_apart(below, was, i);
                assert(low.keys().contains(up));
                assert(was.keys().contains(f.key) && was.keys().contains(up));
                assert(!below[i].other.keys().contains(f.key));
                assert(!below[i].other.keys().contains(up));
                lemma_hangs_evolves(*old(store), cut, t, touched, lower[i], down[i]);
            }
        }
        assert(path@.last() == lowered);
        lemma_represents_evolves(*old(store), cut, t, touched, t, orphan, rest);
        lemma_represents_evolves(*old(store), cut, t, touched, t, keep, f.other);
        assert(links(cut, t, lowered, rest, f.other));
        assert(cut.datum_of(lowered) == f.key);
        assert(rebalance_ready(cut, data@, t, path@, route, rest, f.other, was));
        assert(path@.len() + 1 <= shape.height());
    }
    let new_root = balance(
        store,
        data,
        t,
        &path,
        Ghost(route),
        Ghost(rest),
        Ghost(f.other),
        Ghost(was),
    );
    proof {
        lemma_rebuilt(route, was, deepest.rebalanced());
        crate::shape::lemma_plug_same_keys(route, deepest.rebalanced(), deepest);
        lemma_plug_concat(ctx.push(turn), below, deepest.rebalanced());
        assert(ctx.push(turn).drop_last() =~= ctx);
        assert(ctx.push(turn).last() == turn);
        assert(rebuilt(down, rest) == rebuilt(below, deepest.rebalanced()));
        assert(fill(turn, rebuilt(down, rest)) == Shape::node(l, up, rebuilt(down, rest)));
        lemma_evolves_chain(
            *old(store),
            cut,
            *store,
            t,
            touched,
            plug(route, deepest).keys().to_set(),
            Set::full(),
        );
    }
    Shrunk { root: new_root, shape: Ghost(rebuilt(route, deepest.rebalanced())), at: Ghost(at) }
}

/// Takes a node whose datum is `item` out of the tree under `root`, if there
/// is one: the first that the descent by comparison meets. A node with at
/// most one child is replaced by that child. A node with two children is
/// replaced by the least node of its right subtree, whose right child takes
/// that node's former place. The path to the place of the change is then
/// rebalanced. Gives back the new root, or `None` where no node has the
/// datum, and then nothing has changed.
pub fn shrink<B: NodeAccess, D: Ord>(
    store: &mut B,
    data: &Vec<D>,
    t: u64,
    root: Option<usize>,
    item: &D,
    Ghost(shape): Ghost<Shape>,
) -> (out: Option<Shrunk>)
    requires
        total_order::<D>(),
        old(store).wf(),
        t >= old(store).horizon(),
        represents(*old(store), t, root, shape),
        shape.balanced(),
        ordered(data@, shape.keys()),
    ensures
        final(store).wf(),
        t >= final(store).horizon(),
        evolves(*old(store), *final(store), t, Set::full()),
        final(store).node_count() <= old(store).node_count() + 2 + 6 * shape.height(),
        match out {
            Some(shrunk) => {
                &&& 0 <= shrunk.at@ < shape.keys().len()
                &&& data@[shape.keys()[shrunk.at@] as int] == *item
                &&& represents(*final(store), t, shrunk.root, shrunk.shape@)
                &&& shrunk.shape@ == without(data@, shape, *item)
                &&& shrunk.shape@.balanced()
                &&& ordered(data@, shrunk.shape@.keys())
                &&& shrunk.shape@.keys() =~= shape.keys().remove(shrunk.at@)
            },
            None => {
                &&& *final(store) == *old(store)
                &&& forall|j: int|
                    0 <= j < shape.keys().len() ==> (#[trigger] values(data@, shape.keys())[j])
                        != *item
            },
        },
{
    let place = match find_node(&*store, data, t, root, item, Ghost(shape)) {
        Some(place) => place,
        None => {
            return None;
        },
    };
    let ghost sub = place.sub@;
    let node = place.path[place.path.len() - 1];
    proof {
        assert(sub == Shape::node(*sub->left, sub->key, *sub->right));
        lemma_represents_node(
            *store,
            t,
            Some(node),
            *sub->left,
            sub->key,
            *sub->right,
        );
        crate::node_access::lemma_represents_root(*store, t, store.left_at(node, t), *sub->left);
        crate::node_access::lemma_represents_root(*store, t, store.right_at(node, t), *sub->right);
        lemma_place(place.ctx@, sub);
        lemma_without_plug(data@, place.ctx@, sub, *item);
    }
    let left = store.get_left(node, t);
    let right = store.get_right(node, t);
    let shrunk = match (left, right) {
        (None, _) => splice_out(store, data, t, place, right, Ghost(shape)),
        (_, None) => splice_out(store, data, t, place, left, Ghost(shape)),
        (Some(_), Some(child)) => {
            let least = find_least(&*store, t, child, Ghost(*sub->right));
            proof {
                lemma_without_least_plug(least.ctx@, least.sub@);
            }
            if least.path.len() == 1 {
                proof {
                    assert(least.ctx@ =~= Seq::<Frame>::empty());
                }
                promote_child(store, data, t, place, Ghost(shape))
            } else {
                promote_successor(store, data, t, place, least, Ghost(shape))
            }
        },
    };
    Some(shrunk)
}

} // verus!
