//! Descents from the root of a version: to the place where a new datum
//! belongs, to the node that holds a datum, and to the least node of a
//! subtree.

use crate::kernel::hangs;
use crate::kernel::path_hangs;
use crate::keys::key_lt;
use crate::keys::lemma_key_lt_transitive;
use crate::keys::lemma_ordered_at;
use crate::keys::ordered;
use crate::keys::values;
use crate::model::turns_to_item;
use crate::model::turns_to_slot;
use crate::node_access::lemma_represents_node;
use crate::node_access::lemma_represents_root;
use crate::node_access::NodeAccess;
use crate::node_access::represents;
use crate::order::is_le;
use crate::order::is_lt;
use crate::order::is_same;
use crate::order::le;
use crate::order::lemma_lt_transitive;
use crate::order::lemma_trichotomy;
use crate::order::lt;
use crate::order::total_order;
use crate::shape::fill;
use crate::shape::Frame;
use crate::shape::keys_after;
use crate::shape::keys_before;
use crate::shape::lemma_node;
use crate::shape::lemma_plug_height;
use crate::shape::lemma_plug_keys;
use crate::shape::plug;
use crate::shape::Shape;
use vstd::prelude::*;

verus! {

/// The keys of the subtree at the end of a descent are the stretch of the
/// tree's keys that starts after the keys before it.
pub proof fn lemma_window(ctx: Seq<Frame>, sub: Shape)
    ensures
        keys_before(ctx).len() + sub.keys().len() + keys_after(ctx).len() == plug(
            ctx,
            sub,
        ).keys().len(),
        sub.keys() =~= plug(ctx, sub).keys().subrange(
            keys_before(ctx).len() as int,
            (keys_before(ctx).len() + sub.keys().len()) as int,
        ),
        keys_before(ctx) =~= plug(ctx, sub).keys().subrange(0, keys_before(ctx).len() as int),
        keys_after(ctx) =~= plug(ctx, sub).keys().subrange(
            (keys_before(ctx).len() + sub.keys().len()) as int,
            plug(ctx, sub).keys().len() as int,
        ),
{
    lemma_plug_keys(ctx, sub);
}

/// A descent that is taken one step further leads to the same tree.
pub proof fn lemma_descend_step(ctx: Seq<Frame>, frame: Frame, sub: Shape)
    ensures
        plug(ctx.push(frame), sub) == plug(ctx, fill(frame, sub)),
        keys_before(ctx.push(frame)) =~= if frame.left_turn {
            keys_before(ctx)
        } else {
            keys_before(ctx) + frame.other.keys().push(frame.key)
        },
        keys_after(ctx.push(frame)) =~= if frame.left_turn {
            seq![frame.key] + frame.other.keys() + keys_after(ctx)
        } else {
            keys_after(ctx)
        },
{
    assert(ctx.push(frame).drop_last() =~= ctx);
    assert(ctx.push(frame).last() == frame);
}

/// The place in the order of keys where `fresh` belongs: after the keys
/// before the end of the descent, and after those of the subtree too where
/// the descent ended on the right.
pub open spec fn slot(ctx: Seq<Frame>, sub: Shape, left: bool) -> int {
    if left {
        keys_before(ctx).len() as int
    } else {
        (keys_before(ctx).len() + sub.keys().len()) as int
    }
}

/// What the descent for a new key has found.
pub struct Landing {
    /// The handles from the root to the node that gets the new child.
    pub path: Vec<usize>,
    /// Whether the new child goes on the left of that node.
    pub left: bool,
    /// The frames of the nodes above that node.
    pub ctx: Ghost<Seq<Frame>>,
    /// The tree below that node, the node included.
    pub sub: Ghost<Shape>,
}

/// Descends from `root` to the node under which the key `fresh` belongs: at
/// each node to the left where the datum of `fresh` is at most the node's,
/// to the right otherwise, until there is no child on that side.
pub fn find_slot<B: NodeAccess, D: Ord>(
    store: &B,
    data: &Vec<D>,
    t: u64,
    root: usize,
    fresh: usize,
    Ghost(shape): Ghost<Shape>,
) -> (found: Landing)
    requires
        total_order::<D>(),
        store.wf(),
        represents(*store, t, Some(root), shape),
        ordered(data@, shape.keys()),
        fresh < data@.len(),
        forall|j: int| 0 <= j < shape.keys().len() ==> (#[trigger] shape.keys()[j]) < fresh,
    ensures
        found.path@.len() == found.ctx@.len() + 1,
        found.path@.len() <= shape.height(),
        path_hangs(*store, t, found.path@, found.ctx@, found.ctx@.len() as int),
        represents(*store, t, Some(found.path@.last()), found.sub@),
        found.sub@ is Node,
        plug(found.ctx@, found.sub@) == shape,
        found.left ==> *found.sub@->left is Leaf,
        !found.left ==> *found.sub@->right is Leaf,
        turns_to_slot(data@, found.ctx@, fresh),
        found.left == le(data@[fresh as int], data@[found.sub@->key as int]),
        0 <= slot(found.ctx@, found.sub@, found.left) <= shape.keys().len(),
        forall|j: int|
            0 <= j < slot(found.ctx@, found.sub@, found.left) ==> key_lt(
                data@,
                #[trigger] shape.keys()[j],
                fresh,
            ),
        forall|j: int|
            slot(found.ctx@, found.sub@, found.left) <= j < shape.keys().len() ==> key_lt(
                data@,
                fresh,
                #[trigger] shape.keys()[j],
            ),
{
    let mut path: Vec<usize> = Vec::new();
    path.push(root);
    let mut cur = root;
    let mut left = false;
    let mut done = false;
    let ghost keys = shape.keys();
    let ghost mut ctx: Seq<Frame> = Seq::empty();
    let ghost mut sub = shape;
    proof {
        lemma_represents_root(*store, t, Some(root), shape);
    }
    while !done
        invariant
            total_order::<D>(),
            store.wf(),
            keys == shape.keys(),
            ordered(data@, keys),
            fresh < data@.len(),
            forall|j: int| 0 <= j < keys.len() ==> (#[trigger] keys[j]) < fresh,
            path@.len() == ctx.len() + 1,
            cur == path@.last(),
            path_hangs(*store, t, path@, ctx, ctx.len() as int),
            represents(*store, t, Some(cur), sub),
            sub is Node,
            plug(ctx, sub) == shape,
            forall|j: int| 0 <= j < keys_before(ctx).len() ==> key_lt(data@, #[trigger] keys[j], fresh),
            forall|j: int|
                keys_before(ctx).len() + sub.keys().len() <= j < keys.len() ==> key_lt(
                    data@,
                    fresh,
                    #[trigger] keys[j],
                ),
            done && left ==> *sub->left is Leaf && key_lt(data@, fresh, sub->key),
            done && !left ==> *sub->right is Leaf && key_lt(data@, sub->key, fresh),
            done ==> left == le(data@[fresh as int], data@[sub->key as int]),
            turns_to_slot(data@, ctx, fresh),
        decreases
                sub.height() + (if done {
                    0nat
                } else {
                    1nat
                }),
    {
        let ghost l = *sub->left;
        let ghost r = *sub->right;
        let ghost k = sub->key;
        let ghost lo = keys_before(ctx).len() as int;
        let ghost p = lo + l.keys().len();
        proof {
            assert(sub == Shape::node(l, k, r));
            lemma_represents_node(*store, t, Some(cur), l, k, r);
            lemma_node(l, k, r);
            lemma_window(ctx, sub);
            assert(sub.keys()[l.keys().len() as int] == k);
            assert(keys[p] == k);
            lemma_represents_root(*store, t, store.left_at(cur, t), l);
            lemma_represents_root(*store, t, store.right_at(cur, t), r);
        }
        let key = store.get_datum(cur);
        left = is_le(&data[fresh], &data[key]);
        proof {
            lemma_trichotomy(data@[fresh as int], data@[key as int]);
        }
        let next = if left {
            store.get_left(cur, t)
        } else {
            store.get_right(cur, t)
        };
        match next {
            None => {
                done = true;
            },
            Some(child) => {
                proof {
                    let frame = Frame {
                        key: k,
                        other: if left {
                            r
                        } else {
                            l
                        },
                        left_turn: left,
                    };
                    let below = if left {
                        l
                    } else {
                        r
                    };
                    lemma_descend_step(ctx, frame, below);
                    assert(fill(frame, below) == sub);
                    assert(hangs(*store, t, cur, frame));
                    if left {
                        assert forall|j: int| p <= j < keys.len() implies key_lt(
                            data@,
                            fresh,
                            #[trigger] keys[j],
                        ) by {
                            if j > p {
                                lemma_key_lt_transitive(data@, fresh, keys[p], keys[j]);
                            }
                        }
                    } else {
                        assert forall|j: int| 0 <= j < p + 1 implies key_lt(
                            data@,
                            #[trigger] keys[j],
                            fresh,
                        ) by {
                            if j < p {
                                lemma_key_lt_transitive(data@, keys[j], keys[p], fresh);
                            }
                        }
                        assert(keys_before(ctx.push(frame)).len() == p + 1);
                    }
                    assert forall|j: int| 0 <= j < ctx.push(frame).len() implies hangs(
                        *store,
                        t,
                        #[trigger] path@.push(child)[j],
                        ctx.push(frame)[j],
                    ) by {
                        if j < ctx.len() {
                            assert(path@.push(child)[j] == path@[j]);
                        }
                    }
                    assert(turns_to_slot(data@, ctx.push(frame), fresh)) by {
                        assert forall|j: int| 0 <= j < ctx.push(frame).len() implies (
                        #[trigger] ctx.push(frame)[j]).left_turn == le(
                            data@[fresh as int],
                            data@[ctx.push(frame)[j].key as int],
                        ) by {
                            if j < ctx.len() {
                                assert(ctx.push(frame)[j] == ctx[j]);
                            }
                        }
                    }
                    ctx = ctx.push(frame);
                    sub = below;
                }
                path.push(child);
                cur = child;
            },
        }
    }
    proof {
        let l = *sub->left;
        let r = *sub->right;
        let k = sub->key;
        let lo = keys_before(ctx).len() as int;
        let p = lo + l.keys().len();
        assert(sub == Shape::node(l, k, r));
        lemma_node(l, k, r);
        lemma_plug_height(ctx, sub);
        lemma_window(ctx, sub);
        assert(sub.keys()[l.keys().len() as int] == k);
        assert(keys[p] == k);
        if left {
            assert forall|j: int| lo <= j < keys.len() implies key_lt(
                data@,
                fresh,
                #[trigger] keys[j],
            ) by {
                if j > p {
                    lemma_key_lt_transitive(data@, fresh, keys[p], keys[j]);
                }
            }
        } else {
            assert forall|j: int| 0 <= j < lo + sub.keys().len() implies key_lt(
                data@,
                #[trigger] keys[j],
                fresh,
            ) by {
                if j < p {
                    lemma_key_lt_transitive(data@, keys[j], keys[p], fresh);
                }
            }
        }
    }
    Landing { path, left, ctx: Ghost(ctx), sub: Ghost(sub) }
}

/// `path` leads from the root of `shape` to a node, `ctx` holds the frames
/// of the nodes above that node, and `sub` is the tree below it, the node
/// included.
pub open spec fn located<B: NodeAccess>(
    store: B,
    t: u64,
    shape: Shape,
    path: Seq<usize>,
    ctx: Seq<Frame>,
    sub: Shape,
) -> bool {
    &&& path.len() == ctx.len() + 1
    &&& path_hangs(store, t, path, ctx, ctx.len() as int)
    &&& represents(store, t, Some(path.last()), sub)
    &&& sub is Node
    &&& plug(ctx, sub) == shape
}

/// The end of a descent to a node.
pub struct Located {
    /// The handles from the root to the node.
    pub path: Vec<usize>,
    /// Whether the node is the left child of the node above it.
    pub left: bool,
    /// The frames of the nodes above the node.
    pub ctx: Ghost<Seq<Frame>>,
    /// The tree below the node, the node included.
    pub sub: Ghost<Shape>,
}

/// In an ordered sequence, a datum that lies strictly between the data
/// before a place and the data from that place on is not in the sequence.
pub proof fn lemma_absent<D: Ord>(data: Seq<D>, keys: Seq<usize>, at: int, item: D)
    requires
        total_order::<D>(),
        0 <= at <= keys.len(),
        forall|j: int| 0 <= j < at ==> lt(data[(#[trigger] keys[j]) as int], item),
        forall|j: int| at <= j < keys.len() ==> lt(item, data[(#[trigger] keys[j]) as int]),
    ensures
        forall|j: int| 0 <= j < keys.len() ==> (#[trigger] values(data, keys)[j]) != item,
{
    assert forall|j: int| 0 <= j < keys.len() implies (#[trigger] values(data, keys)[j])
        != item by {
        lemma_trichotomy(data[keys[j] as int], item);
    }
}

/// Descends from `root` to a node whose datum is `item`: at each node whose
/// datum is another, to the right where that datum is smaller than `item`,
/// to the left otherwise. Gives back `None` where the descent ends without
/// such a node, which is exactly where `item` is not in the tree.
pub fn find_node<B: NodeAccess, D: Ord>(
    store: &B,
    data: &Vec<D>,
    t: u64,
    root: Option<usize>,
    item: &D,
    Ghost(shape): Ghost<Shape>,
) -> (found: Option<Located>)
    requires
        total_order::<D>(),
        store.wf(),
        represents(*store, t, root, shape),
        ordered(data@, shape.keys()),
    ensures
        match found {
            Some(place) => {
                &&& located(*store, t, shape, place.path@, place.ctx@, place.sub@)
                &&& place.path@.len() <= shape.height()
                &&& data@[place.sub@->key as int] == *item
                &&& place.ctx@.len() > 0 ==> place.left == place.ctx@.last().left_turn
                &&& turns_to_item(data@, place.ctx@, *item)
            },
            None => forall|j: int|
                0 <= j < shape.keys().len() ==> (#[trigger] values(data@, shape.keys())[j]) != *item,
        },
{
    let ghost keys = shape.keys();
    proof {
        lemma_represents_root(*store, t, root, shape);
    }
    let mut cur = match root {
        Some(top) => top,
        None => {
            return None;
        },
    };
    let mut path: Vec<usize> = Vec::new();
    path.push(cur);
    let mut left = false;
    let mut done = false;
    let mut hit = false;
    let ghost mut ctx: Seq<Frame> = Seq::empty();
    let ghost mut sub = shape;
    while !done
        invariant
            total_order::<D>(),
            store.wf(),
            keys == shape.keys(),
            ordered(data@, keys),
            cur == path@.last(),
            located(*store, t, shape, path@, ctx, sub),
            forall|j: int|
                0 <= j < keys_before(ctx).len() ==> lt(data@[(#[trigger] keys[j]) as int], *item),
            forall|j: int|
                keys_before(ctx).len() + sub.keys().len() <= j < keys.len() ==> lt(
                    *item,
                    data@[(#[trigger] keys[j]) as int],
                ),
            ctx.len() > 0 ==> left == ctx.last().left_turn,
            turns_to_item(data@, ctx, *item),
            hit ==> done && data@[sub->key as int] == *item,
            done && !hit ==> forall|j: int|
                0 <= j < keys.len() ==> (#[trigger] values(data@, keys)[j]) != *item,
        decreases
                sub.height() + (if done {
                    0nat
                } else {
                    1nat
                }),
    {
        let ghost l = *sub->left;
        let ghost r = *sub->right;
        let ghost k = sub->key;
        let ghost lo = keys_before(ctx).len() as int;
        let ghost p = lo + l.keys().len();
        proof {
            assert(sub == Shape::node(l, k, r));
            lemma_represents_node(*store, t, Some(cur), l, k, r);
            lemma_node(l, k, r);
            lemma_window(ctx, sub);
            assert(sub.keys()[l.keys().len() as int] == k);
            assert(keys[p] == k);
            lemma_represents_root(*store, t, store.left_at(cur, t), l);
            lemma_represents_root(*store, t, store.right_at(cur, t), r);
        }
        let key = store.get_datum(cur);
        if is_same(&data[key], item) {
            hit = true;
            done = true;
        } else {
            let smaller = is_lt(&data[key], item);
            proof {
                lemma_trichotomy(data@[key as int], *item);
                if smaller {
                    assert forall|j: int| 0 <= j < p + 1 implies lt(
                        data@[(#[trigger] keys[j]) as int],
                        *item,
                    ) by {
                        lemma_ordered_at(data@, keys, j, p);
                        if lt(data@[keys[j] as int], data@[keys[p] as int]) {
                            lemma_lt_transitive(data@[keys[j] as int], data@[keys[p] as int], *item);
                        }
                    }
                } else {
                    assert forall|j: int| p <= j < keys.len() implies lt(
                        *item,
                        data@[(#[trigger] keys[j]) as int],
                    ) by {
                        lemma_ordered_at(data@, keys, p, j);
                        if lt(data@[keys[p] as int], data@[keys[j] as int]) {
                            lemma_lt_transitive(*item, data@[keys[p] as int], data@[keys[j] as int]);
                        }
                    }
                }
            }
            let next = if smaller {
                store.get_right(cur, t)
            } else {
                store.get_left(cur, t)
            };
            match next {
                None => {
                    proof {
                        lemma_absent(
                            data@,
                            keys,
                            if smaller {
                                p + 1
                            } else {
                                p
                            },
                            *item,
                        );
                    }
                    done = true;
                },
                Some(child) => {
                    proof {
                        let frame = Frame {
                            key: k,
                            other: if smaller {
                                l
                            } else {
                                r
                            },
                            left_turn: !smaller,
                        };
                        let below = if smaller {
                            r
                        } else {
                            l
                        };
                        lemma_descend_step(ctx, frame, below);
                        assert(fill(frame, below) == sub);
                        assert(hangs(*store, t, cur, frame));
                        if smaller {
                            assert(keys_before(ctx.push(frame)).len() == p + 1);
                        }
                        assert forall|j: int| 0 <= j < ctx.push(frame).len() implies hangs(
                            *store,
                            t,
                            #[trigger] path@.push(child)[j],
                            ctx.push(frame)[j],
                        ) by {
                            if j < ctx.len() {
                                assert(path@.push(child)[j] == path@[j]);
                            }
                        }
                        assert(turns_to_item(data@, ctx.push(frame), *item)) by {
                            assert forall|j: int| 0 <= j < ctx.push(frame).len() implies data@[(
                            #[trigger] ctx.push(frame)[j]).key as int] != *item && ctx.push(
                                frame,
                            )[j].left_turn == !lt(data@[ctx.push(frame)[j].key as int], *item) by {
                                if j < ctx.len() {
                                    assert(ctx.push(frame)[j] == ctx[j]);
                                }
                            }
                        }
                        ctx = ctx.push(frame);
                        sub = below;
                    }
                    left = !smaller;
                    path.push(child);
                    cur = child;
                },
            }
        }
    }
    if hit {
        proof {
            lemma_plug_height(ctx, sub);
        }
        Some(Located { path, left, ctx: Ghost(ctx), sub: Ghost(sub) })
    } else {
        None
    }
}

/// Every frame of `ctx` is a turn to the left.
pub open spec fn all_left(ctx: Seq<Frame>) -> bool {
    forall|j: int| 0 <= j < ctx.len() ==> (#[trigger] ctx[j]).left_turn
}

/// No key comes before the end of a descent that only turns left.
pub proof fn lemma_all_left(ctx: Seq<Frame>)
    requires
        all_left(ctx),
    ensures
        keys_before(ctx) =~= Seq::<usize>::empty(),
    decreases ctx.len(),
{
    if ctx.len() > 0 {
        assert(ctx.last().left_turn);
        lemma_all_left(ctx.drop_last());
    }
}

/// Descends from `top` to the left until there is no left child: to the
/// node with the least key of the tree below `top`.
pub fn find_least<B: NodeAccess>(store: &B, t: u64, top: usize, Ghost(shape): Ghost<Shape>) -> (found:
    Located)
    requires
        store.wf(),
        represents(*store, t, Some(top), shape),
    ensures
        located(*store, t, shape, found.path@, found.ctx@, found.sub@),
        found.path@.len() <= shape.height(),
        all_left(found.ctx@),
        *found.sub@->left is Leaf,
        found.left,
{
    let mut path: Vec<usize> = Vec::new();
    path.push(top);
    let mut cur = top;
    let mut done = false;
    let ghost mut ctx: Seq<Frame> = Seq::empty();
    let ghost mut sub = shape;
    proof {
        lemma_represents_root(*store, t, Some(top), shape);
    }
    while !done
        invariant
            store.wf(),
            cur == path@.last(),
            located(*store, t, shape, path@, ctx, sub),
            all_left(ctx),
            done ==> *sub->left is Leaf,
        decreases
                sub.height() + (if done {
                    0nat
                } else {
                    1nat
                }),
    {
        let ghost l = *sub->left;
        let ghost r = *sub->right;
        let ghost k = sub->key;
        proof {
            assert(sub == Shape::node(l, k, r));
            lemma_represents_node(*store, t, Some(cur), l, k, r);
            lemma_node(l, k, r);
            lemma_represents_root(*store, t, store.left_at(cur, t), l);
        }
        match store.get_left(cur, t) {
            None => {
                done = true;
            },
            Some(child) => {
                proof {
                    let frame = Frame { key: k, other: r, left_turn: true };
                    lemma_descend_step(ctx, frame, l);
                    assert(fill(frame, l) == sub);
                    assert(hangs(*store, t, cur, frame));
                    assert forall|j: int| 0 <= j < ctx.push(frame).len() implies hangs(
                        *store,
                        t,
                        #[trigger] path@.push(child)[j],
                        ctx.push(frame)[j],
                    ) by {
                        if j < ctx.len() {
                            assert(path@.push(child)[j] == path@[j]);
                        }
                    }
                    ctx = ctx.push(frame);
                    sub = l;
                }
                path.push(child);
                cur = child;
            },
        }
    }
    proof {
        lemma_plug_height(ctx, sub);
    }
    Located { path, left: true, ctx: Ghost(ctx), sub: Ghost(sub) }
}

} // verus!
