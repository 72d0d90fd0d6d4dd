//! Insertion into and deletion from a balanced tree, as functions on the
//! mathematical tree: what the persistent tree does to its latest version.

use crate::order::le;
use crate::order::lt;
use crate::shape::fill;
use crate::shape::Frame;
use crate::shape::lemma_plug_concat;
use crate::shape::plug;
use crate::shape::rebuilt;
use crate::shape::Shape;
use vstd::prelude::*;

verus! {

/// The tree with a node for the key `fresh` added: at the place to which the
/// descent leads that goes left where the datum of `fresh` is at most the
/// node's and right otherwise, with every node on the way rebalanced.
pub open spec fn with_key<D: Ord>(data: Seq<D>, shape: Shape, fresh: usize) -> Shape
    decreases shape,
{
    match shape {
        Shape::Leaf => Shape::node(Shape::Leaf, fresh, Shape::Leaf),
        Shape::Node { left, key, right } => if le(data[fresh as int], data[key as int]) {
            Shape::node(with_key(data, *left, fresh), key, *right).rebalanced()
        } else {
            Shape::node(*left, key, with_key(data, *right, fresh)).rebalanced()
        },
    }
}

/// The least key of a tree, the one that comes first in in-order.
pub open spec fn least_key(shape: Shape) -> usize
    decreases shape,
{
    match shape {
        Shape::Leaf => 0,
        Shape::Node { left, key, right } => if *left is Leaf {
            key
        } else {
            least_key(*left)
        },
    }
}

/// The tree without the node of its least key: the right child of that node
/// takes its place, and every node on the way to it is rebalanced.
pub open spec fn without_least(shape: Shape) -> Shape
    decreases shape,
{
    match shape {
        Shape::Leaf => Shape::Leaf,
        Shape::Node { left, key, right } => if *left is Leaf {
            *right
        } else {
            Shape::node(without_least(*left), key, *right).rebalanced()
        },
    }
}

/// The tree without the first node with the datum `item` that is met on the
/// descent that goes right where the node's datum is smaller than `item`
/// and left where it is greater. A node with at most one child is replaced
/// by that child, a node with two children by the least node of its right
/// subtree. Every node on the way to the place of the change is rebalanced.
/// Where no node is met, the tree is rebuilt as it was.
pub open spec fn without<D: Ord>(data: Seq<D>, shape: Shape, item: D) -> Shape
    decreases shape,
{
    match shape {
        Shape::Leaf => Shape::Leaf,
        Shape::Node { left, key, right } => if data[key as int] == item {
            if *left is Leaf {
                *right
            } else if *right is Leaf {
                *left
            } else {
                Shape::node(*left, least_key(*right), without_least(*right)).rebalanced()
            }
        } else if lt(data[key as int], item) {
            Shape::node(*left, key, without(data, *right, item)).rebalanced()
        } else {
            Shape::node(without(data, *left, item), key, *right).rebalanced()
        },
    }
}

/// Every turn of the descent is the one that the insertion of `fresh` takes.
pub open spec fn turns_to_slot<D: Ord>(data: Seq<D>, ctx: Seq<Frame>, fresh: usize) -> bool {
    forall|j: int|
        0 <= j < ctx.len() ==> (#[trigger] ctx[j]).left_turn == le(
            data[fresh as int],
            data[ctx[j].key as int],
        )
}

/// Every turn of the descent is the one that the search for `item` takes,
/// and no node on the way has the datum `item`.
pub open spec fn turns_to_item<D: Ord>(data: Seq<D>, ctx: Seq<Frame>, item: D) -> bool {
    forall|j: int|
        0 <= j < ctx.len() ==> data[(#[trigger] ctx[j]).key as int] != item && ctx[j].left_turn
            == !lt(data[ctx[j].key as int], item)
}

/// A descent is its first frame and the rest.
pub proof fn lemma_first_frame(ctx: Seq<Frame>, sub: Shape)
    requires
        ctx.len() > 0,
    ensures
        plug(ctx, sub) == fill(ctx[0], plug(ctx.subrange(1, ctx.len() as int), sub)),
        rebuilt(ctx, sub) == fill(
            ctx[0],
            rebuilt(ctx.subrange(1, ctx.len() as int), sub),
        ).rebalanced(),
{
    let first = seq![ctx[0]];
    let rest = ctx.subrange(1, ctx.len() as int);
    assert(ctx =~= first + rest);
    lemma_plug_concat(first, rest, sub);
    assert(first.drop_last() =~= Seq::<Frame>::empty());
    assert(first.last() == ctx[0]);
    assert(plug(first, plug(rest, sub)) == plug(first.drop_last(), fill(ctx[0], plug(rest, sub))));
    assert(rebuilt(first, rebuilt(rest, sub)) == rebuilt(
        first.drop_last(),
        fill(ctx[0], rebuilt(rest, sub)).rebalanced(),
    ));
}

/// Adding a key to a tree is adding it to the subtree at the end of the
/// descent that the insertion takes, and rebuilding the descent.
pub proof fn lemma_with_key_plug<D: Ord>(data: Seq<D>, ctx: Seq<Frame>, sub: Shape, fresh: usize)
    requires
        turns_to_slot(data, ctx, fresh),
    ensures
        with_key(data, plug(ctx, sub), fresh) == rebuilt(ctx, with_key(data, sub, fresh)),
    decreases ctx.len(),
{
    if ctx.len() > 0 {
        let rest = ctx.subrange(1, ctx.len() as int);
        lemma_first_frame(ctx, sub);
        lemma_first_frame(ctx, with_key(data, sub, fresh));
        assert forall|j: int| 0 <= j < rest.len() implies (#[trigger] rest[j]).left_turn == le(
            data[fresh as int],
            data[rest[j].key as int],
        ) by {
            assert(rest[j] == ctx[j + 1]);
        }
        lemma_with_key_plug(data, rest, sub, fresh);
    }
}

/// Taking a datum out of a tree is taking it out of the subtree at the end
/// of the descent that the search for it takes, and rebuilding the descent.
pub proof fn lemma_without_plug<D: Ord>(data: Seq<D>, ctx: Seq<Frame>, sub: Shape, item: D)
    requires
        turns_to_item(data, ctx, item),
    ensures
        without(data, plug(ctx, sub), item) == rebuilt(ctx, without(data, sub, item)),
    decreases ctx.len(),
{
    if ctx.len() > 0 {
        let rest = ctx.subrange(1, ctx.len() as int);
        lemma_first_frame(ctx, sub);
        lemma_first_frame(ctx, without(data, sub, item));
        assert forall|j: int| 0 <= j < rest.len() implies data[(#[trigger] rest[j]).key as int]
            != item && rest[j].left_turn == !lt(data[rest[j].key as int], item) by {
            assert(rest[j] == ctx[j + 1]);
        }
        lemma_without_plug(data, rest, sub, item);
    }
}

/// Where a descent only turns left and ends at a node without a left child,
/// that node has the least key of the tree, and the tree without it is the
/// descent rebuilt over the node's right subtree.
pub proof fn lemma_without_least_plug(ctx: Seq<Frame>, sub: Shape)
    requires
        forall|j: int| 0 <= j < ctx.len() ==> (#[trigger] ctx[j]).left_turn,
        sub is Node,
        *sub->left is Leaf,
    ensures
        plug(ctx, sub) is Node,
        least_key(plug(ctx, sub)) == sub->key,
        without_least(plug(ctx, sub)) == rebuilt(ctx, *sub->right),
    decreases ctx.len(),
{
    if ctx.len() > 0 {
        let rest = ctx.subrange(1, ctx.len() as int);
        lemma_first_frame(ctx, sub);
        lemma_first_frame(ctx, *sub->right);
        assert forall|j: int| 0 <= j < rest.len() implies (#[trigger] rest[j]).left_turn by {
            assert(rest[j] == ctx[j + 1]);
        }
        lemma_without_least_plug(rest, sub);
    }
}

} // verus!
