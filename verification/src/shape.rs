//! The mathematical tree that a version of the persistent tree stands for,
//! and the effect of rotations and rebalancing on it.

use vstd::prelude::*;

verus! {

/// A binary tree whose nodes carry the index of a datum.
pub enum Shape {
    Leaf,
    Node { left: Box<Shape>, key: usize, right: Box<Shape> },
}

/// One step of a descent: the node that was passed, whether the descent went
/// on into its left child, and the subtree on the other side.
pub struct Frame {
    pub key: usize,
    pub other: Shape,
    pub left_turn: bool,
}

pub open spec fn larger(a: nat, b: nat) -> nat {
    if a >= b {
        a
    } else {
        b
    }
}

impl Shape {
    /// The tree with root key `key` over the subtrees `left` and `right`.
    pub open spec fn node(left: Shape, key: usize, right: Shape) -> Shape {
        Shape::Node { left: Box::new(left), key, right: Box::new(right) }
    }

    /// Number of nodes on the longest path from the root down; 0 for a leaf.
    pub open spec fn height(self) -> nat
        decreases self,
    {
        match self {
            Shape::Leaf => 0,
            Shape::Node { left, key, right } => 1 + larger(left.height(), right.height()),
        }
    }

    /// The keys in in-order: left subtree, root, right subtree.
    pub open spec fn keys(self) -> Seq<usize>
        decreases self,
    {
        match self {
            Shape::Leaf => Seq::empty(),
            Shape::Node { left, key, right } => left.keys().push(key) + right.keys(),
        }
    }

    /// Height of the right subtree minus height of the left subtree.
    pub open spec fn skew(self) -> int {
        match self {
            Shape::Leaf => 0,
            Shape::Node { left, key, right } => right.height() - left.height(),
        }
    }

    /// At every node the heights of the two subtrees differ by at most one.
    pub open spec fn balanced(self) -> bool
        decreases self,
    {
        match self {
            Shape::Leaf => true,
            Shape::Node { left, key, right } => {
                &&& left.balanced()
                &&& right.balanced()
                &&& -1 <= right.height() - left.height() <= 1
            },
        }
    }

    /// The tree is a node, and both of its subtrees are balanced.
    pub open spec fn subtrees_balanced(self) -> bool {
        match self {
            Shape::Leaf => false,
            Shape::Node { left, key, right } => left.balanced() && right.balanced(),
        }
    }

    /// The right child becomes the root, the root its left child, and the
    /// right child's former left subtree the old root's right subtree.
    pub open spec fn rotated_left(self) -> Shape {
        match self {
            Shape::Node { left, key, right } => match *right {
                Shape::Node { left: mid, key: up, right: far } => Shape::node(
                    Shape::node(*left, key, *mid),
                    up,
                    *far,
                ),
                Shape::Leaf => self,
            },
            Shape::Leaf => self,
        }
    }

    /// Mirror image of `rotated_left`.
    pub open spec fn rotated_right(self) -> Shape {
        match self {
            Shape::Node { left, key, right } => match *left {
                Shape::Node { left: far, key: up, right: mid } => Shape::node(
                    *far,
                    up,
                    Shape::node(*mid, key, *right),
                ),
                Shape::Leaf => self,
            },
            Shape::Leaf => self,
        }
    }

    /// The tree after its root has been rebalanced: one or two rotations where
    /// the subtrees' heights differ by two or more, the tree itself otherwise.
    pub open spec fn rebalanced(self) -> Shape {
        match self {
            Shape::Leaf => self,
            Shape::Node { left, key, right } => if self.skew() <= -2 {
                let low = if left.skew() >= 1 {
                    left.rotated_left()
                } else {
                    *left
                };
                Shape::node(low, key, *right).rotated_right()
            } else if self.skew() >= 2 {
                let low = if right.skew() <= -1 {
                    right.rotated_right()
                } else {
                    *right
                };
                Shape::node(*left, key, low).rotated_left()
            } else {
                self
            },
        }
    }
}

/// The subtree that `frame` stood above, put back under the frame's node.
pub open spec fn fill(frame: Frame, sub: Shape) -> Shape {
    if frame.left_turn {
        Shape::node(sub, frame.key, frame.other)
    } else {
        Shape::node(frame.other, frame.key, sub)
    }
}

/// The tree that has `sub` at the end of the descent `ctx` (root first).
pub open spec fn plug(ctx: Seq<Frame>, sub: Shape) -> Shape
    decreases ctx.len(),
{
    if ctx.len() == 0 {
        sub
    } else {
        plug(ctx.drop_last(), fill(ctx.last(), sub))
    }
}

/// As `plug`, with every node of the descent rebalanced on the way up.
pub open spec fn rebuilt(ctx: Seq<Frame>, sub: Shape) -> Shape
    decreases ctx.len(),
{
    if ctx.len() == 0 {
        sub
    } else {
        rebuilt(ctx.drop_last(), fill(ctx.last(), sub).rebalanced())
    }
}

/// The keys that come before the subtree at the end of the descent.
pub open spec fn keys_before(ctx: Seq<Frame>) -> Seq<usize>
    decreases ctx.len(),
{
    if ctx.len() == 0 {
        Seq::empty()
    } else if ctx.last().left_turn {
        keys_before(ctx.drop_last())
    } else {
        keys_before(ctx.drop_last()) + ctx.last().other.keys().push(ctx.last().key)
    }
}

/// The keys that come after the subtree at the end of the descent.
pub open spec fn keys_after(ctx: Seq<Frame>) -> Seq<usize>
    decreases ctx.len(),
{
    if ctx.len() == 0 {
        Seq::empty()
    } else if ctx.last().left_turn {
        seq![ctx.last().key] + ctx.last().other.keys() + keys_after(ctx.drop_last())
    } else {
        keys_after(ctx.drop_last())
    }
}

/// A tree has at least as many keys as it is high.
pub proof fn lemma_height_le_size(s: Shape)
    ensures
        s.height() <= s.keys().len(),
    decreases s,
{
    match s {
        Shape::Leaf => {},
        Shape::Node { left, key, right } => {
            lemma_height_le_size(*left);
            lemma_height_le_size(*right);
        },
    }
}

/// Rotations keep the in-order sequence of keys.
pub proof fn lemma_rotation_keys(s: Shape)
    ensures
        s.rotated_left().keys() =~= s.keys(),
        s.rotated_right().keys() =~= s.keys(),
{
    match s {
        Shape::Leaf => {},
        Shape::Node { left, key, right } => {
            match *right {
                Shape::Node { left: mid, key: up, right: far } => {
                    assert(Shape::node(*left, key, *mid).keys() =~= left.keys().push(key)
                        + mid.keys());
                    assert(s.rotated_left().keys() =~= (left.keys().push(key) + mid.keys()).push(
                        up,
                    ) + far.keys());
                    assert(right.keys() =~= mid.keys().push(up) + far.keys());
                },
                Shape::Leaf => {},
            }
            match *left {
                Shape::Node { left: far, key: up, right: mid } => {
                    assert(Shape::node(*mid, key, *right).keys() =~= mid.keys().push(key)
                        + right.keys());
                    assert(s.rotated_right().keys() =~= far.keys().push(up) + (mid.keys().push(
                        key,
                    ) + right.keys()));
                    assert(left.keys() =~= far.keys().push(up) + mid.keys());
                },
                Shape::Leaf => {},
            }
        },
    }
}

/// A tree built from two balanced subtrees whose heights differ by at most
/// one is balanced, and its height is one more than the larger of theirs.
pub proof fn lemma_node(left: Shape, key: usize, right: Shape)
    ensures
        Shape::node(left, key, right).height() == 1 + larger(left.height(), right.height()),
        Shape::node(left, key, right).skew() == right.height() - left.height(),
        Shape::node(left, key, right).balanced() == (left.balanced() && right.balanced() && -1
            <= right.height() - left.height() <= 1),
        Shape::node(left, key, right).keys() == left.keys().push(key) + right.keys(),
{
}

proof fn lemma_rebalanced_left_heavy(s: Shape)
    requires
        s.subtrees_balanced(),
        s.skew() == -2,
    ensures
        s.rebalanced().balanced(),
        s.rebalanced().height() <= s.height(),
        s.height() <= s.rebalanced().height() + 1,
        s.rebalanced() is Node,
{
    let (left, key, right) = (s->left, s->key, s->right);
    let (far, up, mid) = (left->left, left->key, left->right);
    assert(*left == Shape::node(*far, up, *mid));
    lemma_node(*far, up, *mid);
    if left.skew() >= 1 {
        let (inner, top, outer) = (mid->left, mid->key, mid->right);
        assert(*mid == Shape::node(*inner, top, *outer));
        lemma_node(*inner, top, *outer);
        lemma_node(*far, up, *inner);
        lemma_node(*outer, key, *right);
        lemma_node(Shape::node(*far, up, *inner), top, Shape::node(*outer, key, *right));
        lemma_node(left.rotated_left(), key, *right);
        assert(left.rotated_left() == Shape::node(Shape::node(*far, up, *inner), top, *outer));
        assert(s.rebalanced() == Shape::node(
            Shape::node(*far, up, *inner),
            top,
            Shape::node(*outer, key, *right),
        ));
    } else {
        lemma_node(*mid, key, *right);
        lemma_node(*far, up, Shape::node(*mid, key, *right));
        assert(s.rebalanced() == Shape::node(*far, up, Shape::node(*mid, key, *right)));
    }
}

proof fn lemma_rebalanced_right_heavy(s: Shape)
    requires
        s.subtrees_balanced(),
        s.skew() == 2,
    ensures
        s.rebalanced().balanced(),
        s.rebalanced().height() <= s.height(),
        s.height() <= s.rebalanced().height() + 1,
        s.rebalanced() is Node,
{
    let (left, key, right) = (s->left, s->key, s->right);
    let (mid, up, far) = (right->left, right->key, right->right);
    assert(*right == Shape::node(*mid, up, *far));
    lemma_node(*mid, up, *far);
    if right.skew() <= -1 {
        let (outer, top, inner) = (mid->left, mid->key, mid->right);
        assert(*mid == Shape::node(*outer, top, *inner));
        lemma_node(*outer, top, *inner);
        lemma_node(*inner, up, *far);
        lemma_node(*left, key, *outer);
        lemma_node(Shape::node(*left, key, *outer), top, Shape::node(*inner, up, *far));
        lemma_node(*left, key, right.rotated_right());
        assert(right.rotated_right() == Shape::node(*outer, top, Shape::node(*inner, up, *far)));
        assert(s.rebalanced() == Shape::node(
            Shape::node(*left, key, *outer),
            top,
            Shape::node(*inner, up, *far),
        ));
    } else {
        lemma_node(*left, key, *mid);
        lemma_node(Shape::node(*left, key, *mid), up, *far);
        assert(s.rebalanced() == Shape::node(Shape::node(*left, key, *mid), up, *far));
    }
}

/// Rebalancing the root keeps the keys in order, and where the subtrees are
/// balanced and their heights differ by at most two, the result is balanced
/// and at most one lower than the tree was.
pub proof fn lemma_rebalanced(s: Shape)
    ensures
        s.rebalanced().keys() =~= s.keys(),
        -1 <= s.skew() <= 1 ==> s.rebalanced() == s,
        s.subtrees_balanced() && -2 <= s.skew() <= 2 ==> {
            &&& s.rebalanced().balanced()
            &&& s.rebalanced().height() <= s.height()
            &&& s.height() <= s.rebalanced().height() + 1
            &&& s.rebalanced() is Node
        },
{
    match s {
        Shape::Leaf => {},
        Shape::Node { left, key, right } => {
            if s.skew() <= -2 {
                let low = if left.skew() >= 1 {
                    left.rotated_left()
                } else {
                    *left
                };
                lemma_rotation_keys(*left);
                lemma_rotation_keys(Shape::node(low, key, *right));
                assert(Shape::node(low, key, *right).keys() =~= s.keys());
                if s.subtrees_balanced() && s.skew() == -2 {
                    lemma_rebalanced_left_heavy(s);
                }
            } else if s.skew() >= 2 {
                let low = if right.skew() <= -1 {
                    right.rotated_right()
                } else {
                    *right
                };
                lemma_rotation_keys(*right);
                lemma_rotation_keys(Shape::node(*left, key, low));
                assert(Shape::node(*left, key, low).keys() =~= s.keys());
                if s.subtrees_balanced() && s.skew() == 2 {
                    lemma_rebalanced_right_heavy(s);
                }
            }
        },
    }
}

/// The keys of a tree with a subtree at the end of a descent: those before
/// the subtree, the subtree's own, and those after it.
pub proof fn lemma_plug_keys(ctx: Seq<Frame>, sub: Shape)
    ensures
        plug(ctx, sub).keys() =~= keys_before(ctx) + sub.keys() + keys_after(ctx),
    decreases ctx.len(),
{
    if ctx.len() > 0 {
        let f = ctx.last();
        lemma_plug_keys(ctx.drop_last(), fill(f, sub));
        lemma_node(sub, f.key, f.other);
        lemma_node(f.other, f.key, sub);
        if f.left_turn {
            assert(fill(f, sub).keys() + keys_after(ctx.drop_last()) =~= sub.keys()
                + keys_after(ctx));
        } else {
            assert(keys_before(ctx.drop_last()) + fill(f, sub).keys() =~= keys_before(ctx)
                + sub.keys());
        }
    }
}

/// Where a tree is balanced, so is the subtree at the end of any descent in it.
pub proof fn lemma_plug_balanced(ctx: Seq<Frame>, sub: Shape)
    requires
        plug(ctx, sub).balanced(),
    ensures
        sub.balanced(),
    decreases ctx.len(),
{
    if ctx.len() > 0 {
        lemma_plug_balanced(ctx.drop_last(), fill(ctx.last(), sub));
    }
}

/// One step of rebuilding a descent. Where the node of `frame` was balanced
/// over the subtree `was`, and `now` is balanced and differs from `was` by at
/// most one in height, the node over `now` differs by at most two between its
/// subtrees, and once rebalanced it is balanced and differs by at most one in
/// height from what the node was.
pub proof fn lemma_rebuild_step(frame: Frame, was: Shape, now: Shape)
    requires
        fill(frame, was).balanced(),
        now.balanced(),
        was.height() <= now.height() + 1,
        now.height() <= was.height() + 1,
    ensures
        fill(frame, now).subtrees_balanced(),
        -2 <= fill(frame, now).skew() <= 2,
        fill(frame, now).rebalanced().balanced(),
        fill(frame, now).rebalanced() is Node,
        fill(frame, now).rebalanced().keys() =~= fill(frame, now).keys(),
        fill(frame, now).rebalanced().height() <= fill(frame, was).height() + 1,
        fill(frame, was).height() <= fill(frame, now).rebalanced().height() + 1,
{
    lemma_node(was, frame.key, frame.other);
    lemma_node(frame.other, frame.key, was);
    lemma_node(now, frame.key, frame.other);
    lemma_node(frame.other, frame.key, now);
    lemma_rebalanced(fill(frame, now));
}

/// Rebuilding a descent with rebalancing at every node. Where the tree was
/// balanced with `was` at the end of the descent, and `now` is balanced and
/// differs from `was` by at most one in height, the rebuilt tree is balanced,
/// has the keys of the tree with `now` put in place of `was`, in the same
/// order, and differs from the former tree by at most one in height.
pub proof fn lemma_rebuilt(ctx: Seq<Frame>, was: Shape, now: Shape)
    requires
        plug(ctx, was).balanced(),
        now.balanced(),
        was.height() <= now.height() + 1,
        now.height() <= was.height() + 1,
    ensures
        rebuilt(ctx, now).balanced(),
        rebuilt(ctx, now).keys() =~= plug(ctx, now).keys(),
        rebuilt(ctx, now).height() <= plug(ctx, was).height() + 1,
        plug(ctx, was).height() <= rebuilt(ctx, now).height() + 1,
    decreases ctx.len(),
{
    if ctx.len() > 0 {
        let f = ctx.last();
        let up = ctx.drop_last();
        lemma_plug_balanced(up, fill(f, was));
        lemma_rebuild_step(f, was, now);
        let next = fill(f, now).rebalanced();
        lemma_rebuilt(up, fill(f, was), next);
        lemma_plug_keys(up, next);
        lemma_plug_keys(up, fill(f, now));
    }
}

/// Every key of a frame of a descent, the node's own and those of the
/// subtree on the other side, comes before or after the end of the descent.
pub proof fn lemma_frame_keys(ctx: Seq<Frame>, j: int)
    requires
        0 <= j < ctx.len(),
    ensures
        (keys_before(ctx) + keys_after(ctx)).contains(ctx[j].key),
        forall|k: usize|
            ctx[j].other.keys().contains(k) ==> (keys_before(ctx) + keys_after(ctx)).contains(k),
    decreases ctx.len(),
{
    broadcast use vstd::seq_lib::lemma_seq_concat_contains_all_elements;
    broadcast use vstd::seq_lib::lemma_seq_contains_after_push;

    let f = ctx.last();
    let up = ctx.drop_last();
    if j == ctx.len() - 1 {
        assert(seq![f.key].contains(f.key)) by {
            assert(seq![f.key][0] == f.key);
        }
    } else {
        lemma_frame_keys(up, j);
        assert(up[j] == ctx[j]);
    }
}

/// Where no key occurs twice in the tree with `sub` at the end of a descent,
/// none occurs twice in `sub`, and no key of a frame of the descent occurs
/// in `sub`.
pub proof fn lemma_frames_apart(ctx: Seq<Frame>, sub: Shape, j: int)
    requires
        plug(ctx, sub).keys().no_duplicates(),
        0 <= j < ctx.len(),
    ensures
        sub.keys().no_duplicates(),
        !sub.keys().contains(ctx[j].key),
        forall|k: usize| ctx[j].other.keys().contains(k) ==> !sub.keys().contains(k),
{
    broadcast use vstd::seq_lib::lemma_seq_concat_contains_all_elements;

    lemma_plug_keys(ctx, sub);
    lemma_frame_keys(ctx, j);
    lemma_middle_distinct(keys_before(ctx), sub.keys(), keys_after(ctx));
}

/// Where no element occurs twice in three sequences put end to end, none
/// occurs twice in the middle one, and none of the middle one occurs in
/// another.
pub proof fn lemma_middle_distinct(a: Seq<usize>, m: Seq<usize>, b: Seq<usize>)
    requires
        (a + m + b).no_duplicates(),
    ensures
        m.no_duplicates(),
        forall|k: usize| m.contains(k) ==> !(a + b).contains(k),
{
    let all = a + m + b;
    let n = a.len() as int;
    assert forall|i: int, j: int| 0 <= i < m.len() && 0 <= j < m.len() && i != j implies m[i]
        != m[j] by {
        assert(all[n + i] == m[i] && all[n + j] == m[j]);
    }
    assert forall|k: usize| m.contains(k) implies !(a + b).contains(k) by {
        if (a + b).contains(k) {
            let i = choose|i: int| 0 <= i < m.len() && m[i] == k;
            let j = choose|j: int| 0 <= j < (a + b).len() && (a + b)[j] == k;
            let q = if j < n {
                j
            } else {
                j + m.len()
            };
            assert(all[n + i] == k && all[q] == k);
        }
    }
}

/// The frames of a descent but the last, with the last frame filled in,
/// make the same tree.
pub proof fn lemma_plug_step(ctx: Seq<Frame>, i: int, sub: Shape)
    requires
        0 <= i < ctx.len(),
    ensures
        plug(ctx.take(i + 1), sub) == plug(ctx.take(i), fill(ctx[i], sub)),
        rebuilt(ctx.take(i + 1), sub) == rebuilt(ctx.take(i), fill(ctx[i], sub).rebalanced()),
        ctx.take(ctx.len() as int) == ctx,
{
    assert(ctx.take(i + 1).drop_last() =~= ctx.take(i));
    assert(ctx.take(i + 1).last() == ctx[i]);
    assert(ctx.take(ctx.len() as int) =~= ctx);
}

/// The keys of the tree with a subtree at the end of a descent depend on the
/// subtree only by its keys.
pub proof fn lemma_plug_same_keys(ctx: Seq<Frame>, one: Shape, other: Shape)
    requires
        one.keys() =~= other.keys(),
    ensures
        plug(ctx, one).keys() =~= plug(ctx, other).keys(),
{
    lemma_plug_keys(ctx, one);
    lemma_plug_keys(ctx, other);
}

/// A descent in two parts leads to the subtree at the end of the second
/// part within the subtree at the end of the first.
pub proof fn lemma_plug_concat(above: Seq<Frame>, below: Seq<Frame>, sub: Shape)
    ensures
        plug(above + below, sub) == plug(above, plug(below, sub)),
        rebuilt(above + below, sub) == rebuilt(above, rebuilt(below, sub)),
        keys_before(above + below) =~= keys_before(above) + keys_before(below),
        keys_after(above + below) =~= keys_after(below) + keys_after(above),
    decreases below.len(),
{
    if below.len() == 0 {
        assert(above + below =~= above);
    } else {
        assert((above + below).drop_last() =~= above + below.drop_last());
        assert((above + below).last() == below.last());
        lemma_plug_concat(above, below.drop_last(), fill(below.last(), sub));
        lemma_plug_concat(above, below.drop_last(), fill(below.last(), sub).rebalanced());
    }
}

/// A balanced tree stays balanced, and as high as it was, when the subtree
/// at the end of a descent is exchanged for a balanced one of the same
/// height.
pub proof fn lemma_plug_exchange(ctx: Seq<Frame>, was: Shape, now: Shape)
    requires
        plug(ctx, was).balanced(),
        now.balanced(),
        now.height() == was.height(),
    ensures
        plug(ctx, now).balanced(),
        plug(ctx, now).height() == plug(ctx, was).height(),
    decreases ctx.len(),
{
    if ctx.len() > 0 {
        let f = ctx.last();
        lemma_plug_balanced(ctx.drop_last(), fill(f, was));
        lemma_node(was, f.key, f.other);
        lemma_node(f.other, f.key, was);
        lemma_node(now, f.key, f.other);
        lemma_node(f.other, f.key, now);
        lemma_plug_exchange(ctx.drop_last(), fill(f, was), fill(f, now));
    }
}

/// Where the keys of a tree are a stretch of a sequence, the keys of its left
/// subtree are the first part of the stretch, its own key comes next, and
/// the keys of its right subtree are the rest.
pub proof fn lemma_window_split(
    keys: Seq<usize>,
    lo: int,
    hi: int,
    left: Shape,
    key: usize,
    right: Shape,
)
    requires
        0 <= lo <= hi <= keys.len(),
        Shape::node(left, key, right).keys() =~= keys.subrange(lo, hi),
    ensures
        lo + left.keys().len() < hi,
        keys[lo + left.keys().len()] == key,
        left.keys() =~= keys.subrange(lo, lo + left.keys().len()),
        right.keys() =~= keys.subrange(lo + left.keys().len() + 1, hi),
{
    let all = Shape::node(left, key, right).keys();
    let n = left.keys().len() as int;
    lemma_node(left, key, right);
    assert(all.len() == hi - lo);
    assert(all[n] == key);
    assert(keys.subrange(lo, hi)[n] == key);
    assert forall|i: int| 0 <= i < n implies left.keys()[i] == keys.subrange(lo, lo + n)[i] by {
        assert(all[i] == left.keys()[i]);
        assert(keys.subrange(lo, hi)[i] == all[i]);
    }
    assert forall|i: int| 0 <= i < right.keys().len() implies right.keys()[i] == keys.subrange(
        lo + n + 1,
        hi,
    )[i] by {
        assert(all[n + 1 + i] == right.keys()[i]);
        assert(keys.subrange(lo, hi)[n + 1 + i] == all[n + 1 + i]);
    }
}

/// A tree is at least as high as a descent in it is long, and the subtree
/// at its end high, together.
pub proof fn lemma_plug_height(ctx: Seq<Frame>, sub: Shape)
    ensures
        plug(ctx, sub).height() >= ctx.len() + sub.height(),
    decreases ctx.len(),
{
    if ctx.len() > 0 {
        let f = ctx.last();
        lemma_node(sub, f.key, f.other);
        lemma_node(f.other, f.key, sub);
        lemma_plug_height(ctx.drop_last(), fill(f, sub));
    }
}

/// A key of a node's tree is a key of its left subtree, the node's own key,
/// or a key of its right subtree.
pub proof fn lemma_node_keys(left: Shape, key: usize, right: Shape)
    ensures
        forall|k: usize| #[trigger]
            Shape::node(left, key, right).keys().contains(k) <==> (left.keys().contains(k) || k
                == key || right.keys().contains(k)),
{
    let all = Shape::node(left, key, right).keys();
    let n = left.keys().len() as int;
    assert(all =~= left.keys().push(key) + right.keys());
    assert forall|k: usize| #[trigger]
        all.contains(k) <==> (left.keys().contains(k) || k == key || right.keys().contains(
            k,
        )) by {
        if all.contains(k) {
            let i = choose|i: int| 0 <= i < all.len() && all[i] == k;
            if i < n {
                assert(left.keys()[i] == k);
            } else if i > n {
                assert(right.keys()[i - n - 1] == k);
            }
        }
        if left.keys().contains(k) {
            let i = choose|i: int| 0 <= i < left.keys().len() && left.keys()[i] == k;
            assert(all[i] == k);
        }
        if k == key {
            assert(all[n] == k);
        }
        if right.keys().contains(k) {
            let i = choose|i: int| 0 <= i < right.keys().len() && right.keys()[i] == k;
            assert(all[n + 1 + i] == k);
        }
    }
}

/// Where no key occurs twice in a node's tree, none occurs twice in either
/// subtree, none occurs in both, and the node's own key occurs in neither.
pub proof fn lemma_node_distinct(left: Shape, key: usize, right: Shape)
    requires
        Shape::node(left, key, right).keys().no_duplicates(),
    ensures
        left.keys().no_duplicates(),
        right.keys().no_duplicates(),
        !left.keys().contains(key),
        !right.keys().contains(key),
        forall|k: usize| left.keys().contains(k) ==> !right.keys().contains(k),
{
    let all = Shape::node(left, key, right).keys();
    let n = left.keys().len() as int;
    assert(all =~= left.keys().push(key) + right.keys());
    assert forall|i: int, j: int|
        0 <= i < left.keys().len() && 0 <= j < left.keys().len() && i != j implies left.keys()[i]
        != left.keys()[j] by {
        assert(all[i] == left.keys()[i] && all[j] == left.keys()[j]);
    }
    assert forall|i: int, j: int|
        0 <= i < right.keys().len() && 0 <= j < right.keys().len() && i != j implies right.keys()[i]
        != right.keys()[j] by {
        assert(all[n + 1 + i] == right.keys()[i] && all[n + 1 + j] == right.keys()[j]);
    }
    if left.keys().contains(key) {
        let i = choose|i: int| 0 <= i < left.keys().len() && left.keys()[i] == key;
        assert(all[i] == key && all[n] == key);
    }
    if right.keys().contains(key) {
        let i = choose|i: int| 0 <= i < right.keys().len() && right.keys()[i] == key;
        assert(all[n + 1 + i] == key && all[n] == key);
    }
    assert forall|k: usize| left.keys().contains(k) implies !right.keys().contains(k) by {
        if right.keys().contains(k) {
            let i = choose|i: int| 0 <= i < left.keys().len() && left.keys()[i] == k;
            let j = choose|j: int| 0 <= j < right.keys().len() && right.keys()[j] == k;
            assert(all[i] == k && all[n + 1 + j] == k);
        }
    }
}

} // verus!
