use vstd::prelude::*;
use vstd::multiset::Multiset;
use crate::node::BstNode;
use crate::shape::Shape;

verus! {

/// The links stored in `nodes` draw exactly `shape`, hanging under `parent`:
/// every vertex lies in the arena, names the roots of its two subtrees as its
/// children, and is named by them as their parent.
pub open spec fn linked(nodes: Seq<BstNode>, shape: Shape, parent: Option<usize>) -> bool
    decreases shape,
{
    match shape {
        Shape::Leaf => true,
        Shape::Fork { left, id, right } => {
            &&& (id as int) < nodes.len()
            &&& nodes[id as int].parent == parent
            &&& nodes[id as int].left == left.link()
            &&& nodes[id as int].right == right.link()
            &&& linked(nodes, *left, Some(id))
            &&& linked(nodes, *right, Some(id))
        },
    }
}

/// Search-tree order within bounds: every vertex has a key `k` with
/// `lo <= k < hi`, its left subtree stays below `k` and its right subtree at
/// or above `k`.
pub open spec fn ordered(nodes: Seq<BstNode>, shape: Shape, lo: int, hi: int) -> bool
    decreases shape,
{
    match shape {
        Shape::Leaf => true,
        Shape::Fork { left, id, right } => {
            &&& nodes[id as int].key matches Some(k)
            &&& lo <= k < hi
            &&& ordered(nodes, *left, lo, k as int)
            &&& ordered(nodes, *right, k as int, hi)
        },
    }
}

/// The keys of the vertices of `shape`, with multiplicity.
pub open spec fn content(nodes: Seq<BstNode>, shape: Shape) -> Multiset<i32>
    decreases shape,
{
    match shape {
        Shape::Leaf => Multiset::empty(),
        Shape::Fork { left, id, right } => {
            let below = content(nodes, *left).add(content(nodes, *right));
            match nodes[id as int].key {
                Some(k) => below.insert(k),
                None => below,
            }
        },
    }
}

/// The key in slot `x`; arbitrary if the slot holds none.
pub open spec fn key_of(nodes: Seq<BstNode>, x: usize) -> i32 {
    nodes[x as int].key.unwrap()
}

/// The keys of the vertices of `shape` in in-order.
pub open spec fn inorder(nodes: Seq<BstNode>, shape: Shape) -> Seq<i32> {
    shape.ids().map_values(|id: usize| key_of(nodes, id))
}

/// The keys of an ordered shape lie within its bounds and never fall from one
/// place of the in-order sequence to a later one.
pub proof fn lemma_inorder_sorted(nodes: Seq<BstNode>, shape: Shape, lo: int, hi: int)
    requires
        ordered(nodes, shape, lo, hi),
    ensures
        inorder(nodes, shape).len() == shape.ids().len(),
        forall|i: int|
            0 <= i < shape.ids().len() ==> lo <= #[trigger] inorder(nodes, shape)[i] < hi,
        forall|i: int, j: int|
            0 <= i <= j < shape.ids().len() ==> inorder(nodes, shape)[i] <= inorder(
                nodes,
                shape,
            )[j],
    decreases shape,
{
    match shape {
        Shape::Leaf => {},
        Shape::Fork { left, id, right } => {
            let k = nodes[id as int].key.unwrap() as int;
            lemma_inorder_sorted(nodes, *left, lo, k);
            lemma_inorder_sorted(nodes, *right, k, hi);
            let n = left.ids().len() as int;
            let all = inorder(nodes, shape);
            assert(shape.ids() == left.ids().push(id) + right.ids());
            assert forall|i: int| 0 <= i < shape.ids().len() implies lo <= #[trigger] all[i] < hi
                && (i < n ==> all[i] < k) && (i >= n ==> all[i] >= k) by {
                if i < n {
                    assert(all[i] == inorder(nodes, *left)[i]);
                } else if i > n {
                    assert(all[i] == inorder(nodes, *right)[i - n - 1]);
                }
            }
            assert forall|i: int, j: int| 0 <= i <= j < shape.ids().len() implies all[i]
                <= all[j] by {
                assert(lo <= all[i] < hi && lo <= all[j] < hi);
                if j < n {
                    assert(all[i] == inorder(nodes, *left)[i]);
                    assert(all[j] == inorder(nodes, *left)[j]);
                } else if i > n {
                    assert(all[i] == inorder(nodes, *right)[i - n - 1]);
                    assert(all[j] == inorder(nodes, *right)[j - n - 1]);
                }
            }
        },
    }
}

/// The in-order keys of a shape whose vertices all have keys are its keys
/// with multiplicity.
pub proof fn lemma_inorder_content(nodes: Seq<BstNode>, shape: Shape)
    requires
        forall|x: usize| #[trigger] shape.has(x) ==> nodes[x as int].key is Some,
    ensures
        inorder(nodes, shape).to_multiset() == content(nodes, shape),
    decreases shape,
{
    match shape {
        Shape::Leaf => {
            assert(inorder(nodes, shape) =~= Seq::<i32>::empty());
            Seq::<i32>::empty().to_multiset_ensures();
            assert(inorder(nodes, shape).to_multiset() =~= Multiset::empty());
        },
        Shape::Fork { left, id, right } => {
            assert(shape.has(id));
            assert(forall|i: usize| left.has(i) ==> shape.has(i));
            assert(forall|i: usize| right.has(i) ==> shape.has(i));
            lemma_inorder_content(nodes, *left);
            lemma_inorder_content(nodes, *right);
            let k = nodes[id as int].key.unwrap();
            let a = inorder(nodes, *left);
            let b = inorder(nodes, *right);
            assert(inorder(nodes, shape) =~= a.push(k) + b);
            vstd::seq_lib::lemma_multiset_commutative(a.push(k), b);
            a.to_multiset_ensures();
            assert(a.push(k).to_multiset() =~= a.to_multiset().insert(k));
            assert(inorder(nodes, shape).to_multiset() =~= content(nodes, shape));
        },
    }
}

/// Two versions of a node that differ at most in that a child link to `z` now
/// reads `to`.
pub open spec fn relinked(before: BstNode, after: BstNode, z: usize, to: Option<usize>) -> bool {
    &&& after.key == before.key
    &&& after.parent == before.parent
    &&& after.left == if before.left == Some(z) { to } else { before.left }
    &&& after.right == if before.right == Some(z) { to } else { before.right }
}

/// Every vertex of a drawn shape is a slot of the arena.
pub proof fn lemma_in_arena(nodes: Seq<BstNode>, shape: Shape, parent: Option<usize>, x: usize)
    requires
        linked(nodes, shape, parent),
        shape.has(x),
    ensures
        (x as int) < nodes.len(),
    decreases shape,
{
    match shape {
        Shape::Leaf => {},
        Shape::Fork { left, id, right } => {
            if left.has(x) {
                lemma_in_arena(nodes, *left, Some(id), x);
            } else if right.has(x) {
                lemma_in_arena(nodes, *right, Some(id), x);
            }
        },
    }
}

/// The links of an arena draw at most one shape under a given link.
pub proof fn lemma_shape_unique(
    nodes: Seq<BstNode>,
    one: Shape,
    above_one: Option<usize>,
    other: Shape,
    above_other: Option<usize>,
)
    requires
        linked(nodes, one, above_one),
        linked(nodes, other, above_other),
        one.link() == other.link(),
    ensures
        one == other,
    decreases one,
{
    match one {
        Shape::Leaf => {},
        Shape::Fork { left, id, right } => {
            match other {
                Shape::Leaf => {},
                Shape::Fork { left: other_left, id: other_id, right: other_right } => {
                    lemma_shape_unique(nodes, *left, Some(id), *other_left, Some(other_id));
                    lemma_shape_unique(nodes, *right, Some(id), *other_right, Some(other_id));
                },
            }
        },
    }
}

/// A shape that does not hold `z` is drawn by the new arena as by the old one
/// if each of its nodes kept its parent and changed no child link but one to
/// `z`.
pub proof fn lemma_frame_links(
    nodes: Seq<BstNode>,
    after: Seq<BstNode>,
    shape: Shape,
    parent: Option<usize>,
    z: usize,
    to: Option<usize>,
)
    requires
        linked(nodes, shape, parent),
        !shape.has(z),
        nodes.len() <= after.len(),
        forall|i: usize| #[trigger]
            shape.has(i) ==> relinked(nodes[i as int], after[i as int], z, to),
    ensures
        linked(after, shape, parent),
    decreases shape,
{
    match shape {
        Shape::Leaf => {},
        Shape::Fork { left, id, right } => {
            assert(shape.has(id));
            assert(forall|i: usize| left.has(i) ==> shape.has(i));
            assert(forall|i: usize| right.has(i) ==> shape.has(i));
            lemma_frame_links(nodes, after, *left, Some(id), z, to);
            lemma_frame_links(nodes, after, *right, Some(id), z, to);
            assert(left.link() != Some(z));
            assert(right.link() != Some(z));
        },
    }
}

/// A shape is ordered and filled by the new arena as by the old one if each of
/// its nodes kept its key.
pub proof fn lemma_frame_keys(nodes: Seq<BstNode>, after: Seq<BstNode>, shape: Shape)
    requires
        forall|i: usize| #[trigger] shape.has(i) ==> after[i as int].key == nodes[i as int].key,
    ensures
        content(after, shape) == content(nodes, shape),
        forall|lo: int, hi: int| #[trigger]
            ordered(nodes, shape, lo, hi) ==> ordered(after, shape, lo, hi),
    decreases shape,
{
    match shape {
        Shape::Leaf => {},
        Shape::Fork { left, id, right } => {
            assert(shape.has(id));
            assert(forall|i: usize| left.has(i) ==> shape.has(i));
            assert(forall|i: usize| right.has(i) ==> shape.has(i));
            lemma_frame_keys(nodes, after, *left);
            lemma_frame_keys(nodes, after, *right);
            assert forall|lo: int, hi: int| #[trigger]
                ordered(nodes, shape, lo, hi) implies ordered(after, shape, lo, hi) by {
                let k = nodes[id as int].key.unwrap() as int;
                assert(ordered(nodes, *left, lo, k));
                assert(ordered(nodes, *right, k, hi));
            }
        },
    }
}

/// A shape is drawn, ordered and filled by the new arena as by the old one if
/// none of its nodes changed.
pub proof fn lemma_frame_same(
    nodes: Seq<BstNode>,
    after: Seq<BstNode>,
    shape: Shape,
    parent: Option<usize>,
)
    requires
        linked(nodes, shape, parent),
        nodes.len() <= after.len(),
        forall|i: usize| #[trigger] shape.has(i) ==> after[i as int] == nodes[i as int],
    ensures
        linked(after, shape, parent),
        content(after, shape) == content(nodes, shape),
        forall|lo: int, hi: int| #[trigger]
            ordered(nodes, shape, lo, hi) ==> ordered(after, shape, lo, hi),
    decreases shape,
{
    lemma_frame_keys(nodes, after, shape);
    match shape {
        Shape::Leaf => {},
        Shape::Fork { left, id, right } => {
            assert(shape.has(id));
            assert(forall|i: usize| left.has(i) ==> shape.has(i));
            assert(forall|i: usize| right.has(i) ==> shape.has(i));
            lemma_frame_same(nodes, after, *left, Some(id));
            lemma_frame_same(nodes, after, *right, Some(id));
        },
    }
}

/// A shape whose root alone was given another parent is drawn under that
/// parent.
pub proof fn lemma_reparent(
    nodes: Seq<BstNode>,
    after: Seq<BstNode>,
    shape: Shape,
    parent: Option<usize>,
    to: Option<usize>,
)
    requires
        shape matches Shape::Fork { id, .. } && after[id as int] == (BstNode {
            parent: to,
            ..nodes[id as int]
        }),
        linked(nodes, shape, parent),
        shape.distinct(),
        nodes.len() <= after.len(),
        forall|i: usize| #[trigger]
            shape.has(i) && Some(i) != shape.link() ==> after[i as int] == nodes[i as int],
    ensures
        linked(after, shape, to),
{
    match shape {
        Shape::Leaf => {},
        Shape::Fork { left, id, right } => {
            assert(forall|i: usize| left.has(i) ==> shape.has(i) && i != id);
            assert(forall|i: usize| right.has(i) ==> shape.has(i) && i != id);
            lemma_frame_same(nodes, after, *left, Some(id));
            lemma_frame_same(nodes, after, *right, Some(id));
        },
    }
}

/// What the links say of a vertex `x` of a drawn shape: the subtree at `x` is
/// drawn under the parent that `x` names, the children of `x` are vertices
/// that name `x` as their parent, and unless `x` is the root its parent is a
/// vertex outside the subtree at `x` with a child link to `x`.
pub proof fn lemma_family(nodes: Seq<BstNode>, shape: Shape, parent: Option<usize>, x: usize)
    requires
        linked(nodes, shape, parent),
        shape.has(x),
    ensures
        (x as int) < nodes.len(),
        shape.sub(x).link() == Some(x),
        linked(nodes, shape.sub(x), nodes[x as int].parent),
        forall|i: usize| #[trigger] shape.sub(x).has(i) ==> shape.has(i),
        shape.distinct() ==> shape.sub(x).distinct(),
        nodes[x as int].left matches Some(c) ==> shape.has(c) && (c as int) < nodes.len()
            && nodes[c as int].parent == Some(x),
        nodes[x as int].right matches Some(c) ==> shape.has(c) && (c as int) < nodes.len()
            && nodes[c as int].parent == Some(x),
        shape.link() == Some(x) ==> nodes[x as int].parent == parent,
        shape.link() != Some(x) ==> (nodes[x as int].parent matches Some(q) && shape.has(q) && (
        q as int) < nodes.len() && (nodes[q as int].left == Some(x) || nodes[q as int].right
            == Some(x)) && (shape.distinct() ==> !shape.sub(x).has(q))),
    decreases shape,
{
    match shape {
        Shape::Leaf => {},
        Shape::Fork { left, id, right } => {
            if id == x {
                reveal_with_fuel(linked, 2);
                match *left {
                    Shape::Leaf => {},
                    Shape::Fork { id: c, .. } => {
                        assert(left.has(c));
                    },
                }
                match *right {
                    Shape::Leaf => {},
                    Shape::Fork { id: c, .. } => {
                        assert(right.has(c));
                    },
                }
            } else {
                let side = if left.has(x) {
                    *left
                } else {
                    *right
                };
                lemma_family(nodes, side, Some(id), x);
                assert(shape.sub(x) == side.sub(x));
                if shape.distinct() && side.sub(x).has(id) {
                    assert(side.has(id));
                }
            }
        },
    }
}

/// In a drawn shape without repeated slots a vertex has a child link to `x`
/// only if `x` names it as its parent, and then only one such link.
pub proof fn lemma_only_parent(
    nodes: Seq<BstNode>,
    shape: Shape,
    parent: Option<usize>,
    i: usize,
    x: usize,
)
    requires
        linked(nodes, shape, parent),
        shape.distinct(),
        shape.has(i),
    ensures
        nodes[i as int].left == Some(x) || nodes[i as int].right == Some(x)
            ==> nodes[x as int].parent == Some(i),
        !(nodes[i as int].left == Some(x) && nodes[i as int].right == Some(x)),
{
    lemma_family(nodes, shape, parent, i);
    let at = shape.sub(i);
    match at {
        Shape::Leaf => {},
        Shape::Fork { left, id, right } => {
            if nodes[i as int].left == Some(x) && nodes[i as int].right == Some(x) {
                assert(left.has(x) && right.has(x));
            }
        },
    }
}

/// Order within bounds is kept when the bounds move apart.
pub proof fn lemma_widen(nodes: Seq<BstNode>, shape: Shape, lo: int, hi: int, lo2: int, hi2: int)
    requires
        ordered(nodes, shape, lo, hi),
        lo2 <= lo,
        hi <= hi2,
    ensures
        ordered(nodes, shape, lo2, hi2),
    decreases shape,
{
    match shape {
        Shape::Leaf => {},
        Shape::Fork { left, id, right } => {
            let k = nodes[id as int].key.unwrap() as int;
            lemma_widen(nodes, *left, lo, k, lo2, k);
            lemma_widen(nodes, *right, k, hi, k, hi2);
        },
    }
}

/// The subtree at a vertex of an ordered shape is ordered within the same
/// bounds.
pub proof fn lemma_sub_ordered(nodes: Seq<BstNode>, shape: Shape, x: usize, lo: int, hi: int)
    requires
        ordered(nodes, shape, lo, hi),
        shape.has(x),
    ensures
        ordered(nodes, shape.sub(x), lo, hi),
    decreases shape,
{
    match shape {
        Shape::Leaf => {},
        Shape::Fork { left, id, right } => {
            let k = nodes[id as int].key.unwrap() as int;
            if id == x {
            } else if left.has(x) {
                lemma_sub_ordered(nodes, *left, x, lo, k);
                lemma_widen(nodes, left.sub(x), lo, k, lo, hi);
            } else {
                lemma_sub_ordered(nodes, *right, x, k, hi);
                lemma_widen(nodes, right.sub(x), k, hi, lo, hi);
            }
        },
    }
}

/// Every vertex of an ordered shape holds a key within the bounds.
pub proof fn lemma_key_within(nodes: Seq<BstNode>, shape: Shape, lo: int, hi: int, x: usize)
    requires
        ordered(nodes, shape, lo, hi),
        shape.has(x),
    ensures
        nodes[x as int].key matches Some(k) && lo <= k < hi,
    decreases shape,
{
    match shape {
        Shape::Leaf => {},
        Shape::Fork { left, id, right } => {
            let k = nodes[id as int].key.unwrap() as int;
            if id == x {
            } else if left.has(x) {
                lemma_key_within(nodes, *left, lo, k, x);
            } else {
                lemma_key_within(nodes, *right, k, hi, x);
            }
        },
    }
}

/// An ordered shape holds no key outside its bounds.
pub proof fn lemma_bounds(nodes: Seq<BstNode>, shape: Shape, lo: int, hi: int, key: i32)
    requires
        ordered(nodes, shape, lo, hi),
        key < lo || hi <= key,
    ensures
        content(nodes, shape).count(key) == 0,
    decreases shape,
{
    match shape {
        Shape::Leaf => {},
        Shape::Fork { left, id, right } => {
            let k = nodes[id as int].key.unwrap() as int;
            lemma_bounds(nodes, *left, lo, k, key);
            lemma_bounds(nodes, *right, k, hi, key);
        },
    }
}

} // verus!
