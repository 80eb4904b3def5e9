use vstd::prelude::*;
use crate::links::{content, lemma_frame_same, linked, ordered};
use crate::node::BstNode;
use crate::shape::Shape;

verus! {

/// The vertex at which a descent for `key` leaves `shape`: the last one it
/// visits.  For an empty shape that is `parent`.
pub open spec fn attach_point(
    nodes: Seq<BstNode>,
    shape: Shape,
    key: i32,
    parent: Option<usize>,
) -> Option<usize>
    decreases shape,
{
    match shape {
        Shape::Leaf => parent,
        Shape::Fork { left, id, right } => if nodes[id as int].above_key(key) {
            attach_point(nodes, *left, key, Some(id))
        } else {
            attach_point(nodes, *right, key, Some(id))
        },
    }
}

/// `shape` with the new vertex `slot` hung where a descent for `key` leaves it.
pub open spec fn inserted(nodes: Seq<BstNode>, shape: Shape, key: i32, slot: usize) -> Shape
    decreases shape,
{
    match shape {
        Shape::Leaf => Shape::single(slot),
        Shape::Fork { left, id, right } => if nodes[id as int].above_key(key) {
            Shape::Fork { left: Box::new(inserted(nodes, *left, key, slot)), id, right }
        } else {
            Shape::Fork { left, id, right: Box::new(inserted(nodes, *right, key, slot)) }
        },
    }
}

/// The arena after a new node for `key` was stored in `slot` and hung under
/// the attach point `y`: `slot` holds the new node, `y` names it as the child
/// on the side the descent took, and no other vertex of `shape` changed.
pub open spec fn attached(
    nodes: Seq<BstNode>,
    after: Seq<BstNode>,
    shape: Shape,
    key: i32,
    slot: usize,
    y: usize,
) -> bool {
    &&& nodes.len() <= after.len()
    &&& (slot as int) < after.len()
    &&& after[slot as int] == BstNode::child_of(y, key)
    &&& after[y as int] == if nodes[y as int].above_key(key) {
        BstNode { left: Some(slot), ..nodes[y as int] }
    } else {
        BstNode { right: Some(slot), ..nodes[y as int] }
    }
    &&& forall|i: usize| #[trigger] shape.has(i) && i != y ==> after[i as int] == nodes[i as int]
}

/// A descent leaves a shape that is not empty at one of its vertices,
/// whatever lies above the shape.
pub proof fn lemma_attach_point_inside(
    nodes: Seq<BstNode>,
    shape: Shape,
    key: i32,
    parent: Option<usize>,
)
    requires
        shape is Fork,
    ensures
        attach_point(nodes, shape, key, parent) matches Some(y) && shape.has(y),
        forall|p: Option<usize>|
            attach_point(nodes, shape, key, p) == attach_point(nodes, shape, key, parent),
    decreases shape,
{
    match shape {
        Shape::Leaf => {},
        Shape::Fork { left, id, right } => {
            if nodes[id as int].above_key(key) {
                if *left is Fork {
                    lemma_attach_point_inside(nodes, *left, key, Some(id));
                }
            } else {
                if *right is Fork {
                    lemma_attach_point_inside(nodes, *right, key, Some(id));
                }
            }
        },
    }
}

/// Hanging a new node under the attach point turns `shape` into
/// `inserted(..)`: the links draw it, no slot occurs twice, the order holds
/// within the same bounds, and the keys are the old ones and `key`.
pub proof fn lemma_insert(
    nodes: Seq<BstNode>,
    after: Seq<BstNode>,
    shape: Shape,
    parent: Option<usize>,
    key: i32,
    slot: usize,
    lo: int,
    hi: int,
)
    requires
        shape is Fork,
        linked(nodes, shape, parent),
        shape.distinct(),
        ordered(nodes, shape, lo, hi),
        lo <= key < hi,
        !shape.has(slot),
        attached(nodes, after, shape, key, slot, attach_point(nodes, shape, key, parent).unwrap()),
    ensures
        linked(after, inserted(nodes, shape, key, slot), parent),
        inserted(nodes, shape, key, slot).distinct(),
        ordered(after, inserted(nodes, shape, key, slot), lo, hi),
        content(after, inserted(nodes, shape, key, slot)) == content(nodes, shape).insert(key),
        inserted(nodes, shape, key, slot).link() == shape.link(),
        forall|x: usize|
            inserted(nodes, shape, key, slot).has(x) <==> shape.has(x) || x == slot,
    decreases shape,
{
    let y = attach_point(nodes, shape, key, parent).unwrap();
    let grown = inserted(nodes, shape, key, slot);
    match shape {
        Shape::Leaf => {},
        Shape::Fork { left, id, right } => {
            let k = nodes[id as int].key.unwrap();
            assert(shape.has(id));
            assert(forall|i: usize| left.has(i) ==> shape.has(i));
            assert(forall|i: usize| right.has(i) ==> shape.has(i));
            let (taken, other) = if nodes[id as int].above_key(key) {
                (*left, *right)
            } else {
                (*right, *left)
            };
            let (tlo, thi) = if nodes[id as int].above_key(key) {
                (lo, k as int)
            } else {
                (k as int, hi)
            };
            let (olo, ohi) = if nodes[id as int].above_key(key) {
                (k as int, hi)
            } else {
                (lo, k as int)
            };
            let taken2 = inserted(nodes, taken, key, slot);
            assert(!left.has(slot) && !right.has(slot));
            assert(ordered(nodes, taken, tlo, thi));
            assert(ordered(nodes, other, olo, ohi));
            if taken is Fork {
                lemma_attach_point_inside(nodes, taken, key, Some(id));
                assert(taken.has(y));
                assert(y != id);
                assert(forall|i: usize| other.has(i) ==> i != y) by {
                    assert(forall|i: usize| left.has(i) ==> !right.has(i));
                }
                lemma_frame_same(nodes, after, other, Some(id));
                lemma_insert(nodes, after, taken, Some(id), key, slot, tlo, thi);
                assert(after[id as int] == nodes[id as int]);
            } else {
                assert(y == id);
                assert(forall|i: usize| other.has(i) ==> i != y);
                lemma_frame_same(nodes, after, other, Some(id));
                assert(taken2 == Shape::single(slot));
                reveal_with_fuel(linked, 2);
                reveal_with_fuel(ordered, 2);
                reveal_with_fuel(content, 2);
                reveal_with_fuel(Shape::distinct, 2);
                reveal_with_fuel(Shape::has, 2);
                assert(linked(after, taken2, Some(id)));
                assert(ordered(after, taken2, tlo, thi));
                assert(content(after, taken2) =~= content(nodes, taken).insert(key));
                assert(taken2.distinct());
                assert(forall|x: usize| taken2.has(x) <==> x == slot);
            }
            assert(ordered(after, other, olo, ohi));
            assert(ordered(after, taken2, tlo, thi));
            assert(after[id as int].key == nodes[id as int].key);
            assert(forall|x: usize| taken2.has(x) <==> taken.has(x) || x == slot);
            assert(grown.distinct()) by {
                assert(forall|x: usize| #[trigger] left.has(x) ==> !right.has(x));
            }
            assert(content(after, grown) =~= content(nodes, shape).insert(key));
            assert(ordered(after, grown, lo, hi));
            assert(linked(after, grown, parent));
            assert forall|x: usize| grown.has(x) <==> shape.has(x) || x == slot by {
                assert(taken2.has(x) <==> taken.has(x) || x == slot);
            }
        },
    }
}

} // verus!
