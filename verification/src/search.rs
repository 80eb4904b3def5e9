use vstd::prelude::*;
use crate::links::{
    content, key_of, lemma_bounds, lemma_key_within, lemma_shape_unique, linked, ordered,
};
use crate::node::BstNode;
use crate::shape::Shape;

verus! {

/// `shape` is the subtree that the links draw below slot `node`.
pub open spec fn rooted(nodes: Seq<BstNode>, node: usize, shape: Shape) -> bool {
    &&& shape.link() == Some(node)
    &&& linked(nodes, shape, nodes[node as int].parent)
}

/// The links below slot `node` draw a tree: following child links from `node`
/// never leaves the arena and never comes back.
pub open spec fn is_rooted(nodes: Seq<BstNode>, node: usize) -> bool {
    exists|shape: Shape| rooted(nodes, node, shape)
}

/// The subtree that the links draw below slot `node`.
pub open spec fn shape_at(nodes: Seq<BstNode>, node: usize) -> Shape {
    choose|shape: Shape| rooted(nodes, node, shape)
}

/// The links draw one subtree only below a slot.
pub proof fn lemma_shape_at(nodes: Seq<BstNode>, node: usize, shape: Shape, parent: Option<usize>)
    requires
        shape.link() == Some(node),
        linked(nodes, shape, parent),
    ensures
        is_rooted(nodes, node),
        shape_at(nodes, node) == shape,
{
    assert(rooted(nodes, node, shape));
    lemma_shape_unique(nodes, shape, parent, shape_at(nodes, node), nodes[node as int].parent);
}

/// Where a search for `key` ends in `shape`.
///
/// At a vertex with the key the search stops.  It goes left where `key` is
/// below the key of the vertex and there is a left child; in every other
/// case, also where `key` is below and there is no left child, it goes
/// right.  It fails where the way on is missing, and at a vertex without key.
pub open spec fn searched(nodes: Seq<BstNode>, shape: Shape, key: i32) -> Option<usize>
    decreases shape,
{
    match shape {
        Shape::Leaf => None,
        Shape::Fork { left, id, right } => match nodes[id as int].key {
            None => None,
            Some(k) => if k == key {
                Some(id)
            } else if key < k && *left is Fork {
                searched(nodes, *left, key)
            } else {
                searched(nodes, *right, key)
            },
        },
    }
}

/// The first vertex with key `key` that a descent for `key` meets.
pub open spec fn found(nodes: Seq<BstNode>, shape: Shape, key: i32) -> Option<usize>
    decreases shape,
{
    match shape {
        Shape::Leaf => None,
        Shape::Fork { left, id, right } => if nodes[id as int].key == Some(key) {
            Some(id)
        } else if nodes[id as int].above_key(key) {
            found(nodes, *left, key)
        } else {
            found(nodes, *right, key)
        },
    }
}

/// The vertex reached from the root of `shape` by left links alone; the walk
/// also ends at a vertex without key.
pub open spec fn leftmost(nodes: Seq<BstNode>, shape: Shape) -> Option<usize>
    decreases shape,
{
    match shape {
        Shape::Leaf => None,
        Shape::Fork { left, id, right } => if nodes[id as int].key is Some && *left is Fork {
            leftmost(nodes, *left)
        } else {
            Some(id)
        },
    }
}

/// The vertex reached from the root of `shape` by right links alone; the walk
/// also ends at a vertex without key.
pub open spec fn rightmost(nodes: Seq<BstNode>, shape: Shape) -> Option<usize>
    decreases shape,
{
    match shape {
        Shape::Leaf => None,
        Shape::Fork { left, id, right } => if nodes[id as int].key is Some && *right is Fork {
            rightmost(nodes, *right)
        } else {
            Some(id)
        },
    }
}

impl BstNode {
    /// Searches the subtree below `node` for `value` and returns the slot of
    /// the first vertex found with it.
    pub fn tree_search(nodes: &Vec<BstNode>, node: usize, value: &i32) -> (hit: Option<usize>)
        requires
            is_rooted(nodes@, node),
        ensures
            hit == searched(nodes@, shape_at(nodes@, node), *value),
    {
        let ghost shape = shape_at(nodes@, node);
        let ghost mut cur = shape;
        let ghost mut above = nodes@[node as int].parent;
        let mut x = node;
        loop
            invariant
                shape == shape_at(nodes@, node),
                cur.link() == Some(x),
                linked(nodes@, cur, above),
                searched(nodes@, cur, *value) == searched(nodes@, shape, *value),
            decreases cur,
        {
            let here = nodes[x];
            match here.key {
                None => {
                    return None;
                },
                Some(k) => {
                    if k == *value {
                        return Some(x);
                    }
                    let next = if *value < k && here.left.is_some() {
                        proof {
                            cur = *cur->left;
                        }
                        here.left
                    } else {
                        proof {
                            cur = *cur->right;
                        }
                        here.right
                    };
                    match next {
                        None => {
                            return None;
                        },
                        Some(c) => {
                            proof {
                                above = Some(x);
                            }
                            x = c;
                        },
                    }
                },
            }
        }
    }

    /// The slot of the leftmost vertex of the subtree below `node`.
    pub fn minimum(nodes: &Vec<BstNode>, node: usize) -> (least: usize)
        requires
            is_rooted(nodes@, node),
        ensures
            Some(least) == leftmost(nodes@, shape_at(nodes@, node)),
    {
        let ghost shape = shape_at(nodes@, node);
        let ghost mut cur = shape;
        let ghost mut above = nodes@[node as int].parent;
        let mut x = node;
        loop
            invariant
                shape == shape_at(nodes@, node),
                cur.link() == Some(x),
                linked(nodes@, cur, above),
                leftmost(nodes@, cur) == leftmost(nodes@, shape),
            decreases cur,
        {
            let here = nodes[x];
            if here.key.is_none() {
                return x;
            }
            match here.left {
                None => {
                    return x;
                },
                Some(c) => {
                    proof {
                        above = Some(x);
                        cur = *cur->left;
                    }
                    x = c;
                },
            }
        }
    }

    /// The slot of the rightmost vertex of the subtree below `node`.
    pub fn maximum(nodes: &Vec<BstNode>, node: usize) -> (greatest: usize)
        requires
            is_rooted(nodes@, node),
        ensures
            Some(greatest) == rightmost(nodes@, shape_at(nodes@, node)),
    {
        let ghost shape = shape_at(nodes@, node);
        let ghost mut cur = shape;
        let ghost mut above = nodes@[node as int].parent;
        let mut x = node;
        loop
            invariant
                shape == shape_at(nodes@, node),
                cur.link() == Some(x),
                linked(nodes@, cur, above),
                rightmost(nodes@, cur) == rightmost(nodes@, shape),
            decreases cur,
        {
            let here = nodes[x];
            if here.key.is_none() {
                return x;
            }
            match here.right {
                None => {
                    return x;
                },
                Some(c) => {
                    proof {
                        above = Some(x);
                        cur = *cur->right;
                    }
                    x = c;
                },
            }
        }
    }
}

/// In an ordered shape a search finds a vertex exactly if the key is among
/// the keys, and the vertex it finds holds the key.
pub proof fn lemma_search_finds(nodes: Seq<BstNode>, shape: Shape, lo: int, hi: int, key: i32)
    requires
        ordered(nodes, shape, lo, hi),
    ensures
        searched(nodes, shape, key) is Some <==> content(nodes, shape).count(key) > 0,
        searched(nodes, shape, key) matches Some(hit) ==> shape.has(hit) && nodes[hit as int].key
            == Some(key),
    decreases shape,
{
    match shape {
        Shape::Leaf => {},
        Shape::Fork { left, id, right } => {
            let k = nodes[id as int].key.unwrap() as int;
            lemma_search_finds(nodes, *left, lo, k, key);
            lemma_search_finds(nodes, *right, k, hi, key);
            if key < k {
                lemma_bounds(nodes, *right, k, hi, key);
            } else if key > k {
                lemma_bounds(nodes, *left, lo, k, key);
            }
        },
    }
}

/// In an ordered shape the leftmost vertex is the first in in-order and holds
/// the least key; the rightmost is the last and holds the greatest.
pub proof fn lemma_extremes(nodes: Seq<BstNode>, shape: Shape, lo: int, hi: int)
    requires
        ordered(nodes, shape, lo, hi),
        shape is Fork,
    ensures
        leftmost(nodes, shape) == shape.first(),
        rightmost(nodes, shape) == shape.last(),
        shape.first() == Some(shape.ids().first()),
        shape.last() == Some(shape.ids().last()),
        shape.first() matches Some(x) && shape.has(x),
        shape.last() matches Some(x) && shape.has(x),
        forall|x: usize| #[trigger]
            shape.has(x) ==> key_of(nodes, shape.first().unwrap()) <= key_of(nodes, x) <= key_of(
                nodes,
                shape.last().unwrap(),
            ),
    decreases shape,
{
    match shape {
        Shape::Leaf => {},
        Shape::Fork { left, id, right } => {
            let k = nodes[id as int].key.unwrap() as int;
            if *left is Fork {
                lemma_extremes(nodes, *left, lo, k);
            }
            if *right is Fork {
                lemma_extremes(nodes, *right, k, hi);
            }
            assert forall|x: usize| #[trigger] shape.has(x) implies key_of(
                nodes,
                shape.first().unwrap(),
            ) <= key_of(nodes, x) <= key_of(nodes, shape.last().unwrap()) by {
                lemma_key_within(nodes, shape, lo, hi, x);
                if *left is Fork {
                    lemma_key_within(nodes, *left, lo, k, left.first().unwrap());
                }
                if *right is Fork {
                    lemma_key_within(nodes, *right, k, hi, right.last().unwrap());
                }
                if left.has(x) {
                    lemma_key_within(nodes, *left, lo, k, x);
                }
                if right.has(x) {
                    lemma_key_within(nodes, *right, k, hi, x);
                }
            }
            reveal_with_fuel(Shape::ids, 2);
            assert(*right is Fork ==> right.ids().len() > 0);
            assert(*left is Fork ==> left.ids().len() > 0);
            assert(shape.ids().first() == if *left is Fork {
                left.ids().first()
            } else {
                id
            });
            assert(shape.ids().last() == if *right is Fork {
                right.ids().last()
            } else {
                id
            });
        },
    }
}

/// In an ordered shape a search ends where a descent does: the turn to the
/// right that a search takes for want of a left child leads to no key.
pub proof fn lemma_search_is_found(nodes: Seq<BstNode>, shape: Shape, lo: int, hi: int, key: i32)
    requires
        ordered(nodes, shape, lo, hi),
    ensures
        searched(nodes, shape, key) == found(nodes, shape, key),
    decreases shape,
{
    match shape {
        Shape::Leaf => {},
        Shape::Fork { left, id, right } => {
            let k = nodes[id as int].key.unwrap() as int;
            if key < k {
                if *left is Fork {
                    lemma_search_is_found(nodes, *left, lo, k, key);
                } else {
                    lemma_search_finds(nodes, *right, k, hi, key);
                    lemma_bounds(nodes, *right, k, hi, key);
                }
            } else if key > k {
                lemma_search_is_found(nodes, *right, k, hi, key);
            }
        },
    }
}

/// What a descent finds is a vertex with the key.
pub proof fn lemma_found_inside(nodes: Seq<BstNode>, shape: Shape, key: i32)
    ensures
        found(nodes, shape, key) matches Some(z) ==> shape.has(z) && nodes[z as int].key == Some(
            key,
        ),
    decreases shape,
{
    match shape {
        Shape::Leaf => {},
        Shape::Fork { left, id, right } => {
            lemma_found_inside(nodes, *left, key);
            lemma_found_inside(nodes, *right, key);
        },
    }
}

/// In an ordered shape a descent for `key` finds a vertex exactly if `key` is
/// among the keys.
pub proof fn lemma_found_iff_present(nodes: Seq<BstNode>, shape: Shape, lo: int, hi: int, key: i32)
    requires
        ordered(nodes, shape, lo, hi),
    ensures
        found(nodes, shape, key) is Some <==> content(nodes, shape).count(key) > 0,
    decreases shape,
{
    match shape {
        Shape::Leaf => {},
        Shape::Fork { left, id, right } => {
            let k = nodes[id as int].key.unwrap() as int;
            if k == key {
            } else if key < k {
                lemma_found_iff_present(nodes, *left, lo, k, key);
                lemma_bounds(nodes, *right, k, hi, key);
            } else {
                lemma_found_iff_present(nodes, *right, k, hi, key);
                lemma_bounds(nodes, *left, lo, k, key);
            }
        },
    }
}

} // verus!
