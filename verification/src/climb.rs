use vstd::prelude::*;
use crate::links::{
    lemma_family, lemma_key_within, lemma_only_parent, lemma_sub_ordered, linked, ordered,
};
use crate::node::BstNode;
use crate::search::{leftmost, lemma_extremes, lemma_shape_at, shape_at};
use crate::shape::Shape;

verus! {

/// Following parent links from slot `x` stays in the arena and reaches a node
/// without parent after exactly `n` steps.
pub open spec fn climbs(nodes: Seq<BstNode>, x: usize, n: nat) -> bool
    decreases n,
{
    &&& (x as int) < nodes.len()
    &&& match nodes[x as int].parent {
        None => n == 0,
        Some(p) => n > 0 && climbs(nodes, p, (n - 1) as nat),
    }
}

/// The slot reached from `x` by `n` parent links.
pub open spec fn ancestor(nodes: Seq<BstNode>, x: usize, n: nat) -> usize
    decreases n,
{
    if n == 0 {
        x
    } else {
        match nodes[x as int].parent {
            None => x,
            Some(p) => ancestor(nodes, p, (n - 1) as nat),
        }
    }
}

/// The parent links above `x` end: they form no cycle and do not leave the
/// arena.
pub open spec fn has_top(nodes: Seq<BstNode>, x: usize) -> bool {
    exists|n: nat| climbs(nodes, x, n)
}

/// The number of parent links above `x`.
pub open spec fn height_above(nodes: Seq<BstNode>, x: usize) -> nat {
    choose|n: nat| climbs(nodes, x, n)
}

/// The node without parent that the parent links above `x` lead to.
pub open spec fn root_of(nodes: Seq<BstNode>, x: usize) -> usize {
    ancestor(nodes, x, height_above(nodes, x))
}

/// `shape` is a whole tree drawn by the links of the arena, and `x` is one of
/// its vertices.  Nothing is asked of the keys.
pub open spec fn draws(nodes: Seq<BstNode>, shape: Shape, x: usize) -> bool {
    &&& linked(nodes, shape, None)
    &&& shape.distinct()
    &&& shape.has(x)
}

/// Slot `x` is a vertex of a tree drawn by the links of the arena.
pub open spec fn is_vertex(nodes: Seq<BstNode>, x: usize) -> bool {
    exists|shape: Shape| draws(nodes, shape, x)
}

/// Where the walk up from `x` ends: at the first node above that has a left
/// child with the key of the node the walk comes from.  `None` if it reaches
/// a node without parent first; `n` bounds the number of steps.
pub open spec fn walked_up(nodes: Seq<BstNode>, x: usize, n: nat) -> Option<usize>
    decreases n,
{
    match nodes[x as int].parent {
        None => None,
        Some(y) => if nodes[y as int].left matches Some(l) && nodes[l as int].key
            == nodes[x as int].key {
            Some(y)
        } else if n == 0 {
            None
        } else {
            walked_up(nodes, y, (n - 1) as nat)
        },
    }
}

/// The successor as the walk finds it: the leftmost vertex below the right
/// child if there is one, else the end of the walk up.
pub open spec fn successor(nodes: Seq<BstNode>, x: usize) -> Option<usize> {
    match nodes[x as int].right {
        Some(r) => leftmost(nodes, shape_at(nodes, r)),
        None => walked_up(nodes, x, height_above(nodes, x)),
    }
}

/// `shape` is a whole search tree of the arena, and `x` is one of its
/// vertices.
pub open spec fn spans(nodes: Seq<BstNode>, shape: Shape, x: usize) -> bool {
    &&& draws(nodes, shape, x)
    &&& ordered(nodes, shape, i32::MIN as int, i32::MAX as int + 1)
}

/// One step up the parent links: the parent has one link less above it and
/// the same root.
pub proof fn lemma_climbs_up(nodes: Seq<BstNode>, x: usize)
    requires
        has_top(nodes, x),
    ensures
        climbs(nodes, x, height_above(nodes, x)),
        nodes[x as int].parent matches Some(p) ==> has_top(nodes, p) && height_above(nodes, p) + 1
            == height_above(nodes, x) && root_of(nodes, p) == root_of(nodes, x),
{
    let n = height_above(nodes, x);
    if nodes[x as int].parent is Some {
        let p = nodes[x as int].parent.unwrap();
        assert(climbs(nodes, p, (n - 1) as nat));
        lemma_climbs_unique(nodes, p, (n - 1) as nat, height_above(nodes, p));
    }
}

/// The parent links above a slot end after one number of steps only.
pub proof fn lemma_climbs_unique(nodes: Seq<BstNode>, x: usize, n: nat, m: nat)
    requires
        climbs(nodes, x, n),
        climbs(nodes, x, m),
    ensures
        n == m,
    decreases n,
{
    if n > 0 {
        lemma_climbs_unique(nodes, nodes[x as int].parent.unwrap(), (n - 1) as nat, (m - 1) as nat);
    }
}

/// One step up from a vertex `x` that is not the root of a drawn shape: the
/// parent `q` is one link nearer to the root, and the nearest vertex above `x`
/// with `x` in its left subtree is `q` if `x` is the left child of `q`, else
/// the one of `q`.
pub proof fn lemma_step_up(
    nodes: Seq<BstNode>,
    shape: Shape,
    parent: Option<usize>,
    up: Option<usize>,
    x: usize,
)
    requires
        linked(nodes, shape, parent),
        shape.distinct(),
        shape.has(x),
        shape.link() != Some(x),
    ensures
        nodes[x as int].parent matches Some(q) && shape.has(q) && shape.depth(q) + 1
            == shape.depth(x) && shape.above(x, up) == if nodes[q as int].left == Some(x) {
            Some(q)
        } else {
            shape.above(q, up)
        },
    decreases shape,
{
    match shape {
        Shape::Leaf => {},
        Shape::Fork { left, id, right } => {
            assert(forall|i: usize| #[trigger] left.has(i) ==> !right.has(i));
            let goes = left.has(x);
            let side = if goes {
                *left
            } else {
                *right
            };
            let side_up = if goes {
                Some(id)
            } else {
                up
            };
            assert(side.has(x));
            if side.link() == Some(x) {
                reveal_with_fuel(linked, 2);
                reveal_with_fuel(Shape::above, 2);
                reveal_with_fuel(Shape::depth, 2);
                assert(nodes[x as int].parent == Some(id));
                assert(!goes ==> left.link() != Some(x)) by {
                    if left.link() == Some(x) {
                        assert(left.has(x));
                    }
                }
            } else {
                lemma_step_up(nodes, side, Some(id), side_up, x);
                let q = nodes[x as int].parent.unwrap();
                assert(side.has(q));
                assert(q != id);
                assert(goes ==> left.has(q));
                assert(!goes ==> !left.has(q));
            }
        },
    }
}

/// From a vertex of a whole drawn shape the parent links lead to its root, in
/// as many steps as the vertex is deep.
pub proof fn lemma_climb(nodes: Seq<BstNode>, shape: Shape, x: usize)
    requires
        linked(nodes, shape, None),
        shape.distinct(),
        shape.has(x),
    ensures
        climbs(nodes, x, shape.depth(x)),
        Some(ancestor(nodes, x, shape.depth(x))) == shape.link(),
        has_top(nodes, x),
        Some(root_of(nodes, x)) == shape.link(),
    decreases shape.depth(x),
{
    lemma_family(nodes, shape, None, x);
    if shape.link() != Some(x) {
        lemma_step_up(nodes, shape, None, None, x);
        lemma_climb(nodes, shape, nodes[x as int].parent.unwrap());
    }
    assert(climbs(nodes, x, shape.depth(x)));
    assert(has_top(nodes, x));
    lemma_climbs_unique(nodes, x, shape.depth(x), height_above(nodes, x));
}

/// Among the children of a vertex of an ordered shape, the left child is
/// known by its key: no other child has the same.
pub proof fn lemma_left_child_by_key(nodes: Seq<BstNode>, shape: Shape, x: usize, lo: int, hi: int)
    requires
        linked(nodes, shape, None),
        shape.distinct(),
        ordered(nodes, shape, lo, hi),
        shape.has(x),
        shape.link() != Some(x),
    ensures
        ({
            let q = nodes[x as int].parent.unwrap();
            nodes[q as int].left matches Some(l) ==> (nodes[l as int].key == nodes[x as int].key
                <==> l == x)
        }),
{
    lemma_family(nodes, shape, None, x);
    let q = nodes[x as int].parent.unwrap();
    lemma_family(nodes, shape, None, q);
    lemma_only_parent(nodes, shape, None, q, x);
    lemma_sub_ordered(nodes, shape, q, lo, hi);
    let at = shape.sub(q);
    match at {
        Shape::Leaf => {},
        Shape::Fork { left, id, right } => {
            let k = nodes[q as int].key.unwrap() as int;
            if nodes[q as int].left is Some && nodes[q as int].left != Some(x) {
                let l = nodes[q as int].left.unwrap();
                assert(left.has(l));
                assert(right.has(x));
                lemma_key_within(nodes, *left, lo, k, l);
                lemma_key_within(nodes, *right, k, hi, x);
            }
        },
    }
}

impl BstNode {
    /// The slot of the node without parent above `node`.
    pub fn get_root(nodes: &Vec<BstNode>, node: usize) -> (root: usize)
        requires
            has_top(nodes@, node),
        ensures
            root == root_of(nodes@, node),
            (root as int) < nodes.len(),
            nodes[root as int].parent is None,
    {
        let ghost mut n = height_above(nodes@, node);
        let mut x = node;
        loop
            invariant
                climbs(nodes@, x, n),
                ancestor(nodes@, x, n) == root_of(nodes@, node),
            decreases n,
        {
            match nodes[x].parent {
                None => {
                    return x;
                },
                Some(p) => {
                    proof {
                        n = (n - 1) as nat;
                    }
                    x = p;
                },
            }
        }
    }

    /// The successor of `node` as the textbook walk finds it.
    ///
    /// With a right child it is the leftmost vertex below that child.
    /// Without, the walk goes up; it ends at the first node that has a left
    /// child with the key of the node it comes from, and with `None` at the
    /// root.  In a search tree this is the vertex that follows `node` in
    /// in-order.
    pub fn tree_successor(nodes: &Vec<BstNode>, node: usize) -> (next: Option<usize>)
        requires
            is_vertex(nodes@, node),
        ensures
            next == successor(nodes@, node),
    {
        let ghost shape = choose|shape: Shape| draws(nodes@, shape, node);
        proof {
            lemma_family(nodes@, shape, None, node);
            lemma_climb(nodes@, shape, node);
        }
        let start = nodes[node];
        if let Some(r) = start.right {
            proof {
                lemma_shape_at(nodes@, r, *shape.sub(node)->right, Some(node));
            }
            return Some(BstNode::minimum(nodes, r));
        }
        let mut x = node;
        let mut y = start.parent;
        let ghost mut n = height_above(nodes@, node);
        while y.is_some()
            invariant
                draws(nodes@, shape, x),
                (x as int) < nodes.len(),
                y == nodes[x as int].parent,
                has_top(nodes@, x),
                n == height_above(nodes@, x),
                walked_up(nodes@, x, n) == successor(nodes@, node),
            decreases n,
        {
            let yi = y.unwrap();
            proof {
                lemma_family(nodes@, shape, None, x);
                lemma_family(nodes@, shape, None, yi);
                lemma_climbs_up(nodes@, x);
            }
            let over = nodes[yi];
            if let Some(l) = over.left {
                if BstNode::is_node_match(nodes, l, x) {
                    return Some(yi);
                }
            }
            x = yi;
            y = over.parent;
            proof {
                n = (n - 1) as nat;
            }
        }
        None
    }
}

/// In a search tree the walk up ends at the nearest vertex above that has
/// the start in its left subtree: the left child of a vertex is the only
/// child that can hold the key of the node the walk comes from.
pub proof fn lemma_walk_is_above(nodes: Seq<BstNode>, shape: Shape, x: usize, lo: int, hi: int)
    requires
        linked(nodes, shape, None),
        shape.distinct(),
        ordered(nodes, shape, lo, hi),
        shape.has(x),
    ensures
        walked_up(nodes, x, shape.depth(x)) == shape.above(x, None),
    decreases shape.depth(x),
{
    lemma_family(nodes, shape, None, x);
    if shape.link() != Some(x) {
        lemma_step_up(nodes, shape, None, None, x);
        lemma_left_child_by_key(nodes, shape, x, lo, hi);
        let q = nodes[x as int].parent.unwrap();
        lemma_walk_is_above(nodes, shape, q, lo, hi);
    }
}

/// In a search tree the successor that the walk finds is the vertex that
/// follows in in-order.
pub proof fn lemma_successor_follows(nodes: Seq<BstNode>, shape: Shape, x: usize)
    requires
        spans(nodes, shape, x),
    ensures
        is_vertex(nodes, x),
        successor(nodes, x) == shape.next(x),
        successor(nodes, x) == if shape.position(x) + 1 < shape.ids().len() {
            Some(shape.ids()[shape.position(x) + 1])
        } else {
            None
        },
{
    let lo = i32::MIN as int;
    let hi = i32::MAX as int + 1;
    assert(draws(nodes, shape, x));
    lemma_family(nodes, shape, None, x);
    lemma_sub_ordered(nodes, shape, x, lo, hi);
    crate::shape::lemma_next_follows(shape, x, None);
    match nodes[x as int].right {
        Some(r) => {
            let right = *shape.sub(x)->right;
            lemma_shape_at(nodes, r, right, Some(x));
            let k = nodes[x as int].key.unwrap() as int;
            lemma_extremes(nodes, right, k, hi);
        },
        None => {
            lemma_climb(nodes, shape, x);
            lemma_climbs_up(nodes, x);
            lemma_climbs_unique(nodes, x, shape.depth(x), height_above(nodes, x));
            lemma_walk_is_above(nodes, shape, x, lo, hi);
        },
    }
}

} // verus!
