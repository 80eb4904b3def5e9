use vstd::prelude::*;
use crate::climb::{has_top, height_above, lemma_climbs_up, root_of};
use crate::node::BstNode;
use crate::search::{is_rooted, leftmost, shape_at};

verus! {

/// Whether `node` counts as nil: it is absent, or it lacks a parent, a left
/// child or a right child.  Any one of the three is enough.
pub open spec fn nil_like(nodes: Seq<BstNode>, node: Option<usize>) -> bool {
    match node {
        None => true,
        Some(i) => nodes[i as int].parent is None || nodes[i as int].left is None
            || nodes[i as int].right is None,
    }
}

/// Whether two optional nodes are both absent, or both present with the same
/// key.
pub open spec fn same_key(nodes: Seq<BstNode>, a: Option<usize>, b: Option<usize>) -> bool {
    match a {
        None => b is None,
        Some(i) => b matches Some(j) && nodes[j as int].key == nodes[i as int].key,
    }
}

/// Where the short walk up ends that starts at `x` with `y` above it: the walk
/// moves one link up for as long as `y` counts as nil and `mark` holds the key
/// of `x`.  `None` if it would have to step above a node without parent; `n`
/// bounds the number of steps.
pub open spec fn short_climb(
    nodes: Seq<BstNode>,
    x: usize,
    y: usize,
    mark: Option<usize>,
    n: nat,
) -> Option<(usize, usize)>
    decreases n,
{
    if nil_like(nodes, Some(y)) && same_key(nodes, Some(x), mark) {
        match nodes[y as int].parent {
            None => None,
            Some(p) => if n == 0 {
                None
            } else {
                short_climb(nodes, y, p, mark, (n - 1) as nat)
            },
        }
    } else {
        Some((x, y))
    }
}

/// The inputs on which the short successor walk is defined: the links it
/// follows stay in the arena and end, and it never has to step above a node
/// without parent.
pub open spec fn short_walk_defined(nodes: Seq<BstNode>, node: usize) -> bool {
    &&& (node as int) < nodes.len()
    &&& nodes[node as int].right matches Some(r) ==> (r as int) < nodes.len()
    &&& if nil_like(nodes, nodes[node as int].right) {
        &&& has_top(nodes, node)
        &&& nodes[node as int].parent matches Some(y)
        &&& nodes[y as int].right matches Some(m) ==> (m as int) < nodes.len()
        &&& short_climb(nodes, node, y, nodes[y as int].right, height_above(nodes, y)) is Some
    } else {
        is_rooted(nodes, nodes[node as int].right.unwrap())
    }
}

/// What the short successor walk returns.
///
/// If the right child does not count as nil, the leftmost vertex below it.
/// Else the walk goes up from the parent as `short_climb` says, always
/// comparing with the right child of the first parent, and returns the node
/// it ends at, unless that node holds the key of the root.
pub open spec fn short_successor(nodes: Seq<BstNode>, node: usize) -> Option<usize> {
    let right = nodes[node as int].right;
    if !nil_like(nodes, right) {
        leftmost(nodes, shape_at(nodes, right.unwrap()))
    } else {
        let y = nodes[node as int].parent.unwrap();
        match short_climb(nodes, node, y, nodes[y as int].right, height_above(nodes, y)) {
            None => None,
            Some((x, top)) => if same_key(nodes, Some(top), Some(root_of(nodes, x))) {
                None
            } else {
                Some(top)
            },
        }
    }
}

impl BstNode {
    /// Whether `node` counts as nil: absent, or without a parent, a left child
    /// or a right child.
    pub fn is_nil(nodes: &Vec<BstNode>, node: Option<usize>) -> (nil: bool)
        requires
            node matches Some(i) ==> i < nodes.len(),
        ensures
            nil == nil_like(nodes@, node),
    {
        match node {
            None => true,
            Some(i) => {
                let here = nodes[i];
                here.parent.is_none() || here.left.is_none() || here.right.is_none()
            },
        }
    }

    /// Whether `a` and `b` are both absent, or both present with the same key.
    pub fn is_node_match_option(nodes: &Vec<BstNode>, a: Option<usize>, b: Option<usize>) -> (same:
        bool)
        requires
            a matches Some(i) ==> i < nodes.len(),
            b matches Some(j) ==> j < nodes.len(),
        ensures
            same == same_key(nodes@, a, b),
    {
        match a {
            None => b.is_none(),
            Some(i) => match b {
                None => false,
                Some(j) => BstNode::is_node_match(nodes, j, i),
            },
        }
    }

    /// The short successor walk: a variant of `tree_successor` that decides by
    /// `is_nil` where to stop.
    ///
    /// It agrees with `tree_successor` on few trees only: a right child
    /// without two children of its own counts as nil and is passed over, and
    /// on the way up every comparison is made with the right child of the
    /// first parent.
    pub fn tree_successor_simpler(nodes: &Vec<BstNode>, node: usize) -> (next: Option<usize>)
        requires
            short_walk_defined(nodes@, node),
        ensures
            next == short_successor(nodes@, node),
    {
        let right = nodes[node].right;
        if !BstNode::is_nil(nodes, right) {
            return Some(BstNode::minimum(nodes, right.unwrap()));
        }
        let first = match nodes[node].parent {
            Some(p) => p,
            None => {
                return None;
            },
        };
        proof {
            lemma_climbs_up(nodes@, node);
        }
        let mark = nodes[first].right;
        let mut x = node;
        let mut y = first;
        let ghost mut n = height_above(nodes@, first);
        while BstNode::is_nil(nodes, Some(y)) && BstNode::is_node_match_option(nodes, Some(x), mark)
            invariant
                (x as int) < nodes.len(),
                (y as int) < nodes.len(),
                mark matches Some(m) ==> (m as int) < nodes.len(),
                nodes[x as int].parent == Some(y),
                has_top(nodes@, x),
                n == height_above(nodes@, y),
                root_of(nodes@, x) == root_of(nodes@, node),
                short_climb(nodes@, x, y, mark, n) is Some,
                short_climb(nodes@, x, y, mark, n) == short_climb(
                    nodes@,
                    node,
                    first,
                    mark,
                    height_above(nodes@, first),
                ),
            decreases n,
        {
            proof {
                lemma_climbs_up(nodes@, x);
                lemma_climbs_up(nodes@, y);
            }
            let above = match nodes[y].parent {
                Some(p) => p,
                None => {
                    return None;
                },
            };
            x = y;
            y = above;
            proof {
                n = (n - 1) as nat;
            }
        }
        proof {
            lemma_climbs_up(nodes@, x);
        }
        let root = BstNode::get_root(nodes, x);
        if BstNode::is_node_match_option(nodes, Some(y), Some(root)) {
            return None;
        }
        Some(y)
    }
}

} // verus!
