use vstd::prelude::*;
use vstd::multiset::Multiset;
use crate::deletion::{
    deleted, lemma_unlink_both, lemma_unlink_one, lifted, taken_out, transplanted,
};
use crate::insertion::{
    attach_point, attached, inserted, lemma_attach_point_inside, lemma_insert,
};
use crate::links::{
    content, lemma_family, lemma_in_arena, lemma_shape_unique, lemma_sub_ordered, linked, ordered,
};
use crate::node::BstNode;
use crate::search::{
    found, lemma_extremes, lemma_found_iff_present, lemma_found_inside, lemma_shape_at,
};
use crate::shape::Shape;

verus! {

/// A binary search tree: an arena of nodes, the slot of the root, and the
/// slots that are free for new vertices.
///
/// Slots are stable: a vertex keeps its slot for as long as it is in the tree.
/// The slot of a deleted vertex is cleared to `BstNode::nil()` and released:
/// it is the first to be taken by a later insertion.
pub struct BST {
    pub nodes: Vec<BstNode>,
    pub root: Option<usize>,
    pub free: Vec<usize>,
}

impl View for BST {
    type V = Multiset<i32>;

    /// The keys in the tree, with multiplicity.
    open spec fn view(&self) -> Multiset<i32> {
        content(self.nodes@, self.shape())
    }
}

impl BST {
    /// The free list names slots of the arena that are no vertices of
    /// `shape`, each once.
    pub open spec fn spare(&self, shape: Shape) -> bool {
        &&& self.free@.no_duplicates()
        &&& forall|i: int|
            0 <= i < self.free@.len() ==> (#[trigger] self.free@[i] as int) < self.nodes@.len()
                && !shape.has(self.free@[i])
    }

    /// `shape` is the tree that this value holds: it hangs under `root` with no
    /// parent, the links of the arena draw it, no slot occurs twice in it, its
    /// keys are in search-tree order, and none of its slots is listed as free.
    pub open spec fn has_shape(&self, shape: Shape) -> bool {
        &&& shape.link() == self.root
        &&& linked(self.nodes@, shape, None)
        &&& shape.distinct()
        &&& ordered(self.nodes@, shape, i32::MIN as int, i32::MAX as int + 1)
        &&& self.spare(shape)
    }

    /// The invariant of the type: the root has no parent, parent and child
    /// links agree, the keys are in search-tree order, and the free slots
    /// are apart from the tree.
    pub open spec fn wf(&self) -> bool {
        exists|shape: Shape| self.has_shape(shape)
    }

    /// The shape of a well-formed tree.
    pub open spec fn shape(&self) -> Shape {
        choose|shape: Shape| self.has_shape(shape)
    }

    /// The slot that the next new vertex takes: the one released last, or a
    /// new one at the end of the arena if none is free.
    pub open spec fn next_slot(&self) -> usize {
        if self.free@.len() > 0 {
            self.free@.last()
        } else {
            self.nodes@.len() as usize
        }
    }

    /// A well-formed tree has one shape only.
    pub proof fn lemma_shape_is(&self, shape: Shape)
        requires
            self.has_shape(shape),
        ensures
            self.wf(),
            self.shape() == shape,
    {
        lemma_shape_unique(self.nodes@, shape, None, self.shape(), None);
    }

    /// An empty tree with an empty arena.
    pub fn new() -> (tree: BST)
        ensures
            tree.wf(),
            tree.shape() == Shape::Leaf,
            tree.nodes@ == Seq::<BstNode>::empty(),
            tree.free@ == Seq::<usize>::empty(),
            tree.root is None,
            tree@ == Multiset::<i32>::empty(),
    {
        let tree = BST { nodes: Vec::new(), root: None, free: Vec::new() };
        proof {
            tree.lemma_shape_is(Shape::Leaf);
        }
        tree
    }

    /// Takes the slot for a new vertex: the free slot released last, or a
    /// new slot at the end of the arena, filled with `BstNode::nil()`.
    fn take_slot(nodes: &mut Vec<BstNode>, free: &mut Vec<usize>) -> (slot: usize)
        ensures
            old(free)@.len() > 0 ==> {
                &&& slot == old(free)@.last()
                &&& final(free)@ == old(free)@.drop_last()
                &&& final(nodes)@ == old(nodes)@
            },
            old(free)@.len() == 0 ==> {
                &&& slot == old(nodes)@.len()
                &&& final(free)@ == old(free)@
                &&& final(nodes)@ == old(nodes)@.push(BstNode::nil())
            },
    {
        match free.pop() {
            Some(slot) => {
                proof {
                    assert(final(free)@ =~= old(free)@.drop_last());
                }
                slot
            },
            None => {
                let slot = nodes.len();
                nodes.push(BstNode::released());
                slot
            },
        }
    }

    /// Adds a vertex for `value`.
    ///
    /// The descent starts at the root and turns left where `value` is below the
    /// key of the vertex, right otherwise; the new vertex is hung where the
    /// descent leaves the tree, with a back-reference to the vertex above it.
    /// It takes the slot `next_slot()`, and no other vertex moves.
    pub fn tree_insert(&mut self, value: i32)
        requires
            old(self).wf(),
        ensures
            final(self).wf(),
            final(self).shape() == inserted(
                old(self).nodes@,
                old(self).shape(),
                value,
                old(self).next_slot(),
            ),
            final(self)@ == old(self)@.insert(value),
            final(self).nodes[old(self).next_slot() as int] == (BstNode {
                key: Some(value),
                parent: attach_point(old(self).nodes@, old(self).shape(), value, None),
                left: None,
                right: None,
            }),
            forall|i: int|
                0 <= i < old(self).nodes.len() && i != old(self).next_slot() ==> (
                #[trigger] final(self).nodes[i]).key == old(self).nodes[i].key,
            forall|i: int|
                0 <= i < old(self).nodes.len() && i != old(self).next_slot()
                    && !old(self).shape().has(i as usize) ==> #[trigger] final(self).nodes[i]
                    == old(self).nodes[i],
            final(self).free@ == if old(self).free@.len() > 0 {
                old(self).free@.drop_last()
            } else {
                old(self).free@
            },
            final(self).nodes.len() == old(self).nodes.len() + if old(self).free@.len() > 0 {
                0int
            } else {
                1int
            },
    {
        let ghost shape = self.shape();
        let ghost before = self.nodes@;
        let ghost lo = i32::MIN as int;
        let ghost hi = i32::MAX as int + 1;
        let mut y: Option<usize> = None;
        let mut x = self.root;
        let ghost mut cur = shape;
        while x.is_some()
            invariant
                *self == *old(self),
                cur.link() == x,
                y is None ==> cur == shape,
                linked(self.nodes@, cur, y),
                attach_point(self.nodes@, cur, value, y) == attach_point(
                    self.nodes@,
                    shape,
                    value,
                    None,
                ),
            decreases cur,
        {
            let xi = x.unwrap();
            y = x;
            if self.nodes[xi].turns_left(value) {
                x = self.nodes[xi].left;
                proof {
                    cur = *cur->left;
                }
            } else {
                x = self.nodes[xi].right;
                proof {
                    cur = *cur->right;
                }
            }
        }
        proof {
            assert forall|i: usize| shape.has(i) implies (i as int) < before.len() by {
                lemma_in_arena(before, shape, None, i);
            }
            if self.free@.len() > 0 {
                assert(!shape.has(self.free@[self.free@.len() - 1]));
            }
        }
        let slot = BST::take_slot(&mut self.nodes, &mut self.free);
        let ghost grown = inserted(before, shape, value, slot);
        self.nodes.set(slot, BstNode { key: Some(value), parent: y, left: None, right: None });
        match y {
            None => {
                self.root = Some(slot);
                proof {
                    assert(shape == Shape::Leaf);
                    reveal_with_fuel(linked, 2);
                    reveal_with_fuel(ordered, 2);
                    reveal_with_fuel(content, 2);
                    reveal_with_fuel(Shape::distinct, 2);
                    reveal_with_fuel(Shape::has, 2);
                    assert(content(self.nodes@, grown) =~= content(before, shape).insert(value));
                }
            },
            Some(yi) => {
                proof {
                    lemma_attach_point_inside(before, shape, value, None);
                }
                let mut above = self.nodes[yi];
                if above.turns_left(value) {
                    above.left = Some(slot);
                } else {
                    above.right = Some(slot);
                }
                self.nodes.set(yi, above);
                proof {
                    assert(attached(before, self.nodes@, shape, value, slot, yi));
                    lemma_insert(before, self.nodes@, shape, None, value, slot, lo, hi);
                }
            },
        }
        proof {
            assert(forall|x: usize| grown.has(x) <==> shape.has(x) || x == slot);
            assert(self.spare(grown)) by {
                let spare = old(self).free@;
                assert forall|i: int| 0 <= i < self.free@.len() implies (
                #[trigger] self.free@[i] as int) < self.nodes@.len() && !grown.has(
                    self.free@[i],
                ) by {
                    assert(self.free@[i] == spare[i]);
                    assert(!shape.has(spare[i]));
                    if spare.len() > 0 {
                        assert(spare[i] != spare[spare.len() - 1]);
                    }
                }
            }
            self.lemma_shape_is(grown);
        }
    }

    /// Puts the subtree rooted at `v`, or nothing, into the place of the
    /// subtree rooted at `u`: the root of the tree if `u` has no parent,
    /// else the child link of its parent that names `u`.  `v` gets the parent
    /// of `u`; `u` itself is left as it was.
    fn transplant(&mut self, u: usize, v: Option<usize>)
        requires
            u < old(self).nodes.len(),
            v matches Some(c) ==> c < old(self).nodes.len(),
            old(self).nodes[u as int].parent matches Some(p) ==> p < old(self).nodes.len(),
        ensures
            final(self).nodes@ == transplanted(old(self).nodes@, u, v),
            final(self).nodes.len() == old(self).nodes.len(),
            final(self).free == old(self).free,
            final(self).root == if old(self).nodes[u as int].parent is None {
                v
            } else {
                old(self).root
            },
    {
        let up = self.nodes[u].parent;
        match up {
            None => {
                self.root = v;
            },
            Some(p) => {
                let mut parent = self.nodes[p];
                let names_u = match parent.left {
                    Some(l) => l == u,
                    None => false,
                };
                if names_u {
                    parent.left = v;
                } else {
                    parent.right = v;
                }
                self.nodes.set(p, parent);
            },
        }
        if let Some(c) = v {
            let mut child = self.nodes[c];
            child.parent = up;
            self.nodes.set(c, child);
        }
    }

    /// Takes out the first vertex with key `value` that a descent for `value`
    /// meets; does nothing if it meets none.
    ///
    /// A vertex without a left child hands its place to its right child, one
    /// with a left child only to that child.  A vertex with two children hands
    /// its place to the first vertex of its right subtree.  Vertices are
    /// re-linked, never copied, so each keeps its slot; the slot of the vertex
    /// taken out is cleared and released.
    pub fn tree_delete(&mut self, value: i32)
        requires
            old(self).wf(),
        ensures
            final(self).wf(),
            final(self).shape() == deleted(old(self).nodes@, old(self).shape(), value),
            final(self)@ == old(self)@.remove(value),
            old(self)@.count(value) == 0 ==> {
                &&& final(self).nodes@ == old(self).nodes@
                &&& final(self).root == old(self).root
                &&& final(self).free@ == old(self).free@
            },
            found(old(self).nodes@, old(self).shape(), value) matches Some(z) ==> {
                &&& final(self).nodes[z as int] == BstNode::nil()
                &&& final(self).free@ == old(self).free@.push(z)
            },
            final(self).nodes.len() == old(self).nodes.len(),
            forall|i: int|
                0 <= i < old(self).nodes.len() && Some(i as usize) != found(
                    old(self).nodes@,
                    old(self).shape(),
                    value,
                ) ==> (#[trigger] final(self).nodes[i]).key == old(self).nodes[i].key,
            forall|i: int|
                0 <= i < old(self).nodes.len() && !old(self).shape().has(i as usize)
                    ==> #[trigger] final(self).nodes[i] == old(self).nodes[i],
    {
        let ghost shape = self.shape();
        let ghost before = self.nodes@;
        let ghost lo = i32::MIN as int;
        let ghost hi = i32::MAX as int + 1;
        let mut z: Option<usize> = None;
        let mut x = self.root;
        let ghost mut cur = shape;
        let ghost mut above: Option<usize> = None;
        while x.is_some() && z.is_none()
            invariant
                *self == *old(self),
                cur.link() == x,
                linked(self.nodes@, cur, above),
                z is None ==> found(self.nodes@, cur, value) == found(self.nodes@, shape, value),
                z is Some ==> z == found(self.nodes@, shape, value),
            decreases cur, (if z is None { 1nat } else { 0nat }),
        {
            let xi = x.unwrap();
            if self.nodes[xi].holds(value) {
                z = x;
            } else {
                proof {
                    above = x;
                }
                if self.nodes[xi].turns_left(value) {
                    x = self.nodes[xi].left;
                    proof {
                        cur = *cur->left;
                    }
                } else {
                    x = self.nodes[xi].right;
                    proof {
                        cur = *cur->right;
                    }
                }
            }
        }
        proof {
            lemma_found_iff_present(before, shape, lo, hi, value);
            lemma_found_inside(before, shape, value);
        }
        let zi = match z {
            None => {
                proof {
                    assert(content(before, shape).remove(value) =~= content(before, shape));
                }
                return ;
            },
            Some(zi) => zi,
        };
        proof {
            lemma_family(before, shape, None, zi);
            lemma_sub_ordered(before, shape, zi, lo, hi);
        }
        let ghost at = shape.sub(zi);
        let here = self.nodes[zi];
        match (here.left, here.right) {
            (None, w) => {
                self.transplant(zi, w);
                proof {
                    lemma_unlink_one(before, shape, zi, lo, hi);
                }
            },
            (Some(l), None) => {
                self.transplant(zi, Some(l));
                proof {
                    lemma_unlink_one(before, shape, zi, lo, hi);
                }
            },
            (Some(l), Some(r)) => {
                proof {
                    let right = *at->right;
                    lemma_shape_at(before, r, right, Some(zi));
                    lemma_extremes(before, right, before[zi as int].key.unwrap() as int, hi);
                    lemma_unlink_both(before, shape, zi, lo, hi);
                }
                let y = BstNode::minimum(&self.nodes, r);
                if y != r {
                    let orphan = self.nodes[y].right;
                    self.transplant(y, orphan);
                    let mut heir = self.nodes[y];
                    heir.right = Some(r);
                    self.nodes.set(y, heir);
                    let mut adopted = self.nodes[r];
                    adopted.parent = Some(y);
                    self.nodes.set(r, adopted);
                }
                proof {
                    assert(self.nodes@ == lifted(before, zi, y));
                }
                self.transplant(zi, Some(y));
                let mut heir = self.nodes[y];
                heir.left = Some(l);
                self.nodes.set(y, heir);
                let mut adopted = self.nodes[l];
                adopted.parent = Some(y);
                self.nodes.set(l, adopted);
            },
        }
        self.nodes.set(zi, BstNode::released());
        self.free.push(zi);
        proof {
            let result = deleted(before, shape, value);
            assert(taken_out(before, shape, zi, self.nodes@, result, lo, hi));
            assert(result.link() == self.root);
            assert(self.spare(result)) by {
                let spare = old(self).free@;
                assert(self.free@ == spare.push(zi));
                assert forall|i: int| 0 <= i < spare.len() implies spare[i] != zi && !result.has(
                    spare[i],
                ) by {
                    assert(!shape.has(spare[i]));
                }
            }
            self.lemma_shape_is(result);
        }
    }
}

} // verus!
