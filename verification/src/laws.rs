use vstd::prelude::*;
use vstd::multiset::Multiset;
use crate::climb::{
    has_top, is_vertex, lemma_climb, lemma_successor_follows, root_of, successor,
};
use crate::links::{
    inorder, key_of, lemma_family, lemma_inorder_content, lemma_inorder_sorted, lemma_key_within,
    lemma_sub_ordered,
};
use crate::search::{
    found, is_rooted, leftmost, lemma_extremes, lemma_search_finds, lemma_search_is_found,
    lemma_shape_at, rightmost, searched, shape_at,
};
use crate::shape::{lemma_sub_root, Shape};
use crate::tree::BST;

verus! {

impl BST {
    /// The keys of the tree as an in-order traversal meets them.
    pub open spec fn keys(&self) -> Seq<i32> {
        inorder(self.nodes@, self.shape())
    }

    /// An in-order traversal of a well-formed tree never meets a key below
    /// one it met before, and it meets each key as often as the tree holds
    /// it.
    pub proof fn law_inorder_sorted(&self)
        requires
            self.wf(),
        ensures
            forall|i: int, j: int|
                0 <= i <= j < self.keys().len() ==> self.keys()[i] <= self.keys()[j],
            self.keys().to_multiset() == self@,
    {
        let shape = self.shape();
        let lo = i32::MIN as int;
        let hi = i32::MAX as int + 1;
        lemma_inorder_sorted(self.nodes@, shape, lo, hi);
        assert forall|x: usize| #[trigger] shape.has(x) implies self.nodes@[x as int].key
            is Some by {
            lemma_key_within(self.nodes@, shape, lo, hi, x);
        }
        lemma_inorder_content(self.nodes@, shape);
    }

    /// In a well-formed tree every vertex has a key; the keys in its left
    /// subtree are below its own, and those in its right subtree are not.
    pub proof fn law_order(&self, x: usize)
        requires
            self.wf(),
            self.shape().has(x),
        ensures
            self.nodes[x as int].key is Some,
            forall|y: usize| #[trigger]
                self.shape().sub(x)->left.has(y) ==> key_of(self.nodes@, y) < key_of(
                    self.nodes@,
                    x,
                ),
            forall|y: usize| #[trigger]
                self.shape().sub(x)->right.has(y) ==> key_of(self.nodes@, y) >= key_of(
                    self.nodes@,
                    x,
                ),
    {
        let lo = i32::MIN as int;
        let hi = i32::MAX as int + 1;
        let at = self.shape().sub(x);
        lemma_sub_root(self.shape(), x);
        lemma_sub_ordered(self.nodes@, self.shape(), x, lo, hi);
        let k = key_of(self.nodes@, x) as int;
        assert forall|y: usize| #[trigger] at->left.has(y) implies key_of(self.nodes@, y) < k by {
            lemma_key_within(self.nodes@, *at->left, lo, k, y);
        }
        assert forall|y: usize| #[trigger] at->right.has(y) implies key_of(self.nodes@, y) >= k by {
            lemma_key_within(self.nodes@, *at->right, k, hi, y);
        }
    }

    /// A well-formed tree has no root exactly if it holds no key.
    pub proof fn law_empty(&self)
        requires
            self.wf(),
        ensures
            self.root is None <==> self@ == Multiset::<i32>::empty(),
    {
        match self.shape() {
            Shape::Leaf => {},
            Shape::Fork { left, id, right } => {
                let k = self.nodes@[id as int].key.unwrap();
                assert(self@.count(k) > 0);
            },
        }
    }

    /// A search from the root of a well-formed tree finds a vertex exactly if
    /// the tree holds the key, and the vertex it finds holds that key: it is
    /// the one that a deletion of the key takes out.
    pub proof fn law_search_finds(&self, key: i32)
        requires
            self.wf(),
            self.root is Some,
        ensures
            is_rooted(self.nodes@, self.root.unwrap()),
            shape_at(self.nodes@, self.root.unwrap()) == self.shape(),
            searched(self.nodes@, self.shape(), key) == found(self.nodes@, self.shape(), key),
            searched(self.nodes@, self.shape(), key) is Some <==> self@.count(key) > 0,
            searched(self.nodes@, self.shape(), key) matches Some(hit) ==> self.shape().has(hit)
                && self.nodes[hit as int].key == Some(key),
    {
        let lo = i32::MIN as int;
        let hi = i32::MAX as int + 1;
        lemma_shape_at(self.nodes@, self.root.unwrap(), self.shape(), None);
        lemma_search_finds(self.nodes@, self.shape(), lo, hi, key);
        lemma_search_is_found(self.nodes@, self.shape(), lo, hi, key);
    }

    /// In a well-formed tree the leftmost vertex is the first of the in-order
    /// traversal and the rightmost the last, and no vertex holds a key below
    /// that of the leftmost or above that of the rightmost.
    pub proof fn law_extremes(&self)
        requires
            self.wf(),
            self.root is Some,
        ensures
            leftmost(self.nodes@, self.shape()) == Some(self.shape().ids().first()),
            rightmost(self.nodes@, self.shape()) == Some(self.shape().ids().last()),
            forall|x: usize| #[trigger]
                self.shape().has(x) ==> key_of(self.nodes@, self.shape().ids().first()) <= key_of(
                    self.nodes@,
                    x,
                ) <= key_of(self.nodes@, self.shape().ids().last()),
    {
        lemma_extremes(self.nodes@, self.shape(), i32::MIN as int, i32::MAX as int + 1);
    }

    /// In a well-formed tree the successor of a vertex is the vertex one
    /// place further in the in-order traversal, and the last vertex has none.
    pub proof fn law_successor(&self, x: usize)
        requires
            self.wf(),
            self.shape().has(x),
        ensures
            is_vertex(self.nodes@, x),
            successor(self.nodes@, x) == if self.shape().position(x) + 1
                < self.shape().ids().len() {
                Some(self.shape().ids()[self.shape().position(x) + 1])
            } else {
                None
            },
    {
        lemma_successor_follows(self.nodes@, self.shape(), x);
    }

    /// Below every vertex of a well-formed tree the links draw the subtree
    /// that the tree has there.
    pub proof fn law_subtree(&self, x: usize)
        requires
            self.wf(),
            self.shape().has(x),
        ensures
            is_rooted(self.nodes@, x),
            shape_at(self.nodes@, x) == self.shape().sub(x),
    {
        lemma_family(self.nodes@, self.shape(), None, x);
        lemma_shape_at(self.nodes@, x, self.shape().sub(x), self.nodes@[x as int].parent);
    }

    /// From every vertex of a well-formed tree the parent links lead to its
    /// root.
    pub proof fn law_root(&self, x: usize)
        requires
            self.wf(),
            self.shape().has(x),
        ensures
            has_top(self.nodes@, x),
            Some(root_of(self.nodes@, x)) == self.root,
    {
        lemma_climb(self.nodes@, self.shape(), x);
    }
}

} // verus!
