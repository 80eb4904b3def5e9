use vstd::prelude::*;

verus! {

/// One vertex of a tree: a key and the slots of its parent and children.
///
/// A node with no key stands for the nil sentinel; no operation of the tree
/// ever creates one as a live vertex.
#[derive(Clone, Copy, Debug, PartialEq, Eq)]
pub struct BstNode {
    pub key: Option<i32>,
    pub parent: Option<usize>,
    pub left: Option<usize>,
    pub right: Option<usize>,
}

impl BstNode {
    /// A detached vertex holding `key`.
    pub open spec fn detached(key: i32) -> BstNode {
        BstNode { key: Some(key), parent: None, left: None, right: None }
    }

    /// A childless vertex holding `key` under `parent`.
    pub open spec fn child_of(parent: usize, key: i32) -> BstNode {
        BstNode { key: Some(key), parent: Some(parent), left: None, right: None }
    }

    /// The contents of a released slot: no key and no links.
    pub open spec fn nil() -> BstNode {
        BstNode { key: None, parent: None, left: None, right: None }
    }

    /// Whether a descent for `key` turns left at this node: it does when
    /// `key` is below the key stored here.  Equal keys turn right.
    pub open spec fn above_key(&self, key: i32) -> bool {
        self.key matches Some(k) && key < k
    }

    /// A node holding `key`, without links.
    pub fn new(key: i32) -> (node: BstNode)
        ensures
            node == BstNode::detached(key),
    {
        BstNode { key: Some(key), left: None, right: None, parent: None }
    }

    /// A node without key and links, as a released slot holds it.
    pub fn released() -> (node: BstNode)
        ensures
            node == BstNode::nil(),
    {
        BstNode { key: None, left: None, right: None, parent: None }
    }

    /// Whether this node holds `key`.
    pub fn holds(&self, key: i32) -> (yes: bool)
        ensures
            yes == (self.key == Some(key)),
    {
        match self.key {
            Some(k) => k == key,
            None => false,
        }
    }

    /// Whether a descent for `key` turns left at this node.
    pub fn turns_left(&self, key: i32) -> (yes: bool)
        ensures
            yes == self.above_key(key),
    {
        match self.key {
            Some(k) => key < k,
            None => false,
        }
    }

    /// Whether the nodes in slots `a` and `b` hold the same key.
    pub fn is_node_match(nodes: &Vec<BstNode>, a: usize, b: usize) -> (same: bool)
        requires
            a < nodes.len(),
            b < nodes.len(),
        ensures
            same == (nodes[a as int].key == nodes[b as int].key),
    {
        match (nodes[a].key, nodes[b].key) {
            (Some(ka), Some(kb)) => ka == kb,
            (None, None) => true,
            _ => false,
        }
    }

    /// Stores a detached node holding `value` in a new slot and returns the
    /// slot.
    pub fn new_bst_nodelink(nodes: &mut Vec<BstNode>, value: i32) -> (link: usize)
        ensures
            link == old(nodes).len(),
            final(nodes)@ == old(nodes)@.push(BstNode::detached(value)),
    {
        let link = nodes.len();
        nodes.push(BstNode::new(value));
        link
    }

    /// A copy of this node: same key, same links, in a cell of its own.
    pub fn get_bst_nodelink_copy(&self) -> (copy: BstNode)
        ensures
            copy == *self,
    {
        *self
    }

    /// Stores a childless node holding `value` in a new slot, with a
    /// back-reference to `parent`, and returns the slot.
    pub fn new_with_parent(nodes: &mut Vec<BstNode>, parent: usize, value: i32) -> (link: usize)
        ensures
            link == old(nodes).len(),
            final(nodes)@ == old(nodes)@.push(BstNode::child_of(parent, value)),
    {
        let link = nodes.len();
        let mut node = BstNode::new(value);
        node.parent = Some(parent);
        nodes.push(node);
        link
    }

    /// Gives `node` a new left child holding `value`, in a new slot.
    ///
    /// No order is checked and an earlier left child is not asked for: the
    /// link to it is overwritten.
    pub fn add_left_child(nodes: &mut Vec<BstNode>, node: usize, value: i32)
        requires
            node < old(nodes).len(),
        ensures
            final(nodes)@ == old(nodes)@.push(BstNode::child_of(node, value)).update(
                node as int,
                BstNode { left: Some(old(nodes).len()), ..old(nodes)[node as int] },
            ),
    {
        let child = BstNode::new_with_parent(nodes, node, value);
        let mut parent = nodes[node];
        parent.left = Some(child);
        nodes.set(node, parent);
    }

    /// Gives `node` a new right child holding `value`, in a new slot.
    ///
    /// No order is checked and an earlier right child is not asked for: the
    /// link to it is overwritten.
    pub fn add_right_child(nodes: &mut Vec<BstNode>, node: usize, value: i32)
        requires
            node < old(nodes).len(),
        ensures
            final(nodes)@ == old(nodes)@.push(BstNode::child_of(node, value)).update(
                node as int,
                BstNode { right: Some(old(nodes).len()), ..old(nodes)[node as int] },
            ),
    {
        let child = BstNode::new_with_parent(nodes, node, value);
        let mut parent = nodes[node];
        parent.right = Some(child);
        nodes.set(node, parent);
    }
}

} // verus!
