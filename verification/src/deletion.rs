use vstd::prelude::*;
use crate::links::{
    content, lemma_family, lemma_frame_keys, lemma_frame_links, lemma_frame_same, lemma_in_arena,
    lemma_only_parent, lemma_reparent, lemma_sub_ordered, lemma_widen, linked, ordered, relinked,
};
use crate::search::found;
use crate::node::BstNode;
use crate::shape::{spliced, Shape};

verus! {

/// `shape` after the vertex that a descent for `key` finds was taken out and
/// its two subtrees were spliced into its place; `shape` itself if the
/// descent finds none.
pub open spec fn deleted(nodes: Seq<BstNode>, shape: Shape, key: i32) -> Shape {
    match found(nodes, shape, key) {
        None => shape,
        Some(z) => match shape.sub(z) {
            Shape::Leaf => shape,
            Shape::Fork { left, id, right } => shape.replace(z, spliced(*left, *right)),
        },
    }
}

/// The arena after the subtree at `u` was exchanged for the one at `v`: the
/// parent of `u` names `v` where it named `u`, and `v`, if there is one, names
/// the parent of `u` as its own.
pub open spec fn transplanted(nodes: Seq<BstNode>, u: usize, v: Option<usize>) -> Seq<BstNode> {
    let up = nodes[u as int].parent;
    let step = match up {
        None => nodes,
        Some(p) => if nodes[p as int].left == Some(u) {
            nodes.update(p as int, BstNode { left: v, ..nodes[p as int] })
        } else {
            nodes.update(p as int, BstNode { right: v, ..nodes[p as int] })
        },
    };
    match v {
        None => step,
        Some(c) => step.update(c as int, BstNode { parent: up, ..step[c as int] }),
    }
}

/// Exchanging the subtree at `z` for `with`.
///
/// If outside that subtree every node kept its key and parent and changed no
/// child link but the one to `z`, which now leads to `with`, and if `with` is
/// drawn under the parent of `z`, made of slots of the old subtree and
/// ordered within whatever bounds held the old subtree, then the new arena
/// draws `shape.replace(z, with)` in order, and its keys are those of `shape`
/// with the old subtree's exchanged for those of `with`.
pub proof fn lemma_replace(
    nodes: Seq<BstNode>,
    after: Seq<BstNode>,
    shape: Shape,
    parent: Option<usize>,
    z: usize,
    with: Shape,
    lo: int,
    hi: int,
)
    requires
        linked(nodes, shape, parent),
        shape.distinct(),
        ordered(nodes, shape, lo, hi),
        shape.has(z),
        nodes.len() <= after.len(),
        forall|i: usize| #[trigger]
            shape.has(i) && !shape.sub(z).has(i) ==> relinked(
                nodes[i as int],
                after[i as int],
                z,
                with.link(),
            ),
        linked(after, with, nodes[z as int].parent),
        with.distinct(),
        forall|i: usize| #[trigger] with.has(i) ==> shape.sub(z).has(i),
        forall|lo2: int, hi2: int| #[trigger]
            ordered(nodes, shape.sub(z), lo2, hi2) ==> ordered(after, with, lo2, hi2),
    ensures
        linked(after, shape.replace(z, with), parent),
        shape.replace(z, with).distinct(),
        ordered(after, shape.replace(z, with), lo, hi),
        shape.replace(z, with).link() == if shape.link() == Some(z) {
            with.link()
        } else {
            shape.link()
        },
        forall|x: usize|
            shape.replace(z, with).has(x) <==> (shape.has(x) && !shape.sub(z).has(x))
                || with.has(x),
        content(after, shape.replace(z, with)).add(content(nodes, shape.sub(z))) == content(
            nodes,
            shape,
        ).add(content(after, with)),
    decreases shape,
{
    let result = shape.replace(z, with);
    match shape {
        Shape::Leaf => {},
        Shape::Fork { left, id, right } => {
            let k = nodes[id as int].key.unwrap();
            if id == z {
                assert(content(after, result).add(content(nodes, shape.sub(z))) =~= content(
                    nodes,
                    shape,
                ).add(content(after, with)));
            } else {
                assert(shape.has(id));
                assert(forall|i: usize| left.has(i) ==> shape.has(i));
                assert(forall|i: usize| right.has(i) ==> shape.has(i));
                let goes = left.has(z);
                let (side, other) = if goes {
                    (*left, *right)
                } else {
                    (*right, *left)
                };
                let (slo, shi) = if goes {
                    (lo, k as int)
                } else {
                    (k as int, hi)
                };
                let (olo, ohi) = if goes {
                    (k as int, hi)
                } else {
                    (lo, k as int)
                };
                let side_parent = Some(id);
                assert(side.has(z));
                assert(!other.has(z)) by {
                    assert(forall|x: usize| #[trigger] left.has(x) ==> !right.has(x));
                }
                assert(shape.sub(z) == side.sub(z));
                assert(ordered(nodes, side, slo, shi));
                assert(ordered(nodes, other, olo, ohi));
                lemma_family(nodes, side, side_parent, z);
                let old_sub = side.sub(z);
                assert forall|i: usize| #[trigger] other.has(i) implies relinked(
                    nodes[i as int],
                    after[i as int],
                    z,
                    with.link(),
                ) by {
                    assert(forall|x: usize| #[trigger] left.has(x) ==> !right.has(x));
                    if old_sub.has(i) {
                        assert(side.has(i));
                    }
                    assert(shape.has(i));
                }
                lemma_frame_links(nodes, after, other, side_parent, z, with.link());
                lemma_frame_keys(nodes, after, other);
                assert(ordered(after, other, olo, ohi));
                lemma_replace(nodes, after, side, side_parent, z, with, slo, shi);
                let side2 = side.replace(z, with);
                assert(result == if goes {
                    Shape::Fork { left: Box::new(side2), id, right: Box::new(other) }
                } else {
                    Shape::Fork { left: Box::new(other), id, right: Box::new(side2) }
                });
                assert(!old_sub.has(id)) by {
                    if old_sub.has(id) {
                        assert(side.has(id));
                    }
                }
                assert(relinked(nodes[id as int], after[id as int], z, with.link()));
                assert(other.link() != Some(z));
                assert(linked(after, result, parent));
                assert(ordered(after, result, lo, hi));
                assert forall|x: usize| result.has(x) <==> (shape.has(x) && !shape.sub(z).has(x))
                    || with.has(x) by {
                    assert(result.has(x) <==> x == id || side2.has(x) || other.has(x));
                    assert(shape.has(x) <==> x == id || side.has(x) || other.has(x));
                    assert(side2.has(x) <==> (side.has(x) && !old_sub.has(x)) || with.has(x));
                    if old_sub.has(x) {
                        assert(side.has(x));
                    }
                    if with.has(x) {
                        assert(old_sub.has(x));
                    }
                    assert(forall|x: usize| #[trigger] left.has(x) ==> !right.has(x));
                }
                assert(result.distinct()) by {
                    assert(forall|x: usize| #[trigger] left.has(x) ==> !right.has(x));
                    assert forall|x: usize| side2.has(x) implies side.has(x) by {
                        assert(side2.has(x) <==> (side.has(x) && !old_sub.has(x)) || with.has(x));
                        if with.has(x) {
                            assert(old_sub.has(x));
                        }
                    }
                    assert(!side2.has(id));
                    assert(forall|x: usize| side2.has(x) ==> !other.has(x));
                }
                assert(content(after, result).add(content(nodes, shape.sub(z))) =~= content(
                    nodes,
                    shape,
                ).add(content(after, with))) by {
                    let a = content(after, side2);
                    let b = content(nodes, old_sub);
                    let c = content(nodes, side);
                    let d = content(after, with);
                    let e = content(nodes, other);
                    assert(a.add(b) == c.add(d));
                    assert(content(after, other) == e);
                    assert forall|v: i32|
                        content(after, result).add(b).count(v) == content(nodes, shape).add(
                            d,
                        ).count(v) by {
                        assert(a.add(b).count(v) == c.add(d).count(v));
                    }
                }
            }
        },
    }
}

/// The first vertex of a drawn shape is a vertex without a left child.
pub proof fn lemma_first(nodes: Seq<BstNode>, shape: Shape, parent: Option<usize>)
    requires
        linked(nodes, shape, parent),
        shape is Fork,
    ensures
        shape.first() matches Some(y) && shape.has(y) && nodes[y as int].left is None && (
        shape.sub(y) matches Shape::Fork { left, id, right } && *left is Leaf && id == y),
        shape.link() != shape.first() ==> *shape->left is Fork,
    decreases shape,
{
    match shape {
        Shape::Leaf => {},
        Shape::Fork { left, id, right } => {
            if *left is Fork {
                lemma_first(nodes, *left, Some(id));
            }
        },
    }
}

/// Taking the first vertex out of a shape without repeated slots is the
/// exchange of the subtree at that vertex for its right subtree.
pub proof fn lemma_without_first(shape: Shape)
    requires
        shape.distinct(),
        shape is Fork,
    ensures
        shape.first() matches Some(y) && shape.has(y) && (shape.sub(y) matches Shape::Fork {
            right,
            ..
        } && shape.without_first() == shape.replace(y, *right)),
    decreases shape,
{
    match shape {
        Shape::Leaf => {},
        Shape::Fork { left, id, right } => {
            if *left is Fork {
                lemma_without_first(*left);
            }
        },
    }
}

/// In an ordered shape the key of the first vertex is the least: it lies
/// within the bounds, and what is left without that vertex is ordered at or
/// above it.
pub proof fn lemma_first_least(nodes: Seq<BstNode>, shape: Shape, lo: int, hi: int)
    requires
        ordered(nodes, shape, lo, hi),
        shape is Fork,
    ensures
        shape.first() matches Some(y) && (nodes[y as int].key matches Some(k) && lo <= k < hi
            && ordered(nodes, shape.without_first(), k as int, hi)),
    decreases shape,
{
    match shape {
        Shape::Leaf => {},
        Shape::Fork { left, id, right } => {
            let k = nodes[id as int].key.unwrap() as int;
            if *left is Fork {
                lemma_first_least(nodes, *left, lo, k);
            }
        },
    }
}

/// The arena after a vertex `z` with at most one child was taken out: the
/// child `w`, if any, is transplanted into its place and the slot of `z` is
/// cleared.
pub open spec fn unlinked_one(nodes: Seq<BstNode>, z: usize, w: Option<usize>) -> Seq<BstNode> {
    transplanted(nodes, z, w).update(z as int, BstNode::nil())
}

/// The first step of taking out a vertex `z` with two children, where `y` is
/// the first vertex of its right subtree: unless `y` is the right child of `z`
/// itself, `y` hands its place to its own right child and adopts the right
/// child of `z`.
pub open spec fn lifted(nodes: Seq<BstNode>, z: usize, y: usize) -> Seq<BstNode> {
    let r = nodes[z as int].right.unwrap();
    if y == r {
        nodes
    } else {
        let m1 = transplanted(nodes, y, nodes[y as int].right);
        let m2 = m1.update(y as int, BstNode { right: Some(r), ..m1[y as int] });
        m2.update(r as int, BstNode { parent: Some(y), ..m2[r as int] })
    }
}

/// The arena after a vertex `z` with two children was taken out and `y`, the
/// first vertex of its right subtree, was put into its place: after the first
/// step, `y` is transplanted into the place of `z` and adopts its left child,
/// and the slot of `z` is cleared.
pub open spec fn unlinked_both(nodes: Seq<BstNode>, z: usize, y: usize) -> Seq<BstNode> {
    let l = nodes[z as int].left.unwrap();
    let m = lifted(nodes, z, y);
    let n1 = transplanted(m, z, Some(y));
    let n2 = n1.update(y as int, BstNode { left: Some(l), ..n1[y as int] });
    let n3 = n2.update(l as int, BstNode { parent: Some(y), ..n2[l as int] });
    n3.update(z as int, BstNode::nil())
}

/// What holds of an arena `after` and a shape `result` once vertex `z` was
/// taken out of `shape`: `result` is drawn in order, hangs where `shape` hung
/// unless `z` was its root, and holds every vertex but `z`; the slot of `z`
/// is cleared, every other slot has its old key, the slots outside `shape`
/// are untouched, and the keys are those of `shape` less one occurrence of
/// the key of `z`.
pub open spec fn taken_out(
    nodes: Seq<BstNode>,
    shape: Shape,
    z: usize,
    after: Seq<BstNode>,
    result: Shape,
    lo: int,
    hi: int,
) -> bool {
    &&& after.len() == nodes.len()
    &&& linked(after, result, None)
    &&& result.distinct()
    &&& ordered(after, result, lo, hi)
    &&& shape.link() != Some(z) ==> result.link() == shape.link()
    &&& forall|x: usize| result.has(x) <==> shape.has(x) && x != z
    &&& after[z as int] == BstNode::nil()
    &&& forall|i: int|
        0 <= i < nodes.len() && i != z ==> (#[trigger] after[i]).key == nodes[i].key
    &&& forall|i: int|
        0 <= i < nodes.len() && !shape.has(i as usize) ==> #[trigger] after[i] == nodes[i]
    &&& nodes[z as int].key matches Some(k) && content(after, result) == content(
        nodes,
        shape,
    ).remove(k)
}

/// Taking out a vertex with at most one child leaves the shape in which the
/// other subtree stands in its place.
pub proof fn lemma_unlink_one(nodes: Seq<BstNode>, shape: Shape, z: usize, lo: int, hi: int)
    requires
        linked(nodes, shape, None),
        shape.distinct(),
        ordered(nodes, shape, lo, hi),
        shape.has(z),
        shape.sub(z) matches Shape::Fork { left, right, .. } && (*left is Leaf || *right is Leaf),
    ensures
        ({
            let with = spliced(*shape.sub(z)->left, *shape.sub(z)->right);
            &&& taken_out(
                nodes,
                shape,
                z,
                unlinked_one(nodes, z, with.link()),
                shape.replace(z, with),
                lo,
                hi,
            )
            &&& shape.link() == Some(z) ==> nodes[z as int].parent is None
                && shape.replace(z, with).link() == with.link()
            &&& shape.link() != Some(z) ==> nodes[z as int].parent is Some
            &&& with.link() == if nodes[z as int].left is None {
                nodes[z as int].right
            } else {
                nodes[z as int].left
            }
        }),
{
    let at = shape.sub(z);
    let with = spliced(*at->left, *at->right);
    let w = with.link();
    let after = unlinked_one(nodes, z, w);
    let pz = nodes[z as int].parent;
    let kz = nodes[z as int].key.unwrap();
    lemma_family(nodes, shape, None, z);
    lemma_sub_ordered(nodes, shape, z, lo, hi);
    assert(at->id == z);
    assert(linked(nodes, with, Some(z)));
    assert(with.distinct());
    assert(forall|i: usize| with.has(i) ==> at.has(i) && i != z);
    assert(forall|i: usize| at.has(i) ==> i == z || with.has(i)) by {
        reveal_with_fuel(Shape::has, 2);
    }
    assert forall|i: usize| #[trigger] with.has(i) implies (i as int) < nodes.len() && Some(i)
        != pz by {
        lemma_in_arena(nodes, with, Some(z), i);
    }
    if pz is Some {
        lemma_in_arena(nodes, shape, None, pz.unwrap());
        lemma_only_parent(nodes, shape, None, pz.unwrap(), z);
    }
    assert forall|i: usize| #[trigger] shape.has(i) && !at.has(i) implies relinked(
        nodes[i as int],
        after[i as int],
        z,
        w,
    ) by {
        lemma_only_parent(nodes, shape, None, i, z);
        lemma_in_arena(nodes, shape, None, i);
    }
    match with {
        Shape::Leaf => {},
        Shape::Fork { id: c, .. } => {
            assert(with.has(c));
            assert(after[c as int] == BstNode { parent: pz, ..nodes[c as int] });
            assert forall|i: usize| #[trigger]
                with.has(i) && Some(i) != with.link() implies after[i as int]
                == nodes[i as int] by {}
            lemma_reparent(nodes, after, with, Some(z), pz);
        },
    }
    lemma_frame_keys(nodes, after, with);
    assert forall|lo2: int, hi2: int| #[trigger]
        ordered(nodes, at, lo2, hi2) implies ordered(after, with, lo2, hi2) by {
        if *at->left is Leaf {
            lemma_widen(nodes, with, kz as int, hi2, lo2, hi2);
        } else {
            lemma_widen(nodes, with, lo2, kz as int, lo2, hi2);
        }
    }
    lemma_replace(nodes, after, shape, None, z, with, lo, hi);
    let result = shape.replace(z, with);
    assert(content(nodes, at) =~= content(nodes, with).insert(kz)) by {
        reveal_with_fuel(content, 2);
    }
    assert(content(after, result) =~= content(nodes, shape).remove(kz)) by {
        let a = content(after, result);
        let b = content(nodes, at);
        let c = content(nodes, shape);
        let d = content(after, with);
        assert(a.add(b) == c.add(d));
        assert forall|v: i32| a.count(v) == c.remove(kz).count(v) by {
            assert(a.add(b).count(v) == c.add(d).count(v));
        }
    }
    assert forall|i: int| 0 <= i < nodes.len() && !shape.has(i as usize) implies #[trigger] after[i]
        == nodes[i] by {
        let x = i as usize;
        if with.link() == Some(x) {
            assert(with.has(x));
        }
    }
}

/// Handing the place of the first vertex `y` of a right subtree `right` to
/// its own right child, as `transplant` does, leaves `right` without `y`,
/// still drawn under `z` and holding every vertex but `y` with the old keys.
proof fn lemma_lift_first(nodes: Seq<BstNode>, right: Shape, z: usize, lo: int, hi: int)
    requires
        linked(nodes, right, Some(z)),
        right.distinct(),
        ordered(nodes, right, lo, hi),
        right is Fork,
        right.link() != right.first(),
    ensures
        ({
            let y = right.first().unwrap();
            let mid = transplanted(nodes, y, nodes[y as int].right);
            let rest = right.without_first();
            &&& mid.len() == nodes.len()
            &&& linked(mid, rest, Some(z))
            &&& rest.distinct()
            &&& rest.link() == right.link()
            &&& forall|x: usize| rest.has(x) <==> right.has(x) && x != y
            &&& forall|x: usize| #[trigger]
                right.has(x) ==> mid[x as int].key == nodes[x as int].key
            &&& forall|x: usize|
                !right.has(x) && (x as int) < nodes.len() ==> mid[x as int] == nodes[x as int]
            &&& mid[y as int] == nodes[y as int]
        }),
{
    let y = right.first().unwrap();
    let mid = transplanted(nodes, y, nodes[y as int].right);
    lemma_first(nodes, right, Some(z));
    lemma_without_first(right);
    lemma_family(nodes, right, Some(z), y);
    let at = right.sub(y);
    let below = *at->right;
    let py = nodes[y as int].parent.unwrap();
    lemma_in_arena(nodes, right, Some(z), py);
    lemma_only_parent(nodes, right, Some(z), py, y);
    assert(linked(nodes, below, Some(y)));
    assert(below.distinct());
    assert(forall|i: usize| below.has(i) ==> at.has(i) && i != y);
    assert(forall|i: usize| at.has(i) ==> i == y || below.has(i)) by {
        reveal_with_fuel(Shape::has, 2);
    }
    assert forall|i: usize| #[trigger] below.has(i) implies (i as int) < nodes.len() && i != py by {
        lemma_in_arena(nodes, below, Some(y), i);
    }
    assert forall|i: usize| #[trigger] right.has(i) && !at.has(i) implies relinked(
        nodes[i as int],
        mid[i as int],
        y,
        below.link(),
    ) by {
        lemma_only_parent(nodes, right, Some(z), i, y);
        lemma_in_arena(nodes, right, Some(z), i);
    }
    match below {
        Shape::Leaf => {},
        Shape::Fork { id: c, .. } => {
            assert(below.has(c));
            assert(mid[c as int] == BstNode { parent: Some(py), ..nodes[c as int] });
            assert forall|i: usize| #[trigger]
                below.has(i) && Some(i) != below.link() implies mid[i as int]
                == nodes[i as int] by {}
            lemma_reparent(nodes, mid, below, Some(y), Some(py));
        },
    }
    lemma_frame_keys(nodes, mid, below);
    assert forall|lo2: int, hi2: int| #[trigger]
        ordered(nodes, at, lo2, hi2) implies ordered(mid, below, lo2, hi2) by {
        let ky = nodes[y as int].key.unwrap();
        lemma_widen(nodes, below, ky as int, hi2, lo2, hi2);
    }
    lemma_replace(nodes, mid, right, Some(z), y, below, lo, hi);
    assert forall|x: usize| #[trigger] right.has(x) implies mid[x as int].key
        == nodes[x as int].key by {
        lemma_in_arena(nodes, right, Some(z), x);
    }
    assert forall|x: usize| !right.has(x) && (x as int) < nodes.len() implies mid[x as int]
        == nodes[x as int] by {
        if below.link() == Some(x) {
            assert(below.has(x));
        }
    }
}

/// Taking out a vertex with two children leaves the shape in which the first
/// vertex of its right subtree stands in its place.
pub proof fn lemma_unlink_both(nodes: Seq<BstNode>, shape: Shape, z: usize, lo: int, hi: int)
    requires
        linked(nodes, shape, None),
        shape.distinct(),
        ordered(nodes, shape, lo, hi),
        shape.has(z),
        shape.sub(z) matches Shape::Fork { left, right, .. } && *left is Fork && *right is Fork,
    ensures
        ({
            let left = *shape.sub(z)->left;
            let right = *shape.sub(z)->right;
            let y = right.first().unwrap();
            &&& taken_out(
                nodes,
                shape,
                z,
                unlinked_both(nodes, z, y),
                shape.replace(z, spliced(left, right)),
                lo,
                hi,
            )
            &&& shape.link() == Some(z) ==> nodes[z as int].parent is None
                && shape.replace(z, spliced(left, right)).link() == Some(y)
            &&& shape.link() != Some(z) ==> nodes[z as int].parent is Some
            &&& lifted(nodes, z, y).len() == nodes.len()
            &&& lifted(nodes, z, y)[z as int] == nodes[z as int]
            &&& (y as int) < nodes.len()
            &&& y != z
            &&& nodes[y as int].right matches Some(c) ==> (c as int) < nodes.len()
            &&& Some(y) != right.link() ==> (nodes[y as int].parent matches Some(q) && (
            q as int) < nodes.len())
        }),
{
    let at = shape.sub(z);
    let left = *at->left;
    let right = *at->right;
    let y = right.first().unwrap();
    let l = left.link().unwrap();
    let r = right.link().unwrap();
    let rest = right.without_first();
    let with = spliced(left, right);
    let after = unlinked_both(nodes, z, y);
    let pz = nodes[z as int].parent;
    let kz = nodes[z as int].key.unwrap();
    let ky = nodes[y as int].key.unwrap();
    lemma_family(nodes, shape, None, z);
    lemma_sub_ordered(nodes, shape, z, lo, hi);
    assert(at->id == z);
    assert(linked(nodes, left, Some(z)));
    assert(linked(nodes, right, Some(z)));
    assert(nodes[z as int].left == Some(l));
    assert(nodes[z as int].right == Some(r));
    assert(left.has(l) && right.has(r));
    assert(forall|i: usize| #[trigger] left.has(i) ==> !right.has(i));
    assert(forall|i: usize| at.has(i) <==> i == z || left.has(i) || right.has(i));
    lemma_first(nodes, right, Some(z));
    lemma_first_least(nodes, right, kz as int, hi);
    assert forall|i: usize| #[trigger] at.has(i) implies (i as int) < nodes.len() && Some(i)
        != pz by {
        lemma_in_arena(nodes, at, pz, i);
    }
    if pz is Some {
        lemma_in_arena(nodes, shape, None, pz.unwrap());
        lemma_only_parent(nodes, shape, None, pz.unwrap(), z);
    }
    // The right subtree without `y`, drawn under `y`.
    let m = lifted(nodes, z, y);
    lemma_family(nodes, right, Some(z), y);
    assert(at.distinct());
    assert(left.distinct() && right.distinct());
    if y == r {
        assert(rest == *right->right);
        assert(linked(nodes, rest, Some(y)));
        assert(rest.distinct());
        assert(!rest.has(y));
        assert forall|i: usize| #[trigger] rest.has(i) implies after[i as int]
            == nodes[i as int] by {
            assert(right.has(i));
            assert(at.has(i));
            assert(i != y && i != z && i != l);
        }
        lemma_frame_same(nodes, after, rest, Some(y));
        assert(forall|x: usize| rest.has(x) <==> right.has(x) && x != y) by {
            reveal_with_fuel(Shape::has, 2);
        }
        assert(rest.link() == nodes[y as int].right);
    } else {
        lemma_lift_first(nodes, right, z, kz as int, hi);
        let m1 = transplanted(nodes, y, nodes[y as int].right);
        assert(rest.has(r));
        assert(after[r as int] == BstNode { parent: Some(y), ..m1[r as int] });
        assert forall|i: usize| #[trigger]
            rest.has(i) && Some(i) != rest.link() implies after[i as int] == m1[i as int] by {
            assert(right.has(i));
        }
        lemma_reparent(m1, after, rest, Some(z), Some(y));
    }
    assert(linked(after, rest, Some(y)));
    assert(rest.distinct());
    assert(after[y as int] == BstNode {
        key: Some(ky),
        parent: pz,
        left: Some(l),
        right: rest.link(),
    });
    // The left subtree, handed over to `y`.
    assert(after[l as int] == BstNode { parent: Some(y), ..nodes[l as int] });
    assert forall|i: usize| #[trigger] left.has(i) && Some(i) != left.link() implies after[i as int]
        == nodes[i as int] by {}
    lemma_reparent(nodes, after, left, Some(z), Some(y));
    assert(with == Shape::Fork { left: Box::new(left), id: y, right: Box::new(rest) });
    assert(linked(after, with, pz));
    assert(with.distinct());
    assert(forall|x: usize| with.has(x) <==> at.has(x) && x != z);
    assert forall|x: usize| #[trigger] at.has(x) && x != z implies after[x as int].key
        == nodes[x as int].key by {}
    lemma_frame_keys(nodes, after, left);
    lemma_frame_keys(nodes, after, rest);
    assert forall|lo2: int, hi2: int| #[trigger]
        ordered(nodes, at, lo2, hi2) implies ordered(after, with, lo2, hi2) by {
        lemma_first_least(nodes, right, kz as int, hi2);
        lemma_widen(nodes, left, lo2, kz as int, lo2, ky as int);
        assert(ordered(nodes, rest, ky as int, hi2));
        assert(ordered(after, left, lo2, ky as int));
        assert(ordered(after, rest, ky as int, hi2));
    }
    assert forall|i: usize| #[trigger] shape.has(i) && !at.has(i) implies relinked(
        nodes[i as int],
        after[i as int],
        z,
        with.link(),
    ) by {
        lemma_only_parent(nodes, shape, None, i, z);
        lemma_in_arena(nodes, shape, None, i);
    }
    lemma_replace(nodes, after, shape, None, z, with, lo, hi);
    let result = shape.replace(z, with);
    assert(content(nodes, right) =~= content(nodes, rest).insert(ky)) by {
        lemma_content_without_first(nodes, right);
    }
    assert(content(after, result) =~= content(nodes, shape).remove(kz)) by {
        let a = content(after, result);
        let b = content(nodes, at);
        let c = content(nodes, shape);
        let d = content(after, with);
        assert(a.add(b) == c.add(d));
        assert(b =~= content(nodes, left).add(content(nodes, right)).insert(kz));
        assert(d =~= content(nodes, left).add(content(nodes, rest)).insert(ky));
        assert forall|v: i32| a.count(v) == c.remove(kz).count(v) by {
            assert(a.add(b).count(v) == c.add(d).count(v));
        }
    }
    assert forall|i: int| 0 <= i < nodes.len() && !shape.has(i as usize) implies #[trigger] after[i]
        == nodes[i] by {
        let x = i as usize;
        assert(!at.has(x));
        assert(!right.has(x) && !left.has(x));
        assert(m[i] == nodes[i]);
    }
    assert forall|i: int| 0 <= i < nodes.len() && i != z implies (#[trigger] after[i]).key
        == nodes[i].key by {
        let x = i as usize;
        if right.has(x) {
        } else {
            assert(m[i] == nodes[i]);
        }
    }
}

/// The keys of a shape are those of the shape without its first vertex, and
/// the key of that vertex.
pub proof fn lemma_content_without_first(nodes: Seq<BstNode>, shape: Shape)
    requires
        shape is Fork,
        shape.first() matches Some(y) && nodes[y as int].key is Some,
    ensures
        content(nodes, shape) == content(nodes, shape.without_first()).insert(
            nodes[shape.first().unwrap() as int].key.unwrap(),
        ),
    decreases shape,
{
    match shape {
        Shape::Leaf => {},
        Shape::Fork { left, id, right } => {
            if *left is Fork {
                lemma_content_without_first(nodes, *left);
                let y = left.first().unwrap();
                let ky = nodes[y as int].key.unwrap();
                assert(content(nodes, shape) =~= content(nodes, shape.without_first()).insert(ky));
            } else {
                reveal_with_fuel(content, 2);
                assert(content(nodes, shape) =~= content(nodes, *right).insert(
                    nodes[id as int].key.unwrap(),
                ));
            }
        },
    }
}

} // verus!
