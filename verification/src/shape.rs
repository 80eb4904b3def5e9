use vstd::prelude::*;

verus! {

/// The outline of a binary tree whose vertices are arena slots.
///
/// A shape says which slot is the root and, for every vertex, which slots make
/// up its left and its right subtree.  It carries no keys: those live in the
/// arena.  Shapes exist only in specifications and proofs.
pub enum Shape {
    Leaf,
    Fork { left: Box<Shape>, id: usize, right: Box<Shape> },
}

impl Shape {
    /// The link under which this shape hangs: its root slot, if it has one.
    pub open spec fn link(self) -> Option<usize> {
        match self {
            Shape::Leaf => None,
            Shape::Fork { id, .. } => Some(id),
        }
    }

    /// A shape with the single vertex `id`.
    pub open spec fn single(id: usize) -> Shape {
        Shape::Fork { left: Box::new(Shape::Leaf), id, right: Box::new(Shape::Leaf) }
    }

    /// Whether slot `x` is a vertex of this shape.
    pub open spec fn has(self, x: usize) -> bool
        decreases self,
    {
        match self {
            Shape::Leaf => false,
            Shape::Fork { left, id, right } => x == id || left.has(x) || right.has(x),
        }
    }

    /// No slot occurs twice.
    pub open spec fn distinct(self) -> bool
        decreases self,
    {
        match self {
            Shape::Leaf => true,
            Shape::Fork { left, id, right } => {
                &&& left.distinct()
                &&& right.distinct()
                &&& !left.has(id)
                &&& !right.has(id)
                &&& forall|x: usize| #[trigger] left.has(x) ==> !right.has(x)
            },
        }
    }

    /// The vertices in in-order: left subtree, root, right subtree.
    pub open spec fn ids(self) -> Seq<usize>
        decreases self,
    {
        match self {
            Shape::Leaf => Seq::empty(),
            Shape::Fork { left, id, right } => left.ids().push(id) + right.ids(),
        }
    }

    /// The subtree rooted at `x`; `Leaf` if `x` is no vertex.
    pub open spec fn sub(self, x: usize) -> Shape
        decreases self,
    {
        match self {
            Shape::Leaf => Shape::Leaf,
            Shape::Fork { left, id, right } => if id == x {
                self
            } else if left.has(x) {
                left.sub(x)
            } else {
                right.sub(x)
            },
        }
    }

    /// This shape with the subtree rooted at `x` exchanged for `with`.
    pub open spec fn replace(self, x: usize, with: Shape) -> Shape
        decreases self,
    {
        match self {
            Shape::Leaf => Shape::Leaf,
            Shape::Fork { left, id, right } => if id == x {
                with
            } else if left.has(x) {
                Shape::Fork { left: Box::new(left.replace(x, with)), id, right }
            } else {
                Shape::Fork { left, id, right: Box::new(right.replace(x, with)) }
            },
        }
    }

    /// The leftmost vertex, the first in in-order.
    pub open spec fn first(self) -> Option<usize>
        decreases self,
    {
        match self {
            Shape::Leaf => None,
            Shape::Fork { left, id, right } => if *left is Leaf {
                Some(id)
            } else {
                left.first()
            },
        }
    }

    /// The rightmost vertex, the last in in-order.
    pub open spec fn last(self) -> Option<usize>
        decreases self,
    {
        match self {
            Shape::Leaf => None,
            Shape::Fork { left, id, right } => if *right is Leaf {
                Some(id)
            } else {
                right.last()
            },
        }
    }

    /// The number of links between the root and vertex `x`.
    pub open spec fn depth(self, x: usize) -> nat
        decreases self,
    {
        match self {
            Shape::Leaf => 0,
            Shape::Fork { left, id, right } => if id == x {
                0
            } else if left.has(x) {
                left.depth(x) + 1
            } else {
                right.depth(x) + 1
            },
        }
    }

    /// The nearest vertex above `x` that has `x` in its left subtree; `up` if
    /// this shape has none.
    pub open spec fn above(self, x: usize, up: Option<usize>) -> Option<usize>
        decreases self,
    {
        match self {
            Shape::Leaf => up,
            Shape::Fork { left, id, right } => if id == x {
                up
            } else if left.has(x) {
                left.above(x, Some(id))
            } else {
                right.above(x, up)
            },
        }
    }

    /// The vertex that follows `x`: the first of its right subtree if it has
    /// one, else the nearest vertex above that has `x` in its left subtree,
    /// and `up` if this shape has none.
    pub open spec fn next_or(self, x: usize, up: Option<usize>) -> Option<usize> {
        match self.sub(x) {
            Shape::Leaf => up,
            Shape::Fork { right, .. } => if *right is Fork {
                right.first()
            } else {
                self.above(x, up)
            },
        }
    }

    /// The vertex that follows `x` in in-order; `None` for the last vertex.
    pub open spec fn next(self, x: usize) -> Option<usize> {
        self.next_or(x, None)
    }

    /// The place of vertex `x` in in-order, counted from 0.
    pub open spec fn position(self, x: usize) -> int
        decreases self,
    {
        match self {
            Shape::Leaf => 0,
            Shape::Fork { left, id, right } => if id == x {
                left.ids().len() as int
            } else if left.has(x) {
                left.position(x)
            } else {
                left.ids().len() + 1 + right.position(x)
            },
        }
    }

    /// This shape without its leftmost vertex, whose right subtree moves up
    /// into its place.
    pub open spec fn without_first(self) -> Shape
        decreases self,
    {
        match self {
            Shape::Leaf => Shape::Leaf,
            Shape::Fork { left, id, right } => if *left is Leaf {
                *right
            } else {
                Shape::Fork { left: Box::new(left.without_first()), id, right }
            },
        }
    }
}

/// What takes the place of a removed vertex with subtrees `left` and `right`:
/// the other subtree if one is empty, else the first vertex of `right` with
/// `left` below it on the left and the rest of `right` on the right.
pub open spec fn spliced(left: Shape, right: Shape) -> Shape {
    if left is Leaf {
        right
    } else if right is Leaf {
        left
    } else {
        Shape::Fork {
            left: Box::new(left),
            id: right.first().unwrap(),
            right: Box::new(right.without_first()),
        }
    }
}

/// The subtree at a vertex has that vertex as its root.
pub proof fn lemma_sub_root(shape: Shape, x: usize)
    requires
        shape.has(x),
    ensures
        shape.sub(x).link() == Some(x),
    decreases shape,
{
    match shape {
        Shape::Leaf => {},
        Shape::Fork { left, id, right } => {
            if id == x {
            } else if left.has(x) {
                lemma_sub_root(*left, x);
            } else {
                lemma_sub_root(*right, x);
            }
        },
    }
}

/// A vertex stands at its place in the in-order sequence.
pub proof fn lemma_position(shape: Shape, x: usize)
    requires
        shape.has(x),
    ensures
        0 <= shape.position(x) < shape.ids().len(),
        shape.ids()[shape.position(x)] == x,
    decreases shape,
{
    match shape {
        Shape::Leaf => {},
        Shape::Fork { left, id, right } => {
            if id == x {
            } else if left.has(x) {
                lemma_position(*left, x);
            } else {
                lemma_position(*right, x);
            }
        },
    }
}

/// The in-order sequence holds the vertices of the shape and no other slot;
/// it holds none twice if the shape holds none twice.
pub proof fn lemma_ids(shape: Shape)
    ensures
        forall|x: usize| shape.ids().contains(x) <==> shape.has(x),
        shape.distinct() ==> shape.ids().no_duplicates(),
        shape is Fork ==> shape.ids().len() > 0 && shape.first() == Some(shape.ids().first())
            && shape.last() == Some(shape.ids().last()),
    decreases shape,
{
    match shape {
        Shape::Leaf => {},
        Shape::Fork { left, id, right } => {
            lemma_ids(*left);
            lemma_ids(*right);
            let a = left.ids().push(id);
            let b = right.ids();
            assert(shape.ids() == a + b);
            let all = shape.ids();
            let n = left.ids().len() as int;
            assert(all.len() == n + 1 + b.len());
            assert(all[n] == id);
            assert forall|i: int| 0 <= i < n implies all[i] == left.ids()[i] && left.has(
                all[i],
            ) by {
                assert(left.ids().contains(left.ids()[i]));
            }
            assert forall|i: int| n < i < all.len() implies all[i] == b[i - n - 1] && right.has(
                all[i],
            ) by {
                assert(b.contains(b[i - n - 1]));
            }
            assert forall|x: usize| all.contains(x) <==> shape.has(x) by {
                if all.contains(x) {
                    let i = choose|i: int| 0 <= i < all.len() && all[i] == x;
                    if i < n {
                        assert(left.has(all[i]));
                    } else if i > n {
                        assert(right.has(all[i]));
                    }
                }
                if shape.has(x) {
                    lemma_position(shape, x);
                    assert(all[shape.position(x)] == x);
                }
            }
            if shape.distinct() {
                assert(left.ids().no_duplicates());
                assert(b.no_duplicates());
                assert forall|i: int, j: int|
                    0 <= i < all.len() && 0 <= j < all.len() && i != j implies all[i] != all[j] by {
                    if i < n {
                        assert(left.has(all[i]));
                    }
                    if j < n {
                        assert(left.has(all[j]));
                    }
                    if i > n {
                        assert(right.has(all[i]));
                    }
                    if j > n {
                        assert(right.has(all[j]));
                    }
                    if i < n && j < n {
                        assert(left.ids()[i] != left.ids()[j]);
                    }
                    if i > n && j > n {
                        assert(b[i - n - 1] != b[j - n - 1]);
                    }
                }
            }
            if *left is Leaf {
                assert(all.first() == id);
            } else {
                assert(all.first() == left.ids().first());
            }
            if *right is Leaf {
                assert(b.len() == 0);
                assert(all.last() == id);
            } else {
                assert(all.last() == b.last());
            }
        },
    }
}

/// `next_or` gives the vertex one place further in in-order, and `up` for
/// the vertex at the last place.
pub proof fn lemma_next_follows(shape: Shape, x: usize, up: Option<usize>)
    requires
        shape.distinct(),
        shape.has(x),
    ensures
        shape.next_or(x, up) == if shape.position(x) + 1 < shape.ids().len() {
            Some(shape.ids()[shape.position(x) + 1])
        } else {
            up
        },
    decreases shape,
{
    match shape {
        Shape::Leaf => {},
        Shape::Fork { left, id, right } => {
            lemma_ids(*left);
            lemma_ids(*right);
            let n = left.ids().len() as int;
            let all = shape.ids();
            assert(all == left.ids().push(id) + right.ids());
            assert(all.len() == n + 1 + right.ids().len());
            assert(all[n] == id);
            let goal = if shape.position(x) + 1 < all.len() {
                Some(all[shape.position(x) + 1])
            } else {
                up
            };
            if id == x {
                assert(shape.sub(x) == shape);
                assert(shape.above(x, up) == up);
                assert(shape.position(x) == n);
                if *right is Fork {
                    assert(all[n + 1] == right.ids()[0]);
                    assert(right.first() == Some(right.ids().first()));
                } else {
                    assert(right.ids().len() == 0);
                }
                assert(shape.next_or(x, up) == goal);
            } else if left.has(x) {
                lemma_position(*left, x);
                lemma_sub_root(*left, x);
                lemma_next_follows(*left, x, Some(id));
                assert(shape.sub(x) == left.sub(x));
                assert(shape.above(x, up) == left.above(x, Some(id)));
                let p = left.position(x);
                assert(shape.position(x) == p);
                if p + 1 < n {
                    assert(all[p + 1] == left.ids()[p + 1]);
                }
                assert(shape.next_or(x, up) == left.next_or(x, Some(id)));
                assert(shape.next_or(x, up) == goal);
            } else {
                lemma_position(*right, x);
                lemma_next_follows(*right, x, up);
                assert(shape.sub(x) == right.sub(x));
                assert(shape.above(x, up) == right.above(x, up));
                let p = right.position(x);
                assert(shape.position(x) == n + 1 + p);
                if p + 1 < right.ids().len() {
                    assert(all[n + 1 + p + 1] == right.ids()[p + 1]);
                }
                assert(shape.next_or(x, up) == right.next_or(x, up));
                assert(shape.next_or(x, up) == goal);
            }
        },
    }
}

} // verus!
