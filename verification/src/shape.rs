use vstd::prelude::*;

verus! {

/// The tree as a mathematical object: which slot holds which value, and how
/// the slots hang under one another.
pub enum Shape<T> {
    Leaf,
    Node { id: usize, val: T, left: Box<Shape<T>>, right: Box<Shape<T>> },
}

impl<T> Shape<T> {
    /// The slot at the top, if there is a node.
    pub open spec fn root_id(self) -> Option<usize> {
        match self {
            Shape::Leaf => None,
            Shape::Node { id, .. } => Some(id),
        }
    }

    /// The left subtree (a leaf has none, and gives a leaf).
    pub open spec fn lhs(self) -> Shape<T> {
        match self {
            Shape::Leaf => Shape::Leaf,
            Shape::Node { left, .. } => *left,
        }
    }

    /// The right subtree.
    pub open spec fn rhs(self) -> Shape<T> {
        match self {
            Shape::Leaf => Shape::Leaf,
            Shape::Node { right, .. } => *right,
        }
    }

    /// All slots that occur in the tree.
    pub open spec fn ids(self) -> Set<usize>
        decreases self,
    {
        match self {
            Shape::Leaf => Set::empty(),
            Shape::Node { id, left, right, .. } => left.ids().union(right.ids()).insert(id),
        }
    }

    /// No slot occurs twice.
    pub open spec fn distinct(self) -> bool
        decreases self,
    {
        match self {
            Shape::Leaf => true,
            Shape::Node { id, left, right, .. } => {
                &&& left.distinct()
                &&& right.distinct()
                &&& !left.ids().contains(id)
                &&& !right.ids().contains(id)
                &&& left.ids().disjoint(right.ids())
            },
        }
    }

    /// Left subtree, node, right subtree.
    pub open spec fn in_order(self) -> Seq<T>
        decreases self,
    {
        match self {
            Shape::Leaf => Seq::empty(),
            Shape::Node { val, left, right, .. } => left.in_order().push(val) + right.in_order(),
        }
    }

    /// Node, left subtree, right subtree.
    pub open spec fn pre_order(self) -> Seq<T>
        decreases self,
    {
        match self {
            Shape::Leaf => Seq::empty(),
            Shape::Node { val, left, right, .. } => seq![val] + left.pre_order()
                + right.pre_order(),
        }
    }

    /// Left subtree, right subtree, node.
    pub open spec fn post_order(self) -> Seq<T>
        decreases self,
    {
        match self {
            Shape::Leaf => Seq::empty(),
            Shape::Node { val, left, right, .. } => (left.post_order()
                + right.post_order()).push(val),
        }
    }

    /// The subtree whose top is slot `g`.
    pub open spec fn subtree(self, g: usize) -> Shape<T>
        decreases self,
    {
        match self {
            Shape::Leaf => Shape::Leaf,
            Shape::Node { id, left, right, .. } => if id == g {
                self
            } else if left.ids().contains(g) {
                left.subtree(g)
            } else {
                right.subtree(g)
            },
        }
    }

    /// The tree with `s` in the place of the subtree whose top is slot `g`.
    pub open spec fn replace(self, g: usize, s: Shape<T>) -> Shape<T>
        decreases self,
    {
        match self {
            Shape::Leaf => Shape::Leaf,
            Shape::Node { id, val, left, right } => if id == g {
                s
            } else if left.ids().contains(g) {
                Shape::Node { id, val, left: Box::new(left.replace(g, s)), right }
            } else {
                Shape::Node { id, val, left, right: Box::new(right.replace(g, s)) }
            },
        }
    }

    /// What in-order traversal yields before it enters the subtree at `g`.
    pub open spec fn before(self, g: usize) -> Seq<T>
        decreases self,
    {
        match self {
            Shape::Leaf => Seq::empty(),
            Shape::Node { id, val, left, right } => if id == g {
                Seq::empty()
            } else if left.ids().contains(g) {
                left.before(g)
            } else {
                left.in_order().push(val) + right.before(g)
            },
        }
    }

    /// What in-order traversal yields after it has left the subtree at `g`.
    pub open spec fn after(self, g: usize) -> Seq<T>
        decreases self,
    {
        match self {
            Shape::Leaf => Seq::empty(),
            Shape::Node { id, val, left, right } => if id == g {
                Seq::empty()
            } else if left.ids().contains(g) {
                left.after(g).push(val) + right.in_order()
            } else {
                right.after(g)
            },
        }
    }

    /// The tree of one node, of slot `n` and value `v`.
    pub open spec fn single(n: usize, v: T) -> Shape<T> {
        Shape::Node { id: n, val: v, left: Box::new(Shape::Leaf), right: Box::new(Shape::Leaf) }
    }

    /// The tree with a new node of slot `n` and value `v`, without children,
    /// in the place of its left subtree (or of its right subtree).
    pub open spec fn hang(self, n: usize, v: T, on_left: bool) -> Shape<T> {
        let leaf = Shape::single(n, v);
        match self {
            Shape::Node { id, val, left, right } => if on_left {
                Shape::Node { id, val, left: Box::new(leaf), right }
            } else {
                Shape::Node { id, val, left, right: Box::new(leaf) }
            },
            Shape::Leaf => self,
        }
    }

    /// The tree after its left subtree has moved to the top: the old top
    /// hangs to its right and takes over its right subtree.
    pub open spec fn rotate_right(self) -> Shape<T> {
        match self {
            Shape::Node { id, val, left, right } => match *left {
                Shape::Node { id: lid, val: lval, left: a, right: b } => Shape::Node {
                    id: lid,
                    val: lval,
                    left: a,
                    right: Box::new(Shape::Node { id, val, left: b, right }),
                },
                Shape::Leaf => self,
            },
            Shape::Leaf => self,
        }
    }

    /// The tree after its right subtree has moved to the top: the old top
    /// hangs to its left and takes over its left subtree.
    pub open spec fn rotate_left(self) -> Shape<T> {
        match self {
            Shape::Node { id, val, left, right } => match *right {
                Shape::Node { id: rid, val: rval, left: a, right: b } => Shape::Node {
                    id: rid,
                    val: rval,
                    left: Box::new(Shape::Node { id, val, left, right: a }),
                    right: b,
                },
                Shape::Leaf => self,
            },
            Shape::Leaf => self,
        }
    }

    /// The slot of the leftmost node, which holds the lowest value. Of a
    /// leaf it is 0: it has no node.
    pub open spec fn leftmost(self) -> usize
        decreases self,
    {
        match self {
            Shape::Leaf => 0,
            Shape::Node { id, left, .. } => if *left is Leaf {
                id
            } else {
                left.leftmost()
            },
        }
    }

    /// The tree after the right subtree of its left subtree has moved to
    /// the top, over the left subtree and then over the old top.
    pub open spec fn raise_inner_left(self) -> Shape<T> {
        self.with_left(self.lhs().rotate_left()).rotate_right()
    }

    /// The tree after the left subtree of its right subtree has moved to
    /// the top, over the right subtree and then over the old top.
    pub open spec fn raise_inner_right(self) -> Shape<T> {
        self.with_right(self.rhs().rotate_right()).rotate_left()
    }

    /// The place of the value of slot `g` in the traversal in order.
    pub open spec fn place(self, g: usize) -> int {
        (self.before(g).len() + self.subtree(g).lhs().in_order().len()) as int
    }

    /// The slot that holds the value `v`. Where no slot holds it, this is 0.
    pub open spec fn slot_of(self, v: T) -> usize
        decreases self,
    {
        match self {
            Shape::Leaf => 0,
            Shape::Node { id, val, left, right } => if val == v {
                id
            } else if left.in_order().contains(v) {
                left.slot_of(v)
            } else {
                right.slot_of(v)
            },
        }
    }

    /// The slot of the parent of slot `x`; the top has none.
    pub open spec fn parent_in(self, x: usize) -> Option<usize>
        decreases self,
    {
        match self {
            Shape::Leaf => None,
            Shape::Node { id, left, right, .. } => if id == x {
                None
            } else if left.root_id() == Some(x) || right.root_id() == Some(x) {
                Some(id)
            } else if left.ids().contains(x) {
                left.parent_in(x)
            } else {
                right.parent_in(x)
            },
        }
    }

    /// The tree with `s` in the place of its left subtree.
    pub open spec fn with_left(self, s: Shape<T>) -> Shape<T> {
        match self {
            Shape::Node { id, val, left, right } => Shape::Node { id, val, left: Box::new(s), right },
            Shape::Leaf => self,
        }
    }

    /// The tree with `s` in the place of its right subtree.
    pub open spec fn with_right(self, s: Shape<T>) -> Shape<T> {
        match self {
            Shape::Node { id, val, left, right } => Shape::Node { id, val, left, right: Box::new(s) },
            Shape::Leaf => self,
        }
    }

    /// How many steps slot `g` is below the top.
    pub open spec fn depth(self, g: usize) -> nat
        decreases self,
    {
        match self {
            Shape::Leaf => 0,
            Shape::Node { id, left, right, .. } => if id == g {
                0
            } else if left.ids().contains(g) {
                left.depth(g) + 1
            } else {
                right.depth(g) + 1
            },
        }
    }
}

} // verus!
