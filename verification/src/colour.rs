use vstd::prelude::*;
use crate::shape::Shape;
use crate::links::Links;
use crate::links::repr;

verus! {

/// Whether the node that a link leads to is red. An absent child is black.
pub open spec fn is_red(red: Seq<bool>, link: Option<usize>) -> bool {
    match link {
        Some(c) => red[c as int],
        None => false,
    }
}

impl<T> Shape<T> {
    /// Whether the top node is red. A leaf is black.
    pub open spec fn top_red(self, red: Seq<bool>) -> bool {
        is_red(red, self.root_id())
    }

    /// No red node has a red child.
    pub open spec fn no_red_red(self, red: Seq<bool>) -> bool
        decreases self,
    {
        match self {
            Shape::Leaf => true,
            Shape::Node { id, left, right, .. } => {
                &&& red[id as int] ==> !left.top_red(red) && !right.top_red(red)
                &&& left.no_red_red(red)
                &&& right.no_red_red(red)
            },
        }
    }

    /// The number of black nodes on the leftmost way down, the top included.
    pub open spec fn black_height(self, red: Seq<bool>) -> nat
        decreases self,
    {
        match self {
            Shape::Leaf => 0,
            Shape::Node { id, left, .. } => left.black_height(red) + if red[id as int] {
                0nat
            } else {
                1nat
            },
        }
    }

    /// Every way down from a node passes the same number of black nodes.
    pub open spec fn balanced(self, red: Seq<bool>) -> bool
        decreases self,
    {
        match self {
            Shape::Leaf => true,
            Shape::Node { left, right, .. } => {
                &&& left.balanced(red)
                &&& right.balanced(red)
                &&& left.black_height(red) == right.black_height(red)
            },
        }
    }

    /// The three colour rules of a red-black tree.
    pub open spec fn red_black(self, red: Seq<bool>) -> bool {
        &&& !self.top_red(red)
        &&& self.no_red_red(red)
        &&& self.balanced(red)
    }
}

/// The black nodes on any way down through the link, the node it leads to
/// included, where `rank` gives the number below each slot.
pub open spec fn black_through(red: Seq<bool>, rank: Seq<nat>, link: Option<usize>) -> nat {
    match link {
        Some(c) => rank[c as int] + if red[c as int] {
            0nat
        } else {
            1nat
        },
        None => 0,
    }
}

/// The colour rules as far as slot `i` and its children go.
pub open spec fn node_ok(links: Seq<Links>, red: Seq<bool>, rank: Seq<nat>, i: usize) -> bool {
    &&& red[i as int] ==> !is_red(red, links[i as int].left) && !is_red(
        red,
        links[i as int].right,
    )
    &&& black_through(red, rank, links[i as int].left) == rank[i as int]
    &&& black_through(red, rank, links[i as int].right) == rank[i as int]
}

/// The colour rules as far as slot `i` and its children go, but that a red
/// `i` may have the red child `x`.
pub open spec fn node_ok_but(
    links: Seq<Links>,
    red: Seq<bool>,
    rank: Seq<nat>,
    i: usize,
    x: usize,
) -> bool {
    &&& red[i as int] ==> (!is_red(red, links[i as int].left) || links[i as int].left == Some(x))
        && (!is_red(red, links[i as int].right) || links[i as int].right == Some(x))
    &&& black_through(red, rank, links[i as int].left) == rank[i as int]
    &&& black_through(red, rank, links[i as int].right) == rank[i as int]
}

/// If the colour rules hold at every node, they hold of the tree as a whole.
pub proof fn lemma_nodes_ok<T>(
    t: Shape<T>,
    par: Option<usize>,
    links: Seq<Links>,
    vals: Seq<T>,
    red: Seq<bool>,
    rank: Seq<nat>,
)
    requires
        repr(t, par, links, vals),
        forall|i: usize| #[trigger] t.ids().contains(i) ==> node_ok(links, red, rank, i),
    ensures
        t.no_red_red(red),
        t.balanced(red),
        t.black_height(red) == black_through(red, rank, t.root_id()),
    decreases t,
{
    match t {
        Shape::Leaf => {},
        Shape::Node { id, val, left, right } => {
            assert(t.ids().contains(id));
            assert(node_ok(links, red, rank, id));
            assert forall|i: usize| #[trigger] left.ids().contains(i) implies node_ok(
                links,
                red,
                rank,
                i,
            ) by {
                assert(t.ids().contains(i));
            }
            assert forall|i: usize| #[trigger] right.ids().contains(i) implies node_ok(
                links,
                red,
                rank,
                i,
            ) by {
                assert(t.ids().contains(i));
            }
            lemma_nodes_ok(*left, Some(id), links, vals, red, rank);
            lemma_nodes_ok(*right, Some(id), links, vals, red, rank);
        },
    }
}

} // verus!
