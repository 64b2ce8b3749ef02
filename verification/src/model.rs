use vstd::prelude::*;
use crate::shape::Shape;
use crate::colour::is_red;
use crate::order::lt;

verus! {

/// The colour table after slot `n` has got the colour `c`: a slot behind
/// the others is added.
pub open spec fn painted(red: Seq<bool>, n: usize, c: bool) -> Seq<bool> {
    if n < red.len() {
        red.update(n as int, c)
    } else {
        red.push(c)
    }
}

impl<T: PartialOrd> Shape<T> {
    /// The tree with a new node of slot `n` for the value `v`, hung where a
    /// search for `v` ends. A tree that holds `v` stays as it is.
    pub open spec fn grown(self, v: T, n: usize) -> Shape<T>
        decreases self,
    {
        match self {
            Shape::Leaf => Shape::single(n, v),
            Shape::Node { id, val, left, right } => if lt(v, val) {
                Shape::Node { id, val, left: Box::new(left.grown(v, n)), right }
            } else if lt(val, v) {
                Shape::Node { id, val, left, right: Box::new(right.grown(v, n)) }
            } else {
                self
            },
        }
    }
}

impl<T> Shape<T> {
    /// The tree and its colours after the colours have been mended upwards
    /// from the red node `x`, which is `steps` steps below the top. Nothing
    /// is done where `x` has no parent, a black parent, or no grandparent.
    /// With a red uncle the parent and the uncle turn black and the
    /// grandparent red, and the mending goes on from the grandparent. Else
    /// the parent, or `x` itself if it hangs on the inner side, is raised
    /// over the grandparent and exchanges colours with it.
    pub open spec fn mended(self, red: Seq<bool>, x: usize, steps: nat) -> (Shape<T>, Seq<bool>)
        decreases steps,
    {
        if self.parent_in(x) is None || self.parent_in(self.parent_in(x).unwrap()) is None {
            (self, red)
        } else {
            let p = self.parent_in(x).unwrap();
            let g = self.parent_in(p).unwrap();
            let sub = self.subtree(g);
            let p_left = sub.lhs().root_id() == Some(p);
            let uncle = if p_left {
                sub.rhs().root_id()
            } else {
                sub.lhs().root_id()
            };
            let x_left = self.subtree(p).lhs().root_id() == Some(x);
            if !red[p as int] {
                (self, red)
            } else if is_red(red, uncle) {
                let recoloured = red.update(uncle.unwrap() as int, false).update(
                    p as int,
                    false,
                ).update(g as int, true);
                if steps < 2 {
                    (self, recoloured)
                } else {
                    self.mended(recoloured, g, (steps - 2) as nat)
                }
            } else if p_left {
                if x_left {
                    (
                        self.replace(g, sub.rotate_right()),
                        red.update(p as int, red[g as int]).update(g as int, red[p as int]),
                    )
                } else {
                    (
                        self.replace(g, sub.raise_inner_left()),
                        red.update(x as int, red[g as int]).update(p as int, red[x as int]).update(
                            g as int,
                            red[p as int],
                        ),
                    )
                }
            } else {
                if x_left {
                    (
                        self.replace(g, sub.raise_inner_right()),
                        red.update(x as int, red[g as int]).update(p as int, red[x as int]).update(
                            g as int,
                            red[p as int],
                        ),
                    )
                } else {
                    (
                        self.replace(g, sub.rotate_left()),
                        red.update(p as int, red[g as int]).update(g as int, red[p as int]),
                    )
                }
            }
        }
    }

    /// The tree and its colours after a red node has been added in slot `n`
    /// and the colours have been mended from there; the top ends black.
    pub open spec fn settled_after_insert(self, red: Seq<bool>, n: usize) -> (Shape<T>, Seq<bool>) {
        let m = self.mended(painted(red, n, true), n, self.depth(n));
        match m.0.root_id() {
            Some(top) => (m.0, m.1.update(top as int, false)),
            None => m,
        }
    }
}

impl<T> Shape<T> {
    /// The tree and its colours after the black node that the ways down on
    /// one side of a node have lost has been made up for. `s` is the child
    /// on the other side, the left one if `left`, and `steps` steps below
    /// the top. A red `s` is first raised over the parent and exchanges
    /// colours with it, which leaves a black node in its place.
    pub open spec fn made_up(self, red: Seq<bool>, s: usize, left: bool, steps: nat) -> (
        Shape<T>,
        Seq<bool>,
    )
        decreases steps, 1nat,
    {
        match self.parent_in(s) {
            None => (self, red),
            Some(p) => if red[s as int] {
                let raised = self.replace(
                    p,
                    if left {
                        self.subtree(p).rotate_right()
                    } else {
                        self.subtree(p).rotate_left()
                    },
                );
                let exchanged = red.update(s as int, red[p as int]).update(p as int, red[s as int]);
                let next = if left {
                    self.subtree(s).rhs().root_id()
                } else {
                    self.subtree(s).lhs().root_id()
                };
                match next {
                    Some(s2) => raised.made_up_by_black(exchanged, p, s2, left, steps),
                    None => (raised, exchanged),
                }
            } else {
                self.made_up_by_black(red, p, s, left, steps)
            },
        }
    }

    /// The same where the child `s` of `p` on the other side is black. If
    /// its outer child is red, `s` is raised over `p`, the two exchange
    /// colours and that child turns black. Else, if its inner child is red,
    /// that child is raised over `s` and over `p`, and ends with the colour
    /// of `p` above a black `s` and a black `p`. Else `s` turns red and `p`
    /// black; if `p` was black and is not the top, its own side is short
    /// now and is made up for in turn.
    pub open spec fn made_up_by_black(
        self,
        red: Seq<bool>,
        p: usize,
        s: usize,
        left: bool,
        steps: nat,
    ) -> (Shape<T>, Seq<bool>)
        decreases steps, 0nat,
    {
        let outer = if left {
            self.subtree(s).lhs().root_id()
        } else {
            self.subtree(s).rhs().root_id()
        };
        let inner = if left {
            self.subtree(s).rhs().root_id()
        } else {
            self.subtree(s).lhs().root_id()
        };
        if is_red(red, outer) {
            (
                self.replace(
                    p,
                    if left {
                        self.subtree(p).rotate_right()
                    } else {
                        self.subtree(p).rotate_left()
                    },
                ),
                red.update(s as int, red[p as int]).update(p as int, red[s as int]).update(
                    outer.unwrap() as int,
                    false,
                ),
            )
        } else if is_red(red, inner) {
            (
                self.replace(
                    p,
                    if left {
                        self.subtree(p).raise_inner_left()
                    } else {
                        self.subtree(p).raise_inner_right()
                    },
                ),
                red.update(inner.unwrap() as int, red[p as int]).update(
                    s as int,
                    red[inner.unwrap() as int],
                ).update(p as int, red[s as int]).update(s as int, false),
            )
        } else {
            let recoloured = red.update(s as int, true).update(p as int, false);
            if red[p as int] || steps == 0 {
                (self, recoloured)
            } else {
                match self.parent_in(p) {
                    None => (self, recoloured),
                    Some(pp) => {
                        let p_left = self.subtree(pp).lhs().root_id() == Some(p);
                        let next = if p_left {
                            self.subtree(pp).rhs().root_id()
                        } else {
                            self.subtree(pp).lhs().root_id()
                        };
                        match next {
                            Some(s2) => self.made_up(recoloured, s2, !p_left, (steps - 1) as nat),
                            None => (self, recoloured),
                        }
                    },
                }
            }
        }
    }

    /// The tree and its colours after the node in slot `idx`, which has at
    /// most one child, has been taken out. Its one child takes its place
    /// and turns black. Where it had none and was black and not the top,
    /// the side of its parent where it hung is made up for.
    pub open spec fn taken_out(self, red: Seq<bool>, idx: usize) -> (Shape<T>, Seq<bool>) {
        let sub = self.subtree(idx);
        let rest = self.replace(idx, sub.beheaded());
        match sub.beheaded().root_id() {
            Some(c) => (rest, red.update(c as int, false)),
            None => if red[idx as int] {
                (rest, red)
            } else {
                match self.parent_in(idx) {
                    None => (rest, red),
                    Some(p) => {
                        let was_left = self.subtree(p).lhs().root_id() == Some(idx);
                        let sibling = if was_left {
                            self.subtree(p).rhs().root_id()
                        } else {
                            self.subtree(p).lhs().root_id()
                        };
                        match sibling {
                            Some(s) => rest.made_up(red, s, !was_left, rest.depth(s)),
                            None => (rest, red),
                        }
                    },
                }
            },
        }
    }

    /// The tree and its colours after the node in slot `idx` has been
    /// removed. A node with two children first changes places and colours
    /// with the leftmost node of its right subtree, its successor in order;
    /// both keep their slots and values.
    pub open spec fn removed(self, red: Seq<bool>, idx: usize) -> (Shape<T>, Seq<bool>) {
        let sub = self.subtree(idx);
        if sub.lhs() is Node && sub.rhs() is Node {
            let m = sub.rhs().leftmost();
            self.exchanged(idx, m, sub->val, self.subtree(m)->val).taken_out(
                red.update(idx as int, red[m as int]).update(m as int, red[idx as int]),
                idx,
            )
        } else {
            self.taken_out(red, idx)
        }
    }
}

} // verus!
