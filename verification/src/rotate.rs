use vstd::prelude::*;
use crate::shape::Shape;
use crate::shape_proofs::lemma_subtree;
use crate::shape_proofs::lemma_children;
use crate::shape_proofs::lemma_replace_child;
use crate::shape_proofs::lemma_replace_inside;
use crate::shape_proofs::lemma_replace_twice;
use crate::shape_proofs::lemma_replace_ids;
use crate::shape_proofs::lemma_in_order_split;
use crate::links::Links;
use crate::links::repr;
use crate::links::redirected;
use crate::links::link_ok;
use crate::links::lemma_links_local;
use crate::links::lemma_repr_subtree;
use crate::links::lemma_repr_distinct;
use crate::links::lemma_repr_parent;
use crate::links::lemma_repr_frame;
use crate::links::lemma_repr_replace;
use crate::links::set_parent;
use crate::links::set_left;
use crate::links::set_right;
use crate::links::leads_to;
use crate::tree::Tree;

verus! {

/// The link table `b` is the table `a` after slot `idx`, a left child, has
/// moved above its parent `g`: `g` is now the right child of `idx`, what was
/// the right subtree of `idx` hangs to the left of `g`, and the link that
/// led to `g` leads to `idx`.
pub open spec fn raised_from_left(a: Seq<Links>, b: Seq<Links>, idx: usize) -> bool {
    let g = a[idx as int].parent.unwrap();
    &&& b.len() == a.len()
    &&& b[idx as int] == (Links {
        parent: a[g as int].parent,
        left: a[idx as int].left,
        right: Some(g),
    })
    &&& b[g as int] == (Links {
        parent: Some(idx),
        left: a[idx as int].right,
        right: a[g as int].right,
    })
    &&& forall|i: usize|
        #![trigger b[i as int]]
        i < a.len() && i != idx && i != g ==> b[i as int] == (Links {
            parent: if a[idx as int].right == Some(i) {
                Some(g)
            } else {
                a[i as int].parent
            },
            left: if a[g as int].parent == Some(i) {
                redirected(a[i as int].left, g, Some(idx))
            } else {
                a[i as int].left
            },
            right: if a[g as int].parent == Some(i) {
                redirected(a[i as int].right, g, Some(idx))
            } else {
                a[i as int].right
            },
        })
}

/// The mirror image of `raised_from_left`: slot `idx`, a right child, has
/// moved above its parent `g`.
pub open spec fn raised_from_right(a: Seq<Links>, b: Seq<Links>, idx: usize) -> bool {
    let g = a[idx as int].parent.unwrap();
    &&& b.len() == a.len()
    &&& b[idx as int] == (Links {
        parent: a[g as int].parent,
        left: Some(g),
        right: a[idx as int].right,
    })
    &&& b[g as int] == (Links {
        parent: Some(idx),
        left: a[g as int].left,
        right: a[idx as int].left,
    })
    &&& forall|i: usize|
        #![trigger b[i as int]]
        i < a.len() && i != idx && i != g ==> b[i as int] == (Links {
            parent: if a[idx as int].left == Some(i) {
                Some(g)
            } else {
                a[i as int].parent
            },
            left: if a[g as int].parent == Some(i) {
                redirected(a[i as int].left, g, Some(idx))
            } else {
                a[i as int].left
            },
            right: if a[g as int].parent == Some(i) {
                redirected(a[i as int].right, g, Some(idx))
            } else {
                a[i as int].right
            },
        })
}

/// The link table `b` is the table `a` after the right child `c` of slot
/// `p`, itself a left child of `g`, has moved above `p` and then above `g`:
/// `c` has `p` to its left and `g` to its right, and they have taken over
/// the two subtrees of `c`.
pub open spec fn doubly_raised_from_left(a: Seq<Links>, b: Seq<Links>, p: usize) -> bool {
    let c = a[p as int].right.unwrap();
    let g = a[p as int].parent.unwrap();
    &&& b.len() == a.len()
    &&& b[c as int] == (Links { parent: a[g as int].parent, left: Some(p), right: Some(g) })
    &&& b[p as int] == (Links {
        parent: Some(c),
        left: a[p as int].left,
        right: a[c as int].left,
    })
    &&& b[g as int] == (Links {
        parent: Some(c),
        left: a[c as int].right,
        right: a[g as int].right,
    })
    &&& forall|i: usize|
        #![trigger b[i as int]]
        i < a.len() && i != c && i != p && i != g ==> b[i as int] == (Links {
            parent: if a[c as int].left == Some(i) {
                Some(p)
            } else if a[c as int].right == Some(i) {
                Some(g)
            } else {
                a[i as int].parent
            },
            left: if a[g as int].parent == Some(i) {
                redirected(a[i as int].left, g, Some(c))
            } else {
                a[i as int].left
            },
            right: if a[g as int].parent == Some(i) {
                redirected(a[i as int].right, g, Some(c))
            } else {
                a[i as int].right
            },
        })
}

/// The link table `b` is the table `a` after the left child `c` of slot
/// `p`, itself a right child of `g`, has moved above `p` and then above `g`:
/// `c` has `p` to its right and `g` to its left, and they have taken over
/// the two subtrees of `c`.
pub open spec fn doubly_raised_from_right(a: Seq<Links>, b: Seq<Links>, p: usize) -> bool {
    let c = a[p as int].left.unwrap();
    let g = a[p as int].parent.unwrap();
    &&& b.len() == a.len()
    &&& b[c as int] == (Links { parent: a[g as int].parent, right: Some(p), left: Some(g) })
    &&& b[p as int] == (Links {
        parent: Some(c),
        right: a[p as int].right,
        left: a[c as int].right,
    })
    &&& b[g as int] == (Links {
        parent: Some(c),
        right: a[c as int].left,
        left: a[g as int].left,
    })
    &&& forall|i: usize|
        #![trigger b[i as int]]
        i < a.len() && i != c && i != p && i != g ==> b[i as int] == (Links {
            parent: if a[c as int].right == Some(i) {
                Some(p)
            } else if a[c as int].left == Some(i) {
                Some(g)
            } else {
                a[i as int].parent
            },
            right: if a[g as int].parent == Some(i) {
                redirected(a[i as int].right, g, Some(c))
            } else {
                a[i as int].right
            },
            left: if a[g as int].parent == Some(i) {
                redirected(a[i as int].left, g, Some(c))
            } else {
                a[i as int].left
            },
        })
}

/// Tables that held a tree hold, after slot `idx` has moved up from the
/// left, the tree with that rotation made; it has the same slots and the
/// same traversal in order.
pub proof fn lemma_raise_left<T>(t: Shape<T>, a: Seq<Links>, vals: Seq<T>, b: Seq<Links>, idx: usize)
    requires
        repr(t, None, a, vals),
        t.ids().contains(idx),
        a[idx as int].parent matches Some(g) && a[g as int].left == Some(idx),
        raised_from_left(a, b, idx),
    ensures
        ({
            let g = a[idx as int].parent.unwrap();
            let t2 = t.replace(g, t.subtree(g).rotate_right());
            &&& t.ids().contains(g)
            &&& repr(t2, None, b, vals)
            &&& t2.ids() == t.ids()
            &&& t2.in_order() == t.in_order()
            &&& t2.root_id() == redirected(t.root_id(), g, Some(idx))
        }),
{
    let p = a[idx as int].parent.unwrap();
    lemma_repr_distinct(t, None, a, vals);
    lemma_links_local(t, a, vals);
    assert(link_ok(t.ids(), a, idx));
    assert(link_ok(t.ids(), a, p));
    lemma_repr_subtree(t, None, a, vals, p);
    lemma_subtree(t, p);
    if t.root_id() != Some(p) {
        lemma_repr_parent(t, None, a, vals, p);
    }
    let sub = t.subtree(p);
    let low = sub.lhs();
    let s = sub.rotate_right();
    reveal_with_fuel(repr, 3);
    reveal_with_fuel(Shape::ids, 3);
    reveal_with_fuel(Shape::in_order, 3);
    assert(low.root_id() == Some(idx));
    assert forall|i: usize| #[trigger] low.lhs().ids().contains(i) implies {
        &&& i < b.len()
        &&& i != idx
        &&& i != p
        &&& a[idx as int].right != Some(i)
        &&& a[p as int].parent != Some(i)
        &&& i < vals.len()
    } by {
        assert(sub.ids().contains(i));
        assert(t.ids().contains(i));
    }
    lemma_repr_frame(low.lhs(), Some(idx), a, vals, Some(idx), b, vals);
    assert forall|i: usize| #[trigger] low.rhs().ids().contains(i) implies {
        &&& i < b.len()
        &&& i != idx
        &&& i != p
        &&& a[p as int].parent != Some(i)
        &&& i < vals.len()
    } by {
        assert(sub.ids().contains(i));
        assert(t.ids().contains(i));
    }
    lemma_repr_frame(low.rhs(), Some(idx), a, vals, Some(p), b, vals);
    assert forall|i: usize| #[trigger] sub.rhs().ids().contains(i) implies {
        &&& i < b.len()
        &&& i != idx
        &&& i != p
        &&& a[idx as int].right != Some(i)
        &&& a[p as int].parent != Some(i)
        &&& i < vals.len()
    } by {
        assert(sub.ids().contains(i));
        assert(t.ids().contains(i));
    }
    lemma_repr_frame(sub.rhs(), Some(p), a, vals, Some(p), b, vals);
    assert(repr(s, a[p as int].parent, b, vals));
    assert(s.ids() =~= sub.ids());
    lemma_repr_replace(t, None, a, vals, p, s, b, vals);
    lemma_repr_distinct(s, a[p as int].parent, b, vals);
    lemma_replace_ids(t, p, s);
    lemma_in_order_split(t, p, s);
    assert(s.in_order() =~= sub.in_order());
    assert(t.replace(p, s).ids() =~= t.ids());
}

/// Tables that held a tree hold, after slot `idx` has moved up from the
/// right, the tree with that rotation made; it has the same slots and the
/// same traversal in order.
pub proof fn lemma_raise_right<T>(t: Shape<T>, a: Seq<Links>, vals: Seq<T>, b: Seq<Links>, idx: usize)
    requires
        repr(t, None, a, vals),
        t.ids().contains(idx),
        a[idx as int].parent matches Some(g) && a[g as int].right == Some(idx),
        raised_from_right(a, b, idx),
    ensures
        ({
            let g = a[idx as int].parent.unwrap();
            let t2 = t.replace(g, t.subtree(g).rotate_left());
            &&& t.ids().contains(g)
            &&& repr(t2, None, b, vals)
            &&& t2.ids() == t.ids()
            &&& t2.in_order() == t.in_order()
            &&& t2.root_id() == redirected(t.root_id(), g, Some(idx))
        }),
{
    let p = a[idx as int].parent.unwrap();
    lemma_repr_distinct(t, None, a, vals);
    lemma_links_local(t, a, vals);
    assert(link_ok(t.ids(), a, idx));
    assert(link_ok(t.ids(), a, p));
    lemma_repr_subtree(t, None, a, vals, p);
    lemma_subtree(t, p);
    if t.root_id() != Some(p) {
        lemma_repr_parent(t, None, a, vals, p);
    }
    let sub = t.subtree(p);
    let low = sub.rhs();
    let s = sub.rotate_left();
    reveal_with_fuel(repr, 3);
    reveal_with_fuel(Shape::ids, 3);
    reveal_with_fuel(Shape::in_order, 3);
    assert(low.root_id() == Some(idx));
    assert forall|i: usize| #[trigger] low.rhs().ids().contains(i) implies {
        &&& i < b.len()
        &&& i != idx
        &&& i != p
        &&& a[idx as int].left != Some(i)
        &&& a[p as int].parent != Some(i)
        &&& i < vals.len()
    } by {
        assert(sub.ids().contains(i));
        assert(t.ids().contains(i));
    }
    lemma_repr_frame(low.rhs(), Some(idx), a, vals, Some(idx), b, vals);
    assert forall|i: usize| #[trigger] low.lhs().ids().contains(i) implies {
        &&& i < b.len()
        &&& i != idx
        &&& i != p
        &&& a[p as int].parent != Some(i)
        &&& i < vals.len()
    } by {
        assert(sub.ids().contains(i));
        assert(t.ids().contains(i));
    }
    lemma_repr_frame(low.lhs(), Some(idx), a, vals, Some(p), b, vals);
    assert forall|i: usize| #[trigger] sub.lhs().ids().contains(i) implies {
        &&& i < b.len()
        &&& i != idx
        &&& i != p
        &&& a[idx as int].left != Some(i)
        &&& a[p as int].parent != Some(i)
        &&& i < vals.len()
    } by {
        assert(sub.ids().contains(i));
        assert(t.ids().contains(i));
    }
    lemma_repr_frame(sub.lhs(), Some(p), a, vals, Some(p), b, vals);
    assert(repr(s, a[p as int].parent, b, vals));
    assert(s.ids() =~= sub.ids());
    lemma_repr_replace(t, None, a, vals, p, s, b, vals);
    lemma_repr_distinct(s, a[p as int].parent, b, vals);
    lemma_replace_ids(t, p, s);
    lemma_in_order_split(t, p, s);
    assert(s.in_order() =~= sub.in_order());
    assert(t.replace(p, s).ids() =~= t.ids());
}

/// Raising the right child of the left child of the node at `g` over its
/// parent, and then over `g`, puts the doubly rotated subtree in the place
/// of the subtree at `g`.
pub proof fn lemma_double_left<T>(t: Shape<T>, g: usize)
    requires
        t.distinct(),
        t.ids().contains(g),
        t.subtree(g).lhs() is Node,
        t.subtree(g).lhs().rhs() is Node,
    ensures
        ({
            let p = t.subtree(g).lhs()->id;
            let first = t.replace(p, t.subtree(p).rotate_left());
            first.replace(g, first.subtree(g).rotate_right()) == t.replace(
                g,
                t.subtree(g).raise_inner_left(),
            )
        }),
{
    let sub = t.subtree(g);
    let p = sub.lhs()->id;
    lemma_subtree(t, g);
    lemma_children(t, g);
    let x = sub.lhs().rotate_left();
    let s1 = sub.with_left(x);
    lemma_replace_child(t, g, x);
    assert(s1.ids() =~= sub.ids() && s1.distinct() && s1.root_id() == Some(g)) by {
        reveal_with_fuel(Shape::ids, 4);
        reveal_with_fuel(Shape::distinct, 4);
    }
    lemma_replace_inside(t, g, s1, g);
    lemma_replace_twice(t, g, s1, s1.rotate_right());
}

/// Raising the left child of the right child of the node at `g` over its
/// parent, and then over `g`, puts the doubly rotated subtree in the place
/// of the subtree at `g`.
pub proof fn lemma_double_right<T>(t: Shape<T>, g: usize)
    requires
        t.distinct(),
        t.ids().contains(g),
        t.subtree(g).rhs() is Node,
        t.subtree(g).rhs().lhs() is Node,
    ensures
        ({
            let p = t.subtree(g).rhs()->id;
            let first = t.replace(p, t.subtree(p).rotate_right());
            first.replace(g, first.subtree(g).rotate_left()) == t.replace(
                g,
                t.subtree(g).raise_inner_right(),
            )
        }),
{
    let sub = t.subtree(g);
    let p = sub.rhs()->id;
    lemma_subtree(t, g);
    lemma_children(t, g);
    let x = sub.rhs().rotate_right();
    let s1 = sub.with_right(x);
    lemma_replace_child(t, g, x);
    assert(s1.ids() =~= sub.ids() && s1.distinct() && s1.root_id() == Some(g)) by {
        reveal_with_fuel(Shape::ids, 4);
        reveal_with_fuel(Shape::distinct, 4);
    }
    lemma_replace_inside(t, g, s1, g);
    lemma_replace_twice(t, g, s1, s1.rotate_left());
}

impl<T: PartialOrd> Tree<T> {
    /// Right rotation about the parent of `idx`: `idx`, a left child, takes
    /// the place of its parent, the parent becomes its right child, and the
    /// two exchange their colours.
    pub(crate) fn left_left_rotation(&mut self, idx: usize)
        requires
            old(self).arena_ok(),
            old(self).shape@.ids().contains(idx),
            old(self).edge_list@[idx as int].parent matches Some(g) && old(
                self,
            ).edge_list@[g as int].left == Some(idx),
        ensures
            final(self).arena_ok(),
            final(self).shape@ == old(self).shape@.replace(
                old(self).edge_list@[idx as int].parent.unwrap(),
                old(self).shape@.subtree(
                    old(self).edge_list@[idx as int].parent.unwrap(),
                ).rotate_right(),
            ),
            final(self).shape@.ids() == old(self).shape@.ids(),
            final(self).shape@.in_order() == old(self).shape@.in_order(),
            final(self).graph == old(self).graph,
            final(self).empty == old(self).empty,
            final(self).rank == old(self).rank,
            raised_from_left(old(self).edge_list@, final(self).edge_list@, idx),
            final(self).root == redirected(
                old(self).root,
                old(self).edge_list@[idx as int].parent.unwrap(),
                Some(idx),
            ),
            final(self).color@ == old(self).color@.update(
                idx as int,
                old(self).color@[old(self).edge_list@[idx as int].parent.unwrap() as int],
            ).update(
                old(self).edge_list@[idx as int].parent.unwrap() as int,
                old(self).color@[idx as int],
            ),
    {
        let ghost t = self.shape@;
        let ghost a = self.edge_list@;
        let ghost vals = self.graph@;
        proof {
            lemma_repr_distinct(t, None, a, vals);
            lemma_links_local(t, a, vals);
            assert(link_ok(t.ids(), a, idx));
        }
        let index = Some(idx);
        let p = self.edge_list[idx].parent.unwrap();
        proof {
            assert(link_ok(t.ids(), a, p));
            lemma_repr_subtree(t, None, a, vals, idx);
            lemma_repr_subtree(t, None, a, vals, p);
            lemma_repr_parent(t, None, a, vals, idx);
            lemma_children(t, idx);
            if t.root_id() != Some(p) {
                lemma_repr_parent(t, None, a, vals, p);
            }
        }
        let up = self.edge_list[p].parent;
        match up {
            Some(g) => {
                proof {
                    assert(link_ok(t.ids(), a, g));
                }
                if leads_to(self.edge_list[g].left, p) {
                    set_left(&mut self.edge_list, g, index);
                } else {
                    set_right(&mut self.edge_list, g, index);
                }
            },
            None => {
                self.root = index;
            },
        }
        let inner = self.edge_list[idx].right;
        set_left(&mut self.edge_list, p, inner);
        match inner {
            Some(right) => {
                set_parent(&mut self.edge_list, right, Some(p));
            },
            None => {},
        }
        set_right(&mut self.edge_list, idx, Some(p));
        set_parent(&mut self.edge_list, idx, up);
        set_parent(&mut self.edge_list, p, index);
        let c = self.color[idx];
        let d = self.color[p];
        self.color.set(idx, d);
        self.color.set(p, c);
        proof {
            assert(raised_from_left(a, self.edge_list@, idx));
            lemma_raise_left(t, a, vals, self.edge_list@, idx);
        }
        self.shape = Ghost(t.replace(p, t.subtree(p).rotate_right()));
    }

    /// Left rotation about the parent of `idx`: `idx`, a right child, takes
    /// the place of its parent, the parent becomes its left child, and the
    /// two exchange their colours.
    pub(crate) fn right_right_rotation(&mut self, idx: usize)
        requires
            old(self).arena_ok(),
            old(self).shape@.ids().contains(idx),
            old(self).edge_list@[idx as int].parent matches Some(g) && old(
                self,
            ).edge_list@[g as int].right == Some(idx),
        ensures
            final(self).arena_ok(),
            final(self).shape@ == old(self).shape@.replace(
                old(self).edge_list@[idx as int].parent.unwrap(),
                old(self).shape@.subtree(
                    old(self).edge_list@[idx as int].parent.unwrap(),
                ).rotate_left(),
            ),
            final(self).shape@.ids() == old(self).shape@.ids(),
            final(self).shape@.in_order() == old(self).shape@.in_order(),
            final(self).graph == old(self).graph,
            final(self).empty == old(self).empty,
            final(self).rank == old(self).rank,
            raised_from_right(old(self).edge_list@, final(self).edge_list@, idx),
            final(self).root == redirected(
                old(self).root,
                old(self).edge_list@[idx as int].parent.unwrap(),
                Some(idx),
            ),
            final(self).color@ == old(self).color@.update(
                idx as int,
                old(self).color@[old(self).edge_list@[idx as int].parent.unwrap() as int],
            ).update(
                old(self).edge_list@[idx as int].parent.unwrap() as int,
                old(self).color@[idx as int],
            ),
    {
        let ghost t = self.shape@;
        let ghost a = self.edge_list@;
        let ghost vals = self.graph@;
        proof {
            lemma_repr_distinct(t, None, a, vals);
            lemma_links_local(t, a, vals);
            assert(link_ok(t.ids(), a, idx));
        }
        let index = Some(idx);
        let p = self.edge_list[idx].parent.unwrap();
        proof {
            assert(link_ok(t.ids(), a, p));
            lemma_repr_subtree(t, None, a, vals, idx);
            lemma_repr_subtree(t, None, a, vals, p);
            lemma_repr_parent(t, None, a, vals, idx);
            lemma_children(t, idx);
            if t.root_id() != Some(p) {
                lemma_repr_parent(t, None, a, vals, p);
            }
        }
        let up = self.edge_list[p].parent;
        match up {
            Some(g) => {
                proof {
                    assert(link_ok(t.ids(), a, g));
                }
                if leads_to(self.edge_list[g].right, p) {
                    set_right(&mut self.edge_list, g, index);
                } else {
                    set_left(&mut self.edge_list, g, index);
                }
            },
            None => {
                self.root = index;
            },
        }
        let inner = self.edge_list[idx].left;
        set_right(&mut self.edge_list, p, inner);
        match inner {
            Some(left) => {
                set_parent(&mut self.edge_list, left, Some(p));
            },
            None => {},
        }
        set_left(&mut self.edge_list, idx, Some(p));
        set_parent(&mut self.edge_list, idx, up);
        set_parent(&mut self.edge_list, p, index);
        let c = self.color[idx];
        let d = self.color[p];
        self.color.set(idx, d);
        self.color.set(p, c);
        proof {
            assert(raised_from_right(a, self.edge_list@, idx));
            lemma_raise_right(t, a, vals, self.edge_list@, idx);
        }
        self.shape = Ghost(t.replace(p, t.subtree(p).rotate_left()));
    }

    /// Double rotation for a left child `index` whose right child is to
    /// rise: the child first takes the place of `index`, then that of the
    /// parent of `index`, exchanging colours with each in turn.
    pub(crate) fn left_right_rotation(&mut self, index: usize)
        requires
            old(self).arena_ok(),
            old(self).shape@.ids().contains(index),
            old(self).edge_list@[index as int].right is Some,
            old(self).edge_list@[index as int].parent matches Some(g) && old(
                self,
            ).edge_list@[g as int].left == Some(index),
        ensures
            final(self).arena_ok(),
            final(self).shape@.ids() == old(self).shape@.ids(),
            final(self).shape@.in_order() == old(self).shape@.in_order(),
            final(self).graph == old(self).graph,
            final(self).empty == old(self).empty,
            final(self).rank == old(self).rank,
            doubly_raised_from_left(old(self).edge_list@, final(self).edge_list@, index),
            final(self).shape@ == old(self).shape@.replace(
                old(self).edge_list@[index as int].parent.unwrap(),
                old(self).shape@.subtree(
                    old(self).edge_list@[index as int].parent.unwrap(),
                ).raise_inner_left(),
            ),
            final(self).root == redirected(
                old(self).root,
                old(self).edge_list@[index as int].parent.unwrap(),
                old(self).edge_list@[index as int].right,
            ),
            final(self).color@ == old(self).color@.update(
                old(self).edge_list@[index as int].right.unwrap() as int,
                old(self).color@[old(self).edge_list@[index as int].parent.unwrap() as int],
            ).update(
                index as int,
                old(self).color@[old(self).edge_list@[index as int].right.unwrap() as int],
            ).update(
                old(self).edge_list@[index as int].parent.unwrap() as int,
                old(self).color@[index as int],
            ),
    {
        let ghost t = self.shape@;
        let ghost a = self.edge_list@;
        let ghost vals = self.graph@;
        proof {
            lemma_repr_distinct(t, None, a, vals);
            lemma_links_local(t, a, vals);
            assert(link_ok(t.ids(), a, index));
            lemma_repr_subtree(t, None, a, vals, index);
            lemma_repr_parent(t, None, a, vals, index);
            lemma_children(t, index);
        }
        let child = self.edge_list[index].right.unwrap();
        proof {
            assert(link_ok(t.ids(), a, child));
            assert(link_ok(t.ids(), a, a[index as int].parent.unwrap()));
            lemma_children(t, child);
        }
        self.right_right_rotation(child);
        let ghost m = self.edge_list@;
        self.left_left_rotation(child);
        proof {
            let b = self.edge_list@;
            let g = a[index as int].parent.unwrap();
            assert(link_ok(t.ids(), a, g));
            if t.root_id() != Some(g) {
                lemma_repr_parent(t, None, a, vals, g);
            }
            assert(m[child as int].parent == Some(g));
            assert forall|i: usize|
                #![trigger b[i as int]]
                i < a.len() && i != child && i != index && i != g implies b[i as int] == (Links {
                parent: if a[child as int].left == Some(i) {
                    Some(index)
                } else if a[child as int].right == Some(i) {
                    Some(g)
                } else {
                    a[i as int].parent
                },
                left: if a[g as int].parent == Some(i) {
                    redirected(a[i as int].left, g, Some(child))
                } else {
                    a[i as int].left
                },
                right: if a[g as int].parent == Some(i) {
                    redirected(a[i as int].right, g, Some(child))
                } else {
                    a[i as int].right
                },
            }) by {
                let mi = m[i as int];
                assert(t.ids().contains(i) ==> link_ok(t.ids(), a, i));
            }
            assert(doubly_raised_from_left(a, b, index));
            lemma_repr_subtree(t, None, a, vals, g);
            lemma_children(t, g);
            lemma_double_left(t, g);
            assert(self.color@ =~= old(self).color@.update(
                child as int,
                old(self).color@[a[index as int].parent.unwrap() as int],
            ).update(index as int, old(self).color@[child as int]).update(
                a[index as int].parent.unwrap() as int,
                old(self).color@[index as int],
            ));
        }
    }

    /// Double rotation for a right child `index` whose left child is to
    /// rise: the child first takes the place of `index`, then that of the
    /// parent of `index`, exchanging colours with each in turn.
    pub(crate) fn right_left_rotation(&mut self, index: usize)
        requires
            old(self).arena_ok(),
            old(self).shape@.ids().contains(index),
            old(self).edge_list@[index as int].left is Some,
            old(self).edge_list@[index as int].parent matches Some(g) && old(
                self,
            ).edge_list@[g as int].right == Some(index),
        ensures
            final(self).arena_ok(),
            final(self).shape@.ids() == old(self).shape@.ids(),
            final(self).shape@.in_order() == old(self).shape@.in_order(),
            final(self).graph == old(self).graph,
            final(self).empty == old(self).empty,
            final(self).rank == old(self).rank,
            doubly_raised_from_right(old(self).edge_list@, final(self).edge_list@, index),
            final(self).shape@ == old(self).shape@.replace(
                old(self).edge_list@[index as int].parent.unwrap(),
                old(self).shape@.subtree(
                    old(self).edge_list@[index as int].parent.unwrap(),
                ).raise_inner_right(),
            ),
            final(self).root == redirected(
                old(self).root,
                old(self).edge_list@[index as int].parent.unwrap(),
                old(self).edge_list@[index as int].left,
            ),
            final(self).color@ == old(self).color@.update(
                old(self).edge_list@[index as int].left.unwrap() as int,
                old(self).color@[old(self).edge_list@[index as int].parent.unwrap() as int],
            ).update(
                index as int,
                old(self).color@[old(self).edge_list@[index as int].left.unwrap() as int],
            ).update(
                old(self).edge_list@[index as int].parent.unwrap() as int,
                old(self).color@[index as int],
            ),
    {
        let ghost t = self.shape@;
        let ghost a = self.edge_list@;
        let ghost vals = self.graph@;
        proof {
            lemma_repr_distinct(t, None, a, vals);
            lemma_links_local(t, a, vals);
            assert(link_ok(t.ids(), a, index));
            lemma_repr_subtree(t, None, a, vals, index);
            lemma_repr_parent(t, None, a, vals, index);
            lemma_children(t, index);
        }
        let child = self.edge_list[index].left.unwrap();
        proof {
            assert(link_ok(t.ids(), a, child));
            assert(link_ok(t.ids(), a, a[index as int].parent.unwrap()));
            lemma_children(t, child);
        }
        self.left_left_rotation(child);
        let ghost m = self.edge_list@;
        self.right_right_rotation(child);
        proof {
            let b = self.edge_list@;
            let g = a[index as int].parent.unwrap();
            assert(link_ok(t.ids(), a, g));
            if t.root_id() != Some(g) {
                lemma_repr_parent(t, None, a, vals, g);
            }
            assert(m[child as int].parent == Some(g));
            assert forall|i: usize|
                #![trigger b[i as int]]
                i < a.len() && i != child && i != index && i != g implies b[i as int] == (Links {
                parent: if a[child as int].left == Some(i) {
                    Some(g)
                } else if a[child as int].right == Some(i) {
                    Some(index)
                } else {
                    a[i as int].parent
                },
                left: if a[g as int].parent == Some(i) {
                    redirected(a[i as int].left, g, Some(child))
                } else {
                    a[i as int].left
                },
                right: if a[g as int].parent == Some(i) {
                    redirected(a[i as int].right, g, Some(child))
                } else {
                    a[i as int].right
                },
            }) by {
                let mi = m[i as int];
                assert(t.ids().contains(i) ==> link_ok(t.ids(), a, i));
            }
            assert(doubly_raised_from_right(a, b, index));
            lemma_repr_subtree(t, None, a, vals, g);
            lemma_children(t, g);
            lemma_double_right(t, g);
            assert(self.color@ =~= old(self).color@.update(
                child as int,
                old(self).color@[a[index as int].parent.unwrap() as int],
            ).update(index as int, old(self).color@[child as int]).update(
                a[index as int].parent.unwrap() as int,
                old(self).color@[index as int],
            ));
        }
    }
}

} // verus!
