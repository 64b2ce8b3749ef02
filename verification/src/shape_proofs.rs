use vstd::prelude::*;
use crate::shape::Shape;

verus! {

/// The subtree at a slot that occurs has that slot on top and lies inside
/// the tree.
pub proof fn lemma_subtree<T>(t: Shape<T>, g: usize)
    requires
        t.ids().contains(g),
    ensures
        t.subtree(g).root_id() == Some(g),
        t.subtree(g).ids().subset_of(t.ids()),
        t.distinct() ==> t.subtree(g).distinct(),
        t.root_id() == Some(g) ==> t.subtree(g) == t,
    decreases t,
{
    match t {
        Shape::Leaf => {},
        Shape::Node { id, val, left, right } => {
            if id == g {
            } else if left.ids().contains(g) {
                lemma_subtree(*left, g);
            } else {
                lemma_subtree(*right, g);
            }
        },
    }
}

/// Which slots a tree holds after a subtree was exchanged, and that none
/// occurs twice if the new part brings no slot that the rest holds.
pub proof fn lemma_replace_ids<T>(t: Shape<T>, g: usize, s: Shape<T>)
    requires
        t.ids().contains(g),
        t.distinct(),
        s.distinct(),
        s.ids().disjoint(t.ids().difference(t.subtree(g).ids())),
    ensures
        t.replace(g, s).ids() =~= t.ids().difference(t.subtree(g).ids()).union(s.ids()),
        t.replace(g, s).distinct(),
        t.replace(g, s).root_id() == (if t.root_id() == Some(g) {
            s.root_id()
        } else {
            t.root_id()
        }),
    decreases t,
{
    match t {
        Shape::Leaf => {},
        Shape::Node { id, val, left, right } => {
            if id == g {
            } else if left.ids().contains(g) {
                lemma_subtree(*left, g);
                lemma_replace_ids(*left, g, s);
            } else {
                lemma_subtree(*right, g);
                lemma_replace_ids(*right, g, s);
            }
        },
    }
}

/// In-order traversal visits what lies before the subtree at `g`, then the
/// subtree, then what lies after it; exchanging the subtree changes only
/// the middle part.
pub proof fn lemma_in_order_split<T>(t: Shape<T>, g: usize, s: Shape<T>)
    requires
        t.ids().contains(g),
    ensures
        t.in_order() =~= t.before(g) + t.subtree(g).in_order() + t.after(g),
        t.replace(g, s).in_order() =~= t.before(g) + s.in_order() + t.after(g),
    decreases t,
{
    match t {
        Shape::Leaf => {},
        Shape::Node { id, val, left, right } => {
            if id == g {
            } else if left.ids().contains(g) {
                lemma_in_order_split(*left, g, s);
            } else {
                lemma_in_order_split(*right, g, s);
            }
        },
    }
}

/// How the children of the node at `g` sit in the whole tree.
pub proof fn lemma_children<T>(t: Shape<T>, g: usize)
    requires
        t.ids().contains(g),
        t.distinct(),
    ensures
        match t.subtree(g).lhs().root_id() {
            Some(c) => {
                &&& t.ids().contains(c)
                &&& c != g
                &&& t.subtree(c) == t.subtree(g).lhs()
                &&& t.before(c) =~= t.before(g)
                &&& t.after(c) =~= t.subtree(g).rhs().in_order().insert(
                    0,
                    t.subtree(g)->val,
                ) + t.after(g)
                &&& t.depth(c) == t.depth(g) + 1
            },
            None => true,
        },
        match t.subtree(g).rhs().root_id() {
            Some(c) => {
                &&& t.ids().contains(c)
                &&& c != g
                &&& t.subtree(c) == t.subtree(g).rhs()
                &&& t.before(c) =~= t.before(g) + t.subtree(g).lhs().in_order().push(
                    t.subtree(g)->val,
                )
                &&& t.after(c) =~= t.after(g)
                &&& t.depth(c) == t.depth(g) + 1
            },
            None => true,
        },
    decreases t,
{
    match t {
        Shape::Leaf => {},
        Shape::Node { id, val, left, right } => {
            if id == g {
                match *left {
                    Shape::Leaf => {},
                    Shape::Node { id: c, .. } => {
                        assert(left.ids().contains(c));
                        lemma_subtree(*left, c);
                        assert(left.before(c) =~= Seq::empty());
                        assert(left.after(c) =~= Seq::empty());
                        assert(left.depth(c) == 0);
                        assert(t.after(c) =~= right.in_order().insert(0, val));
                    },
                }
                match *right {
                    Shape::Leaf => {},
                    Shape::Node { id: c, .. } => {
                        assert(right.ids().contains(c));
                        assert(!left.ids().contains(c));
                        lemma_subtree(*right, c);
                        assert(right.before(c) =~= Seq::empty());
                        assert(right.after(c) =~= Seq::empty());
                        assert(right.depth(c) == 0);
                    },
                }
            } else if left.ids().contains(g) {
                lemma_subtree(*left, g);
                lemma_children(*left, g);
            } else {
                lemma_subtree(*right, g);
                lemma_children(*right, g);
                let sub = right.subtree(g);
                match sub.lhs().root_id() {
                    Some(c) => {
                        assert(right.ids().contains(c));
                        assert(!left.ids().contains(c));
                    },
                    None => {},
                }
                match sub.rhs().root_id() {
                    Some(c) => {
                        assert(right.ids().contains(c));
                        assert(!left.ids().contains(c));
                    },
                    None => {},
                }
            }
        },
    }
}

/// How a slot of the new part sits in a tree after a subtree was exchanged
/// for that part.
pub proof fn lemma_replace_inside<T>(t: Shape<T>, g: usize, s: Shape<T>, x: usize)
    requires
        t.ids().contains(g),
        t.distinct(),
        s.distinct(),
        s.ids().disjoint(t.ids().difference(t.subtree(g).ids())),
        s.ids().contains(x),
    ensures
        t.replace(g, s).subtree(x) == s.subtree(x),
        t.replace(g, s).before(x) =~= t.before(g) + s.before(x),
        t.replace(g, s).after(x) =~= s.after(x) + t.after(g),
        t.replace(g, s).depth(x) == t.depth(g) + s.depth(x),
    decreases t,
{
    match t {
        Shape::Leaf => {},
        Shape::Node { id, val, left, right } => {
            if id == g {
            } else if left.ids().contains(g) {
                lemma_subtree(*left, g);
                lemma_replace_ids(*left, g, s);
                lemma_replace_inside(*left, g, s, x);
                assert(t.ids().contains(id) && !t.subtree(g).ids().contains(id));
                assert(left.replace(g, s).ids().contains(x));
            } else {
                lemma_subtree(*right, g);
                lemma_replace_ids(*right, g, s);
                lemma_replace_inside(*right, g, s, x);
                assert(t.ids().contains(id) && !t.subtree(g).ids().contains(id));
                assert(!left.ids().contains(x)) by {
                    if left.ids().contains(x) {
                        assert(t.ids().contains(x));
                        assert(!right.ids().contains(x));
                        assert(!t.subtree(g).ids().contains(x));
                    }
                }
            }
        },
    }
}

/// The leftmost node of a tree has no left child, and the traversal in
/// order starts with it.
pub proof fn lemma_leftmost<T>(t: Shape<T>)
    requires
        t is Node,
        t.distinct(),
    ensures
        t.ids().contains(t.leftmost()),
        t.subtree(t.leftmost()) is Node,
        t.subtree(t.leftmost())->id == t.leftmost(),
        t.subtree(t.leftmost()).lhs() is Leaf,
        t.before(t.leftmost()) =~= Seq::empty(),
        t.lhs() is Leaf <==> t.leftmost() == t->id,
    decreases t,
{
    match t {
        Shape::Leaf => {},
        Shape::Node { id, val, left, right } => {
            if *left is Leaf {
            } else {
                lemma_leftmost(*left);
                if left.leftmost() == id {
                }
            }
        },
    }
}

/// Exchanging a subtree twice is exchanging it once for the last part, if
/// the first part had the same slot on top.
pub proof fn lemma_replace_twice<T>(t: Shape<T>, g: usize, s1: Shape<T>, s2: Shape<T>)
    requires
        t.ids().contains(g),
        t.distinct(),
        s1.distinct(),
        s1.ids().disjoint(t.ids().difference(t.subtree(g).ids())),
        s1.root_id() == Some(g),
    ensures
        t.replace(g, s1).replace(g, s2) == t.replace(g, s2),
    decreases t,
{
    match t {
        Shape::Leaf => {},
        Shape::Node { id, val, left, right } => {
            if id == g {
            } else if left.ids().contains(g) {
                lemma_subtree(*left, g);
                lemma_replace_ids(*left, g, s1);
                lemma_replace_twice(*left, g, s1, s2);
                assert(s1.ids().contains(g));
                assert(left.replace(g, s1).ids().contains(g));
            } else {
                lemma_subtree(*right, g);
                lemma_replace_ids(*right, g, s1);
                lemma_replace_twice(*right, g, s1, s2);
            }
        },
    }
}

/// Exchanging the left subtree of the node at `g` is exchanging the
/// subtree at `g` for itself with another left subtree; and so on the
/// right.
pub proof fn lemma_replace_child<T>(t: Shape<T>, g: usize, s: Shape<T>)
    requires
        t.ids().contains(g),
        t.distinct(),
    ensures
        t.subtree(g).lhs().root_id() matches Some(c) ==> t.replace(c, s) == t.replace(
            g,
            t.subtree(g).with_left(s),
        ),
        t.subtree(g).rhs().root_id() matches Some(c) ==> t.replace(c, s) == t.replace(
            g,
            t.subtree(g).with_right(s),
        ),
    decreases t,
{
    reveal_with_fuel(Shape::replace, 2);
    match t {
        Shape::Leaf => {},
        Shape::Node { id, val, left, right } => {
            if id == g {
                match *left {
                    Shape::Leaf => {},
                    Shape::Node { id: c, .. } => {
                        assert(left.ids().contains(c));
                    },
                }
                match *right {
                    Shape::Leaf => {},
                    Shape::Node { id: c, .. } => {
                        assert(right.ids().contains(c));
                        assert(!left.ids().contains(c));
                    },
                }
            } else if left.ids().contains(g) {
                lemma_subtree(*left, g);
                lemma_replace_child(*left, g, s);
                let sub = left.subtree(g);
                match sub.lhs().root_id() {
                    Some(c) => {
                        assert(sub.lhs().ids().contains(c));
                        assert(sub.ids().contains(c));
                    },
                    None => {},
                }
                match sub.rhs().root_id() {
                    Some(c) => {
                        assert(sub.rhs().ids().contains(c));
                        assert(sub.ids().contains(c));
                    },
                    None => {},
                }
            } else {
                lemma_subtree(*right, g);
                lemma_replace_child(*right, g, s);
                let sub = right.subtree(g);
                match sub.lhs().root_id() {
                    Some(c) => {
                        assert(sub.lhs().ids().contains(c));
                        assert(sub.ids().contains(c));
                        assert(right.ids().contains(c));
                        assert(!left.ids().contains(c));
                    },
                    None => {},
                }
                match sub.rhs().root_id() {
                    Some(c) => {
                        assert(sub.rhs().ids().contains(c));
                        assert(sub.ids().contains(c));
                        assert(right.ids().contains(c));
                        assert(!left.ids().contains(c));
                    },
                    None => {},
                }
            }
        },
    }
}

/// The value of a node occurs in the traversal in order, at the place of
/// the node.
pub proof fn lemma_own_value<T>(t: Shape<T>, g: usize)
    requires
        t.ids().contains(g),
    ensures
        t.subtree(g) is Node,
        0 <= t.place(g) < t.in_order().len(),
        t.in_order()[t.place(g)] == t.subtree(g)->val,
        t.in_order().contains(t.subtree(g)->val),
{
    lemma_subtree(t, g);
    lemma_in_order_split(t, g, t);
    let sub = t.subtree(g);
    assert(sub.in_order()[sub.lhs().in_order().len() as int] == sub->val);
    assert(t.in_order()[t.place(g)] == sub->val);
}

/// In a tree that holds no value twice, the slot of a value is the one
/// slot that holds it.
pub proof fn lemma_slot_of<T>(t: Shape<T>, g: usize)
    requires
        t.ids().contains(g),
        t.in_order().no_duplicates(),
    ensures
        t.slot_of(t.subtree(g)->val) == g,
    decreases t,
{
    match t {
        Shape::Leaf => {},
        Shape::Node { id, val, left, right } => {
            let w = t.in_order();
            let lo = left.in_order();
            let hi = right.in_order();
            let n = lo.len() as int;
            assert(w[n] == val);
            assert forall|i: int, j: int| 0 <= i < lo.len() && 0 <= j < lo.len() && i != j implies lo[i]
                != lo[j] by {
                assert(w[i] == lo[i] && w[j] == lo[j]);
            }
            assert forall|i: int, j: int| 0 <= i < hi.len() && 0 <= j < hi.len() && i != j implies hi[i]
                != hi[j] by {
                assert(w[n + 1 + i] == hi[i] && w[n + 1 + j] == hi[j]);
            }
            if id == g {
            } else if left.ids().contains(g) {
                lemma_own_value(*left, g);
                let v = left.subtree(g)->val;
                let k = left.place(g);
                assert(w[k] == v);
                lemma_slot_of(*left, g);
            } else {
                lemma_own_value(*right, g);
                let v = right.subtree(g)->val;
                let k = right.place(g);
                assert(w[n + 1 + k] == v);
                if lo.contains(v) {
                    let i = choose|i: int| 0 <= i < lo.len() && lo[i] == v;
                    assert(w[i] == v);
                }
                lemma_slot_of(*right, g);
            }
        },
    }
}

} // verus!
