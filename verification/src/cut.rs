use vstd::prelude::*;
use crate::shape::Shape;
use crate::shape_proofs::lemma_subtree;
use crate::shape_proofs::lemma_replace_ids;
use crate::shape_proofs::lemma_in_order_split;
use crate::links::Links;
use crate::links::repr;
use crate::links::redirected;
use crate::links::lemma_repr_subtree;
use crate::links::lemma_repr_distinct;
use crate::links::lemma_repr_parent;
use crate::links::lemma_repr_frame;
use crate::links::lemma_repr_replace;

verus! {

/// The one child of a slot that has at most one.
pub open spec fn only_child(a: Seq<Links>, idx: usize) -> Option<usize> {
    if a[idx as int].left is Some {
        a[idx as int].left
    } else {
        a[idx as int].right
    }
}

/// The link table `b` is the table `a` after slot `idx`, which has at most
/// one child, has been taken out: its child, if any, hangs where `idx` hung.
/// The links of `idx` itself stay as they were.
pub open spec fn cut_out(a: Seq<Links>, b: Seq<Links>, idx: usize) -> bool {
    let c = only_child(a, idx);
    &&& b.len() == a.len()
    &&& b[idx as int] == a[idx as int]
    &&& forall|i: usize|
        #![trigger b[i as int]]
        i < a.len() && i != idx ==> b[i as int] == (Links {
            parent: if c == Some(i) {
                a[idx as int].parent
            } else {
                a[i as int].parent
            },
            left: if a[idx as int].parent == Some(i) {
                redirected(a[i as int].left, idx, c)
            } else {
                a[i as int].left
            },
            right: if a[idx as int].parent == Some(i) {
                redirected(a[i as int].right, idx, c)
            } else {
                a[i as int].right
            },
        })
}

impl<T> Shape<T> {
    /// What is left of a tree whose top has at most one child when the top
    /// is taken away.
    pub open spec fn beheaded(self) -> Shape<T> {
        if self.lhs() is Node {
            self.lhs()
        } else {
            self.rhs()
        }
    }
}

/// Tables that held a tree hold, after a slot with at most one child has
/// been taken out, the tree without that node; the traversal in order has
/// lost the value of that slot and nothing else.
pub proof fn lemma_cut<T>(t: Shape<T>, a: Seq<Links>, vals: Seq<T>, b: Seq<Links>, idx: usize)
    requires
        repr(t, None, a, vals),
        t.ids().contains(idx),
        a[idx as int].left is None || a[idx as int].right is None,
        cut_out(a, b, idx),
    ensures
        ({
            let t2 = t.replace(idx, t.subtree(idx).beheaded());
            &&& repr(t2, None, b, vals)
            &&& t2.ids() == t.ids().remove(idx)
            &&& t2.root_id() == redirected(t.root_id(), idx, only_child(a, idx))
            &&& 0 <= t.place(idx) < t.in_order().len()
            &&& t2.in_order() == t.in_order().remove(t.place(idx))
        }),
{
    let sub = t.subtree(idx);
    let s = sub.beheaded();
    let t2 = t.replace(idx, s);
    lemma_repr_distinct(t, None, a, vals);
    lemma_repr_subtree(t, None, a, vals, idx);
    lemma_subtree(t, idx);
    if t.root_id() != Some(idx) {
        lemma_repr_parent(t, None, a, vals, idx);
    }
    assert(s.root_id() == only_child(a, idx) && sub.ids() =~= s.ids().insert(idx)
        && !s.ids().contains(idx) && repr(s, Some(idx), a, vals) && sub.in_order()
        =~= sub.lhs().in_order().push(sub->val) + sub.rhs().in_order() && (sub.lhs() is Leaf
        || sub.rhs() is Leaf)) by {
        reveal_with_fuel(repr, 2);
        reveal_with_fuel(Shape::ids, 2);
        reveal_with_fuel(Shape::in_order, 2);
    }
    assert forall|i: usize| #[trigger] s.ids().contains(i) implies {
        &&& i < b.len()
        &&& i < vals.len()
        &&& i != idx
        &&& a[idx as int].parent != Some(i)
        &&& t.ids().contains(i)
    } by {
        assert(sub.ids().contains(i));
        assert(t.ids().contains(i));
    }
    assert(repr(s, a[idx as int].parent, b, vals)) by {
        reveal_with_fuel(repr, 2);
        lemma_repr_frame(s, Some(idx), a, vals, a[idx as int].parent, b, vals);
    }
    lemma_repr_replace(t, None, a, vals, idx, s, b, vals);
    lemma_repr_distinct(s, a[idx as int].parent, b, vals);
    lemma_replace_ids(t, idx, s);
    assert(t2.ids() =~= t.ids().remove(idx));
    lemma_in_order_split(t, idx, s);
    let k = t.place(idx);
    let w = t.in_order();
    assert(s.in_order() =~= sub.lhs().in_order() + sub.rhs().in_order()) by {
        reveal_with_fuel(Shape::in_order, 2);
    }
    lemma_remove_middle(t.before(idx), sub.lhs().in_order(), sub->val, sub.rhs().in_order(), t.after(idx));
}

/// A sequence of five parts without the one element in the middle.
pub proof fn lemma_remove_middle<T>(x: Seq<T>, lo: Seq<T>, v: T, hi: Seq<T>, y: Seq<T>)
    ensures
        (x + (lo.push(v) + hi) + y).remove((x.len() + lo.len()) as int) == x + (lo + hi) + y,
        x.len() + lo.len() < (x + (lo.push(v) + hi) + y).len(),
        (x + (lo.push(v) + hi) + y)[(x.len() + lo.len()) as int] == v,
{
    let w = x + (lo.push(v) + hi) + y;
    assert(w.remove((x.len() + lo.len()) as int) =~= x + (lo + hi) + y);
}

} // verus!
