use vstd::prelude::*;
use crate::shape::Shape;
use crate::shape_proofs::lemma_subtree;
use crate::shape_proofs::lemma_children;
use crate::shape_proofs::lemma_replace_child;
use crate::shape_proofs::lemma_replace_ids;
use crate::shape_proofs::lemma_in_order_split;
use crate::links::Links;
use crate::links::repr;
use crate::links::link_ok;
use crate::links::lemma_links_local;
use crate::links::lemma_repr_subtree;
use crate::links::lemma_repr_distinct;
use crate::links::lemma_repr_parent;
use crate::links::lemma_parent_in;
use crate::links::lemma_repr_frame;
use crate::links::lemma_repr_replace;
use crate::links::set_left;
use crate::links::set_right;
use crate::links::leads_to;
use crate::colour::is_red;
use crate::order::lt;
use crate::order::total_order;
use crate::order::ascending;
use crate::order::all_below;
use crate::order::all_above;
use crate::order::less;
use crate::order::lemma_ascending_split;
use crate::order::lemma_ascending_parts;
use crate::order::lemma_ascending_insert;
use crate::order::lemma_above_lower;
use crate::order::lemma_below_higher;
use crate::order::lemma_above_joined;
use crate::order::lemma_below_joined;
use crate::model::painted;
use crate::mend::mending;
use crate::mend::lemma_top_blackened;
use crate::mend::lemma_hung_mending;
use crate::mend::lemma_top_mended;
use crate::mend::lemma_black_parent_mended;
use crate::mend::lemma_recoloured;
use crate::mend::lemma_raised_left_mended;
use crate::mend::lemma_raised_right_mended;
use crate::mend::lemma_doubly_raised_left_mended;
use crate::mend::lemma_doubly_raised_right_mended;
use crate::tree::Tree;

verus! {

/// Tables that held a tree hold, after a new node has been hung under slot
/// `idx` where it had no child, the tree with that node.
pub proof fn lemma_hang_repr<T>(
    t: Shape<T>,
    a: Seq<Links>,
    vals: Seq<T>,
    b: Seq<Links>,
    vals2: Seq<T>,
    idx: usize,
    n: usize,
    v: T,
    on_left: bool,
)
    requires
        repr(t, None, a, vals),
        t.ids().contains(idx),
        !t.ids().contains(n),
        on_left ==> a[idx as int].left is None,
        !on_left ==> a[idx as int].right is None,
        n < b.len(),
        n < vals2.len(),
        b[n as int] == (Links { parent: Some(idx), left: None, right: None }),
        vals2[n as int] == v,
        b[idx as int] == (Links {
            parent: a[idx as int].parent,
            left: if on_left {
                Some(n)
            } else {
                a[idx as int].left
            },
            right: if on_left {
                a[idx as int].right
            } else {
                Some(n)
            },
        }),
        forall|i: usize| #[trigger]
            t.ids().contains(i) ==> i < b.len() && i < vals2.len() && vals2[i as int]
                == vals[i as int] && (i != idx ==> b[i as int] == a[i as int]),
    ensures
        ({
            let t2 = t.replace(idx, t.subtree(idx).hang(n, v, on_left));
            &&& repr(t2, None, b, vals2)
            &&& t2.ids() == t.ids().insert(n)
            &&& t2.root_id() == t.root_id()
            &&& on_left ==> t.subtree(idx).lhs() is Leaf
            &&& !on_left ==> t.subtree(idx).rhs() is Leaf
            &&& t.subtree(idx) is Node
            &&& t.subtree(idx)->val == vals[idx as int]
        }),
{
    let sub = t.subtree(idx);
    let s = sub.hang(n, v, on_left);
    let t2 = t.replace(idx, s);
    lemma_repr_distinct(t, None, a, vals);
    lemma_repr_subtree(t, None, a, vals, idx);
    lemma_subtree(t, idx);
    reveal_with_fuel(repr, 3);
    reveal_with_fuel(Shape::ids, 3);
    assert forall|i: usize| #[trigger] sub.lhs().ids().contains(i) implies t.ids().contains(i)
        && i != idx by {
        assert(sub.ids().contains(i));
    }
    assert forall|i: usize| #[trigger] sub.rhs().ids().contains(i) implies t.ids().contains(i)
        && i != idx by {
        assert(sub.ids().contains(i));
    }
    lemma_repr_frame(sub.lhs(), Some(idx), a, vals, Some(idx), b, vals2);
    lemma_repr_frame(sub.rhs(), Some(idx), a, vals, Some(idx), b, vals2);
    assert(repr(s, a[idx as int].parent, b, vals2));
    assert(s.ids() =~= sub.ids().insert(n));
    lemma_repr_replace(t, None, a, vals, idx, s, b, vals2);
    lemma_repr_distinct(s, a[idx as int].parent, b, vals2);
    lemma_replace_ids(t, idx, s);
    assert(t2.ids() =~= t.ids().insert(n));
}

/// A value put in front of the middle part of a sequence of three parts.
pub proof fn lemma_insert_front<T>(a: Seq<T>, m: Seq<T>, c: Seq<T>, v: T)
    ensures
        a + m.insert(0, v) + c == (a + m + c).insert(a.len() as int, v),
        (a + m + c).subrange(0, a.len() as int) == a,
        (a + m + c).subrange(a.len() as int, (a + m + c).len() as int) == m + c,
{
    let w = a + m + c;
    let k = a.len() as int;
    assert(a + m.insert(0, v) + c =~= w.insert(k, v));
    assert(w.subrange(0, k) =~= a);
    assert(w.subrange(k, w.len() as int) =~= m + c);
}

/// A value put behind the middle part of a sequence of three parts.
pub proof fn lemma_insert_back<T>(a: Seq<T>, m: Seq<T>, c: Seq<T>, v: T)
    ensures
        a + m.push(v) + c == (a + m + c).insert((a.len() + m.len()) as int, v),
        (a + m + c).subrange(0, (a.len() + m.len()) as int) == a + m,
        (a + m + c).subrange((a.len() + m.len()) as int, (a + m + c).len() as int) == c,
{
    let w = a + m + c;
    let k = (a.len() + m.len()) as int;
    assert(a + m.push(v) + c =~= w.insert(k, v));
    assert(w.subrange(0, k) =~= a + m);
    assert(w.subrange(k, w.len() as int) =~= c);
}

/// Where a new node hung under slot `idx` enters the traversal in order,
/// and what lies before and after that place.
pub proof fn lemma_hang_place<T>(t: Shape<T>, idx: usize, n: usize, v: T, on_left: bool)
    requires
        t.ids().contains(idx),
        t.subtree(idx) is Node,
        on_left ==> t.subtree(idx).lhs() is Leaf,
        !on_left ==> t.subtree(idx).rhs() is Leaf,
    ensures
        ({
            let sub = t.subtree(idx);
            let t2 = t.replace(idx, sub.hang(n, v, on_left));
            let w = t.in_order();
            let mid = sub.lhs().in_order().push(sub->val) + sub.rhs().in_order();
            let k = if on_left {
                t.before(idx).len() as int
            } else {
                (t.before(idx).len() + mid.len()) as int
            };
            &&& 0 <= k <= w.len()
            &&& w == t.before(idx) + mid + t.after(idx)
            &&& t2.in_order() == w.insert(k, v)
            &&& w.subrange(0, k) == (if on_left {
                t.before(idx)
            } else {
                t.before(idx) + mid
            })
            &&& w.subrange(k, w.len() as int) == (if on_left {
                mid + t.after(idx)
            } else {
                t.after(idx)
            })
        }),
{
    let sub = t.subtree(idx);
    let s = sub.hang(n, v, on_left);
    lemma_in_order_split(t, idx, s);
    let mid = sub.lhs().in_order().push(sub->val) + sub.rhs().in_order();
    assert(sub.in_order() == mid);
    if on_left {
        assert(s.in_order() =~= mid.insert(0, v)) by {
            reveal_with_fuel(Shape::in_order, 3);
        }
        lemma_insert_front(t.before(idx), mid, t.after(idx), v);
    } else {
        assert(s.in_order() =~= mid.push(v)) by {
            reveal_with_fuel(Shape::in_order, 3);
        }
        lemma_insert_back(t.before(idx), mid, t.after(idx), v);
    }
}

/// A new node hung under slot `idx`, on the side where its value belongs,
/// leaves a traversal in order that ascends and holds the new value with
/// the old ones.
pub proof fn lemma_hang_order<T: PartialOrd>(
    t: Shape<T>,
    idx: usize,
    n: usize,
    v: T,
    on_left: bool,
)
    requires
        total_order::<T>(),
        t.ids().contains(idx),
        t.subtree(idx) is Node,
        on_left ==> t.subtree(idx).lhs() is Leaf && lt(v, t.subtree(idx)->val),
        !on_left ==> t.subtree(idx).rhs() is Leaf && lt(t.subtree(idx)->val, v),
        ascending(t.in_order()),
        all_below(t.before(idx), v),
        all_above(t.after(idx), v),
    ensures
        ({
            let t2 = t.replace(idx, t.subtree(idx).hang(n, v, on_left));
            &&& ascending(t2.in_order())
            &&& t2.in_order().to_set() == t.in_order().to_set().insert(v)
            &&& !t.in_order().contains(v)
        }),
{
    let sub = t.subtree(idx);
    lemma_hang_place(t, idx, n, v, on_left);
    let w = t.in_order();
    let val = sub->val;
    let lo = sub.lhs().in_order();
    let hi = sub.rhs().in_order();
    lemma_ascending_parts(t.before(idx), lo.push(val) + hi, t.after(idx));
    lemma_ascending_split(lo, val, hi);
    if on_left {
        let k = t.before(idx).len() as int;
        lemma_above_lower(hi, val, v);
        lemma_above_joined(lo, val, hi, t.after(idx), v);
        lemma_ascending_insert(w, k, v);
    } else {
        let k = (t.before(idx).len() + lo.len() + 1 + hi.len()) as int;
        lemma_below_higher(lo, val, v);
        lemma_below_joined(t.before(idx), lo, val, hi, v);
        lemma_ascending_insert(w, k, v);
    }
}

impl<T: PartialOrd> Tree<T> {
    /// `post` is `pre` after slot `n` has been taken for a new node: the
    /// slot was free or is new, holds what the node was given, and is no
    /// longer on the stack of free slots; the tree is not yet told of it.
    pub open(crate) spec fn allocated(
        pre: Tree<T>,
        post: Tree<T>,
        n: usize,
        value: T,
        parent: Option<usize>,
        red: bool,
    ) -> bool {
        &&& !pre.shape@.ids().contains(n)
        &&& n == pre.next_slot()
        &&& post.empty@ == pre.free_slots_after()
        &&& post.graph@.len() == (if pre.empty@.len() > 0 {
            pre.graph@.len()
        } else {
            pre.graph@.len() + 1
        })
        &&& n <= pre.graph@.len()
        &&& n < post.graph@.len()
        &&& post.graph@.len() >= pre.graph@.len()
        &&& post.edge_list@.len() == post.graph@.len()
        &&& post.color@.len() == post.graph@.len()
        &&& post.rank@.len() == post.graph@.len()
        &&& post.graph@[n as int] == value
        &&& post.edge_list@[n as int] == (Links { parent, left: None, right: None })
        &&& post.color@[n as int] == red
        &&& post.rank@[n as int] == 0
        &&& forall|i: int|
            #![trigger post.graph@[i]]
            #![trigger post.edge_list@[i]]
            #![trigger post.color@[i]]
            #![trigger post.rank@[i]]
            0 <= i < pre.graph@.len() && i != n ==> {
                &&& post.graph@[i] == pre.graph@[i]
                &&& post.edge_list@[i] == pre.edge_list@[i]
                &&& post.color@[i] == pre.color@[i]
                &&& post.rank@[i] == pre.rank@[i]
            }
        &&& post.shape == pre.shape
        &&& post.root == pre.root
        &&& post.empty@.no_duplicates()
        &&& forall|k: int|
            0 <= k < post.empty@.len() ==> (#[trigger] post.empty@[k]) < post.graph@.len()
                && !post.shape@.ids().contains(post.empty@[k]) && post.empty@[k] != n
        &&& forall|i: usize|
            i < post.graph@.len() ==> #[trigger] post.shape@.ids().contains(i)
                || post.empty@.contains(i) || i == n
    }

    /// Takes a slot for a new node, the one freed last if there is one, else
    /// a new one at the end of the tables, and writes the node into it.
    pub(crate) fn allocate(&mut self, value: T, parent: Option<usize>, red: bool) -> (n: usize)
        requires
            old(self).arena_ok(),
        ensures
            Self::allocated(*old(self), *final(self), n, value, parent, red),
    {
        let fresh = Links { parent, left: None, right: None };
        match self.empty.pop() {
            Some(n) => {
                proof {
                    let e = old(self).empty@;
                    assert(e[e.len() - 1] == n);
                    assert forall|k: int| 0 <= k < self.empty@.len() implies self.empty@[k]
                        != n by {
                        assert(self.empty@[k] == e[k]);
                    }
                    assert forall|i: usize|
                        i < self.graph@.len() implies #[trigger] self.shape@.ids().contains(i)
                        || self.empty@.contains(i) || i == n by {
                        if !self.shape@.ids().contains(i) && i != n {
                            assert(e.contains(i));
                            let k = choose|k: int| 0 <= k < e.len() && e[k] == i;
                            assert(self.empty@[k] == i);
                        }
                    }
                }
                self.graph.set(n, value);
                self.edge_list.set(n, fresh);
                self.color.set(n, red);
                proof {
                    self.rank@ = self.rank@.update(n as int, 0);
                }
                n
            },
            None => {
                let n = self.graph.len();
                self.graph.push(value);
                self.edge_list.push(fresh);
                self.color.push(red);
                proof {
                    self.rank@ = self.rank@.push(0);
                    assert(!self.shape@.ids().contains(n)) by {
                        lemma_repr_distinct(
                            self.shape@,
                            None,
                            old(self).edge_list@,
                            old(self).graph@,
                        );
                    }
                }
                n
            },
        }
    }

    /// `post` is `pre` after a red node without children has been added in
    /// slot `n` for the value `v`, where a search for `v` ends.
    pub open(crate) spec fn inserted(pre: Tree<T>, post: Tree<T>, n: usize, v: T) -> bool {
        &&& post.arena_ok()
        &&& !pre.shape@.ids().contains(n)
        &&& n == pre.next_slot()
        &&& post.empty@ == pre.free_slots_after()
        &&& post.graph@.len() == (if pre.empty@.len() > 0 {
            pre.graph@.len()
        } else {
            pre.graph@.len() + 1
        })
        &&& post.graph@[n as int] == v
        &&& post.color@ == painted(pre.color@, n, true)
        &&& post.shape@.ids() == pre.shape@.ids().insert(n)
        &&& ascending(post.shape@.in_order())
        &&& post.shape@.in_order().to_set() == pre.shape@.in_order().to_set().insert(v)
        &&& !pre.shape@.in_order().contains(v)
        &&& post.root == pre.root
        &&& post.color@[n as int]
        &&& post.rank@[n as int] == 0
        &&& post.edge_list@[n as int].left is None
        &&& post.edge_list@[n as int].right is None
        &&& post.edge_list@[n as int].parent is Some
        &&& forall|i: usize| #[trigger]
            pre.shape@.ids().contains(i) ==> {
                &&& post.color@[i as int] == pre.color@[i as int]
                &&& post.rank@[i as int] == pre.rank@[i as int]
                &&& post.edge_list@[i as int].parent == pre.edge_list@[i as int].parent
                &&& post.edge_list@[i as int].left == pre.edge_list@[i as int].left
                    || pre.edge_list@[i as int].left is None && post.edge_list@[i as int].left
                    == Some(n)
                &&& post.edge_list@[i as int].right == pre.edge_list@[i as int].right
                    || pre.edge_list@[i as int].right is None && post.edge_list@[i as int].right
                    == Some(n)
            }
    }

    /// Goes down from `index` to where `input` belongs and hangs a new red
    /// node there. Gives the slot of the new node, or nothing if the tree
    /// holds the value already.
    pub(crate) fn insert_helper(&mut self, input: T, index: usize) -> (r: Option<usize>)
        requires
            total_order::<T>(),
            old(self).arena_ok(),
            old(self).shape@.ids().contains(index),
            ascending(old(self).shape@.in_order()),
            all_below(old(self).shape@.before(index), input),
            all_above(old(self).shape@.after(index), input),
        ensures
            match r {
                Some(n) => Self::inserted(*old(self), *final(self), n, input) && final(self).shape@
                    == old(self).shape@.replace(
                    index,
                    old(self).shape@.subtree(index).grown(input, n),
                ),
                None => *final(self) == *old(self) && old(self).shape@.in_order().contains(input),
            },
        decreases old(self).shape@.subtree(index),
    {
        let ghost t = self.shape@;
        let ghost a = self.edge_list@;
        let ghost vals = self.graph@;
        let ghost sub = t.subtree(index);
        proof {
            lemma_repr_distinct(t, None, a, vals);
            lemma_repr_subtree(t, None, a, vals, index);
            lemma_subtree(t, index);
            lemma_children(t, index);
            lemma_in_order_split(t, index, t);
            lemma_ascending_parts(t.before(index), sub.in_order(), t.after(index));
            lemma_ascending_split(sub.lhs().in_order(), sub->val, sub.rhs().in_order());
        }
        if less(&input, &self.graph[index]) {
            match self.edge_list[index].left {
                Some(next) => {
                    proof {
                        lemma_above_lower(sub.rhs().in_order(), sub->val, input);
                        lemma_above_joined(
                            Seq::empty(),
                            sub->val,
                            sub.rhs().in_order(),
                            t.after(index),
                            input,
                        );
                        assert(t.after(next) =~= Seq::<T>::empty().push(sub->val)
                            + sub.rhs().in_order() + t.after(index));
                    }
                    let r = self.insert_helper(input, next);
                    proof {
                        if let Some(n) = r {
                            lemma_replace_child(t, index, t.subtree(next).grown(input, n));
                            assert(sub.grown(input, n) == sub.with_left(
                                t.subtree(next).grown(input, n),
                            ));
                        }
                    }
                    r
                },
                None => {
                    let n = self.allocate(input, Some(index), true);
                    set_left(&mut self.edge_list, index, Some(n));
                    proof {
                        lemma_hang_repr(
                            t,
                            a,
                            vals,
                            self.edge_list@,
                            self.graph@,
                            index,
                            n,
                            input,
                            true,
                        );
                        lemma_hang_order(t, index, n, input, true);
                        assert(sub.grown(input, n) == sub.hang(n, input, true)) by {
                            reveal_with_fuel(Shape::grown, 2);
                        }
                        assert(self.color@ =~= painted(old(self).color@, n, true));
                    }
                    self.shape = Ghost(t.replace(index, sub.hang(n, input, true)));
                    Some(n)
                },
            }
        } else if less(&self.graph[index], &input) {
            match self.edge_list[index].right {
                Some(next) => {
                    proof {
                        lemma_below_higher(sub.lhs().in_order(), sub->val, input);
                        lemma_below_joined(
                            t.before(index),
                            sub.lhs().in_order(),
                            sub->val,
                            Seq::empty(),
                            input,
                        );
                        assert(t.before(next) =~= t.before(index) + (sub.lhs().in_order().push(
                            sub->val,
                        ) + Seq::<T>::empty()));
                    }
                    let r = self.insert_helper(input, next);
                    proof {
                        if let Some(n) = r {
                            lemma_replace_child(t, index, t.subtree(next).grown(input, n));
                            assert(sub.grown(input, n) == sub.with_right(
                                t.subtree(next).grown(input, n),
                            ));
                        }
                    }
                    r
                },
                None => {
                    let n = self.allocate(input, Some(index), true);
                    set_right(&mut self.edge_list, index, Some(n));
                    proof {
                        lemma_hang_repr(
                            t,
                            a,
                            vals,
                            self.edge_list@,
                            self.graph@,
                            index,
                            n,
                            input,
                            false,
                        );
                        lemma_hang_order(t, index, n, input, false);
                        assert(sub.grown(input, n) == sub.hang(n, input, false)) by {
                            reveal_with_fuel(Shape::grown, 2);
                        }
                        assert(self.color@ =~= painted(old(self).color@, n, true));
                    }
                    self.shape = Ghost(t.replace(index, sub.hang(n, input, false)));
                    Some(n)
                },
            }
        } else {
            proof {
                self.lemma_value_in_order(index);
            }
            None
        }
    }

    /// Mends the colours upwards from the red node `index`, whose parent
    /// may be red too. A black parent, or none, means that nothing is out
    /// of order. With a red uncle the parent and the uncle turn black and
    /// the grandparent red, and the walk goes on from the grandparent; else
    /// one rotation about the grandparent ends it.
    pub(crate) fn insert_rebalance(&mut self, index: usize)
        requires
            old(self).arena_ok(),
            old(self).fix_ok(index),
            old(self).shape@.ids().contains(index),
            old(self).color@[index as int],
            !is_red(old(self).color@, old(self).root) || old(self).root == Some(index),
        ensures
            final(self).arena_ok(),
            final(self).colours_ok(),
            final(self).shape@.ids() == old(self).shape@.ids(),
            final(self).shape@.in_order() == old(self).shape@.in_order(),
            final(self).graph == old(self).graph,
            final(self).empty == old(self).empty,
            (final(self).shape@, final(self).color@) == old(self).shape@.mended(
                old(self).color@,
                index,
                old(self).shape@.depth(index),
            ),
        decreases old(self).shape@.depth(index),
    {
        let ghost t = self.shape@;
        let ghost a = self.edge_list@;
        let ghost vals = self.graph@;
        let ghost red = self.color@;
        let ghost rank = self.rank@;
        proof {
            lemma_repr_distinct(t, None, a, vals);
            lemma_links_local(t, a, vals);
            lemma_repr_subtree(t, None, a, vals, index);
            lemma_parent_in(t, None, a, vals, index);
            assert(mending(t.ids(), a, red, rank, index));
        }
        match self.edge_list[index].parent {
            Some(p) => {
                proof {
                    lemma_repr_parent(t, None, a, vals, index);
                    lemma_repr_subtree(t, None, a, vals, p);
                    lemma_parent_in(t, None, a, vals, p);
                    assert(link_ok(t.ids(), a, index));
                    assert(link_ok(t.ids(), a, p));
                }
                match self.edge_list[p].parent {
                    Some(g) => {
                        proof {
                            lemma_repr_parent(t, None, a, vals, p);
                            lemma_repr_subtree(t, None, a, vals, g);
                            assert(link_ok(t.ids(), a, g));
                        }
                        if !self.color[p] {
                            proof {
                                lemma_black_parent_mended(t.ids(), a, red, rank, index);
                            }
                        } else {
                            let p_left = leads_to(self.edge_list[g].left, p);
                            let uncle = if p_left {
                                self.edge_list[g].right
                            } else {
                                self.edge_list[g].left
                            };
                            let uncle_red = match uncle {
                                Some(u) => self.color[u],
                                None => false,
                            };
                            if uncle_red {
                                let u = uncle.unwrap();
                                self.color.set(u, false);
                                self.color.set(p, false);
                                self.color.set(g, true);
                                proof {
                                    self.rank@ = rank.update(g as int, rank[g as int] + 1);
                                    lemma_recoloured(t.ids(), a, red, rank, index, u);
                                }
                                self.insert_rebalance(g);
                            } else if p_left {
                                if leads_to(self.edge_list[p].left, index) {
                                    self.left_left_rotation(p);
                                    proof {
                                        lemma_raised_left_mended(
                                            t.ids(),
                                            a,
                                            self.edge_list@,
                                            red,
                                            rank,
                                            index,
                                        );
                                    }
                                } else {
                                    self.left_right_rotation(p);
                                    proof {
                                        lemma_doubly_raised_left_mended(
                                            t.ids(),
                                            a,
                                            self.edge_list@,
                                            red,
                                            rank,
                                            index,
                                        );
                                    }
                                }
                            } else {
                                if leads_to(self.edge_list[p].left, index) {
                                    self.right_left_rotation(p);
                                    proof {
                                        lemma_doubly_raised_right_mended(
                                            t.ids(),
                                            a,
                                            self.edge_list@,
                                            red,
                                            rank,
                                            index,
                                        );
                                    }
                                } else {
                                    self.right_right_rotation(p);
                                    proof {
                                        lemma_raised_right_mended(
                                            t.ids(),
                                            a,
                                            self.edge_list@,
                                            red,
                                            rank,
                                            index,
                                        );
                                    }
                                }
                            }
                        }
                    },
                    None => {
                        proof {
                            if t.root_id() != Some(p) {
                                lemma_repr_parent(t, None, a, vals, p);
                            }
                            lemma_black_parent_mended(t.ids(), a, red, rank, index);
                        }
                    },
                }
            },
            None => {
                proof {
                    lemma_top_mended(t.ids(), a, red, rank, index);
                }
            },
        }
    }

    /// Puts `input` into the tree and restores the balance. A value that
    /// the tree holds already is left alone: nothing changes.
    pub fn insert(&mut self, input: T)
        requires
            old(self).wf(),
        ensures
            final(self).wf(),
            ascending(final(self)@),
            final(self).shape().red_black(final(self).reds()),
            final(self)@.to_set() == old(self)@.to_set().insert(input),
            old(self)@.contains(input) ==> *final(self) == *old(self),
            !old(self)@.contains(input) ==> (final(self).shape(), final(self).reds()) == old(
                self,
            ).shape().grown(input, old(self).next_slot()).settled_after_insert(
                old(self).reds(),
                old(self).next_slot(),
            ),
            !old(self)@.contains(input) ==> {
                &&& final(self).shape().ids() == old(self).shape().ids().insert(
                    old(self).next_slot(),
                )
                &&& final(self).shape().subtree(old(self).next_slot()) is Node
                &&& final(self).shape().subtree(old(self).next_slot())->val == input
                &&& final(self).free_slots() == old(self).free_slots_after()
                &&& final(self).slots() == (if old(self).free_slots().len() > 0 {
                    old(self).slots()
                } else {
                    old(self).slots() + 1
                })
            },
    {
        let ghost t = self.shape@;
        let ghost a = self.edge_list@;
        let ghost vals = self.graph@;
        let ghost red = self.color@;
        let ghost rank = self.rank@;
        match self.root {
            None => {
                let n = self.allocate(input, None, false);
                self.root = Some(n);
                self.shape = Ghost(Shape::single(n, input));
                proof {
                    let t2 = self.shape@;
                    reveal_with_fuel(Shape::ids, 2);
                    reveal_with_fuel(Shape::in_order, 2);
                    assert(t.ids() =~= Set::empty());
                    assert(t2.ids() =~= Set::empty().insert(n));
                    assert(t2.in_order() =~= Seq::empty().push(input));
                    assert(t.in_order() =~= Seq::empty());
                    assert(t2.in_order().to_set() =~= t.in_order().to_set().insert(input)) by {
                        assert(t2.in_order()[0] == input);
                    }
                    assert(!old(self)@.contains(input));
                    assert(t.grown(input, n) == t2);
                    assert(t2.parent_in(n) is None);
                    assert(self.color@ =~= painted(red, n, true).update(n as int, false));
                    reveal_with_fuel(repr, 2);
                }
            },
            Some(r) => {
                proof {
                    lemma_subtree(t, r);
                    lemma_repr_distinct(t, None, a, vals);
                    lemma_links_local(t, a, vals);
                    assert(t.before(r) =~= Seq::empty());
                    assert(t.after(r) =~= Seq::empty());
                }
                match self.insert_helper(input, r) {
                    Some(i) => {
                        proof {
                            assert(self.shape@.ids().contains(i));
                            assert(t.ids().contains(r));
                            assert forall|j: usize| #[trigger]
                                t.ids().contains(j) implies self.shape@.ids().contains(j) by {}
                            lemma_repr_distinct(
                                self.shape@,
                                None,
                                self.edge_list@,
                                self.graph@,
                            );
                            lemma_hung_mending(
                                t.ids(),
                                a,
                                self.edge_list@,
                                red,
                                self.color@,
                                rank,
                                self.rank@,
                                i,
                            );
                            assert(self.shape@ == t.grown(input, i)) by {
                                reveal_with_fuel(Shape::replace, 2);
                            }
                            assert(self.color@ =~= painted(red, i, true));
                        }
                        self.insert_rebalance(i);
                        proof {
                            lemma_subtree(self.shape@, self.root.unwrap());
                            lemma_repr_subtree(
                                self.shape@,
                                None,
                                self.edge_list@,
                                self.graph@,
                                self.root.unwrap(),
                            );
                            lemma_links_local(self.shape@, self.edge_list@, self.graph@);
                            lemma_top_blackened(
                                self.shape@.ids(),
                                self.edge_list@,
                                self.color@,
                                self.rank@,
                                self.root.unwrap(),
                            );
                        }
                        let top = self.root.unwrap();
                        self.color.set(top, false);
                    },
                    None => {},
                }
            },
        }
        proof {
            self.lemma_wf();
            if !old(self)@.contains(input) {
                let n = old(self).next_slot();
                assert(self.shape@.ids().contains(n));
                lemma_repr_subtree(self.shape@, None, self.edge_list@, self.graph@, n);
            }
        }
    }
}

} // verus!
