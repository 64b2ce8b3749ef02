use vstd::prelude::*;
use crate::shape::Shape;
use crate::shape_proofs::lemma_subtree;
use crate::shape_proofs::lemma_children;
use crate::shape_proofs::lemma_leftmost;
use crate::shape_proofs::lemma_slot_of;
use crate::links::Links;
use crate::links::repr;
use crate::links::link_ok;
use crate::links::lemma_links_local;
use crate::links::lemma_repr_subtree;
use crate::links::lemma_repr_distinct;
use crate::links::lemma_repr_parent;
use crate::links::lemma_parent_in;
use crate::links::set_parent;
use crate::links::set_left;
use crate::links::set_right;
use crate::links::leads_to;
use crate::colour::is_red;
use crate::short::linked;
use crate::short::sound;
use crate::short::short_at;
use crate::short::lemma_red_sibling_left;
use crate::short::lemma_red_sibling_right;
use crate::short::lemma_outer_red_left;
use crate::short::lemma_outer_red_right;
use crate::short::lemma_inner_red_left;
use crate::short::lemma_inner_red_right;
use crate::short::lemma_no_red_left;
use crate::short::lemma_no_red_right;
use crate::swap::other;
use crate::swap::relabeled;
use crate::swap::places_exchanged;
use crate::swap::lemma_places_exchanged;
use crate::swap::lemma_exchanged_ids;
use crate::swap::lemma_repr_exchanged;
use crate::swap::lemma_sound_exchanged;
use crate::swap::lemma_exchanged_order;
use crate::cut::cut_out;
use crate::cut::lemma_cut;
use crate::short::lemma_leaf_cut;
use crate::short::lemma_single_cut;
use crate::order::ascending;
use crate::order::lemma_ascending_remove;
use crate::order::lemma_ascending_no_duplicates;
use crate::tree::Tree;

verus! {

impl<T: PartialOrd> Tree<T> {
    /// The colour rules hold in the tables, and a node without a parent is
    /// black.
    pub open(crate) spec fn sound(&self) -> bool {
        sound(self.shape@.ids(), self.edge_list@, self.color@, self.rank@)
    }

    /// Whether the node that the link leads to is red; an absent child is
    /// black.
    pub(crate) fn red_at(&self, link: Option<usize>) -> (r: bool)
        requires
            link matches Some(c) ==> c < self.color@.len(),
        ensures
            r == is_red(self.color@, link),
    {
        match link {
            Some(c) => self.color[c],
            None => false,
        }
    }

    /// Finds the leftmost node under `index`, which holds the lowest value
    /// of that subtree: of the right subtree of a node, its successor in
    /// order.
    pub(crate) fn get_in_order_successor(&self, index: usize) -> (r: usize)
        requires
            self.arena_ok(),
            self.shape@.ids().contains(index),
        ensures
            r == self.shape@.subtree(index).leftmost(),
            self.shape@.ids().contains(r),
            self.edge_list@[r as int].left is None,
        decreases self.shape@.subtree(index),
    {
        proof {
            lemma_repr_distinct(self.shape@, None, self.edge_list@, self.graph@);
            lemma_repr_subtree(self.shape@, None, self.edge_list@, self.graph@, index);
            lemma_children(self.shape@, index);
        }
        match self.edge_list[index].left {
            Some(idx) => self.get_in_order_successor(idx),
            None => index,
        }
    }

    /// Makes up for the black node that the ways down on one side of a node
    /// have lost. `sibling` is the child on the other side, the left one if
    /// `left`. A red sibling is first raised over the parent, which leaves a
    /// black one. A black sibling with a red child is raised, alone or
    /// behind that child, and the loss is made good. A black sibling without
    /// a red child turns red: under a red parent, which turns black, that
    /// ends it; under a black parent the parent's side is short in turn and
    /// the work goes on one step higher.
    pub(crate) fn remove_helper(&mut self, sibling: usize, left: bool)
        requires
            old(self).arena_ok(),
            old(self).shape@.ids().contains(sibling),
            old(self).edge_list@[sibling as int].parent matches Some(p) && short_at(
                old(self).shape@.ids(),
                old(self).edge_list@,
                old(self).color@,
                old(self).rank@,
                p,
                !left,
            ) && (if left {
                old(self).edge_list@[p as int].left == Some(sibling)
            } else {
                old(self).edge_list@[p as int].right == Some(sibling)
            }),
        ensures
            final(self).arena_ok(),
            final(self).sound(),
            final(self).shape@.ids() == old(self).shape@.ids(),
            final(self).shape@.in_order() == old(self).shape@.in_order(),
            final(self).graph == old(self).graph,
            final(self).empty == old(self).empty,
            (final(self).shape@, final(self).color@) == old(self).shape@.made_up(
                old(self).color@,
                sibling,
                left,
                old(self).shape@.depth(sibling),
            ),
        decreases old(self).shape@.depth(sibling),
    {
        let ghost t = self.shape@;
        let ghost ids = self.shape@.ids();
        let ghost a = self.edge_list@;
        proof {
            lemma_repr_distinct(t, None, a, self.graph@);
            lemma_links_local(t, a, self.graph@);
            lemma_repr_subtree(t, None, a, self.graph@, sibling);
            lemma_repr_parent(t, None, a, self.graph@, sibling);
            lemma_parent_in(t, None, a, self.graph@, sibling);
            assert(link_ok(ids, a, sibling));
        }
        let p = self.edge_list[sibling].parent.unwrap();
        proof {
            assert(link_ok(ids, a, p));
            lemma_repr_subtree(t, None, a, self.graph@, p);
        }
        let mut s = sibling;
        if self.color[s] {
            let ghost red = self.color@;
            if left {
                self.left_left_rotation(s);
                proof {
                    lemma_red_sibling_left(ids, a, self.edge_list@, red, self.rank@, p);
                }
                s = self.edge_list[p].left.unwrap();
            } else {
                self.right_right_rotation(s);
                proof {
                    lemma_red_sibling_right(ids, a, self.edge_list@, red, self.rank@, p);
                }
                s = self.edge_list[p].right.unwrap();
            }
        }
        let ghost m = self.edge_list@;
        let ghost red = self.color@;
        let ghost rank = self.rank@;
        let ghost t1 = self.shape@;
        proof {
            lemma_repr_distinct(self.shape@, None, m, self.graph@);
            lemma_links_local(self.shape@, m, self.graph@);
            lemma_repr_subtree(t1, None, m, self.graph@, s);
            lemma_repr_subtree(t1, None, m, self.graph@, p);
            lemma_parent_in(t1, None, m, self.graph@, p);
            assert(link_ok(ids, m, p));
            assert(link_ok(ids, m, s));
            assert(short_at(ids, m, red, rank, p, !left));
            assert(!red[s as int]);
        }
        let outer = if left {
            self.edge_list[s].left
        } else {
            self.edge_list[s].right
        };
        let inner = if left {
            self.edge_list[s].right
        } else {
            self.edge_list[s].left
        };
        if self.red_at(outer) {
            let o = outer.unwrap();
            if left {
                self.left_left_rotation(s);
                proof {
                    lemma_outer_red_left(ids, m, self.edge_list@, red, rank, p);
                }
            } else {
                self.right_right_rotation(s);
                proof {
                    lemma_outer_red_right(ids, m, self.edge_list@, red, rank, p);
                }
            }
            self.color.set(o, false);
            proof {
                self.rank@ = rank.update(p as int, (rank[p as int] - 1) as nat).update(
                    s as int,
                    rank[p as int],
                );
            }
        } else if self.red_at(inner) {
            let c = inner.unwrap();
            if left {
                self.left_right_rotation(s);
                proof {
                    lemma_inner_red_left(ids, m, self.edge_list@, red, rank, p);
                }
            } else {
                self.right_left_rotation(s);
                proof {
                    lemma_inner_red_right(ids, m, self.edge_list@, red, rank, p);
                }
            }
            self.color.set(s, false);
            proof {
                self.rank@ = rank.update(p as int, (rank[p as int] - 1) as nat).update(
                    c as int,
                    rank[p as int],
                );
            }
        } else {
            proof {
                if left {
                    lemma_no_red_left(ids, m, red, rank, p);
                } else {
                    lemma_no_red_right(ids, m, red, rank, p);
                }
            }
            let parent_red = self.color[p];
            self.color.set(s, true);
            self.color.set(p, false);
            proof {
                self.rank@ = rank.update(p as int, (rank[p as int] - 1) as nat);
            }
            if !parent_red {
                match self.edge_list[p].parent {
                    Some(pp) => {
                        proof {
                            assert(self.shape@ == t);
                            assert(s == sibling);
                            lemma_repr_parent(t, None, a, self.graph@, p);
                            lemma_repr_subtree(t, None, a, self.graph@, pp);
                            lemma_children(t, pp);
                            assert(link_ok(ids, a, pp));
                        }
                        if leads_to(self.edge_list[pp].left, p) {
                            let next = self.edge_list[pp].right.unwrap();
                            self.remove_helper(next, false);
                        } else {
                            let next = self.edge_list[pp].left.unwrap();
                            self.remove_helper(next, true);
                        }
                    },
                    None => {},
                }
            }
        }
    }

    /// Lets the node `idx`, which has two children, change places with
    /// `ios`, the leftmost node of its right subtree: each takes over the
    /// links and the colour of the other, and both keep their slots and
    /// their values.
    pub(crate) fn exchange_places(&mut self, idx: usize, ios: usize)
        requires
            old(self).arena_ok(),
            old(self).sound(),
            old(self).shape@.ids().contains(idx),
            old(self).edge_list@[idx as int].left is Some,
            old(self).edge_list@[idx as int].right is Some,
            ios == old(self).shape@.subtree(idx).rhs().leftmost(),
        ensures
            final(self).arena_ok(),
            final(self).sound(),
            final(self).shape@.ids() == old(self).shape@.ids(),
            final(self).graph == old(self).graph,
            final(self).empty == old(self).empty,
            final(self).edge_list@[idx as int].left is None,
            final(self).shape@ == old(self).shape@.exchanged(
                idx,
                ios,
                old(self).shape@.subtree(idx)->val,
                old(self).shape@.subtree(ios)->val,
            ),
            final(self).color@ == old(self).color@.update(
                idx as int,
                old(self).color@[ios as int],
            ).update(ios as int, old(self).color@[idx as int]),
            0 <= old(self).shape@.place(idx) < old(self).shape@.in_order().len(),
            0 <= final(self).shape@.place(idx) < final(self).shape@.in_order().len(),
            final(self).shape@.in_order().remove(final(self).shape@.place(idx)) == old(
                self,
            ).shape@.in_order().remove(old(self).shape@.place(idx)),
    {
        let ghost t = self.shape@;
        let ghost ids = self.shape@.ids();
        let ghost a = self.edge_list@;
        let ghost vals = self.graph@;
        let ghost red = self.color@;
        let ghost rank = self.rank@;
        proof {
            lemma_repr_distinct(t, None, a, vals);
            lemma_links_local(t, a, vals);
            lemma_repr_subtree(t, None, a, vals, idx);
            lemma_subtree(t, idx);
            lemma_children(t, idx);
            let r = t.subtree(idx).rhs();
            assert(repr(r, Some(idx), a, vals) && repr(t.subtree(idx).lhs(), Some(idx), a, vals))
                by {
                reveal_with_fuel(repr, 2);
            }
            lemma_repr_distinct(r, Some(idx), a, vals);
            lemma_leftmost(r);
            assert(t.subtree(idx).ids().contains(ios) && ios != idx && !t.subtree(
                idx,
            ).lhs().ids().contains(ios)) by {
                reveal_with_fuel(repr, 2);
                reveal_with_fuel(Shape::ids, 2);
            }
            assert(ids.contains(ios));
            lemma_repr_subtree(t, None, a, vals, ios);
            lemma_repr_subtree(r, Some(idx), a, vals, ios);
            if r.root_id() != Some(ios) {
                lemma_repr_parent(r, Some(idx), a, vals, ios);
            }
            lemma_repr_parent(t, None, a, vals, ios);
            lemma_children(t, ios);
            if t.root_id() != Some(idx) {
                lemma_repr_parent(t, None, a, vals, idx);
            }
            assert(link_ok(ids, a, idx));
            assert(link_ok(ids, a, ios));
            lemma_exchanged_order(t, idx, ios, vals[idx as int], vals[ios as int]);
        }
        self.relink(idx, ios);
        proof {
            let b = self.edge_list@;
            lemma_places_exchanged(ids, a, b, idx, ios);
            assert(relabeled(ids, a, b, idx, ios));
            lemma_repr_exchanged(ids, t, None, a, vals, b, idx, ios);
            lemma_exchanged_ids(t, idx, ios, vals[idx as int], vals[ios as int]);
            lemma_sound_exchanged(ids, a, b, red, rank, idx, ios);
            self.rank@ = rank.update(idx as int, rank[ios as int]).update(
                ios as int,
                rank[idx as int],
            );
            assert(self.color@ =~= red.update(idx as int, red[ios as int]).update(
                ios as int,
                red[idx as int],
            ));
        }
        self.shape = Ghost(t.exchanged(idx, ios, vals[idx as int], vals[ios as int]));
    }

    /// Rewrites the links and the colours for two nodes that change
    /// places: `idx`, which has two children, and `ios`, which has no left
    /// child and lies in the right subtree of `idx`.
    #[verifier::rlimit(50)]
    pub(crate) fn relink(&mut self, idx: usize, ios: usize)
        requires
            old(self).edge_list@.len() == old(self).color@.len(),
            linked(old(self).shape@.ids(), old(self).edge_list@),
            old(self).shape@.ids().contains(idx),
            old(self).shape@.ids().contains(ios),
            idx != ios,
            old(self).edge_list@[idx as int].left is Some,
            old(self).edge_list@[idx as int].right is Some,
            old(self).edge_list@[ios as int].left is None,
            old(self).edge_list@[ios as int].parent is Some,
            old(self).edge_list@[idx as int].parent != Some(ios),
            old(self).edge_list@[idx as int].left != Some(ios),
            old(self).edge_list@[ios as int].parent != old(self).edge_list@[idx as int].parent,
        ensures
            places_exchanged(old(self).edge_list@, final(self).edge_list@, idx, ios),
            final(self).color@ == old(self).color@.update(
                idx as int,
                old(self).color@[ios as int],
            ).update(ios as int, old(self).color@[idx as int]),
            final(self).root == (if old(self).edge_list@[idx as int].parent is None {
                Some(ios)
            } else {
                old(self).root
            }),
            final(self).graph == old(self).graph,
            final(self).empty == old(self).empty,
            final(self).shape == old(self).shape,
            final(self).rank == old(self).rank,
    {
        let ghost ids = self.shape@.ids();
        let ghost a = self.edge_list@;
        proof {
            assert(link_ok(ids, a, idx));
            assert(link_ok(ids, a, ios));
        }
        let up = self.edge_list[idx].parent;
        let il = self.edge_list[idx].left;
        let ir = self.edge_list[idx].right;
        let sp = self.edge_list[ios].parent;
        let sr = self.edge_list[ios].right;
        match up {
            Some(p) => {
                proof {
                    assert(link_ok(ids, a, p));
                }
                if leads_to(self.edge_list[p].left, idx) {
                    set_left(&mut self.edge_list, p, Some(ios));
                } else {
                    set_right(&mut self.edge_list, p, Some(ios));
                }
            },
            None => {
                self.root = Some(ios);
            },
        }
        if leads_to(ir, ios) {
            self.edge_list.set(ios, Links { parent: up, left: il, right: Some(idx) });
            self.edge_list.set(idx, Links { parent: Some(ios), left: None, right: sr });
        } else {
            let q = sp.unwrap();
            proof {
                assert(link_ok(ids, a, q));
                assert(link_ok(ids, a, ir.unwrap()));
            }
            self.edge_list.set(ios, Links { parent: up, left: il, right: ir });
            self.edge_list.set(idx, Links { parent: sp, left: None, right: sr });
            if leads_to(self.edge_list[q].left, ios) {
                set_left(&mut self.edge_list, q, Some(idx));
            } else {
                set_right(&mut self.edge_list, q, Some(idx));
            }
            set_parent(&mut self.edge_list, ir.unwrap(), Some(ios));
        }
        match il {
            Some(lc) => {
                proof {
                    assert(link_ok(ids, a, lc));
                }
                set_parent(&mut self.edge_list, lc, Some(ios));
            },
            None => {},
        }
        match sr {
            Some(rc) => {
                proof {
                    assert(link_ok(ids, a, rc));
                }
                set_parent(&mut self.edge_list, rc, Some(idx));
            },
            None => {},
        }
        let ios_c = self.color[ios];
        let idx_c = self.color[idx];
        self.color.set(ios, idx_c);
        self.color.set(idx, ios_c);
        proof {
            assert(self.color@ =~= old(self).color@.update(
                idx as int,
                old(self).color@[ios as int],
            ).update(ios as int, old(self).color@[idx as int]));
        }
    }

    /// Takes the node in slot `idx` out of the tree and frees the slot. A
    /// node without children is cut off; if it was black, its side is short
    /// of a black node and is made up for. A node with one child gives its
    /// place to the child, which turns black. A node with two children
    /// first changes places with its successor in order, and is taken out
    /// from there.
    pub(crate) fn remove_recursive(&mut self, idx: usize)
        requires
            old(self).arena_ok(),
            old(self).sound(),
            old(self).shape@.ids().contains(idx),
        ensures
            final(self).arena_ok(),
            final(self).sound(),
            final(self).shape@.ids() == old(self).shape@.ids().remove(idx),
            final(self).graph == old(self).graph,
            final(self).empty@ == old(self).empty@.push(idx),
            (final(self).shape@, final(self).color@) == old(self).shape@.removed(
                old(self).color@,
                idx,
            ),
            0 <= old(self).shape@.place(idx) < old(self).shape@.in_order().len(),
            final(self).shape@.in_order() == old(self).shape@.in_order().remove(
                old(self).shape@.place(idx),
            ),
        decreases
                (if old(self).edge_list@[idx as int].left is Some && old(
                    self,
                ).edge_list@[idx as int].right is Some {
                    1nat
                } else {
                    0nat
                }),
    {
        let ghost t = self.shape@;
        let ghost ids = self.shape@.ids();
        let ghost a = self.edge_list@;
        let ghost vals = self.graph@;
        let ghost red = self.color@;
        let ghost rank = self.rank@;
        proof {
            lemma_repr_distinct(t, None, a, vals);
            lemma_links_local(t, a, vals);
            lemma_repr_subtree(t, None, a, vals, idx);
            lemma_parent_in(t, None, a, vals, idx);
            assert(link_ok(ids, a, idx));
        }
        let up = self.edge_list[idx].parent;
        let lc = self.edge_list[idx].left;
        let rc = self.edge_list[idx].right;
        if lc.is_some() && rc.is_some() {
            proof {
                lemma_children(t, idx);
            }
            let ios = self.get_in_order_successor(rc.unwrap());
            self.exchange_places(idx, ios);
            proof {
                lemma_repr_subtree(self.shape@, None, self.edge_list@, self.graph@, idx);
            }
            self.remove_recursive(idx);
        } else {
            let child = if lc.is_some() {
                lc
            } else {
                rc
            };
            let mut was_left = false;
            match up {
                Some(p) => {
                    proof {
                        assert(link_ok(ids, a, p));
                        lemma_repr_subtree(t, None, a, vals, p);
                    }
                    if leads_to(self.edge_list[p].left, idx) {
                        set_left(&mut self.edge_list, p, child);
                        was_left = true;
                    } else {
                        set_right(&mut self.edge_list, p, child);
                    }
                },
                None => {
                    self.root = child;
                },
            }
            match child {
                Some(c) => {
                    proof {
                        assert(link_ok(ids, a, c));
                    }
                    set_parent(&mut self.edge_list, c, up);
                },
                None => {},
            }
            self.empty.push(idx);
            proof {
                let b = self.edge_list@;
                assert(cut_out(a, b, idx));
                lemma_cut(t, a, vals, b, idx);
                lemma_repr_subtree(t, None, a, vals, idx);
                if t.root_id() != Some(idx) {
                    lemma_repr_parent(t, None, a, vals, idx);
                }
            }
            self.shape = Ghost(t.replace(idx, t.subtree(idx).beheaded()));
            proof {
                self.lemma_freed(*old(self), idx);
            }
            match child {
                Some(c) => {
                    self.color.set(c, false);
                    proof {
                        lemma_single_cut(ids, a, self.edge_list@, red, rank, idx);
                    }
                },
                None => {
                    proof {
                        lemma_leaf_cut(ids, a, self.edge_list@, red, rank, idx);
                    }
                    if !self.color[idx] {
                        match up {
                            Some(p) => {
                                if was_left {
                                    let sibling = self.edge_list[p].right.unwrap();
                                    proof {
                                        self.lemma_sibling(p, sibling);
                                    }
                                    self.remove_helper(sibling, false);
                                } else {
                                    let sibling = self.edge_list[p].left.unwrap();
                                    proof {
                                        self.lemma_sibling(p, sibling);
                                    }
                                    self.remove_helper(sibling, true);
                                }
                            },
                            None => {},
                        }
                    }
                },
            }
        }
    }

    /// A child of a slot of the tree is in the tree and names that slot as
    /// its parent.
    pub(crate) proof fn lemma_sibling(&self, p: usize, c: usize)
        requires
            self.arena_ok(),
            self.shape@.ids().contains(p),
            self.edge_list@[p as int].left == Some(c) || self.edge_list@[p as int].right == Some(c),
        ensures
            self.shape@.ids().contains(c),
            self.edge_list@[c as int].parent == Some(p),
    {
        lemma_links_local(self.shape@, self.edge_list@, self.graph@);
        assert(link_ok(self.shape@.ids(), self.edge_list@, p));
    }

    /// The tables fit together after slot `idx` has left the tree and has
    /// been put on the stack of free slots.
    pub(crate) proof fn lemma_freed(&self, pre: Tree<T>, idx: usize)
        requires
            pre.arena_ok(),
            pre.shape@.ids().contains(idx),
            self.shape@.ids() == pre.shape@.ids().remove(idx),
            self.empty@ == pre.empty@.push(idx),
            self.graph@ == pre.graph@,
            self.edge_list@.len() == pre.edge_list@.len(),
            self.color@.len() == pre.color@.len(),
            self.rank@.len() == pre.rank@.len(),
            repr(self.shape@, None, self.edge_list@, self.graph@),
            self.root == self.shape@.root_id(),
        ensures
            self.arena_ok(),
    {
        let e = pre.empty@;
        let e2 = self.empty@;
        lemma_repr_distinct(pre.shape@, None, pre.edge_list@, pre.graph@);
        assert forall|i: int, j: int| 0 <= i < e2.len() && 0 <= j < e2.len() && i != j implies e2[i]
            != e2[j] by {
            if i < e.len() {
                assert(e2[i] == e[i]);
            }
            if j < e.len() {
                assert(e2[j] == e[j]);
            }
        }
        assert forall|k: int| 0 <= k < e2.len() implies (#[trigger] e2[k]) < self.graph@.len()
            && !self.shape@.ids().contains(e2[k]) by {
            if k < e.len() {
                assert(e2[k] == e[k]);
            }
        }
        assert forall|i: usize| i < self.graph@.len() implies #[trigger] self.shape@.ids().contains(
            i,
        ) || e2.contains(i) by {
            if i == idx {
                assert(e2[e.len() as int] == idx);
            } else if pre.shape@.ids().contains(i) {
            } else {
                assert(e.contains(i));
                let k = choose|k: int| 0 <= k < e.len() && e[k] == i;
                assert(e2[k] == i);
            }
        }
    }

    /// In tables that fit together, the colour rules with a black top are
    /// the colour rules with every parentless node black.
    pub(crate) proof fn lemma_sound(&self)
        requires
            self.arena_ok(),
        ensures
            self.sound() <==> self.colours_ok() && !is_red(self.color@, self.root),
    {
        let t = self.shape@;
        let a = self.edge_list@;
        lemma_repr_distinct(t, None, a, self.graph@);
        if self.root is Some {
            lemma_subtree(t, self.root.unwrap());
            lemma_repr_subtree(t, None, a, self.graph@, self.root.unwrap());
        }
        if self.colours_ok() && !is_red(self.color@, self.root) {
            assert forall|i: usize| #[trigger]
                t.ids().contains(i) && a[i as int].parent is None implies !self.color@[i as int] by {
                if t.root_id() != Some(i) {
                    lemma_repr_parent(t, None, a, self.graph@, i);
                }
            }
        }
        if self.sound() {
            if self.root is Some {
                assert(t.ids().contains(self.root.unwrap()));
            }
        }
    }

    /// Function to remove a given element from the tree. If the element is
    /// not in the tree, nothing is done.
    pub fn remove(&mut self, elem: T)
        requires
            old(self).wf(),
        ensures
            final(self).wf(),
            ascending(final(self)@),
            final(self).shape().red_black(final(self).reds()),
            final(self)@.to_set() == old(self)@.to_set().remove(elem),
            !old(self)@.contains(elem) ==> *final(self) == *old(self),
            old(self)@.contains(elem) ==> (final(self).shape(), final(self).reds()) == old(
                self,
            ).shape().removed(old(self).reds(), old(self).shape().slot_of(elem)),
            old(self)@.contains(elem) ==> {
                &&& old(self).shape().ids().contains(old(self).shape().slot_of(elem))
                &&& old(self).shape().subtree(old(self).shape().slot_of(elem))->val == elem
                &&& final(self).shape().ids() == old(self).shape().ids().remove(
                    old(self).shape().slot_of(elem),
                )
                &&& final(self).free_slots() == old(self).free_slots().push(
                    old(self).shape().slot_of(elem),
                )
                &&& final(self).slots() == old(self).slots()
            },
    {
        proof {
            self.lemma_sound();
            if self.root.is_some() {
                lemma_subtree(self.shape@, self.root.unwrap());
            }
        }
        let found = self.contains_recursive(self.root, &elem, Ghost(self.shape@));
        match found {
            Some(idx) => {
                proof {
                    self.lemma_value_in_order(idx);
                    lemma_ascending_remove(self.shape@.in_order(), self.shape@.place(idx));
                    lemma_repr_subtree(self.shape@, None, self.edge_list@, self.graph@, idx);
                    lemma_ascending_no_duplicates(self.shape@.in_order());
                    lemma_slot_of(self.shape@, idx);
                }
                self.remove_recursive(idx);
                proof {
                    self.lemma_sound();
                }
            },
            None => {
                proof {
                    assert(old(self)@.to_set().remove(elem) =~= old(self)@.to_set());
                }
            },
        }
        proof {
            self.lemma_wf();
        }
    }
}

} // verus!
