use vstd::prelude::*;
use crate::shape::Shape;
use crate::shape_proofs::lemma_subtree;
use crate::shape_proofs::lemma_children;
use crate::shape_proofs::lemma_own_value;
use crate::links::Links;
use crate::links::repr;
use crate::links::lemma_repr_subtree;
use crate::links::lemma_repr_distinct;
use crate::colour::is_red;
use crate::colour::node_ok;
use crate::colour::node_ok_but;
use crate::colour::lemma_nodes_ok;
use crate::order::total_order;
use crate::order::ascending;
use crate::order::less;
use crate::order::lemma_ascending_split;
use crate::order::lemma_absent_below;
use crate::order::lemma_absent_above;

verus! {

/// A red-black tree whose nodes live in numbered slots of four tables.
pub struct Tree<T> {
    pub(crate) graph: Vec<T>,
    pub(crate) edge_list: Vec<Links>,
    pub(crate) empty: Vec<usize>,
    pub(crate) color: Vec<bool>,
    pub(crate) root: Option<usize>,
    pub(crate) shape: Ghost<Shape<T>>,
    pub(crate) rank: Ghost<Seq<nat>>,
}

/// The values that a sequence of references leads to.
pub open spec fn targets<T>(refs: Seq<&T>) -> Seq<T> {
    Seq::new(refs.len(), |i: int| *refs[i])
}

impl<T: PartialOrd> View for Tree<T> {
    type V = Seq<T>;

    /// The values of the tree in ascending order.
    open spec fn view(&self) -> Seq<T> {
        self.shape().in_order()
    }
}

impl<T: PartialOrd> Tree<T> {
    /// The tree that the tables hold.
    pub open(crate) spec fn shape(&self) -> Shape<T> {
        self.shape@
    }

    /// The colour of each slot: `true` is red.
    pub open(crate) spec fn reds(&self) -> Seq<bool> {
        self.color@
    }

    /// The stack of free slots; the last one was freed last and is taken
    /// first.
    pub open(crate) spec fn free_slots(&self) -> Seq<usize> {
        self.empty@
    }

    /// The number of slots that the tables have.
    pub open(crate) spec fn slots(&self) -> nat {
        self.graph@.len()
    }

    /// The slot that the next new node gets: the one freed last, or a new
    /// one behind the others where none is free.
    pub open spec fn next_slot(&self) -> usize {
        if self.free_slots().len() > 0 {
            self.free_slots().last()
        } else {
            self.slots() as usize
        }
    }

    /// The stack of free slots after the next new node has got its slot.
    pub open spec fn free_slots_after(&self) -> Seq<usize> {
        if self.free_slots().len() > 0 {
            self.free_slots().drop_last()
        } else {
            self.free_slots()
        }
    }

    /// The tables fit together: they hold `shape()`, and every slot is in the
    /// tree or on the stack of free slots, never both and never twice.
    pub open(crate) spec fn arena_ok(&self) -> bool {
        &&& self.edge_list@.len() == self.graph@.len()
        &&& self.color@.len() == self.graph@.len()
        &&& self.rank@.len() == self.graph@.len()
        &&& repr(self.shape@, None, self.edge_list@, self.graph@)
        &&& self.root == self.shape@.root_id()
        &&& self.empty@.no_duplicates()
        &&& forall|k: int|
            0 <= k < self.empty@.len() ==> (#[trigger] self.empty@[k]) < self.graph@.len()
                && !self.shape@.ids().contains(self.empty@[k])
        &&& forall|i: usize|
            i < self.graph@.len() ==> #[trigger] self.shape@.ids().contains(i)
                || self.empty@.contains(i)
    }

    /// The colour rules hold at every node of the tree.
    pub open(crate) spec fn colours_ok(&self) -> bool {
        forall|i: usize| #[trigger]
            self.shape@.ids().contains(i) ==> node_ok(
                self.edge_list@,
                self.color@,
                self.rank@,
                i,
            )
    }

    /// The colour rules hold at every node, but that the parent of slot `x`
    /// may be red though `x` is.
    pub open(crate) spec fn fix_ok(&self, x: usize) -> bool {
        forall|i: usize| #[trigger]
            self.shape@.ids().contains(i) ==> node_ok_but(
                self.edge_list@,
                self.color@,
                self.rank@,
                i,
                x,
            )
    }

    /// The tree is a red-black tree in its tables: the values are ordered by
    /// a strict total order, the tables fit together, traversal in order
    /// ascends, the top is black, no red node has a red child, and every
    /// way down passes the same number of black nodes.
    pub open(crate) spec fn wf(&self) -> bool {
        &&& total_order::<T>()
        &&& self.arena_ok()
        &&& self.colours_ok()
        &&& !is_red(self.color@, self.root)
        &&& ascending(self.shape@.in_order())
    }

    /// A well-formed tree ascends in order and keeps the colour rules. No
    /// slot is used twice, and each slot of the tables is either in the
    /// tree or on the stack of free slots.
    pub proof fn lemma_wf(&self)
        requires
            self.wf(),
        ensures
            total_order::<T>(),
            ascending(self@),
            self.shape().red_black(self.reds()),
            self.shape().distinct(),
            self.free_slots().no_duplicates(),
            forall|i: usize| #[trigger]
                self.shape().ids().contains(i) ==> i < self.slots() && !self.free_slots().contains(
                    i,
                ),
            forall|i: usize|
                i < self.slots() && !self.shape().ids().contains(i)
                    ==> #[trigger] self.free_slots().contains(i),
            forall|i: usize| #[trigger] self.free_slots().contains(i) ==> i < self.slots(),
    {
        lemma_repr_distinct(self.shape@, None, self.edge_list@, self.graph@);
        assert forall|i: usize| #[trigger] self.free_slots().contains(i) implies i < self.slots()
            && !self.shape().ids().contains(i) by {
            let k = choose|k: int| 0 <= k < self.empty@.len() && self.empty@[k] == i;
            assert(self.empty@[k] == i);
        }
        lemma_nodes_ok(
            self.shape@,
            None,
            self.edge_list@,
            self.graph@,
            self.color@,
            self.rank@,
        );
    }

    /// Function to create a new Red-Black Tree. Returns an empty tree.
    pub fn new() -> (t: Tree<T>)
        requires
            total_order::<T>(),
        ensures
            t.wf(),
            t@ == Seq::<T>::empty(),
            t.shape() == Shape::<T>::Leaf,
            t.reds() == Seq::<bool>::empty(),
            t.free_slots() == Seq::<usize>::empty(),
            t.slots() == 0,
    {
        Tree {
            graph: Vec::new(),
            edge_list: Vec::new(),
            empty: Vec::new(),
            color: Vec::new(),
            root: None,
            shape: Ghost(Shape::Leaf),
            rank: Ghost(Seq::empty()),
        }
    }

    /// Creates an empty tree whose tables have room for `size` nodes, so
    /// that they need not grow while the tree stays within that size.
    pub fn with_capacity(size: usize) -> (t: Tree<T>)
        requires
            total_order::<T>(),
        ensures
            t.wf(),
            t@ == Seq::<T>::empty(),
            t.shape() == Shape::<T>::Leaf,
            t.reds() == Seq::<bool>::empty(),
            t.free_slots() == Seq::<usize>::empty(),
            t.slots() == 0,
    {
        Tree {
            graph: Vec::with_capacity(size),
            edge_list: Vec::with_capacity(size),
            empty: Vec::new(),
            color: Vec::with_capacity(size),
            root: None,
            shape: Ghost(Shape::Leaf),
            rank: Ghost(Seq::empty()),
        }
    }

    /// Function to search the tree for a given value. Returns true if found,
    /// false otherwise.
    pub fn contains(&self, input: T) -> (r: bool)
        requires
            self.wf(),
        ensures
            r == self@.contains(input),
    {
        proof {
            if self.root.is_some() {
                lemma_subtree(self.shape@, self.root.unwrap());
            }
        }
        let found = self.contains_recursive(self.root, &input, Ghost(self.shape@));
        proof {
            if let Some(k) = found {
                self.lemma_value_in_order(k);
            }
        }
        found.is_some()
    }

    /// The value in a slot of the tree occurs in the traversal in order.
    pub(crate) proof fn lemma_value_in_order(&self, k: usize)
        requires
            self.arena_ok(),
            self.shape@.ids().contains(k),
        ensures
            self.shape@.in_order().contains(self.graph@[k as int]),
            0 <= self.shape@.place(k) < self.shape@.in_order().len(),
            self.shape@.in_order()[self.shape@.place(k)] == self.graph@[k as int],
    {
        lemma_repr_subtree(self.shape@, None, self.edge_list@, self.graph@, k);
        lemma_own_value(self.shape@, k);
    }

    /// Searches the subtree under `index` for `input`. Gives the slot of
    /// that subtree that holds the value if one does, and nothing if none
    /// does: an absent `index` gives nothing.
    pub(crate) fn contains_recursive(
        &self,
        index: Option<usize>,
        input: &T,
        Ghost(sub): Ghost<Shape<T>>,
    ) -> (r: Option<usize>)
        requires
            total_order::<T>(),
            self.arena_ok(),
            sub.root_id() == index,
            index matches Some(i) ==> self.shape@.ids().contains(i) && self.shape@.subtree(i)
                == sub,
            ascending(sub.in_order()),
        ensures
            r is Some <==> sub.in_order().contains(*input),
            index is None ==> r is None,
            match r {
                Some(k) => {
                    &&& sub.ids().contains(k)
                    &&& self.shape@.ids().contains(k)
                    &&& self.shape@.subtree(k)->val == *input
                    &&& self.graph@[k as int] == *input
                },
                None => true,
            },
        decreases sub,
    {
        match index {
            Some(idx) => {
                proof {
                    lemma_repr_distinct(self.shape@, None, self.edge_list@, self.graph@);
                    lemma_repr_subtree(self.shape@, None, self.edge_list@, self.graph@, idx);
                    lemma_children(self.shape@, idx);
                    lemma_ascending_split(sub.lhs().in_order(), sub->val, sub.rhs().in_order());
                }
                let d = &self.graph[idx];
                if less(input, d) {
                    let r = self.contains_recursive(
                        self.edge_list[idx].left,
                        input,
                        Ghost(sub.lhs()),
                    );
                    proof {
                        if r.is_none() {
                            lemma_absent_below(
                                sub.lhs().in_order(),
                                sub->val,
                                sub.rhs().in_order(),
                                *input,
                            );
                        } else {
                            let k = choose|k: int|
                                0 <= k < sub.lhs().in_order().len() && sub.lhs().in_order()[k]
                                    == *input;
                            assert(sub.in_order()[k] == *input);
                        }
                    }
                    r
                } else if less(d, input) {
                    let r = self.contains_recursive(
                        self.edge_list[idx].right,
                        input,
                        Ghost(sub.rhs()),
                    );
                    proof {
                        if r.is_none() {
                            lemma_absent_above(
                                sub.lhs().in_order(),
                                sub->val,
                                sub.rhs().in_order(),
                                *input,
                            );
                        } else {
                            let k = choose|k: int|
                                0 <= k < sub.rhs().in_order().len() && sub.rhs().in_order()[k]
                                    == *input;
                            assert(sub.in_order()[sub.lhs().in_order().len() + 1 + k] == *input);
                        }
                    }
                    r
                } else {
                    proof {
                        assert(sub.in_order()[sub.lhs().in_order().len() as int] == *input);
                    }
                    index
                }
            },
            None => None,
        }
    }
}

} // verus!
