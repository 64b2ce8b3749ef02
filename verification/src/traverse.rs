use vstd::prelude::*;
use crate::shape::Shape;
use crate::shape_proofs::lemma_subtree;
use crate::shape_proofs::lemma_children;
use crate::links::lemma_repr_subtree;
use crate::links::lemma_repr_distinct;
use crate::tree::Tree;
use crate::tree::targets;

verus! {

impl<T: PartialOrd> Tree<T> {
    /// Traverses the tree in order and returns the values from the lowest
    /// to the highest.
    pub fn in_order(&self) -> (r: Vec<&T>)
        requires
            self.wf(),
        ensures
            targets(r@) == self@,
            targets(r@) == self.shape().in_order(),
    {
        proof {
            if self.root.is_some() {
                lemma_subtree(self.shape@, self.root.unwrap());
            }
        }
        let mut ll: Vec<&T> = Vec::new();
        if self.root.is_none() {
        } else {
            let mut all = self.ino_recursive(self.root, Ghost(self.shape@));
            ll.append(&mut all);
        }
        assert(targets(ll@) =~= self.shape@.in_order());
        ll
    }

    /// Collects the subtree under `index`: left subtree, node, right
    /// subtree.
    pub(crate) fn ino_recursive(&self, index: Option<usize>, Ghost(sub): Ghost<Shape<T>>) -> (r:
        Vec<&T>)
        requires
            self.arena_ok(),
            sub.root_id() == index,
            index matches Some(i) ==> self.shape@.ids().contains(i) && self.shape@.subtree(i)
                == sub,
        ensures
            targets(r@) == sub.in_order(),
        decreases sub,
    {
        let mut ll: Vec<&T> = Vec::new();
        match index {
            Some(i) => {
                proof {
                    lemma_repr_distinct(self.shape@, None, self.edge_list@, self.graph@);
                    lemma_repr_subtree(self.shape@, None, self.edge_list@, self.graph@, i);
                    lemma_children(self.shape@, i);
                }
                let left: Option<usize> = self.edge_list[i].left;
                let right: Option<usize> = self.edge_list[i].right;
                let mut lower = self.ino_recursive(left, Ghost(sub.lhs()));
                let mut upper = self.ino_recursive(right, Ghost(sub.rhs()));
                ll.append(&mut lower);
                ll.push(&self.graph[i]);
                ll.append(&mut upper);
            },
            None => {},
        }
        assert(targets(ll@) =~= sub.in_order());
        ll
    }

    /// Pre order traversal of the tree: each node before its subtrees.
    pub fn pre_order(&self) -> (r: Vec<&T>)
        requires
            self.wf(),
        ensures
            targets(r@) == self.shape().pre_order(),
    {
        proof {
            if self.root.is_some() {
                lemma_subtree(self.shape@, self.root.unwrap());
            }
        }
        let mut ll: Vec<&T> = Vec::new();
        if self.root.is_none() {
        } else {
            let mut all = self.pre_recursive(self.root, Ghost(self.shape@));
            ll.append(&mut all);
        }
        assert(targets(ll@) =~= self.shape@.pre_order());
        ll
    }

    /// Collects the subtree under `index`: node, left subtree, right
    /// subtree.
    pub(crate) fn pre_recursive(&self, index: Option<usize>, Ghost(sub): Ghost<Shape<T>>) -> (r:
        Vec<&T>)
        requires
            self.arena_ok(),
            sub.root_id() == index,
            index matches Some(i) ==> self.shape@.ids().contains(i) && self.shape@.subtree(i)
                == sub,
        ensures
            targets(r@) == sub.pre_order(),
        decreases sub,
    {
        let mut ll: Vec<&T> = Vec::new();
        match index {
            Some(i) => {
                proof {
                    lemma_repr_distinct(self.shape@, None, self.edge_list@, self.graph@);
                    lemma_repr_subtree(self.shape@, None, self.edge_list@, self.graph@, i);
                    lemma_children(self.shape@, i);
                }
                let left: Option<usize> = self.edge_list[i].left;
                let right: Option<usize> = self.edge_list[i].right;
                let mut lower = self.pre_recursive(left, Ghost(sub.lhs()));
                let mut upper = self.pre_recursive(right, Ghost(sub.rhs()));
                ll.push(&self.graph[i]);
                ll.append(&mut lower);
                ll.append(&mut upper);
            },
            None => {},
        }
        assert(targets(ll@) =~= sub.pre_order());
        ll
    }

    /// Post order traversal of the tree: each node after its subtrees.
    pub fn post_order(&self) -> (r: Vec<&T>)
        requires
            self.wf(),
        ensures
            targets(r@) == self.shape().post_order(),
    {
        proof {
            if self.root.is_some() {
                lemma_subtree(self.shape@, self.root.unwrap());
            }
        }
        let mut ll: Vec<&T> = Vec::new();
        if self.root.is_none() {
        } else {
            let mut all = self.post_recursive(self.root, Ghost(self.shape@));
            ll.append(&mut all);
        }
        assert(targets(ll@) =~= self.shape@.post_order());
        ll
    }

    /// Collects the subtree under `index`: left subtree, right subtree,
    /// node.
    pub(crate) fn post_recursive(&self, index: Option<usize>, Ghost(sub): Ghost<Shape<T>>) -> (r:
        Vec<&T>)
        requires
            self.arena_ok(),
            sub.root_id() == index,
            index matches Some(i) ==> self.shape@.ids().contains(i) && self.shape@.subtree(i)
                == sub,
        ensures
            targets(r@) == sub.post_order(),
        decreases sub,
    {
        let mut ll: Vec<&T> = Vec::new();
        match index {
            Some(i) => {
                proof {
                    lemma_repr_distinct(self.shape@, None, self.edge_list@, self.graph@);
                    lemma_repr_subtree(self.shape@, None, self.edge_list@, self.graph@, i);
                    lemma_children(self.shape@, i);
                }
                let left: Option<usize> = self.edge_list[i].left;
                let right: Option<usize> = self.edge_list[i].right;
                let mut lower = self.post_recursive(left, Ghost(sub.lhs()));
                let mut upper = self.post_recursive(right, Ghost(sub.rhs()));
                ll.append(&mut lower);
                ll.append(&mut upper);
                ll.push(&self.graph[i]);
            },
            None => {},
        }
        assert(targets(ll@) =~= sub.post_order());
        ll
    }
}

} // verus!
