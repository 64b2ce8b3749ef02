use vstd::prelude::*;
use vstd::seq_lib::lemma_multiset_commutative;
use vstd::seq_lib::to_multiset_insert;
use crate::shape::Shape;
use crate::order::total_order;
use crate::order::ascending;
use crate::order::lemma_ascending_unique;
use crate::order::lemma_ascending_no_duplicates;
use crate::tree::Tree;

verus! {

/// The three traversals of a tree hold the same values, each as often as
/// the others; they differ in order only.
pub proof fn lemma_traversals_agree<T>(t: Shape<T>)
    ensures
        t.pre_order().to_multiset() == t.in_order().to_multiset(),
        t.post_order().to_multiset() == t.in_order().to_multiset(),
    decreases t,
{
    match t {
        Shape::Leaf => {},
        Shape::Node { id, val, left, right } => {
            lemma_traversals_agree(*left);
            lemma_traversals_agree(*right);
            let ino = left.in_order() + right.in_order();
            let pre = left.pre_order() + right.pre_order();
            let post = left.post_order() + right.post_order();
            assert(t.in_order() =~= ino.insert(left.in_order().len() as int, val));
            assert(t.pre_order() =~= pre.insert(0, val));
            assert(t.post_order() =~= post.insert(post.len() as int, val));
            to_multiset_insert(ino, left.in_order().len() as int, val);
            to_multiset_insert(pre, 0, val);
            to_multiset_insert(post, post.len() as int, val);
            lemma_multiset_commutative(left.in_order(), right.in_order());
            lemma_multiset_commutative(left.pre_order(), right.pre_order());
            lemma_multiset_commutative(left.post_order(), right.post_order());
        },
    }
}

impl<T: PartialOrd> Tree<T> {
    /// Of a well-formed tree the three traversals hold the same values, and
    /// the traversal in order holds each once.
    pub proof fn lemma_traversals(&self)
        requires
            self.wf(),
        ensures
            self.shape().pre_order().to_multiset() == self@.to_multiset(),
            self.shape().post_order().to_multiset() == self@.to_multiset(),
            self@.no_duplicates(),
    {
        lemma_traversals_agree(self.shape());
        lemma_ascending_no_duplicates(self@);
    }

    /// What a tree holds decides its traversal in order: two well-formed
    /// trees with the same values yield the same sequence.
    pub proof fn lemma_view_unique(&self, other: &Tree<T>)
        requires
            self.wf(),
            other.wf(),
            self@.to_set() == other@.to_set(),
        ensures
            self@ == other@,
    {
        lemma_ascending_unique(self@, other@);
    }
}

/// After `v` has been inserted, a tree holds `v` and what it held before.
pub proof fn lemma_member_after_insert<T>(before: Seq<T>, after: Seq<T>, v: T, x: T)
    requires
        after.to_set() == before.to_set().insert(v),
    ensures
        after.contains(x) <==> x == v || before.contains(x),
{
    assert(after.contains(x) <==> after.to_set().contains(x));
    assert(before.contains(x) <==> before.to_set().contains(x));
}

/// After `v` has been removed, a tree holds what it held before but `v`.
pub proof fn lemma_member_after_remove<T>(before: Seq<T>, after: Seq<T>, v: T, x: T)
    requires
        after.to_set() == before.to_set().remove(v),
    ensures
        after.contains(x) <==> x != v && before.contains(x),
{
    assert(after.contains(x) <==> after.to_set().contains(x));
    assert(before.contains(x) <==> before.to_set().contains(x));
}

/// Removing a value that a tree holds and inserting it again yields the
/// traversal in order that the tree had, whichever slots the nodes got.
pub proof fn lemma_remove_then_insert<T: PartialOrd>(
    first: Seq<T>,
    between: Seq<T>,
    last: Seq<T>,
    v: T,
)
    requires
        total_order::<T>(),
        ascending(first),
        ascending(last),
        first.contains(v),
        between.to_set() == first.to_set().remove(v),
        last.to_set() == between.to_set().insert(v),
    ensures
        last == first,
{
    assert(first.to_set().contains(v));
    assert(last.to_set() =~= first.to_set());
    lemma_ascending_unique(last, first);
}

/// Removing one value and inserting another yields the traversal in order
/// of the values that were held, without the one and with the other,
/// whichever slots the nodes got.
pub proof fn lemma_remove_then_insert_other<T: PartialOrd>(
    first: Seq<T>,
    between: Seq<T>,
    last: Seq<T>,
    v: T,
    w: T,
    x: T,
)
    requires
        v != w,
        between.to_set() == first.to_set().remove(v),
        last.to_set() == between.to_set().insert(w),
    ensures
        last.contains(x) <==> x == w || (x != v && first.contains(x)),
{
    lemma_member_after_remove(first, between, v, x);
    lemma_member_after_insert(between, last, w, x);
}

} // verus!
