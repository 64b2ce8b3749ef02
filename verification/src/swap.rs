use vstd::prelude::*;
use crate::shape::Shape;
use crate::links::Links;
use crate::links::repr;
use crate::links::redirected;
use crate::links::link_ok;
use crate::colour::node_ok;
use crate::short::linked;
use crate::short::sound;
use crate::shape_proofs::lemma_subtree;
use crate::shape_proofs::lemma_leftmost;

verus! {

/// The slot that stands for `i` once `x` and `y` have changed places.
pub open spec fn other(i: usize, x: usize, y: usize) -> usize {
    if i == x {
        y
    } else if i == y {
        x
    } else {
        i
    }
}

/// Where a link leads once `x` and `y` have changed places.
pub open spec fn crossed(link: Option<usize>, x: usize, y: usize) -> Option<usize> {
    match link {
        Some(i) => Some(other(i, x, y)),
        None => None,
    }
}

/// The link table `b` is the table `a` after the slots `x` and `y` have
/// changed places in the tree: each has the neighbours that the other had,
/// and every link that led to one leads to the other. This is said of the
/// slots in `ids`, which are those of the tree.
pub open spec fn relabeled(
    ids: Set<usize>,
    a: Seq<Links>,
    b: Seq<Links>,
    x: usize,
    y: usize,
) -> bool {
    &&& b.len() == a.len()
    &&& x < a.len()
    &&& y < a.len()
    &&& forall|i: usize|
        #![trigger b[other(i, x, y) as int]]
        ids.contains(i) && i < a.len() ==> b[other(i, x, y) as int] == (Links {
            parent: crossed(a[i as int].parent, x, y),
            left: crossed(a[i as int].left, x, y),
            right: crossed(a[i as int].right, x, y),
        })
}

impl<T> Shape<T> {
    /// The tree after the slots `x` and `y` have changed places, each
    /// keeping its value: `vx` is the value of `x`, `vy` that of `y`.
    pub open spec fn exchanged(self, x: usize, y: usize, vx: T, vy: T) -> Shape<T>
        decreases self,
    {
        match self {
            Shape::Leaf => Shape::Leaf,
            Shape::Node { id, val, left, right } => Shape::Node {
                id: other(id, x, y),
                val: if id == x {
                    vy
                } else if id == y {
                    vx
                } else {
                    val
                },
                left: Box::new(left.exchanged(x, y, vx, vy)),
                right: Box::new(right.exchanged(x, y, vx, vy)),
            },
        }
    }
}

/// The slots of a tree after two slots have changed places.
pub proof fn lemma_exchanged_ids<T>(t: Shape<T>, x: usize, y: usize, vx: T, vy: T)
    ensures
        forall|i: usize|
            #![trigger t.exchanged(x, y, vx, vy).ids().contains(i)]
            t.exchanged(x, y, vx, vy).ids().contains(i) <==> t.ids().contains(other(i, x, y)),
        t.exchanged(x, y, vx, vy).root_id() == crossed(t.root_id(), x, y),
        t.ids().contains(x) && t.ids().contains(y) ==> t.exchanged(x, y, vx, vy).ids() == t.ids(),
        !t.ids().contains(x) && !t.ids().contains(y) ==> t.exchanged(x, y, vx, vy) == t,
    decreases t,
{
    match t {
        Shape::Leaf => {},
        Shape::Node { id, val, left, right } => {
            lemma_exchanged_ids(*left, x, y, vx, vy);
            lemma_exchanged_ids(*right, x, y, vx, vy);
            let t2 = t.exchanged(x, y, vx, vy);
            assert forall|i: usize| #![trigger t2.ids().contains(i)] t2.ids().contains(i)
                <==> t.ids().contains(other(i, x, y)) by {
                let l2 = left.exchanged(x, y, vx, vy);
                let r2 = right.exchanged(x, y, vx, vy);
                assert(l2.ids().contains(i) <==> left.ids().contains(other(i, x, y)));
                assert(r2.ids().contains(i) <==> right.ids().contains(other(i, x, y)));
            }
            if t.ids().contains(x) && t.ids().contains(y) {
                assert forall|i: usize| t2.ids().contains(i) <==> t.ids().contains(i) by {
                    assert(t2.ids().contains(i) <==> t.ids().contains(other(i, x, y)));
                }
                assert(t2.ids() =~= t.ids());
            }
            if !t.ids().contains(x) && !t.ids().contains(y) {
                assert(!left.ids().contains(x) && !left.ids().contains(y));
                assert(!right.ids().contains(x) && !right.ids().contains(y));
            }
        },
    }
}

/// Tables that held a tree hold, after two slots have changed places, the
/// tree with the two exchanged.
pub proof fn lemma_repr_exchanged<T>(
    ids: Set<usize>,
    t: Shape<T>,
    par: Option<usize>,
    a: Seq<Links>,
    vals: Seq<T>,
    b: Seq<Links>,
    x: usize,
    y: usize,
)
    requires
        repr(t, par, a, vals),
        t.ids().subset_of(ids),
        relabeled(ids, a, b, x, y),
        x < vals.len(),
        y < vals.len(),
    ensures
        repr(t.exchanged(x, y, vals[x as int], vals[y as int]), crossed(par, x, y), b, vals),
    decreases t,
{
    match t {
        Shape::Leaf => {},
        Shape::Node { id, val, left, right } => {
            let vx = vals[x as int];
            let vy = vals[y as int];
            assert(t.ids().contains(id));
            assert forall|i: usize| left.ids().contains(i) implies ids.contains(i) by {
                assert(t.ids().contains(i));
            }
            assert forall|i: usize| right.ids().contains(i) implies ids.contains(i) by {
                assert(t.ids().contains(i));
            }
            lemma_repr_exchanged(ids, *left, Some(id), a, vals, b, x, y);
            lemma_repr_exchanged(ids, *right, Some(id), a, vals, b, x, y);
            lemma_exchanged_ids(*left, x, y, vx, vy);
            lemma_exchanged_ids(*right, x, y, vx, vy);
            let l2 = left.exchanged(x, y, vx, vy);
            let r2 = right.exchanged(x, y, vx, vy);
            let id2 = other(id, x, y);
            let ai = a[id as int];
            assert(other(id2, x, y) == id);
            assert(l2.ids().contains(id2) <==> left.ids().contains(other(id2, x, y)));
            assert(r2.ids().contains(id2) <==> right.ids().contains(other(id2, x, y)));
            assert forall|i: usize| l2.ids().contains(i) implies !r2.ids().contains(i) by {
                assert(l2.ids().contains(i) <==> left.ids().contains(other(i, x, y)));
                assert(r2.ids().contains(i) <==> right.ids().contains(other(i, x, y)));
            }
            assert(l2.ids().disjoint(r2.ids()));
        },
    }
}

/// The colour rules hold at a slot after two slots have changed places and
/// have exchanged their colours, if they held at the slot whose place it
/// has.
pub proof fn lemma_node_exchanged(
    ids: Set<usize>,
    a: Seq<Links>,
    b: Seq<Links>,
    red: Seq<bool>,
    rank: Seq<nat>,
    x: usize,
    y: usize,
    j: usize,
)
    requires
        relabeled(ids, a, b, x, y),
        ids.contains(j),
        red.len() == a.len(),
        rank.len() == a.len(),
        j < a.len(),
        a[j as int].left matches Some(c) ==> c < a.len(),
        a[j as int].right matches Some(c) ==> c < a.len(),
        node_ok(a, red, rank, j),
    ensures
        node_ok(
            b,
            red.update(x as int, red[y as int]).update(y as int, red[x as int]),
            rank.update(x as int, rank[y as int]).update(y as int, rank[x as int]),
            other(j, x, y),
        ),
        b[other(j, x, y) as int].parent is None <==> a[j as int].parent is None,
        red.update(x as int, red[y as int]).update(y as int, red[x as int])[other(j, x, y) as int]
            == red[j as int],
{
    let red2 = red.update(x as int, red[y as int]).update(y as int, red[x as int]);
    let rank2 = rank.update(x as int, rank[y as int]).update(y as int, rank[x as int]);
    let i = other(j, x, y);
    let bi = b[other(j, x, y) as int];
    assert(bi.left == crossed(a[j as int].left, x, y));
    assert(bi.right == crossed(a[j as int].right, x, y));
    match a[j as int].left {
        Some(c) => {
            assert(red2[other(c, x, y) as int] == red[c as int]);
            assert(rank2[other(c, x, y) as int] == rank[c as int]);
        },
        None => {},
    }
    match a[j as int].right {
        Some(c) => {
            assert(red2[other(c, x, y) as int] == red[c as int]);
            assert(rank2[other(c, x, y) as int] == rank[c as int]);
        },
        None => {},
    }
    assert(red2[i as int] == red[j as int]);
    assert(rank2[i as int] == rank[j as int]);
}

/// The colour rules hold after two slots have changed places and have
/// exchanged their colours.
pub proof fn lemma_sound_exchanged(
    ids: Set<usize>,
    a: Seq<Links>,
    b: Seq<Links>,
    red: Seq<bool>,
    rank: Seq<nat>,
    x: usize,
    y: usize,
)
    requires
        linked(ids, a),
        sound(ids, a, red, rank),
        relabeled(ids, a, b, x, y),
        ids.contains(x),
        ids.contains(y),
    ensures
        sound(
            ids,
            b,
            red.update(x as int, red[y as int]).update(y as int, red[x as int]),
            rank.update(x as int, rank[y as int]).update(y as int, rank[x as int]),
        ),
{
    let red2 = red.update(x as int, red[y as int]).update(y as int, red[x as int]);
    let rank2 = rank.update(x as int, rank[y as int]).update(y as int, rank[x as int]);
    assert forall|i: usize| #[trigger] ids.contains(i) implies node_ok(b, red2, rank2, i) && (
    b[i as int].parent is None ==> !red2[i as int]) by {
        let j = other(i, x, y);
        assert(ids.contains(j));
        assert(link_ok(ids, a, j));
        assert(other(j, x, y) == i);
        lemma_node_exchanged(ids, a, b, red, rank, x, y, j);
    }
}

/// An element taken out of the first of two joined sequences.
pub proof fn lemma_remove_left<T>(a: Seq<T>, b: Seq<T>, k: int)
    requires
        0 <= k < a.len(),
    ensures
        (a + b).remove(k) == a.remove(k) + b,
{
    assert((a + b).remove(k) =~= a.remove(k) + b);
}

/// An element taken out of the second of two joined sequences.
pub proof fn lemma_remove_right<T>(a: Seq<T>, b: Seq<T>, k: int)
    requires
        0 <= k < b.len(),
    ensures
        (a + b).remove(a.len() + k) == a + b.remove(k),
{
    assert((a + b).remove(a.len() + k) =~= a + b.remove(k));
}

/// When the leftmost slot `m` of a tree changes places with a slot `x`
/// from outside, `x` is the leftmost slot, and the traversal in order
/// starts with the value of `x` in place of that of `m`.
pub proof fn lemma_exchanged_leftmost<T>(r: Shape<T>, x: usize, vx: T, vm: T)
    requires
        r is Node,
        r.distinct(),
        !r.ids().contains(x),
        r.subtree(r.leftmost())->val == vm,
    ensures
        ({
            let r2 = r.exchanged(x, r.leftmost(), vx, vm);
            &&& r.in_order().len() >= 1
            &&& r.in_order()[0] == vm
            &&& r2.in_order() == r.in_order().update(0, vx)
            &&& r2.ids().contains(x)
            &&& r2.before(x) == Seq::<T>::empty()
            &&& r2.subtree(x).lhs() is Leaf
        }),
    decreases r,
{
    let m = r.leftmost();
    let r2 = r.exchanged(x, m, vx, vm);
    lemma_leftmost(r);
    match r {
        Shape::Leaf => {},
        Shape::Node { id, val, left, right } => {
            lemma_exchanged_ids(*right, x, m, vx, vm);
            assert(!right.ids().contains(m)) by {
                if *left is Node {
                    lemma_leftmost(*left);
                }
            }
            if *left is Leaf {
                assert(r.in_order() =~= Seq::empty().push(val) + right.in_order());
                assert(r2.in_order() =~= r.in_order().update(0, vx));
                assert(r2.before(x) =~= Seq::empty());
            } else {
                lemma_leftmost(*left);
                lemma_exchanged_leftmost(*left, x, vx, vm);
                lemma_exchanged_ids(*left, x, m, vx, vm);
                let l2 = left.exchanged(x, m, vx, vm);
                assert(r2.in_order() =~= r.in_order().update(0, vx));
                assert(r2.before(x) =~= Seq::empty());
            }
        },
    }
}

/// When a slot `x` with two children changes places with the leftmost slot
/// of its right subtree, which is its successor in order, taking `x` out
/// of its new place leaves what taking it out of its old place leaves.
pub proof fn lemma_exchanged_order<T>(t: Shape<T>, x: usize, m: usize, vx: T, vm: T)
    requires
        t.distinct(),
        t.ids().contains(x),
        t.subtree(x).rhs() is Node,
        m == t.subtree(x).rhs().leftmost(),
        t.subtree(x)->val == vx,
        t.subtree(m)->val == vm,
    ensures
        ({
            let t2 = t.exchanged(x, m, vx, vm);
            &&& t.ids().contains(m)
            &&& t2.ids() == t.ids()
            &&& 0 <= t.place(x) < t.in_order().len()
            &&& 0 <= t2.place(x) < t2.in_order().len()
            &&& t2.in_order().len() == t.in_order().len()
            &&& t2.in_order().remove(t2.place(x)) == t.in_order().remove(t.place(x))
        }),
    decreases t,
{
    let t2 = t.exchanged(x, m, vx, vm);
    lemma_subtree(t, x);
    match t {
        Shape::Leaf => {},
        Shape::Node { id, val, left, right } => {
            lemma_exchanged_ids(t, x, m, vx, vm);
            lemma_exchanged_ids(*left, x, m, vx, vm);
            lemma_exchanged_ids(*right, x, m, vx, vm);
            let l2 = left.exchanged(x, m, vx, vm);
            let r2 = right.exchanged(x, m, vx, vm);
            if id == x {
                lemma_leftmost(*right);
                assert(right.ids().contains(m));
                assert(!left.ids().contains(m));
                assert(right.subtree(m) == t.subtree(m));
                lemma_exchanged_leftmost(*right, x, vx, vm);
                assert(l2 == *left);
                assert(t.ids().contains(m));
                let a = left.in_order();
                let b = right.in_order();
                assert(t.before(x) =~= Seq::empty());
                assert(t.place(x) == a.len());
                assert(t2.place(x) == a.len() + 1);
                assert(t.in_order() =~= a.push(vx) + b);
                assert(t2.in_order() =~= a.push(vm) + b.update(0, vx));
                assert(t2.in_order().remove((a.len() + 1) as int) =~= a.push(vm) + b.remove(0));
                assert(t.in_order().remove(a.len() as int) =~= a + b);
                assert(a + b =~= a.push(vm) + b.remove(0));
            } else if left.ids().contains(x) {
                lemma_subtree(*left, x);
                assert(left.ids().contains(m)) by {
                    lemma_leftmost(left.subtree(x).rhs());
                    assert(left.subtree(x).rhs().ids().contains(m));
                    assert(left.subtree(x).ids().contains(m));
                }
                lemma_exchanged_order(*left, x, m, vx, vm);
                assert(r2 == *right);
                assert(l2.ids().contains(x));
                assert(t2.place(x) == l2.place(x));
                assert(t.place(x) == left.place(x));
                lemma_remove_left(l2.in_order().push(val), right.in_order(), l2.place(x));
                lemma_remove_left(left.in_order().push(val), right.in_order(), left.place(x));
                assert(l2.in_order().push(val).remove(l2.place(x)) =~= l2.in_order().remove(
                    l2.place(x),
                ).push(val));
                assert(left.in_order().push(val).remove(left.place(x)) =~= left.in_order().remove(
                    left.place(x),
                ).push(val));
            } else {
                lemma_subtree(*right, x);
                assert(right.ids().contains(m)) by {
                    lemma_leftmost(right.subtree(x).rhs());
                    assert(right.subtree(x).rhs().ids().contains(m));
                    assert(right.subtree(x).ids().contains(m));
                }
                assert(!left.ids().contains(m));
                lemma_exchanged_order(*right, x, m, vx, vm);
                assert(l2 == *left);
                assert(!l2.ids().contains(x));
                let a = left.in_order().push(val);
                assert(t2.before(x) =~= a + r2.before(x));
                assert(t.before(x) =~= a + right.before(x));
                assert(t2.place(x) == a.len() + r2.place(x));
                assert(t.place(x) == a.len() + right.place(x));
                lemma_remove_right(a, r2.in_order(), r2.place(x));
                lemma_remove_right(a, right.in_order(), right.place(x));
            }
        },
    }
}

/// The link table `b` is the table `a` after slot `x`, which has two
/// children, and slot `y`, which has no left child and lies in the right
/// subtree of `x`, have taken over one another's links, and the nodes
/// around them have been told.
pub open spec fn places_exchanged(a: Seq<Links>, b: Seq<Links>, x: usize, y: usize) -> bool {
    let direct = a[x as int].right == Some(y);
    &&& b.len() == a.len()
    &&& b[y as int] == (Links {
        parent: a[x as int].parent,
        left: a[x as int].left,
        right: if direct {
            Some(x)
        } else {
            a[x as int].right
        },
    })
    &&& b[x as int] == (Links {
        parent: if direct {
            Some(y)
        } else {
            a[y as int].parent
        },
        left: None,
        right: a[y as int].right,
    })
    &&& forall|i: usize|
        #![trigger b[i as int]]
        i < a.len() && i != x && i != y ==> b[i as int] == (Links {
            parent: if a[x as int].left == Some(i) || a[x as int].right == Some(i) {
                Some(y)
            } else if a[y as int].right == Some(i) {
                Some(x)
            } else {
                a[i as int].parent
            },
            left: if a[x as int].parent == Some(i) {
                redirected(a[i as int].left, x, Some(y))
            } else if !direct && a[y as int].parent == Some(i) {
                redirected(a[i as int].left, y, Some(x))
            } else {
                a[i as int].left
            },
            right: if a[x as int].parent == Some(i) {
                redirected(a[i as int].right, x, Some(y))
            } else if !direct && a[y as int].parent == Some(i) {
                redirected(a[i as int].right, y, Some(x))
            } else {
                a[i as int].right
            },
        })
}

/// Tables in which two nodes have taken over one another's links are the
/// old tables with the two slots exchanged.
pub proof fn lemma_places_exchanged(
    ids: Set<usize>,
    a: Seq<Links>,
    b: Seq<Links>,
    x: usize,
    y: usize,
)
    requires
        linked(ids, a),
        ids.contains(x),
        ids.contains(y),
        x != y,
        a[y as int].left is None,
        a[y as int].parent is Some,
        a[x as int].parent != Some(y),
        a[x as int].left != Some(y),
        a[y as int].parent != a[x as int].parent,
        places_exchanged(a, b, x, y),
    ensures
        relabeled(ids, a, b, x, y),
{
    assert(link_ok(ids, a, x));
    assert(link_ok(ids, a, y));
    assert forall|i: usize|
        #![trigger b[other(i, x, y) as int]]
        ids.contains(i) && i < a.len() implies b[other(i, x, y) as int] == (Links {
        parent: crossed(a[i as int].parent, x, y),
        left: crossed(a[i as int].left, x, y),
        right: crossed(a[i as int].right, x, y),
    }) by {
        assert(link_ok(ids, a, i));
        let bi = b[i as int];
    }
}

} // verus!
