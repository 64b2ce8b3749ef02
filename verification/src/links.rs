use vstd::prelude::*;
use crate::shape::Shape;
use crate::shape_proofs::lemma_subtree;
use crate::shape_proofs::lemma_replace_ids;

verus! {

/// What a slot records of its neighbours.
#[derive(Clone, Copy)]
pub struct Links {
    pub parent: Option<usize>,
    pub left: Option<usize>,
    pub right: Option<usize>,
}

/// Where a child link leads after the subtree at `g` got the top `to`.
pub open spec fn redirected(link: Option<usize>, g: usize, to: Option<usize>) -> Option<usize> {
    if link == Some(g) {
        to
    } else {
        link
    }
}

/// Where a child link of slot `i` leads after the subtree at `g` got the
/// top `to`: only the parent of `g` has a link that moves.
pub open spec fn moved(
    links: Seq<Links>,
    i: usize,
    link: Option<usize>,
    g: usize,
    to: Option<usize>,
) -> Option<usize> {
    if links[g as int].parent == Some(i) {
        redirected(link, g, to)
    } else {
        link
    }
}

/// The tables hold the tree `t`, hung under `par`: every node sits in its
/// slot with its value, its links name its parent and the tops of its two
/// subtrees, and no slot is used twice.
pub open spec fn repr<T>(t: Shape<T>, par: Option<usize>, links: Seq<Links>, vals: Seq<T>) -> bool
    decreases t,
{
    match t {
        Shape::Leaf => true,
        Shape::Node { id, val, left, right } => {
            &&& id < links.len()
            &&& id < vals.len()
            &&& links[id as int].parent == par
            &&& links[id as int].left == left.root_id()
            &&& links[id as int].right == right.root_id()
            &&& vals[id as int] == val
            &&& !left.ids().contains(id)
            &&& !right.ids().contains(id)
            &&& left.ids().disjoint(right.ids())
            &&& repr(*left, Some(id), links, vals)
            &&& repr(*right, Some(id), links, vals)
        },
    }
}

/// A tree that the tables hold uses no slot twice and only slots that exist.
pub proof fn lemma_repr_distinct<T>(t: Shape<T>, par: Option<usize>, links: Seq<Links>, vals: Seq<T>)
    requires
        repr(t, par, links, vals),
    ensures
        t.distinct(),
        forall|i: usize| #[trigger] t.ids().contains(i) ==> i < links.len() && i < vals.len(),
    decreases t,
{
    match t {
        Shape::Leaf => {},
        Shape::Node { id, val, left, right } => {
            lemma_repr_distinct(*left, Some(id), links, vals);
            lemma_repr_distinct(*right, Some(id), links, vals);
        },
    }
}

/// Tables that agree with the old ones on every slot of `t`, but for the
/// parent link of its top, hold `t` too.
pub proof fn lemma_repr_frame<T>(
    t: Shape<T>,
    par: Option<usize>,
    links: Seq<Links>,
    vals: Seq<T>,
    par2: Option<usize>,
    links2: Seq<Links>,
    vals2: Seq<T>,
)
    requires
        repr(t, par, links, vals),
        forall|i: usize| #[trigger]
            t.ids().contains(i) ==> {
                &&& i < links2.len()
                &&& i < vals2.len()
                &&& vals2[i as int] == vals[i as int]
                &&& links2[i as int].left == links[i as int].left
                &&& links2[i as int].right == links[i as int].right
                &&& links2[i as int].parent == (if t.root_id() == Some(i) {
                    par2
                } else {
                    links[i as int].parent
                })
            },
    ensures
        repr(t, par2, links2, vals2),
    decreases t,
{
    reveal_with_fuel(repr, 2);
    match t {
        Shape::Leaf => {},
        Shape::Node { id, val, left, right } => {
            assert(t.ids().contains(id));
            assert forall|i: usize| #[trigger] left.ids().contains(i) implies {
                &&& i < links2.len()
                &&& i < vals2.len()
                &&& vals2[i as int] == vals[i as int]
                &&& links2[i as int].left == links[i as int].left
                &&& links2[i as int].right == links[i as int].right
                &&& links2[i as int].parent == (if left.root_id() == Some(i) {
                    Some(id)
                } else {
                    links[i as int].parent
                })
            } by {
                assert(t.ids().contains(i));
                if left.root_id() == Some(i) {
                    assert(links[i as int].parent == Some(id));
                }
            }
            assert forall|i: usize| #[trigger] right.ids().contains(i) implies {
                &&& i < links2.len()
                &&& i < vals2.len()
                &&& vals2[i as int] == vals[i as int]
                &&& links2[i as int].left == links[i as int].left
                &&& links2[i as int].right == links[i as int].right
                &&& links2[i as int].parent == (if right.root_id() == Some(i) {
                    Some(id)
                } else {
                    links[i as int].parent
                })
            } by {
                assert(t.ids().contains(i));
                if right.root_id() == Some(i) {
                    assert(links[i as int].parent == Some(id));
                }
            }
            lemma_repr_frame(*left, Some(id), links, vals, Some(id), links2, vals2);
            lemma_repr_frame(*right, Some(id), links, vals, Some(id), links2, vals2);
        },
    }
}

/// The tables hold every subtree of a tree that they hold, under the parent
/// that its top names.
pub proof fn lemma_repr_subtree<T>(
    t: Shape<T>,
    par: Option<usize>,
    links: Seq<Links>,
    vals: Seq<T>,
    g: usize,
)
    requires
        repr(t, par, links, vals),
        t.ids().contains(g),
    ensures
        g < links.len(),
        repr(t.subtree(g), links[g as int].parent, links, vals),
        t.subtree(g) is Node,
        t.subtree(g)->id == g,
        t.root_id() == Some(g) ==> links[g as int].parent == par,
    decreases t,
{
    match t {
        Shape::Leaf => {},
        Shape::Node { id, val, left, right } => {
            if id == g {
            } else if left.ids().contains(g) {
                lemma_repr_subtree(*left, Some(id), links, vals, g);
            } else {
                lemma_repr_subtree(*right, Some(id), links, vals, g);
            }
        },
    }
}

/// A node that is not the top has a parent in the tree, one step higher,
/// and is the top of one of that parent's two subtrees.
pub proof fn lemma_repr_parent<T>(
    t: Shape<T>,
    par: Option<usize>,
    links: Seq<Links>,
    vals: Seq<T>,
    g: usize,
)
    requires
        repr(t, par, links, vals),
        t.ids().contains(g),
        t.root_id() != Some(g),
    ensures
        match links[g as int].parent {
            Some(p) => {
                &&& t.ids().contains(p)
                &&& p != g
                &&& (t.subtree(p).lhs().root_id() == Some(g) || t.subtree(p).rhs().root_id()
                    == Some(g))
                &&& t.depth(p) + 1 == t.depth(g)
                &&& !t.subtree(g).ids().contains(p)
            },
            None => false,
        },
    decreases t,
{
    reveal_with_fuel(repr, 2);
    match t {
        Shape::Leaf => {},
        Shape::Node { id, val, left, right } => {
            if left.ids().contains(g) {
                lemma_subtree(*left, g);
                if left.root_id() == Some(g) {
                    assert(left.depth(g) == 0);
                } else {
                    lemma_repr_parent(*left, Some(id), links, vals, g);
                }
            } else {
                lemma_subtree(*right, g);
                if right.root_id() == Some(g) {
                    assert(right.depth(g) == 0);
                } else {
                    lemma_repr_parent(*right, Some(id), links, vals, g);
                }
            }
        },
    }
}

/// The tables hold the tree in which `s` took the place of the subtree at
/// `g`, if they hold `s` under the parent that `g` had, `s` brings no slot
/// that the rest of the tree uses, and the rest is as it was but for the
/// child link that led to `g`, which now leads to the top of `s`.
pub proof fn lemma_repr_replace<T>(
    t: Shape<T>,
    par: Option<usize>,
    links: Seq<Links>,
    vals: Seq<T>,
    g: usize,
    s: Shape<T>,
    links2: Seq<Links>,
    vals2: Seq<T>,
)
    requires
        repr(t, par, links, vals),
        t.ids().contains(g),
        repr(s, links[g as int].parent, links2, vals2),
        s.ids().disjoint(t.ids().difference(t.subtree(g).ids())),
        forall|i: usize| #[trigger]
            t.ids().contains(i) && !t.subtree(g).ids().contains(i) ==> {
                &&& i < links2.len()
                &&& i < vals2.len()
                &&& vals2[i as int] == vals[i as int]
                &&& links2[i as int].parent == links[i as int].parent
                &&& links2[i as int].left == moved(links, i, links[i as int].left, g, s.root_id())
                &&& links2[i as int].right == moved(
                    links,
                    i,
                    links[i as int].right,
                    g,
                    s.root_id(),
                )
            },
    ensures
        repr(t.replace(g, s), par, links2, vals2),
    decreases t,
{
    reveal_with_fuel(repr, 2);
    match t {
        Shape::Leaf => {},
        Shape::Node { id, val, left, right } => {
            lemma_repr_distinct(t, par, links, vals);
            lemma_repr_distinct(s, links[g as int].parent, links2, vals2);
            lemma_subtree(t, g);
            if id == g {
            } else if left.ids().contains(g) {
                lemma_subtree(*left, g);
                lemma_replace_ids(*left, g, s);
                assert(t.ids().contains(id));
                assert(!t.subtree(g).ids().contains(id));
                assert forall|i: usize| #[trigger]
                    left.ids().contains(i) && !left.subtree(g).ids().contains(i) implies {
                    &&& i < links2.len()
                    &&& i < vals2.len()
                    &&& vals2[i as int] == vals[i as int]
                    &&& links2[i as int].parent == links[i as int].parent
                    &&& links2[i as int].left == moved(
                        links,
                        i,
                        links[i as int].left,
                        g,
                        s.root_id(),
                    )
                    &&& links2[i as int].right == moved(
                        links,
                        i,
                        links[i as int].right,
                        g,
                        s.root_id(),
                    )
                } by {
                    assert(t.ids().contains(i));
                }
                lemma_repr_replace(*left, Some(id), links, vals, g, s, links2, vals2);
                assert forall|i: usize| #[trigger] right.ids().contains(i) implies t.ids().contains(
                    i,
                ) && !t.subtree(g).ids().contains(i) by {
                    assert(!left.ids().contains(i));
                }
                lemma_repr_outside(*right, Some(id), links, vals, g, s.root_id(), links2, vals2);
                assert(right.ids().contains(g) ==> false);
                assert(right.root_id() != Some(g)) by {
                    if right.root_id() == Some(g) {
                        assert(right.ids().contains(g));
                    }
                }
            } else {
                lemma_subtree(*right, g);
                lemma_replace_ids(*right, g, s);
                assert(t.ids().contains(id));
                assert(!t.subtree(g).ids().contains(id));
                assert forall|i: usize| #[trigger]
                    right.ids().contains(i) && !right.subtree(g).ids().contains(i) implies {
                    &&& i < links2.len()
                    &&& i < vals2.len()
                    &&& vals2[i as int] == vals[i as int]
                    &&& links2[i as int].parent == links[i as int].parent
                    &&& links2[i as int].left == moved(
                        links,
                        i,
                        links[i as int].left,
                        g,
                        s.root_id(),
                    )
                    &&& links2[i as int].right == moved(
                        links,
                        i,
                        links[i as int].right,
                        g,
                        s.root_id(),
                    )
                } by {
                    assert(t.ids().contains(i));
                }
                lemma_repr_replace(*right, Some(id), links, vals, g, s, links2, vals2);
                assert forall|i: usize| #[trigger] left.ids().contains(i) implies t.ids().contains(
                    i,
                ) && !t.subtree(g).ids().contains(i) by {
                    assert(!right.ids().contains(i));
                }
                lemma_repr_outside(*left, Some(id), links, vals, g, s.root_id(), links2, vals2);
                assert(left.root_id() != Some(g)) by {
                    if left.root_id() == Some(g) {
                        assert(left.ids().contains(g));
                    }
                }
            }
        },
    }
}

/// A tree in which slot `g` does not occur is untouched when child links
/// that led to `g` are led elsewhere.
pub proof fn lemma_repr_outside<T>(
    t: Shape<T>,
    par: Option<usize>,
    links: Seq<Links>,
    vals: Seq<T>,
    g: usize,
    to: Option<usize>,
    links2: Seq<Links>,
    vals2: Seq<T>,
)
    requires
        repr(t, par, links, vals),
        !t.ids().contains(g),
        forall|i: usize| #[trigger]
            t.ids().contains(i) ==> {
                &&& i < links2.len()
                &&& i < vals2.len()
                &&& vals2[i as int] == vals[i as int]
                &&& links2[i as int].parent == links[i as int].parent
                &&& links2[i as int].left == moved(links, i, links[i as int].left, g, to)
                &&& links2[i as int].right == moved(links, i, links[i as int].right, g, to)
            },
    ensures
        repr(t, par, links2, vals2),
    decreases t,
{
    match t {
        Shape::Leaf => {},
        Shape::Node { id, val, left, right } => {
            assert(t.ids().contains(id));
            assert(left.root_id() != Some(g)) by {
                if left.root_id() == Some(g) {
                    assert(left.ids().contains(g));
                }
            }
            assert(right.root_id() != Some(g)) by {
                if right.root_id() == Some(g) {
                    assert(right.ids().contains(g));
                }
            }
            assert forall|i: usize| #[trigger] left.ids().contains(i) implies t.ids().contains(
                i,
            ) by {}
            assert forall|i: usize| #[trigger] right.ids().contains(i) implies t.ids().contains(
                i,
            ) by {}
            lemma_repr_outside(*left, Some(id), links, vals, g, to, links2, vals2);
            lemma_repr_outside(*right, Some(id), links, vals, g, to, links2, vals2);
        },
    }
}

/// A child of slot `i` is another slot of the tree that names `i` as its
/// parent, and the two children differ.
pub open spec fn link_ok(ids: Set<usize>, links: Seq<Links>, i: usize) -> bool {
    &&& i < links.len()
    &&& match links[i as int].left {
        Some(c) => ids.contains(c) && c != i && c < links.len() && links[c as int].parent
            == Some(i) && links[i as int].right != Some(c),
        None => true,
    }
    &&& match links[i as int].right {
        Some(c) => ids.contains(c) && c != i && c < links.len() && links[c as int].parent
            == Some(i),
        None => true,
    }
    &&& match links[i as int].parent {
        Some(p) => ids.contains(p) && p != i && p < links.len() && (links[p as int].left
            == Some(i) || links[p as int].right == Some(i)),
        None => true,
    }
}

/// The parent link of a node of the tree names its parent in the tree; the
/// top has the parent that the tree hangs under.
pub proof fn lemma_parent_in<T>(
    t: Shape<T>,
    par: Option<usize>,
    links: Seq<Links>,
    vals: Seq<T>,
    g: usize,
)
    requires
        repr(t, par, links, vals),
        t.ids().contains(g),
    ensures
        t.parent_in(g) == (if t.root_id() == Some(g) {
            None
        } else {
            links[g as int].parent
        }),
    decreases t,
{
    reveal_with_fuel(repr, 2);
    match t {
        Shape::Leaf => {},
        Shape::Node { id, val, left, right } => {
            if id == g {
            } else if left.ids().contains(g) {
                lemma_parent_in(*left, Some(id), links, vals, g);
                assert(right.root_id() != Some(g)) by {
                    if right.root_id() == Some(g) {
                        assert(right.ids().contains(g));
                    }
                }
            } else {
                lemma_parent_in(*right, Some(id), links, vals, g);
                assert(left.root_id() != Some(g)) by {
                    if left.root_id() == Some(g) {
                        assert(left.ids().contains(g));
                    }
                }
            }
        },
    }
}

/// In tables that hold a tree, child links and parent links answer one
/// another at every node.
pub proof fn lemma_links_local<T>(t: Shape<T>, links: Seq<Links>, vals: Seq<T>)
    requires
        repr(t, None, links, vals),
    ensures
        forall|i: usize| t.ids().contains(i) ==> #[trigger] link_ok(t.ids(), links, i),
{
    reveal_with_fuel(repr, 2);
    lemma_repr_distinct(t, None, links, vals);
    assert forall|i: usize| t.ids().contains(i) implies #[trigger] link_ok(t.ids(), links, i) by {
        lemma_repr_subtree(t, None, links, vals, i);
        lemma_subtree(t, i);
        let sub = t.subtree(i);
        match sub.lhs() {
            Shape::Leaf => {},
            Shape::Node { id: c, .. } => {
                assert(sub.lhs().ids().contains(c));
                assert(sub.ids().contains(c));
            },
        }
        match sub.rhs() {
            Shape::Leaf => {},
            Shape::Node { id: c, .. } => {
                assert(sub.rhs().ids().contains(c));
                assert(sub.ids().contains(c));
            },
        }
        if t.root_id() != Some(i) {
            lemma_repr_parent(t, None, links, vals, i);
            let p = links[i as int].parent.unwrap();
            lemma_repr_subtree(t, None, links, vals, p);
        }
    }
}

/// Writes the parent link of slot `i`.
pub fn set_parent(links: &mut Vec<Links>, i: usize, v: Option<usize>)
    requires
        i < old(links)@.len(),
    ensures
        final(links)@ == old(links)@.update(
            i as int,
            (Links { parent: v, left: old(links)@[i as int].left, right: old(links)@[i as int].right }),
        ),
{
    let cur = links[i];
    links.set(i, Links { parent: v, left: cur.left, right: cur.right });
}

/// Writes the left child link of slot `i`.
pub fn set_left(links: &mut Vec<Links>, i: usize, v: Option<usize>)
    requires
        i < old(links)@.len(),
    ensures
        final(links)@ == old(links)@.update(
            i as int,
            (Links {
                parent: old(links)@[i as int].parent,
                left: v,
                right: old(links)@[i as int].right,
            }),
        ),
{
    let cur = links[i];
    links.set(i, Links { parent: cur.parent, left: v, right: cur.right });
}

/// Writes the right child link of slot `i`.
pub fn set_right(links: &mut Vec<Links>, i: usize, v: Option<usize>)
    requires
        i < old(links)@.len(),
    ensures
        final(links)@ == old(links)@.update(
            i as int,
            (Links {
                parent: old(links)@[i as int].parent,
                left: old(links)@[i as int].left,
                right: v,
            }),
        ),
{
    let cur = links[i];
    links.set(i, Links { parent: cur.parent, left: cur.left, right: v });
}

/// Whether the link leads to slot `i`.
pub fn leads_to(link: Option<usize>, i: usize) -> (r: bool)
    ensures
        r == (link == Some(i)),
{
    match link {
        Some(c) => c == i,
        None => false,
    }
}

} // verus!
