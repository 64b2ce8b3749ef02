use vstd::prelude::*;
use crate::links::Links;
use crate::links::link_ok;
use crate::colour::is_red;
use crate::colour::black_through;
use crate::colour::node_ok;
use crate::cut::cut_out;
use crate::cut::only_child;
use crate::rotate::raised_from_left;
use crate::rotate::raised_from_right;
use crate::rotate::doubly_raised_from_left;
use crate::rotate::doubly_raised_from_right;

verus! {

/// Child links and parent links answer one another at every slot of `ids`.
pub open spec fn linked(ids: Set<usize>, a: Seq<Links>) -> bool {
    forall|i: usize| ids.contains(i) ==> #[trigger] link_ok(ids, a, i)
}

/// The colour rules hold at every slot of `ids`, and a node without a
/// parent is black.
pub open spec fn sound(ids: Set<usize>, a: Seq<Links>, red: Seq<bool>, rank: Seq<nat>) -> bool {
    &&& red.len() == a.len()
    &&& rank.len() == a.len()
    &&& forall|i: usize| #[trigger] ids.contains(i) ==> node_ok(a, red, rank, i)
    &&& forall|i: usize| #[trigger] ids.contains(i) ==> a[i as int].parent is None ==> !red[i as int]
}

/// The colour rules at slot `i`, where the ways down through one child,
/// the left one if `on_left`, pass one black node too few. That child is
/// black or absent.
pub open spec fn node_short(
    a: Seq<Links>,
    red: Seq<bool>,
    rank: Seq<nat>,
    i: usize,
    on_left: bool,
) -> bool {
    &&& red[i as int] ==> !is_red(red, a[i as int].left) && !is_red(red, a[i as int].right)
    &&& !is_red(red, if on_left {
        a[i as int].left
    } else {
        a[i as int].right
    })
    &&& black_through(red, rank, a[i as int].left) + (if on_left {
        1nat
    } else {
        0nat
    }) == rank[i as int]
    &&& black_through(red, rank, a[i as int].right) + (if on_left {
        0nat
    } else {
        1nat
    }) == rank[i as int]
}

/// The colour rules hold everywhere but at slot `p`, where one side is
/// short of a black node; a node without a parent is black.
pub open spec fn short_at(
    ids: Set<usize>,
    a: Seq<Links>,
    red: Seq<bool>,
    rank: Seq<nat>,
    p: usize,
    on_left: bool,
) -> bool {
    &&& ids.contains(p)
    &&& red.len() == a.len()
    &&& rank.len() == a.len()
    &&& forall|i: usize| #[trigger] ids.contains(i) ==> i != p ==> node_ok(a, red, rank, i)
    &&& node_short(a, red, rank, p, on_left)
    &&& forall|i: usize| #[trigger] ids.contains(i) ==> a[i as int].parent is None ==> !red[i as int]
}

/// A red sibling on the right is raised over the parent and exchanges
/// colours with it: the parent is red then, the same side is short, and
/// the new sibling is black.
pub proof fn lemma_red_sibling_right(
    ids: Set<usize>,
    a: Seq<Links>,
    b: Seq<Links>,
    red: Seq<bool>,
    rank: Seq<nat>,
    p: usize,
)
    requires
        linked(ids, a),
        short_at(ids, a, red, rank, p, true),
        a[p as int].right matches Some(s) && red[s as int] && raised_from_right(a, b, s),
    ensures
        ({
            let s = a[p as int].right.unwrap();
            let red2 = red.update(s as int, red[p as int]).update(p as int, red[s as int]);
            &&& short_at(ids, b, red2, rank, p, true)
            &&& red2[p as int]
            &&& b[p as int].right matches Some(s2) && !red2[s2 as int] && ids.contains(s2)
            &&& b[p as int].left == a[p as int].left
        }),
{
    let s = a[p as int].right.unwrap();
    let red2 = red.update(s as int, red[p as int]).update(p as int, red[s as int]);
    assert(link_ok(ids, a, p));
    assert(ids.contains(s));
    assert(link_ok(ids, a, s));
    assert(node_ok(a, red, rank, s));
    assert forall|i: usize| #[trigger] ids.contains(i) implies (i != p ==> node_ok(
        b,
        red2,
        rank,
        i,
    )) && (b[i as int].parent is None ==> !red2[i as int]) by {
        assert(link_ok(ids, a, i));
        if i != p {
            assert(node_ok(a, red, rank, i));
        }
        if i != p && i != s {
            let bi = b[i as int];
        }
    }
}

/// A black sibling on the right with a red child on its right is raised
/// over the parent and exchanges colours with it, and that child turns
/// black: every rule holds again.
pub proof fn lemma_outer_red_right(
    ids: Set<usize>,
    a: Seq<Links>,
    b: Seq<Links>,
    red: Seq<bool>,
    rank: Seq<nat>,
    p: usize,
)
    requires
        linked(ids, a),
        short_at(ids, a, red, rank, p, true),
        a[p as int].right matches Some(s) && !red[s as int] && is_red(red, a[s as int].right)
            && raised_from_right(a, b, s),
    ensures
        ({
            let s = a[p as int].right.unwrap();
            let o = a[s as int].right.unwrap();
            let red2 = red.update(s as int, red[p as int]).update(p as int, red[s as int]).update(
                o as int,
                false,
            );
            let rank2 = rank.update(p as int, (rank[p as int] - 1) as nat).update(
                s as int,
                rank[p as int],
            );
            sound(ids, b, red2, rank2)
        }),
{
    let s = a[p as int].right.unwrap();
    let o = a[s as int].right.unwrap();
    let red2 = red.update(s as int, red[p as int]).update(p as int, red[s as int]).update(
        o as int,
        false,
    );
    let rank2 = rank.update(p as int, (rank[p as int] - 1) as nat).update(s as int, rank[p as int]);
    assert(link_ok(ids, a, p));
    assert(ids.contains(s));
    assert(link_ok(ids, a, s));
    assert(node_ok(a, red, rank, s));
    assert(ids.contains(o));
    assert(link_ok(ids, a, o));
    assert(node_ok(a, red, rank, o));
    assert forall|i: usize| #[trigger] ids.contains(i) implies node_ok(b, red2, rank2, i) && (
    b[i as int].parent is None ==> !red2[i as int]) by {
        assert(link_ok(ids, a, i));
        if i != p {
            assert(node_ok(a, red, rank, i));
        }
        if i != p && i != s {
            let bi = b[i as int];
        }
    }
}

/// A black sibling on the right with a red child on its left, and none on
/// its right, lets that child rise over it and over the parent, and turns
/// black itself: every rule holds again.
pub proof fn lemma_inner_red_right(
    ids: Set<usize>,
    a: Seq<Links>,
    b: Seq<Links>,
    red: Seq<bool>,
    rank: Seq<nat>,
    p: usize,
)
    requires
        linked(ids, a),
        short_at(ids, a, red, rank, p, true),
        a[p as int].right matches Some(s) && !red[s as int] && !is_red(red, a[s as int].right)
            && is_red(red, a[s as int].left) && doubly_raised_from_right(a, b, s),
    ensures
        ({
            let s = a[p as int].right.unwrap();
            let c = a[s as int].left.unwrap();
            let red2 = red.update(c as int, red[p as int]).update(s as int, red[c as int]).update(
                p as int,
                red[s as int],
            ).update(s as int, false);
            let rank2 = rank.update(p as int, (rank[p as int] - 1) as nat).update(
                c as int,
                rank[p as int],
            );
            sound(ids, b, red2, rank2)
        }),
{
    let s = a[p as int].right.unwrap();
    let c = a[s as int].left.unwrap();
    let red2 = red.update(c as int, red[p as int]).update(s as int, red[c as int]).update(
        p as int,
        red[s as int],
    ).update(s as int, false);
    let rank2 = rank.update(p as int, (rank[p as int] - 1) as nat).update(c as int, rank[p as int]);
    assert(link_ok(ids, a, p));
    assert(ids.contains(s));
    assert(link_ok(ids, a, s));
    assert(node_ok(a, red, rank, s));
    assert(ids.contains(c));
    assert(link_ok(ids, a, c));
    assert(node_ok(a, red, rank, c));
    assert forall|i: usize| #[trigger] ids.contains(i) implies node_ok(b, red2, rank2, i) && (
    b[i as int].parent is None ==> !red2[i as int]) by {
        assert(link_ok(ids, a, i));
        if i != p {
            assert(node_ok(a, red, rank, i));
        }
        if i != p && i != s && i != c {
            let bi = b[i as int];
        }
    }
}

/// A black sibling on the right without a red child turns red. Under a red
/// parent, which turns black, every rule holds again. Under a black parent
/// the parent's own side is short now, unless it is the top.
pub proof fn lemma_no_red_right(
    ids: Set<usize>,
    a: Seq<Links>,
    red: Seq<bool>,
    rank: Seq<nat>,
    p: usize,
)
    requires
        linked(ids, a),
        short_at(ids, a, red, rank, p, true),
        a[p as int].right matches Some(s) && !red[s as int] && !is_red(red, a[s as int].right)
            && !is_red(red, a[s as int].left),
    ensures
        ({
            let s = a[p as int].right.unwrap();
            let red2 = red.update(s as int, true).update(p as int, false);
            let rank2 = rank.update(p as int, (rank[p as int] - 1) as nat);
            if red[p as int] || a[p as int].parent is None {
                sound(ids, a, red2, rank2)
            } else {
                let pp = a[p as int].parent.unwrap();
                &&& short_at(ids, a, red2, rank2, pp, a[pp as int].left == Some(p))
                &&& a[pp as int].left == Some(p) ==> a[pp as int].right is Some
                &&& a[pp as int].left != Some(p) ==> a[pp as int].left is Some
                    && a[pp as int].right == Some(p)
            }
        }),
{
    let s = a[p as int].right.unwrap();
    let red2 = red.update(s as int, true).update(p as int, false);
    let rank2 = rank.update(p as int, (rank[p as int] - 1) as nat);
    assert(link_ok(ids, a, p));
    assert(ids.contains(s));
    assert(link_ok(ids, a, s));
    assert(node_ok(a, red, rank, s));
    if red[p as int] || a[p as int].parent is None {
        assert forall|i: usize| #[trigger] ids.contains(i) implies node_ok(a, red2, rank2, i) && (
        a[i as int].parent is None ==> !red2[i as int]) by {
            assert(link_ok(ids, a, i));
            if i != p {
                assert(node_ok(a, red, rank, i));
            }
        }
    } else {
        let pp = a[p as int].parent.unwrap();
        assert(ids.contains(pp));
        assert(link_ok(ids, a, pp));
        assert(node_ok(a, red, rank, pp));
        assert forall|i: usize| #[trigger] ids.contains(i) implies (i != pp ==> node_ok(
            a,
            red2,
            rank2,
            i,
        )) && (a[i as int].parent is None ==> !red2[i as int]) by {
            assert(link_ok(ids, a, i));
            if i != p {
                assert(node_ok(a, red, rank, i));
            }
        }
    }
}

/// A red sibling on the left is raised over the parent and exchanges
/// colours with it: the parent is red then, the same side is short, and
/// the new sibling is black.
pub proof fn lemma_red_sibling_left(
    ids: Set<usize>,
    a: Seq<Links>,
    b: Seq<Links>,
    red: Seq<bool>,
    rank: Seq<nat>,
    p: usize,
)
    requires
        linked(ids, a),
        short_at(ids, a, red, rank, p, false),
        a[p as int].left matches Some(s) && red[s as int] && raised_from_left(a, b, s),
    ensures
        ({
            let s = a[p as int].left.unwrap();
            let red2 = red.update(s as int, red[p as int]).update(p as int, red[s as int]);
            &&& short_at(ids, b, red2, rank, p, false)
            &&& red2[p as int]
            &&& b[p as int].left matches Some(s2) && !red2[s2 as int] && ids.contains(s2)
            &&& b[p as int].right == a[p as int].right
        }),
{
    let s = a[p as int].left.unwrap();
    let red2 = red.update(s as int, red[p as int]).update(p as int, red[s as int]);
    assert(link_ok(ids, a, p));
    assert(ids.contains(s));
    assert(link_ok(ids, a, s));
    assert(node_ok(a, red, rank, s));
    assert forall|i: usize| #[trigger] ids.contains(i) implies (i != p ==> node_ok(
        b,
        red2,
        rank,
        i,
    )) && (b[i as int].parent is None ==> !red2[i as int]) by {
        assert(link_ok(ids, a, i));
        if i != p {
            assert(node_ok(a, red, rank, i));
        }
        if i != p && i != s {
            let bi = b[i as int];
        }
    }
}

/// A black sibling on the left with a red child on its left is raised
/// over the parent and exchanges colours with it, and that child turns
/// black: every rule holds again.
pub proof fn lemma_outer_red_left(
    ids: Set<usize>,
    a: Seq<Links>,
    b: Seq<Links>,
    red: Seq<bool>,
    rank: Seq<nat>,
    p: usize,
)
    requires
        linked(ids, a),
        short_at(ids, a, red, rank, p, false),
        a[p as int].left matches Some(s) && !red[s as int] && is_red(red, a[s as int].left)
            && raised_from_left(a, b, s),
    ensures
        ({
            let s = a[p as int].left.unwrap();
            let o = a[s as int].left.unwrap();
            let red2 = red.update(s as int, red[p as int]).update(p as int, red[s as int]).update(
                o as int,
                false,
            );
            let rank2 = rank.update(p as int, (rank[p as int] - 1) as nat).update(
                s as int,
                rank[p as int],
            );
            sound(ids, b, red2, rank2)
        }),
{
    let s = a[p as int].left.unwrap();
    let o = a[s as int].left.unwrap();
    let red2 = red.update(s as int, red[p as int]).update(p as int, red[s as int]).update(
        o as int,
        false,
    );
    let rank2 = rank.update(p as int, (rank[p as int] - 1) as nat).update(s as int, rank[p as int]);
    assert(link_ok(ids, a, p));
    assert(ids.contains(s));
    assert(link_ok(ids, a, s));
    assert(node_ok(a, red, rank, s));
    assert(ids.contains(o));
    assert(link_ok(ids, a, o));
    assert(node_ok(a, red, rank, o));
    assert forall|i: usize| #[trigger] ids.contains(i) implies node_ok(b, red2, rank2, i) && (
    b[i as int].parent is None ==> !red2[i as int]) by {
        assert(link_ok(ids, a, i));
        if i != p {
            assert(node_ok(a, red, rank, i));
        }
        if i != p && i != s {
            let bi = b[i as int];
        }
    }
}

/// A black sibling on the left with a red child on its right, and none on
/// its left, lets that child rise over it and over the parent, and turns
/// black itself: every rule holds again.
pub proof fn lemma_inner_red_left(
    ids: Set<usize>,
    a: Seq<Links>,
    b: Seq<Links>,
    red: Seq<bool>,
    rank: Seq<nat>,
    p: usize,
)
    requires
        linked(ids, a),
        short_at(ids, a, red, rank, p, false),
        a[p as int].left matches Some(s) && !red[s as int] && !is_red(red, a[s as int].left)
            && is_red(red, a[s as int].right) && doubly_raised_from_left(a, b, s),
    ensures
        ({
            let s = a[p as int].left.unwrap();
            let c = a[s as int].right.unwrap();
            let red2 = red.update(c as int, red[p as int]).update(s as int, red[c as int]).update(
                p as int,
                red[s as int],
            ).update(s as int, false);
            let rank2 = rank.update(p as int, (rank[p as int] - 1) as nat).update(
                c as int,
                rank[p as int],
            );
            sound(ids, b, red2, rank2)
        }),
{
    let s = a[p as int].left.unwrap();
    let c = a[s as int].right.unwrap();
    let red2 = red.update(c as int, red[p as int]).update(s as int, red[c as int]).update(
        p as int,
        red[s as int],
    ).update(s as int, false);
    let rank2 = rank.update(p as int, (rank[p as int] - 1) as nat).update(c as int, rank[p as int]);
    assert(link_ok(ids, a, p));
    assert(ids.contains(s));
    assert(link_ok(ids, a, s));
    assert(node_ok(a, red, rank, s));
    assert(ids.contains(c));
    assert(link_ok(ids, a, c));
    assert(node_ok(a, red, rank, c));
    assert forall|i: usize| #[trigger] ids.contains(i) implies node_ok(b, red2, rank2, i) && (
    b[i as int].parent is None ==> !red2[i as int]) by {
        assert(link_ok(ids, a, i));
        if i != p {
            assert(node_ok(a, red, rank, i));
        }
        if i != p && i != s && i != c {
            let bi = b[i as int];
        }
    }
}

/// A black sibling on the left without a red child turns red. Under a red
/// parent, which turns black, every rule holds again. Under a black parent
/// the parent's own side is short now, unless it is the top.
pub proof fn lemma_no_red_left(
    ids: Set<usize>,
    a: Seq<Links>,
    red: Seq<bool>,
    rank: Seq<nat>,
    p: usize,
)
    requires
        linked(ids, a),
        short_at(ids, a, red, rank, p, false),
        a[p as int].left matches Some(s) && !red[s as int] && !is_red(red, a[s as int].left)
            && !is_red(red, a[s as int].right),
    ensures
        ({
            let s = a[p as int].left.unwrap();
            let red2 = red.update(s as int, true).update(p as int, false);
            let rank2 = rank.update(p as int, (rank[p as int] - 1) as nat);
            if red[p as int] || a[p as int].parent is None {
                sound(ids, a, red2, rank2)
            } else {
                let pp = a[p as int].parent.unwrap();
                &&& short_at(ids, a, red2, rank2, pp, a[pp as int].left == Some(p))
                &&& a[pp as int].right == Some(p) ==> a[pp as int].left is Some
                &&& a[pp as int].right != Some(p) ==> a[pp as int].right is Some
                    && a[pp as int].left == Some(p)
            }
        }),
{
    let s = a[p as int].left.unwrap();
    let red2 = red.update(s as int, true).update(p as int, false);
    let rank2 = rank.update(p as int, (rank[p as int] - 1) as nat);
    assert(link_ok(ids, a, p));
    assert(ids.contains(s));
    assert(link_ok(ids, a, s));
    assert(node_ok(a, red, rank, s));
    if red[p as int] || a[p as int].parent is None {
        assert forall|i: usize| #[trigger] ids.contains(i) implies node_ok(a, red2, rank2, i) && (
        a[i as int].parent is None ==> !red2[i as int]) by {
            assert(link_ok(ids, a, i));
            if i != p {
                assert(node_ok(a, red, rank, i));
            }
        }
    } else {
        let pp = a[p as int].parent.unwrap();
        assert(ids.contains(pp));
        assert(link_ok(ids, a, pp));
        assert(node_ok(a, red, rank, pp));
        assert forall|i: usize| #[trigger] ids.contains(i) implies (i != pp ==> node_ok(
            a,
            red2,
            rank2,
            i,
        )) && (a[i as int].parent is None ==> !red2[i as int]) by {
            assert(link_ok(ids, a, i));
            if i != p {
                assert(node_ok(a, red, rank, i));
            }
        }
    }
}

/// Taking out a node without children breaks no rule if the node was red
/// or had no parent. If it was black, the side of its parent where it hung
/// is short of a black node, and the parent has a child on the other side.
pub proof fn lemma_leaf_cut(
    ids: Set<usize>,
    a: Seq<Links>,
    b: Seq<Links>,
    red: Seq<bool>,
    rank: Seq<nat>,
    idx: usize,
)
    requires
        linked(ids, a),
        sound(ids, a, red, rank),
        ids.contains(idx),
        a[idx as int].left is None,
        a[idx as int].right is None,
        cut_out(a, b, idx),
    ensures
        red[idx as int] || a[idx as int].parent is None ==> sound(ids.remove(idx), b, red, rank),
        !red[idx as int] ==> (a[idx as int].parent matches Some(p) ==> {
            &&& short_at(ids.remove(idx), b, red, rank, p, a[p as int].left == Some(idx))
            &&& a[p as int].left == Some(idx) ==> b[p as int].right is Some && b[p as int].left
                is None
            &&& a[p as int].left != Some(idx) ==> b[p as int].left is Some && b[p as int].right
                is None
        }),
{
    let ids2 = ids.remove(idx);
    assert(link_ok(ids, a, idx));
    assert(node_ok(a, red, rank, idx));
    if red[idx as int] || a[idx as int].parent is None {
        assert forall|i: usize| #[trigger] ids2.contains(i) implies node_ok(b, red, rank, i) && (
        b[i as int].parent is None ==> !red[i as int]) by {
            assert(ids.contains(i));
            assert(link_ok(ids, a, i));
            assert(node_ok(a, red, rank, i));
            let bi = b[i as int];
        }
    } else {
        let p = a[idx as int].parent.unwrap();
        assert(link_ok(ids, a, p));
        assert(node_ok(a, red, rank, p));
        let bp = b[p as int];
        assert forall|i: usize| #[trigger] ids2.contains(i) implies (i != p ==> node_ok(
            b,
            red,
            rank,
            i,
        )) && (b[i as int].parent is None ==> !red[i as int]) by {
            assert(ids.contains(i));
            assert(link_ok(ids, a, i));
            assert(node_ok(a, red, rank, i));
            let bi = b[i as int];
        }
    }
}

/// A node with one child is black and its child is red; taking the node
/// out and turning the child black breaks no rule.
pub proof fn lemma_single_cut(
    ids: Set<usize>,
    a: Seq<Links>,
    b: Seq<Links>,
    red: Seq<bool>,
    rank: Seq<nat>,
    idx: usize,
)
    requires
        linked(ids, a),
        sound(ids, a, red, rank),
        ids.contains(idx),
        a[idx as int].left is None || a[idx as int].right is None,
        only_child(a, idx) is Some,
        cut_out(a, b, idx),
    ensures
        !red[idx as int],
        red[only_child(a, idx).unwrap() as int],
        sound(ids.remove(idx), b, red.update(only_child(a, idx).unwrap() as int, false), rank),
{
    let ids2 = ids.remove(idx);
    let c = only_child(a, idx).unwrap();
    let red2 = red.update(c as int, false);
    assert(link_ok(ids, a, idx));
    assert(node_ok(a, red, rank, idx));
    assert(ids.contains(c));
    assert(link_ok(ids, a, c));
    assert(node_ok(a, red, rank, c));
    assert forall|i: usize| #[trigger] ids2.contains(i) implies node_ok(b, red2, rank, i) && (
    b[i as int].parent is None ==> !red2[i as int]) by {
        assert(ids.contains(i));
        assert(link_ok(ids, a, i));
        assert(node_ok(a, red, rank, i));
        let bi = b[i as int];
    }
}

} // verus!
