use vstd::prelude::*;
use crate::links::Links;
use crate::links::link_ok;
use crate::colour::is_red;
use crate::colour::node_ok;
use crate::colour::node_ok_but;
use crate::rotate::raised_from_left;
use crate::rotate::raised_from_right;
use crate::rotate::doubly_raised_from_left;
use crate::rotate::doubly_raised_from_right;

verus! {

/// Links and colours at every slot of `ids` are as a walk upwards from the
/// red slot `x` finds them: in order, but that the parent of `x` may be red.
pub open spec fn mending(
    ids: Set<usize>,
    a: Seq<Links>,
    red: Seq<bool>,
    rank: Seq<nat>,
    x: usize,
) -> bool {
    &&& ids.contains(x)
    &&& red.len() == a.len()
    &&& rank.len() == a.len()
    &&& red[x as int]
    &&& forall|i: usize| ids.contains(i) ==> #[trigger] link_ok(ids, a, i)
    &&& forall|i: usize| #[trigger] ids.contains(i) ==> node_ok_but(a, red, rank, i, x)
}

/// A red node without a parent breaks no rule.
pub proof fn lemma_top_mended(
    ids: Set<usize>,
    a: Seq<Links>,
    red: Seq<bool>,
    rank: Seq<nat>,
    x: usize,
)
    requires
        mending(ids, a, red, rank, x),
        a[x as int].parent is None,
    ensures
        forall|i: usize| #[trigger] ids.contains(i) ==> node_ok(a, red, rank, i),
{
    assert forall|i: usize| #[trigger] ids.contains(i) implies node_ok(a, red, rank, i) by {
        assert(link_ok(ids, a, i));
        assert(node_ok_but(a, red, rank, i, x));
    }
}

/// A red node under a black parent breaks no rule.
pub proof fn lemma_black_parent_mended(
    ids: Set<usize>,
    a: Seq<Links>,
    red: Seq<bool>,
    rank: Seq<nat>,
    x: usize,
)
    requires
        mending(ids, a, red, rank, x),
        a[x as int].parent matches Some(p) && !red[p as int],
    ensures
        forall|i: usize| #[trigger] ids.contains(i) ==> node_ok(a, red, rank, i),
{
    assert forall|i: usize| #[trigger] ids.contains(i) implies node_ok(a, red, rank, i) by {
        assert(link_ok(ids, a, i));
        assert(node_ok_but(a, red, rank, i, x));
    }
}

/// With a red parent and a red uncle, turning both black and the
/// grandparent red moves the one broken rule up to the grandparent.
pub proof fn lemma_recoloured(
    ids: Set<usize>,
    a: Seq<Links>,
    red: Seq<bool>,
    rank: Seq<nat>,
    x: usize,
    u: usize,
)
    requires
        mending(ids, a, red, rank, x),
        a[x as int].parent matches Some(p) && red[p as int] && (a[p as int].parent matches Some(g)
            && (a[g as int].left == Some(u) || a[g as int].right == Some(u))),
        u != a[x as int].parent.unwrap(),
        red[u as int],
    ensures
        ({
            let p = a[x as int].parent.unwrap();
            let g = a[p as int].parent.unwrap();
            mending(
                ids,
                a,
                red.update(u as int, false).update(p as int, false).update(g as int, true),
                rank.update(g as int, rank[g as int] + 1),
                g,
            )
        }),
{
    let p = a[x as int].parent.unwrap();
    let g = a[p as int].parent.unwrap();
    let red2 = red.update(u as int, false).update(p as int, false).update(g as int, true);
    let rank2 = rank.update(g as int, rank[g as int] + 1);
    assert(link_ok(ids, a, x));
    assert(link_ok(ids, a, p));
    assert(link_ok(ids, a, g));
    assert(node_ok_but(a, red, rank, p, x));
    assert(node_ok_but(a, red, rank, g, x));
    assert(ids.contains(u));
    assert(link_ok(ids, a, u));
    assert(node_ok_but(a, red, rank, u, x));
    assert forall|i: usize| #[trigger] ids.contains(i) implies node_ok_but(
        a,
        red2,
        rank2,
        i,
        g,
    ) by {
        assert(link_ok(ids, a, i));
        assert(node_ok_but(a, red, rank, i, x));
    }
}

/// With a red parent on the left of a black grandparent, a red node on the
/// left of that parent and no red uncle, raising the parent over the
/// grandparent restores every rule.
pub proof fn lemma_raised_left_mended(
    ids: Set<usize>,
    a: Seq<Links>,
    b: Seq<Links>,
    red: Seq<bool>,
    rank: Seq<nat>,
    x: usize,
)
    requires
        mending(ids, a, red, rank, x),
        a[x as int].parent matches Some(p) && red[p as int] && a[p as int].left == Some(x) && (
        a[p as int].parent matches Some(g) && a[g as int].left == Some(p) && !is_red(
            red,
            a[g as int].right,
        )),
        raised_from_left(a, b, a[x as int].parent.unwrap()),
    ensures
        ({
            let p = a[x as int].parent.unwrap();
            let g = a[p as int].parent.unwrap();
            let red2 = red.update(p as int, red[g as int]).update(g as int, red[p as int]);
            &&& forall|i: usize| #[trigger] ids.contains(i) ==> node_ok(b, red2, rank, i)
            &&& !red2[p as int]
        }),
{
    let p = a[x as int].parent.unwrap();
    let g = a[p as int].parent.unwrap();
    let red2 = red.update(p as int, red[g as int]).update(g as int, red[p as int]);
    assert(link_ok(ids, a, x));
    assert(link_ok(ids, a, p));
    assert(link_ok(ids, a, g));
    assert(node_ok_but(a, red, rank, x, x));
    assert(node_ok_but(a, red, rank, p, x));
    assert(node_ok_but(a, red, rank, g, x));
    assert(b[p as int].right == Some(g));
    assert(b[g as int].parent == Some(p));
    assert forall|i: usize| #[trigger] ids.contains(i) implies node_ok(b, red2, rank, i) by {
        assert(link_ok(ids, a, i));
        assert(node_ok_but(a, red, rank, i, x));
        if i != p && i != g {
            let bi = b[i as int];
        }
    }
}

/// With a red parent on the left of a black grandparent, a red node on the
/// right of that parent and no red uncle, raising the node over both
/// restores every rule.
pub proof fn lemma_doubly_raised_left_mended(
    ids: Set<usize>,
    a: Seq<Links>,
    b: Seq<Links>,
    red: Seq<bool>,
    rank: Seq<nat>,
    x: usize,
)
    requires
        mending(ids, a, red, rank, x),
        a[x as int].parent matches Some(p) && red[p as int] && a[p as int].right == Some(x) && (
        a[p as int].parent matches Some(g) && a[g as int].left == Some(p) && !is_red(
            red,
            a[g as int].right,
        )),
        doubly_raised_from_left(a, b, a[x as int].parent.unwrap()),
    ensures
        ({
            let p = a[x as int].parent.unwrap();
            let g = a[p as int].parent.unwrap();
            let red2 = red.update(x as int, red[g as int]).update(p as int, red[x as int]).update(
                g as int,
                red[p as int],
            );
            &&& forall|i: usize| #[trigger] ids.contains(i) ==> node_ok(b, red2, rank, i)
            &&& !red2[x as int]
        }),
{
    let p = a[x as int].parent.unwrap();
    let g = a[p as int].parent.unwrap();
    let red2 = red.update(x as int, red[g as int]).update(p as int, red[x as int]).update(
        g as int,
        red[p as int],
    );
    assert(link_ok(ids, a, x));
    assert(link_ok(ids, a, p));
    assert(link_ok(ids, a, g));
    assert(node_ok_but(a, red, rank, x, x));
    assert(node_ok_but(a, red, rank, p, x));
    assert(node_ok_but(a, red, rank, g, x));
    assert forall|i: usize| #[trigger] ids.contains(i) implies node_ok(b, red2, rank, i) by {
        assert(link_ok(ids, a, i));
        assert(node_ok_but(a, red, rank, i, x));
        if i != p && i != g && i != x {
            let bi = b[i as int];
        }
    }
}

/// With a red parent on the right of a black grandparent, a red node on the
/// right of that parent and no red uncle, raising the parent over the
/// grandparent restores every rule.
pub proof fn lemma_raised_right_mended(
    ids: Set<usize>,
    a: Seq<Links>,
    b: Seq<Links>,
    red: Seq<bool>,
    rank: Seq<nat>,
    x: usize,
)
    requires
        mending(ids, a, red, rank, x),
        a[x as int].parent matches Some(p) && red[p as int] && a[p as int].right == Some(x) && (
        a[p as int].parent matches Some(g) && a[g as int].right == Some(p) && !is_red(
            red,
            a[g as int].left,
        )),
        raised_from_right(a, b, a[x as int].parent.unwrap()),
    ensures
        ({
            let p = a[x as int].parent.unwrap();
            let g = a[p as int].parent.unwrap();
            let red2 = red.update(p as int, red[g as int]).update(g as int, red[p as int]);
            &&& forall|i: usize| #[trigger] ids.contains(i) ==> node_ok(b, red2, rank, i)
            &&& !red2[p as int]
        }),
{
    let p = a[x as int].parent.unwrap();
    let g = a[p as int].parent.unwrap();
    let red2 = red.update(p as int, red[g as int]).update(g as int, red[p as int]);
    assert(link_ok(ids, a, x));
    assert(link_ok(ids, a, p));
    assert(link_ok(ids, a, g));
    assert(node_ok_but(a, red, rank, x, x));
    assert(node_ok_but(a, red, rank, p, x));
    assert(node_ok_but(a, red, rank, g, x));
    assert(b[p as int].left == Some(g));
    assert(b[g as int].parent == Some(p));
    assert forall|i: usize| #[trigger] ids.contains(i) implies node_ok(b, red2, rank, i) by {
        assert(link_ok(ids, a, i));
        assert(node_ok_but(a, red, rank, i, x));
        if i != p && i != g {
            let bi = b[i as int];
        }
    }
}

/// With a red parent on the right of a black grandparent, a red node on the
/// left of that parent and no red uncle, raising the node over both
/// restores every rule.
pub proof fn lemma_doubly_raised_right_mended(
    ids: Set<usize>,
    a: Seq<Links>,
    b: Seq<Links>,
    red: Seq<bool>,
    rank: Seq<nat>,
    x: usize,
)
    requires
        mending(ids, a, red, rank, x),
        a[x as int].parent matches Some(p) && red[p as int] && a[p as int].left == Some(x) && (
        a[p as int].parent matches Some(g) && a[g as int].right == Some(p) && !is_red(
            red,
            a[g as int].left,
        )),
        doubly_raised_from_right(a, b, a[x as int].parent.unwrap()),
    ensures
        ({
            let p = a[x as int].parent.unwrap();
            let g = a[p as int].parent.unwrap();
            let red2 = red.update(x as int, red[g as int]).update(p as int, red[x as int]).update(
                g as int,
                red[p as int],
            );
            &&& forall|i: usize| #[trigger] ids.contains(i) ==> node_ok(b, red2, rank, i)
            &&& !red2[x as int]
        }),
{
    let p = a[x as int].parent.unwrap();
    let g = a[p as int].parent.unwrap();
    let red2 = red.update(x as int, red[g as int]).update(p as int, red[x as int]).update(
        g as int,
        red[p as int],
    );
    assert(link_ok(ids, a, x));
    assert(link_ok(ids, a, p));
    assert(link_ok(ids, a, g));
    assert(node_ok_but(a, red, rank, x, x));
    assert(node_ok_but(a, red, rank, p, x));
    assert(node_ok_but(a, red, rank, g, x));
    assert forall|i: usize| #[trigger] ids.contains(i) implies node_ok(b, red2, rank, i) by {
        assert(link_ok(ids, a, i));
        assert(node_ok_but(a, red, rank, i, x));
        if i != p && i != g && i != x {
            let bi = b[i as int];
        }
    }
}

/// Turning the top node black breaks no rule.
pub proof fn lemma_top_blackened(
    ids: Set<usize>,
    a: Seq<Links>,
    red: Seq<bool>,
    rank: Seq<nat>,
    r: usize,
)
    requires
        ids.contains(r),
        red.len() == a.len(),
        rank.len() == a.len(),
        a[r as int].parent is None,
        forall|i: usize| ids.contains(i) ==> #[trigger] link_ok(ids, a, i),
        forall|i: usize| #[trigger] ids.contains(i) ==> node_ok(a, red, rank, i),
    ensures
        forall|i: usize| #[trigger]
            ids.contains(i) ==> node_ok(a, red.update(r as int, false), rank, i),
{
    assert(link_ok(ids, a, r));
    assert forall|i: usize| #[trigger] ids.contains(i) implies node_ok(
        a,
        red.update(r as int, false),
        rank,
        i,
    ) by {
        assert(link_ok(ids, a, i));
        assert(node_ok(a, red, rank, i));
    }
}

/// After a red node without children has been hung in slot `n`, the one
/// rule that can be broken is that its parent may be red.
pub proof fn lemma_hung_mending(
    ids: Set<usize>,
    a: Seq<Links>,
    b: Seq<Links>,
    red: Seq<bool>,
    red2: Seq<bool>,
    rank: Seq<nat>,
    rank2: Seq<nat>,
    n: usize,
)
    requires
        !ids.contains(n),
        n < b.len(),
        red2.len() == b.len(),
        rank2.len() == b.len(),
        red2[n as int],
        rank2[n as int] == 0,
        b[n as int].left is None,
        b[n as int].right is None,
        forall|i: usize| ids.contains(i) ==> #[trigger] link_ok(ids, a, i),
        forall|i: usize| #[trigger] ids.contains(i) ==> node_ok(a, red, rank, i),
        forall|i: usize| #[trigger]
            ids.contains(i) ==> {
                &&& i < b.len()
                &&& red2[i as int] == red[i as int]
                &&& rank2[i as int] == rank[i as int]
                &&& b[i as int].left == a[i as int].left || a[i as int].left is None
                    && b[i as int].left == Some(n)
                &&& b[i as int].right == a[i as int].right || a[i as int].right is None
                    && b[i as int].right == Some(n)
            },
    ensures
        forall|i: usize| #[trigger]
            ids.insert(n).contains(i) ==> node_ok_but(b, red2, rank2, i, n),
{
    assert forall|i: usize| #[trigger] ids.insert(n).contains(i) implies node_ok_but(
        b,
        red2,
        rank2,
        i,
        n,
    ) by {
        if i != n {
            assert(ids.contains(i));
            assert(link_ok(ids, a, i));
            assert(node_ok(a, red, rank, i));
            match a[i as int].left {
                Some(c) => {
                    assert(ids.contains(c));
                },
                None => {},
            }
            match a[i as int].right {
                Some(c) => {
                    assert(ids.contains(c));
                },
                None => {},
            }
        }
    }
}

} // verus!
