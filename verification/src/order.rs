use vstd::prelude::*;
use core::cmp::Ordering;
use vstd::std_specs::cmp::PartialOrdSpec;

verus! {

/// `a` is strictly below `b` in the order that `PartialOrd` gives to `T`.
pub open spec fn lt<T: PartialOrd>(a: T, b: T) -> bool {
    a.partial_cmp_spec(&b) == Some(Ordering::Less)
}

/// Three values that transitivity is to be applied to. It is always true,
/// and is written down in a proof to call for that instance of the law.
pub open spec fn chain<T>(a: T, b: T, c: T) -> bool {
    true
}

/// What a tree asks of its values: `<` behaves in compiled code as its
/// specification says, and that specification is a strict total order.
pub open spec fn total_order<T: PartialOrd>() -> bool {
    &&& T::obeys_partial_cmp_spec()
    &&& forall|a: T| !(#[trigger] lt(a, a))
    &&& forall|a: T, b: T, c: T| #[trigger] chain(a, b, c) && lt(a, b) && lt(b, c) ==> lt(a, c)
    &&& forall|a: T, b: T| #[trigger] lt(a, b) || a == b || lt(b, a)
}

/// The order is transitive.
pub proof fn lemma_lt_transitive<T: PartialOrd>(a: T, b: T, c: T)
    requires
        total_order::<T>(),
        lt(a, b),
        lt(b, c),
    ensures
        lt(a, c),
{
    assert(chain(a, b, c));
}

/// Compares two values with `<`.
pub fn less<T: PartialOrd>(a: &T, b: &T) -> (r: bool)
    requires
        total_order::<T>(),
    ensures
        r == lt(*a, *b),
{
    *a < *b
}

/// Every element is strictly below each later one.
pub open spec fn ascending<T: PartialOrd>(s: Seq<T>) -> bool {
    forall|i: int, j: int| 0 <= i < j < s.len() ==> lt(#[trigger] s[i], #[trigger] s[j])
}

/// Every element of `s` is strictly below `v`.
pub open spec fn all_below<T: PartialOrd>(s: Seq<T>, v: T) -> bool {
    forall|i: int| 0 <= i < s.len() ==> lt(#[trigger] s[i], v)
}

/// Every element of `s` is strictly above `v`.
pub open spec fn all_above<T: PartialOrd>(s: Seq<T>, v: T) -> bool {
    forall|i: int| 0 <= i < s.len() ==> lt(v, #[trigger] s[i])
}

/// The parts of an ascending sequence are ascending, and lie on their side
/// of the element between them.
pub proof fn lemma_ascending_split<T: PartialOrd>(a: Seq<T>, v: T, b: Seq<T>)
    requires
        ascending(a.push(v) + b),
    ensures
        ascending(a),
        ascending(b),
        all_below(a, v),
        all_above(b, v),
{
    let s = a.push(v) + b;
    let n = a.len() as int;
    assert(s[n] == v);
    assert forall|i: int, j: int| 0 <= i < j < a.len() implies lt(
        #[trigger] a[i],
        #[trigger] a[j],
    ) by {
        assert(s[i] == a[i] && s[j] == a[j]);
    }
    assert forall|i: int, j: int| 0 <= i < j < b.len() implies lt(
        #[trigger] b[i],
        #[trigger] b[j],
    ) by {
        assert(s[n + 1 + i] == b[i] && s[n + 1 + j] == b[j]);
    }
    assert forall|i: int| 0 <= i < a.len() implies lt(#[trigger] a[i], v) by {
        assert(s[i] == a[i]);
    }
    assert forall|i: int| 0 <= i < b.len() implies lt(v, #[trigger] b[i]) by {
        assert(s[n + 1 + i] == b[i]);
    }
}

/// An ascending sequence holds no value twice.
pub proof fn lemma_ascending_no_duplicates<T: PartialOrd>(s: Seq<T>)
    requires
        total_order::<T>(),
        ascending(s),
    ensures
        s.no_duplicates(),
{
    assert forall|i: int, j: int| 0 <= i < s.len() && 0 <= j < s.len() && i != j implies s[i]
        != s[j] by {
        if i < j {
            assert(lt(s[i], s[j]));
        } else {
            assert(lt(s[j], s[i]));
        }
    }
}

/// Taking one element out of an ascending sequence leaves an ascending
/// sequence that holds the other values and not that one.
pub proof fn lemma_ascending_remove<T: PartialOrd>(s: Seq<T>, k: int)
    requires
        total_order::<T>(),
        ascending(s),
        0 <= k < s.len(),
    ensures
        ascending(s.remove(k)),
        s.remove(k).to_set() =~= s.to_set().remove(s[k]),
{
    let r = s.remove(k);
    lemma_ascending_no_duplicates(s);
    assert forall|i: int, j: int| 0 <= i < j < r.len() implies lt(
        #[trigger] r[i],
        #[trigger] r[j],
    ) by {
        let i2 = if i < k { i } else { i + 1 };
        let j2 = if j < k { j } else { j + 1 };
        assert(r[i] == s[i2] && r[j] == s[j2]);
    }
    assert forall|x: T| r.to_set().contains(x) <==> s.to_set().remove(s[k]).contains(x) by {
        if r.to_set().contains(x) {
            let i = choose|i: int| 0 <= i < r.len() && r[i] == x;
            let i2 = if i < k { i } else { i + 1 };
            assert(s[i2] == x);
            assert(s.contains(x));
        }
        if s.to_set().remove(s[k]).contains(x) {
            let i = choose|i: int| 0 <= i < s.len() && s[i] == x;
            assert(i != k);
            let i2 = if i < k { i } else { i - 1 };
            assert(r[i2] == x);
            assert(r.contains(x));
        }
    }
}

/// Putting a value into an ascending sequence, above all that comes before
/// the place and below all that comes after, leaves an ascending sequence
/// that holds the old values and the new one.
pub proof fn lemma_ascending_insert<T: PartialOrd>(s: Seq<T>, k: int, v: T)
    requires
        total_order::<T>(),
        ascending(s),
        0 <= k <= s.len(),
        all_below(s.subrange(0, k), v),
        all_above(s.subrange(k, s.len() as int), v),
    ensures
        ascending(s.insert(k, v)),
        s.insert(k, v).to_set() =~= s.to_set().insert(v),
        !s.contains(v),
{
    let r = s.insert(k, v);
    let lo = s.subrange(0, k);
    let hi = s.subrange(k, s.len() as int);
    assert forall|i: int| 0 <= i < s.len() implies s[i] != v by {
        if i < k {
            assert(lo[i] == s[i]);
        } else {
            assert(hi[i - k] == s[i]);
        }
    }
    assert forall|i: int, j: int| 0 <= i < j < r.len() implies lt(
        #[trigger] r[i],
        #[trigger] r[j],
    ) by {
        if j < k {
            assert(r[i] == s[i] && r[j] == s[j]);
        } else if j == k {
            assert(r[i] == lo[i] && r[j] == v);
        } else if i < k {
            assert(r[i] == s[i] && r[j] == s[j - 1]);
        } else if i == k {
            assert(r[i] == v && r[j] == hi[j - 1 - k]);
        } else {
            assert(r[i] == s[i - 1] && r[j] == s[j - 1]);
        }
    }
    assert forall|x: T| r.to_set().contains(x) <==> s.to_set().insert(v).contains(x) by {
        if r.to_set().contains(x) {
            let i = choose|i: int| 0 <= i < r.len() && r[i] == x;
            if i < k {
                assert(s[i] == x);
                assert(s.contains(x));
            } else if i > k {
                assert(s[i - 1] == x);
                assert(s.contains(x));
            }
        }
        if s.to_set().insert(v).contains(x) {
            if x == v {
                assert(r[k] == x);
                assert(r.contains(x));
            } else {
                let i = choose|i: int| 0 <= i < s.len() && s[i] == x;
                let i2 = if i < k { i } else { i + 1 };
                assert(r[i2] == x);
                assert(r.contains(x));
            }
        }
    }
}

/// A value below the middle element that is not in the lower part is
/// nowhere in the sequence.
pub proof fn lemma_absent_below<T: PartialOrd>(a: Seq<T>, v: T, b: Seq<T>, x: T)
    requires
        total_order::<T>(),
        all_above(b, v),
        lt(x, v),
        !a.contains(x),
    ensures
        !(a.push(v) + b).contains(x),
{
    let s = a.push(v) + b;
    let n = a.len() as int;
    assert forall|i: int| 0 <= i < s.len() implies s[i] != x by {
        if i < n {
            assert(s[i] == a[i]);
        } else if i == n {
            assert(s[i] == v);
        } else {
            assert(s[i] == b[i - n - 1]);
            if b[i - n - 1] == x {
                lemma_lt_transitive(x, v, x);
            }
        }
    }
}

/// A value above the middle element that is not in the upper part is
/// nowhere in the sequence.
pub proof fn lemma_absent_above<T: PartialOrd>(a: Seq<T>, v: T, b: Seq<T>, x: T)
    requires
        total_order::<T>(),
        all_below(a, v),
        lt(v, x),
        !b.contains(x),
    ensures
        !(a.push(v) + b).contains(x),
{
    let s = a.push(v) + b;
    let n = a.len() as int;
    assert forall|i: int| 0 <= i < s.len() implies s[i] != x by {
        if i < n {
            assert(s[i] == a[i]);
            if a[i] == x {
                lemma_lt_transitive(x, v, x);
            }
        } else if i == n {
            assert(s[i] == v);
        } else {
            assert(s[i] == b[i - n - 1]);
        }
    }
}

/// Each of three parts of an ascending sequence is ascending.
pub proof fn lemma_ascending_parts<T: PartialOrd>(a: Seq<T>, m: Seq<T>, b: Seq<T>)
    requires
        ascending(a + m + b),
    ensures
        ascending(a),
        ascending(m),
        ascending(b),
{
    let s = a + m + b;
    let n = a.len() as int;
    let k = m.len() as int;
    assert forall|i: int, j: int| 0 <= i < j < a.len() implies lt(
        #[trigger] a[i],
        #[trigger] a[j],
    ) by {
        assert(s[i] == a[i] && s[j] == a[j]);
    }
    assert forall|i: int, j: int| 0 <= i < j < m.len() implies lt(
        #[trigger] m[i],
        #[trigger] m[j],
    ) by {
        assert(s[n + i] == m[i] && s[n + j] == m[j]);
    }
    assert forall|i: int, j: int| 0 <= i < j < b.len() implies lt(
        #[trigger] b[i],
        #[trigger] b[j],
    ) by {
        assert(s[n + k + i] == b[i] && s[n + k + j] == b[j]);
    }
}

/// What lies above `v` lies above anything below `v`.
pub proof fn lemma_above_lower<T: PartialOrd>(s: Seq<T>, v: T, w: T)
    requires
        total_order::<T>(),
        all_above(s, v),
        lt(w, v),
    ensures
        all_above(s, w),
{
    assert forall|i: int| 0 <= i < s.len() implies lt(w, #[trigger] s[i]) by {
        lemma_lt_transitive(w, v, s[i]);
    }
}

/// What lies below `v` lies below anything above `v`.
pub proof fn lemma_below_higher<T: PartialOrd>(s: Seq<T>, v: T, w: T)
    requires
        total_order::<T>(),
        all_below(s, v),
        lt(v, w),
    ensures
        all_below(s, w),
{
    assert forall|i: int| 0 <= i < s.len() implies lt(#[trigger] s[i], w) by {
        lemma_lt_transitive(s[i], v, w);
    }
}

/// Three parts above `w` make a sequence above `w`.
pub proof fn lemma_above_joined<T: PartialOrd>(a: Seq<T>, v: T, b: Seq<T>, c: Seq<T>, w: T)
    requires
        all_above(a, w),
        lt(w, v),
        all_above(b, w),
        all_above(c, w),
    ensures
        all_above(a.push(v) + b + c, w),
{
    let s = a.push(v) + b + c;
    let n = a.len() as int;
    let k = b.len() as int;
    assert forall|i: int| 0 <= i < s.len() implies lt(w, #[trigger] s[i]) by {
        if i < n {
            assert(s[i] == a[i]);
        } else if i == n {
            assert(s[i] == v);
        } else if i < n + 1 + k {
            assert(s[i] == b[i - n - 1]);
        } else {
            assert(s[i] == c[i - n - 1 - k]);
        }
    }
}

/// Three parts below `w` make a sequence below `w`.
pub proof fn lemma_below_joined<T: PartialOrd>(c: Seq<T>, a: Seq<T>, v: T, b: Seq<T>, w: T)
    requires
        all_below(c, w),
        all_below(a, w),
        lt(v, w),
        all_below(b, w),
    ensures
        all_below(c + (a.push(v) + b), w),
{
    let s = c + (a.push(v) + b);
    let m = c.len() as int;
    let n = a.len() as int;
    assert forall|i: int| 0 <= i < s.len() implies lt(#[trigger] s[i], w) by {
        if i < m {
            assert(s[i] == c[i]);
        } else if i < m + n {
            assert(s[i] == a[i - m]);
        } else if i == m + n {
            assert(s[i] == v);
        } else {
            assert(s[i] == b[i - m - n - 1]);
        }
    }
}

/// Two ascending sequences that hold the same values are the same sequence.
pub proof fn lemma_ascending_unique<T: PartialOrd>(s1: Seq<T>, s2: Seq<T>)
    requires
        total_order::<T>(),
        ascending(s1),
        ascending(s2),
        s1.to_set() == s2.to_set(),
    ensures
        s1 == s2,
    decreases s1.len(),
{
    if s1.len() == 0 {
        if s2.len() > 0 {
            assert(s2.contains(s2[0]));
            assert(s1.to_set().contains(s2[0]));
        }
        assert(s1 =~= s2);
    } else {
        assert(s1.contains(s1[0]));
        assert(s2.to_set().contains(s1[0]));
        let j = choose|j: int| 0 <= j < s2.len() && s2[j] == s1[0];
        assert(s2.contains(s2[0]));
        assert(s1.to_set().contains(s2[0]));
        let i = choose|i: int| 0 <= i < s1.len() && s1[i] == s2[0];
        if j > 0 {
            assert(lt(s2[0], s2[j]));
            if i > 0 {
                assert(lt(s1[0], s1[i]));
                lemma_lt_transitive(s2[0], s1[0], s2[0]);
            }
        }
        assert(s1[0] == s2[0]);
        lemma_ascending_remove(s1, 0);
        lemma_ascending_remove(s2, 0);
        lemma_ascending_unique(s1.remove(0), s2.remove(0));
        assert(s1 =~= s2) by {
            assert forall|k: int| 0 <= k < s1.len() implies s1[k] == s2[k] by {
                if k > 0 {
                    assert(s1.remove(0)[k - 1] == s1[k]);
                    assert(s2.remove(0)[k - 1] == s2[k]);
                }
            }
            assert(s1.remove(0).len() == s1.len() - 1);
            assert(s2.remove(0).len() == s2.len() - 1);
        }
    }
}

} // verus!
