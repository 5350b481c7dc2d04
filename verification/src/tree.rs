//! The mathematical model behind the `Ancestry` queries, and the facts that
//! hold of them whenever the ancestor sequences describe a single-parent,
//! tree-shaped hierarchy.

use vstd::prelude::*;

use crate::Ancestry;

verus! {

/// The chain of a value: the value itself, then its strict ancestors,
/// nearest first.
pub open spec fn chain_of<T: Ancestry>(v: T::V) -> Seq<T::V> {
    seq![v] + T::ancestors_of(v)
}

/// The meaning of `is_descendant_of`: `b` occurs among the strict
/// ancestors of `a`.
pub open spec fn is_descendant_view<T: Ancestry>(a: T::V, b: T::V) -> bool {
    T::ancestors_of(a).contains(b)
}

/// The meaning of `closest_common_ancestor`: the nearest member of `a`'s
/// chain that also lies on `b`'s chain.
pub open spec fn closest_common_ancestor_view<T: Ancestry>(a: T::V, b: T::V) -> Option<T::V> {
    crate::first_common(chain_of::<T>(a), chain_of::<T>(b))
}

/// `c` hangs directly under `p`: walking up from `c` means `p` first and
/// then everything above `p`.
pub open spec fn child_of<T: Ancestry>(c: T::V, p: T::V) -> bool {
    T::ancestors_of(c) == seq![p] + T::ancestors_of(p)
}

/// `x` lies in the subtree rooted at `c`: it is `c` itself or descends
/// from it.
pub open spec fn in_subtree<T: Ancestry>(x: T::V, c: T::V) -> bool {
    x == c || is_descendant_view::<T>(x, c)
}

/// The ancestor sequence of `v` really is a walk to the root: each member
/// of it sees exactly the remainder of the sequence as its own ancestors.
pub open spec fn parent_linked<T: Ancestry>(v: T::V) -> bool {
    forall|i: int|
        0 <= i < T::ancestors_of(v).len() ==> T::ancestors_of(
            #[trigger] T::ancestors_of(v)[i],
        ) == T::ancestors_of(v).skip(i + 1)
}

/// A value's chain holds exactly the value itself and its strict ancestors.
pub proof fn lemma_chain_membership<T: Ancestry>(a: T::V, b: T::V)
    ensures
        chain_of::<T>(a).contains(b) <==> (b == a || T::ancestors_of(a).contains(b)),
{
    if b == a {
        assert(chain_of::<T>(a)[0] == b);
    }
    if T::ancestors_of(a).contains(b) {
        let k = choose|k: int|
            0 <= k < T::ancestors_of(a).len() && T::ancestors_of(a)[k] == b;
        assert(chain_of::<T>(a)[k + 1] == b);
    }
    if chain_of::<T>(a).contains(b) {
        let k = choose|k: int| 0 <= k < chain_of::<T>(a).len() && chain_of::<T>(a)[k] == b;
        if k > 0 {
            assert(T::ancestors_of(a)[k - 1] == b);
        }
    }
}

/// No value is its own descendant, and none its own ancestor.
pub proof fn lemma_never_self_related<T: Ancestry>(v: T::V)
    ensures
        !is_descendant_view::<T>(v, v),
{
    T::lemma_ancestors_strict(v);
}

/// Along an edge, the child descends from the parent and never the other
/// way around.
pub proof fn lemma_child_edge<T: Ancestry>(p: T::V, c: T::V)
    requires
        child_of::<T>(c, p),
    ensures
        is_descendant_view::<T>(c, p),
        !is_descendant_view::<T>(p, c),
{
    assert(T::ancestors_of(c)[0] == p);
    T::lemma_ancestors_strict(c);
    if T::ancestors_of(p).contains(c) {
        let k = choose|k: int|
            0 <= k < T::ancestors_of(p).len() && T::ancestors_of(p)[k] == c;
        assert(T::ancestors_of(c)[k + 1] == c);
    }
}

/// Descent crosses two levels: a grandchild descends from the grandparent
/// and never the other way around.
pub proof fn lemma_two_level_descent<T: Ancestry>(top: T::V, mid: T::V, bottom: T::V)
    requires
        child_of::<T>(mid, top),
        child_of::<T>(bottom, mid),
    ensures
        is_descendant_view::<T>(bottom, top),
        !is_descendant_view::<T>(top, bottom),
{
    assert(T::ancestors_of(bottom)[1] == T::ancestors_of(mid)[0]);
    assert(T::ancestors_of(bottom)[1] == top);
    T::lemma_ancestors_strict(bottom);
    if T::ancestors_of(top).contains(bottom) {
        let k = choose|k: int|
            0 <= k < T::ancestors_of(top).len() && T::ancestors_of(top)[k] == bottom;
        assert(T::ancestors_of(mid)[k + 1] == bottom);
        assert(T::ancestors_of(bottom)[k + 2] == bottom);
    }
}

/// In a walk to the root, the chain of the `j`-th strict ancestor is the
/// tail of the value's own chain past position `j`.
pub proof fn lemma_ancestor_chain_suffix<T: Ancestry>(x: T::V, j: int)
    requires
        parent_linked::<T>(x),
        0 <= j < T::ancestors_of(x).len(),
    ensures
        chain_of::<T>(T::ancestors_of(x)[j]) == chain_of::<T>(x).skip(j + 1),
{
    let y = T::ancestors_of(x)[j];
    assert(T::ancestors_of(y) == T::ancestors_of(x).skip(j + 1));
    assert(chain_of::<T>(y) =~= chain_of::<T>(x).skip(j + 1));
}

/// Coherence of the walk passes down to every member of the chain.
pub proof fn lemma_parent_linked_ancestor<T: Ancestry>(x: T::V, j: int)
    requires
        parent_linked::<T>(x),
        0 <= j < T::ancestors_of(x).len(),
    ensures
        parent_linked::<T>(T::ancestors_of(x)[j]),
{
    let y = T::ancestors_of(x)[j];
    assert(T::ancestors_of(y) == T::ancestors_of(x).skip(j + 1));
    assert forall|n: int| 0 <= n < T::ancestors_of(y).len() implies T::ancestors_of(
        #[trigger] T::ancestors_of(y)[n],
    ) == T::ancestors_of(y).skip(n + 1) by {
        assert(T::ancestors_of(y)[n] == T::ancestors_of(x)[j + 1 + n]);
        assert(T::ancestors_of(T::ancestors_of(x)[j + 1 + n]) == T::ancestors_of(x).skip(
            j + n + 2,
        ));
        assert(T::ancestors_of(y).skip(n + 1) =~= T::ancestors_of(x).skip(j + n + 2));
    }
}

/// Any member of a coherent value's chain roots a tail of that chain:
/// the member's own chain is the chain from its position onward.
pub proof fn lemma_on_chain_suffix<T: Ancestry>(y: T::V, z: T::V) -> (s: int)
    requires
        parent_linked::<T>(y),
        chain_of::<T>(y).contains(z),
    ensures
        0 <= s < chain_of::<T>(y).len(),
        chain_of::<T>(y)[s] == z,
        chain_of::<T>(z) == chain_of::<T>(y).skip(s),
        parent_linked::<T>(z),
{
    let m = choose|m: int| 0 <= m < chain_of::<T>(y).len() && chain_of::<T>(y)[m] == z;
    if m == 0 {
        assert(z == y);
        assert(chain_of::<T>(y).skip(0) =~= chain_of::<T>(y));
        0
    } else {
        assert(T::ancestors_of(y)[m - 1] == z);
        lemma_ancestor_chain_suffix::<T>(y, m - 1);
        lemma_parent_linked_ancestor::<T>(y, m - 1);
        m
    }
}

/// Any position of a coherent value's chain roots the tail of the chain
/// from that position onward.
pub proof fn lemma_chain_index_suffix<T: Ancestry>(y: T::V, m: int)
    requires
        parent_linked::<T>(y),
        0 <= m < chain_of::<T>(y).len(),
    ensures
        chain_of::<T>(chain_of::<T>(y)[m]) == chain_of::<T>(y).skip(m),
        parent_linked::<T>(chain_of::<T>(y)[m]),
{
    if m == 0 {
        assert(chain_of::<T>(y)[0] == y);
        assert(chain_of::<T>(y).skip(0) =~= chain_of::<T>(y));
    } else {
        assert(chain_of::<T>(y)[m] == T::ancestors_of(y)[m - 1]);
        lemma_ancestor_chain_suffix::<T>(y, m - 1);
        lemma_parent_linked_ancestor::<T>(y, m - 1);
    }
}

/// Two members of disjoint subtrees — the subtrees of two distinct
/// children of one parent — are unrelated: neither descends from the
/// other.
pub proof fn lemma_separate_subtrees<T: Ancestry>(p: T::V, c1: T::V, c2: T::V, x: T::V, y: T::V)
    requires
        child_of::<T>(c1, p),
        child_of::<T>(c2, p),
        c1 != c2,
        in_subtree::<T>(x, c1),
        in_subtree::<T>(y, c2),
        parent_linked::<T>(x),
        parent_linked::<T>(y),
    ensures
        !is_descendant_view::<T>(x, y),
        !is_descendant_view::<T>(y, x),
{
    lemma_separate_one_way::<T>(p, c1, c2, x, y);
    lemma_separate_one_way::<T>(p, c2, c1, y, x);
}

proof fn lemma_separate_one_way<T: Ancestry>(p: T::V, c1: T::V, c2: T::V, x: T::V, y: T::V)
    requires
        child_of::<T>(c1, p),
        child_of::<T>(c2, p),
        c1 != c2,
        in_subtree::<T>(x, c1),
        in_subtree::<T>(y, c2),
        parent_linked::<T>(x),
        parent_linked::<T>(y),
    ensures
        !is_descendant_view::<T>(x, y),
{
    if is_descendant_view::<T>(x, y) {
        lemma_chain_membership::<T>(x, c1);
        let k1 = lemma_on_chain_suffix::<T>(x, c1);
        let j = choose|j: int|
            0 <= j < T::ancestors_of(x).len() && T::ancestors_of(x)[j] == y;
        lemma_ancestor_chain_suffix::<T>(x, j);
        lemma_chain_membership::<T>(y, c2);
        let k2 = lemma_on_chain_suffix::<T>(y, c2);
        assert(chain_of::<T>(c2) =~= chain_of::<T>(x).skip(j + 1 + k2)) by {
            assert(chain_of::<T>(y).skip(k2) =~= chain_of::<T>(x).skip(j + 1).skip(k2));
            assert(chain_of::<T>(x).skip(j + 1).skip(k2) =~= chain_of::<T>(x).skip(
                j + 1 + k2,
            ));
        }
        assert(chain_of::<T>(c1).len() == chain_of::<T>(c2).len());
        assert(k1 == j + 1 + k2);
        assert(chain_of::<T>(c1)[0] == chain_of::<T>(c2)[0]);
    }
}

/// A coherent value's chain never repeats a member.
pub proof fn lemma_chain_no_dup<T: Ancestry>(x: T::V, i: int, j: int)
    requires
        parent_linked::<T>(x),
        0 <= i < j < chain_of::<T>(x).len(),
    ensures
        chain_of::<T>(x)[i] != chain_of::<T>(x)[j],
{
    if chain_of::<T>(x)[i] == chain_of::<T>(x)[j] {
        let z = chain_of::<T>(x)[i];
        lemma_chain_index_suffix::<T>(x, i);
        T::lemma_ancestors_strict(z);
        assert(chain_of::<T>(x).skip(i)[j - i] == z);
        assert(chain_of::<T>(z)[j - i] == z);
        assert(T::ancestors_of(z)[j - i - 1] == z);
    }
}

/// The position of the first member of `cands` that occurs in `others`,
/// once any member does.
proof fn lemma_first_hit_index<V>(cands: Seq<V>, others: Seq<V>) -> (i: int)
    requires
        exists|k: int| 0 <= k < cands.len() && others.contains(#[trigger] cands[k]),
    ensures
        0 <= i < cands.len(),
        others.contains(cands[i]),
        forall|j: int| 0 <= j < i ==> !others.contains(cands[j]),
    decreases cands.len(),
{
    if others.contains(cands[0]) {
        0
    } else {
        let k0 = choose|k: int| 0 <= k < cands.len() && others.contains(#[trigger] cands[k]);
        assert(cands.skip(1)[k0 - 1] == cands[k0]);
        let i1 = lemma_first_hit_index(cands.skip(1), others);
        assert(cands.skip(1)[i1] == cands[i1 + 1]);
        assert forall|j: int| 0 <= j < i1 + 1 implies !others.contains(cands[j]) by {
            if j > 0 {
                assert(cands.skip(1)[j - 1] == cands[j]);
            }
        }
        i1 + 1
    }
}

/// The closest-common-ancestor query is symmetric on coherent values:
/// either call order gives the same result.
pub proof fn lemma_cca_symmetric<T: Ancestry>(x: T::V, y: T::V)
    requires
        parent_linked::<T>(x),
        parent_linked::<T>(y),
    ensures
        closest_common_ancestor_view::<T>(x, y) == closest_common_ancestor_view::<T>(y, x),
{
    let xc = chain_of::<T>(x);
    let yc = chain_of::<T>(y);
    if exists|k: int| 0 <= k < xc.len() && yc.contains(#[trigger] xc[k]) {
        let a = lemma_first_hit_index(xc, yc);
        let h = xc[a];
        crate::lemma_first_common_hit(xc, yc, a);
        lemma_chain_index_suffix::<T>(x, a);
        lemma_chain_membership::<T>(y, h);
        let s = lemma_on_chain_suffix::<T>(y, h);
        assert(xc.contains(yc[s]));
        assert forall|idx: int| 0 <= idx < s implies !xc.contains(yc[idx]) by {
            if xc.contains(yc[idx]) {
                let w = yc[idx];
                let t = choose|t: int| 0 <= t < xc.len() && xc[t] == w;
                assert(yc.contains(xc[t]));
                lemma_chain_index_suffix::<T>(y, idx);
                assert(chain_of::<T>(w)[s - idx] == yc[s]);
                lemma_chain_index_suffix::<T>(x, t);
                assert(xc[t + (s - idx)] == h);
                lemma_chain_no_dup::<T>(x, a, t + (s - idx));
            }
        }
        crate::lemma_first_common_hit(yc, xc, s);
    } else {
        assert forall|j: int| 0 <= j < yc.len() implies !xc.contains(yc[j]) by {
            if xc.contains(yc[j]) {
                let t = choose|t: int| 0 <= t < xc.len() && xc[t] == yc[j];
                assert(yc.contains(xc[t]));
            }
        }
        crate::lemma_first_common_miss(xc, yc);
        crate::lemma_first_common_miss(yc, xc);
    }
}

/// Along an edge, the closest common ancestor of parent and child is the
/// parent, in either call order.
pub proof fn lemma_cca_of_child_edge<T: Ancestry>(p: T::V, c: T::V)
    requires
        child_of::<T>(c, p),
    ensures
        closest_common_ancestor_view::<T>(c, p) == Some(p),
        closest_common_ancestor_view::<T>(p, c) == Some(p),
{
    let cc = chain_of::<T>(c);
    let pc = chain_of::<T>(p);
    T::lemma_ancestors_strict(c);
    assert(pc == T::ancestors_of(c));
    assert(cc[0] == c);
    assert(cc[1] == T::ancestors_of(c)[0]);
    assert(cc[1] == p);
    assert(pc[0] == p);
    assert(!pc.contains(cc[0]));
    assert(pc.contains(cc[1]));
    crate::lemma_first_common_hit(cc, pc, 1);
    assert(cc.contains(pc[0]));
    crate::lemma_first_common_hit(pc, cc, 0);
}

/// Across two levels, the closest common ancestor of a grandchild and its
/// grandparent is the grandparent, in either call order.
pub proof fn lemma_cca_two_levels<T: Ancestry>(top: T::V, mid: T::V, bottom: T::V)
    requires
        child_of::<T>(mid, top),
        child_of::<T>(bottom, mid),
    ensures
        closest_common_ancestor_view::<T>(bottom, top) == Some(top),
        closest_common_ancestor_view::<T>(top, bottom) == Some(top),
{
    let bc = chain_of::<T>(bottom);
    let tc = chain_of::<T>(top);
    T::lemma_ancestors_strict(bottom);
    T::lemma_ancestors_strict(mid);
    assert(tc == T::ancestors_of(mid));
    assert(bc[0] == bottom);
    assert(bc[1] == T::ancestors_of(bottom)[0]);
    assert(bc[2] == T::ancestors_of(bottom)[1]);
    assert(T::ancestors_of(bottom)[1] == T::ancestors_of(mid)[0]);
    assert(bc[2] == top);
    assert(tc[0] == top);
    assert(!tc.contains(bc[0])) by {
        if tc.contains(bc[0]) {
            let k = choose|k: int| 0 <= k < tc.len() && tc[k] == bottom;
            assert(T::ancestors_of(mid)[k] == bottom);
            assert(T::ancestors_of(bottom)[k + 1] == bottom);
        }
    }
    assert(!tc.contains(bc[1]));
    assert(tc.contains(bc[2]));
    crate::lemma_first_common_hit(bc, tc, 2);
    assert(bc.contains(tc[0]));
    crate::lemma_first_common_hit(tc, bc, 0);
}

/// When one value descends from the other, their closest common ancestor
/// is the higher of the two, in either call order.
pub proof fn lemma_cca_of_related<T: Ancestry>(x: T::V, y: T::V)
    requires
        parent_linked::<T>(x),
        is_descendant_view::<T>(x, y),
    ensures
        closest_common_ancestor_view::<T>(x, y) == Some(y),
        closest_common_ancestor_view::<T>(y, x) == Some(y),
{
    let xc = chain_of::<T>(x);
    let yc = chain_of::<T>(y);
    let j = choose|j: int| 0 <= j < T::ancestors_of(x).len() && T::ancestors_of(x)[j] == y;
    assert(xc[j + 1] == y);
    lemma_chain_index_suffix::<T>(x, j + 1);
    assert(yc[0] == y);
    assert(xc.contains(yc[0]));
    crate::lemma_first_common_hit(yc, xc, 0);
    assert(yc.contains(xc[j + 1]));
    assert forall|idx: int| 0 <= idx < j + 1 implies !yc.contains(xc[idx]) by {
        if yc.contains(xc[idx]) {
            let z = xc[idx];
            lemma_chain_index_suffix::<T>(x, idx);
            let s = lemma_on_chain_suffix::<T>(y, z);
            assert(chain_of::<T>(z).len() == xc.len() - idx);
            assert(chain_of::<T>(z).len() == yc.len() - s);
            assert(yc.len() == xc.len() - (j + 1));
        }
    }
    crate::lemma_first_common_hit(xc, yc, j + 1);
}

/// For two members of disjoint subtrees, the closest common ancestor is
/// the parent those subtrees hang from, in either call order.
pub proof fn lemma_cca_in_separate_subtrees<T: Ancestry>(
    p: T::V,
    c1: T::V,
    c2: T::V,
    x: T::V,
    y: T::V,
)
    requires
        child_of::<T>(c1, p),
        child_of::<T>(c2, p),
        c1 != c2,
        in_subtree::<T>(x, c1),
        in_subtree::<T>(y, c2),
        parent_linked::<T>(x),
        parent_linked::<T>(y),
    ensures
        closest_common_ancestor_view::<T>(x, y) == Some(p),
        closest_common_ancestor_view::<T>(y, x) == Some(p),
{
    lemma_cca_separate_one_way::<T>(p, c1, c2, x, y);
    lemma_cca_separate_one_way::<T>(p, c2, c1, y, x);
}

proof fn lemma_cca_separate_one_way<T: Ancestry>(p: T::V, c1: T::V, c2: T::V, x: T::V, y: T::V)
    requires
        child_of::<T>(c1, p),
        child_of::<T>(c2, p),
        c1 != c2,
        in_subtree::<T>(x, c1),
        in_subtree::<T>(y, c2),
        parent_linked::<T>(x),
        parent_linked::<T>(y),
    ensures
        closest_common_ancestor_view::<T>(x, y) == Some(p),
{
    let xc = chain_of::<T>(x);
    let yc = chain_of::<T>(y);
    lemma_chain_membership::<T>(x, c1);
    let k1 = lemma_on_chain_suffix::<T>(x, c1);
    lemma_chain_membership::<T>(y, c2);
    let k2 = lemma_on_chain_suffix::<T>(y, c2);
    assert(chain_of::<T>(c1)[1] == T::ancestors_of(c1)[0]);
    assert(chain_of::<T>(c1)[1] == p);
    assert(chain_of::<T>(c2)[1] == T::ancestors_of(c2)[0]);
    assert(chain_of::<T>(c2)[1] == p);
    assert(chain_of::<T>(c1).len() == 2 + T::ancestors_of(p).len());
    assert(chain_of::<T>(c2).len() == 2 + T::ancestors_of(p).len());
    assert(xc[k1 + 1] == chain_of::<T>(c1)[1]);
    assert(yc[k2 + 1] == chain_of::<T>(c2)[1]);
    assert(yc.contains(xc[k1 + 1]));
    assert forall|idx: int| 0 <= idx < k1 + 1 implies !yc.contains(xc[idx]) by {
        if yc.contains(xc[idx]) {
            let z = xc[idx];
            lemma_chain_index_suffix::<T>(x, idx);
            let s = lemma_on_chain_suffix::<T>(y, z);
            assert(chain_of::<T>(c1) =~= chain_of::<T>(z).skip(k1 - idx)) by {
                assert(chain_of::<T>(z).skip(k1 - idx) =~= xc.skip(idx).skip(k1 - idx));
                assert(xc.skip(idx).skip(k1 - idx) =~= xc.skip(k1));
            }
            assert(chain_of::<T>(c1) =~= yc.skip(s + (k1 - idx))) by {
                assert(chain_of::<T>(z).skip(k1 - idx) =~= yc.skip(s).skip(k1 - idx));
                assert(yc.skip(s).skip(k1 - idx) =~= yc.skip(s + (k1 - idx)));
            }
            assert(chain_of::<T>(c2) == yc.skip(k2));
            assert(s + (k1 - idx) == k2);
            assert(chain_of::<T>(c1)[0] == chain_of::<T>(c2)[0]);
        }
    }
    crate::lemma_first_common_hit(xc, yc, k1 + 1);
}

} // verus!
