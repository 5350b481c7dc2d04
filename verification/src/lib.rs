//! A generic relationship abstraction over hierarchical values: any type
//! whose values can list their strict ancestors, nearest first, gains
//! descendant/ancestor predicates and a closest-common-ancestor query,
//! all derived from that single primitive.

use vstd::prelude::*;

pub mod path;
pub mod tree;

verus! {

/// The views of the elements of a sequence, in order.
pub open spec fn views_of<T: View>(s: Seq<T>) -> Seq<T::V> {
    s.map_values(|x: T| x@)
}

/// The first member of `cands` that occurs in `others`, scanning front to
/// back; `None` when no member does.
pub open spec fn first_common<V>(cands: Seq<V>, others: Seq<V>) -> Option<V>
    decreases cands.len(),
{
    if cands.len() == 0 {
        None
    } else if others.contains(cands[0]) {
        Some(cands[0])
    } else {
        first_common(cands.skip(1), others)
    }
}

/// A scan that misses everything before position `i` and hits at `i`
/// returns the member at `i`.
pub proof fn lemma_first_common_hit<V>(cands: Seq<V>, others: Seq<V>, i: int)
    requires
        0 <= i < cands.len(),
        others.contains(cands[i]),
        forall|j: int| 0 <= j < i ==> !others.contains(cands[j]),
    ensures
        first_common(cands, others) == Some(cands[i]),
    decreases i,
{
    if i > 0 {
        assert(cands.skip(1)[i - 1] == cands[i]);
        assert(forall|j: int| 0 <= j < i - 1 ==> !others.contains(#[trigger] cands.skip(1)[j]));
        lemma_first_common_hit(cands.skip(1), others, i - 1);
    }
}

/// A scan that misses everywhere returns nothing.
pub proof fn lemma_first_common_miss<V>(cands: Seq<V>, others: Seq<V>)
    requires
        forall|j: int| 0 <= j < cands.len() ==> !others.contains(cands[j]),
    ensures
        first_common(cands, others) is None,
    decreases cands.len(),
{
    if cands.len() > 0 {
        assert(forall|j: int|
            0 <= j < cands.len() - 1 ==> !others.contains(#[trigger] cands.skip(1)[j]));
        lemma_first_common_miss(cands.skip(1), others);
    }
}

/// A capability for tree-shaped hierarchies. A type joins by describing the
/// strict ancestors of each of its values (nearest first, root last, the
/// value itself excluded) and by producing that sequence at run time.
/// The descendant, ancestor and closest-common-ancestor queries are then
/// derived generically from that single primitive.
pub trait Ancestry: View + Sized {
    /// The views of the strict ancestors of a value with view `v`,
    /// nearest first, ending at the root.
    spec fn ancestors_of(v: Self::V) -> Seq<Self::V>;

    /// Ancestry is strict: no value occurs in its own ancestor sequence.
    proof fn lemma_ancestors_strict(v: Self::V)
        ensures
            !Self::ancestors_of(v).contains(v),
    ;

    /// The strict ancestors of `self`, nearest first.
    fn ancestors(&self) -> (r: Vec<Self>)
        ensures
            views_of(r@) == Self::ancestors_of(self@),
    ;

    /// Decides whether two values coincide (their views are equal).
    fn eq_value(&self, other: &Self) -> (r: bool)
        ensures
            r == (self@ == other@),
    ;

    /// An owned copy of `self` with the same view.
    fn duplicate(&self) -> (r: Self)
        ensures
            r@ == self@,
    ;

    /// True exactly when `other` occurs among the strict ancestors of
    /// `self`; in particular a value is never a descendant of itself.
    fn is_descendant_of(&self, other: &Self) -> (r: bool)
        ensures
            r == Self::ancestors_of(self@).contains(other@),
    {
        let anc = self.ancestors();
        let mut i: usize = 0;
        while i < anc.len()
            invariant
                i <= anc.len(),
                views_of(anc@) == Self::ancestors_of(self@),
                forall|j: int| 0 <= j < i ==> Self::ancestors_of(self@)[j] != other@,
            decreases anc.len() - i,
        {
            assert(anc@[i as int]@ == Self::ancestors_of(self@)[i as int]);
            if anc[i].eq_value(other) {
                return true;
            }
            i += 1;
        }
        false
    }

    /// The mirror of `is_descendant_of`: true exactly when `self` occurs
    /// among the strict ancestors of `other`.
    fn is_ancestor_of(&self, other: &Self) -> (r: bool)
        ensures
            r == Self::ancestors_of(other@).contains(self@),
    {
        other.is_descendant_of(self)
    }

    /// The nearest member of `self`'s chain (`self` first, then its strict
    /// ancestors) that also lies on `other`'s chain, or `None` when the two
    /// chains share nothing.
    fn closest_common_ancestor(&self, other: &Self) -> (r: Option<Self>)
        ensures
            ({
                let sc = seq![self@] + Self::ancestors_of(self@);
                let oc = seq![other@] + Self::ancestors_of(other@);
                match r {
                    Option::Some(c) => first_common(sc, oc) == Some(c@),
                    Option::None => first_common(sc, oc) is None,
                }
            }),
    {
        let ghost sc = seq![self@] + Self::ancestors_of(self@);
        let ghost oc = seq![other@] + Self::ancestors_of(other@);
        if self.eq_value(other) || self.is_ancestor_of(other) {
            assert(oc.contains(sc[0])) by {
                if self@ == other@ {
                    assert(oc[0] == sc[0]);
                } else {
                    let k = choose|k: int|
                        0 <= k < Self::ancestors_of(other@).len()
                            && Self::ancestors_of(other@)[k] == self@;
                    assert(oc[k + 1] == sc[0]);
                }
            }
            proof {
                lemma_first_common_hit(sc, oc, 0);
            }
            return Some(self.duplicate());
        }
        assert(!oc.contains(sc[0])) by {
            if oc.contains(sc[0]) {
                let k = choose|k: int| 0 <= k < oc.len() && oc[k] == sc[0];
                if k > 0 {
                    assert(Self::ancestors_of(other@)[k - 1] == self@);
                }
            }
        }
        let mut anc = self.ancestors();
        let mut i: usize = 0;
        while i < anc.len()
            invariant
                i <= anc.len(),
                views_of(anc@) == Self::ancestors_of(self@),
                sc == seq![self@] + Self::ancestors_of(self@),
                oc == seq![other@] + Self::ancestors_of(other@),
                forall|j: int| 0 <= j < i + 1 ==> !oc.contains(sc[j]),
            decreases anc.len() - i,
        {
            assert(anc@[i as int]@ == Self::ancestors_of(self@)[i as int]);
            assert(sc[i + 1] == Self::ancestors_of(self@)[i as int]);
            let hit = anc[i].eq_value(other) || anc[i].is_ancestor_of(other);
            if hit {
                let c = anc.remove(i);
                assert(oc.contains(sc[i + 1])) by {
                    if c@ == other@ {
                        assert(oc[0] == sc[i + 1]);
                    } else {
                        let k = choose|k: int|
                            0 <= k < Self::ancestors_of(other@).len()
                                && Self::ancestors_of(other@)[k] == c@;
                        assert(oc[k + 1] == sc[i + 1]);
                    }
                }
                proof {
                    lemma_first_common_hit(sc, oc, i + 1);
                }
                return Some(c);
            }
            assert(!oc.contains(sc[i + 1])) by {
                if oc.contains(sc[i + 1]) {
                    let k = choose|k: int| 0 <= k < oc.len() && oc[k] == sc[i + 1];
                    if k > 0 {
                        assert(Self::ancestors_of(other@)[k - 1] == anc@[i as int]@);
                    }
                }
            }
            i += 1;
        }
        proof {
            assert(forall|j: int| 0 <= j < sc.len() ==> !oc.contains(sc[j]));
            lemma_first_common_miss(sc, oc);
        }
        None
    }
}

} // verus!
