//! The concrete binding of the `Ancestry` capability to a
//! filesystem-path-like type: an absolute path stored as its name segments
//! below a common root. Walking upward drops one segment at a time until
//! the root — the empty sequence of segments — is reached.

use vstd::prelude::*;

use crate::Ancestry;
use crate::views_of;
use crate::tree::child_of;
use crate::tree::parent_linked;

verus! {

/// An absolute path in a tree of named nodes: its segments from the root
/// downward. The root itself is the empty sequence of segments.
#[derive(Debug, PartialEq, Eq, Clone)]
pub struct TreePath {
    segments: Vec<String>,
}

impl View for TreePath {
    type V = Seq<Seq<char>>;

    closed spec fn view(&self) -> Seq<Seq<char>> {
        self.segments.deep_view()
    }
}

impl TreePath {
    /// A path from its segments, the root's end first.
    pub fn new(segments: Vec<String>) -> (r: TreePath)
        ensures
            r@ == segments.deep_view(),
    {
        TreePath { segments }
    }

    /// The root path, which has no segments and no ancestors.
    pub fn root() -> (r: TreePath)
        ensures
            r@ == Seq::<Seq<char>>::empty(),
    {
        let segments: Vec<String> = Vec::new();
        let r = TreePath { segments };
        proof {
            assert(r@ =~= Seq::<Seq<char>>::empty());
        }
        r
    }

    /// The path one named step further down from `self`.
    pub fn child(&self, segment: String) -> (r: TreePath)
        ensures
            r@ == self@.push(segment@),
    {
        let mut r = self.duplicate();
        r.segments.push(segment);
        proof {
            assert(r@ =~= self@.push(segment@));
        }
        r
    }
}

impl Ancestry for TreePath {
    /// The ancestors of a path are its proper prefixes, longest (nearest)
    /// first, down to the empty prefix, the root.
    open spec fn ancestors_of(v: Seq<Seq<char>>) -> Seq<Seq<Seq<char>>> {
        Seq::new(v.len(), |i: int| v.take(v.len() - 1 - i))
    }

    proof fn lemma_ancestors_strict(v: Seq<Seq<char>>) {
        if Self::ancestors_of(v).contains(v) {
            let i = choose|i: int|
                0 <= i < Self::ancestors_of(v).len() && Self::ancestors_of(v)[i] == v;
            assert(v.take(v.len() - 1 - i).len() == v.len() - 1 - i);
        }
    }

    fn ancestors(&self) -> (r: Vec<TreePath>) {
        let n = self.segments.len();
        let mut r: Vec<TreePath> = Vec::new();
        let mut k = n;
        while k > 0
            invariant
                k <= n,
                n == self.segments.len(),
                views_of(r@) == Self::ancestors_of(self@).take(n - k),
            decreases k,
        {
            k -= 1;
            let mut seg: Vec<String> = Vec::new();
            let mut j: usize = 0;
            while j < k
                invariant
                    j <= k,
                    k < n,
                    n == self.segments.len(),
                    seg.deep_view() == self@.take(j as int),
                decreases k - j,
            {
                proof {
                    assert(self@ == self.segments.deep_view());
                    assert(self@.len() == self.segments@.len());
                    assert(seg.deep_view().len() == seg@.len());
                    assert(seg@.len() == j as int);
                }
                seg.push(self.segments[j].clone());
                proof {
                    assert(seg.deep_view() =~= self@.take(j + 1));
                }
                j += 1;
            }
            let p = TreePath { segments: seg };
            proof {
                assert(p@ == Self::ancestors_of(self@)[n - 1 - k]);
            }
            let ghost r0 = r@;
            r.push(p);
            proof {
                assert(views_of(r0).len() == r0.len());
                assert(r@.len() == n - k);
                assert forall|m: int| 0 <= m < n - k implies views_of(r@)[m]
                    == Self::ancestors_of(self@).take(n - k)[m] by {
                    assert(views_of(r@)[m] == r@[m]@);
                    if m < n - k - 1 {
                        assert(r@[m] == r0[m]);
                        assert(views_of(r0)[m] == r0[m]@);
                    } else {
                        assert(r@[m] == p);
                    }
                }
                assert(views_of(r@) =~= Self::ancestors_of(self@).take(n - k));
            }
        }
        proof {
            assert(views_of(r@) =~= Self::ancestors_of(self@));
        }
        r
    }

    fn eq_value(&self, other: &TreePath) -> (r: bool) {
        let n = self.segments.len();
        if n != other.segments.len() {
            proof {
                assert(self@.len() == self.segments@.len());
                assert(other@.len() == other.segments@.len());
            }
            return false;
        }
        let mut i: usize = 0;
        while i < n
            invariant
                i <= n,
                n == self.segments.len(),
                n == other.segments.len(),
                forall|j: int| 0 <= j < i ==> self@[j] == other@[j],
            decreases n - i,
        {
            if !(self.segments[i] == other.segments[i]) {
                assert(self@[i as int] != other@[i as int]);
                return false;
            }
            i += 1;
        }
        proof {
            assert(self@ =~= other@);
        }
        true
    }

    fn duplicate(&self) -> (r: TreePath) {
        let n = self.segments.len();
        let mut seg: Vec<String> = Vec::new();
        let mut i: usize = 0;
        while i < n
            invariant
                i <= n,
                n == self.segments.len(),
                seg.deep_view() == self@.take(i as int),
            decreases n - i,
        {
            proof {
                assert(self@.len() == self.segments@.len());
                assert(seg.deep_view().len() == seg@.len());
                assert(seg@.len() == i as int);
            }
            seg.push(self.segments[i].clone());
            proof {
                assert(seg.deep_view() =~= self@.take(i + 1));
            }
            i += 1;
        }
        let r = TreePath { segments: seg };
        proof {
            assert(r@ =~= self@);
        }
        r
    }
}

/// Every path's ancestor walk is coherent: each prefix sees exactly the
/// shorter prefixes as its own ancestors.
pub proof fn lemma_tree_path_parent_linked(v: Seq<Seq<char>>)
    ensures
        parent_linked::<TreePath>(v),
{
    assert forall|i: int| 0 <= i < TreePath::ancestors_of(v).len() implies TreePath::ancestors_of(
        #[trigger] TreePath::ancestors_of(v)[i],
    ) == TreePath::ancestors_of(v).skip(i + 1) by {
        let w = v.take(v.len() - 1 - i);
        assert(TreePath::ancestors_of(v)[i] == w);
        assert(TreePath::ancestors_of(w) =~= TreePath::ancestors_of(v).skip(i + 1)) by {
            assert forall|m: int| 0 <= m < w.len() implies TreePath::ancestors_of(w)[m]
                == TreePath::ancestors_of(v).skip(i + 1)[m] by {
                assert(w.take(w.len() - 1 - m) =~= v.take(v.len() - 2 - i - m));
            }
        }
    }
}

/// A path extended by one segment hangs directly under the original path.
pub proof fn lemma_tree_path_child(v: Seq<Seq<char>>, s: Seq<char>)
    ensures
        child_of::<TreePath>(v.push(s), v),
{
    let c = v.push(s);
    assert(TreePath::ancestors_of(c) =~= seq![v] + TreePath::ancestors_of(v)) by {
        assert forall|i: int| 0 <= i < c.len() implies TreePath::ancestors_of(c)[i] == (seq![v]
            + TreePath::ancestors_of(v))[i] by {
            if i == 0 {
                assert(c.take(c.len() - 1) =~= v);
            } else {
                assert(c.take(c.len() - 1 - i) =~= v.take(v.len() - i));
            }
        }
    }
}

} // verus!
