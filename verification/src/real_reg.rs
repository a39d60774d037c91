//! What each real register is committed to.

use crate::frags::{frags_clear, frags_sorted, RangeFrag, SortedRangeFragIxs};
use crate::index::{RangeFragIx, TypedIx, TypedIxVec, VirtualRangeIx};
use crate::prio_queue::swap_removed;
use crate::ranges::{cost_is_less, cost_less, vlr_views, RealRange, VirtualRange, VlrView};
use vstd::prelude::*;

verus! {

/// The state of a real register.
pub struct PerRealReg {
    /// The fragments that the register is committed to.
    pub frags_in_use: SortedRangeFragIxs,
    /// The virtual ranges that are assigned to the register, in no particular order. Their
    /// fragments are those of `frags_in_use` that do not belong to real ranges.
    pub vlrixs_assigned: Vec<VirtualRangeIx>,
}

/// A `PerRealReg` as a mathematical value.
#[verifier::ext_equal]
pub struct RegView {
    pub frags: Set<RangeFragIx>,
    pub assigned: Seq<VirtualRangeIx>,
}

impl View for PerRealReg {
    type V = RegView;

    open spec fn view(&self) -> RegView {
        RegView { frags: self.frags_in_use@.to_set(), assigned: self.vlrixs_assigned@ }
    }
}

/// Position `i` is the first at which `s` holds `x`.
pub open spec fn is_first_of<T>(s: Seq<T>, x: T, i: int) -> bool {
    &&& 0 <= i < s.len()
    &&& s[i] == x
    &&& forall|j: int| 0 <= j < i ==> #[trigger] s[j] != x
}

/// `s` without its first `x`, whose place the last entry takes.
pub open spec fn first_removed<T>(s: Seq<T>, x: T) -> Seq<T> {
    swap_removed(s, choose|i: int| is_first_of(s, x, i))
}

impl RegView {
    /// The register can hold the range besides all that it is committed to.
    pub open spec fn fits(self, vlr: VlrView, fenv: Seq<RangeFrag>) -> bool {
        frags_clear(fenv, self.frags, vlr.frags)
    }

    /// The register with one more range.
    pub open spec fn with_vlr(self, vlrix: VirtualRangeIx, vlr: VlrView) -> RegView {
        RegView {
            frags: self.frags.union(vlr.frags.to_set()),
            assigned: self.assigned.push(vlrix),
        }
    }

    /// The register without one of its ranges.
    pub open spec fn without_vlr(self, vlrix: VirtualRangeIx, vlr: VlrView) -> RegView {
        RegView {
            frags: self.frags.difference(vlr.frags.to_set()),
            assigned: first_removed(self.assigned, vlrix),
        }
    }

    /// The range at position `j` of `assigned` can make way for `want`: its spill cost is finite
    /// and below that of `want`, and without it the register has room for `want`.
    pub open spec fn evictable(
        self,
        want: VlrView,
        vlrs: Seq<VlrView>,
        fenv: Seq<RangeFrag>,
        j: int,
    ) -> bool {
        &&& 0 <= j < self.assigned.len()
        &&& {
            let cand = vlrs[self.assigned[j].pos()];
            &&& cand.cost is Some
            &&& cost_less(cand.cost, want.cost)
            &&& frags_clear(fenv, self.frags.difference(cand.frags.to_set()), want.frags)
        }
    }

    /// The spill cost of the range at position `j` of `assigned`.
    pub open spec fn cost_at(self, vlrs: Seq<VlrView>, j: int) -> u32 {
        vlrs[self.assigned[j].pos()].cost->0
    }

    /// Of the ranges that can make way for `want`, the one at position `j` is the cheapest, and
    /// the last of the cheapest ones.
    pub open spec fn is_best_evict(
        self,
        want: VlrView,
        vlrs: Seq<VlrView>,
        fenv: Seq<RangeFrag>,
        j: int,
    ) -> bool {
        &&& self.evictable(want, vlrs, fenv, j)
        &&& forall|j2: int| #[trigger]
            self.evictable(want, vlrs, fenv, j2) ==> {
                &&& self.cost_at(vlrs, j) <= self.cost_at(vlrs, j2)
                &&& j < j2 ==> self.cost_at(vlrs, j) < self.cost_at(vlrs, j2)
            }
    }

    /// The position in `assigned` of the range that should make way for `want`, if any can.
    pub open spec fn best_evict(
        self,
        want: VlrView,
        vlrs: Seq<VlrView>,
        fenv: Seq<RangeFrag>,
    ) -> Option<int> {
        if exists|j: int| self.is_best_evict(want, vlrs, fenv, j) {
            Some(choose|j: int| self.is_best_evict(want, vlrs, fenv, j))
        } else {
            None
        }
    }

    /// The best range to evict is determined by the register.
    pub proof fn lemma_best_evict_unique(
        self,
        want: VlrView,
        vlrs: Seq<VlrView>,
        fenv: Seq<RangeFrag>,
        j: int,
    )
        requires
            self.is_best_evict(want, vlrs, fenv, j),
        ensures
            self.best_evict(want, vlrs, fenv) == Some(j),
    {
        let c = choose|c: int| self.is_best_evict(want, vlrs, fenv, c);
        assert(self.is_best_evict(want, vlrs, fenv, c));
        assert(self.evictable(want, vlrs, fenv, c));
        assert(self.evictable(want, vlrs, fenv, j));
    }
}

/// The first position of a value is determined by the sequence.
pub proof fn lemma_first_removed<T>(s: Seq<T>, x: T, i: int)
    requires
        is_first_of(s, x, i),
    ensures
        first_removed(s, x) == swap_removed(s, i),
{
    let c = choose|c: int| is_first_of(s, x, c);
    assert(is_first_of(s, x, c));
    if c < i {
        assert(s[c] != x);
    } else if i < c {
        assert(s[i] != x);
    }
}

impl PerRealReg {
    /// The fragments in use are in order and share no point.
    pub open spec fn wf(&self, fenv: Seq<RangeFrag>) -> bool {
        self.frags_in_use.wf(fenv)
    }

    /// The assigned ranges are in the environment, and the register is committed to all of their
    /// fragments.
    pub open spec fn holds_assigned(&self, vlrs: Seq<VlrView>, fenv: Seq<RangeFrag>) -> bool {
        forall|j: int|
            0 <= j < self@.assigned.len() ==> {
                &&& (#[trigger] self@.assigned[j]).pos() < vlrs.len()
                &&& frags_sorted(fenv, vlrs[self@.assigned[j].pos()].frags)
                &&& vlrs[self@.assigned[j].pos()].frags.to_set().subset_of(self@.frags)
            }
    }

    /// A register that is committed to nothing.
    pub fn new(fenv: &TypedIxVec<RangeFragIx, RangeFrag>) -> (r: Self)
        ensures
            r@ == (RegView { frags: Set::empty(), assigned: Seq::empty() }),
            r.wf(fenv@),
    {
        let r = PerRealReg {
            frags_in_use: SortedRangeFragIxs::empty(),
            vlrixs_assigned: Vec::new(),
        };
        assert(r@.frags =~= Set::empty());
        r
    }

    /// Commits the register to a real range, for good: the range is never evicted.
    pub fn add_RealRange(&mut self, to_add: &RealRange, fenv: &TypedIxVec<RangeFragIx, RangeFrag>)
        requires
            old(self).wf(fenv@),
            to_add.sortedFrags.wf(fenv@),
            frags_clear(fenv@, old(self)@.frags, to_add@.frags),
        ensures
            final(self).wf(fenv@),
            final(self)@ == (RegView {
                frags: old(self)@.frags.union(to_add@.frags.to_set()),
                assigned: old(self)@.assigned,
            }),
    {
        self.frags_in_use.add(&to_add.sortedFrags, fenv);
    }

    /// Whether there is room for the range as things are.
    pub fn can_add_VirtualRange_without_eviction(
        &self,
        to_add: &VirtualRange,
        fenv: &TypedIxVec<RangeFragIx, RangeFrag>,
    ) -> (r: bool)
        requires
            self.wf(fenv@),
            to_add.sortedFrags.wf(fenv@),
        ensures
            r == self@.fits(to_add@, fenv@),
    {
        self.frags_in_use.can_add(&to_add.sortedFrags, fenv)
    }

    /// Assigns a range to the register.
    pub fn add_VirtualRange(
        &mut self,
        to_add_vlrix: VirtualRangeIx,
        vlr_env: &TypedIxVec<VirtualRangeIx, VirtualRange>,
        fenv: &TypedIxVec<RangeFragIx, RangeFrag>,
    )
        requires
            old(self).wf(fenv@),
            to_add_vlrix.pos() < vlr_env@.len(),
            vlr_env@[to_add_vlrix.pos()].sortedFrags.wf(fenv@),
            old(self)@.fits(vlr_env@[to_add_vlrix.pos()]@, fenv@),
        ensures
            final(self).wf(fenv@),
            final(self)@ == old(self)@.with_vlr(to_add_vlrix, vlr_env@[to_add_vlrix.pos()]@),
    {
        let vlr = vlr_env.at(to_add_vlrix);
        self.frags_in_use.add(&vlr.sortedFrags, fenv);
        self.vlrixs_assigned.push(to_add_vlrix);
    }

    /// Takes back the assignment of a range, which must be assigned to the register.
    pub fn del_VirtualRange(
        &mut self,
        to_del_vlrix: VirtualRangeIx,
        vlr_env: &TypedIxVec<VirtualRangeIx, VirtualRange>,
        fenv: &TypedIxVec<RangeFragIx, RangeFrag>,
    )
        requires
            old(self).wf(fenv@),
            to_del_vlrix.pos() < vlr_env@.len(),
            vlr_env@[to_del_vlrix.pos()].sortedFrags.wf(fenv@),
            old(self)@.assigned.contains(to_del_vlrix),
            vlr_env@[to_del_vlrix.pos()]@.frags.to_set().subset_of(old(self)@.frags),
        ensures
            final(self).wf(fenv@),
            final(self)@ == old(self)@.without_vlr(to_del_vlrix, vlr_env@[to_del_vlrix.pos()]@),
    {
        let mut i: usize = 0;
        while self.vlrixs_assigned[i] != to_del_vlrix
            invariant
                self == old(self),
                i < self@.assigned.len(),
                self@.assigned.contains(to_del_vlrix),
                forall|j: int| 0 <= j < i ==> #[trigger] self@.assigned[j] != to_del_vlrix,
            decreases self@.assigned.len() - i,
        {
            proof {
                let k = choose|k: int|
                    0 <= k < self@.assigned.len() && self@.assigned[k] == to_del_vlrix;
                assert(i < k < self.vlrixs_assigned.len());
            }
            i += 1;
        }
        let ghost before = self.vlrixs_assigned@;
        let _ = self.vlrixs_assigned.swap_remove(i);
        proof {
            assert(is_first_of(before, to_del_vlrix, i as int));
            lemma_first_removed(before, to_del_vlrix, i as int);
            assert(self.vlrixs_assigned@ =~= swap_removed(before, i as int));
        }
        let vlr = vlr_env.at(to_del_vlrix);
        self.frags_in_use.del(&vlr.sortedFrags, fenv);
    }

    /// The assigned range whose eviction would make room for `would_like_to_add` at the least
    /// cost, with that cost. Ranges with an infinite spill cost are never evicted, and neither are
    /// those that cost as much as `would_like_to_add` itself.
    pub fn find_best_evict_VirtualRange(
        &self,
        would_like_to_add: &VirtualRange,
        vlr_env: &TypedIxVec<VirtualRangeIx, VirtualRange>,
        frag_env: &TypedIxVec<RangeFragIx, RangeFrag>,
    ) -> (r: Option<(VirtualRangeIx, u32)>)
        requires
            self.wf(frag_env@),
            would_like_to_add.sortedFrags.wf(frag_env@),
            self.holds_assigned(vlr_views(vlr_env@), frag_env@),
        ensures
            ({
                let vlrs = vlr_views(vlr_env@);
                match self@.best_evict(would_like_to_add@, vlrs, frag_env@) {
                    Some(j) => {
                        &&& self@.is_best_evict(would_like_to_add@, vlrs, frag_env@, j)
                        &&& r == Some((self@.assigned[j], self@.cost_at(vlrs, j)))
                    },
                    None => {
                        &&& r is None
                        &&& forall|j: int|
                            !self@.evictable(would_like_to_add@, vlrs, frag_env@, j)
                    },
                }
            }),
    {
        let ghost vlrs = vlr_views(vlr_env@);
        let ghost want = would_like_to_add@;
        let ghost mut best_j: int = -1;
        let mut best_so_far: Option<(VirtualRangeIx, u32)> = None;
        let mut i: usize = 0;
        while i < self.vlrixs_assigned.len()
            invariant
                i <= self@.assigned.len(),
                vlrs == vlr_views(vlr_env@),
                want == would_like_to_add@,
                self.wf(frag_env@),
                would_like_to_add.sortedFrags.wf(frag_env@),
                self.holds_assigned(vlrs, frag_env@),
                best_so_far is None ==> forall|j: int|
                    j < i ==> !#[trigger] self@.evictable(want, vlrs, frag_env@, j),
                best_so_far is Some ==> {
                    &&& 0 <= best_j < i
                    &&& self@.evictable(want, vlrs, frag_env@, best_j)
                    &&& best_so_far == Some(
                        (self@.assigned[best_j], self@.cost_at(vlrs, best_j)),
                    )
                    &&& forall|j: int|
                        j < i && #[trigger] self@.evictable(want, vlrs, frag_env@, j) ==> {
                            &&& self@.cost_at(vlrs, best_j) <= self@.cost_at(vlrs, j)
                            &&& best_j < j ==> self@.cost_at(vlrs, best_j) < self@.cost_at(
                                vlrs,
                                j,
                            )
                        }
                },
            decreases self@.assigned.len() - i,
        {
            let cand_vlrix = self.vlrixs_assigned[i];
            assert(self@.assigned[i as int] == cand_vlrix);
            let cand_vlr = vlr_env.at(cand_vlrix);
            assert(vlrs[cand_vlrix.pos()] == cand_vlr@);
            if let Some(cand_cost) = cand_vlr.spillCost {
                if cost_is_less(Some(cand_cost), would_like_to_add.spillCost)
                    && self.frags_in_use.can_add_if_we_first_del(
                    &cand_vlr.sortedFrags,
                    &would_like_to_add.sortedFrags,
                    frag_env,
                ) {
                    assert(self@.evictable(want, vlrs, frag_env@, i as int));
                    let cand_is_better = match best_so_far {
                        Some((_, best_cost)) => !cost_is_less(Some(best_cost), Some(cand_cost)),
                        None => true,
                    };
                    if cand_is_better {
                        best_so_far = Some((cand_vlrix, cand_cost));
                        proof {
                            best_j = i as int;
                        }
                    }
                }
            }
            i += 1;
        }
        proof {
            if best_so_far is Some {
                assert(self@.is_best_evict(want, vlrs, frag_env@, best_j)) by {
                    assert forall|j2: int| #[trigger]
                        self@.evictable(want, vlrs, frag_env@, j2) implies {
                        &&& self@.cost_at(vlrs, best_j) <= self@.cost_at(vlrs, j2)
                        &&& best_j < j2 ==> self@.cost_at(vlrs, best_j) < self@.cost_at(vlrs, j2)
                    } by {
                        assert(j2 < i);
                    }
                }
                self@.lemma_best_evict_unique(want, vlrs, frag_env@, best_j);
            } else {
                assert forall|j: int| !self@.evictable(want, vlrs, frag_env@, j) by {
                    if self@.evictable(want, vlrs, frag_env@, j) {
                        assert(j < i);
                    }
                }
            }
        }
        best_so_far
    }
}

} // verus!
