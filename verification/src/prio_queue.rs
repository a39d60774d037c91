//! The virtual ranges that are still to be allocated.

use crate::index::{TypedIx, TypedIxVec, VirtualRangeIx};
use crate::ranges::{vlr_views, VirtualRange, VlrView};
use vstd::prelude::*;

verus! {

/// `s` without its entry `i`, whose place the last entry takes.
pub open spec fn swap_removed<T>(s: Seq<T>, i: int) -> Seq<T> {
    s.update(i, s.last()).drop_last()
}

/// Entry `i` of the queue names a range of the largest size, and none before it does.
pub open spec fn is_longest(queue: Seq<VirtualRangeIx>, vlrs: Seq<VlrView>, i: int) -> bool {
    &&& 0 <= i < queue.len()
    &&& forall|j: int|
        0 <= j < queue.len() ==> vlrs[(#[trigger] queue[j]).pos()].size <= vlrs[queue[i].pos()].size
    &&& forall|j: int|
        0 <= j < i ==> vlrs[(#[trigger] queue[j]).pos()].size < vlrs[queue[i].pos()].size
}

/// The first entry of the queue that names a range of the largest size.
pub open spec fn longest_at(queue: Seq<VirtualRangeIx>, vlrs: Seq<VlrView>) -> int {
    choose|i: int| is_longest(queue, vlrs, i)
}

/// The longest entry is determined by the queue.
pub proof fn lemma_longest_unique(
    queue: Seq<VirtualRangeIx>,
    vlrs: Seq<VlrView>,
    i: int,
)
    requires
        is_longest(queue, vlrs, i),
    ensures
        longest_at(queue, vlrs) == i,
{
    let c = longest_at(queue, vlrs);
    assert(is_longest(queue, vlrs, c));
    if c < i {
        assert(vlrs[queue[c].pos()].size < vlrs[queue[i].pos()].size);
    } else if i < c {
        assert(vlrs[queue[i].pos()].size < vlrs[queue[c].pos()].size);
    }
}

/// Every queue that is not empty has a longest entry.
pub proof fn lemma_longest_exists(queue: Seq<VirtualRangeIx>, vlrs: Seq<VlrView>)
    requires
        queue.len() > 0,
    ensures
        is_longest(queue, vlrs, longest_at(queue, vlrs)),
    decreases queue.len(),
{
    let n = queue.len() - 1;
    if n == 0 {
        assert(is_longest(queue, vlrs, 0));
    } else {
        let shorter = queue.drop_last();
        lemma_longest_exists(shorter, vlrs);
        let c = longest_at(shorter, vlrs);
        if vlrs[queue[n].pos()].size > vlrs[queue[c].pos()].size {
            assert(is_longest(queue, vlrs, n)) by {
                assert forall|j: int| 0 <= j < n implies vlrs[(#[trigger] queue[j]).pos()].size
                    < vlrs[queue[n].pos()].size by {
                    assert(shorter[j] == queue[j]);
                }
            }
        } else {
            assert(is_longest(queue, vlrs, c)) by {
                assert forall|j: int| 0 <= j < queue.len() implies vlrs[(
                #[trigger] queue[j]).pos()].size <= vlrs[queue[c].pos()].size by {
                    if j < n {
                        assert(shorter[j] == queue[j]);
                    }
                }
                assert forall|j: int| 0 <= j < c implies vlrs[(#[trigger] queue[j]).pos()].size
                    < vlrs[queue[c].pos()].size by {
                    assert(shorter[j] == queue[j]);
                }
            }
        }
    }
}

/// The virtual ranges that are still to be allocated, in no particular order. They are indices
/// into an environment that is not held here.
pub struct VirtualRangePrioQ {
    pub unallocated: Vec<VirtualRangeIx>,
}

impl View for VirtualRangePrioQ {
    type V = Seq<VirtualRangeIx>;

    open spec fn view(&self) -> Seq<VirtualRangeIx> {
        self.unallocated@
    }
}

/// The indices of `n` ranges, in order.
pub open spec fn all_vlrixs(n: nat) -> Seq<VirtualRangeIx> {
    Seq::new(n, |i: int| VirtualRangeIx { ix: i as u32 })
}

impl VirtualRangePrioQ {
    /// The queue of all ranges of an environment. None of them may be of size zero.
    pub fn new(vlr_env: &TypedIxVec<VirtualRangeIx, VirtualRange>) -> (r: Self)
        requires
            vlr_env@.len() <= u32::MAX,
            forall|i: int| 0 <= i < vlr_env@.len() ==> (#[trigger] vlr_env@[i]).size > 0,
        ensures
            r@ == all_vlrixs(vlr_env@.len()),
    {
        let mut unallocated: Vec<VirtualRangeIx> = Vec::new();
        let len = vlr_env.len();
        let mut i: u32 = 0;
        while i < len
            invariant
                i <= len,
                len == vlr_env@.len(),
                unallocated@ == all_vlrixs(i as nat),
            decreases len - i,
        {
            unallocated.push(VirtualRangeIx::new(i));
            i += 1;
            assert(unallocated@ =~= all_vlrixs(i as nat));
        }
        VirtualRangePrioQ { unallocated }
    }

    pub fn is_empty(&self) -> (r: bool)
        ensures
            r == (self@.len() == 0),
    {
        self.unallocated.is_empty()
    }

    /// Adds a range.
    pub fn add_VirtualRange(&mut self, vlr_ix: VirtualRangeIx)
        ensures
            final(self)@ == old(self)@.push(vlr_ix),
    {
        self.unallocated.push(vlr_ix);
    }

    /// Removes the first of the longest ranges, in constant time once it is found, and returns it.
    pub fn get_longest_VirtualRange(
        &mut self,
        vlr_env: &TypedIxVec<VirtualRangeIx, VirtualRange>,
    ) -> (r: Option<VirtualRangeIx>)
        requires
            forall|i: int| 0 <= i < old(self)@.len() ==> (#[trigger] old(self)@[i]).pos()
                < vlr_env@.len(),
            old(self)@.len() > 0 ==> exists|i: int|
                0 <= i < old(self)@.len() && vlr_env@[(#[trigger] old(self)@[i]).pos()].size > 0,
        ensures
            old(self)@.len() == 0 ==> r is None && final(self)@ == old(self)@,
            old(self)@.len() > 0 ==> {
                let i = longest_at(old(self)@, vlr_views(vlr_env@));
                &&& is_longest(old(self)@, vlr_views(vlr_env@), i)
                &&& r == Some(old(self)@[i])
                &&& final(self)@ == swap_removed(old(self)@, i)
            },
    {
        let len = self.unallocated.len();
        if len == 0 {
            return None;
        }
        let ghost vlrs = vlr_views(vlr_env@);
        let ghost queue = self@;
        let mut largest_ix: usize = len;
        let mut largest_size: u16 = 0;
        let mut i: usize = 0;
        while i < len
            invariant
                i <= len,
                len == queue.len(),
                queue == self@,
                vlrs == vlr_views(vlr_env@),
                forall|j: int| 0 <= j < queue.len() ==> (#[trigger] queue[j]).pos()
                    < vlr_env@.len(),
                largest_size == 0 ==> largest_ix == len,
                largest_size > 0 ==> largest_ix < i && largest_size
                    == vlrs[queue[largest_ix as int].pos()].size,
                forall|j: int|
                    0 <= j < i ==> vlrs[(#[trigger] queue[j]).pos()].size <= largest_size,
                forall|j: int|
                    0 <= j < i && j < largest_ix ==> vlrs[(#[trigger] queue[j]).pos()].size
                        < largest_size || largest_size == 0,
            decreases len - i,
        {
            let cand_vlrix = self.unallocated[i];
            let cand_vlr = vlr_env.at(cand_vlrix);
            assert(vlrs[queue[i as int].pos()].size == cand_vlr.size);
            if cand_vlr.size > largest_size {
                largest_size = cand_vlr.size;
                largest_ix = i;
            }
            i += 1;
        }
        proof {
            assert(largest_size > 0) by {
                let j = choose|j: int|
                    0 <= j < queue.len() && vlr_env@[(#[trigger] queue[j]).pos()].size > 0;
                assert(vlrs[queue[j].pos()].size <= largest_size);
            }
            assert(is_longest(queue, vlrs, largest_ix as int));
            lemma_longest_unique(queue, vlrs, largest_ix as int);
        }
        let res = self.unallocated.swap_remove(largest_ix);
        assert(self@ =~= swap_removed(queue, largest_ix as int));
        Some(res)
    }
}

} // verus!
