//! Live ranges of virtual and real registers, and spill slots.

use crate::frags::SortedRangeFragIxs;
use crate::index::RangeFragIx;
use crate::regs::{RealReg, VirtualReg};
use vstd::prelude::*;

verus! {

/// A live range of a virtual register: the unit of allocation.
///
/// `size` is its priority in the queue of unallocated ranges. `spillCost` estimates what it would
/// cost to spill it; `None` is infinity, the cost of ranges that exist because of spilling. An
/// estimate is a non-negative number, and it is held as an integer that orders as the number does
/// (the bit pattern of a non-negative `f32` is one such integer). `rreg` is the register that the
/// range has been given, if any.
#[derive(Debug)]
pub struct VirtualRange {
    pub vreg: VirtualReg,
    pub rreg: Option<RealReg>,
    pub sortedFrags: SortedRangeFragIxs,
    pub size: u16,
    pub spillCost: Option<u32>,
}

/// A `VirtualRange` as a mathematical value.
#[verifier::ext_equal]
pub struct VlrView {
    pub vreg: VirtualReg,
    pub rreg: Option<RealReg>,
    pub frags: Seq<RangeFragIx>,
    pub size: u16,
    pub cost: Option<u32>,
}

impl View for VirtualRange {
    type V = VlrView;

    open spec fn view(&self) -> VlrView {
        VlrView {
            vreg: self.vreg,
            rreg: self.rreg,
            frags: self.sortedFrags@,
            size: self.size,
            cost: self.spillCost,
        }
    }
}

/// The ranges of an environment as mathematical values.
pub open spec fn vlr_views(env: Seq<VirtualRange>) -> Seq<VlrView> {
    env.map_values(|v: VirtualRange| v@)
}

/// A live range of a real register: a stretch of code over which the client uses it directly.
#[derive(Debug)]
pub struct RealRange {
    pub rreg: RealReg,
    pub sortedFrags: SortedRangeFragIxs,
}

/// A `RealRange` as a mathematical value.
#[verifier::ext_equal]
pub struct RlrView {
    pub rreg: RealReg,
    pub frags: Seq<RangeFragIx>,
}

impl View for RealRange {
    type V = RlrView;

    open spec fn view(&self) -> RlrView {
        RlrView { rreg: self.rreg, frags: self.sortedFrags@ }
    }
}

/// The real ranges of an environment as mathematical values.
pub open spec fn rlr_views(env: Seq<RealRange>) -> Seq<RlrView> {
    env.map_values(|v: RealRange| v@)
}

/// `cost1` is less than `cost2`, where `None` is infinity.
pub open spec fn cost_less(cost1: Option<u32>, cost2: Option<u32>) -> bool {
    match (cost1, cost2) {
        (Some(c1), Some(c2)) => c1 < c2,
        (Some(_), None) => true,
        (None, _) => false,
    }
}

/// Compares spill costs.
pub fn cost_is_less(cost1: Option<u32>, cost2: Option<u32>) -> (r: bool)
    ensures
        r == cost_less(cost1, cost2),
{
    match (cost1, cost2) {
        (None, None) => false,
        (Some(_), None) => true,
        (None, Some(_)) => false,
        (Some(c1), Some(c2)) => c1 < c2,
    }
}

/// The number of a slot in the spill area of the stack frame.
#[derive(Clone, Copy, PartialEq, Eq, Structural, Hash, Debug)]
pub struct SpillSlot {
    pub n: u32,
}

/// The least multiple of `align` that is not below `n`.
pub open spec fn rounded_up(n: int, align: int) -> int {
    (n + align - 1) / align * align
}

/// Rounding up gives a multiple, and moves by less than the alignment.
pub proof fn lemma_rounded_up(n: int, align: int)
    requires
        0 <= n,
        0 < align,
    ensures
        n <= rounded_up(n, align) < n + align,
        rounded_up(n, align) % align == 0,
{
    vstd::arithmetic::div_mod::lemma_fundamental_div_mod(n + align - 1, align);
    vstd::arithmetic::div_mod::lemma_mod_bound(n + align - 1, align);
    vstd::arithmetic::mul::lemma_mul_is_commutative(align, (n + align - 1) / align);
    vstd::arithmetic::div_mod::lemma_mod_multiples_basic((n + align - 1) / align, align);
}

/// The first slot behind `num_slots` slots that are taken from slot `n` on, aligned to their number.
/// Slots can not be aligned to a number of zero: they end beyond any slot that there is.
pub open spec fn slot_behind(n: int, num_slots: int) -> int {
    if num_slots > 0 {
        rounded_up(n, num_slots) + num_slots
    } else {
        u32::MAX + 1
    }
}

impl SpillSlot {
    pub fn new(n: u32) -> (r: Self)
        ensures
            r.n == n,
    {
        SpillSlot { n }
    }

    pub fn get(self) -> (r: u32)
        ensures
            r == self.n,
    {
        self.n
    }

    /// The first slot, from this one on, whose number is a multiple of `num_slots`.
    pub fn round_up(self, num_slots: u32) -> (r: Self)
        requires
            num_slots > 0,
            rounded_up(self.n as int, num_slots as int) <= u32::MAX,
        ensures
            r.n == rounded_up(self.n as int, num_slots as int),
    {
        proof {
            lemma_rounded_up(self.n as int, num_slots as int);
        }
        let wide: u64 = (self.n as u64 + num_slots as u64 - 1) / (num_slots as u64);
        assert(wide * (num_slots as u64) == rounded_up(self.n as int, num_slots as int));
        SpillSlot { n: (wide * (num_slots as u64)) as u32 }
    }

    /// Whether `num_slots` slots, aligned to their number, have room from this one on.
    pub fn has_room(self, num_slots: u32) -> (r: bool)
        ensures
            r == (slot_behind(self.n as int, num_slots as int) <= u32::MAX),
    {
        if num_slots == 0 {
            return false;
        }
        proof {
            lemma_rounded_up(self.n as int, num_slots as int);
        }
        let wide: u64 = (self.n as u64 + num_slots as u64 - 1) / (num_slots as u64);
        assert(wide * (num_slots as u64) == rounded_up(self.n as int, num_slots as int));
        wide * (num_slots as u64) + num_slots as u64 <= u32::MAX as u64
    }

    /// The slot that is `num_slots` further on.
    pub fn inc(self, num_slots: u32) -> (r: Self)
        requires
            self.n + num_slots <= u32::MAX,
        ensures
            r.n == self.n + num_slots,
    {
        SpillSlot { n: self.n + num_slots }
    }
}

} // verus!
