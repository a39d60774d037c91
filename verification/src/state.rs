//! The allocator as a state machine.

use crate::frags::RangeFrag;
use crate::index::{RangeFragIx, TypedIx, VirtualRangeIx};
use crate::interface::{FuncModel, InstModel};
use crate::prio_queue::{all_vlrixs, longest_at, swap_removed};
use crate::ranges::{rounded_up, slot_behind, RlrView, SpillSlot, VlrView};
use crate::real_reg::RegView;
use crate::regs::{RealReg, RealRegUniverse, RegClass, VirtualReg};
use crate::show::class_text;
use crate::spill::{bridges, EditListItem, SpillAndOrReloadInfo};
use vstd::prelude::*;

verus! {

/// What stays the same while the allocator works: the function and the machine.
#[verifier::reject_recursive_types(I)]
pub struct Setting<I> {
    pub im: InstModel<I>,
    pub func: FuncModel<I>,
    pub universe: RealRegUniverse,
}

/// What changes while the allocator works.
#[verifier::ext_equal]
pub struct AllocState {
    /// The ranges that are still to be allocated.
    pub queue: Seq<VirtualRangeIx>,
    /// What each allocable register is committed to.
    pub regs: Seq<RegView>,
    /// All ranges. New ones come at the end; the others stay, but for the register they are given.
    pub vlrs: Seq<VlrView>,
    /// All fragments. New ones come at the end.
    pub frags: Seq<RangeFrag>,
    /// The spill and reload instructions to add.
    pub edits: Seq<EditListItem>,
    /// The first spill slot that is free.
    pub next_slot: int,
}

/// The fragments over which the client uses the real register with index `i` itself.
pub open spec fn fixed_frags(rlrs: Seq<RlrView>, i: int) -> Set<RangeFragIx> {
    Set::new(
        |f: RangeFragIx|
            exists|x: int|
                0 <= x < rlrs.len() && (#[trigger] rlrs[x]).rreg.index == i
                    && rlrs[x].frags.contains(f),
    )
}

/// Before anything is allocated: all ranges are in the queue, and the registers are committed to
/// what the client uses them for.
pub open spec fn initial_state(
    universe: RealRegUniverse,
    rlrs: Seq<RlrView>,
    vlrs: Seq<VlrView>,
    frags: Seq<RangeFrag>,
) -> AllocState {
    AllocState {
        queue: all_vlrixs(vlrs.len()),
        regs: Seq::new(
            universe.allocable as nat,
            |i: int| RegView { frags: fixed_frags(rlrs, i), assigned: Seq::empty() },
        ),
        vlrs,
        frags,
        edits: Seq::empty(),
        next_slot: 0,
    }
}

/// Register `i` is the first, from `first` to `last`, that has room for the range.
pub open spec fn is_first_fit(
    regs: Seq<RegView>,
    frags: Seq<RangeFrag>,
    vlr: VlrView,
    first: int,
    last: int,
    i: int,
) -> bool {
    &&& first <= i <= last
    &&& regs[i].fits(vlr, frags)
    &&& forall|j: int| first <= j < i ==> !(#[trigger] regs[j]).fits(vlr, frags)
}

/// The first register, from `first` to `last`, that has room for the range.
pub open spec fn first_fit(
    regs: Seq<RegView>,
    frags: Seq<RangeFrag>,
    vlr: VlrView,
    first: int,
    last: int,
) -> Option<int> {
    if exists|i: int| is_first_fit(regs, frags, vlr, first, last, i) {
        Some(choose|i: int| is_first_fit(regs, frags, vlr, first, last, i))
    } else {
        None
    }
}

/// The first register with room is determined by the registers.
pub proof fn lemma_first_fit_unique(
    regs: Seq<RegView>,
    frags: Seq<RangeFrag>,
    vlr: VlrView,
    first: int,
    last: int,
    i: int,
)
    requires
        is_first_fit(regs, frags, vlr, first, last, i),
    ensures
        first_fit(regs, frags, vlr, first, last) == Some(i),
{
    let c = choose|c: int| is_first_fit(regs, frags, vlr, first, last, c);
    assert(is_first_fit(regs, frags, vlr, first, last, c));
    if c < i {
        assert(!regs[c].fits(vlr, frags));
    } else if i < c {
        assert(!regs[i].fits(vlr, frags));
    }
}

impl AllocState {
    /// What evicting from register `i` to make room for the range would cost.
    pub open spec fn evict_cost(self, vlr: VlrView, i: int) -> u32 {
        self.regs[i].cost_at(self.vlrs, self.regs[i].best_evict(vlr, self.vlrs, self.frags)->0)
    }

    /// Something can be evicted from register `i` to make room for the range.
    pub open spec fn can_evict(self, vlr: VlrView, i: int) -> bool {
        self.regs[i].best_evict(vlr, self.vlrs, self.frags) is Some
    }

    /// Of the registers from `first` to `last` from which something can be evicted to make room
    /// for the range, `i` is the one where that is cheapest, and the last of these.
    pub open spec fn is_best_site(self, vlr: VlrView, first: int, last: int, i: int) -> bool {
        &&& first <= i <= last
        &&& self.can_evict(vlr, i)
        &&& forall|j: int|
            first <= j <= last && #[trigger] self.can_evict(vlr, j) ==> {
                &&& self.evict_cost(vlr, i) <= self.evict_cost(vlr, j)
                &&& i < j ==> self.evict_cost(vlr, i) < self.evict_cost(vlr, j)
            }
    }

    /// The register, from `first` to `last`, where making room for the range is cheapest.
    pub open spec fn best_site(self, vlr: VlrView, first: int, last: int) -> Option<int> {
        if exists|i: int| self.is_best_site(vlr, first, last, i) {
            Some(choose|i: int| self.is_best_site(vlr, first, last, i))
        } else {
            None
        }
    }

    /// The cheapest register to evict from is determined by the state.
    pub proof fn lemma_best_site_unique(self, vlr: VlrView, first: int, last: int, i: int)
        requires
            self.is_best_site(vlr, first, last, i),
        ensures
            self.best_site(vlr, first, last) == Some(i),
    {
        let c = choose|c: int| self.is_best_site(vlr, first, last, c);
        assert(self.is_best_site(vlr, first, last, c));
        assert(self.can_evict(vlr, c));
        assert(self.can_evict(vlr, i));
    }

    /// The range that makes way at register `i`.
    pub open spec fn victim(self, vlr: VlrView, i: int) -> VirtualRangeIx {
        self.regs[i].assigned[self.regs[i].best_evict(vlr, self.vlrs, self.frags)->0]
    }

    /// Entry `q` leaves the queue.
    pub open spec fn taken(self, q: int) -> AllocState {
        AllocState { queue: swap_removed(self.queue, q), ..self }
    }

    /// Range `x` is tagged with a register, or with none.
    pub open spec fn tagged(self, x: VirtualRangeIx, rreg: Option<RealReg>) -> AllocState {
        AllocState {
            vlrs: self.vlrs.update(x.pos(), VlrView { rreg, ..self.vlrs[x.pos()] }),
            ..self
        }
    }

    /// Range `x` is assigned to register `i`, which is `rreg`.
    pub open spec fn placed(self, x: VirtualRangeIx, i: int, rreg: RealReg) -> AllocState {
        AllocState {
            regs: self.regs.update(i, self.regs[i].with_vlr(x, self.vlrs[x.pos()])),
            ..self.tagged(x, Some(rreg))
        }
    }

    /// Range `x` is evicted from register `i`, and goes back to the queue.
    pub open spec fn released(self, x: VirtualRangeIx, i: int) -> AllocState {
        AllocState {
            queue: self.queue.push(x),
            regs: self.regs.update(i, self.regs[i].without_vlr(x, self.vlrs[x.pos()])),
            ..self.tagged(x, None)
        }
    }

    /// The given bridges for `vreg` are added, all with one spill slot.
    pub open spec fn bridged(
        self,
        vreg: VirtualReg,
        infos: Seq<SpillAndOrReloadInfo>,
        slot: SpillSlot,
    ) -> AllocState {
        AllocState {
            queue: self.queue + Seq::new(infos.len(), |n: int| self.new_vlrix(n)),
            regs: self.regs,
            vlrs: self.vlrs + Seq::new(infos.len(), |n: int| self.bridge_vlr(vreg, n)),
            frags: self.frags + Seq::new(infos.len(), |n: int| infos[n].spec_frag()),
            edits: self.edits + Seq::new(
                infos.len(),
                |n: int|
                    EditListItem { slot, vlrix: self.new_vlrix(n), kind: infos[n].kind },
            ),
            next_slot: self.next_slot,
        }
    }

    /// The index of the `n`th range to be added.
    pub open spec fn new_vlrix(self, n: int) -> VirtualRangeIx {
        VirtualRangeIx { ix: (self.vlrs.len() + n) as u32 }
    }

    /// The index of the `n`th fragment to be added.
    pub open spec fn new_fix(self, n: int) -> RangeFragIx {
        RangeFragIx { ix: (self.frags.len() + n) as u32 }
    }

    /// The range of the `n`th bridge to be added. It can never be spilled itself.
    pub open spec fn bridge_vlr(self, vreg: VirtualReg, n: int) -> VlrView {
        VlrView { vreg, rreg: None, frags: seq![self.new_fix(n)], size: 1, cost: None }
    }

    /// Range `x` is spilled: it is replaced by bridges around the instructions that mention it,
    /// and gets a spill slot of its own, aligned to its size.
    pub open spec fn spilled<I>(self, setting: Setting<I>, x: VirtualRangeIx) -> AllocState {
        let vlr = self.vlrs[x.pos()];
        let infos = bridges(setting.im, setting.func.insns, vlr.vreg, self.frags, vlr.frags);
        let num_slots = (setting.func.slot_size)(vlr.vreg.class) as int;
        let slot = rounded_up(self.next_slot, num_slots);
        AllocState {
            next_slot: slot_behind(self.next_slot, num_slots),
            ..self.bridged(vlr.vreg, infos, SpillSlot { n: slot as u32 })
        }
    }

    /// The tables and the spill area are no larger than their indices can tell.
    pub open spec fn fits(self) -> bool {
        &&& self.vlrs.len() <= u32::MAX
        &&& self.frags.len() <= u32::MAX
        &&& self.next_slot <= u32::MAX
    }
}

/// What one turn of the allocator comes to.
pub enum Turn {
    /// Work goes on.
    Next(AllocState),
    /// The queue is empty: every range has a register.
    Done,
    /// A range is of a class that has no allocable registers.
    NoRegsForClass(RegClass),
    /// A range that exists because of spilling has no place: there are too few registers.
    OutOfRegs,
}

/// One turn: the longest range leaves the queue. It goes to the first register of its class that
/// has room for it, or else to the one where room can be made most cheaply by evicting a range of
/// lower spill cost, or else it is spilled.
pub open spec fn turn<I>(setting: Setting<I>, st: AllocState) -> Turn {
    if st.queue.len() == 0 {
        Turn::Done
    } else {
        let q = longest_at(st.queue, st.vlrs);
        let x = st.queue[q];
        let vlr = st.vlrs[x.pos()];
        let rest = st.taken(q);
        match setting.universe.class_range(vlr.vreg.class) {
            None => Turn::NoRegsForClass(vlr.vreg.class),
            Some((first, last)) => match first_fit(
                st.regs,
                st.frags,
                vlr,
                first as int,
                last as int,
            ) {
                Some(i) => Turn::Next(rest.placed(x, i, setting.universe.reg_seq()[i])),
                None => match st.best_site(vlr, first as int, last as int) {
                    Some(i) => Turn::Next(
                        rest.released(st.victim(vlr, i), i).placed(
                            x,
                            i,
                            setting.universe.reg_seq()[i],
                        ),
                    ),
                    None => if vlr.cost is None {
                        Turn::OutOfRegs
                    } else {
                        Turn::Next(rest.spilled(setting, x))
                    },
                },
            },
        }
    }
}

/// `trace` is the course of the allocator from its first state to its last.
pub open spec fn is_course<I>(setting: Setting<I>, trace: Seq<AllocState>) -> bool {
    &&& trace.len() > 0
    &&& forall|i: int|
        0 <= i < trace.len() - 1 ==> turn(setting, #[trigger] trace[i]) == Turn::Next(
            trace[i + 1],
        )
}

/// The allocator gets from `start` to `st`.
pub open spec fn reaches<I>(setting: Setting<I>, start: AllocState, st: AllocState) -> bool {
    exists|trace: Seq<AllocState>| #[trigger]
        is_course(setting, trace) && trace.first() == start && trace.last() == st
}

/// The allocator gets from `start` to `st`, and no further.
pub open spec fn comes_to<I>(setting: Setting<I>, start: AllocState, st: AllocState) -> bool {
    reaches(setting, start, st) && turn(setting, st) !is Next
}

/// What is reported when the allocator comes to a state in which it can not go on.
pub open spec fn failure_text(t: Turn) -> Seq<char> {
    match t {
        Turn::NoRegsForClass(class) => "no available registers for class "@ + class_text(class),
        _ => "out of registers"@,
    }
}

/// The allocator is where it starts.
pub proof fn lemma_reaches_start<I>(setting: Setting<I>, start: AllocState)
    ensures
        reaches(setting, start, start),
{
    let trace = seq![start];
    assert(is_course(setting, trace));
}

/// One more turn leads on.
pub proof fn lemma_reaches_next<I>(
    setting: Setting<I>,
    start: AllocState,
    st: AllocState,
    next: AllocState,
)
    requires
        reaches(setting, start, st),
        turn(setting, st) == Turn::Next(next),
    ensures
        reaches(setting, start, next),
{
    let trace = choose|trace: Seq<AllocState>| #[trigger]
        is_course(setting, trace) && trace.first() == start && trace.last() == st;
    let longer = trace.push(next);
    assert(is_course(setting, longer)) by {
        assert forall|i: int| 0 <= i < longer.len() - 1 implies turn(setting, #[trigger] longer[i])
            == Turn::Next(longer[i + 1]) by {
            if i < trace.len() - 1 {
                assert(longer[i] == trace[i]);
            }
        }
    }
    assert(longer.first() == start && longer.last() == next);
}

/// What holds at the start and is kept by every turn holds wherever the allocator gets.
pub proof fn lemma_reaches_induct<I>(
    setting: Setting<I>,
    start: AllocState,
    st: AllocState,
    p: spec_fn(AllocState) -> bool,
)
    requires
        reaches(setting, start, st),
        p(start),
        forall|a: AllocState, b: AllocState|
            p(a) && #[trigger] turn(setting, a) == Turn::Next(b) ==> #[trigger] p(b),
    ensures
        p(st),
{
    let trace = choose|trace: Seq<AllocState>| #[trigger]
        is_course(setting, trace) && trace.first() == start && trace.last() == st;
    lemma_course_induct(setting, trace, trace.len() - 1, p);
}

proof fn lemma_course_induct<I>(
    setting: Setting<I>,
    trace: Seq<AllocState>,
    i: int,
    p: spec_fn(AllocState) -> bool,
)
    requires
        is_course(setting, trace),
        0 <= i < trace.len(),
        p(trace[0]),
        forall|a: AllocState, b: AllocState|
            p(a) && #[trigger] turn(setting, a) == Turn::Next(b) ==> #[trigger] p(b),
    ensures
        p(trace[i]),
    decreases i,
{
    if i > 0 {
        lemma_course_induct(setting, trace, i - 1, p);
        assert(turn(setting, trace[i - 1]) == Turn::Next(trace[i - 1 + 1]));
    }
}

} // verus!
