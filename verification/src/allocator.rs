//! The allocator at work: its tables, and the turns that it takes.

use crate::course::{
    lemma_turn, lemma_turn_closer, lemma_turn_start, lemma_victim, lemma_weight_bound, rlrs_ok,
    spillable, stays_within_limits, weight,
};
use crate::frags::{
    frags_clear, frags_sorted, lemma_frags_sorted_extend, RangeFrag, SortedRangeFragIxs,
};
use crate::index::{RangeFragIx, RealRangeIx, TypedIx, TypedIxVec, VirtualRangeIx};
use crate::interface::Function;
use crate::mapping::RangeAllocations;
use crate::outcome::{placement, placements, reg_sites, sites, vlr_sites, Site};
use crate::prio_queue::{longest_at, VirtualRangePrioQ};
use crate::ranges::{
    cost_is_less, lemma_rounded_up, rlr_views, vlr_views, RealRange, RlrView, SpillSlot,
    VirtualRange,
};
use crate::real_reg::{PerRealReg, RegView};
use crate::regs::{RealReg, RealRegUniverse, RegClass};
use crate::safety::vlr_ok;
use crate::show::show_class;
use crate::spill::{collect_bridges, EditListItem};
use crate::spill_safety::roles_ok;
use crate::state::{
    comes_to, failure_text, first_fit, fixed_frags, initial_state, is_first_fit,
    lemma_first_fit_unique, lemma_reaches_next, lemma_reaches_start, reaches, turn, AllocState,
    Setting, Turn,
};
use vstd::prelude::*;

verus! {

/// The live ranges of a function, and the fragments that they are made of.
pub struct Analysis {
    pub rlr_env: TypedIxVec<RealRangeIx, RealRange>,
    pub vlr_env: TypedIxVec<VirtualRangeIx, VirtualRange>,
    pub frag_env: TypedIxVec<RangeFragIx, RangeFrag>,
}

impl Analysis {
    /// The state from which the allocator starts.
    pub open spec fn start(&self, universe: RealRegUniverse) -> AllocState {
        initial_state(
            universe,
            rlr_views(self.rlr_env@),
            vlr_views(self.vlr_env@),
            self.frag_env@,
        )
    }
}

/// The function and the machine, as mathematical values.
pub open spec fn setting_of<F: Function>(func: &F, universe: RealRegUniverse) -> Setting<F::Inst> {
    Setting { im: F::inst_model(), func: func.model(), universe }
}

/// The tables of the allocator.
pub struct Allocator {
    pub prioQ: VirtualRangePrioQ,
    pub per_real_reg: Vec<PerRealReg>,
    pub edit_list: Vec<EditListItem>,
    pub vlr_env: TypedIxVec<VirtualRangeIx, VirtualRange>,
    pub frag_env: TypedIxVec<RangeFragIx, RangeFrag>,
    pub next_spill_slot: SpillSlot,
}

/// How a turn went. `vlrix` is the range that was considered.
#[derive(Clone, Copy, PartialEq, Eq, Structural, Debug)]
pub enum Progress {
    /// The range went to a register that had room for it.
    Placed { vlrix: VirtualRangeIx, rreg: RealReg },
    /// The range went to a register from which another was evicted.
    Replaced { vlrix: VirtualRangeIx, evicted: VirtualRangeIx, rreg: RealReg },
    /// The range was spilled. What replaces it is at the ends of the tables.
    Spilled { vlrix: VirtualRangeIx },
    /// No range is left to be considered.
    Done,
    /// The class of the range has no allocable registers.
    NoRegsForClass { vlrix: VirtualRangeIx, class: RegClass },
    /// The range exists because of spilling, and there is no room for it.
    OutOfRegs { vlrix: VirtualRangeIx },
    /// Spilling the range would take the tables or the spill area beyond what their indices can
    /// tell, or its spill slots have no size.
    OverLimit { vlrix: VirtualRangeIx },
}

/// How a turn from state `st` goes.
pub open spec fn progress<I>(setting: Setting<I>, st: AllocState) -> Progress {
    if st.queue.len() == 0 {
        Progress::Done
    } else {
        let q = longest_at(st.queue, st.vlrs);
        let vlrix = st.queue[q];
        let vlr = st.vlrs[vlrix.pos()];
        let regs = setting.universe.reg_seq();
        match setting.universe.class_range(vlr.vreg.class) {
            None => Progress::NoRegsForClass { vlrix, class: vlr.vreg.class },
            Some((first, last)) => match first_fit(
                st.regs,
                st.frags,
                vlr,
                first as int,
                last as int,
            ) {
                Some(i) => Progress::Placed { vlrix, rreg: regs[i] },
                None => match st.best_site(vlr, first as int, last as int) {
                    Some(i) => Progress::Replaced {
                        vlrix,
                        evicted: st.victim(vlr, i),
                        rreg: regs[i],
                    },
                    None => if vlr.cost is None {
                        Progress::OutOfRegs { vlrix }
                    } else if st.taken(q).spilled(setting, vlrix).fits() {
                        Progress::Spilled { vlrix }
                    } else {
                        Progress::OverLimit { vlrix }
                    },
                },
            },
        }
    }
}

impl Progress {
    /// What to report, where there is no way on.
    pub fn failure(self) -> (r: Option<String>)
        ensures
            match self {
                Progress::NoRegsForClass { vlrix, class } => {
                    r matches Some(text) && text@ == failure_text(Turn::NoRegsForClass(class))
                },
                Progress::OutOfRegs { vlrix } => {
                    r matches Some(text) && text@ == failure_text(Turn::OutOfRegs)
                },
                _ => r is None,
            },
    {
        match self {
            Progress::NoRegsForClass { vlrix: _, class } => {
                let mut text = "no available registers for class ".to_owned();
                text.append(show_class(class));
                Some(text)
            },
            Progress::OutOfRegs { vlrix: _ } => Some("out of registers".to_owned()),
            _ => None,
        }
    }
}

/// Registers as mathematical values.
pub open spec fn reg_views(regs: Seq<PerRealReg>) -> Seq<RegView> {
    regs.map_values(|r: PerRealReg| r@)
}

impl Allocator {
    /// The tables as a mathematical value.
    pub open spec fn state(&self) -> AllocState {
        AllocState {
            queue: self.prioQ@,
            regs: reg_views(self.per_real_reg@),
            vlrs: vlr_views(self.vlr_env@),
            frags: self.frag_env@,
            edits: self.edit_list@,
            next_slot: self.next_spill_slot.n as int,
        }
    }

    /// The fragments of each register are in order.
    pub open spec fn wf(&self) -> bool {
        forall|i: int|
            0 <= i < self.per_real_reg@.len() ==> (#[trigger] self.per_real_reg@[i]).wf(
                self.frag_env@,
            )
    }

    /// Sets up the tables: all ranges are in the queue, and the allocable registers are committed
    /// to their real ranges. Real ranges of other registers are ignored.
    pub fn new(analysis: Analysis, reg_universe: &RealRegUniverse) -> (r: Self)
        requires
            analysis.vlr_env@.len() <= u32::MAX,
            forall|x: int|
                0 <= x < analysis.vlr_env@.len() ==> (#[trigger] analysis.vlr_env@[x]).size > 0,
            rlrs_ok(*reg_universe, rlr_views(analysis.rlr_env@), analysis.frag_env@),
        ensures
            r.wf(),
            r.state() == analysis.start(*reg_universe),
    {
        let Analysis { rlr_env, vlr_env, frag_env } = analysis;
        let ghost rlrs = rlr_views(rlr_env@);
        let prioQ = VirtualRangePrioQ::new(&vlr_env);
        let mut per_real_reg: Vec<PerRealReg> = Vec::new();
        let mut i: usize = 0;
        while i < reg_universe.allocable
            invariant
                i <= reg_universe.allocable,
                per_real_reg@.len() == i,
                forall|j: int|
                    0 <= j < i ==> (#[trigger] per_real_reg@[j]).wf(frag_env@)
                        && per_real_reg@[j]@ == (RegView {
                        frags: Set::empty(),
                        assigned: Seq::empty(),
                    }),
            decreases reg_universe.allocable - i,
        {
            per_real_reg.push(PerRealReg::new(&frag_env));
            i += 1;
        }
        assert forall|j: int| 0 <= j < per_real_reg@.len() implies (
        #[trigger] per_real_reg@[j])@.frags == fixed_frags(rlrs.take(0), j) by {
            assert(fixed_frags(rlrs.take(0), j) =~= Set::empty());
        }
        let mut k: usize = 0;
        while k < rlr_env.vector.len()
            invariant
                k <= rlr_env@.len(),
                rlrs == rlr_views(rlr_env@),
                rlrs_ok(*reg_universe, rlrs, frag_env@),
                per_real_reg@.len() == reg_universe.allocable,
                forall|j: int|
                    0 <= j < per_real_reg@.len() ==> {
                        &&& (#[trigger] per_real_reg@[j]).wf(frag_env@)
                        &&& per_real_reg@[j]@.frags == fixed_frags(rlrs.take(k as int), j)
                        &&& per_real_reg@[j]@.assigned == Seq::<VirtualRangeIx>::empty()
                    },
            decreases rlr_env@.len() - k,
        {
            let ghost before = per_real_reg@;
            let rlr = &rlr_env.vector[k];
            let rregIndex = rlr.rreg.get_index();
            assert(rlrs[k as int] == rlr@);
            if rregIndex < reg_universe.allocable {
                proof {
                    lemma_fixed_clear(
                        *reg_universe,
                        rlrs,
                        frag_env@,
                        k as int,
                        per_real_reg@[rregIndex as int]@.frags,
                    );
                }
                per_real_reg[rregIndex].add_RealRange(rlr, &frag_env);
            }
            proof {
                assert forall|j: int| 0 <= j < per_real_reg@.len() implies (
                #[trigger] per_real_reg@[j])@.frags == fixed_frags(rlrs.take(k + 1), j) by {
                    lemma_fixed_next(rlrs, k as int, j);
                    assert(before[j]@.frags == fixed_frags(rlrs.take(k as int), j));
                    assert(per_real_reg@[j]@.frags =~= fixed_frags(rlrs.take(k + 1), j));
                }
            }
            k += 1;
        }
        assert(rlrs.take(k as int) =~= rlrs);
        let r = Allocator {
            prioQ,
            per_real_reg,
            edit_list: Vec::new(),
            vlr_env,
            frag_env,
            next_spill_slot: SpillSlot::new(0),
        };
        assert(r.state() =~= analysis.start(*reg_universe)) by {
            assert(r.state().regs =~= analysis.start(*reg_universe).regs);
        }
        r
    }

    /// The first register, from `first` to `last`, that has room for range `x` as things are.
    fn find_room(&self, x: VirtualRangeIx, first: usize, last: usize) -> (r: Option<usize>)
        requires
            self.wf(),
            x.pos() < self.vlr_env@.len(),
            self.vlr_env@[x.pos()].sortedFrags.wf(self.frag_env@),
            first <= last ==> last < self.per_real_reg@.len(),
        ensures
            match first_fit(
                self.state().regs,
                self.state().frags,
                self.state().vlr(x),
                first as int,
                last as int,
            ) {
                Some(i) => r == Some(i as usize) && is_first_fit(
                    self.state().regs,
                    self.state().frags,
                    self.state().vlr(x),
                    first as int,
                    last as int,
                    i,
                ),
                None => r is None,
            },
    {
        let ghost st = self.state();
        let ghost vlr = st.vlr(x);
        let curr_vlr = self.vlr_env.at(x);
        let mut i: usize = first;
        while i <= last
            invariant
                st == self.state(),
                vlr == st.vlr(x),
                vlr == curr_vlr@,
                self.wf(),
                curr_vlr.sortedFrags.wf(self.frag_env@),
                first <= last ==> last < self.per_real_reg@.len(),
                first <= i,
                forall|j: int|
                    first <= j < i && j <= last ==> !(#[trigger] st.regs[j]).fits(vlr, st.frags),
            decreases last + 1 - i,
        {
            assert(i <= last < self.per_real_reg.len());
            assert(st.regs[i as int] == self.per_real_reg@[i as int]@);
            if self.per_real_reg[i].can_add_VirtualRange_without_eviction(
                curr_vlr,
                &self.frag_env,
            ) {
                proof {
                    assert(is_first_fit(
                        st.regs,
                        st.frags,
                        vlr,
                        first as int,
                        last as int,
                        i as int,
                    ));
                    lemma_first_fit_unique(
                        st.regs,
                        st.frags,
                        vlr,
                        first as int,
                        last as int,
                        i as int,
                    );
                }
                return Some(i);
            }
            i += 1;
        }
        proof {
            assert forall|c: int| !is_first_fit(
                st.regs,
                st.frags,
                vlr,
                first as int,
                last as int,
                c,
            ) by {
                if first <= c <= last {
                    assert(!st.regs[c].fits(vlr, st.frags));
                }
            }
        }
        None
    }

    /// The assigned ranges of each register are in the environment, and the register is committed
    /// to all of their fragments.
    pub open spec fn holds_assigned(&self) -> bool {
        forall|i: int|
            0 <= i < self.per_real_reg@.len() ==> (
            #[trigger] self.per_real_reg@[i]).holds_assigned(
                self.state().vlrs,
                self.state().frags,
            )
    }

    /// The register, from `first` to `last`, where room for range `x` can be made most cheaply by
    /// evicting a range, and that range.
    fn find_site(&self, x: VirtualRangeIx, first: usize, last: usize) -> (r: Option<
        (usize, VirtualRangeIx),
    >)
        requires
            self.wf(),
            self.holds_assigned(),
            x.pos() < self.vlr_env@.len(),
            self.vlr_env@[x.pos()].sortedFrags.wf(self.frag_env@),
            first <= last ==> last < self.per_real_reg@.len(),
        ensures
            match self.state().best_site(self.state().vlr(x), first as int, last as int) {
                Some(i) => {
                    &&& r == Some((i as usize, self.state().victim(self.state().vlr(x), i)))
                    &&& self.state().is_best_site(
                        self.state().vlr(x),
                        first as int,
                        last as int,
                        i,
                    )
                },
                None => r is None,
            },
    {
        let ghost st = self.state();
        let ghost vlr = st.vlr(x);
        let curr_vlr = self.vlr_env.at(x);
        let mut best_so_far: Option<(usize, VirtualRangeIx, u32)> = None;
        let mut i: usize = first;
        while i <= last
            invariant
                st == self.state(),
                vlr == st.vlr(x),
                vlr == curr_vlr@,
                self.wf(),
                self.holds_assigned(),
                curr_vlr.sortedFrags.wf(self.frag_env@),
                first <= last ==> last < self.per_real_reg@.len(),
                first <= i,
                first <= last ==> i <= last + 1,
                first > last ==> i == first,
                best_so_far is None ==> forall|j: int|
                    first <= j < i ==> !#[trigger] st.can_evict(vlr, j),
                best_so_far matches Some((b, y, cost)) ==> {
                    &&& first <= b < i
                    &&& st.can_evict(vlr, b as int)
                    &&& y == st.victim(vlr, b as int)
                    &&& cost == st.evict_cost(vlr, b as int)
                    &&& forall|j: int|
                        first <= j < i && #[trigger] st.can_evict(vlr, j) ==> {
                            &&& st.evict_cost(vlr, b as int) <= st.evict_cost(vlr, j)
                            &&& b < j ==> st.evict_cost(vlr, b as int) < st.evict_cost(vlr, j)
                        }
                },
            decreases last + 1 - i,
        {
            assert(i <= last < self.per_real_reg.len());
            assert(st.regs[i as int] == self.per_real_reg@[i as int]@);
            let mb_better_cand = self.per_real_reg[i].find_best_evict_VirtualRange(
                curr_vlr,
                &self.vlr_env,
                &self.frag_env,
            );
            proof {
                // Nothing can be the best candidate where nothing can be evicted.
                if mb_better_cand is None {
                    assert(!st.can_evict(vlr, i as int));
                } else {
                    assert(st.can_evict(vlr, i as int));
                }
            }
            if let Some((cand_vlrix, cand_cost)) = mb_better_cand {
                let cand_is_better = match best_so_far {
                    Some((_, _, best_cost)) => !cost_is_less(Some(best_cost), Some(cand_cost)),
                    None => true,
                };
                if cand_is_better {
                    best_so_far = Some((i, cand_vlrix, cand_cost));
                }
            }
            i += 1;
        }
        match best_so_far {
            Some((b, y, _)) => {
                proof {
                    assert(st.is_best_site(vlr, first as int, last as int, b as int));
                    st.lemma_best_site_unique(vlr, first as int, last as int, b as int);
                }
                Some((b, y))
            },
            None => {
                proof {
                    assert forall|c: int| !st.is_best_site(
                        vlr,
                        first as int,
                        last as int,
                        c,
                    ) by {
                        if first <= c <= last {
                            assert(!st.can_evict(vlr, c));
                        }
                    }
                }
                None
            },
        }
    }

    /// Assigns range `x` to register `i`, which is `rreg` and has room for it.
    fn place(&mut self, x: VirtualRangeIx, i: usize, rreg: RealReg)
        requires
            old(self).wf(),
            x.pos() < old(self).vlr_env@.len(),
            old(self).vlr_env@[x.pos()].sortedFrags.wf(old(self).frag_env@),
            i < old(self).per_real_reg@.len(),
            old(self).state().regs[i as int].fits(old(self).state().vlr(x), old(self).frag_env@),
        ensures
            final(self).wf(),
            final(self).state() == old(self).state().placed(x, i as int, rreg),
    {
        let ghost st = self.state();
        let ghost regs = self.per_real_reg@;
        assert(st.regs[i as int] == regs[i as int]@);
        self.per_real_reg[i].add_VirtualRange(x, &self.vlr_env, &self.frag_env);
        let vlr = self.vlr_env.at_mut(x);
        vlr.rreg = Some(rreg);
        proof {
            let next = st.placed(x, i as int, rreg);
            assert(self.state().regs =~= next.regs);
            assert(self.state().vlrs =~= next.vlrs);
            assert forall|j: int| 0 <= j < self.per_real_reg@.len() implies (
            #[trigger] self.per_real_reg@[j]).wf(self.frag_env@) by {
                assert(regs[j].wf(self.frag_env@));
            }
        }
    }

    /// Takes range `y` from register `i` and puts it back in the queue.
    fn evict(&mut self, y: VirtualRangeIx, i: usize)
        requires
            old(self).wf(),
            old(self).holds_assigned(),
            i < old(self).per_real_reg@.len(),
            old(self).state().at_reg(y, i as int),
        ensures
            final(self).wf(),
            final(self).state() == old(self).state().released(y, i as int),
    {
        let ghost st = self.state();
        let ghost regs = self.per_real_reg@;
        proof {
            assert(st.regs[i as int] == regs[i as int]@);
            let j = choose|j: int|
                0 <= j < regs[i as int]@.assigned.len() && regs[i as int]@.assigned[j] == y;
            assert(regs[i as int].holds_assigned(st.vlrs, st.frags));
            assert(regs[i as int]@.assigned[j].pos() < st.vlrs.len());
        }
        self.per_real_reg[i].del_VirtualRange(y, &self.vlr_env, &self.frag_env);
        self.prioQ.add_VirtualRange(y);
        let vlr = self.vlr_env.at_mut(y);
        vlr.rreg = None;
        proof {
            let next = st.released(y, i as int);
            assert(self.state().regs =~= next.regs);
            assert(self.state().vlrs =~= next.vlrs);
            assert forall|j: int| 0 <= j < self.per_real_reg@.len() implies (
            #[trigger] self.per_real_reg@[j]).wf(self.frag_env@) by {
                assert(regs[j].wf(self.frag_env@));
            }
        }
    }

    /// Spills range `x`: gives it a spill slot, and adds a bridge for each mention of its
    /// register. Where there is no room for these, nothing changes.
    fn spill<F: Function>(
        &mut self,
        func: &F,
        x: VirtualRangeIx,
        universe: Ghost<RealRegUniverse>,
    ) -> (r: bool)
        requires
            old(self).wf(),
            x.pos() < old(self).vlr_env@.len(),
            vlr_ok(setting_of(func, universe@), old(self).frag_env@, old(self).state().vlr(x)),
            old(self).state().fits(),
        ensures
            final(self).wf(),
            r == old(self).state().spilled(setting_of(func, universe@), x).fits(),
            final(self).state() == (if r {
                old(self).state().spilled(setting_of(func, universe@), x)
            } else {
                old(self).state()
            }),
    {
        let ghost setting = setting_of(func, universe@);
        let ghost st = self.state();
        let ghost target = st.spilled(setting, x);
        let ghost regs = self.per_real_reg@;
        let curr_vlr = self.vlr_env.at(x);
        let vreg = curr_vlr.vreg;
        let sri_vec = collect_bridges(func, curr_vlr, &self.frag_env);
        let num_slots = func.get_spillslot_size(vreg.get_class());
        let ghost infos = sri_vec@;
        assert(target.vlrs.len() == st.vlrs.len() + infos.len());
        assert(target.frags.len() == st.frags.len() + infos.len());
        assert(self.vlr_env@.len() == st.vlrs.len());
        if sri_vec.len() as u64 > (u32::MAX - self.vlr_env.len()) as u64 || sri_vec.len() as u64 > (
        u32::MAX - self.frag_env.len()) as u64 || !self.next_spill_slot.has_room(num_slots) {
            return false;
        }
        proof {
            lemma_rounded_up(st.next_slot, num_slots as int);
        }
        let slot = self.next_spill_slot.round_up(num_slots);
        let ghost full = st.bridged(vreg, infos, slot);
        assert(full.vlrs.len() == st.vlrs.len() + infos.len());
        assert(full.frags.len() == st.frags.len() + infos.len());
        assert(self.state() =~= st.bridged(vreg, infos.take(0), slot)) by {
            let none = st.bridged(vreg, infos.take(0), slot);
            assert(none.queue =~= st.queue);
            assert(none.vlrs =~= st.vlrs);
            assert(none.frags =~= st.frags);
            assert(none.edits =~= st.edits);
        }
        let mut n: usize = 0;
        while n < sri_vec.len()
            invariant
                infos == sri_vec@,
                n <= infos.len(),
                st.vlrs.len() + infos.len() <= u32::MAX,
                st.frags.len() + infos.len() <= u32::MAX,
                self.wf(),
                self.state() == st.bridged(vreg, infos.take(n as int), slot),
                self.per_real_reg@ == regs,
            decreases infos.len() - n,
        {
            let ghost before = self.state();
            let ghost fenv = self.frag_env@;
            let sri = sri_vec[n];
            assert(self.state().vlrs.len() == st.vlrs.len() + n);
            assert(self.vlr_env@.len() == self.state().vlrs.len());
            assert(self.state().frags.len() == st.frags.len() + n);
            let new_vlr_fix = RangeFragIx::new(self.frag_env.len());
            self.frag_env.push(sri.frag());
            let new_vlr = VirtualRange {
                vreg,
                rreg: None,
                sortedFrags: SortedRangeFragIxs::unit(new_vlr_fix),
                size: 1,
                spillCost: None,
            };
            let new_vlrix = VirtualRangeIx::new(self.vlr_env.len());
            assert(new_vlr@ =~= st.bridge_vlr(vreg, n as int));
            self.vlr_env.push(new_vlr);
            self.prioQ.add_VirtualRange(new_vlrix);
            self.edit_list.push(EditListItem { slot, vlrix: new_vlrix, kind: sri.kind });
            proof {
                let next = st.bridged(vreg, infos.take(n + 1), slot);
                assert(infos.take(n + 1)[n as int] == sri);
                assert(self.state().queue =~= next.queue);
                assert(next.vlrs =~= before.vlrs.push(st.bridge_vlr(vreg, n as int)));
                assert(self.state().vlrs =~= before.vlrs.push(new_vlr@));
                assert(self.state().frags =~= next.frags);
                assert(self.state().edits =~= next.edits);
                assert(self.state() =~= next);
                assert forall|j: int| 0 <= j < self.per_real_reg@.len() implies (
                #[trigger] self.per_real_reg@[j]).wf(self.frag_env@) by {
                    assert(regs[j].wf(fenv));
                    lemma_frags_sorted_extend(fenv, self.frag_env@, regs[j].frags_in_use@);
                }
            }
            n += 1;
        }
        assert(infos.take(n as int) =~= infos);
        self.next_spill_slot = slot.inc(num_slots);
        assert(self.state() =~= target);
        true
    }

    /// One turn: the longest range leaves the queue. It goes to a register that has room for it,
    /// or to one where room can be made, or else it is spilled. Where it can not be, it is just out
    /// of the queue. Otherwise the next turn can be taken.
    pub fn take_turn<F: Function>(&mut self, func: &F, reg_universe: &RealRegUniverse) -> (r:
        Progress)
        requires
            old(self).wf(),
            reg_universe.wf(),
            exists|fixed: Seq<Set<RangeFragIx>>| #[trigger]
                old(self).state().inv(setting_of(func, *reg_universe), fixed, None),
            old(self).state().fits(),
        ensures
            final(self).wf(),
            r == progress(setting_of(func, *reg_universe), old(self).state()),
            final(self).state() == ({
                let st = old(self).state();
                let rest = st.taken(longest_at(st.queue, st.vlrs));
                match turn(setting_of(func, *reg_universe), st) {
                    Turn::Next(next) => if next.fits() {
                        next
                    } else {
                        rest
                    },
                    Turn::Done => st,
                    Turn::NoRegsForClass(_) => rest,
                    Turn::OutOfRegs => rest,
                }
            }),
            r is OverLimit <==> {
                let t = turn(setting_of(func, *reg_universe), old(self).state());
                t matches Turn::Next(next) && !next.fits()
            },
            roles_ok(setting_of(func, *reg_universe)) && (r is Placed || r is Replaced
                || r is Spilled) ==> {
                &&& final(self).state().fits()
                &&& exists|fixed: Seq<Set<RangeFragIx>>| #[trigger]
                    final(self).state().inv(setting_of(func, *reg_universe), fixed, None)
            },
    {
        let ghost setting = setting_of(func, *reg_universe);
        let ghost st = self.state();
        let ghost fixed = choose|fixed: Seq<Set<RangeFragIx>>| #[trigger]
            st.inv(setting, fixed, None);
        proof {
            if let Turn::Next(next) = turn(setting, st) {
                if roles_ok(setting) && next.fits() {
                    lemma_turn(setting, fixed, st, next);
                }
            }
        }
        if self.prioQ.is_empty() {
            return Progress::Done;
        }
        let ghost q = longest_at(st.queue, st.vlrs);
        let ghost rest = st.taken(q);
        proof {
            lemma_turn_start(setting, fixed, st);
            assert forall|i: int| 0 <= i < st.queue.len() implies (#[trigger] st.queue[i]).pos()
                < self.vlr_env@.len() by {
                assert(st.queue.contains(st.queue[i]));
            }
            assert(vlr_ok(setting, st.frags, st.vlr(st.queue[q])));
            assert(self.vlr_env@[self.prioQ@[q].pos()].size > 0);
        }
        let curr_vlrix = match self.prioQ.get_longest_VirtualRange(&self.vlr_env) {
            Some(x) => x,
            None => {
                return Progress::Done;
            },
        };
        let ghost x = st.queue[q];
        let ghost vlr = st.vlr(x);
        proof {
            assert(self.state() =~= rest);
            assert(curr_vlrix == x);
            assert(vlr_ok(setting, rest.frags, rest.vlr(x)));
            self.lemma_holds_assigned(setting, fixed, Some(x));
        }
        let class = self.vlr_env.at(curr_vlrix).vreg.get_class();
        let (first, last) = match reg_universe.allocable_by_class[class.rc_to_usize()] {
            None => {
                return Progress::NoRegsForClass { vlrix: curr_vlrix, class };
            },
            Some((first, last)) => (first, last),
        };
        assert(setting.universe.class_range(class) == Some((first, last)));
        if let Some(i) = self.find_room(curr_vlrix, first, last) {
            let rreg = reg_universe.regs[i].0;
            assert(rreg == setting.universe.reg_seq()[i as int]);
            self.place(curr_vlrix, i, rreg);
            return Progress::Placed { vlrix: curr_vlrix, rreg };
        }
        let site = self.find_site(curr_vlrix, first, last);
        assert forall|c: int| st.is_best_site(vlr, first as int, last as int, c)
            == rest.is_best_site(vlr, first as int, last as int, c) by {
            assert forall|j: int| st.can_evict(vlr, j) == rest.can_evict(vlr, j) by {}
            assert forall|j: int| st.evict_cost(vlr, j) == rest.evict_cost(vlr, j) by {}
        }
        if let Some((i, vlrix_to_evict)) = site {
            proof {
                assert(rest.is_best_site(vlr, first as int, last as int, i as int));
                st.lemma_best_site_unique(vlr, first as int, last as int, i as int);
                lemma_victim(setting, fixed, rest, x, i as int);
            }
            self.evict(vlrix_to_evict, i);
            assert(self.state().regs.len() == rest.regs.len());
            assert(self.state().vlrs.len() == rest.vlrs.len());
            let rreg = reg_universe.regs[i].0;
            assert(rreg == setting.universe.reg_seq()[i as int]);
            self.place(curr_vlrix, i, rreg);
            return Progress::Replaced { vlrix: curr_vlrix, evicted: vlrix_to_evict, rreg };
        }
        assert(st.best_site(vlr, first as int, last as int) is None);
        // A range that exists because of spilling can not be spilled again.
        if self.vlr_env.at(curr_vlrix).spillCost.is_none() {
            return Progress::OutOfRegs { vlrix: curr_vlrix };
        }
        if self.spill(func, curr_vlrix, Ghost(*reg_universe)) {
            Progress::Spilled { vlrix: curr_vlrix }
        } else {
            Progress::OverLimit { vlrix: curr_vlrix }
        }
    }

    /// In a state in which all is well, registers are committed to what is assigned to them.
    proof fn lemma_holds_assigned<I>(
        &self,
        setting: Setting<I>,
        fixed: Seq<Set<RangeFragIx>>,
        hand: Option<VirtualRangeIx>,
    )
        requires
            self.state().inv(setting, fixed, hand),
        ensures
            self.holds_assigned(),
    {
        let st = self.state();
        assert forall|i: int| 0 <= i < self.per_real_reg@.len() implies (
        #[trigger] self.per_real_reg@[i]).holds_assigned(st.vlrs, st.frags) by {
            let reg = self.per_real_reg@[i]@;
            assert(st.regs[i] == reg);
            assert forall|j: int| 0 <= j < reg.assigned.len() implies {
                &&& (#[trigger] reg.assigned[j]).pos() < st.vlrs.len()
                &&& frags_sorted(st.frags, st.vlrs[reg.assigned[j].pos()].frags)
                &&& st.vlrs[reg.assigned[j].pos()].frags.to_set().subset_of(reg.frags)
            } by {
                let x = reg.assigned[j];
                assert(reg.assigned.contains(x));
                assert(st.at_reg(x, i));
                assert(vlr_ok(setting, st.frags, st.vlr(x)));
                assert forall|f: RangeFragIx| st.vlr(x).frags.to_set().contains(
                    f,
                ) implies reg.frags.contains(f) by {
                    assert(st.held_by_vlr(i, f));
                }
            }
        }
    }

    /// Takes turns until every range has a register, or until one can not get any.
    pub fn allocate<F: Function>(&mut self, func: &F, reg_universe: &RealRegUniverse) -> (r: Result<
        (),
        String,
    >)
        requires
            old(self).wf(),
            reg_universe.wf(),
            roles_ok(setting_of(func, *reg_universe)),
            exists|fixed: Seq<Set<RangeFragIx>>| #[trigger]
                old(self).state().inv(setting_of(func, *reg_universe), fixed, None),
            stays_within_limits(setting_of(func, *reg_universe), old(self).state()),
        ensures
            final(self).wf(),
            exists|st: AllocState| #[trigger]
                comes_to(setting_of(func, *reg_universe), old(self).state(), st) && match turn(
                    setting_of(func, *reg_universe),
                    st,
                ) {
                    Turn::Done => r is Ok && final(self).state() == st,
                    t => r matches Err(text) && text@ == failure_text(t),
                },
    {
        let ghost setting = setting_of(func, *reg_universe);
        let ghost start = self.state();
        let ghost fixed = choose|fixed: Seq<Set<RangeFragIx>>| #[trigger]
            start.inv(setting, fixed, None);
        proof {
            lemma_reaches_start(setting, start);
        }
        loop
            invariant
                setting == setting_of(func, *reg_universe),
                start == old(self).state(),
                reg_universe.wf(),
                roles_ok(setting),
                stays_within_limits(setting, start),
                self.wf(),
                self.state().inv(setting, fixed, None),
                reaches(setting, start, self.state()),
            decreases
                spillable(self.state()).len(),
                weight(self.state().queue, self.state().vlrs),
        {
            let ghost st = self.state();
            proof {
                assert(st.fits());
                if let Turn::Next(next) = turn(setting, st) {
                    lemma_reaches_next(setting, start, st, next);
                    assert(next.fits());
                    lemma_turn(setting, fixed, st, next);
                    lemma_turn_closer(setting, fixed, st, next);
                    lemma_weight_bound(next.queue, next.vlrs);
                }
            }
            let progress = self.take_turn(func, reg_universe);
            if let Some(text) = progress.failure() {
                assert(comes_to(setting, start, st));
                return Err(text);
            }
            if let Progress::Done = progress {
                assert(comes_to(setting, start, st));
                return Ok(());
            }
        }
    }

    /// Lists the fragments of all ranges that have a register, with the virtual register that is
    /// live there and the real register that holds it: once for their starts and once for their
    /// ends.
    pub fn collect_placements(&self, reg_universe: &RealRegUniverse) -> (r: (
        RangeAllocations,
        RangeAllocations,
    ))
        requires
            self.per_real_reg@.len() == reg_universe.allocable,
            reg_universe.wf(),
            forall|x: VirtualRangeIx, i: int| #[trigger]
                self.state().at_reg(x, i) ==> x.pos() < self.vlr_env@.len(),
        ensures
            r.0@ == placements(*reg_universe, self.state()),
            r.1@ == r.0@,
    {
        let ghost st = self.state();
        let ghost f = |s: Site| placement(*reg_universe, st.vlrs, s);
        let mut by_start: RangeAllocations = Vec::new();
        let mut by_end: RangeAllocations = Vec::new();
        let mut i: usize = 0;
        assert(by_start@ =~= sites(st.regs, st.vlrs, 0).map_values(f));
        while i < reg_universe.allocable
            invariant
                st == self.state(),
                f == (|s: Site| placement(*reg_universe, st.vlrs, s)),
                self.per_real_reg@.len() == reg_universe.allocable,
                reg_universe.wf(),
                forall|x: VirtualRangeIx, i: int| #[trigger]
                    st.at_reg(x, i) ==> x.pos() < self.vlr_env@.len(),
                i <= reg_universe.allocable,
                by_start@ == sites(st.regs, st.vlrs, i as int).map_values(f),
                by_end@ == by_start@,
            decreases reg_universe.allocable - i,
        {
            let rreg = reg_universe.regs[i].0;
            assert(rreg == reg_universe.reg_seq()[i as int]);
            let reg = &self.per_real_reg[i];
            let ghost assigned = reg@.assigned;
            let ghost before = sites(st.regs, st.vlrs, i as int);
            assert(st.regs[i as int].assigned == assigned);
            let mut j: usize = 0;
            assert(before + reg_sites(i as int, assigned.take(0), st.vlrs) =~= before);
            while j < reg.vlrixs_assigned.len()
                invariant
                    st == self.state(),
                    f == (|s: Site| placement(*reg_universe, st.vlrs, s)),
                    forall|x: VirtualRangeIx, i: int| #[trigger]
                        st.at_reg(x, i) ==> x.pos() < self.vlr_env@.len(),
                    i < st.regs.len(),
                    assigned == reg@.assigned,
                    st.regs[i as int].assigned == assigned,
                    rreg == reg_universe.reg_seq()[i as int],
                    j <= assigned.len(),
                    by_start@ == (before + reg_sites(
                        i as int,
                        assigned.take(j as int),
                        st.vlrs,
                    )).map_values(f),
                    by_end@ == by_start@,
                decreases assigned.len() - j,
            {
                let x = reg.vlrixs_assigned[j];
                proof {
                    assert(x == assigned[j as int]);
                    assert(assigned.contains(x));
                    assert(st.at_reg(x, i as int));
                }
                let vlr = self.vlr_env.at(x);
                assert(st.vlrs[x.pos()] == vlr@);
                let ghost so_far = before + reg_sites(
                    i as int,
                    assigned.take(j as int),
                    st.vlrs,
                );
                let mut k: usize = 0;
                assert(so_far + vlr_sites(i as int, x, 0) =~= so_far);
                while k < vlr.sortedFrags.fragIxs.len()
                    invariant
                        f == (|s: Site| placement(*reg_universe, st.vlrs, s)),
                        st.vlrs[x.pos()] == vlr@,
                        rreg == reg_universe.reg_seq()[i as int],
                        k <= vlr@.frags.len(),
                        by_start@ == (so_far + vlr_sites(i as int, x, k as nat)).map_values(f),
                        by_end@ == by_start@,
                    decreases vlr@.frags.len() - k,
                {
                    let entry = (vlr.sortedFrags.fragIxs[k], vlr.vreg, rreg);
                    proof {
                        let s = Site { reg: i as int, vlrix: x, frag: k as int };
                        assert(f(s) == entry);
                        assert(so_far + vlr_sites(i as int, x, (k + 1) as nat) =~= (so_far
                            + vlr_sites(i as int, x, k as nat)).push(s));
                    }
                    by_start.push(entry);
                    by_end.push(entry);
                    k += 1;
                    assert(by_start@ =~= (so_far + vlr_sites(
                        i as int,
                        x,
                        k as nat,
                    )).map_values(f));
                }
                proof {
                    assert(assigned.take(j + 1).drop_last() =~= assigned.take(j as int));
                    assert(assigned.take(j + 1).last() == x);
                    assert(so_far + vlr_sites(i as int, x, vlr@.frags.len()) =~= before
                        + reg_sites(i as int, assigned.take(j + 1), st.vlrs));
                }
                j += 1;
            }
            assert(assigned.take(j as int) =~= assigned);
            i += 1;
        }
        (by_start, by_end)
    }
}

/// The real ranges seen so far leave room for the next one of the same register.
proof fn lemma_fixed_clear(
    universe: RealRegUniverse,
    rlrs: Seq<RlrView>,
    frags: Seq<RangeFrag>,
    k: int,
    used: Set<RangeFragIx>,
)
    requires
        rlrs_ok(universe, rlrs, frags),
        0 <= k < rlrs.len(),
        rlrs[k].rreg.index < universe.allocable,
        used == fixed_frags(rlrs.take(k), rlrs[k].rreg.index as int),
    ensures
        frags_clear(frags, used, rlrs[k].frags),
        frags_sorted(frags, rlrs[k].frags),
{
    let i = rlrs[k].rreg.index as int;
    assert forall|f: RangeFragIx, j: int| #[trigger]
        used.contains(f) && 0 <= j < rlrs[k].frags.len() implies frags[f.pos()].disjoint(
        frags[(#[trigger] rlrs[k].frags[j]).pos()],
    ) by {
        let earlier = rlrs.take(k);
        let a = choose|a: int|
            0 <= a < earlier.len() && (#[trigger] earlier[a]).rreg.index == i
                && earlier[a].frags.contains(f);
        assert(rlrs[a] == earlier[a]);
        assert(frags_clear(frags, rlrs[a].frags.to_set(), rlrs[k].frags));
        assert(rlrs[a].frags.to_set().contains(f));
    }
}

/// One more real range commits its register to its fragments, and no other.
proof fn lemma_fixed_next(rlrs: Seq<RlrView>, k: int, i: int)
    requires
        0 <= k < rlrs.len(),
    ensures
        fixed_frags(rlrs.take(k + 1), i) == (if rlrs[k].rreg.index == i {
            fixed_frags(rlrs.take(k), i).union(rlrs[k].frags.to_set())
        } else {
            fixed_frags(rlrs.take(k), i)
        }),
{
    let fewer = rlrs.take(k);
    let more = rlrs.take(k + 1);
    assert forall|f: RangeFragIx| #[trigger] fixed_frags(more, i).contains(f) <==> {
        ||| fixed_frags(fewer, i).contains(f)
        ||| rlrs[k].rreg.index == i && rlrs[k].frags.contains(f)
    } by {
        if fixed_frags(more, i).contains(f) {
            let a = choose|a: int|
                0 <= a < more.len() && (#[trigger] more[a]).rreg.index == i
                    && more[a].frags.contains(f);
            if a < k {
                assert(fewer[a] == more[a]);
            }
        }
        if fixed_frags(fewer, i).contains(f) {
            let a = choose|a: int|
                0 <= a < fewer.len() && (#[trigger] fewer[a]).rreg.index == i
                    && fewer[a].frags.contains(f);
            assert(fewer[a] == more[a]);
        }
        if rlrs[k].rreg.index == i && rlrs[k].frags.contains(f) {
            assert(more[k] == rlrs[k]);
        }
    }
    if rlrs[k].rreg.index == i {
        assert(fixed_frags(more, i) =~= fixed_frags(fewer, i).union(rlrs[k].frags.to_set()));
    } else {
        assert(fixed_frags(more, i) =~= fixed_frags(fewer, i));
    }
}

} // verus!
