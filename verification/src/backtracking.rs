//! The backtracking allocator.

use crate::allocator::{setting_of, Allocator, Analysis};
use crate::course::{input_ok, lemma_initial, lemma_reaches_inv, stays_within_limits};
use crate::frags::{InstPoint, RangeFrag};
use crate::index::{RangeFragIx, TypedIx, TypedIxVec, VirtualRangeIx};
use crate::interface::{clones_faithfully, Function, RegAllocResult};
use crate::mapping::{list_in_env, RangeAllocations};
use crate::outcome::{
    edit_items, is_edited, items_of, lemma_all_covered, lemma_items_placed, lemma_orders_ok,
    lemma_placements_ok, order_ok, orders_ok, placements, written,
};
use crate::ranges::{rlr_views, vlr_views, VirtualRange};
use crate::regs::{RealReg, RealRegSet, RealRegUniverse, Reg, RegSet, Writable};
use crate::spill::{BridgeKind, EditList};
use crate::state::{comes_to, failure_text, lemma_reaches_start, turn, AllocState, Turn};
use crate::stream::{
    all_covered, all_real, all_write_real, all_writes_covered, lemma_all_writes_covered,
    lemma_spliced_real, lemma_spliced_write_real, rewrite_insns, rewritten_insns, splice,
};
use vstd::prelude::*;

verus! {

/// The real registers in a set.
pub open spec fn reals(regs: Set<Reg>) -> Set<RealReg> {
    Set::new(|r: RealReg| regs.contains(Reg::Real(r)))
}

/// Adds the registers of `regs`, all of them real ones, to `set`.
fn add_reals(set: &mut RealRegSet, regs: &RegSet)
    requires
        forall|r: Reg| #[trigger] regs@.contains(r) ==> r is Real,
    ensures
        final(set)@ == old(set)@.union(reals(regs@)),
{
    let ghost before = set@;
    let ghost elems = regs.elems@;
    let mut i: usize = 0;
    assert(set@ =~= before.union(reals(elems.take(0).to_set())));
    while i < regs.elems.len()
        invariant
            elems == regs.elems@,
            i <= elems.len(),
            forall|r: Reg| #[trigger] regs@.contains(r) ==> r is Real,
            set@ == before.union(reals(elems.take(i as int).to_set())),
        decreases elems.len() - i,
    {
        let reg = regs.elems[i];
        proof {
            assert(regs@.contains(elems[i as int]));
            assert(elems.take(i + 1) =~= elems.take(i as int).push(reg));
            elems.take(i as int).lemma_push_to_set_commute(reg);
        }
        if let Reg::Real(rreg) = reg {
            set.insert(rreg);
        }
        i += 1;
        assert(set@ =~= before.union(reals(elems.take(i as int).to_set())));
    }
    assert(elems.take(i as int) =~= elems);
}

/// The real registers that the instructions write.
fn clobbered<F: Function>(func: &F, insns: &Vec<F::Inst>) -> (r: RealRegSet)
    requires
        all_write_real(F::inst_model(), insns@),
    ensures
        r@ == written(F::inst_model(), insns@),
{
    let ghost im = F::inst_model();
    let mut res = RealRegSet::empty();
    let mut i: usize = 0;
    assert(res@ =~= written(im, insns@.take(0)));
    while i < insns.len()
        invariant
            im == F::inst_model(),
            i <= insns@.len(),
            all_write_real(im, insns@),
            res@ == written(im, insns@.take(i as int)),
        decreases insns@.len() - i,
    {
        let ghost before = res@;
        let reg_usage = func.get_regs(&insns[i]);
        let ghost uses = (im.regs)(insns@[i as int]);
        proof {
            assert(uses == reg_usage@);
            assert(uses.writes_real());
            assert forall|r: Reg| #[trigger] reg_usage.modified@.contains(
                r,
            ) implies r is Real by {
                assert(uses.writes(r));
            }
            assert forall|r: Reg| #[trigger] reg_usage.defined@.contains(
                r,
            ) implies r is Real by {
                assert(uses.writes(r));
            }
        }
        add_reals(&mut res, &reg_usage.modified);
        add_reals(&mut res, &reg_usage.defined);
        proof {
            let fewer = insns@.take(i as int);
            let more = insns@.take(i + 1);
            assert(more =~= fewer.push(insns@[i as int]));
            assert forall|r: RealReg| #[trigger] res@.contains(r) <==> written(im, more).contains(
                r,
            ) by {
                if before.contains(r) {
                    let j = choose|j: int|
                        0 <= j < fewer.len() && {
                            ||| (im.regs)(#[trigger] fewer[j]).modified.contains(Reg::Real(r))
                            ||| (im.regs)(fewer[j]).defined.contains(Reg::Real(r))
                        };
                    assert(more[j] == fewer[j]);
                }
                if uses.modified.contains(Reg::Real(r)) || uses.defined.contains(Reg::Real(r)) {
                    assert(more[i as int] == insns@[i as int]);
                }
                if written(im, more).contains(r) {
                    let j = choose|j: int|
                        0 <= j < more.len() && {
                            ||| (im.regs)(#[trigger] more[j]).modified.contains(Reg::Real(r))
                            ||| (im.regs)(more[j]).defined.contains(Reg::Real(r))
                        };
                    if j < i {
                        assert(fewer[j] == more[j]);
                    }
                }
            }
            assert(res@ =~= written(im, more));
        }
        i += 1;
    }
    assert(insns@.take(i as int) =~= insns@);
    res
}

/// The spill and reload instructions that the edit list calls for.
fn generate<F: Function>(
    func: &F,
    edit_list: &EditList,
    frag_env: &TypedIxVec<RangeFragIx, RangeFrag>,
    vlr_env: &TypedIxVec<VirtualRangeIx, VirtualRange>,
) -> (r: Vec<(InstPoint, F::Inst)>)
    requires
        orders_ok(
            edit_list@,
            vlr_views(vlr_env@),
            frag_env@,
            func.model().insns.len() as int,
        ),
    ensures
        r@ == edit_items(func.model(), edit_list@, vlr_views(vlr_env@), frag_env@),
        forall|j: int|
            0 <= j < r@.len() ==> (F::inst_model().regs)((#[trigger] r@[j]).1).only_real(),
{
    let ghost im = F::inst_model();
    let ghost m = func.model();
    let ghost vlrs = vlr_views(vlr_env@);
    let mut items: Vec<(InstPoint, F::Inst)> = Vec::new();
    let mut e: usize = 0;
    while e < edit_list.len()
        invariant
            im == F::inst_model(),
            m == func.model(),
            vlrs == vlr_views(vlr_env@),
            e <= edit_list@.len(),
            orders_ok(edit_list@, vlrs, frag_env@, m.insns.len() as int),
            items@ == edit_items(m, edit_list@.take(e as int), vlrs, frag_env@),
            forall|j: int| 0 <= j < items@.len() ==> (im.regs)((#[trigger] items@[j]).1).only_real(),
        decreases edit_list@.len() - e,
    {
        let ghost before = items@;
        let eli = edit_list[e];
        assert(order_ok(edit_list@[e as int], vlrs, frag_env@, m.insns.len() as int));
        let vlr = vlr_env.at(eli.vlrix);
        assert(vlrs[eli.vlrix.pos()] == vlr@);
        let frag = frag_env.at(vlr.sortedFrags.fragIxs[0]);
        if let Some(rreg) = vlr.rreg {
            match eli.kind {
                BridgeKind::RtoU => {
                    let reload = func.gen_reload(Writable::from_reg(rreg), eli.slot, vlr.vreg);
                    items.push((frag.first, reload));
                },
                BridgeKind::RtoS => {
                    let reload = func.gen_reload(Writable::from_reg(rreg), eli.slot, vlr.vreg);
                    let spill = func.gen_spill(eli.slot, rreg, vlr.vreg);
                    items.push((frag.first, reload));
                    items.push((frag.last, spill));
                },
                BridgeKind::DtoS => {
                    let spill = func.gen_spill(eli.slot, rreg, vlr.vreg);
                    items.push((frag.last, spill));
                },
            }
        }
        proof {
            assert(items@ =~= before + items_of(m, eli, vlr@, *frag));
            assert(edit_list@.take(e + 1).drop_last() =~= edit_list@.take(e as int));
            assert(edit_list@.take(e + 1).last() == eli);
        }
        e += 1;
    }
    assert(edit_list@.take(e as int) =~= edit_list@);
    items
}

/// Pushes an allocation into the instructions of the function: replaces virtual by real registers,
/// and adds the spills and reloads of the edit list. The lists say which register each fragment
/// has; they hold what starts, and what ends, at each instruction. They have to cover all registers
/// that the instructions write.
pub fn edit_inst_stream<F: Function>(
    func: &mut F,
    edit_list: EditList,
    frag_maps_by_start: RangeAllocations,
    frag_maps_by_end: RangeAllocations,
    frag_env: &TypedIxVec<RangeFragIx, RangeFrag>,
    vlr_env: &TypedIxVec<VirtualRangeIx, VirtualRange>,
    num_spill_slots: u32,
) -> (r: Result<RegAllocResult<F>, String>)
    requires
        clones_faithfully::<F>(),
        old(func).model().laid_out(),
        list_in_env(frag_maps_by_start@, frag_env@),
        list_in_env(frag_maps_by_end@, frag_env@),
        orders_ok(
            edit_list@,
            vlr_views(vlr_env@),
            frag_env@,
            old(func).model().insns.len() as int,
        ),
        all_writes_covered(
            F::inst_model(),
            old(func).model().insns,
            frag_maps_by_start@,
            frag_maps_by_end@,
            frag_env@,
        ),
    ensures
        r matches Ok(result) && is_edited(
            result,
            old(func).model(),
            edit_list@,
            frag_maps_by_start@,
            frag_maps_by_end@,
            vlr_views(vlr_env@),
            frag_env@,
            num_spill_slots as int,
        ),
        final(func).model() == old(func).model().with_insns(
            rewritten_insns(
                F::inst_model(),
                old(func).model(),
                frag_maps_by_start@,
                frag_maps_by_end@,
                frag_env@,
                Seq::empty(),
                old(func).model().insns.len() as int,
            ),
        ),
{
    let ghost im = F::inst_model();
    let ghost m0 = func.model();
    let ghost starts = frag_maps_by_start@;
    let ghost ends = frag_maps_by_end@;
    let len = func.insn_indices().len();
    rewrite_insns(func, frag_maps_by_start, frag_maps_by_end, frag_env);
    let ghost m = func.model();
    let items = generate(func, &edit_list, frag_env, vlr_env);
    proof {
        lemma_items_placed(m, edit_list@, vlr_views(vlr_env@), frag_env@, len as int);
    }
    let (insns, target_map, _origins) = splice(func, &items);
    proof {
        if all_covered(im, m0.insns, starts, ends, frag_env@) {
            lemma_spliced_real(im, items@, m.insns, len as int);
        }
        lemma_spliced_write_real(im, items@, m.insns, len as int);
    }
    let clobbered_registers = clobbered(func, &insns);
    Ok(RegAllocResult { insns, target_map, clobbered_registers, num_spill_slots })
}

/// Pushes the outcome of the allocator into the instructions of the function, once every range has
/// a register.
pub fn finish<F: Function>(
    func: &mut F,
    reg_universe: &RealRegUniverse,
    allocator: Allocator,
) -> (r: Result<RegAllocResult<F>, String>)
    requires
        clones_faithfully::<F>(),
        old(func).model().laid_out(),
        reg_universe.wf(),
        exists|fixed: Seq<Set<RangeFragIx>>| #[trigger]
            allocator.state().inv(setting_of(&*old(func), *reg_universe), fixed, None),
        allocator.state().queue.len() == 0,
    ensures
        ({
            let st = allocator.state();
            let places = placements(*reg_universe, st);
            &&& r matches Ok(result) && is_edited(
                result,
                old(func).model(),
                st.edits,
                places,
                places,
                st.vlrs,
                st.frags,
                st.next_slot,
            ) && all_real(F::inst_model(), result.insns@)
            &&& final(func).model() == old(func).model().with_insns(
                rewritten_insns(
                    F::inst_model(),
                    old(func).model(),
                    places,
                    places,
                    st.frags,
                    Seq::empty(),
                    old(func).model().insns.len() as int,
                ),
            )
        }),
{
    let ghost setting = setting_of(func, *reg_universe);
    let ghost st = allocator.state();
    let ghost fixed = choose|fixed: Seq<Set<RangeFragIx>>| #[trigger]
        st.inv(setting, fixed, None);
    let num_insns = func.insn_indices().len();
    proof {
        assert(st.regs.len() == reg_universe.allocable);
        assert(num_insns == setting.func.insns.len());
        lemma_placements_ok(setting, fixed, st);
        lemma_all_covered(setting, fixed, st);
        lemma_orders_ok(setting, fixed, st);
        let places = placements(*reg_universe, st);
        lemma_all_writes_covered(setting.im, setting.func.insns, places, places, st.frags);
    }
    let (frag_maps_by_start, frag_maps_by_end) = allocator.collect_placements(reg_universe);
    edit_inst_stream(
        func,
        allocator.edit_list,
        frag_maps_by_start,
        frag_maps_by_end,
        &allocator.frag_env,
        &allocator.vlr_env,
        allocator.next_spill_slot.get(),
    )
}

/// Allocates registers for a function, whose live ranges `analysis` gives.
///
/// On success the instructions of the function have real for virtual registers, and the result
/// holds them with the spills and reloads spliced in. Allocation fails where the analysis did,
/// where a range is of a class without allocable registers, and where there are too few registers
/// to even spill and reload.
pub fn alloc_main<F: Function>(
    func: &mut F,
    reg_universe: &RealRegUniverse,
    analysis: Result<Analysis, String>,
) -> (r: Result<RegAllocResult<F>, String>)
    requires
        analysis matches Ok(a) ==> {
            &&& clones_faithfully::<F>()
            &&& old(func).model().laid_out()
            &&& input_ok(
                setting_of(&*old(func), *reg_universe),
                rlr_views(a.rlr_env@),
                vlr_views(a.vlr_env@),
                a.frag_env@,
            )
            &&& stays_within_limits(
                setting_of(&*old(func), *reg_universe),
                a.start(*reg_universe),
            )
        },
    ensures
        match analysis {
            Err(e) => r matches Err(text) && text@ == e@ && final(func).model() == old(
                func,
            ).model(),
            Ok(a) => exists|st: AllocState| #[trigger]
                comes_to(
                    setting_of(&*old(func), *reg_universe),
                    a.start(*reg_universe),
                    st,
                ) && match turn(setting_of(&*old(func), *reg_universe), st) {
                    Turn::Done => {
                        let places = placements(*reg_universe, st);
                        &&& r matches Ok(result) && is_edited(
                            result,
                            old(func).model(),
                            st.edits,
                            places,
                            places,
                            st.vlrs,
                            st.frags,
                            st.next_slot,
                        ) && all_real(F::inst_model(), result.insns@)
                        &&& final(func).model() == old(func).model().with_insns(
                            rewritten_insns(
                                F::inst_model(),
                                old(func).model(),
                                places,
                                places,
                                st.frags,
                                Seq::empty(),
                                old(func).model().insns.len() as int,
                            ),
                        )
                    },
                    t => {
                        &&& r matches Err(text) && text@ == failure_text(t)
                        &&& final(func).model() == old(func).model()
                    },
                },
        },
{
    let analysis = match analysis {
        Ok(analysis) => analysis,
        Err(e) => {
            return Err(e);
        },
    };
    let ghost setting = setting_of(func, *reg_universe);
    let ghost rlrs = rlr_views(analysis.rlr_env@);
    let ghost vlrs = vlr_views(analysis.vlr_env@);
    let ghost start = analysis.start(*reg_universe);
    proof {
        lemma_reaches_start(setting, start);
        assert(start.fits());
        assert forall|x: int| 0 <= x < analysis.vlr_env@.len() implies (
        #[trigger] analysis.vlr_env@[x]).size > 0 by {
            assert(vlrs[x].rreg is None);
        }
        lemma_initial(setting, rlrs, vlrs, analysis.frag_env@);
    }
    let mut allocator = Allocator::new(analysis, reg_universe);
    let outcome = allocator.allocate(func, reg_universe);
    if let Err(text) = outcome {
        return Err(text);
    }
    let ghost st = allocator.state();
    proof {
        assert(comes_to(setting, start, st));
        lemma_reaches_inv(setting, rlrs, vlrs, analysis.frag_env@, st);
        assert(st.queue.len() == 0) by {
            if st.queue.len() > 0 {
                assert(turn(setting, st) !is Done);
            }
        }
    }
    finish(func, reg_universe, allocator)
}

} // verus!
