//! What can be relied on of the tables, of what they show, and of the small steps that change them.

use crate::allocator::{setting_of, Allocator, Analysis};
use crate::frags::{frags_clear, RangeFrag, SortedRangeFragIxs};
use crate::index::{RangeFragIx, TypedIx, VirtualRangeIx};
use crate::interface::{Function, InstRegUses};
use crate::plain::{cheaper, in_the_way, law_fragments_are_stretches_of_time, share_a_point};
use crate::prio_queue::{lemma_longest_exists, longest_at, swap_removed};
use crate::ranges::{cost_less, lemma_rounded_up, rlr_views, rounded_up, slot_behind, VlrView};
use crate::real_reg::{is_first_of, lemma_first_removed, RegView};
use crate::regs::{NUM_REG_CLASSES, RealReg, RealRegSet, RealRegUniverse, Reg, RegClass, RegSet};
use crate::turn_laws::{is_queue_without, lemma_last_cheapest};
use vstd::prelude::*;

verus! {

/// Spill costs are ordered as numbers are, with infinity above all: infinity is less than nothing,
/// and everything finite is less than infinity. So no cost is less than itself, of two costs that
/// differ one is less, and what is less than a lesser cost is less.
pub proof fn law_costs_are_ordered(a: Option<u32>, b: Option<u32>, c: Option<u32>)
    ensures
        !cost_less(None, b),
        a is Some ==> cost_less(a, None),
        a is Some && b is Some ==> (cost_less(a, b) <==> a->0 < b->0),
        !cost_less(a, a),
        a != b ==> cost_less(a, b) || cost_less(b, a),
        cost_less(a, b) && cost_less(b, c) ==> cost_less(a, c),
{
}

/// A slot is rounded up to the first one, from it on, that is aligned: it is aligned, and no slot
/// in between is. What is taken from there on ends as many slots further on; and where there is
/// nothing to align to, there is no slot behind.
pub proof fn law_slots_are_rounded_up(n: int, align: int, other: int)
    requires
        0 <= n,
        0 <= align,
    ensures
        align > 0 ==> {
            let r = rounded_up(n, align);
            &&& n <= r
            &&& r % align == 0
            &&& n <= other && other % align == 0 ==> r <= other
            &&& slot_behind(n, align) == r + align
        },
        align == 0 ==> slot_behind(n, align) > 0xffff_ffff,
{
    if align > 0 {
        lemma_rounded_up(n, align);
        let r = rounded_up(n, align);
        if n <= other && other % align == 0 && other < r {
            vstd::arithmetic::div_mod::lemma_fundamental_div_mod(other, align);
            vstd::arithmetic::div_mod::lemma_fundamental_div_mod(r, align);
            let a = other / align;
            let b = r / align;
            assert(a < b) by (nonlinear_arith)
                requires
                    align * a < align * b,
                    align > 0,
            ;
            assert(align * b >= align * a + align) by (nonlinear_arith)
                requires
                    a < b,
                    align > 0,
            ;
        }
    }
}

/// A register that gets a range has it at the end of its list, and is committed to the fragments of
/// the range as well. One that loses a range has the last entry of its list where the first entry
/// for the range was, and is committed to the fragments of the range no more. All else stays.
pub proof fn law_getting_and_losing_a_range(
    reg: RegView,
    x: VirtualRangeIx,
    vlr: VlrView,
    i: int,
)
    ensures
        ({
            let more = reg.with_vlr(x, vlr);
            &&& more.assigned.len() == reg.assigned.len() + 1
            &&& more.assigned.last() == x
            &&& forall|j: int|
                0 <= j < reg.assigned.len() ==> #[trigger] more.assigned[j] == reg.assigned[j]
            &&& forall|f: RangeFragIx| #[trigger]
                more.frags.contains(f) <==> reg.frags.contains(f) || vlr.frags.contains(f)
        }),
        0 <= i < reg.assigned.len() && reg.assigned[i] == x && (forall|j: int|
            0 <= j < i ==> #[trigger] reg.assigned[j] != x) ==> {
            let less = reg.without_vlr(x, vlr);
            &&& is_queue_without(less.assigned, reg.assigned, i)
            &&& forall|f: RangeFragIx| #[trigger]
                less.frags.contains(f) <==> reg.frags.contains(f) && !vlr.frags.contains(f)
        },
{
    if 0 <= i < reg.assigned.len() && reg.assigned[i] == x && (forall|j: int|
        0 <= j < i ==> #[trigger] reg.assigned[j] != x) {
        assert(is_first_of(reg.assigned, x, i));
        lemma_first_removed(reg.assigned, x, i);
        let less = reg.without_vlr(x, vlr);
        assert(less.assigned == swap_removed(reg.assigned, i));
    }
}

/// The state is what is in the tables: the queue as it is, for each register the fragments that it
/// is committed to and the ranges that are assigned to it, the ranges, fragments and orders, and
/// the first slot that is free.
pub proof fn law_the_state_is_what_the_tables_hold(a: Allocator)
    ensures
        ({
            let st = a.state();
            &&& st.queue == a.prioQ.unallocated@
            &&& st.regs.len() == a.per_real_reg@.len()
            &&& forall|i: int|
                0 <= i < st.regs.len() ==> (#[trigger] st.regs[i]).assigned
                    == a.per_real_reg@[i].vlrixs_assigned@
            &&& forall|i: int, f: RangeFragIx|
                0 <= i < st.regs.len() ==> (#[trigger] st.regs[i].frags.contains(f)
                    <==> a.per_real_reg@[i].frags_in_use.fragIxs@.contains(f))
            &&& st.vlrs.len() == a.vlr_env.vector@.len()
            &&& forall|x: int|
                0 <= x < st.vlrs.len() ==> {
                    let range = a.vlr_env.vector@[x];
                    &&& (#[trigger] st.vlrs[x]).vreg == range.vreg
                    &&& st.vlrs[x].rreg == range.rreg
                    &&& st.vlrs[x].frags == range.sortedFrags.fragIxs@
                    &&& st.vlrs[x].size == range.size
                    &&& st.vlrs[x].cost == range.spillCost
                }
            &&& st.frags == a.frag_env.vector@
            &&& st.edits == a.edit_list@
            &&& st.next_slot == a.next_spill_slot.n
        }),
{
}

/// An allocation starts from what the analysis says: all of its ranges wait, in their order and as
/// they are, and each allocable register is committed to the fragments over which the client uses
/// it, all of them and no others.
pub proof fn law_an_analysis_is_taken_as_it_is(a: Analysis, universe: RealRegUniverse)
    requires
        a.vlr_env.vector@.len() <= u32::MAX,
    ensures
        ({
            let st = a.start(universe);
            let ranges = a.vlr_env.vector@;
            let fixed = a.rlr_env.vector@;
            &&& st.queue.len() == ranges.len()
            &&& forall|j: int| 0 <= j < ranges.len() ==> (#[trigger] st.queue[j]).ix == j
            &&& st.vlrs.len() == ranges.len()
            &&& forall|x: int|
                0 <= x < ranges.len() ==> {
                    &&& (#[trigger] st.vlrs[x]).vreg == ranges[x].vreg
                    &&& st.vlrs[x].rreg == ranges[x].rreg
                    &&& st.vlrs[x].frags == ranges[x].sortedFrags.fragIxs@
                    &&& st.vlrs[x].size == ranges[x].size
                    &&& st.vlrs[x].cost == ranges[x].spillCost
                }
            &&& st.regs.len() == universe.allocable
            &&& forall|i: int|
                0 <= i < universe.allocable ==> (#[trigger] st.regs[i]).assigned.len() == 0
            &&& forall|a: int, j: int|
                0 <= a < fixed.len() && fixed[a].rreg.index < universe.allocable && 0 <= j
                    < fixed[a].sortedFrags.fragIxs@.len()
                    ==> st.regs[fixed[a].rreg.index as int].frags.contains(
                    #[trigger] fixed[a].sortedFrags.fragIxs@[j],
                )
            &&& forall|i: int, f: RangeFragIx|
                0 <= i < universe.allocable && #[trigger] st.regs[i].frags.contains(f)
                    ==> exists|a: int|
                    0 <= a < fixed.len() && (#[trigger] fixed[a]).rreg.index == i
                        && fixed[a].sortedFrags.fragIxs@.contains(f)
            &&& st.frags == a.frag_env.vector@
            &&& st.edits.len() == 0
            &&& st.next_slot == 0
        }),
{
    let st = a.start(universe);
    let fixed = a.rlr_env.vector@;
    let rlrs = rlr_views(a.rlr_env@);
    assert forall|b: int, j: int|
        0 <= b < fixed.len() && fixed[b].rreg.index < universe.allocable && 0 <= j
            < fixed[b].sortedFrags.fragIxs@.len() implies st.regs[
        fixed[b].rreg.index as int].frags.contains(#[trigger] fixed[b].sortedFrags.fragIxs@[j]) by {
        assert(rlrs[b] == fixed[b]@);
        assert(rlrs[b].frags.contains(fixed[b].sortedFrags.fragIxs@[j]));
    }
    assert forall|i: int, f: RangeFragIx|
        0 <= i < universe.allocable && #[trigger] st.regs[i].frags.contains(
            f,
        ) implies exists|b: int|
        0 <= b < fixed.len() && (#[trigger] fixed[b]).rreg.index == i
            && fixed[b].sortedFrags.fragIxs@.contains(f) by {
        let b = choose|b: int|
            0 <= b < rlrs.len() && (#[trigger] rlrs[b]).rreg.index == i && rlrs[b].frags.contains(
                f,
            );
        assert(rlrs[b] == fixed[b]@);
        assert(fixed[b].rreg.index == i);
    }
}

/// The function and the machine are taken as they are.
pub proof fn law_a_setting_is_the_function_and_the_machine<F: Function>(
    func: F,
    universe: RealRegUniverse,
)
    ensures
        setting_of(&func, universe).im == F::inst_model(),
        setting_of(&func, universe).func == func.model(),
        setting_of(&func, universe).universe == universe,
{
}

/// A set of registers has the registers of its list, and what an instruction uses, defines and
/// modifies are the registers of the three sets.
pub proof fn law_sets_are_what_they_hold(
    uses: InstRegUses,
    regs: RegSet,
    reals: RealRegSet,
    frags: SortedRangeFragIxs,
)
    ensures
        forall|r: Reg| #[trigger] regs@.contains(r) <==> regs.elems@.contains(r),
        forall|r: RealReg| #[trigger] reals@.contains(r) <==> reals.elems@.contains(r),
        frags@ == frags.fragIxs@,
        forall|r: Reg| #[trigger] uses@.used.contains(r) <==> uses.used.elems@.contains(r),
        forall|r: Reg| #[trigger] uses@.defined.contains(r) <==> uses.defined.elems@.contains(r),
        forall|r: Reg| #[trigger] uses@.modified.contains(r) <==> uses.modified.elems@.contains(r),
{
}

/// The classes are numbered in their order, and there are as many as there are numbers.
pub proof fn law_classes_are_numbered(class: RegClass)
    ensures
        class.rank() == (match class {
            RegClass::I32 => 0int,
            RegClass::F32 => 1,
            RegClass::I64 => 2,
            RegClass::F64 => 3,
            RegClass::V128 => 4,
        }),
        NUM_REG_CLASSES == 5,
{
}

/// The fragments are not empty, wherever they are named.
pub open spec fn are_not_empty(frags: Seq<RangeFrag>, reg: RegView, vlr: VlrView) -> bool {
    &&& forall|f: RangeFragIx| #[trigger] reg.frags.contains(f) ==> frags[f.pos()].wf()
    &&& forall|j: int| 0 <= j < vlr.frags.len() ==> frags[(#[trigger] vlr.frags[j]).pos()].wf()
}

/// The range at position `j` of those that are assigned to the register can make way for `vlr`: it
/// is cheaper, and all that is in the way belongs to it.
pub open spec fn can_leave(
    reg: RegView,
    vlr: VlrView,
    vlrs: Seq<VlrView>,
    frags: Seq<RangeFrag>,
    j: int,
) -> bool {
    &&& 0 <= j < reg.assigned.len()
    &&& cheaper(vlrs[reg.assigned[j].ix as int], vlr)
    &&& forall|f: RangeFragIx| #[trigger]
        reg.frags.contains(f) && in_the_way(frags, f, vlr)
            ==> vlrs[reg.assigned[j].ix as int].frags.contains(f)
}

proof fn lemma_nothing_in_the_way(
    frags: Seq<RangeFrag>,
    reg: RegView,
    vlr: VlrView,
    ixs: Set<RangeFragIx>,
)
    requires
        are_not_empty(frags, reg, vlr),
        ixs.subset_of(reg.frags),
    ensures
        frags_clear(frags, ixs, vlr.frags) <==> forall|f: RangeFragIx| #[trigger]
            ixs.contains(f) ==> !in_the_way(frags, f, vlr),
{
    assert forall|f: RangeFragIx, j: int| #[trigger]
        ixs.contains(f) && 0 <= j < vlr.frags.len() implies (frags[f.pos()].disjoint(
        frags[(#[trigger] vlr.frags[j]).pos()],
    ) <==> !share_a_point(frags[f.ix as int], frags[vlr.frags[j].ix as int])) by {
        assert(reg.frags.contains(f));
        law_fragments_are_stretches_of_time(frags[f.pos()], frags[vlr.frags[j].pos()]);
    }
    if frags_clear(frags, ixs, vlr.frags) {
        assert forall|f: RangeFragIx| #[trigger] ixs.contains(f) implies !in_the_way(
            frags,
            f,
            vlr,
        ) by {
            assert forall|j: int| 0 <= j < vlr.frags.len() implies !share_a_point(
                frags[f.ix as int],
                frags[(#[trigger] vlr.frags[j]).ix as int],
            ) by {
                assert(frags[f.pos()].disjoint(frags[vlr.frags[j].pos()]));
            }
        }
    } else {
        let (f, j) = choose|f: RangeFragIx, j: int|
            #[trigger] ixs.contains(f) && 0 <= j < vlr.frags.len() && !frags[f.pos()].disjoint(
                frags[(#[trigger] vlr.frags[j]).pos()],
            );
        assert(share_a_point(frags[f.ix as int], frags[vlr.frags[j].ix as int]));
        assert(in_the_way(frags, f, vlr));
    }
}

/// A register has room for a range if nothing that it is committed to is in the way.
pub proof fn law_when_a_register_has_room(frags: Seq<RangeFrag>, reg: RegView, vlr: VlrView)
    requires
        are_not_empty(frags, reg, vlr),
    ensures
        reg.fits(vlr, frags) <==> forall|f: RangeFragIx| #[trigger]
            reg.frags.contains(f) ==> !in_the_way(frags, f, vlr),
{
    lemma_nothing_in_the_way(frags, reg, vlr, reg.frags);
}

/// The range that should leave a register to make way for another is the cheapest of those that
/// can, and the last of these where several cost the same; and there is one if any range can leave.
pub proof fn law_which_range_should_leave(
    frags: Seq<RangeFrag>,
    reg: RegView,
    vlr: VlrView,
    vlrs: Seq<VlrView>,
)
    requires
        are_not_empty(frags, reg, vlr),
    ensures
        match reg.best_evict(vlr, vlrs, frags) {
            Some(j) => {
                &&& can_leave(reg, vlr, vlrs, frags, j)
                &&& reg.cost_at(vlrs, j) == vlrs[reg.assigned[j].ix as int].cost->0
                &&& forall|k: int| #[trigger]
                    can_leave(reg, vlr, vlrs, frags, k) ==> {
                        let cost = vlrs[reg.assigned[j].ix as int].cost->0;
                        let other = vlrs[reg.assigned[k].ix as int].cost->0;
                        cost <= other && (j < k ==> cost < other)
                    }
            },
            None => forall|k: int| !#[trigger] can_leave(reg, vlr, vlrs, frags, k),
        },
{
    assert forall|j: int| #[trigger] reg.evictable(vlr, vlrs, frags, j) <==> can_leave(
        reg,
        vlr,
        vlrs,
        frags,
        j,
    ) by {
        if 0 <= j < reg.assigned.len() {
            let cand = vlrs[reg.assigned[j].pos()];
            let rest = reg.frags.difference(cand.frags.to_set());
            lemma_nothing_in_the_way(frags, reg, vlr, rest);
            assert forall|f: RangeFragIx| #[trigger] rest.contains(f) <==> reg.frags.contains(f)
                && !cand.frags.contains(f) by {}
            if frags_clear(frags, rest, vlr.frags) {
                assert forall|f: RangeFragIx| #[trigger]
                    reg.frags.contains(f) && in_the_way(
                        frags,
                        f,
                        vlr,
                    ) implies cand.frags.contains(f) by {
                    if !cand.frags.contains(f) {
                        assert(rest.contains(f));
                    }
                }
            }
        }
    }
    if exists|j: int| reg.is_best_evict(vlr, vlrs, frags, j) {
        let j = choose|j: int| reg.is_best_evict(vlr, vlrs, frags, j);
        assert(reg.evictable(vlr, vlrs, frags, j));
        assert forall|k: int| #[trigger] can_leave(reg, vlr, vlrs, frags, k) implies {
            let cost = vlrs[reg.assigned[j].ix as int].cost->0;
            let other = vlrs[reg.assigned[k].ix as int].cost->0;
            cost <= other && (j < k ==> cost < other)
        } by {
            assert(reg.evictable(vlr, vlrs, frags, k));
        }
    } else {
        assert forall|k: int| !#[trigger] can_leave(reg, vlr, vlrs, frags, k) by {
            if can_leave(reg, vlr, vlrs, frags, k) {
                let will_do = |j: int| reg.evictable(vlr, vlrs, frags, j);
                let cost = |j: int| reg.cost_at(vlrs, j) as int;
                assert(reg.evictable(vlr, vlrs, frags, k));
                let best = lemma_last_cheapest(will_do, cost, 0, reg.assigned.len() as int, k);
                assert(reg.is_best_evict(vlr, vlrs, frags, best)) by {
                    assert forall|j: int| #[trigger]
                        reg.evictable(vlr, vlrs, frags, j) implies {
                        &&& reg.cost_at(vlrs, best) <= reg.cost_at(vlrs, j)
                        &&& best < j ==> reg.cost_at(vlrs, best) < reg.cost_at(vlrs, j)
                    } by {
                        assert(will_do(j));
                    }
                }
            }
        }
    }
}

/// The range that leaves the queue first is a longest one, and of these the one that waits first;
/// the last entry takes its place, and all others stay where they are.
pub proof fn law_the_longest_range_leaves_first(queue: Seq<VirtualRangeIx>, vlrs: Seq<VlrView>)
    requires
        queue.len() > 0,
    ensures
        ({
            let q = longest_at(queue, vlrs);
            &&& 0 <= q < queue.len()
            &&& forall|j: int|
                0 <= j < queue.len() ==> vlrs[(#[trigger] queue[j]).ix as int].size
                    <= vlrs[queue[q].ix as int].size
            &&& forall|j: int|
                0 <= j < q ==> vlrs[(#[trigger] queue[j]).ix as int].size
                    < vlrs[queue[q].ix as int].size
            &&& is_queue_without(swap_removed(queue, q), queue, q)
        }),
{
    lemma_longest_exists(queue, vlrs);
}

} // verus!
