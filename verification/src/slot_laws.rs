//! What can be relied on of spill slots and of the orders to use them.

use crate::course::{all_fixed, lemma_reaches_inv};
use crate::frags::{point_rank, Point, RangeFrag};
use crate::index::{RangeFragIx, TypedIx, VirtualRangeIx};
use crate::laws::{gets_to, law_moves, regs_distinct, Move};
use crate::prio_queue::longest_at;
use crate::ranges::{lemma_rounded_up, rounded_up, RlrView, VlrView};
use crate::safety::{frag_ok, vlr_ok};
use crate::spill::{bridges, EditListItem};
use crate::state::{
    initial_state, lemma_reaches_induct, lemma_reaches_next, lemma_reaches_start, reaches, turn,
    AllocState, Setting, Turn,
};
use vstd::prelude::*;

verus! {

/// How many slots the virtual register of an order needs.
pub open spec fn slots_of<I>(setting: Setting<I>, st: AllocState, item: EditListItem) -> int {
    (setting.func.slot_size)(st.vlr(item.vlrix).vreg.class) as int
}

/// The slots of two orders have none in common.
pub open spec fn slots_apart<I>(
    setting: Setting<I>,
    st: AllocState,
    a: EditListItem,
    b: EditListItem,
) -> bool {
    ||| a.slot.n + slots_of(setting, st, a) <= b.slot.n
    ||| b.slot.n + slots_of(setting, st, b) <= a.slot.n
}

/// Each order has slots within the spill area, aligned to their number; two orders have the very
/// same slots, and are then for the same virtual register, or have none in common; and no two
/// orders are for one range.
pub open spec fn slots_ok<I>(setting: Setting<I>, st: AllocState) -> bool {
    &&& 0 <= st.next_slot
    &&& forall|e: int|
        0 <= e < st.edits.len() ==> {
            let item = #[trigger] st.edits[e];
            &&& item.vlrix.pos() < st.vlrs.len()
            &&& slots_of(setting, st, item) > 0
            &&& item.slot.n as int % slots_of(setting, st, item) == 0
            &&& item.slot.n + slots_of(setting, st, item) <= st.next_slot
        }
    &&& forall|d: int, e: int|
        0 <= d < e < st.edits.len() ==> {
            let a = #[trigger] st.edits[d];
            let b = #[trigger] st.edits[e];
            &&& a.vlrix != b.vlrix
            &&& a.slot == b.slot ==> st.vlr(a.vlrix).vreg == st.vlr(b.vlrix).vreg
            &&& a.slot != b.slot ==> slots_apart(setting, st, a, b)
        }
}

/// Nothing changes for the orders while ranges keep their virtual registers.
proof fn lemma_slots_same<I>(setting: Setting<I>, st: AllocState, next: AllocState)
    requires
        slots_ok(setting, st),
        next.edits == st.edits,
        next.next_slot == st.next_slot,
        next.vlrs.len() == st.vlrs.len(),
        forall|x: int| 0 <= x < st.vlrs.len() ==> (#[trigger] next.vlrs[x]).vreg == st.vlrs[x].vreg,
    ensures
        slots_ok(setting, next),
{
    assert forall|e: int| 0 <= e < next.edits.len() implies {
        let item = #[trigger] next.edits[e];
        &&& item.vlrix.pos() < next.vlrs.len()
        &&& slots_of(setting, next, item) == slots_of(setting, st, item)
        &&& next.vlr(item.vlrix).vreg == st.vlr(item.vlrix).vreg
        &&& item.slot.n as int % slots_of(setting, next, item) == 0
        &&& item.slot.n + slots_of(setting, next, item) <= next.next_slot
    } by {
        let item = st.edits[e];
        assert(next.vlrs[item.vlrix.pos()].vreg == st.vlrs[item.vlrix.pos()].vreg);
    }
    assert forall|d: int, e: int| 0 <= d < e < next.edits.len() implies {
        let a = #[trigger] next.edits[d];
        let b = #[trigger] next.edits[e];
        &&& a.vlrix != b.vlrix
        &&& a.slot == b.slot ==> next.vlr(a.vlrix).vreg == next.vlr(b.vlrix).vreg
        &&& a.slot != b.slot ==> slots_apart(setting, next, a, b)
    } by {
        let a = st.edits[d];
        let b = st.edits[e];
        assert(slots_of(setting, next, a) == slots_of(setting, st, a));
        assert(slots_of(setting, next, b) == slots_of(setting, st, b));
    }
}

/// A spill takes slots behind all that are taken.
proof fn lemma_slots_spilled<I>(setting: Setting<I>, st: AllocState, x: VirtualRangeIx)
    requires
        slots_ok(setting, st),
        x.pos() < st.vlrs.len(),
        st.spilled(setting, x).fits(),
    ensures
        slots_ok(setting, st.spilled(setting, x)),
{
    let next = st.spilled(setting, x);
    let vlr = st.vlr(x);
    let size = (setting.func.slot_size)(vlr.vreg.class) as int;
    let slot = rounded_up(st.next_slot, size);
    let infos = bridges(setting.im, setting.func.insns, vlr.vreg, st.frags, vlr.frags);
    let n = st.edits.len() as int;
    assert(size > 0);
    lemma_rounded_up(st.next_slot, size);
    assert(next.edits.len() == n + infos.len());
    assert(next.vlrs.len() == st.vlrs.len() + infos.len());
    assert forall|e: int| n <= e < next.edits.len() implies {
        let item = #[trigger] next.edits[e];
        &&& item.vlrix.pos() == st.vlrs.len() + (e - n)
        &&& item.slot.n == slot
        &&& next.vlr(item.vlrix).vreg == vlr.vreg
    } by {
        let item = next.edits[e];
        assert(item.vlrix == st.new_vlrix(e - n));
        assert(next.vlrs[item.vlrix.pos()] == st.bridge_vlr(vlr.vreg, e - n));
    }
    assert forall|e: int| 0 <= e < n implies {
        let item = #[trigger] next.edits[e];
        &&& item == st.edits[e]
        &&& item.vlrix.pos() < st.vlrs.len()
        &&& next.vlr(item.vlrix) == st.vlr(item.vlrix)
    } by {
        assert(st.edits[e].vlrix.pos() < st.vlrs.len());
    }
    assert forall|e: int| 0 <= e < next.edits.len() implies {
        let item = #[trigger] next.edits[e];
        &&& item.vlrix.pos() < next.vlrs.len()
        &&& item.slot.n as int % slots_of(setting, next, item) == 0
        &&& item.slot.n + slots_of(setting, next, item) <= next.next_slot
    } by {
        if e < n {
            assert(slots_of(setting, next, next.edits[e]) == slots_of(setting, st, st.edits[e]));
        }
    }
    assert forall|d: int, e: int| 0 <= d < e < next.edits.len() implies {
        let a = #[trigger] next.edits[d];
        let b = #[trigger] next.edits[e];
        &&& a.vlrix != b.vlrix
        &&& a.slot == b.slot ==> next.vlr(a.vlrix).vreg == next.vlr(b.vlrix).vreg
        &&& a.slot != b.slot ==> slots_apart(setting, next, a, b)
    } by {
        let a = next.edits[d];
        let b = next.edits[e];
        if e < n {
            assert(a == st.edits[d] && b == st.edits[e]);
            assert(slots_of(setting, next, a) == slots_of(setting, st, a));
            assert(slots_of(setting, next, b) == slots_of(setting, st, b));
        } else if d < n {
            assert(a == st.edits[d]);
            assert(slots_of(setting, next, a) == slots_of(setting, st, a));
            assert(slots_of(setting, st, a) > 0);
        }
    }
}

/// Every spilled range has spill slots of its own: they lie within the spill area, they are aligned
/// to their number, and orders for different virtual registers never have a slot in common.
pub proof fn law_slots_are_apart<I>(
    setting: Setting<I>,
    rlrs: Seq<RlrView>,
    vlrs: Seq<VlrView>,
    frags: Seq<RangeFrag>,
    st: AllocState,
)
    requires
        gets_to(setting, rlrs, vlrs, frags, st),
    ensures
        slots_ok(setting, st),
{
    let start = initial_state(setting.universe, rlrs, vlrs, frags);
    let fixed = all_fixed(setting, rlrs);
    let p = |a: AllocState| reaches(setting, start, a) && slots_ok(setting, a);
    lemma_reaches_start(setting, start);
    assert(p(start));
    assert forall|a: AllocState, b: AllocState|
        p(a) && #[trigger] turn(setting, a) == Turn::Next(b) implies #[trigger] p(b) by {
        lemma_reaches_inv(setting, rlrs, vlrs, frags, a);
        lemma_reaches_next(setting, start, a, b);
        assert(b.fits());
        match law_moves(setting, fixed, a, b) {
            Move::Spill { x } => {
                let rest = a.taken(longest_at(a.queue, a.vlrs));
                lemma_slots_same(setting, a, rest);
                lemma_slots_spilled(setting, rest, x);
            },
            _ => {
                lemma_slots_same(setting, a, b);
            },
        }
    }
    lemma_reaches_induct(setting, start, st, p);
}

/// The order has the value reloaded.
pub open spec fn reloads(item: EditListItem) -> bool {
    item.kind is RtoU || item.kind is RtoS
}

/// The order has the value spilled.
pub open spec fn spills(item: EditListItem) -> bool {
    item.kind is RtoS || item.kind is DtoS
}

/// Every order is for a range that can not be spilled itself, has one fragment, at one instruction,
/// and is live from the reload to the use, from the reload to the spill, or from the definition to
/// the spill, as the order has it.
pub proof fn law_orders_are_for_bridges<I>(
    setting: Setting<I>,
    rlrs: Seq<RlrView>,
    vlrs: Seq<VlrView>,
    frags: Seq<RangeFrag>,
    st: AllocState,
    e: int,
)
    requires
        gets_to(setting, rlrs, vlrs, frags, st),
        0 <= e < st.edits.len(),
    ensures
        ({
            let item = st.edits[e];
            let vlr = st.vlr(item.vlrix);
            let frag = st.frag_at(item.vlrix, 0);
            &&& item.vlrix.pos() < st.vlrs.len()
            &&& vlr.cost is None
            &&& vlr.frags.len() == 1
            &&& frag.first.iix == frag.last.iix
            &&& (frag.first.pt, frag.last.pt) == item.kind.spec_points()
            &&& frag.last.iix.pos() < setting.func.insns.len()
        }),
{
    lemma_reaches_inv(setting, rlrs, vlrs, frags, st);
    let item = st.edits[e];
    assert(item.vlrix.pos() < st.vlrs.len());
    assert(vlr_ok(setting, st.frags, st.vlr(item.vlrix)));
    assert(frag_ok(setting, st.frags[st.vlr(item.vlrix).frags[0].pos()]));
}

/// It does not matter which of several orders for one place is carried out first: once every range
/// has a register, two reloads for one instruction are to different registers, and two spills for
/// one instruction are from different registers and have no slot in common.
pub proof fn law_order_of_orders_is_immaterial<I>(
    setting: Setting<I>,
    rlrs: Seq<RlrView>,
    vlrs: Seq<VlrView>,
    frags: Seq<RangeFrag>,
    st: AllocState,
    d: int,
    e: int,
)
    requires
        gets_to(setting, rlrs, vlrs, frags, st),
        turn(setting, st) is Done,
        regs_distinct(setting.universe),
        0 <= d < st.edits.len(),
        0 <= e < st.edits.len(),
        d != e,
        st.frag_at(st.edits[d].vlrix, 0).first.iix == st.frag_at(st.edits[e].vlrix, 0).first.iix,
    ensures
        ({
            let a = st.edits[d];
            let b = st.edits[e];
            &&& st.vlr(a.vlrix).rreg is Some
            &&& st.vlr(b.vlrix).rreg is Some
            &&& reloads(a) && reloads(b) ==> st.vlr(a.vlrix).rreg != st.vlr(b.vlrix).rreg
            &&& spills(a) && spills(b) ==> {
                &&& st.vlr(a.vlrix).rreg != st.vlr(b.vlrix).rreg
                &&& slots_apart(setting, st, a, b)
            }
        }),
{
    let a = st.edits[d];
    let b = st.edits[e];
    lemma_reaches_inv(setting, rlrs, vlrs, frags, st);
    law_slots_are_apart(setting, rlrs, vlrs, frags, st);
    law_orders_are_for_bridges(setting, rlrs, vlrs, frags, st, d);
    law_orders_are_for_bridges(setting, rlrs, vlrs, frags, st, e);
    assert(st.queue.len() == 0);
    assert(a.vlrix != b.vlrix) by {
        if d < e {
            assert(st.edits[d].vlrix != st.edits[e].vlrix);
        } else {
            assert(st.edits[e].vlrix != st.edits[d].vlrix);
        }
    }
    let k = st.frag_at(a.vlrix, 0).first.iix.pos();
    if reloads(a) && reloads(b) {
        lemma_live_together(setting, all_fixed(setting, rlrs), st, a, b, point_rank(k, Point::Reload));
    }
    if spills(a) && spills(b) {
        lemma_live_together(setting, all_fixed(setting, rlrs), st, a, b, point_rank(k, Point::Spill));
        if a.slot == b.slot {
            assert(st.vlr(a.vlrix).vreg == st.vlr(b.vlrix).vreg);
        }
    }
    lemma_has_reg(setting, all_fixed(setting, rlrs), st, a.vlrix);
    lemma_has_reg(setting, all_fixed(setting, rlrs), st, b.vlrix);
}

/// Once every range has a register, so have the bridges.
proof fn lemma_has_reg<I>(
    setting: Setting<I>,
    fixed: Seq<Set<RangeFragIx>>,
    st: AllocState,
    x: VirtualRangeIx,
) -> (i: int)
    requires
        st.inv(setting, fixed, None),
        st.queue.len() == 0,
        x.pos() < st.vlrs.len(),
        st.vlr(x).cost is None,
    ensures
        st.at_reg(x, i),
        st.vlr(x).rreg == Some(setting.universe.reg_seq()[i]),
        0 <= i < setting.universe.allocable,
{
    assert(st.live(None, x));
    assert(!st.queue.contains(x));
    let i = choose|i: int| st.at_reg(x, i);
    assert(st.at_reg(x, i));
    i
}

/// Two bridges that are live at the same point are in different registers, and are for different
/// virtual registers.
proof fn lemma_live_together<I>(
    setting: Setting<I>,
    fixed: Seq<Set<RangeFragIx>>,
    st: AllocState,
    a: EditListItem,
    b: EditListItem,
    rank: int,
)
    requires
        st.inv(setting, fixed, None),
        st.queue.len() == 0,
        regs_distinct(setting.universe),
        setting.universe.wf(),
        a.vlrix != b.vlrix,
        a.vlrix.pos() < st.vlrs.len(),
        b.vlrix.pos() < st.vlrs.len(),
        st.vlr(a.vlrix).cost is None,
        st.vlr(b.vlrix).cost is None,
        st.vlr(a.vlrix).frags.len() == 1,
        st.vlr(b.vlrix).frags.len() == 1,
        st.frag_at(a.vlrix, 0).covers(rank),
        st.frag_at(b.vlrix, 0).covers(rank),
    ensures
        st.vlr(a.vlrix).rreg != st.vlr(b.vlrix).rreg,
        st.vlr(a.vlrix).vreg != st.vlr(b.vlrix).vreg,
{
    let i = lemma_has_reg(setting, fixed, st, a.vlrix);
    let j = lemma_has_reg(setting, fixed, st, b.vlrix);
    let f = st.vlr(a.vlrix).frags[0];
    let g = st.vlr(b.vlrix).frags[0];
    assert(st.live(None, a.vlrix) && st.live(None, b.vlrix));
    assert(st.owns(None, a.vlrix, 0) && st.owns(None, b.vlrix, 0));
    if i == j {
        assert(st.vlr(a.vlrix).frags.contains(f));
        assert(st.vlr(b.vlrix).frags.contains(g));
        assert(st.held_by_vlr(i, f) && st.held_by_vlr(i, g));
        assert(st.regs[i].frags.contains(f) && st.regs[i].frags.contains(g));
        assert(f != g);
        assert(st.frags[f.pos()].disjoint(st.frags[g.pos()]));
    } else {
        assert(setting.universe.reg_seq()[i] != setting.universe.reg_seq()[j]);
    }
}

} // verus!
