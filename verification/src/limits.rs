//! When the tables are sure to stay within their limits.

use crate::course::{
    all_fixed, input_ok, lemma_all_vlrixs, lemma_initial, lemma_turn, lemma_turn_closer, spillable,
    stays_within_limits,
};
use crate::frags::RangeFrag;
use crate::index::{RangeFragIx, TypedIx, VirtualRangeIx};
use crate::laws::{kept, law_moves, law_turn_keeps, lemma_kept_trans, Move};
use crate::prio_queue::longest_at;
use crate::ranges::{lemma_rounded_up, RlrView, VlrView};
use crate::regs::VirtualReg;
use crate::safety::vlr_ok;
use crate::spill::bridges;
use crate::spill_laws::law_spilling_takes_few_bridges;
use crate::state::{initial_state, lemma_reaches_induct, reaches, turn, AllocState, Setting, Turn};
use vstd::prelude::*;

verus! {

/// How many bridges spilling range `x` takes.
pub open spec fn num_bridges<I>(
    setting: Setting<I>,
    vlrs: Seq<VlrView>,
    frags: Seq<RangeFrag>,
    x: int,
) -> nat {
    bridges(setting.im, setting.func.insns, vlrs[x].vreg, frags, vlrs[x].frags).len()
}

/// How many bridges spilling those of the first `n` ranges takes that are in `set`.
pub open spec fn total_bridges<I>(
    setting: Setting<I>,
    vlrs: Seq<VlrView>,
    frags: Seq<RangeFrag>,
    set: Set<VirtualRangeIx>,
    n: int,
) -> int
    decreases n,
{
    if n <= 0 {
        0
    } else {
        total_bridges(setting, vlrs, frags, set, n - 1) + (if set.contains(
            VirtualRangeIx { ix: (n - 1) as u32 },
        ) {
            num_bridges(setting, vlrs, frags, n - 1) as int
        } else {
            0
        })
    }
}

/// How many slots spilling those of the first `n` ranges takes at most that are in `set`: for each
/// its own, and as many again for alignment.
pub open spec fn total_slots<I>(
    setting: Setting<I>,
    vlrs: Seq<VlrView>,
    set: Set<VirtualRangeIx>,
    n: int,
) -> int
    decreases n,
{
    if n <= 0 {
        0
    } else {
        total_slots(setting, vlrs, set, n - 1) + (if set.contains(
            VirtualRangeIx { ix: (n - 1) as u32 },
        ) {
            2 * (setting.func.slot_size)(vlrs[n - 1].vreg.class) as int
        } else {
            0
        })
    }
}

/// The ranges whose spill cost is finite.
pub open spec fn finite_cost(vlrs: Seq<VlrView>) -> Set<VirtualRangeIx> {
    Set::new(|x: VirtualRangeIx| x.pos() < vlrs.len() && vlrs[x.pos()].cost is Some)
}

/// The tables and the spill area have room for what spilling every range that can be spilled would
/// add to them, and the spill slots of each of these have a size.
pub open spec fn room_for_spills<I>(
    setting: Setting<I>,
    vlrs: Seq<VlrView>,
    frags: Seq<RangeFrag>,
) -> bool {
    let n = vlrs.len() as int;
    let more = total_bridges(setting, vlrs, frags, finite_cost(vlrs), n);
    &&& n + more <= u32::MAX
    &&& frags.len() + more <= u32::MAX
    &&& total_slots(setting, vlrs, finite_cost(vlrs), n) <= u32::MAX
    &&& slots_have_size(setting, vlrs)
}

/// The spill slots of each range that can be spilled have a size.
pub open spec fn slots_have_size<I>(setting: Setting<I>, vlrs: Seq<VlrView>) -> bool {
    forall|x: int|
        0 <= x < vlrs.len() && (#[trigger] vlrs[x]).cost is Some ==> (setting.func.slot_size)(
            vlrs[x].vreg.class,
        ) > 0
}

pub proof fn lemma_totals_nonneg<I>(
    setting: Setting<I>,
    vlrs: Seq<VlrView>,
    frags: Seq<RangeFrag>,
    set: Set<VirtualRangeIx>,
    n: int,
)
    ensures
        total_bridges(setting, vlrs, frags, set, n) >= 0,
        total_slots(setting, vlrs, set, n) >= 0,
    decreases n,
{
    if n > 0 {
        lemma_totals_nonneg(setting, vlrs, frags, set, n - 1);
    }
}

/// A range that leaves the set takes its share with it.
proof fn lemma_totals_remove<I>(
    setting: Setting<I>,
    vlrs: Seq<VlrView>,
    frags: Seq<RangeFrag>,
    set: Set<VirtualRangeIx>,
    x: VirtualRangeIx,
    n: int,
)
    requires
        set.contains(x),
        0 <= n <= u32::MAX,
    ensures
        total_bridges(setting, vlrs, frags, set.remove(x), n) == total_bridges(
            setting,
            vlrs,
            frags,
            set,
            n,
        ) - (if x.pos() < n {
            num_bridges(setting, vlrs, frags, x.pos()) as int
        } else {
            0
        }),
        total_slots(setting, vlrs, set.remove(x), n) == total_slots(setting, vlrs, set, n) - (
        if x.pos() < n {
            2 * (setting.func.slot_size)(vlrs[x.pos()].vreg.class) as int
        } else {
            0
        }),
    decreases n,
{
    if n > 0 {
        lemma_totals_remove(setting, vlrs, frags, set, x, n - 1);
        let y = VirtualRangeIx { ix: (n - 1) as u32 };
        if x.pos() == n - 1 {
            assert(x == y);
        } else {
            assert(x != y);
        }
    }
}

/// The bridges of a range do not depend on what else is in the environment.
proof fn lemma_bridges_same<I>(
    setting: Setting<I>,
    vreg: VirtualReg,
    fenv: Seq<RangeFrag>,
    wider: Seq<RangeFrag>,
    ixs: Seq<RangeFragIx>,
)
    requires
        fenv.is_prefix_of(wider),
        forall|i: int| 0 <= i < ixs.len() ==> (#[trigger] ixs[i]).pos() < fenv.len(),
    ensures
        bridges(setting.im, setting.func.insns, vreg, wider, ixs) == bridges(
            setting.im,
            setting.func.insns,
            vreg,
            fenv,
            ixs,
        ),
    decreases ixs.len(),
{
    if ixs.len() > 0 {
        assert forall|i: int| 0 <= i < ixs.drop_last().len() implies (
        #[trigger] ixs.drop_last()[i]).pos() < fenv.len() by {
            assert(ixs.drop_last()[i] == ixs[i]);
        }
        lemma_bridges_same(setting, vreg, fenv, wider, ixs.drop_last());
        assert(ixs[ixs.len() - 1].pos() < fenv.len());
        assert(wider[ixs.last().pos()] == fenv[ixs.last().pos()]);
    }
}

/// What the tables hold, together with what spilling all that can still be spilled would add, is no
/// more than at the start.
pub open spec fn within<I>(
    setting: Setting<I>,
    start: AllocState,
    st: AllocState,
) -> bool {
    let n = start.vlrs.len() as int;
    let still = total_bridges(setting, start.vlrs, start.frags, spillable(st), n);
    let first = total_bridges(setting, start.vlrs, start.frags, finite_cost(start.vlrs), n);
    &&& 0 <= st.next_slot
    &&& st.vlrs.len() + still <= n + first
    &&& st.frags.len() + still <= start.frags.len() + first
    &&& st.next_slot + total_slots(setting, start.vlrs, spillable(st), n) <= total_slots(
        setting,
        start.vlrs,
        finite_cost(start.vlrs),
        n,
    )
    &&& forall|x: VirtualRangeIx| #[trigger] spillable(st).contains(x) ==> x.pos() < n
}

/// What spilling a range adds has been accounted for.
proof fn lemma_spill_within<I>(
    setting: Setting<I>,
    fixed: Seq<Set<RangeFragIx>>,
    start: AllocState,
    st: AllocState,
    x: VirtualRangeIx,
)
    requires
        start.vlrs.len() <= u32::MAX,
        start.vlrs_ok(setting),
        slots_have_size(setting, start.vlrs),
        kept(start, st),
        within(setting, start, st),
        spillable(st).contains(x),
    ensures
        ({
            let n = start.vlrs.len() as int;
            let rest = st.taken(longest_at(st.queue, st.vlrs));
            let next = rest.spilled(setting, x);
            let left = spillable(st).remove(x);
            let still = total_bridges(setting, start.vlrs, start.frags, left, n);
            let first = total_bridges(setting, start.vlrs, start.frags, finite_cost(start.vlrs), n);
            &&& 0 <= next.next_slot
            &&& next.vlrs.len() + still <= n + first
            &&& next.frags.len() + still <= start.frags.len() + first
            &&& next.next_slot + total_slots(setting, start.vlrs, left, n) <= total_slots(
                setting,
                start.vlrs,
                finite_cost(start.vlrs),
                n,
            )
        }),
{
    let n = start.vlrs.len() as int;
    lemma_totals_remove(setting, start.vlrs, start.frags, spillable(st), x, n);
    let vlr0 = start.vlr(x);
    assert(st.vlrs[x.pos()].vreg == vlr0.vreg);
    assert(vlr_ok(setting, start.frags, vlr0));
    lemma_bridges_same(setting, vlr0.vreg, start.frags, st.frags, vlr0.frags);
    let size = (setting.func.slot_size)(vlr0.vreg.class) as int;
    assert(start.vlrs[x.pos()].cost is Some);
    assert(size > 0);
    lemma_rounded_up(st.next_slot, size);
}

/// Where the tables and the spill area have room for what spilling every range that can be spilled
/// would add, they stay within their limits wherever the allocator gets: no range is spilled
/// twice, and what spilling adds can not be spilled.
pub proof fn law_room_for_spills_suffices<I>(
    setting: Setting<I>,
    rlrs: Seq<RlrView>,
    vlrs: Seq<VlrView>,
    frags: Seq<RangeFrag>,
)
    requires
        input_ok(setting, rlrs, vlrs, frags),
        room_for_spills(setting, vlrs, frags),
    ensures
        stays_within_limits(setting, initial_state(setting.universe, rlrs, vlrs, frags)),
{
    let start = initial_state(setting.universe, rlrs, vlrs, frags);
    let fixed = all_fixed(setting, rlrs);
    let n = vlrs.len() as int;
    lemma_totals_nonneg(setting, vlrs, frags, finite_cost(vlrs), n);
    assert(start.fits());
    lemma_initial(setting, rlrs, vlrs, frags);
    let p = |a: AllocState|
        {
            &&& a.inv(setting, fixed, None)
            &&& kept(start, a)
            &&& within(setting, start, a)
            &&& a.fits()
        };
    assert(p(start)) by {
        lemma_all_vlrixs(vlrs.len());
        assert(spillable(start) =~= finite_cost(vlrs)) by {
            assert forall|x: VirtualRangeIx| spillable(start).contains(x) <==> finite_cost(
                vlrs,
            ).contains(x) by {
                if x.pos() < n {
                    assert(start.queue.contains(x));
                    assert(start.live(None, x));
                }
            }
        }
    }
    assert forall|a: AllocState, b: AllocState|
        p(a) && #[trigger] turn(setting, a) == Turn::Next(b) implies #[trigger] p(b) by {
        lemma_totals_nonneg(setting, vlrs, frags, spillable(a), n);
        let m = law_moves(setting, fixed, a, b);
        if let Move::Spill { x } = m {
            assert(spillable(a).contains(x)) by {
                assert(a.queue.contains(x));
                assert(a.live(None, x));
            }
            lemma_spill_within(setting, fixed, start, a, x);
            lemma_totals_nonneg(setting, vlrs, frags, spillable(a).remove(x), n);
        }
        assert(b.fits());
        lemma_turn(setting, fixed, a, b);
        lemma_turn_closer(setting, fixed, a, b);
        law_turn_keeps(setting, fixed, a, b);
        lemma_kept_trans(start, a, b);
        assert(within(setting, start, b)) by {
            if spillable(b) != spillable(a) {
                let x = a.queue[longest_at(a.queue, a.vlrs)];
                lemma_spill_within(setting, fixed, start, a, x);
            }
        }
    }
    assert forall|st: AllocState| #[trigger] reaches(setting, start, st) implies st.fits() by {
        lemma_reaches_induct(setting, start, st, p);
    }
}

proof fn lemma_totals_bound<I>(
    setting: Setting<I>,
    vlrs: Seq<VlrView>,
    frags: Seq<RangeFrag>,
    set: Set<VirtualRangeIx>,
    size: int,
    n: int,
)
    requires
        0 <= n <= vlrs.len(),
        forall|x: int| 0 <= x < vlrs.len() ==> vlr_ok(setting, frags, #[trigger] vlrs[x]),
        forall|x: int|
            0 <= x < vlrs.len() ==> (setting.func.slot_size)((#[trigger] vlrs[x]).vreg.class)
                <= size,
    ensures
        total_bridges(setting, vlrs, frags, set, n) <= n * (3 * setting.func.insns.len()),
        total_slots(setting, vlrs, set, n) <= n * (2 * size),
    decreases n,
{
    if n > 0 {
        lemma_totals_bound(setting, vlrs, frags, set, size, n - 1);
        law_spilling_takes_few_bridges(setting, vlrs[n - 1], frags);
        assert((setting.func.slot_size)(vlrs[n - 1].vreg.class) <= size);
        let len = setting.func.insns.len() as int;
        assert(n * (3 * len) == (n - 1) * (3 * len) + 3 * len) by (nonlinear_arith);
        assert(n * (2 * size) == (n - 1) * (2 * size) + 2 * size) by (nonlinear_arith);
    }
}

/// Input of any ordinary size has room: it is enough that the tables could hold three bridges for
/// each range at each instruction, and the spill area twice the largest spill slots for each range.
pub proof fn law_ordinary_input_has_room<I>(
    setting: Setting<I>,
    rlrs: Seq<RlrView>,
    vlrs: Seq<VlrView>,
    frags: Seq<RangeFrag>,
    size: int,
)
    requires
        input_ok(setting, rlrs, vlrs, frags),
        forall|x: int|
            0 <= x < vlrs.len() ==> 0 < (setting.func.slot_size)(
                (#[trigger] vlrs[x]).vreg.class,
            ) <= size,
        vlrs.len() + vlrs.len() * (3 * setting.func.insns.len()) <= 0xffff_ffff,
        frags.len() + vlrs.len() * (3 * setting.func.insns.len()) <= 0xffff_ffff,
        vlrs.len() * (2 * size) <= 0xffff_ffff,
    ensures
        room_for_spills(setting, vlrs, frags),
{
    lemma_totals_bound(setting, vlrs, frags, finite_cost(vlrs), size, vlrs.len() as int);
}

/// How many bridges spilling all of the ranges takes that can be spilled.
pub open spec fn bridges_of_all<I>(
    setting: Setting<I>,
    vlrs: Seq<VlrView>,
    frags: Seq<RangeFrag>,
) -> int
    decreases vlrs.len(),
{
    if vlrs.len() == 0 {
        0
    } else {
        let vlr = vlrs.last();
        bridges_of_all(setting, vlrs.drop_last(), frags) + (if vlr.cost is Some {
            bridges(setting.im, setting.func.insns, vlr.vreg, frags, vlr.frags).len() as int
        } else {
            0
        })
    }
}

/// How many slots all of the ranges need that can be spilled, without what is left free for
/// alignment.
pub open spec fn slots_of_all<I>(setting: Setting<I>, vlrs: Seq<VlrView>) -> int
    decreases vlrs.len(),
{
    if vlrs.len() == 0 {
        0
    } else {
        slots_of_all(setting, vlrs.drop_last()) + (if vlrs.last().cost is Some {
            (setting.func.slot_size)(vlrs.last().vreg.class) as int
        } else {
            0
        })
    }
}

proof fn lemma_of_all<I>(setting: Setting<I>, vlrs: Seq<VlrView>, frags: Seq<RangeFrag>, n: int)
    requires
        0 <= n <= vlrs.len() <= u32::MAX,
    ensures
        total_bridges(setting, vlrs, frags, finite_cost(vlrs), n) == bridges_of_all(
            setting,
            vlrs.take(n),
            frags,
        ),
        total_slots(setting, vlrs, finite_cost(vlrs), n) == 2 * slots_of_all(
            setting,
            vlrs.take(n),
        ),
    decreases n,
{
    if n > 0 {
        lemma_of_all(setting, vlrs, frags, n - 1);
        assert(vlrs.take(n).drop_last() =~= vlrs.take(n - 1));
        let x = VirtualRangeIx { ix: (n - 1) as u32 };
        assert(finite_cost(vlrs).contains(x) <==> vlrs[n - 1].cost is Some);
    }
}

/// There is room for spills if the ranges and the fragments, together with the bridges of all that
/// can be spilled, can be told by an index of 32 bits; if twice as many slots as these need can;
/// and if each of these needs some.
pub proof fn law_what_room_for_spills_is<I>(
    setting: Setting<I>,
    vlrs: Seq<VlrView>,
    frags: Seq<RangeFrag>,
)
    requires
        vlrs.len() <= u32::MAX,
    ensures
        room_for_spills(setting, vlrs, frags) <==> {
            let more = bridges_of_all(setting, vlrs, frags);
            &&& vlrs.len() + more <= 0xffff_ffff
            &&& frags.len() + more <= 0xffff_ffff
            &&& 2 * slots_of_all(setting, vlrs) <= 0xffff_ffff
            &&& forall|x: int|
                0 <= x < vlrs.len() && (#[trigger] vlrs[x]).cost is Some
                    ==> (setting.func.slot_size)(vlrs[x].vreg.class) != 0
        },
{
    lemma_of_all(setting, vlrs, frags, vlrs.len() as int);
    assert(vlrs.take(vlrs.len() as int) =~= vlrs);
}

} // verus!
