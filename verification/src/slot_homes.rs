//! Where spilled ranges live: which slot each one has, and which orders move its value.

use crate::course::{all_fixed, lemma_all_vlrixs, lemma_reaches_inv};
use crate::frags::RangeFrag;
use crate::index::{RangeFragIx, TypedIx, VirtualRangeIx};
use crate::laws::{gets_to, law_moves, Move};
use crate::prio_queue::longest_at;
use crate::ranges::{lemma_rounded_up, rounded_up, RlrView, SpillSlot, VlrView};
use crate::safety::{lemma_placed, lemma_released, lemma_taken, same_code, vlr_ok};
use crate::spill::{needs_bridge, BridgeKind};
use crate::spill_safety::{
    infos_of, is_new, lemma_bridges, lemma_spilled_live, lemma_spilled_shape, made_for,
    made_for_some, roles_ok,
};
use crate::state::{
    initial_state, lemma_reaches_induct, lemma_reaches_next, lemma_reaches_start, reaches, turn,
    AllocState, Setting, Turn,
};
use vstd::prelude::*;

verus! {

/// Spilling fragment `i` of range `x` takes a bridge of the given kind at instruction `k`.
pub open spec fn needs_at<I>(
    setting: Setting<I>,
    st: AllocState,
    x: VirtualRangeIx,
    i: int,
    k: int,
    kind: BridgeKind,
) -> bool {
    let frag = st.frag_at(x, i);
    &&& 0 <= i < st.vlr(x).frags.len()
    &&& frag.first.iix.pos() <= k <= frag.last.iix.pos()
    &&& needs_bridge((setting.im.regs)(setting.func.insns[k]), st.vlr(x).vreg, frag, k, kind)
}

/// Where in the code order `e` is carried out.
pub open spec fn place_of(st: AllocState, e: int) -> int {
    st.frag_at(st.edits[e].vlrix, 0).first.iix.pos()
}

/// Order `e` is for range `x`, whose slots start at `slot`: it is a bridge of the given kind at
/// instruction `k`, for the same virtual register.
pub open spec fn bridges_for(
    st: AllocState,
    x: VirtualRangeIx,
    slot: SpillSlot,
    e: int,
    k: int,
    kind: BridgeKind,
) -> bool {
    &&& 0 <= e < st.edits.len()
    &&& st.edits[e].kind == kind
    &&& st.edits[e].slot == slot
    &&& st.vlr(st.edits[e].vlrix).vreg == st.vlr(x).vreg
    &&& place_of(st, e) == k
}

/// Every bridge that spilling `x` takes has an order.
pub open spec fn all_bridged<I>(
    setting: Setting<I>,
    st: AllocState,
    x: VirtualRangeIx,
    slot: SpillSlot,
) -> bool {
    forall|i: int, k: int, kind: BridgeKind| #[trigger]
        needs_at(setting, st, x, i, k, kind) ==> exists|e: int| #[trigger]
            bridges_for(st, x, slot, e, k, kind)
}

/// Order `e` is for range `x`, which needs it.
pub open spec fn is_order_of<I>(
    setting: Setting<I>,
    st: AllocState,
    x: VirtualRangeIx,
    slot: SpillSlot,
    e: int,
) -> bool {
    &&& bridges_for(st, x, slot, e, place_of(st, e), st.edits[e].kind)
    &&& exists|i: int| #[trigger] needs_at(setting, st, x, i, place_of(st, e), st.edits[e].kind)
}

/// `slots` tells the slot of each of the first `n` ranges that has been spilled. Each has one of
/// its own, all that its spilling takes is ordered, and nothing is ordered that is not for one of
/// them. The ranges behind the first `n` can not be spilled.
pub open spec fn slots_tell<I>(
    setting: Setting<I>,
    n: int,
    st: AllocState,
    slots: Map<VirtualRangeIx, SpillSlot>,
) -> bool {
    &&& 0 <= st.next_slot
    &&& 0 <= n <= st.vlrs.len()
    &&& forall|y: int| n <= y < st.vlrs.len() ==> (#[trigger] st.vlrs[y]).cost is None
    &&& forall|x: VirtualRangeIx| #[trigger]
        slots.contains_key(x) <==> x.pos() < n && !st.live(None, x)
    &&& forall|x: VirtualRangeIx| #[trigger]
        slots.contains_key(x) ==> slots[x].n < st.next_slot && all_bridged(
            setting,
            st,
            x,
            slots[x],
        )
    &&& forall|x: VirtualRangeIx, y: VirtualRangeIx| #[trigger]
        slots.contains_key(x) && #[trigger] slots.contains_key(y) && slots[x] == slots[y] ==> x
            == y
    &&& forall|e: int| 0 <= e < st.edits.len() ==> #[trigger] has_range(setting, n, st, slots, e)
}

/// Order `e` is for one of the ranges that have been spilled, and is a range behind the first `n`.
pub open spec fn has_range<I>(
    setting: Setting<I>,
    n: int,
    st: AllocState,
    slots: Map<VirtualRangeIx, SpillSlot>,
    e: int,
) -> bool {
    &&& n <= st.edits[e].vlrix.pos() < st.vlrs.len()
    &&& exists|x: VirtualRangeIx| #[trigger]
        slots.contains_key(x) && is_order_of(setting, st, x, slots[x], e)
}

/// States that agree with a third one agree.
proof fn lemma_same_code_trans(
    a: AllocState,
    ha: Option<VirtualRangeIx>,
    b: AllocState,
    hb: Option<VirtualRangeIx>,
    c: AllocState,
    hc: Option<VirtualRangeIx>,
)
    requires
        same_code(a, ha, b, hb),
        same_code(b, hb, c, hc),
    ensures
        same_code(a, ha, c, hc),
{
    assert forall|x: VirtualRangeIx| #[trigger] a.live(ha, x) <==> #[trigger] c.live(hc, x) by {
        assert(a.live(ha, x) <==> b.live(hb, x));
    }
    assert forall|x: VirtualRangeIx| x.pos() < a.vlrs.len() implies {
        &&& (#[trigger] a.vlr(x)).vreg == (#[trigger] c.vlr(x)).vreg
        &&& a.vlr(x).frags == c.vlr(x).frags
        &&& a.vlr(x).size == c.vlr(x).size
        &&& a.vlr(x).cost == c.vlr(x).cost
    } by {
        assert(a.vlr(x).vreg == b.vlr(x).vreg);
    }
}

/// Placing a range, with or without replacing another, does not change which ranges are of concern
/// and what they are.
proof fn lemma_move_same_code<I>(
    setting: Setting<I>,
    fixed: Seq<Set<RangeFragIx>>,
    st: AllocState,
    next: AllocState,
    m: Move,
)
    requires
        setting.universe.wf(),
        st.inv(setting, fixed, None),
        m.leads(setting, st, next),
        m !is Spill,
    ensures
        same_code(st, None, next, None),
        next.next_slot == st.next_slot,
{
    let q = longest_at(st.queue, st.vlrs);
    let rest = st.taken(q);
    let x = m.subject();
    lemma_taken(setting, fixed, st, q);
    match m {
        Move::Place { x: _, i } => {
            lemma_placed(setting, fixed, rest, x, i);
            lemma_same_code_trans(st, None, rest, Some(x), next, None);
        },
        Move::Replace { x: _, y, i } => {
            let mid = rest.released(y, i);
            assert(rest.at_reg(y, i));
            lemma_released(setting, fixed, rest, Some(x), y, i);
            lemma_placed(setting, fixed, mid, x, i);
            lemma_same_code_trans(st, None, rest, Some(x), mid, Some(x));
            lemma_same_code_trans(st, None, mid, Some(x), next, None);
        },
        _ => {},
    }
}

/// What has been ordered for the spilled ranges stays as it is while other ranges are placed.
proof fn lemma_tell_same<I>(
    setting: Setting<I>,
    fixed: Seq<Set<RangeFragIx>>,
    n: int,
    a: AllocState,
    b: AllocState,
    slots: Map<VirtualRangeIx, SpillSlot>,
)
    requires
        a.inv(setting, fixed, None),
        slots_tell(setting, n, a, slots),
        same_code(a, None, b, None),
        b.next_slot == a.next_slot,
        a.vlrs.len() <= u32::MAX,
    ensures
        slots_tell(setting, n, b, slots),
{
    assert forall|y: int| n <= y < b.vlrs.len() implies (#[trigger] b.vlrs[y]).cost is None by {
        let z = VirtualRangeIx { ix: y as u32 };
        assert(z.pos() == y);
        assert(a.vlr(z).cost == b.vlr(z).cost);
        assert(a.vlrs[y].cost is None);
    }
    assert forall|x: VirtualRangeIx| #[trigger] slots.contains_key(x) <==> x.pos() < n && !b.live(
        None,
        x,
    ) by {
        assert(a.live(None, x) <==> b.live(None, x));
    }
    assert forall|x: VirtualRangeIx, i: int, k: int, kind: BridgeKind|
        x.pos() < a.vlrs.len() implies #[trigger] needs_at(setting, b, x, i, k, kind) == needs_at(
        setting,
        a,
        x,
        i,
        k,
        kind,
    ) by {
        assert(a.vlr(x).frags == b.vlr(x).frags);
    }
    assert forall|e: int| 0 <= e < a.edits.len() implies #[trigger] place_of(b, e) == place_of(a, e)
        && a.edits[e].vlrix.pos() < a.vlrs.len() && b.vlr(a.edits[e].vlrix).vreg == a.vlr(
        a.edits[e].vlrix,
    ).vreg by {
        let item = a.edits[e];
        assert(a.vlr(item.vlrix).frags == b.vlr(item.vlrix).frags);
    }
    assert forall|x: VirtualRangeIx, slot: SpillSlot, e: int, k: int, kind: BridgeKind|
        x.pos() < a.vlrs.len() implies #[trigger] bridges_for(b, x, slot, e, k, kind)
        == bridges_for(a, x, slot, e, k, kind) by {
        assert(a.vlr(x).vreg == b.vlr(x).vreg);
        if 0 <= e < a.edits.len() {
            assert(place_of(b, e) == place_of(a, e));
        }
    }
    assert forall|x: VirtualRangeIx| #[trigger] slots.contains_key(x) implies all_bridged(
        setting,
        b,
        x,
        slots[x],
    ) by {
        assert(all_bridged(setting, a, x, slots[x]));
        assert forall|i: int, k: int, kind: BridgeKind| #[trigger]
            needs_at(setting, b, x, i, k, kind) implies exists|e: int| #[trigger]
            bridges_for(b, x, slots[x], e, k, kind) by {
            assert(needs_at(setting, a, x, i, k, kind));
            let e = choose|e: int| #[trigger] bridges_for(a, x, slots[x], e, k, kind);
            assert(bridges_for(b, x, slots[x], e, k, kind));
        }
    }
    assert forall|e: int| 0 <= e < b.edits.len() implies #[trigger] has_range(
        setting,
        n,
        b,
        slots,
        e,
    ) by {
        assert(has_range(setting, n, a, slots, e));
        let x = choose|x: VirtualRangeIx| #[trigger]
            slots.contains_key(x) && is_order_of(setting, a, x, slots[x], e);
        assert(place_of(b, e) == place_of(a, e));
        assert(bridges_for(b, x, slots[x], e, place_of(b, e), b.edits[e].kind));
        let i = choose|i: int| #[trigger]
            needs_at(setting, a, x, i, place_of(a, e), a.edits[e].kind);
        assert(needs_at(setting, b, x, i, place_of(b, e), b.edits[e].kind));
    }
}

/// A spill orders all that it takes, and nothing else, and with a slot that no range has yet.
proof fn lemma_tell_spilled<I>(
    setting: Setting<I>,
    fixed: Seq<Set<RangeFragIx>>,
    n: int,
    st: AllocState,
    x0: VirtualRangeIx,
    slots: Map<VirtualRangeIx, SpillSlot>,
) -> (more: Map<VirtualRangeIx, SpillSlot>)
    requires
        roles_ok(setting),
        setting.func.insns.len() <= u32::MAX,
        st.inv(setting, fixed, None),
        slots_tell(setting, n, st, slots),
        st.queue.len() > 0,
        x0 == st.queue[longest_at(st.queue, st.vlrs)],
        0 <= longest_at(st.queue, st.vlrs) < st.queue.len(),
        st.vlr(x0).cost is Some,
        st.taken(longest_at(st.queue, st.vlrs)).spilled(setting, x0).fits(),
    ensures
        slots_tell(
            setting,
            n,
            st.taken(longest_at(st.queue, st.vlrs)).spilled(setting, x0),
            more,
        ),
{
    let q = longest_at(st.queue, st.vlrs);
    let rest = st.taken(q);
    let b = rest.spilled(setting, x0);
    let infos = infos_of(setting, rest, x0);
    let count = infos.len();
    let vreg = st.vlr(x0).vreg;
    let size = (setting.func.slot_size)(vreg.class) as int;
    let start = rounded_up(st.next_slot, size);
    let slot = SpillSlot { n: start as u32 };
    let more = slots.insert(x0, slot);
    let old = st.edits.len() as int;
    lemma_taken(setting, fixed, st, q);
    lemma_spilled_shape(setting, fixed, rest, x0);
    lemma_spilled_live(setting, fixed, rest, x0);
    assert(size > 0);
    lemma_rounded_up(st.next_slot, size);
    assert(slot.n == start);
    assert(st.queue.contains(x0));
    assert(st.live(None, x0));
    assert(x0.pos() < st.vlrs.len());
    assert(vlr_ok(setting, st.frags, st.vlr(x0)));
    assert(b.edits.len() == old + count);
    assert(b.vlrs.len() == st.vlrs.len() + count);
    assert(x0.pos() < n) by {
        if x0.pos() >= n {
            assert(st.vlrs[x0.pos()].cost is None);
        }
    }
    assert forall|y: int| n <= y < b.vlrs.len() implies (#[trigger] b.vlrs[y]).cost is None by {
        if y < st.vlrs.len() {
            assert(b.vlrs[y] == st.vlrs[y]);
        } else {
            assert(b.vlrs[y] == rest.bridge_vlr(vreg, y - st.vlrs.len()));
        }
    }
    assert forall|x: VirtualRangeIx| #[trigger] more.contains_key(x) <==> x.pos() < n && !b.live(
        None,
        x,
    ) by {
        assert(st.live(None, x) <==> rest.live(Some(x0), x));
        assert(slots.contains_key(x) <==> x.pos() < n && !st.live(None, x));
        assert(b.live(None, x) <==> {
            ||| rest.live(Some(x0), x) && x != x0
            ||| is_new(rest, count, x, x.pos() - rest.vlrs.len())
        });
    }
    assert forall|x: VirtualRangeIx, i: int, k: int, kind: BridgeKind|
        x.pos() < st.vlrs.len() implies #[trigger] needs_at(setting, b, x, i, k, kind) == needs_at(
        setting,
        st,
        x,
        i,
        k,
        kind,
    ) by {
        assert(b.vlr(x) == st.vlr(x));
        assert(vlr_ok(setting, st.frags, st.vlr(x)));
        if 0 <= i < st.vlr(x).frags.len() {
            assert(st.vlr(x).frags[i].pos() < st.frags.len());
            assert(b.frag_at(x, i) == st.frag_at(x, i));
        }
    }
    // The orders that there were are as they were.
    assert forall|e: int| 0 <= e < old implies #[trigger] place_of(b, e) == place_of(st, e)
        && b.edits[e] == st.edits[e] && b.vlr(st.edits[e].vlrix) == st.vlr(st.edits[e].vlrix) by {
        let y = st.edits[e].vlrix;
        assert(y.pos() < st.vlrs.len());
        assert(b.vlr(y) == st.vlr(y));
        assert(vlr_ok(setting, st.frags, st.vlr(y)));
        assert(st.vlr(y).frags[0].pos() < st.frags.len());
    }
    // The new ones are bridges of the range.
    assert forall|e: int| old <= e < b.edits.len() implies #[trigger] place_of(b, e)
        == infos[e - old].iix.pos() && b.edits[e].kind == infos[e - old].kind && b.edits[e].slot
        == slot && b.edits[e].vlrix.pos() == st.vlrs.len() + (e - old) && b.vlr(
        b.edits[e].vlrix,
    ).vreg == vreg by {
        let y = rest.new_vlrix(e - old);
        assert(b.edits[e].vlrix == y);
        assert(is_new(rest, count, y, e - old));
    }
    assert(b.next_slot == start + size);
    lemma_bridges(setting.im, setting.func.insns, vreg, rest.frags, rest.vlr(x0).frags);
    assert forall|x: VirtualRangeIx| #[trigger] more.contains_key(x) implies more[x].n
        < b.next_slot && all_bridged(setting, b, x, more[x]) by {
        assert(x.pos() < st.vlrs.len());
        assert(b.vlr(x) == st.vlr(x));
        if x != x0 {
            assert(slots.contains_key(x));
            assert(all_bridged(setting, st, x, slots[x]));
        }
        assert forall|i: int, k: int, kind: BridgeKind| #[trigger]
            needs_at(setting, b, x, i, k, kind) implies exists|e: int| #[trigger]
            bridges_for(b, x, more[x], e, k, kind) by {
            assert(needs_at(setting, st, x, i, k, kind));
            if x != x0 {
                let e = choose|e: int| #[trigger] bridges_for(st, x, slots[x], e, k, kind);
                assert(place_of(b, e) == place_of(st, e));
                assert(bridges_for(b, x, more[x], e, k, kind));
            } else {
                let ixs = rest.vlr(x0).frags;
                assert(needs_bridge(
                    (setting.im.regs)(setting.func.insns[k]),
                    vreg,
                    rest.frags[ixs[i].pos()],
                    k,
                    kind,
                ));
                let j = choose|j: int|
                    0 <= j < count && (#[trigger] infos[j]).iix.pos() == k && infos[j].kind
                        == kind;
                assert(place_of(b, old + j) == infos[j].iix.pos());
                assert(bridges_for(b, x, more[x], old + j, k, kind));
            }
        }
    }
    assert forall|x: VirtualRangeIx, y: VirtualRangeIx| #[trigger]
        more.contains_key(x) && #[trigger] more.contains_key(y) && more[x] == more[y] implies x
        == y by {
        if x != x0 {
            assert(slots.contains_key(x));
        }
        if y != x0 {
            assert(slots.contains_key(y));
        }
    }
    assert forall|e: int| 0 <= e < b.edits.len() implies #[trigger] has_range(
        setting,
        n,
        b,
        more,
        e,
    ) by {
        if e < old {
            assert(has_range(setting, n, st, slots, e));
            let x = choose|x: VirtualRangeIx| #[trigger]
                slots.contains_key(x) && is_order_of(setting, st, x, slots[x], e);
            assert(x != x0);
            assert(more.contains_key(x));
            assert(b.vlr(x) == st.vlr(x));
            assert(place_of(b, e) == place_of(st, e));
            assert(bridges_for(b, x, more[x], e, place_of(b, e), b.edits[e].kind));
            let i = choose|i: int| #[trigger]
                needs_at(setting, st, x, i, place_of(st, e), st.edits[e].kind);
            assert(needs_at(setting, b, x, i, place_of(b, e), b.edits[e].kind));
        } else {
            let j = e - old;
            let ixs = rest.vlr(x0).frags;
            assert(place_of(b, e) == infos[j].iix.pos());
            assert(more.contains_key(x0));
            assert(b.vlr(x0) == st.vlr(x0));
            assert(bridges_for(b, x0, more[x0], e, place_of(b, e), b.edits[e].kind));
            assert(made_for_some(
                setting.im,
                setting.func.insns,
                vreg,
                rest.frags,
                ixs,
                infos[j],
            ));
            let i = choose|i: int|
                0 <= i < ixs.len() && made_for(
                    setting.im,
                    setting.func.insns,
                    vreg,
                    rest.frags[(#[trigger] ixs[i]).pos()],
                    infos[j],
                );
            assert(needs_at(setting, st, x0, i, place_of(b, e), b.edits[e].kind));
            assert(needs_at(setting, b, x0, i, place_of(b, e), b.edits[e].kind));
        }
    }
    more
}

/// Wherever the allocator gets, every range that has been spilled has a slot of its own; all the
/// reloads and spills that its mentions take have been ordered, for that slot; and nothing else
/// has.
pub proof fn law_spilled_ranges_have_homes<I>(
    setting: Setting<I>,
    rlrs: Seq<RlrView>,
    vlrs: Seq<VlrView>,
    frags: Seq<RangeFrag>,
    st: AllocState,
) -> (slots: Map<VirtualRangeIx, SpillSlot>)
    requires
        gets_to(setting, rlrs, vlrs, frags, st),
        setting.func.insns.len() <= u32::MAX,
    ensures
        slots_tell(setting, vlrs.len() as int, st, slots),
{
    let start = initial_state(setting.universe, rlrs, vlrs, frags);
    let fixed = all_fixed(setting, rlrs);
    let n = vlrs.len() as int;
    let p = |a: AllocState|
        reaches(setting, start, a) && exists|s: Map<VirtualRangeIx, SpillSlot>| #[trigger]
            slots_tell(setting, n, a, s);
    lemma_reaches_start(setting, start);
    assert(start.fits());
    assert(p(start)) by {
        let none = Map::<VirtualRangeIx, SpillSlot>::empty();
        lemma_all_vlrixs(vlrs.len());
        assert forall|x: VirtualRangeIx| #[trigger] none.contains_key(x) <==> x.pos() < n
            && !start.live(None, x) by {
            if x.pos() < n {
                assert(start.queue.contains(x));
            }
        }
        assert(slots_tell(setting, n, start, none));
    }
    assert forall|a: AllocState, b: AllocState|
        p(a) && #[trigger] turn(setting, a) == Turn::Next(b) implies #[trigger] p(b) by {
        lemma_reaches_inv(setting, rlrs, vlrs, frags, a);
        lemma_reaches_next(setting, start, a, b);
        assert(a.fits() && b.fits());
        let s = choose|s: Map<VirtualRangeIx, SpillSlot>| #[trigger]
            slots_tell(setting, n, a, s);
        let m = law_moves(setting, fixed, a, b);
        match m {
            Move::Spill { x } => {
                let t = lemma_tell_spilled(setting, fixed, n, a, x, s);
                assert(slots_tell(setting, n, b, t));
            },
            _ => {
                lemma_move_same_code(setting, fixed, a, b, m);
                lemma_tell_same(setting, fixed, n, a, b, s);
            },
        }
    }
    lemma_reaches_induct(setting, start, st, p);
    choose|s: Map<VirtualRangeIx, SpillSlot>| #[trigger] slots_tell(setting, n, st, s)
}

} // verus!
