//! The allocated code computes what the source does.

use crate::course::{all_fixed, covers_points, lemma_reaches_inv, mention_covered};
use crate::frags::{frags_clear, frags_sorted, point_at, point_rank, InstPoint, Point, RangeFrag};
use crate::in_force::{law_maps_are_live_fragments, spans};
use crate::index::{RangeFragIx, TypedIx, VirtualRangeIx};
use crate::interface::{FuncModel, RegUses};
use crate::laws::{gets_to, law_ranges_are_kept};
use crate::mapping::{insn_maps, InsnMaps};
use crate::outcome::{
    edit_items, items_of, lemma_all_covered, lemma_orders_ok, lemma_placement_at,
    lemma_placement_from, lemma_placements_ok, order_ok, orders_ok, placements,
};
use crate::ranges::{RlrView, SpillSlot, VlrView};
use crate::regs::{RealReg, RealRegUniverse, Reg, VirtualReg, Writable};
use crate::safety::vlr_ok;
use crate::slot_homes::{
    all_bridged, bridges_for, has_range, is_order_of, needs_at, place_of, slots_tell,
};
use crate::slot_laws::{reloads, spills};
use crate::spill::{needs_bridge, BridgeKind};
use crate::state::{fixed_frags, turn, AllocState, Setting};
use crate::stream::insts_at;
use vstd::prelude::*;

verus! {

// ---- What code does

/// The instruction reads the register.
pub open spec fn reads(uses: RegUses, r: Reg) -> bool {
    uses.used.contains(r) || uses.modified.contains(r)
}

/// The instruction writes the register.
pub open spec fn writes(uses: RegUses, r: Reg) -> bool {
    uses.defined.contains(r) || uses.modified.contains(r)
}

/// The registers that instruction `k` mentions.
pub open spec fn uses_at<I>(setting: Setting<I>, k: int) -> RegUses {
    (setting.im.regs)(setting.func.insns[k])
}

/// Instruction `k` of the source takes the registers from `s` to `s2`: it writes what `effect`
/// makes of the values that it reads, and leaves all other registers alone.
pub open spec fn source_step<I, V>(
    setting: Setting<I>,
    effect: spec_fn(I, Map<Reg, V>) -> Map<Reg, V>,
    k: int,
    s: Map<Reg, V>,
    s2: Map<Reg, V>,
) -> bool {
    let uses = uses_at(setting, k);
    let out = effect(
        setting.func.insns[k],
        Map::new(|r: Reg| reads(uses, r), |r: Reg| s[r]),
    );
    forall|r: Reg| #[trigger]
        s2[r] == (if writes(uses, r) {
            out[r]
        } else {
            s[r]
        })
}

/// The registers and the spill area of allocated code.
#[verifier::reject_recursive_types(V)]
pub struct Target<V> {
    pub regs: Map<RealReg, V>,
    pub slots: Map<SpillSlot, V>,
}

/// The maps at instruction `k` of the allocated code.
pub open spec fn maps_of<I>(setting: Setting<I>, st: AllocState, k: int) -> InsnMaps {
    let list = placements(setting.universe, st);
    insn_maps(list, list, st.frags, k)
}

/// From where the allocated instruction gets what the source reads from `r`.
pub open spec fn use_home(maps: InsnMaps, r: Reg) -> RealReg {
    match r {
        Reg::Virtual(v) => maps.uses[v],
        Reg::Real(q) => q,
    }
}

/// To where the allocated instruction puts what the source writes to `r`.
pub open spec fn def_home(maps: InsnMaps, r: Reg) -> RealReg {
    match r {
        Reg::Virtual(v) => maps.defs[v],
        Reg::Real(q) => q,
    }
}

/// The register that order `e` is about.
pub open spec fn reg_of(st: AllocState, e: int) -> RealReg {
    st.vlr(st.edits[e].vlrix).rreg->0
}

/// Order `e` has a reload done before instruction `k`.
pub open spec fn reloads_at(st: AllocState, e: int, k: int) -> bool {
    0 <= e < st.edits.len() && reloads(st.edits[e]) && place_of(st, e) == k
}

/// Order `e` has a spill done behind instruction `k`.
pub open spec fn spills_at(st: AllocState, e: int, k: int) -> bool {
    0 <= e < st.edits.len() && spills(st.edits[e]) && place_of(st, e) == k
}

/// The reloads before instruction `k` take the registers from those of `t` to `mid`.
pub open spec fn reloads_done<V>(
    st: AllocState,
    k: int,
    t: Target<V>,
    mid: Map<RealReg, V>,
) -> bool {
    &&& forall|e: int| #[trigger]
        reloads_at(st, e, k) ==> mid[reg_of(st, e)] == t.slots[st.edits[e].slot]
    &&& forall|q: RealReg|
        (forall|e: int| #[trigger] reloads_at(st, e, k) ==> reg_of(st, e) != q)
            ==> #[trigger] mid[q] == t.regs[q]
}

/// Instruction `k`, with real registers, takes the registers from `mid` to `regs`.
pub open spec fn insn_done<I, V>(
    setting: Setting<I>,
    effect: spec_fn(I, Map<Reg, V>) -> Map<Reg, V>,
    st: AllocState,
    k: int,
    mid: Map<RealReg, V>,
    regs: Map<RealReg, V>,
) -> bool {
    let uses = uses_at(setting, k);
    let maps = maps_of(setting, st, k);
    let out = effect(
        setting.func.insns[k],
        Map::new(|r: Reg| reads(uses, r), |r: Reg| mid[use_home(maps, r)]),
    );
    &&& forall|r: Reg| #[trigger] writes(uses, r) ==> regs[def_home(maps, r)] == out[r]
    &&& forall|q: RealReg|
        (forall|r: Reg| #[trigger] writes(uses, r) ==> def_home(maps, r) != q)
            ==> #[trigger] regs[q] == mid[q]
}

/// The spills behind instruction `k` take the spill area from that of `t` to that of `t2`.
pub open spec fn spills_done<V>(st: AllocState, k: int, t: Target<V>, t2: Target<V>) -> bool {
    &&& forall|e: int| #[trigger]
        spills_at(st, e, k) ==> t2.slots[st.edits[e].slot] == t2.regs[reg_of(st, e)]
    &&& forall|slot: SpillSlot|
        (forall|e: int| #[trigger] spills_at(st, e, k) ==> st.edits[e].slot != slot)
            ==> #[trigger] t2.slots[slot] == t.slots[slot]
}

/// Instruction `k` of the allocated code, with the reloads before it and the spills behind it, goes
/// from `t` to `t2`, by way of `mid` when the reloads have been done.
pub open spec fn target_step<I, V>(
    setting: Setting<I>,
    effect: spec_fn(I, Map<Reg, V>) -> Map<Reg, V>,
    st: AllocState,
    k: int,
    t: Target<V>,
    mid: Map<RealReg, V>,
    t2: Target<V>,
) -> bool {
    &&& reloads_done(st, k, t, mid)
    &&& insn_done(setting, effect, st, k, mid, t2.regs)
    &&& spills_done(st, k, t, t2)
}

// ---- What the two have in common

/// Range `x` is live at the point with the given rank.
pub open spec fn live_at(
    vlrs: Seq<VlrView>,
    frags: Seq<RangeFrag>,
    x: VirtualRangeIx,
    rank: int,
) -> bool {
    exists|i: int|
        0 <= i < vlrs[x.pos()].frags.len() && frags[(
        #[trigger] vlrs[x.pos()].frags[i]).pos()].covers(rank)
}

/// The client uses real register `q` itself at the point with the given rank: it is none of the
/// allocator's, or one of its real ranges is live there.
pub open spec fn owned(
    universe: RealRegUniverse,
    rlrs: Seq<RlrView>,
    frags: Seq<RangeFrag>,
    q: RealReg,
    rank: int,
) -> bool {
    ||| forall|i: int| 0 <= i < universe.allocable ==> #[trigger] universe.reg_seq()[i] != q
    ||| exists|a: int, i: int|
        0 <= a < rlrs.len() && rlrs[a].rreg == q && 0 <= i < rlrs[a].frags.len() && frags[(
        #[trigger] rlrs[a].frags[i]).pos()].covers(rank)
}

/// The value of range `x` in allocated code: in its register, or in its slot if it has been
/// spilled.
pub open spec fn value_of<V>(
    st: AllocState,
    slots: Map<VirtualRangeIx, SpillSlot>,
    t: Target<V>,
    x: VirtualRangeIx,
) -> V {
    if st.live(None, x) {
        t.regs[st.vlr(x).rreg->0]
    } else {
        t.slots[slots[x]]
    }
}

/// The number of each allocable register is its position in the universe.
pub open spec fn regs_numbered(universe: RealRegUniverse) -> bool {
    forall|i: int| 0 <= i < universe.allocable ==> (#[trigger] universe.reg_seq()[i]).index == i
}

/// Where an instruction mentions a real register, the client owns it.
pub open spec fn real_mentions_owned<I>(
    setting: Setting<I>,
    rlrs: Seq<RlrView>,
    frags: Seq<RangeFrag>,
) -> bool {
    forall|k: int, q: RealReg|
        0 <= k < setting.func.insns.len() && #[trigger] uses_at(setting, k).mentions(Reg::Real(q))
            ==> {
            &&& reads(uses_at(setting, k), Reg::Real(q)) ==> owned(
                setting.universe,
                rlrs,
                frags,
                q,
                point_rank(k, Point::Use),
            )
            &&& writes(uses_at(setting, k), Reg::Real(q)) ==> owned(
                setting.universe,
                rlrs,
                frags,
                q,
                point_rank(k, Point::Def),
            )
        }
}

/// What an allocation is about: the function and the machine, and the live ranges.
#[verifier::reject_recursive_types(I)]
pub struct Problem<I> {
    pub setting: Setting<I>,
    pub rlrs: Seq<RlrView>,
    pub vlrs: Seq<VlrView>,
    pub frags: Seq<RangeFrag>,
}

impl<I> Problem<I> {
    /// The allocator comes to `st`, where every range has a register or has been spilled to the
    /// slot that `slots` tells.
    pub open spec fn solved_by(
        self,
        st: AllocState,
        slots: Map<VirtualRangeIx, SpillSlot>,
    ) -> bool {
        &&& gets_to(self.setting, self.rlrs, self.vlrs, self.frags, st)
        &&& turn(self.setting, st) is Done
        &&& self.setting.func.insns.len() <= u32::MAX
        &&& regs_numbered(self.setting.universe)
        &&& real_mentions_owned(self.setting, self.rlrs, self.frags)
        &&& slots_tell(self.setting, self.vlrs.len() as int, st, slots)
    }

    pub open spec fn live(self, x: VirtualRangeIx, rank: int) -> bool {
        x.pos() < self.vlrs.len() && live_at(self.vlrs, self.frags, x, rank)
    }

    pub open spec fn owns(self, q: RealReg, rank: int) -> bool {
        owned(self.setting.universe, self.rlrs, self.frags, q, rank)
    }

    /// The virtual register of a range.
    pub open spec fn reg(self, x: VirtualRangeIx) -> Reg {
        Reg::Virtual(self.vlrs[x.pos()].vreg)
    }

    /// The source with registers `s` and the allocated code in `t` agree before instruction `k`:
    /// on every range, and on every register of the client's own, that is live where it reads.
    pub open spec fn agree_before<V>(
        self,
        st: AllocState,
        slots: Map<VirtualRangeIx, SpillSlot>,
        k: int,
        s: Map<Reg, V>,
        t: Target<V>,
    ) -> bool {
        let u = point_rank(k, Point::Use);
        &&& forall|x: VirtualRangeIx| #[trigger]
            self.live(x, u) ==> value_of(st, slots, t, x) == s[self.reg(x)]
        &&& forall|q: RealReg| #[trigger] self.owns(q, u) ==> t.regs[q] == s[Reg::Real(q)]
    }

    /// Range `x` has a value behind instruction `k`: it is live there, and it was live before or
    /// the instruction writes it.
    pub open spec fn lives_on(self, x: VirtualRangeIx, k: int) -> bool {
        &&& self.live(x, point_rank(k, Point::Def))
        &&& self.live(x, point_rank(k, Point::Use)) || writes(uses_at(self.setting, k), self.reg(x))
    }

    /// Register `q` of the client's own has a value behind instruction `k`.
    pub open spec fn stays_owned(self, q: RealReg, k: int) -> bool {
        &&& self.owns(q, point_rank(k, Point::Def))
        &&& self.owns(q, point_rank(k, Point::Use)) || writes(
            uses_at(self.setting, k),
            Reg::Real(q),
        )
    }

    /// The source with registers `s` and the allocated code in `t` agree behind instruction `k`.
    pub open spec fn agree_behind<V>(
        self,
        st: AllocState,
        slots: Map<VirtualRangeIx, SpillSlot>,
        k: int,
        s: Map<Reg, V>,
        t: Target<V>,
    ) -> bool {
        &&& forall|x: VirtualRangeIx| #[trigger]
            self.lives_on(x, k) ==> value_of(st, slots, t, x) == s[self.reg(x)]
        &&& forall|q: RealReg| #[trigger] self.stays_owned(q, k) ==> t.regs[q] == s[Reg::Real(q)]
    }

    /// Control may pass from instruction `k` to instruction `k2`: what is live where `k2` reads has
    /// a value behind `k`.
    pub open spec fn may_follow(self, k: int, k2: int) -> bool {
        let u = point_rank(k2, Point::Use);
        &&& forall|x: VirtualRangeIx| #[trigger] self.live(x, u) ==> self.lives_on(x, k)
        &&& forall|q: RealReg| #[trigger] self.owns(q, u) ==> self.stays_owned(q, k)
    }
}

// ---- Who is where

/// No two ranges are in one register at the same point.
proof fn lemma_one_holder<I>(
    setting: Setting<I>,
    fixed: Seq<Set<RangeFragIx>>,
    st: AllocState,
    i: int,
    x: VirtualRangeIx,
    a: int,
    y: VirtualRangeIx,
    b: int,
    rank: int,
)
    requires
        st.inv(setting, fixed, None),
        st.at_reg(x, i),
        st.at_reg(y, i),
        0 <= a < st.vlr(x).frags.len(),
        0 <= b < st.vlr(y).frags.len(),
        st.frag_at(x, a).covers(rank),
        st.frag_at(y, b).covers(rank),
    ensures
        x == y,
{
    let f = st.vlr(x).frags[a];
    let g = st.vlr(y).frags[b];
    assert(st.vlr(x).frags.contains(f));
    assert(st.vlr(y).frags.contains(g));
    assert(st.held_by_vlr(i, f) && st.held_by_vlr(i, g));
    assert(st.regs[i].frags.contains(f) && st.regs[i].frags.contains(g));
    if f != g {
        assert(st.frags[f.pos()].disjoint(st.frags[g.pos()]));
    }
}

/// No range is in a register where the client uses it.
proof fn lemma_no_guest<I>(
    p: Problem<I>,
    st: AllocState,
    i: int,
    x: VirtualRangeIx,
    a: int,
    q: RealReg,
    rank: int,
)
    requires
        gets_to(p.setting, p.rlrs, p.vlrs, p.frags, st),
        regs_numbered(p.setting.universe),
        st.at_reg(x, i),
        0 <= a < st.vlr(x).frags.len(),
        st.frag_at(x, a).covers(rank),
        p.owns(q, rank),
    ensures
        q != p.setting.universe.reg_seq()[i],
{
    let fixed = all_fixed(p.setting, p.rlrs);
    lemma_reaches_inv(p.setting, p.rlrs, p.vlrs, p.frags, st);
    law_ranges_are_kept(p.setting, p.rlrs, p.vlrs, p.frags, st);
    assert(0 <= i < p.setting.universe.allocable);
    if q == p.setting.universe.reg_seq()[i] {
        let (c, n) = choose|c: int, n: int|
            0 <= c < p.rlrs.len() && p.rlrs[c].rreg == q && 0 <= n < p.rlrs[c].frags.len()
                && p.frags[(#[trigger] p.rlrs[c].frags[n]).pos()].covers(rank);
        let g = p.rlrs[c].frags[n];
        let f = st.vlr(x).frags[a];
        assert(q.index == i);
        assert(p.rlrs[c].frags.contains(g));
        assert(fixed_frags(p.rlrs, i).contains(g));
        assert(fixed[i].contains(g));
        assert(st.regs[i].frags.contains(g));
        assert(st.vlr(x).frags.contains(f));
        assert(st.held_by_vlr(i, f));
        assert(st.regs[i].frags.contains(f));
        assert(f != g);
        assert(frags_sorted(p.frags, p.rlrs[c].frags));
        assert(g.pos() < p.frags.len());
        assert(st.frags[g.pos()] == p.frags[g.pos()]);
        assert(st.frags[f.pos()].disjoint(st.frags[g.pos()]));
    }
}

/// A range that is in a register where an instruction reads, or writes, is mapped to it there.
proof fn lemma_mapped<I>(
    setting: Setting<I>,
    fixed: Seq<Set<RangeFragIx>>,
    st: AllocState,
    i: int,
    x: VirtualRangeIx,
    a: int,
    k: int,
)
    requires
        st.inv(setting, fixed, None),
        0 <= k <= u32::MAX,
        st.at_reg(x, i),
        0 <= a < st.vlr(x).frags.len(),
    ensures
        st.frag_at(x, a).covers(point_rank(k, Point::Use)) ==> maps_of(
            setting,
            st,
            k,
        ).uses.contains_key(st.vlr(x).vreg) && maps_of(setting, st, k).uses[st.vlr(x).vreg]
            == setting.universe.reg_seq()[i],
        st.frag_at(x, a).covers(point_rank(k, Point::Def)) ==> maps_of(
            setting,
            st,
            k,
        ).defs.contains_key(st.vlr(x).vreg) && maps_of(setting, st, k).defs[st.vlr(x).vreg]
            == setting.universe.reg_seq()[i],
{
    let list = placements(setting.universe, st);
    let u = point_rank(k, Point::Use);
    let d = point_rank(k, Point::Def);
    lemma_placements_ok(setting, fixed, st);
    law_maps_are_live_fragments(list, st.frags, k);
    let j = lemma_placement_at(setting, fixed, st, x, i, a);
    if st.frag_at(x, a).covers(u) {
        assert(spans(list, st.frags, j, u, u));
    }
    if st.frag_at(x, a).covers(d) {
        assert(spans(list, st.frags, j, d, d));
    }
}

/// What is mapped where an instruction writes is a range in a register.
proof fn lemma_mapped_from<I>(
    setting: Setting<I>,
    fixed: Seq<Set<RangeFragIx>>,
    st: AllocState,
    v: VirtualReg,
    k: int,
) -> (r: (int, VirtualRangeIx, int))
    requires
        st.inv(setting, fixed, None),
        0 <= k <= u32::MAX,
        maps_of(setting, st, k).defs.contains_key(v),
    ensures
        st.at_reg(r.1, r.0),
        0 <= r.2 < st.vlr(r.1).frags.len(),
        st.vlr(r.1).vreg == v,
        st.frag_at(r.1, r.2).covers(point_rank(k, Point::Def)),
        maps_of(setting, st, k).defs[v] == setting.universe.reg_seq()[r.0],
{
    let list = placements(setting.universe, st);
    let d = point_rank(k, Point::Def);
    lemma_placements_ok(setting, fixed, st);
    law_maps_are_live_fragments(list, st.frags, k);
    let j = choose|j: int| #[trigger] spans(list, st.frags, j, d, d) && list[j].1 == v;
    let s = lemma_placement_from(setting, fixed, st, j);
    (s.reg, s.vlrix, s.frag)
}

/// Once every range has a register, so has each one that is of concern.
proof fn lemma_in_reg<I>(
    setting: Setting<I>,
    fixed: Seq<Set<RangeFragIx>>,
    st: AllocState,
    x: VirtualRangeIx,
) -> (i: int)
    requires
        st.inv(setting, fixed, None),
        st.queue.len() == 0,
        st.live(None, x),
    ensures
        st.at_reg(x, i),
        st.vlr(x).rreg == Some(setting.universe.reg_seq()[i]),
        0 <= i < setting.universe.allocable,
        x.pos() < st.vlrs.len(),
{
    assert(!st.queue.contains(x));
    let i = choose|i: int| st.at_reg(x, i);
    assert(st.at_reg(x, i));
    i
}

/// What an order is about: a range of its own, in a register, that is live where the instruction
/// reads if the order has a reload, and where it writes if it has a spill.
proof fn lemma_order<I>(
    p: Problem<I>,
    st: AllocState,
    slots: Map<VirtualRangeIx, SpillSlot>,
    e: int,
) -> (i: int)
    requires
        p.solved_by(st, slots),
        0 <= e < st.edits.len(),
    ensures
        ({
            let y = st.edits[e].vlrix;
            let k = place_of(st, e);
            &&& p.vlrs.len() <= y.pos() < st.vlrs.len()
            &&& st.at_reg(y, i)
            &&& 0 <= i < p.setting.universe.allocable
            &&& st.vlr(y).frags.len() == 1
            &&& reg_of(st, e) == p.setting.universe.reg_seq()[i]
            &&& reloads(st.edits[e]) ==> st.frag_at(y, 0).covers(point_rank(k, Point::Use))
            &&& spills(st.edits[e]) ==> st.frag_at(y, 0).covers(point_rank(k, Point::Def))
        }),
{
    let fixed = all_fixed(p.setting, p.rlrs);
    lemma_reaches_inv(p.setting, p.rlrs, p.vlrs, p.frags, st);
    assert(st.queue.len() == 0);
    let y = st.edits[e].vlrix;
    assert(st.vlr(y).cost is None);
    assert(st.live(None, y));
    assert(has_range(p.setting, p.vlrs.len() as int, st, slots, e));
    lemma_in_reg(p.setting, fixed, st, y)
}

/// The ranges that there were at the start are the same, fragment by fragment.
proof fn lemma_same_range<I>(
    p: Problem<I>,
    st: AllocState,
    x: VirtualRangeIx,
)
    requires
        gets_to(p.setting, p.rlrs, p.vlrs, p.frags, st),
        x.pos() < p.vlrs.len(),
    ensures
        x.pos() < st.vlrs.len(),
        st.vlr(x).vreg == p.vlrs[x.pos()].vreg,
        st.vlr(x).frags == p.vlrs[x.pos()].frags,
        forall|a: int|
            0 <= a < st.vlr(x).frags.len() ==> p.frags[(
            #[trigger] p.vlrs[x.pos()].frags[a]).pos()] == st.frag_at(x, a),
{
    law_ranges_are_kept(p.setting, p.rlrs, p.vlrs, p.frags, st);
    assert(vlr_ok(p.setting, p.frags, p.vlrs[x.pos()])) by {
        assert(p.vlrs[x.pos()].rreg is None);
    }
    assert(st.vlrs[x.pos()].vreg == p.vlrs[x.pos()].vreg);
    assert forall|a: int| 0 <= a < st.vlr(x).frags.len() implies p.frags[(
    #[trigger] p.vlrs[x.pos()].frags[a]).pos()] == st.frag_at(x, a) by {
        assert(p.vlrs[x.pos()].frags[a].pos() < p.frags.len());
    }
}

/// A fragment of a range that is live at a point.
proof fn lemma_live_frag<I>(p: Problem<I>, st: AllocState, x: VirtualRangeIx, rank: int) -> (a: int)
    requires
        gets_to(p.setting, p.rlrs, p.vlrs, p.frags, st),
        p.live(x, rank),
    ensures
        0 <= a < st.vlr(x).frags.len(),
        st.frag_at(x, a).covers(rank),
{
    lemma_same_range(p, st, x);
    let a = choose|a: int|
        0 <= a < p.vlrs[x.pos()].frags.len() && p.frags[(
        #[trigger] p.vlrs[x.pos()].frags[a]).pos()].covers(rank);
    assert(p.frags[p.vlrs[x.pos()].frags[a].pos()] == st.frag_at(x, a));
    a
}

// ---- One instruction

/// The reloads leave alone what is live where the instruction reads.
proof fn lemma_reloads_spare<I, V>(
    p: Problem<I>,
    st: AllocState,
    slots: Map<VirtualRangeIx, SpillSlot>,
    k: int,
    t: Target<V>,
    mid: Map<RealReg, V>,
)
    requires
        p.solved_by(st, slots),
        reloads_done(st, k, t, mid),
    ensures
        forall|x: VirtualRangeIx| #[trigger]
            p.live(x, point_rank(k, Point::Use)) && st.live(None, x) ==> mid[st.vlr(x).rreg->0]
                == t.regs[st.vlr(x).rreg->0],
        forall|q: RealReg| #[trigger] p.owns(q, point_rank(k, Point::Use)) ==> mid[q] == t.regs[q],
{
    let fixed = all_fixed(p.setting, p.rlrs);
    let u = point_rank(k, Point::Use);
    lemma_reaches_inv(p.setting, p.rlrs, p.vlrs, p.frags, st);
    assert(st.queue.len() == 0);
    assert forall|x: VirtualRangeIx| #[trigger] p.live(x, u) && st.live(None, x) implies mid[st.vlr(
        x,
    ).rreg->0] == t.regs[st.vlr(x).rreg->0] by {
        let i = lemma_in_reg(p.setting, fixed, st, x);
        let a = lemma_live_frag(p, st, x, u);
        let q = st.vlr(x).rreg->0;
        assert forall|e: int| #[trigger] reloads_at(st, e, k) implies reg_of(st, e) != q by {
            let j = lemma_order(p, st, slots, e);
            if reg_of(st, e) == q {
                assert(i == j);
                lemma_one_holder(p.setting, fixed, st, i, x, a, st.edits[e].vlrix, 0, u);
            }
        }
    }
    assert forall|q: RealReg| #[trigger] p.owns(q, u) implies mid[q] == t.regs[q] by {
        assert forall|e: int| #[trigger] reloads_at(st, e, k) implies reg_of(st, e) != q by {
            let j = lemma_order(p, st, slots, e);
            lemma_no_guest(p, st, j, st.edits[e].vlrix, 0, q, u);
        }
    }
}

/// The order for a bridge that a spilled range needs at an instruction.
proof fn lemma_bridge<I>(
    p: Problem<I>,
    st: AllocState,
    slots: Map<VirtualRangeIx, SpillSlot>,
    x: VirtualRangeIx,
    a: int,
    k: int,
    kind: BridgeKind,
) -> (e: int)
    requires
        p.solved_by(st, slots),
        x.pos() < p.vlrs.len(),
        !st.live(None, x),
        0 <= a < st.vlr(x).frags.len(),
        0 <= k < p.setting.func.insns.len(),
        needs_bridge(
            uses_at(p.setting, k),
            st.vlr(x).vreg,
            st.frag_at(x, a),
            k,
            kind,
        ),
    ensures
        bridges_for(st, x, slots[x], e, k, kind),
{
    let frag = st.frag_at(x, a);
    assert(slots.contains_key(x));
    assert(frag.first.iix.pos() <= k <= frag.last.iix.pos());
    assert(needs_at(p.setting, st, x, a, k, kind));
    assert(all_bridged(p.setting, st, x, slots[x]));
    choose|e: int| #[trigger] bridges_for(st, x, slots[x], e, k, kind)
}

/// The allocated instruction reads what the source reads.
proof fn lemma_reads_agree<I, V>(
    p: Problem<I>,
    st: AllocState,
    slots: Map<VirtualRangeIx, SpillSlot>,
    k: int,
    s: Map<Reg, V>,
    t: Target<V>,
    mid: Map<RealReg, V>,
    r: Reg,
)
    requires
        p.solved_by(st, slots),
        0 <= k < p.setting.func.insns.len(),
        p.agree_before(st, slots, k, s, t),
        reloads_done(st, k, t, mid),
        reads(uses_at(p.setting, k), r),
    ensures
        mid[use_home(maps_of(p.setting, st, k), r)] == s[r],
{
    let fixed = all_fixed(p.setting, p.rlrs);
    let u = point_rank(k, Point::Use);
    let d = point_rank(k, Point::Def);
    let uses = uses_at(p.setting, k);
    let maps = maps_of(p.setting, st, k);
    lemma_reaches_inv(p.setting, p.rlrs, p.vlrs, p.frags, st);
    lemma_reloads_spare(p, st, slots, k, t, mid);
    assert(st.queue.len() == 0);
    match r {
        Reg::Real(q) => {
            assert(uses.mentions(Reg::Real(q)));
            assert(p.owns(q, u));
        },
        Reg::Virtual(v) => {
            assert(mention_covered(p.setting, p.vlrs, p.frags, v, k));
            let q = if uses.used.contains(r) {
                u
            } else {
                d
            };
            assert(covers_points(p.vlrs, p.frags, v, u, q));
            let (c, a) = choose|c: int, a: int|
                #![trigger p.vlrs[c].frags[a]]
                0 <= c < p.vlrs.len() && p.vlrs[c].vreg == v && 0 <= a < p.vlrs[c].frags.len()
                    && p.frags[p.vlrs[c].frags[a].pos()].covers(u)
                    && p.frags[p.vlrs[c].frags[a].pos()].covers(q);
            law_ranges_are_kept(p.setting, p.rlrs, p.vlrs, p.frags, st);
            assert(st.fits());
            let x = VirtualRangeIx { ix: c as u32 };
            assert(x.pos() == c);
            lemma_same_range(p, st, x);
            assert(p.frags[p.vlrs[x.pos()].frags[a].pos()] == st.frag_at(x, a));
            assert(p.live(x, u));
            if st.live(None, x) {
                let i = lemma_in_reg(p.setting, fixed, st, x);
                lemma_mapped(p.setting, fixed, st, i, x, a, k);
            } else {
                let kind = if uses.used.contains(r) {
                    BridgeKind::RtoU
                } else {
                    BridgeKind::RtoS
                };
                let e = lemma_bridge(p, st, slots, x, a, k, kind);
                let j = lemma_order(p, st, slots, e);
                assert(reloads_at(st, e, k));
                lemma_mapped(p.setting, fixed, st, j, st.edits[e].vlrix, 0, k);
            }
        },
    }
}

/// Two fragments for one virtual register that are live at one point are the same one.
proof fn lemma_one_range<I>(
    p: Problem<I>,
    st: AllocState,
    x: VirtualRangeIx,
    a: int,
    y: VirtualRangeIx,
    b: int,
    rank: int,
)
    requires
        gets_to(p.setting, p.rlrs, p.vlrs, p.frags, st),
        x.pos() < p.vlrs.len(),
        y.pos() < p.vlrs.len(),
        p.vlrs[x.pos()].vreg == p.vlrs[y.pos()].vreg,
        0 <= a < st.vlr(x).frags.len(),
        0 <= b < st.vlr(y).frags.len(),
        st.frag_at(x, a).covers(rank),
        st.frag_at(y, b).covers(rank),
    ensures
        x == y,
        a == b,
{
    lemma_same_range(p, st, x);
    lemma_same_range(p, st, y);
    let fx = p.vlrs[x.pos()].frags;
    let fy = p.vlrs[y.pos()].frags;
    assert(p.frags[fx[a].pos()] == st.frag_at(x, a));
    assert(p.frags[fy[b].pos()] == st.frag_at(y, b));
    if x != y {
        assert(x.pos() != y.pos());
        assert(frags_clear(p.frags, fx.to_set(), fy));
        assert(fx.to_set().contains(fx[a]));
        assert(p.frags[fx[a].pos()].disjoint(p.frags[fy[b].pos()]));
    } else {
        assert(vlr_ok(p.setting, p.frags, p.vlrs[x.pos()])) by {
            assert(p.vlrs[x.pos()].rreg is None);
        }
        if a < b {
            assert(p.frags[fx[a].pos()].before(p.frags[fx[b].pos()]));
        } else if b < a {
            assert(p.frags[fx[b].pos()].before(p.frags[fx[a].pos()]));
        }
    }
}

/// Nothing that the instruction writes goes to the register of another range that is live there,
/// or to one of the client's own.
proof fn lemma_writes_spare<I>(
    p: Problem<I>,
    st: AllocState,
    slots: Map<VirtualRangeIx, SpillSlot>,
    k: int,
    w: Reg,
)
    requires
        p.solved_by(st, slots),
        0 <= k < p.setting.func.insns.len(),
        writes(uses_at(p.setting, k), w),
    ensures
        forall|x: VirtualRangeIx, i: int, a: int|
            #![trigger st.at_reg(x, i), st.frag_at(x, a)]
            st.at_reg(x, i) && 0 <= a < st.vlr(x).frags.len() && st.frag_at(x, a).covers(
                point_rank(k, Point::Def),
            ) && def_home(maps_of(p.setting, st, k), w) == p.setting.universe.reg_seq()[i] ==> w
                == Reg::Virtual(st.vlr(x).vreg),
        forall|q: RealReg| #[trigger]
            p.owns(q, point_rank(k, Point::Def)) && def_home(maps_of(p.setting, st, k), w) == q
                ==> w == Reg::Real(q),
{
    let fixed = all_fixed(p.setting, p.rlrs);
    let d = point_rank(k, Point::Def);
    let uses = uses_at(p.setting, k);
    let maps = maps_of(p.setting, st, k);
    lemma_reaches_inv(p.setting, p.rlrs, p.vlrs, p.frags, st);
    assert(st.queue.len() == 0);
    match w {
        Reg::Real(q) => {
            assert(uses.mentions(Reg::Real(q)));
            assert(p.owns(q, d));
            assert forall|x: VirtualRangeIx, i: int, a: int|
                #![trigger st.at_reg(x, i), st.frag_at(x, a)]
                st.at_reg(x, i) && 0 <= a < st.vlr(x).frags.len() && st.frag_at(x, a).covers(
                    d,
                ) implies q != p.setting.universe.reg_seq()[i] by {
                lemma_no_guest(p, st, i, x, a, q, d);
            }
        },
        Reg::Virtual(v) => {
            lemma_all_covered(p.setting, fixed, st);
            let insn = p.setting.func.insns[k];
            assert((p.setting.im.regs)(insn).covered_by(maps.uses, maps.defs));
            assert(uses.mentions(Reg::Virtual(v)));
            let (j, y, b) = lemma_mapped_from(p.setting, fixed, st, v, k);
            assert(st.at_reg(y, j));
            assert forall|x: VirtualRangeIx, i: int, a: int|
                #![trigger st.at_reg(x, i), st.frag_at(x, a)]
                st.at_reg(x, i) && 0 <= a < st.vlr(x).frags.len() && st.frag_at(x, a).covers(d)
                    && maps.defs[v] == p.setting.universe.reg_seq()[i] implies v == st.vlr(
                x,
            ).vreg by {
                assert(p.setting.universe.reg_seq()[i].index == i);
                assert(p.setting.universe.reg_seq()[j].index == j);
                lemma_one_holder(p.setting, fixed, st, i, x, a, y, b, d);
            }
            assert forall|q: RealReg| #[trigger] p.owns(q, d) implies maps.defs[v] != q by {
                lemma_no_guest(p, st, j, y, b, q, d);
            }
        },
    }
}

/// Behind the instruction, every range has the value that it has in the source.
proof fn lemma_range_behind<I, V>(
    p: Problem<I>,
    st: AllocState,
    slots: Map<VirtualRangeIx, SpillSlot>,
    effect: spec_fn(I, Map<Reg, V>) -> Map<Reg, V>,
    k: int,
    s: Map<Reg, V>,
    s2: Map<Reg, V>,
    t: Target<V>,
    mid: Map<RealReg, V>,
    t2: Target<V>,
    x: VirtualRangeIx,
)
    requires
        p.solved_by(st, slots),
        0 <= k < p.setting.func.insns.len(),
        p.agree_before(st, slots, k, s, t),
        source_step(p.setting, effect, k, s, s2),
        target_step(p.setting, effect, st, k, t, mid, t2),
        forall|r: Reg| #[trigger]
            writes(uses_at(p.setting, k), r) ==> t2.regs[def_home(maps_of(p.setting, st, k), r)]
                == s2[r],
        p.lives_on(x, k),
    ensures
        value_of(st, slots, t2, x) == s2[p.reg(x)],
{
    let fixed = all_fixed(p.setting, p.rlrs);
    let u = point_rank(k, Point::Use);
    let d = point_rank(k, Point::Def);
    let uses = uses_at(p.setting, k);
    let maps = maps_of(p.setting, st, k);
    let r = p.reg(x);
    lemma_reaches_inv(p.setting, p.rlrs, p.vlrs, p.frags, st);
    lemma_reloads_spare(p, st, slots, k, t, mid);
    assert(st.queue.len() == 0);
    lemma_same_range(p, st, x);
    let b = lemma_live_frag(p, st, x, d);
    let v = st.vlr(x).vreg;
    if st.live(None, x) {
        let i = lemma_in_reg(p.setting, fixed, st, x);
        let q = p.setting.universe.reg_seq()[i];
        lemma_mapped(p.setting, fixed, st, i, x, b, k);
        if !writes(uses, r) {
            assert forall|w: Reg| #[trigger] writes(uses, w) implies def_home(maps, w) != q by {
                lemma_writes_spare(p, st, slots, k, w);
                assert(st.at_reg(x, i) && st.frag_at(x, b).covers(d));
            }
            assert(t2.regs[q] == mid[q]);
            assert(p.live(x, u));
            assert(s2[r] == s[r]);
        }
    } else if writes(uses, r) {
        let kind = if uses.defined.contains(r) {
            BridgeKind::DtoS
        } else {
            BridgeKind::RtoS
        };
        if !uses.defined.contains(r) {
            // The fragment that is live where a modified register is written is the one that is
            // live where it is read.
            assert(mention_covered(p.setting, p.vlrs, p.frags, v, k));
            assert(covers_points(p.vlrs, p.frags, v, u, d));
            let (c, a) = choose|c: int, a: int|
                #![trigger p.vlrs[c].frags[a]]
                0 <= c < p.vlrs.len() && p.vlrs[c].vreg == v && 0 <= a < p.vlrs[c].frags.len()
                    && p.frags[p.vlrs[c].frags[a].pos()].covers(u)
                    && p.frags[p.vlrs[c].frags[a].pos()].covers(d);
            law_ranges_are_kept(p.setting, p.rlrs, p.vlrs, p.frags, st);
            assert(st.fits());
            let y = VirtualRangeIx { ix: c as u32 };
            assert(y.pos() == c);
            lemma_same_range(p, st, y);
            assert(p.frags[p.vlrs[y.pos()].frags[a].pos()] == st.frag_at(y, a));
            lemma_one_range(p, st, x, b, y, a, d);
        }
        let e = lemma_bridge(p, st, slots, x, b, k, kind);
        let j = lemma_order(p, st, slots, e);
        assert(spills_at(st, e, k));
        lemma_mapped(p.setting, fixed, st, j, st.edits[e].vlrix, 0, k);
        assert(t2.slots[slots[x]] == t2.regs[reg_of(st, e)]);
    } else {
        assert(slots.contains_key(x));
        assert forall|e: int| #[trigger] spills_at(st, e, k) implies st.edits[e].slot
            != slots[x] by {
            if st.edits[e].slot == slots[x] {
                assert(has_range(p.setting, p.vlrs.len() as int, st, slots, e));
                let y = choose|y: VirtualRangeIx| #[trigger]
                    slots.contains_key(y) && is_order_of(p.setting, st, y, slots[y], e);
                assert(y == x);
                let a = choose|a: int| #[trigger]
                    needs_at(p.setting, st, x, a, place_of(st, e), st.edits[e].kind);
                assert(needs_at(p.setting, st, x, a, k, st.edits[e].kind));
            }
        }
        assert(t2.slots[slots[x]] == t.slots[slots[x]]);
        assert(p.live(x, u));
        assert(s2[r] == s[r]);
    }
}

/// One instruction of the allocated code, with the reloads before it and the spills behind it, does
/// what the instruction of the source does: it reads the same values, and behind it the two agree
/// again.
pub proof fn law_instructions_agree<I, V>(
    p: Problem<I>,
    st: AllocState,
    slots: Map<VirtualRangeIx, SpillSlot>,
    effect: spec_fn(I, Map<Reg, V>) -> Map<Reg, V>,
    k: int,
    s: Map<Reg, V>,
    s2: Map<Reg, V>,
    t: Target<V>,
    mid: Map<RealReg, V>,
    t2: Target<V>,
)
    requires
        p.solved_by(st, slots),
        0 <= k < p.setting.func.insns.len(),
        p.agree_before(st, slots, k, s, t),
        source_step(p.setting, effect, k, s, s2),
        target_step(p.setting, effect, st, k, t, mid, t2),
    ensures
        forall|r: Reg| #[trigger]
            reads(uses_at(p.setting, k), r) ==> mid[use_home(maps_of(p.setting, st, k), r)] == s[r],
        p.agree_behind(st, slots, k, s2, t2),
{
    let u = point_rank(k, Point::Use);
    let d = point_rank(k, Point::Def);
    let uses = uses_at(p.setting, k);
    let maps = maps_of(p.setting, st, k);
    let insn = p.setting.func.insns[k];
    assert forall|r: Reg| #[trigger] reads(uses, r) implies mid[use_home(maps, r)] == s[r] by {
        lemma_reads_agree(p, st, slots, k, s, t, mid, r);
    }
    let in_s = Map::new(|r: Reg| reads(uses, r), |r: Reg| s[r]);
    let in_t = Map::new(|r: Reg| reads(uses, r), |r: Reg| mid[use_home(maps, r)]);
    assert(in_s =~= in_t);
    let out = effect(insn, in_s);
    assert forall|r: Reg| #[trigger] writes(uses, r) implies t2.regs[def_home(maps, r)]
        == s2[r] by {
        assert(s2[r] == out[r]);
    }
    assert forall|x: VirtualRangeIx| #[trigger] p.lives_on(x, k) implies value_of(
        st,
        slots,
        t2,
        x,
    ) == s2[p.reg(x)] by {
        lemma_range_behind(p, st, slots, effect, k, s, s2, t, mid, t2, x);
    }
    lemma_reloads_spare(p, st, slots, k, t, mid);
    assert forall|q: RealReg| #[trigger] p.stays_owned(q, k) implies t2.regs[q] == s2[Reg::Real(
        q,
    )] by {
        if writes(uses, Reg::Real(q)) {
            assert(t2.regs[def_home(maps, Reg::Real(q))] == s2[Reg::Real(q)]);
        } else {
            assert forall|w: Reg| #[trigger] writes(uses, w) implies def_home(maps, w) != q by {
                lemma_writes_spare(p, st, slots, k, w);
                assert(p.owns(q, d));
            }
            assert(t2.regs[q] == mid[q]);
            assert(p.owns(q, u));
            assert(s2[Reg::Real(q)] == s[Reg::Real(q)]);
        }
    }
}

/// No two of the registers that an instruction writes end up in one real register.
pub proof fn law_results_do_not_collide<I>(
    p: Problem<I>,
    st: AllocState,
    slots: Map<VirtualRangeIx, SpillSlot>,
    k: int,
    r: Reg,
    w: Reg,
)
    requires
        p.solved_by(st, slots),
        0 <= k < p.setting.func.insns.len(),
        writes(uses_at(p.setting, k), r),
        writes(uses_at(p.setting, k), w),
        r != w,
    ensures
        def_home(maps_of(p.setting, st, k), r) != def_home(maps_of(p.setting, st, k), w),
{
    let fixed = all_fixed(p.setting, p.rlrs);
    let uses = uses_at(p.setting, k);
    let maps = maps_of(p.setting, st, k);
    lemma_reaches_inv(p.setting, p.rlrs, p.vlrs, p.frags, st);
    assert(st.queue.len() == 0);
    lemma_writes_spare(p, st, slots, k, w);
    match r {
        Reg::Real(q) => {
            assert(uses.mentions(Reg::Real(q)));
            assert(p.owns(q, point_rank(k, Point::Def)));
        },
        Reg::Virtual(v) => {
            lemma_all_covered(p.setting, fixed, st);
            let insn = p.setting.func.insns[k];
            assert((p.setting.im.regs)(insn).covered_by(maps.uses, maps.defs));
            assert(uses.mentions(Reg::Virtual(v)));
            let (j, y, b) = lemma_mapped_from(p.setting, fixed, st, v, k);
            assert(st.at_reg(y, j) && st.frag_at(y, b).covers(point_rank(k, Point::Def)));
        },
    }
}

// ---- A run

/// Along any path through the code that the live ranges allow for, the allocated code reads the
/// same values as the source, instruction by instruction, if the two agree at its start.
pub proof fn law_runs_agree<I, V>(
    p: Problem<I>,
    st: AllocState,
    slots: Map<VirtualRangeIx, SpillSlot>,
    effect: spec_fn(I, Map<Reg, V>) -> Map<Reg, V>,
    path: Seq<int>,
    s: Seq<Map<Reg, V>>,
    t: Seq<Target<V>>,
    mid: Seq<Map<RealReg, V>>,
    n: int,
)
    requires
        p.solved_by(st, slots),
        s.len() == path.len() + 1,
        t.len() == path.len() + 1,
        mid.len() == path.len(),
        forall|i: int|
            0 <= i < path.len() ==> {
                &&& 0 <= #[trigger] path[i] < p.setting.func.insns.len()
                &&& source_step(p.setting, effect, path[i], s[i], s[i + 1])
                &&& target_step(p.setting, effect, st, path[i], t[i], mid[i], t[i + 1])
                &&& i > 0 ==> p.may_follow(path[i - 1], path[i])
            },
        path.len() > 0 ==> p.agree_before(st, slots, path[0], s[0], t[0]),
        0 <= n < path.len(),
    ensures
        p.agree_before(st, slots, path[n], s[n], t[n]),
        forall|r: Reg| #[trigger]
            reads(uses_at(p.setting, path[n]), r) ==> mid[n][use_home(
                maps_of(p.setting, st, path[n]),
                r,
            )] == s[n][r],
    decreases n,
{
    if n > 0 {
        let k = path[n - 1];
        law_runs_agree(p, st, slots, effect, path, s, t, mid, n - 1);
        law_instructions_agree(
            p,
            st,
            slots,
            effect,
            k,
            s[n - 1],
            s[n],
            t[n - 1],
            mid[n - 1],
            t[n],
        );
        assert(p.may_follow(path[n - 1], path[n]));
    }
    law_instructions_agree(
        p,
        st,
        slots,
        effect,
        path[n],
        s[n],
        s[n + 1],
        t[n],
        mid[n],
        t[n + 1],
    );
}

// ---- The instructions that carry out the orders

/// The reload that order `e` has done, as the function `m` makes it.
pub open spec fn reload_insn<I>(m: FuncModel<I>, st: AllocState, e: int) -> I {
    (m.reload)(
        Writable { reg: reg_of(st, e) },
        st.edits[e].slot,
        st.vlr(st.edits[e].vlrix).vreg,
    )
}

/// The spill that order `e` has done, as the function `m` makes it.
pub open spec fn spill_insn<I>(m: FuncModel<I>, st: AllocState, e: int) -> I {
    (m.spill)(st.edits[e].slot, reg_of(st, e), st.vlr(st.edits[e].vlrix).vreg)
}

proof fn lemma_insts_at_concat<I>(a: Seq<(InstPoint, I)>, b: Seq<(InstPoint, I)>, p: InstPoint)
    ensures
        insts_at(a + b, p) == insts_at(a, p) + insts_at(b, p),
    decreases b.len(),
{
    if b.len() == 0 {
        assert(a + b =~= a);
        assert(insts_at(a, p) + insts_at(b, p) =~= insts_at(a, p));
    } else {
        lemma_insts_at_concat(a, b.drop_last(), p);
        assert((a + b).drop_last() =~= a + b.drop_last());
        assert((a + b).last() == b.last());
        if b.last().0 == p {
            assert((insts_at(a, p) + insts_at(b.drop_last(), p)).push(b.last().1) =~= insts_at(a, p)
                + insts_at(b, p));
        }
    }
}

/// What one order puts at a point.
proof fn lemma_insts_of_order<I>(
    m: FuncModel<I>,
    st: AllocState,
    e: int,
    k: int,
    num_insns: int,
)
    requires
        0 <= e < st.edits.len(),
        order_ok(st.edits[e], st.vlrs, st.frags, num_insns),
        0 <= k < num_insns <= u32::MAX,
    ensures
        ({
            let item = st.edits[e];
            let vlr = st.vlr(item.vlrix);
            let frag = st.frag_at(item.vlrix, 0);
            let items = items_of(m, item, vlr, frag);
            &&& insts_at(items, point_at(k, Point::Reload)) == (if reloads_at(st, e, k) {
                seq![reload_insn(m, st, e)]
            } else {
                Seq::empty()
            })
            &&& insts_at(items, point_at(k, Point::Spill)) == (if spills_at(st, e, k) {
                seq![spill_insn(m, st, e)]
            } else {
                Seq::empty()
            })
        }),
{
    let item = st.edits[e];
    let vlr = st.vlr(item.vlrix);
    let frag = st.frag_at(item.vlrix, 0);
    let items = items_of(m, item, vlr, frag);
    let pr = point_at(k, Point::Reload);
    let ps = point_at(k, Point::Spill);
    reveal_with_fuel(insts_at, 3);
    assert(frag.first.iix == pr.iix <==> place_of(st, e) == k);
    assert(frag.last.iix == ps.iix <==> place_of(st, e) == k);
    assert(items.drop_last().len() == items.len() - 1);
    if item.kind is RtoS {
        assert(items.drop_last() =~= seq![items[0]]);
        assert(items.drop_last().drop_last() =~= Seq::empty());
        assert(items.drop_last().last() == items[0]);
        assert(items.last() == items[1]);
    } else {
        assert(items.drop_last() =~= Seq::empty());
        assert(items.last() == items[0]);
    }
    assert(insts_at(items, pr) =~= (if reloads_at(st, e, k) {
        seq![reload_insn(m, st, e)]
    } else {
        Seq::empty()
    }));
    assert(insts_at(items, ps) =~= (if spills_at(st, e, k) {
        seq![spill_insn(m, st, e)]
    } else {
        Seq::empty()
    }));
}

/// The reloads that the orders before `n` have done at instruction `k`, in the order of the list.
pub open spec fn reload_insns<I>(m: FuncModel<I>, st: AllocState, k: int, n: int) -> Seq<I>
    decreases n,
{
    if n <= 0 {
        Seq::empty()
    } else if reloads_at(st, n - 1, k) {
        reload_insns(m, st, k, n - 1).push(reload_insn(m, st, n - 1))
    } else {
        reload_insns(m, st, k, n - 1)
    }
}

/// The spills that the orders before `n` have done at instruction `k`, in the order of the list.
pub open spec fn spill_insns<I>(m: FuncModel<I>, st: AllocState, k: int, n: int) -> Seq<I>
    decreases n,
{
    if n <= 0 {
        Seq::empty()
    } else if spills_at(st, n - 1, k) {
        spill_insns(m, st, k, n - 1).push(spill_insn(m, st, n - 1))
    } else {
        spill_insns(m, st, k, n - 1)
    }
}

/// In the outcome, what stands before an instruction are the reloads that have been ordered for
/// it, and what stands behind it are the spills, each once and with the order's register and slot.
pub proof fn law_orders_are_carried_out<I>(
    p: Problem<I>,
    m: FuncModel<I>,
    st: AllocState,
    slots: Map<VirtualRangeIx, SpillSlot>,
    k: int,
)
    requires
        p.solved_by(st, slots),
        0 <= k < p.setting.func.insns.len(),
    ensures
        ({
            let items = edit_items(m, st.edits, st.vlrs, st.frags);
            let n = st.edits.len() as int;
            &&& insts_at(items, point_at(k, Point::Reload)) == reload_insns(m, st, k, n)
            &&& insts_at(items, point_at(k, Point::Spill)) == spill_insns(m, st, k, n)
        }),
{
    lemma_reaches_inv(p.setting, p.rlrs, p.vlrs, p.frags, st);
    assert(st.queue.len() == 0);
    lemma_orders_ok(p.setting, all_fixed(p.setting, p.rlrs), st);
    lemma_orders_before(m, st, k, st.edits.len() as int, p.setting.func.insns.len() as int);
    assert(st.edits.take(st.edits.len() as int) =~= st.edits);
}

/// What the first `n` orders put at instruction `k` are their reloads and spills there.
pub proof fn lemma_orders_before<I>(
    m: FuncModel<I>,
    st: AllocState,
    k: int,
    n: int,
    num_insns: int,
)
    requires
        orders_ok(st.edits, st.vlrs, st.frags, num_insns),
        0 <= k < num_insns <= u32::MAX,
        0 <= n <= st.edits.len(),
    ensures
        ({
            let items = edit_items(m, st.edits.take(n), st.vlrs, st.frags);
            &&& insts_at(items, point_at(k, Point::Reload)) == reload_insns(m, st, k, n)
            &&& insts_at(items, point_at(k, Point::Spill)) == spill_insns(m, st, k, n)
        }),
    decreases n,
{
    if n > 0 {
        let e = n - 1;
        let item = st.edits[e];
        let before = edit_items(m, st.edits.take(e), st.vlrs, st.frags);
        let mine = items_of(m, item, st.vlr(item.vlrix), st.frag_at(item.vlrix, 0));
        let pr = point_at(k, Point::Reload);
        let ps = point_at(k, Point::Spill);
        lemma_orders_before(m, st, k, e, num_insns);
        assert(order_ok(item, st.vlrs, st.frags, num_insns));
        lemma_insts_of_order(m, st, e, k, num_insns);
        assert(st.edits.take(n).drop_last() =~= st.edits.take(e));
        assert(st.edits.take(n).last() == item);
        lemma_insts_at_concat(before, mine, pr);
        lemma_insts_at_concat(before, mine, ps);
        assert(insts_at(before + mine, pr) =~= reload_insns(m, st, k, n));
        assert(insts_at(before + mine, ps) =~= spill_insns(m, st, k, n));
    }
}

} // verus!
