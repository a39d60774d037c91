//! What the allocator arrives at: where each fragment is placed, and which instructions that calls
//! for.

use crate::frags::{point_rank, InstPoint, Point, RangeFrag};
use crate::in_force::{entry_frag, law_maps_are_live_fragments, list_ok, spans};
use crate::index::{RangeFragIx, TypedIx, VirtualRangeIx};
use crate::interface::{FuncModel, Function, InstModel, RegAllocResult};
use crate::mapping::insn_maps;
use crate::ranges::VlrView;
use crate::real_reg::RegView;
use crate::regs::{RealReg, RealRegUniverse, Reg, VirtualReg, Writable};
use crate::safety::{frag_ok, lemma_pushed_members, vlr_ok};
use crate::spill::{BridgeKind, EditListItem};
use crate::state::{AllocState, Setting};
use crate::stream::{
    all_covered, all_real, all_write_real, block_targets, items_placed, rewritten_insns, spliced,
};
use vstd::prelude::*;

verus! {

/// A place in the allocator's tables: fragment `frag` of range `vlrix`, which register `reg` holds.
pub struct Site {
    pub reg: int,
    pub vlrix: VirtualRangeIx,
    pub frag: int,
}

/// The first `n` fragments of a range.
pub open spec fn vlr_sites(reg: int, vlrix: VirtualRangeIx, n: nat) -> Seq<Site> {
    Seq::new(n, |k: int| Site { reg, vlrix, frag: k })
}

/// All fragments of the ranges that are assigned to a register.
pub open spec fn reg_sites(
    reg: int,
    assigned: Seq<VirtualRangeIx>,
    vlrs: Seq<VlrView>,
) -> Seq<Site>
    decreases assigned.len(),
{
    if assigned.len() == 0 {
        Seq::empty()
    } else {
        reg_sites(reg, assigned.drop_last(), vlrs) + vlr_sites(
            reg,
            assigned.last(),
            vlrs[assigned.last().pos()].frags.len(),
        )
    }
}

/// All fragments of the ranges that are assigned to the first `n` registers.
pub open spec fn sites(regs: Seq<RegView>, vlrs: Seq<VlrView>, n: int) -> Seq<Site>
    decreases n,
{
    if n <= 0 {
        Seq::empty()
    } else {
        sites(regs, vlrs, n - 1) + reg_sites(n - 1, regs[n - 1].assigned, vlrs)
    }
}

/// The fragment at a site, the virtual register that is live there, and the real register that
/// holds it.
pub open spec fn placement(
    universe: RealRegUniverse,
    vlrs: Seq<VlrView>,
    s: Site,
) -> (RangeFragIx, VirtualReg, RealReg) {
    (vlrs[s.vlrix.pos()].frags[s.frag], vlrs[s.vlrix.pos()].vreg, universe.reg_seq()[s.reg])
}

/// Where all fragments of all ranges that have a register are placed.
pub open spec fn placements(universe: RealRegUniverse, st: AllocState) -> Seq<
    (RangeFragIx, VirtualReg, RealReg),
> {
    sites(st.regs, st.vlrs, st.regs.len() as int).map_values(
        |s: Site| placement(universe, st.vlrs, s),
    )
}

/// The spill and reload instructions that an order of the edit list calls for, with their places.
pub open spec fn items_of<I>(
    m: FuncModel<I>,
    item: EditListItem,
    vlr: VlrView,
    frag: RangeFrag,
) -> Seq<(InstPoint, I)> {
    let rreg = vlr.rreg->0;
    let reload = (frag.first, (m.reload)(Writable { reg: rreg }, item.slot, vlr.vreg));
    let spill = (frag.last, (m.spill)(item.slot, rreg, vlr.vreg));
    match item.kind {
        BridgeKind::RtoU => seq![reload],
        BridgeKind::RtoS => seq![reload, spill],
        BridgeKind::DtoS => seq![spill],
    }
}

/// The spill and reload instructions that the edit list calls for.
pub open spec fn edit_items<I>(
    m: FuncModel<I>,
    edits: Seq<EditListItem>,
    vlrs: Seq<VlrView>,
    frags: Seq<RangeFrag>,
) -> Seq<(InstPoint, I)>
    decreases edits.len(),
{
    if edits.len() == 0 {
        Seq::empty()
    } else {
        let vlr = vlrs[edits.last().vlrix.pos()];
        edit_items(m, edits.drop_last(), vlrs, frags) + items_of(
            m,
            edits.last(),
            vlr,
            frags[vlr.frags[0].pos()],
        )
    }
}

/// An order that can be carried out: its range has one fragment, of the order's kind and in the
/// function, and a register.
pub open spec fn order_ok(
    item: EditListItem,
    vlrs: Seq<VlrView>,
    frags: Seq<RangeFrag>,
    num_insns: int,
) -> bool {
    let vlr = vlrs[item.vlrix.pos()];
    let frag = frags[vlr.frags[0].pos()];
    &&& item.vlrix.pos() < vlrs.len()
    &&& vlr.rreg is Some
    &&& vlr.frags.len() == 1
    &&& vlr.frags[0].pos() < frags.len()
    &&& frag.first.iix == frag.last.iix
    &&& (frag.first.pt, frag.last.pt) == item.kind.spec_points()
    &&& frag.last.iix.pos() < num_insns
}

/// All orders of an edit list can be carried out.
pub open spec fn orders_ok(
    edits: Seq<EditListItem>,
    vlrs: Seq<VlrView>,
    frags: Seq<RangeFrag>,
    num_insns: int,
) -> bool {
    forall|e: int|
        0 <= e < edits.len() ==> order_ok(#[trigger] edits[e], vlrs, frags, num_insns)
}

/// The real registers that some instruction writes.
pub open spec fn written<I>(im: InstModel<I>, insns: Seq<I>) -> Set<RealReg> {
    Set::new(
        |r: RealReg|
            exists|j: int|
                0 <= j < insns.len() && {
                    ||| (im.regs)(#[trigger] insns[j]).modified.contains(Reg::Real(r))
                    ||| (im.regs)(insns[j]).defined.contains(Reg::Real(r))
                },
    )
}

/// What editing the function `m` comes to: its instructions with real for virtual registers, and
/// between them the spills and reloads. No virtual register is written any more; where the maps have
/// all that the instructions mention, none is left at all.
pub open spec fn is_edited<F: Function>(
    r: RegAllocResult<F>,
    m: FuncModel<F::Inst>,
    edits: Seq<EditListItem>,
    starts: Seq<(RangeFragIx, VirtualReg, RealReg)>,
    ends: Seq<(RangeFragIx, VirtualReg, RealReg)>,
    vlrs: Seq<VlrView>,
    frags: Seq<RangeFrag>,
    num_spill_slots: int,
) -> bool {
    let im = F::inst_model();
    let len = m.insns.len() as int;
    let edited = m.with_insns(
        rewritten_insns(im, m, starts, ends, frags, Seq::empty(), len),
    );
    let items = edit_items(edited, edits, vlrs, frags);
    &&& r.insns@ == spliced(items, edited.insns, len)
    &&& r.target_map@ == block_targets(items, edited)
    &&& r.clobbered_registers@ == written(im, r.insns@)
    &&& r.num_spill_slots == num_spill_slots
    &&& all_write_real(im, r.insns@)
    &&& all_covered(im, m.insns, starts, ends, frags) ==> all_real(im, r.insns@)
}

// ---- The final state

proof fn lemma_reg_sites(reg: int, assigned: Seq<VirtualRangeIx>, vlrs: Seq<VlrView>)
    ensures
        forall|s: Site| #[trigger]
            reg_sites(reg, assigned, vlrs).contains(s) <==> s.reg == reg && assigned.contains(
                s.vlrix,
            ) && 0 <= s.frag < vlrs[s.vlrix.pos()].frags.len(),
        assigned.no_duplicates() ==> reg_sites(reg, assigned, vlrs).no_duplicates(),
    decreases assigned.len(),
{
    let all = reg_sites(reg, assigned, vlrs);
    if assigned.len() > 0 {
        let x = assigned.last();
        let n = vlrs[x.pos()].frags.len();
        let fewer = assigned.drop_last();
        let a = reg_sites(reg, fewer, vlrs);
        let b = vlr_sites(reg, x, n);
        lemma_reg_sites(reg, fewer, vlrs);
        assert(assigned =~= fewer.push(x));
        lemma_pushed_members(fewer, x);
        assert forall|s: Site| #[trigger] b.contains(s) <==> s.reg == reg && s.vlrix == x && 0
            <= s.frag < n by {
            if s.reg == reg && s.vlrix == x && 0 <= s.frag < n {
                assert(b[s.frag] == s);
            }
        }
        assert forall|s: Site| #[trigger] all.contains(s) <==> a.contains(s) || b.contains(s) by {
            vstd::seq_lib::lemma_seq_concat_contains_all_elements(a, b, s);
        }
        if assigned.no_duplicates() {
            assert(!fewer.contains(x)) by {
                if fewer.contains(x) {
                    let i = choose|i: int| 0 <= i < fewer.len() && fewer[i] == x;
                    assert(assigned[i] == assigned[assigned.len() - 1]);
                }
            }
            assert forall|i: int, j: int| 0 <= i < a.len() && 0 <= j < b.len() implies a[i]
                != b[j] by {
                assert(a.contains(a[i]));
            }
            vstd::seq_lib::lemma_no_dup_in_concat(a, b);
        }
    }
}

/// The sites are all fragments of all ranges that are assigned to a register, each of them once.
pub proof fn lemma_sites(regs: Seq<RegView>, vlrs: Seq<VlrView>, n: int)
    requires
        0 <= n <= regs.len(),
        forall|i: int| 0 <= i < regs.len() ==> (#[trigger] regs[i]).assigned.no_duplicates(),
    ensures
        forall|s: Site| #[trigger]
            sites(regs, vlrs, n).contains(s) <==> 0 <= s.reg < n
                && regs[s.reg].assigned.contains(s.vlrix) && 0 <= s.frag
                < vlrs[s.vlrix.pos()].frags.len(),
        sites(regs, vlrs, n).no_duplicates(),
    decreases n,
{
    if n > 0 {
        let a = sites(regs, vlrs, n - 1);
        let b = reg_sites(n - 1, regs[n - 1].assigned, vlrs);
        lemma_sites(regs, vlrs, n - 1);
        lemma_reg_sites(n - 1, regs[n - 1].assigned, vlrs);
        assert forall|s: Site| #[trigger]
            sites(regs, vlrs, n).contains(s) <==> a.contains(s) || b.contains(s) by {
            vstd::seq_lib::lemma_seq_concat_contains_all_elements(a, b, s);
        }
        assert forall|i: int, j: int| 0 <= i < a.len() && 0 <= j < b.len() implies a[i]
            != b[j] by {
            assert(a.contains(a[i]));
            assert(b.contains(b[j]));
        }
        vstd::seq_lib::lemma_no_dup_in_concat(a, b);
    }
}

/// A fragment of a range that has a register is among the placements.
pub proof fn lemma_placement_at<I>(
    setting: Setting<I>,
    fixed: Seq<Set<RangeFragIx>>,
    st: AllocState,
    x: VirtualRangeIx,
    i: int,
    k: int,
) -> (j: int)
    requires
        st.inv(setting, fixed, None),
        st.at_reg(x, i),
        0 <= k < st.vlr(x).frags.len(),
    ensures
        0 <= j < placements(setting.universe, st).len(),
        placements(setting.universe, st)[j] == (
            st.vlr(x).frags[k],
            st.vlr(x).vreg,
            setting.universe.reg_seq()[i],
        ),
{
    let all = sites(st.regs, st.vlrs, st.regs.len() as int);
    lemma_sites(st.regs, st.vlrs, st.regs.len() as int);
    let s = Site { reg: i, vlrix: x, frag: k };
    assert(all.contains(s));
    choose|j: int| 0 <= j < all.len() && all[j] == s
}

/// Each placement is of a fragment of a range that has the register.
pub proof fn lemma_placement_from<I>(
    setting: Setting<I>,
    fixed: Seq<Set<RangeFragIx>>,
    st: AllocState,
    j: int,
) -> (s: Site)
    requires
        st.inv(setting, fixed, None),
        0 <= j < placements(setting.universe, st).len(),
    ensures
        s == sites(st.regs, st.vlrs, st.regs.len() as int)[j],
        placements(setting.universe, st)[j] == placement(setting.universe, st.vlrs, s),
        st.at_reg(s.vlrix, s.reg),
        st.owns(None, s.vlrix, s.frag),
        s.vlrix.pos() < st.vlrs.len(),
        frag_ok(setting, st.frag_at(s.vlrix, s.frag)),
        st.vlr(s.vlrix).frags[s.frag].pos() < st.frags.len(),
{
    let all = sites(st.regs, st.vlrs, st.regs.len() as int);
    lemma_sites(st.regs, st.vlrs, st.regs.len() as int);
    let s = all[j];
    assert(all.contains(s));
    assert(st.at_reg(s.vlrix, s.reg));
    assert(st.live(None, s.vlrix));
    assert(vlr_ok(setting, st.frags, st.vlr(s.vlrix)));
    s
}

/// The placements are in order for editing the instructions: no two of them for one virtual
/// register are live at the same point.
pub proof fn lemma_placements_ok<I>(
    setting: Setting<I>,
    fixed: Seq<Set<RangeFragIx>>,
    st: AllocState,
)
    requires
        st.inv(setting, fixed, None),
    ensures
        list_ok(placements(setting.universe, st), st.frags),
{
    let list = placements(setting.universe, st);
    let all = sites(st.regs, st.vlrs, st.regs.len() as int);
    lemma_sites(st.regs, st.vlrs, st.regs.len() as int);
    assert forall|j: int| 0 <= j < list.len() implies (#[trigger] list[j]).0.pos()
        < st.frags.len() by {
        let s = lemma_placement_from(setting, fixed, st, j);
    }
    assert forall|j: int| 0 <= j < list.len() implies (#[trigger] entry_frag(
        list,
        st.frags,
        j,
    )).wf() && entry_frag(list, st.frags, j).is_sane() by {
        let s = lemma_placement_from(setting, fixed, st, j);
    }
    assert forall|i: int, j: int|
        0 <= i < list.len() && 0 <= j < list.len() && i != j && (#[trigger] list[i]).1 == (
        #[trigger] list[j]).1 implies entry_frag(list, st.frags, i).disjoint(
        entry_frag(list, st.frags, j),
    ) by {
        let s = lemma_placement_from(setting, fixed, st, i);
        let t = lemma_placement_from(setting, fixed, st, j);
        assert(all[i] != all[j]);
        assert(s.vlrix != t.vlrix || s.frag != t.frag);
        assert(st.owns(None, s.vlrix, s.frag) && st.owns(None, t.vlrix, t.frag));
    }
}

/// With an empty queue, a fragment that serves a mention is among the placements.
proof fn lemma_served_by_placement<I>(
    setting: Setting<I>,
    fixed: Seq<Set<RangeFragIx>>,
    st: AllocState,
    vreg: VirtualReg,
    p: int,
    q: int,
) -> (j: int)
    requires
        st.inv(setting, fixed, None),
        st.queue.len() == 0,
        st.has_frag(None, vreg, p, q),
    ensures
        0 <= j < placements(setting.universe, st).len(),
        placements(setting.universe, st)[j].1 == vreg,
        entry_frag(placements(setting.universe, st), st.frags, j).covers(p),
        entry_frag(placements(setting.universe, st), st.frags, j).covers(q),
{
    let (x, k) = choose|x: VirtualRangeIx, k: int| #[trigger]
        st.owns(None, x, k) && st.vlr(x).vreg == vreg && st.frag_at(x, k).covers(p)
            && st.frag_at(x, k).covers(q);
    assert(!st.queue.contains(x));
    let i = choose|i: int| st.at_reg(x, i);
    lemma_placement_at(setting, fixed, st, x, i, k)
}

/// Once every range has a register, the maps at each instruction have all that it mentions.
pub proof fn lemma_all_covered<I>(
    setting: Setting<I>,
    fixed: Seq<Set<RangeFragIx>>,
    st: AllocState,
)
    requires
        st.inv(setting, fixed, None),
        st.queue.len() == 0,
        setting.func.insns.len() <= u32::MAX,
    ensures
        all_covered(
            setting.im,
            setting.func.insns,
            placements(setting.universe, st),
            placements(setting.universe, st),
            st.frags,
        ),
{
    let list = placements(setting.universe, st);
    lemma_placements_ok(setting, fixed, st);
    assert forall|k: int| 0 <= k < setting.func.insns.len() implies {
        let maps = insn_maps(list, list, st.frags, k);
        (setting.im.regs)(#[trigger] setting.func.insns[k]).covered_by(maps.uses, maps.defs)
    } by {
        let maps = insn_maps(list, list, st.frags, k);
        let uses = (setting.im.regs)(setting.func.insns[k]);
        let u = point_rank(k, Point::Use);
        let d = point_rank(k, Point::Def);
        law_maps_are_live_fragments(list, st.frags, k);
        assert forall|v: VirtualReg| #[trigger] uses.mentions(Reg::Virtual(v)) implies {
            &&& uses.used.contains(Reg::Virtual(v)) ==> maps.uses.contains_key(v)
            &&& uses.defined.contains(Reg::Virtual(v)) ==> maps.defs.contains_key(v)
            &&& uses.modified.contains(Reg::Virtual(v)) ==> maps.uses.contains_key(v)
                && maps.defs.contains_key(v) && maps.uses[v] == maps.defs[v]
        } by {
            assert(st.serves(None, uses, v, k));
            if uses.used.contains(Reg::Virtual(v)) {
                let j = lemma_served_by_placement(setting, fixed, st, v, u, u);
                assert(spans(list, st.frags, j, u, u));
            }
            if uses.defined.contains(Reg::Virtual(v)) {
                let j = lemma_served_by_placement(setting, fixed, st, v, d, d);
                assert(spans(list, st.frags, j, d, d));
            }
            if uses.modified.contains(Reg::Virtual(v)) {
                let j = lemma_served_by_placement(setting, fixed, st, v, u, d);
                assert(spans(list, st.frags, j, u, u));
                assert(spans(list, st.frags, j, d, d));
            }
        }
    }
}

/// Once every range has a register, all orders of the edit list can be carried out.
pub proof fn lemma_orders_ok<I>(
    setting: Setting<I>,
    fixed: Seq<Set<RangeFragIx>>,
    st: AllocState,
)
    requires
        st.inv(setting, fixed, None),
        st.queue.len() == 0,
    ensures
        orders_ok(st.edits, st.vlrs, st.frags, setting.func.insns.len() as int),
{
    assert forall|e: int| 0 <= e < st.edits.len() implies order_ok(
        #[trigger] st.edits[e],
        st.vlrs,
        st.frags,
        setting.func.insns.len() as int,
    ) by {
        let x = st.edits[e].vlrix;
        assert(st.vlr(x).cost is None);
        assert(st.live(None, x));
        assert(!st.queue.contains(x));
        let i = choose|i: int| st.at_reg(x, i);
        assert(st.at_reg(x, i));
        assert(vlr_ok(setting, st.frags, st.vlr(x)));
        assert(st.vlr(x).frags[0].pos() < st.frags.len());
    }
}

/// What an edit list calls for goes to reload and spill points of the function.
pub proof fn lemma_items_placed<I>(
    m: FuncModel<I>,
    edits: Seq<EditListItem>,
    vlrs: Seq<VlrView>,
    frags: Seq<RangeFrag>,
    num_insns: int,
)
    requires
        orders_ok(edits, vlrs, frags, num_insns),
    ensures
        items_placed(edit_items(m, edits, vlrs, frags), num_insns),
    decreases edits.len(),
{
    if edits.len() > 0 {
        let n = edits.len() - 1;
        assert forall|e: int| 0 <= e < edits.drop_last().len() implies order_ok(
            #[trigger] edits.drop_last()[e],
            vlrs,
            frags,
            num_insns,
        ) by {
            assert(edits.drop_last()[e] == edits[e]);
        }
        lemma_items_placed(m, edits.drop_last(), vlrs, frags, num_insns);
        assert(order_ok(edits[n], vlrs, frags, num_insns));
    }
}

} // verus!
