//! Which input the allocator accepts.

use crate::course::{covers_points, input_ok, mention_covered};
use crate::frags::{frags_clear, frags_sorted, point_rank, InstPoint, Point, RangeFrag};
use crate::index::{RangeFragIx, TypedIx};
use crate::inst_stream::{blocks_inside, insts_placed, InstToInsertAndPoint};
use crate::interface::{FuncModel, InstModel, RegUses};
use crate::plain::{
    earlier, law_fragments_are_stretches_of_time, law_ranks_order_points, lemma_class_range,
    live_there, point, regs_of_class, share_a_point,
};
use crate::ranges::{RlrView, VlrView};
use crate::regs::{RealReg, Reg, RegClass, VirtualReg};
use crate::safety::{frag_ok, vlr_ok};
use crate::spill_safety::roles_ok;
use crate::state::Setting;
use crate::stream::{all_real, all_write_real, items_placed};
use vstd::prelude::*;

verus! {

/// The fragments exist and are not empty, and all of each one is earlier than the next ones.
pub open spec fn are_in_order(frags: Seq<RangeFrag>, ixs: Seq<RangeFragIx>) -> bool {
    &&& forall|i: int|
        0 <= i < ixs.len() ==> (#[trigger] ixs[i]).ix < frags.len() && !earlier(
            frags[ixs[i].ix as int].last,
            frags[ixs[i].ix as int].first,
        )
    &&& forall|i: int, j: int|
        0 <= i < j < ixs.len() ==> earlier(
            frags[(#[trigger] ixs[i]).ix as int].last,
            frags[(#[trigger] ixs[j]).ix as int].first,
        )
}

/// No fragment of the one list shares a point with one of the other.
pub open spec fn are_apart(
    frags: Seq<RangeFrag>,
    a: Seq<RangeFragIx>,
    b: Seq<RangeFragIx>,
) -> bool {
    forall|i: int, j: int|
        0 <= i < a.len() && 0 <= j < b.len() ==> !share_a_point(
            frags[(#[trigger] a[i]).ix as int],
            frags[(#[trigger] b[j]).ix as int],
        )
}

/// The fragment is in the function. It is from where one instruction reads or writes to where one
/// does, or it is a bridge at one instruction.
pub open spec fn has_a_place(frag: RangeFrag, num_insns: int) -> bool {
    &&& frag.last.iix.ix < num_insns
    &&& {
        ||| (frag.first.pt is Use || frag.first.pt is Def) && (frag.last.pt is Use
            || frag.last.pt is Def) && frag.first.iix.ix <= frag.last.iix.ix
        ||| frag.first.iix.ix == frag.last.iix.ix && frag.first.pt is Reload && (frag.last.pt is Use
            || frag.last.pt is Spill)
        ||| frag.first.iix.ix == frag.last.iix.ix && frag.first.pt is Def && frag.last.pt is Spill
    }
}

/// Some range for `vreg` has a fragment that is live at both points.
pub open spec fn is_live_for(
    vlrs: Seq<VlrView>,
    frags: Seq<RangeFrag>,
    vreg: VirtualReg,
    k: int,
    from: Point,
    to: Point,
) -> bool {
    exists|x: int, i: int|
        0 <= x < vlrs.len() && vlrs[x].vreg == vreg && 0 <= i < vlrs[x].frags.len() && live_there(
            frags[(#[trigger] vlrs[x].frags[i]).ix as int],
            point(k, from),
        ) && live_there(frags[vlrs[x].frags[i].ix as int], point(k, to))
}

/// Fragments are held in order if each is there, does not end before it starts, and is earlier, all
/// of it, than those behind it.
pub proof fn law_what_fragments_in_order_are(frags: Seq<RangeFrag>, ixs: Seq<RangeFragIx>)
    ensures
        frags_sorted(frags, ixs) <==> are_in_order(frags, ixs),
{
    assert forall|i: int| 0 <= i < ixs.len() implies (frags[(#[trigger] ixs[i]).pos()].wf()
        <==> !earlier(frags[ixs[i].ix as int].last, frags[ixs[i].ix as int].first)) by {
        let f = frags[ixs[i].pos()];
        law_ranks_order_points(f.last, f.first);
    }
    assert forall|i: int, j: int| 0 <= i < ixs.len() && 0 <= j < ixs.len() implies (frags[(
    #[trigger] ixs[i]).pos()].before(frags[(#[trigger] ixs[j]).pos()]) <==> earlier(
        frags[ixs[i].ix as int].last,
        frags[ixs[j].ix as int].first,
    )) by {
        law_ranks_order_points(frags[ixs[i].pos()].last, frags[ixs[j].pos()].first);
    }
    if are_in_order(frags, ixs) {
        assert forall|i: int, j: int| 0 <= i < j < ixs.len() implies frags[(
        #[trigger] ixs[i]).pos()].before(frags[(#[trigger] ixs[j]).pos()]) by {}
    }
    if frags_sorted(frags, ixs) {
        assert forall|i: int, j: int| 0 <= i < j < ixs.len() implies earlier(
            frags[(#[trigger] ixs[i]).ix as int].last,
            frags[(#[trigger] ixs[j]).ix as int].first,
        ) by {
            assert(frags[ixs[i].pos()].before(frags[ixs[j].pos()]));
        }
    }
}

/// Fragments can join others if none of the ones shares a point with one of the others.
pub proof fn law_what_fragments_apart_are(
    frags: Seq<RangeFrag>,
    a: Seq<RangeFragIx>,
    b: Seq<RangeFragIx>,
)
    requires
        frags_sorted(frags, a),
        frags_sorted(frags, b),
    ensures
        frags_clear(frags, a.to_set(), b) <==> are_apart(frags, a, b),
{
    assert forall|i: int, j: int| 0 <= i < a.len() && 0 <= j < b.len() implies (frags[(
    #[trigger] a[i]).pos()].disjoint(frags[(#[trigger] b[j]).pos()]) <==> !share_a_point(
        frags[a[i].ix as int],
        frags[b[j].ix as int],
    )) by {
        law_fragments_are_stretches_of_time(frags[a[i].pos()], frags[b[j].pos()]);
    }
    if frags_clear(frags, a.to_set(), b) {
        assert forall|i: int, j: int| 0 <= i < a.len() && 0 <= j < b.len() implies !share_a_point(
            frags[(#[trigger] a[i]).ix as int],
            frags[(#[trigger] b[j]).ix as int],
        ) by {
            assert(a.to_set().contains(a[i]));
            assert(frags[a[i].pos()].disjoint(frags[b[j].pos()]));
        }
    }
    if are_apart(frags, a, b) {
        assert forall|f: RangeFragIx, j: int| #[trigger]
            a.to_set().contains(f) && 0 <= j < b.len() implies frags[f.pos()].disjoint(
            frags[(#[trigger] b[j]).pos()],
        ) by {
            let i = choose|i: int| 0 <= i < a.len() && a[i] == f;
            assert(!share_a_point(frags[a[i].ix as int], frags[b[j].ix as int]));
        }
    }
}

/// All is well with a range: it has a size, its fragments are in order, and each has a place.
pub open spec fn is_in_shape(frags: Seq<RangeFrag>, vlr: VlrView, num_insns: int) -> bool {
    &&& vlr.size > 0
    &&& are_in_order(frags, vlr.frags)
    &&& forall|i: int|
        0 <= i < vlr.frags.len() ==> has_a_place(
            frags[(#[trigger] vlr.frags[i]).ix as int],
            num_insns,
        )
}

proof fn lemma_in_shape<I>(setting: Setting<I>, frags: Seq<RangeFrag>, vlr: VlrView)
    ensures
        vlr_ok(setting, frags, vlr) <==> is_in_shape(
            frags,
            vlr,
            setting.func.insns.len() as int,
        ),
{
    law_what_fragments_in_order_are(frags, vlr.frags);
    let n = setting.func.insns.len() as int;
    if vlr_ok(setting, frags, vlr) {
        assert forall|i: int| 0 <= i < vlr.frags.len() implies has_a_place(
            frags[(#[trigger] vlr.frags[i]).ix as int],
            n,
        ) by {
            assert(frag_ok(setting, frags[vlr.frags[i].pos()]));
        }
    }
    if is_in_shape(frags, vlr, n) {
        assert forall|i: int| 0 <= i < vlr.frags.len() implies frag_ok(
            setting,
            frags[(#[trigger] vlr.frags[i]).pos()],
        ) by {
            assert(has_a_place(frags[vlr.frags[i].ix as int], n));
        }
    }
}

proof fn lemma_live_for(
    vlrs: Seq<VlrView>,
    frags: Seq<RangeFrag>,
    vreg: VirtualReg,
    k: int,
    from: Point,
    to: Point,
)
    requires
        0 <= k <= u32::MAX,
    ensures
        covers_points(vlrs, frags, vreg, point_rank(k, from), point_rank(k, to)) <==> is_live_for(
            vlrs,
            frags,
            vreg,
            k,
            from,
            to,
        ),
{
    assert(point(k, from).rank() == point_rank(k, from));
    assert(point(k, to).rank() == point_rank(k, to));
    assert forall|x: int, i: int|
        0 <= x < vlrs.len() && 0 <= i < vlrs[x].frags.len() implies {
        &&& frags[(#[trigger] vlrs[x].frags[i]).pos()].covers(point_rank(k, from)) <==> live_there(
            frags[vlrs[x].frags[i].ix as int],
            point(k, from),
        )
        &&& frags[vlrs[x].frags[i].pos()].covers(point_rank(k, to)) <==> live_there(
            frags[vlrs[x].frags[i].ix as int],
            point(k, to),
        )
    } by {
        let f = frags[vlrs[x].frags[i].pos()];
        law_fragments_are_stretches_of_time(f, f);
        assert(f.covers(point(k, from).rank()) <==> live_there(f, point(k, from)));
        assert(f.covers(point(k, to).rank()) <==> live_there(f, point(k, to)));
    }
}

/// Where instruction `k` mentions `v`, a range for it is live: where it reads, where it writes, or
/// from the one to the other.
pub open spec fn is_provided<I>(
    setting: Setting<I>,
    vlrs: Seq<VlrView>,
    frags: Seq<RangeFrag>,
    v: VirtualReg,
    k: int,
) -> bool {
    let uses = (setting.im.regs)(setting.func.insns[k]);
    &&& uses.used.contains(Reg::Virtual(v)) ==> is_live_for(
        vlrs,
        frags,
        v,
        k,
        Point::Use,
        Point::Use,
    )
    &&& uses.defined.contains(Reg::Virtual(v)) ==> is_live_for(
        vlrs,
        frags,
        v,
        k,
        Point::Def,
        Point::Def,
    )
    &&& uses.modified.contains(Reg::Virtual(v)) ==> is_live_for(
        vlrs,
        frags,
        v,
        k,
        Point::Use,
        Point::Def,
    )
}

/// The roles of a virtual register in instruction `k` do not conflict: what it modifies it does not
/// use or define as well.
pub open spec fn has_one_role<I>(setting: Setting<I>, v: VirtualReg, k: int) -> bool {
    let uses = (setting.im.regs)(setting.func.insns[k]);
    uses.modified.contains(Reg::Virtual(v)) ==> !uses.used.contains(Reg::Virtual(v))
        && !uses.defined.contains(Reg::Virtual(v))
}

/// The allocator accepts all input that makes sense. The allocable registers exist, and those of
/// each class are allocable. What an instruction modifies it does not use or define as well. The
/// stretches over which the client uses an allocable register are in order and apart. The ranges
/// have no register yet, and are in shape; those of one virtual register are apart; and wherever a
/// virtual register is mentioned, a range for it is live.
pub proof fn law_which_input_is_accepted<I>(
    setting: Setting<I>,
    rlrs: Seq<RlrView>,
    vlrs: Seq<VlrView>,
    frags: Seq<RangeFrag>,
)
    requires
        setting.func.insns.len() <= u32::MAX,
    ensures
        input_ok(setting, rlrs, vlrs, frags) <==> {
            let universe = setting.universe;
            let len = setting.func.insns.len() as int;
            &&& universe.allocable <= universe.regs@.len()
            &&& forall|class: RegClass|
                (#[trigger] regs_of_class(universe, class)) matches Some((first, last)) ==> first
                    <= last ==> last < universe.allocable
            &&& forall|k: int, v: VirtualReg|
                0 <= k < len ==> #[trigger] has_one_role(setting, v, k)
            &&& forall|a: int|
                0 <= a < rlrs.len() && rlrs[a].rreg.index < universe.allocable ==> are_in_order(
                    frags,
                    (#[trigger] rlrs[a]).frags,
                )
            &&& forall|a: int, b: int|
                0 <= a < b < rlrs.len() && rlrs[a].rreg.index == rlrs[b].rreg.index
                    && rlrs[a].rreg.index < universe.allocable ==> are_apart(
                    frags,
                    (#[trigger] rlrs[a]).frags,
                    (#[trigger] rlrs[b]).frags,
                )
            &&& forall|x: int|
                0 <= x < vlrs.len() ==> (#[trigger] vlrs[x]).rreg is None && is_in_shape(
                    frags,
                    vlrs[x],
                    len,
                )
            &&& forall|x: int, y: int|
                0 <= x < vlrs.len() && 0 <= y < vlrs.len() && x != y && vlrs[x].vreg
                    == vlrs[y].vreg ==> are_apart(
                    frags,
                    (#[trigger] vlrs[x]).frags,
                    (#[trigger] vlrs[y]).frags,
                )
            &&& forall|v: VirtualReg, k: int|
                0 <= k < len ==> #[trigger] is_provided(setting, vlrs, frags, v, k)
        },
{
    let universe = setting.universe;
    let len = setting.func.insns.len() as int;
    assert forall|class: RegClass| #[trigger] universe.class_range(class) == regs_of_class(
        universe,
        class,
    ) by {
        lemma_class_range(universe, class);
    }
    assert forall|class: RegClass| #[trigger] regs_of_class(universe, class)
        == universe.class_range(class) by {
        lemma_class_range(universe, class);
    }
    assert forall|a: int| 0 <= a < rlrs.len() implies (frags_sorted(
        frags,
        (#[trigger] rlrs[a]).frags,
    ) <==> are_in_order(frags, rlrs[a].frags)) by {
        law_what_fragments_in_order_are(frags, rlrs[a].frags);
    }
    assert forall|a: int, b: int|
        0 <= a < rlrs.len() && 0 <= b < rlrs.len() && frags_sorted(frags, rlrs[a].frags)
            && frags_sorted(frags, rlrs[b].frags) implies (frags_clear(
        frags,
        (#[trigger] rlrs[a]).frags.to_set(),
        (#[trigger] rlrs[b]).frags,
    ) <==> are_apart(frags, rlrs[a].frags, rlrs[b].frags)) by {
        law_what_fragments_apart_are(frags, rlrs[a].frags, rlrs[b].frags);
    }
    assert forall|x: int| 0 <= x < vlrs.len() implies (vlr_ok(
        setting,
        frags,
        #[trigger] vlrs[x],
    ) <==> is_in_shape(frags, vlrs[x], len)) by {
        lemma_in_shape(setting, frags, vlrs[x]);
    }
    assert forall|x: int, y: int|
        0 <= x < vlrs.len() && 0 <= y < vlrs.len() && vlr_ok(setting, frags, vlrs[x]) && vlr_ok(
            setting,
            frags,
            vlrs[y],
        ) implies (frags_clear(
        frags,
        (#[trigger] vlrs[x]).frags.to_set(),
        (#[trigger] vlrs[y]).frags,
    ) <==> are_apart(frags, vlrs[x].frags, vlrs[y].frags)) by {
        law_what_fragments_apart_are(frags, vlrs[x].frags, vlrs[y].frags);
    }
    assert forall|v: VirtualReg, k: int| 0 <= k < len implies (#[trigger] mention_covered(
        setting,
        vlrs,
        frags,
        v,
        k,
    ) <==> is_provided(setting, vlrs, frags, v, k)) by {
        lemma_live_for(vlrs, frags, v, k, Point::Use, Point::Use);
        lemma_live_for(vlrs, frags, v, k, Point::Def, Point::Def);
        lemma_live_for(vlrs, frags, v, k, Point::Use, Point::Def);
    }
    assert forall|v: VirtualReg, k: int| 0 <= k < len implies (mention_covered(
        setting,
        vlrs,
        frags,
        v,
        k,
    ) <==> #[trigger] is_provided(setting, vlrs, frags, v, k)) by {
        lemma_live_for(vlrs, frags, v, k, Point::Use, Point::Use);
        lemma_live_for(vlrs, frags, v, k, Point::Def, Point::Def);
        lemma_live_for(vlrs, frags, v, k, Point::Use, Point::Def);
    }
    assert(roles_ok(setting) <==> forall|k: int, v: VirtualReg|
        0 <= k < len ==> #[trigger] has_one_role(setting, v, k)) by {
        if roles_ok(setting) {
            assert forall|k: int, v: VirtualReg| 0 <= k < len implies #[trigger] has_one_role(
                setting,
                v,
                k,
            ) by {
                assert((setting.im.regs)(setting.func.insns[k]).roles_distinct());
            }
        } else {
            let k = choose|k: int|
                0 <= k < len && !(#[trigger] (setting.im.regs)(
                    setting.func.insns[k],
                )).roles_distinct();
            let uses = (setting.im.regs)(setting.func.insns[k]);
            let v = choose|v: VirtualReg| #[trigger]
                uses.modified.contains(Reg::Virtual(v)) && (uses.used.contains(Reg::Virtual(v))
                    || uses.defined.contains(Reg::Virtual(v)));
            assert(!has_one_role(setting, v, k));
        }
    }
}

/// The blocks of a function are laid out if they follow one another without overlap, none is empty,
/// and the last one ends the function.
pub proof fn law_which_blocks_are_laid_out<I>(m: FuncModel<I>)
    ensures
        m.laid_out() <==> {
            &&& forall|b: int|
                0 <= b < m.blocks.len() ==> 0 <= (#[trigger] m.blocks[b]).first && m.blocks[b].first
                    < m.blocks[b].end
            &&& forall|b: int|
                0 < b < m.blocks.len() ==> m.blocks[b - 1].end <= (#[trigger] m.blocks[b]).first
            &&& (if m.blocks.len() == 0 {
                0
            } else {
                m.blocks[m.blocks.len() - 1].end
            }) == m.insns.len()
        },
{
    if (forall|b: int|
        0 <= b < m.blocks.len() ==> 0 <= (#[trigger] m.blocks[b]).first && m.blocks[b].first
            < m.blocks[b].end) && (forall|b: int|
        0 < b < m.blocks.len() ==> m.blocks[b - 1].end <= (#[trigger] m.blocks[b]).first) {
        assert forall|a: int, b: int| 0 <= a < b < m.blocks.len() implies (
        #[trigger] m.blocks[a]).end <= (#[trigger] m.blocks[b]).first by {
            lemma_blocks_follow(m, a, b);
        }
    }
    if m.laid_out() {
        assert forall|b: int| 0 < b < m.blocks.len() implies m.blocks[b - 1].end <= (
        #[trigger] m.blocks[b]).first by {
            let a = b - 1;
            assert(m.blocks[a].end <= m.blocks[b].first);
        }
    }
}

proof fn lemma_blocks_follow<I>(m: FuncModel<I>, a: int, b: int)
    requires
        0 <= a < b < m.blocks.len(),
        forall|b: int|
            0 <= b < m.blocks.len() ==> 0 <= (#[trigger] m.blocks[b]).first && m.blocks[b].first
                < m.blocks[b].end,
        forall|b: int|
            0 < b < m.blocks.len() ==> m.blocks[b - 1].end <= (#[trigger] m.blocks[b]).first,
    ensures
        m.blocks[a].end <= m.blocks[b].first,
        m.blocks[a].end <= m.blocks[b].end,
    decreases b - a,
{
    assert(m.blocks[b - 1].end <= m.blocks[b].first);
    if a < b - 1 {
        lemma_blocks_follow(m, a, b - 1);
    }
}

/// The shapes that fragments can have, wherever they are: from where one instruction reads or
/// writes to where the same one or a later one does, or one of the three bridges at one
/// instruction.
pub proof fn law_which_shapes_there_are(frag: RangeFrag)
    ensures
        frag.is_sane() <==> has_a_place(frag, frag.last.iix.ix + 1),
{
}

/// The additions have places if each is for the reload or the spill point of an instruction that
/// there is, and blocks are inside the function if none starts before it or ends behind it.
pub proof fn law_what_has_a_place<I>(
    insts: Seq<InstToInsertAndPoint>,
    items: Seq<(InstPoint, I)>,
    m: FuncModel<I>,
)
    ensures
        insts_placed(insts, m.insns.len() as int) <==> forall|i: int|
            0 <= i < insts.len() ==> (#[trigger] insts[i]).point.iix.ix < m.insns.len()
                && insts[i].point.pt !is Use && insts[i].point.pt !is Def,
        items_placed(items, m.insns.len() as int) <==> forall|i: int|
            0 <= i < items.len() ==> (#[trigger] items[i]).0.iix.ix < m.insns.len()
                && items[i].0.pt !is Use && items[i].0.pt !is Def,
        blocks_inside(m) <==> forall|b: int|
            0 <= b < m.blocks.len() ==> (#[trigger] m.blocks[b]).first >= 0 && m.blocks[b].end
                <= m.insns.len(),
{
}

/// The instruction writes the virtual register.
pub open spec fn writes_virtual<I>(im: InstModel<I>, insn: I, v: VirtualReg) -> bool {
    (im.regs)(insn).defined.contains(Reg::Virtual(v)) || (im.regs)(insn).modified.contains(
        Reg::Virtual(v),
    )
}

/// The instruction reads or writes the virtual register.
pub open spec fn names_virtual<I>(im: InstModel<I>, insn: I, v: VirtualReg) -> bool {
    (im.regs)(insn).used.contains(Reg::Virtual(v)) || writes_virtual(im, insn, v)
}

/// No virtual register is left in some code if none of its instructions uses, defines or modifies
/// one, and none is written if none of them defines or modifies one.
pub proof fn law_what_code_without_virtual_registers_is<I>(im: InstModel<I>, insns: Seq<I>)
    ensures
        all_real(im, insns) <==> forall|k: int, v: VirtualReg|
            0 <= k < insns.len() ==> !#[trigger] names_virtual(im, insns[k], v),
        all_write_real(im, insns) <==> forall|k: int, v: VirtualReg|
            0 <= k < insns.len() ==> !#[trigger] writes_virtual(im, insns[k], v),
{
    if all_real(im, insns) {
        assert forall|k: int, v: VirtualReg|
            0 <= k < insns.len() implies !#[trigger] names_virtual(im, insns[k], v) by {
            assert((im.regs)(insns[k]).only_real());
            assert(names_virtual(im, insns[k], v) ==> (im.regs)(insns[k]).mentions(
                Reg::Virtual(v),
            ));
        }
    }
    if all_write_real(im, insns) {
        assert forall|k: int, v: VirtualReg|
            0 <= k < insns.len() implies !#[trigger] writes_virtual(im, insns[k], v) by {
            assert((im.regs)(insns[k]).writes_real());
            assert(writes_virtual(im, insns[k], v) ==> (im.regs)(insns[k]).writes(Reg::Virtual(v)));
        }
    }
    if forall|k: int, v: VirtualReg|
        0 <= k < insns.len() ==> !#[trigger] names_virtual(im, insns[k], v) {
        assert forall|k: int| 0 <= k < insns.len() implies (im.regs)(
            #[trigger] insns[k],
        ).only_real() by {
            let uses = (im.regs)(insns[k]);
            assert forall|r: Reg| #[trigger] uses.mentions(r) implies r is Real by {
                if let Reg::Virtual(v) = r {
                    assert(names_virtual(im, insns[k], v));
                }
            }
        }
    }
    if forall|k: int, v: VirtualReg|
        0 <= k < insns.len() ==> !#[trigger] writes_virtual(im, insns[k], v) {
        assert forall|k: int| 0 <= k < insns.len() implies (im.regs)(
            #[trigger] insns[k],
        ).writes_real() by {
            let uses = (im.regs)(insns[k]);
            assert forall|r: Reg| #[trigger] uses.writes(r) implies r is Real by {
                if let Reg::Virtual(v) = r {
                    assert(writes_virtual(im, insns[k], v));
                }
            }
        }
    }
}

/// The maps have what an instruction mentions if each virtual register that it reads is in the one,
/// each that it writes is in the other, and one that it reads and writes at once is in both, with
/// the same register. They have what it writes if the same holds of what it writes, and of what it
/// reads and writes at once.
pub proof fn law_what_maps_have_to_have(
    uses: RegUses,
    reads: Map<VirtualReg, RealReg>,
    writes: Map<VirtualReg, RealReg>,
)
    ensures
        uses.covered_by(reads, writes) <==> {
            &&& forall|v: VirtualReg| #[trigger]
                uses.used.contains(Reg::Virtual(v)) ==> reads.contains_key(v)
            &&& forall|v: VirtualReg| #[trigger]
                uses.defined.contains(Reg::Virtual(v)) ==> writes.contains_key(v)
            &&& forall|v: VirtualReg| #[trigger]
                uses.modified.contains(Reg::Virtual(v)) ==> reads.contains_key(v)
                    && writes.contains_key(v) && reads[v] == writes[v]
        },
        uses.writes_covered_by(reads, writes) <==> {
            &&& forall|v: VirtualReg| #[trigger]
                uses.defined.contains(Reg::Virtual(v)) ==> writes.contains_key(v)
            &&& forall|v: VirtualReg| #[trigger]
                uses.modified.contains(Reg::Virtual(v)) ==> reads.contains_key(v)
                    && writes.contains_key(v) && reads[v] == writes[v]
        },
{
    if uses.covered_by(reads, writes) {
        assert forall|v: VirtualReg| #[trigger]
            uses.used.contains(Reg::Virtual(v)) implies reads.contains_key(v) by {
            assert(uses.mentions(Reg::Virtual(v)));
        }
        assert forall|v: VirtualReg| #[trigger]
            uses.defined.contains(Reg::Virtual(v)) implies writes.contains_key(v) by {
            assert(uses.mentions(Reg::Virtual(v)));
        }
        assert forall|v: VirtualReg| #[trigger]
            uses.modified.contains(Reg::Virtual(v)) implies reads.contains_key(v)
            && writes.contains_key(v) && reads[v] == writes[v] by {
            assert(uses.mentions(Reg::Virtual(v)));
        }
    }
    if uses.writes_covered_by(reads, writes) {
        assert forall|v: VirtualReg| #[trigger]
            uses.defined.contains(Reg::Virtual(v)) implies writes.contains_key(v) by {
            assert(uses.writes(Reg::Virtual(v)));
        }
        assert forall|v: VirtualReg| #[trigger]
            uses.modified.contains(Reg::Virtual(v)) implies reads.contains_key(v)
            && writes.contains_key(v) && reads[v] == writes[v] by {
            assert(uses.writes(Reg::Virtual(v)));
        }
    }
}

} // verus!
