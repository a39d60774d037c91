//! What can be relied on when a range is spilled.

use crate::frags::{frags_sorted, point_rank, Point, RangeFrag, RangeFragKind};
use crate::index::{RangeFragIx, TypedIx};
use crate::interface::{InstModel, RegUses};
use crate::plain::{
    can_make_way, comes_next, has_room_for, law_fragments_are_stretches_of_time, live_there, point,
    regs_of_class,
};
use crate::ranges::{lemma_rounded_up, rounded_up, VlrView};
use crate::regs::{Reg, VirtualReg};
use crate::safety::{frag_ok, vlr_ok};
use crate::spill::{
    bridge_if_needed, bridges, bridges_at, bridges_before, needs_bridge, BridgeKind,
    SpillAndOrReloadInfo,
};
use crate::state::{turn, AllocState, Setting, Turn};
use crate::turn_laws::{is_queue_without, law_spilled_or_given_up};
use vstd::prelude::*;

verus! {

// ---- What spilling takes

/// Where `vreg` lives in its spill slot over `frag`, instruction `k`, whose registers are `uses`,
/// has to have it brought to a register for a use, for a modification or for a definition: it
/// mentions `vreg` in that role, and `frag` is live where it does.
pub open spec fn calls_for(
    uses: RegUses,
    vreg: VirtualReg,
    frag: RangeFrag,
    k: int,
    kind: BridgeKind,
) -> bool {
    match kind {
        BridgeKind::RtoU => uses.used.contains(Reg::Virtual(vreg)) && live_there(
            frag,
            point(k, Point::Use),
        ),
        BridgeKind::RtoS => uses.modified.contains(Reg::Virtual(vreg)) && live_there(
            frag,
            point(k, Point::Use),
        ) && live_there(frag, point(k, Point::Def)),
        BridgeKind::DtoS => uses.defined.contains(Reg::Virtual(vreg)) && live_there(
            frag,
            point(k, Point::Def),
        ),
    }
}

/// The fragment is at one instruction, from the reload to the use, from the reload to the spill, or
/// from the definition to the spill, as its kind has it.
pub open spec fn is_bridge(frag: RangeFrag, kind: BridgeKind) -> bool {
    &&& frag.first.iix == frag.last.iix
    &&& frag.kind is Local
    &&& match kind {
        BridgeKind::RtoU => frag.first.pt is Reload && frag.last.pt is Use && frag.count == 2,
        BridgeKind::RtoS => frag.first.pt is Reload && frag.last.pt is Spill && frag.count == 3,
        BridgeKind::DtoS => frag.first.pt is Def && frag.last.pt is Spill && frag.count == 2,
    }
}

/// What kind `a` is about comes before what kind `b` is about.
pub open spec fn kind_earlier(a: BridgeKind, b: BridgeKind) -> bool {
    a is RtoU && (b is RtoS || b is DtoS) || a is RtoS && b is DtoS
}

/// The fragment that a bridge is made of has the shape that its kind has, at its instruction and in
/// its block.
pub proof fn law_bridges_have_their_shapes(info: SpillAndOrReloadInfo)
    ensures
        is_bridge(info.spec_frag(), info.kind),
        info.spec_frag().first.iix == info.iix,
        info.spec_frag().bix == info.bix,
        info.spec_frag().kind == RangeFragKind::Local,
{
}

spec fn goes_before(a: SpillAndOrReloadInfo, b: SpillAndOrReloadInfo) -> bool {
    ||| a.iix.ix < b.iix.ix
    ||| a.iix.ix == b.iix.ix && kind_earlier(a.kind, b.kind)
}

spec fn one_by_one(infos: Seq<SpillAndOrReloadInfo>) -> bool {
    forall|m: int, n: int|
        0 <= m < n < infos.len() ==> goes_before(#[trigger] infos[m], #[trigger] infos[n])
}

/// The bridge is for instruction `k`, which calls for it where `frag` is spilled.
spec fn is_for<I>(
    im: InstModel<I>,
    insns: Seq<I>,
    vreg: VirtualReg,
    frag: RangeFrag,
    k: int,
    info: SpillAndOrReloadInfo,
) -> bool {
    &&& info.iix.ix == k
    &&& info.bix == frag.bix
    &&& calls_for((im.regs)(insns[k]), vreg, frag, k, info.kind)
}

proof fn lemma_calls_for(uses: RegUses, vreg: VirtualReg, frag: RangeFrag, k: int, kind: BridgeKind)
    requires
        0 <= k <= u32::MAX,
    ensures
        needs_bridge(uses, vreg, frag, k, kind) <==> calls_for(uses, vreg, frag, k, kind),
{
    law_fragments_are_stretches_of_time(frag, frag);
    assert(point(k, Point::Use).rank() == point_rank(k, Point::Use));
    assert(point(k, Point::Def).rank() == point_rank(k, Point::Def));
    assert(frag.covers(point(k, Point::Use).rank()) <==> live_there(frag, point(k, Point::Use)));
    assert(frag.covers(point(k, Point::Def).rank()) <==> live_there(frag, point(k, Point::Def)));
}

proof fn lemma_bridges_at<I>(
    im: InstModel<I>,
    insns: Seq<I>,
    vreg: VirtualReg,
    frag: RangeFrag,
    k: int,
)
    requires
        0 <= k <= u32::MAX,
    ensures
        one_by_one(bridges_at(im, insns, vreg, frag, k)),
        forall|n: int|
            0 <= n < bridges_at(im, insns, vreg, frag, k).len() ==> is_for(
                im,
                insns,
                vreg,
                frag,
                k,
                #[trigger] bridges_at(im, insns, vreg, frag, k)[n],
            ),
        forall|kind: BridgeKind| #[trigger]
            calls_for((im.regs)(insns[k]), vreg, frag, k, kind) ==> exists|n: int|
                0 <= n < bridges_at(im, insns, vreg, frag, k).len() && (
                #[trigger] bridges_at(im, insns, vreg, frag, k)[n]).kind == kind,
{
    let uses = (im.regs)(insns[k]);
    let all = bridges_at(im, insns, vreg, frag, k);
    let a = bridge_if_needed(uses, vreg, frag, k, BridgeKind::RtoU);
    let b = bridge_if_needed(uses, vreg, frag, k, BridgeKind::RtoS);
    let c = bridge_if_needed(uses, vreg, frag, k, BridgeKind::DtoS);
    assert(all == a + b + c);
    lemma_calls_for(uses, vreg, frag, k, BridgeKind::RtoU);
    lemma_calls_for(uses, vreg, frag, k, BridgeKind::RtoS);
    lemma_calls_for(uses, vreg, frag, k, BridgeKind::DtoS);
    assert forall|kind: BridgeKind| #[trigger] calls_for(uses, vreg, frag, k, kind) implies exists|
        n: int,
    | 0 <= n < all.len() && (#[trigger] all[n]).kind == kind by {
        match kind {
            BridgeKind::RtoU => {
                assert(all[0] == a[0]);
            },
            BridgeKind::RtoS => {
                assert(all[a.len() as int] == b[0]);
            },
            BridgeKind::DtoS => {
                assert(all[(a.len() + b.len()) as int] == c[0]);
            },
        }
    }
}

proof fn lemma_bridges_before<I>(
    im: InstModel<I>,
    insns: Seq<I>,
    vreg: VirtualReg,
    frag: RangeFrag,
    k: int,
)
    requires
        frag.first.iix.pos() <= k <= frag.last.iix.pos() + 1,
    ensures
        one_by_one(bridges_before(im, insns, vreg, frag, k)),
        forall|n: int|
            0 <= n < bridges_before(im, insns, vreg, frag, k).len() ==> {
                let info = #[trigger] bridges_before(im, insns, vreg, frag, k)[n];
                &&& frag.first.iix.ix <= info.iix.ix < k
                &&& is_for(im, insns, vreg, frag, info.iix.ix as int, info)
            },
        forall|j: int, kind: BridgeKind|
            frag.first.iix.ix <= j < k && #[trigger] calls_for(
                (im.regs)(insns[j]),
                vreg,
                frag,
                j,
                kind,
            ) ==> exists|n: int|
                0 <= n < bridges_before(im, insns, vreg, frag, k).len() && (
                #[trigger] bridges_before(im, insns, vreg, frag, k)[n]).iix.ix == j
                    && bridges_before(im, insns, vreg, frag, k)[n].kind == kind,
    decreases k - frag.first.iix.pos(),
{
    if k > frag.first.iix.pos() {
        let all = bridges_before(im, insns, vreg, frag, k);
        let a = bridges_before(im, insns, vreg, frag, k - 1);
        let b = bridges_at(im, insns, vreg, frag, k - 1);
        assert(all == a + b);
        lemma_bridges_before(im, insns, vreg, frag, k - 1);
        lemma_bridges_at(im, insns, vreg, frag, k - 1);
        assert forall|n: int| 0 <= n < all.len() implies {
            let info = #[trigger] all[n];
            &&& frag.first.iix.ix <= info.iix.ix < k
            &&& is_for(im, insns, vreg, frag, info.iix.ix as int, info)
        } by {
            if n < a.len() {
                assert(all[n] == a[n]);
            } else {
                assert(all[n] == b[n - a.len()]);
            }
        }
        assert(one_by_one(all)) by {
            assert forall|m: int, n: int| 0 <= m < n < all.len() implies goes_before(
                #[trigger] all[m],
                #[trigger] all[n],
            ) by {
                if n < a.len() {
                    assert(all[m] == a[m] && all[n] == a[n]);
                } else if m < a.len() {
                    assert(all[m] == a[m] && all[n] == b[n - a.len()]);
                    assert(a[m].iix.ix < k - 1);
                    assert(b[n - a.len()].iix.ix == k - 1);
                } else {
                    assert(all[m] == b[m - a.len()] && all[n] == b[n - a.len()]);
                }
            }
        }
        assert forall|j: int, kind: BridgeKind|
            frag.first.iix.ix <= j < k && #[trigger] calls_for(
                (im.regs)(insns[j]),
                vreg,
                frag,
                j,
                kind,
            ) implies exists|n: int|
            0 <= n < all.len() && (#[trigger] all[n]).iix.ix == j && all[n].kind == kind by {
            if j < k - 1 {
                let n = choose|n: int|
                    0 <= n < a.len() && (#[trigger] a[n]).iix.ix == j && a[n].kind == kind;
                assert(all[n] == a[n]);
            } else {
                let n = choose|n: int| 0 <= n < b.len() && (#[trigger] b[n]).kind == kind;
                assert(is_for(im, insns, vreg, frag, k - 1, b[n]));
                assert(all[a.len() + n] == b[n]);
            }
        }
    }
}

/// The bridge is for one of the fragments.
spec fn is_for_some<I>(
    im: InstModel<I>,
    insns: Seq<I>,
    vreg: VirtualReg,
    fenv: Seq<RangeFrag>,
    ixs: Seq<RangeFragIx>,
    i: int,
    info: SpillAndOrReloadInfo,
) -> bool {
    &&& 0 <= i < ixs.len()
    &&& is_for(im, insns, vreg, fenv[ixs[i].pos()], info.iix.ix as int, info)
}

spec fn is_for_any<I>(
    im: InstModel<I>,
    insns: Seq<I>,
    vreg: VirtualReg,
    fenv: Seq<RangeFrag>,
    ixs: Seq<RangeFragIx>,
    info: SpillAndOrReloadInfo,
) -> bool {
    exists|i: int| #[trigger] is_for_some(im, insns, vreg, fenv, ixs, i, info)
}

/// A bridge that one fragment calls for goes before one that a later fragment calls for.
proof fn lemma_goes_before<I>(
    im: InstModel<I>,
    insns: Seq<I>,
    vreg: VirtualReg,
    f: RangeFrag,
    g: RangeFrag,
    a: SpillAndOrReloadInfo,
    b: SpillAndOrReloadInfo,
)
    requires
        f.wf(),
        g.wf(),
        f.before(g),
        is_for(im, insns, vreg, f, a.iix.ix as int, a),
        is_for(im, insns, vreg, g, b.iix.ix as int, b),
    ensures
        goes_before(a, b),
{
    let k = a.iix.ix as int;
    let l = b.iix.ix as int;
    law_fragments_are_stretches_of_time(f, g);
    let pa = if a.kind is DtoS || a.kind is RtoS {
        point(k, Point::Def)
    } else {
        point(k, Point::Use)
    };
    let pb = if b.kind is DtoS {
        point(l, Point::Def)
    } else {
        point(l, Point::Use)
    };
    assert(live_there(f, pa) && live_there(g, pb));
}

proof fn lemma_all_bridges<I>(
    im: InstModel<I>,
    insns: Seq<I>,
    vreg: VirtualReg,
    fenv: Seq<RangeFrag>,
    ixs: Seq<RangeFragIx>,
)
    requires
        frags_sorted(fenv, ixs),
        forall|i: int| 0 <= i < ixs.len() ==> fenv[(#[trigger] ixs[i]).pos()].is_sane(),
    ensures
        one_by_one(bridges(im, insns, vreg, fenv, ixs)),
        forall|n: int|
            0 <= n < bridges(im, insns, vreg, fenv, ixs).len() ==> is_for_any(
                im,
                insns,
                vreg,
                fenv,
                ixs,
                #[trigger] bridges(im, insns, vreg, fenv, ixs)[n],
            ),
        forall|i: int, k: int, kind: BridgeKind|
            #![trigger ixs[i], calls_for(
                (im.regs)(insns[k]), vreg, fenv[ixs[i].pos()], k, kind)]
            0 <= i < ixs.len() && fenv[ixs[i].pos()].first.iix.ix <= k
                <= fenv[ixs[i].pos()].last.iix.ix && calls_for(
                (im.regs)(insns[k]),
                vreg,
                fenv[ixs[i].pos()],
                k,
                kind,
            ) ==> exists|n: int|
                0 <= n < bridges(im, insns, vreg, fenv, ixs).len() && (
                #[trigger] bridges(im, insns, vreg, fenv, ixs)[n]).iix.ix == k && bridges(
                    im,
                    insns,
                    vreg,
                    fenv,
                    ixs,
                )[n].kind == kind,
    decreases ixs.len(),
{
    if ixs.len() > 0 {
        let last = ixs.len() - 1;
        let fewer = ixs.drop_last();
        let frag = fenv[ixs[last].pos()];
        let all = bridges(im, insns, vreg, fenv, ixs);
        let a = bridges(im, insns, vreg, fenv, fewer);
        let b = bridges_before(im, insns, vreg, frag, frag.last.iix.pos() + 1);
        assert(all == a + b);
        assert(frags_sorted(fenv, fewer)) by {
            assert forall|i: int| 0 <= i < fewer.len() implies (#[trigger] fewer[i]).pos()
                < fenv.len() && fenv[fewer[i].pos()].wf() by {
                assert(fewer[i] == ixs[i]);
            }
            assert forall|i: int, j: int| 0 <= i < j < fewer.len() implies fenv[(
            #[trigger] fewer[i]).pos()].before(fenv[(#[trigger] fewer[j]).pos()]) by {
                assert(fewer[i] == ixs[i] && fewer[j] == ixs[j]);
            }
        }
        assert forall|i: int| 0 <= i < fewer.len() implies fenv[(
        #[trigger] fewer[i]).pos()].is_sane() by {
            assert(fewer[i] == ixs[i]);
        }
        lemma_all_bridges(im, insns, vreg, fenv, fewer);
        assert(frag.is_sane());
        lemma_bridges_before(im, insns, vreg, frag, frag.last.iix.pos() + 1);
        assert forall|n: int| 0 <= n < all.len() implies is_for_any(
            im,
            insns,
            vreg,
            fenv,
            ixs,
            #[trigger] all[n],
        ) by {
            if n < a.len() {
                assert(all[n] == a[n]);
                assert(is_for_any(im, insns, vreg, fenv, fewer, a[n]));
                let i = choose|i: int| #[trigger]
                    is_for_some(im, insns, vreg, fenv, fewer, i, a[n]);
                assert(fewer[i] == ixs[i]);
                assert(is_for_some(im, insns, vreg, fenv, ixs, i, all[n]));
            } else {
                assert(all[n] == b[n - a.len()]);
                assert(is_for_some(im, insns, vreg, fenv, ixs, last, all[n]));
            }
        }
        assert(one_by_one(all)) by {
            assert forall|m: int, n: int| 0 <= m < n < all.len() implies goes_before(
                #[trigger] all[m],
                #[trigger] all[n],
            ) by {
                if n < a.len() {
                    assert(all[m] == a[m] && all[n] == a[n]);
                } else if m < a.len() {
                    assert(all[m] == a[m] && all[n] == b[n - a.len()]);
                    assert(is_for_any(im, insns, vreg, fenv, fewer, a[m]));
                    let i = choose|i: int| #[trigger]
                        is_for_some(im, insns, vreg, fenv, fewer, i, a[m]);
                    assert(fewer[i] == ixs[i]);
                    assert(fenv[ixs[i].pos()].before(fenv[ixs[last].pos()]));
                    lemma_goes_before(
                        im,
                        insns,
                        vreg,
                        fenv[ixs[i].pos()],
                        frag,
                        all[m],
                        all[n],
                    );
                } else {
                    assert(all[m] == b[m - a.len()] && all[n] == b[n - a.len()]);
                }
            }
        }
        assert forall|i: int, k: int, kind: BridgeKind|
            #![trigger ixs[i], calls_for(
                (im.regs)(insns[k]), vreg, fenv[ixs[i].pos()], k, kind)]
            0 <= i < ixs.len() && fenv[ixs[i].pos()].first.iix.ix <= k
                <= fenv[ixs[i].pos()].last.iix.ix && calls_for(
                (im.regs)(insns[k]),
                vreg,
                fenv[ixs[i].pos()],
                k,
                kind,
            ) implies exists|n: int|
            0 <= n < all.len() && (#[trigger] all[n]).iix.ix == k && all[n].kind == kind by {
            if i < last {
                assert(fewer[i] == ixs[i]);
                let n = choose|n: int|
                    0 <= n < a.len() && (#[trigger] a[n]).iix.ix == k && a[n].kind == kind;
                assert(all[n] == a[n]);
            } else {
                let n = choose|n: int|
                    0 <= n < b.len() && (#[trigger] b[n]).iix.ix == k && b[n].kind == kind;
                assert(all[a.len() + n] == b[n]);
            }
        }
    }
}

/// The place of a bridge among all that there can be.
spec fn place_among_all(info: SpillAndOrReloadInfo) -> int {
    3 * info.iix.ix + match info.kind {
        BridgeKind::RtoU => 0int,
        BridgeKind::RtoS => 1,
        BridgeKind::DtoS => 2,
    }
}

proof fn lemma_one_by_one_bound(infos: Seq<SpillAndOrReloadInfo>, n: int)
    requires
        one_by_one(infos),
        0 <= n < infos.len(),
    ensures
        n <= place_among_all(infos[n]),
    decreases n,
{
    if n > 0 {
        lemma_one_by_one_bound(infos, n - 1);
        assert(goes_before(infos[n - 1], infos[n]));
    }
}

/// Spilling a range takes at most three bridges for each instruction of the function.
pub proof fn law_spilling_takes_few_bridges<I>(
    setting: Setting<I>,
    vlr: VlrView,
    frags: Seq<RangeFrag>,
)
    requires
        vlr_ok(setting, frags, vlr),
    ensures
        bridges(setting.im, setting.func.insns, vlr.vreg, frags, vlr.frags).len() <= 3
            * setting.func.insns.len(),
{
    let infos = bridges(setting.im, setting.func.insns, vlr.vreg, frags, vlr.frags);
    assert forall|i: int| 0 <= i < vlr.frags.len() implies frags[(
    #[trigger] vlr.frags[i]).pos()].is_sane() by {
        assert(frag_ok(setting, frags[vlr.frags[i].pos()]));
    }
    lemma_all_bridges(setting.im, setting.func.insns, vlr.vreg, frags, vlr.frags);
    if infos.len() > 0 {
        let n = infos.len() - 1;
        lemma_one_by_one_bound(infos, n);
        assert(is_for_any(
            setting.im,
            setting.func.insns,
            vlr.vreg,
            frags,
            vlr.frags,
            infos[n],
        ));
        let i = choose|i: int| #[trigger]
            is_for_some(
                setting.im,
                setting.func.insns,
                vlr.vreg,
                frags,
                vlr.frags,
                i,
                infos[n],
            );
        let frag = frags[vlr.frags[i].pos()];
        let k = infos[n].iix.ix as int;
        assert(frag_ok(setting, frag));
        assert(live_there(frag, point(k, Point::Use)) || live_there(frag, point(k, Point::Def)));
        assert(k <= frag.last.iix.ix);
    }
}

// ---- What a spill adds

/// Range `n` of the state is a bridge for `vreg`: it consists of fragment `f`, waits for a
/// register, and can not be spilled.
pub open spec fn is_bridge_range(st: AllocState, n: int, vreg: VirtualReg, f: int) -> bool {
    let vlr = st.vlrs[n];
    &&& vlr.vreg == vreg
    &&& vlr.rreg is None
    &&& vlr.frags.len() == 1
    &&& vlr.frags[0].ix == f
    &&& vlr.size == 1
    &&& vlr.cost is None
}

/// A range of finite spill cost for which no register has room and no other range can make way is
/// spilled. It gets spill slots of its own: the first ones behind those that are taken that are
/// aligned to their number. For each mention of its register, where the range is live, one bridge
/// is added, in the order of the code, and none else: a fragment at the instruction, a range that
/// consists of it and waits for a register, and an order to reload or spill, all for the same slot.
/// What there was stays as it was, but for the range, which waits no more.
pub proof fn law_what_a_spill_adds<I>(
    setting: Setting<I>,
    fixed: Seq<Set<RangeFragIx>>,
    st: AllocState,
    q: int,
    next: AllocState,
) -> (slot: int)
    requires
        setting.universe.wf(),
        setting.func.insns.len() <= u32::MAX,
        st.inv(setting, fixed, None),
        st.next_slot >= 0,
        comes_next(st, q),
        regs_of_class(setting.universe, st.vlrs[st.queue[q].ix as int].vreg.class) is Some,
        forall|i: int| !#[trigger] has_room_for(setting, st, st.vlrs[st.queue[q].ix as int], i),
        forall|i: int, j: int| !#[trigger]
            can_make_way(setting, st, st.vlrs[st.queue[q].ix as int], i, j),
        st.vlrs[st.queue[q].ix as int].cost is Some,
        turn(setting, st) == Turn::Next(next),
        next.fits(),
    ensures
        ({
            let vlr = st.vlrs[st.queue[q].ix as int];
            let size = (setting.func.slot_size)(vlr.vreg.class) as int;
            let waiting = st.queue.len() - 1;
            let ranges = st.vlrs.len() as int;
            let frags = st.frags.len() as int;
            let edits = st.edits.len() as int;
            let count = next.edits.len() - edits;
            // The slots.
            &&& size > 0
            &&& st.next_slot <= slot < st.next_slot + size
            &&& slot % size == 0
            &&& next.next_slot == slot + size
            // What there was.
            &&& next.regs == st.regs
            &&& count >= 0
            &&& next.vlrs.len() == ranges + count
            &&& next.frags.len() == frags + count
            &&& next.queue.len() == waiting + count
            &&& is_queue_without(next.queue.take(waiting), st.queue, q)
            &&& next.vlrs.take(ranges) == st.vlrs
            &&& next.frags.take(frags) == st.frags
            &&& next.edits.take(edits) == st.edits
            // What is new.
            &&& forall|n: int|
                0 <= n < count ==> {
                    let item = #[trigger] next.edits[edits + n];
                    let frag = next.frags[frags + n];
                    let k = frag.first.iix.ix as int;
                    &&& item.slot.n == slot
                    &&& item.vlrix.ix == ranges + n
                    &&& next.queue[waiting + n].ix == ranges + n
                    &&& is_bridge_range(next, ranges + n, vlr.vreg, frags + n)
                    &&& is_bridge(frag, item.kind)
                    &&& 0 <= k < setting.func.insns.len()
                    &&& exists|i: int|
                        0 <= i < vlr.frags.len() && frag.bix == st.frags[(
                        #[trigger] vlr.frags[i]).ix as int].bix && calls_for(
                            (setting.im.regs)(setting.func.insns[k]),
                            vlr.vreg,
                            st.frags[vlr.frags[i].ix as int],
                            k,
                            item.kind,
                        )
                }
            // Nothing is missing.
            &&& forall|i: int, k: int, kind: BridgeKind|
                0 <= i < vlr.frags.len() && 0 <= k < setting.func.insns.len() && #[trigger]
                    calls_for(
                    (setting.im.regs)(setting.func.insns[k]),
                    vlr.vreg,
                    st.frags[(#[trigger] vlr.frags[i]).ix as int],
                    k,
                    kind,
                ) ==> exists|n: int|
                    0 <= n < count && (#[trigger] next.edits[edits + n]).kind == kind
                        && next.frags[frags + n].first.iix.ix == k
            // Nothing is there twice, and all is in order.
            &&& forall|m: int, n: int|
                0 <= m < n < count ==> {
                    let f = next.frags[frags + m].first.iix.ix;
                    let g = next.frags[frags + n].first.iix.ix;
                    f < g || f == g && kind_earlier(
                        (#[trigger] next.edits[edits + m]).kind,
                        (#[trigger] next.edits[edits + n]).kind,
                    )
                }
        }),
{
    law_spilled_or_given_up(setting, fixed, st, q);
    let x = st.queue[q];
    let vlr = st.vlr(x);
    let rest = st.taken(q);
    assert(st.queue.contains(x));
    assert(vlr_ok(setting, st.frags, st.vlr(x)));
    let size = (setting.func.slot_size)(vlr.vreg.class) as int;
    assert(next == rest.spilled(setting, x));
    assert(size > 0);
    let slot = rounded_up(st.next_slot, size);
    lemma_rounded_up(st.next_slot, size);
    let infos = bridges(setting.im, setting.func.insns, vlr.vreg, st.frags, vlr.frags);
    let count = infos.len() as int;
    let waiting = st.queue.len() - 1;
    let ranges = st.vlrs.len() as int;
    let frags = st.frags.len() as int;
    let edits = st.edits.len() as int;
    assert forall|i: int| 0 <= i < vlr.frags.len() implies st.frags[(
    #[trigger] vlr.frags[i]).pos()].is_sane() by {
        assert(frag_ok(setting, st.frags[vlr.frags[i].pos()]));
    }
    lemma_all_bridges(setting.im, setting.func.insns, vlr.vreg, st.frags, vlr.frags);
    assert(next.queue.take(waiting) =~= rest.queue);
    assert(next.vlrs.take(ranges) =~= st.vlrs);
    assert(next.frags.take(frags) =~= st.frags);
    assert(next.edits.take(edits) =~= st.edits);
    assert forall|n: int| 0 <= n < count implies {
        let item = #[trigger] next.edits[edits + n];
        &&& item.kind == infos[n].kind
        &&& item.slot.n == slot
        &&& item.vlrix.ix == ranges + n
        &&& next.frags[frags + n] == infos[n].spec_frag()
        &&& next.queue[waiting + n].ix == ranges + n
        &&& is_bridge_range(next, ranges + n, vlr.vreg, frags + n)
    } by {}
    assert forall|n: int| 0 <= n < count implies {
        let item = #[trigger] next.edits[edits + n];
        let frag = next.frags[frags + n];
        let k = frag.first.iix.ix as int;
        &&& is_bridge(frag, item.kind)
        &&& 0 <= k < setting.func.insns.len()
        &&& exists|i: int|
            0 <= i < vlr.frags.len() && frag.bix == st.frags[(
            #[trigger] vlr.frags[i]).ix as int].bix && calls_for(
                (setting.im.regs)(setting.func.insns[k]),
                vlr.vreg,
                st.frags[vlr.frags[i].ix as int],
                k,
                item.kind,
            )
    } by {
        let item = next.edits[edits + n];
        assert(item.kind == infos[n].kind);
        law_bridges_have_their_shapes(infos[n]);
        assert(is_for_any(
            setting.im,
            setting.func.insns,
            vlr.vreg,
            st.frags,
            vlr.frags,
            infos[n],
        ));
        let i = choose|i: int| #[trigger]
            is_for_some(
                setting.im,
                setting.func.insns,
                vlr.vreg,
                st.frags,
                vlr.frags,
                i,
                infos[n],
            );
        assert(frag_ok(setting, st.frags[vlr.frags[i].pos()]));
        let frag = st.frags[vlr.frags[i].ix as int];
        let k = infos[n].iix.ix as int;
        law_fragments_are_stretches_of_time(frag, frag);
        assert(live_there(frag, point(k, Point::Use)) || live_there(frag, point(k, Point::Def)));
    }
    assert forall|i: int, k: int, kind: BridgeKind|
        0 <= i < vlr.frags.len() && 0 <= k < setting.func.insns.len() && #[trigger] calls_for(
            (setting.im.regs)(setting.func.insns[k]),
            vlr.vreg,
            st.frags[(#[trigger] vlr.frags[i]).ix as int],
            k,
            kind,
        ) implies exists|n: int|
        0 <= n < count && (#[trigger] next.edits[edits + n]).kind == kind && next.frags[frags
            + n].first.iix.ix == k by {
        let frag = st.frags[vlr.frags[i].pos()];
        assert(live_there(frag, point(k, Point::Use)) || live_there(frag, point(k, Point::Def)));
        assert(calls_for((setting.im.regs)(setting.func.insns[k]), vlr.vreg, frag, k, kind));
        let n = choose|n: int|
            0 <= n < infos.len() && (#[trigger] infos[n]).iix.ix == k && infos[n].kind == kind;
        assert(next.edits[edits + n].kind == kind);
    }
    assert forall|m: int, n: int| 0 <= m < n < count implies {
        let f = next.frags[frags + m].first.iix.ix;
        let g = next.frags[frags + n].first.iix.ix;
        f < g || f == g && kind_earlier(
            (#[trigger] next.edits[edits + m]).kind,
            (#[trigger] next.edits[edits + n]).kind,
        )
    } by {
        assert(goes_before(infos[m], infos[n]));
        assert(next.edits[edits + m].kind == infos[m].kind);
        assert(next.edits[edits + n].kind == infos[n].kind);
    }
    slot
}

} // verus!
