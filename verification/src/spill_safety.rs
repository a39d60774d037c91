//! Spilling keeps what holds in every state of the allocator.

use crate::frags::{frags_sorted, lemma_frags_sorted_extend, point_rank, Point, RangeFrag};
use crate::index::{RangeFragIx, TypedIx, VirtualRangeIx};
use crate::interface::InstModel;
use crate::regs::{Reg, VirtualReg};
use crate::safety::{frag_ok, vlr_ok};
use crate::spill::{
    bridge_if_needed, bridges, bridges_at, bridges_before, needs_bridge, BridgeKind,
    SpillAndOrReloadInfo,
};
use crate::state::{AllocState, Setting};
use vstd::prelude::*;

verus! {

// ---- Fragments and points

/// A point at which an instruction reads or writes.
pub open spec fn is_access(rank: int) -> bool {
    rank % 4 == 1 || rank % 4 == 2
}

/// Two fragments of the usual shapes that share a point share one at which an instruction reads
/// or writes.
pub proof fn lemma_common_access(a: RangeFrag, b: RangeFrag) -> (p: int)
    requires
        a.wf(),
        b.wf(),
        a.is_sane(),
        b.is_sane(),
        !a.disjoint(b),
    ensures
        is_access(p),
        a.covers(p),
        b.covers(p),
{
    let lo = if a.first.rank() >= b.first.rank() {
        a.first.rank()
    } else {
        b.first.rank()
    };
    let hi = if a.last.rank() <= b.last.rank() {
        a.last.rank()
    } else {
        b.last.rank()
    };
    if is_access(lo) {
        lo
    } else if is_access(hi) {
        hi
    } else {
        assert(lo % 4 == 0);
        assert(hi % 4 == 3);
        lo + 1
    }
}

/// Where a bridge is live at an access, so is the fragment that it stands in for.
pub open spec fn stands_in(bridge: RangeFrag, frag: RangeFrag) -> bool {
    forall|p: int| #[trigger] bridge.covers(p) && is_access(p) ==> frag.covers(p)
}

/// Bridge `info` is made for fragment `frag`.
pub open spec fn made_for<I>(
    im: InstModel<I>,
    insns: Seq<I>,
    vreg: VirtualReg,
    frag: RangeFrag,
    info: SpillAndOrReloadInfo,
) -> bool {
    &&& frag.first.iix.pos() <= info.iix.pos() <= frag.last.iix.pos()
    &&& needs_bridge((im.regs)(insns[info.iix.pos()]), vreg, frag, info.iix.pos(), info.kind)
}

proof fn lemma_made_for<I>(
    im: InstModel<I>,
    insns: Seq<I>,
    vreg: VirtualReg,
    frag: RangeFrag,
    info: SpillAndOrReloadInfo,
)
    requires
        made_for(im, insns, vreg, frag, info),
    ensures
        info.spec_frag().wf(),
        info.spec_frag().is_sane(),
        stands_in(info.spec_frag(), frag),
{
    let k = info.iix.pos();
    assert forall|p: int| #[trigger]
        info.spec_frag().covers(p) && is_access(p) implies frag.covers(p) by {
        assert(p == point_rank(k, Point::Use) || p == point_rank(k, Point::Def));
    }
}

// ---- The bridges of one fragment

proof fn lemma_bridges_at<I>(
    im: InstModel<I>,
    insns: Seq<I>,
    vreg: VirtualReg,
    frag: RangeFrag,
    k: int,
)
    requires
        0 <= k <= u32::MAX,
        frag.first.iix.pos() <= k <= frag.last.iix.pos(),
    ensures
        forall|n: int|
            0 <= n < bridges_at(im, insns, vreg, frag, k).len() ==> {
                let info = #[trigger] bridges_at(im, insns, vreg, frag, k)[n];
                made_for(im, insns, vreg, frag, info) && info.iix.pos() == k
            },
        forall|kind: BridgeKind| #[trigger]
            needs_bridge((im.regs)(insns[k]), vreg, frag, k, kind) ==> exists|n: int|
                0 <= n < bridges_at(im, insns, vreg, frag, k).len() && (
                #[trigger] bridges_at(im, insns, vreg, frag, k)[n]).iix.pos() == k && bridges_at(
                    im,
                    insns,
                    vreg,
                    frag,
                    k,
                )[n].kind == kind,
        (im.regs)(insns[k]).roles_distinct() ==> forall|n: int, m: int|
            0 <= n < m < bridges_at(im, insns, vreg, frag, k).len() ==> (
            #[trigger] bridges_at(im, insns, vreg, frag, k)[n]).spec_frag().disjoint(
                (#[trigger] bridges_at(im, insns, vreg, frag, k)[m]).spec_frag(),
            ),
{
    let uses = (im.regs)(insns[k]);
    let all = bridges_at(im, insns, vreg, frag, k);
    let a = bridge_if_needed(uses, vreg, frag, k, BridgeKind::RtoU);
    let b = bridge_if_needed(uses, vreg, frag, k, BridgeKind::RtoS);
    let c = bridge_if_needed(uses, vreg, frag, k, BridgeKind::DtoS);
    assert(all == a + b + c);
    assert forall|kind: BridgeKind| #[trigger]
        needs_bridge(uses, vreg, frag, k, kind) implies exists|n: int|
        0 <= n < all.len() && (#[trigger] all[n]).iix.pos() == k && all[n].kind == kind by {
        match kind {
            BridgeKind::RtoU => {
                assert(all[0] == a[0]);
            },
            BridgeKind::RtoS => {
                assert(all[a.len() as int] == b[0]);
            },
            BridgeKind::DtoS => {
                assert(all[(a.len() + b.len()) as int] == c[0]);
            },
        }
    }
    if uses.roles_distinct() {
        assert(uses.modified.contains(Reg::Virtual(vreg)) ==> !uses.used.contains(
            Reg::Virtual(vreg),
        ) && !uses.defined.contains(Reg::Virtual(vreg)));
        assert forall|n: int, m: int| 0 <= n < m < all.len() implies (
        #[trigger] all[n]).spec_frag().disjoint((#[trigger] all[m]).spec_frag()) by {
            assert(b.len() == 0);
            assert(n == 0 && m == 1);
            assert(all[0] == a[0] && all[1] == c[0]);
        }
    }
}

proof fn lemma_bridges_before<I>(
    im: InstModel<I>,
    insns: Seq<I>,
    vreg: VirtualReg,
    frag: RangeFrag,
    k: int,
)
    requires
        frag.first.iix.pos() <= k <= frag.last.iix.pos() + 1,
    ensures
        forall|n: int|
            0 <= n < bridges_before(im, insns, vreg, frag, k).len() ==> {
                let info = #[trigger] bridges_before(im, insns, vreg, frag, k)[n];
                made_for(im, insns, vreg, frag, info) && info.iix.pos() < k
            },
        forall|j: int, kind: BridgeKind|
            frag.first.iix.pos() <= j < k && #[trigger] needs_bridge(
                (im.regs)(insns[j]),
                vreg,
                frag,
                j,
                kind,
            ) ==> exists|n: int|
                0 <= n < bridges_before(im, insns, vreg, frag, k).len() && (
                #[trigger] bridges_before(im, insns, vreg, frag, k)[n]).iix.pos() == j
                    && bridges_before(im, insns, vreg, frag, k)[n].kind == kind,
        (forall|j: int|
            frag.first.iix.pos() <= j < k ==> (#[trigger] (im.regs)(insns[j])).roles_distinct())
            ==> forall|n: int, m: int|
            0 <= n < m < bridges_before(im, insns, vreg, frag, k).len() ==> (
            #[trigger] bridges_before(im, insns, vreg, frag, k)[n]).spec_frag().disjoint(
                (#[trigger] bridges_before(im, insns, vreg, frag, k)[m]).spec_frag(),
            ),
    decreases k - frag.first.iix.pos(),
{
    if k > frag.first.iix.pos() {
        let all = bridges_before(im, insns, vreg, frag, k);
        let a = bridges_before(im, insns, vreg, frag, k - 1);
        let b = bridges_at(im, insns, vreg, frag, k - 1);
        assert(all == a + b);
        lemma_bridges_before(im, insns, vreg, frag, k - 1);
        lemma_bridges_at(im, insns, vreg, frag, k - 1);
        assert forall|n: int| 0 <= n < all.len() implies {
            let info = #[trigger] all[n];
            made_for(im, insns, vreg, frag, info) && info.iix.pos() < k
        } by {
            if n < a.len() {
                assert(all[n] == a[n]);
            } else {
                assert(all[n] == b[n - a.len()]);
            }
        }
        assert forall|j: int, kind: BridgeKind|
            frag.first.iix.pos() <= j < k && #[trigger] needs_bridge(
                (im.regs)(insns[j]),
                vreg,
                frag,
                j,
                kind,
            ) implies exists|n: int|
            0 <= n < all.len() && (#[trigger] all[n]).iix.pos() == j && all[n].kind == kind by {
            if j < k - 1 {
                let n = choose|n: int|
                    0 <= n < a.len() && (#[trigger] a[n]).iix.pos() == j && a[n].kind == kind;
                assert(all[n] == a[n]);
            } else {
                let n = choose|n: int|
                    0 <= n < b.len() && (#[trigger] b[n]).iix.pos() == j && b[n].kind == kind;
                assert(all[a.len() + n] == b[n]);
            }
        }
        if forall|j: int|
            frag.first.iix.pos() <= j < k ==> (#[trigger] (im.regs)(insns[j])).roles_distinct() {
            assert((im.regs)(insns[k - 1]).roles_distinct());
            assert forall|n: int, m: int| 0 <= n < m < all.len() implies (
            #[trigger] all[n]).spec_frag().disjoint((#[trigger] all[m]).spec_frag()) by {
                if m < a.len() {
                    assert(all[n] == a[n] && all[m] == a[m]);
                } else if n < a.len() {
                    assert(all[n] == a[n] && all[m] == b[m - a.len()]);
                    assert(a[n].iix.pos() < k - 1);
                    assert(b[m - a.len()].iix.pos() == k - 1);
                } else {
                    assert(all[n] == b[n - a.len()] && all[m] == b[m - a.len()]);
                }
            }
        }
    }
}

// ---- The bridges of a range

/// Bridge `info` is made for one of the fragments `ixs`.
pub open spec fn made_for_some<I>(
    im: InstModel<I>,
    insns: Seq<I>,
    vreg: VirtualReg,
    fenv: Seq<RangeFrag>,
    ixs: Seq<RangeFragIx>,
    info: SpillAndOrReloadInfo,
) -> bool {
    exists|i: int|
        0 <= i < ixs.len() && made_for(im, insns, vreg, fenv[(#[trigger] ixs[i]).pos()], info)
}

/// The bridges of a range are those that are needed, and no two of them share a point.
pub proof fn lemma_bridges<I>(
    im: InstModel<I>,
    insns: Seq<I>,
    vreg: VirtualReg,
    fenv: Seq<RangeFrag>,
    ixs: Seq<RangeFragIx>,
)
    requires
        frags_sorted(fenv, ixs),
        forall|i: int|
            0 <= i < ixs.len() ==> fenv[(#[trigger] ixs[i]).pos()].is_sane()
                && fenv[ixs[i].pos()].last.iix.pos() < insns.len(),
        forall|j: int|
            0 <= j < insns.len() ==> (#[trigger] (im.regs)(insns[j])).roles_distinct(),
    ensures
        forall|n: int|
            0 <= n < bridges(im, insns, vreg, fenv, ixs).len() ==> made_for_some(
                im,
                insns,
                vreg,
                fenv,
                ixs,
                #[trigger] bridges(im, insns, vreg, fenv, ixs)[n],
            ),
        forall|i: int, j: int, kind: BridgeKind|
            #![trigger ixs[i], needs_bridge(
                (im.regs)(insns[j]), vreg, fenv[ixs[i].pos()], j, kind)]
            0 <= i < ixs.len() && fenv[ixs[i].pos()].first.iix.pos() <= j
                <= fenv[ixs[i].pos()].last.iix.pos() && needs_bridge(
                (im.regs)(insns[j]),
                vreg,
                fenv[ixs[i].pos()],
                j,
                kind,
            ) ==> exists|n: int|
                0 <= n < bridges(im, insns, vreg, fenv, ixs).len() && (
                #[trigger] bridges(im, insns, vreg, fenv, ixs)[n]).iix.pos() == j && bridges(
                    im,
                    insns,
                    vreg,
                    fenv,
                    ixs,
                )[n].kind == kind,
        forall|n: int, m: int|
            0 <= n < m < bridges(im, insns, vreg, fenv, ixs).len() ==> (
            #[trigger] bridges(im, insns, vreg, fenv, ixs)[n]).spec_frag().disjoint(
                (#[trigger] bridges(im, insns, vreg, fenv, ixs)[m]).spec_frag(),
            ),
    decreases ixs.len(),
{
    if ixs.len() > 0 {
        let all = bridges(im, insns, vreg, fenv, ixs);
        let last = ixs.len() - 1;
        let frag = fenv[ixs[last].pos()];
        let fewer = ixs.drop_last();
        assert(fenv[ixs[last].pos()].wf());
        assert(frag.first.iix.pos() <= frag.last.iix.pos());
        let a = bridges(im, insns, vreg, fenv, fewer);
        let b = bridges_before(im, insns, vreg, frag, frag.last.iix.pos() + 1);
        assert(all == a + b);
        assert forall|i: int| 0 <= i < fewer.len() implies #[trigger] fewer[i] == ixs[i] by {}
        lemma_bridges(im, insns, vreg, fenv, fewer);
        lemma_bridges_before(im, insns, vreg, frag, frag.last.iix.pos() + 1);
        assert forall|n: int| 0 <= n < all.len() implies made_for_some(
            im,
            insns,
            vreg,
            fenv,
            ixs,
            #[trigger] all[n],
        ) by {
            if n < a.len() {
                assert(all[n] == a[n]);
                let i = choose|i: int|
                    0 <= i < fewer.len() && made_for(
                        im,
                        insns,
                        vreg,
                        fenv[(#[trigger] fewer[i]).pos()],
                        a[n],
                    );
                assert(ixs[i] == fewer[i]);
            } else {
                assert(all[n] == b[n - a.len()]);
                assert(made_for(im, insns, vreg, fenv[ixs[last].pos()], all[n]));
            }
        }
        assert forall|i: int, j: int, kind: BridgeKind|
            #![trigger ixs[i], needs_bridge(
                (im.regs)(insns[j]), vreg, fenv[ixs[i].pos()], j, kind)]
            0 <= i < ixs.len() && fenv[ixs[i].pos()].first.iix.pos() <= j
                <= fenv[ixs[i].pos()].last.iix.pos() && needs_bridge(
                (im.regs)(insns[j]),
                vreg,
                fenv[ixs[i].pos()],
                j,
                kind,
            ) implies exists|n: int|
            0 <= n < all.len() && (#[trigger] all[n]).iix.pos() == j && all[n].kind == kind by {
            if i < last {
                assert(fewer[i] == ixs[i]);
                let n = choose|n: int|
                    0 <= n < a.len() && (#[trigger] a[n]).iix.pos() == j && a[n].kind == kind;
                assert(all[n] == a[n]);
            } else {
                let n = choose|n: int|
                    0 <= n < b.len() && (#[trigger] b[n]).iix.pos() == j && b[n].kind == kind;
                assert(all[a.len() + n] == b[n]);
            }
        }
        assert forall|n: int, m: int| 0 <= n < m < all.len() implies (
        #[trigger] all[n]).spec_frag().disjoint((#[trigger] all[m]).spec_frag()) by {
            if m < a.len() {
                assert(all[n] == a[n] && all[m] == a[m]);
            } else if n >= a.len() {
                assert(all[n] == b[n - a.len()] && all[m] == b[m - a.len()]);
            } else {
                assert(all[n] == a[n] && all[m] == b[m - a.len()]);
                let i = choose|i: int|
                    0 <= i < fewer.len() && made_for(
                        im,
                        insns,
                        vreg,
                        fenv[(#[trigger] fewer[i]).pos()],
                        a[n],
                    );
                let f = fenv[fewer[i].pos()];
                lemma_made_for(im, insns, vreg, f, a[n]);
                lemma_made_for(im, insns, vreg, frag, b[m - a.len()]);
                assert(ixs[i] == fewer[i]);
                assert(f.before(frag));
                if !all[n].spec_frag().disjoint(all[m].spec_frag()) {
                    let p = lemma_common_access(all[n].spec_frag(), all[m].spec_frag());
                    assert(f.covers(p) && frag.covers(p));
                }
            }
        }
    }
}

// ---- The state after a spill

/// No instruction uses, or defines, a virtual register that it modifies as well.
pub open spec fn roles_ok<I>(setting: Setting<I>) -> bool {
    forall|k: int|
        0 <= k < setting.func.insns.len() ==> (#[trigger] (setting.im.regs)(
            setting.func.insns[k],
        )).roles_distinct()
}

/// The bridges that replace range `x`.
pub open spec fn infos_of<I>(setting: Setting<I>, st: AllocState, x: VirtualRangeIx) -> Seq<
    SpillAndOrReloadInfo,
> {
    bridges(setting.im, setting.func.insns, st.vlr(x).vreg, st.frags, st.vlr(x).frags)
}

/// Range `y` is one of those that replace a spilled range, the `n`th.
pub open spec fn is_new(st: AllocState, count: nat, y: VirtualRangeIx, n: int) -> bool {
    0 <= n < count && y.pos() == st.vlrs.len() + n
}

/// What the ranges are, and which of them are of concern, after a spill.
pub proof fn lemma_spilled_shape<I>(
    setting: Setting<I>,
    fixed: Seq<Set<RangeFragIx>>,
    st: AllocState,
    x0: VirtualRangeIx,
)
    requires
        st.inv(setting, fixed, Some(x0)),
        st.spilled(setting, x0).fits(),
    ensures
        forall|n: int|
            0 <= n < infos_of(setting, st, x0).len() ==> {
                &&& (#[trigger] st.new_vlrix(n)).pos() == st.vlrs.len() + n
                &&& st.new_fix(n).pos() == st.frags.len() + n
            },
        forall|x: VirtualRangeIx, i: int| #[trigger]
            st.spilled(setting, x0).at_reg(x, i) <==> st.at_reg(x, i),
        forall|x: VirtualRangeIx|
            x.pos() < st.vlrs.len() ==> #[trigger] st.spilled(setting, x0).vlr(x) == st.vlr(x),
        forall|x: VirtualRangeIx, n: int| #[trigger]
            is_new(st, infos_of(setting, st, x0).len(), x, n) ==> st.spilled(setting, x0).vlr(x)
                == st.bridge_vlr(st.vlr(x0).vreg, n) && st.spilled(setting, x0).frag_at(x, 0)
                == infos_of(setting, st, x0)[n].spec_frag() && st.spilled(
                setting,
                x0,
            ).queue.contains(x),
        forall|x: VirtualRangeIx| #[trigger]
            st.spilled(setting, x0).queue.contains(x) ==> st.queue.contains(x) || is_new(
                st,
                infos_of(setting, st, x0).len(),
                x,
                x.pos() - st.vlrs.len(),
            ),
        forall|x: VirtualRangeIx|
            st.queue.contains(x) ==> #[trigger] st.spilled(setting, x0).queue.contains(x),
        st.spilled(setting, x0).queue.no_duplicates(),
{
    let b = st.spilled(setting, x0);
    let infos = infos_of(setting, st, x0);
    let count = infos.len();
    let added = Seq::new(count, |n: int| st.new_vlrix(n));
    assert(b.queue == st.queue + added);
    assert(b.vlrs.len() == st.vlrs.len() + count);
    assert(b.frags.len() == st.frags.len() + count);
    assert forall|n: int| 0 <= n < count implies {
        &&& (#[trigger] st.new_vlrix(n)).pos() == st.vlrs.len() + n
        &&& st.new_fix(n).pos() == st.frags.len() + n
    } by {}
    assert forall|x: VirtualRangeIx, n: int| #[trigger] is_new(st, count, x, n) implies b.vlr(x)
        == st.bridge_vlr(st.vlr(x0).vreg, n) && b.frag_at(x, 0) == infos[n].spec_frag()
        && b.queue.contains(x) by {
        assert(b.vlrs[st.vlrs.len() + n] == st.bridge_vlr(st.vlr(x0).vreg, n));
        assert(st.new_vlrix(n).pos() == st.vlrs.len() + n);
        assert(b.frags[st.frags.len() + n] == infos[n].spec_frag());
        assert(b.queue[st.queue.len() + n] == added[n]);
        assert(added[n] == x);
    }
    assert forall|x: VirtualRangeIx| #[trigger] b.queue.contains(x) implies st.queue.contains(x)
        || is_new(st, count, x, x.pos() - st.vlrs.len()) by {
        let j = choose|j: int| 0 <= j < b.queue.len() && b.queue[j] == x;
        if j < st.queue.len() {
            assert(st.queue[j] == x);
        } else {
            assert(added[j - st.queue.len()] == x);
            assert(st.new_vlrix(j - st.queue.len()) == x);
        }
    }
    assert forall|x: VirtualRangeIx| st.queue.contains(x) implies #[trigger] b.queue.contains(x) by {
        let j = choose|j: int| 0 <= j < st.queue.len() && st.queue[j] == x;
        assert(b.queue[j] == x);
    }
    assert forall|i: int, j: int|
        0 <= i < b.queue.len() && 0 <= j < b.queue.len() && i != j implies b.queue[i]
        != b.queue[j] by {
        let n = st.queue.len();
        if i < n {
            assert(st.queue.contains(st.queue[i]));
        } else {
            assert(b.queue[i] == st.new_vlrix(i - n));
            assert(st.new_vlrix(i - n).pos() == st.vlrs.len() + (i - n));
        }
        if j < n {
            assert(st.queue.contains(st.queue[j]));
        } else {
            assert(b.queue[j] == st.new_vlrix(j - n));
            assert(st.new_vlrix(j - n).pos() == st.vlrs.len() + (j - n));
        }
    }
}

/// After a spill the ranges of concern are those from before without the spilled one, and the
/// bridges.
pub proof fn lemma_spilled_live<I>(
    setting: Setting<I>,
    fixed: Seq<Set<RangeFragIx>>,
    st: AllocState,
    x0: VirtualRangeIx,
)
    requires
        st.inv(setting, fixed, Some(x0)),
        st.spilled(setting, x0).fits(),
    ensures
        forall|x: VirtualRangeIx| #[trigger]
            st.spilled(setting, x0).live(None, x) <==> {
                ||| st.live(Some(x0), x) && x != x0
                ||| is_new(
                    st,
                    infos_of(setting, st, x0).len(),
                    x,
                    x.pos() - st.vlrs.len(),
                )
            },
        forall|x: VirtualRangeIx| #[trigger]
            st.live(Some(x0), x) ==> x.pos() < st.vlrs.len(),
{
    let b = st.spilled(setting, x0);
    let count = infos_of(setting, st, x0).len();
    lemma_spilled_shape(setting, fixed, st, x0);
    assert forall|x: VirtualRangeIx| #[trigger] st.live(Some(x0), x) implies x.pos()
        < st.vlrs.len() by {
        if exists|i: int| st.at_reg(x, i) {
            let i = choose|i: int| st.at_reg(x, i);
            assert(st.at_reg(x, i));
        }
    }
    assert forall|x: VirtualRangeIx| #[trigger] b.live(None, x) <==> {
        ||| st.live(Some(x0), x) && x != x0
        ||| is_new(st, count, x, x.pos() - st.vlrs.len())
    } by {
        if b.live(None, x) {
            if !b.queue.contains(x) {
                let i = choose|i: int| b.at_reg(x, i);
                assert(st.at_reg(x, i));
            }
        }
        if st.live(Some(x0), x) && x != x0 && !st.queue.contains(x) {
            let i = choose|i: int| st.at_reg(x, i);
            assert(b.at_reg(x, i));
        }
    }
}

/// Spilling the range in hand keeps the invariant.
pub proof fn lemma_spilled<I>(
    setting: Setting<I>,
    fixed: Seq<Set<RangeFragIx>>,
    st: AllocState,
    x0: VirtualRangeIx,
)
    requires
        st.inv(setting, fixed, Some(x0)),
        roles_ok(setting),
        st.vlr(x0).cost is Some,
        st.spilled(setting, x0).fits(),
    ensures
        st.spilled(setting, x0).inv(setting, fixed, None),
{
    let b = st.spilled(setting, x0);
    let infos = infos_of(setting, st, x0);
    let count = infos.len();
    lemma_spilled_shape(setting, fixed, st, x0);
    lemma_spilled_live(setting, fixed, st, x0);
    assert(vlr_ok(setting, st.frags, st.vlr(x0)));
    assert forall|j: int| 0 <= j < setting.func.insns.len() implies (#[trigger] (setting.im.regs)(
        setting.func.insns[j],
    )).roles_distinct() by {}
    lemma_bridges(
        setting.im,
        setting.func.insns,
        st.vlr(x0).vreg,
        st.frags,
        st.vlr(x0).frags,
    );
    assert(b.homes_ok(setting, None)) by {
        assert forall|x: VirtualRangeIx| #[trigger] b.queue.contains(x) implies {
            &&& x.pos() < b.vlrs.len()
            &&& b.vlr(x).rreg is None
        } by {
            if st.queue.contains(x) {
                assert(b.vlr(x) == st.vlr(x));
            } else {
                assert(is_new(st, count, x, x.pos() - st.vlrs.len()));
            }
        }
        assert forall|x: VirtualRangeIx, i: int| #[trigger] b.at_reg(x, i) implies {
            &&& x.pos() < b.vlrs.len()
            &&& b.vlr(x).rreg == Some(setting.universe.reg_seq()[i])
            &&& !b.queue.contains(x)
        } by {
            assert(st.at_reg(x, i));
            assert(b.vlr(x) == st.vlr(x));
        }
        assert forall|x: VirtualRangeIx, i: int, j: int| #[trigger]
            b.at_reg(x, i) && #[trigger] b.at_reg(x, j) implies i == j by {
            assert(st.at_reg(x, i) && st.at_reg(x, j));
        }
        assert forall|x: VirtualRangeIx| x.pos() < b.vlrs.len() && b.vlr(x).cost is None implies
            #[trigger] b.live(None, x) by {
            if x.pos() < st.vlrs.len() {
                assert(b.vlr(x) == st.vlr(x));
                assert(st.live(Some(x0), x));
            } else {
                assert(is_new(st, count, x, x.pos() - st.vlrs.len()));
            }
        }
    }
    assert(b.vlrs_ok(setting)) by {
        lemma_spilled_vlrs(setting, fixed, st, x0);
    }
    assert(b.regs_ok(fixed)) by {
        lemma_spilled_regs(setting, fixed, st, x0);
    }
    assert(b.edits_ok(setting)) by {
        assert forall|e: int| 0 <= e < b.edits.len() implies {
            let item = #[trigger] b.edits[e];
            let frag = b.frag_at(item.vlrix, 0);
            &&& item.vlrix.pos() < b.vlrs.len()
            &&& b.vlr(item.vlrix).cost is None
            &&& b.vlr(item.vlrix).frags.len() == 1
            &&& frag.first.iix == frag.last.iix
            &&& (frag.first.pt, frag.last.pt) == item.kind.spec_points()
        } by {
            if e < st.edits.len() {
                let item = st.edits[e];
                assert(b.edits[e] == item);
                assert(b.vlr(item.vlrix) == st.vlr(item.vlrix));
                assert(vlr_ok(setting, st.frags, st.vlr(item.vlrix)));
                assert(st.vlr(item.vlrix).frags[0].pos() < st.frags.len());
            } else {
                let n = e - st.edits.len();
                assert(b.edits[e].vlrix == st.new_vlrix(n));
                assert(st.new_vlrix(n).pos() == st.vlrs.len() + n);
                assert(is_new(st, count, st.new_vlrix(n), n));
            }
        }
    }
    assert(b.served(setting, None)) by {
        lemma_spilled_served(setting, fixed, st, x0);
    }
    assert(b.apart(None)) by {
        lemma_spilled_apart(setting, fixed, st, x0);
    }
}

proof fn lemma_spilled_vlrs<I>(
    setting: Setting<I>,
    fixed: Seq<Set<RangeFragIx>>,
    st: AllocState,
    x0: VirtualRangeIx,
)
    requires
        st.inv(setting, fixed, Some(x0)),
        roles_ok(setting),
        st.spilled(setting, x0).fits(),
    ensures
        st.spilled(setting, x0).vlrs_ok(setting),
        forall|n: int|
            0 <= n < infos_of(setting, st, x0).len() ==> {
                &&& (#[trigger] infos_of(setting, st, x0)[n]).spec_frag().wf()
                &&& infos_of(setting, st, x0)[n].spec_frag().is_sane()
            },
{
    let b = st.spilled(setting, x0);
    let infos = infos_of(setting, st, x0);
    let count = infos.len();
    let vreg = st.vlr(x0).vreg;
    let ixs = st.vlr(x0).frags;
    lemma_spilled_shape(setting, fixed, st, x0);
    assert(vlr_ok(setting, st.frags, st.vlr(x0)));
    lemma_bridges(setting.im, setting.func.insns, vreg, st.frags, ixs);
    assert forall|n: int| 0 <= n < count implies frag_ok(
        setting,
        (#[trigger] infos[n]).spec_frag(),
    ) by {
        assert(made_for_some(setting.im, setting.func.insns, vreg, st.frags, ixs, infos[n]));
        let i = choose|i: int|
            0 <= i < ixs.len() && made_for(
                setting.im,
                setting.func.insns,
                vreg,
                st.frags[(#[trigger] ixs[i]).pos()],
                infos[n],
            );
        let frag = st.frags[ixs[i].pos()];
        assert(frag_ok(setting, frag));
        lemma_made_for(setting.im, setting.func.insns, vreg, frag, infos[n]);
    }
    assert forall|i: int| 0 <= i < st.frags.len() implies #[trigger] st.frags[i]
        == b.frags[i] by {}
    assert forall|x: VirtualRangeIx| x.pos() < b.vlrs.len() implies vlr_ok(
        setting,
        b.frags,
        #[trigger] b.vlr(x),
    ) by {
        if x.pos() < st.vlrs.len() {
            assert(vlr_ok(setting, st.frags, st.vlr(x)));
            lemma_frags_sorted_extend(st.frags, b.frags, st.vlr(x).frags);
            assert forall|i: int| 0 <= i < b.vlr(x).frags.len() implies frag_ok(
                setting,
                b.frags[(#[trigger] b.vlr(x).frags[i]).pos()],
            ) by {
                assert(frag_ok(setting, st.frags[st.vlr(x).frags[i].pos()]));
            }
        } else {
            let n = x.pos() - st.vlrs.len();
            assert(is_new(st, count, x, n));
            assert(frag_ok(setting, infos[n].spec_frag()));
            assert(b.vlr(x).frags[0] == st.new_fix(n));
            assert(st.new_vlrix(n).pos() == st.vlrs.len() + n);
            assert(b.frags[st.new_fix(n).pos()] == infos[n].spec_frag());
        }
    }
}

proof fn lemma_spilled_regs<I>(
    setting: Setting<I>,
    fixed: Seq<Set<RangeFragIx>>,
    st: AllocState,
    x0: VirtualRangeIx,
)
    requires
        st.inv(setting, fixed, Some(x0)),
        st.spilled(setting, x0).fits(),
    ensures
        st.spilled(setting, x0).regs_ok(fixed),
{
    let b = st.spilled(setting, x0);
    lemma_spilled_shape(setting, fixed, st, x0);
    assert(b.regs == st.regs);
    assert forall|x: VirtualRangeIx, i: int| #[trigger] b.at_reg(x, i) implies b.vlr(x) == st.vlr(
        x,
    ) by {
        assert(st.at_reg(x, i));
    }
    assert forall|i: int, f: RangeFragIx| b.held_by_vlr(i, f) <==> st.held_by_vlr(i, f) by {
        if b.held_by_vlr(i, f) {
            let x = choose|x: VirtualRangeIx| #[trigger]
                b.at_reg(x, i) && b.vlr(x).frags.contains(f);
            assert(st.at_reg(x, i) && st.vlr(x).frags.contains(f));
        }
        if st.held_by_vlr(i, f) {
            let x = choose|x: VirtualRangeIx| #[trigger]
                st.at_reg(x, i) && st.vlr(x).frags.contains(f);
            assert(b.at_reg(x, i) && b.vlr(x).frags.contains(f));
        }
    }
    assert forall|i: int, f: RangeFragIx| 0 <= i < b.regs.len() implies (
    #[trigger] b.regs[i].frags.contains(f) <==> {
        ||| fixed[i].contains(f)
        ||| b.held_by_vlr(i, f)
    }) by {
        assert(st.regs[i].frags.contains(f) <==> fixed[i].contains(f) || st.held_by_vlr(i, f));
        assert(b.held_by_vlr(i, f) <==> st.held_by_vlr(i, f));
    }
    assert forall|i: int, f: RangeFragIx|
        0 <= i < b.regs.len() && #[trigger] b.regs[i].frags.contains(f) implies f.pos()
        < b.frags.len() && b.frags[f.pos()].wf() && b.frags[f.pos()] == st.frags[f.pos()] by {
        assert(st.regs[i].frags.contains(f));
    }
    assert forall|i: int, f: RangeFragIx, g: RangeFragIx|
        0 <= i < b.regs.len() && #[trigger] b.regs[i].frags.contains(f)
            && #[trigger] b.regs[i].frags.contains(g) && f != g implies b.frags[f.pos()].disjoint(
        b.frags[g.pos()],
    ) by {
        assert(st.regs[i].frags.contains(f) && st.regs[i].frags.contains(g));
    }
    assert forall|x: VirtualRangeIx, i: int, f: RangeFragIx| #[trigger]
        b.at_reg(x, i) && #[trigger] fixed[i].contains(f) implies !b.vlr(x).frags.contains(f) by {
        assert(st.at_reg(x, i));
        assert(!st.vlr(x).frags.contains(f));
    }
    assert forall|x: VirtualRangeIx, y: VirtualRangeIx, i: int, f: RangeFragIx|
        #![trigger b.at_reg(x, i), b.at_reg(y, i), b.vlr(x).frags.contains(f)]
        b.at_reg(x, i) && b.at_reg(y, i) && x != y && b.vlr(x).frags.contains(f) implies !b.vlr(
        y,
    ).frags.contains(f) by {
        assert(st.at_reg(x, i) && st.at_reg(y, i));
        assert(st.vlr(x).frags.contains(f));
    }
}

proof fn lemma_spilled_served<I>(
    setting: Setting<I>,
    fixed: Seq<Set<RangeFragIx>>,
    st: AllocState,
    x0: VirtualRangeIx,
)
    requires
        st.inv(setting, fixed, Some(x0)),
        roles_ok(setting),
        st.spilled(setting, x0).fits(),
    ensures
        st.spilled(setting, x0).served(setting, None),
{
    let b = st.spilled(setting, x0);
    let hand = Some(x0);
    assert forall|vreg: VirtualReg, k: int|
        0 <= k < setting.func.insns.len() implies #[trigger] b.serves(
        None,
        (setting.im.regs)(setting.func.insns[k]),
        vreg,
        k,
    ) by {
        let uses = (setting.im.regs)(setting.func.insns[k]);
        let u = point_rank(k, Point::Use);
        let d = point_rank(k, Point::Def);
        assert(st.serves(hand, uses, vreg, k));
        if uses.used.contains(Reg::Virtual(vreg)) {
            lemma_spilled_has_frag(setting, fixed, st, x0, vreg, k, BridgeKind::RtoU, u, u);
        }
        if uses.defined.contains(Reg::Virtual(vreg)) {
            lemma_spilled_has_frag(setting, fixed, st, x0, vreg, k, BridgeKind::DtoS, d, d);
        }
        if uses.modified.contains(Reg::Virtual(vreg)) {
            lemma_spilled_has_frag(setting, fixed, st, x0, vreg, k, BridgeKind::RtoS, u, d);
        }
    }
}

/// A mention that the spilled range served is served by a bridge.
proof fn lemma_spilled_has_frag<I>(
    setting: Setting<I>,
    fixed: Seq<Set<RangeFragIx>>,
    st: AllocState,
    x0: VirtualRangeIx,
    vreg: VirtualReg,
    k: int,
    kind: BridgeKind,
    p: int,
    q: int,
)
    requires
        st.inv(setting, fixed, Some(x0)),
        roles_ok(setting),
        st.spilled(setting, x0).fits(),
        0 <= k < setting.func.insns.len(),
        match kind {
            BridgeKind::RtoU => (setting.im.regs)(setting.func.insns[k]).used.contains(
                Reg::Virtual(vreg),
            ) && p == point_rank(k, Point::Use) && q == p,
            BridgeKind::RtoS => (setting.im.regs)(setting.func.insns[k]).modified.contains(
                Reg::Virtual(vreg),
            ) && p == point_rank(k, Point::Use) && q == point_rank(k, Point::Def),
            BridgeKind::DtoS => (setting.im.regs)(setting.func.insns[k]).defined.contains(
                Reg::Virtual(vreg),
            ) && p == point_rank(k, Point::Def) && q == p,
        },
        st.has_frag(Some(x0), vreg, p, q),
    ensures
        st.spilled(setting, x0).has_frag(None, vreg, p, q),
{
    let b = st.spilled(setting, x0);
    let hand = Some(x0);
    let infos = infos_of(setting, st, x0);
    let ixs = st.vlr(x0).frags;
    lemma_spilled_shape(setting, fixed, st, x0);
    lemma_spilled_live(setting, fixed, st, x0);
    let (x, i) = choose|x: VirtualRangeIx, i: int| #[trigger]
        st.owns(hand, x, i) && st.vlr(x).vreg == vreg && st.frag_at(x, i).covers(p) && st.frag_at(
            x,
            i,
        ).covers(q);
    assert(st.live(hand, x));
    assert(vlr_ok(setting, st.frags, st.vlr(x)));
    assert(st.vlr(x).frags[i].pos() < st.frags.len());
    if x != x0 {
        assert(b.live(None, x));
        assert(b.vlr(x) == st.vlr(x));
        assert(b.owns(None, x, i));
        assert(b.frag_at(x, i) == st.frag_at(x, i));
    } else {
        let frag = st.frags[ixs[i].pos()];
        lemma_bridges(setting.im, setting.func.insns, vreg, st.frags, ixs);
        assert(needs_bridge((setting.im.regs)(setting.func.insns[k]), vreg, frag, k, kind));
        assert(frag.first.iix.pos() <= k <= frag.last.iix.pos());
        let n = choose|n: int|
            0 <= n < infos.len() && (#[trigger] infos[n]).iix.pos() == k && infos[n].kind == kind;
        let y = st.new_vlrix(n);
        assert(y.pos() == st.vlrs.len() + n);
        assert(is_new(st, infos.len(), y, n));
        assert(b.live(None, y));
        assert(b.vlr(y).frags.len() == 1);
        assert(b.owns(None, y, 0));
        assert(b.frag_at(y, 0) == infos[n].spec_frag());
    }
}

proof fn lemma_spilled_apart<I>(
    setting: Setting<I>,
    fixed: Seq<Set<RangeFragIx>>,
    st: AllocState,
    x0: VirtualRangeIx,
)
    requires
        st.inv(setting, fixed, Some(x0)),
        roles_ok(setting),
        st.spilled(setting, x0).fits(),
    ensures
        st.spilled(setting, x0).apart(None),
{
    let b = st.spilled(setting, x0);
    let hand = Some(x0);
    let infos = infos_of(setting, st, x0);
    let count = infos.len();
    let vreg = st.vlr(x0).vreg;
    lemma_spilled_shape(setting, fixed, st, x0);
    lemma_spilled_live(setting, fixed, st, x0);
    lemma_spilled_vlrs(setting, fixed, st, x0);
    assert(vlr_ok(setting, st.frags, st.vlr(x0)));
    lemma_bridges(setting.im, setting.func.insns, vreg, st.frags, st.vlr(x0).frags);
    assert forall|x: VirtualRangeIx, i: int, y: VirtualRangeIx, j: int| #[trigger]
        b.owns(None, x, i) && #[trigger] b.owns(None, y, j) && b.vlr(x).vreg == b.vlr(y).vreg && (x
            != y || i != j) implies b.frag_at(x, i).disjoint(b.frag_at(y, j)) by {
        assert(b.live(None, x) && b.live(None, y));
        let old_x = st.live(hand, x) && x != x0;
        let old_y = st.live(hand, y) && y != x0;
        if old_x {
            assert(b.vlr(x) == st.vlr(x));
            assert(st.owns(hand, x, i));
            assert(vlr_ok(setting, st.frags, st.vlr(x)));
            assert(st.vlr(x).frags[i].pos() < st.frags.len());
            assert(b.frag_at(x, i) == st.frag_at(x, i));
        } else {
            assert(is_new(st, count, x, x.pos() - st.vlrs.len()));
            assert(i == 0);
        }
        if old_y {
            assert(b.vlr(y) == st.vlr(y));
            assert(st.owns(hand, y, j));
            assert(vlr_ok(setting, st.frags, st.vlr(y)));
            assert(st.vlr(y).frags[j].pos() < st.frags.len());
            assert(b.frag_at(y, j) == st.frag_at(y, j));
        } else {
            assert(is_new(st, count, y, y.pos() - st.vlrs.len()));
            assert(j == 0);
        }
        if old_x && old_y {
        } else if old_x {
            lemma_bridge_apart(setting, fixed, st, x0, y.pos() - st.vlrs.len(), x, i);
        } else if old_y {
            lemma_bridge_apart(setting, fixed, st, x0, x.pos() - st.vlrs.len(), y, j);
        } else {
            let n = x.pos() - st.vlrs.len();
            let m = y.pos() - st.vlrs.len();
            assert(n != m);
            if n < m {
                assert(infos[n].spec_frag().disjoint(infos[m].spec_frag()));
            } else {
                assert(infos[m].spec_frag().disjoint(infos[n].spec_frag()));
            }
        }
    }
}

/// A bridge shares no point with a fragment of another range for the same virtual register.
proof fn lemma_bridge_apart<I>(
    setting: Setting<I>,
    fixed: Seq<Set<RangeFragIx>>,
    st: AllocState,
    x0: VirtualRangeIx,
    n: int,
    y: VirtualRangeIx,
    j: int,
)
    requires
        st.inv(setting, fixed, Some(x0)),
        roles_ok(setting),
        0 <= n < infos_of(setting, st, x0).len(),
        st.owns(Some(x0), y, j),
        y != x0,
        y.pos() < st.vlrs.len(),
        st.vlr(y).vreg == st.vlr(x0).vreg,
    ensures
        infos_of(setting, st, x0)[n].spec_frag().disjoint(st.frag_at(y, j)),
{
    let info = infos_of(setting, st, x0)[n];
    let ixs = st.vlr(x0).frags;
    let vreg = st.vlr(x0).vreg;
    assert(vlr_ok(setting, st.frags, st.vlr(x0)));
    lemma_bridges(setting.im, setting.func.insns, vreg, st.frags, ixs);
    assert(made_for_some(setting.im, setting.func.insns, vreg, st.frags, ixs, info));
    let i = choose|i: int|
        0 <= i < ixs.len() && made_for(
            setting.im,
            setting.func.insns,
            vreg,
            st.frags[(#[trigger] ixs[i]).pos()],
            info,
        );
    assert(st.live(Some(x0), x0));
    assert(st.owns(Some(x0), x0, i));
    let frag = st.frag_at(x0, i);
    assert(frag.disjoint(st.frag_at(y, j)));
    lemma_made_for(setting.im, setting.func.insns, vreg, frag, info);
    assert(vlr_ok(setting, st.frags, st.vlr(y)));
    assert(frag_ok(setting, st.frags[st.vlr(y).frags[j].pos()]));
    if !info.spec_frag().disjoint(st.frag_at(y, j)) {
        let p = lemma_common_access(info.spec_frag(), st.frag_at(y, j));
        assert(frag.covers(p));
    }
}

} // verus!
