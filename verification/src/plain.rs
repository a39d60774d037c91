//! The terms in which the laws are put: points in time, registers with room, and ranges that can
//! make way. Nothing that the allocator promises is put in these terms, so that the laws tell what
//! it does from what it is for.

use crate::frags::{frags_clear, InstPoint, Point, RangeFrag};
use crate::index::{InstIx, RangeFragIx, TypedIx, VirtualRangeIx};
use crate::ranges::VlrView;
use crate::regs::{RealRegUniverse, RegClass};
use crate::safety::vlr_ok;
use crate::state::{AllocState, Setting};
use vstd::prelude::*;

verus! {

// ---- Time

/// Point `p` comes before point `q`: at an earlier instruction, or at the same one, where the
/// reload comes first, and then the use, the def and the spill.
pub open spec fn earlier(p: InstPoint, q: InstPoint) -> bool {
    ||| p.iix.ix < q.iix.ix
    ||| p.iix.ix == q.iix.ix && match p.pt {
        Point::Reload => q.pt is Use || q.pt is Def || q.pt is Spill,
        Point::Use => q.pt is Def || q.pt is Spill,
        Point::Def => q.pt is Spill,
        Point::Spill => false,
    }
}

/// The fragment is live at the point: it has started, and has not ended before it.
pub open spec fn live_there(frag: RangeFrag, p: InstPoint) -> bool {
    !earlier(p, frag.first) && !earlier(frag.last, p)
}

/// Some point is in both fragments.
pub open spec fn share_a_point(f: RangeFrag, g: RangeFrag) -> bool {
    exists|p: InstPoint| #[trigger] live_there(f, p) && live_there(g, p)
}

/// Point `pt` of instruction `k`.
pub open spec fn point(k: int, pt: Point) -> InstPoint {
    InstPoint { iix: InstIx { ix: k as u32 }, pt }
}

/// Ranks order points as time does: there are four to each instruction.
pub proof fn law_ranks_order_points(p: InstPoint, q: InstPoint)
    ensures
        p.rank() == 4 * p.iix.ix + (match p.pt {
            Point::Reload => 0int,
            Point::Use => 1,
            Point::Def => 2,
            Point::Spill => 3,
        }),
        p.rank() < q.rank() <==> earlier(p, q),
        p.rank() == q.rank() <==> p == q,
{
}

/// A fragment covers the points at which it is live, and no others; one fragment is before another
/// if all of it is earlier; and two fragments are disjoint if they share no point.
pub proof fn law_fragments_are_stretches_of_time(f: RangeFrag, g: RangeFrag)
    ensures
        forall|p: InstPoint| #[trigger] f.covers(p.rank()) <==> live_there(f, p),
        f.wf() <==> exists|p: InstPoint| live_there(f, p),
        f.wf() && g.wf() ==> (f.disjoint(g) <==> !share_a_point(f, g)),
        f.wf() && g.wf() ==> (f.before(g) <==> forall|p: InstPoint, q: InstPoint| #[trigger]
            live_there(f, p) && #[trigger] live_there(g, q) ==> earlier(p, q)),
{
    assert forall|p: InstPoint| #[trigger] f.covers(p.rank()) <==> live_there(f, p) by {
        law_ranks_order_points(p, f.first);
        law_ranks_order_points(f.last, p);
    }
    assert forall|p: InstPoint| #[trigger] g.covers(p.rank()) <==> live_there(g, p) by {
        law_ranks_order_points(p, g.first);
        law_ranks_order_points(g.last, p);
    }
    assert(f.covers(f.first.rank()) <==> live_there(f, f.first));
    assert(f.covers(f.last.rank()) <==> live_there(f, f.last));
    assert(g.covers(g.first.rank()) <==> live_there(g, g.first));
    assert(g.covers(g.last.rank()) <==> live_there(g, g.last));
    if exists|p: InstPoint| live_there(f, p) {
        let p = choose|p: InstPoint| live_there(f, p);
        assert(f.covers(p.rank()));
    }
    if f.wf() && g.wf() {
        if f.disjoint(g) {
            assert forall|p: InstPoint| !(#[trigger] live_there(f, p) && live_there(g, p)) by {
                assert(f.covers(p.rank()) <==> live_there(f, p));
                assert(g.covers(p.rank()) <==> live_there(g, p));
            }
        } else {
            let p = if f.first.rank() <= g.first.rank() {
                g.first
            } else {
                f.first
            };
            assert(f.covers(p.rank()) && g.covers(p.rank()));
            assert(live_there(f, p) && live_there(g, p));
        }
        if f.before(g) {
            assert forall|p: InstPoint, q: InstPoint| #[trigger]
                live_there(f, p) && #[trigger] live_there(g, q) implies earlier(p, q) by {
                assert(f.covers(p.rank()) && g.covers(q.rank()));
                law_ranks_order_points(p, q);
            }
        }
        law_ranks_order_points(f.last, g.first);
    }
}

// ---- Registers

/// The first and the last register that the class may use.
pub open spec fn regs_of_class(universe: RealRegUniverse, class: RegClass) -> Option<
    (usize, usize),
> {
    match class {
        RegClass::I32 => universe.allocable_by_class@[0],
        RegClass::F32 => universe.allocable_by_class@[1],
        RegClass::I64 => universe.allocable_by_class@[2],
        RegClass::F64 => universe.allocable_by_class@[3],
        RegClass::V128 => universe.allocable_by_class@[4],
    }
}

/// The range may go to register `i`, as far as its class is concerned.
pub open spec fn may_use(universe: RealRegUniverse, vlr: VlrView, i: int) -> bool {
    regs_of_class(universe, vlr.vreg.class) matches Some((first, last)) && first <= i <= last
}

/// The range shares a point with fragment `f`.
pub open spec fn in_the_way(frags: Seq<RangeFrag>, f: RangeFragIx, vlr: VlrView) -> bool {
    exists|j: int|
        0 <= j < vlr.frags.len() && share_a_point(
            frags[f.ix as int],
            frags[(#[trigger] vlr.frags[j]).ix as int],
        )
}

/// Register `i` may hold the range, and nothing that it is committed to is in the way.
pub open spec fn has_room_for<I>(
    setting: Setting<I>,
    st: AllocState,
    vlr: VlrView,
    i: int,
) -> bool {
    &&& may_use(setting.universe, vlr, i)
    &&& forall|f: RangeFragIx| #[trigger]
        st.regs[i].frags.contains(f) ==> !in_the_way(st.frags, f, vlr)
}

/// Range `a` costs less to spill than range `b`, and not infinitely much.
pub open spec fn cheaper(a: VlrView, b: VlrView) -> bool {
    a.cost matches Some(c) && (b.cost matches Some(d) ==> c < d)
}

/// The range at position `j` of those that are assigned to register `i`.
pub open spec fn nth_range(st: AllocState, i: int, j: int) -> VlrView {
    st.vlrs[st.regs[i].assigned[j].ix as int]
}

/// The range at position `j` of those that are assigned to register `i` can make way for `vlr`:
/// the register may hold `vlr`, the range there is cheaper, and nothing else that the register is
/// committed to is in the way.
pub open spec fn can_make_way<I>(
    setting: Setting<I>,
    st: AllocState,
    vlr: VlrView,
    i: int,
    j: int,
) -> bool {
    &&& may_use(setting.universe, vlr, i)
    &&& 0 <= j < st.regs[i].assigned.len()
    &&& cheaper(nth_range(st, i, j), vlr)
    &&& forall|f: RangeFragIx| #[trigger]
        st.regs[i].frags.contains(f) && in_the_way(st.frags, f, vlr) ==> nth_range(
            st,
            i,
            j,
        ).frags.contains(f)
}

/// Entry `q` is the one of the queue that comes next: no range that waits is longer, and those that
/// wait before it are shorter.
pub open spec fn comes_next(st: AllocState, q: int) -> bool {
    &&& 0 <= q < st.queue.len()
    &&& forall|j: int|
        0 <= j < st.queue.len() ==> st.vlrs[(#[trigger] st.queue[j]).ix as int].size
            <= st.vlrs[st.queue[q].ix as int].size
    &&& forall|j: int|
        0 <= j < q ==> st.vlrs[(#[trigger] st.queue[j]).ix as int].size
            < st.vlrs[st.queue[q].ix as int].size
}

// ---- How these terms relate to those of the allocator

/// Both fragments are in order, so that they clash if they share a point.
proof fn lemma_clash(f: RangeFrag, g: RangeFrag)
    requires
        f.wf(),
        g.wf(),
    ensures
        f.disjoint(g) <==> !share_a_point(f, g),
{
    law_fragments_are_stretches_of_time(f, g);
}

pub proof fn lemma_class_range(universe: RealRegUniverse, class: RegClass)
    ensures
        universe.class_range(class) == regs_of_class(universe, class),
{
}

/// What the allocator takes for room is room.
pub proof fn lemma_clear<I>(
    setting: Setting<I>,
    fixed: Seq<Set<RangeFragIx>>,
    hand: Option<VirtualRangeIx>,
    st: AllocState,
    x: VirtualRangeIx,
    i: int,
    ixs: Set<RangeFragIx>,
)
    requires
        st.inv(setting, fixed, hand),
        x.pos() < st.vlrs.len(),
        0 <= i < st.regs.len(),
        ixs.subset_of(st.regs[i].frags),
    ensures
        frags_clear(st.frags, ixs, st.vlr(x).frags) <==> forall|f: RangeFragIx|
            #[trigger] ixs.contains(f) ==> !in_the_way(st.frags, f, st.vlr(x)),
{
    let vlr = st.vlr(x);
    assert(vlr_ok(setting, st.frags, st.vlr(x)));
    assert forall|f: RangeFragIx, j: int| #[trigger]
        ixs.contains(f) && 0 <= j < vlr.frags.len() implies (st.frags[f.pos()].disjoint(
        st.frags[(#[trigger] vlr.frags[j]).pos()],
    ) <==> !share_a_point(st.frags[f.ix as int], st.frags[vlr.frags[j].ix as int])) by {
        assert(st.regs[i].frags.contains(f));
        assert(st.frags[f.pos()].wf());
        assert(st.frags[vlr.frags[j].pos()].wf());
        lemma_clash(st.frags[f.pos()], st.frags[vlr.frags[j].pos()]);
    }
    if frags_clear(st.frags, ixs, vlr.frags) {
        assert forall|f: RangeFragIx| #[trigger] ixs.contains(f) implies !in_the_way(
            st.frags,
            f,
            vlr,
        ) by {
            assert forall|j: int| 0 <= j < vlr.frags.len() implies !share_a_point(
                st.frags[f.ix as int],
                st.frags[(#[trigger] vlr.frags[j]).ix as int],
            ) by {
                assert(st.frags[f.pos()].disjoint(st.frags[vlr.frags[j].pos()]));
            }
        }
    } else {
        let (f, j) = choose|f: RangeFragIx, j: int|
            #[trigger] ixs.contains(f) && 0 <= j < vlr.frags.len() && !st.frags[f.pos()].disjoint(
                st.frags[(#[trigger] vlr.frags[j]).pos()],
            );
        assert(share_a_point(st.frags[f.ix as int], st.frags[vlr.frags[j].ix as int]));
        assert(in_the_way(st.frags, f, vlr));
    }
}

} // verus!
