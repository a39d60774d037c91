//! What can be relied on of the maps from virtual to real registers, whatever the lists are like.

use crate::frags::{InstPoint, Point, RangeFrag};
use crate::index::{InstIx, RangeFragIx};
use crate::interface::{FuncModel, InstModel};
use crate::mapping::{insn_maps, map_before, pass_edges, Edge};
use crate::plain::point;
use crate::regs::{RealReg, VirtualReg};
use crate::result_laws::{lemma_names, names};
use crate::stream::rewritten_insns;
use vstd::prelude::*;

verus! {

/// The entry is for `v`, and its fragment starts at the point.
pub open spec fn starts_for(
    entry: (RangeFragIx, VirtualReg, RealReg),
    frags: Seq<RangeFrag>,
    p: InstPoint,
    v: VirtualReg,
) -> bool {
    entry.1 == v && frags[entry.0.ix as int].first == p
}

/// The entry is for `v`, and its fragment ends at the point.
pub open spec fn ends_for(
    entry: (RangeFragIx, VirtualReg, RealReg),
    frags: Seq<RangeFrag>,
    p: InstPoint,
    v: VirtualReg,
) -> bool {
    entry.1 == v && frags[entry.0.ix as int].last == p
}

/// From `before` to `after`, what starts at the point is taken up: a virtual register for which
/// some entry starts is mapped to the register of the latest such entry, and all others are mapped
/// as before.
pub open spec fn takes_up(
    before: Map<VirtualReg, RealReg>,
    after: Map<VirtualReg, RealReg>,
    list: Seq<(RangeFragIx, VirtualReg, RealReg)>,
    frags: Seq<RangeFrag>,
    p: InstPoint,
) -> bool {
    &&& forall|v: VirtualReg|
        (forall|i: int| 0 <= i < list.len() ==> !starts_for(#[trigger] list[i], frags, p, v)) ==> {
            &&& #[trigger] after.contains_key(v) == before.contains_key(v)
            &&& before.contains_key(v) ==> after[v] == before[v]
        }
    &&& forall|v: VirtualReg, i: int|
        0 <= i < list.len() && starts_for(#[trigger] list[i], frags, p, v) && (forall|j: int|
            i < j < list.len() ==> !starts_for(#[trigger] list[j], frags, p, v))
            ==> #[trigger] after.contains_key(v) && after[v] == list[i].2
}

/// From `before` to `after`, what ends at the point is let go: a virtual register for which some
/// entry ends is not mapped any more, and all others are mapped as before.
pub open spec fn lets_go(
    before: Map<VirtualReg, RealReg>,
    after: Map<VirtualReg, RealReg>,
    list: Seq<(RangeFragIx, VirtualReg, RealReg)>,
    frags: Seq<RangeFrag>,
    p: InstPoint,
) -> bool {
    &&& forall|v: VirtualReg|
        (forall|i: int| 0 <= i < list.len() ==> !ends_for(#[trigger] list[i], frags, p, v)) ==> {
            &&& #[trigger] after.contains_key(v) == before.contains_key(v)
            &&& before.contains_key(v) ==> after[v] == before[v]
        }
    &&& forall|v: VirtualReg, i: int|
        0 <= i < list.len() && ends_for(#[trigger] list[i], frags, p, v)
            ==> !#[trigger] after.contains_key(v)
}

proof fn lemma_takes_up(
    m: Map<VirtualReg, RealReg>,
    list: Seq<(RangeFragIx, VirtualReg, RealReg)>,
    frags: Seq<RangeFrag>,
    p: InstPoint,
)
    ensures
        takes_up(m, pass_edges(m, list, frags, Edge::Start, p), list, frags, p),
    decreases list.len(),
{
    let after = pass_edges(m, list, frags, Edge::Start, p);
    if list.len() > 0 {
        let fewer = list.drop_last();
        let n = list.len() - 1;
        let e = list[n];
        let before = pass_edges(m, fewer, frags, Edge::Start, p);
        lemma_takes_up(m, fewer, frags, p);
        assert forall|v: VirtualReg|
            (forall|i: int|
                0 <= i < list.len() ==> !starts_for(#[trigger] list[i], frags, p, v)) implies {
            &&& #[trigger] after.contains_key(v) == m.contains_key(v)
            &&& m.contains_key(v) ==> after[v] == m[v]
        } by {
            assert(!starts_for(list[n], frags, p, v));
            assert forall|i: int| 0 <= i < fewer.len() implies !starts_for(
                #[trigger] fewer[i],
                frags,
                p,
                v,
            ) by {
                assert(fewer[i] == list[i]);
            }
            assert(before.contains_key(v) == m.contains_key(v));
        }
        assert forall|v: VirtualReg, i: int|
            0 <= i < list.len() && starts_for(#[trigger] list[i], frags, p, v) && (forall|j: int|
                i < j < list.len() ==> !starts_for(
                    #[trigger] list[j],
                    frags,
                    p,
                    v,
                )) implies #[trigger] after.contains_key(v) && after[v] == list[i].2 by {
            if i < n {
                assert(!starts_for(list[n], frags, p, v));
                assert(fewer[i] == list[i]);
                assert forall|j: int| i < j < fewer.len() implies !starts_for(
                    #[trigger] fewer[j],
                    frags,
                    p,
                    v,
                ) by {
                    assert(fewer[j] == list[j]);
                }
                assert(before.contains_key(v) && before[v] == list[i].2);
            }
        }
    }
}

proof fn lemma_lets_go(
    m: Map<VirtualReg, RealReg>,
    list: Seq<(RangeFragIx, VirtualReg, RealReg)>,
    frags: Seq<RangeFrag>,
    p: InstPoint,
)
    ensures
        lets_go(m, pass_edges(m, list, frags, Edge::End, p), list, frags, p),
    decreases list.len(),
{
    let after = pass_edges(m, list, frags, Edge::End, p);
    if list.len() > 0 {
        let fewer = list.drop_last();
        let n = list.len() - 1;
        let before = pass_edges(m, fewer, frags, Edge::End, p);
        lemma_lets_go(m, fewer, frags, p);
        assert forall|v: VirtualReg|
            (forall|i: int|
                0 <= i < list.len() ==> !ends_for(#[trigger] list[i], frags, p, v)) implies {
            &&& #[trigger] after.contains_key(v) == m.contains_key(v)
            &&& m.contains_key(v) ==> after[v] == m[v]
        } by {
            assert(!ends_for(list[n], frags, p, v));
            assert forall|i: int| 0 <= i < fewer.len() implies !ends_for(
                #[trigger] fewer[i],
                frags,
                p,
                v,
            ) by {
                assert(fewer[i] == list[i]);
            }
            assert(before.contains_key(v) == m.contains_key(v));
        }
        assert forall|v: VirtualReg, i: int|
            0 <= i < list.len() && ends_for(
                #[trigger] list[i],
                frags,
                p,
                v,
            ) implies !#[trigger] after.contains_key(v) by {
            if i < n {
                assert(fewer[i] == list[i]);
                assert(!before.contains_key(v));
            }
        }
    }
}

/// How the maps change along the code. Before the first instruction nothing is mapped, and before
/// each of the others the map is the one behind the instruction before. What an instruction reads
/// is told by the map when the fragments that start at its reload point, and then those that start
/// at its use point, have been taken up. Then those that end at its use point are let go, those
/// that start at its def point are taken up, which tells what it writes, and those that end at its
/// def point, and then at its spill point, are let go.
pub proof fn law_how_maps_change(
    starts: Seq<(RangeFragIx, VirtualReg, RealReg)>,
    ends: Seq<(RangeFragIx, VirtualReg, RealReg)>,
    frags: Seq<RangeFrag>,
    k: int,
) -> (reloaded: Map<VirtualReg, RealReg>)
    requires
        0 <= k,
    ensures
        map_before(starts, ends, frags, 0) == Map::<VirtualReg, RealReg>::empty(),
        map_before(starts, ends, frags, k + 1) == insn_maps(starts, ends, frags, k).after,
        ({
            let before = map_before(starts, ends, frags, k);
            let maps = insn_maps(starts, ends, frags, k);
            let r = point(k, Point::Reload);
            let u = point(k, Point::Use);
            let d = point(k, Point::Def);
            let s = point(k, Point::Spill);
            &&& takes_up(before, reloaded, starts, frags, r)
            &&& takes_up(reloaded, maps.uses, starts, frags, u)
            &&& lets_go(maps.uses, maps.after_use, ends, frags, u)
            &&& takes_up(maps.after_use, maps.defs, starts, frags, d)
            &&& lets_go(maps.defs, maps.after_def, ends, frags, d)
            &&& lets_go(maps.after_def, maps.after, ends, frags, s)
        }),
{
    let before = map_before(starts, ends, frags, k);
    let maps = insn_maps(starts, ends, frags, k);
    let u = point(k, Point::Use);
    let d = point(k, Point::Def);
    let reloaded = pass_edges(before, starts, frags, Edge::Start, point(k, Point::Reload));
    lemma_takes_up(before, starts, frags, point(k, Point::Reload));
    lemma_takes_up(reloaded, starts, frags, u);
    lemma_lets_go(maps.uses, ends, frags, u);
    lemma_takes_up(maps.after_use, starts, frags, d);
    lemma_lets_go(maps.defs, ends, frags, d);
    lemma_lets_go(maps.after_def, ends, frags, point(k, Point::Spill));
    reloaded
}

/// Whatever the lists are like, an instruction that has been reached and is not named to be a no-op
/// has the registers that the maps tell, where it reads and where it writes; one that is named is
/// the no-op of the function; and the others stay as they are.
pub proof fn law_how_instructions_get_their_registers<I>(
    im: InstModel<I>,
    m: FuncModel<I>,
    starts: Seq<(RangeFragIx, VirtualReg, RealReg)>,
    ends: Seq<(RangeFragIx, VirtualReg, RealReg)>,
    frags: Seq<RangeFrag>,
    nops: Seq<InstIx>,
    stop: int,
    k: int,
)
    requires
        0 <= k < m.insns.len() <= u32::MAX,
    ensures
        ({
            let insns = rewritten_insns(im, m, starts, ends, frags, nops, stop);
            let maps = insn_maps(starts, ends, frags, k);
            &&& insns.len() == m.insns.len()
            &&& k >= stop ==> insns[k] == m.insns[k]
            &&& k < stop && names(nops, k) ==> insns[k] == m.nop
            &&& k < stop && !names(nops, k) ==> insns[k] == (im.rewritten)(
                m.insns[k],
                maps.uses,
                maps.defs,
            )
        }),
{
    lemma_names(nops, k);
}

} // verus!
