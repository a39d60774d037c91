//! What the allocator starts from, what its turns keep, and why it comes to an end.

use crate::frags::{frags_clear, frags_sorted, point_rank, Point, RangeFrag};
use crate::index::{RangeFragIx, TypedIx, VirtualRangeIx};
use crate::prio_queue::{all_vlrixs, is_longest, lemma_longest_exists, longest_at, swap_removed};
use crate::ranges::{cost_less, RlrView, VlrView};
use crate::regs::{RealRegUniverse, Reg, VirtualReg};
use crate::safety::{lemma_placed, lemma_released, lemma_taken, same_code, vlr_ok};
use crate::spill_safety::{infos_of, is_new, lemma_spilled, lemma_spilled_live, roles_ok};
use crate::state::{
    first_fit, fixed_frags, initial_state, is_first_fit, lemma_reaches_induct, lemma_reaches_next,
    lemma_reaches_start, reaches, turn, AllocState, Setting, Turn,
};
use vstd::prelude::*;

verus! {

/// Some range for `vreg` has a fragment that is live at both of the given points.
pub open spec fn covers_points(
    vlrs: Seq<VlrView>,
    frags: Seq<RangeFrag>,
    vreg: VirtualReg,
    p: int,
    q: int,
) -> bool {
    exists|x: int, i: int|
        #![trigger vlrs[x].frags[i]]
        0 <= x < vlrs.len() && vlrs[x].vreg == vreg && 0 <= i < vlrs[x].frags.len()
            && frags[vlrs[x].frags[i].pos()].covers(p) && frags[vlrs[x].frags[i].pos()].covers(q)
}

/// Where instruction `k` mentions `vreg`, a range for it is live: at the use point where it is
/// read, at the def point where it is written, at both, in one fragment, where it is modified.
pub open spec fn mention_covered<I>(
    setting: Setting<I>,
    vlrs: Seq<VlrView>,
    frags: Seq<RangeFrag>,
    vreg: VirtualReg,
    k: int,
) -> bool {
    let uses = (setting.im.regs)(setting.func.insns[k]);
    let u = point_rank(k, Point::Use);
    let d = point_rank(k, Point::Def);
    &&& uses.used.contains(Reg::Virtual(vreg)) ==> covers_points(vlrs, frags, vreg, u, u)
    &&& uses.defined.contains(Reg::Virtual(vreg)) ==> covers_points(vlrs, frags, vreg, d, d)
    &&& uses.modified.contains(Reg::Virtual(vreg)) ==> covers_points(vlrs, frags, vreg, u, d)
}

/// The real ranges of each allocable register are in order and share no point.
pub open spec fn rlrs_ok(
    universe: RealRegUniverse,
    rlrs: Seq<RlrView>,
    frags: Seq<RangeFrag>,
) -> bool {
    &&& forall|a: int|
        0 <= a < rlrs.len() && (#[trigger] rlrs[a]).rreg.index < universe.allocable
            ==> frags_sorted(frags, rlrs[a].frags)
    &&& forall|a: int, b: int|
        0 <= a < b < rlrs.len() && (#[trigger] rlrs[a]).rreg.index == (
        #[trigger] rlrs[b]).rreg.index && rlrs[a].rreg.index < universe.allocable ==> frags_clear(
            frags,
            rlrs[a].frags.to_set(),
            rlrs[b].frags,
        )
}

/// The function, the machine and the live ranges are as the allocator needs them: the ranges have
/// no register yet, those of one virtual register share no point, and wherever an instruction
/// mentions a virtual register, a range for it is live.
pub open spec fn input_ok<I>(
    setting: Setting<I>,
    rlrs: Seq<RlrView>,
    vlrs: Seq<VlrView>,
    frags: Seq<RangeFrag>,
) -> bool {
    &&& setting.universe.wf()
    &&& roles_ok(setting)
    &&& rlrs_ok(setting.universe, rlrs, frags)
    &&& forall|x: int|
        0 <= x < vlrs.len() ==> (#[trigger] vlrs[x]).rreg is None && vlr_ok(
            setting,
            frags,
            vlrs[x],
        )
    &&& forall|x: int, y: int|
        0 <= x < vlrs.len() && 0 <= y < vlrs.len() && x != y && (#[trigger] vlrs[x]).vreg == (
        #[trigger] vlrs[y]).vreg ==> frags_clear(frags, vlrs[x].frags.to_set(), vlrs[y].frags)
    &&& forall|vreg: VirtualReg, k: int|
        0 <= k < setting.func.insns.len() ==> #[trigger] mention_covered(
            setting,
            vlrs,
            frags,
            vreg,
            k,
        )
}

/// The fragments that the client uses each allocable register for.
pub open spec fn all_fixed<I>(setting: Setting<I>, rlrs: Seq<RlrView>) -> Seq<Set<RangeFragIx>> {
    Seq::new(setting.universe.allocable as nat, |i: int| fixed_frags(rlrs, i))
}

/// The queue of all ranges holds each of them once.
pub proof fn lemma_all_vlrixs(n: nat)
    requires
        n <= u32::MAX,
    ensures
        all_vlrixs(n).no_duplicates(),
        forall|x: VirtualRangeIx| #[trigger] all_vlrixs(n).contains(x) <==> x.pos() < n,
{
    let s = all_vlrixs(n);
    assert forall|x: VirtualRangeIx| #[trigger] s.contains(x) <==> x.pos() < n by {
        if s.contains(x) {
            let i = choose|i: int| 0 <= i < s.len() && s[i] == x;
        }
        if x.pos() < n {
            assert(s[x.pos()] == x);
        }
    }
}

/// Two fragments that the client uses one register for share no point.
pub proof fn lemma_fixed_disjoint(
    universe: RealRegUniverse,
    rlrs: Seq<RlrView>,
    frags: Seq<RangeFrag>,
    i: int,
    f: RangeFragIx,
    g: RangeFragIx,
)
    requires
        rlrs_ok(universe, rlrs, frags),
        0 <= i < universe.allocable,
        fixed_frags(rlrs, i).contains(f),
        fixed_frags(rlrs, i).contains(g),
    ensures
        f.pos() < frags.len(),
        frags[f.pos()].wf(),
        f != g ==> frags[f.pos()].disjoint(frags[g.pos()]),
{
    let a = choose|a: int|
        0 <= a < rlrs.len() && (#[trigger] rlrs[a]).rreg.index == i && rlrs[a].frags.contains(f);
    let b = choose|b: int|
        0 <= b < rlrs.len() && (#[trigger] rlrs[b]).rreg.index == i && rlrs[b].frags.contains(g);
    let j = choose|j: int| 0 <= j < rlrs[a].frags.len() && rlrs[a].frags[j] == f;
    let k = choose|k: int| 0 <= k < rlrs[b].frags.len() && rlrs[b].frags[k] == g;
    assert(frags_sorted(frags, rlrs[a].frags));
    assert(rlrs[a].frags[j].pos() < frags.len());
    if f != g {
        if a == b {
            if j < k {
                assert(frags[rlrs[a].frags[j].pos()].before(frags[rlrs[a].frags[k].pos()]));
            } else {
                assert(frags[rlrs[a].frags[k].pos()].before(frags[rlrs[a].frags[j].pos()]));
            }
        } else if a < b {
            assert(rlrs[a].frags.to_set().contains(f));
            assert(frags[f.pos()].disjoint(frags[rlrs[b].frags[k].pos()]));
        } else {
            assert(rlrs[b].frags.to_set().contains(g));
            assert(frags[g.pos()].disjoint(frags[rlrs[a].frags[j].pos()]));
        }
    }
}

/// The allocator starts in a state in which all is well.
pub proof fn lemma_initial<I>(
    setting: Setting<I>,
    rlrs: Seq<RlrView>,
    vlrs: Seq<VlrView>,
    frags: Seq<RangeFrag>,
)
    requires
        input_ok(setting, rlrs, vlrs, frags),
        vlrs.len() <= u32::MAX,
    ensures
        initial_state(setting.universe, rlrs, vlrs, frags).inv(
            setting,
            all_fixed(setting, rlrs),
            None,
        ),
{
    let st = initial_state(setting.universe, rlrs, vlrs, frags);
    let fixed = all_fixed(setting, rlrs);
    lemma_all_vlrixs(vlrs.len());
    assert forall|x: VirtualRangeIx, i: int| !#[trigger] st.at_reg(x, i) by {}
    assert forall|x: VirtualRangeIx| #[trigger] st.live(None, x) <==> x.pos() < vlrs.len() by {
        assert(st.queue.contains(x) <==> x.pos() < vlrs.len());
    }
    assert(st.homes_ok(setting, None)) by {
        assert forall|x: VirtualRangeIx| #[trigger] st.queue.contains(x) implies {
            &&& x.pos() < st.vlrs.len()
            &&& st.vlr(x).rreg is None
        } by {
            assert(vlrs[x.pos()].rreg is None);
        }
        assert forall|x: VirtualRangeIx| x.pos() < st.vlrs.len() && st.vlr(x).cost is None implies
            #[trigger] st.live(None, x) by {}
    }
    assert(st.vlrs_ok(setting)) by {
        assert forall|x: VirtualRangeIx| x.pos() < st.vlrs.len() implies vlr_ok(
            setting,
            st.frags,
            #[trigger] st.vlr(x),
        ) by {
            assert(vlr_ok(setting, frags, vlrs[x.pos()]));
        }
    }
    assert(st.regs_ok(fixed)) by {
        assert forall|i: int, f: RangeFragIx| 0 <= i < st.regs.len() implies (
        #[trigger] st.regs[i].frags.contains(f) <==> {
            ||| fixed[i].contains(f)
            ||| st.held_by_vlr(i, f)
        }) by {}
        assert forall|i: int, f: RangeFragIx|
            0 <= i < st.regs.len() && #[trigger] st.regs[i].frags.contains(f) implies f.pos()
            < st.frags.len() && st.frags[f.pos()].wf() by {
            lemma_fixed_disjoint(setting.universe, rlrs, frags, i, f, f);
        }
        assert forall|i: int, f: RangeFragIx, g: RangeFragIx|
            0 <= i < st.regs.len() && #[trigger] st.regs[i].frags.contains(f)
                && #[trigger] st.regs[i].frags.contains(g) && f
                != g implies st.frags[f.pos()].disjoint(st.frags[g.pos()]) by {
            lemma_fixed_disjoint(setting.universe, rlrs, frags, i, f, g);
        }
    }
    assert(st.served(setting, None)) by {
        assert forall|vreg: VirtualReg, p: int, q: int|
            covers_points(vlrs, frags, vreg, p, q) implies #[trigger] st.has_frag(
            None,
            vreg,
            p,
            q,
        ) by {
            let (x, i) = choose|x: int, i: int|
                #![trigger vlrs[x].frags[i]]
                0 <= x < vlrs.len() && vlrs[x].vreg == vreg && 0 <= i < vlrs[x].frags.len()
                    && frags[vlrs[x].frags[i].pos()].covers(p)
                    && frags[vlrs[x].frags[i].pos()].covers(q);
            let y = VirtualRangeIx { ix: x as u32 };
            assert(y.pos() == x);
            assert(st.live(None, y));
            assert(st.owns(None, y, i));
        }
        assert forall|vreg: VirtualReg, k: int|
            0 <= k < setting.func.insns.len() implies #[trigger] st.serves(
            None,
            (setting.im.regs)(setting.func.insns[k]),
            vreg,
            k,
        ) by {
            assert(mention_covered(setting, vlrs, frags, vreg, k));
        }
    }
    assert(st.apart(None)) by {
        assert forall|x: VirtualRangeIx, i: int, y: VirtualRangeIx, j: int| #[trigger]
            st.owns(None, x, i) && #[trigger] st.owns(None, y, j) && st.vlr(x).vreg == st.vlr(
                y,
            ).vreg && (x != y || i != j) implies st.frag_at(x, i).disjoint(st.frag_at(y, j)) by {
            assert(st.live(None, x) && st.live(None, y));
            let a = vlrs[x.pos()].frags;
            let b = vlrs[y.pos()].frags;
            assert(vlr_ok(setting, frags, vlrs[x.pos()]));
            if x == y {
                if i < j {
                    assert(frags[a[i].pos()].before(frags[a[j].pos()]));
                } else {
                    assert(frags[a[j].pos()].before(frags[a[i].pos()]));
                }
            } else {
                assert(x.pos() != y.pos());
                assert(a.to_set().contains(a[i]));
                assert(frags[a[i].pos()].disjoint(frags[b[j].pos()]));
            }
        }
    }
}

/// What holds of the range that a turn is about, and of the state without it.
pub proof fn lemma_turn_start<I>(
    setting: Setting<I>,
    fixed: Seq<Set<RangeFragIx>>,
    st: AllocState,
)
    requires
        st.inv(setting, fixed, None),
        st.queue.len() > 0,
    ensures
        ({
            let q = longest_at(st.queue, st.vlrs);
            &&& is_longest(st.queue, st.vlrs, q)
            &&& st.queue[q].pos() < st.vlrs.len()
            &&& st.taken(q).inv(setting, fixed, Some(st.queue[q]))
        }),
{
    let q = longest_at(st.queue, st.vlrs);
    lemma_longest_exists(st.queue, st.vlrs);
    assert(st.queue.contains(st.queue[q]));
    lemma_taken(setting, fixed, st, q);
}

/// The range that makes way is assigned to the register in question, costs less than the one that
/// it makes way for, and leaves room for it.
pub proof fn lemma_victim<I>(
    setting: Setting<I>,
    fixed: Seq<Set<RangeFragIx>>,
    st: AllocState,
    x: VirtualRangeIx,
    i: int,
)
    requires
        st.inv(setting, fixed, Some(x)),
        0 <= i < st.regs.len(),
        st.can_evict(st.vlr(x), i),
    ensures
        st.at_reg(st.victim(st.vlr(x), i), i),
        st.victim(st.vlr(x), i) != x,
        st.victim(st.vlr(x), i).pos() < st.vlrs.len(),
        st.vlr(st.victim(st.vlr(x), i)).cost is Some,
        cost_less(st.vlr(st.victim(st.vlr(x), i)).cost, st.vlr(x).cost),
        st.released(st.victim(st.vlr(x), i), i).vlr(x) == st.vlr(x),
        st.released(st.victim(st.vlr(x), i), i).regs[i].fits(st.vlr(x), st.frags),
{
    let reg = st.regs[i];
    let want = st.vlr(x);
    let j = choose|j: int| reg.is_best_evict(want, st.vlrs, st.frags, j);
    assert(reg.is_best_evict(want, st.vlrs, st.frags, j));
    assert(reg.evictable(want, st.vlrs, st.frags, j));
    let y = st.victim(want, i);
    assert(y == reg.assigned[j]);
    assert(reg.assigned.contains(y));
    assert(st.at_reg(y, i));
}

/// Every turn keeps the invariant.
pub proof fn lemma_turn<I>(
    setting: Setting<I>,
    fixed: Seq<Set<RangeFragIx>>,
    st: AllocState,
    next: AllocState,
)
    requires
        setting.universe.wf(),
        roles_ok(setting),
        st.inv(setting, fixed, None),
        turn(setting, st) == Turn::Next(next),
        next.fits(),
    ensures
        next.inv(setting, fixed, None),
{
    lemma_turn_start(setting, fixed, st);
    let q = longest_at(st.queue, st.vlrs);
    let x = st.queue[q];
    let rest = st.taken(q);
    let vlr = st.vlr(x);
    assert(setting.universe.class_range(vlr.vreg.class) is Some);
    let (first, last) = setting.universe.class_range(vlr.vreg.class)->0;
    match first_fit(st.regs, st.frags, vlr, first as int, last as int) {
        Some(i) => {
            let c = choose|c: int|
                is_first_fit(st.regs, st.frags, vlr, first as int, last as int, c);
            assert(is_first_fit(st.regs, st.frags, vlr, first as int, last as int, c));
            lemma_placed(setting, fixed, rest, x, i);
        },
        None => match st.best_site(vlr, first as int, last as int) {
            Some(i) => {
                let c = choose|c: int| st.is_best_site(vlr, first as int, last as int, c);
                assert(st.is_best_site(vlr, first as int, last as int, c));
                assert(rest.can_evict(vlr, i));
                let y = rest.victim(vlr, i);
                assert(y == st.victim(vlr, i));
                lemma_victim(setting, fixed, rest, x, i);
                lemma_released(setting, fixed, rest, Some(x), y, i);
                lemma_placed(setting, fixed, rest.released(y, i), x, i);
            },
            None => {
                lemma_spilled(setting, fixed, rest, x);
            },
        },
    }
}

/// Wherever the allocator gets, the tables and the spill area stay within their limits. In
/// particular, no range is spilled whose spill slots have no size.
pub open spec fn stays_within_limits<I>(setting: Setting<I>, start: AllocState) -> bool {
    forall|st: AllocState| #[trigger] reaches(setting, start, st) ==> st.fits()
}

/// Wherever the allocator gets, all is well.
pub proof fn lemma_reaches_inv<I>(
    setting: Setting<I>,
    rlrs: Seq<RlrView>,
    vlrs: Seq<VlrView>,
    frags: Seq<RangeFrag>,
    st: AllocState,
)
    requires
        input_ok(setting, rlrs, vlrs, frags),
        stays_within_limits(setting, initial_state(setting.universe, rlrs, vlrs, frags)),
        reaches(setting, initial_state(setting.universe, rlrs, vlrs, frags), st),
    ensures
        st.inv(setting, all_fixed(setting, rlrs), None),
{
    let start = initial_state(setting.universe, rlrs, vlrs, frags);
    let fixed = all_fixed(setting, rlrs);
    lemma_reaches_start(setting, start);
    assert(start.fits());
    lemma_initial(setting, rlrs, vlrs, frags);
    let p = |a: AllocState| reaches(setting, start, a) && a.inv(setting, fixed, None);
    assert(p(start));
    assert forall|a: AllocState, b: AllocState|
        p(a) && #[trigger] turn(setting, a) == Turn::Next(b) implies #[trigger] p(b) by {
        lemma_reaches_next(setting, start, a, b);
        assert(b.fits());
        lemma_turn(setting, fixed, a, b);
    }
    lemma_reaches_induct(setting, start, st, p);
}

// ---- Coming to an end

/// The ranges of concern that can still be spilled.
pub open spec fn spillable(st: AllocState) -> Set<VirtualRangeIx> {
    Set::new(
        |x: VirtualRangeIx|
            x.pos() < st.vlrs.len() && st.vlr(x).cost is Some && st.live(None, x),
    )
}

/// A spill cost as a number: infinity is above all others.
pub open spec fn cost_rank(cost: Option<u32>) -> int {
    match cost {
        Some(c) => c as int,
        None => u32::MAX + 1,
    }
}

/// How much the queue weighs: one for each range in it, and its spill cost.
pub open spec fn weight(queue: Seq<VirtualRangeIx>, vlrs: Seq<VlrView>) -> int
    decreases queue.len(),
{
    if queue.len() == 0 {
        0
    } else {
        weight(queue.drop_last(), vlrs) + cost_rank(vlrs[queue.last().pos()].cost) + 1
    }
}

/// The state `next` is closer to the end than `st`: fewer ranges can be spilled, or as many, and
/// the queue is lighter.
pub open spec fn closer(next: AllocState, st: AllocState) -> bool {
    ||| spillable(next).len() < spillable(st).len()
    ||| spillable(next).len() == spillable(st).len() && weight(next.queue, next.vlrs) < weight(
        st.queue,
        st.vlrs,
    )
}

pub proof fn lemma_weight_bound(queue: Seq<VirtualRangeIx>, vlrs: Seq<VlrView>)
    ensures
        weight(queue, vlrs) >= queue.len(),
    decreases queue.len(),
{
    if queue.len() > 0 {
        lemma_weight_bound(queue.drop_last(), vlrs);
    }
}

proof fn lemma_weight_update(
    queue: Seq<VirtualRangeIx>,
    vlrs: Seq<VlrView>,
    i: int,
    x: VirtualRangeIx,
)
    requires
        0 <= i < queue.len(),
    ensures
        weight(queue.update(i, x), vlrs) == weight(queue, vlrs) - cost_rank(
            vlrs[queue[i].pos()].cost,
        ) + cost_rank(vlrs[x.pos()].cost),
    decreases queue.len(),
{
    if i == queue.len() - 1 {
        assert(queue.update(i, x).drop_last() =~= queue.drop_last());
    } else {
        assert(queue.update(i, x).drop_last() =~= queue.drop_last().update(i, x));
        lemma_weight_update(queue.drop_last(), vlrs, i, x);
    }
}

proof fn lemma_weight_swap_removed(queue: Seq<VirtualRangeIx>, vlrs: Seq<VlrView>, i: int)
    requires
        0 <= i < queue.len(),
    ensures
        weight(swap_removed(queue, i), vlrs) == weight(queue, vlrs) - cost_rank(
            vlrs[queue[i].pos()].cost,
        ) - 1,
{
    lemma_weight_update(queue, vlrs, i, queue.last());
}

proof fn lemma_weight_same(
    queue: Seq<VirtualRangeIx>,
    a: Seq<VlrView>,
    b: Seq<VlrView>,
)
    requires
        forall|i: int|
            0 <= i < queue.len() ==> a[(#[trigger] queue[i]).pos()].cost == b[queue[i].pos()].cost,
    ensures
        weight(queue, a) == weight(queue, b),
    decreases queue.len(),
{
    if queue.len() > 0 {
        assert(queue.last() == queue[queue.len() - 1]);
        assert forall|i: int| 0 <= i < queue.drop_last().len() implies a[(
        #[trigger] queue.drop_last()[i]).pos()].cost == b[queue.drop_last()[i].pos()].cost by {
            assert(queue.drop_last()[i] == queue[i]);
        }
        lemma_weight_same(queue.drop_last(), a, b);
    }
}

pub proof fn lemma_spillable_finite(st: AllocState)
    requires
        st.vlrs.len() <= u32::MAX,
    ensures
        spillable(st).finite(),
{
    let all = all_vlrixs(st.vlrs.len());
    lemma_all_vlrixs(st.vlrs.len());
    vstd::seq_lib::seq_to_set_is_finite(all);
    assert(spillable(st).subset_of(all.to_set())) by {
        assert forall|x: VirtualRangeIx| spillable(st).contains(x) implies all.to_set().contains(
            x,
        ) by {
            assert(all.contains(x));
        }
    }
    vstd::set_lib::lemma_set_subset_finite(all.to_set(), spillable(st));
}

/// Every turn leads closer to the end: a range is placed and the queue is shorter by it, or it is
/// placed and one of lower spill cost comes to the queue for it, or it is spilled and what replaces
/// it can not be spilled again.
pub proof fn lemma_turn_closer<I>(
    setting: Setting<I>,
    fixed: Seq<Set<RangeFragIx>>,
    st: AllocState,
    next: AllocState,
)
    requires
        setting.universe.wf(),
        roles_ok(setting),
        st.inv(setting, fixed, None),
        st.fits(),
        turn(setting, st) == Turn::Next(next),
        next.fits(),
    ensures
        closer(next, st),
        ({
            let q = longest_at(st.queue, st.vlrs);
            let x = st.queue[q];
            ||| {
                &&& spillable(next) == spillable(st)
                &&& next.vlrs.len() == st.vlrs.len()
                &&& next.frags == st.frags
                &&& next.next_slot == st.next_slot
            }
            ||| {
                &&& spillable(st).contains(x)
                &&& spillable(next) == spillable(st).remove(x)
                &&& next == st.taken(q).spilled(setting, x)
            }
        }),
{
    lemma_turn_start(setting, fixed, st);
    let q = longest_at(st.queue, st.vlrs);
    let x = st.queue[q];
    let rest = st.taken(q);
    let vlr = st.vlr(x);
    lemma_taken(setting, fixed, st, q);
    lemma_spillable_finite(st);
    lemma_weight_swap_removed(st.queue, st.vlrs, q);
    let (first, last) = setting.universe.class_range(vlr.vreg.class)->0;
    match first_fit(st.regs, st.frags, vlr, first as int, last as int) {
        Some(i) => {
            let c = choose|c: int|
                is_first_fit(st.regs, st.frags, vlr, first as int, last as int, c);
            assert(is_first_fit(st.regs, st.frags, vlr, first as int, last as int, c));
            lemma_placed(setting, fixed, rest, x, i);
            lemma_same_spillable(st, rest, Some(x), next);
            lemma_weight_same(next.queue, next.vlrs, st.vlrs);
        },
        None => match st.best_site(vlr, first as int, last as int) {
            Some(i) => {
                let c = choose|c: int| st.is_best_site(vlr, first as int, last as int, c);
                assert(st.is_best_site(vlr, first as int, last as int, c));
                assert(rest.can_evict(vlr, i));
                let y = rest.victim(vlr, i);
                assert(y == st.victim(vlr, i));
                lemma_victim(setting, fixed, rest, x, i);
                lemma_released(setting, fixed, rest, Some(x), y, i);
                let mid = rest.released(y, i);
                lemma_placed(setting, fixed, mid, x, i);
                assert(same_code(rest, Some(x), next, None)) by {
                    assert forall|z: VirtualRangeIx| #[trigger]
                        rest.live(Some(x), z) <==> #[trigger] next.live(None, z) by {
                        assert(rest.live(Some(x), z) <==> mid.live(Some(x), z));
                    }
                    assert forall|z: VirtualRangeIx| z.pos() < rest.vlrs.len() implies {
                        &&& (#[trigger] rest.vlr(z)).vreg == (#[trigger] next.vlr(z)).vreg
                        &&& rest.vlr(z).frags == next.vlr(z).frags
                        &&& rest.vlr(z).size == next.vlr(z).size
                        &&& rest.vlr(z).cost == next.vlr(z).cost
                    } by {
                        assert(mid.vlr(z).cost == rest.vlr(z).cost);
                    }
                }
                lemma_same_spillable(st, rest, Some(x), next);
                assert(next.queue.drop_last() =~= rest.queue);
                assert(next.queue.last() == y);
                lemma_weight_same(next.queue, next.vlrs, st.vlrs);
                assert(weight(next.queue, st.vlrs) == weight(rest.queue, st.vlrs) + cost_rank(
                    st.vlr(y).cost,
                ) + 1);
            },
            None => {
                lemma_spilled_live(setting, fixed, rest, x);
                assert(spillable(next) =~= spillable(st).remove(x)) by {
                    assert forall|z: VirtualRangeIx| spillable(next).contains(z) <==> spillable(
                        st,
                    ).remove(x).contains(z) by {
                        assert(next.live(None, z) <==> {
                            ||| rest.live(Some(x), z) && z != x
                            ||| is_new(
                                rest,
                                infos_of(setting, rest, x).len(),
                                z,
                                z.pos() - rest.vlrs.len(),
                            )
                        });
                        assert(st.live(None, z) <==> rest.live(Some(x), z));
                        if z.pos() < st.vlrs.len() {
                            assert(next.vlr(z) == st.vlr(z));
                        } else if z.pos() < next.vlrs.len() {
                            assert(next.vlr(z).cost is None);
                        }
                    }
                }
                assert(st.live(None, x));
                assert(spillable(st).contains(x));
            },
        },
    }
}

proof fn lemma_same_spillable(
    st: AllocState,
    rest: AllocState,
    hand: Option<VirtualRangeIx>,
    next: AllocState,
)
    requires
        same_code(st, None, rest, hand),
        same_code(rest, hand, next, None),
        forall|z: VirtualRangeIx| #[trigger] next.queue.contains(z) ==> z.pos() < next.vlrs.len(),
    ensures
        spillable(next) == spillable(st),
        forall|i: int|
            0 <= i < next.queue.len() ==> next.vlrs[(
            #[trigger] next.queue[i]).pos()].cost == st.vlrs[next.queue[i].pos()].cost,
{
    assert forall|z: VirtualRangeIx| z.pos() < st.vlrs.len() implies (#[trigger] next.vlr(z)).cost
        == st.vlr(z).cost by {
        assert(rest.vlr(z).cost == st.vlr(z).cost);
    }
    assert(spillable(next) =~= spillable(st)) by {
        assert forall|z: VirtualRangeIx| spillable(next).contains(z) <==> spillable(st).contains(
            z,
        ) by {
            assert(st.live(None, z) <==> rest.live(hand, z));
            assert(rest.live(hand, z) <==> next.live(None, z));
        }
    }
    assert forall|i: int|
        0 <= i < next.queue.len() implies next.vlrs[(#[trigger] next.queue[i]).pos()].cost
        == st.vlrs[next.queue[i].pos()].cost by {
        assert(next.queue.contains(next.queue[i]));
        assert(next.vlr(next.queue[i]).cost == st.vlr(next.queue[i]).cost);
    }
}

} // verus!
