//! What can be relied on of a turn of the allocator.

use crate::allocator::{progress, Progress};
use crate::course::{lemma_turn_start, lemma_victim};
use crate::frags::RangeFrag;
use crate::index::{RangeFragIx, TypedIx, VirtualRangeIx};
use crate::plain::{
    can_make_way, comes_next, has_room_for, in_the_way, lemma_class_range, lemma_clear, may_use,
    nth_range, regs_of_class,
};
use crate::prio_queue::{is_longest, lemma_longest_unique, longest_at};
use crate::ranges::{RlrView, VlrView};
use crate::real_reg::{first_removed, is_first_of, lemma_first_removed};
use crate::regs::{RealRegUniverse, RegClass};
use crate::state::{
    comes_to, failure_text, first_fit, fixed_frags, initial_state, is_course, is_first_fit,
    lemma_first_fit_unique, turn, AllocState, Setting, Turn,
};
use vstd::prelude::*;

verus! {

/// `rest` is `queue` without entry `q`, whose place the last entry takes.
pub open spec fn is_queue_without(
    rest: Seq<VirtualRangeIx>,
    queue: Seq<VirtualRangeIx>,
    q: int,
) -> bool {
    &&& rest.len() == queue.len() - 1
    &&& forall|j: int|
        0 <= j < rest.len() ==> #[trigger] rest[j] == (if j == q {
            queue[queue.len() - 1]
        } else {
            queue[j]
        })
}

/// In `b` the ranges are those of `a`, but for the registers of the ranges `x` and `y`.
pub open spec fn same_ranges_but(
    a: Seq<VlrView>,
    b: Seq<VlrView>,
    x: VirtualRangeIx,
    y: VirtualRangeIx,
) -> bool {
    &&& a.len() == b.len()
    &&& forall|z: int|
        0 <= z < a.len() && z != x.ix && z != y.ix ==> #[trigger] b[z] == a[z]
    &&& forall|z: int|
        0 <= z < a.len() ==> {
            &&& (#[trigger] b[z]).vreg == a[z].vreg
            &&& b[z].frags == a[z].frags
            &&& b[z].size == a[z].size
            &&& b[z].cost == a[z].cost
        }
}

/// The range that comes next is the one that the allocator turns to.
proof fn lemma_next<I>(
    setting: Setting<I>,
    fixed: Seq<Set<RangeFragIx>>,
    st: AllocState,
    q: int,
)
    requires
        st.inv(setting, fixed, None),
        comes_next(st, q),
    ensures
        longest_at(st.queue, st.vlrs) == q,
        st.queue[q].pos() < st.vlrs.len(),
        st.taken(q).inv(setting, fixed, Some(st.queue[q])),
        is_queue_without(st.taken(q).queue, st.queue, q),
{
    assert(is_longest(st.queue, st.vlrs, q)) by {
        assert forall|j: int| 0 <= j < st.queue.len() implies st.vlrs[(
        #[trigger] st.queue[j]).pos()].size <= st.vlrs[st.queue[q].pos()].size by {
            assert(st.vlrs[st.queue[j].ix as int].size <= st.vlrs[st.queue[q].ix as int].size);
        }
    }
    lemma_longest_unique(st.queue, st.vlrs, q);
    lemma_turn_start(setting, fixed, st);
}

/// The allocator finds room where there is room.
proof fn lemma_room<I>(
    setting: Setting<I>,
    fixed: Seq<Set<RangeFragIx>>,
    st: AllocState,
    x: VirtualRangeIx,
    i: int,
)
    requires
        setting.universe.wf(),
        st.inv(setting, fixed, None),
        x.pos() < st.vlrs.len(),
        may_use(setting.universe, st.vlr(x), i),
    ensures
        0 <= i < st.regs.len(),
        st.regs[i].fits(st.vlr(x), st.frags) <==> has_room_for(setting, st, st.vlr(x), i),
{
    lemma_class_range(setting.universe, st.vlr(x).vreg.class);
    assert(setting.universe.class_range(st.vlr(x).vreg.class) is Some);
    lemma_clear(setting, fixed, None, st, x, i, st.regs[i].frags);
}

/// The allocator finds those that can make way.
proof fn lemma_way<I>(
    setting: Setting<I>,
    fixed: Seq<Set<RangeFragIx>>,
    st: AllocState,
    x: VirtualRangeIx,
    i: int,
    j: int,
)
    requires
        setting.universe.wf(),
        st.inv(setting, fixed, None),
        x.pos() < st.vlrs.len(),
        may_use(setting.universe, st.vlr(x), i),
    ensures
        0 <= i < st.regs.len(),
        st.regs[i].evictable(st.vlr(x), st.vlrs, st.frags, j) <==> can_make_way(
            setting,
            st,
            st.vlr(x),
            i,
            j,
        ),
        can_make_way(setting, st, st.vlr(x), i, j) ==> st.regs[i].cost_at(st.vlrs, j) == nth_range(
            st,
            i,
            j,
        ).cost->0,
{
    let vlr = st.vlr(x);
    lemma_class_range(setting.universe, vlr.vreg.class);
    assert(setting.universe.class_range(vlr.vreg.class) is Some);
    if 0 <= j < st.regs[i].assigned.len() {
        let cand = nth_range(st, i, j);
        let rest = st.regs[i].frags.difference(cand.frags.to_set());
        assert(cand == st.vlrs[st.regs[i].assigned[j].pos()]);
        lemma_clear(setting, fixed, None, st, x, i, rest);
        assert((forall|f: RangeFragIx| #[trigger]
            rest.contains(f) ==> !in_the_way(st.frags, f, vlr)) <==> (forall|f: RangeFragIx|
            #[trigger] st.regs[i].frags.contains(f) && in_the_way(st.frags, f, vlr)
                ==> cand.frags.contains(f))) by {
            if forall|f: RangeFragIx| #[trigger]
                rest.contains(f) ==> !in_the_way(st.frags, f, vlr) {
                assert forall|f: RangeFragIx| #[trigger]
                    st.regs[i].frags.contains(f) && in_the_way(
                        st.frags,
                        f,
                        vlr,
                    ) implies cand.frags.contains(f) by {
                    assert(rest.contains(f) <==> !cand.frags.contains(f));
                }
            } else {
                let f = choose|f: RangeFragIx| #[trigger]
                    rest.contains(f) && in_the_way(st.frags, f, vlr);
                assert(st.regs[i].frags.contains(f));
                assert(!cand.frags.contains(f));
            }
        }
    }
}

// ---- What comes of a turn

/// The allocator is done when no range waits, and not before.
pub proof fn law_done_when_none_waits<I>(setting: Setting<I>, st: AllocState)
    ensures
        turn(setting, st) is Done <==> st.queue.len() == 0,
{
}

/// A range is refused for its class if the class has no registers, and only then.
pub proof fn law_classes_without_registers<I>(
    setting: Setting<I>,
    fixed: Seq<Set<RangeFragIx>>,
    st: AllocState,
    q: int,
    class: RegClass,
)
    requires
        st.inv(setting, fixed, None),
        comes_next(st, q),
    ensures
        turn(setting, st) == Turn::NoRegsForClass(class) <==> {
            &&& class == st.vlrs[st.queue[q].ix as int].vreg.class
            &&& regs_of_class(setting.universe, class) is None
        },
{
    lemma_next(setting, fixed, st, q);
    lemma_class_range(setting.universe, st.vlr(st.queue[q]).vreg.class);
}

/// The longest range that waits goes to the first register that has room for it, if any has. It
/// leaves the queue, the register is committed to its fragments too, and nothing else changes.
pub proof fn law_first_register_with_room<I>(
    setting: Setting<I>,
    fixed: Seq<Set<RangeFragIx>>,
    st: AllocState,
    q: int,
    i: int,
) -> (next: AllocState)
    requires
        setting.universe.wf(),
        st.inv(setting, fixed, None),
        comes_next(st, q),
        has_room_for(setting, st, st.vlrs[st.queue[q].ix as int], i),
        forall|j: int| #[trigger]
            has_room_for(setting, st, st.vlrs[st.queue[q].ix as int], j) ==> i <= j,
    ensures
        turn(setting, st) == Turn::Next(next),
        ({
            let x = st.queue[q];
            let vlr = st.vlrs[x.ix as int];
            &&& is_queue_without(next.queue, st.queue, q)
            &&& same_ranges_but(st.vlrs, next.vlrs, x, x)
            &&& next.vlrs[x.ix as int].rreg == Some(setting.universe.regs@[i].0)
            &&& next.regs.len() == st.regs.len()
            &&& forall|j: int|
                0 <= j < st.regs.len() && j != i ==> #[trigger] next.regs[j] == st.regs[j]
            &&& next.regs[i].assigned == st.regs[i].assigned.push(x)
            &&& forall|f: RangeFragIx| #[trigger]
                next.regs[i].frags.contains(f) <==> st.regs[i].frags.contains(f)
                    || vlr.frags.contains(f)
            &&& next.frags == st.frags
            &&& next.edits == st.edits
            &&& next.next_slot == st.next_slot
        }),
{
    lemma_next(setting, fixed, st, q);
    let x = st.queue[q];
    let vlr = st.vlr(x);
    lemma_class_range(setting.universe, vlr.vreg.class);
    let (first, last) = regs_of_class(setting.universe, vlr.vreg.class)->0;
    lemma_room(setting, fixed, st, x, i);
    assert(is_first_fit(st.regs, st.frags, vlr, first as int, last as int, i)) by {
        assert forall|j: int| first <= j < i implies !(#[trigger] st.regs[j]).fits(
            vlr,
            st.frags,
        ) by {
            lemma_room(setting, fixed, st, x, j);
        }
    }
    lemma_first_fit_unique(st.regs, st.frags, vlr, first as int, last as int, i);
    st.taken(q).placed(x, i, setting.universe.reg_seq()[i])
}

/// Where no register has room, none is found.
proof fn lemma_no_room<I>(
    setting: Setting<I>,
    fixed: Seq<Set<RangeFragIx>>,
    st: AllocState,
    x: VirtualRangeIx,
    first: int,
    last: int,
)
    requires
        setting.universe.wf(),
        st.inv(setting, fixed, None),
        x.pos() < st.vlrs.len(),
        regs_of_class(setting.universe, st.vlr(x).vreg.class) matches Some((a, b)) && first == a
            && last == b,
        forall|i: int| !#[trigger] has_room_for(setting, st, st.vlr(x), i),
    ensures
        first_fit(st.regs, st.frags, st.vlr(x), first, last) is None,
{
    assert forall|i: int| !is_first_fit(st.regs, st.frags, st.vlr(x), first, last, i) by {
        if first <= i <= last {
            lemma_room(setting, fixed, st, x, i);
            assert(!has_room_for(setting, st, st.vlr(x), i));
        }
    }
}

/// Of the positions from `lo` up to `hi` that will do, one is the cheapest, and the last of these.
pub proof fn lemma_last_cheapest(
    will_do: spec_fn(int) -> bool,
    cost: spec_fn(int) -> int,
    lo: int,
    hi: int,
    some: int,
) -> (best: int)
    requires
        lo <= some < hi,
        will_do(some),
    ensures
        lo <= best < hi,
        will_do(best),
        forall|j: int|
            lo <= j < hi && #[trigger] will_do(j) ==> cost(best) <= cost(j) && (best < j ==> cost(
                best,
            ) < cost(j)),
    decreases hi - lo,
{
    if forall|j: int| lo <= j < hi - 1 ==> !#[trigger] will_do(j) {
        hi - 1
    } else {
        let other = choose|j: int| lo <= j < hi - 1 && #[trigger] will_do(j);
        let best = lemma_last_cheapest(will_do, cost, lo, hi - 1, other);
        if will_do(hi - 1) && cost(hi - 1) <= cost(best) {
            hi - 1
        } else {
            best
        }
    }
}

/// Of all ranges, in all registers, that can make way for `vlr`, the one at position `j` of
/// register `i` is the cheapest. Where several cost the same it is in the last of their registers,
/// and at the last position there.
pub open spec fn is_cheapest<I>(
    setting: Setting<I>,
    st: AllocState,
    vlr: VlrView,
    i: int,
    j: int,
) -> bool {
    &&& can_make_way(setting, st, vlr, i, j)
    &&& forall|i2: int, j2: int| #[trigger]
        can_make_way(setting, st, vlr, i2, j2) ==> {
            let cost = nth_range(st, i, j).cost->0;
            let cost2 = nth_range(st, i2, j2).cost->0;
            &&& cost <= cost2
            &&& i < i2 ==> cost < cost2
            &&& i == i2 && j < j2 ==> cost < cost2
        }
}

/// Where some range can make way, the cheapest one is found.
proof fn lemma_finds_cheapest<I>(
    setting: Setting<I>,
    fixed: Seq<Set<RangeFragIx>>,
    st: AllocState,
    x: VirtualRangeIx,
    first: int,
    last: int,
    i0: int,
    j0: int,
) -> (r: (int, int))
    requires
        setting.universe.wf(),
        st.inv(setting, fixed, None),
        x.pos() < st.vlrs.len(),
        regs_of_class(setting.universe, st.vlr(x).vreg.class) matches Some((a, b)) && first == a
            && last == b,
        can_make_way(setting, st, st.vlr(x), i0, j0),
    ensures
        st.best_site(st.vlr(x), first, last) == Some(r.0),
        is_cheapest(setting, st, st.vlr(x), r.0, r.1),
        0 <= r.0 < st.regs.len(),
        st.victim(st.vlr(x), r.0) == st.regs[r.0].assigned[r.1],
{
    let vlr = st.vlr(x);
    // The cheapest one in a register.
    assert forall|i: int, j: int| #[trigger] can_make_way(setting, st, vlr, i, j) implies {
        &&& st.can_evict(vlr, i)
    } by {
        lemma_way(setting, fixed, st, x, i, j);
        let reg = st.regs[i];
        let will_do = |k: int| reg.evictable(vlr, st.vlrs, st.frags, k);
        let cost = |k: int| reg.cost_at(st.vlrs, k) as int;
        let best = lemma_last_cheapest(will_do, cost, 0, reg.assigned.len() as int, j);
        assert(reg.is_best_evict(vlr, st.vlrs, st.frags, best)) by {
            assert forall|k: int| #[trigger] reg.evictable(vlr, st.vlrs, st.frags, k) implies {
                &&& reg.cost_at(st.vlrs, best) <= reg.cost_at(st.vlrs, k)
                &&& best < k ==> reg.cost_at(st.vlrs, best) < reg.cost_at(st.vlrs, k)
            } by {
                assert(will_do(k));
            }
        }
    }
    // The cheapest of these.
    let will_do = |i: int| st.can_evict(vlr, i);
    let cost = |i: int| st.evict_cost(vlr, i) as int;
    assert(will_do(i0));
    let i = lemma_last_cheapest(will_do, cost, first, last + 1, i0);
    assert(st.is_best_site(vlr, first, last, i)) by {
        assert forall|k: int| first <= k <= last && #[trigger] st.can_evict(vlr, k) implies {
            &&& st.evict_cost(vlr, i) <= st.evict_cost(vlr, k)
            &&& i < k ==> st.evict_cost(vlr, i) < st.evict_cost(vlr, k)
        } by {
            assert(will_do(k));
        }
    }
    st.lemma_best_site_unique(vlr, first, last, i);
    let reg = st.regs[i];
    let j = reg.best_evict(vlr, st.vlrs, st.frags)->0;
    assert(will_do(i));
    let c = choose|c: int| reg.is_best_evict(vlr, st.vlrs, st.frags, c);
    assert(reg.is_best_evict(vlr, st.vlrs, st.frags, c));
    assert(j == c);
    lemma_way(setting, fixed, st, x, i, j);
    assert forall|i2: int, j2: int| #[trigger] can_make_way(setting, st, vlr, i2, j2) implies {
        let cost = nth_range(st, i, j).cost->0;
        let cost2 = nth_range(st, i2, j2).cost->0;
        &&& cost <= cost2
        &&& i < i2 ==> cost < cost2
        &&& i == i2 && j < j2 ==> cost < cost2
    } by {
        assert(st.can_evict(vlr, i2));
        lemma_way(setting, fixed, st, x, i2, j2);
        let reg2 = st.regs[i2];
        let c2 = choose|c: int| reg2.is_best_evict(vlr, st.vlrs, st.frags, c);
        assert(reg2.is_best_evict(vlr, st.vlrs, st.frags, c2));
        assert(reg2.evictable(vlr, st.vlrs, st.frags, j2));
        assert(st.evict_cost(vlr, i2) <= reg2.cost_at(st.vlrs, j2));
        assert(first <= i2 <= last);
    }
    (i, j)
}

/// A range for which no register has room takes the place of the cheapest range that can make way
/// for it, over all registers that it may use. That range goes back to the queue, and nothing else
/// changes.
pub proof fn law_cheapest_range_makes_way<I>(
    setting: Setting<I>,
    fixed: Seq<Set<RangeFragIx>>,
    st: AllocState,
    q: int,
    i0: int,
    j0: int,
) -> (r: (int, int, AllocState))
    requires
        setting.universe.wf(),
        st.inv(setting, fixed, None),
        comes_next(st, q),
        forall|i: int| !#[trigger] has_room_for(setting, st, st.vlrs[st.queue[q].ix as int], i),
        can_make_way(setting, st, st.vlrs[st.queue[q].ix as int], i0, j0),
    ensures
        is_cheapest(setting, st, st.vlrs[st.queue[q].ix as int], r.0, r.1),
        turn(setting, st) == Turn::Next(r.2),
        ({
            let x = st.queue[q];
            let (i, j, next) = r;
            let y = st.regs[i].assigned[j];
            let vlr = st.vlrs[x.ix as int];
            let out = st.vlrs[y.ix as int];
            let n = st.queue.len() - 1;
            let m = st.regs[i].assigned.len() - 1;
            &&& x != y
            &&& next.queue.len() == n + 1
            &&& is_queue_without(next.queue.take(n), st.queue, q)
            &&& next.queue[n] == y
            &&& same_ranges_but(st.vlrs, next.vlrs, x, y)
            &&& next.vlrs[x.ix as int].rreg == Some(setting.universe.regs@[i].0)
            &&& next.vlrs[y.ix as int].rreg is None
            &&& next.regs.len() == st.regs.len()
            &&& forall|k: int|
                0 <= k < st.regs.len() && k != i ==> #[trigger] next.regs[k] == st.regs[k]
            &&& next.regs[i].assigned.len() == m + 1
            &&& is_queue_without(next.regs[i].assigned.take(m), st.regs[i].assigned, j)
            &&& next.regs[i].assigned[m] == x
            &&& forall|f: RangeFragIx| #[trigger]
                next.regs[i].frags.contains(f) <==> vlr.frags.contains(f)
                    || st.regs[i].frags.contains(f) && !out.frags.contains(f)
            &&& next.frags == st.frags
            &&& next.edits == st.edits
            &&& next.next_slot == st.next_slot
        }),
{
    lemma_next(setting, fixed, st, q);
    let x = st.queue[q];
    let vlr = st.vlr(x);
    lemma_class_range(setting.universe, vlr.vreg.class);
    let (first, last) = regs_of_class(setting.universe, vlr.vreg.class)->0;
    lemma_no_room(setting, fixed, st, x, first as int, last as int);
    let (i, j) = lemma_finds_cheapest(
        setting,
        fixed,
        st,
        x,
        first as int,
        last as int,
        i0,
        j0,
    );
    let y = st.regs[i].assigned[j];
    let rest = st.taken(q);
    let freed = rest.released(y, i);
    let next = freed.placed(x, i, setting.universe.reg_seq()[i]);
    assert(st.regs[i].assigned.contains(y));
    assert(st.at_reg(y, i));
    assert(st.queue.contains(x));
    assert(x != y);
    assert(x.ix != y.ix);
    assert(is_first_of(st.regs[i].assigned, y, j)) by {
        assert(st.regs[i].assigned.no_duplicates());
    }
    lemma_first_removed(st.regs[i].assigned, y, j);
    assert(next.queue.take(st.queue.len() - 1) =~= rest.queue);
    assert(next.regs[i].assigned.take(st.regs[i].assigned.len() - 1) =~= first_removed(
        st.regs[i].assigned,
        y,
    ));
    assert(freed.vlrs[x.pos()] == st.vlrs[x.pos()]);
    (i, j, next)
}

/// A range for which no register has room, and no other range can make way, is spilled if its spill
/// cost is finite, and ends the allocation if it is not.
pub proof fn law_spilled_or_given_up<I>(
    setting: Setting<I>,
    fixed: Seq<Set<RangeFragIx>>,
    st: AllocState,
    q: int,
)
    requires
        setting.universe.wf(),
        st.inv(setting, fixed, None),
        comes_next(st, q),
        regs_of_class(setting.universe, st.vlrs[st.queue[q].ix as int].vreg.class) is Some,
        forall|i: int| !#[trigger] has_room_for(setting, st, st.vlrs[st.queue[q].ix as int], i),
        forall|i: int, j: int| !#[trigger]
            can_make_way(setting, st, st.vlrs[st.queue[q].ix as int], i, j),
    ensures
        st.vlrs[st.queue[q].ix as int].cost is None ==> turn(setting, st) is OutOfRegs,
        st.vlrs[st.queue[q].ix as int].cost is Some ==> turn(setting, st) == Turn::Next(
            st.taken(q).spilled(setting, st.queue[q]),
        ),
{
    lemma_next(setting, fixed, st, q);
    let x = st.queue[q];
    let vlr = st.vlr(x);
    lemma_class_range(setting.universe, vlr.vreg.class);
    let (first, last) = regs_of_class(setting.universe, vlr.vreg.class)->0;
    lemma_no_room(setting, fixed, st, x, first as int, last as int);
    assert forall|i: int| !st.is_best_site(vlr, first as int, last as int, i) by {
        if first <= i <= last && st.can_evict(vlr, i) {
            let reg = st.regs[i];
            let c = choose|c: int| reg.is_best_evict(vlr, st.vlrs, st.frags, c);
            assert(reg.is_best_evict(vlr, st.vlrs, st.frags, c));
            lemma_way(setting, fixed, st, x, i, c);
            assert(!can_make_way(setting, st, vlr, i, c));
        }
    }
}

/// Where the allocator is out of registers, the range in question is of infinite spill cost, no
/// register that it may use has room for it, and no range in any of these can make way for it. So a
/// range of finite spill cost never ends the allocation in this way.
pub proof fn law_out_of_registers<I>(
    setting: Setting<I>,
    fixed: Seq<Set<RangeFragIx>>,
    st: AllocState,
    q: int,
)
    requires
        setting.universe.wf(),
        st.inv(setting, fixed, None),
        comes_next(st, q),
        turn(setting, st) is OutOfRegs,
    ensures
        st.vlrs[st.queue[q].ix as int].cost is None,
        regs_of_class(setting.universe, st.vlrs[st.queue[q].ix as int].vreg.class) is Some,
        forall|i: int| !#[trigger] has_room_for(setting, st, st.vlrs[st.queue[q].ix as int], i),
        forall|i: int, j: int| !#[trigger]
            can_make_way(setting, st, st.vlrs[st.queue[q].ix as int], i, j),
{
    lemma_next(setting, fixed, st, q);
    let x = st.queue[q];
    let vlr = st.vlr(x);
    lemma_class_range(setting.universe, vlr.vreg.class);
    let (first, last) = regs_of_class(setting.universe, vlr.vreg.class)->0;
    assert forall|i: int| !#[trigger] has_room_for(setting, st, vlr, i) by {
        if has_room_for(setting, st, vlr, i) {
            let roomy = |k: int| has_room_for(setting, st, vlr, k);
            let k = lemma_least(roomy, first as int, i);
            assert(roomy(k));
            assert forall|j: int| #[trigger] has_room_for(setting, st, vlr, j) implies k <= j by {
                if first <= j < k {
                    assert(!roomy(j));
                }
            }
            let next = law_first_register_with_room(setting, fixed, st, q, k);
        }
    }
    assert forall|i: int, j: int| !#[trigger] can_make_way(setting, st, vlr, i, j) by {
        if can_make_way(setting, st, vlr, i, j) {
            let r = law_cheapest_range_makes_way(setting, fixed, st, q, i, j);
        }
    }
    law_spilled_or_given_up(setting, fixed, st, q);
}

/// What is told of a turn is what has happened: a range that is told to be placed has got the
/// register in question, which no other range has lost or got; one that is told to take the place
/// of another has got the register that the other had, and the other has none; one that is told to
/// be spilled has none, and the tables have grown within their limits; and where nothing is told to
/// have happened to a range, there is no way on, or none within the limits.
pub proof fn law_turns_are_told_as_they_went<I>(
    setting: Setting<I>,
    fixed: Seq<Set<RangeFragIx>>,
    st: AllocState,
    q: int,
)
    requires
        setting.universe.wf(),
        st.inv(setting, fixed, None),
        st.queue.len() > 0 ==> comes_next(st, q),
    ensures
        match progress(setting, st) {
            Progress::Done => st.queue.len() == 0,
            Progress::Placed { vlrix, rreg } => {
                &&& st.queue.len() > 0 && vlrix == st.queue[q]
                &&& turn(setting, st) matches Turn::Next(next) && {
                    &&& same_ranges_but(st.vlrs, next.vlrs, vlrix, vlrix)
                    &&& next.vlrs[vlrix.ix as int].rreg == Some(rreg)
                    &&& next.edits == st.edits
                }
            },
            Progress::Replaced { vlrix, evicted, rreg } => {
                &&& st.queue.len() > 0 && vlrix == st.queue[q]
                &&& vlrix != evicted
                &&& turn(setting, st) matches Turn::Next(next) && {
                    &&& same_ranges_but(st.vlrs, next.vlrs, vlrix, evicted)
                    &&& next.vlrs[vlrix.ix as int].rreg == Some(rreg)
                    &&& st.vlrs[evicted.ix as int].rreg == Some(rreg)
                    &&& next.vlrs[evicted.ix as int].rreg is None
                    &&& next.edits == st.edits
                }
            },
            Progress::Spilled { vlrix } => {
                &&& st.queue.len() > 0 && vlrix == st.queue[q]
                &&& st.vlrs[vlrix.ix as int].cost is Some
                &&& turn(setting, st) matches Turn::Next(next) && {
                    &&& next == st.taken(q).spilled(setting, vlrix)
                    &&& next.fits()
                }
            },
            Progress::OverLimit { vlrix } => {
                &&& st.queue.len() > 0 && vlrix == st.queue[q]
                &&& st.vlrs[vlrix.ix as int].cost is Some
                &&& turn(setting, st) matches Turn::Next(next) && {
                    &&& next == st.taken(q).spilled(setting, vlrix)
                    &&& !next.fits()
                }
            },
            Progress::NoRegsForClass { vlrix, class } => {
                &&& st.queue.len() > 0 && vlrix == st.queue[q]
                &&& turn(setting, st) == Turn::NoRegsForClass(class)
            },
            Progress::OutOfRegs { vlrix } => {
                &&& st.queue.len() > 0 && vlrix == st.queue[q]
                &&& turn(setting, st) is OutOfRegs
            },
        },
{
    if st.queue.len() > 0 {
        lemma_next(setting, fixed, st, q);
        let x = st.queue[q];
        let vlr = st.vlr(x);
        let rest = st.taken(q);
        if let Progress::Replaced { vlrix, evicted, rreg } = progress(setting, st) {
            let (first, last) = setting.universe.class_range(vlr.vreg.class)->0;
            let i = st.best_site(vlr, first as int, last as int)->0;
            let c = choose|c: int| st.is_best_site(vlr, first as int, last as int, c);
            assert(st.is_best_site(vlr, first as int, last as int, c));
            assert(i == c);
            assert(rest.can_evict(vlr, i));
            lemma_victim(setting, fixed, rest, x, i);
            assert(rest.at_reg(evicted, i));
            assert(st.at_reg(evicted, i));
            assert(st.queue.contains(x));
            assert(x.ix != evicted.ix);
        }
    }
}

/// The tables and the spill area are within their limits if an index of 32 bits can tell how large
/// they are.
pub proof fn law_limits_are_those_of_indices(st: AllocState)
    ensures
        st.fits() <==> st.vlrs.len() <= 0xffff_ffff && st.frags.len() <= 0xffff_ffff && st.next_slot
            <= 0xffff_ffff,
{
}

/// At the start all ranges wait, in their order, and each allocable register is committed to the
/// fragments over which the client uses it, and to no others. Nothing is assigned or ordered, and
/// no slot is taken.
pub proof fn law_how_the_allocator_starts(
    universe: RealRegUniverse,
    rlrs: Seq<RlrView>,
    vlrs: Seq<VlrView>,
    frags: Seq<RangeFrag>,
)
    requires
        vlrs.len() <= u32::MAX,
    ensures
        ({
            let st = initial_state(universe, rlrs, vlrs, frags);
            &&& st.queue.len() == vlrs.len()
            &&& forall|j: int| 0 <= j < vlrs.len() ==> (#[trigger] st.queue[j]).ix == j
            &&& st.regs.len() == universe.allocable
            &&& forall|i: int|
                0 <= i < universe.allocable ==> (#[trigger] st.regs[i]).assigned.len() == 0
            &&& forall|i: int, f: RangeFragIx|
                0 <= i < universe.allocable ==> (#[trigger] st.regs[i].frags.contains(f)
                    <==> exists|a: int, j: int|
                    0 <= a < rlrs.len() && rlrs[a].rreg.index == i && 0 <= j < rlrs[a].frags.len()
                        && #[trigger] rlrs[a].frags[j] == f)
            &&& st.vlrs == vlrs
            &&& st.frags == frags
            &&& st.edits.len() == 0
            &&& st.next_slot == 0
        }),
{
    let st = initial_state(universe, rlrs, vlrs, frags);
    assert forall|i: int, f: RangeFragIx| 0 <= i < universe.allocable implies (
    #[trigger] st.regs[i].frags.contains(f) <==> exists|a: int, j: int|
        0 <= a < rlrs.len() && rlrs[a].rreg.index == i && 0 <= j < rlrs[a].frags.len()
            && #[trigger] rlrs[a].frags[j] == f) by {
        assert(st.regs[i].frags == fixed_frags(rlrs, i));
        if fixed_frags(rlrs, i).contains(f) {
            let a = choose|a: int|
                0 <= a < rlrs.len() && (#[trigger] rlrs[a]).rreg.index == i
                    && rlrs[a].frags.contains(f);
            let j = choose|j: int| 0 <= j < rlrs[a].frags.len() && rlrs[a].frags[j] == f;
            assert(rlrs[a].frags[j] == f);
        }
        if exists|a: int, j: int|
            0 <= a < rlrs.len() && rlrs[a].rreg.index == i && 0 <= j < rlrs[a].frags.len()
                && #[trigger] rlrs[a].frags[j] == f {
            let (a, j) = choose|a: int, j: int|
                0 <= a < rlrs.len() && rlrs[a].rreg.index == i && 0 <= j < rlrs[a].frags.len()
                    && #[trigger] rlrs[a].frags[j] == f;
            assert(rlrs[a].frags.contains(f));
        }
    }
}

/// A course ends only where there is no way on: the allocator has gone from each state on it to the
/// next by a turn, and the last one is a state in which no range waits, or in which the range that
/// comes next can not be allocated.
pub proof fn law_a_course_is_run_to_its_end<I>(
    setting: Setting<I>,
    start: AllocState,
    st: AllocState,
) -> (trace: Seq<AllocState>)
    requires
        comes_to(setting, start, st),
    ensures
        trace.len() > 0,
        trace[0] == start,
        trace[trace.len() - 1] == st,
        forall|i: int|
            0 <= i < trace.len() - 1 ==> turn(setting, #[trigger] trace[i]) == Turn::Next(
                trace[i + 1],
            ),
        turn(setting, st) !is Next,
{
    choose|trace: Seq<AllocState>| #[trigger]
        is_course(setting, trace) && trace.first() == start && trace.last() == st
}

/// The texts that tell why there is no way on.
pub proof fn law_what_failures_are_called()
    ensures
        failure_text(Turn::OutOfRegs) == "out of registers"@,
        failure_text(Turn::NoRegsForClass(RegClass::I32))
            == "no available registers for class I32"@,
        failure_text(Turn::NoRegsForClass(RegClass::F32))
            == "no available registers for class F32"@,
        failure_text(Turn::NoRegsForClass(RegClass::I64))
            == "no available registers for class I64"@,
        failure_text(Turn::NoRegsForClass(RegClass::F64))
            == "no available registers for class F64"@,
        failure_text(Turn::NoRegsForClass(RegClass::V128))
            == "no available registers for class V128"@,
{
    reveal_strlit("no available registers for class ");
    reveal_strlit("no available registers for class I32");
    reveal_strlit("no available registers for class F32");
    reveal_strlit("no available registers for class I64");
    reveal_strlit("no available registers for class F64");
    reveal_strlit("no available registers for class V128");
    reveal_strlit("I32");
    reveal_strlit("F32");
    reveal_strlit("I64");
    reveal_strlit("F64");
    reveal_strlit("V128");
    assert(failure_text(Turn::NoRegsForClass(RegClass::I32))
        =~= "no available registers for class I32"@);
    assert(failure_text(Turn::NoRegsForClass(RegClass::F32))
        =~= "no available registers for class F32"@);
    assert(failure_text(Turn::NoRegsForClass(RegClass::I64))
        =~= "no available registers for class I64"@);
    assert(failure_text(Turn::NoRegsForClass(RegClass::F64))
        =~= "no available registers for class F64"@);
    assert(failure_text(Turn::NoRegsForClass(RegClass::V128))
        =~= "no available registers for class V128"@);
}

/// From `lo` on there is a first that will do.
proof fn lemma_least(will_do: spec_fn(int) -> bool, lo: int, some: int) -> (least: int)
    requires
        lo <= some,
        will_do(some),
    ensures
        lo <= least <= some,
        will_do(least),
        forall|j: int| lo <= j < least ==> !#[trigger] will_do(j),
    decreases some - lo,
{
    if exists|j: int| lo <= j < some && #[trigger] will_do(j) {
        let j = choose|j: int| lo <= j < some && #[trigger] will_do(j);
        lemma_least(will_do, lo, j)
    } else {
        some
    }
}

} // verus!
