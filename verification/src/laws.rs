//! What can be relied on of the allocator as a whole.

use crate::course::{
    all_fixed, input_ok, lemma_reaches_inv, lemma_turn_closer, lemma_turn_start, lemma_victim,
    lemma_weight_bound, spillable, stays_within_limits, weight,
};
use crate::frags::{frags_sorted, RangeFrag};
use crate::index::{RangeFragIx, TypedIx, VirtualRangeIx};
use crate::outcome::{lemma_placement_from, lemma_sites, placements, sites, Site};
use crate::prio_queue::{is_longest, longest_at};
use crate::ranges::{cost_less, lemma_rounded_up, RlrView, VlrView};
use crate::real_reg::{first_removed, is_first_of, lemma_first_removed, RegView};
use crate::regs::{RealRegUniverse, RegClass};
use crate::safety::{lemma_first_removed_members, lemma_pushed_members};
use crate::state::{
    comes_to, first_fit, fixed_frags, initial_state, is_course, is_first_fit, lemma_reaches_induct,
    lemma_reaches_next, lemma_reaches_start, reaches, turn, AllocState, Setting, Turn,
};
use vstd::prelude::*;

verus! {

/// On input that is as it should be, the allocator gets to `st`.
pub open spec fn gets_to<I>(
    setting: Setting<I>,
    rlrs: Seq<RlrView>,
    vlrs: Seq<VlrView>,
    frags: Seq<RangeFrag>,
    st: AllocState,
) -> bool {
    let start = initial_state(setting.universe, rlrs, vlrs, frags);
    &&& input_ok(setting, rlrs, vlrs, frags)
    &&& stays_within_limits(setting, start)
    &&& reaches(setting, start, st)
}

/// The ways in which a turn can lead on.
pub enum Move {
    /// Range `x` goes to register `i`, which has room for it.
    Place { x: VirtualRangeIx, i: int },
    /// Range `x` goes to register `i`, where `y` makes way for it.
    Replace { x: VirtualRangeIx, y: VirtualRangeIx, i: int },
    /// Range `x` is spilled.
    Spill { x: VirtualRangeIx },
}

/// Register `i` is one that a class may use.
pub open spec fn in_class(universe: RealRegUniverse, class: RegClass, i: int) -> bool {
    universe.class_range(class) matches Some((first, last)) && first <= i <= last
}

impl Move {
    /// The range that the turn is about.
    pub open spec fn subject(self) -> VirtualRangeIx {
        match self {
            Move::Place { x, i } => x,
            Move::Replace { x, y, i } => x,
            Move::Spill { x } => x,
        }
    }

    /// The move leads from `st` to `next`.
    pub open spec fn leads<I>(self, setting: Setting<I>, st: AllocState, next: AllocState) -> bool {
        let q = longest_at(st.queue, st.vlrs);
        let rest = st.taken(q);
        &&& is_longest(st.queue, st.vlrs, q)
        &&& self.subject() == st.queue[q]
        &&& self.subject().pos() < st.vlrs.len()
        &&& match self {
            Move::Place { x, i } => {
                &&& in_class(setting.universe, st.vlr(x).vreg.class, i)
                &&& 0 <= i < st.regs.len()
                &&& st.regs[i].fits(st.vlr(x), st.frags)
                &&& next == rest.placed(x, i, setting.universe.reg_seq()[i])
            },
            Move::Replace { x, y, i } => {
                &&& in_class(setting.universe, st.vlr(x).vreg.class, i)
                &&& 0 <= i < st.regs.len()
                &&& st.at_reg(y, i)
                &&& y != x
                &&& y.pos() < st.vlrs.len()
                &&& st.vlr(y).cost is Some
                &&& cost_less(st.vlr(y).cost, st.vlr(x).cost)
                &&& rest.released(y, i).regs[i].fits(st.vlr(x), st.frags)
                &&& next == rest.released(y, i).placed(x, i, setting.universe.reg_seq()[i])
            },
            Move::Spill { x } => {
                &&& st.vlr(x).cost is Some
                &&& next == rest.spilled(setting, x)
            },
        }
    }
}

/// Each turn that leads on places the longest range of the queue in a register of its class that
/// has room for it, or in one where a range of lower, finite spill cost makes way for it, or
/// spills it, and then its spill cost is finite.
pub proof fn law_moves<I>(
    setting: Setting<I>,
    fixed: Seq<Set<RangeFragIx>>,
    st: AllocState,
    next: AllocState,
) -> (m: Move)
    requires
        setting.universe.wf(),
        st.inv(setting, fixed, None),
        turn(setting, st) == Turn::Next(next),
    ensures
        m.leads(setting, st, next),
{
    lemma_turn_start(setting, fixed, st);
    let q = longest_at(st.queue, st.vlrs);
    let x = st.queue[q];
    let rest = st.taken(q);
    let vlr = st.vlr(x);
    let (first, last) = setting.universe.class_range(vlr.vreg.class)->0;
    assert(setting.universe.class_range(vlr.vreg.class) is Some);
    match first_fit(st.regs, st.frags, vlr, first as int, last as int) {
        Some(i) => {
            let c = choose|c: int|
                is_first_fit(st.regs, st.frags, vlr, first as int, last as int, c);
            assert(is_first_fit(st.regs, st.frags, vlr, first as int, last as int, c));
            Move::Place { x, i }
        },
        None => match st.best_site(vlr, first as int, last as int) {
            Some(i) => {
                let c = choose|c: int| st.is_best_site(vlr, first as int, last as int, c);
                assert(st.is_best_site(vlr, first as int, last as int, c));
                assert(rest.can_evict(vlr, i));
                let y = rest.victim(vlr, i);
                assert(y == st.victim(vlr, i));
                lemma_victim(setting, fixed, rest, x, i);
                assert(rest.at_reg(y, i));
                assert(st.at_reg(y, i));
                Move::Replace { x, y, i }
            },
            None => Move::Spill { x },
        },
    }
}

// ---- Coming to an end

/// The allocator always comes to an end: to a state in which every range has a register, or one in
/// which some range can not get any.
pub proof fn law_comes_to_an_end<I>(
    setting: Setting<I>,
    rlrs: Seq<RlrView>,
    vlrs: Seq<VlrView>,
    frags: Seq<RangeFrag>,
) -> (st: AllocState)
    requires
        input_ok(setting, rlrs, vlrs, frags),
        stays_within_limits(setting, initial_state(setting.universe, rlrs, vlrs, frags)),
    ensures
        comes_to(setting, initial_state(setting.universe, rlrs, vlrs, frags), st),
{
    let start = initial_state(setting.universe, rlrs, vlrs, frags);
    lemma_reaches_start(setting, start);
    lemma_ends_from(setting, rlrs, vlrs, frags, start)
}

proof fn lemma_ends_from<I>(
    setting: Setting<I>,
    rlrs: Seq<RlrView>,
    vlrs: Seq<VlrView>,
    frags: Seq<RangeFrag>,
    st: AllocState,
) -> (end: AllocState)
    requires
        gets_to(setting, rlrs, vlrs, frags, st),
    ensures
        comes_to(setting, initial_state(setting.universe, rlrs, vlrs, frags), end),
    decreases spillable(st).len(), weight(st.queue, st.vlrs),
{
    let start = initial_state(setting.universe, rlrs, vlrs, frags);
    let fixed = all_fixed(setting, rlrs);
    match turn(setting, st) {
        Turn::Next(next) => {
            lemma_reaches_inv(setting, rlrs, vlrs, frags, st);
            lemma_reaches_next(setting, start, st, next);
            assert(st.fits() && next.fits());
            lemma_turn_closer(setting, fixed, st, next);
            lemma_weight_bound(next.queue, next.vlrs);
            lemma_ends_from(setting, rlrs, vlrs, frags, next)
        },
        _ => st,
    }
}

/// The allocator comes to one end only.
pub proof fn law_outcome_is_determined<I>(
    setting: Setting<I>,
    start: AllocState,
    a: AllocState,
    b: AllocState,
)
    requires
        comes_to(setting, start, a),
        comes_to(setting, start, b),
    ensures
        a == b,
{
    let s = choose|s: Seq<AllocState>| #[trigger]
        is_course(setting, s) && s.first() == start && s.last() == a;
    let t = choose|t: Seq<AllocState>| #[trigger]
        is_course(setting, t) && t.first() == start && t.last() == b;
    let n = if s.len() <= t.len() {
        s.len() - 1
    } else {
        t.len() - 1
    };
    lemma_same_course(setting, s, t, n);
    if s.len() < t.len() {
        assert(turn(setting, t[n]) == Turn::Next(t[n + 1]));
    } else if t.len() < s.len() {
        assert(turn(setting, s[n]) == Turn::Next(s[n + 1]));
    }
}

proof fn lemma_same_course<I>(
    setting: Setting<I>,
    s: Seq<AllocState>,
    t: Seq<AllocState>,
    n: int,
)
    requires
        is_course(setting, s),
        is_course(setting, t),
        s[0] == t[0],
        0 <= n < s.len(),
        n < t.len(),
    ensures
        s[n] == t[n],
    decreases n,
{
    if n > 0 {
        lemma_same_course(setting, s, t, n - 1);
        assert(turn(setting, s[n - 1]) == Turn::Next(s[n - 1 + 1]));
        assert(turn(setting, t[n - 1]) == Turn::Next(t[n - 1 + 1]));
    }
}

// ---- What stays as it is

/// Of `a` nothing is lost in `b`: the ranges are the same but for the registers that they are
/// tagged with, and more ranges, fragments and orders only come behind the ones that there are.
pub open spec fn kept(a: AllocState, b: AllocState) -> bool {
    &&& a.vlrs.len() <= b.vlrs.len()
    &&& forall|x: int|
        0 <= x < a.vlrs.len() ==> {
            &&& (#[trigger] b.vlrs[x]).vreg == a.vlrs[x].vreg
            &&& b.vlrs[x].frags == a.vlrs[x].frags
            &&& b.vlrs[x].size == a.vlrs[x].size
            &&& b.vlrs[x].cost == a.vlrs[x].cost
        }
    &&& a.frags.is_prefix_of(b.frags)
    &&& a.edits.is_prefix_of(b.edits)
    &&& a.next_slot <= b.next_slot
}

pub proof fn lemma_kept_trans(a: AllocState, b: AllocState, c: AllocState)
    requires
        kept(a, b),
        kept(b, c),
    ensures
        kept(a, c),
{
    assert forall|x: int| 0 <= x < a.vlrs.len() implies {
        &&& (#[trigger] c.vlrs[x]).vreg == a.vlrs[x].vreg
        &&& c.vlrs[x].frags == a.vlrs[x].frags
        &&& c.vlrs[x].size == a.vlrs[x].size
        &&& c.vlrs[x].cost == a.vlrs[x].cost
    } by {
        assert(b.vlrs[x].vreg == a.vlrs[x].vreg);
    }
    assert(a.frags.is_prefix_of(c.frags)) by {
        assert forall|i: int| 0 <= i < a.frags.len() implies a.frags[i] == c.frags[i] by {
            assert(a.frags[i] == b.frags[i]);
        }
    }
    assert(a.edits.is_prefix_of(c.edits)) by {
        assert forall|i: int| 0 <= i < a.edits.len() implies a.edits[i] == c.edits[i] by {
            assert(a.edits[i] == b.edits[i]);
        }
    }
}

/// A turn changes no range but for the register that it is tagged with, and takes no fragment and
/// no order away.
pub proof fn law_turn_keeps<I>(
    setting: Setting<I>,
    fixed: Seq<Set<RangeFragIx>>,
    st: AllocState,
    next: AllocState,
)
    requires
        setting.universe.wf(),
        st.inv(setting, fixed, None),
        st.next_slot >= 0,
        turn(setting, st) == Turn::Next(next),
        next.fits(),
    ensures
        kept(st, next),
{
    let m = law_moves(setting, fixed, st, next);
    if let Move::Spill { x } = m {
        let size = (setting.func.slot_size)(st.vlr(x).vreg.class) as int;
        assert(size > 0);
        lemma_rounded_up(st.next_slot, size);
    }
}

/// From its first state on, the allocator changes no range but for the register that it is tagged
/// with, and takes no fragment and no order away.
pub proof fn law_ranges_are_kept<I>(
    setting: Setting<I>,
    rlrs: Seq<RlrView>,
    vlrs: Seq<VlrView>,
    frags: Seq<RangeFrag>,
    st: AllocState,
)
    requires
        gets_to(setting, rlrs, vlrs, frags, st),
    ensures
        kept(initial_state(setting.universe, rlrs, vlrs, frags), st),
{
    let start = initial_state(setting.universe, rlrs, vlrs, frags);
    let fixed = all_fixed(setting, rlrs);
    let p = |a: AllocState| reaches(setting, start, a) && kept(start, a);
    lemma_reaches_start(setting, start);
    assert(p(start));
    assert forall|a: AllocState, b: AllocState|
        p(a) && #[trigger] turn(setting, a) == Turn::Next(b) implies #[trigger] p(b) by {
        lemma_reaches_inv(setting, rlrs, vlrs, frags, a);
        lemma_reaches_next(setting, start, a, b);
        law_turn_keeps(setting, fixed, a, b);
        lemma_kept_trans(start, a, b);
    }
    lemma_reaches_induct(setting, start, st, p);
}

// ---- Registers

/// What a register is committed to is what the client uses it for and what the ranges that are
/// assigned to it consist of, and nothing is both.
pub proof fn law_commitments<I>(
    setting: Setting<I>,
    rlrs: Seq<RlrView>,
    vlrs: Seq<VlrView>,
    frags: Seq<RangeFrag>,
    st: AllocState,
    i: int,
)
    requires
        gets_to(setting, rlrs, vlrs, frags, st),
        0 <= i < setting.universe.allocable,
    ensures
        forall|f: RangeFragIx| #[trigger]
            st.regs[i].frags.contains(f) <==> fixed_frags(rlrs, i).contains(f) || st.held_by_vlr(
                i,
                f,
            ),
        forall|f: RangeFragIx| #[trigger]
            fixed_frags(rlrs, i).contains(f) ==> !st.held_by_vlr(i, f),
{
    lemma_reaches_inv(setting, rlrs, vlrs, frags, st);
    let fixed = all_fixed(setting, rlrs);
    assert(fixed[i] == fixed_frags(rlrs, i));
    assert forall|f: RangeFragIx| #[trigger] st.regs[i].frags.contains(f) <==> fixed_frags(
        rlrs,
        i,
    ).contains(f) || st.held_by_vlr(i, f) by {}
    assert forall|f: RangeFragIx| #[trigger] fixed_frags(rlrs, i).contains(
        f,
    ) implies !st.held_by_vlr(i, f) by {
        if st.held_by_vlr(i, f) {
            let x = choose|x: VirtualRangeIx| #[trigger]
                st.at_reg(x, i) && st.vlr(x).frags.contains(f);
            assert(fixed[i].contains(f));
        }
    }
}

/// No two of the fragments that a register is committed to have a point in common.
pub proof fn law_registers_are_not_shared<I>(
    setting: Setting<I>,
    rlrs: Seq<RlrView>,
    vlrs: Seq<VlrView>,
    frags: Seq<RangeFrag>,
    st: AllocState,
    i: int,
    f: RangeFragIx,
    g: RangeFragIx,
)
    requires
        gets_to(setting, rlrs, vlrs, frags, st),
        0 <= i < setting.universe.allocable,
        st.regs[i].frags.contains(f),
        st.regs[i].frags.contains(g),
        f != g,
    ensures
        f.pos() < st.frags.len(),
        g.pos() < st.frags.len(),
        st.frags[f.pos()].disjoint(st.frags[g.pos()]),
{
    lemma_reaches_inv(setting, rlrs, vlrs, frags, st);
}

/// No two allocable registers are the same.
pub open spec fn regs_distinct(universe: RealRegUniverse) -> bool {
    forall|i: int, j: int|
        0 <= i < j < universe.allocable ==> #[trigger] universe.reg_seq()[i]
            != #[trigger] universe.reg_seq()[j]
}

/// Of the fragments that the outcome places in one real register, no two have a point in common,
/// and none has one in common with a fragment over which the client uses that register itself.
pub proof fn law_placements_do_not_clash<I>(
    setting: Setting<I>,
    rlrs: Seq<RlrView>,
    vlrs: Seq<VlrView>,
    frags: Seq<RangeFrag>,
    st: AllocState,
    j: int,
)
    requires
        gets_to(setting, rlrs, vlrs, frags, st),
        regs_distinct(setting.universe),
        0 <= j < placements(setting.universe, st).len(),
    ensures
        ({
            let list = placements(setting.universe, st);
            let frag = st.frags[list[j].0.pos()];
            &&& forall|k: int|
                0 <= k < list.len() && k != j && (#[trigger] list[k]).2 == list[j].2
                    ==> frag.disjoint(st.frags[list[k].0.pos()])
            &&& forall|a: int, n: int|
                0 <= a < rlrs.len() && 0 <= n < rlrs[a].frags.len() && rlrs[a].rreg.index
                    < setting.universe.allocable
                    && setting.universe.reg_seq()[rlrs[a].rreg.index as int] == list[j].2
                    ==> frag.disjoint(st.frags[(#[trigger] rlrs[a].frags[n]).pos()])
        }),
{
    let list = placements(setting.universe, st);
    let all = sites(st.regs, st.vlrs, st.regs.len() as int);
    let fixed = all_fixed(setting, rlrs);
    let frag = st.frags[list[j].0.pos()];
    lemma_reaches_inv(setting, rlrs, vlrs, frags, st);
    lemma_sites(st.regs, st.vlrs, st.regs.len() as int);
    let s = lemma_placement_from(setting, fixed, st, j);
    let f = list[j].0;
    lemma_site_held(setting, fixed, st, s);
    assert forall|k: int|
        0 <= k < list.len() && k != j && (#[trigger] list[k]).2 == list[j].2 implies frag.disjoint(
        st.frags[list[k].0.pos()],
    ) by {
        let t = lemma_placement_from(setting, fixed, st, k);
        let g = list[k].0;
        assert(s.reg == t.reg);
        lemma_site_held(setting, fixed, st, t);
        assert(all[j] != all[k]);
        if f == g {
            // One range has no fragment twice, and two ranges have none in common.
            if s.vlrix == t.vlrix {
                let ixs = st.vlr(s.vlrix).frags;
                if s.frag < t.frag {
                    assert(st.frags[ixs[s.frag].pos()].before(st.frags[ixs[t.frag].pos()]));
                } else {
                    assert(st.frags[ixs[t.frag].pos()].before(st.frags[ixs[s.frag].pos()]));
                }
            } else {
                assert(st.vlr(s.vlrix).frags.contains(f));
                assert(st.vlr(t.vlrix).frags.contains(f));
            }
        }
    }
    assert forall|a: int, n: int|
        0 <= a < rlrs.len() && 0 <= n < rlrs[a].frags.len() && rlrs[a].rreg.index
            < setting.universe.allocable && setting.universe.reg_seq()[rlrs[a].rreg.index as int]
            == list[j].2 implies frag.disjoint(
        st.frags[(#[trigger] rlrs[a].frags[n]).pos()],
    ) by {
        let i = rlrs[a].rreg.index as int;
        let g = rlrs[a].frags[n];
        assert(i == s.reg);
        assert(fixed_frags(rlrs, i).contains(g)) by {
            assert(rlrs[a].frags.contains(g));
        }
        assert(fixed[i].contains(g));
        assert(st.regs[i].frags.contains(g));
        if f == g {
            assert(st.vlr(s.vlrix).frags.contains(f));
        }
    }
}

proof fn lemma_site_held<I>(
    setting: Setting<I>,
    fixed: Seq<Set<RangeFragIx>>,
    st: AllocState,
    s: Site,
)
    requires
        st.inv(setting, fixed, None),
        st.at_reg(s.vlrix, s.reg),
        0 <= s.frag < st.vlr(s.vlrix).frags.len(),
    ensures
        st.vlr(s.vlrix).frags.contains(st.vlr(s.vlrix).frags[s.frag]),
        st.regs[s.reg].frags.contains(st.vlr(s.vlrix).frags[s.frag]),
{
    let f = st.vlr(s.vlrix).frags[s.frag];
    assert(st.vlr(s.vlrix).frags.contains(f));
    assert(st.held_by_vlr(s.reg, f));
}

/// A range is in one place at most, the queue or one register, and never twice; it is tagged with
/// the register that it is assigned to, and with none while it waits.
pub proof fn law_ranges_are_in_one_place<I>(
    setting: Setting<I>,
    rlrs: Seq<RlrView>,
    vlrs: Seq<VlrView>,
    frags: Seq<RangeFrag>,
    st: AllocState,
)
    requires
        gets_to(setting, rlrs, vlrs, frags, st),
    ensures
        st.queue.no_duplicates(),
        forall|i: int|
            0 <= i < st.regs.len() ==> (#[trigger] st.regs[i]).assigned.no_duplicates(),
        forall|x: VirtualRangeIx| #[trigger]
            st.queue.contains(x) ==> x.pos() < st.vlrs.len() && st.vlr(x).rreg is None,
        forall|x: VirtualRangeIx, i: int| #[trigger]
            st.at_reg(x, i) ==> x.pos() < st.vlrs.len() && st.vlr(x).rreg == Some(
                setting.universe.reg_seq()[i],
            ) && !st.queue.contains(x),
        forall|x: VirtualRangeIx, i: int, j: int| #[trigger]
            st.at_reg(x, i) && #[trigger] st.at_reg(x, j) ==> i == j,
{
    lemma_reaches_inv(setting, rlrs, vlrs, frags, st);
}

/// Every range that is assigned to a register is assigned to one that its class may use.
pub open spec fn classes_ok<I>(setting: Setting<I>, st: AllocState) -> bool {
    forall|x: VirtualRangeIx, i: int| #[trigger]
        st.at_reg(x, i) ==> in_class(setting.universe, st.vlr(x).vreg.class, i)
}

/// A move that leads on respects the classes.
pub proof fn lemma_move_classes<I>(
    setting: Setting<I>,
    fixed: Seq<Set<RangeFragIx>>,
    st: AllocState,
    next: AllocState,
    m: Move,
)
    requires
        st.inv(setting, fixed, None),
        m.leads(setting, st, next),
        classes_ok(setting, st),
    ensures
        classes_ok(setting, next),
{
    assert forall|z: VirtualRangeIx, k: int| #[trigger] next.at_reg(z, k) implies in_class(
        setting.universe,
        next.vlr(z).vreg.class,
        k,
    ) by {
        match m {
            Move::Place { x, i } => {
                lemma_pushed_members(st.regs[i].assigned, x);
                if z != x {
                    assert(st.at_reg(z, k));
                } else if k != i {
                    assert(st.at_reg(z, k));
                }
            },
            Move::Replace { x, y, i } => {
                let without = first_removed(st.regs[i].assigned, y);
                lemma_first_removed_members(st.regs[i].assigned, y);
                lemma_pushed_members(without, x);
                if z != x {
                    assert(st.at_reg(z, k));
                } else if k != i {
                    assert(st.at_reg(z, k));
                }
            },
            Move::Spill { x } => {
                assert(st.at_reg(z, k));
            },
        }
    }
}

/// Wherever the allocator gets, every range is in a register that its class may use, or in none.
pub proof fn law_classes_are_respected<I>(
    setting: Setting<I>,
    rlrs: Seq<RlrView>,
    vlrs: Seq<VlrView>,
    frags: Seq<RangeFrag>,
    st: AllocState,
)
    requires
        gets_to(setting, rlrs, vlrs, frags, st),
    ensures
        classes_ok(setting, st),
{
    let start = initial_state(setting.universe, rlrs, vlrs, frags);
    let fixed = all_fixed(setting, rlrs);
    let p = |a: AllocState| reaches(setting, start, a) && classes_ok(setting, a);
    lemma_reaches_start(setting, start);
    assert(p(start));
    assert forall|a: AllocState, b: AllocState|
        p(a) && #[trigger] turn(setting, a) == Turn::Next(b) implies #[trigger] p(b) by {
        lemma_reaches_inv(setting, rlrs, vlrs, frags, a);
        lemma_reaches_next(setting, start, a, b);
        let m = law_moves(setting, fixed, a, b);
        lemma_move_classes(setting, fixed, a, b, m);
    }
    lemma_reaches_induct(setting, start, st, p);
}

/// A range of infinite spill cost, such as every bridge, keeps the register that it has once been
/// given.
pub proof fn law_bridges_stay<I>(
    setting: Setting<I>,
    fixed: Seq<Set<RangeFragIx>>,
    st: AllocState,
    next: AllocState,
    x: VirtualRangeIx,
    i: int,
)
    requires
        setting.universe.wf(),
        st.inv(setting, fixed, None),
        turn(setting, st) == Turn::Next(next),
        st.at_reg(x, i),
        st.vlr(x).cost is None,
    ensures
        next.at_reg(x, i),
        next.vlr(x) == st.vlr(x),
{
    match law_moves(setting, fixed, st, next) {
        Move::Place { x: z, i: k } => {
            lemma_pushed_members(st.regs[k].assigned, z);
            assert(st.queue.contains(z));
        },
        Move::Replace { x: z, y, i: k } => {
            let without = first_removed(st.regs[k].assigned, y);
            lemma_first_removed_members(st.regs[k].assigned, y);
            lemma_pushed_members(without, z);
            assert(st.queue.contains(z));
        },
        Move::Spill { x: z } => {},
    }
}

/// Assigning a range to a register and taking it back leaves the register as it was.
pub proof fn law_add_and_del_cancel(
    reg: RegView,
    x: VirtualRangeIx,
    vlr: VlrView,
    fenv: Seq<RangeFrag>,
)
    requires
        !reg.assigned.contains(x),
        frags_sorted(fenv, vlr.frags),
        reg.fits(vlr, fenv),
    ensures
        reg.with_vlr(x, vlr).without_vlr(x, vlr) == reg,
{
    let with = reg.with_vlr(x, vlr);
    let n = reg.assigned.len() as int;
    assert(is_first_of(with.assigned, x, n)) by {
        assert forall|j: int| 0 <= j < n implies #[trigger] with.assigned[j] != x by {
            assert(reg.assigned.contains(reg.assigned[j]));
        }
    }
    lemma_first_removed(with.assigned, x, n);
    assert(with.without_vlr(x, vlr).assigned =~= reg.assigned);
    assert forall|f: RangeFragIx| reg.frags.contains(f) implies !vlr.frags.to_set().contains(f) by {
        if vlr.frags.contains(f) {
            let j = choose|j: int| 0 <= j < vlr.frags.len() && vlr.frags[j] == f;
            assert(fenv[f.pos()].disjoint(fenv[vlr.frags[j].pos()]));
            assert(fenv[vlr.frags[j].pos()].wf());
        }
    }
    assert(with.without_vlr(x, vlr).frags =~= reg.frags);
}

} // verus!
