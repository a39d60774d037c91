//! What can be relied on where registers are plentiful.

use crate::course::{
    all_fixed, input_ok, lemma_initial, lemma_turn, lemma_turn_start, stays_within_limits,
};
use crate::frags::RangeFrag;
use crate::index::{RangeFragIx, TypedIx, VirtualRangeIx};
use crate::laws::{classes_ok, in_class, lemma_move_classes, Move};
use crate::prio_queue::longest_at;
use crate::ranges::{RlrView, VlrView};
use crate::regs::{RealRegUniverse, RegClass};
use crate::state::{
    first_fit, fixed_frags, initial_state, is_first_fit, lemma_reaches_induct, reaches, turn,
    AllocState, Setting, Turn,
};
use vstd::prelude::*;
use vstd::relations::injective_on;

verus! {

/// The registers that a class may use and that the client does not use itself.
pub open spec fn spare_regs(
    universe: RealRegUniverse,
    rlrs: Seq<RlrView>,
    class: RegClass,
) -> Set<int> {
    Set::new(
        |i: int|
            in_class(universe, class, i) && forall|f: RangeFragIx|
                !#[trigger] fixed_frags(rlrs, i).contains(f),
    )
}

/// The ranges of a class.
pub open spec fn ranges_of(vlrs: Seq<VlrView>, class: RegClass) -> Set<VirtualRangeIx> {
    Set::new(|x: VirtualRangeIx| x.pos() < vlrs.len() && vlrs[x.pos()].vreg.class == class)
}

/// No register may be used by two classes, and each class has as many spare registers as ranges.
pub open spec fn regs_are_plentiful(
    universe: RealRegUniverse,
    rlrs: Seq<RlrView>,
    vlrs: Seq<VlrView>,
) -> bool {
    &&& forall|c: RegClass, d: RegClass, i: int| #[trigger]
        in_class(universe, c, i) && #[trigger] in_class(universe, d, i) ==> c == d
    &&& forall|class: RegClass| #[trigger]
        ranges_of(vlrs, class).len() <= spare_regs(universe, rlrs, class).len()
}

proof fn lemma_ranges_finite(vlrs: Seq<VlrView>, class: RegClass)
    requires
        vlrs.len() <= u32::MAX,
    ensures
        ranges_of(vlrs, class).finite(),
{
    let n = vlrs.len() as int;
    let all = vstd::set_lib::set_int_range(0, n);
    let f = |i: int| VirtualRangeIx { ix: i as u32 };
    vstd::set_lib::lemma_int_range(0, n);
    all.lemma_map_finite(f);
    assert(ranges_of(vlrs, class).subset_of(all.map(f))) by {
        assert forall|x: VirtualRangeIx| ranges_of(vlrs, class).contains(
            x,
        ) implies #[trigger] all.map(f).contains(x) by {
            assert(all.contains(x.pos()) && x == f(x.pos()));
        }
    }
    vstd::set_lib::lemma_len_subset(ranges_of(vlrs, class), all.map(f));
}

/// The allocator has placed ranges, and done nothing else so far.
spec fn only_placed<I>(
    setting: Setting<I>,
    rlrs: Seq<RlrView>,
    vlrs: Seq<VlrView>,
    frags: Seq<RangeFrag>,
    st: AllocState,
) -> bool {
    &&& st.inv(setting, all_fixed(setting, rlrs), None)
    &&& classes_ok(setting, st)
    &&& st.vlrs.len() == vlrs.len()
    &&& forall|x: int| 0 <= x < vlrs.len() ==> (#[trigger] st.vlrs[x]).vreg == vlrs[x].vreg
    &&& st.frags == frags
    &&& st.edits.len() == 0
    &&& st.next_slot == 0
}

/// Some spare register has nothing assigned to it, and so has room for the range that comes next.
proof fn lemma_finds_room<I>(
    setting: Setting<I>,
    rlrs: Seq<RlrView>,
    vlrs: Seq<VlrView>,
    frags: Seq<RangeFrag>,
    st: AllocState,
    x: VirtualRangeIx,
)
    requires
        setting.universe.wf(),
        vlrs.len() <= u32::MAX,
        regs_are_plentiful(setting.universe, rlrs, vlrs),
        only_placed(setting, rlrs, vlrs, frags, st),
        st.queue.contains(x),
    ensures
        ({
            let vlr = st.vlr(x);
            setting.universe.class_range(vlr.vreg.class) matches Some((first, last)) && first_fit(
                st.regs,
                st.frags,
                vlr,
                first as int,
                last as int,
            ) is Some
        }),
{
    let vlr = st.vlr(x);
    let class = vlr.vreg.class;
    let spare = spare_regs(setting.universe, rlrs, class);
    let ranges = ranges_of(vlrs, class);
    assert(x.pos() < st.vlrs.len());
    assert(st.vlrs[x.pos()].vreg == vlrs[x.pos()].vreg);
    assert(ranges.contains(x));
    lemma_ranges_finite(vlrs, class);
    assert(ranges.remove(x).len() == ranges.len() - 1);
    let range_at = |i: int| choose|y: VirtualRangeIx| st.at_reg(y, i);
    // Were something assigned to each of the spare registers, there would be too many ranges.
    let i = if forall|i: int| #[trigger]
        spare.contains(i) ==> exists|y: VirtualRangeIx| st.at_reg(y, i) {
        assert forall|i: int| #[trigger] spare.contains(i) implies st.at_reg(range_at(i), i)
            && ranges.remove(x).contains(range_at(i)) by {
            let y = range_at(i);
            assert(exists|y: VirtualRangeIx| st.at_reg(y, i));
            assert(st.at_reg(y, i));
            assert(in_class(setting.universe, st.vlr(y).vreg.class, i));
            assert(st.vlrs[y.pos()].vreg == vlrs[y.pos()].vreg);
        }
        assert(spare.finite()) by {
            let n = setting.universe.allocable as int;
            vstd::set_lib::lemma_int_range(0, n);
            assert(spare.subset_of(vstd::set_lib::set_int_range(0, n))) by {
                assert forall|i: int| spare.contains(i) implies #[trigger]
                    vstd::set_lib::set_int_range(0, n).contains(i) by {
                    assert(st.at_reg(range_at(i), i));
                }
            }
            vstd::set_lib::lemma_len_subset(spare, vstd::set_lib::set_int_range(0, n));
        }
        assert(injective_on(range_at, spare)) by {
            assert forall|i: int, j: int|
                spare.contains(i) && spare.contains(j) && #[trigger] range_at(i)
                    == #[trigger] range_at(j) implies i == j by {
                assert(st.at_reg(range_at(i), i));
                assert(st.at_reg(range_at(j), j));
            }
        }
        let held = spare.map(range_at);
        vstd::set_lib::lemma_map_size(spare, held, range_at);
        assert(held.subset_of(ranges.remove(x)));
        vstd::set_lib::lemma_len_subset(held, ranges.remove(x));
        assert(false);
        0
    } else {
        choose|i: int| #[trigger] spare.contains(i) && !(exists|y: VirtualRangeIx| st.at_reg(y, i))
    };
    assert(spare.contains(i));
    let (first, last) = setting.universe.class_range(class)->0;
    assert(first <= i <= last);
    assert(0 <= i < st.regs.len());
    assert(st.regs[i].fits(vlr, st.frags)) by {
        assert forall|f: RangeFragIx| !st.regs[i].frags.contains(f) by {
            assert(all_fixed(setting, rlrs)[i] == fixed_frags(rlrs, i));
            assert(!fixed_frags(rlrs, i).contains(f));
            assert(!st.held_by_vlr(i, f));
        }
    }
    lemma_first_fit_exists(st, vlr, first as int, i);
    let j = choose|j: int|
        first <= j <= i && #[trigger] is_first_fit(
            st.regs,
            st.frags,
            vlr,
            first as int,
            i,
            j,
        );
    assert(is_first_fit(st.regs, st.frags, vlr, first as int, last as int, j));
}

/// Where some register has room, there is a first one.
proof fn lemma_first_fit_exists(st: AllocState, vlr: VlrView, first: int, i: int)
    requires
        first <= i,
        st.regs[i].fits(vlr, st.frags),
    ensures
        exists|j: int|
            first <= j <= i && #[trigger] is_first_fit(st.regs, st.frags, vlr, first, i, j),
    decreases i - first,
{
    if forall|j: int| first <= j < i ==> !(#[trigger] st.regs[j]).fits(vlr, st.frags) {
        assert(is_first_fit(st.regs, st.frags, vlr, first, i, i));
    } else {
        let k = choose|k: int| first <= k < i && (#[trigger] st.regs[k]).fits(vlr, st.frags);
        lemma_first_fit_exists(st, vlr, first, k);
        let j = choose|j: int|
            first <= j <= k && #[trigger] is_first_fit(st.regs, st.frags, vlr, first, k, j);
        assert(is_first_fit(st.regs, st.frags, vlr, first, i, j));
    }
}

/// Where registers are plentiful, each turn places a range.
proof fn lemma_places<I>(
    setting: Setting<I>,
    rlrs: Seq<RlrView>,
    vlrs: Seq<VlrView>,
    frags: Seq<RangeFrag>,
    st: AllocState,
) -> (m: Move)
    requires
        setting.universe.wf(),
        vlrs.len() <= u32::MAX,
        regs_are_plentiful(setting.universe, rlrs, vlrs),
        only_placed(setting, rlrs, vlrs, frags, st),
        st.queue.len() > 0,
    ensures
        m is Place,
        turn(setting, st) matches Turn::Next(next) && m.leads(setting, st, next),
{
    let q = longest_at(st.queue, st.vlrs);
    let x = st.queue[q];
    lemma_turn_start(setting, all_fixed(setting, rlrs), st);
    assert(st.queue.contains(x));
    lemma_finds_room(setting, rlrs, vlrs, frags, st, x);
    let (first, last) = setting.universe.class_range(st.vlr(x).vreg.class)->0;
    let i = choose|i: int|
        is_first_fit(st.regs, st.frags, st.vlr(x), first as int, last as int, i);
    assert(is_first_fit(st.regs, st.frags, st.vlr(x), first as int, last as int, i));
    Move::Place { x, i }
}

/// Where each class has as many registers that the client leaves alone as it has ranges, and no
/// register belongs to two classes, every range gets a register at once: nothing is evicted,
/// nothing is spilled, and the tables stay within their limits.
pub proof fn law_plentiful_registers_mean_no_spills<I>(
    setting: Setting<I>,
    rlrs: Seq<RlrView>,
    vlrs: Seq<VlrView>,
    frags: Seq<RangeFrag>,
)
    requires
        input_ok(setting, rlrs, vlrs, frags),
        initial_state(setting.universe, rlrs, vlrs, frags).fits(),
        regs_are_plentiful(setting.universe, rlrs, vlrs),
    ensures
        stays_within_limits(setting, initial_state(setting.universe, rlrs, vlrs, frags)),
        forall|st: AllocState| #[trigger]
            reaches(setting, initial_state(setting.universe, rlrs, vlrs, frags), st) ==> {
                &&& st.vlrs.len() == vlrs.len()
                &&& st.frags == frags
                &&& st.edits.len() == 0
                &&& st.next_slot == 0
                &&& match turn(setting, st) {
                    Turn::Done => true,
                    Turn::Next(next) => exists|m: Move|
                        m is Place && #[trigger] m.leads(setting, st, next),
                    _ => false,
                }
            },
{
    let start = initial_state(setting.universe, rlrs, vlrs, frags);
    let fixed = all_fixed(setting, rlrs);
    let p = |a: AllocState| only_placed(setting, rlrs, vlrs, frags, a);
    lemma_initial(setting, rlrs, vlrs, frags);
    assert(p(start));
    assert forall|a: AllocState, b: AllocState|
        p(a) && #[trigger] turn(setting, a) == Turn::Next(b) implies #[trigger] p(b) by {
        assert(a.queue.len() > 0);
        let m = lemma_places(setting, rlrs, vlrs, frags, a);
        assert(b.vlrs.len() == a.vlrs.len());
        assert(b.fits());
        lemma_turn(setting, fixed, a, b);
        lemma_move_classes(setting, fixed, a, b, m);
    }
    assert forall|st: AllocState| #[trigger] reaches(setting, start, st) implies {
        &&& st.fits()
        &&& st.vlrs.len() == vlrs.len()
        &&& st.frags == frags
        &&& st.edits.len() == 0
        &&& st.next_slot == 0
        &&& match turn(setting, st) {
            Turn::Done => true,
            Turn::Next(next) => exists|m: Move|
                m is Place && #[trigger] m.leads(setting, st, next),
            _ => false,
        }
    } by {
        lemma_reaches_induct(setting, start, st, p);
        if st.queue.len() > 0 {
            let m = lemma_places(setting, rlrs, vlrs, frags, st);
        }
    }
}

} // verus!
