//! The parts of the allocator, one by one.

use regalloc::frags::{InstPoint, Point, RangeFrag, RangeFragKind, SortedRangeFragIxs};
use regalloc::index::{BlockIx, InstIx, RangeFragIx, TypedIx, TypedIxVec, VirtualRangeIx};
use regalloc::mapping::{MapReplay, VregMap};
use regalloc::prio_queue::VirtualRangePrioQ;
use regalloc::ranges::{cost_is_less, RealRange, SpillSlot, VirtualRange};
use regalloc::real_reg::PerRealReg;
use regalloc::regs::{RealReg, RealRegSet, Reg, RegClass, RegSet, VirtualReg};
use regalloc::show::show_class;
use regalloc::sort::stable_order;
use regalloc::spill::{BridgeKind, EditListItem, SpillAndOrReloadInfo};

fn frag(first: (u32, Point), last: (u32, Point)) -> RangeFrag {
    RangeFrag {
        bix: BlockIx::new(0),
        kind: RangeFragKind::Local,
        first: InstPoint::new(InstIx::new(first.0), first.1),
        last: InstPoint::new(InstIx::new(last.0), last.1),
        count: 2,
    }
}

fn rr(index: u8) -> RealReg {
    RealReg { class: RegClass::I32, enc: index, index }
}

fn vreg(index: u32) -> VirtualReg {
    VirtualReg { class: RegClass::I32, index }
}

fn fix(i: u32) -> RangeFragIx {
    RangeFragIx::new(i)
}

fn vlrix(i: u32) -> VirtualRangeIx {
    VirtualRangeIx::new(i)
}

fn fixs(ixs: &[u32]) -> SortedRangeFragIxs {
    SortedRangeFragIxs { fragIxs: ixs.iter().map(|i| fix(*i)).collect() }
}

fn range(index: u32, frags: &[u32], size: u16, cost: Option<u32>) -> VirtualRange {
    VirtualRange { vreg: vreg(index), rreg: None, sortedFrags: fixs(frags), size, spillCost: cost }
}

/// Fragment `i` is live at instructions `2 * i` and `2 * i + 1`; the last one is live all along.
fn row() -> TypedIxVec<RangeFragIx, RangeFrag> {
    let mut frags: Vec<RangeFrag> =
        (0..4).map(|i| frag((2 * i, Point::Def), (2 * i + 1, Point::Use))).collect();
    frags.push(frag((0, Point::Use), (7, Point::Def)));
    TypedIxVec::from_vec(frags)
}

#[test]
fn points_are_ordered_by_time() {
    let p = |i: u32, pt: Point| InstPoint::new(InstIx::new(i), pt).to_u64();
    assert_eq!(p(0, Point::Reload), 0);
    assert_eq!(p(3, Point::Use), 13);
    assert_eq!(p(3, Point::Def), 14);
    assert_eq!(p(3, Point::Spill), 15);
    assert_eq!(p(u32::MAX, Point::Spill), 4 * (u32::MAX as u64) + 3);
}

#[test]
fn fragments_contain_their_ends() {
    let f = frag((2, Point::Def), (4, Point::Use));
    assert!(!f.contains(&InstPoint::new_use(InstIx::new(2))));
    assert!(f.contains(&InstPoint::new_def(InstIx::new(2))));
    assert!(f.contains(&InstPoint::new_reload(InstIx::new(3))));
    assert!(f.contains(&InstPoint::new_use(InstIx::new(4))));
    assert!(!f.contains(&InstPoint::new_def(InstIx::new(4))));
}

#[test]
fn sets_of_fragments_are_kept_in_order() {
    let fenv = row();
    let mut set = SortedRangeFragIxs::empty();
    set.add(&fixs(&[1, 3]), &fenv);
    assert!(set.can_add(&fixs(&[0, 2]), &fenv));
    assert!(!set.can_add(&fixs(&[0, 1]), &fenv));
    assert!(!set.can_add(&fixs(&[4]), &fenv));
    set.add(&fixs(&[0, 2]), &fenv);
    assert_eq!(set.fragIxs, vec![fix(0), fix(1), fix(2), fix(3)]);
    set.del(&fixs(&[1, 2]), &fenv);
    assert_eq!(set.fragIxs, vec![fix(0), fix(3)]);
    assert!(set.can_add_if_we_first_del(&fixs(&[0, 3]), &fixs(&[4]), &fenv));
    assert!(!set.can_add_if_we_first_del(&fixs(&[0]), &fixs(&[4]), &fenv));
    assert_eq!(SortedRangeFragIxs::unit(fix(2)).fragIxs, vec![fix(2)]);
}

#[test]
fn costs_are_compared_with_none_as_infinity() {
    assert!(!cost_is_less(None, None));
    assert!(cost_is_less(Some(u32::MAX), None));
    assert!(!cost_is_less(None, Some(0)));
    assert!(cost_is_less(Some(1), Some(2)));
    assert!(!cost_is_less(Some(2), Some(2)));
    assert!(!cost_is_less(Some(3), Some(2)));
    // The bit patterns of non-negative floats order as the floats do.
    assert!(cost_is_less(Some(0.5f32.to_bits()), Some(0.75f32.to_bits())));
    assert!(cost_is_less(Some(99.9f32.to_bits()), Some(100.0f32.to_bits())));
    assert!(cost_is_less(Some(0f32.to_bits()), Some(1e-30f32.to_bits())));
}

#[test]
fn slots_are_rounded_up() {
    assert_eq!(SpillSlot::new(0).round_up(4).get(), 0);
    assert_eq!(SpillSlot::new(1).round_up(4).get(), 4);
    assert_eq!(SpillSlot::new(4).round_up(4).get(), 4);
    assert_eq!(SpillSlot::new(5).round_up(2).get(), 6);
    assert_eq!(SpillSlot::new(7).round_up(1).get(), 7);
    assert_eq!(SpillSlot::new(7).round_up(3).get(), 9);
    assert_eq!(SpillSlot::new(u32::MAX).round_up(5).get(), u32::MAX);
    assert_eq!(SpillSlot::new(6).inc(2).get(), 8);
    assert!(SpillSlot::new(0).has_room(u32::MAX));
    assert!(!SpillSlot::new(0).has_room(0));
    assert!(SpillSlot::new(u32::MAX - 1).has_room(1));
    assert!(!SpillSlot::new(u32::MAX).has_room(1));
    assert!(!SpillSlot::new(u32::MAX - 3).has_room(4));
    assert!(SpillSlot::new(u32::MAX - 8).has_room(4));
}

#[test]
fn the_longest_range_comes_first() {
    let env = TypedIxVec::from_vec(vec![
        range(0, &[0], 2, None),
        range(1, &[1], 5, None),
        range(2, &[2], 5, None),
        range(3, &[3], 1, None),
    ]);
    let mut q = VirtualRangePrioQ::new(&env);
    assert!(!q.is_empty());
    // The first of the longest, whose place the last one takes.
    assert_eq!(q.get_longest_VirtualRange(&env), Some(vlrix(1)));
    assert_eq!(q.unallocated, vec![vlrix(0), vlrix(3), vlrix(2)]);
    assert_eq!(q.get_longest_VirtualRange(&env), Some(vlrix(2)));
    q.add_VirtualRange(vlrix(1));
    assert_eq!(q.unallocated, vec![vlrix(0), vlrix(3), vlrix(1)]);
    assert_eq!(q.get_longest_VirtualRange(&env), Some(vlrix(1)));
    assert_eq!(q.get_longest_VirtualRange(&env), Some(vlrix(0)));
    assert_eq!(q.get_longest_VirtualRange(&env), Some(vlrix(3)));
    assert_eq!(q.get_longest_VirtualRange(&env), None);
    assert!(q.is_empty());
}

#[test]
fn adding_and_deleting_a_range_cancel() {
    let fenv = row();
    let env = TypedIxVec::from_vec(vec![range(0, &[0, 2], 4, Some(1)), range(1, &[1], 2, Some(1))]);
    let mut reg = PerRealReg::new(&fenv);
    reg.add_RealRange(&RealRange { rreg: rr(0), sortedFrags: fixs(&[3]) }, &fenv);
    assert!(reg.vlrixs_assigned.is_empty());
    reg.add_VirtualRange(vlrix(1), &env, &fenv);
    assert!(reg.can_add_VirtualRange_without_eviction(env.at(vlrix(0)), &fenv));
    reg.add_VirtualRange(vlrix(0), &env, &fenv);
    assert!(!reg.can_add_VirtualRange_without_eviction(env.at(vlrix(0)), &fenv));
    assert_eq!(reg.frags_in_use.fragIxs, vec![fix(0), fix(1), fix(2), fix(3)]);
    assert_eq!(reg.vlrixs_assigned, vec![vlrix(1), vlrix(0)]);
    reg.del_VirtualRange(vlrix(0), &env, &fenv);
    assert_eq!(reg.frags_in_use.fragIxs, vec![fix(1), fix(3)]);
    assert_eq!(reg.vlrixs_assigned, vec![vlrix(1)]);
}

#[test]
fn the_last_of_the_cheapest_candidates_is_evicted() {
    // All candidates clash with the wanted range at one point each, but not with one another;
    // only where a single one is in the way does evicting it help.
    let fenv = TypedIxVec::from_vec(vec![
        frag((0, Point::Def), (1, Point::Use)),
        frag((2, Point::Def), (3, Point::Use)),
        frag((0, Point::Def), (0, Point::Def)),
    ]);
    let env = TypedIxVec::from_vec(vec![
        range(0, &[0], 2, Some(4)),
        range(1, &[1], 2, Some(3)),
        range(2, &[2], 2, Some(9)),
        range(3, &[2], 2, None),
        range(4, &[2], 2, Some(4)),
    ]);
    let mut reg = PerRealReg::new(&fenv);
    reg.add_VirtualRange(vlrix(0), &env, &fenv);
    reg.add_VirtualRange(vlrix(1), &env, &fenv);
    let found = reg.find_best_evict_VirtualRange(env.at(vlrix(2)), &env, &fenv);
    assert_eq!(found, Some((vlrix(0), 4)));
    let found = reg.find_best_evict_VirtualRange(env.at(vlrix(3)), &env, &fenv);
    assert_eq!(found, Some((vlrix(0), 4)));
    // Not for a range of the same cost.
    assert_eq!(reg.find_best_evict_VirtualRange(env.at(vlrix(4)), &env, &fenv), None);

    // Ranges without fragments are in nobody's way, so that each of them would do as well.
    let env = TypedIxVec::from_vec(vec![
        range(0, &[], 2, Some(4)),
        range(1, &[], 2, Some(4)),
        range(2, &[], 2, Some(5)),
        range(3, &[2], 2, Some(9)),
        range(4, &[], 2, None),
    ]);
    let mut reg = PerRealReg::new(&fenv);
    for x in [0, 1, 2, 4] {
        reg.add_VirtualRange(vlrix(x), &env, &fenv);
    }
    let found = reg.find_best_evict_VirtualRange(env.at(vlrix(3)), &env, &fenv);
    assert_eq!(found, Some((vlrix(1), 4)));
}

#[test]
fn registers_of_a_set_are_found() {
    let mut set = RegSet::empty();
    set.insert(Reg::Real(rr(3)));
    set.insert(Reg::Real(rr(3)));
    assert_eq!(set.elems.len(), 1);
    assert!(set.contains(Reg::Real(rr(3))));
    assert!(!set.contains(Reg::Virtual(vreg(3))));
    let mut reals = RealRegSet::empty();
    reals.insert(rr(1));
    assert!(reals.contains(rr(1)));
    assert!(!reals.contains(rr(2)));
}

#[test]
fn maps_hold_the_fragments_that_are_live() {
    // v0 from the reload of 0 to its use, v1 from the def of 0 to the use of 1, v2 over all of 1.
    let fenv = TypedIxVec::from_vec(vec![
        frag((0, Point::Reload), (0, Point::Use)),
        frag((0, Point::Def), (1, Point::Use)),
        frag((1, Point::Reload), (1, Point::Spill)),
    ]);
    let list = vec![(fix(2), vreg(2), rr(7)), (fix(0), vreg(0), rr(5)), (fix(1), vreg(1), rr(6))];
    let mut replay = MapReplay::new(list.clone(), list, &fenv);
    let (uses, defs) = replay.step(InstIx::new(0), &fenv);
    let at = |m: &VregMap| [m.get(vreg(0)), m.get(vreg(1)), m.get(vreg(2))];
    assert_eq!(at(&uses), [Some(rr(5)), None, None]);
    assert_eq!(at(&defs), [None, Some(rr(6)), None]);
    assert_eq!(at(replay.current()), [None, Some(rr(6)), None]);
    let uses = replay.pass_use(InstIx::new(1), &fenv);
    assert_eq!(at(&uses), [None, Some(rr(6)), Some(rr(7))]);
    assert_eq!(at(replay.current()), [None, None, Some(rr(7))]);
    let defs = replay.pass_def(InstIx::new(1), &fenv);
    assert_eq!(at(&defs), [None, None, Some(rr(7))]);
    assert_eq!(at(replay.current()), [None, None, Some(rr(7))]);
    replay.pass_spill(InstIx::new(1), &fenv);
    assert_eq!(at(replay.current()), [None, None, None]);
    // Past the last fragment nothing is mapped.
    let (uses, defs) = replay.step(InstIx::new(2), &fenv);
    assert_eq!(at(&uses), [None, None, None]);
    assert_eq!(at(&defs), [None, None, None]);
}

#[test]
fn maps_keep_the_latest_entry() {
    let mut m = VregMap::new();
    m.insert(vreg(1), rr(1));
    m.insert(vreg(2), rr(2));
    m.insert(vreg(1), rr(3));
    let copy = m.clone();
    m.remove(vreg(1));
    assert_eq!(m.get(vreg(1)), None);
    assert_eq!(m.get(vreg(2)), Some(rr(2)));
    assert_eq!(copy.get(vreg(1)), Some(rr(3)));
}

#[test]
fn equal_keys_stay_in_order() {
    assert_eq!(stable_order(&vec![3, 1, 2, 1, 3]), vec![1, 3, 2, 0, 4]);
    assert_eq!(stable_order(&vec![]), Vec::<usize>::new());
}

#[test]
fn bridges_have_their_shapes() {
    let shape = |kind: BridgeKind| {
        let f = SpillAndOrReloadInfo { bix: BlockIx::new(4), iix: InstIx::new(6), kind }.frag();
        assert_eq!(f.bix, BlockIx::new(4));
        assert_eq!(f.kind, RangeFragKind::Local);
        assert_eq!(f.first.iix, InstIx::new(6));
        assert_eq!(f.last.iix, InstIx::new(6));
        (f.first.pt, f.last.pt, f.count)
    };
    assert_eq!(shape(BridgeKind::RtoU), (Point::Reload, Point::Use, 2));
    assert_eq!(shape(BridgeKind::RtoS), (Point::Reload, Point::Spill, 3));
    assert_eq!(shape(BridgeKind::DtoS), (Point::Def, Point::Spill, 2));
}

#[test]
fn texts_are_as_they_should_be() {
    assert_eq!(BridgeKind::RtoU.show(), "R->U");
    assert_eq!(BridgeKind::RtoS.show(), "R->S");
    assert_eq!(BridgeKind::DtoS.show(), "D->S");
    let item =
        EditListItem { slot: SpillSlot::new(1203), vlrix: vlrix(45), kind: BridgeKind::RtoS };
    assert_eq!(item.show(), "ELI { for vr45 add 'R->S' S1203 }");
    assert_eq!(show_class(RegClass::V128), "V128");
    let fenv = row();
    let mut vlr = range(9, &[1, 3], 12, Some(4294967295));
    vlr.rreg = Some(rr(10));
    let env = TypedIxVec::from_vec(vec![vlr, range(8, &[], 1, None)]);
    assert_eq!(fenv.at(fix(1)).show(), "(i2.d-i3.u)");
    assert_eq!(env.at(vlrix(1)).show("0.5"), "(VR: v8I32, sz=1, sc=INFINITY, [])");
    assert_eq!(env.at(vlrix(0)).show("0.5"), "(VR: v9I32 -> r10, sz=12, sc=0.5, [f1, f3])");
    assert_eq!(env.at(vlrix(0)).show_with(None, "7"), "(VR: v9I32, sz=12, sc=7, [f1, f3])");
    let q = VirtualRangePrioQ::new(&env);
    assert_eq!(
        q.show_with_envs(&env, &vec!["2.75".to_string()]),
        vec![
            "TODO  (VR: v9I32 -> r10, sz=12, sc=2.75, [f1, f3])",
            "TODO  (VR: v8I32, sz=1, sc=INFINITY, [])",
        ]
    );
    let mut reg = PerRealReg::new(&fenv);
    reg.add_VirtualRange(vlrix(0), &env, &fenv);
    assert_eq!(reg.show1_with_envs(&fenv), "in_use:   [f1(i2.d-i3.u), f3(i6.d-i7.u)]");
    assert_eq!(reg.show2_with_envs(&fenv), "assigned: [vr0]");
}
