//! Allocation of whole functions.

use regalloc::allocator::{Allocator, Analysis, Progress};
use regalloc::backtracking::{alloc_main, edit_inst_stream, finish};
use regalloc::frags::{InstPoint, Point, RangeFrag, RangeFragKind, SortedRangeFragIxs};
use regalloc::input_check::{can_start, input_is_ok};
use regalloc::index::{
    BlockIx, InstIx, IxRange, RangeFragIx, RealRangeIx, TypedIx, TypedIxVec, VirtualRangeIx,
};
use regalloc::interface::{FuncModel, Function, InstModel, InstRegUses, RegAllocResult};
use regalloc::mapping::VregMap;
use regalloc::ranges::{RealRange, SpillSlot, VirtualRange};
use regalloc::regs::{
    RealReg, RealRegUniverse, Reg, RegClass, RegSet, VirtualReg, Writable,
};
use regalloc::show::show_RA_state;
use regalloc::spill::BridgeKind;

#[derive(Clone, Debug, PartialEq)]
enum Inst {
    Op { uses: Vec<Reg>, defs: Vec<Reg>, mods: Vec<Reg> },
    Spill { slot: u32, from: u8 },
    Reload { to: u8, slot: u32 },
    Move { to: u8, from: u8 },
    Nop,
}

fn op(uses: &[Reg], defs: &[Reg], mods: &[Reg]) -> Inst {
    Inst::Op { uses: uses.to_vec(), defs: defs.to_vec(), mods: mods.to_vec() }
}

struct Toy {
    insns: Vec<Inst>,
    /// Where each block starts, and the end.
    bounds: Vec<u32>,
    /// The size of the smallest spill slot.
    slot_unit: u32,
}

fn set_of(regs: &[Reg]) -> RegSet {
    let mut set = RegSet::empty();
    for r in regs {
        set.insert(*r);
    }
    set
}

fn rr(class: RegClass, index: u8) -> RealReg {
    RealReg { class, enc: index, index }
}

fn mapped(regs: &mut Vec<Reg>, map: &VregMap) {
    for r in regs.iter_mut() {
        if let Reg::Virtual(v) = *r {
            if let Some(real_reg) = map.get(v) {
                *r = Reg::Real(real_reg);
            }
        }
    }
}

impl Function for Toy {
    type Inst = Inst;

    fn model(&self) -> FuncModel<Inst> {
        unreachable!()
    }

    fn inst_model() -> InstModel<Inst> {
        unreachable!()
    }

    fn insn_indices(&self) -> IxRange<InstIx> {
        IxRange::new(InstIx::new(0), self.insns.len() as u32)
    }

    fn get_insn(&self, iix: InstIx) -> &Inst {
        &self.insns[iix.get() as usize]
    }

    fn get_insn_mut(&mut self, iix: InstIx) -> &mut Inst {
        &mut self.insns[iix.get() as usize]
    }

    fn blocks(&self) -> IxRange<BlockIx> {
        IxRange::new(BlockIx::new(0), self.bounds.len() as u32 - 1)
    }

    fn block_insns(&self, block: BlockIx) -> IxRange<InstIx> {
        let b = block.get() as usize;
        IxRange::new(InstIx::new(self.bounds[b]), self.bounds[b + 1] - self.bounds[b])
    }

    fn get_regs(&self, insn: &Inst) -> InstRegUses {
        let none: Vec<Reg> = vec![];
        let (u, d, m) = match insn {
            Inst::Op { uses, defs, mods } => (uses.clone(), defs.clone(), mods.clone()),
            Inst::Spill { from, .. } => {
                (vec![Reg::Real(rr(RegClass::I32, *from))], none.clone(), none)
            }
            Inst::Reload { to, .. } => {
                (none.clone(), vec![Reg::Real(rr(RegClass::I32, *to))], none)
            }
            Inst::Move { to, from } => (
                vec![Reg::Real(rr(RegClass::I32, *from))],
                vec![Reg::Real(rr(RegClass::I32, *to))],
                none,
            ),
            Inst::Nop => (none.clone(), none.clone(), none),
        };
        InstRegUses { used: set_of(&u), defined: set_of(&d), modified: set_of(&m) }
    }

    fn map_regs(insn: &mut Inst, map_uses: &VregMap, map_defs: &VregMap) {
        if let Inst::Op { uses, defs, mods } = insn {
            mapped(uses, map_uses);
            mapped(defs, map_defs);
            mapped(mods, map_uses);
        }
    }

    fn get_spillslot_size(&self, regclass: RegClass) -> u32 {
        match regclass {
            RegClass::I32 | RegClass::F32 => self.slot_unit,
            RegClass::I64 | RegClass::F64 => 2 * self.slot_unit,
            RegClass::V128 => 4 * self.slot_unit,
        }
    }

    fn gen_spill(&self, to_slot: SpillSlot, from_reg: RealReg, _for_vreg: VirtualReg) -> Inst {
        Inst::Spill { slot: to_slot.get(), from: from_reg.index }
    }

    fn gen_reload(
        &self,
        to_reg: Writable<RealReg>,
        from_slot: SpillSlot,
        _for_vreg: VirtualReg,
    ) -> Inst {
        Inst::Reload { to: to_reg.to_reg().index, slot: from_slot.get() }
    }

    fn gen_move(
        &self,
        to_reg: Writable<RealReg>,
        from_reg: RealReg,
        _for_vreg: VirtualReg,
    ) -> Inst {
        Inst::Move { to: to_reg.to_reg().index, from: from_reg.index }
    }

    fn gen_zero_len_nop(&self) -> Inst {
        Inst::Nop
    }
}

/// `n32` registers of class I32 and then `n64` of class I64, all allocable.
fn universe(n32: usize, n64: usize) -> RealRegUniverse {
    let mut regs: Vec<(RealReg, String)> = vec![];
    for i in 0..n32 + n64 {
        let class = if i < n32 { RegClass::I32 } else { RegClass::I64 };
        regs.push((rr(class, i as u8), format!("r{}", i)));
    }
    let by_class = |first: usize, n: usize| if n == 0 { None } else { Some((first, first + n - 1)) };
    RealRegUniverse {
        regs,
        allocable: n32 + n64,
        allocable_by_class: [by_class(0, n32), None, by_class(n32, n64), None, None],
    }
}

fn frag(first: (u32, Point), last: (u32, Point)) -> RangeFrag {
    RangeFrag {
        bix: BlockIx::new(0),
        kind: RangeFragKind::Local,
        first: InstPoint::new(InstIx::new(first.0), first.1),
        last: InstPoint::new(InstIx::new(last.0), last.1),
        count: 2,
    }
}

fn vr(class: RegClass, index: u32) -> VirtualReg {
    VirtualReg { class, index }
}

fn v(index: u32) -> Reg {
    Reg::Virtual(vr(RegClass::I32, index))
}

fn r(index: u8) -> Reg {
    Reg::Real(rr(RegClass::I32, index))
}

fn fixs(ixs: &[u32]) -> SortedRangeFragIxs {
    SortedRangeFragIxs { fragIxs: ixs.iter().map(|i| RangeFragIx::new(*i)).collect() }
}

fn range(vreg: VirtualReg, frags: &[u32], size: u16, cost: u32) -> VirtualRange {
    VirtualRange { vreg, rreg: None, sortedFrags: fixs(frags), size, spillCost: Some(cost) }
}

fn analysis(
    rlrs: Vec<RealRange>,
    vlrs: Vec<VirtualRange>,
    frags: Vec<RangeFrag>,
) -> Result<Analysis, String> {
    let rlr_env: TypedIxVec<RealRangeIx, RealRange> = TypedIxVec::from_vec(rlrs);
    let vlr_env: TypedIxVec<VirtualRangeIx, VirtualRange> = TypedIxVec::from_vec(vlrs);
    let frag_env: TypedIxVec<RangeFragIx, RangeFrag> = TypedIxVec::from_vec(frags);
    Ok(Analysis { rlr_env, vlr_env, frag_env })
}

/// Allocates, and makes sure that the input is as it should be.
fn allocated(
    func: &mut Toy,
    uni: &RealRegUniverse,
    input: Result<Analysis, String>,
) -> Result<RegAllocResult<Toy>, String> {
    if let Ok(a) = &input {
        assert!(input_is_ok(func, uni, a));
    }
    alloc_main(func, uni, input)
}

fn clobbers(result: &RegAllocResult<Toy>) -> Vec<u8> {
    let mut v: Vec<u8> = result.clobbered_registers.elems.iter().map(|r| r.index).collect();
    v.sort();
    v
}

fn targets(result: &RegAllocResult<Toy>) -> Vec<u32> {
    result.target_map.vector.iter().map(|i| i.get()).collect()
}

fn straight_line(insns: Vec<Inst>) -> Toy {
    let n = insns.len() as u32;
    Toy { insns, bounds: vec![0, n], slot_unit: 1 }
}

fn three_ranges() -> (Toy, Vec<VirtualRange>, Vec<RangeFrag>) {
    let func = straight_line(vec![
        op(&[], &[v(0)], &[]),
        op(&[], &[v(1)], &[]),
        op(&[v(0), v(1)], &[v(2)], &[]),
        op(&[v(2)], &[], &[]),
    ]);
    let frags = vec![
        frag((0, Point::Def), (2, Point::Use)),
        frag((1, Point::Def), (2, Point::Use)),
        frag((2, Point::Def), (3, Point::Use)),
    ];
    let vlrs = vec![
        range(vr(RegClass::I32, 0), &[0], 3, 10),
        range(vr(RegClass::I32, 1), &[1], 2, 10),
        range(vr(RegClass::I32, 2), &[2], 2, 10),
    ];
    (func, vlrs, frags)
}

#[test]
fn ranges_go_to_the_first_register_with_room() {
    let (mut func, vlrs, frags) = three_ranges();
    let result =
        allocated(&mut func, &universe(2, 0), analysis(vec![], vlrs, frags)).ok().expect("allocated");
    let code = vec![
        op(&[], &[r(0)], &[]),
        op(&[], &[r(1)], &[]),
        op(&[r(0), r(1)], &[r(0)], &[]),
        op(&[r(0)], &[], &[]),
    ];
    assert_eq!(result.insns, code);
    assert_eq!(func.insns, code);
    assert_eq!(targets(&result), vec![0]);
    assert_eq!(clobbers(&result), vec![0, 1]);
    assert_eq!(result.num_spill_slots, 0);
}

#[test]
fn the_same_input_has_the_same_outcome() {
    let (mut f1, vlrs1, frags1) = three_ranges();
    let (mut f2, vlrs2, frags2) = three_ranges();
    let r1 = allocated(&mut f1, &universe(2, 0), analysis(vec![], vlrs1, frags1)).ok().expect("ok");
    let r2 = allocated(&mut f2, &universe(2, 0), analysis(vec![], vlrs2, frags2)).ok().expect("ok");
    assert_eq!(r1.insns, r2.insns);
    assert_eq!(targets(&r1), targets(&r2));
    assert_eq!(clobbers(&r1), clobbers(&r2));
}

fn nested_ranges() -> (Toy, Vec<VirtualRange>, Vec<RangeFrag>) {
    let func = straight_line(vec![
        op(&[], &[v(0)], &[]),
        op(&[], &[v(1)], &[]),
        op(&[v(1)], &[], &[]),
        op(&[v(0)], &[], &[]),
    ]);
    let frags = vec![
        frag((0, Point::Def), (3, Point::Use)),
        frag((1, Point::Def), (2, Point::Use)),
    ];
    let vlrs = vec![
        range(vr(RegClass::I32, 0), &[0], 4, 1),
        range(vr(RegClass::I32, 1), &[1], 2, 5),
    ];
    (func, vlrs, frags)
}

#[test]
fn a_cheaper_range_is_evicted_and_then_spilled() {
    let (mut func, vlrs, frags) = nested_ranges();
    let result =
        allocated(&mut func, &universe(1, 0), analysis(vec![], vlrs, frags)).ok().expect("allocated");
    assert_eq!(
        result.insns,
        vec![
            op(&[], &[r(0)], &[]),
            Inst::Spill { slot: 0, from: 0 },
            op(&[], &[r(0)], &[]),
            op(&[r(0)], &[], &[]),
            Inst::Reload { to: 0, slot: 0 },
            op(&[r(0)], &[], &[]),
        ]
    );
    assert_eq!(result.num_spill_slots, 1);
    assert_eq!(targets(&result), vec![0]);
    assert_eq!(clobbers(&result), vec![0]);
}

#[test]
fn a_range_of_equal_cost_is_not_evicted() {
    let (mut func, mut vlrs, frags) = nested_ranges();
    vlrs[0].spillCost = Some(5);
    let result =
        allocated(&mut func, &universe(1, 0), analysis(vec![], vlrs, frags)).ok().expect("allocated");
    // The shorter range finds no room and is spilled itself, but then its bridges, which nothing
    // can cost more than, drive the longer one out.
    assert_eq!(result.num_spill_slots, 2);
    assert_eq!(
        result.insns,
        vec![
            op(&[], &[r(0)], &[]),
            Inst::Spill { slot: 1, from: 0 },
            op(&[], &[r(0)], &[]),
            Inst::Spill { slot: 0, from: 0 },
            Inst::Reload { to: 0, slot: 0 },
            op(&[r(0)], &[], &[]),
            Inst::Reload { to: 0, slot: 1 },
            op(&[r(0)], &[], &[]),
        ]
    );
}

#[test]
fn slots_are_aligned_and_disjoint() {
    // Two ranges are modified while a third one, of higher cost, holds the only register.
    let w = Reg::Virtual(vr(RegClass::I64, 1));
    let mut func = straight_line(vec![
        op(&[], &[v(0)], &[]),
        op(&[], &[w], &[]),
        op(&[], &[], &[v(0)]),
        op(&[], &[], &[w]),
        op(&[v(0)], &[], &[]),
        op(&[w], &[], &[]),
    ]);
    let frags = vec![
        frag((0, Point::Def), (4, Point::Use)),
        frag((1, Point::Def), (5, Point::Use)),
    ];
    let vlrs = vec![
        range(vr(RegClass::I32, 0), &[0], 9, 1),
        range(vr(RegClass::I64, 1), &[1], 8, 1),
    ];
    // The client uses both registers itself between the instructions that mention the ranges.
    let all = vec![
        frags[0],
        frags[1],
        frag((2, Point::Spill), (3, Point::Reload)),
    ];
    let rlrs = vec![
        RealRange { rreg: rr(RegClass::I32, 0), sortedFrags: fixs(&[2]) },
        RealRange { rreg: rr(RegClass::I64, 1), sortedFrags: fixs(&[2]) },
    ];
    let uni = universe(1, 1);
    let clash = allocated(&mut func, &uni, analysis(rlrs, vlrs, all));
    // A bridge around the modification reaches the spill point, at which the client's own use
    // starts.
    assert_eq!(clash.err(), Some("out of registers".to_string()));

    let vlrs = vec![
        range(vr(RegClass::I32, 0), &[0], 9, 1),
        range(vr(RegClass::I64, 1), &[1], 8, 1),
    ];
    let all = vec![frags[0], frags[1], frag((3, Point::Reload), (3, Point::Reload))];
    let all2 = frag((2, Point::Use), (2, Point::Use));
    let rlrs = vec![
        RealRange { rreg: rr(RegClass::I32, 0), sortedFrags: fixs(&[2]) },
        RealRange { rreg: rr(RegClass::I64, 1), sortedFrags: fixs(&[3]) },
    ];
    let mut all = all;
    all.push(all2);
    let result = allocated(&mut func, &uni, analysis(rlrs, vlrs, all)).ok().expect("allocated");
    let x = Reg::Real(rr(RegClass::I64, 1));
    assert_eq!(
        result.insns,
        vec![
            op(&[], &[r(0)], &[]),
            Inst::Spill { slot: 0, from: 0 },
            op(&[], &[x], &[]),
            Inst::Spill { slot: 2, from: 1 },
            Inst::Reload { to: 0, slot: 0 },
            op(&[], &[], &[r(0)]),
            Inst::Spill { slot: 0, from: 0 },
            Inst::Reload { to: 1, slot: 2 },
            op(&[], &[], &[x]),
            Inst::Spill { slot: 2, from: 1 },
            Inst::Reload { to: 0, slot: 0 },
            op(&[r(0)], &[], &[]),
            Inst::Reload { to: 1, slot: 2 },
            op(&[x], &[], &[]),
        ]
    );
    assert_eq!(result.num_spill_slots, 4);
}

#[test]
fn too_few_registers_are_reported() {
    let mut func = straight_line(vec![
        op(&[], &[v(0)], &[]),
        op(&[], &[v(1)], &[]),
        op(&[v(0), v(1)], &[], &[]),
    ]);
    let before = func.insns.clone();
    let frags = vec![
        frag((0, Point::Def), (2, Point::Use)),
        frag((1, Point::Def), (2, Point::Use)),
    ];
    let vlrs = vec![
        range(vr(RegClass::I32, 0), &[0], 3, 1),
        range(vr(RegClass::I32, 1), &[1], 2, 1),
    ];
    let result = allocated(&mut func, &universe(1, 0), analysis(vec![], vlrs, frags));
    assert_eq!(result.err(), Some("out of registers".to_string()));
    assert_eq!(func.insns, before);
}

#[test]
fn a_class_without_registers_is_reported() {
    for (class, name) in [
        (RegClass::F32, "F32"),
        (RegClass::I64, "I64"),
        (RegClass::F64, "F64"),
        (RegClass::V128, "V128"),
    ] {
        let x = Reg::Virtual(vr(class, 0));
        let mut func = straight_line(vec![op(&[], &[x], &[]), op(&[x], &[], &[])]);
        let before = func.insns.clone();
        let frags = vec![frag((0, Point::Def), (1, Point::Use))];
        let vlrs = vec![range(vr(class, 0), &[0], 2, 1)];
        let result = allocated(&mut func, &universe(2, 0), analysis(vec![], vlrs, frags));
        assert_eq!(result.err(), Some(format!("no available registers for class {}", name)));
        assert_eq!(func.insns, before);
    }
}

#[test]
fn a_class_without_registers_is_reported_for_i32() {
    let mut func = straight_line(vec![op(&[], &[v(0)], &[]), op(&[v(0)], &[], &[])]);
    let frags = vec![frag((0, Point::Def), (1, Point::Use))];
    let vlrs = vec![range(vr(RegClass::I32, 0), &[0], 2, 1)];
    let result = allocated(&mut func, &universe(0, 2), analysis(vec![], vlrs, frags));
    assert_eq!(result.err(), Some("no available registers for class I32".to_string()));
}

#[test]
fn a_failed_analysis_is_reported() {
    let (mut func, _, _) = three_ranges();
    let before = func.insns.clone();
    let result = allocated(&mut func, &universe(2, 0), Err("no way in".to_string()));
    assert_eq!(result.err(), Some("no way in".to_string()));
    assert_eq!(func.insns, before);
}

#[test]
fn real_ranges_are_respected() {
    // The client uses r0 over the whole function, so that all goes to r1.
    let (mut func, mut vlrs, mut frags) = nested_ranges();
    vlrs.pop();
    func.insns[1] = op(&[], &[], &[]);
    func.insns[2] = op(&[], &[], &[]);
    frags[1] = frag((0, Point::Use), (3, Point::Def));
    let rlrs = vec![
        RealRange { rreg: rr(RegClass::I32, 0), sortedFrags: fixs(&[1]) },
        // Not allocable, and ignored.
        RealRange { rreg: rr(RegClass::I32, 9), sortedFrags: fixs(&[1]) },
    ];
    let result =
        allocated(&mut func, &universe(2, 0), analysis(rlrs, vlrs, frags)).ok().expect("allocated");
    assert_eq!(result.insns[0], op(&[], &[r(1)], &[]));
    assert_eq!(result.insns[3], op(&[r(1)], &[], &[]));
    assert_eq!(clobbers(&result), vec![1]);
}

#[test]
fn classes_have_their_own_registers() {
    let w = Reg::Virtual(vr(RegClass::I64, 1));
    let mut func = straight_line(vec![
        op(&[], &[v(0)], &[]),
        op(&[], &[w], &[]),
        op(&[v(0), w], &[], &[]),
    ]);
    let frags = vec![
        frag((0, Point::Def), (2, Point::Use)),
        frag((1, Point::Def), (2, Point::Use)),
    ];
    let vlrs = vec![
        range(vr(RegClass::I32, 0), &[0], 3, 1),
        range(vr(RegClass::I64, 1), &[1], 2, 1),
    ];
    let result =
        allocated(&mut func, &universe(1, 1), analysis(vec![], vlrs, frags)).ok().expect("allocated");
    let x = Reg::Real(rr(RegClass::I64, 1));
    assert_eq!(result.insns[2], op(&[r(0), x], &[], &[]));
}

#[test]
fn blocks_start_at_the_reloads_of_their_first_instruction() {
    let (mut func, vlrs, frags) = nested_ranges();
    func.bounds = vec![0, 1, 3, 4];
    let result =
        allocated(&mut func, &universe(1, 0), analysis(vec![], vlrs, frags)).ok().expect("allocated");
    // def, spill | def, use | reload, use
    assert_eq!(targets(&result), vec![0, 2, 4]);
    assert_eq!(result.insns[4], Inst::Reload { to: 0, slot: 0 });
}

#[test]
fn an_empty_function_is_allocated() {
    let mut func = Toy { insns: vec![], bounds: vec![0], slot_unit: 1 };
    let result =
        allocated(&mut func, &universe(1, 0), analysis(vec![], vec![], vec![])).ok().expect("allocated");
    assert!(result.insns.is_empty());
    assert!(result.target_map.vector.is_empty());
    assert_eq!(result.num_spill_slots, 0);
}

#[test]
fn tables_are_kept_and_shown() {
    let (func, vlrs, frags) = nested_ranges();
    let uni = universe(1, 0);
    let input = analysis(vec![], vlrs, frags).ok().expect("given");
    let mut allocator = Allocator::new(input, &uni);
    let costs = vec!["1.0".to_string(), "5.25".to_string()];
    let first = show_RA_state(
        "Initial",
        &uni,
        &allocator.prioQ,
        &allocator.per_real_reg,
        &allocator.edit_list,
        &allocator.vlr_env,
        &allocator.frag_env,
        &costs,
    );
    assert_eq!(
        first,
        vec![
            "<<<<====---- RA state at 'Initial' ----====",
            "r0     in_use:   []",
            "      assigned: []",
            "",
            "TODO  (VR: v0I32, sz=4, sc=1.0, [f0])",
            "TODO  (VR: v1I32, sz=2, sc=5.25, [f1])",
            ">>>>",
        ]
    );
    assert!(allocator.allocate(&func, &uni).is_ok());
    let last = show_RA_state(
        "Final",
        &uni,
        &allocator.prioQ,
        &allocator.per_real_reg,
        &allocator.edit_list,
        &allocator.vlr_env,
        &allocator.frag_env,
        &costs,
    );
    assert_eq!(
        last,
        vec![
            "<<<<====---- RA state at 'Final' ----====",
            "r0     in_use:   [f2(i0.d-i0.s), f1(i1.d-i2.u), f3(i3.r-i3.u)]",
            "      assigned: [vr1, vr2, vr3]",
            "",
            "ELI { for vr2 add 'D->S' S0 }",
            "ELI { for vr3 add 'R->U' S0 }",
            ">>>>",
        ]
    );
    // The ranges there were are as they were, but for their registers; the new ones are bridges.
    assert_eq!(allocator.vlr_env.vector.len(), 4);
    assert_eq!(allocator.vlr_env.vector[0].sortedFrags.fragIxs, vec![RangeFragIx::new(0)]);
    assert_eq!(allocator.vlr_env.vector[0].rreg, None);
    assert_eq!(allocator.vlr_env.vector[1].rreg, Some(rr(RegClass::I32, 0)));
    for x in 2..4 {
        assert_eq!(allocator.vlr_env.vector[x].spillCost, None);
        assert_eq!(allocator.vlr_env.vector[x].size, 1);
        assert_eq!(allocator.vlr_env.vector[x].rreg, Some(rr(RegClass::I32, 0)));
    }
    assert_eq!(allocator.edit_list[0].kind, BridgeKind::DtoS);
    assert_eq!(allocator.next_spill_slot.get(), 1);
    let (by_start, by_end) = allocator.collect_placements(&uni);
    assert_eq!(by_start, by_end);
    assert_eq!(by_start.len(), 3);
    assert_eq!(by_start[0], (RangeFragIx::new(1), vr(RegClass::I32, 1), rr(RegClass::I32, 0)));
}

#[test]
fn orders_for_one_place_use_different_registers_and_slots() {
    // Two spilled ranges meet at the instruction that reads them both.
    let mut func = straight_line(vec![
        op(&[], &[v(0)], &[]),
        op(&[], &[v(1)], &[]),
        op(&[], &[v(2)], &[]),
        op(&[], &[v(3)], &[]),
        op(&[v(2), v(3)], &[], &[]),
        op(&[v(0), v(1)], &[], &[]),
    ]);
    let frags = vec![
        frag((0, Point::Def), (5, Point::Use)),
        frag((1, Point::Def), (5, Point::Use)),
        frag((2, Point::Def), (4, Point::Use)),
        frag((3, Point::Def), (4, Point::Use)),
    ];
    let vlrs = vec![
        range(vr(RegClass::I32, 0), &[0], 6, 1),
        range(vr(RegClass::I32, 1), &[1], 5, 2),
        range(vr(RegClass::I32, 2), &[2], 3, 8),
        range(vr(RegClass::I32, 3), &[3], 2, 9),
    ];
    let result =
        allocated(&mut func, &universe(2, 0), analysis(vec![], vlrs, frags)).ok().expect("allocated");
    let n = result.insns.len();
    let reloads: Vec<(u8, u32)> = result.insns[n - 3..n - 1]
        .iter()
        .map(|i| match i {
            Inst::Reload { to, slot } => (*to, *slot),
            _ => panic!("not a reload: {:?}", i),
        })
        .collect();
    assert_ne!(reloads[0].0, reloads[1].0);
    assert_ne!(reloads[0].1, reloads[1].1);
    assert_eq!(result.num_spill_slots, 2);
}

/// Whether the input is as it should be, after it has been tampered with.
fn accepted(tamper: fn(&mut Toy, &mut RealRegUniverse, &mut Analysis)) -> bool {
    let (mut func, vlrs, frags) = nested_ranges();
    let mut uni = universe(2, 1);
    let mut input = analysis(vec![], vlrs, frags).ok().expect("given");
    tamper(&mut func, &mut uni, &mut input);
    input_is_ok(&func, &uni, &input)
}

#[test]
fn input_is_tested() {
    assert!(accepted(|_, _, _| {}));
    // Blocks that leave a gap at the end, overlap, or are empty.
    assert!(!accepted(|f, _, _| f.bounds = vec![0, 3]));
    assert!(!accepted(|f, _, _| f.bounds = vec![0, 2, 2, 4]));
    assert!(accepted(|f, _, _| f.bounds = vec![1, 2, 4]));
    // Registers that do not exist.
    assert!(!accepted(|_, u, _| u.allocable = 4));
    assert!(!accepted(|_, u, _| u.allocable_by_class[0] = Some((0, 3))));
    assert!(accepted(|_, u, _| u.allocable_by_class[0] = None));
    // A range of no size, with a register, with a fragment that does not exist or is not in order.
    assert!(!accepted(|_, _, a| a.vlr_env.vector[0].size = 0));
    assert!(!accepted(|_, _, a| a.vlr_env.vector[0].rreg = Some(rr(RegClass::I32, 0))));
    assert!(!accepted(|_, _, a| a.vlr_env.vector[0].sortedFrags = fixs(&[2])));
    assert!(!accepted(|_, _, a| a.vlr_env.vector[0].sortedFrags = fixs(&[1, 0])));
    // Fragments of unusual shape, back to front, or past the end of the function.
    assert!(!accepted(|_, _, a| a.frag_env.vector[0] = frag((0, Point::Def), (3, Point::Reload))));
    assert!(!accepted(|_, _, a| a.frag_env.vector[0] = frag((3, Point::Use), (0, Point::Def))));
    assert!(!accepted(|_, _, a| a.frag_env.vector[0] = frag((0, Point::Def), (4, Point::Use))));
    // A mention where nothing is live, and two ranges for one register at a time.
    assert!(!accepted(|_, _, a| a.frag_env.vector[0] = frag((0, Point::Def), (2, Point::Use))));
    assert!(!accepted(|_, _, a| a.frag_env.vector[1] = frag((1, Point::Use), (1, Point::Def))));
    assert!(!accepted(|f, _, a| {
        f.insns[1] = op(&[], &[v(0)], &[]);
        f.insns[2] = op(&[v(0)], &[], &[]);
        a.vlr_env.vector[1].vreg = vr(RegClass::I32, 0);
    }));
    // A register that is modified and read, and one that is modified with no range over it.
    assert!(!accepted(|f, _, _| f.insns[2] = op(&[v(1)], &[], &[v(1)])));
    assert!(accepted(|f, _, _| f.insns[2] = op(&[v(1), r(0)], &[r(0)], &[r(0)])));
    assert!(!accepted(|f, _, _| f.insns[3] = op(&[], &[], &[v(0)])));
    // Spill slots without a size, and a spill area that would be too large.
    assert!(!accepted(|f, _, _| f.slot_unit = 0));
    assert!(accepted(|f, _, _| f.slot_unit = 0x3fff_ffff));
    assert!(!accepted(|f, _, _| f.slot_unit = 0x4000_0000));
    // Real ranges that clash, but not where the registers are none of the allocator's.
    assert!(!accepted(|_, _, a| {
        for _ in 0..2 {
            let rlr = RealRange { rreg: rr(RegClass::I32, 1), sortedFrags: fixs(&[1]) };
            a.rlr_env.vector.push(rlr);
        }
    }));
    assert!(accepted(|_, _, a| {
        for _ in 0..2 {
            let rlr = RealRange { rreg: rr(RegClass::I32, 7), sortedFrags: fixs(&[1]) };
            a.rlr_env.vector.push(rlr);
        }
    }));
}

#[test]
fn fragments_have_one_of_four_shapes() {
    for (first, last, sane) in [
        ((1, Point::Use), (1, Point::Def), true),
        ((1, Point::Def), (3, Point::Use), true),
        ((1, Point::Reload), (1, Point::Use), true),
        ((1, Point::Reload), (1, Point::Spill), true),
        ((1, Point::Def), (1, Point::Spill), true),
        ((1, Point::Reload), (2, Point::Use), false),
        ((1, Point::Use), (1, Point::Spill), false),
        ((1, Point::Reload), (1, Point::Def), false),
        ((2, Point::Use), (1, Point::Def), false),
        ((1, Point::Def), (2, Point::Spill), false),
    ] {
        assert_eq!(frag(first, last).has_sane_shape(), sane);
    }
}

#[test]
fn bridges_are_never_driven_out() {
    // One register, and two short ranges within a long one: the long one is spilled, and what is
    // left of it stays where it is while the short ones come and go.
    let mut func = straight_line(vec![
        op(&[], &[v(0)], &[]),
        op(&[v(0)], &[], &[]),
        op(&[], &[v(1)], &[]),
        op(&[v(1)], &[], &[]),
        op(&[v(0)], &[], &[]),
    ]);
    let frags = vec![
        frag((0, Point::Def), (4, Point::Use)),
        frag((2, Point::Def), (3, Point::Use)),
    ];
    let vlrs = vec![
        range(vr(RegClass::I32, 0), &[0], 5, 3),
        range(vr(RegClass::I32, 1), &[1], 2, 7),
    ];
    let result =
        allocated(&mut func, &universe(1, 0), analysis(vec![], vlrs, frags)).ok().expect("allocated");
    assert_eq!(
        result.insns,
        vec![
            op(&[], &[r(0)], &[]),
            Inst::Spill { slot: 0, from: 0 },
            Inst::Reload { to: 0, slot: 0 },
            op(&[r(0)], &[], &[]),
            op(&[], &[r(0)], &[]),
            op(&[r(0)], &[], &[]),
            Inst::Reload { to: 0, slot: 0 },
            op(&[r(0)], &[], &[]),
        ]
    );
}

#[test]
fn turns_are_taken_one_by_one() {
    let (func, vlrs, frags) = nested_ranges();
    let uni = universe(1, 0);
    let mut allocator = Allocator::new(analysis(vec![], vlrs, frags).ok().expect("given"), &uni);
    let x = |i: u32| VirtualRangeIx::new(i);
    let rreg = rr(RegClass::I32, 0);
    assert_eq!(allocator.take_turn(&func, &uni), Progress::Placed { vlrix: x(0), rreg });
    assert_eq!(allocator.per_real_reg[0].vlrixs_assigned, vec![x(0)]);
    assert_eq!(
        allocator.take_turn(&func, &uni),
        Progress::Replaced { vlrix: x(1), evicted: x(0), rreg }
    );
    assert_eq!(allocator.per_real_reg[0].vlrixs_assigned, vec![x(1)]);
    assert_eq!(allocator.prioQ.unallocated, vec![x(0)]);
    assert_eq!(allocator.take_turn(&func, &uni), Progress::Spilled { vlrix: x(0) });
    assert_eq!(allocator.edit_list.len(), 2);
    let mut placed = vec![];
    for _ in 0..2 {
        match allocator.take_turn(&func, &uni) {
            Progress::Placed { vlrix, rreg: given } if given == rreg => placed.push(vlrix.get()),
            other => panic!("the bridges should be placed: {:?}", other),
        }
    }
    placed.sort();
    assert_eq!(placed, vec![2, 3]);
    assert_eq!(allocator.take_turn(&func, &uni), Progress::Done);
    assert_eq!(Progress::Done.failure(), None);
}

#[test]
fn a_turn_tells_why_there_is_no_way_on() {
    let (func, vlrs, frags) = nested_ranges();
    let uni = universe(0, 1);
    let mut allocator = Allocator::new(analysis(vec![], vlrs, frags).ok().expect("given"), &uni);
    let told = allocator.take_turn(&func, &uni);
    let vlrix = VirtualRangeIx::new(0);
    assert_eq!(told, Progress::NoRegsForClass { vlrix, class: RegClass::I32 });
    assert_eq!(told.failure(), Some("no available registers for class I32".to_string()));
    assert_eq!(allocator.prioQ.unallocated, vec![VirtualRangeIx::new(1)]);

    let func = straight_line(vec![
        op(&[], &[v(0)], &[]),
        op(&[], &[v(1)], &[]),
        op(&[v(0), v(1)], &[], &[]),
    ]);
    let frags = vec![
        frag((0, Point::Def), (2, Point::Use)),
        frag((1, Point::Def), (2, Point::Use)),
    ];
    let vlrs = vec![
        range(vr(RegClass::I32, 0), &[0], 3, 1),
        range(vr(RegClass::I32, 1), &[1], 2, 1),
    ];
    let uni = universe(1, 0);
    let mut allocator = Allocator::new(analysis(vec![], vlrs, frags).ok().expect("given"), &uni);
    let mut told = allocator.take_turn(&func, &uni);
    while told.failure().is_none() && told != Progress::Done {
        told = allocator.take_turn(&func, &uni);
    }
    assert!(matches!(told, Progress::OutOfRegs { vlrix } if vlrix.get() >= 2));
    assert_eq!(told.failure(), Some("out of registers".to_string()));
}

#[test]
fn a_spill_area_may_be_filled_to_the_last_slot() {
    let (mut func, vlrs, frags) = nested_ranges();
    func.slot_unit = u32::MAX;
    let uni = universe(1, 0);
    let input = analysis(vec![], vlrs, frags).ok().expect("given");
    // It is not certain at first, but there turns out to be room.
    assert!(!input_is_ok(&func, &uni, &input));
    assert!(can_start(&func, &uni, &input));
    let mut allocator = Allocator::new(input, &uni);
    for _ in 0..5 {
        let told = allocator.take_turn(&func, &uni);
        assert!(told != Progress::Done && told.failure().is_none());
    }
    assert_eq!(allocator.take_turn(&func, &uni), Progress::Done);
    assert_eq!(allocator.next_spill_slot.get(), u32::MAX);
}

#[test]
fn a_spill_that_goes_over_the_limit_is_not_made() {
    let mut func = straight_line(vec![
        op(&[], &[v(0)], &[]),
        op(&[], &[v(1)], &[]),
        op(&[], &[v(2)], &[]),
        op(&[v(2)], &[], &[]),
        op(&[v(1)], &[], &[]),
        op(&[v(0)], &[], &[]),
    ]);
    func.slot_unit = 0x8000_0001;
    let frags = vec![
        frag((0, Point::Def), (5, Point::Use)),
        frag((1, Point::Def), (4, Point::Use)),
        frag((2, Point::Def), (3, Point::Use)),
    ];
    let vlrs = vec![
        range(vr(RegClass::I32, 0), &[0], 6, 1),
        range(vr(RegClass::I32, 1), &[1], 4, 5),
        range(vr(RegClass::I32, 2), &[2], 2, 9),
    ];
    let uni = universe(1, 0);
    let input = analysis(vec![], vlrs, frags).ok().expect("given");
    assert!(can_start(&func, &uni, &input));
    let mut allocator = Allocator::new(input, &uni);
    let x = |i: u32| VirtualRangeIx::new(i);
    let rreg = rr(RegClass::I32, 0);
    assert_eq!(allocator.take_turn(&func, &uni), Progress::Placed { vlrix: x(0), rreg });
    assert_eq!(
        allocator.take_turn(&func, &uni),
        Progress::Replaced { vlrix: x(1), evicted: x(0), rreg }
    );
    assert_eq!(allocator.take_turn(&func, &uni), Progress::Spilled { vlrix: x(0) });
    assert_eq!(
        allocator.take_turn(&func, &uni),
        Progress::Replaced { vlrix: x(2), evicted: x(1), rreg }
    );
    let told = allocator.take_turn(&func, &uni);
    assert_eq!(told, Progress::OverLimit { vlrix: x(1) });
    assert_eq!(told.failure(), None);
    assert_eq!(allocator.vlr_env.vector.len(), 5);
    assert_eq!(allocator.frag_env.vector.len(), 5);
    assert_eq!(allocator.edit_list.len(), 2);
    assert_eq!(allocator.next_spill_slot.get(), 0x8000_0001);
    assert!(!allocator.prioQ.unallocated.contains(&x(1)));
}

#[test]
fn plentiful_registers_mean_no_spills() {
    // A fourth register is the client's own, all along.
    let (mut func, vlrs, mut frags) = three_ranges();
    frags.push(frag((0, Point::Use), (3, Point::Def)));
    let rlr = RealRange { rreg: rr(RegClass::I32, 0), sortedFrags: fixs(&[3]) };
    let uni = universe(4, 0);
    let input = analysis(vec![rlr], vlrs, frags).ok().expect("given");
    assert!(can_start(&func, &uni, &input));
    let mut allocator = Allocator::new(input, &uni);
    for _ in 0..3 {
        let told = allocator.take_turn(&func, &uni);
        assert!(matches!(told, Progress::Placed { rreg, .. } if rreg.index > 0));
    }
    assert_eq!(allocator.take_turn(&func, &uni), Progress::Done);
    assert!(allocator.edit_list.is_empty());
    let result = finish(&mut func, &uni, allocator).ok().expect("finished");
    assert_eq!(result.num_spill_slots, 0);
    assert_eq!(result.insns.len(), 4);
}

#[test]
fn spill_slots_need_a_size_when_something_is_spilled() {
    let (mut func, vlrs, frags) = nested_ranges();
    func.slot_unit = 0;
    let input = analysis(vec![], vlrs, frags).ok().expect("given");
    assert!(can_start(&func, &universe(2, 0), &input));
    // With two registers nothing is spilled.
    let result = alloc_main(&mut func, &universe(2, 0), Ok(input)).ok().expect("allocated");
    assert_eq!(
        result.insns,
        vec![
            op(&[], &[r(0)], &[]),
            op(&[], &[r(1)], &[]),
            op(&[r(1)], &[], &[]),
            op(&[r(0)], &[], &[]),
        ]
    );
    assert_eq!(result.num_spill_slots, 0);

    let (mut func, vlrs, frags) = nested_ranges();
    func.slot_unit = 0;
    let uni = universe(1, 0);
    let mut allocator = Allocator::new(analysis(vec![], vlrs, frags).ok().expect("given"), &uni);
    allocator.take_turn(&func, &uni);
    allocator.take_turn(&func, &uni);
    let vlrix = VirtualRangeIx::new(0);
    assert_eq!(allocator.take_turn(&func, &uni), Progress::OverLimit { vlrix });
    assert_eq!(allocator.edit_list.len(), 0);
    assert_eq!(allocator.next_spill_slot.get(), 0);
}

#[test]
fn only_what_is_written_has_to_be_covered() {
    let mut func = straight_line(vec![op(&[v(7)], &[v(0)], &[]), op(&[v(0)], &[], &[])]);
    let frag_env: TypedIxVec<RangeFragIx, RangeFrag> =
        TypedIxVec::from_vec(vec![frag((0, Point::Def), (1, Point::Use))]);
    let vlr_env: TypedIxVec<VirtualRangeIx, VirtualRange> = TypedIxVec::from_vec(vec![]);
    let list = vec![(RangeFragIx::new(0), vr(RegClass::I32, 0), rr(RegClass::I32, 3))];
    let result = edit_inst_stream(&mut func, vec![], list.clone(), list, &frag_env, &vlr_env, 4)
        .ok()
        .expect("edited");
    assert_eq!(result.insns, vec![op(&[v(7)], &[r(3)], &[]), op(&[r(3)], &[], &[])]);
    assert_eq!(clobbers(&result), vec![3]);
    assert_eq!(result.num_spill_slots, 4);
}

/// A source of numbers that look random and are the same each time.
struct Numbers(u64);

impl Numbers {
    fn below(&mut self, n: u64) -> u64 {
        self.0 = self.0.wrapping_mul(6364136223846793005).wrapping_add(1442695040888963407);
        (self.0 >> 33) % n
    }
}

fn mix(a: u64, b: u64) -> u64 {
    (a ^ b.rotate_left(17)).wrapping_mul(0x9E37_79B9_7F4A_7C15) ^ (a >> 7)
}

/// What the operations of some code read, in order, where each one writes values that depend on
/// what it reads.
fn readings(code: &[Inst]) -> Vec<Vec<u64>> {
    let mut regs: Vec<(Reg, u64)> = vec![];
    let mut slots: Vec<(u32, u64)> = vec![];
    let mut seen: Vec<Vec<u64>> = vec![];
    fn get<K: PartialEq>(table: &[(K, u64)], key: &K) -> u64 {
        table.iter().rev().find(|e| e.0 == *key).expect("written before").1
    }
    for insn in code {
        match insn {
            Inst::Op { uses, defs, mods } => {
                let mut read: Vec<u64> = uses.iter().map(|u| get(&regs, u)).collect();
                for m in mods {
                    read.push(get(&regs, m));
                }
                let mut value = seen.len() as u64 + 1;
                for x in &read {
                    value = mix(value, *x);
                }
                for (i, w) in mods.iter().chain(defs.iter()).enumerate() {
                    regs.push((*w, mix(value, i as u64)));
                }
                seen.push(read);
            }
            Inst::Spill { slot, from } => {
                let x = get(&regs, &r(*from));
                slots.push((*slot, x));
            }
            Inst::Reload { to, slot } => {
                let x = get(&slots, slot);
                regs.push((r(*to), x));
            }
            Inst::Move { to, from } => {
                let x = get(&regs, &r(*from));
                regs.push((r(*to), x));
            }
            Inst::Nop => {}
        }
    }
    seen
}

/// Straight-line code in which each instruction defines a register of its own, and reads and
/// modifies a few of the earlier ones; with its live ranges.
fn some_code(numbers: &mut Numbers, len: u32) -> (Toy, Vec<VirtualRange>, Vec<RangeFrag>) {
    let mut insns: Vec<Inst> = vec![];
    let mut last: Vec<InstPoint> = vec![];
    for k in 0..len {
        let iix = InstIx::new(k);
        let mut uses: Vec<Reg> = vec![];
        let mut mods: Vec<Reg> = vec![];
        if k > 0 && numbers.below(4) == 0 {
            let x = numbers.below(k as u64) as u32;
            mods.push(v(x));
            last[x as usize] = InstPoint::new_def(iix);
        }
        for _ in 0..numbers.below(3) {
            if k > 0 {
                let x = numbers.below(k as u64) as u32;
                if !mods.contains(&v(x)) && !uses.contains(&v(x)) {
                    uses.push(v(x));
                    last[x as usize] = InstPoint::new_use(iix);
                }
            }
        }
        insns.push(op(&uses, &[v(k)], &mods));
        last.push(InstPoint::new_def(iix));
    }
    let mut vlrs: Vec<VirtualRange> = vec![];
    let mut frags: Vec<RangeFrag> = vec![];
    for k in 0..len {
        let mut f = frag((k, Point::Def), (k, Point::Def));
        f.last = last[k as usize];
        let size = (f.last.iix.get() - k + 1) as u16;
        frags.push(f);
        vlrs.push(range(vr(RegClass::I32, k), &[k], size, numbers.below(20) as u32));
    }
    (straight_line(insns), vlrs, frags)
}

#[test]
fn allocated_code_computes_the_same_values() {
    let mut numbers = Numbers(20);
    let mut successes = 0;
    let mut spills = 0;
    for round in 0..150 {
        let len = 3 + numbers.below(25) as u32;
        let (mut func, vlrs, frags) = some_code(&mut numbers, len);
        let expected = readings(&func.insns);
        let uni = universe(2 + round % 4, 0);
        match allocated(&mut func, &uni, analysis(vec![], vlrs, frags)) {
            Ok(result) => {
                assert_eq!(readings(&result.insns), expected);
                successes += 1;
                spills += result.num_spill_slots;
            }
            Err(e) => assert_eq!(e, "out of registers"),
        }
    }
    assert!(successes > 100);
    assert!(spills > 100);
}

#[test]
fn placements_do_not_clash() {
    let mut numbers = Numbers(7);
    for round in 0..60 {
        let (func, vlrs, frags) = some_code(&mut numbers, 20);
        let uni = universe(3 + round % 3, 0);
        let mut allocator =
            Allocator::new(analysis(vec![], vlrs, frags).ok().expect("given"), &uni);
        if allocator.allocate(&func, &uni).is_err() {
            continue;
        }
        let (places, _) = allocator.collect_placements(&uni);
        for (i, a) in places.iter().enumerate() {
            for b in &places[i + 1..] {
                let fa = allocator.frag_env.at(a.0);
                let fb = allocator.frag_env.at(b.0);
                let apart = fa.last.to_u64() < fb.first.to_u64()
                    || fb.last.to_u64() < fa.first.to_u64();
                // Neither for one real register, nor for one virtual register.
                assert!(apart || a.2 != b.2);
                assert!(apart || a.1 != b.1);
            }
        }
        // Each register is committed to the fragments of what is assigned to it.
        for reg in &allocator.per_real_reg {
            let mut held: Vec<u32> = vec![];
            for x in &reg.vlrixs_assigned {
                held.extend(allocator.vlr_env.at(*x).sortedFrags.fragIxs.iter().map(|f| f.get()));
            }
            let mut used: Vec<u32> = reg.frags_in_use.fragIxs.iter().map(|f| f.get()).collect();
            held.sort();
            used.sort();
            assert_eq!(held, used);
        }
        // Each spilled range has a slot of its own.
        for e in &allocator.edit_list {
            for f in &allocator.edit_list {
                let va = allocator.vlr_env.at(e.vlrix).vreg;
                let vb = allocator.vlr_env.at(f.vlrix).vreg;
                assert_eq!(e.slot == f.slot, va == vb);
            }
        }
    }
}
