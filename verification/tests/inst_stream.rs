//! Editing instruction streams, with and without a checker.

use regalloc::checker::{Checker, CheckerInst};
use regalloc::frags::{InstPoint, Point, RangeFrag, RangeFragKind};
use regalloc::index::{BlockIx, InstIx, IxRange, RangeFragIx, TypedIx, TypedIxVec};
use regalloc::inst_stream::{
    add_spills_reloads_and_moves, edit_inst_stream, map_vregs_to_rregs, InstToInsert,
    InstToInsertAndPoint,
};
use regalloc::interface::{FuncModel, Function, InstModel, InstRegUses, RegAllocError};
use regalloc::mapping::VregMap;
use regalloc::ranges::SpillSlot;
use regalloc::regs::{RealReg, RealRegUniverse, Reg, RegClass, RegSet, VirtualReg, Writable};

/// An instruction that reads and writes one register each, or one that the library had made.
#[derive(Clone, Debug, PartialEq)]
enum Inst {
    Op(Option<Reg>, Option<Reg>),
    Spill(u32, u8, u32),
    Reload(u8, u32, u32),
    Move(u8, u8, u32),
    Nop,
}

struct Toy {
    insns: Vec<Inst>,
    bounds: Vec<u32>,
}

fn set_of(reg: &Option<Reg>) -> RegSet {
    let mut set = RegSet::empty();
    if let Some(r) = reg {
        set.insert(*r);
    }
    set
}

fn mapped(reg: &Option<Reg>, map: &VregMap) -> Option<Reg> {
    match reg {
        Some(Reg::Virtual(v)) => Some(Reg::Real(map.get(*v).expect("mapped"))),
        other => *other,
    }
}

impl Function for Toy {
    type Inst = Inst;

    fn model(&self) -> FuncModel<Inst> {
        unreachable!()
    }

    fn inst_model() -> InstModel<Inst> {
        unreachable!()
    }

    fn insn_indices(&self) -> IxRange<InstIx> {
        IxRange::new(InstIx::new(0), self.insns.len() as u32)
    }

    fn get_insn(&self, iix: InstIx) -> &Inst {
        &self.insns[iix.get() as usize]
    }

    fn get_insn_mut(&mut self, iix: InstIx) -> &mut Inst {
        &mut self.insns[iix.get() as usize]
    }

    fn blocks(&self) -> IxRange<BlockIx> {
        IxRange::new(BlockIx::new(0), self.bounds.len() as u32 - 1)
    }

    fn block_insns(&self, block: BlockIx) -> IxRange<InstIx> {
        let b = block.get() as usize;
        IxRange::new(InstIx::new(self.bounds[b]), self.bounds[b + 1] - self.bounds[b])
    }

    fn get_regs(&self, insn: &Inst) -> InstRegUses {
        let (used, defined) = match insn {
            Inst::Op(u, d) => (set_of(u), set_of(d)),
            _ => (RegSet::empty(), RegSet::empty()),
        };
        InstRegUses { used, defined, modified: RegSet::empty() }
    }

    fn map_regs(insn: &mut Inst, map_uses: &VregMap, map_defs: &VregMap) {
        if let Inst::Op(u, d) = insn {
            *u = mapped(u, map_uses);
            *d = mapped(d, map_defs);
        }
    }

    fn get_spillslot_size(&self, _regclass: RegClass) -> u32 {
        1
    }

    fn gen_spill(&self, to_slot: SpillSlot, from_reg: RealReg, for_vreg: VirtualReg) -> Inst {
        Inst::Spill(to_slot.get(), from_reg.index, for_vreg.index)
    }

    fn gen_reload(
        &self,
        to_reg: Writable<RealReg>,
        from_slot: SpillSlot,
        for_vreg: VirtualReg,
    ) -> Inst {
        Inst::Reload(to_reg.to_reg().index, from_slot.get(), for_vreg.index)
    }

    fn gen_move(
        &self,
        to_reg: Writable<RealReg>,
        from_reg: RealReg,
        for_vreg: VirtualReg,
    ) -> Inst {
        Inst::Move(to_reg.to_reg().index, from_reg.index, for_vreg.index)
    }

    fn gen_zero_len_nop(&self) -> Inst {
        Inst::Nop
    }
}

/// A checker that objects to one instruction, or to the whole, and counts what it was told.
struct Picky {
    insns: u32,
    added: usize,
    seen: Vec<(u32, u32, Option<u8>, Option<u8>)>,
    objects_at: u32,
    verdict: bool,
}

const V0: VirtualReg = VirtualReg { class: RegClass::I32, index: 0 };
const V1: VirtualReg = VirtualReg { class: RegClass::I32, index: 1 };

/// The instruction to object to is given by the number of registers in the universe.
impl Checker<Toy> for Picky {
    type Errors = (usize, Vec<(u32, u32, Option<u8>, Option<u8>)>);

    fn new(
        func: &Toy,
        reg_universe: &RealRegUniverse,
        insts_to_add: &Vec<InstToInsertAndPoint>,
    ) -> Self {
        Picky {
            insns: func.insn_indices().len(),
            added: insts_to_add.len(),
            seen: vec![],
            objects_at: reg_universe.regs.len() as u32,
            verdict: reg_universe.allocable == 0,
        }
    }

    fn handle_insn(
        mut self,
        _reg_universe: &RealRegUniverse,
        func: &Toy,
        block: BlockIx,
        insn: InstIx,
        map_uses: &VregMap,
        map_defs: &VregMap,
    ) -> Result<Self, Self::Errors> {
        assert_eq!(func.insn_indices().len(), self.insns);
        // The instruction at hand has not been touched, the one before it has.
        if let Inst::Op(Some(Reg::Real(_)), _) = func.get_insn(insn) {
            panic!("{:?} is edited already", insn);
        }
        if self.objects_at == insn.get() {
            return Err((self.added, self.seen));
        }
        self.seen.push((
            block.get(),
            insn.get(),
            map_uses.get(V0).map(|r| r.index),
            map_defs.get(V1).map(|r| r.index),
        ));
        Ok(self)
    }

    fn run(self) -> Result<(), Self::Errors> {
        if self.verdict {
            Ok(())
        } else {
            Err((self.added, self.seen))
        }
    }
}

fn universe(regs: u8, allocable: usize) -> RealRegUniverse {
    RealRegUniverse {
        regs: (0..regs).map(|i| (rr(i), format!("r{}", i))).collect(),
        allocable,
        allocable_by_class: [None, None, None, None, None],
    }
}

fn rr(index: u8) -> RealReg {
    RealReg { class: RegClass::I32, enc: index, index }
}

fn rv(v: VirtualReg) -> Option<Reg> {
    Some(Reg::Virtual(v))
}

fn in_reg(i: u8) -> Option<Reg> {
    Some(Reg::Real(rr(i)))
}

fn frag(first: (u32, Point), last: (u32, Point)) -> RangeFrag {
    RangeFrag {
        bix: BlockIx::new(0),
        kind: RangeFragKind::Local,
        first: InstPoint::new(InstIx::new(first.0), first.1),
        last: InstPoint::new(InstIx::new(last.0), last.1),
        count: 2,
    }
}

/// `v0` is defined at 0 and read at 1, where it is copied to `v1`, which is read at 2.
fn copying() -> (Toy, TypedIxVec<RangeFragIx, RangeFrag>, Vec<(RangeFragIx, VirtualReg, RealReg)>) {
    let func = Toy {
        insns: vec![Inst::Op(None, rv(V0)), Inst::Op(rv(V0), rv(V1)), Inst::Op(rv(V1), None)],
        bounds: vec![0, 1, 3],
    };
    let frags = TypedIxVec::from_vec(vec![
        frag((0, Point::Def), (1, Point::Use)),
        frag((1, Point::Def), (2, Point::Use)),
    ]);
    let list =
        vec![(RangeFragIx::new(1), V1, rr(3)), (RangeFragIx::new(0), V0, rr(5))];
    (func, frags, list)
}

fn edited() -> Vec<Inst> {
    vec![Inst::Op(None, in_reg(5)), Inst::Op(in_reg(5), in_reg(3)), Inst::Op(in_reg(3), None)]
}

#[test]
fn registers_are_replaced() {
    let (mut func, frags, list) = copying();
    let r = map_vregs_to_rregs::<Toy, Picky>(
        &mut func,
        list,
        &frags,
        &vec![],
        &vec![],
        &universe(0, 1),
        false,
        false,
    );
    assert!(r.is_ok());
    assert_eq!(func.insns, edited());
}

#[test]
fn whether_fragments_cross_blocks_makes_no_difference() {
    for crossing in [false, true] {
        let (mut func, frags, list) = copying();
        let r = map_vregs_to_rregs::<Toy, Picky>(
            &mut func,
            list,
            &frags,
            &vec![],
            &vec![],
            &universe(9, 0),
            crossing,
            true,
        );
        assert!(r.is_ok());
        assert_eq!(func.insns, edited());
    }
}

#[test]
fn instructions_are_nopped_out() {
    let (mut func, frags, list) = copying();
    let r = map_vregs_to_rregs::<Toy, Picky>(
        &mut func,
        list,
        &frags,
        &vec![],
        &vec![InstIx::new(7), InstIx::new(1), InstIx::new(1)],
        &universe(9, 0),
        true,
        true,
    );
    assert!(r.is_ok());
    assert_eq!(func.insns, vec![Inst::Op(None, in_reg(5)), Inst::Nop, Inst::Op(in_reg(3), None)]);
}

#[test]
fn editing_stops_where_the_checker_objects() {
    let (mut func, frags, list) = copying();
    let r = map_vregs_to_rregs::<Toy, Picky>(
        &mut func,
        list,
        &frags,
        &vec![],
        &vec![],
        &universe(1, 0),
        true,
        true,
    );
    assert_eq!(r, Err((0, vec![(0, 0, None, None)])));
    assert_eq!(
        func.insns,
        vec![Inst::Op(None, in_reg(5)), Inst::Op(rv(V0), rv(V1)), Inst::Op(rv(V1), None)]
    );
}

#[test]
fn the_checker_sees_blocks_and_maps_and_has_the_last_word() {
    let (mut func, frags, list) = copying();
    let add = vec![InstToInsertAndPoint::new(
        InstToInsert::Move { to_reg: Writable::from_reg(rr(1)), from_reg: rr(2), for_vreg: V0 },
        InstPoint::new_spill(InstIx::new(0)),
    )];
    let r = map_vregs_to_rregs::<Toy, Picky>(
        &mut func,
        list,
        &frags,
        &add,
        &vec![],
        &universe(9, 1),
        true,
        true,
    );
    assert_eq!(
        r,
        Err((1, vec![(0, 0, None, None), (1, 1, Some(5), Some(3)), (1, 2, None, None)]))
    );
    assert_eq!(func.insns, edited());
}

#[test]
fn the_order_of_the_lists_is_immaterial() {
    let nops = [0, 2, 0].map(InstIx::new);
    for objects_at in [1, 9] {
        let mut outcomes = vec![];
        for (flip, order) in [(false, [0, 1, 2]), (true, [2, 1, 0]), (true, [1, 2, 0])] {
            let (mut func, frags, mut list) = copying();
            if flip {
                list.reverse();
            }
            let r = map_vregs_to_rregs::<Toy, Picky>(
                &mut func,
                list,
                &frags,
                &vec![],
                &order.iter().map(|i: &usize| nops[*i]).collect(),
                &universe(objects_at, 1),
                true,
                true,
            );
            outcomes.push((r, func.insns));
        }
        assert_eq!(outcomes[0], outcomes[1]);
        assert_eq!(outcomes[0], outcomes[2]);
    }
}

#[test]
fn the_verdict_does_not_depend_on_what_becomes_a_no_op() {
    for (regs, allocable) in [(9, 1), (9, 0), (2, 0)] {
        let mut verdicts = vec![];
        for nops in [vec![], vec![1], vec![0, 1, 2]] {
            let (mut func, frags, list) = copying();
            verdicts.push(map_vregs_to_rregs::<Toy, Picky>(
                &mut func,
                list,
                &frags,
                &vec![],
                &nops.into_iter().map(InstIx::new).collect(),
                &universe(regs, allocable),
                true,
                true,
            ));
        }
        assert_eq!(verdicts[0].is_ok(), allocable == 0 && regs == 9);
        assert_eq!(verdicts[0], verdicts[1]);
        assert_eq!(verdicts[0], verdicts[2]);
    }
}

fn additions() -> Vec<InstToInsertAndPoint> {
    vec![
        InstToInsertAndPoint::new(
            InstToInsert::Reload {
                to_reg: Writable::from_reg(rr(5)),
                from_slot: SpillSlot::new(4),
                for_vreg: V0,
            },
            InstPoint::new_reload(InstIx::new(1)),
        ),
        InstToInsertAndPoint::new(
            InstToInsert::Spill { to_slot: SpillSlot::new(4), from_reg: rr(5), for_vreg: V0 },
            InstPoint::new_spill(InstIx::new(0)),
        ),
        InstToInsertAndPoint::new(
            InstToInsert::Move { to_reg: Writable::from_reg(rr(1)), from_reg: rr(2), for_vreg: V1 },
            InstPoint::new_reload(InstIx::new(1)),
        ),
    ]
}

fn interleaved() -> Vec<Inst> {
    vec![
        Inst::Op(None, in_reg(5)),
        Inst::Spill(4, 5, 0),
        Inst::Reload(5, 4, 0),
        Inst::Move(1, 2, 1),
        Inst::Op(in_reg(5), in_reg(3)),
        Inst::Op(in_reg(3), None),
    ]
}

#[test]
fn additions_are_interleaved_in_the_order_given() {
    let func = Toy { insns: edited(), bounds: vec![0, 1, 3] };
    let (insns, target_map, orig) =
        add_spills_reloads_and_moves(&func, additions()).ok().expect("added");
    assert_eq!(insns, interleaved());
    let targets: Vec<u32> = target_map.vector.iter().map(|i| i.get()).collect();
    assert_eq!(targets, vec![0, 2]);
    let none = InstIx::invalid_value();
    assert_eq!(
        orig.vector,
        vec![InstIx::new(0), none, none, none, InstIx::new(1), InstIx::new(2)]
    );
    // Nothing is lost, and nothing is added twice.
    assert_eq!(insns.len(), 3 + additions().len());
}

#[test]
fn a_stream_is_edited() {
    let (mut func, frags, list) = copying();
    let r = edit_inst_stream::<Toy, Picky>(
        &mut func,
        additions(),
        &vec![],
        list,
        &frags,
        &universe(9, 0),
        true,
        true,
    );
    let (insns, _, _) = r.ok().expect("edited");
    assert_eq!(insns, interleaved());
    assert_eq!(func.insns, edited());
}

#[test]
fn an_objection_is_passed_on() {
    let (mut func, frags, list) = copying();
    let r = edit_inst_stream::<Toy, Picky>(
        &mut func,
        additions(),
        &vec![],
        list,
        &frags,
        &universe(0, 0),
        true,
        true,
    );
    match r {
        Err(RegAllocError::RegChecker((3, seen))) => assert!(seen.is_empty()),
        _ => panic!("the checker should have objected"),
    }
}

#[test]
fn nobody_objects_without_a_checker() {
    let (mut func, frags, list) = copying();
    let r = edit_inst_stream::<Toy, Picky>(
        &mut func,
        additions(),
        &vec![],
        list,
        &frags,
        &universe(0, 0),
        true,
        false,
    );
    assert_eq!(r.ok().expect("edited").0, interleaved());
}

#[test]
fn additions_are_told_to_the_checker_as_copies() {
    let a = additions();
    assert!(matches!(
        a[0].inst.to_checker_inst(),
        CheckerInst::Reload { into, from } if into.to_reg() == rr(5) && from == SpillSlot::new(4)
    ));
    assert!(matches!(
        a[1].inst.to_checker_inst(),
        CheckerInst::Spill { into, from } if into == SpillSlot::new(4) && from == rr(5)
    ));
    assert!(matches!(
        a[2].inst.to_checker_inst(),
        CheckerInst::Move { into, from } if into.to_reg() == rr(1) && from == rr(2)
    ));
}

#[test]
fn additions_are_constructed_by_the_function() {
    let func = Toy { insns: vec![], bounds: vec![0] };
    let a = additions();
    assert_eq!(a[0].inst.construct(&func), Inst::Reload(5, 4, 0));
    assert_eq!(a[1].inst.construct(&func), Inst::Spill(4, 5, 0));
    assert_eq!(a[2].inst.construct(&func), Inst::Move(1, 2, 1));
}
