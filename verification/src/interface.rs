//! What a client provides, the function to allocate for, and what it gets back.

use crate::index::{BlockIx, InstIx, IxRange, TypedIx, TypedIxVec};
use crate::mapping::VregMap;
use crate::ranges::SpillSlot;
use crate::regs::{RealReg, RealRegSet, Reg, RegClass, RegSet, VirtualReg, Writable};
use vstd::prelude::*;

verus! {

/// The registers that an instruction mentions. It reads the `used` ones, writes the `defined` ones,
/// and reads and writes the `modified` ones. A virtual register that is modified is in neither of
/// the other two sets.
#[derive(Debug)]
pub struct InstRegUses {
    pub used: RegSet,
    pub defined: RegSet,
    pub modified: RegSet,
}

/// An `InstRegUses` as a mathematical value.
#[verifier::ext_equal]
pub struct RegUses {
    pub used: Set<Reg>,
    pub defined: Set<Reg>,
    pub modified: Set<Reg>,
}

impl View for InstRegUses {
    type V = RegUses;

    open spec fn view(&self) -> RegUses {
        RegUses { used: self.used@, defined: self.defined@, modified: self.modified@ }
    }
}

impl RegUses {
    /// A virtual register that is modified is neither used nor defined.
    pub open spec fn roles_distinct(self) -> bool {
        forall|v: VirtualReg| #[trigger]
            self.modified.contains(Reg::Virtual(v)) ==> !self.used.contains(Reg::Virtual(v))
                && !self.defined.contains(Reg::Virtual(v))
    }

    /// No virtual register is mentioned.
    pub open spec fn only_real(self) -> bool {
        forall|r: Reg| #[trigger]
            self.mentions(r) ==> r is Real
    }

    /// No virtual register is written.
    pub open spec fn writes_real(self) -> bool {
        forall|r: Reg| #[trigger] self.writes(r) ==> r is Real
    }

    /// The register is written, whether or not it is read as well.
    pub open spec fn writes(self, r: Reg) -> bool {
        self.defined.contains(r) || self.modified.contains(r)
    }

    /// The register is mentioned, in whichever role.
    pub open spec fn mentions(self, r: Reg) -> bool {
        self.used.contains(r) || self.defined.contains(r) || self.modified.contains(r)
    }

    /// Each virtual register that is read has a real register in `uses`, each that is written has
    /// one in `defs`, and one that is both has the same in the two.
    pub open spec fn covered_by(
        self,
        uses: Map<VirtualReg, RealReg>,
        defs: Map<VirtualReg, RealReg>,
    ) -> bool {
        forall|v: VirtualReg| #[trigger] self.mentions(Reg::Virtual(v)) ==> {
            &&& self.used.contains(Reg::Virtual(v)) ==> uses.contains_key(v)
            &&& self.defined.contains(Reg::Virtual(v)) ==> defs.contains_key(v)
            &&& self.modified.contains(Reg::Virtual(v)) ==> uses.contains_key(v)
                && defs.contains_key(v) && uses[v] == defs[v]
        }
    }

    /// Each virtual register that is written has a real register in `defs`, and one that is read
    /// as well has the same in `uses`.
    pub open spec fn writes_covered_by(
        self,
        uses: Map<VirtualReg, RealReg>,
        defs: Map<VirtualReg, RealReg>,
    ) -> bool {
        forall|v: VirtualReg| #[trigger] self.writes(Reg::Virtual(v)) ==> {
            &&& defs.contains_key(v)
            &&& self.modified.contains(Reg::Virtual(v)) ==> uses.contains_key(v) && uses[v]
                == defs[v]
        }
    }
}

/// The instructions of a basic block: positions `first` up to, and not with, `end`.
pub struct BlockSpan {
    pub first: int,
    pub end: int,
}

/// A function as a mathematical value: its instructions and blocks, the spill-slot size of each
/// register class, and the instructions that it generates for spills, reloads, moves and no-ops.
#[verifier::reject_recursive_types(I)]
pub struct FuncModel<I> {
    pub insns: Seq<I>,
    pub blocks: Seq<BlockSpan>,
    pub slot_size: spec_fn(RegClass) -> u32,
    pub spill: spec_fn(SpillSlot, RealReg, VirtualReg) -> I,
    pub reload: spec_fn(Writable<RealReg>, SpillSlot, VirtualReg) -> I,
    pub mov: spec_fn(Writable<RealReg>, RealReg, VirtualReg) -> I,
    pub nop: I,
}

/// Instructions of type `I` as mathematical values: which registers one mentions, and what becomes
/// of it when its virtual registers are replaced.
#[verifier::reject_recursive_types(I)]
pub struct InstModel<I> {
    pub regs: spec_fn(I) -> RegUses,
    pub rewritten: spec_fn(I, Map<VirtualReg, RealReg>, Map<VirtualReg, RealReg>) -> I,
}

impl<I> FuncModel<I> {
    /// The blocks follow one another, none is empty, and the last one ends the function.
    pub open spec fn laid_out(self) -> bool {
        &&& forall|b: int|
            0 <= b < self.blocks.len() ==> 0 <= (#[trigger] self.blocks[b]).first
                < self.blocks[b].end <= self.insns.len()
        &&& forall|a: int, b: int|
            0 <= a < b < self.blocks.len() ==> (#[trigger] self.blocks[a]).end <= (
            #[trigger] self.blocks[b]).first
        &&& self.blocks.len() > 0 ==> self.blocks.last().end == self.insns.len()
        &&& self.blocks.len() == 0 ==> self.insns.len() == 0
    }

    /// The same function with other instructions.
    pub open spec fn with_insns(self, insns: Seq<I>) -> FuncModel<I> {
        FuncModel { insns, ..self }
    }
}

/// A function to allocate registers for. The client implements this for its own representation.
pub trait Function: Sized {
    /// The client's instructions.
    type Inst: Clone;

    /// The function as a mathematical value.
    spec fn model(&self) -> FuncModel<Self::Inst>;

    /// The instructions as mathematical values.
    spec fn inst_model() -> InstModel<Self::Inst>;

    /// All instructions, from the first one on.
    fn insn_indices(&self) -> (r: IxRange<InstIx>)
        ensures
            r.first.pos() == 0,
            r.len == self.model().insns.len(),
    ;

    fn get_insn(&self, iix: InstIx) -> (r: &Self::Inst)
        requires
            iix.pos() < self.model().insns.len(),
        ensures
            *r == self.model().insns[iix.pos()],
    ;

    /// Access to one instruction. Nothing but that instruction changes.
    fn get_insn_mut(&mut self, iix: InstIx) -> (r: &mut Self::Inst)
        requires
            iix.pos() < old(self).model().insns.len(),
        ensures
            *r == old(self).model().insns[iix.pos()],
            final(self).model() == old(self).model().with_insns(
                old(self).model().insns.update(iix.pos(), *final(r)),
            ),
    ;

    /// All blocks, from the first one on.
    fn blocks(&self) -> (r: IxRange<BlockIx>)
        ensures
            r.first.pos() == 0,
            r.len == self.model().blocks.len(),
    ;

    /// The instructions of a block.
    fn block_insns(&self, block: BlockIx) -> (r: IxRange<InstIx>)
        requires
            block.pos() < self.model().blocks.len(),
        ensures
            r.first.pos() == self.model().blocks[block.pos()].first,
            r.end() == self.model().blocks[block.pos()].end,
    ;

    /// The registers that an instruction mentions.
    fn get_regs(&self, insn: &Self::Inst) -> (r: InstRegUses)
        ensures
            r@ == (Self::inst_model().regs)(*insn),
    ;

    /// Replaces the virtual registers of an instruction: those that it reads by way of
    /// `map_uses`, those that it writes by way of `map_defs`. Where the maps have all that it
    /// mentions, no virtual register is left; where they have all that it writes, none that is
    /// written is left.
    fn map_regs(insn: &mut Self::Inst, map_uses: &VregMap, map_defs: &VregMap)
        ensures
            *final(insn) == (Self::inst_model().rewritten)(*old(insn), map_uses@, map_defs@),
            (Self::inst_model().regs)(*old(insn)).covered_by(map_uses@, map_defs@)
                ==> (Self::inst_model().regs)(*final(insn)).only_real(),
            (Self::inst_model().regs)(*old(insn)).writes_covered_by(map_uses@, map_defs@)
                ==> (Self::inst_model().regs)(*final(insn)).writes_real(),
    ;

    /// How many consecutive spill slots a register of the class needs.
    fn get_spillslot_size(&self, regclass: RegClass) -> (r: u32)
        ensures
            r == (self.model().slot_size)(regclass),
    ;

    /// An instruction that stores `from_reg` into a spill slot. It mentions real registers only.
    fn gen_spill(
        &self,
        to_slot: SpillSlot,
        from_reg: RealReg,
        for_vreg: VirtualReg,
    ) -> (r: Self::Inst)
        ensures
            r == (self.model().spill)(to_slot, from_reg, for_vreg),
            (Self::inst_model().regs)(r).only_real(),
    ;

    /// An instruction that loads `to_reg` from a spill slot. It mentions real registers only.
    fn gen_reload(
        &self,
        to_reg: Writable<RealReg>,
        from_slot: SpillSlot,
        for_vreg: VirtualReg,
    ) -> (r: Self::Inst)
        ensures
            r == (self.model().reload)(to_reg, from_slot, for_vreg),
            (Self::inst_model().regs)(r).only_real(),
    ;

    /// An instruction that copies `from_reg` to `to_reg`. It mentions real registers only.
    fn gen_move(
        &self,
        to_reg: Writable<RealReg>,
        from_reg: RealReg,
        for_vreg: VirtualReg,
    ) -> (r: Self::Inst)
        ensures
            r == (self.model().mov)(to_reg, from_reg, for_vreg),
            (Self::inst_model().regs)(r).only_real(),
    ;

    /// An instruction that does nothing and takes no space. It mentions no virtual register.
    fn gen_zero_len_nop(&self) -> (r: Self::Inst)
        ensures
            r == self.model().nop,
            (Self::inst_model().regs)(r).only_real(),
    ;
}

/// A clone of an instruction is the same instruction.
pub open spec fn clones_faithfully<F: Function>() -> bool {
    forall|a: F::Inst, b: F::Inst| #[trigger] cloned(a, b) ==> a == b
}

/// The outcome of a successful allocation: the new instructions, the position at which each block
/// starts among them, the real registers that they write, and the size of the spill area.
pub struct RegAllocResult<F: Function> {
    pub insns: Vec<F::Inst>,
    pub target_map: TypedIxVec<BlockIx, InstIx>,
    pub clobbered_registers: RealRegSet,
    pub num_spill_slots: u32,
}

/// Why editing an instruction stream failed. `E` is what the checker reports.
#[derive(Debug)]
pub enum RegAllocError<E> {
    RegChecker(E),
    Other(String),
}

} // verus!
