//! What checks an allocation while it is pushed into the instructions.

use crate::index::{BlockIx, InstIx};
use crate::inst_stream::InstToInsertAndPoint;
use crate::interface::Function;
use crate::mapping::VregMap;
use crate::ranges::SpillSlot;
use crate::regs::{RealReg, RealRegUniverse, Writable};
use vstd::prelude::*;

verus! {

/// An added instruction, as the checker sees it: a copy between registers and spill slots.
#[allow(inconsistent_fields)]
#[derive(Clone, Copy, Debug)]
pub enum CheckerInst {
    Spill { into: SpillSlot, from: RealReg },
    Reload { into: Writable<RealReg>, from: SpillSlot },
    Move { into: Writable<RealReg>, from: RealReg },
}

/// A checker of allocations. It is told of each instruction in turn, and reports whether the code
/// with real registers does what the code with virtual ones did.
pub trait Checker<F: Function>: Sized {
    /// What it found to be wrong.
    type Errors;

    /// A checker for the function, to which `insts_to_add` are going to be added.
    fn new(
        func: &F,
        reg_universe: &RealRegUniverse,
        insts_to_add: &Vec<InstToInsertAndPoint>,
    ) -> Self;

    /// Takes note of instruction `insn` of block `block`, which still has its virtual registers,
    /// and of the registers that it is about to get.
    fn handle_insn(
        self,
        reg_universe: &RealRegUniverse,
        func: &F,
        block: BlockIx,
        insn: InstIx,
        map_uses: &VregMap,
        map_defs: &VregMap,
    ) -> Result<Self, Self::Errors>;

    /// The verdict on the whole function.
    fn run(self) -> Result<(), Self::Errors>;
}

} // verus!
