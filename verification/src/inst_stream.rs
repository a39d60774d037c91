//! Editing an instruction stream, with a checker to look on.

use crate::checker::{Checker, CheckerInst};
use crate::frags::{InstPoint, RangeFrag};
use crate::index::{BlockIx, InstIx, RangeFragIx, TypedIx, TypedIxVec};
use crate::interface::{clones_faithfully, BlockSpan, FuncModel, Function, InstModel, RegAllocError};
use crate::mapping::{insn_maps, list_in_env, InsnMaps, MapReplay, RangeAllocations, VregMap};
use crate::ranges::SpillSlot;
use crate::regs::{RealReg, RealRegUniverse, VirtualReg, Writable};
use crate::stream::{
    all_covered, all_real, block_targets, items_placed, lemma_spliced_real, rewrite_insn,
    rewritten_insns, splice, spliced, spliced_from,
};
use vstd::prelude::*;

verus! {

/// An instruction to be added.
#[derive(Clone, Copy, Debug)]
pub enum InstToInsert {
    Spill { to_slot: SpillSlot, from_reg: RealReg, for_vreg: VirtualReg },
    Reload { to_reg: Writable<RealReg>, from_slot: SpillSlot, for_vreg: VirtualReg },
    Move { to_reg: Writable<RealReg>, from_reg: RealReg, for_vreg: VirtualReg },
}

impl InstToInsert {
    /// The instruction as the function `m` makes it.
    pub open spec fn made<I>(self, m: FuncModel<I>) -> I {
        match self {
            InstToInsert::Spill { to_slot, from_reg, for_vreg } => (m.spill)(
                to_slot,
                from_reg,
                for_vreg,
            ),
            InstToInsert::Reload { to_reg, from_slot, for_vreg } => (m.reload)(
                to_reg,
                from_slot,
                for_vreg,
            ),
            InstToInsert::Move { to_reg, from_reg, for_vreg } => (m.mov)(
                to_reg,
                from_reg,
                for_vreg,
            ),
        }
    }

    /// Has the function make the instruction.
    pub fn construct<F: Function>(&self, f: &F) -> (r: F::Inst)
        ensures
            r == self.made(f.model()),
            (F::inst_model().regs)(r).only_real(),
    {
        match *self {
            InstToInsert::Spill { to_slot, from_reg, for_vreg } => f.gen_spill(
                to_slot,
                from_reg,
                for_vreg,
            ),
            InstToInsert::Reload { to_reg, from_slot, for_vreg } => f.gen_reload(
                to_reg,
                from_slot,
                for_vreg,
            ),
            InstToInsert::Move { to_reg, from_reg, for_vreg } => f.gen_move(
                to_reg,
                from_reg,
                for_vreg,
            ),
        }
    }

    /// The instruction for the checker, to which it does not matter for which virtual register the
    /// instruction is.
    pub fn to_checker_inst(&self) -> (r: CheckerInst)
        ensures
            r == (match *self {
                InstToInsert::Spill { to_slot, from_reg, for_vreg } => CheckerInst::Spill {
                    into: to_slot,
                    from: from_reg,
                },
                InstToInsert::Reload { to_reg, from_slot, for_vreg } => CheckerInst::Reload {
                    into: to_reg,
                    from: from_slot,
                },
                InstToInsert::Move { to_reg, from_reg, for_vreg } => CheckerInst::Move {
                    into: to_reg,
                    from: from_reg,
                },
            }),
    {
        match *self {
            InstToInsert::Spill { to_slot, from_reg, .. } => CheckerInst::Spill {
                into: to_slot,
                from: from_reg,
            },
            InstToInsert::Reload { to_reg, from_slot, .. } => CheckerInst::Reload {
                into: to_reg,
                from: from_slot,
            },
            InstToInsert::Move { to_reg, from_reg, .. } => CheckerInst::Move {
                into: to_reg,
                from: from_reg,
            },
        }
    }
}

/// An instruction to be added, and where.
#[derive(Clone, Copy, Debug)]
pub struct InstToInsertAndPoint {
    pub inst: InstToInsert,
    pub point: InstPoint,
}

impl InstToInsertAndPoint {
    pub fn new(inst: InstToInsert, point: InstPoint) -> (r: Self)
        ensures
            r == (InstToInsertAndPoint { inst, point }),
    {
        InstToInsertAndPoint { inst, point }
    }
}

/// The instructions to be added, as the function `m` makes them, with their places.
pub open spec fn made_items<I>(m: FuncModel<I>, insts: Seq<InstToInsertAndPoint>) -> Seq<
    (InstPoint, I),
> {
    Seq::new(insts.len(), |i: int| (insts[i].point, insts[i].inst.made(m)))
}

/// Every instruction to be added goes to the reload or the spill point of an instruction of the
/// function.
pub open spec fn insts_placed(insts: Seq<InstToInsertAndPoint>, len: int) -> bool {
    forall|i: int|
        0 <= i < insts.len() ==> {
            &&& (#[trigger] insts[i]).point.pt is Reload || insts[i].point.pt is Spill
            &&& insts[i].point.iix.pos() < len
        }
}

/// The latest of the first `n` blocks that has instruction `k`, or the first block if none has.
pub open spec fn block_of(blocks: Seq<BlockSpan>, n: int, k: int) -> int
    decreases n,
{
    if n <= 0 {
        0
    } else if blocks[n - 1].first <= k < blocks[n - 1].end {
        n - 1
    } else {
        block_of(blocks, n - 1, k)
    }
}

/// All blocks lie within the function.
pub open spec fn blocks_inside<I>(m: FuncModel<I>) -> bool {
    forall|b: int|
        0 <= b < m.blocks.len() ==> 0 <= (#[trigger] m.blocks[b]).first && m.blocks[b].end
            <= m.insns.len()
}

/// For each position below `len`, whether `list` names it.
fn marks(list: &Vec<InstIx>, len: u32) -> (r: Vec<bool>)
    ensures
        r@.len() == len,
        forall|k: int| 0 <= k < len ==> #[trigger] r@[k] == list@.contains(InstIx { ix: k as u32 }),
{
    let mut r: Vec<bool> = Vec::new();
    let mut i: u32 = 0;
    while i < len
        invariant
            i <= len,
            r@.len() == i,
            forall|k: int| 0 <= k < i ==> !#[trigger] r@[k],
        decreases len - i,
    {
        r.push(false);
        i += 1;
    }
    let mut j: usize = 0;
    while j < list.len()
        invariant
            j <= list@.len(),
            r@.len() == len,
            forall|k: int|
                0 <= k < len ==> #[trigger] r@[k] == list@.take(j as int).contains(
                    InstIx { ix: k as u32 },
                ),
        decreases list@.len() - j,
    {
        let iix = list[j];
        let ghost before = r@;
        if iix.get() < len {
            r.set(iix.get() as usize, true);
        }
        proof {
            assert(list@.take(j + 1) =~= list@.take(j as int).push(iix));
            assert forall|k: int| 0 <= k < len implies #[trigger] r@[k] == list@.take(
                j + 1,
            ).contains(InstIx { ix: k as u32 }) by {
                let x = InstIx { ix: k as u32 };
                assert(before[k] == list@.take(j as int).contains(x));
                if list@.take(j as int).contains(x) {
                    let q = choose|q: int|
                        0 <= q < list@.take(j as int).len() && list@.take(j as int)[q] == x;
                    assert(list@.take(j + 1)[q] == x);
                }
                if x == iix {
                    assert(list@.take(j + 1)[j as int] == x);
                }
            }
        }
        j += 1;
    }
    assert(list@.take(j as int) =~= list@);
    r
}

/// For each instruction, the block that it is in.
fn insn_blocks<F: Function>(func: &F) -> (r: Vec<BlockIx>)
    requires
        blocks_inside(func.model()),
    ensures
        r@.len() == func.model().insns.len(),
        forall|k: int|
            0 <= k < r@.len() ==> (#[trigger] r@[k]).pos() == block_of(
                func.model().blocks,
                func.model().blocks.len() as int,
                k,
            ),
{
    let ghost m = func.model();
    let len = func.insn_indices().len();
    let num_blocks = func.blocks().len();
    let mut r: Vec<BlockIx> = Vec::new();
    let mut i: u32 = 0;
    while i < len
        invariant
            i <= len,
            r@.len() == i,
            forall|k: int| 0 <= k < i ==> (#[trigger] r@[k]).pos() == 0,
        decreases len - i,
    {
        r.push(BlockIx::new(0));
        i += 1;
    }
    let mut b: u32 = 0;
    while b < num_blocks
        invariant
            m == func.model(),
            blocks_inside(m),
            len == m.insns.len(),
            num_blocks == m.blocks.len(),
            b <= num_blocks,
            r@.len() == len,
            forall|k: int|
                0 <= k < len ==> (#[trigger] r@[k]).pos() == block_of(m.blocks, b as int, k),
        decreases num_blocks - b,
    {
        let bix = BlockIx::new(b);
        let block = func.block_insns(bix);
        let first = block.start().get();
        assert(m.blocks[b as int].end <= len);
        let mut j: u32 = 0;
        while j < block.len()
            invariant
                len == m.insns.len(),
                num_blocks == m.blocks.len(),
                b < num_blocks,
                bix.pos() == b,
                first == m.blocks[b as int].first,
                first + block.len == m.blocks[b as int].end,
                m.blocks[b as int].end <= len,
                j <= block.len,
                r@.len() == len,
                forall|k: int|
                    0 <= k < len ==> (#[trigger] r@[k]).pos() == (if first <= k < first + j {
                        b as int
                    } else {
                        block_of(m.blocks, b as int, k)
                    }),
            decreases block.len - j,
        {
            r.set((first + j) as usize, bix);
            j += 1;
        }
        b += 1;
    }
    r
}

/// What there is to edit: a function, the register that each fragment has, and the instructions
/// that are to become no-ops.
#[verifier::reject_recursive_types(I)]
pub struct Task<I> {
    pub func: FuncModel<I>,
    pub places: Seq<(RangeFragIx, VirtualReg, RealReg)>,
    pub frags: Seq<RangeFrag>,
    pub nops: Seq<InstIx>,
}

impl<I> Task<I> {
    /// The maps at instruction `k`.
    pub open spec fn maps(self, k: int) -> InsnMaps {
        insn_maps(self.places, self.places, self.frags, k)
    }

    /// The function with the instructions before `k` edited.
    pub open spec fn upto(self, im: InstModel<I>, k: int) -> FuncModel<I> {
        self.func.with_insns(
            rewritten_insns(im, self.func, self.places, self.places, self.frags, self.nops, k),
        )
    }

    /// The function with all instructions edited.
    pub open spec fn done(self, im: InstModel<I>) -> FuncModel<I> {
        self.upto(im, self.func.insns.len() as int)
    }

    /// The block that instruction `k` is in.
    pub open spec fn block(self, k: int) -> BlockIx {
        BlockIx { ix: block_of(self.func.blocks, self.func.blocks.len() as int, k) as u32 }
    }
}

/// The checker `before` is told of instruction `k`, while the ones before it are edited and it is
/// not, and of the maps at it; `answer` is what it may answer.
pub open spec fn told<F: Function, C: Checker<F>>(
    task: Task<F::Inst>,
    universe: RealRegUniverse,
    k: int,
    before: C,
    answer: Result<C, C::Errors>,
) -> bool {
    exists|func: F, map_uses: VregMap, map_defs: VregMap|
        func.model() == task.upto(F::inst_model(), k) && map_uses@ == task.maps(k).uses
            && map_defs@ == task.maps(k).defs && #[trigger] call_ensures(
            C::handle_insn,
            (
                before,
                &universe,
                &func,
                task.block(k),
                InstIx { ix: k as u32 },
                &map_uses,
                &map_defs,
            ),
            answer,
        )
}

/// The checker goes from its state `i` to the next one when it is told of instruction `i`.
pub open spec fn told_at<F: Function, C: Checker<F>>(
    task: Task<F::Inst>,
    universe: RealRegUniverse,
    states: Seq<C>,
    i: int,
) -> bool {
    told::<F, C>(task, universe, i, states[i], Ok(states[i + 1]))
}

/// The checker is set up for the function and the instructions to be added, and is told of one
/// instruction after the other; `states` are what it goes through.
pub open spec fn checks<F: Function, C: Checker<F>>(
    task: Task<F::Inst>,
    func: F,
    universe: RealRegUniverse,
    insts: Vec<InstToInsertAndPoint>,
    states: Seq<C>,
) -> bool {
    &&& states.len() > 0
    &&& call_ensures(C::new, (&func, &universe, &insts), states[0])
    &&& forall|i: int|
        0 <= i < states.len() - 1 ==> #[trigger] told_at::<F, C>(task, universe, states, i)
}

/// How editing under the eyes of a checker goes: the checker is told of all instructions, which
/// are edited, and `r` is its verdict; or it objects to one, which is not edited, nor those after
/// it, and `r` is its objection.
pub open spec fn checked<F: Function, C: Checker<F>>(
    task: Task<F::Inst>,
    before: F,
    universe: RealRegUniverse,
    insts: Vec<InstToInsertAndPoint>,
    after: FuncModel<F::Inst>,
    r: Result<(), C::Errors>,
) -> bool {
    let len = task.func.insns.len() as int;
    exists|states: Seq<C>| #[trigger]
        checks::<F, C>(task, before, universe, insts, states) && {
            let k = states.len() - 1;
            ||| k == len && call_ensures(C::run, (states[k],), r) && after == task.done(
                F::inst_model(),
            )
            ||| k < len && (r matches Err(e) && told::<F, C>(
                task,
                universe,
                k,
                states[k],
                Err(e),
            )) && after == task.upto(F::inst_model(), k)
        }
}

/// A copy of the list.
fn copied(list: &RangeAllocations) -> (r: RangeAllocations)
    ensures
        r@ == list@,
{
    let mut r: RangeAllocations = Vec::new();
    let mut i: usize = 0;
    while i < list.len()
        invariant
            i <= list@.len(),
            r@ == list@.take(i as int),
        decreases list@.len() - i,
    {
        r.push(list[i]);
        i += 1;
        assert(r@ =~= list@.take(i as int));
    }
    assert(list@.take(i as int) =~= list@);
    r
}

/// Gives all instructions of the function their real registers, and turns those that
/// `iixs_to_nop_out` names into no-ops. If a checker is wanted, it is told of each instruction
/// before that is edited, the ones to be no-ops too, since they may carry information; editing
/// stops where it objects.
///
/// `has_multiple_blocks_per_frag` says that fragments may run on from one block to the next, so
/// that registers can be mapped where a block ends. The outcome does not depend on it.
///
/// The function has at most 2^31 instructions, so that their indices are also signed numbers.
pub fn map_vregs_to_rregs<F: Function, C: Checker<F>>(
    func: &mut F,
    frag_map: RangeAllocations,
    frag_env: &TypedIxVec<RangeFragIx, RangeFrag>,
    insts_to_add: &Vec<InstToInsertAndPoint>,
    iixs_to_nop_out: &Vec<InstIx>,
    reg_universe: &RealRegUniverse,
    has_multiple_blocks_per_frag: bool,
    use_checker: bool,
) -> (r: Result<(), C::Errors>)
    requires
        list_in_env(frag_map@, frag_env@),
        old(func).model().insns.len() <= 0x8000_0000,
        use_checker ==> blocks_inside(old(func).model()),
    ensures
        ({
            let task = Task {
                func: old(func).model(),
                places: frag_map@,
                frags: frag_env@,
                nops: iixs_to_nop_out@,
            };
            if use_checker {
                checked::<F, C>(
                    task,
                    *old(func),
                    *reg_universe,
                    *insts_to_add,
                    final(func).model(),
                    r,
                )
            } else {
                r is Ok && final(func).model() == task.done(F::inst_model())
            }
        }),
        r is Ok && all_covered(
            F::inst_model(),
            old(func).model().insns,
            frag_map@,
            frag_map@,
            frag_env@,
        ) ==> all_real(F::inst_model(), final(func).model().insns),
{
    let ghost im = F::inst_model();
    let ghost func0 = *func;
    let ghost task = Task {
        func: func.model(),
        places: frag_map@,
        frags: frag_env@,
        nops: iixs_to_nop_out@,
    };
    let len = func.insn_indices().len();
    let mut checker: Option<C> = None;
    let mut blocks: Vec<BlockIx> = Vec::new();
    let ghost mut states: Seq<C> = Seq::empty();
    if use_checker {
        let c = C::new(func, reg_universe, insts_to_add);
        proof {
            states = seq![c];
            assert(checks::<F, C>(task, func0, *reg_universe, *insts_to_add, states));
        }
        checker = Some(c);
        blocks = insn_blocks(func);
    }
    let nop_out = marks(iixs_to_nop_out, len);
    let frag_maps_by_start = copied(&frag_map);
    let mut replay = MapReplay::new(frag_maps_by_start, frag_map, frag_env);
    let mut k: u32 = 0;
    assert(task.upto(im, 0).insns =~= task.func.insns);
    while k < len
        invariant
            im == F::inst_model(),
            func0 == *old(func),
            task == (Task {
                func: old(func).model(),
                places: frag_map@,
                frags: frag_env@,
                nops: iixs_to_nop_out@,
            }),
            k <= len,
            len == task.func.insns.len(),
            nop_out@.len() == len,
            forall|j: int|
                0 <= j < len ==> #[trigger] nop_out@[j] == task.nops.contains(
                    InstIx { ix: j as u32 },
                ),
            replay.next_is(frag_env@, k as int),
            replay.start_list() == task.places,
            replay.end_list() == task.places,
            func.model() == task.upto(im, k as int),
            all_covered(im, task.func.insns, task.places, task.places, task.frags) ==> all_real(
                im,
                func.model().insns.take(k as int),
            ),
            use_checker == (checker is Some),
            use_checker ==> {
                &&& blocks@.len() == len
                &&& forall|j: int| 0 <= j < len ==> (#[trigger] blocks@[j]) == task.block(j)
                &&& states.len() == k + 1
                &&& checker == Some(states[k as int])
                &&& checks::<F, C>(task, func0, *reg_universe, *insts_to_add, states)
            },
        decreases len - k,
    {
        let iix = InstIx::new(k);
        let (map_uses, map_defs) = replay.step(iix, frag_env);
        checker = match checker {
            Some(c) => {
                let block = blocks[k as usize];
                let answer = c.handle_insn(reg_universe, func, block, iix, &map_uses, &map_defs);
                assert(told::<F, C>(task, *reg_universe, k as int, c, answer));
                match answer {
                    Ok(next) => {
                        proof {
                            let longer = states.push(next);
                            assert forall|i: int| 0 <= i < longer.len() - 1 implies #[trigger] told_at::<
                                F,
                                C,
                            >(task, *reg_universe, longer, i) by {
                                if i < k {
                                    assert(told_at::<F, C>(task, *reg_universe, states, i));
                                }
                            }
                            states = longer;
                        }
                        Some(next)
                    },
                    Err(e) => {
                        return Err(e);
                    },
                }
            },
            None => None,
        };
        let ghost before = func.model();
        rewrite_insn(func, iix, &map_uses, &map_defs, nop_out[k as usize]);
        proof {
            assert(before.insns[k as int] == task.func.insns[k as int]);
            assert(func.model().insns =~= task.upto(im, k + 1).insns);
            if all_covered(im, task.func.insns, task.places, task.places, task.frags) {
                let maps = task.maps(k as int);
                assert((im.regs)(task.func.insns[k as int]).covered_by(maps.uses, maps.defs));
                assert(func.model().insns.take(k + 1) =~= before.insns.take(k as int).push(
                    func.model().insns[k as int],
                ));
            }
        }
        k += 1;
    }
    assert(func.model().insns.take(k as int) =~= func.model().insns);
    match checker {
        Some(c) => c.run(),
        None => Ok(()),
    }
}

/// Interleaves the instructions of the function with those to be added. Also returns where each
/// block starts in the outcome, and which source instruction each instruction of the outcome is.
pub fn add_spills_reloads_and_moves<F: Function>(
    func: &F,
    insts_to_add: Vec<InstToInsertAndPoint>,
) -> (r: Result<
    (Vec<F::Inst>, TypedIxVec<BlockIx, InstIx>, TypedIxVec<InstIx, InstIx>),
    String,
>)
    requires
        clones_faithfully::<F>(),
        func.model().laid_out(),
        insts_placed(insts_to_add@, func.model().insns.len() as int),
    ensures
        r matches Ok(edited) && is_interleaved(edited, func.model(), insts_to_add@) && (all_real(
            F::inst_model(),
            func.model().insns,
        ) ==> all_real(F::inst_model(), edited.0@)),
{
    let ghost m = func.model();
    let mut items: Vec<(InstPoint, F::Inst)> = Vec::new();
    let mut i: usize = 0;
    while i < insts_to_add.len()
        invariant
            m == func.model(),
            i <= insts_to_add@.len(),
            items@ == made_items(m, insts_to_add@).take(i as int),
            forall|j: int|
                0 <= j < i ==> (F::inst_model().regs)((#[trigger] items@[j]).1).only_real(),
        decreases insts_to_add@.len() - i,
    {
        let inst = insts_to_add[i].inst.construct(func);
        items.push((insts_to_add[i].point, inst));
        i += 1;
        assert(items@ =~= made_items(m, insts_to_add@).take(i as int));
    }
    assert(items@ =~= made_items(m, insts_to_add@));
    assert(items_placed(items@, m.insns.len() as int)) by {
        assert forall|j: int| 0 <= j < items@.len() implies {
            &&& (#[trigger] items@[j]).0.pt is Reload || items@[j].0.pt is Spill
            &&& items@[j].0.iix.pos() < m.insns.len()
        } by {
            assert(items@[j].0 == insts_to_add@[j].point);
        }
    }
    proof {
        if all_real(F::inst_model(), m.insns) {
            lemma_spliced_real(F::inst_model(), items@, m.insns, m.insns.len() as int);
        }
    }
    Ok(splice(func, &items))
}

/// The instructions of `m` with those to be added in their places, where each block starts among
/// them, and which instruction of `m` each of them is.
pub open spec fn is_interleaved<I>(
    edited: (Vec<I>, TypedIxVec<BlockIx, InstIx>, TypedIxVec<InstIx, InstIx>),
    m: FuncModel<I>,
    insts: Seq<InstToInsertAndPoint>,
) -> bool {
    let items = made_items(m, insts);
    let len = m.insns.len() as int;
    &&& edited.0@ == spliced(items, m.insns, len)
    &&& edited.1@ == block_targets(items, m)
    &&& edited.2@ == spliced_from(items, len)
}

/// Gives the instructions of the function their real registers, and adds the given ones.
pub fn edit_inst_stream<F: Function, C: Checker<F>>(
    func: &mut F,
    insts_to_add: Vec<InstToInsertAndPoint>,
    iixs_to_nop_out: &Vec<InstIx>,
    frag_map: RangeAllocations,
    frag_env: &TypedIxVec<RangeFragIx, RangeFrag>,
    reg_universe: &RealRegUniverse,
    has_multiple_blocks_per_frag: bool,
    use_checker: bool,
) -> (r: Result<
    (Vec<F::Inst>, TypedIxVec<BlockIx, InstIx>, TypedIxVec<InstIx, InstIx>),
    RegAllocError<C::Errors>,
>)
    requires
        clones_faithfully::<F>(),
        old(func).model().laid_out(),
        old(func).model().insns.len() <= 0x8000_0000,
        list_in_env(frag_map@, frag_env@),
        insts_placed(insts_to_add@, old(func).model().insns.len() as int),
    ensures
        ({
            let task = Task {
                func: old(func).model(),
                places: frag_map@,
                frags: frag_env@,
                nops: iixs_to_nop_out@,
            };
            if use_checker {
                exists|verdict: Result<(), C::Errors>| #[trigger]
                    checked::<F, C>(
                        task,
                        *old(func),
                        *reg_universe,
                        insts_to_add,
                        final(func).model(),
                        verdict,
                    ) && match verdict {
                        Ok(_) => r matches Ok(edited) && is_interleaved(
                            edited,
                            task.done(F::inst_model()),
                            insts_to_add@,
                        ),
                        Err(e) => r == Err::<
                            (Vec<F::Inst>, TypedIxVec<BlockIx, InstIx>, TypedIxVec<InstIx, InstIx>),
                            _,
                        >(RegAllocError::RegChecker(e)),
                    }
            } else {
                &&& r matches Ok(edited) && is_interleaved(
                    edited,
                    task.done(F::inst_model()),
                    insts_to_add@,
                )
                &&& final(func).model() == task.done(F::inst_model())
            }
        }),
        r matches Ok(edited) ==> all_covered(
            F::inst_model(),
            old(func).model().insns,
            frag_map@,
            frag_map@,
            frag_env@,
        ) ==> all_real(F::inst_model(), edited.0@),
{
    let ghost m0 = func.model();
    let ghost task = Task {
        func: m0,
        places: frag_map@,
        frags: frag_env@,
        nops: iixs_to_nop_out@,
    };
    let outcome = map_vregs_to_rregs::<F, C>(
        func,
        frag_map,
        frag_env,
        &insts_to_add,
        iixs_to_nop_out,
        reg_universe,
        has_multiple_blocks_per_frag,
        use_checker,
    );
    if let Err(e) = outcome {
        return Err(RegAllocError::RegChecker(e));
    }
    assert(func.model() == task.done(F::inst_model()));
    match add_spills_reloads_and_moves(func, insts_to_add) {
        Ok(edited) => Ok(edited),
        Err(e) => Err(RegAllocError::Other(e)),
    }
}

} // verus!
