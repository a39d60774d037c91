//! What can be relied on of edited code.

use crate::checker::Checker;
use crate::course::{all_fixed, lemma_reaches_inv};
use crate::frags::{InstPoint, Point, RangeFrag};
use crate::in_force::{entry_frag, holds_spans, lemma_maps_at, list_ok, spans};
use crate::index::{BlockIx, InstIx, RangeFragIx, TypedIx, VirtualRangeIx};
use crate::input_laws::{law_what_code_without_virtual_registers_is, names_virtual};
use crate::inst_stream::{block_of, checked, checks, told, told_at, InstToInsertAndPoint, Task};
use crate::interface::{FuncModel, Function, InstModel, RegAllocResult};
use crate::laws::gets_to;
use crate::mapping::{insn_maps, VregMap};
use crate::meaning::{lemma_orders_before, reload_insns, spill_insns};
use crate::outcome::{
    edit_items, is_edited, lemma_all_covered, lemma_items_placed, lemma_orders_ok,
    lemma_placement_at, lemma_placement_from, lemma_placements_ok, orders_ok, placement, placements,
    reg_sites, sites, Site,
};
use crate::plain::{earlier, law_ranks_order_points, point};
use crate::ranges::{RlrView, VlrView};
use crate::real_reg::RegView;
use crate::regs::{RealReg, RealRegUniverse, Reg, VirtualReg};
use crate::spill::EditListItem;
use crate::splice_laws::{
    items_for, law_what_splicing_makes, lemma_insts_at, lemma_items_before_bounds,
    lemma_items_before_next, place_in_outcome, stands_at,
};
use crate::state::{turn, AllocState, Setting};
use crate::stream::{all_covered, rewritten_insns, spliced_from};
use crate::stream_laws::law_all_items_are_spliced_in;
use vstd::prelude::*;

verus! {

// ---- Maps

/// The entry is of a fragment that has started by point `p` and has not ended before point `q`.
pub open spec fn is_live_over(
    entry: (RangeFragIx, VirtualReg, RealReg),
    frags: Seq<RangeFrag>,
    p: InstPoint,
    q: InstPoint,
) -> bool {
    let frag = frags[entry.0.ix as int];
    !earlier(p, frag.first) && !earlier(frag.last, q)
}

/// The map tells where the virtual registers are that are live from `p` to `q`: it maps those of
/// the entries that are live, each to the entry's register, and no others.
pub open spec fn tells_where(
    map: Map<VirtualReg, RealReg>,
    list: Seq<(RangeFragIx, VirtualReg, RealReg)>,
    frags: Seq<RangeFrag>,
    p: InstPoint,
    q: InstPoint,
) -> bool {
    &&& forall|i: int|
        0 <= i < list.len() && is_live_over(#[trigger] list[i], frags, p, q)
            ==> map.contains_key(list[i].1) && map[list[i].1] == list[i].2
    &&& forall|v: VirtualReg| #[trigger]
        map.contains_key(v) ==> exists|i: int|
            0 <= i < list.len() && is_live_over(#[trigger] list[i], frags, p, q) && list[i].1 == v
}

proof fn lemma_tells_where(
    map: Map<VirtualReg, RealReg>,
    list: Seq<(RangeFragIx, VirtualReg, RealReg)>,
    frags: Seq<RangeFrag>,
    p: InstPoint,
    q: InstPoint,
)
    requires
        holds_spans(map, list, frags, p.rank(), q.rank()),
    ensures
        tells_where(map, list, frags, p, q),
{
    assert forall|i: int| 0 <= i < list.len() implies (is_live_over(
        #[trigger] list[i],
        frags,
        p,
        q,
    ) <==> spans(list, frags, i, p.rank(), q.rank())) by {
        let frag = entry_frag(list, frags, i);
        law_ranks_order_points(p, frag.first);
        law_ranks_order_points(frag.last, q);
    }
    assert forall|i: int|
        0 <= i < list.len() && is_live_over(
            #[trigger] list[i],
            frags,
            p,
            q,
        ) implies map.contains_key(list[i].1) && map[list[i].1] == list[i].2 by {
        assert(spans(list, frags, i, p.rank(), q.rank()));
    }
    assert forall|v: VirtualReg| #[trigger] map.contains_key(v) implies exists|i: int|
        0 <= i < list.len() && is_live_over(#[trigger] list[i], frags, p, q) && list[i].1 == v by {
        let i = choose|i: int| #[trigger]
            spans(list, frags, i, p.rank(), q.rank()) && list[i].1 == v;
        assert(is_live_over(list[i], frags, p, q));
    }
}

/// Going through the code, the maps tell where the virtual registers are: at what an instruction
/// reads, between its reads and its writes, at what it writes, between its writes and its spills,
/// and behind it.
pub proof fn law_maps_tell_where_registers_are(
    list: Seq<(RangeFragIx, VirtualReg, RealReg)>,
    frags: Seq<RangeFrag>,
    k: int,
)
    requires
        list_ok(list, frags),
        0 <= k < u32::MAX,
    ensures
        ({
            let maps = insn_maps(list, list, frags, k);
            let u = point(k, Point::Use);
            let d = point(k, Point::Def);
            let s = point(k, Point::Spill);
            &&& tells_where(maps.uses, list, frags, u, u)
            &&& tells_where(maps.after_use, list, frags, u, d)
            &&& tells_where(maps.defs, list, frags, d, d)
            &&& tells_where(maps.after_def, list, frags, d, s)
            &&& tells_where(maps.after, list, frags, s, point(k + 1, Point::Reload))
        }),
{
    lemma_maps_at(list, frags, k);
    let maps = insn_maps(list, list, frags, k);
    let u = point(k, Point::Use);
    let d = point(k, Point::Def);
    let s = point(k, Point::Spill);
    lemma_tells_where(maps.uses, list, frags, u, u);
    lemma_tells_where(maps.after_use, list, frags, u, d);
    lemma_tells_where(maps.defs, list, frags, d, d);
    lemma_tells_where(maps.after_def, list, frags, d, s);
    lemma_tells_where(maps.after, list, frags, s, point(k + 1, Point::Reload));
}

// ---- Rewriting

/// `new` is instruction `insn`, at position `k`, with the registers that the list has for what is
/// live there: where it reads for what it reads, and where it writes for what it writes.
pub open spec fn is_rewritten<I>(
    im: InstModel<I>,
    list: Seq<(RangeFragIx, VirtualReg, RealReg)>,
    frags: Seq<RangeFrag>,
    k: int,
    insn: I,
    new: I,
) -> bool {
    exists|uses: Map<VirtualReg, RealReg>, defs: Map<VirtualReg, RealReg>|
        {
            &&& tells_where(uses, list, frags, point(k, Point::Use), point(k, Point::Use))
            &&& tells_where(defs, list, frags, point(k, Point::Def), point(k, Point::Def))
            &&& new == #[trigger] (im.rewritten)(insn, uses, defs)
        }
}

proof fn lemma_is_rewritten<I>(
    im: InstModel<I>,
    list: Seq<(RangeFragIx, VirtualReg, RealReg)>,
    frags: Seq<RangeFrag>,
    k: int,
    insn: I,
)
    requires
        list_ok(list, frags),
        0 <= k < u32::MAX,
    ensures
        ({
            let maps = insn_maps(list, list, frags, k);
            is_rewritten(im, list, frags, k, insn, (im.rewritten)(insn, maps.uses, maps.defs))
        }),
{
    law_maps_tell_where_registers_are(list, frags, k);
}

/// The list names instruction `k`.
pub open spec fn names(list: Seq<InstIx>, k: int) -> bool {
    exists|n: int| 0 <= n < list.len() && (#[trigger] list[n]).ix == k
}

/// The function `after` is the one of the task with its first `stop` instructions edited: each one
/// that is named to be one is the no-op of the function, each of the others has the registers that
/// the task has for it, and nothing else is changed.
pub open spec fn is_edited_upto<I>(
    im: InstModel<I>,
    task: Task<I>,
    stop: int,
    after: FuncModel<I>,
) -> bool {
    &&& after.insns.len() == task.func.insns.len()
    &&& after.blocks == task.func.blocks
    &&& after.slot_size == task.func.slot_size
    &&& after.spill == task.func.spill
    &&& after.reload == task.func.reload
    &&& after.mov == task.func.mov
    &&& after.nop == task.func.nop
    &&& forall|k: int|
        0 <= k < after.insns.len() ==> {
            let new = #[trigger] after.insns[k];
            let insn = task.func.insns[k];
            &&& k >= stop ==> new == insn
            &&& k < stop && names(task.nops, k) ==> new == task.func.nop
            &&& k < stop && !names(task.nops, k) ==> is_rewritten(
                im,
                task.places,
                task.frags,
                k,
                insn,
                new,
            )
        }
}

/// Editing turns each instruction that is named to be one into the no-op of the function, all of
/// them and no others, and gives each of the others the registers that are in force where it reads
/// and where it writes. Instructions that have not been reached, and all else, stay as they are.
pub proof fn law_what_editing_makes<I>(im: InstModel<I>, task: Task<I>, stop: int)
    requires
        list_ok(task.places, task.frags),
        task.func.insns.len() <= u32::MAX,
    ensures
        is_edited_upto(im, task, stop, task.upto(im, stop)),
        is_edited_upto(im, task, task.func.insns.len() as int, task.done(im)),
{
    lemma_edited_upto(im, task, stop);
    lemma_edited_upto(im, task, task.func.insns.len() as int);
}

/// A list names the instructions that it holds.
pub proof fn lemma_names(list: Seq<InstIx>, k: int)
    requires
        0 <= k <= u32::MAX,
    ensures
        list.contains(InstIx { ix: k as u32 }) <==> names(list, k),
{
    if names(list, k) {
        let n = choose|n: int| 0 <= n < list.len() && (#[trigger] list[n]).ix == k;
        assert(list[n] == (InstIx { ix: k as u32 }));
    }
    if list.contains(InstIx { ix: k as u32 }) {
        let n = choose|n: int| 0 <= n < list.len() && list[n] == (InstIx { ix: k as u32 });
        assert(list[n].ix == k);
    }
}

proof fn lemma_edited_upto<I>(im: InstModel<I>, task: Task<I>, stop: int)
    requires
        list_ok(task.places, task.frags),
        task.func.insns.len() <= u32::MAX,
    ensures
        is_edited_upto(im, task, stop, task.upto(im, stop)),
{
    let after = task.upto(im, stop);
    assert forall|k: int| 0 <= k < after.insns.len() implies {
        let new = #[trigger] after.insns[k];
        let insn = task.func.insns[k];
        &&& k >= stop ==> new == insn
        &&& k < stop && names(task.nops, k) ==> new == task.func.nop
        &&& k < stop && !names(task.nops, k) ==> is_rewritten(
            im,
            task.places,
            task.frags,
            k,
            insn,
            new,
        )
    } by {
        lemma_names(task.nops, k);
        lemma_is_rewritten(im, task.places, task.frags, k, task.func.insns[k]);
    }
}

/// Which instructions become no-ops does not depend on the rest: whatever the list of fragments is
/// like, an instruction that has been reached is the no-op of the function if it is named to be
/// one, and comes from the instruction of the source if it is not.
pub proof fn law_named_instructions_become_no_ops<I>(
    im: InstModel<I>,
    task: Task<I>,
    stop: int,
    k: int,
)
    requires
        0 <= k < task.func.insns.len() <= u32::MAX,
    ensures
        k < stop && names(task.nops, k) ==> task.upto(im, stop).insns[k] == task.func.nop,
        k < stop && !names(task.nops, k) ==> exists|
            uses: Map<VirtualReg, RealReg>,
            defs: Map<VirtualReg, RealReg>,
        |
            task.upto(im, stop).insns[k] == #[trigger] (im.rewritten)(
                task.func.insns[k],
                uses,
                defs,
            ),
        names(task.nops, k) ==> task.done(im).insns[k] == task.func.nop,
{
    lemma_names(task.nops, k);
    let maps = task.maps(k);
    let new = (im.rewritten)(task.func.insns[k], maps.uses, maps.defs);
    assert(k < stop && !names(task.nops, k) ==> task.upto(im, stop).insns[k] == new);
}

// ---- The checker

/// Instruction `k` is in block `b`.
pub open spec fn is_in_block<I>(m: FuncModel<I>, k: int, b: int) -> bool {
    0 <= b < m.blocks.len() && m.blocks[b].first <= k < m.blocks[b].end
}

/// `block` is the latest block that instruction `k` is in, or the first block if it is in none.
pub open spec fn is_block_of<I>(m: FuncModel<I>, k: int, block: BlockIx) -> bool {
    &&& forall|b: int| #[trigger]
        is_in_block(m, k, b) ==> is_in_block(m, k, block.ix as int) && b <= block.ix
    &&& (forall|b: int| !#[trigger] is_in_block(m, k, b)) ==> block.ix == 0
}

/// The checker in state `c` is asked about instruction `k`: of the function with the instructions
/// before it edited and it not, in its block, and with the registers that it is about to get. It
/// answers `answer`.
pub open spec fn is_asked<F: Function, C: Checker<F>>(
    task: Task<F::Inst>,
    universe: RealRegUniverse,
    k: int,
    c: C,
    answer: Result<C, C::Errors>,
) -> bool {
    exists|func: F, block: BlockIx, iix: InstIx, uses: VregMap, defs: VregMap|
        {
            &&& is_edited_upto(F::inst_model(), task, k, func.model())
            &&& is_block_of(task.func, k, block)
            &&& iix.ix == k
            &&& tells_where(
                uses@,
                task.places,
                task.frags,
                point(k, Point::Use),
                point(k, Point::Use),
            )
            &&& tells_where(
                defs@,
                task.places,
                task.frags,
                point(k, Point::Def),
                point(k, Point::Def),
            )
            &&& #[trigger] call_ensures(
                C::handle_insn,
                (c, &universe, &func, block, iix, &uses, &defs),
                answer,
            )
        }
}

pub open spec fn is_asked_at<F: Function, C: Checker<F>>(
    task: Task<F::Inst>,
    universe: RealRegUniverse,
    states: Seq<C>,
    i: int,
) -> bool {
    is_asked::<F, C>(task, universe, i, states[i], Ok(states[i + 1]))
}

proof fn lemma_block_of<I>(m: FuncModel<I>, n: int, k: int)
    requires
        0 <= n <= m.blocks.len(),
    ensures
        ({
            let b = block_of(m.blocks, n, k);
            &&& 0 <= b
            &&& b == 0 || b < n
            &&& forall|a: int| #[trigger]
                is_in_block(m, k, a) && a < n ==> b < n && is_in_block(m, k, b) && a <= b
            &&& (forall|a: int| #[trigger] is_in_block(m, k, a) ==> a >= n) ==> b == 0
        }),
    decreases n,
{
    if n > 0 {
        lemma_block_of(m, n - 1, k);
        assert(is_in_block(m, k, n - 1) <==> m.blocks[n - 1].first <= k < m.blocks[n - 1].end);
    }
}

proof fn lemma_is_asked<F: Function, C: Checker<F>>(
    task: Task<F::Inst>,
    universe: RealRegUniverse,
    k: int,
    c: C,
    answer: Result<C, C::Errors>,
)
    requires
        list_ok(task.places, task.frags),
        task.func.insns.len() <= u32::MAX,
        task.func.blocks.len() <= u32::MAX,
        0 <= k < task.func.insns.len(),
        told::<F, C>(task, universe, k, c, answer),
    ensures
        is_asked::<F, C>(task, universe, k, c, answer),
{
    let im = F::inst_model();
    let (func, uses, defs) = choose|func: F, uses: VregMap, defs: VregMap|
        func.model() == task.upto(im, k) && uses@ == task.maps(k).uses && defs@ == task.maps(
            k,
        ).defs && #[trigger] call_ensures(
            C::handle_insn,
            (c, &universe, &func, task.block(k), InstIx { ix: k as u32 }, &uses, &defs),
            answer,
        );
    lemma_edited_upto(im, task, k);
    law_maps_tell_where_registers_are(task.places, task.frags, k);
    lemma_block_of(task.func, task.func.blocks.len() as int, k);
    assert(is_block_of(task.func, k, task.block(k)));
    assert(call_ensures(
        C::handle_insn,
        (c, &universe, &func, task.block(k), InstIx { ix: k as u32 }, &uses, &defs),
        answer,
    ));
}

/// With a checker, editing goes like this: the checker is set up for the function as it was; it is
/// asked about one instruction after the other, from the first on; if it objects to one, that is
/// the outcome, and that instruction and those behind it stay as they were; if it objects to none,
/// all instructions are edited, and its verdict on the whole is the outcome.
pub proof fn law_the_checker_is_asked_in_turn<F: Function, C: Checker<F>>(
    task: Task<F::Inst>,
    before: F,
    universe: RealRegUniverse,
    insts: Vec<InstToInsertAndPoint>,
    after: FuncModel<F::Inst>,
    r: Result<(), C::Errors>,
) -> (states: Seq<C>)
    requires
        list_ok(task.places, task.frags),
        task.func.insns.len() <= u32::MAX,
        task.func.blocks.len() <= u32::MAX,
        checked::<F, C>(task, before, universe, insts, after, r),
    ensures
        1 <= states.len() <= task.func.insns.len() + 1,
        call_ensures(C::new, (&before, &universe, &insts), states[0]),
        forall|i: int|
            0 <= i < states.len() - 1 ==> #[trigger] is_asked_at::<F, C>(task, universe, states, i),
        is_edited_upto(F::inst_model(), task, states.len() - 1, after),
        states.len() == task.func.insns.len() + 1 ==> call_ensures(
            C::run,
            (states[states.len() - 1],),
            r,
        ),
        states.len() <= task.func.insns.len() ==> (r matches Err(e) && is_asked::<F, C>(
            task,
            universe,
            states.len() - 1,
            states[states.len() - 1],
            Err(e),
        )),
{
    let im = F::inst_model();
    let len = task.func.insns.len() as int;
    let states = choose|s: Seq<C>| #[trigger]
        checks::<F, C>(task, before, universe, insts, s) && {
            let k = s.len() - 1;
            ||| k == len && call_ensures(C::run, (s[k],), r) && after == task.done(im)
            ||| k < len && (r matches Err(e) && told::<F, C>(task, universe, k, s[k], Err(e)))
                && after == task.upto(im, k)
        };
    let k = states.len() - 1;
    lemma_edited_upto(im, task, k);
    assert forall|i: int| 0 <= i < states.len() - 1 implies #[trigger] is_asked_at::<F, C>(
        task,
        universe,
        states,
        i,
    ) by {
        assert(told_at::<F, C>(task, universe, states, i));
        lemma_is_asked::<F, C>(task, universe, i, states[i], Ok(states[i + 1]));
    }
    if k < len {
        lemma_is_asked::<F, C>(task, universe, k, states[k], Err(r->Err_0));
    }
    states
}

// ---- Registers that are written

/// The registers that are reported as clobbered are those that some instruction of the code defines
/// or modifies, all of them and no others; and no instruction writes a virtual register.
pub proof fn law_clobbered_registers_are_the_written_ones<F: Function>(
    r: RegAllocResult<F>,
    m: FuncModel<F::Inst>,
    edits: Seq<EditListItem>,
    starts: Seq<(RangeFragIx, VirtualReg, RealReg)>,
    ends: Seq<(RangeFragIx, VirtualReg, RealReg)>,
    vlrs: Seq<VlrView>,
    frags: Seq<RangeFrag>,
    num_spill_slots: int,
)
    requires
        is_edited(r, m, edits, starts, ends, vlrs, frags, num_spill_slots),
    ensures
        forall|reg: RealReg| #[trigger]
            r.clobbered_registers@.contains(reg) ==> exists|j: int|
                0 <= j < r.insns@.len() && {
                    let uses = (F::inst_model().regs)(#[trigger] r.insns@[j]);
                    uses.defined.contains(Reg::Real(reg)) || uses.modified.contains(Reg::Real(reg))
                },
        forall|reg: RealReg, j: int|
            0 <= j < r.insns@.len() && {
                let uses = (F::inst_model().regs)(#[trigger] r.insns@[j]);
                uses.defined.contains(Reg::Real(reg)) || uses.modified.contains(Reg::Real(reg))
            } ==> #[trigger] r.clobbered_registers@.contains(reg),
        forall|j: int, v: VirtualReg|
            0 <= j < r.insns@.len() ==> {
                &&& !#[trigger] (F::inst_model().regs)(r.insns@[j]).defined.contains(
                    Reg::Virtual(v),
                )
                &&& !(F::inst_model().regs)(r.insns@[j]).modified.contains(Reg::Virtual(v))
            },
        r.num_spill_slots == num_spill_slots,
{
    let im = F::inst_model();
    assert forall|j: int, v: VirtualReg|
        0 <= j < r.insns@.len() implies {
        &&& !#[trigger] (im.regs)(r.insns@[j]).defined.contains(Reg::Virtual(v))
        &&& !(im.regs)(r.insns@[j]).modified.contains(Reg::Virtual(v))
    } by {
        let uses = (im.regs)(r.insns@[j]);
        assert(uses.writes_real());
        if uses.defined.contains(Reg::Virtual(v)) || uses.modified.contains(Reg::Virtual(v)) {
            assert(uses.writes(Reg::Virtual(v)));
        }
    }
}

// ---- Where ranges are placed

/// The maps have what the instruction needs of `v`: if it reads it, the one has it; if it writes
/// it, the other has it; and if it reads and writes it at once, both have it, with the same
/// register.
pub open spec fn is_mapped<I>(
    im: InstModel<I>,
    insn: I,
    reads: Map<VirtualReg, RealReg>,
    writes: Map<VirtualReg, RealReg>,
    v: VirtualReg,
) -> bool {
    let uses = (im.regs)(insn);
    &&& uses.used.contains(Reg::Virtual(v)) ==> reads.contains_key(v)
    &&& uses.defined.contains(Reg::Virtual(v)) ==> writes.contains_key(v)
    &&& uses.modified.contains(Reg::Virtual(v)) ==> reads.contains_key(v) && writes.contains_key(v)
        && reads[v] == writes[v]
}

/// Where the maps at each instruction have all that it mentions, no virtual register is left in the
/// code: no instruction uses, defines or modifies one.
pub proof fn law_no_virtual_register_is_left<F: Function>(
    r: RegAllocResult<F>,
    m: FuncModel<F::Inst>,
    edits: Seq<EditListItem>,
    starts: Seq<(RangeFragIx, VirtualReg, RealReg)>,
    ends: Seq<(RangeFragIx, VirtualReg, RealReg)>,
    vlrs: Seq<VlrView>,
    frags: Seq<RangeFrag>,
    num_spill_slots: int,
)
    requires
        is_edited(r, m, edits, starts, ends, vlrs, frags, num_spill_slots),
        forall|k: int, v: VirtualReg|
            0 <= k < m.insns.len() ==> #[trigger] is_mapped(
                F::inst_model(),
                m.insns[k],
                insn_maps(starts, ends, frags, k).uses,
                insn_maps(starts, ends, frags, k).defs,
                v,
            ),
    ensures
        forall|j: int, v: VirtualReg|
            0 <= j < r.insns@.len() ==> !#[trigger] names_virtual(
                F::inst_model(),
                r.insns@[j],
                v,
            ),
{
    let im = F::inst_model();
    assert(all_covered(im, m.insns, starts, ends, frags)) by {
        assert forall|k: int| 0 <= k < m.insns.len() implies {
            let maps = insn_maps(starts, ends, frags, k);
            (im.regs)(#[trigger] m.insns[k]).covered_by(maps.uses, maps.defs)
        } by {
            let maps = insn_maps(starts, ends, frags, k);
            let uses = (im.regs)(m.insns[k]);
            assert forall|v: VirtualReg| #[trigger] uses.mentions(Reg::Virtual(v)) implies {
                &&& uses.used.contains(Reg::Virtual(v)) ==> maps.uses.contains_key(v)
                &&& uses.defined.contains(Reg::Virtual(v)) ==> maps.defs.contains_key(v)
                &&& uses.modified.contains(Reg::Virtual(v)) ==> maps.uses.contains_key(v)
                    && maps.defs.contains_key(v) && maps.uses[v] == maps.defs[v]
            } by {
                assert(is_mapped(im, m.insns[k], maps.uses, maps.defs, v));
            }
        }
    }
    law_what_code_without_virtual_registers_is(im, r.insns@);
}

/// The entry is of fragment `k` of the range at position `j` of those that register `i` holds.
pub open spec fn is_entry_of(
    universe: RealRegUniverse,
    st: AllocState,
    entry: (RangeFragIx, VirtualReg, RealReg),
    i: int,
    j: int,
    k: int,
) -> bool {
    let vlr = st.vlrs[st.regs[i].assigned[j].ix as int];
    &&& 0 <= i < st.regs.len()
    &&& 0 <= j < st.regs[i].assigned.len()
    &&& 0 <= k < vlr.frags.len()
    &&& entry.0 == vlr.frags[k]
    &&& entry.1 == vlr.vreg
    &&& entry.2 == universe.regs@[i].0
}

/// The entry is of a fragment of a range that some register holds.
pub open spec fn is_entry(
    universe: RealRegUniverse,
    st: AllocState,
    entry: (RangeFragIx, VirtualReg, RealReg),
) -> bool {
    exists|i: int, j: int, k: int| is_entry_of(universe, st, entry, i, j, k)
}

/// The placements are those of all fragments of all ranges that have a register, each of them once:
/// with the range's virtual register, and the register that holds it.
pub proof fn law_placements_are_of_all_fragments<I>(
    setting: Setting<I>,
    fixed: Seq<Set<RangeFragIx>>,
    st: AllocState,
)
    requires
        setting.universe.wf(),
        st.inv(setting, fixed, None),
    ensures
        placements(setting.universe, st).no_duplicates(),
        forall|n: int|
            0 <= n < placements(setting.universe, st).len() ==> is_entry(
                setting.universe,
                st,
                #[trigger] placements(setting.universe, st)[n],
            ),
        forall|entry: (RangeFragIx, VirtualReg, RealReg)| #[trigger]
            is_entry(setting.universe, st, entry) ==> placements(setting.universe, st).contains(
                entry,
            ),
{
    let list = placements(setting.universe, st);
    assert forall|n: int| 0 <= n < list.len() implies is_entry(
        setting.universe,
        st,
        #[trigger] list[n],
    ) by {
        let s = lemma_placement_from(setting, fixed, st, n);
        let assigned = st.regs[s.reg].assigned;
        let j = choose|j: int| 0 <= j < assigned.len() && assigned[j] == s.vlrix;
        assert(is_entry_of(setting.universe, st, list[n], s.reg, j, s.frag));
    }
    assert forall|entry: (RangeFragIx, VirtualReg, RealReg)| #[trigger]
        is_entry(setting.universe, st, entry) implies list.contains(entry) by {
        let (i, j, k) = choose|i: int, j: int, k: int|
            is_entry_of(setting.universe, st, entry, i, j, k);
        let x = st.regs[i].assigned[j];
        assert(st.at_reg(x, i));
        let n = lemma_placement_at(setting, fixed, st, x, i, k);
        assert(list[n] == entry);
    }
    lemma_placements_ok(setting, fixed, st);
    assert forall|a: int, b: int| 0 <= a < list.len() && 0 <= b < list.len() && a != b implies list[a]
        != list[b] by {
        if list[a] == list[b] {
            assert(entry_frag(list, st.frags, a).disjoint(entry_frag(list, st.frags, b)));
            assert(entry_frag(list, st.frags, a).wf());
        }
    }
}

/// Where the entries for one register come from: the position of the range among those that are
/// assigned to it, and the fragment of that range.
spec fn places_in_reg(i: int, assigned: Seq<VirtualRangeIx>, vlrs: Seq<VlrView>) -> Seq<
    (int, int, int),
>
    decreases assigned.len(),
{
    if assigned.len() == 0 {
        Seq::empty()
    } else {
        let j = assigned.len() - 1;
        places_in_reg(i, assigned.drop_last(), vlrs) + Seq::new(
            vlrs[assigned[j].pos()].frags.len(),
            |k: int| (i, j, k),
        )
    }
}

/// Where the entries for the first `n` registers come from.
spec fn places_in_regs(regs: Seq<RegView>, vlrs: Seq<VlrView>, n: int) -> Seq<(int, int, int)>
    decreases n,
{
    if n <= 0 {
        Seq::empty()
    } else {
        places_in_regs(regs, vlrs, n - 1) + places_in_reg(n - 1, regs[n - 1].assigned, vlrs)
    }
}

/// One place comes before another: at an earlier register, or at an earlier range there, or at an
/// earlier fragment of that range.
pub open spec fn comes_first(a: (int, int, int), b: (int, int, int)) -> bool {
    ||| a.0 < b.0
    ||| a.0 == b.0 && a.1 < b.1
    ||| a.0 == b.0 && a.1 == b.1 && a.2 < b.2
}

proof fn lemma_places_in_reg(i: int, assigned: Seq<VirtualRangeIx>, vlrs: Seq<VlrView>)
    ensures
        ({
            let at = places_in_reg(i, assigned, vlrs);
            let all = reg_sites(i, assigned, vlrs);
            &&& at.len() == all.len()
            &&& forall|n: int|
                0 <= n < at.len() ==> {
                    let (i2, j, k) = #[trigger] at[n];
                    &&& i2 == i
                    &&& 0 <= j < assigned.len()
                    &&& 0 <= k < vlrs[assigned[j].pos()].frags.len()
                    &&& all[n] == (Site { reg: i, vlrix: assigned[j], frag: k })
                }
            &&& forall|m: int, n: int|
                0 <= m < n < at.len() ==> comes_first(#[trigger] at[m], #[trigger] at[n])
            &&& forall|j: int, k: int|
                0 <= j < assigned.len() && 0 <= k < vlrs[assigned[j].pos()].frags.len()
                    ==> #[trigger] at.contains((i, j, k))
        }),
    decreases assigned.len(),
{
    if assigned.len() > 0 {
        let fewer = assigned.drop_last();
        let last = assigned.len() - 1;
        lemma_places_in_reg(i, fewer, vlrs);
        let at = places_in_reg(i, assigned, vlrs);
        let front = places_in_reg(i, fewer, vlrs);
        let all = reg_sites(i, assigned, vlrs);
        assert forall|n: int| 0 <= n < at.len() implies {
            let (i2, j, k) = #[trigger] at[n];
            &&& i2 == i
            &&& 0 <= j < assigned.len()
            &&& 0 <= k < vlrs[assigned[j].pos()].frags.len()
            &&& all[n] == (Site { reg: i, vlrix: assigned[j], frag: k })
        } by {
            if n < front.len() {
                assert(at[n] == front[n]);
            } else {
                assert(at[n] == (i, last, n - front.len()));
            }
        }
        assert forall|m: int, n: int| 0 <= m < n < at.len() implies comes_first(
            #[trigger] at[m],
            #[trigger] at[n],
        ) by {
            if m < front.len() {
                assert(at[m] == front[m]);
            }
            if n < front.len() {
                assert(at[n] == front[n]);
            }
        }
        assert forall|j: int, k: int|
            0 <= j < assigned.len() && 0 <= k
                < vlrs[assigned[j].pos()].frags.len() implies #[trigger] at.contains((i, j, k)) by {
            if j < last {
                assert(fewer[j] == assigned[j]);
                assert(front.contains((i, j, k)));
                let n = choose|n: int| 0 <= n < front.len() && front[n] == (i, j, k);
                assert(at[n] == (i, j, k));
            } else {
                assert(at[front.len() + k] == (i, j, k));
            }
        }
    }
}

proof fn lemma_places_in_regs(regs: Seq<RegView>, vlrs: Seq<VlrView>, n: int)
    requires
        0 <= n <= regs.len(),
    ensures
        ({
            let at = places_in_regs(regs, vlrs, n);
            let all = sites(regs, vlrs, n);
            &&& at.len() == all.len()
            &&& forall|m: int|
                0 <= m < at.len() ==> {
                    let (i, j, k) = #[trigger] at[m];
                    &&& 0 <= i < n
                    &&& 0 <= j < regs[i].assigned.len()
                    &&& 0 <= k < vlrs[regs[i].assigned[j].pos()].frags.len()
                    &&& all[m] == (Site { reg: i, vlrix: regs[i].assigned[j], frag: k })
                }
            &&& forall|l: int, m: int|
                0 <= l < m < at.len() ==> comes_first(#[trigger] at[l], #[trigger] at[m])
            &&& forall|i: int, j: int, k: int|
                0 <= i < n && 0 <= j < regs[i].assigned.len() && 0 <= k
                    < vlrs[regs[i].assigned[j].pos()].frags.len() ==> #[trigger] at.contains(
                    (i, j, k),
                )
        }),
    decreases n,
{
    if n > 0 {
        lemma_places_in_regs(regs, vlrs, n - 1);
        lemma_places_in_reg(n - 1, regs[n - 1].assigned, vlrs);
        let at = places_in_regs(regs, vlrs, n);
        let front = places_in_regs(regs, vlrs, n - 1);
        let back = places_in_reg(n - 1, regs[n - 1].assigned, vlrs);
        let all = sites(regs, vlrs, n);
        assert forall|m: int| 0 <= m < at.len() implies {
            let (i, j, k) = #[trigger] at[m];
            &&& 0 <= i < n
            &&& 0 <= j < regs[i].assigned.len()
            &&& 0 <= k < vlrs[regs[i].assigned[j].pos()].frags.len()
            &&& all[m] == (Site { reg: i, vlrix: regs[i].assigned[j], frag: k })
        } by {
            if m < front.len() {
                assert(at[m] == front[m]);
            } else {
                assert(at[m] == back[m - front.len()]);
            }
        }
        assert forall|l: int, m: int| 0 <= l < m < at.len() implies comes_first(
            #[trigger] at[l],
            #[trigger] at[m],
        ) by {
            if l < front.len() {
                assert(at[l] == front[l]);
            } else {
                assert(at[l] == back[l - front.len()]);
            }
            if m < front.len() {
                assert(at[m] == front[m]);
            } else {
                assert(at[m] == back[m - front.len()]);
            }
        }
        assert forall|i: int, j: int, k: int|
            0 <= i < n && 0 <= j < regs[i].assigned.len() && 0 <= k
                < vlrs[regs[i].assigned[j].pos()].frags.len() implies #[trigger] at.contains(
            (i, j, k),
        ) by {
            if i < n - 1 {
                assert(front.contains((i, j, k)));
                let m = choose|m: int| 0 <= m < front.len() && front[m] == (i, j, k);
                assert(at[m] == (i, j, k));
            } else {
                assert(back.contains((i, j, k)));
                let m = choose|m: int| 0 <= m < back.len() && back[m] == (i, j, k);
                assert(at[front.len() + m] == (i, j, k));
            }
        }
    }
}

/// The placements come register by register, for each of these range by range as they are assigned
/// to it, and for each of these fragment by fragment, and none is left out. The places are the
/// result.
pub proof fn law_placements_come_in_order(universe: RealRegUniverse, st: AllocState) -> (at: Seq<
    (int, int, int),
>)
    requires
        st.regs.len() <= universe.regs@.len(),
    ensures
        at.len() == placements(universe, st).len(),
        forall|n: int|
            0 <= n < at.len() ==> is_entry_of(
                universe,
                st,
                placements(universe, st)[n],
                (#[trigger] at[n]).0,
                at[n].1,
                at[n].2,
            ),
        forall|m: int, n: int|
            0 <= m < n < at.len() ==> comes_first(#[trigger] at[m], #[trigger] at[n]),
        forall|i: int, j: int, k: int|
            0 <= i < st.regs.len() && 0 <= j < st.regs[i].assigned.len() && 0 <= k
                < st.vlrs[st.regs[i].assigned[j].ix as int].frags.len() ==> #[trigger] at.contains(
                (i, j, k),
            ),
{
    let n = st.regs.len() as int;
    lemma_places_in_regs(st.regs, st.vlrs, n);
    let at = places_in_regs(st.regs, st.vlrs, n);
    assert forall|m: int| 0 <= m < at.len() implies is_entry_of(
        universe,
        st,
        placements(universe, st)[m],
        (#[trigger] at[m]).0,
        at[m].1,
        at[m].2,
    ) by {
        let s = sites(st.regs, st.vlrs, n)[m];
        assert(placements(universe, st)[m] == placement(universe, st.vlrs, s));
    }
    at
}

/// Once every range has a register, every mention of a virtual register is provided for: what an
/// instruction reads is placed where it reads, what it writes is placed where it writes, and what
/// it modifies is placed at both, in the same register.
pub proof fn law_mentions_are_provided_for<I>(
    setting: Setting<I>,
    rlrs: Seq<RlrView>,
    vlrs: Seq<VlrView>,
    frags: Seq<RangeFrag>,
    st: AllocState,
    k: int,
    v: VirtualReg,
)
    requires
        gets_to(setting, rlrs, vlrs, frags, st),
        turn(setting, st) is Done,
        0 <= k < setting.func.insns.len() <= u32::MAX,
    ensures
        ({
            let list = placements(setting.universe, st);
            let uses = (setting.im.regs)(setting.func.insns[k]);
            let u = point(k, Point::Use);
            let d = point(k, Point::Def);
            &&& uses.used.contains(Reg::Virtual(v)) ==> exists|n: int|
                0 <= n < list.len() && (#[trigger] list[n]).1 == v && is_live_over(
                    list[n],
                    st.frags,
                    u,
                    u,
                )
            &&& uses.defined.contains(Reg::Virtual(v)) ==> exists|n: int|
                0 <= n < list.len() && (#[trigger] list[n]).1 == v && is_live_over(
                    list[n],
                    st.frags,
                    d,
                    d,
                )
            &&& uses.modified.contains(Reg::Virtual(v)) ==> exists|n: int, n2: int|
                {
                    &&& 0 <= n < list.len() && 0 <= n2 < list.len()
                    &&& (#[trigger] list[n]).1 == v && is_live_over(list[n], st.frags, u, u)
                    &&& (#[trigger] list[n2]).1 == v && is_live_over(list[n2], st.frags, d, d)
                    &&& list[n].2 == list[n2].2
                }
        }),
{
    let fixed = all_fixed(setting, rlrs);
    lemma_reaches_inv(setting, rlrs, vlrs, frags, st);
    assert(st.queue.len() == 0);
    let list = placements(setting.universe, st);
    lemma_placements_ok(setting, fixed, st);
    lemma_all_covered(setting, fixed, st);
    law_maps_tell_where_registers_are(list, st.frags, k);
    let maps = insn_maps(list, list, st.frags, k);
    let uses = (setting.im.regs)(setting.func.insns[k]);
    let u = point(k, Point::Use);
    let d = point(k, Point::Def);
    assert(uses.covered_by(maps.uses, maps.defs));
    if uses.used.contains(Reg::Virtual(v)) || uses.defined.contains(Reg::Virtual(v))
        || uses.modified.contains(Reg::Virtual(v)) {
        assert(uses.mentions(Reg::Virtual(v)));
    }
    if uses.used.contains(Reg::Virtual(v)) {
        assert(maps.uses.contains_key(v));
    }
    if uses.defined.contains(Reg::Virtual(v)) {
        assert(maps.defs.contains_key(v));
    }
    if uses.modified.contains(Reg::Virtual(v)) {
        assert(maps.uses.contains_key(v) && maps.defs.contains_key(v));
        let n = choose|n: int|
            0 <= n < list.len() && is_live_over(#[trigger] list[n], st.frags, u, u) && list[n].1
                == v;
        let n2 = choose|n: int|
            0 <= n < list.len() && is_live_over(#[trigger] list[n], st.frags, d, d) && list[n].1
                == v;
        assert(list[n].2 == maps.uses[v]);
        assert(list[n2].2 == maps.defs[v]);
    }
}

// ---- The allocated code

/// The part stands in the code from position `at` on.
pub open spec fn is_at<I>(insns: Seq<I>, part: Seq<I>, at: int) -> bool {
    &&& 0 <= at
    &&& at + part.len() <= insns.len()
    &&& forall|j: int| 0 <= j < part.len() ==> insns[at + j] == #[trigger] part[j]
}

/// The code `insns`, with its blocks at `targets`, is that of `m` with the registers replaced,
/// instruction by instruction, with the reloads that have been ordered for it right before each
/// instruction, and the spills right behind it, and nothing else: instruction `k` is at `at[k]`.
/// Each block starts at the reloads of its first instruction. The orders, their ranges and their
/// fragments are those of `st`; `list` tells which register each fragment has.
pub open spec fn is_allocated_code<I>(
    im: InstModel<I>,
    m: FuncModel<I>,
    list: Seq<(RangeFragIx, VirtualReg, RealReg)>,
    st: AllocState,
    insns: Seq<I>,
    targets: Seq<InstIx>,
    at: Seq<int>,
) -> bool {
    let len = m.insns.len() as int;
    let n = st.edits.len() as int;
    &&& at.len() == len
    &&& len == 0 ==> insns.len() == 0
    &&& forall|k: int|
        0 <= k < len ==> {
            let j = #[trigger] at[k];
            let reloads = reload_insns(m, st, k, n);
            let spills = spill_insns(m, st, k, n);
            &&& 0 <= j < insns.len()
            &&& is_rewritten(im, list, st.frags, k, m.insns[k], insns[j])
            &&& is_at(insns, reloads, j - reloads.len())
            &&& is_at(insns, spills, j + 1)
            // One instruction follows the other.
            &&& k == 0 ==> j == reloads.len()
            &&& k > 0 ==> j == at[k - 1] + 1 + spill_insns(m, st, k - 1, n).len() + reloads.len()
            &&& k == len - 1 ==> insns.len() == j + 1 + spills.len()
        }
    &&& targets.len() == m.blocks.len()
    &&& forall|b: int|
        0 <= b < m.blocks.len() ==> (#[trigger] targets[b]).ix
            == at[m.blocks[b].first] - reload_insns(m, st, m.blocks[b].first, n).len()
}

/// The code `insns`, with its blocks at `targets`, is `new`, instruction by instruction, with the
/// reloads and spills that have been ordered around each: instruction `k` is at `at[k]`.
pub open spec fn is_code_around<I>(
    m: FuncModel<I>,
    new: Seq<I>,
    st: AllocState,
    insns: Seq<I>,
    targets: Seq<InstIx>,
    at: Seq<int>,
) -> bool {
    let len = m.insns.len() as int;
    let n = st.edits.len() as int;
    &&& new.len() == len
    &&& at.len() == len
    &&& len == 0 ==> insns.len() == 0
    &&& forall|k: int|
        0 <= k < len ==> {
            let j = #[trigger] at[k];
            let reloads = reload_insns(m, st, k, n);
            let spills = spill_insns(m, st, k, n);
            &&& 0 <= j < insns.len()
            &&& insns[j] == new[k]
            &&& is_at(insns, reloads, j - reloads.len())
            &&& is_at(insns, spills, j + 1)
            // One instruction follows the other.
            &&& k == 0 ==> j == reloads.len()
            &&& k > 0 ==> j == at[k - 1] + 1 + spill_insns(m, st, k - 1, n).len() + reloads.len()
            &&& k == len - 1 ==> insns.len() == j + 1 + spills.len()
        }
    &&& targets.len() == m.blocks.len()
    &&& forall|b: int|
        0 <= b < m.blocks.len() ==> (#[trigger] targets[b]).ix
            == at[m.blocks[b].first] - reload_insns(m, st, m.blocks[b].first, n).len()
}

/// Whatever the lists of what starts and of what ends are like, editing makes code in which each
/// instruction has the registers that the maps tell, and has the reloads and spills that have been
/// ordered around it.
pub proof fn law_what_lists_make_of_the_code<F: Function>(
    m: FuncModel<F::Inst>,
    starts: Seq<(RangeFragIx, VirtualReg, RealReg)>,
    ends: Seq<(RangeFragIx, VirtualReg, RealReg)>,
    st: AllocState,
    r: RegAllocResult<F>,
    num_spill_slots: int,
) -> (out: (Seq<F::Inst>, Seq<int>))
    requires
        m.laid_out(),
        m.insns.len() <= u32::MAX,
        orders_ok(st.edits, st.vlrs, st.frags, m.insns.len() as int),
        is_edited(r, m, st.edits, starts, ends, st.vlrs, st.frags, num_spill_slots),
        r.insns@.len() <= u32::MAX,
    ensures
        is_code_around(m, out.0, st, r.insns@, r.target_map@, out.1),
        forall|k: int|
            0 <= k < m.insns.len() ==> #[trigger] out.0[k] == (F::inst_model().rewritten)(
                m.insns[k],
                insn_maps(starts, ends, st.frags, k).uses,
                insn_maps(starts, ends, st.frags, k).defs,
            ),
        r.num_spill_slots == num_spill_slots,
{
    let im = F::inst_model();
    let len = m.insns.len() as int;
    let n = st.edits.len() as int;
    let edited = m.with_insns(rewritten_insns(im, m, starts, ends, st.frags, Seq::empty(), len));
    let items = edit_items(edited, st.edits, st.vlrs, st.frags);
    lemma_items_placed(edited, st.edits, st.vlrs, st.frags, len);
    let origins = spliced_from(items, len);
    let at = Seq::new(len as nat, |k: int| place_in_outcome(items, k));
    if len == 0 && items.len() > 0 {
        assert(items[0].0.iix.pos() < len);
    }
    law_all_items_are_spliced_in(items, edited.insns);
    assert(edited.laid_out());
    law_what_splicing_makes(items, edited, r.insns@, r.target_map@, origins);
    assert forall|k: int| 0 <= k < len implies {
        &&& items_for(items, point(k, Point::Reload)) == #[trigger] reload_insns(m, st, k, n)
        &&& items_for(items, point(k, Point::Spill)) == spill_insns(m, st, k, n)
    } by {
        lemma_orders_before(edited, st, k, n, len);
        assert(st.edits.take(n) =~= st.edits);
        lemma_insts_at(items, point(k, Point::Reload));
        lemma_insts_at(items, point(k, Point::Spill));
        lemma_same_insns(edited, m, st, k, n);
    }
    assert forall|k: int| 0 <= k < len implies {
        let j = #[trigger] at[k];
        let reloads = reload_insns(m, st, k, n);
        let spills = spill_insns(m, st, k, n);
        &&& 0 <= j < r.insns@.len()
        &&& r.insns@[j] == edited.insns[k]
        &&& is_at(r.insns@, reloads, j - reloads.len())
        &&& is_at(r.insns@, spills, j + 1)
        &&& k == 0 ==> j == reloads.len()
        &&& k > 0 ==> j == at[k - 1] + 1 + spill_insns(m, st, k - 1, n).len() + reloads.len()
        &&& k == len - 1 ==> r.insns@.len() == j + 1 + spills.len()
    } by {
        let j = place_in_outcome(items, k);
        let reloads = reload_insns(m, st, k, n);
        let spills = spill_insns(m, st, k, n);
        assert(items_for(items, point(k, Point::Reload)) == reloads);
        assert(r.insns@[j] == edited.insns[k]);
        assert(stands_at(r.insns@, origins, reloads, j - reloads.len()));
        assert(stands_at(r.insns@, origins, spills, j + 1));
        lemma_items_before_next(items, k);
        if k == 0 {
            lemma_items_before_bounds(items, 0, 0);
        } else {
            lemma_items_before_next(items, k - 1);
            assert(spill_insns(m, st, k - 1, n) == items_for(items, point(k - 1, Point::Spill))) by {
                assert(reload_insns(m, st, k - 1, n) == items_for(
                    items,
                    point(k - 1, Point::Reload),
                ));
            }
        }
        if k == len - 1 {
            assert forall|i: int| 0 <= i < items.len() implies (#[trigger] items[i]).0.iix.ix
                < len by {
                assert(items[i].0.iix.pos() < len);
            }
            lemma_items_before_bounds(items, len, len);
        }
    }
    assert forall|b: int| 0 <= b < m.blocks.len() implies (#[trigger] r.target_map@[b]).ix
        == at[m.blocks[b].first] - reload_insns(m, st, m.blocks[b].first, n).len() by {
        let first = m.blocks[b].first;
        assert(reload_insns(m, st, first, n) == items_for(items, point(first, Point::Reload)));
    }
    (edited.insns, at)
}

/// Editing makes code that is like this, where the orders can be carried out and no two fragments
/// for one virtual register are live at the same point.
pub proof fn law_what_edited_code_is_like<F: Function>(
    m: FuncModel<F::Inst>,
    list: Seq<(RangeFragIx, VirtualReg, RealReg)>,
    st: AllocState,
    r: RegAllocResult<F>,
    num_spill_slots: int,
) -> (at: Seq<int>)
    requires
        m.laid_out(),
        m.insns.len() <= u32::MAX,
        list_ok(list, st.frags),
        orders_ok(st.edits, st.vlrs, st.frags, m.insns.len() as int),
        is_edited(r, m, st.edits, list, list, st.vlrs, st.frags, num_spill_slots),
        r.insns@.len() <= u32::MAX,
    ensures
        is_allocated_code(F::inst_model(), m, list, st, r.insns@, r.target_map@, at),
        r.num_spill_slots == num_spill_slots,
{
    let im = F::inst_model();
    let (new, at) = law_what_lists_make_of_the_code(m, list, list, st, r, num_spill_slots);
    assert forall|k: int| 0 <= k < m.insns.len() implies is_rewritten(
        im,
        list,
        st.frags,
        k,
        m.insns[k],
        r.insns@[#[trigger] at[k]],
    ) by {
        lemma_is_rewritten(im, list, st.frags, k, m.insns[k]);
        assert(r.insns@[at[k]] == new[k]);
    }
    at
}

/// What an allocation that comes to `st` makes of the code: the source with the registers that the
/// ranges have been given, and with the reloads and spills of the bridges. The spill area is what
/// the allocator has taken.
pub proof fn law_what_allocated_code_is_like<F: Function>(
    setting: Setting<F::Inst>,
    rlrs: Seq<RlrView>,
    vlrs: Seq<VlrView>,
    frags: Seq<RangeFrag>,
    st: AllocState,
    r: RegAllocResult<F>,
) -> (at: Seq<int>)
    requires
        setting.im == F::inst_model(),
        setting.func.laid_out(),
        setting.func.insns.len() <= u32::MAX,
        gets_to(setting, rlrs, vlrs, frags, st),
        turn(setting, st) is Done,
        is_edited(
            r,
            setting.func,
            st.edits,
            placements(setting.universe, st),
            placements(setting.universe, st),
            st.vlrs,
            st.frags,
            st.next_slot,
        ),
        r.insns@.len() <= u32::MAX,
    ensures
        is_allocated_code(
            setting.im,
            setting.func,
            placements(setting.universe, st),
            st,
            r.insns@,
            r.target_map@,
            at,
        ),
        r.num_spill_slots == st.next_slot,
{
    let fixed = all_fixed(setting, rlrs);
    lemma_reaches_inv(setting, rlrs, vlrs, frags, st);
    assert(st.queue.len() == 0);
    lemma_placements_ok(setting, fixed, st);
    lemma_orders_ok(setting, fixed, st);
    law_what_edited_code_is_like(
        setting.func,
        placements(setting.universe, st),
        st,
        r,
        st.next_slot,
    )
}

/// Reloads and spills do not depend on what else is in the function.
proof fn lemma_same_insns<I>(a: FuncModel<I>, b: FuncModel<I>, st: AllocState, k: int, n: int)
    requires
        a.reload == b.reload,
        a.spill == b.spill,
    ensures
        reload_insns(a, st, k, n) == reload_insns(b, st, k, n),
        spill_insns(a, st, k, n) == spill_insns(b, st, k, n),
    decreases n,
{
    if n > 0 {
        lemma_same_insns(a, b, st, k, n - 1);
    }
}

} // verus!
