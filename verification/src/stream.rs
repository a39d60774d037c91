//! Editing an instruction stream: replacing registers, and splicing in extra instructions.

use crate::frags::{point_at, InstPoint, Point, RangeFrag};
use crate::index::{BlockIx, InstIx, RangeFragIx, TypedIx, TypedIxVec};
use crate::interface::{clones_faithfully, FuncModel, Function, InstModel, RegUses};
use crate::mapping::{insn_maps, list_in_env, MapReplay, RangeAllocations, VregMap};
use crate::regs::{RealReg, Reg, VirtualReg};
use crate::sort::{
    comes_before, is_group, is_stable_order, lemma_group_gap, lemma_order_len, stable_order,
};
use vstd::prelude::*;

verus! {

/// The instructions of `m` with the registers of each one replaced as the maps at it say. Those
/// that `nops` names become no-ops instead, and those from `stop` on stay as they are.
pub open spec fn rewritten_insns<I>(
    im: InstModel<I>,
    m: FuncModel<I>,
    starts: Seq<(RangeFragIx, VirtualReg, RealReg)>,
    ends: Seq<(RangeFragIx, VirtualReg, RealReg)>,
    fenv: Seq<RangeFrag>,
    nops: Seq<InstIx>,
    stop: int,
) -> Seq<I> {
    Seq::new(
        m.insns.len(),
        |k: int|
            if k >= stop {
                m.insns[k]
            } else if nops.contains(InstIx { ix: k as u32 }) {
                m.nop
            } else {
                let maps = insn_maps(starts, ends, fenv, k);
                (im.rewritten)(m.insns[k], maps.uses, maps.defs)
            },
    )
}

/// Gives one instruction the registers that the maps say, or turns it into a no-op.
pub fn rewrite_insn<F: Function>(
    func: &mut F,
    iix: InstIx,
    map_uses: &VregMap,
    map_defs: &VregMap,
    nop_out: bool,
)
    requires
        iix.pos() < old(func).model().insns.len(),
    ensures
        ({
            let m = old(func).model();
            let insn = m.insns[iix.pos()];
            final(func).model() == m.with_insns(
                m.insns.update(
                    iix.pos(),
                    if nop_out {
                        m.nop
                    } else {
                        (F::inst_model().rewritten)(insn, map_uses@, map_defs@)
                    },
                ),
            )
        }),
        nop_out || (F::inst_model().regs)(old(func).model().insns[iix.pos()]).covered_by(
            map_uses@,
            map_defs@,
        ) ==> (F::inst_model().regs)(final(func).model().insns[iix.pos()]).only_real(),
        nop_out || (F::inst_model().regs)(old(func).model().insns[iix.pos()]).writes_covered_by(
            map_uses@,
            map_defs@,
        ) ==> (F::inst_model().regs)(final(func).model().insns[iix.pos()]).writes_real(),
{
    if nop_out {
        let nop = func.gen_zero_len_nop();
        let insn = func.get_insn_mut(iix);
        *insn = nop;
        proof {
            lemma_only_real_writes((F::inst_model().regs)(nop));
        }
    } else {
        let insn = func.get_insn_mut(iix);
        F::map_regs(insn, map_uses, map_defs);
    }
}

/// Where no virtual register is mentioned, none is written.
pub proof fn lemma_only_real_writes(uses: RegUses)
    requires
        uses.only_real(),
    ensures
        uses.writes_real(),
{
    assert forall|r: Reg| #[trigger] uses.writes(r) implies r is Real by {
        assert(uses.mentions(r));
    }
}

/// No instruction mentions a virtual register.
pub open spec fn all_real<I>(im: InstModel<I>, insns: Seq<I>) -> bool {
    forall|k: int| 0 <= k < insns.len() ==> (im.regs)(#[trigger] insns[k]).only_real()
}

/// At each instruction, the maps have all that it mentions.
pub open spec fn all_covered<I>(
    im: InstModel<I>,
    insns: Seq<I>,
    starts: Seq<(RangeFragIx, VirtualReg, RealReg)>,
    ends: Seq<(RangeFragIx, VirtualReg, RealReg)>,
    fenv: Seq<RangeFrag>,
) -> bool {
    forall|k: int|
        0 <= k < insns.len() ==> {
            let maps = insn_maps(starts, ends, fenv, k);
            (im.regs)(#[trigger] insns[k]).covered_by(maps.uses, maps.defs)
        }
}

/// No instruction writes a virtual register.
pub open spec fn all_write_real<I>(im: InstModel<I>, insns: Seq<I>) -> bool {
    forall|k: int| 0 <= k < insns.len() ==> (im.regs)(#[trigger] insns[k]).writes_real()
}

/// At each instruction, the maps have all that it writes.
pub open spec fn all_writes_covered<I>(
    im: InstModel<I>,
    insns: Seq<I>,
    starts: Seq<(RangeFragIx, VirtualReg, RealReg)>,
    ends: Seq<(RangeFragIx, VirtualReg, RealReg)>,
    fenv: Seq<RangeFrag>,
) -> bool {
    forall|k: int|
        0 <= k < insns.len() ==> {
            let maps = insn_maps(starts, ends, fenv, k);
            (im.regs)(#[trigger] insns[k]).writes_covered_by(maps.uses, maps.defs)
        }
}

/// Where the maps have all that is mentioned, they have all that is written.
pub proof fn lemma_all_writes_covered<I>(
    im: InstModel<I>,
    insns: Seq<I>,
    starts: Seq<(RangeFragIx, VirtualReg, RealReg)>,
    ends: Seq<(RangeFragIx, VirtualReg, RealReg)>,
    fenv: Seq<RangeFrag>,
)
    requires
        all_covered(im, insns, starts, ends, fenv),
    ensures
        all_writes_covered(im, insns, starts, ends, fenv),
{
    assert forall|k: int| 0 <= k < insns.len() implies {
        let maps = insn_maps(starts, ends, fenv, k);
        (im.regs)(#[trigger] insns[k]).writes_covered_by(maps.uses, maps.defs)
    } by {
        let maps = insn_maps(starts, ends, fenv, k);
        let uses = (im.regs)(insns[k]);
        assert forall|v: VirtualReg| #[trigger] uses.writes(Reg::Virtual(v)) implies {
            &&& maps.defs.contains_key(v)
            &&& uses.modified.contains(Reg::Virtual(v)) ==> maps.uses.contains_key(v)
                && maps.uses[v] == maps.defs[v]
        } by {
            assert(uses.mentions(Reg::Virtual(v)));
        }
    }
}

/// Replaces the registers of all instructions, in place.
pub fn rewrite_insns<F: Function>(
    func: &mut F,
    starts: RangeAllocations,
    ends: RangeAllocations,
    fenv: &TypedIxVec<RangeFragIx, RangeFrag>,
)
    requires
        list_in_env(starts@, fenv@),
        list_in_env(ends@, fenv@),
    ensures
        final(func).model() == old(func).model().with_insns(
            rewritten_insns(
                F::inst_model(),
                old(func).model(),
                starts@,
                ends@,
                fenv@,
                Seq::empty(),
                old(func).model().insns.len() as int,
            ),
        ),
        all_covered(F::inst_model(), old(func).model().insns, starts@, ends@, fenv@) ==> all_real(
            F::inst_model(),
            final(func).model().insns,
        ),
        all_writes_covered(F::inst_model(), old(func).model().insns, starts@, ends@, fenv@)
            ==> all_write_real(F::inst_model(), final(func).model().insns),
{
    let ghost m0 = func.model();
    let ghost im = F::inst_model();
    let ghost starts0 = starts@;
    let ghost ends0 = ends@;
    let ghost nops: Seq<InstIx> = Seq::empty();
    let len = func.insn_indices().len();
    let mut replay = MapReplay::new(starts, ends, fenv);
    let mut k: u32 = 0;
    assert(rewritten_insns(im, m0, starts0, ends0, fenv@, nops, 0) =~= m0.insns);
    while k < len
        invariant
            im == F::inst_model(),
            k <= len,
            len == m0.insns.len(),
            nops == Seq::<InstIx>::empty(),
            replay.next_is(fenv@, k as int),
            replay.start_list() == starts0,
            replay.end_list() == ends0,
            func.model() == m0.with_insns(
                rewritten_insns(im, m0, starts0, ends0, fenv@, nops, k as int),
            ),
            all_covered(im, m0.insns, starts0, ends0, fenv@) ==> all_real(
                im,
                func.model().insns.take(k as int),
            ),
            all_writes_covered(im, m0.insns, starts0, ends0, fenv@) ==> all_write_real(
                im,
                func.model().insns.take(k as int),
            ),
        decreases len - k,
    {
        let iix = InstIx::new(k);
        let (map_uses, map_defs) = replay.step(iix, fenv);
        let ghost before = func.model();
        rewrite_insn(func, iix, &map_uses, &map_defs, false);
        proof {
            assert(before.insns[k as int] == m0.insns[k as int]);
            assert(func.model().insns =~= rewritten_insns(
                im,
                m0,
                starts0,
                ends0,
                fenv@,
                nops,
                k + 1,
            ));
            let maps = insn_maps(starts0, ends0, fenv@, k as int);
            let uses = (im.regs)(m0.insns[k as int]);
            assert(func.model().insns.take(k + 1) =~= before.insns.take(k as int).push(
                func.model().insns[k as int],
            ));
            if all_covered(im, m0.insns, starts0, ends0, fenv@) {
                assert(uses.covered_by(maps.uses, maps.defs));
            }
            if all_writes_covered(im, m0.insns, starts0, ends0, fenv@) {
                assert(uses.writes_covered_by(maps.uses, maps.defs));
            }
        }
        k += 1;
    }
    assert(func.model().insns.take(k as int) =~= func.model().insns);
}

/// The instructions of `items` that are to go to point `p`, in the order of the list.
pub open spec fn insts_at<I>(items: Seq<(InstPoint, I)>, p: InstPoint) -> Seq<I>
    decreases items.len(),
{
    if items.len() == 0 {
        Seq::empty()
    } else {
        let earlier = insts_at(items.drop_last(), p);
        if items.last().0 == p {
            earlier.push(items.last().1)
        } else {
            earlier
        }
    }
}

/// The first `k` instructions of `insns` with `items` spliced in: what goes to the reload point of
/// an instruction comes right before it, what goes to its spill point right behind it.
pub open spec fn spliced<I>(items: Seq<(InstPoint, I)>, insns: Seq<I>, k: int) -> Seq<I>
    decreases k,
{
    if k <= 0 {
        Seq::empty()
    } else {
        spliced(items, insns, k - 1) + insts_at(items, point_at(k - 1, Point::Reload)) + seq![
            insns[k - 1],
        ] + insts_at(items, point_at(k - 1, Point::Spill))
    }
}

/// For each instruction of `spliced`, the source instruction that it is, or the invalid index.
pub open spec fn spliced_from<I>(items: Seq<(InstPoint, I)>, k: int) -> Seq<InstIx>
    decreases k,
{
    if k <= 0 {
        Seq::empty()
    } else {
        spliced_from(items, k - 1) + invalid_run(
            insts_at(items, point_at(k - 1, Point::Reload)).len(),
        ) + seq![InstIx { ix: (k - 1) as u32 }] + invalid_run(
            insts_at(items, point_at(k - 1, Point::Spill)).len(),
        )
    }
}

/// `n` times the invalid index.
pub open spec fn invalid_run(n: nat) -> Seq<InstIx> {
    Seq::new(n, |i: int| InstIx::spec_invalid())
}

/// For each block of `m`, where its first instruction, or the reloads for it, ends up.
pub open spec fn block_targets<I>(items: Seq<(InstPoint, I)>, m: FuncModel<I>) -> Seq<InstIx> {
    Seq::new(
        m.blocks.len(),
        |b: int|
            InstIx { ix: spliced(items, m.insns, m.blocks[b].first).len() as u32 },
    )
}

/// Every item goes to the reload or the spill point of an instruction of the function.
pub open spec fn items_placed<I>(items: Seq<(InstPoint, I)>, len: int) -> bool {
    forall|i: int|
        0 <= i < items.len() ==> {
            &&& (#[trigger] items[i]).0.pt is Reload || items[i].0.pt is Spill
            &&& items[i].0.iix.pos() < len
        }
}

proof fn lemma_insts_at_skip<I>(items: Seq<(InstPoint, I)>, p: InstPoint, a: int, b: int)
    requires
        0 <= a <= b <= items.len(),
        forall|i: int| a <= i < b ==> (#[trigger] items[i]).0 != p,
    ensures
        insts_at(items.take(a), p) == insts_at(items.take(b), p),
    decreases b - a,
{
    if a < b {
        assert(items.take(b).drop_last() =~= items.take(b - 1));
        assert(items.take(b).last() == items[b - 1]);
        lemma_insts_at_skip(items, p, a, b - 1);
    }
}

/// An instruction that goes to a point is the instruction of one of the items there.
pub proof fn lemma_insts_at_member<I>(items: Seq<(InstPoint, I)>, p: InstPoint, j: int) -> (i: int)
    requires
        0 <= j < insts_at(items, p).len(),
    ensures
        0 <= i < items.len(),
        items[i] == (p, insts_at(items, p)[j]),
    decreases items.len(),
{
    let earlier = insts_at(items.drop_last(), p);
    if j < earlier.len() {
        lemma_insts_at_member(items.drop_last(), p, j)
    } else {
        items.len() - 1
    }
}

/// Each instruction of a spliced stream is an instruction of the source or one of the items.
pub proof fn lemma_spliced_member<I>(
    items: Seq<(InstPoint, I)>,
    insns: Seq<I>,
    k: int,
    j: int,
)
    requires
        0 <= k <= insns.len(),
        0 <= j < spliced(items, insns, k).len(),
    ensures
        (exists|i: int| 0 <= i < k && #[trigger] insns[i] == spliced(items, insns, k)[j]) || (
        exists|i: int|
            0 <= i < items.len() && (#[trigger] items[i]).1 == spliced(items, insns, k)[j]),
    decreases k,
{
    if k > 0 {
        let a = spliced(items, insns, k - 1);
        let b = insts_at(items, point_at(k - 1, Point::Reload));
        let x = spliced(items, insns, k)[j];
        if j < a.len() {
            lemma_spliced_member(items, insns, k - 1, j);
            if exists|i: int| 0 <= i < k - 1 && #[trigger] insns[i] == a[j] {
                let i = choose|i: int| 0 <= i < k - 1 && #[trigger] insns[i] == a[j];
                assert(insns[i] == x);
            }
        } else if j < a.len() + b.len() {
            let i = lemma_insts_at_member(
                items,
                point_at(k - 1, Point::Reload),
                j - a.len() as int,
            );
            assert(items[i].1 == x);
        } else if j == a.len() + b.len() {
            assert(insns[k - 1] == x);
        } else {
            let i = lemma_insts_at_member(
                items,
                point_at(k - 1, Point::Spill),
                j - a.len() - b.len() - 1,
            );
            assert(items[i].1 == x);
        }
    }
}

/// Where neither the source nor the items mention virtual registers, the spliced stream does not.
pub proof fn lemma_spliced_real<I>(
    im: InstModel<I>,
    items: Seq<(InstPoint, I)>,
    insns: Seq<I>,
    k: int,
)
    requires
        0 <= k <= insns.len(),
        all_real(im, insns),
        forall|j: int| 0 <= j < items.len() ==> (im.regs)((#[trigger] items[j]).1).only_real(),
    ensures
        all_real(im, spliced(items, insns, k)),
{
    assert forall|j: int| 0 <= j < spliced(items, insns, k).len() implies (im.regs)(
        #[trigger] spliced(items, insns, k)[j],
    ).only_real() by {
        lemma_spliced_member(items, insns, k, j);
    }
}

/// Where neither the source nor the items write virtual registers, the spliced stream does not.
pub proof fn lemma_spliced_write_real<I>(
    im: InstModel<I>,
    items: Seq<(InstPoint, I)>,
    insns: Seq<I>,
    k: int,
)
    requires
        0 <= k <= insns.len(),
        all_write_real(im, insns),
        forall|j: int| 0 <= j < items.len() ==> (im.regs)((#[trigger] items[j]).1).only_real(),
    ensures
        all_write_real(im, spliced(items, insns, k)),
{
    assert forall|j: int| 0 <= j < spliced(items, insns, k).len() implies (im.regs)(
        #[trigger] spliced(items, insns, k)[j],
    ).writes_real() by {
        let x = spliced(items, insns, k)[j];
        lemma_spliced_member(items, insns, k, j);
        if exists|i: int| 0 <= i < items.len() && (#[trigger] items[i]).1 == x {
            lemma_only_real_writes((im.regs)(x));
        }
    }
}

/// Copies the items for point `p` to the end of `out`.
fn emit<F: Function>(
    items: &Vec<(InstPoint, F::Inst)>,
    keys: &Vec<u64>,
    order: &Vec<usize>,
    cursor: usize,
    p: InstPoint,
    out: &mut Vec<F::Inst>,
    origins: &mut Vec<InstIx>,
) -> (end: usize)
    requires
        clones_faithfully::<F>(),
        keys@.len() == items@.len(),
        order@.len() == keys@.len(),
        forall|i: int| 0 <= i < keys@.len() ==> #[trigger] keys@[i] == items@[i].0.rank(),
        is_stable_order(keys@, order@),
        cursor <= order@.len(),
        forall|j: int| 0 <= j < cursor ==> keys@[(#[trigger] order@[j]) as int] < p.rank(),
        forall|j: int|
            cursor <= j < order@.len() ==> keys@[(#[trigger] order@[j]) as int] >= p.rank(),
    ensures
        is_group(keys@, order@, p.rank(), cursor as int, end as int),
        final(out)@ == old(out)@ + insts_at(items@, p),
        final(origins)@ == old(origins)@ + invalid_run(insts_at(items@, p).len()),
{
    let ghost out0 = out@;
    let ghost origins0 = origins@;
    let mut end: usize = cursor;
    while end < order.len() && keys[order[end]] == p.to_u64()
        invariant
            order@.len() == keys@.len(),
            is_stable_order(keys@, order@),
            cursor <= end <= order@.len(),
            forall|j: int| cursor <= j < end ==> keys@[(#[trigger] order@[j]) as int] == p.rank(),
        decreases order@.len() - end,
    {
        end += 1;
    }
    proof {
        assert forall|j: int| end <= j < order@.len() implies keys@[(#[trigger] order@[j]) as int]
            > p.rank() by {
            if j > end {
                assert(comes_before(keys@, order@[end as int] as int, order@[j] as int));
            }
        }
    }
    let ghost mut upto: int = 0;
    let mut j: usize = cursor;
    assert(keys.len() == keys@.len());
    assert(items@.take(0) =~= Seq::empty());
    assert(out@ =~= out0 + insts_at(items@.take(upto), p));
    assert(origins@ =~= origins0 + invalid_run(insts_at(items@.take(upto), p).len()));
    while j < end
        invariant
            clones_faithfully::<F>(),
            keys.len() == keys@.len(),
            keys@.len() == items@.len(),
            order@.len() == keys@.len(),
            forall|i: int| 0 <= i < keys@.len() ==> #[trigger] keys@[i] == items@[i].0.rank(),
            is_stable_order(keys@, order@),
            is_group(keys@, order@, p.rank(), cursor as int, end as int),
            cursor <= j <= end,
            0 <= upto <= items@.len(),
            upto == (if j == cursor {
                0
            } else {
                order@[j - 1] + 1
            }),
            out@ == out0 + insts_at(items@.take(upto), p),
            origins@ == origins0 + invalid_run(insts_at(items@.take(upto), p).len()),
        decreases end - j,
    {
        let x = order[j];
        let item = &items[x].1;
        let copy = item.clone();
        proof {
            lemma_group_gap(
                keys@,
                order@,
                p.rank(),
                cursor as int,
                end as int,
                j as int,
                upto,
                x as int,
            );
            assert forall|i: int| upto <= i < x implies (#[trigger] items@[i]).0 != p by {
                assert(keys@[i] != p.rank());
            }
            lemma_insts_at_skip(items@, p, upto, x as int);
            assert(items@.take(x + 1).drop_last() =~= items@.take(x as int));
            assert(items@.take(x + 1).last() == items@[x as int]);
            assert(keys@[x as int] == p.rank());
            assert(items@[x as int].0 == p);
            assert(cloned(*item, copy));
        }
        out.push(copy);
        origins.push(InstIx::invalid_value());
        proof {
            upto = x + 1;
            assert(out@ =~= out0 + insts_at(items@.take(upto), p));
            assert(origins@ =~= origins0 + invalid_run(insts_at(items@.take(upto), p).len()));
        }
        j += 1;
    }
    proof {
        lemma_group_gap(
            keys@,
            order@,
            p.rank(),
            cursor as int,
            end as int,
            end as int,
            upto,
            keys@.len() as int,
        );
        assert forall|i: int| upto <= i < items@.len() implies (#[trigger] items@[i]).0 != p by {
            assert(keys@[i] != p.rank());
        }
        lemma_insts_at_skip(items@, p, upto, items@.len() as int);
        assert(items@.take(items@.len() as int) =~= items@);
    }
    end
}

/// Splices `items` into the instructions of `func`. Also returns where each block starts in the
/// outcome, and which source instruction each instruction of the outcome is.
pub fn splice<F: Function>(func: &F, items: &Vec<(InstPoint, F::Inst)>) -> (r: (
    Vec<F::Inst>,
    TypedIxVec<BlockIx, InstIx>,
    TypedIxVec<InstIx, InstIx>,
))
    requires
        clones_faithfully::<F>(),
        func.model().laid_out(),
        items_placed(items@, func.model().insns.len() as int),
    ensures
        r.0@ == spliced(items@, func.model().insns, func.model().insns.len() as int),
        r.1@ == block_targets(items@, func.model()),
        r.2@ == spliced_from(items@, func.model().insns.len() as int),
{
    let ghost m = func.model();
    let mut keys: Vec<u64> = Vec::new();
    let mut i: usize = 0;
    while i < items.len()
        invariant
            i <= items@.len(),
            keys@.len() == i,
            forall|j: int| 0 <= j < i ==> #[trigger] keys@[j] == items@[j].0.rank(),
        decreases items@.len() - i,
    {
        keys.push(items[i].0.to_u64());
        i += 1;
    }
    let order = stable_order(&keys);
    proof {
        assert(keys.len() == keys@.len());
        lemma_order_len(keys@, order@);
    }
    let len = func.insn_indices().len();
    let num_blocks = func.blocks().len();
    let mut cursor: usize = 0;
    let mut cur_b: u32 = 0;
    let mut insns: Vec<F::Inst> = Vec::new();
    let mut target_map: TypedIxVec<BlockIx, InstIx> = TypedIxVec::new();
    let mut origins: Vec<InstIx> = Vec::new();
    let mut k: u32 = 0;
    while k < len
        invariant
            clones_faithfully::<F>(),
            m == func.model(),
            m.laid_out(),
            items_placed(items@, m.insns.len() as int),
            len == m.insns.len(),
            num_blocks == m.blocks.len(),
            k <= len,
            keys@.len() == items@.len(),
            order@.len() == keys@.len(),
            forall|i: int| 0 <= i < keys@.len() ==> #[trigger] keys@[i] == items@[i].0.rank(),
            is_stable_order(keys@, order@),
            cursor <= order@.len(),
            forall|j: int| 0 <= j < cursor ==> keys@[(#[trigger] order@[j]) as int] < 4 * k,
            forall|j: int|
                cursor <= j < order@.len() ==> keys@[(#[trigger] order@[j]) as int] >= 4 * k,
            cur_b <= num_blocks,
            cur_b < num_blocks ==> k < m.blocks[cur_b as int].end,
            cur_b > 0 ==> m.blocks[cur_b - 1].end <= k,
            target_map@.len() == cur_b + (if cur_b < num_blocks && m.blocks[cur_b as int].first
                < k {
                1int
            } else {
                0
            }),
            forall|b: int|
                0 <= b < target_map@.len() ==> #[trigger] target_map@[b] == block_targets(
                    items@,
                    m,
                )[b],
            insns@ == spliced(items@, m.insns, k as int),
            origins@ == spliced_from(items@, k as int),
        decreases len - k,
    {
        let iix = InstIx::new(k);
        assert(cur_b < num_blocks);
        let bix = BlockIx::new(cur_b);
        let block = func.block_insns(bix);
        if block.start() == iix {
            target_map.push(InstIx::new(insns.len() as u32));
        }
        cursor = emit::<F>(
            items,
            &keys,
            &order,
            cursor,
            InstPoint::new_reload(iix),
            &mut insns,
            &mut origins,
        );
        origins.push(iix);
        let insn = func.get_insn(iix);
        let copy = insn.clone();
        assert(cloned(*insn, copy));
        insns.push(copy);
        proof {
            assert forall|j: int| cursor <= j < order@.len() implies keys@[(
            #[trigger] order@[j]) as int] >= 4 * k + 3 by {
                let x = order@[j] as int;
                assert(keys@[x] == items@[x].0.rank());
                assert(items@[x].0.pt is Reload || items@[x].0.pt is Spill);
            }
            assert forall|j: int| 0 <= j < cursor implies keys@[(#[trigger] order@[j]) as int]
                < 4 * k + 3 by {
            }
        }
        cursor = emit::<F>(
            items,
            &keys,
            &order,
            cursor,
            InstPoint::new_spill(iix),
            &mut insns,
            &mut origins,
        );
        proof {
            assert forall|j: int| 0 <= j < cursor implies keys@[(#[trigger] order@[j]) as int] < 4
                * (k + 1) by {
            }
            assert(insns@ =~= spliced(items@, m.insns, k + 1));
            assert(origins@ =~= spliced_from(items@, k + 1));
        }
        if block.last() == iix {
            cur_b += 1;
        }
        k += 1;
    }
    assert(cur_b == num_blocks);
    assert(target_map@ =~= block_targets(items@, m));
    (insns, target_map, TypedIxVec::from_vec(origins))
}

} // verus!
