//! Tests of whether a function and its live ranges are as the allocator needs them.

use crate::allocator::{setting_of, Analysis};
use crate::course::{covers_points, input_ok, mention_covered, rlrs_ok, stays_within_limits};
use crate::frags::{frags_clear, frags_sorted, point_rank, InstPoint, Point, RangeFrag};
use crate::index::{BlockIx, InstIx, RangeFragIx, RealRangeIx, TypedIx, TypedIxVec, VirtualRangeIx};
use crate::interface::{Function, InstRegUses};
use crate::limits::{
    finite_cost, law_room_for_spills_suffices, lemma_totals_nonneg, num_bridges, room_for_spills,
    total_bridges, total_slots,
};
use crate::ranges::{rlr_views, vlr_views, RealRange, VirtualRange};
use crate::regs::{RealRegUniverse, Reg, RegClass, RegSet, VirtualReg};
use crate::safety::{frag_ok, vlr_ok};
use crate::spill::collect_bridges;
use crate::spill_safety::roles_ok;
use vstd::prelude::*;

verus! {

impl RangeFrag {
    /// Whether the fragment has one of the shapes that the allocator works with.
    pub fn has_sane_shape(&self) -> (r: bool)
        ensures
            r == self.is_sane(),
    {
        let same = self.first.iix == self.last.iix;
        // An ordinary one does not start or end at a reload or spill point.
        if self.first.pt.is_use_or_def() && self.last.pt.is_use_or_def() && self.first.iix.get()
            <= self.last.iix.get() {
            return true;
        }
        if self.first.pt.is_reload() && self.last.pt.is_use() && same {
            return true;
        }
        if self.first.pt.is_reload() && self.last.pt.is_spill() && same {
            return true;
        }
        self.first.pt.is_def() && self.last.pt.is_spill() && same
    }
}

/// Whether the fragments are in the environment, well formed, and come one after the other.
fn are_sorted(ixs: &Vec<RangeFragIx>, fenv: &TypedIxVec<RangeFragIx, RangeFrag>) -> (r: bool)
    ensures
        r == frags_sorted(fenv@, ixs@),
{
    let mut i: usize = 0;
    while i < ixs.len()
        invariant
            i <= ixs@.len(),
            frags_sorted(fenv@, ixs@.take(i as int)),
        decreases ixs@.len() - i,
    {
        let fix = ixs[i];
        if fix.get() as usize >= fenv.vector.len() {
            assert(!(ixs@[i as int].pos() < fenv@.len()));
            return false;
        }
        let frag = fenv.at(fix);
        if frag.first.to_u64() > frag.last.to_u64() {
            assert(!fenv@[ixs@[i as int].pos()].wf());
            return false;
        }
        if i > 0 {
            proof {
                let earlier = ixs@.take(i as int);
                assert(earlier[i - 1] == ixs@[i - 1]);
                assert(earlier[i - 1].pos() < fenv@.len());
            }
            let prev = fenv.at(ixs[i - 1]);
            if prev.last.to_u64() >= frag.first.to_u64() {
                assert(!fenv@[ixs@[i - 1].pos()].before(fenv@[ixs@[i as int].pos()]));
                return false;
            }
        }
        proof {
            let fewer = ixs@.take(i as int);
            let more = ixs@.take(i + 1);
            assert forall|a: int, b: int| 0 <= a < b < more.len() implies fenv@[(
            #[trigger] more[a]).pos()].before(fenv@[(#[trigger] more[b]).pos()]) by {
                assert(more[a] == fewer[a]);
                if b < i {
                    assert(more[b] == fewer[b]);
                } else if a < i - 1 {
                    assert(fenv@[fewer[a].pos()].before(fenv@[fewer[i - 1].pos()]));
                    assert(fenv@[fewer[i - 1].pos()].wf());
                }
            }
            assert forall|a: int| 0 <= a < more.len() implies (#[trigger] more[a]).pos()
                < fenv@.len() && fenv@[more[a].pos()].wf() by {
                if a < i {
                    assert(more[a] == fewer[a]);
                }
            }
        }
        i += 1;
    }
    assert(ixs@.take(i as int) =~= ixs@);
    true
}

/// Whether the registers that a class may use, if any, are allocable.
fn class_is_allocable(universe: &RealRegUniverse, class: RegClass) -> (r: bool)
    ensures
        r == (universe.class_range(class) matches Some((first, last)) ==> first <= last ==> last
            < universe.allocable),
{
    match universe.allocable_by_class[class.rc_to_usize()] {
        Some((first, last)) => first > last || last < universe.allocable,
        None => true,
    }
}

/// Whether the allocable registers are registers of the universe, and those of each class are
/// allocable.
fn universe_is_ok(universe: &RealRegUniverse) -> (r: bool)
    ensures
        r == universe.wf(),
{
    let r = universe.allocable <= universe.regs.len() && class_is_allocable(
        universe,
        RegClass::I32,
    ) && class_is_allocable(universe, RegClass::F32) && class_is_allocable(
        universe,
        RegClass::I64,
    ) && class_is_allocable(universe, RegClass::F64) && class_is_allocable(
        universe,
        RegClass::V128,
    );
    proof {
        if r {
            assert forall|class: RegClass|
                (#[trigger] universe.class_range(class)) matches Some((first, last))
                    ==> first <= last ==> last < universe.allocable by {
                match class {
                    RegClass::I32 => {},
                    RegClass::F32 => {},
                    RegClass::I64 => {},
                    RegClass::F64 => {},
                    RegClass::V128 => {},
                }
            }
        }
    }
    r
}

/// Whether the blocks follow one another, none is empty, and the last one ends the function.
pub fn blocks_are_laid_out<F: Function>(func: &F) -> (r: bool)
    ensures
        r == func.model().laid_out(),
{
    let ghost m = func.model();
    let len = func.insn_indices().len();
    let num_blocks = func.blocks().len();
    let mut end: u64 = 0;
    let mut b: u32 = 0;
    while b < num_blocks
        invariant
            m == func.model(),
            len == m.insns.len(),
            num_blocks == m.blocks.len(),
            b <= num_blocks,
            end == (if b == 0 {
                0
            } else {
                m.blocks[b - 1].end
            }),
            forall|c: int|
                0 <= c < b ==> 0 <= (#[trigger] m.blocks[c]).first < m.blocks[c].end <= end,
            end <= len,
            forall|a: int, c: int|
                0 <= a < c < b ==> (#[trigger] m.blocks[a]).end <= (#[trigger] m.blocks[c]).first,
        decreases num_blocks - b,
    {
        let block = func.block_insns(BlockIx::new(b));
        let first: u64 = block.start().get() as u64;
        let next: u64 = first + block.len() as u64;
        if first < end || block.len() == 0 || next > len as u64 {
            proof {
                if first < end {
                    assert(b > 0);
                    assert(!(m.blocks[b - 1].end <= m.blocks[b as int].first));
                } else {
                    assert(!(0 <= m.blocks[b as int].first < m.blocks[b as int].end
                        <= m.insns.len()));
                }
            }
            return false;
        }
        end = next;
        b += 1;
    }
    end == len as u64
}

/// Whether the instruction neither uses nor defines a virtual register that it modifies as well.
fn roles_are_distinct(uses: &InstRegUses) -> (r: bool)
    ensures
        r == uses@.roles_distinct(),
{
    let ghost elems = uses.modified.elems@;
    let mut i: usize = 0;
    while i < uses.modified.elems.len()
        invariant
            elems == uses.modified.elems@,
            i <= elems.len(),
            forall|j: int|
                0 <= j < i && elems[j] is Virtual ==> !uses@.used.contains(#[trigger] elems[j])
                    && !uses@.defined.contains(elems[j]),
        decreases elems.len() - i,
    {
        let reg = uses.modified.elems[i];
        if let Reg::Virtual(vreg) = reg {
            if uses.used.contains(reg) || uses.defined.contains(reg) {
                assert(elems.contains(reg));
                assert(uses@.modified.contains(Reg::Virtual(vreg)));
                return false;
            }
        }
        i += 1;
    }
    assert forall|v: VirtualReg| #[trigger]
        uses@.modified.contains(Reg::Virtual(v)) implies !uses@.used.contains(Reg::Virtual(v))
        && !uses@.defined.contains(Reg::Virtual(v)) by {
        let j = choose|j: int| 0 <= j < elems.len() && elems[j] == Reg::Virtual(v);
        assert(elems[j] == Reg::Virtual(v));
    }
    true
}

/// Whether no instruction uses, or defines, a virtual register that it modifies as well.
fn roles_are_ok<F: Function>(func: &F, universe: Ghost<RealRegUniverse>) -> (r: bool)
    ensures
        r == roles_ok(setting_of(func, universe@)),
{
    let ghost setting = setting_of(func, universe@);
    let len = func.insn_indices().len();
    let mut k: u32 = 0;
    while k < len
        invariant
            setting == setting_of(func, universe@),
            len == setting.func.insns.len(),
            k <= len,
            forall|j: int|
                0 <= j < k ==> (#[trigger] (setting.im.regs)(
                    setting.func.insns[j],
                )).roles_distinct(),
        decreases len - k,
    {
        let uses = func.get_regs(func.get_insn(InstIx::new(k)));
        assert(uses@ == (setting.im.regs)(setting.func.insns[k as int]));
        if !roles_are_distinct(&uses) {
            return false;
        }
        k += 1;
    }
    true
}

/// Whether the real ranges of each allocable register are in order and share no point.
fn rlrs_are_ok(
    universe: &RealRegUniverse,
    rlr_env: &TypedIxVec<RealRangeIx, RealRange>,
    frag_env: &TypedIxVec<RangeFragIx, RangeFrag>,
) -> (r: bool)
    ensures
        r == rlrs_ok(*universe, rlr_views(rlr_env@), frag_env@),
{
    let ghost rlrs = rlr_views(rlr_env@);
    let mut b: usize = 0;
    while b < rlr_env.vector.len()
        invariant
            rlrs == rlr_views(rlr_env@),
            b <= rlrs.len(),
            rlrs_ok(*universe, rlrs.take(b as int), frag_env@),
        decreases rlrs.len() - b,
    {
        let rlr = &rlr_env.vector[b];
        assert(rlrs[b as int] == rlr@);
        let ghost fewer = rlrs.take(b as int);
        let ghost more = rlrs.take(b + 1);
        assert(more =~= fewer.push(rlr@));
        if rlr.rreg.get_index() < universe.allocable {
            if !are_sorted(&rlr.sortedFrags.fragIxs, frag_env) {
                assert(rlrs[b as int].rreg.index < universe.allocable);
                return false;
            }
            let mut a: usize = 0;
            while a < b
                invariant
                    rlrs == rlr_views(rlr_env@),
                    b < rlrs.len(),
                    a <= b,
                    rlr@ == rlrs[b as int],
                    rlr.rreg.index < universe.allocable,
                    frags_sorted(frag_env@, rlr@.frags),
                    fewer == rlrs.take(b as int),
                    rlrs_ok(*universe, fewer, frag_env@),
                    forall|c: int|
                        0 <= c < a && (#[trigger] rlrs[c]).rreg.index == rlr.rreg.index
                            ==> frags_clear(frag_env@, rlrs[c].frags.to_set(), rlr@.frags),
                decreases b - a,
            {
                let other = &rlr_env.vector[a];
                assert(rlrs[a as int] == other@);
                assert(fewer[a as int] == rlrs[a as int]);
                if other.rreg.get_index() == rlr.rreg.get_index() && !other.sortedFrags.can_add(
                    &rlr.sortedFrags,
                    frag_env,
                ) {
                    assert(rlrs[a as int].rreg.index == rlrs[b as int].rreg.index);
                    return false;
                }
                a += 1;
            }
        }
        proof {
            assert forall|c: int|
                0 <= c < more.len() && (#[trigger] more[c]).rreg.index
                    < universe.allocable implies frags_sorted(frag_env@, more[c].frags) by {
                if c < b {
                    assert(more[c] == fewer[c]);
                }
            }
            assert forall|c: int, d: int|
                0 <= c < d < more.len() && (#[trigger] more[c]).rreg.index == (
                #[trigger] more[d]).rreg.index && more[c].rreg.index
                    < universe.allocable implies frags_clear(
                frag_env@,
                more[c].frags.to_set(),
                more[d].frags,
            ) by {
                assert(more[c] == fewer[c] && more[c] == rlrs[c]);
                if d < b {
                    assert(more[d] == fewer[d]);
                }
            }
        }
        b += 1;
    }
    assert(rlrs.take(b as int) =~= rlrs);
    true
}

/// Whether all is well with the range: it has a size and no register, and its fragments are in
/// order, of the usual shapes and within the function.
fn vlr_is_ok<F: Function>(
    func: &F,
    vlr: &VirtualRange,
    frag_env: &TypedIxVec<RangeFragIx, RangeFrag>,
    universe: Ghost<RealRegUniverse>,
) -> (r: bool)
    ensures
        r == (vlr@.rreg is None && vlr_ok(setting_of(func, universe@), frag_env@, vlr@)),
{
    let ghost setting = setting_of(func, universe@);
    if vlr.rreg.is_some() || vlr.size == 0 || !are_sorted(&vlr.sortedFrags.fragIxs, frag_env) {
        return false;
    }
    let len = func.insn_indices().len();
    let mut i: usize = 0;
    while i < vlr.sortedFrags.fragIxs.len()
        invariant
            setting == setting_of(func, universe@),
            len == setting.func.insns.len(),
            frags_sorted(frag_env@, vlr@.frags),
            i <= vlr@.frags.len(),
            forall|j: int|
                0 <= j < i ==> frag_ok(setting, frag_env@[(#[trigger] vlr@.frags[j]).pos()]),
        decreases vlr@.frags.len() - i,
    {
        assert(vlr@.frags[i as int].pos() < frag_env@.len());
        let frag = frag_env.at(vlr.sortedFrags.fragIxs[i]);
        if !frag.has_sane_shape() || frag.last.iix.get() >= len {
            assert(!frag_ok(setting, frag_env@[vlr@.frags[i as int].pos()]));
            return false;
        }
        i += 1;
    }
    true
}

/// Whether some range for `vreg` has a fragment that is live at both of the given points.
fn points_are_covered(
    vlr_env: &TypedIxVec<VirtualRangeIx, VirtualRange>,
    frag_env: &TypedIxVec<RangeFragIx, RangeFrag>,
    vreg: VirtualReg,
    p: InstPoint,
    q: InstPoint,
) -> (r: bool)
    requires
        forall|x: int|
            0 <= x < vlr_env@.len() ==> frags_sorted(
                frag_env@,
                (#[trigger] vlr_views(vlr_env@)[x]).frags,
            ),
    ensures
        r == covers_points(vlr_views(vlr_env@), frag_env@, vreg, p.rank(), q.rank()),
{
    let ghost vlrs = vlr_views(vlr_env@);
    let mut x: usize = 0;
    while x < vlr_env.vector.len()
        invariant
            vlrs == vlr_views(vlr_env@),
            x <= vlrs.len(),
            forall|x: int|
                0 <= x < vlr_env@.len() ==> frags_sorted(frag_env@, (#[trigger] vlrs[x]).frags),
            forall|y: int, i: int|
                #![trigger vlrs[y].frags[i]]
                0 <= y < x && vlrs[y].vreg == vreg && 0 <= i < vlrs[y].frags.len() ==> !(
                frag_env@[vlrs[y].frags[i].pos()].covers(p.rank())
                    && frag_env@[vlrs[y].frags[i].pos()].covers(q.rank())),
        decreases vlrs.len() - x,
    {
        let vlr = &vlr_env.vector[x];
        assert(vlrs[x as int] == vlr@);
        if vlr.vreg == vreg {
            let mut i: usize = 0;
            while i < vlr.sortedFrags.fragIxs.len()
                invariant
                    vlrs == vlr_views(vlr_env@),
                    x < vlrs.len(),
                    vlrs[x as int] == vlr@,
                    vlr.vreg == vreg,
                    frags_sorted(frag_env@, vlr@.frags),
                    i <= vlr@.frags.len(),
                    forall|j: int|
                        0 <= j < i ==> !(frag_env@[(#[trigger] vlr@.frags[j]).pos()].covers(
                            p.rank(),
                        ) && frag_env@[vlr@.frags[j].pos()].covers(q.rank())),
                decreases vlr@.frags.len() - i,
            {
                assert(vlr@.frags[i as int].pos() < frag_env@.len());
                let frag = frag_env.at(vlr.sortedFrags.fragIxs[i]);
                if frag.contains(&p) && frag.contains(&q) {
                    assert(frag_env@[vlrs[x as int].frags[i as int].pos()].covers(p.rank()));
                    return true;
                }
                i += 1;
            }
        }
        x += 1;
    }
    false
}

/// Whether every virtual register of the set has a fragment that is live at both points.
fn set_is_covered(
    vlr_env: &TypedIxVec<VirtualRangeIx, VirtualRange>,
    frag_env: &TypedIxVec<RangeFragIx, RangeFrag>,
    regs: &RegSet,
    p: InstPoint,
    q: InstPoint,
) -> (r: bool)
    requires
        forall|x: int|
            0 <= x < vlr_env@.len() ==> frags_sorted(
                frag_env@,
                (#[trigger] vlr_views(vlr_env@)[x]).frags,
            ),
    ensures
        r == (forall|v: VirtualReg|
            regs@.contains(Reg::Virtual(v)) ==> #[trigger] covers_points(
                vlr_views(vlr_env@),
                frag_env@,
                v,
                p.rank(),
                q.rank(),
            )),
{
    let ghost vlrs = vlr_views(vlr_env@);
    let ghost elems = regs.elems@;
    let mut i: usize = 0;
    while i < regs.elems.len()
        invariant
            vlrs == vlr_views(vlr_env@),
            elems == regs.elems@,
            i <= elems.len(),
            forall|x: int|
                0 <= x < vlr_env@.len() ==> frags_sorted(
                    frag_env@,
                    (#[trigger] vlr_views(vlr_env@)[x]).frags,
                ),
            forall|j: int, v: VirtualReg|
                #![trigger elems[j], covers_points(vlrs, frag_env@, v, p.rank(), q.rank())]
                0 <= j < i && elems[j] == Reg::Virtual(v) ==> covers_points(
                    vlrs,
                    frag_env@,
                    v,
                    p.rank(),
                    q.rank(),
                ),
        decreases elems.len() - i,
    {
        if let Reg::Virtual(v) = regs.elems[i] {
            if !points_are_covered(vlr_env, frag_env, v, p, q) {
                proof {
                    assert(elems[i as int] == Reg::Virtual(v));
                    assert(elems.contains(Reg::Virtual(v)));
                    assert(regs@.contains(Reg::Virtual(v)));
                }
                return false;
            }
        }
        i += 1;
    }
    assert forall|v: VirtualReg| regs@.contains(Reg::Virtual(v)) implies #[trigger] covers_points(
        vlrs,
        frag_env@,
        v,
        p.rank(),
        q.rank(),
    ) by {
        let j = choose|j: int| 0 <= j < elems.len() && elems[j] == Reg::Virtual(v);
        assert(elems[j] == Reg::Virtual(v));
    }
    true
}

/// Whether all is well with every range, and none has a register.
fn vlrs_are_ok<F: Function>(
    func: &F,
    vlr_env: &TypedIxVec<VirtualRangeIx, VirtualRange>,
    frag_env: &TypedIxVec<RangeFragIx, RangeFrag>,
    universe: Ghost<RealRegUniverse>,
) -> (r: bool)
    ensures
        r == (forall|x: int|
            0 <= x < vlr_env@.len() ==> (#[trigger] vlr_views(vlr_env@)[x]).rreg is None && vlr_ok(
                setting_of(func, universe@),
                frag_env@,
                vlr_views(vlr_env@)[x],
            )),
{
    let ghost setting = setting_of(func, universe@);
    let ghost vlrs = vlr_views(vlr_env@);
    let mut x: usize = 0;
    while x < vlr_env.vector.len()
        invariant
            setting == setting_of(func, universe@),
            vlrs == vlr_views(vlr_env@),
            x <= vlrs.len(),
            forall|y: int|
                0 <= y < x ==> (#[trigger] vlrs[y]).rreg is None && vlr_ok(
                    setting,
                    frag_env@,
                    vlrs[y],
                ),
        decreases vlrs.len() - x,
    {
        assert(vlrs[x as int] == vlr_env@[x as int]@);
        if !vlr_is_ok(func, &vlr_env.vector[x], frag_env, universe) {
            return false;
        }
        x += 1;
    }
    true
}

/// Whether the ranges of each virtual register share no point.
fn ranges_are_apart(
    vlr_env: &TypedIxVec<VirtualRangeIx, VirtualRange>,
    frag_env: &TypedIxVec<RangeFragIx, RangeFrag>,
) -> (r: bool)
    requires
        forall|x: int|
            0 <= x < vlr_env@.len() ==> frags_sorted(
                frag_env@,
                (#[trigger] vlr_views(vlr_env@)[x]).frags,
            ),
    ensures
        r == (forall|x: int, y: int|
            0 <= x < vlr_env@.len() && 0 <= y < vlr_env@.len() && x != y && (
            #[trigger] vlr_views(vlr_env@)[x]).vreg == (#[trigger] vlr_views(vlr_env@)[y]).vreg
                ==> frags_clear(
                frag_env@,
                vlr_views(vlr_env@)[x].frags.to_set(),
                vlr_views(vlr_env@)[y].frags,
            )),
{
    let ghost vlrs = vlr_views(vlr_env@);
    let len = vlr_env.vector.len();
    let mut x: usize = 0;
    while x < len
        invariant
            vlrs == vlr_views(vlr_env@),
            len == vlr_env@.len(),
            x <= len,
            forall|x: int|
                0 <= x < vlr_env@.len() ==> frags_sorted(frag_env@, (#[trigger] vlrs[x]).frags),
            forall|a: int, b: int|
                0 <= a < x && 0 <= b < len && a != b && (#[trigger] vlrs[a]).vreg == (
                #[trigger] vlrs[b]).vreg ==> frags_clear(
                    frag_env@,
                    vlrs[a].frags.to_set(),
                    vlrs[b].frags,
                ),
        decreases len - x,
    {
        let vx = &vlr_env.vector[x];
        assert(vlrs[x as int] == vx@);
        let mut y: usize = 0;
        while y < len
            invariant
                vlrs == vlr_views(vlr_env@),
                len == vlr_env@.len(),
                x < len,
                y <= len,
                vlrs[x as int] == vx@,
                forall|x: int|
                    0 <= x < vlr_env@.len() ==> frags_sorted(
                        frag_env@,
                        (#[trigger] vlrs[x]).frags,
                    ),
                forall|b: int|
                    0 <= b < y && x != b && vx.vreg == (#[trigger] vlrs[b]).vreg ==> frags_clear(
                        frag_env@,
                        vx@.frags.to_set(),
                        vlrs[b].frags,
                    ),
            decreases len - y,
        {
            let vy = &vlr_env.vector[y];
            assert(vlrs[y as int] == vy@);
            if x != y && vx.vreg == vy.vreg && !vx.sortedFrags.can_add(&vy.sortedFrags, frag_env) {
                assert(vlrs[x as int].vreg == vlrs[y as int].vreg);
                return false;
            }
            y += 1;
        }
        x += 1;
    }
    true
}

/// Whether a range is live wherever an instruction mentions its register.
fn mentions_are_covered<F: Function>(
    func: &F,
    vlr_env: &TypedIxVec<VirtualRangeIx, VirtualRange>,
    frag_env: &TypedIxVec<RangeFragIx, RangeFrag>,
    universe: Ghost<RealRegUniverse>,
) -> (r: bool)
    requires
        forall|x: int|
            0 <= x < vlr_env@.len() ==> frags_sorted(
                frag_env@,
                (#[trigger] vlr_views(vlr_env@)[x]).frags,
            ),
    ensures
        r == (forall|vreg: VirtualReg, k: int|
            0 <= k < func.model().insns.len() ==> #[trigger] mention_covered(
                setting_of(func, universe@),
                vlr_views(vlr_env@),
                frag_env@,
                vreg,
                k,
            )),
{
    let ghost setting = setting_of(func, universe@);
    let ghost vlrs = vlr_views(vlr_env@);
    let len = func.insn_indices().len();
    let mut k: u32 = 0;
    while k < len
        invariant
            setting == setting_of(func, universe@),
            vlrs == vlr_views(vlr_env@),
            len == setting.func.insns.len(),
            k <= len,
            forall|x: int|
                0 <= x < vlr_env@.len() ==> frags_sorted(
                    frag_env@,
                    (#[trigger] vlr_views(vlr_env@)[x]).frags,
                ),
            forall|vreg: VirtualReg, j: int|
                0 <= j < k ==> #[trigger] mention_covered(setting, vlrs, frag_env@, vreg, j),
        decreases len - k,
    {
        let iix = InstIx::new(k);
        let uses = func.get_regs(func.get_insn(iix));
        let u = InstPoint::new_use(iix);
        let d = InstPoint::new_def(iix);
        assert(uses@ == (setting.im.regs)(setting.func.insns[k as int]));
        let ghost ur = point_rank(k as int, Point::Use);
        let ghost dr = point_rank(k as int, Point::Def);
        assert(u.rank() == ur && d.rank() == dr);
        if !set_is_covered(vlr_env, frag_env, &uses.used, u, u) {
            proof {
                let v = choose|v: VirtualReg|
                    uses.used@.contains(Reg::Virtual(v)) && !#[trigger] covers_points(
                        vlrs,
                        frag_env@,
                        v,
                        ur,
                        ur,
                    );
                assert(!mention_covered(setting, vlrs, frag_env@, v, k as int));
            }
            return false;
        }
        if !set_is_covered(vlr_env, frag_env, &uses.defined, d, d) {
            proof {
                let v = choose|v: VirtualReg|
                    uses.defined@.contains(Reg::Virtual(v)) && !#[trigger] covers_points(
                        vlrs,
                        frag_env@,
                        v,
                        dr,
                        dr,
                    );
                assert(!mention_covered(setting, vlrs, frag_env@, v, k as int));
            }
            return false;
        }
        if !set_is_covered(vlr_env, frag_env, &uses.modified, u, d) {
            proof {
                let v = choose|v: VirtualReg|
                    uses.modified@.contains(Reg::Virtual(v)) && !#[trigger] covers_points(
                        vlrs,
                        frag_env@,
                        v,
                        ur,
                        dr,
                    );
                assert(!mention_covered(setting, vlrs, frag_env@, v, k as int));
            }
            return false;
        }
        proof {
            assert forall|vreg: VirtualReg| #[trigger] mention_covered(
                setting,
                vlrs,
                frag_env@,
                vreg,
                k as int,
            ) by {
                if uses.used@.contains(Reg::Virtual(vreg)) {
                    assert(covers_points(vlrs, frag_env@, vreg, ur, ur));
                }
                if uses.defined@.contains(Reg::Virtual(vreg)) {
                    assert(covers_points(vlrs, frag_env@, vreg, dr, dr));
                }
                if uses.modified@.contains(Reg::Virtual(vreg)) {
                    assert(covers_points(vlrs, frag_env@, vreg, ur, dr));
                }
            }
        }
        k += 1;
    }
    true
}

/// Whether the tables and the spill area have room for what spilling every range that can be
/// spilled would add to them, and the spill slots of each of these have a size.
fn has_room_for_spills<F: Function>(
    func: &F,
    vlr_env: &TypedIxVec<VirtualRangeIx, VirtualRange>,
    frag_env: &TypedIxVec<RangeFragIx, RangeFrag>,
    universe: Ghost<RealRegUniverse>,
) -> (r: bool)
    requires
        forall|x: int|
            0 <= x < vlr_env@.len() ==> vlr_ok(
                setting_of(func, universe@),
                frag_env@,
                #[trigger] vlr_views(vlr_env@)[x],
            ),
    ensures
        r == room_for_spills(setting_of(func, universe@), vlr_views(vlr_env@), frag_env@),
{
    let ghost setting = setting_of(func, universe@);
    let ghost vlrs = vlr_views(vlr_env@);
    let ghost set = finite_cost(vlrs);
    let ghost n = vlrs.len() as int;
    let limit: u128 = u32::MAX as u128;
    proof {
        lemma_totals_nonneg(setting, vlrs, frag_env@, set, n);
    }
    if vlr_env.vector.len() as u128 > limit {
        return false;
    }
    let mut more: u128 = 0;
    let mut slots: u128 = 0;
    let mut x: usize = 0;
    while x < vlr_env.vector.len()
        invariant
            setting == setting_of(func, universe@),
            vlrs == vlr_views(vlr_env@),
            set == finite_cost(vlrs),
            forall|x: int|
                0 <= x < vlr_env@.len() ==> vlr_ok(setting, frag_env@, #[trigger] vlrs[x]),
            vlrs.len() <= u32::MAX,
            x <= vlrs.len(),
            more == total_bridges(setting, vlrs, frag_env@, set, x as int),
            slots == total_slots(setting, vlrs, set, x as int),
            more <= x * 0x1_0000_0000_0000_0000,
            slots <= x * 0x2_0000_0000,
            forall|y: int|
                0 <= y < x && (#[trigger] vlrs[y]).cost is Some ==> (setting.func.slot_size)(
                    vlrs[y].vreg.class,
                ) > 0,
        decreases vlrs.len() - x,
    {
        let vlr = &vlr_env.vector[x];
        assert(vlrs[x as int] == vlr@);
        let ghost ix = VirtualRangeIx { ix: x as u32 };
        assert(ix.pos() == x);
        if vlr.spillCost.is_some() {
            let bridges = collect_bridges(func, vlr, frag_env);
            assert(bridges@.len() == num_bridges(setting, vlrs, frag_env@, x as int));
            assert(set.contains(ix));
            more += bridges.len() as u128;
            let size = func.get_spillslot_size(vlr.vreg.get_class());
            if size == 0 {
                assert(vlrs[x as int].cost is Some);
                return false;
            }
            slots += 2 * size as u128;
        } else {
            assert(!set.contains(ix));
        }
        x += 1;
    }
    vlr_env.vector.len() as u128 + more <= limit && frag_env.vector.len() as u128 + more <= limit
        && slots <= limit
}

/// Whether the function, the machine and the live ranges are as the allocator needs them, and the
/// tables are within their limits: the allocator can start taking turns.
pub fn can_start<F: Function>(
    func: &F,
    reg_universe: &RealRegUniverse,
    analysis: &Analysis,
) -> (r: bool)
    ensures
        r == {
            &&& func.model().laid_out()
            &&& input_ok(
                setting_of(func, *reg_universe),
                rlr_views(analysis.rlr_env@),
                vlr_views(analysis.vlr_env@),
                analysis.frag_env@,
            )
            &&& analysis.start(*reg_universe).fits()
        },
{
    let ghost vlrs = vlr_views(analysis.vlr_env@);
    let Analysis { rlr_env, vlr_env, frag_env } = analysis;
    if !blocks_are_laid_out(func) || !universe_is_ok(reg_universe) {
        return false;
    }
    if !roles_are_ok(func, Ghost(*reg_universe)) || !rlrs_are_ok(reg_universe, rlr_env, frag_env) {
        return false;
    }
    if !vlrs_are_ok(func, vlr_env, frag_env, Ghost(*reg_universe)) {
        return false;
    }
    assert forall|x: int| 0 <= x < vlr_env@.len() implies frags_sorted(
        frag_env@,
        (#[trigger] vlrs[x]).frags,
    ) by {}
    if !ranges_are_apart(vlr_env, frag_env) || !mentions_are_covered(
        func,
        vlr_env,
        frag_env,
        Ghost(*reg_universe),
    ) {
        return false;
    }
    vlr_env.vector.len() as u64 <= u32::MAX as u64 && frag_env.vector.len() as u64
        <= u32::MAX as u64
}

/// Whether the function, the machine and the live ranges are as the allocator needs them, and the
/// tables are sure to stay within their limits: `alloc_main` can be called.
pub fn input_is_ok<F: Function>(
    func: &F,
    reg_universe: &RealRegUniverse,
    analysis: &Analysis,
) -> (r: bool)
    ensures
        r == {
            let setting = setting_of(func, *reg_universe);
            let vlrs = vlr_views(analysis.vlr_env@);
            &&& func.model().laid_out()
            &&& input_ok(setting, rlr_views(analysis.rlr_env@), vlrs, analysis.frag_env@)
            &&& room_for_spills(setting, vlrs, analysis.frag_env@)
        },
        r ==> stays_within_limits(
            setting_of(func, *reg_universe),
            analysis.start(*reg_universe),
        ),
{
    let ghost setting = setting_of(func, *reg_universe);
    let ghost rlrs = rlr_views(analysis.rlr_env@);
    let ghost vlrs = vlr_views(analysis.vlr_env@);
    let ghost frags = analysis.frag_env@;
    proof {
        lemma_totals_nonneg(setting, vlrs, frags, finite_cost(vlrs), vlrs.len() as int);
    }
    if !can_start(func, reg_universe, analysis) {
        return false;
    }
    proof {
        if room_for_spills(setting, vlrs, frags) {
            law_room_for_spills_suffices(setting, rlrs, vlrs, frags);
        }
    }
    has_room_for_spills(func, &analysis.vlr_env, &analysis.frag_env, Ghost(*reg_universe))
}

} // verus!
