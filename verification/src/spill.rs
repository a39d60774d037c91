//! What spilling a virtual range takes: the bridges between its spill slot and the instructions
//! that mention it.

use crate::frags::{point_rank, InstPoint, Point, RangeFrag, RangeFragKind};
use crate::index::{BlockIx, InstIx, RangeFragIx, TypedIx, TypedIxVec, VirtualRangeIx};
use crate::interface::{Function, InstModel, RegUses};
use crate::ranges::{SpillSlot, VirtualRange};
use crate::regs::{Reg, VirtualReg};
use vstd::prelude::*;

verus! {

/// Ranges that spilling creates are all at one instruction each. There are three kinds of them.
#[derive(Clone, Copy, PartialEq, Eq, Structural, Debug)]
pub enum BridgeKind {
    /// For a use: connects the reload to the use.
    RtoU,
    /// For a modification: connects the reload, the instruction and the spill, since the value
    /// must be reloaded, operated on, and spilled again.
    RtoS,
    /// For a definition: connects the definition to the spill.
    DtoS,
}

impl BridgeKind {
    /// The points at which a bridge starts and ends.
    pub open spec fn spec_points(self) -> (Point, Point) {
        match self {
            BridgeKind::RtoU => (Point::Reload, Point::Use),
            BridgeKind::RtoS => (Point::Reload, Point::Spill),
            BridgeKind::DtoS => (Point::Def, Point::Spill),
        }
    }

    /// How often the value of a bridge is referenced.
    pub open spec fn spec_count(self) -> u16 {
        if self is RtoS {
            3
        } else {
            2
        }
    }

    pub fn points(self) -> (r: (Point, Point))
        ensures
            r == self.spec_points(),
    {
        match self {
            BridgeKind::RtoU => (Point::Reload, Point::Use),
            BridgeKind::RtoS => (Point::Reload, Point::Spill),
            BridgeKind::DtoS => (Point::Def, Point::Spill),
        }
    }

    pub fn count(self) -> (r: u16)
        ensures
            r == self.spec_count(),
    {
        if self == BridgeKind::RtoS {
            3
        } else {
            2
        }
    }
}

/// An order to add a spill instruction, or a reload instruction, or both. The register and the
/// place are those of the range that `vlrix` names, which has one fragment only. Where several
/// orders are for one place, it does not matter which is carried out first.
#[derive(Clone, Copy, PartialEq, Eq, Structural, Debug)]
pub struct EditListItem {
    pub slot: SpillSlot,
    pub vlrix: VirtualRangeIx,
    pub kind: BridgeKind,
}

/// The orders for a whole function.
pub type EditList = Vec<EditListItem>;

/// What it takes to make a bridge around instruction `iix`, which is in block `bix`.
#[derive(Clone, Copy, PartialEq, Eq, Structural, Debug)]
pub struct SpillAndOrReloadInfo {
    pub bix: BlockIx,
    pub iix: InstIx,
    pub kind: BridgeKind,
}

impl SpillAndOrReloadInfo {
    /// The fragment of the bridge.
    pub open spec fn spec_frag(self) -> RangeFrag {
        RangeFrag {
            bix: self.bix,
            kind: RangeFragKind::Local,
            first: InstPoint { iix: self.iix, pt: self.kind.spec_points().0 },
            last: InstPoint { iix: self.iix, pt: self.kind.spec_points().1 },
            count: self.kind.spec_count(),
        }
    }

    pub fn frag(self) -> (r: RangeFrag)
        ensures
            r == self.spec_frag(),
    {
        let (first_pt, last_pt) = self.kind.points();
        RangeFrag {
            bix: self.bix,
            kind: RangeFragKind::Local,
            first: InstPoint::new(self.iix, first_pt),
            last: InstPoint::new(self.iix, last_pt),
            count: self.kind.count(),
        }
    }
}

/// The instruction at `k`, whose registers are `uses`, needs a bridge of the given kind for `vreg`
/// where `frag` is spilled: it mentions `vreg` in the role that the bridge is for, and `frag` is
/// live at the points that the role is about.
pub open spec fn needs_bridge(
    uses: RegUses,
    vreg: VirtualReg,
    frag: RangeFrag,
    k: int,
    kind: BridgeKind,
) -> bool {
    let reg = Reg::Virtual(vreg);
    let live_at_use = frag.covers(point_rank(k, Point::Use));
    let live_at_def = frag.covers(point_rank(k, Point::Def));
    match kind {
        BridgeKind::RtoU => uses.used.contains(reg) && live_at_use,
        BridgeKind::RtoS => uses.modified.contains(reg) && live_at_use && live_at_def,
        BridgeKind::DtoS => uses.defined.contains(reg) && live_at_def,
    }
}

/// A bridge of the given kind, if it is needed.
pub open spec fn bridge_if_needed(
    uses: RegUses,
    vreg: VirtualReg,
    frag: RangeFrag,
    k: int,
    kind: BridgeKind,
) -> Seq<SpillAndOrReloadInfo> {
    if needs_bridge(uses, vreg, frag, k, kind) {
        seq![SpillAndOrReloadInfo { bix: frag.bix, iix: InstIx { ix: k as u32 }, kind }]
    } else {
        Seq::empty()
    }
}

/// The bridges that spilling `vreg` over `frag` takes at instruction `k`.
pub open spec fn bridges_at<I>(
    im: InstModel<I>,
    insns: Seq<I>,
    vreg: VirtualReg,
    frag: RangeFrag,
    k: int,
) -> Seq<SpillAndOrReloadInfo> {
    let uses = (im.regs)(insns[k]);
    bridge_if_needed(uses, vreg, frag, k, BridgeKind::RtoU) + bridge_if_needed(
        uses,
        vreg,
        frag,
        k,
        BridgeKind::RtoS,
    ) + bridge_if_needed(uses, vreg, frag, k, BridgeKind::DtoS)
}

/// The bridges that spilling `vreg` over `frag` takes at its instructions before `k`.
pub open spec fn bridges_before<I>(
    im: InstModel<I>,
    insns: Seq<I>,
    vreg: VirtualReg,
    frag: RangeFrag,
    k: int,
) -> Seq<SpillAndOrReloadInfo>
    decreases k - frag.first.iix.pos(),
{
    if k <= frag.first.iix.pos() {
        Seq::empty()
    } else {
        bridges_before(im, insns, vreg, frag, k - 1) + bridges_at(im, insns, vreg, frag, k - 1)
    }
}

/// The bridges that spilling `vreg` over the fragments `ixs` takes.
pub open spec fn bridges<I>(
    im: InstModel<I>,
    insns: Seq<I>,
    vreg: VirtualReg,
    fenv: Seq<RangeFrag>,
    ixs: Seq<RangeFragIx>,
) -> Seq<SpillAndOrReloadInfo>
    decreases ixs.len(),
{
    if ixs.len() == 0 {
        Seq::empty()
    } else {
        let frag = fenv[ixs.last().pos()];
        bridges(im, insns, vreg, fenv, ixs.drop_last()) + bridges_before(
            im,
            insns,
            vreg,
            frag,
            frag.last.iix.pos() + 1,
        )
    }
}

/// Collects the bridges that spilling a range takes.
pub fn collect_bridges<F: Function>(
    func: &F,
    vlr: &VirtualRange,
    frag_env: &TypedIxVec<RangeFragIx, RangeFrag>,
) -> (r: Vec<SpillAndOrReloadInfo>)
    requires
        forall|i: int|
            0 <= i < vlr@.frags.len() ==> {
                &&& (#[trigger] vlr@.frags[i]).pos() < frag_env@.len()
                &&& frag_env@[vlr@.frags[i].pos()].last.iix.pos() < func.model().insns.len()
            },
    ensures
        r@ == bridges(
            F::inst_model(),
            func.model().insns,
            vlr.vreg,
            frag_env@,
            vlr@.frags,
        ),
{
    let ghost im = F::inst_model();
    let ghost insns = func.model().insns;
    let ghost ixs = vlr@.frags;
    let ghost fenv = frag_env@;
    let vreg = vlr.vreg;
    let reg = vreg.to_reg();
    let mut sri_vec: Vec<SpillAndOrReloadInfo> = Vec::new();
    let num_insns = func.insn_indices().len();
    let mut i: usize = 0;
    while i < vlr.sortedFrags.fragIxs.len()
        invariant
            im == F::inst_model(),
            insns == func.model().insns,
            ixs == vlr@.frags,
            fenv == frag_env@,
            vreg == vlr.vreg,
            reg == Reg::Virtual(vreg),
            num_insns == insns.len(),
            forall|j: int|
                0 <= j < ixs.len() ==> {
                    &&& (#[trigger] ixs[j]).pos() < fenv.len()
                    &&& fenv[ixs[j].pos()].last.iix.pos() < insns.len()
                },
            i <= ixs.len(),
            sri_vec@ == bridges(im, insns, vreg, fenv, ixs.take(i as int)),
        decreases ixs.len() - i,
    {
        let fix = vlr.sortedFrags.fragIxs[i];
        assert(fix == ixs[i as int]);
        let frag = frag_env.at(fix);
        let ghost earlier = sri_vec@;
        let end = frag.last.iix.get() + 1;
        let mut k: u32 = frag.first.iix.get();
        assert(sri_vec@ =~= earlier + bridges_before(im, insns, vreg, *frag, k as int));
        while k < end
            invariant
                im == F::inst_model(),
                insns == func.model().insns,
                reg == Reg::Virtual(vreg),
                end == frag.last.iix.pos() + 1,
                end <= insns.len(),
                frag.first.iix.pos() <= k,
                k <= end || k == frag.first.iix.pos(),
                sri_vec@ == earlier + bridges_before(im, insns, vreg, *frag, k as int),
            decreases end - k,
        {
            let iix = InstIx::new(k);
            let ghost so_far = sri_vec@;
            let reg_usage = func.get_regs(func.get_insn(iix));
            let live_at_use = frag.contains(&InstPoint::new_use(iix));
            let live_at_def = frag.contains(&InstPoint::new_def(iix));
            if reg_usage.used.contains(reg) && live_at_use {
                let sri = SpillAndOrReloadInfo { bix: frag.bix, iix, kind: BridgeKind::RtoU };
                sri_vec.push(sri);
            }
            // One range, not two: the reload and the spill must share a register.
            if reg_usage.modified.contains(reg) && live_at_use && live_at_def {
                let sri = SpillAndOrReloadInfo { bix: frag.bix, iix, kind: BridgeKind::RtoS };
                sri_vec.push(sri);
            }
            if reg_usage.defined.contains(reg) && live_at_def {
                let sri = SpillAndOrReloadInfo { bix: frag.bix, iix, kind: BridgeKind::DtoS };
                sri_vec.push(sri);
            }
            proof {
                assert(reg_usage@ == (im.regs)(insns[k as int]));
                assert(sri_vec@ =~= so_far + bridges_at(im, insns, vreg, *frag, k as int));
                assert(sri_vec@ =~= earlier + bridges_before(im, insns, vreg, *frag, k + 1));
            }
            k += 1;
        }
        proof {
            if k > end {
                lemma_no_bridges_past_end(im, insns, vreg, *frag, end as int);
            }
            assert(ixs.take(i + 1).drop_last() =~= ixs.take(i as int));
            assert(ixs.take(i + 1).last() == ixs[i as int]);
        }
        i += 1;
    }
    assert(ixs.take(i as int) =~= ixs);
    sri_vec
}

/// A fragment that ends before it starts takes no bridges.
proof fn lemma_no_bridges_past_end<I>(
    im: InstModel<I>,
    insns: Seq<I>,
    vreg: VirtualReg,
    frag: RangeFrag,
    end: int,
)
    requires
        end <= frag.first.iix.pos(),
    ensures
        bridges_before(im, insns, vreg, frag, end) == bridges_before(
            im,
            insns,
            vreg,
            frag,
            frag.first.iix.pos(),
        ),
{
}

} // verus!
