//! Points in the instruction stream, live-range fragments, and sorted sets of fragments.

use crate::index::{BlockIx, InstIx, RangeFragIx, TypedIx, TypedIxVec};
use vstd::prelude::*;

verus! {

/// The four points at each instruction, in order of time.
#[derive(Clone, Copy, PartialEq, Eq, Structural, Hash, Debug)]
pub enum Point {
    /// Where reloads for the instruction go.
    Reload,
    /// Where the instruction reads its operands.
    Use,
    /// Where the instruction writes its results.
    Def,
    /// Where spills for the instruction go.
    Spill,
}

impl Point {
    pub open spec fn rank(self) -> int {
        match self {
            Point::Reload => 0,
            Point::Use => 1,
            Point::Def => 2,
            Point::Spill => 3,
        }
    }

    pub fn to_u64(self) -> (r: u64)
        ensures
            r == self.rank(),
    {
        match self {
            Point::Reload => 0,
            Point::Use => 1,
            Point::Def => 2,
            Point::Spill => 3,
        }
    }

    pub fn is_reload(self) -> (r: bool)
        ensures
            r == (self is Reload),
    {
        matches!(self, Point::Reload)
    }

    pub fn is_use(self) -> (r: bool)
        ensures
            r == (self is Use),
    {
        matches!(self, Point::Use)
    }

    pub fn is_def(self) -> (r: bool)
        ensures
            r == (self is Def),
    {
        matches!(self, Point::Def)
    }

    pub fn is_spill(self) -> (r: bool)
        ensures
            r == (self is Spill),
    {
        matches!(self, Point::Spill)
    }

    pub fn is_use_or_def(self) -> (r: bool)
        ensures
            r == (self is Use || self is Def),
    {
        self.is_use() || self.is_def()
    }
}

/// A point at an instruction.
#[derive(Clone, Copy, PartialEq, Eq, Structural, Hash, Debug)]
pub struct InstPoint {
    pub iix: InstIx,
    pub pt: Point,
}

/// The place of point `pt` of instruction `iix` in the order of all points.
pub open spec fn point_rank(iix: int, pt: Point) -> int {
    4 * iix + pt.rank()
}

/// Point `pt` of the instruction at position `k`.
pub open spec fn point_at(k: int, pt: Point) -> InstPoint {
    InstPoint { iix: InstIx { ix: k as u32 }, pt }
}

impl InstPoint {
    /// The place of the point in the order of all points.
    pub open spec fn rank(self) -> int {
        point_rank(self.iix.pos(), self.pt)
    }

    pub fn new(iix: InstIx, pt: Point) -> (r: Self)
        ensures
            r == (InstPoint { iix, pt }),
    {
        InstPoint { iix, pt }
    }

    pub fn new_reload(iix: InstIx) -> (r: Self)
        ensures
            r == (InstPoint { iix, pt: Point::Reload }),
    {
        InstPoint { iix, pt: Point::Reload }
    }

    pub fn new_use(iix: InstIx) -> (r: Self)
        ensures
            r == (InstPoint { iix, pt: Point::Use }),
    {
        InstPoint { iix, pt: Point::Use }
    }

    pub fn new_def(iix: InstIx) -> (r: Self)
        ensures
            r == (InstPoint { iix, pt: Point::Def }),
    {
        InstPoint { iix, pt: Point::Def }
    }

    pub fn new_spill(iix: InstIx) -> (r: Self)
        ensures
            r == (InstPoint { iix, pt: Point::Spill }),
    {
        InstPoint { iix, pt: Point::Spill }
    }

    /// The rank as a machine integer.
    pub fn to_u64(self) -> (r: u64)
        ensures
            r == self.rank(),
    {
        4 * (self.iix.get() as u64) + self.pt.to_u64()
    }
}

/// How a fragment relates to the block that it is in.
#[derive(Clone, Copy, PartialEq, Eq, Structural, Hash, Debug)]
pub enum RangeFragKind {
    Local,
    LiveIn,
    LiveOut,
    Thru,
}

/// A contiguous stretch of points, from `first` to `last` inclusive, over which a register is
/// live. `count` estimates how often it is mentioned there.
#[derive(Clone, Copy, PartialEq, Eq, Structural, Debug)]
pub struct RangeFrag {
    pub bix: BlockIx,
    pub kind: RangeFragKind,
    pub first: InstPoint,
    pub last: InstPoint,
    pub count: u16,
}

impl RangeFrag {
    /// The fragment does not end before it starts.
    pub open spec fn wf(self) -> bool {
        self.first.rank() <= self.last.rank()
    }

    /// The fragment covers the point with the given rank.
    pub open spec fn covers(self, rank: int) -> bool {
        self.first.rank() <= rank <= self.last.rank()
    }

    /// All of this fragment comes before all of the other.
    pub open spec fn before(self, other: RangeFrag) -> bool {
        self.last.rank() < other.first.rank()
    }

    /// No point is in both fragments.
    pub open spec fn disjoint(self, other: RangeFrag) -> bool {
        self.before(other) || other.before(self)
    }

    /// Neither end is at a reload or spill point: the fragment is unrelated to spilling.
    pub open spec fn is_normal(self) -> bool {
        &&& self.first.pt is Use || self.first.pt is Def
        &&& self.last.pt is Use || self.last.pt is Def
    }

    /// The fragment has one of the shapes that the allocator works with: an ordinary one, or one
    /// of the three bridges that spilling creates at a single instruction.
    pub open spec fn is_sane(self) -> bool {
        ||| self.is_normal() && self.first.iix.pos() <= self.last.iix.pos()
        ||| self.first.pt is Reload && self.last.pt is Use && self.first.iix == self.last.iix
        ||| self.first.pt is Reload && self.last.pt is Spill && self.first.iix == self.last.iix
        ||| self.first.pt is Def && self.last.pt is Spill && self.first.iix == self.last.iix
    }

    pub fn contains(&self, ipt: &InstPoint) -> (r: bool)
        ensures
            r == self.covers(ipt.rank()),
    {
        self.first.to_u64() <= ipt.to_u64() && ipt.to_u64() <= self.last.to_u64()
    }
}

/// All of the fragments that `ixs` names are in the environment and well formed, and they come one
/// after the other.
pub open spec fn frags_sorted(fenv: Seq<RangeFrag>, ixs: Seq<RangeFragIx>) -> bool {
    &&& forall|i: int|
        0 <= i < ixs.len() ==> (#[trigger] ixs[i]).pos() < fenv.len() && fenv[ixs[i].pos()].wf()
    &&& forall|i: int, j: int|
        0 <= i < j < ixs.len() ==> fenv[(#[trigger] ixs[i]).pos()].before(
            fenv[(#[trigger] ixs[j]).pos()],
        )
}

/// Sortedness does not depend on what else is in the environment.
pub proof fn lemma_frags_sorted_extend(
    fenv: Seq<RangeFrag>,
    wider: Seq<RangeFrag>,
    ixs: Seq<RangeFragIx>,
)
    requires
        frags_sorted(fenv, ixs),
        fenv.len() <= wider.len(),
        forall|i: int| 0 <= i < fenv.len() ==> #[trigger] fenv[i] == wider[i],
    ensures
        frags_sorted(wider, ixs),
{
}

/// No fragment of `ixs` shares a point with one of `other`.
pub open spec fn frags_clear(
    fenv: Seq<RangeFrag>,
    ixs: Set<RangeFragIx>,
    other: Seq<RangeFragIx>,
) -> bool {
    forall|x: RangeFragIx, j: int| #[trigger]
        ixs.contains(x) && 0 <= j < other.len() ==> fenv[x.pos()].disjoint(
            fenv[(#[trigger] other[j]).pos()],
        )
}

/// A set of pairwise disjoint fragments, held in the order of the instruction stream.
#[derive(Debug)]
pub struct SortedRangeFragIxs {
    pub fragIxs: Vec<RangeFragIx>,
}

impl View for SortedRangeFragIxs {
    type V = Seq<RangeFragIx>;

    open spec fn view(&self) -> Seq<RangeFragIx> {
        self.fragIxs@
    }
}

impl SortedRangeFragIxs {
    pub open spec fn wf(&self, fenv: Seq<RangeFrag>) -> bool {
        frags_sorted(fenv, self@)
    }

    pub fn empty() -> (r: Self)
        ensures
            r@ == Seq::<RangeFragIx>::empty(),
    {
        SortedRangeFragIxs { fragIxs: Vec::new() }
    }

    /// The set that holds one fragment only.
    pub fn unit(fix: RangeFragIx) -> (r: Self)
        ensures
            r@ == seq![fix],
    {
        let mut fragIxs: Vec<RangeFragIx> = Vec::new();
        fragIxs.push(fix);
        let r = SortedRangeFragIxs { fragIxs };
        assert(r@ =~= seq![fix]);
        r
    }

    /// Whether `to_add` can join the set without sharing a point with any fragment of it.
    pub fn can_add(&self, to_add: &Self, fenv: &TypedIxVec<RangeFragIx, RangeFrag>) -> (r: bool)
        requires
            self.wf(fenv@),
            to_add.wf(fenv@),
        ensures
            r == frags_clear(fenv@, self@.to_set(), to_add@),
    {
        let mut ix: usize = 0;
        let mut iy: usize = 0;
        while ix < self.fragIxs.len() && iy < to_add.fragIxs.len()
            invariant
                ix <= self@.len(),
                iy <= to_add@.len(),
                self.wf(fenv@),
                to_add.wf(fenv@),
                forall|i: int, j: int|
                    0 <= i < self@.len() && 0 <= j < to_add@.len() && (i < ix || j < iy)
                        ==> fenv@[(#[trigger] self@[i]).pos()].disjoint(
                        fenv@[(#[trigger] to_add@[j]).pos()],
                    ),
            decreases self@.len() - ix + to_add@.len() - iy,
        {
            let fx = fenv.at(self.fragIxs[ix]);
            let fy = fenv.at(to_add.fragIxs[iy]);
            if fx.last.to_u64() < fy.first.to_u64() {
                ix += 1;
            } else if fy.last.to_u64() < fx.first.to_u64() {
                iy += 1;
            } else {
                assert(self@.to_set().contains(self@[ix as int]));
                assert(!fenv@[self@[ix as int].pos()].disjoint(fenv@[to_add@[iy as int].pos()]));
                return false;
            }
        }
        assert forall|x: RangeFragIx, j: int| #[trigger]
            self@.to_set().contains(x) && 0 <= j < to_add@.len() implies fenv@[x.pos()].disjoint(
            fenv@[(#[trigger] to_add@[j]).pos()],
        ) by {
            let i = choose|i: int| 0 <= i < self@.len() && self@[i] == x;
            assert(fenv@[self@[i].pos()].disjoint(fenv@[to_add@[j].pos()]));
        }
        true
    }

    /// Adds the fragments of `to_add`.
    pub fn add(&mut self, to_add: &Self, fenv: &TypedIxVec<RangeFragIx, RangeFrag>)
        requires
            old(self).wf(fenv@),
            to_add.wf(fenv@),
            frags_clear(fenv@, old(self)@.to_set(), to_add@),
        ensures
            final(self).wf(fenv@),
            final(self)@.to_set() == old(self)@.to_set().union(to_add@.to_set()),
    {
        let mut ix: usize = 0;
        let mut iy: usize = 0;
        let mut res: Vec<RangeFragIx> = Vec::new();
        let ghost sx = self@;
        let ghost sy = to_add@;
        assert forall|i: int, j: int| 0 <= i < sx.len() && 0 <= j < sy.len() implies fenv@[(
        #[trigger] sx[i]).pos()].disjoint(fenv@[(#[trigger] sy[j]).pos()]) by {
            assert(sx.to_set().contains(sx[i]));
        }
        while ix < self.fragIxs.len() || iy < to_add.fragIxs.len()
            invariant
                sx == self@,
                sy == to_add@,
                ix <= sx.len(),
                iy <= sy.len(),
                frags_sorted(fenv@, sx),
                frags_sorted(fenv@, sy),
                frags_sorted(fenv@, res@),
                forall|i: int, j: int|
                    0 <= i < sx.len() && 0 <= j < sy.len() ==> fenv@[(
                    #[trigger] sx[i]).pos()].disjoint(fenv@[(#[trigger] sy[j]).pos()]),
                forall|k: int, i: int|
                    0 <= k < res@.len() && ix <= i < sx.len() ==> fenv@[(
                    #[trigger] res@[k]).pos()].before(fenv@[(#[trigger] sx[i]).pos()]),
                forall|k: int, j: int|
                    0 <= k < res@.len() && iy <= j < sy.len() ==> fenv@[(
                    #[trigger] res@[k]).pos()].before(fenv@[(#[trigger] sy[j]).pos()]),
                res@.to_set() =~= sx.take(ix as int).to_set().union(sy.take(iy as int).to_set()),
            decreases sx.len() - ix + sy.len() - iy,
        {
            let take_x = if ix >= self.fragIxs.len() {
                false
            } else if iy >= to_add.fragIxs.len() {
                true
            } else {
                let fx = fenv.at(self.fragIxs[ix]);
                let fy = fenv.at(to_add.fragIxs[iy]);
                fx.last.to_u64() < fy.first.to_u64()
            };
            let ghost before = res@;
            if take_x {
                proof {
                    before.lemma_push_to_set_commute(sx[ix as int]);
                    sx.take(ix as int).lemma_push_to_set_commute(sx[ix as int]);
                    assert(sx.take(ix + 1) =~= sx.take(ix as int).push(sx[ix as int]));
                    if iy < sy.len() {
                        assert(fenv@[sx[ix as int].pos()].before(fenv@[sy[iy as int].pos()]));
                    }
                }
                res.push(self.fragIxs[ix]);
                ix += 1;
            } else {
                proof {
                    before.lemma_push_to_set_commute(sy[iy as int]);
                    sy.take(iy as int).lemma_push_to_set_commute(sy[iy as int]);
                    assert(sy.take(iy + 1) =~= sy.take(iy as int).push(sy[iy as int]));
                    if ix < sx.len() {
                        assert(fenv@[sx[ix as int].pos()].disjoint(fenv@[sy[iy as int].pos()]));
                        assert(fenv@[sy[iy as int].pos()].before(fenv@[sx[ix as int].pos()]));
                    }
                }
                res.push(to_add.fragIxs[iy]);
                iy += 1;
            }
        }
        assert(sx.take(ix as int) =~= sx);
        assert(sy.take(iy as int) =~= sy);
        self.fragIxs = res;
    }

    /// Removes the fragments of `to_del`, all of which are in the set.
    pub fn del(&mut self, to_del: &Self, fenv: &TypedIxVec<RangeFragIx, RangeFrag>)
        requires
            old(self).wf(fenv@),
            to_del.wf(fenv@),
            to_del@.to_set().subset_of(old(self)@.to_set()),
        ensures
            final(self).wf(fenv@),
            final(self)@.to_set() == old(self)@.to_set().difference(to_del@.to_set()),
    {
        let res = self.without(to_del, fenv);
        self.fragIxs = res.fragIxs;
    }

    /// The set without the fragments of `to_del`, all of which are in it.
    pub fn without(
        &self,
        to_del: &Self,
        fenv: &TypedIxVec<RangeFragIx, RangeFrag>,
    ) -> (r: Self)
        requires
            self.wf(fenv@),
            to_del.wf(fenv@),
            to_del@.to_set().subset_of(self@.to_set()),
        ensures
            r.wf(fenv@),
            r@.to_set() == self@.to_set().difference(to_del@.to_set()),
    {
        let mut ix: usize = 0;
        let mut iy: usize = 0;
        let mut res: Vec<RangeFragIx> = Vec::new();
        let ghost sx = self@;
        let ghost sy = to_del@;
        proof {
            assert(sx.skip(0) =~= sx);
            assert forall|j: int| 0 <= j < sy.len() implies sx.contains(#[trigger] sy[j]) by {
                assert(sy.to_set().contains(sy[j]));
                assert(sx.to_set().contains(sy[j]));
            }
        }
        while ix < self.fragIxs.len()
            invariant
                sx == self@,
                sy == to_del@,
                ix <= sx.len(),
                iy <= sy.len(),
                frags_sorted(fenv@, sx),
                frags_sorted(fenv@, sy),
                frags_sorted(fenv@, res@),
                sy.to_set().subset_of(sx.to_set()),
                forall|k: int, i: int|
                    0 <= k < res@.len() && ix <= i < sx.len() ==> fenv@[(
                    #[trigger] res@[k]).pos()].before(fenv@[(#[trigger] sx[i]).pos()]),
                // What is left to delete lies among what is left to look at.
                forall|j: int| iy <= j < sy.len() ==> sx.skip(ix as int).contains(#[trigger] sy[j]),
                forall|j: int| 0 <= j < iy ==> sx.take(ix as int).contains(#[trigger] sy[j]),
                res@.to_set() =~= sx.take(ix as int).to_set().difference(
                    sy.take(iy as int).to_set(),
                ),
            decreases sx.len() - ix,
        {
            let fix = self.fragIxs[ix];
            let ghost before = res@;
            proof {
                assert(sx.take(ix + 1) =~= sx.take(ix as int).push(sx[ix as int]));
                sx.take(ix as int).lemma_push_to_set_commute(sx[ix as int]);
                before.lemma_push_to_set_commute(sx[ix as int]);
                assert(!sx.take(ix as int).contains(fix)) by {
                    if sx.take(ix as int).contains(fix) {
                        let i = choose|i: int| 0 <= i < ix && sx.take(ix as int)[i] == fix;
                        assert(sx[i] == sx[ix as int]);
                        assert(fenv@[sx[i].pos()].before(fenv@[sx[ix as int].pos()]));
                    }
                }
                assert forall|j: int| 0 <= j < iy implies sx.take(ix + 1).contains(
                    #[trigger] sy[j],
                ) by {
                    let i = choose|i: int| 0 <= i < ix && sx.take(ix as int)[i] == sy[j];
                    assert(sx.take(ix + 1)[i] == sy[j]);
                }
            }
            if iy < to_del.fragIxs.len() && to_del.fragIxs[iy] == fix {
                proof {
                    assert(sy.take(iy + 1) =~= sy.take(iy as int).push(sy[iy as int]));
                    sy.take(iy as int).lemma_push_to_set_commute(sy[iy as int]);
                    assert(sx.take(ix + 1)[ix as int] == sy[iy as int]);
                    assert forall|j: int| iy + 1 <= j < sy.len() implies sx.skip(ix + 1).contains(
                        #[trigger] sy[j],
                    ) by {
                        assert(sx.skip(ix as int).contains(sy[j]));
                        let i = choose|i: int|
                            0 <= i < sx.skip(ix as int).len() && sx.skip(ix as int)[i] == sy[j];
                        if i == 0 {
                            assert(sy[j] == sy[iy as int]);
                            assert(fenv@[sy[iy as int].pos()].before(fenv@[sy[j].pos()]));
                        }
                        assert(sx.skip(ix + 1)[i - 1] == sy[j]);
                    }
                }
                iy += 1;
            } else {
                proof {
                    assert forall|j: int| iy <= j < sy.len() implies sx.skip(ix + 1).contains(
                        #[trigger] sy[j],
                    ) && sy[j] != fix by {
                        assert(sx.skip(ix as int).contains(sy[j]));
                        let i = choose|i: int|
                            0 <= i < sx.skip(ix as int).len() && sx.skip(ix as int)[i] == sy[j];
                        if i == 0 {
                            // Then `sy[iy]` lies before `sy[j]`, which is the first that is left.
                            assert(j > iy);
                            assert(sx.skip(ix as int).contains(sy[iy as int]));
                            let i2 = choose|i2: int|
                                0 <= i2 < sx.skip(ix as int).len() && sx.skip(ix as int)[i2]
                                    == sy[iy as int];
                            assert(sx[ix + i2] == sy[iy as int]);
                            assert(fenv@[sy[iy as int].pos()].before(fenv@[sy[j].pos()]));
                            assert(sx[ix as int] == sy[j]);
                            if i2 > 0 {
                                assert(fenv@[sx[ix as int].pos()].before(
                                    fenv@[sx[ix + i2].pos()],
                                ));
                            }
                            assert(false);
                        }
                        assert(sx.skip(ix + 1)[i - 1] == sy[j]);
                    }
                    assert(!sy.take(iy as int).to_set().contains(fix)) by {
                        if sy.take(iy as int).contains(fix) {
                            let j = choose|j: int| 0 <= j < iy && sy.take(iy as int)[j] == fix;
                            assert(sx.take(ix as int).contains(sy[j]));
                        }
                    }
                }
                res.push(fix);
            }
            ix += 1;
        }
        proof {
            assert(iy == sy.len()) by {
                if iy < sy.len() {
                    assert(sx.skip(ix as int).contains(sy[iy as int]));
                }
            }
            assert(sx.take(ix as int) =~= sx);
            assert(sy.take(iy as int) =~= sy);
        }
        SortedRangeFragIxs { fragIxs: res }
    }

    /// Whether `to_add` could join the set if `to_del` left it first.
    pub fn can_add_if_we_first_del(
        &self,
        to_del: &Self,
        to_add: &Self,
        fenv: &TypedIxVec<RangeFragIx, RangeFrag>,
    ) -> (r: bool)
        requires
            self.wf(fenv@),
            to_del.wf(fenv@),
            to_add.wf(fenv@),
            to_del@.to_set().subset_of(self@.to_set()),
        ensures
            r == frags_clear(fenv@, self@.to_set().difference(to_del@.to_set()), to_add@),
    {
        let after_del = self.without(to_del, fenv);
        after_del.can_add(to_add, fenv)
    }
}

} // verus!
