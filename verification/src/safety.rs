//! What holds in every state of the allocator.

use crate::frags::{frags_sorted, point_rank, Point, RangeFrag};
use crate::index::{RangeFragIx, TypedIx, VirtualRangeIx};
use crate::interface::RegUses;
use crate::prio_queue::swap_removed;
use crate::ranges::VlrView;
use crate::real_reg::{first_removed, is_first_of, lemma_first_removed};
use crate::regs::{Reg, VirtualReg};
use crate::state::{AllocState, Setting};
use vstd::prelude::*;

verus! {

/// The fragment is in the function and has one of the shapes that the allocator works with.
pub open spec fn frag_ok<I>(setting: Setting<I>, frag: RangeFrag) -> bool {
    &&& frag.wf()
    &&& frag.is_sane()
    &&& frag.last.iix.pos() < setting.func.insns.len()
}

/// The range has a size, its fragments are in order, and all is well with each of them.
pub open spec fn vlr_ok<I>(setting: Setting<I>, frags: Seq<RangeFrag>, vlr: VlrView) -> bool {
    &&& vlr.size > 0
    &&& frags_sorted(frags, vlr.frags)
    &&& forall|i: int|
        0 <= i < vlr.frags.len() ==> frag_ok(setting, frags[(#[trigger] vlr.frags[i]).pos()])
}

impl AllocState {
    /// Range `x` is assigned to register `i`.
    pub open spec fn at_reg(self, x: VirtualRangeIx, i: int) -> bool {
        0 <= i < self.regs.len() && self.regs[i].assigned.contains(x)
    }

    /// Range `x` is still of concern: it waits in the queue, or it has a register, or it is the
    /// one in hand. The others have been spilled.
    pub open spec fn live(self, hand: Option<VirtualRangeIx>, x: VirtualRangeIx) -> bool {
        ||| self.queue.contains(x)
        ||| exists|i: int| self.at_reg(x, i)
        ||| hand == Some(x)
    }

    pub open spec fn vlr(self, x: VirtualRangeIx) -> VlrView {
        self.vlrs[x.pos()]
    }

    /// Fragment `i` of range `x`.
    pub open spec fn frag_at(self, x: VirtualRangeIx, i: int) -> RangeFrag {
        self.frags[self.vlr(x).frags[i].pos()]
    }

    /// Range `x` is of concern and has a fragment `i`.
    pub open spec fn owns(self, hand: Option<VirtualRangeIx>, x: VirtualRangeIx, i: int) -> bool {
        self.live(hand, x) && 0 <= i < self.vlr(x).frags.len()
    }

    /// Each range of concern is in one place only, and is tagged with the register that it has.
    /// Ranges that cannot be spilled are all of concern.
    pub open spec fn homes_ok<I>(
        self,
        setting: Setting<I>,
        hand: Option<VirtualRangeIx>,
    ) -> bool {
        &&& self.regs.len() == setting.universe.allocable
        &&& self.queue.no_duplicates()
        &&& forall|i: int|
            0 <= i < self.regs.len() ==> (#[trigger] self.regs[i]).assigned.no_duplicates()
        &&& forall|x: VirtualRangeIx| #[trigger]
            self.queue.contains(x) ==> {
                &&& x.pos() < self.vlrs.len()
                &&& self.vlr(x).rreg is None
                &&& hand != Some(x)
            }
        &&& forall|x: VirtualRangeIx, i: int| #[trigger]
            self.at_reg(x, i) ==> {
                &&& x.pos() < self.vlrs.len()
                &&& self.vlr(x).rreg == Some(setting.universe.reg_seq()[i])
                &&& !self.queue.contains(x)
                &&& hand != Some(x)
            }
        &&& forall|x: VirtualRangeIx, i: int, j: int| #[trigger]
            self.at_reg(x, i) && #[trigger] self.at_reg(x, j) ==> i == j
        &&& hand matches Some(x) ==> x.pos() < self.vlrs.len() && self.vlr(x).rreg is None
        &&& forall|x: VirtualRangeIx|
            x.pos() < self.vlrs.len() && self.vlr(x).cost is None ==> #[trigger] self.live(hand, x)
    }

    /// All is well with every range.
    pub open spec fn vlrs_ok<I>(self, setting: Setting<I>) -> bool {
        forall|x: VirtualRangeIx|
            x.pos() < self.vlrs.len() ==> vlr_ok(setting, self.frags, #[trigger] self.vlr(x))
    }

    /// Every register is committed to the fragments in `fixed` and to those of the ranges that are
    /// assigned to it, and no point is in two of all these.
    pub open spec fn regs_ok(self, fixed: Seq<Set<RangeFragIx>>) -> bool {
        &&& fixed.len() == self.regs.len()
        &&& forall|i: int, f: RangeFragIx|
            0 <= i < self.regs.len() ==> (#[trigger] self.regs[i].frags.contains(f) <==> {
                ||| fixed[i].contains(f)
                ||| self.held_by_vlr(i, f)
            })
        &&& forall|i: int, f: RangeFragIx|
            0 <= i < self.regs.len() && #[trigger] self.regs[i].frags.contains(f) ==> f.pos()
                < self.frags.len() && self.frags[f.pos()].wf()
        &&& forall|i: int, f: RangeFragIx, g: RangeFragIx|
            0 <= i < self.regs.len() && #[trigger] self.regs[i].frags.contains(f)
                && #[trigger] self.regs[i].frags.contains(g) && f != g
                ==> self.frags[f.pos()].disjoint(self.frags[g.pos()])
        &&& forall|x: VirtualRangeIx, i: int, f: RangeFragIx| #[trigger]
            self.at_reg(x, i) && #[trigger] fixed[i].contains(f) ==> !self.vlr(x).frags.contains(f)
        &&& forall|x: VirtualRangeIx, y: VirtualRangeIx, i: int, f: RangeFragIx|
            #![trigger self.at_reg(x, i), self.at_reg(y, i), self.vlr(x).frags.contains(f)]
            self.at_reg(x, i) && self.at_reg(y, i) && x != y && self.vlr(x).frags.contains(f)
                ==> !self.vlr(y).frags.contains(f)
    }

    /// Fragment `f` belongs to a range that is assigned to register `i`.
    pub open spec fn held_by_vlr(self, i: int, f: RangeFragIx) -> bool {
        exists|x: VirtualRangeIx| #[trigger] self.at_reg(x, i) && self.vlr(x).frags.contains(f)
    }

    /// Every order in the edit list is for a bridge of its kind.
    pub open spec fn edits_ok<I>(self, setting: Setting<I>) -> bool {
        forall|e: int|
            0 <= e < self.edits.len() ==> {
                let item = #[trigger] self.edits[e];
                let frag = self.frag_at(item.vlrix, 0);
                &&& item.vlrix.pos() < self.vlrs.len()
                &&& self.vlr(item.vlrix).cost is None
                &&& self.vlr(item.vlrix).frags.len() == 1
                &&& frag.first.iix == frag.last.iix
                &&& (frag.first.pt, frag.last.pt) == item.kind.spec_points()
            }
    }

    /// Some range of concern for `vreg` has a fragment that is live at both of the given points.
    pub open spec fn has_frag(
        self,
        hand: Option<VirtualRangeIx>,
        vreg: VirtualReg,
        p: int,
        q: int,
    ) -> bool {
        exists|x: VirtualRangeIx, i: int| #[trigger]
            self.owns(hand, x, i) && self.vlr(x).vreg == vreg && self.frag_at(x, i).covers(p)
                && self.frag_at(x, i).covers(q)
    }

    /// Where an instruction mentions `vreg`, there is a fragment for it: one that is live where it
    /// is read, one that is live where it is written, and one that is live at both points where
    /// it is modified.
    pub open spec fn serves(
        self,
        hand: Option<VirtualRangeIx>,
        uses: RegUses,
        vreg: VirtualReg,
        k: int,
    ) -> bool {
        let u = point_rank(k, Point::Use);
        let d = point_rank(k, Point::Def);
        &&& uses.used.contains(Reg::Virtual(vreg)) ==> self.has_frag(hand, vreg, u, u)
        &&& uses.defined.contains(Reg::Virtual(vreg)) ==> self.has_frag(hand, vreg, d, d)
        &&& uses.modified.contains(Reg::Virtual(vreg)) ==> self.has_frag(hand, vreg, u, d)
    }

    /// Every mention of a virtual register is served, and no two fragments for one virtual
    /// register are live at the same point.
    pub open spec fn code_ok<I>(self, setting: Setting<I>, hand: Option<VirtualRangeIx>) -> bool {
        &&& self.served(setting, hand)
        &&& self.apart(hand)
    }

    /// Every mention of a virtual register is served.
    pub open spec fn served<I>(self, setting: Setting<I>, hand: Option<VirtualRangeIx>) -> bool {
        forall|vreg: VirtualReg, k: int|
            0 <= k < setting.func.insns.len() ==> #[trigger] self.serves(
                hand,
                (setting.im.regs)(setting.func.insns[k]),
                vreg,
                k,
            )
    }

    /// No two fragments for one virtual register are live at the same point.
    pub open spec fn apart(self, hand: Option<VirtualRangeIx>) -> bool {
        forall|x: VirtualRangeIx, i: int, y: VirtualRangeIx, j: int| #[trigger]
            self.owns(hand, x, i) && #[trigger] self.owns(hand, y, j) && self.vlr(x).vreg
                == self.vlr(y).vreg && (x != y || i != j) ==> self.frag_at(x, i).disjoint(
                self.frag_at(y, j),
            )
    }

    /// All of this module, for a state in which `hand` has left the queue and is not placed yet.
    pub open spec fn inv<I>(
        self,
        setting: Setting<I>,
        fixed: Seq<Set<RangeFragIx>>,
        hand: Option<VirtualRangeIx>,
    ) -> bool {
        &&& self.homes_ok(setting, hand)
        &&& self.vlrs_ok(setting)
        &&& self.regs_ok(fixed)
        &&& self.edits_ok(setting)
        &&& self.code_ok(setting, hand)
    }
}

// ---- Sequences

/// What is in a sequence of distinct values after one of them is removed.
pub proof fn lemma_swap_removed<T>(s: Seq<T>, i: int)
    requires
        s.no_duplicates(),
        0 <= i < s.len(),
    ensures
        swap_removed(s, i).no_duplicates(),
        forall|x: T| #[trigger] swap_removed(s, i).contains(x) <==> s.contains(x) && x != s[i],
{
    let r = swap_removed(s, i);
    let n = s.len() - 1;
    assert forall|x: T| #[trigger] r.contains(x) <==> s.contains(x) && x != s[i] by {
        if r.contains(x) {
            let j = choose|j: int| 0 <= j < r.len() && r[j] == x;
            if j == i {
                assert(s[n] == x);
            } else {
                assert(s[j] == x);
            }
        }
        if s.contains(x) && x != s[i] {
            let j = choose|j: int| 0 <= j < s.len() && s[j] == x;
            if j == n {
                assert(r[i] == x);
            } else {
                assert(r[j] == x);
            }
        }
    }
}

/// The value that is first removed is at some first position.
pub proof fn lemma_first_exists<T>(s: Seq<T>, x: T) -> (i: int)
    requires
        s.contains(x),
    ensures
        is_first_of(s, x, i),
    decreases s.len(),
{
    if s.drop_last().contains(x) {
        let i = lemma_first_exists(s.drop_last(), x);
        assert forall|j: int| 0 <= j < i implies #[trigger] s[j] != x by {
            assert(s.drop_last()[j] == s[j]);
        }
        i
    } else {
        let i = s.len() - 1;
        let k = choose|k: int| 0 <= k < s.len() && s[k] == x;
        if k < i {
            assert(s.drop_last()[k] == x);
        }
        assert forall|j: int| 0 <= j < i implies #[trigger] s[j] != x by {
            if s[j] == x {
                assert(s.drop_last()[j] == x);
            }
        }
        i
    }
}

/// What is in a sequence of distinct values after a given one is removed.
pub proof fn lemma_first_removed_members<T>(s: Seq<T>, v: T)
    requires
        s.no_duplicates(),
        s.contains(v),
    ensures
        first_removed(s, v).no_duplicates(),
        forall|x: T| #[trigger] first_removed(s, v).contains(x) <==> s.contains(x) && x != v,
{
    let i = lemma_first_exists(s, v);
    lemma_first_removed(s, v, i);
    lemma_swap_removed(s, i);
}

/// What is in a sequence after a value is added at the end.
pub proof fn lemma_pushed_members<T>(s: Seq<T>, v: T)
    ensures
        forall|x: T| #[trigger] s.push(v).contains(x) <==> s.contains(x) || x == v,
        s.no_duplicates() && !s.contains(v) ==> s.push(v).no_duplicates(),
{
    assert forall|x: T| #[trigger] s.push(v).contains(x) <==> s.contains(x) || x == v by {
        if s.push(v).contains(x) {
            let j = choose|j: int| 0 <= j < s.push(v).len() && s.push(v)[j] == x;
            if j < s.len() {
                assert(s[j] == x);
            }
        }
        if s.contains(x) {
            let j = choose|j: int| 0 <= j < s.len() && s[j] == x;
            assert(s.push(v)[j] == x);
        }
        if x == v {
            assert(s.push(v)[s.len() as int] == x);
        }
    }
    if s.no_duplicates() && !s.contains(v) {
        assert forall|i: int, j: int|
            0 <= i < s.push(v).len() && 0 <= j < s.push(v).len() && i != j implies s.push(v)[i]
            != s.push(v)[j] by {
            if i < s.len() {
                assert(s.contains(s[i]));
            }
            if j < s.len() {
                assert(s.contains(s[j]));
            }
        }
    }
}

// ---- Turns without spilling

/// Two states, each with what is in hand, agree on which ranges are of concern and what they are.
pub open spec fn same_code(
    a: AllocState,
    ha: Option<VirtualRangeIx>,
    b: AllocState,
    hb: Option<VirtualRangeIx>,
) -> bool {
    &&& a.frags == b.frags
    &&& a.edits == b.edits
    &&& a.vlrs.len() == b.vlrs.len()
    &&& forall|x: VirtualRangeIx| #[trigger] a.live(ha, x) <==> #[trigger] b.live(hb, x)
    &&& forall|x: VirtualRangeIx|
        x.pos() < a.vlrs.len() ==> {
            &&& (#[trigger] a.vlr(x)).vreg == (#[trigger] b.vlr(x)).vreg
            &&& a.vlr(x).frags == b.vlr(x).frags
            &&& a.vlr(x).size == b.vlr(x).size
            &&& a.vlr(x).cost == b.vlr(x).cost
        }
}

/// States that agree on the ranges of concern agree on what holds of them.
pub proof fn lemma_same_code<I>(
    setting: Setting<I>,
    a: AllocState,
    ha: Option<VirtualRangeIx>,
    b: AllocState,
    hb: Option<VirtualRangeIx>,
)
    requires
        same_code(a, ha, b, hb),
        a.homes_ok(setting, ha),
        a.vlrs_ok(setting),
        a.edits_ok(setting),
        a.code_ok(setting, ha),
    ensures
        b.vlrs_ok(setting),
        b.edits_ok(setting),
        b.code_ok(setting, hb),
{
    assert forall|x: VirtualRangeIx| a.live(ha, x) implies x.pos() < a.vlrs.len() by {
        if exists|i: int| a.at_reg(x, i) {
            let i = choose|i: int| a.at_reg(x, i);
        }
    }
    assert(b.vlrs_ok(setting)) by {
        assert forall|x: VirtualRangeIx| x.pos() < b.vlrs.len() implies vlr_ok(
            setting,
            b.frags,
            #[trigger] b.vlr(x),
        ) by {
            assert(vlr_ok(setting, a.frags, a.vlr(x)));
        }
    }
    assert(b.edits_ok(setting)) by {
        assert forall|e: int| 0 <= e < b.edits.len() implies {
            let item = #[trigger] b.edits[e];
            let frag = b.frag_at(item.vlrix, 0);
            &&& item.vlrix.pos() < b.vlrs.len()
            &&& b.vlr(item.vlrix).cost is None
            &&& b.vlr(item.vlrix).frags.len() == 1
            &&& frag.first.iix == frag.last.iix
            &&& (frag.first.pt, frag.last.pt) == item.kind.spec_points()
        } by {
            let item = a.edits[e];
            assert(a.vlr(item.vlrix).frags == b.vlr(item.vlrix).frags);
        }
    }
    assert forall|x: VirtualRangeIx, i: int| #[trigger] b.owns(hb, x, i) <==> a.owns(ha, x, i) by {
        assert(a.live(ha, x) <==> b.live(hb, x));
        if a.live(ha, x) {
            assert(a.vlr(x).frags == b.vlr(x).frags);
        }
    }
    assert(b.served(setting, hb)) by {
        assert forall|vreg: VirtualReg, p: int, q: int| a.has_frag(
            ha,
            vreg,
            p,
            q,
        ) implies #[trigger] b.has_frag(hb, vreg, p, q) by {
            let (x, i) = choose|x: VirtualRangeIx, i: int| #[trigger]
                a.owns(ha, x, i) && a.vlr(x).vreg == vreg && a.frag_at(x, i).covers(p)
                    && a.frag_at(x, i).covers(q);
            assert(b.owns(hb, x, i));
            assert(a.vlr(x).frags == b.vlr(x).frags);
        }
        assert forall|vreg: VirtualReg, k: int|
            0 <= k < setting.func.insns.len() implies #[trigger] b.serves(
            hb,
            (setting.im.regs)(setting.func.insns[k]),
            vreg,
            k,
        ) by {
            assert(a.serves(ha, (setting.im.regs)(setting.func.insns[k]), vreg, k));
        }
    }
    assert(b.apart(hb)) by {
        assert forall|x: VirtualRangeIx, i: int, y: VirtualRangeIx, j: int| #[trigger]
            b.owns(hb, x, i) && #[trigger] b.owns(hb, y, j) && b.vlr(x).vreg == b.vlr(y).vreg && (x
                != y || i != j) implies b.frag_at(x, i).disjoint(b.frag_at(y, j)) by {
            assert(a.owns(ha, x, i) && a.owns(ha, y, j));
            assert(a.vlr(x).frags == b.vlr(x).frags);
            assert(a.vlr(y).frags == b.vlr(y).frags);
        }
    }
}

/// Taking an entry from the queue keeps the invariant.
pub proof fn lemma_taken<I>(
    setting: Setting<I>,
    fixed: Seq<Set<RangeFragIx>>,
    st: AllocState,
    q: int,
)
    requires
        st.inv(setting, fixed, None),
        0 <= q < st.queue.len(),
    ensures
        st.taken(q).inv(setting, fixed, Some(st.queue[q])),
        same_code(st, None, st.taken(q), Some(st.queue[q])),
{
    let x0 = st.queue[q];
    let b = st.taken(q);
    lemma_swap_removed(st.queue, q);
    assert(st.queue.contains(x0));
    assert forall|x: VirtualRangeIx, i: int| #[trigger] b.at_reg(x, i) <==> st.at_reg(x, i) by {}
    assert forall|x: VirtualRangeIx| #[trigger] st.live(None, x) <==> #[trigger] b.live(
        Some(x0),
        x,
    ) by {
        if st.live(None, x) && !st.queue.contains(x) {
            let i = choose|i: int| st.at_reg(x, i);
            assert(b.at_reg(x, i));
        }
        if b.live(Some(x0), x) && !b.queue.contains(x) && x != x0 {
            let i = choose|i: int| b.at_reg(x, i);
            assert(st.at_reg(x, i));
        }
    }
    assert(same_code(st, None, b, Some(x0)));
    lemma_same_code(setting, st, None, b, Some(x0));
    assert(b.homes_ok(setting, Some(x0))) by {
        assert forall|x: VirtualRangeIx| x.pos() < b.vlrs.len() && b.vlr(x).cost is None implies
            #[trigger] b.live(Some(x0), x) by {
            assert(st.vlr(x) == b.vlr(x));
            assert(st.live(None, x));
        }
    }
    assert(b.regs_ok(fixed)) by {
        assert forall|i: int, f: RangeFragIx| b.held_by_vlr(i, f) <==> st.held_by_vlr(i, f) by {
            if b.held_by_vlr(i, f) {
                let x = choose|x: VirtualRangeIx| #[trigger]
                    b.at_reg(x, i) && b.vlr(x).frags.contains(f);
                assert(st.at_reg(x, i) && st.vlr(x).frags.contains(f));
            }
            if st.held_by_vlr(i, f) {
                let x = choose|x: VirtualRangeIx| #[trigger]
                    st.at_reg(x, i) && st.vlr(x).frags.contains(f);
                assert(b.at_reg(x, i) && b.vlr(x).frags.contains(f));
            }
        }
    }
}

/// Placing the range in hand where there is room for it keeps the invariant.
pub proof fn lemma_placed<I>(
    setting: Setting<I>,
    fixed: Seq<Set<RangeFragIx>>,
    st: AllocState,
    x0: VirtualRangeIx,
    i0: int,
)
    requires
        st.inv(setting, fixed, Some(x0)),
        0 <= i0 < st.regs.len(),
        st.regs[i0].fits(st.vlr(x0), st.frags),
    ensures
        st.placed(x0, i0, setting.universe.reg_seq()[i0]).inv(setting, fixed, None),
        same_code(st, Some(x0), st.placed(x0, i0, setting.universe.reg_seq()[i0]), None),
{
    let b = st.placed(x0, i0, setting.universe.reg_seq()[i0]);
    lemma_pushed_members(st.regs[i0].assigned, x0);
    assert(!st.at_reg(x0, i0));
    assert forall|x: VirtualRangeIx, i: int| #[trigger] b.at_reg(x, i) <==> st.at_reg(x, i) || (x
        == x0 && i == i0) by {
        if i == i0 {
            assert(b.regs[i].assigned == st.regs[i].assigned.push(x0));
        }
    }
    assert forall|x: VirtualRangeIx| x.pos() < st.vlrs.len() implies {
        &&& (#[trigger] st.vlr(x)).vreg == (#[trigger] b.vlr(x)).vreg
        &&& st.vlr(x).frags == b.vlr(x).frags
        &&& st.vlr(x).size == b.vlr(x).size
        &&& st.vlr(x).cost == b.vlr(x).cost
        &&& x != x0 ==> st.vlr(x) == b.vlr(x)
    } by {}
    assert forall|x: VirtualRangeIx| #[trigger] st.live(Some(x0), x) <==> #[trigger] b.live(
        None,
        x,
    ) by {
        if st.live(Some(x0), x) && !st.queue.contains(x) {
            if x == x0 {
                assert(b.at_reg(x, i0));
            } else {
                let i = choose|i: int| st.at_reg(x, i);
                assert(b.at_reg(x, i));
            }
        }
        if b.live(None, x) && !b.queue.contains(x) && x != x0 {
            let i = choose|i: int| b.at_reg(x, i);
            assert(st.at_reg(x, i));
        }
    }
    assert(same_code(st, Some(x0), b, None));
    lemma_same_code(setting, st, Some(x0), b, None);
    assert(b.homes_ok(setting, None)) by {
        assert forall|i: int| 0 <= i < b.regs.len() implies (
        #[trigger] b.regs[i]).assigned.no_duplicates() by {
            assert(st.regs[i].assigned.no_duplicates());
        }
        assert forall|x: VirtualRangeIx, i: int, j: int| #[trigger]
            b.at_reg(x, i) && #[trigger] b.at_reg(x, j) implies i == j by {
            assert(!st.at_reg(x0, i) && !st.at_reg(x0, j));
        }
        assert forall|x: VirtualRangeIx| x.pos() < b.vlrs.len() && b.vlr(x).cost is None implies
            #[trigger] b.live(None, x) by {
            assert(st.vlr(x).cost is None);
            assert(st.live(Some(x0), x));
        }
    }
    assert(b.regs_ok(fixed)) by {
        lemma_placed_regs(setting, fixed, st, x0, i0);
    }
}

proof fn lemma_placed_regs<I>(
    setting: Setting<I>,
    fixed: Seq<Set<RangeFragIx>>,
    st: AllocState,
    x0: VirtualRangeIx,
    i0: int,
)
    requires
        st.inv(setting, fixed, Some(x0)),
        0 <= i0 < st.regs.len(),
        st.regs[i0].fits(st.vlr(x0), st.frags),
    ensures
        st.placed(x0, i0, setting.universe.reg_seq()[i0]).regs_ok(fixed),
{
    let b = st.placed(x0, i0, setting.universe.reg_seq()[i0]);
    let new = st.vlr(x0).frags;
    lemma_pushed_members(st.regs[i0].assigned, x0);
    assert(!st.at_reg(x0, i0));
    assert forall|x: VirtualRangeIx, i: int| #[trigger] b.at_reg(x, i) <==> st.at_reg(x, i) || (x
        == x0 && i == i0) by {
        if i == i0 {
            assert(b.regs[i].assigned == st.regs[i].assigned.push(x0));
        }
    }
    assert forall|x: VirtualRangeIx| x.pos() < st.vlrs.len() implies (#[trigger] b.vlr(x)).frags
        == st.vlr(x).frags by {}
    assert(vlr_ok(setting, st.frags, st.vlr(x0)));
    // What is new shares no point with what was there, so it was not there.
    assert forall|f: RangeFragIx, g: RangeFragIx|
        st.regs[i0].frags.contains(f) && #[trigger] new.contains(g) implies #[trigger] st.frags[f.pos()].disjoint(
        st.frags[g.pos()],
    ) && f != g by {
        let j = choose|j: int| 0 <= j < new.len() && new[j] == g;
        assert(st.frags[f.pos()].disjoint(st.frags[new[j].pos()]));
        assert(st.frags[new[j].pos()].wf());
    }
    assert forall|x: VirtualRangeIx, i: int, f: RangeFragIx| #[trigger]
        st.at_reg(x, i) && #[trigger] st.vlr(x).frags.contains(f) implies st.regs[i].frags.contains(
        f,
    ) by {
        assert(st.held_by_vlr(i, f));
    }
    assert forall|i: int, f: RangeFragIx| 0 <= i < b.regs.len() implies (
    #[trigger] b.regs[i].frags.contains(f) <==> {
        ||| fixed[i].contains(f)
        ||| b.held_by_vlr(i, f)
    }) by {
        assert(st.regs[i].frags.contains(f) <==> fixed[i].contains(f) || st.held_by_vlr(i, f));
        if b.regs[i].frags.contains(f) {
            if st.regs[i].frags.contains(f) {
                if st.held_by_vlr(i, f) {
                    let x = choose|x: VirtualRangeIx| #[trigger]
                        st.at_reg(x, i) && st.vlr(x).frags.contains(f);
                    assert(b.at_reg(x, i) && b.vlr(x).frags.contains(f));
                }
            } else {
                assert(i == i0 && new.to_set().contains(f));
                assert(b.at_reg(x0, i) && b.vlr(x0).frags.contains(f));
            }
        }
        if b.held_by_vlr(i, f) {
            let x = choose|x: VirtualRangeIx| #[trigger]
                b.at_reg(x, i) && b.vlr(x).frags.contains(f);
            if st.at_reg(x, i) {
                assert(st.vlr(x).frags.contains(f));
                assert(st.regs[i].frags.contains(f));
            } else {
                assert(new.to_set().contains(f));
            }
        }
    }
    assert forall|i: int, f: RangeFragIx|
        0 <= i < b.regs.len() && #[trigger] b.regs[i].frags.contains(f) implies f.pos()
        < b.frags.len() && b.frags[f.pos()].wf() by {
        if !st.regs[i].frags.contains(f) {
            assert(new.to_set().contains(f));
            let j = choose|j: int| 0 <= j < new.len() && new[j] == f;
            assert(new[j].pos() < st.frags.len());
        }
    }
    assert forall|i: int, f: RangeFragIx, g: RangeFragIx|
        0 <= i < b.regs.len() && #[trigger] b.regs[i].frags.contains(f)
            && #[trigger] b.regs[i].frags.contains(g) && f != g implies b.frags[f.pos()].disjoint(
        b.frags[g.pos()],
    ) by {
        let old_f = st.regs[i].frags.contains(f);
        let old_g = st.regs[i].frags.contains(g);
        if old_f && old_g {
        } else if old_f {
            assert(new.to_set().contains(g));
            assert(new.contains(g));
            assert(st.frags[f.pos()].disjoint(st.frags[g.pos()]));
        } else if old_g {
            assert(new.to_set().contains(f));
            assert(new.contains(f));
            assert(st.frags[g.pos()].disjoint(st.frags[f.pos()]));
        } else {
            assert(new.to_set().contains(f));
            assert(new.to_set().contains(g));
            let j = choose|j: int| 0 <= j < new.len() && new[j] == f;
            let k = choose|k: int| 0 <= k < new.len() && new[k] == g;
            if j < k {
                assert(st.frags[new[j].pos()].before(st.frags[new[k].pos()]));
            } else {
                assert(st.frags[new[k].pos()].before(st.frags[new[j].pos()]));
            }
        }
    }
    assert forall|x: VirtualRangeIx, i: int, f: RangeFragIx| #[trigger]
        b.at_reg(x, i) && #[trigger] fixed[i].contains(f) implies !b.vlr(x).frags.contains(f) by {
        assert(st.regs[i].frags.contains(f));
        if !st.at_reg(x, i) {
            if new.contains(f) {
                assert(st.frags[f.pos()].disjoint(st.frags[f.pos()]));
            }
        } else {
            assert(!st.vlr(x).frags.contains(f));
        }
    }
    assert forall|x: VirtualRangeIx, y: VirtualRangeIx, i: int, f: RangeFragIx|
        #![trigger b.at_reg(x, i), b.at_reg(y, i), b.vlr(x).frags.contains(f)]
        b.at_reg(x, i) && b.at_reg(y, i) && x != y && b.vlr(x).frags.contains(f) implies !b.vlr(
        y,
    ).frags.contains(f) by {
        if st.at_reg(x, i) && st.at_reg(y, i) {
            assert(st.vlr(x).frags.contains(f));
        } else if st.at_reg(x, i) {
            assert(st.vlr(x).frags.contains(f));
            assert(st.regs[i].frags.contains(f));
            if new.contains(f) {
                assert(st.frags[f.pos()].disjoint(st.frags[f.pos()]));
            }
        } else {
            assert(x == x0);
            assert(new.contains(f));
            if b.vlr(y).frags.contains(f) {
                assert(st.at_reg(y, i));
                assert(st.vlr(y).frags.contains(f));
                assert(st.regs[i].frags.contains(f));
                assert(st.frags[f.pos()].disjoint(st.frags[f.pos()]));
            }
        }
    }
}

/// Evicting a range keeps the invariant.
pub proof fn lemma_released<I>(
    setting: Setting<I>,
    fixed: Seq<Set<RangeFragIx>>,
    st: AllocState,
    hand: Option<VirtualRangeIx>,
    x0: VirtualRangeIx,
    i0: int,
)
    requires
        st.inv(setting, fixed, hand),
        st.at_reg(x0, i0),
    ensures
        st.released(x0, i0).inv(setting, fixed, hand),
        same_code(st, hand, st.released(x0, i0), hand),
{
    let b = st.released(x0, i0);
    lemma_pushed_members(st.queue, x0);
    lemma_first_removed_members(st.regs[i0].assigned, x0);
    assert forall|x: VirtualRangeIx, i: int| #[trigger] b.at_reg(x, i) <==> st.at_reg(x, i) && x
        != x0 by {
        if i == i0 {
            assert(b.regs[i].assigned == first_removed(st.regs[i].assigned, x0));
        } else if x == x0 && st.at_reg(x, i) {
            assert(st.at_reg(x0, i0));
        }
    }
    assert forall|x: VirtualRangeIx| x.pos() < st.vlrs.len() implies {
        &&& (#[trigger] st.vlr(x)).vreg == (#[trigger] b.vlr(x)).vreg
        &&& st.vlr(x).frags == b.vlr(x).frags
        &&& st.vlr(x).size == b.vlr(x).size
        &&& st.vlr(x).cost == b.vlr(x).cost
        &&& x != x0 ==> st.vlr(x) == b.vlr(x)
    } by {}
    assert forall|x: VirtualRangeIx| #[trigger] st.live(hand, x) <==> #[trigger] b.live(
        hand,
        x,
    ) by {
        if st.live(hand, x) && !b.queue.contains(x) && hand != Some(x) {
            let i = choose|i: int| st.at_reg(x, i);
            assert(b.at_reg(x, i));
        }
        if b.live(hand, x) && !st.queue.contains(x) && hand != Some(x) {
            if x == x0 {
                assert(st.at_reg(x, i0));
            } else {
                let i = choose|i: int| b.at_reg(x, i);
                assert(st.at_reg(x, i));
            }
        }
    }
    assert(same_code(st, hand, b, hand));
    lemma_same_code(setting, st, hand, b, hand);
    assert(b.homes_ok(setting, hand)) by {
        assert forall|i: int| 0 <= i < b.regs.len() implies (
        #[trigger] b.regs[i]).assigned.no_duplicates() by {
            assert(st.regs[i].assigned.no_duplicates());
        }
        assert forall|x: VirtualRangeIx, i: int, j: int| #[trigger]
            b.at_reg(x, i) && #[trigger] b.at_reg(x, j) implies i == j by {
            assert(st.at_reg(x, i) && st.at_reg(x, j));
        }
        assert forall|x: VirtualRangeIx| x.pos() < b.vlrs.len() && b.vlr(x).cost is None implies
            #[trigger] b.live(hand, x) by {
            assert(st.vlr(x).cost is None);
            assert(st.live(hand, x));
        }
    }
    assert(b.regs_ok(fixed)) by {
        lemma_released_regs(setting, fixed, st, hand, x0, i0);
    }
}

proof fn lemma_released_regs<I>(
    setting: Setting<I>,
    fixed: Seq<Set<RangeFragIx>>,
    st: AllocState,
    hand: Option<VirtualRangeIx>,
    x0: VirtualRangeIx,
    i0: int,
)
    requires
        st.inv(setting, fixed, hand),
        st.at_reg(x0, i0),
    ensures
        st.released(x0, i0).regs_ok(fixed),
{
    let b = st.released(x0, i0);
    let gone = st.vlr(x0).frags;
    lemma_first_removed_members(st.regs[i0].assigned, x0);
    assert forall|x: VirtualRangeIx, i: int| #[trigger] b.at_reg(x, i) <==> st.at_reg(x, i) && x
        != x0 by {
        if i == i0 {
            assert(b.regs[i].assigned == first_removed(st.regs[i].assigned, x0));
        } else if x == x0 && st.at_reg(x, i) {
            assert(st.at_reg(x0, i0));
        }
    }
    assert forall|x: VirtualRangeIx| x.pos() < st.vlrs.len() implies (#[trigger] b.vlr(x)).frags
        == st.vlr(x).frags by {}
    assert forall|i: int, f: RangeFragIx|
        0 <= i < b.regs.len() && #[trigger] b.regs[i].frags.contains(f) implies st.regs[i].frags.contains(
        f,
    ) by {}
    assert forall|i: int, f: RangeFragIx| 0 <= i < b.regs.len() implies (
    #[trigger] b.regs[i].frags.contains(f) <==> {
        ||| fixed[i].contains(f)
        ||| b.held_by_vlr(i, f)
    }) by {
        assert(st.regs[i].frags.contains(f) <==> fixed[i].contains(f) || st.held_by_vlr(i, f));
        if b.regs[i].frags.contains(f) && !fixed[i].contains(f) {
            let x = choose|x: VirtualRangeIx| #[trigger]
                st.at_reg(x, i) && st.vlr(x).frags.contains(f);
            if x == x0 {
                assert(i == i0);
                assert(gone.to_set().contains(f));
            }
            assert(b.at_reg(x, i) && b.vlr(x).frags.contains(f));
        }
        if fixed[i].contains(f) && i == i0 {
            assert(!gone.contains(f));
        }
        if b.held_by_vlr(i, f) {
            let x = choose|x: VirtualRangeIx| #[trigger]
                b.at_reg(x, i) && b.vlr(x).frags.contains(f);
            assert(st.at_reg(x, i) && st.vlr(x).frags.contains(f));
            assert(st.regs[i].frags.contains(f));
            if i == i0 {
                assert(!st.vlr(x0).frags.contains(f));
            }
        }
    }
    assert forall|i: int, f: RangeFragIx, g: RangeFragIx|
        0 <= i < b.regs.len() && #[trigger] b.regs[i].frags.contains(f)
            && #[trigger] b.regs[i].frags.contains(g) && f != g implies b.frags[f.pos()].disjoint(
        b.frags[g.pos()],
    ) by {
        assert(st.regs[i].frags.contains(f) && st.regs[i].frags.contains(g));
    }
    assert forall|x: VirtualRangeIx, i: int, f: RangeFragIx| #[trigger]
        b.at_reg(x, i) && #[trigger] fixed[i].contains(f) implies !b.vlr(x).frags.contains(f) by {
        assert(st.at_reg(x, i));
        assert(!st.vlr(x).frags.contains(f));
    }
    assert forall|x: VirtualRangeIx, y: VirtualRangeIx, i: int, f: RangeFragIx|
        #![trigger b.at_reg(x, i), b.at_reg(y, i), b.vlr(x).frags.contains(f)]
        b.at_reg(x, i) && b.at_reg(y, i) && x != y && b.vlr(x).frags.contains(f) implies !b.vlr(
        y,
    ).frags.contains(f) by {
        assert(st.at_reg(x, i) && st.at_reg(y, i));
        assert(st.vlr(x).frags.contains(f));
    }
}

} // verus!
