//! Which real register each virtual register is in, instruction by instruction.

use crate::frags::{point_at, InstPoint, Point, RangeFrag};
use crate::index::{InstIx, RangeFragIx, TypedIx, TypedIxVec};
use crate::regs::{RealReg, VirtualReg};
use crate::sort::{
    comes_before, is_group, is_stable_order, lemma_group_gap, lemma_order_len, stable_order,
};
use vstd::prelude::*;

verus! {

/// A partial map from virtual to real registers. At any one point only as many virtual registers
/// are mapped as there are real ones, so the entries are few.
#[derive(Debug)]
pub struct VregMap {
    entries: Vec<(VirtualReg, RealReg)>,
}

/// The map that a list of entries stands for: for each register, its latest entry.
pub open spec fn map_of(entries: Seq<(VirtualReg, RealReg)>) -> Map<VirtualReg, RealReg>
    decreases entries.len(),
{
    if entries.len() == 0 {
        Map::empty()
    } else {
        map_of(entries.drop_last()).insert(entries.last().0, entries.last().1)
    }
}

impl View for VregMap {
    type V = Map<VirtualReg, RealReg>;

    closed spec fn view(&self) -> Map<VirtualReg, RealReg> {
        map_of(self.entries@)
    }
}

impl VregMap {
    pub fn new() -> (r: Self)
        ensures
            r@ == Map::<VirtualReg, RealReg>::empty(),
    {
        VregMap { entries: Vec::new() }
    }

    /// The real register that `vreg` is mapped to.
    pub fn get(&self, vreg: VirtualReg) -> (r: Option<RealReg>)
        ensures
            r == (if self@.contains_key(vreg) {
                Some(self@[vreg])
            } else {
                None
            }),
    {
        let mut i: usize = self.entries.len();
        assert(self.entries@.take(i as int) =~= self.entries@);
        while i > 0
            invariant
                i <= self.entries@.len(),
                map_of(self.entries@.take(i as int)).contains_key(vreg) == self@.contains_key(vreg),
                self@.contains_key(vreg) ==> map_of(self.entries@.take(i as int))[vreg]
                    == self@[vreg],
            decreases i,
        {
            i -= 1;
            assert(self.entries@.take(i + 1).drop_last() =~= self.entries@.take(i as int));
            if self.entries[i].0 == vreg {
                return Some(self.entries[i].1);
            }
        }
        None
    }

    pub fn remove(&mut self, vreg: VirtualReg)
        ensures
            final(self)@ == old(self)@.remove(vreg),
    {
        let mut kept: Vec<(VirtualReg, RealReg)> = Vec::new();
        let mut i: usize = 0;
        assert(map_of(kept@) =~= map_of(self.entries@.take(0)).remove(vreg));
        while i < self.entries.len()
            invariant
                i <= self.entries@.len(),
                map_of(kept@) == map_of(self.entries@.take(i as int)).remove(vreg),
            decreases self.entries@.len() - i,
        {
            let entry = self.entries[i];
            assert(self.entries@.take(i + 1).drop_last() =~= self.entries@.take(i as int));
            let ghost before = kept@;
            if entry.0 != vreg {
                kept.push(entry);
                assert(kept@.drop_last() =~= before);
            }
            i += 1;
            assert(map_of(kept@) =~= map_of(self.entries@.take(i as int)).remove(vreg));
        }
        assert(self.entries@.take(i as int) =~= self.entries@);
        self.entries = kept;
    }

    pub fn insert(&mut self, vreg: VirtualReg, rreg: RealReg)
        ensures
            final(self)@ == old(self)@.insert(vreg, rreg),
    {
        self.remove(vreg);
        let ghost before = self.entries@;
        self.entries.push((vreg, rreg));
        assert(self.entries@.drop_last() =~= before);
        assert(self@ =~= old(self)@.insert(vreg, rreg));
    }
}

impl Clone for VregMap {
    fn clone(&self) -> (r: Self)
        ensures
            r@ == self@,
    {
        let mut entries: Vec<(VirtualReg, RealReg)> = Vec::new();
        let mut i: usize = 0;
        while i < self.entries.len()
            invariant
                i <= self.entries@.len(),
                entries@ == self.entries@.take(i as int),
            decreases self.entries@.len() - i,
        {
            entries.push(self.entries[i]);
            i += 1;
            assert(entries@ =~= self.entries@.take(i as int));
        }
        assert(entries@ =~= self.entries@);
        VregMap { entries }
    }
}

/// Fragments, each with the virtual register that is live there and the real register that holds
/// it.
pub type RangeAllocations = Vec<(RangeFragIx, VirtualReg, RealReg)>;

/// An end of a fragment.
#[derive(Clone, Copy, PartialEq, Eq, Structural, Debug)]
pub enum Edge {
    Start,
    End,
}

/// Where the given end of a fragment is.
pub open spec fn edge_point(frag: RangeFrag, edge: Edge) -> InstPoint {
    match edge {
        Edge::Start => frag.first,
        Edge::End => frag.last,
    }
}

/// The map `m` after the fragments that have the given end at point `p`, taken in the order of
/// `list`: one that starts there adds its mapping, one that ends there takes it away.
pub open spec fn pass_edges(
    m: Map<VirtualReg, RealReg>,
    list: Seq<(RangeFragIx, VirtualReg, RealReg)>,
    fenv: Seq<RangeFrag>,
    edge: Edge,
    p: InstPoint,
) -> Map<VirtualReg, RealReg>
    decreases list.len(),
{
    if list.len() == 0 {
        m
    } else {
        let before = pass_edges(m, list.drop_last(), fenv, edge, p);
        let e = list.last();
        if edge_point(fenv[e.0.pos()], edge) != p {
            before
        } else {
            match edge {
                Edge::Start => before.insert(e.1, e.2),
                Edge::End => before.remove(e.1),
            }
        }
    }
}

/// The maps that apply at one instruction.
#[verifier::ext_equal]
pub struct InsnMaps {
    /// For the registers that the instruction reads.
    pub uses: Map<VirtualReg, RealReg>,
    /// After what the instruction reads.
    pub after_use: Map<VirtualReg, RealReg>,
    /// For the registers that the instruction writes.
    pub defs: Map<VirtualReg, RealReg>,
    /// After what the instruction writes.
    pub after_def: Map<VirtualReg, RealReg>,
    /// After the instruction and its spills.
    pub after: Map<VirtualReg, RealReg>,
}

/// The maps at instruction `k`, where `m` is the map before it: fragments that start at its reload
/// or use point are in force for what it reads, those that end at the use point are not in force
/// any more for what it writes, while those that start at the def point are.
pub open spec fn maps_at(
    m: Map<VirtualReg, RealReg>,
    starts: Seq<(RangeFragIx, VirtualReg, RealReg)>,
    ends: Seq<(RangeFragIx, VirtualReg, RealReg)>,
    fenv: Seq<RangeFrag>,
    k: int,
) -> InsnMaps {
    let reloaded = pass_edges(m, starts, fenv, Edge::Start, point_at(k, Point::Reload));
    let uses = pass_edges(reloaded, starts, fenv, Edge::Start, point_at(k, Point::Use));
    let after_use = pass_edges(uses, ends, fenv, Edge::End, point_at(k, Point::Use));
    let defs = pass_edges(after_use, starts, fenv, Edge::Start, point_at(k, Point::Def));
    let after_def = pass_edges(defs, ends, fenv, Edge::End, point_at(k, Point::Def));
    let after = pass_edges(after_def, ends, fenv, Edge::End, point_at(k, Point::Spill));
    InsnMaps { uses, after_use, defs, after_def, after }
}

/// The map before instruction `k`.
pub open spec fn map_before(
    starts: Seq<(RangeFragIx, VirtualReg, RealReg)>,
    ends: Seq<(RangeFragIx, VirtualReg, RealReg)>,
    fenv: Seq<RangeFrag>,
    k: int,
) -> Map<VirtualReg, RealReg>
    decreases k, 0int,
{
    if k <= 0 {
        Map::empty()
    } else {
        insn_maps(starts, ends, fenv, k - 1).after
    }
}

/// The maps at instruction `k`.
pub open spec fn insn_maps(
    starts: Seq<(RangeFragIx, VirtualReg, RealReg)>,
    ends: Seq<(RangeFragIx, VirtualReg, RealReg)>,
    fenv: Seq<RangeFrag>,
    k: int,
) -> InsnMaps
    decreases k, 1int,
{
    maps_at(map_before(starts, ends, fenv, k), starts, ends, fenv, k)
}

/// All of the fragments in the list are in the environment.
pub open spec fn list_in_env(
    list: Seq<(RangeFragIx, VirtualReg, RealReg)>,
    fenv: Seq<RangeFrag>,
) -> bool {
    forall|i: int| 0 <= i < list.len() ==> (#[trigger] list[i]).0.pos() < fenv.len()
}

proof fn lemma_pass_edges_skip(
    m: Map<VirtualReg, RealReg>,
    list: Seq<(RangeFragIx, VirtualReg, RealReg)>,
    fenv: Seq<RangeFrag>,
    edge: Edge,
    p: InstPoint,
    a: int,
    b: int,
)
    requires
        0 <= a <= b <= list.len(),
        forall|i: int|
            a <= i < b ==> edge_point(fenv[(#[trigger] list[i]).0.pos()], edge) != p,
    ensures
        pass_edges(m, list.take(a), fenv, edge, p) == pass_edges(m, list.take(b), fenv, edge, p),
    decreases b - a,
{
    if a < b {
        assert(list.take(b).drop_last() =~= list.take(b - 1));
        assert(list.take(b).last() == list[b - 1]);
        lemma_pass_edges_skip(m, list, fenv, edge, p, a, b - 1);
    }
}

/// A list of fragments that is walked in the order in which the fragments start, or end.
struct FragCursor {
    entries: RangeAllocations,
    edge: Edge,
    keys: Vec<u64>,
    order: Vec<usize>,
    cursor: usize,
}

impl FragCursor {
    spec fn wf(self, fenv: Seq<RangeFrag>) -> bool {
        &&& list_in_env(self.entries@, fenv)
        &&& self.keys@.len() == self.entries@.len()
        &&& forall|i: int|
            0 <= i < self.entries@.len() ==> #[trigger] self.keys@[i] == edge_point(
                fenv[self.entries@[i].0.pos()],
                self.edge,
            ).iix.pos()
        &&& is_stable_order(self.keys@, self.order@)
        &&& self.order@.len() == self.keys@.len()
        &&& self.cursor <= self.order@.len()
    }

    /// What has been walked over belongs to instructions before `k`.
    spec fn ready_for(self, k: int) -> bool {
        forall|j: int|
            0 <= j < self.cursor ==> self.keys@[(#[trigger] self.order@[j]) as int] < k
    }

    /// From the cursor up to `end` stand the fragments of instruction `k`, all of them.
    spec fn group(self, k: int, end: int) -> bool {
        is_group(self.keys@, self.order@, k, self.cursor as int, end)
    }

    fn new(
        entries: RangeAllocations,
        edge: Edge,
        fenv: &TypedIxVec<RangeFragIx, RangeFrag>,
    ) -> (r: Self)
        requires
            list_in_env(entries@, fenv@),
        ensures
            r.wf(fenv@),
            r.entries@ == entries@,
            r.edge == edge,
            r.ready_for(0),
    {
        let mut keys: Vec<u64> = Vec::new();
        let mut i: usize = 0;
        while i < entries.len()
            invariant
                i <= entries@.len(),
                keys@.len() == i,
                list_in_env(entries@, fenv@),
                forall|j: int|
                    0 <= j < i ==> #[trigger] keys@[j] == edge_point(
                        fenv@[entries@[j].0.pos()],
                        edge,
                    ).iix.pos(),
            decreases entries@.len() - i,
        {
            let frag = fenv.at(entries[i].0);
            let iix = match edge {
                Edge::Start => frag.first.iix,
                Edge::End => frag.last.iix,
            };
            keys.push(iix.get() as u64);
            i += 1;
        }
        let order = stable_order(&keys);
        proof {
            lemma_order_len(keys@, order@);
        }
        FragCursor { entries, edge, keys, order, cursor: 0 }
    }

    /// Moves to the fragments of instruction `k`, and returns where they end.
    fn seek(&mut self, k: u32, fenv: Ghost<Seq<RangeFrag>>) -> (end: usize)
        requires
            old(self).wf(fenv@),
            old(self).ready_for(k as int),
        ensures
            final(self).wf(fenv@),
            final(self).entries == old(self).entries,
            final(self).edge == old(self).edge,
            final(self).group(k as int, end as int),
    {
        while self.cursor < self.order.len() && self.keys[self.order[self.cursor]] < k as u64
            invariant
                self.wf(fenv@),
                self.ready_for(k as int),
                self.entries == old(self).entries,
                self.edge == old(self).edge,
            decreases self.order@.len() - self.cursor,
        {
            self.cursor += 1;
        }
        let mut end: usize = self.cursor;
        while end < self.order.len() && self.keys[self.order[end]] == k as u64
            invariant
                self.wf(fenv@),
                self.ready_for(k as int),
                self.cursor <= end <= self.order@.len(),
                forall|j: int|
                    self.cursor <= j < end ==> self.keys@[(#[trigger] self.order@[j]) as int] == k,
            decreases self.order@.len() - end,
        {
            end += 1;
        }
        assert forall|j: int| end <= j < self.order@.len() implies self.keys@[(
        #[trigger] self.order@[j]) as int] > k by {
            if self.cursor < self.order@.len() {
                let c = self.order@[self.cursor as int];
                if j > self.cursor {
                    assert(comes_before(self.keys@, c as int, self.order@[j] as int));
                }
            }
            if j > end {
                assert(comes_before(
                    self.keys@,
                    self.order@[end as int] as int,
                    self.order@[j] as int,
                ));
            }
        }
        end
    }

    /// Fragments whose keys are not that of `p` have their end of interest elsewhere.
    proof fn lemma_keys(self, fenv: Seq<RangeFrag>, p: InstPoint, lo: int, hi: int)
        requires
            self.wf(fenv),
            0 <= lo <= hi <= self.entries@.len(),
            forall|i: int| lo <= i < hi ==> #[trigger] self.keys@[i] != p.iix.pos(),
        ensures
            forall|i: int|
                lo <= i < hi ==> edge_point(
                    fenv[(#[trigger] self.entries@[i]).0.pos()],
                    self.edge,
                ) != p,
    {
        assert forall|i: int| lo <= i < hi implies edge_point(
            fenv[(#[trigger] self.entries@[i]).0.pos()],
            self.edge,
        ) != p by {
            assert(self.keys@[i] != p.iix.pos());
        }
    }

    /// Applies the fragments whose end of interest is at `p`.
    fn pass(
        &self,
        end: usize,
        p: InstPoint,
        fenv: &TypedIxVec<RangeFragIx, RangeFrag>,
        map: &mut VregMap,
    )
        requires
            self.wf(fenv@),
            self.group(p.iix.pos(), end as int),
        ensures
            final(map)@ == pass_edges(old(map)@, self.entries@, fenv@, self.edge, p),
    {
        assert(self.keys.len() == self.keys@.len());
        let ghost m0 = map@;
        let ghost list = self.entries@;
        let ghost mut upto: int = 0;
        let mut j: usize = self.cursor;
        assert(list.take(0) =~= Seq::empty());
        while j < end
            invariant
                self.keys.len() == self.keys@.len(),
                self.wf(fenv@),
                self.group(p.iix.pos(), end as int),
                self.cursor <= j <= end,
                list == self.entries@,
                0 <= upto <= list.len(),
                upto == (if j == self.cursor {
                    0
                } else {
                    self.order@[j - 1] + 1
                }),
                map@ == pass_edges(m0, list.take(upto), fenv@, self.edge, p),
            decreases end - j,
        {
            let x = self.order[j];
            proof {
                lemma_group_gap(
                    self.keys@,
                    self.order@,
                    p.iix.pos(),
                    self.cursor as int,
                    end as int,
                    j as int,
                    upto,
                    x as int,
                );
                self.lemma_keys(fenv@, p, upto, x as int);
                lemma_pass_edges_skip(m0, list, fenv@, self.edge, p, upto, x as int);
                assert(list.take(x + 1).drop_last() =~= list.take(x as int));
                assert(list.take(x + 1).last() == list[x as int]);
            }
            let entry = self.entries[x];
            let frag = fenv.at(entry.0);
            match self.edge {
                Edge::Start => {
                    if frag.first == p {
                        map.insert(entry.1, entry.2);
                    }
                },
                Edge::End => {
                    if frag.last == p {
                        map.remove(entry.1);
                    }
                },
            }
            proof {
                upto = x + 1;
            }
            j += 1;
        }
        proof {
            lemma_group_gap(
                self.keys@,
                self.order@,
                p.iix.pos(),
                self.cursor as int,
                end as int,
                end as int,
                upto,
                list.len() as int,
            );
            self.lemma_keys(fenv@, p, upto, list.len() as int);
            lemma_pass_edges_skip(m0, list, fenv@, self.edge, p, upto, list.len() as int);
            assert(list.take(list.len() as int) =~= list);
        }
    }
}

/// Follows the register assignments through the instructions of a function.
pub struct MapReplay {
    starts: FragCursor,
    ends: FragCursor,
    map: VregMap,
}

impl MapReplay {
    /// The fragments whose starts are followed.
    pub closed spec fn start_list(self) -> Seq<(RangeFragIx, VirtualReg, RealReg)> {
        self.starts.entries@
    }

    /// The fragments whose ends are followed.
    pub closed spec fn end_list(self) -> Seq<(RangeFragIx, VirtualReg, RealReg)> {
        self.ends.entries@
    }

    /// The fragments of instructions before `k` have been followed.
    spec fn is_at(self, fenv: Seq<RangeFrag>, k: int) -> bool {
        &&& self.starts.wf(fenv)
        &&& self.ends.wf(fenv)
        &&& self.starts.edge is Start
        &&& self.ends.edge is End
        &&& self.starts.ready_for(k)
        &&& self.ends.ready_for(k)
    }

    /// The instruction that comes next is `k`.
    pub closed spec fn next_is(self, fenv: Seq<RangeFrag>, k: int) -> bool {
        self.is_at(fenv, k) && self.map@ == map_before(
            self.start_list(),
            self.end_list(),
            fenv,
            k,
        )
    }

    /// Starts before the first instruction. `starts` and `ends` list the fragments whose starts,
    /// and whose ends, are to be followed.
    pub fn new(
        starts: RangeAllocations,
        ends: RangeAllocations,
        fenv: &TypedIxVec<RangeFragIx, RangeFrag>,
    ) -> (r: Self)
        requires
            list_in_env(starts@, fenv@),
            list_in_env(ends@, fenv@),
        ensures
            r.next_is(fenv@, 0),
            r.start_list() == starts@,
            r.end_list() == ends@,
    {
        MapReplay {
            starts: FragCursor::new(starts, Edge::Start, fenv),
            ends: FragCursor::new(ends, Edge::End, fenv),
            map: VregMap::new(),
        }
    }

    /// Instruction `k` is under way: it has read what it reads, and not yet written anything.
    pub closed spec fn has_used(self, fenv: Seq<RangeFrag>, k: int) -> bool {
        self.is_at(fenv, k) && self.map@ == insn_maps(
            self.start_list(),
            self.end_list(),
            fenv,
            k,
        ).after_use
    }

    /// Instruction `k` is under way: it has written what it writes, which has not been spilled.
    pub closed spec fn has_defined(self, fenv: Seq<RangeFrag>, k: int) -> bool {
        self.is_at(fenv, k) && self.map@ == insn_maps(
            self.start_list(),
            self.end_list(),
            fenv,
            k,
        ).after_def
    }

    /// The map as it stands.
    pub fn current(&self) -> (r: &VregMap)
        ensures
            forall|fenv: Seq<RangeFrag>, k: int| #[trigger]
                self.next_is(fenv, k) ==> r@ == map_before(
                    self.start_list(),
                    self.end_list(),
                    fenv,
                    k,
                ),
            forall|fenv: Seq<RangeFrag>, k: int| #[trigger]
                self.has_used(fenv, k) ==> r@ == insn_maps(
                    self.start_list(),
                    self.end_list(),
                    fenv,
                    k,
                ).after_use,
            forall|fenv: Seq<RangeFrag>, k: int| #[trigger]
                self.has_defined(fenv, k) ==> r@ == insn_maps(
                    self.start_list(),
                    self.end_list(),
                    fenv,
                    k,
                ).after_def,
    {
        &self.map
    }

    /// Takes instruction `iix` past its use point, and returns the map for what it reads.
    pub fn pass_use(
        &mut self,
        iix: InstIx,
        fenv: &TypedIxVec<RangeFragIx, RangeFrag>,
    ) -> (r: VregMap)
        requires
            old(self).next_is(fenv@, iix.pos()),
        ensures
            final(self).has_used(fenv@, iix.pos()),
            final(self).start_list() == old(self).start_list(),
            final(self).end_list() == old(self).end_list(),
            r@ == insn_maps(
                old(self).start_list(),
                old(self).end_list(),
                fenv@,
                iix.pos(),
            ).uses,
    {
        let starts_end = self.starts.seek(iix.get(), Ghost(fenv@));
        let ends_end = self.ends.seek(iix.get(), Ghost(fenv@));
        self.starts.pass(starts_end, InstPoint::new_reload(iix), fenv, &mut self.map);
        self.starts.pass(starts_end, InstPoint::new_use(iix), fenv, &mut self.map);
        let map_uses = self.map.clone();
        self.ends.pass(ends_end, InstPoint::new_use(iix), fenv, &mut self.map);
        map_uses
    }

    /// Takes instruction `iix` past its def point, and returns the map for what it writes.
    pub fn pass_def(
        &mut self,
        iix: InstIx,
        fenv: &TypedIxVec<RangeFragIx, RangeFrag>,
    ) -> (r: VregMap)
        requires
            old(self).has_used(fenv@, iix.pos()),
        ensures
            final(self).has_defined(fenv@, iix.pos()),
            final(self).start_list() == old(self).start_list(),
            final(self).end_list() == old(self).end_list(),
            r@ == insn_maps(
                old(self).start_list(),
                old(self).end_list(),
                fenv@,
                iix.pos(),
            ).defs,
    {
        let starts_end = self.starts.seek(iix.get(), Ghost(fenv@));
        let ends_end = self.ends.seek(iix.get(), Ghost(fenv@));
        self.starts.pass(starts_end, InstPoint::new_def(iix), fenv, &mut self.map);
        let map_defs = self.map.clone();
        self.ends.pass(ends_end, InstPoint::new_def(iix), fenv, &mut self.map);
        map_defs
    }

    /// Takes instruction `iix` past its spill point, and goes on to the next one.
    pub fn pass_spill(&mut self, iix: InstIx, fenv: &TypedIxVec<RangeFragIx, RangeFrag>)
        requires
            old(self).has_defined(fenv@, iix.pos()),
        ensures
            final(self).next_is(fenv@, iix.pos() + 1),
            final(self).start_list() == old(self).start_list(),
            final(self).end_list() == old(self).end_list(),
    {
        let starts_end = self.starts.seek(iix.get(), Ghost(fenv@));
        let ends_end = self.ends.seek(iix.get(), Ghost(fenv@));
        self.ends.pass(ends_end, InstPoint::new_spill(iix), fenv, &mut self.map);
        self.starts.cursor = starts_end;
        self.ends.cursor = ends_end;
    }

    /// The maps for what instruction `iix` reads and for what it writes.
    pub fn step(
        &mut self,
        iix: InstIx,
        fenv: &TypedIxVec<RangeFragIx, RangeFrag>,
    ) -> (r: (VregMap, VregMap))
        requires
            old(self).next_is(fenv@, iix.pos()),
        ensures
            final(self).next_is(fenv@, iix.pos() + 1),
            final(self).start_list() == old(self).start_list(),
            final(self).end_list() == old(self).end_list(),
            r.0@ == insn_maps(
                old(self).start_list(),
                old(self).end_list(),
                fenv@,
                iix.pos(),
            ).uses,
            r.1@ == insn_maps(
                old(self).start_list(),
                old(self).end_list(),
                fenv@,
                iix.pos(),
            ).defs,
    {
        let map_uses = self.pass_use(iix, fenv);
        let map_defs = self.pass_def(iix, fenv);
        self.pass_spill(iix, fenv);
        (map_uses, map_defs)
    }
}

} // verus!
