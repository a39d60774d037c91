//! What can be relied on of a stream with instructions spliced in.

use crate::frags::{point_at, InstPoint, Point};
use crate::index::{BlockIx, InstIx, TypedIx, TypedIxVec};
use crate::inst_stream::{is_interleaved, made_items, InstToInsert, InstToInsertAndPoint};
use crate::interface::FuncModel;
use crate::plain::point;
use crate::stream::{block_targets, insts_at, invalid_run, items_placed, spliced, spliced_from};
use vstd::prelude::*;

verus! {

/// How many of the items are for instructions before `k`.
pub open spec fn items_before<I>(items: Seq<(InstPoint, I)>, k: int) -> int {
    items.filter(|item: (InstPoint, I)| item.0.iix.ix < k).len() as int
}

/// The items that are for the point, in the order in which they are given.
pub open spec fn items_for<I>(items: Seq<(InstPoint, I)>, p: InstPoint) -> Seq<I> {
    items.filter(|item: (InstPoint, I)| item.0 == p).map_values(|item: (InstPoint, I)| item.1)
}

/// Where instruction `k` of the source belongs: behind the instructions before it, the items for
/// these, and its own reloads.
pub open spec fn place_in_outcome<I>(items: Seq<(InstPoint, I)>, k: int) -> int {
    k + items_before(items, k) + items_for(items, point(k, Point::Reload)).len()
}

/// The instructions of `part` stand from position `at` on, and are none of the source.
pub open spec fn stands_at<I>(
    insns: Seq<I>,
    origins: Seq<InstIx>,
    part: Seq<I>,
    at: int,
) -> bool {
    &&& 0 <= at
    &&& at + part.len() <= insns.len()
    &&& forall|j: int|
        0 <= j < part.len() ==> insns[at + j] == #[trigger] part[j] && origins[at + j].ix
            == u32::MAX
}

pub proof fn lemma_insts_at<I>(items: Seq<(InstPoint, I)>, p: InstPoint)
    ensures
        insts_at(items, p) == items_for(items, p),
    decreases items.len(),
{
    reveal(Seq::filter);
    let here = |item: (InstPoint, I)| item.0 == p;
    let inst = |item: (InstPoint, I)| item.1;
    if items.len() == 0 {
        assert(items_for(items, p) =~= Seq::empty());
    } else {
        let fewer = items.drop_last();
        lemma_insts_at(fewer, p);
        if items.last().0 == p {
            assert(items.filter(here) == fewer.filter(here).push(items.last()));
            assert(items_for(items, p) =~= items_for(fewer, p).push(items.last().1));
        } else {
            assert(items.filter(here) == fewer.filter(here));
        }
    }
}

/// One more instruction counts the items for it.
pub proof fn lemma_items_before_next<I>(items: Seq<(InstPoint, I)>, k: int)
    requires
        0 <= k < u32::MAX,
        forall|i: int|
            0 <= i < items.len() ==> (#[trigger] items[i]).0.pt is Reload || items[i].0.pt is Spill,
    ensures
        items_before(items, k + 1) == items_before(items, k) + items_for(
            items,
            point(k, Point::Reload),
        ).len() + items_for(items, point(k, Point::Spill)).len(),
    decreases items.len(),
{
    reveal(Seq::filter);
    if items.len() > 0 {
        let fewer = items.drop_last();
        assert forall|i: int| 0 <= i < fewer.len() implies (#[trigger] fewer[i]).0.pt is Reload
            || fewer[i].0.pt is Spill by {
            assert(fewer[i] == items[i]);
        }
        lemma_items_before_next(fewer, k);
        let p = items.last().0;
        assert(items[items.len() - 1].0.pt is Reload || items[items.len() - 1].0.pt is Spill);
        assert(p == point(k, Point::Reload) || p == point(k, Point::Spill) <==> p.iix.ix == k);
    }
}

pub proof fn lemma_items_before_bounds<I>(items: Seq<(InstPoint, I)>, k: int, n: int)
    requires
        0 <= k <= n,
    ensures
        0 <= items_before(items, k) <= items_before(items, n) <= items.len(),
        k == 0 ==> items_before(items, k) == 0,
        (forall|i: int| 0 <= i < items.len() ==> (#[trigger] items[i]).0.iix.ix < n)
            ==> items_before(items, n) == items.len(),
    decreases items.len(),
{
    reveal(Seq::filter);
    if items.len() > 0 {
        let fewer = items.drop_last();
        lemma_items_before_bounds(fewer, k, n);
        if forall|i: int| 0 <= i < items.len() ==> (#[trigger] items[i]).0.iix.ix < n {
            assert forall|i: int| 0 <= i < fewer.len() implies (#[trigger] fewer[i]).0.iix.ix
                < n by {
                assert(fewer[i] == items[i]);
            }
            assert(items[items.len() - 1].0.iix.ix < n);
        }
    }
}

/// What stands in the outcome for the instructions before `n`.
spec fn outcome_is<I>(
    items: Seq<(InstPoint, I)>,
    source: Seq<I>,
    insns: Seq<I>,
    origins: Seq<InstIx>,
    n: int,
) -> bool {
    &&& insns.len() == n + items_before(items, n)
    &&& origins.len() == insns.len()
    &&& forall|k: int|
        0 <= k < n ==> {
            let j = #[trigger] place_in_outcome(items, k);
            let reloads = items_for(items, point(k, Point::Reload));
            let spills = items_for(items, point(k, Point::Spill));
            &&& 0 <= j < insns.len()
            &&& insns[j] == source[k]
            &&& origins[j].ix == k
            &&& stands_at(insns, origins, reloads, j - reloads.len())
            &&& stands_at(insns, origins, spills, j + 1)
        }
    &&& forall|j: int|
        0 <= j < origins.len() && (#[trigger] origins[j]).ix != u32::MAX ==> {
            &&& origins[j].ix < n
            &&& place_in_outcome(items, origins[j].ix as int) == j
        }
}

proof fn lemma_outcome<I>(items: Seq<(InstPoint, I)>, source: Seq<I>, n: int)
    requires
        0 <= n <= source.len(),
        source.len() <= u32::MAX,
        forall|i: int|
            0 <= i < items.len() ==> (#[trigger] items[i]).0.pt is Reload || items[i].0.pt is Spill,
    ensures
        outcome_is(items, source, spliced(items, source, n), spliced_from(items, n), n),
    decreases n,
{
    if n == 0 {
        lemma_items_before_bounds(items, 0, 0);
    } else {
        let k0 = n - 1;
        lemma_outcome(items, source, k0);
        lemma_items_before_next(items, k0);
        lemma_insts_at(items, point(k0, Point::Reload));
        lemma_insts_at(items, point(k0, Point::Spill));
        let a = spliced(items, source, k0);
        let oa = spliced_from(items, k0);
        let reloads0 = items_for(items, point(k0, Point::Reload));
        let spills0 = items_for(items, point(k0, Point::Spill));
        let insns = spliced(items, source, n);
        let origins = spliced_from(items, n);
        assert(point_at(k0, Point::Reload) == point(k0, Point::Reload));
        assert(point_at(k0, Point::Spill) == point(k0, Point::Spill));
        assert(insns =~= a + reloads0 + seq![source[k0]] + spills0);
        assert(origins =~= oa + invalid_run(reloads0.len()) + seq![
            InstIx { ix: k0 as u32 },
        ] + invalid_run(spills0.len()));
        let at = (a.len() + reloads0.len()) as int;
        assert(place_in_outcome(items, k0) == at);
        assert forall|j: int| 0 <= j < a.len() implies #[trigger] insns[j] == a[j] && origins[j]
            == oa[j] by {}
        assert(origins[at] == (InstIx { ix: k0 as u32 }));
        assert forall|j: int| a.len() <= j < insns.len() && j != at implies (
        #[trigger] origins[j]).ix == u32::MAX by {}
        assert forall|k: int| 0 <= k < n implies {
            let j = #[trigger] place_in_outcome(items, k);
            let reloads = items_for(items, point(k, Point::Reload));
            let spills = items_for(items, point(k, Point::Spill));
            &&& 0 <= j < insns.len()
            &&& insns[j] == source[k]
            &&& origins[j].ix == k
            &&& stands_at(insns, origins, reloads, j - reloads.len())
            &&& stands_at(insns, origins, spills, j + 1)
        } by {
            let j = place_in_outcome(items, k);
            let reloads = items_for(items, point(k, Point::Reload));
            let spills = items_for(items, point(k, Point::Spill));
            if k < k0 {
                assert forall|i: int| 0 <= i < reloads.len() implies insns[j - reloads.len() + i]
                    == #[trigger] reloads[i] && origins[j - reloads.len() + i].ix == u32::MAX by {
                    assert(a[j - reloads.len() + i] == reloads[i]);
                }
                assert forall|i: int| 0 <= i < spills.len() implies insns[j + 1 + i]
                    == #[trigger] spills[i] && origins[j + 1 + i].ix == u32::MAX by {
                    assert(a[j + 1 + i] == spills[i]);
                }
            } else {
                assert forall|i: int| 0 <= i < reloads.len() implies insns[j - reloads.len() + i]
                    == #[trigger] reloads[i] && origins[j - reloads.len() + i].ix == u32::MAX by {}
                assert forall|i: int| 0 <= i < spills.len() implies insns[j + 1 + i]
                    == #[trigger] spills[i] && origins[j + 1 + i].ix == u32::MAX by {}
            }
        }
        assert forall|j: int|
            0 <= j < origins.len() && (#[trigger] origins[j]).ix != u32::MAX implies {
            &&& origins[j].ix < n
            &&& place_in_outcome(items, origins[j].ix as int) == j
        } by {
            if j < a.len() {
                assert(oa[j] == origins[j]);
            } else {
                assert(j == at);
            }
        }
    }
}

/// What the outcome of splicing is like: every instruction of the source is at its place, right
/// before it stand the items for its reload point, right behind it those for its spill point, in
/// the order in which they were given, and there is nothing else. The record of origins names the
/// instructions of the source where they are, and no others. Each block starts where the items for
/// the reload point of its first instruction do: behind all instructions of the source that come
/// before it, and all items for these, and before all others.
pub proof fn law_what_splicing_makes<I>(
    items: Seq<(InstPoint, I)>,
    m: FuncModel<I>,
    insns: Seq<I>,
    targets: Seq<InstIx>,
    origins: Seq<InstIx>,
)
    requires
        m.laid_out(),
        items_placed(items, m.insns.len() as int),
        m.insns.len() + items.len() <= u32::MAX,
        insns == spliced(items, m.insns, m.insns.len() as int),
        targets == block_targets(items, m),
        origins == spliced_from(items, m.insns.len() as int),
    ensures
        insns.len() == m.insns.len() + items.len(),
        origins.len() == insns.len(),
        forall|k: int|
            0 <= k < m.insns.len() ==> {
                let j = #[trigger] place_in_outcome(items, k);
                let reloads = items_for(items, point(k, Point::Reload));
                let spills = items_for(items, point(k, Point::Spill));
                &&& 0 <= j < insns.len()
                &&& insns[j] == m.insns[k]
                &&& origins[j].ix == k
                &&& stands_at(insns, origins, reloads, j - reloads.len())
                &&& stands_at(insns, origins, spills, j + 1)
            },
        forall|j: int|
            0 <= j < origins.len() && (#[trigger] origins[j]).ix != u32::MAX ==> origins[j].ix
                < m.insns.len() && place_in_outcome(items, origins[j].ix as int) == j,
        targets.len() == m.blocks.len(),
        forall|b: int|
            0 <= b < m.blocks.len() ==> {
                let first = m.blocks[b].first;
                let t = (#[trigger] targets[b]).ix as int;
                let reloads = items_for(items, point(first, Point::Reload));
                &&& t == first + items_before(items, first)
                &&& t + reloads.len() < insns.len()
                &&& stands_at(insns, origins, reloads, t)
                &&& insns[t + reloads.len()] == m.insns[first]
                &&& origins[t + reloads.len()].ix == first
            },
        forall|b: int, j: int|
            0 <= b < m.blocks.len() && 0 <= j < origins.len() && (#[trigger] origins[j]).ix
                != u32::MAX ==> (j < (#[trigger] targets[b]).ix <==> origins[j].ix
                < m.blocks[b].first),
{
    let len = m.insns.len() as int;
    lemma_outcome(items, m.insns, len);
    assert forall|i: int| 0 <= i < items.len() implies (#[trigger] items[i]).0.iix.ix < len by {
        assert(items[i].0.iix.pos() < len);
    }
    lemma_items_before_bounds(items, len, len);
    assert forall|b: int| 0 <= b < m.blocks.len() implies {
        let first = m.blocks[b].first;
        let t = (#[trigger] targets[b]).ix as int;
        &&& 0 <= first < len
        &&& t == first + items_before(items, first)
    } by {
        let first = m.blocks[b].first;
        lemma_outcome(items, m.insns, first);
        lemma_items_before_bounds(items, first, len);
    }
    assert forall|b: int| 0 <= b < m.blocks.len() implies {
        let first = m.blocks[b].first;
        let t = (#[trigger] targets[b]).ix as int;
        let reloads = items_for(items, point(first, Point::Reload));
        &&& t + reloads.len() < insns.len()
        &&& stands_at(insns, origins, reloads, t)
        &&& insns[t + reloads.len()] == m.insns[first]
        &&& origins[t + reloads.len()].ix == first
    } by {
        let first = m.blocks[b].first;
        let t = targets[b].ix as int;
        let reloads = items_for(items, point(first, Point::Reload));
        let j = place_in_outcome(items, first);
        assert(j == t + reloads.len());
        assert(stands_at(insns, origins, reloads, j - reloads.len()));
    }
    assert forall|b: int, j: int|
        0 <= b < m.blocks.len() && 0 <= j < origins.len() && (#[trigger] origins[j]).ix
            != u32::MAX implies (j < (#[trigger] targets[b]).ix <==> origins[j].ix
        < m.blocks[b].first) by {
        let first = m.blocks[b].first;
        let k = origins[j].ix as int;
        assert(targets[b].ix as int == first + items_before(items, first));
        assert(place_in_outcome(items, k) == j);
        if k < first {
            lemma_items_before_next(items, k);
            lemma_items_before_bounds(items, k + 1, first);
        } else {
            lemma_items_before_bounds(items, first, k);
        }
    }
}

/// The instruction that an addition stands for, as the function `m` makes it: a spill, a reload or
/// a move, each with its own registers and slot.
pub open spec fn stands_for<I>(inst: InstToInsert, m: FuncModel<I>, made: I) -> bool {
    match inst {
        InstToInsert::Spill { to_slot, from_reg, for_vreg } => made == (m.spill)(
            to_slot,
            from_reg,
            for_vreg,
        ),
        InstToInsert::Reload { to_reg, from_slot, for_vreg } => made == (m.reload)(
            to_reg,
            from_slot,
            for_vreg,
        ),
        InstToInsert::Move { to_reg, from_reg, for_vreg } => made == (m.mov)(
            to_reg,
            from_reg,
            for_vreg,
        ),
    }
}

/// Interleaving the instructions of `m` with additions is splicing in what these stand for, each at
/// its point.
pub proof fn law_what_interleaving_makes<I>(
    edited: (Vec<I>, TypedIxVec<BlockIx, InstIx>, TypedIxVec<InstIx, InstIx>),
    m: FuncModel<I>,
    insts: Seq<InstToInsertAndPoint>,
    items: Seq<(InstPoint, I)>,
)
    requires
        is_interleaved(edited, m, insts),
        items.len() == insts.len(),
        forall|i: int|
            0 <= i < insts.len() ==> (#[trigger] items[i]).0 == insts[i].point && stands_for(
                insts[i].inst,
                m,
                items[i].1,
            ),
    ensures
        edited.0@ == spliced(items, m.insns, m.insns.len() as int),
        edited.1@ == block_targets(items, m),
        edited.2@ == spliced_from(items, m.insns.len() as int),
{
    assert(items =~= made_items(m, insts)) by {
        assert forall|i: int| 0 <= i < items.len() implies items[i] == made_items(m, insts)[i] by {
            assert(items[i].0 == insts[i].point);
        }
    }
}

} // verus!
