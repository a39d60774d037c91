//! The maps at an instruction are the fragments that are live there.

use crate::frags::{point_at, point_rank, InstPoint, Point, RangeFrag};
use crate::index::{RangeFragIx, TypedIx};
use crate::mapping::{edge_point, insn_maps, list_in_env, map_before, maps_at, pass_edges, Edge};
use crate::regs::{RealReg, VirtualReg};
use vstd::prelude::*;

verus! {

/// The fragment of entry `i`.
pub open spec fn entry_frag(
    list: Seq<(RangeFragIx, VirtualReg, RealReg)>,
    fenv: Seq<RangeFrag>,
    i: int,
) -> RangeFrag {
    fenv[list[i].0.pos()]
}

/// The fragments in the list have the usual shapes, and no two of them for one virtual register
/// are live at the same point.
pub open spec fn list_ok(
    list: Seq<(RangeFragIx, VirtualReg, RealReg)>,
    fenv: Seq<RangeFrag>,
) -> bool {
    &&& list_in_env(list, fenv)
    &&& forall|i: int|
        0 <= i < list.len() ==> (#[trigger] entry_frag(list, fenv, i)).wf() && entry_frag(
            list,
            fenv,
            i,
        ).is_sane()
    &&& forall|i: int, j: int|
        0 <= i < list.len() && 0 <= j < list.len() && i != j && (#[trigger] list[i]).1 == (
        #[trigger] list[j]).1 ==> entry_frag(list, fenv, i).disjoint(entry_frag(list, fenv, j))
}

/// Entry `i` starts at rank `a` or before, and ends at rank `b` or after.
pub open spec fn spans(
    list: Seq<(RangeFragIx, VirtualReg, RealReg)>,
    fenv: Seq<RangeFrag>,
    i: int,
    a: int,
    b: int,
) -> bool {
    &&& 0 <= i < list.len()
    &&& entry_frag(list, fenv, i).first.rank() <= a
    &&& b <= entry_frag(list, fenv, i).last.rank()
}

/// The map holds the mappings of the entries that start at rank `a` or before and end at rank `b`
/// or after, and no others.
pub open spec fn holds_spans(
    m: Map<VirtualReg, RealReg>,
    list: Seq<(RangeFragIx, VirtualReg, RealReg)>,
    fenv: Seq<RangeFrag>,
    a: int,
    b: int,
) -> bool {
    &&& forall|i: int| #[trigger]
        spans(list, fenv, i, a, b) ==> m.contains_key(list[i].1) && m[list[i].1] == list[i].2
    &&& forall|v: VirtualReg| #[trigger]
        m.contains_key(v) ==> exists|i: int| #[trigger]
            spans(list, fenv, i, a, b) && list[i].1 == v
}

/// A point is determined by its rank.
pub proof fn lemma_rank_injective(p: InstPoint, q: InstPoint)
    ensures
        p.rank() == q.rank() <==> p == q,
{
    if p.rank() == q.rank() {
        assert(p.pt.rank() == q.pt.rank());
        assert(p.iix.pos() == q.iix.pos());
    }
}

/// Entry `i` has its edge at `p`.
pub open spec fn edge_is(
    list: Seq<(RangeFragIx, VirtualReg, RealReg)>,
    fenv: Seq<RangeFrag>,
    edge: Edge,
    p: InstPoint,
    i: int,
) -> bool {
    0 <= i < list.len() && edge_point(entry_frag(list, fenv, i), edge) == p
}

/// Passing the starts at a point adds the mappings of the entries that start there.
proof fn lemma_pass_starts(
    m: Map<VirtualReg, RealReg>,
    list: Seq<(RangeFragIx, VirtualReg, RealReg)>,
    fenv: Seq<RangeFrag>,
    p: InstPoint,
)
    requires
        forall|i: int, j: int|
            #![trigger edge_is(list, fenv, Edge::Start, p, i), edge_is(
                list, fenv, Edge::Start, p, j)]
            edge_is(list, fenv, Edge::Start, p, i) && edge_is(list, fenv, Edge::Start, p, j)
                && list[i].1 == list[j].1 ==> i == j,
    ensures
        ({
            let r = pass_edges(m, list, fenv, Edge::Start, p);
            &&& forall|i: int| #[trigger]
                edge_is(list, fenv, Edge::Start, p, i) ==> r.contains_key(list[i].1)
                    && r[list[i].1] == list[i].2
            &&& forall|v: VirtualReg|
                (forall|i: int| #[trigger]
                    edge_is(list, fenv, Edge::Start, p, i) ==> list[i].1 != v) ==> (
                #[trigger] r.contains_key(v) <==> m.contains_key(v)) && r[v] == m[v]
        }),
    decreases list.len(),
{
    let r = pass_edges(m, list, fenv, Edge::Start, p);
    if list.len() > 0 {
        let n = list.len() - 1;
        let fewer = list.drop_last();
        let before = pass_edges(m, fewer, fenv, Edge::Start, p);
        assert forall|i: int| 0 <= i < n implies edge_is(fewer, fenv, Edge::Start, p, i)
            == edge_is(list, fenv, Edge::Start, p, i) && fewer[i] == list[i] by {}
        assert forall|i: int, j: int|
            #![trigger edge_is(fewer, fenv, Edge::Start, p, i), edge_is(
                fewer, fenv, Edge::Start, p, j)]
            edge_is(fewer, fenv, Edge::Start, p, i) && edge_is(fewer, fenv, Edge::Start, p, j)
                && fewer[i].1 == fewer[j].1 implies i == j by {
            assert(edge_is(list, fenv, Edge::Start, p, i));
            assert(edge_is(list, fenv, Edge::Start, p, j));
        }
        lemma_pass_starts(m, fewer, fenv, p);
        assert forall|i: int| #[trigger] edge_is(list, fenv, Edge::Start, p, i) implies r.contains_key(
            list[i].1,
        ) && r[list[i].1] == list[i].2 by {
            if i < n {
                assert(edge_is(fewer, fenv, Edge::Start, p, i));
                if edge_is(list, fenv, Edge::Start, p, n) {
                    assert(list[i].1 != list[n].1);
                }
            }
        }
        assert forall|v: VirtualReg|
            (forall|i: int| #[trigger]
                edge_is(list, fenv, Edge::Start, p, i) ==> list[i].1 != v) implies (
        #[trigger] r.contains_key(v) <==> m.contains_key(v)) && r[v] == m[v] by {
            assert forall|i: int| #[trigger]
                edge_is(fewer, fenv, Edge::Start, p, i) implies fewer[i].1 != v by {
                assert(edge_is(list, fenv, Edge::Start, p, i));
            }
            assert(before.contains_key(v) <==> m.contains_key(v));
            if edge_is(list, fenv, Edge::Start, p, n) {
                assert(list[n].1 != v);
            }
        }
    }
}

/// Passing the ends at a point takes away the mappings of the entries that end there.
proof fn lemma_pass_ends(
    m: Map<VirtualReg, RealReg>,
    list: Seq<(RangeFragIx, VirtualReg, RealReg)>,
    fenv: Seq<RangeFrag>,
    p: InstPoint,
)
    ensures
        ({
            let r = pass_edges(m, list, fenv, Edge::End, p);
            &&& forall|i: int| #[trigger]
                edge_is(list, fenv, Edge::End, p, i) ==> !r.contains_key(list[i].1)
            &&& forall|v: VirtualReg| #[trigger]
                r.contains_key(v) ==> m.contains_key(v) && r[v] == m[v]
            &&& forall|v: VirtualReg|
                (forall|i: int| #[trigger]
                    edge_is(list, fenv, Edge::End, p, i) ==> list[i].1 != v) ==> (
                #[trigger] r.contains_key(v) <==> m.contains_key(v))
        }),
    decreases list.len(),
{
    let r = pass_edges(m, list, fenv, Edge::End, p);
    if list.len() > 0 {
        let n = list.len() - 1;
        let fewer = list.drop_last();
        let before = pass_edges(m, fewer, fenv, Edge::End, p);
        lemma_pass_ends(m, fewer, fenv, p);
        assert forall|v: VirtualReg| #[trigger] r.contains_key(v) implies m.contains_key(v)
            && r[v] == m[v] by {
            assert(before.contains_key(v));
        }
        assert forall|i: int| #[trigger] edge_is(list, fenv, Edge::End, p, i) implies !r.contains_key(
            list[i].1,
        ) by {
            if i < n {
                assert(edge_is(fewer, fenv, Edge::End, p, i));
                assert(!before.contains_key(fewer[i].1));
            }
        }
        assert forall|v: VirtualReg|
            (forall|i: int| #[trigger]
                edge_is(list, fenv, Edge::End, p, i) ==> list[i].1 != v) implies (
        #[trigger] r.contains_key(v) <==> m.contains_key(v)) by {
            assert forall|i: int| #[trigger]
                edge_is(fewer, fenv, Edge::End, p, i) implies fewer[i].1 != v by {
                assert(edge_is(list, fenv, Edge::End, p, i));
            }
            assert(before.contains_key(v) <==> m.contains_key(v));
            if edge_is(list, fenv, Edge::End, p, n) {
                assert(list[n].1 != v);
            }
        }
    }
}

/// Two entries for one virtual register that are live at the same point are one.
proof fn lemma_same_entry(
    list: Seq<(RangeFragIx, VirtualReg, RealReg)>,
    fenv: Seq<RangeFrag>,
    i: int,
    j: int,
    rank: int,
)
    requires
        list_ok(list, fenv),
        0 <= i < list.len(),
        0 <= j < list.len(),
        list[i].1 == list[j].1,
        entry_frag(list, fenv, i).covers(rank),
        entry_frag(list, fenv, j).covers(rank),
    ensures
        i == j,
{
}

proof fn lemma_step_starts(
    m: Map<VirtualReg, RealReg>,
    list: Seq<(RangeFragIx, VirtualReg, RealReg)>,
    fenv: Seq<RangeFrag>,
    p: InstPoint,
)
    requires
        list_ok(list, fenv),
        holds_spans(m, list, fenv, p.rank() - 1, p.rank()),
    ensures
        holds_spans(pass_edges(m, list, fenv, Edge::Start, p), list, fenv, p.rank(), p.rank()),
{
    let r = pass_edges(m, list, fenv, Edge::Start, p);
    let c = p.rank();
    assert forall|i: int| 0 <= i < list.len() implies (#[trigger] edge_is(
        list,
        fenv,
        Edge::Start,
        p,
        i,
    ) <==> entry_frag(list, fenv, i).first.rank() == c) by {
        lemma_rank_injective(entry_frag(list, fenv, i).first, p);
    }
    assert forall|i: int, j: int|
        #![trigger edge_is(list, fenv, Edge::Start, p, i), edge_is(list, fenv, Edge::Start, p, j)]
        edge_is(list, fenv, Edge::Start, p, i) && edge_is(list, fenv, Edge::Start, p, j)
            && list[i].1 == list[j].1 implies i == j by {
        assert(entry_frag(list, fenv, i).wf() && entry_frag(list, fenv, j).wf());
        lemma_same_entry(list, fenv, i, j, c);
    }
    lemma_pass_starts(m, list, fenv, p);
    assert forall|i: int| #[trigger] spans(list, fenv, i, c, c) implies r.contains_key(list[i].1)
        && r[list[i].1] == list[i].2 by {
        if edge_is(list, fenv, Edge::Start, p, i) {
        } else {
            assert(spans(list, fenv, i, c - 1, c));
            assert forall|j: int| #[trigger]
                edge_is(list, fenv, Edge::Start, p, j) implies list[j].1 != list[i].1 by {
                if list[j].1 == list[i].1 {
                    assert(entry_frag(list, fenv, j).wf());
                    lemma_same_entry(list, fenv, i, j, c);
                }
            }
            assert(r.contains_key(list[i].1) <==> m.contains_key(list[i].1));
        }
    }
    assert forall|v: VirtualReg| #[trigger] r.contains_key(v) implies exists|i: int| #[trigger]
        spans(list, fenv, i, c, c) && list[i].1 == v by {
        if exists|i: int| #[trigger] edge_is(list, fenv, Edge::Start, p, i) && list[i].1 == v {
            let i = choose|i: int| #[trigger]
                edge_is(list, fenv, Edge::Start, p, i) && list[i].1 == v;
            assert(entry_frag(list, fenv, i).wf());
            assert(spans(list, fenv, i, c, c));
        } else {
            assert(m.contains_key(v));
            let i = choose|i: int| #[trigger] spans(list, fenv, i, c - 1, c) && list[i].1 == v;
            assert(spans(list, fenv, i, c, c));
        }
    }
}

proof fn lemma_step_ends(
    m: Map<VirtualReg, RealReg>,
    list: Seq<(RangeFragIx, VirtualReg, RealReg)>,
    fenv: Seq<RangeFrag>,
    p: InstPoint,
)
    requires
        list_ok(list, fenv),
        holds_spans(m, list, fenv, p.rank(), p.rank()),
    ensures
        holds_spans(pass_edges(m, list, fenv, Edge::End, p), list, fenv, p.rank(), p.rank() + 1),
{
    let r = pass_edges(m, list, fenv, Edge::End, p);
    let c = p.rank();
    assert forall|i: int| 0 <= i < list.len() implies (#[trigger] edge_is(
        list,
        fenv,
        Edge::End,
        p,
        i,
    ) <==> entry_frag(list, fenv, i).last.rank() == c) by {
        lemma_rank_injective(entry_frag(list, fenv, i).last, p);
    }
    lemma_pass_ends(m, list, fenv, p);
    assert forall|i: int| #[trigger] spans(list, fenv, i, c, c + 1) implies r.contains_key(
        list[i].1,
    ) && r[list[i].1] == list[i].2 by {
        assert(spans(list, fenv, i, c, c));
        assert forall|j: int| #[trigger]
            edge_is(list, fenv, Edge::End, p, j) implies list[j].1 != list[i].1 by {
            if list[j].1 == list[i].1 {
                assert(entry_frag(list, fenv, j).wf());
                lemma_same_entry(list, fenv, i, j, c);
            }
        }
        assert(r.contains_key(list[i].1) <==> m.contains_key(list[i].1));
    }
    assert forall|v: VirtualReg| #[trigger] r.contains_key(v) implies exists|i: int| #[trigger]
        spans(list, fenv, i, c, c + 1) && list[i].1 == v by {
        assert(m.contains_key(v));
        let i = choose|i: int| #[trigger] spans(list, fenv, i, c, c) && list[i].1 == v;
        if edge_is(list, fenv, Edge::End, p, i) {
            assert(!r.contains_key(list[i].1));
        }
        assert(spans(list, fenv, i, c, c + 1));
    }
}

/// No fragment ends at a reload point, so it makes no difference whether one ends there or later.
proof fn lemma_no_end_at_reload(
    m: Map<VirtualReg, RealReg>,
    list: Seq<(RangeFragIx, VirtualReg, RealReg)>,
    fenv: Seq<RangeFrag>,
    k: int,
)
    requires
        list_ok(list, fenv),
        holds_spans(m, list, fenv, 4 * k, 4 * k),
    ensures
        holds_spans(m, list, fenv, 4 * k, 4 * k + 1),
{
    assert forall|i: int| spans(list, fenv, i, 4 * k, 4 * k) <==> #[trigger] spans(
        list,
        fenv,
        i,
        4 * k,
        4 * k + 1,
    ) by {
        if 0 <= i < list.len() {
            assert(entry_frag(list, fenv, i).is_sane());
        }
    }
    assert forall|i: int| #[trigger] spans(list, fenv, i, 4 * k, 4 * k + 1) implies m.contains_key(
        list[i].1,
    ) && m[list[i].1] == list[i].2 by {
        assert(spans(list, fenv, i, 4 * k, 4 * k));
    }
    assert forall|v: VirtualReg| #[trigger] m.contains_key(v) implies exists|i: int| #[trigger]
        spans(list, fenv, i, 4 * k, 4 * k + 1) && list[i].1 == v by {
        let i = choose|i: int| #[trigger] spans(list, fenv, i, 4 * k, 4 * k) && list[i].1 == v;
        assert(spans(list, fenv, i, 4 * k, 4 * k + 1));
    }
}

/// No fragment starts at a spill point, so it makes no difference whether one starts there or
/// earlier.
proof fn lemma_no_start_at_spill(
    m: Map<VirtualReg, RealReg>,
    list: Seq<(RangeFragIx, VirtualReg, RealReg)>,
    fenv: Seq<RangeFrag>,
    k: int,
)
    requires
        list_ok(list, fenv),
        holds_spans(m, list, fenv, 4 * k + 2, 4 * k + 3),
    ensures
        holds_spans(m, list, fenv, 4 * k + 3, 4 * k + 3),
{
    assert forall|i: int| spans(list, fenv, i, 4 * k + 2, 4 * k + 3) <==> #[trigger] spans(
        list,
        fenv,
        i,
        4 * k + 3,
        4 * k + 3,
    ) by {
        if 0 <= i < list.len() {
            assert(entry_frag(list, fenv, i).is_sane());
        }
    }
    assert forall|i: int| #[trigger] spans(list, fenv, i, 4 * k + 3, 4 * k + 3) implies m.contains_key(
        list[i].1,
    ) && m[list[i].1] == list[i].2 by {
        assert(spans(list, fenv, i, 4 * k + 2, 4 * k + 3));
    }
    assert forall|v: VirtualReg| #[trigger] m.contains_key(v) implies exists|i: int| #[trigger]
        spans(list, fenv, i, 4 * k + 3, 4 * k + 3) && list[i].1 == v by {
        let i = choose|i: int| #[trigger]
            spans(list, fenv, i, 4 * k + 2, 4 * k + 3) && list[i].1 == v;
        assert(spans(list, fenv, i, 4 * k + 3, 4 * k + 3));
    }
}

/// At each instruction, the map for what it reads holds exactly the fragments that are live at its
/// use point, and the map for what it writes exactly those that are live at its def point.
pub proof fn law_maps_are_live_fragments(
    list: Seq<(RangeFragIx, VirtualReg, RealReg)>,
    fenv: Seq<RangeFrag>,
    k: int,
)
    requires
        list_ok(list, fenv),
        0 <= k <= u32::MAX,
    ensures
        ({
            let maps = insn_maps(list, list, fenv, k);
            let u = point_rank(k, Point::Use);
            let d = point_rank(k, Point::Def);
            &&& holds_spans(maps.uses, list, fenv, u, u)
            &&& holds_spans(maps.defs, list, fenv, d, d)
        }),
{
    lemma_maps_at(list, fenv, k);
}

/// Behind an instruction that no fragment runs on past, such as the last one of a block where
/// fragments stay within their blocks, no register is mapped.
pub proof fn law_no_maps_behind_the_last_fragment(
    list: Seq<(RangeFragIx, VirtualReg, RealReg)>,
    fenv: Seq<RangeFrag>,
    k: int,
)
    requires
        list_ok(list, fenv),
        0 <= k <= u32::MAX,
        forall|i: int|
            0 <= i < list.len() ==> {
                ||| (#[trigger] entry_frag(list, fenv, i)).last.iix.pos() <= k
                ||| k < entry_frag(list, fenv, i).first.iix.pos()
            },
    ensures
        insn_maps(list, list, fenv, k).after == Map::<VirtualReg, RealReg>::empty(),
{
    lemma_maps_at(list, fenv, k);
    let after = insn_maps(list, list, fenv, k).after;
    assert forall|v: VirtualReg| !#[trigger] after.contains_key(v) by {
        if after.contains_key(v) {
            let i = choose|i: int| #[trigger]
                spans(list, fenv, i, 4 * k + 3, 4 * k + 4) && list[i].1 == v;
            let frag = entry_frag(list, fenv, i);
            assert(frag.last.iix.pos() <= k || k < frag.first.iix.pos());
        }
    }
    assert(after =~= Map::empty());
}

/// The maps hold the fragments that are live where the instruction reads, from there to where it
/// writes, where it writes, from there to where its spills are, and from there on.
pub proof fn lemma_maps_at(
    list: Seq<(RangeFragIx, VirtualReg, RealReg)>,
    fenv: Seq<RangeFrag>,
    k: int,
)
    requires
        list_ok(list, fenv),
        0 <= k <= u32::MAX,
    ensures
        holds_spans(insn_maps(list, list, fenv, k).uses, list, fenv, 4 * k + 1, 4 * k + 1),
        holds_spans(insn_maps(list, list, fenv, k).after_use, list, fenv, 4 * k + 1, 4 * k + 2),
        holds_spans(insn_maps(list, list, fenv, k).defs, list, fenv, 4 * k + 2, 4 * k + 2),
        holds_spans(insn_maps(list, list, fenv, k).after_def, list, fenv, 4 * k + 2, 4 * k + 3),
        holds_spans(insn_maps(list, list, fenv, k).after, list, fenv, 4 * k + 3, 4 * k + 4),
    decreases k,
{
    let m = map_before(list, list, fenv, k);
    assert(holds_spans(m, list, fenv, 4 * k - 1, 4 * k)) by {
        if k > 0 {
            lemma_maps_at(list, fenv, k - 1);
        } else {
            assert forall|i: int| !#[trigger] spans(list, fenv, i, -1, 0) by {}
        }
    }
    let pr = point_at(k, Point::Reload);
    let pu = point_at(k, Point::Use);
    let pd = point_at(k, Point::Def);
    let ps = point_at(k, Point::Spill);
    assert(pr.rank() == 4 * k && pu.rank() == 4 * k + 1 && pd.rank() == 4 * k + 2 && ps.rank() == 4
        * k + 3);
    let reloaded = pass_edges(m, list, fenv, Edge::Start, pr);
    lemma_step_starts(m, list, fenv, pr);
    lemma_no_end_at_reload(reloaded, list, fenv, k);
    let uses = pass_edges(reloaded, list, fenv, Edge::Start, pu);
    lemma_step_starts(reloaded, list, fenv, pu);
    let used = pass_edges(uses, list, fenv, Edge::End, pu);
    lemma_step_ends(uses, list, fenv, pu);
    let defs = pass_edges(used, list, fenv, Edge::Start, pd);
    lemma_step_starts(used, list, fenv, pd);
    let defined = pass_edges(defs, list, fenv, Edge::End, pd);
    lemma_step_ends(defs, list, fenv, pd);
    lemma_no_start_at_spill(defined, list, fenv, k);
    lemma_step_ends(defined, list, fenv, ps);
    assert(insn_maps(list, list, fenv, k) == maps_at(m, list, list, fenv, k));
}

} // verus!
