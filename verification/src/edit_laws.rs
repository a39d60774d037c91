//! What can be relied on when an instruction stream is edited.

use crate::checker::Checker;
use crate::frags::{point_rank, Point, RangeFrag};
use crate::in_force::{holds_spans, law_maps_are_live_fragments, list_ok, spans};
use crate::index::{BlockIx, InstIx, RangeFragIx, TypedIx};
use crate::inst_stream::{checked, checks, told, told_at, InstToInsertAndPoint, Task};
use crate::interface::{FuncModel, Function, InstModel};
use crate::mapping::VregMap;
use crate::regs::{RealReg, RealRegUniverse, VirtualReg};
use vstd::prelude::*;

verus! {

// ---- The order of the lists

/// The two tasks are for one function; their lists have the same entries, in whichever order.
pub open spec fn same_work<I>(a: Task<I>, b: Task<I>) -> bool {
    &&& a.func == b.func
    &&& a.frags == b.frags
    &&& forall|e: (RangeFragIx, VirtualReg, RealReg)| #[trigger]
        a.places.contains(e) <==> #[trigger] b.places.contains(e)
    &&& forall|iix: InstIx| #[trigger] a.nops.contains(iix) <==> #[trigger] b.nops.contains(iix)
}

/// Two lists with the same entries put the same entries in force.
proof fn lemma_same_spans(
    a: Seq<(RangeFragIx, VirtualReg, RealReg)>,
    b: Seq<(RangeFragIx, VirtualReg, RealReg)>,
    fenv: Seq<RangeFrag>,
    m: Map<VirtualReg, RealReg>,
    n: Map<VirtualReg, RealReg>,
    rank: int,
)
    requires
        forall|e: (RangeFragIx, VirtualReg, RealReg)| #[trigger]
            a.contains(e) ==> #[trigger] b.contains(e),
        holds_spans(m, a, fenv, rank, rank),
        holds_spans(n, b, fenv, rank, rank),
    ensures
        forall|v: VirtualReg| #[trigger] m.contains_key(v) ==> n.contains_key(v) && n[v] == m[v],
{
    assert forall|v: VirtualReg| #[trigger] m.contains_key(v) implies n.contains_key(v) && n[v]
        == m[v] by {
        let i = choose|i: int| #[trigger] spans(a, fenv, i, rank, rank) && a[i].1 == v;
        assert(a.contains(a[i]));
        assert(b.contains(a[i]));
        let j = choose|j: int| 0 <= j < b.len() && b[j] == a[i];
        assert(spans(b, fenv, j, rank, rank));
    }
}

/// It does not matter in which order the lists name the fragments with their registers, and the
/// instructions to become no-ops: the maps at each instruction, and what becomes of the function,
/// are the same.
pub proof fn law_order_of_lists_is_immaterial<I>(im: InstModel<I>, a: Task<I>, b: Task<I>)
    requires
        same_work(a, b),
        list_ok(a.places, a.frags),
        list_ok(b.places, b.frags),
        a.func.insns.len() <= u32::MAX,
    ensures
        forall|k: int|
            0 <= k <= u32::MAX ==> (#[trigger] a.maps(k)).uses == b.maps(k).uses && a.maps(k).defs
                == b.maps(k).defs,
        forall|k: int| #[trigger] a.upto(im, k) == b.upto(im, k),
        a.done(im) == b.done(im),
{
    assert forall|k: int| 0 <= k <= u32::MAX implies (#[trigger] a.maps(k)).uses == b.maps(k).uses
        && a.maps(k).defs == b.maps(k).defs by {
        let u = point_rank(k, Point::Use);
        let d = point_rank(k, Point::Def);
        law_maps_are_live_fragments(a.places, a.frags, k);
        law_maps_are_live_fragments(b.places, b.frags, k);
        lemma_same_spans(a.places, b.places, a.frags, a.maps(k).uses, b.maps(k).uses, u);
        lemma_same_spans(b.places, a.places, a.frags, b.maps(k).uses, a.maps(k).uses, u);
        lemma_same_spans(a.places, b.places, a.frags, a.maps(k).defs, b.maps(k).defs, d);
        lemma_same_spans(b.places, a.places, a.frags, b.maps(k).defs, a.maps(k).defs, d);
        assert(a.maps(k).uses =~= b.maps(k).uses);
        assert(a.maps(k).defs =~= b.maps(k).defs);
    }
    assert forall|k: int| #[trigger] a.upto(im, k) == b.upto(im, k) by {
        assert(a.upto(im, k).insns =~= b.upto(im, k).insns) by {
            assert forall|j: int| 0 <= j < a.func.insns.len() implies a.upto(im, k).insns[j]
                == b.upto(im, k).insns[j] by {
                assert(a.maps(j).uses == b.maps(j).uses);
                let iix = InstIx { ix: j as u32 };
                assert(a.nops.contains(iix) <==> b.nops.contains(iix));
            }
        }
    }
}

// ---- The checker

/// A notion of when two states of a checker are alike, and two of its objections. Equality is one;
/// a checker may have another, that looks at what the states and the objections stand for.
#[verifier::reject_recursive_types(C)]
#[verifier::reject_recursive_types(E)]
pub struct Alike<C, E> {
    pub states: spec_fn(C, C) -> bool,
    pub errors: spec_fn(E, E) -> bool,
}

impl<C, E> Alike<C, E> {
    /// Two answers are alike: both are objections, or none is.
    pub open spec fn answers(self, r: Result<C, E>, q: Result<C, E>) -> bool {
        match (r, q) {
            (Ok(c), Ok(d)) => (self.states)(c, d),
            (Err(e), Err(f)) => (self.errors)(e, f),
            _ => false,
        }
    }

    /// Two verdicts are alike: both are objections, or none is.
    pub open spec fn verdicts(self, r: Result<(), E>, q: Result<(), E>) -> bool {
        match (r, q) {
            (Ok(_), Ok(_)) => true,
            (Err(e), Err(f)) => (self.errors)(e, f),
            _ => false,
        }
    }
}

/// Checkers that are asked about functions `m` and `n` at instruction `k`, with the same maps and
/// all else the same, answer alike wherever `like` holds of the three.
pub open spec fn answers_alike<F: Function, C: Checker<F>>(
    alike: Alike<C, C::Errors>,
    like: spec_fn(FuncModel<F::Inst>, FuncModel<F::Inst>, int) -> bool,
) -> bool {
    &&& forall|
        f: F,
        g: F,
        u: RealRegUniverse,
        insts: Vec<InstToInsertAndPoint>,
        c: C,
        d: C,
    |
        f.model() == g.model() && #[trigger] call_ensures(C::new, (&f, &u, &insts), c)
            && #[trigger] call_ensures(C::new, (&g, &u, &insts), d) ==> (alike.states)(c, d)
    &&& forall|
        c: C,
        d: C,
        u: RealRegUniverse,
        f: F,
        g: F,
        block: BlockIx,
        insn: InstIx,
        uses: VregMap,
        defs: VregMap,
        uses2: VregMap,
        defs2: VregMap,
        r: Result<C, C::Errors>,
        q: Result<C, C::Errors>,
    |
        (alike.states)(c, d) && like(f.model(), g.model(), insn.pos()) && uses@ == uses2@ && defs@
            == defs2@ && #[trigger] call_ensures(
            C::handle_insn,
            (c, &u, &f, block, insn, &uses, &defs),
            r,
        ) && #[trigger] call_ensures(
            C::handle_insn,
            (d, &u, &g, block, insn, &uses2, &defs2),
            q,
        ) ==> alike.answers(r, q)
    &&& forall|c: C, d: C, r: Result<(), C::Errors>, q: Result<(), C::Errors>|
        (alike.states)(c, d) && #[trigger] call_ensures(C::run, (c,), r)
            && #[trigger] call_ensures(C::run, (d,), q) ==> alike.verdicts(r, q)
}

/// The checker answers equal questions alike.
pub open spec fn decisive<F: Function, C: Checker<F>>(alike: Alike<C, C::Errors>) -> bool {
    answers_alike::<F, C>(alike, |m: FuncModel<F::Inst>, n: FuncModel<F::Inst>, k: int| m == n)
}

/// The two functions have the same instruction `k`, and differ in other instructions at most.
pub open spec fn alike_at<I>(m: FuncModel<I>, n: FuncModel<I>, k: int) -> bool {
    &&& m.insns.len() == n.insns.len()
    &&& m.insns[k] == n.insns[k]
    &&& n == m.with_insns(n.insns)
}

/// The checker answers equal questions alike, and does not look at other instructions than the one
/// that it is told of.
pub open spec fn looks_at_hand_only<F: Function, C: Checker<F>>(
    alike: Alike<C, C::Errors>,
) -> bool {
    answers_alike::<F, C>(
        alike,
        |m: FuncModel<F::Inst>, n: FuncModel<F::Inst>, k: int| alike_at(m, n, k),
    )
}

/// At each instruction, the checker is asked the same by way of the two tasks, as far as `like`
/// tells.
spec fn same_questions<F: Function>(
    like: spec_fn(FuncModel<F::Inst>, FuncModel<F::Inst>, int) -> bool,
    a: Task<F::Inst>,
    b: Task<F::Inst>,
) -> bool {
    let im = F::inst_model();
    &&& a.func == b.func
    &&& a.func.insns.len() <= u32::MAX
    &&& forall|k: int|
        0 <= k < a.func.insns.len() ==> {
            &&& (#[trigger] a.maps(k)).uses == b.maps(k).uses
            &&& a.maps(k).defs == b.maps(k).defs
            &&& like(a.upto(im, k), b.upto(im, k), k)
        }
}

proof fn lemma_same_answer<F: Function, C: Checker<F>>(
    alike: Alike<C, C::Errors>,
    like: spec_fn(FuncModel<F::Inst>, FuncModel<F::Inst>, int) -> bool,
    a: Task<F::Inst>,
    b: Task<F::Inst>,
    universe: RealRegUniverse,
    k: int,
    c: C,
    d: C,
    r: Result<C, C::Errors>,
    q: Result<C, C::Errors>,
)
    requires
        answers_alike::<F, C>(alike, like),
        same_questions::<F>(like, a, b),
        0 <= k < a.func.insns.len(),
        (alike.states)(c, d),
        told::<F, C>(a, universe, k, c, r),
        told::<F, C>(b, universe, k, d, q),
    ensures
        alike.answers(r, q),
{
    let im = F::inst_model();
    let iix = InstIx { ix: k as u32 };
    let (f, uses, defs) = choose|f: F, uses: VregMap, defs: VregMap|
        f.model() == a.upto(im, k) && uses@ == a.maps(k).uses && defs@ == a.maps(k).defs
            && #[trigger] call_ensures(
            C::handle_insn,
            (c, &universe, &f, a.block(k), iix, &uses, &defs),
            r,
        );
    let (g, uses2, defs2) = choose|g: F, uses2: VregMap, defs2: VregMap|
        g.model() == b.upto(im, k) && uses2@ == b.maps(k).uses && defs2@ == b.maps(k).defs
            && #[trigger] call_ensures(
            C::handle_insn,
            (d, &universe, &g, b.block(k), iix, &uses2, &defs2),
            q,
        );
    assert(a.maps(k).uses == b.maps(k).uses);
    assert(iix.pos() == k);
    assert(a.block(k) == b.block(k));
}

proof fn lemma_same_states<F: Function, C: Checker<F>>(
    alike: Alike<C, C::Errors>,
    like: spec_fn(FuncModel<F::Inst>, FuncModel<F::Inst>, int) -> bool,
    a: Task<F::Inst>,
    b: Task<F::Inst>,
    f: F,
    g: F,
    universe: RealRegUniverse,
    insts: Vec<InstToInsertAndPoint>,
    sa: Seq<C>,
    sb: Seq<C>,
    i: int,
)
    requires
        answers_alike::<F, C>(alike, like),
        same_questions::<F>(like, a, b),
        f.model() == g.model(),
        checks::<F, C>(a, f, universe, insts, sa),
        checks::<F, C>(b, g, universe, insts, sb),
        sa.len() <= a.func.insns.len() + 1,
        0 <= i < sa.len(),
        i < sb.len(),
    ensures
        (alike.states)(sa[i], sb[i]),
    decreases i,
{
    if i > 0 {
        lemma_same_states(alike, like, a, b, f, g, universe, insts, sa, sb, i - 1);
        assert(told_at::<F, C>(a, universe, sa, i - 1));
        assert(told_at::<F, C>(b, universe, sb, i - 1));
        lemma_same_answer::<F, C>(
            alike,
            like,
            a,
            b,
            universe,
            i - 1,
            sa[i - 1],
            sb[i - 1],
            Ok(sa[i - 1 + 1]),
            Ok(sb[i - 1 + 1]),
        );
    }
}

/// A checker that is asked the same gives a like verdict, at the same instruction.
proof fn lemma_same_verdict<F: Function, C: Checker<F>>(
    alike: Alike<C, C::Errors>,
    like: spec_fn(FuncModel<F::Inst>, FuncModel<F::Inst>, int) -> bool,
    a: Task<F::Inst>,
    b: Task<F::Inst>,
    f: F,
    g: F,
    universe: RealRegUniverse,
    insts: Vec<InstToInsertAndPoint>,
    after_a: FuncModel<F::Inst>,
    after_b: FuncModel<F::Inst>,
    ra: Result<(), C::Errors>,
    rb: Result<(), C::Errors>,
) -> (k: int)
    requires
        answers_alike::<F, C>(alike, like),
        same_questions::<F>(like, a, b),
        f.model() == g.model(),
        checked::<F, C>(a, f, universe, insts, after_a, ra),
        checked::<F, C>(b, g, universe, insts, after_b, rb),
    ensures
        alike.verdicts(ra, rb),
        after_a == a.upto(F::inst_model(), k),
        after_b == b.upto(F::inst_model(), k),
{
    let im = F::inst_model();
    let len = a.func.insns.len() as int;
    let sa = choose|s: Seq<C>| #[trigger]
        checks::<F, C>(a, f, universe, insts, s) && {
            let k = s.len() - 1;
            ||| k == len && call_ensures(C::run, (s[k],), ra) && after_a == a.done(im)
            ||| k < len && (ra matches Err(e) && told::<F, C>(a, universe, k, s[k], Err(e)))
                && after_a == a.upto(im, k)
        };
    let sb = choose|s: Seq<C>| #[trigger]
        checks::<F, C>(b, g, universe, insts, s) && {
            let k = s.len() - 1;
            ||| k == len && call_ensures(C::run, (s[k],), rb) && after_b == b.done(im)
            ||| k < len && (rb matches Err(e) && told::<F, C>(b, universe, k, s[k], Err(e)))
                && after_b == b.upto(im, k)
        };
    let ka = sa.len() - 1;
    let kb = sb.len() - 1;
    let k = if ka <= kb {
        ka
    } else {
        kb
    };
    lemma_same_states(alike, like, a, b, f, g, universe, insts, sa, sb, k);
    if ka < kb {
        assert(told_at::<F, C>(b, universe, sb, ka));
        lemma_same_answer::<F, C>(
            alike,
            like,
            a,
            b,
            universe,
            ka,
            sa[ka],
            sb[ka],
            Err(ra->Err_0),
            Ok(sb[ka + 1]),
        );
    } else if kb < ka {
        assert(told_at::<F, C>(a, universe, sa, kb));
        lemma_same_answer::<F, C>(
            alike,
            like,
            a,
            b,
            universe,
            kb,
            sa[kb],
            sb[kb],
            Ok(sa[kb + 1]),
            Err(rb->Err_0),
        );
    } else if ka < len {
        lemma_same_answer::<F, C>(
            alike,
            like,
            a,
            b,
            universe,
            ka,
            sa[ka],
            sb[ka],
            Err(ra->Err_0),
            Err(rb->Err_0),
        );
    }
    k
}

/// Under the eyes of a checker, too, the order of the lists does not matter: of two calls that
/// differ in it alone, whatever can come of one can come of the other.
pub proof fn law_order_of_lists_is_immaterial_to_checkers<F: Function, C: Checker<F>>(
    a: Task<F::Inst>,
    b: Task<F::Inst>,
    before: F,
    universe: RealRegUniverse,
    insts: Vec<InstToInsertAndPoint>,
    after: FuncModel<F::Inst>,
    r: Result<(), C::Errors>,
)
    requires
        same_work(a, b),
        list_ok(a.places, a.frags),
        list_ok(b.places, b.frags),
        a.func.insns.len() <= u32::MAX,
    ensures
        checked::<F, C>(a, before, universe, insts, after, r) <==> checked::<F, C>(
            b,
            before,
            universe,
            insts,
            after,
            r,
        ),
{
    if checked::<F, C>(a, before, universe, insts, after, r) {
        lemma_checked_same::<F, C>(a, b, before, universe, insts, after, r);
    }
    if checked::<F, C>(b, before, universe, insts, after, r) {
        lemma_checked_same::<F, C>(b, a, before, universe, insts, after, r);
    }
}

proof fn lemma_told_same<F: Function, C: Checker<F>>(
    a: Task<F::Inst>,
    b: Task<F::Inst>,
    universe: RealRegUniverse,
    k: int,
    c: C,
    r: Result<C, C::Errors>,
)
    requires
        same_work(a, b),
        list_ok(a.places, a.frags),
        list_ok(b.places, b.frags),
        a.func.insns.len() <= u32::MAX,
        0 <= k < a.func.insns.len(),
        told::<F, C>(a, universe, k, c, r),
    ensures
        told::<F, C>(b, universe, k, c, r),
{
    let im = F::inst_model();
    law_order_of_lists_is_immaterial(im, a, b);
    let (f, uses, defs) = choose|f: F, uses: VregMap, defs: VregMap|
        f.model() == a.upto(im, k) && uses@ == a.maps(k).uses && defs@ == a.maps(k).defs
            && #[trigger] call_ensures(
            C::handle_insn,
            (c, &universe, &f, a.block(k), InstIx { ix: k as u32 }, &uses, &defs),
            r,
        );
    assert(a.block(k) == b.block(k));
    assert(a.upto(im, k) == b.upto(im, k));
    assert(a.maps(k).uses == b.maps(k).uses);
    assert(call_ensures(
        C::handle_insn,
        (c, &universe, &f, b.block(k), InstIx { ix: k as u32 }, &uses, &defs),
        r,
    ));
}

proof fn lemma_checked_same<F: Function, C: Checker<F>>(
    a: Task<F::Inst>,
    b: Task<F::Inst>,
    before: F,
    universe: RealRegUniverse,
    insts: Vec<InstToInsertAndPoint>,
    after: FuncModel<F::Inst>,
    r: Result<(), C::Errors>,
)
    requires
        same_work(a, b),
        list_ok(a.places, a.frags),
        list_ok(b.places, b.frags),
        a.func.insns.len() <= u32::MAX,
        checked::<F, C>(a, before, universe, insts, after, r),
    ensures
        checked::<F, C>(b, before, universe, insts, after, r),
{
    let im = F::inst_model();
    let len = a.func.insns.len() as int;
    law_order_of_lists_is_immaterial(im, a, b);
    let s = choose|s: Seq<C>| #[trigger]
        checks::<F, C>(a, before, universe, insts, s) && {
            let k = s.len() - 1;
            ||| k == len && call_ensures(C::run, (s[k],), r) && after == a.done(im)
            ||| k < len && (r matches Err(e) && told::<F, C>(a, universe, k, s[k], Err(e)))
                && after == a.upto(im, k)
        };
    let k = s.len() - 1;
    assert forall|i: int| 0 <= i < k implies #[trigger] told_at::<F, C>(b, universe, s, i) by {
        assert(told_at::<F, C>(a, universe, s, i));
        lemma_told_same::<F, C>(a, b, universe, i, s[i], Ok(s[i + 1]));
    }
    assert(checks::<F, C>(b, before, universe, insts, s));
    assert(a.upto(im, k) == b.upto(im, k));
    if k < len {
        lemma_told_same::<F, C>(a, b, universe, k, s[k], Err(r->Err_0));
    }
}

/// With a checker that answers equal questions alike, two calls on equal functions that differ in
/// the order of the lists alone return alike, and leave the same code.
pub proof fn law_order_of_lists_keeps_the_verdict<F: Function, C: Checker<F>>(
    alike: Alike<C, C::Errors>,
    a: Task<F::Inst>,
    b: Task<F::Inst>,
    f: F,
    g: F,
    universe: RealRegUniverse,
    insts: Vec<InstToInsertAndPoint>,
    after_a: FuncModel<F::Inst>,
    after_b: FuncModel<F::Inst>,
    ra: Result<(), C::Errors>,
    rb: Result<(), C::Errors>,
)
    requires
        same_work(a, b),
        list_ok(a.places, a.frags),
        list_ok(b.places, b.frags),
        a.func.insns.len() <= u32::MAX,
        f.model() == g.model(),
        decisive::<F, C>(alike),
        checked::<F, C>(a, f, universe, insts, after_a, ra),
        checked::<F, C>(b, g, universe, insts, after_b, rb),
    ensures
        alike.verdicts(ra, rb),
        after_a == after_b,
{
    let im = F::inst_model();
    let like = |m: FuncModel<F::Inst>, n: FuncModel<F::Inst>, k: int| m == n;
    law_order_of_lists_is_immaterial(im, a, b);
    assert(same_questions::<F>(like, a, b)) by {
        assert forall|k: int| 0 <= k < a.func.insns.len() implies {
            &&& (#[trigger] a.maps(k)).uses == b.maps(k).uses
            &&& a.maps(k).defs == b.maps(k).defs
            &&& like(a.upto(im, k), b.upto(im, k), k)
        } by {
            assert(a.upto(im, k) == b.upto(im, k));
        }
    }
    let k = lemma_same_verdict::<F, C>(
        alike,
        like,
        a,
        b,
        f,
        g,
        universe,
        insts,
        after_a,
        after_b,
        ra,
        rb,
    );
    assert(a.upto(im, k) == b.upto(im, k));
}

// ---- No-ops

/// The two tasks differ in which instructions are to become no-ops, at most.
pub open spec fn same_but_nops<I>(a: Task<I>, b: Task<I>) -> bool {
    a.func == b.func && a.places == b.places && a.frags == b.frags
}

/// Which instructions are to become no-ops makes no difference to what the checker is told of the
/// instruction at hand: it is the instruction of the source, with the same block and the same maps,
/// in a function that is the same but for other instructions.
pub proof fn law_nops_are_told_as_they_were<I>(im: InstModel<I>, a: Task<I>, b: Task<I>, k: int)
    requires
        same_but_nops(a, b),
        0 <= k < a.func.insns.len(),
    ensures
        a.maps(k) == b.maps(k),
        a.block(k) == b.block(k),
        a.upto(im, k).insns[k] == a.func.insns[k],
        b.upto(im, k).insns[k] == a.func.insns[k],
        alike_at(a.upto(im, k), b.upto(im, k), k),
{
}

/// The verdict of a checker that answers equal questions alike, and looks at the instruction at
/// hand only, does not depend on which instructions are to become no-ops, and neither does how many
/// instructions are edited.
pub proof fn law_nops_keep_the_verdict<F: Function, C: Checker<F>>(
    alike: Alike<C, C::Errors>,
    a: Task<F::Inst>,
    b: Task<F::Inst>,
    f: F,
    g: F,
    universe: RealRegUniverse,
    insts: Vec<InstToInsertAndPoint>,
    after_a: FuncModel<F::Inst>,
    after_b: FuncModel<F::Inst>,
    ra: Result<(), C::Errors>,
    rb: Result<(), C::Errors>,
)
    requires
        same_but_nops(a, b),
        a.func.insns.len() <= u32::MAX,
        f.model() == g.model(),
        looks_at_hand_only::<F, C>(alike),
        checked::<F, C>(a, f, universe, insts, after_a, ra),
        checked::<F, C>(b, g, universe, insts, after_b, rb),
    ensures
        alike.verdicts(ra, rb),
        exists|k: int| #[trigger]
            a.upto(F::inst_model(), k) == after_a && b.upto(F::inst_model(), k) == after_b,
{
    let im = F::inst_model();
    let like = |m: FuncModel<F::Inst>, n: FuncModel<F::Inst>, k: int| alike_at(m, n, k);
    assert(same_questions::<F>(like, a, b)) by {
        assert forall|k: int| 0 <= k < a.func.insns.len() implies {
            &&& (#[trigger] a.maps(k)).uses == b.maps(k).uses
            &&& a.maps(k).defs == b.maps(k).defs
            &&& like(a.upto(im, k), b.upto(im, k), k)
        } by {
            law_nops_are_told_as_they_were(im, a, b, k);
        }
    }
    let k = lemma_same_verdict::<F, C>(
        alike,
        like,
        a,
        b,
        f,
        g,
        universe,
        insts,
        after_a,
        after_b,
        ra,
        rb,
    );
    assert(a.upto(im, k) == after_a);
}

} // verus!
