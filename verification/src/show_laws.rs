//! What can be relied on of the texts for the log.

use crate::frags::{InstPoint, Point, RangeFrag};
use crate::index::{RangeFragIx, TypedIx, VirtualRangeIx};
use crate::prio_queue::VirtualRangePrioQ;
use crate::ranges::VlrView;
use crate::real_reg::PerRealReg;
use crate::regs::{RealRegUniverse, RegClass};
use crate::show::{
    decimal, digit_text, fix_texts, frag_text, frag_texts, joined, listed, padded, point_text,
    ra_state_lines, reg_lines, span_text, vlr_text, vlrix_texts,
};
use crate::spill::{BridgeKind, EditListItem};
use vstd::prelude::*;

verus! {

/// The number that digits stand for.
pub open spec fn number_of(digits: Seq<char>) -> int
    decreases digits.len(),
{
    if digits.len() == 0 {
        0
    } else {
        10 * number_of(digits.drop_last()) + (digits.last() as int - '0' as int)
    }
}

proof fn lemma_digit(d: int)
    requires
        0 <= d < 10,
    ensures
        digit_text(d).len() == 1,
        digit_text(d)[0] as int == '0' as int + d,
{
    reveal_strlit("0");
    reveal_strlit("1");
    reveal_strlit("2");
    reveal_strlit("3");
    reveal_strlit("4");
    reveal_strlit("5");
    reveal_strlit("6");
    reveal_strlit("7");
    reveal_strlit("8");
    reveal_strlit("9");
}

/// A number is written in digits that stand for it, without a zero in front.
pub proof fn law_numbers_are_written_in_decimal(n: int)
    requires
        0 <= n,
    ensures
        number_of(decimal(n)) == n,
        decimal(n).len() > 0,
        forall|i: int|
            0 <= i < decimal(n).len() ==> '0' as int <= (#[trigger] decimal(n)[i]) as int
                <= '9' as int,
        n < 10 ==> decimal(n).len() == 1,
        n > 0 ==> decimal(n)[0] != '0',
    decreases n,
{
    if n < 10 {
        lemma_digit(n);
        let t = decimal(n);
        assert(t.drop_last() =~= Seq::empty());
        assert(number_of(t.drop_last()) == 0);
    } else {
        law_numbers_are_written_in_decimal(n / 10);
        lemma_digit(n % 10);
        let t = decimal(n);
        let front = decimal(n / 10);
        assert(t.drop_last() =~= front);
        assert(t.last() == digit_text(n % 10)[0]);
        assert(t[0] == front[0]);
    }
}

/// The text of a point tells its instruction and which of its points it is.
pub proof fn law_points_can_be_told_apart(p: InstPoint)
    ensures
        ({
            let t = point_text(p);
            let n = t.len();
            &&& n >= 4
            &&& t[0] == 'i'
            &&& number_of(t.subrange(1, n - 2)) == p.iix.ix
            &&& t[n - 2] == '.'
            &&& t[n - 1] == (match p.pt {
                Point::Reload => 'r',
                Point::Use => 'u',
                Point::Def => 'd',
                Point::Spill => 's',
            })
        }),
{
    reveal_strlit("i");
    reveal_strlit(".r");
    reveal_strlit(".u");
    reveal_strlit(".d");
    reveal_strlit(".s");
    law_numbers_are_written_in_decimal(p.iix.ix as int);
    let t = point_text(p);
    let d = decimal(p.iix.pos());
    assert(t.len() == 1 + d.len() + 2);
    assert(t.subrange(1, t.len() - 2) =~= d);
}

/// A name is filled up with blanks to a width of four, and a longer one stays as it is.
pub proof fn law_names_are_filled_up(name: Seq<char>)
    ensures
        padded(name).len() == (if name.len() < 4 {
            4
        } else {
            name.len() as int
        }),
        forall|i: int|
            0 <= i < padded(name).len() ==> #[trigger] padded(name)[i] == (if i < name.len() {
                name[i]
            } else {
                ' '
            }),
{
    reveal_strlit("    ");
    reveal_strlit("   ");
    reveal_strlit("  ");
    reveal_strlit(" ");
}

/// Lists are joined at a comma and a blank.
pub proof fn law_lists_are_joined(a: Seq<Seq<char>>, b: Seq<Seq<char>>)
    requires
        a.len() > 0,
        b.len() > 0,
    ensures
        joined(a + b) == joined(a) + ", "@ + joined(b),
        joined(a.take(1)) == a[0],
        joined(Seq::<Seq<char>>::empty()).len() == 0,
    decreases b.len(),
{
    let all = a + b;
    assert(all.drop_last() =~= a + b.drop_last());
    assert(all.last() == b.last());
    if b.len() == 1 {
        assert(a + b.drop_last() =~= a);
        assert(joined(all) =~= joined(a) + ", "@ + joined(b));
    } else {
        law_lists_are_joined(a, b.drop_last());
        assert(joined(all) =~= joined(a) + ", "@ + joined(b));
    }
}

proof fn lemma_reg_lines(
    universe: RealRegUniverse,
    regs: Seq<PerRealReg>,
    frags: Seq<RangeFrag>,
    n: int,
)
    requires
        0 <= n,
    ensures
        reg_lines(universe, regs, frags, n).len() == 3 * n,
        forall|i: int|
            0 <= i < n ==> {
                &&& #[trigger] reg_lines(universe, regs, frags, n)[3 * i] == padded(
                    universe.regs@[i].1@,
                ) + "   in_use:   "@ + listed(frag_texts(regs[i].frags_in_use.fragIxs@, frags))
                &&& reg_lines(universe, regs, frags, n)[3 * i + 1] == "      assigned: "@ + listed(
                    vlrix_texts(regs[i].vlrixs_assigned@),
                )
                &&& reg_lines(universe, regs, frags, n)[3 * i + 2].len() == 0
            },
    decreases n,
{
    if n > 0 {
        lemma_reg_lines(universe, regs, frags, n - 1);
        let all = reg_lines(universe, regs, frags, n);
        let fewer = reg_lines(universe, regs, frags, n - 1);
        reveal_strlit("   ");
        reveal_strlit("in_use:   ");
        reveal_strlit("   in_use:   ");
        reveal_strlit("      ");
        reveal_strlit("assigned: ");
        reveal_strlit("      assigned: ");
        let reg = regs[n - 1];
        assert("   in_use:   "@ =~= "   "@ + "in_use:   "@);
        assert("      assigned: "@ =~= "      "@ + "assigned: "@);
        assert(all[3 * (n - 1)] =~= padded(universe.regs@[n - 1].1@) + "   in_use:   "@ + listed(
            frag_texts(reg.frags_in_use.fragIxs@, frags),
        ));
        assert(all[3 * (n - 1) + 1] =~= "      assigned: "@ + listed(
            vlrix_texts(reg.vlrixs_assigned@),
        ));
        assert forall|i: int| 0 <= i < n implies {
            &&& #[trigger] all[3 * i] == padded(universe.regs@[i].1@) + "   in_use:   "@ + listed(
                frag_texts(regs[i].frags_in_use.fragIxs@, frags),
            )
            &&& all[3 * i + 1] == "      assigned: "@ + listed(
                vlrix_texts(regs[i].vlrixs_assigned@),
            )
            &&& all[3 * i + 2].len() == 0
        } by {
            if i < n - 1 {
                assert(all[3 * i] == fewer[3 * i]);
                assert(all[3 * i + 1] == fewer[3 * i + 1]);
                assert(all[3 * i + 2] == fewer[3 * i + 2]);
            }
        }
    }
}

/// The tables are written line by line: a headline, three lines for each register, with what it is
/// committed to and what is assigned to it, a line for each range that waits, one for each order,
/// all in the order of the tables, and a last line.
pub proof fn law_how_tables_are_written(
    who: Seq<char>,
    universe: RealRegUniverse,
    prioQ: VirtualRangePrioQ,
    regs: Seq<PerRealReg>,
    edits: Seq<EditListItem>,
    vlrs: Seq<VlrView>,
    frags: Seq<RangeFrag>,
    costs: Seq<Seq<char>>,
)
    ensures
        ({
            let lines = ra_state_lines(who, universe, prioQ, regs, edits, vlrs, frags, costs);
            let queue = prioQ.unallocated@;
            let q = 1 + 3 * regs.len();
            let e = q + queue.len();
            &&& lines.len() == e + edits.len() + 1
            &&& lines[0] == "<<<<====---- RA state at '"@ + who + "' ----===="@
            &&& forall|i: int|
                0 <= i < regs.len() ==> {
                    &&& #[trigger] lines[1 + 3 * i] == padded(universe.regs@[i].1@)
                        + "   in_use:   "@ + listed(
                        frag_texts(regs[i].frags_in_use.fragIxs@, frags),
                    )
                    &&& lines[2 + 3 * i] == "      assigned: "@ + listed(
                        vlrix_texts(regs[i].vlrixs_assigned@),
                    )
                    &&& lines[3 + 3 * i].len() == 0
                }
            &&& forall|j: int|
                0 <= j < queue.len() ==> #[trigger] lines[q + j] == "TODO  "@ + vlr_text(
                    vlrs[queue[j].ix as int],
                    costs[queue[j].ix as int],
                )
            &&& forall|j: int|
                0 <= j < edits.len() ==> #[trigger] lines[e + j] == edits[j].text()
            &&& lines[lines.len() - 1] == ">>>>"@
        }),
{
    let lines = ra_state_lines(who, universe, prioQ, regs, edits, vlrs, frags, costs);
    let n = regs.len() as int;
    let table = reg_lines(universe, regs, frags, n);
    lemma_reg_lines(universe, regs, frags, n);
    assert forall|i: int| 0 <= i < regs.len() implies {
        &&& #[trigger] lines[1 + 3 * i] == table[3 * i]
        &&& lines[2 + 3 * i] == table[3 * i + 1]
        &&& lines[3 + 3 * i] == table[3 * i + 2]
    } by {}
}

// ---- Parts of the lines

/// The text is the number in digits, without a zero in front.
pub open spec fn is_number(t: Seq<char>, n: int) -> bool {
    &&& t.len() > 0
    &&& forall|i: int| 0 <= i < t.len() ==> '0' as int <= (#[trigger] t[i]) as int <= '9' as int
    &&& number_of(t) == n
    &&& t.len() > 1 ==> t[0] != '0'
}

/// The text is the point, such as `i5.u`.
pub open spec fn is_point(t: Seq<char>, p: InstPoint) -> bool {
    exists|n: Seq<char>| #[trigger]
        is_number(n, p.iix.ix as int) && t == "i"@ + n + (match p.pt {
            Point::Reload => ".r"@,
            Point::Use => ".u"@,
            Point::Def => ".d"@,
            Point::Spill => ".s"@,
        })
}

proof fn lemma_is_number(n: int)
    requires
        0 <= n,
    ensures
        is_number(decimal(n), n),
{
    law_numbers_are_written_in_decimal(n);
}

proof fn lemma_is_point(p: InstPoint)
    ensures
        is_point(point_text(p), p),
{
    lemma_is_number(p.iix.ix as int);
}

/// A fragment is written as its number, and where it starts and ends. The three are the results.
pub proof fn law_how_fragments_are_written(fix: RangeFragIx, frag: RangeFrag) -> (r: (
    Seq<char>,
    Seq<char>,
    Seq<char>,
))
    ensures
        is_number(r.0, fix.ix as int),
        is_point(r.1, frag.first),
        is_point(r.2, frag.last),
        span_text(frag) == "("@ + r.1 + "-"@ + r.2 + ")"@,
        frag_text(fix, frag) == "f"@ + r.0 + "("@ + r.1 + "-"@ + r.2 + ")"@,
{
    let r = (decimal(fix.ix as int), point_text(frag.first), point_text(frag.last));
    lemma_is_number(fix.ix as int);
    lemma_is_point(frag.first);
    lemma_is_point(frag.last);
    assert(frag_text(fix, frag) =~= "f"@ + r.0 + "("@ + r.1 + "-"@ + r.2 + ")"@);
    r
}

/// Lists of fragments and of ranges have a text for each, in their order: a fragment with where it
/// is, or by its number alone, and a range by its number.
pub proof fn law_what_lists_consist_of(
    fixs: Seq<RangeFragIx>,
    vlrixs: Seq<VirtualRangeIx>,
    frags: Seq<RangeFrag>,
    i: int,
) -> (r: (Seq<char>, Seq<char>))
    ensures
        frag_texts(fixs, frags).len() == fixs.len(),
        fix_texts(fixs).len() == fixs.len(),
        vlrix_texts(vlrixs).len() == vlrixs.len(),
        0 <= i < fixs.len() ==> {
            &&& is_number(r.0, fixs[i].ix as int)
            &&& frag_texts(fixs, frags)[i] == frag_text(fixs[i], frags[fixs[i].ix as int])
            &&& fix_texts(fixs)[i] == "f"@ + r.0
        },
        0 <= i < vlrixs.len() ==> {
            &&& is_number(r.1, vlrixs[i].ix as int)
            &&& vlrix_texts(vlrixs)[i] == "vr"@ + r.1
        },
{
    let r = (decimal(fixs[i].ix as int), decimal(vlrixs[i].ix as int));
    lemma_is_number(fixs[i].ix as int);
    lemma_is_number(vlrixs[i].ix as int);
    r
}

/// A list is written in brackets.
pub proof fn law_lists_are_in_brackets(texts: Seq<Seq<char>>)
    ensures
        listed(texts).len() == joined(texts).len() + 2,
        listed(texts)[0] == '[',
        listed(texts).subrange(1, listed(texts).len() - 1) == joined(texts),
        listed(texts).last() == ']',
{
    reveal_strlit("[");
    reveal_strlit("]");
    let t = listed(texts);
    assert(t.subrange(1, t.len() - 1) =~= joined(texts));
}

/// A range is written as its virtual register, with its class; the register that it has, if any;
/// its size; its spill cost; and its fragments. The numbers are the results.
pub proof fn law_how_ranges_are_written(vlr: VlrView, cost: Seq<char>) -> (r: (
    Seq<char>,
    Seq<char>,
    Seq<char>,
))
    ensures
        is_number(r.0, vlr.vreg.index as int),
        vlr.rreg matches Some(rreg) ==> is_number(r.1, rreg.index as int),
        is_number(r.2, vlr.size as int),
        ({
            let class = match vlr.vreg.class {
                RegClass::I32 => "I32"@,
                RegClass::F32 => "F32"@,
                RegClass::I64 => "I64"@,
                RegClass::F64 => "F64"@,
                RegClass::V128 => "V128"@,
            };
            let rreg = if vlr.rreg is Some {
                " -> r"@ + r.1
            } else {
                Seq::empty()
            };
            let shown = if vlr.cost is Some {
                cost
            } else {
                "INFINITY"@
            };
            vlr_text(vlr, cost) == "(VR: v"@ + r.0 + class + rreg + ", sz="@ + r.2 + ", sc="@
                + shown + ", "@ + listed(fix_texts(vlr.frags)) + ")"@
        }),
{
    let rreg_index = vlr.rreg->0.index as int;
    let r = (decimal(vlr.vreg.index as int), decimal(rreg_index), decimal(vlr.size as int));
    lemma_is_number(vlr.vreg.index as int);
    lemma_is_number(rreg_index);
    lemma_is_number(vlr.size as int);
    reveal_strlit("(VR: ");
    reveal_strlit("v");
    reveal_strlit("(VR: v");
    assert("(VR: v"@ =~= "(VR: "@ + "v"@);
    let class = match vlr.vreg.class {
        RegClass::I32 => "I32"@,
        RegClass::F32 => "F32"@,
        RegClass::I64 => "I64"@,
        RegClass::F64 => "F64"@,
        RegClass::V128 => "V128"@,
    };
    let rreg = if vlr.rreg is Some {
        " -> r"@ + r.1
    } else {
        Seq::empty()
    };
    let shown = if vlr.cost is Some {
        cost
    } else {
        "INFINITY"@
    };
    assert(vlr_text(vlr, cost) =~= "(VR: v"@ + r.0 + class + rreg + ", sz="@ + r.2 + ", sc="@
        + shown + ", "@ + listed(fix_texts(vlr.frags)) + ")"@);
    r
}

/// An order is written as the number of its range, its kind, and the number of its slot. The two
/// numbers are the results.
pub proof fn law_how_orders_are_written(item: EditListItem) -> (r: (Seq<char>, Seq<char>))
    ensures
        is_number(r.0, item.vlrix.ix as int),
        is_number(r.1, item.slot.n as int),
        item.text() == "ELI { for vr"@ + r.0 + (match item.kind {
            BridgeKind::RtoU => " add 'R->U' S"@,
            BridgeKind::RtoS => " add 'R->S' S"@,
            BridgeKind::DtoS => " add 'D->S' S"@,
        }) + r.1 + " }"@,
{
    let r = (decimal(item.vlrix.ix as int), decimal(item.slot.n as int));
    lemma_is_number(item.vlrix.ix as int);
    lemma_is_number(item.slot.n as int);
    reveal_strlit("ELI { for ");
    reveal_strlit("vr");
    reveal_strlit("ELI { for vr");
    reveal_strlit(" add '");
    reveal_strlit("R->U");
    reveal_strlit("R->S");
    reveal_strlit("D->S");
    reveal_strlit("' ");
    reveal_strlit("S");
    reveal_strlit(" add 'R->U' S");
    reveal_strlit(" add 'R->S' S");
    reveal_strlit(" add 'D->S' S");
    assert("ELI { for vr"@ =~= "ELI { for "@ + "vr"@);
    assert(" add 'R->U' S"@ =~= " add '"@ + "R->U"@ + "' "@ + "S"@);
    assert(" add 'R->S' S"@ =~= " add '"@ + "R->S"@ + "' "@ + "S"@);
    assert(" add 'D->S' S"@ =~= " add '"@ + "D->S"@ + "' "@ + "S"@);
    assert(item.text() =~= "ELI { for vr"@ + r.0 + (match item.kind {
        BridgeKind::RtoU => " add 'R->U' S"@,
        BridgeKind::RtoS => " add 'R->S' S"@,
        BridgeKind::DtoS => " add 'D->S' S"@,
    }) + r.1 + " }"@);
    r
}

} // verus!
