//! Texts for the log and for error messages.

use crate::frags::{InstPoint, Point, RangeFrag};
use crate::index::{RangeFragIx, TypedIx, TypedIxVec, VirtualRangeIx};
use crate::prio_queue::VirtualRangePrioQ;
use crate::ranges::{vlr_views, VirtualRange, VlrView};
use crate::real_reg::PerRealReg;
use crate::regs::{RealReg, RealRegUniverse, RegClass, VirtualReg};
use crate::spill::{BridgeKind, EditListItem};
use vstd::prelude::*;

verus! {

/// The name of a register class.
pub open spec fn class_text(class: RegClass) -> Seq<char> {
    match class {
        RegClass::I32 => "I32"@,
        RegClass::F32 => "F32"@,
        RegClass::I64 => "I64"@,
        RegClass::F64 => "F64"@,
        RegClass::V128 => "V128"@,
    }
}

/// The name of a register class.
pub fn show_class(class: RegClass) -> (r: &'static str)
    ensures
        r@ == class_text(class),
{
    match class {
        RegClass::I32 => "I32",
        RegClass::F32 => "F32",
        RegClass::I64 => "I64",
        RegClass::F64 => "F64",
        RegClass::V128 => "V128",
    }
}

// ---- Numbers

/// A decimal digit.
pub open spec fn digit_text(d: int) -> Seq<char> {
    if d == 0 {
        "0"@
    } else if d == 1 {
        "1"@
    } else if d == 2 {
        "2"@
    } else if d == 3 {
        "3"@
    } else if d == 4 {
        "4"@
    } else if d == 5 {
        "5"@
    } else if d == 6 {
        "6"@
    } else if d == 7 {
        "7"@
    } else if d == 8 {
        "8"@
    } else {
        "9"@
    }
}

fn show_digit(d: u32) -> (r: &'static str)
    requires
        d < 10,
    ensures
        r@ == digit_text(d as int),
{
    match d {
        0 => "0",
        1 => "1",
        2 => "2",
        3 => "3",
        4 => "4",
        5 => "5",
        6 => "6",
        7 => "7",
        8 => "8",
        _ => "9",
    }
}

/// A number in decimal notation.
pub open spec fn decimal(n: int) -> Seq<char>
    decreases n,
{
    if n < 10 {
        digit_text(n)
    } else {
        decimal(n / 10) + digit_text(n % 10)
    }
}

fn put_decimal(out: &mut String, n: u32)
    ensures
        final(out)@ == old(out)@ + decimal(n as int),
    decreases n,
{
    if n < 10 {
        out.append(show_digit(n));
    } else {
        put_decimal(out, n / 10);
        out.append(show_digit(n % 10));
        assert(out@ =~= old(out)@ + decimal(n as int));
    }
}

/// A letter, or a few, and a number.
pub open spec fn numbered(name: Seq<char>, n: int) -> Seq<char> {
    name + decimal(n)
}

fn put_numbered(out: &mut String, name: &str, n: u32)
    ensures
        final(out)@ == old(out)@ + numbered(name@, n as int),
{
    out.append(name);
    put_decimal(out, n);
    assert(out@ =~= old(out)@ + numbered(name@, n as int));
}

// ---- Fragments and ranges

pub open spec fn pt_text(pt: Point) -> Seq<char> {
    match pt {
        Point::Reload => ".r"@,
        Point::Use => ".u"@,
        Point::Def => ".d"@,
        Point::Spill => ".s"@,
    }
}

/// A point, such as `i5.u`.
pub open spec fn point_text(p: InstPoint) -> Seq<char> {
    numbered("i"@, p.iix.pos()) + pt_text(p.pt)
}

fn put_point(out: &mut String, p: InstPoint)
    ensures
        final(out)@ == old(out)@ + point_text(p),
{
    put_numbered(out, "i", p.iix.get());
    match p.pt {
        Point::Reload => out.append(".r"),
        Point::Use => out.append(".u"),
        Point::Def => out.append(".d"),
        Point::Spill => out.append(".s"),
    }
    assert(out@ =~= old(out)@ + point_text(p));
}

/// Where a fragment is, such as `(i1.d-i4.u)`.
pub open spec fn span_text(frag: RangeFrag) -> Seq<char> {
    "("@ + point_text(frag.first) + "-"@ + point_text(frag.last) + ")"@
}

impl RangeFrag {
    /// Where the fragment is, as text.
    pub fn show(&self) -> (r: String)
        ensures
            r@ == span_text(*self),
    {
        let mut r = "(".to_owned();
        put_point(&mut r, self.first);
        r.append("-");
        put_point(&mut r, self.last);
        r.append(")");
        assert(r@ =~= span_text(*self));
        r
    }
}

/// A fragment, such as `f3(i1.d-i4.u)`.
pub open spec fn frag_text(fix: RangeFragIx, frag: RangeFrag) -> Seq<char> {
    numbered("f"@, fix.pos()) + span_text(frag)
}

fn put_frag(out: &mut String, fix: RangeFragIx, frag: &RangeFrag)
    ensures
        final(out)@ == old(out)@ + frag_text(fix, *frag),
{
    put_numbered(out, "f", fix.get());
    let span = frag.show();
    out.append(span.as_str());
    assert(out@ =~= old(out)@ + frag_text(fix, *frag));
}

/// The texts with a separator between them.
pub open spec fn joined(texts: Seq<Seq<char>>) -> Seq<char>
    decreases texts.len(),
{
    if texts.len() == 0 {
        Seq::empty()
    } else if texts.len() == 1 {
        texts[0]
    } else {
        joined(texts.drop_last()) + ", "@ + texts.last()
    }
}

/// A list of texts.
pub open spec fn listed(texts: Seq<Seq<char>>) -> Seq<char> {
    "["@ + joined(texts) + "]"@
}

pub open spec fn frag_texts(ixs: Seq<RangeFragIx>, fenv: Seq<RangeFrag>) -> Seq<Seq<char>> {
    ixs.map_values(|f: RangeFragIx| frag_text(f, fenv[f.pos()]))
}

pub open spec fn fix_texts(ixs: Seq<RangeFragIx>) -> Seq<Seq<char>> {
    ixs.map_values(|f: RangeFragIx| numbered("f"@, f.pos()))
}

pub open spec fn vlrix_texts(ixs: Seq<VirtualRangeIx>) -> Seq<Seq<char>> {
    ixs.map_values(|x: VirtualRangeIx| numbered("vr"@, x.pos()))
}

/// Adds one more text to a list of `n`.
fn put_next(out: &mut String, n: usize, text: &String)
    ensures
        final(out)@ == old(out)@ + (if n == 0 {
            text@
        } else {
            ", "@ + text@
        }),
{
    if n > 0 {
        out.append(", ");
    }
    out.append(text.as_str());
    assert(out@ =~= old(out)@ + (if n == 0 {
        text@
    } else {
        ", "@ + text@
    }));
}

/// A text joins the ones before it.
proof fn lemma_joined(texts: Seq<Seq<char>>, n: int)
    requires
        0 <= n < texts.len(),
    ensures
        joined(texts.take(n + 1)) == joined(texts.take(n)) + (if n == 0 {
            texts[n]
        } else {
            ", "@ + texts[n]
        }),
{
    assert(texts.take(n + 1).drop_last() =~= texts.take(n));
    assert(texts.take(n + 1).last() == texts[n]);
    if n == 0 {
        assert(texts.take(1)[0] == texts[0]);
        assert(joined(texts.take(1)) =~= joined(texts.take(0)) + texts[0]);
    } else {
        assert(joined(texts.take(n + 1)) =~= joined(texts.take(n)) + (", "@ + texts[n]));
    }
}

fn show_frags(ixs: &Vec<RangeFragIx>, fenv: &TypedIxVec<RangeFragIx, RangeFrag>) -> (r: String)
    requires
        forall|i: int| 0 <= i < ixs@.len() ==> (#[trigger] ixs@[i]).pos() < fenv@.len(),
    ensures
        r@ == listed(frag_texts(ixs@, fenv@)),
{
    let ghost texts = frag_texts(ixs@, fenv@);
    let mut out = "[".to_owned();
    let mut i: usize = 0;
    assert(out@ =~= "["@ + joined(texts.take(0)));
    while i < ixs.len()
        invariant
            i <= ixs@.len(),
            texts == frag_texts(ixs@, fenv@),
            forall|i: int| 0 <= i < ixs@.len() ==> (#[trigger] ixs@[i]).pos() < fenv@.len(),
            out@ == "["@ + joined(texts.take(i as int)),
        decreases ixs@.len() - i,
    {
        let mut text = String::new();
        put_frag(&mut text, ixs[i], fenv.at(ixs[i]));
        assert(text@ =~= texts[i as int]);
        proof {
            lemma_joined(texts, i as int);
        }
        put_next(&mut out, i, &text);
        i += 1;
        assert(out@ =~= "["@ + joined(texts.take(i as int)));
    }
    assert(texts.take(i as int) =~= texts);
    out.append("]");
    out
}

fn show_fixs(ixs: &Vec<RangeFragIx>) -> (r: String)
    ensures
        r@ == listed(fix_texts(ixs@)),
{
    let ghost texts = fix_texts(ixs@);
    let mut out = "[".to_owned();
    let mut i: usize = 0;
    assert(out@ =~= "["@ + joined(texts.take(0)));
    while i < ixs.len()
        invariant
            i <= ixs@.len(),
            texts == fix_texts(ixs@),
            out@ == "["@ + joined(texts.take(i as int)),
        decreases ixs@.len() - i,
    {
        let mut text = String::new();
        put_numbered(&mut text, "f", ixs[i].get());
        assert(text@ =~= texts[i as int]);
        proof {
            lemma_joined(texts, i as int);
        }
        put_next(&mut out, i, &text);
        i += 1;
        assert(out@ =~= "["@ + joined(texts.take(i as int)));
    }
    assert(texts.take(i as int) =~= texts);
    out.append("]");
    out
}

fn show_vlrixs(ixs: &Vec<VirtualRangeIx>) -> (r: String)
    ensures
        r@ == listed(vlrix_texts(ixs@)),
{
    let ghost texts = vlrix_texts(ixs@);
    let mut out = "[".to_owned();
    let mut i: usize = 0;
    assert(out@ =~= "["@ + joined(texts.take(0)));
    while i < ixs.len()
        invariant
            i <= ixs@.len(),
            texts == vlrix_texts(ixs@),
            out@ == "["@ + joined(texts.take(i as int)),
        decreases ixs@.len() - i,
    {
        let mut text = String::new();
        put_numbered(&mut text, "vr", ixs[i].get());
        assert(text@ =~= texts[i as int]);
        proof {
            lemma_joined(texts, i as int);
        }
        put_next(&mut out, i, &text);
        i += 1;
        assert(out@ =~= "["@ + joined(texts.take(i as int)));
    }
    assert(texts.take(i as int) =~= texts);
    out.append("]");
    out
}

/// A virtual register, such as `v7I32`.
pub open spec fn vreg_text(vreg: VirtualReg) -> Seq<char> {
    numbered("v"@, vreg.index as int) + class_text(vreg.class)
}

/// A virtual range, such as `(VR: v7I32 -> r2, sz=4, sc=1.5, [f3, f4])`. Its spill cost is `cost`
/// as text, if it is finite.
pub open spec fn vlr_text(vlr: VlrView, cost: Seq<char>) -> Seq<char> {
    let rreg = match vlr.rreg {
        Some(r) => numbered(" -> r"@, r.index as int),
        None => Seq::empty(),
    };
    let cost = match vlr.cost {
        Some(_) => cost,
        None => "INFINITY"@,
    };
    "(VR: "@ + vreg_text(vlr.vreg) + rreg + numbered(", sz="@, vlr.size as int) + ", sc="@ + cost
        + ", "@ + listed(fix_texts(vlr.frags)) + ")"@
}

impl VirtualRange {
    /// The range as text, as it is when it has the register `rreg`, or none. `cost` is its spill
    /// cost as text, which matters if that is finite.
    pub fn show_with(&self, rreg: Option<RealReg>, cost: &str) -> (r: String)
        ensures
            r@ == vlr_text(VlrView { rreg, ..self@ }, cost@),
    {
        let mut r = "(VR: ".to_owned();
        put_numbered(&mut r, "v", self.vreg.index);
        r.append(show_class(self.vreg.class));
        if let Some(rreg) = rreg {
            put_numbered(&mut r, " -> r", rreg.index as u32);
        }
        put_numbered(&mut r, ", sz=", self.size as u32);
        r.append(", sc=");
        match self.spillCost {
            Some(_) => r.append(cost),
            None => r.append("INFINITY"),
        }
        r.append(", ");
        let frags = show_fixs(&self.sortedFrags.fragIxs);
        r.append(frags.as_str());
        r.append(")");
        assert(r@ =~= vlr_text(VlrView { rreg, ..self@ }, cost@));
        r
    }

    /// The range as text. `cost` is its spill cost as text, which matters if that is finite.
    pub fn show(&self, cost: &str) -> (r: String)
        ensures
            r@ == vlr_text(self@, cost@),
    {
        self.show_with(self.rreg, cost)
    }
}

// ---- The tables

/// Lines of text as mathematical values.
pub open spec fn line_views(lines: Seq<String>) -> Seq<Seq<char>> {
    lines.map_values(|s: String| s@)
}

impl VirtualRangePrioQ {
    /// A line for each range that is still to be allocated. `costs` are the spill costs of the
    /// ranges as texts.
    pub open spec fn lines(&self, vlrs: Seq<VlrView>, costs: Seq<Seq<char>>) -> Seq<Seq<char>> {
        self@.map_values(
            |x: VirtualRangeIx| "TODO  "@ + vlr_text(vlrs[x.pos()], costs[x.pos()]),
        )
    }

    /// Each range that is still to be allocated is in the environment, and has a text for its spill
    /// cost if that is finite.
    pub open spec fn can_be_shown(&self, vlrs: Seq<VlrView>, costs: Seq<String>) -> bool {
        forall|i: int|
            0 <= i < self@.len() ==> {
                &&& (#[trigger] self@[i]).pos() < vlrs.len()
                &&& vlrs[self@[i].pos()].cost is Some ==> self@[i].pos() < costs.len()
            }
    }

    /// A line for each range that is still to be allocated. `costs` has a text for the spill cost
    /// of each range for which that is finite.
    pub fn show_with_envs(
        &self,
        vlr_env: &TypedIxVec<VirtualRangeIx, VirtualRange>,
        costs: &Vec<String>,
    ) -> (r: Vec<String>)
        requires
            self.can_be_shown(vlr_views(vlr_env@), costs@),
        ensures
            line_views(r@) == self.lines(vlr_views(vlr_env@), line_views(costs@)),
    {
        let ghost vlrs = vlr_views(vlr_env@);
        let ghost lines = self.lines(vlrs, line_views(costs@));
        let mut r: Vec<String> = Vec::new();
        let mut i: usize = 0;
        while i < self.unallocated.len()
            invariant
                vlrs == vlr_views(vlr_env@),
                lines == self.lines(vlrs, line_views(costs@)),
                self.can_be_shown(vlrs, costs@),
                i <= self@.len(),
                line_views(r@) =~= lines.take(i as int),
            decreases self@.len() - i,
        {
            let mut line = "TODO  ".to_owned();
            let x = self.unallocated[i];
            assert(self@[i as int] == x);
            let vlr = vlr_env.at(x);
            assert(vlrs[x.pos()] == vlr@);
            let text = match vlr.spillCost {
                Some(_) => vlr.show(costs[x.get() as usize].as_str()),
                None => vlr.show(""),
            };
            line.append(text.as_str());
            assert(text@ == vlr_text(vlr@, line_views(costs@)[x.pos()]));
            assert(line@ =~= lines[i as int]);
            let ghost before = line_views(r@);
            r.push(line);
            assert(line_views(r@) =~= before.push(line@));
            i += 1;
        }
        assert(lines.take(i as int) =~= lines);
        r
    }
}

impl PerRealReg {
    /// The fragments that the register is committed to.
    pub open spec fn line1(&self, fenv: Seq<RangeFrag>) -> Seq<char> {
        "in_use:   "@ + listed(frag_texts(self.frags_in_use@, fenv))
    }

    /// The ranges that are assigned to the register.
    pub open spec fn line2(&self) -> Seq<char> {
        "assigned: "@ + listed(vlrix_texts(self.vlrixs_assigned@))
    }

    /// The fragments that the register is committed to.
    pub fn show1_with_envs(&self, fenv: &TypedIxVec<RangeFragIx, RangeFrag>) -> (r: String)
        requires
            self.wf(fenv@),
        ensures
            r@ == self.line1(fenv@),
    {
        let mut r = "in_use:   ".to_owned();
        let frags = show_frags(&self.frags_in_use.fragIxs, fenv);
        r.append(frags.as_str());
        r
    }

    /// The ranges that are assigned to the register.
    pub fn show2_with_envs(&self, _fenv: &TypedIxVec<RangeFragIx, RangeFrag>) -> (r: String)
        ensures
            r@ == self.line2(),
    {
        let mut r = "assigned: ".to_owned();
        let ranges = show_vlrixs(&self.vlrixs_assigned);
        r.append(ranges.as_str());
        r
    }
}

impl BridgeKind {
    pub open spec fn text(self) -> Seq<char> {
        match self {
            BridgeKind::RtoU => "R->U"@,
            BridgeKind::RtoS => "R->S"@,
            BridgeKind::DtoS => "D->S"@,
        }
    }

    /// Which points the bridge connects.
    pub fn show(self) -> (r: &'static str)
        ensures
            r@ == self.text(),
    {
        match self {
            BridgeKind::RtoU => "R->U",
            BridgeKind::RtoS => "R->S",
            BridgeKind::DtoS => "D->S",
        }
    }
}

impl EditListItem {
    pub open spec fn text(self) -> Seq<char> {
        "ELI { for "@ + numbered("vr"@, self.vlrix.pos()) + " add '"@ + self.kind.text() + "' "@
            + numbered("S"@, self.slot.n as int) + " }"@
    }

    /// The order, such as `ELI { for vr7 add 'R->U' S0 }`.
    pub fn show(self) -> (r: String)
        ensures
            r@ == self.text(),
    {
        let mut r = "ELI { for ".to_owned();
        put_numbered(&mut r, "vr", self.vlrix.get());
        r.append(" add '");
        r.append(self.kind.show());
        r.append("' ");
        put_numbered(&mut r, "S", self.slot.get());
        r.append(" }");
        assert(r@ =~= self.text());
        r
    }
}

/// A name, filled up with blanks to a width of four.
pub open spec fn padded(name: Seq<char>) -> Seq<char> {
    if name.len() == 0 {
        name + "    "@
    } else if name.len() == 1 {
        name + "   "@
    } else if name.len() == 2 {
        name + "  "@
    } else if name.len() == 3 {
        name + " "@
    } else {
        name
    }
}

fn put_padded(out: &mut String, name: &String)
    ensures
        final(out)@ == old(out)@ + padded(name@),
{
    out.append(name.as_str());
    let len: usize = name.as_str().unicode_len();
    if len == 0 {
        out.append("    ");
    } else if len == 1 {
        out.append("   ");
    } else if len == 2 {
        out.append("  ");
    } else if len == 3 {
        out.append(" ");
    }
    assert(out@ =~= old(out)@ + padded(name@));
}

/// The lines for the first `n` registers.
pub open spec fn reg_lines(
    universe: RealRegUniverse,
    regs: Seq<PerRealReg>,
    frags: Seq<RangeFrag>,
    n: int,
) -> Seq<Seq<char>>
    decreases n,
{
    if n <= 0 {
        Seq::empty()
    } else {
        reg_lines(universe, regs, frags, n - 1) + seq![
            padded(universe.regs@[n - 1].1@) + "   "@ + regs[n - 1].line1(frags),
            "      "@ + regs[n - 1].line2(),
            Seq::empty(),
        ]
    }
}

/// The lines for the edit list.
pub open spec fn edit_lines(edits: Seq<EditListItem>) -> Seq<Seq<char>> {
    edits.map_values(|e: EditListItem| e.text())
}

/// The tables of the allocator, line by line. `costs` are the spill costs of the ranges as texts.
pub open spec fn ra_state_lines(
    who: Seq<char>,
    universe: RealRegUniverse,
    prioQ: VirtualRangePrioQ,
    regs: Seq<PerRealReg>,
    edits: Seq<EditListItem>,
    vlrs: Seq<VlrView>,
    frags: Seq<RangeFrag>,
    costs: Seq<Seq<char>>,
) -> Seq<Seq<char>> {
    seq!["<<<<====---- RA state at '"@ + who + "' ----===="@] + reg_lines(
        universe,
        regs,
        frags,
        regs.len() as int,
    ) + prioQ.lines(vlrs, costs) + edit_lines(edits) + seq![">>>>"@]
}

/// The tables of the allocator, line by line, for the log. `costs` has a text for the spill cost of
/// each range for which that is finite.
pub fn show_RA_state(
    who: &str,
    universe: &RealRegUniverse,
    prioQ: &VirtualRangePrioQ,
    perRealReg: &Vec<PerRealReg>,
    edit_list: &Vec<EditListItem>,
    vlr_env: &TypedIxVec<VirtualRangeIx, VirtualRange>,
    frag_env: &TypedIxVec<RangeFragIx, RangeFrag>,
    costs: &Vec<String>,
) -> (r: Vec<String>)
    requires
        perRealReg@.len() <= universe.regs@.len(),
        forall|i: int|
            0 <= i < perRealReg@.len() ==> (#[trigger] perRealReg@[i]).wf(frag_env@),
        prioQ.can_be_shown(vlr_views(vlr_env@), costs@),
    ensures
        line_views(r@) == ra_state_lines(
            who@,
            *universe,
            *prioQ,
            perRealReg@,
            edit_list@,
            vlr_views(vlr_env@),
            frag_env@,
            line_views(costs@),
        ),
{
    let mut r: Vec<String> = Vec::new();
    let mut head = "<<<<====---- RA state at '".to_owned();
    head.append(who);
    head.append("' ----====");
    let ghost head_lines = seq![head@];
    r.push(head);
    let mut i: usize = 0;
    assert(line_views(r@) =~= head_lines + reg_lines(*universe, perRealReg@, frag_env@, 0));
    while i < perRealReg.len()
        invariant
            perRealReg@.len() <= universe.regs@.len(),
            forall|i: int|
                0 <= i < perRealReg@.len() ==> (#[trigger] perRealReg@[i]).wf(frag_env@),
            i <= perRealReg@.len(),
            line_views(r@) == head_lines + reg_lines(
                *universe,
                perRealReg@,
                frag_env@,
                i as int,
            ),
        decreases perRealReg@.len() - i,
    {
        let ghost before = line_views(r@);
        let mut line1 = String::new();
        put_padded(&mut line1, &universe.regs[i].1);
        line1.append("   ");
        let text1 = perRealReg[i].show1_with_envs(frag_env);
        line1.append(text1.as_str());
        let mut line2 = "      ".to_owned();
        let text2 = perRealReg[i].show2_with_envs(frag_env);
        line2.append(text2.as_str());
        let line3 = String::new();
        proof {
            assert(line1@ =~= padded(universe.regs@[i as int].1@) + "   "@
                + perRealReg@[i as int].line1(frag_env@));
            assert(line2@ =~= "      "@ + perRealReg@[i as int].line2());
            assert(line3@ =~= Seq::empty());
        }
        r.push(line1);
        r.push(line2);
        r.push(line3);
        i += 1;
        proof {
            assert(line_views(r@) =~= before + seq![line1@, line2@, line3@]);
            assert(line_views(r@) =~= head_lines + reg_lines(
                *universe,
                perRealReg@,
                frag_env@,
                i as int,
            ));
        }
    }
    let ghost with_regs = line_views(r@);
    let mut todo = prioQ.show_with_envs(vlr_env, costs);
    let ghost todo_lines = line_views(todo@);
    r.append(&mut todo);
    assert(line_views(r@) =~= with_regs + todo_lines);
    let ghost with_queue = line_views(r@);
    let mut e: usize = 0;
    assert(line_views(r@) =~= with_queue + edit_lines(edit_list@).take(0));
    while e < edit_list.len()
        invariant
            e <= edit_list@.len(),
            line_views(r@) == with_queue + edit_lines(edit_list@).take(e as int),
        decreases edit_list@.len() - e,
    {
        let ghost before = line_views(r@);
        let line = edit_list[e].show();
        assert(line@ == edit_lines(edit_list@)[e as int]);
        r.push(line);
        e += 1;
        proof {
            assert(line_views(r@) =~= before.push(line@));
            assert(line_views(r@) =~= with_queue + edit_lines(edit_list@).take(e as int));
        }
    }
    let ghost with_edits = line_views(r@);
    r.push(">>>>".to_owned());
    proof {
        assert(edit_lines(edit_list@).take(e as int) =~= edit_lines(edit_list@));
        assert(line_views(r@) =~= with_edits.push(">>>>"@));
        assert(line_views(r@) =~= ra_state_lines(
            who@,
            *universe,
            *prioQ,
            perRealReg@,
            edit_list@,
            vlr_views(vlr_env@),
            frag_env@,
            line_views(costs@),
        ));
    }
    r
}

} // verus!
