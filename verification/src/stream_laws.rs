//! What can be relied on when instructions are spliced into a stream.

use crate::frags::{point_at, InstPoint, Point};
use crate::index::{InstIx, TypedIx};
use crate::stream::{insts_at, items_placed, spliced, spliced_from};
use vstd::prelude::*;

verus! {

/// The instruction at `j` of the first `k` instructions, spliced, is one of the source.
pub open spec fn is_source<I>(items: Seq<(InstPoint, I)>, k: int, j: int) -> bool {
    &&& 0 <= j < spliced_from(items, k).len()
    &&& spliced_from(items, k)[j] != InstIx::spec_invalid()
}

/// Instruction `i` of the source is somewhere in the outcome.
pub open spec fn appears<I>(items: Seq<(InstPoint, I)>, k: int, i: int) -> bool {
    exists|j: int| #[trigger] is_source(items, k, j) && spliced_from(items, k)[j].pos() == i
}

/// Splicing keeps the code: each instruction of the source is in the outcome, unchanged and in the
/// order of the source, and the record of where instructions come from tells which one it is.
pub proof fn law_splicing_keeps_the_code<I>(items: Seq<(InstPoint, I)>, insns: Seq<I>, k: int)
    requires
        0 <= k <= insns.len(),
        k <= u32::MAX,
    ensures
        spliced(items, insns, k).len() == spliced_from(items, k).len(),
        forall|j: int| #[trigger]
            is_source(items, k, j) ==> {
                let i = spliced_from(items, k)[j].pos();
                &&& 0 <= i < k
                &&& spliced(items, insns, k)[j] == insns[i]
            },
        forall|j: int, j2: int| #[trigger]
            is_source(items, k, j) && #[trigger] is_source(items, k, j2) && j < j2
                ==> spliced_from(items, k)[j].pos() < spliced_from(items, k)[j2].pos(),
        forall|i: int| 0 <= i < k ==> #[trigger] appears(items, k, i),
    decreases k,
{
    if k > 0 {
        law_splicing_keeps_the_code(items, insns, k - 1);
        let a = spliced_from(items, k - 1);
        let b = insts_at(items, point_at(k - 1, Point::Reload)).len();
        let all = spliced_from(items, k);
        let at = (a.len() + b) as int;
        assert(all[at] == (InstIx { ix: (k - 1) as u32 }));
        assert forall|j: int| #[trigger] is_source(items, k, j) implies {
            ||| j == at
            ||| j < a.len() && is_source(items, k - 1, j) && all[j] == a[j]
        } by {
            if j < a.len() {
                assert(all[j] == a[j]);
            }
        }
        assert forall|j: int| #[trigger] is_source(items, k, j) implies {
            let i = all[j].pos();
            &&& 0 <= i < k
            &&& spliced(items, insns, k)[j] == insns[i]
        } by {
            if j != at {
                assert(is_source(items, k - 1, j));
                assert(spliced(items, insns, k)[j] == spliced(items, insns, k - 1)[j]);
            }
        }
        assert forall|j: int, j2: int| #[trigger]
            is_source(items, k, j) && #[trigger] is_source(items, k, j2) && j
                < j2 implies all[j].pos() < all[j2].pos() by {
            assert(is_source(items, k - 1, j));
            if j2 != at {
                assert(is_source(items, k - 1, j2));
            }
        }
        assert forall|i: int| 0 <= i < k implies #[trigger] appears(items, k, i) by {
            if i == k - 1 {
                assert(is_source(items, k, at));
            } else {
                assert(appears(items, k - 1, i));
                let j = choose|j: int| #[trigger]
                    is_source(items, k - 1, j) && a[j].pos() == i;
                assert(all[j] == a[j]);
                assert(is_source(items, k, j));
            }
        }
    }
}

/// One more item makes one more instruction where it belongs, and none elsewhere.
proof fn lemma_insts_at_push<I>(items: Seq<(InstPoint, I)>, item: (InstPoint, I), p: InstPoint)
    ensures
        insts_at(items.push(item), p).len() == insts_at(items, p).len() + (if item.0 == p {
            1int
        } else {
            0
        }),
{
    assert(items.push(item).drop_last() =~= items);
}

proof fn lemma_spliced_push<I>(
    items: Seq<(InstPoint, I)>,
    item: (InstPoint, I),
    insns: Seq<I>,
    k: int,
)
    requires
        item.0.pt is Reload || item.0.pt is Spill,
        0 <= k <= u32::MAX,
    ensures
        spliced(items.push(item), insns, k).len() == spliced(items, insns, k).len() + (if item.0.iix.pos()
            < k {
            1int
        } else {
            0
        }),
    decreases k,
{
    if k > 0 {
        lemma_spliced_push(items, item, insns, k - 1);
        lemma_insts_at_push(items, item, point_at(k - 1, Point::Reload));
        lemma_insts_at_push(items, item, point_at(k - 1, Point::Spill));
        if item.0.iix.pos() == k - 1 {
            assert(item.0.iix == (InstIx { ix: (k - 1) as u32 }));
        }
    }
}

/// Every item is spliced in, and once only: the outcome is as long as the source and the items
/// together.
pub proof fn law_all_items_are_spliced_in<I>(items: Seq<(InstPoint, I)>, insns: Seq<I>)
    requires
        items_placed(items, insns.len() as int),
        insns.len() <= u32::MAX,
    ensures
        spliced(items, insns, insns.len() as int).len() == insns.len() + items.len(),
    decreases items.len(),
{
    if items.len() > 0 {
        let fewer = items.drop_last();
        assert forall|i: int| 0 <= i < fewer.len() implies {
            &&& (#[trigger] fewer[i]).0.pt is Reload || fewer[i].0.pt is Spill
            &&& fewer[i].0.iix.pos() < insns.len()
        } by {
            assert(fewer[i] == items[i]);
        }
        law_all_items_are_spliced_in(fewer, insns);
        assert(fewer.push(items.last()) =~= items);
        assert(items[items.len() - 1].0.iix.pos() < insns.len());
        lemma_spliced_push(fewer, items.last(), insns, insns.len() as int);
    } else {
        lemma_spliced_none(items, insns, insns.len() as int);
    }
}

proof fn lemma_spliced_none<I>(items: Seq<(InstPoint, I)>, insns: Seq<I>, k: int)
    requires
        items.len() == 0,
        0 <= k,
    ensures
        spliced(items, insns, k).len() == k,
    decreases k,
{
    if k > 0 {
        lemma_spliced_none(items, insns, k - 1);
    }
}

/// What the instructions before `first` come to is a prefix of the whole outcome, and what comes
/// behind it are the reloads for instruction `first`, and that instruction: a jump to where a
/// block starts runs its reloads, and nothing that belongs to other instructions.
pub proof fn law_blocks_start_at_their_targets<I>(
    items: Seq<(InstPoint, I)>,
    insns: Seq<I>,
    first: int,
    len: int,
)
    requires
        0 <= first < len <= insns.len(),
    ensures
        ({
            let all = spliced(items, insns, len);
            let before = spliced(items, insns, first);
            let reloads = insts_at(items, point_at(first, Point::Reload));
            &&& before.is_prefix_of(all)
            &&& (before + reloads).push(insns[first]).is_prefix_of(all)
        }),
    decreases len - first,
{
    let before = spliced(items, insns, first);
    let reloads = insts_at(items, point_at(first, Point::Reload));
    let head = (before + reloads).push(insns[first]);
    lemma_spliced_prefix(items, insns, first + 1, len);
    let next = spliced(items, insns, first + 1);
    assert(head.is_prefix_of(next)) by {
        assert(next.subrange(0, head.len() as int) =~= head);
    }
    assert forall|j: int| 0 <= j < head.len() implies head[j] == spliced(items, insns, len)[j] by {
        assert(head[j] == next[j]);
    }
    assert(before.is_prefix_of(head)) by {
        assert(head.subrange(0, before.len() as int) =~= before);
    }
}

proof fn lemma_spliced_prefix<I>(items: Seq<(InstPoint, I)>, insns: Seq<I>, a: int, b: int)
    requires
        0 <= a <= b,
    ensures
        spliced(items, insns, a).is_prefix_of(spliced(items, insns, b)),
    decreases b - a,
{
    if a < b {
        lemma_spliced_prefix(items, insns, a, b - 1);
        let s = spliced(items, insns, a);
        let t = spliced(items, insns, b - 1);
        let u = spliced(items, insns, b);
        assert forall|j: int| 0 <= j < s.len() implies s[j] == u[j] by {
            assert(s[j] == t[j]);
        }
    }
}

} // verus!
