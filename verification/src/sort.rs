//! A stable ordering of positions by key.

use vstd::prelude::*;

verus! {

/// Position `a` comes before position `b`: it has the smaller key, or the same key and it is the
/// earlier of the two.
pub open spec fn comes_before(keys: Seq<u64>, a: int, b: int) -> bool {
    keys[a] < keys[b] || (keys[a] == keys[b] && a < b)
}

/// `order` lists positions of `keys`, each before the next.
pub open spec fn ordered(keys: Seq<u64>, order: Seq<usize>) -> bool {
    &&& forall|i: int| 0 <= i < order.len() ==> (#[trigger] order[i]) < keys.len()
    &&& forall|i: int, j: int|
        0 <= i < j < order.len() ==> comes_before(
            keys,
            (#[trigger] order[i]) as int,
            (#[trigger] order[j]) as int,
        )
}

/// `order` lists every position of `keys` once, by key, positions with equal keys in their
/// original order.
pub open spec fn is_stable_order(keys: Seq<u64>, order: Seq<usize>) -> bool {
    &&& ordered(keys, order)
    &&& forall|x: usize| x < keys.len() ==> #[trigger] order.contains(x)
}

/// The positions of `keys` in order of their keys, positions with equal keys in their original
/// order.
pub fn stable_order(keys: &Vec<u64>) -> (order: Vec<usize>)
    ensures
        is_stable_order(keys@, order@),
{
    order_between(keys, 0, keys.len())
}

fn order_between(keys: &Vec<u64>, lo: usize, hi: usize) -> (order: Vec<usize>)
    requires
        lo <= hi <= keys@.len(),
    ensures
        ordered(keys@, order@),
        forall|x: usize| #[trigger] order@.contains(x) <==> lo <= x < hi,
    decreases hi - lo,
{
    let mut order: Vec<usize> = Vec::new();
    if hi - lo == 0 {
        return order;
    }
    if hi - lo == 1 {
        order.push(lo);
        assert(order@[0] == lo);
        return order;
    }
    let mid = lo + (hi - lo) / 2;
    let left = order_between(keys, lo, mid);
    let right = order_between(keys, mid, hi);
    let mut i: usize = 0;
    let mut j: usize = 0;
    proof {
        assert forall|k: int| 0 <= k < left@.len() implies lo <= #[trigger] left@[k] < mid by {
            assert(left@.contains(left@[k]));
        }
        assert forall|k: int| 0 <= k < right@.len() implies mid <= #[trigger] right@[k] < hi by {
            assert(right@.contains(right@[k]));
        }
    }
    while i < left.len() || j < right.len()
        invariant
            lo <= mid <= hi,
            i <= left@.len(),
            j <= right@.len(),
            ordered(keys@, left@),
            ordered(keys@, right@),
            ordered(keys@, order@),
            forall|k: int| 0 <= k < left@.len() ==> lo <= #[trigger] left@[k] < mid,
            forall|k: int| 0 <= k < right@.len() ==> mid <= #[trigger] right@[k] < hi,
            forall|k: int, l: int|
                0 <= k < order@.len() && i <= l < left@.len() ==> comes_before(
                    keys@,
                    (#[trigger] order@[k]) as int,
                    (#[trigger] left@[l]) as int,
                ),
            forall|k: int, l: int|
                0 <= k < order@.len() && j <= l < right@.len() ==> comes_before(
                    keys@,
                    (#[trigger] order@[k]) as int,
                    (#[trigger] right@[l]) as int,
                ),
            forall|k: int| 0 <= k < order@.len() ==> lo <= #[trigger] order@[k] < hi,
            forall|k: int| 0 <= k < i ==> order@.contains(#[trigger] left@[k]),
            forall|k: int| 0 <= k < j ==> order@.contains(#[trigger] right@[k]),
        decreases left@.len() - i + right@.len() - j,
    {
        let take_left = if i >= left.len() {
            false
        } else if j >= right.len() {
            true
        } else {
            keys[left[i]] <= keys[right[j]]
        };
        let ghost before = order@;
        if take_left {
            order.push(left[i]);
            i += 1;
        } else {
            order.push(right[j]);
            j += 1;
        }
        proof {
            assert(order@[before.len() as int] == order@.last());
            assert forall|x: usize| before.contains(x) implies order@.contains(x) by {
                let k = choose|k: int| 0 <= k < before.len() && before[k] == x;
                assert(order@[k] == x);
            }
        }
    }
    assert forall|x: usize| lo <= x < hi implies #[trigger] order@.contains(x) by {
        if x < mid {
            assert(left@.contains(x));
            let k = choose|k: int| 0 <= k < left@.len() && left@[k] == x;
            assert(order@.contains(left@[k]));
        } else {
            assert(right@.contains(x));
            let k = choose|k: int| 0 <= k < right@.len() && right@[k] == x;
            assert(order@.contains(right@[k]));
        }
    }
    order
}

/// Positions `start` up to `end` of the order have key `k`, those before have smaller ones, those
/// behind have greater ones.
pub open spec fn is_group(
    keys: Seq<u64>,
    order: Seq<usize>,
    k: int,
    start: int,
    end: int,
) -> bool {
    &&& 0 <= start <= end <= order.len()
    &&& forall|j: int| 0 <= j < start ==> keys[(#[trigger] order[j]) as int] < k
    &&& forall|j: int| start <= j < end ==> keys[(#[trigger] order[j]) as int] == k
    &&& forall|j: int| end <= j < order.len() ==> keys[(#[trigger] order[j]) as int] > k
}

/// Between two neighbours of a group, and outside it, no position has the key of the group.
pub proof fn lemma_group_gap(
    keys: Seq<u64>,
    order: Seq<usize>,
    k: int,
    start: int,
    end: int,
    j: int,
    lo: int,
    hi: int,
)
    requires
        keys.len() <= usize::MAX,
        is_stable_order(keys, order),
        is_group(keys, order, k, start, end),
        start <= j <= end,
        lo == (if j == start {
            0
        } else {
            order[j - 1] + 1
        }),
        hi == (if j == end {
            keys.len() as int
        } else {
            order[j] as int
        }),
    ensures
        0 <= lo <= hi <= keys.len(),
        forall|i: int| lo <= i < hi ==> #[trigger] keys[i] != k,
{
    if j > start && j < end {
        assert(comes_before(keys, order[j - 1] as int, order[j] as int));
    }
    assert forall|i: int| lo <= i < hi implies #[trigger] keys[i] != k by {
        if keys[i] == k {
            assert(order.contains(i as usize));
            let q = choose|q: int| 0 <= q < order.len() && order[q] == i as usize;
            assert(keys[order[q] as int] == k);
            assert(start <= q < end);
            if q < j - 1 {
                assert(comes_before(keys, order[q] as int, order[j - 1] as int));
            }
            if j < end && q > j {
                assert(comes_before(keys, order[j] as int, order[q] as int));
            }
        }
    }
}

/// A stable order has as many entries as there are keys.
pub proof fn lemma_order_len(keys: Seq<u64>, order: Seq<usize>)
    requires
        is_stable_order(keys, order),
        keys.len() <= usize::MAX,
    ensures
        order.len() == keys.len(),
{
    let all = Seq::new(keys.len(), |i: int| i as usize);
    assert(order.no_duplicates()) by {
        assert forall|i: int, j: int| 0 <= i < order.len() && 0 <= j < order.len() && i
            != j implies order[i] != order[j] by {
            if i < j {
                assert(comes_before(keys, order[i] as int, order[j] as int));
            } else {
                assert(comes_before(keys, order[j] as int, order[i] as int));
            }
        }
    }
    assert(order.to_set() =~= all.to_set()) by {
        assert forall|x: usize| order.to_set().contains(x) implies all.to_set().contains(x) by {
            let i = choose|i: int| 0 <= i < order.len() && order[i] == x;
            assert(order[i] < keys.len());
            assert(all[x as int] == x);
        }
        assert forall|x: usize| all.to_set().contains(x) implies order.to_set().contains(x) by {
            let i = choose|i: int| 0 <= i < all.len() && all[i] == x;
            assert(order.contains(x));
        }
    }
    order.unique_seq_to_set();
    all.unique_seq_to_set();
}

/// An ordering names every position, each of them once; the keys do not decrease along it, and
/// among equal keys the positions increase.
pub proof fn law_orderings_are_stable(keys: Seq<u64>, order: Seq<usize>)
    requires
        is_stable_order(keys, order),
        keys.len() <= usize::MAX,
    ensures
        order.len() == keys.len(),
        forall|i: int| 0 <= i < order.len() ==> (#[trigger] order[i]) < keys.len(),
        forall|x: usize| x < keys.len() ==> #[trigger] order.contains(x),
        forall|i: int, j: int|
            0 <= i < j < order.len() ==> {
                &&& #[trigger] order[i] != #[trigger] order[j]
                &&& keys[order[i] as int] <= keys[order[j] as int]
                &&& keys[order[i] as int] == keys[order[j] as int] ==> order[i] < order[j]
            },
{
    lemma_order_len(keys, order);
}

} // verus!
