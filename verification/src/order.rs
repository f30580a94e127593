//! Stable ordering of positions by a `u64` key, largest key first.
//!
//! Folders list their children from the largest to the smallest, and the
//! entries shown for a folder are listed the same way. Both keep the input
//! order among items of equal size, as a stable sort does.

use vstd::prelude::*;

verus! {

/// Position `a` comes before position `b`: its key is larger, or the keys are
/// equal and `a` came first.
pub open spec fn precedes(keys: Seq<u64>, a: int, b: int) -> bool {
    keys[a] > keys[b] || (keys[a] == keys[b] && a < b)
}

/// `order` holds positions of `keys`, each in `[lo, hi)`, sorted by `precedes`.
/// Since `precedes` is strict, no position occurs twice.
pub open spec fn is_desc_order_range(keys: Seq<u64>, order: Seq<usize>, lo: int, hi: int) -> bool {
    &&& order.len() == hi - lo
    &&& forall|i: int| 0 <= i < order.len() ==> lo <= #[trigger] order[i] < hi
    &&& forall|i: int, j: int|
        0 <= i < j < order.len() ==> precedes(keys, #[trigger] order[i] as int, #[trigger] order[j] as int)
}

/// `order` is the stable descending order of `keys`: every position of `keys`
/// once, from the largest key to the smallest, ties in their input order.
pub open spec fn is_desc_order(keys: Seq<u64>, order: Seq<usize>) -> bool {
    is_desc_order_range(keys, order, 0, keys.len() as int)
}

/// Arranges `items` by `order`: the `i`-th result is `items[order[i]]`.
pub open spec fn arrange<T>(items: Seq<T>, order: Seq<usize>) -> Seq<T> {
    Seq::new(order.len(), |i: int| items[order[i] as int])
}

/// The total of the keys at the positions listed in `order`.
pub open spec fn sum_at(keys: Seq<u64>, order: Seq<usize>) -> int
    decreases order.len(),
{
    if order.len() == 0 {
        0
    } else {
        sum_at(keys, order.drop_last()) + keys[order.last() as int]
    }
}

/// The total of the keys at positions `[lo, hi)`.
pub open spec fn sum_range(keys: Seq<u64>, lo: int, hi: int) -> int
    decreases hi - lo,
{
    if hi <= lo {
        0
    } else {
        sum_range(keys, lo, hi - 1) + keys[hi - 1]
    }
}

proof fn lemma_sum_range_split(keys: Seq<u64>, lo: int, mid: int, hi: int)
    requires
        lo <= mid <= hi,
    ensures
        sum_range(keys, lo, hi) == sum_range(keys, lo, mid) + sum_range(keys, mid, hi),
    decreases hi - mid,
{
    if mid < hi {
        lemma_sum_range_split(keys, lo, mid, hi - 1);
    }
}

/// Merges two runs that are each in stable descending order, the left run
/// holding positions `[lo, mid)` and the right one `[mid, hi)`.
fn merge_runs(keys: &Vec<u64>, left: Vec<usize>, right: Vec<usize>, lo: usize, mid: usize, hi: usize) -> (res: Vec<usize>)
    requires
        lo <= mid <= hi <= keys.len(),
        is_desc_order_range(keys@, left@, lo as int, mid as int),
        is_desc_order_range(keys@, right@, mid as int, hi as int),
    ensures
        is_desc_order_range(keys@, res@, lo as int, hi as int),
        sum_at(keys@, res@) == sum_at(keys@, left@) + sum_at(keys@, right@),
{
    let mut res: Vec<usize> = Vec::new();
    let mut li: usize = 0;
    let mut ri: usize = 0;
    let ln = left.len();
    let rn = right.len();
    while li < ln || ri < rn
        invariant
            lo <= mid <= hi <= keys.len(),
            ln == left.len(),
            rn == right.len(),
            is_desc_order_range(keys@, left@, lo as int, mid as int),
            is_desc_order_range(keys@, right@, mid as int, hi as int),
            li <= ln,
            ri <= rn,
            res.len() == li + ri,
            sum_at(keys@, res@) == sum_at(keys@, left@.take(li as int)) + sum_at(keys@, right@.take(ri as int)),
            forall|i: int| 0 <= i < res.len() ==> lo <= #[trigger] res[i] < hi,
            forall|i: int, j: int|
                0 <= i < j < res.len() ==> precedes(keys@, #[trigger] res[i] as int, #[trigger] res[j] as int),
            forall|i: int, j: int|
                0 <= i < res.len() && li <= j < ln ==> precedes(keys@, #[trigger] res[i] as int, #[trigger] left[j] as int),
            forall|i: int, j: int|
                0 <= i < res.len() && ri <= j < rn ==> precedes(keys@, #[trigger] res[i] as int, #[trigger] right[j] as int),
        decreases ln + rn - li - ri,
    {
        let ghost old_res = res@;
        let take_left = if li < ln && ri < rn {
            keys[left[li]] >= keys[right[ri]]
        } else {
            li < ln
        };
        if take_left {
            let x = left[li];
            proof {
                assert forall|j: int| li + 1 <= j < ln implies precedes(keys@, x as int, #[trigger] left[j] as int) by {
                    assert(precedes(keys@, left[li as int] as int, left[j] as int));
                }
                assert forall|j: int| ri <= j < rn implies precedes(keys@, x as int, #[trigger] right[j] as int) by {
                    if ri < j {
                        assert(precedes(keys@, right[ri as int] as int, right[j] as int));
                    }
                }
            }
            assert(left@.take(li + 1).drop_last() =~= left@.take(li as int));
            res.push(x);
            assert(res@.drop_last() == old_res);
            li = li + 1;
        } else {
            let y = right[ri];
            proof {
                assert forall|j: int| ri + 1 <= j < rn implies precedes(keys@, y as int, #[trigger] right[j] as int) by {
                    assert(precedes(keys@, right[ri as int] as int, right[j] as int));
                }
                assert forall|j: int| li <= j < ln implies precedes(keys@, y as int, #[trigger] left[j] as int) by {
                    if li < j {
                        assert(precedes(keys@, left[li as int] as int, left[j] as int));
                    }
                }
            }
            assert(right@.take(ri + 1).drop_last() =~= right@.take(ri as int));
            res.push(y);
            assert(res@.drop_last() == old_res);
            ri = ri + 1;
        }
    }
    assert(left@.take(ln as int) =~= left@);
    assert(right@.take(rn as int) =~= right@);
    res
}

/// Sorts the positions `[lo, hi)` of `keys` into stable descending order.
fn sort_range(keys: &Vec<u64>, lo: usize, hi: usize) -> (res: Vec<usize>)
    requires
        lo <= hi <= keys.len(),
    ensures
        is_desc_order_range(keys@, res@, lo as int, hi as int),
        sum_at(keys@, res@) == sum_range(keys@, lo as int, hi as int),
    decreases hi - lo,
{
    if hi - lo <= 1 {
        let mut res: Vec<usize> = Vec::new();
        if lo < hi {
            res.push(lo);
            assert(res@.drop_last().len() == 0);
            assert(sum_at(keys@, res@.drop_last()) == 0);
            assert(sum_range(keys@, lo as int, lo as int) == 0);
        }
        res
    } else {
        let mid = lo + (hi - lo) / 2;
        let left = sort_range(keys, lo, mid);
        let right = sort_range(keys, mid, hi);
        proof {
            lemma_sum_range_split(keys@, lo as int, mid as int, hi as int);
        }
        merge_runs(keys, left, right, lo, mid, hi)
    }
}

/// The positions of `keys` from the largest key to the smallest; positions
/// with equal keys keep their input order.
pub fn desc_order(keys: &Vec<u64>) -> (order: Vec<usize>)
    ensures
        is_desc_order(keys@, order@),
        sum_at(keys@, order@) == sum_range(keys@, 0, keys.len() as int),
{
    sort_range(keys, 0, keys.len())
}

/// A list of `n` distinct positions, each below `n`, lists every position
/// below `n`.
pub proof fn lemma_distinct_covers(order: Seq<usize>, n: int, p: int)
    requires
        order.len() == n,
        forall|i: int| 0 <= i < order.len() ==> (#[trigger] order[i] as int) < n,
        forall|i: int, j: int| 0 <= i < j < order.len() ==> #[trigger] order[i] != #[trigger] order[j],
        0 <= p < n,
    ensures
        exists|i: int| 0 <= i < order.len() && order[i] as int == p,
{
    let oi = order.map_values(|x: usize| x as int);
    assert(oi.no_duplicates()) by {
        assert forall|i: int, j: int| 0 <= i < oi.len() && 0 <= j < oi.len() && i != j implies oi[i] != oi[j] by {
            if i < j {
                assert(order[i] != order[j]);
            } else {
                assert(order[j] != order[i]);
            }
        }
    }
    oi.unique_seq_to_set();
    let range = vstd::set_lib::set_int_range(0, n);
    vstd::set_lib::lemma_int_range(0, n);
    assert(oi.to_set().subset_of(range)) by {
        assert forall|x: int| oi.to_set().contains(x) implies range.contains(x) by {
            let i = choose|i: int| 0 <= i < oi.len() && oi[i] == x;
            assert(order[i] as int == x);
        }
    }
    vstd::set_lib::lemma_subset_equality(oi.to_set(), range);
    assert(range.contains(p));
    assert(oi.to_set().contains(p));
    let i = choose|i: int| 0 <= i < oi.len() && oi[i] == p;
    assert(order[i] as int == p);
}

/// An order lists every position of its keys.
pub proof fn lemma_desc_order_covers(keys: Seq<u64>, order: Seq<usize>, p: int)
    requires
        is_desc_order(keys, order),
        0 <= p < keys.len(),
    ensures
        exists|i: int| 0 <= i < order.len() && order[i] as int == p,
{
    assert forall|i: int, j: int| 0 <= i < j < order.len() implies #[trigger] order[i] != #[trigger] order[j] by {
        assert(precedes(keys, order[i] as int, order[j] as int));
    }
    lemma_distinct_covers(order, keys.len() as int, p);
}

proof fn lemma_desc_orders_agree_below(keys: Seq<u64>, o1: Seq<usize>, o2: Seq<usize>, n: int)
    requires
        is_desc_order(keys, o1),
        is_desc_order(keys, o2),
        0 <= n <= keys.len(),
    ensures
        forall|j: int| 0 <= j < n ==> o1[j] == o2[j],
    decreases n,
{
    if n > 0 {
        let i = n - 1;
        lemma_desc_orders_agree_below(keys, o1, o2, i);
        let a = o1[i];
        lemma_desc_order_covers(keys, o2, a as int);
        let j = choose|j: int| 0 <= j < o2.len() && o2[j] as int == a as int;
        if j != i {
            if j < i {
                assert(o1[j] == o2[j]);
                assert(precedes(keys, o1[j] as int, o1[i] as int));
            } else {
                let b = o2[i];
                lemma_desc_order_covers(keys, o1, b as int);
                let k = choose|k: int| 0 <= k < o1.len() && o1[k] as int == b as int;
                if k < i {
                    assert(o1[k] == o2[k]);
                    assert(precedes(keys, o2[k] as int, o2[i] as int));
                } else if k == i {
                    assert(precedes(keys, o2[i] as int, o2[j] as int));
                } else {
                    assert(precedes(keys, o1[i] as int, o1[k] as int));
                    assert(precedes(keys, o2[i] as int, o2[j] as int));
                }
            }
        }
    }
}

/// There is only one stable descending order of a list of keys: the
/// contracts that speak of "an" order speak of exactly one result.
pub proof fn lemma_desc_order_unique(keys: Seq<u64>, o1: Seq<usize>, o2: Seq<usize>)
    requires
        is_desc_order(keys, o1),
        is_desc_order(keys, o2),
    ensures
        o1 == o2,
{
    lemma_desc_orders_agree_below(keys, o1, o2, keys.len() as int);
    assert(o1 =~= o2);
}

} // verus!
