//! Stable orders of indices by integer keys.

use vstd::prelude::*;

verus! {

/// Index `a` comes before index `b`: by key, and by index where keys are equal.
pub open spec fn comes_before(keys: Seq<i128>, a: int, b: int) -> bool {
    keys[a] < keys[b] || (keys[a] == keys[b] && a < b)
}

/// `order` lists the indices `0..n`, each once, as [`comes_before`] puts them.
pub open spec fn is_order(order: Seq<usize>, keys: Seq<i128>, n: int) -> bool {
    &&& order.len() == n
    &&& forall|i: int| 0 <= i < order.len() ==> 0 <= #[trigger] order[i] < n
    &&& forall|i: int, j: int|
        0 <= i < j < order.len() ==> #[trigger] comes_before(
            keys,
            order[i] as int,
            order[j] as int,
        )
    &&& forall|v: usize| v < n ==> #[trigger] order.contains(v)
}

/// The indices of `keys` from the least key to the greatest; equal keys stay in
/// the order of their indices.
pub open spec fn ordered(keys: Seq<i128>) -> Seq<usize> {
    choose|order: Seq<usize>| is_order(order, keys, keys.len() as int)
}

/// Index `n` goes behind all keys that are not greater and before all greater
/// ones.
proof fn lemma_insert_in_order(before: Seq<usize>, keys: Seq<i128>, n: int, lo: int)
    requires
        is_order(before, keys, n),
        0 <= n < keys.len(),
        n <= usize::MAX,
        0 <= lo <= before.len(),
        forall|i: int| 0 <= i < lo ==> keys[#[trigger] before[i] as int] <= keys[n],
        forall|i: int| lo <= i < before.len() ==> keys[#[trigger] before[i] as int] > keys[n],
    ensures
        is_order(before.insert(lo, n as usize), keys, n + 1),
{
    let after = before.insert(lo, n as usize);
    assert forall|i: int, j: int| 0 <= i < j < after.len() implies #[trigger] comes_before(
        keys,
        after[i] as int,
        after[j] as int,
    ) by {
        let oi = if i < lo {
            i
        } else {
            i - 1
        };
        let oj = if j < lo {
            j
        } else {
            j - 1
        };
        if i != lo && j != lo {
            assert(comes_before(keys, before[oi] as int, before[oj] as int));
        }
    }
    assert forall|v: usize| v < n + 1 implies #[trigger] after.contains(v) by {
        if v == n {
            assert(after[lo] == n);
        } else {
            assert(before.contains(v));
            let i = choose|i: int| 0 <= i < before.len() && before[i] == v;
            if i < lo {
                assert(after[i] == v);
            } else {
                assert(after[i + 1] == v);
            }
        }
    }
}

proof fn lemma_insertion_place(before: Seq<usize>, keys: Seq<i128>, n: int, from: int) -> (lo: int)
    requires
        is_order(before, keys, n),
        0 <= n < keys.len(),
        0 <= from <= before.len(),
        forall|i: int| 0 <= i < from ==> keys[#[trigger] before[i] as int] <= keys[n],
    ensures
        0 <= lo <= before.len(),
        forall|i: int| 0 <= i < lo ==> keys[#[trigger] before[i] as int] <= keys[n],
        forall|i: int| lo <= i < before.len() ==> keys[#[trigger] before[i] as int] > keys[n],
    decreases before.len() - from,
{
    if from == before.len() {
        from
    } else if keys[before[from] as int] > keys[n] {
        assert forall|i: int| from <= i < before.len() implies keys[#[trigger] before[i] as int]
            > keys[n] by {
            if i > from {
                assert(comes_before(keys, before[from] as int, before[i] as int));
            }
        }
        from
    } else {
        lemma_insertion_place(before, keys, n, from + 1)
    }
}

proof fn lemma_some_order(keys: Seq<i128>, n: int) -> (order: Seq<usize>)
    requires
        0 <= n <= keys.len(),
        n <= usize::MAX,
    ensures
        is_order(order, keys, n),
    decreases n,
{
    if n == 0 {
        Seq::empty()
    } else {
        let before = lemma_some_order(keys, n - 1);
        let lo = lemma_insertion_place(before, keys, n - 1, 0);
        lemma_insert_in_order(before, keys, n - 1, lo);
        before.insert(lo, (n - 1) as usize)
    }
}

/// Every list of keys has an order.
pub proof fn lemma_ordered(keys: Seq<i128>)
    requires
        keys.len() <= usize::MAX,
    ensures
        is_order(ordered(keys), keys, keys.len() as int),
{
    let order = lemma_some_order(keys, keys.len() as int);
}

/// Only one list of indices is in order.
pub proof fn lemma_order_unique(a: Seq<usize>, b: Seq<usize>, keys: Seq<i128>, n: int)
    requires
        is_order(a, keys, n),
        is_order(b, keys, n),
    ensures
        a == b,
{
    lemma_order_prefix(a, b, keys, n, n);
    assert(a.take(n) == a);
    assert(b.take(n) == b);
}

proof fn lemma_order_prefix(a: Seq<usize>, b: Seq<usize>, keys: Seq<i128>, n: int, k: int)
    requires
        is_order(a, keys, n),
        is_order(b, keys, n),
        0 <= k <= n,
    ensures
        a.take(k) == b.take(k),
    decreases k,
{
    if k > 0 {
        let i = k - 1;
        lemma_order_prefix(a, b, keys, n, i);
        assert(b.contains(a[i]));
        assert(a.contains(b[i]));
        let j = choose|j: int| 0 <= j < b.len() && b[j] == a[i];
        let m = choose|m: int| 0 <= m < a.len() && a[m] == b[i];
        if j < i {
            assert(a.take(i)[j] == b.take(i)[j]);
            assert(comes_before(keys, a[j] as int, a[i] as int));
        }
        if m < i {
            assert(a.take(i)[m] == b.take(i)[m]);
            assert(comes_before(keys, b[m] as int, b[i] as int));
        }
        if j > i {
            assert(comes_before(keys, b[i] as int, b[j] as int));
        }
        if m > i {
            assert(comes_before(keys, a[i] as int, a[m] as int));
        }
        assert(a[i] == b[i]);
        assert(a.take(k) == a.take(i).push(a[i]));
        assert(b.take(k) == b.take(i).push(b[i]));
    }
}

/// Lists the indices of `keys` from the least key to the greatest; equal keys
/// stay in the order of their indices.
pub fn stable_order(keys: &Vec<i128>) -> (order: Vec<usize>)
    ensures
        order@ == ordered(keys@),
        is_order(order@, keys@, keys@.len() as int),
{
    let mut order: Vec<usize> = Vec::new();
    let mut n: usize = 0;
    while n < keys.len()
        invariant
            n <= keys@.len(),
            is_order(order@, keys@, n as int),
        decreases keys.len() - n,
    {
        let key: i128 = keys[n];
        let mut lo: usize = 0;
        let mut hi: usize = order.len();
        while lo < hi
            invariant
                n < keys@.len(),
                key == keys@[n as int],
                is_order(order@, keys@, n as int),
                lo <= hi <= order@.len(),
                forall|i: int| 0 <= i < lo ==> keys@[#[trigger] order@[i] as int] <= key,
                forall|i: int| hi <= i < order@.len() ==> keys@[#[trigger] order@[i] as int] > key,
            decreases hi - lo,
        {
            let mid: usize = lo + (hi - lo) / 2;
            let at: usize = order[mid];
            if keys[at] <= key {
                assert forall|i: int| 0 <= i < mid + 1 implies keys@[#[trigger] order@[i] as int]
                    <= key by {
                    if i < mid {
                        assert(comes_before(keys@, order@[i] as int, order@[mid as int] as int));
                    }
                }
                lo = mid + 1;
            } else {
                assert forall|i: int| mid <= i < order@.len() implies keys@[#[trigger] order@[i] as int]
                    > key by {
                    if i > mid {
                        assert(comes_before(keys@, order@[mid as int] as int, order@[i] as int));
                    }
                }
                hi = mid;
            }
        }
        let ghost before = order@;
        order.insert(lo, n);
        proof {
            lemma_insert_in_order(before, keys@, n as int, lo as int);
        }
        n = n + 1;
    }
    proof {
        lemma_order_unique(order@, ordered(keys@), keys@, keys@.len() as int);
    }
    order
}

/// An order lists every index once, from the least key to the greatest, and equal keys
/// by their indices.
pub proof fn law_the_least_keys_come_first(keys: Seq<i128>, i: int, j: int)
    requires
        keys.len() <= usize::MAX,
        0 <= i < j < keys.len(),
    ensures
        ordered(keys).len() == keys.len(),
        ordered(keys)[i] < keys.len(),
        ordered(keys)[j] < keys.len(),
        ordered(keys)[i] != ordered(keys)[j],
        keys[ordered(keys)[i] as int] <= keys[ordered(keys)[j] as int],
        keys[ordered(keys)[i] as int] == keys[ordered(keys)[j] as int] ==> ordered(keys)[i]
            < ordered(keys)[j],
{
    lemma_ordered(keys);
    assert(comes_before(keys, ordered(keys)[i] as int, ordered(keys)[j] as int));
}

} // verus!
