//! Putting things in a reproducible order: a stable sort of positions by
//! integer keys, which the partition uses wherever a report must list the same
//! things in the same order every run.
use vstd::prelude::*;

verus! {

/// A sort key: compared on its first part, then its second, then its third.
pub type SortKey = (u64, u64, u64);

/// Whether key `a` sorts strictly before key `b`.
pub open spec fn key_less(a: SortKey, b: SortKey) -> bool {
    a.0 < b.0 || (a.0 == b.0 && (a.1 < b.1 || (a.1 == b.1 && a.2 < b.2)))
}

/// Whether position `i` comes before position `j`: its key is smaller, or the
/// keys are equal and it came first, which is what makes the sort stable.
pub open spec fn comes_before(keys: Seq<SortKey>, i: int, j: int) -> bool {
    key_less(keys[i], keys[j]) || (keys[i] == keys[j] && i < j)
}

/// Whether every entry of `order` comes before every later one.
pub open spec fn ascending(keys: Seq<SortKey>, order: Seq<usize>) -> bool {
    forall|a: int, b: int|
        0 <= a < b < order.len() ==> comes_before(keys, #[trigger] order[a] as int, #[trigger] order[b] as int)
}

/// Whether `order` lists every position of `keys` once, in sorted order.
pub open spec fn sorted_order(keys: Seq<SortKey>, order: Seq<usize>) -> bool {
    &&& order.len() == keys.len()
    &&& forall|k: int| 0 <= k < order.len() ==> #[trigger] order[k] < keys.len()
    &&& forall|j: int| 0 <= j < keys.len() ==> #[trigger] order.contains(j as usize)
    &&& ascending(keys, order)
}

/// The sorted order of some keys: there is exactly one (see
/// [`law_sorted_order_is_unique`]).
pub open spec fn the_sorted_order(keys: Seq<SortKey>) -> Seq<usize> {
    choose|order: Seq<usize>| sorted_order(keys, order)
}

proof fn lemma_ascending_unique(keys: Seq<SortKey>, x: Seq<usize>, y: Seq<usize>)
    requires
        ascending(keys, x),
        ascending(keys, y),
        forall|v: usize| x.contains(v) <==> y.contains(v),
        forall|k: int| 0 <= k < x.len() ==> #[trigger] x[k] < keys.len(),
        forall|k: int| 0 <= k < y.len() ==> #[trigger] y[k] < keys.len(),
    ensures
        x == y,
    decreases x.len(),
{
    if x.len() == 0 {
        if y.len() > 0 {
            assert(y.contains(y[0]));
        }
        assert(x =~= y);
    } else {
        assert(x.contains(x[0]));
        assert(y.len() > 0);
        assert(y.contains(y[0]));
        let q = choose|q: int| 0 <= q < y.len() && y[q] == x[0];
        let p = choose|p: int| 0 <= p < x.len() && x[p] == y[0];
        if x[0] != y[0] {
            assert(q > 0 && p > 0);
            assert(comes_before(keys, y[0] as int, y[q] as int));
            assert(comes_before(keys, x[0] as int, x[p] as int));
            assert(false);
        }
        let (xs, ys) = (x.skip(1), y.skip(1));
        assert forall|a: int, b: int| 0 <= a < b < xs.len() implies comes_before(keys, #[trigger] xs[a] as int, #[trigger] xs[b] as int) by {
            assert(xs[a] == x[a + 1] && xs[b] == x[b + 1]);
        }
        assert forall|a: int, b: int| 0 <= a < b < ys.len() implies comes_before(keys, #[trigger] ys[a] as int, #[trigger] ys[b] as int) by {
            assert(ys[a] == y[a + 1] && ys[b] == y[b + 1]);
        }
        assert forall|v: usize| xs.contains(v) implies ys.contains(v) by {
            let i = choose|i: int| 0 <= i < xs.len() && xs[i] == v;
            assert(x[i + 1] == v);
            assert(comes_before(keys, x[0] as int, x[i + 1] as int));
            assert(y.contains(v));
            let j = choose|j: int| 0 <= j < y.len() && y[j] == v;
            if j == 0 {
                assert(v == x[0]);
                assert(!comes_before(keys, v as int, v as int));
                assert(false);
            }
            assert(ys[j - 1] == v);
        }
        assert forall|v: usize| ys.contains(v) implies xs.contains(v) by {
            let i = choose|i: int| 0 <= i < ys.len() && ys[i] == v;
            assert(y[i + 1] == v);
            assert(comes_before(keys, y[0] as int, y[i + 1] as int));
            assert(x.contains(v));
            let j = choose|j: int| 0 <= j < x.len() && x[j] == v;
            if j == 0 {
                assert(v == y[0]);
                assert(!comes_before(keys, v as int, v as int));
                assert(false);
            }
            assert(xs[j - 1] == v);
        }
        lemma_ascending_unique(keys, xs, ys);
        assert(x =~= seq![x[0]] + xs);
        assert(y =~= seq![y[0]] + ys);
    }
}

/// There is one sorted order of any keys: two orders that both list every
/// position once, ascending, are the same order.
pub proof fn law_sorted_order_is_unique(keys: Seq<SortKey>, x: Seq<usize>, y: Seq<usize>)
    requires
        sorted_order(keys, x),
        sorted_order(keys, y),
    ensures
        x == y,
{
    assert forall|v: usize| x.contains(v) <==> y.contains(v) by {
        if x.contains(v) {
            let i = choose|i: int| 0 <= i < x.len() && x[i] == v;
            let j: int = v as int;
            assert(x[i] < keys.len());
            assert(y.contains(j as usize));
        }
        if y.contains(v) {
            let i = choose|i: int| 0 <= i < y.len() && y[i] == v;
            let j: int = v as int;
            assert(y[i] < keys.len());
            assert(x.contains(j as usize));
        }
    }
    lemma_ascending_unique(keys, x, y);
}

fn less(a: SortKey, b: SortKey) -> (r: bool)
    ensures
        r == key_less(a, b),
{
    a.0 < b.0 || (a.0 == b.0 && (a.1 < b.1 || (a.1 == b.1 && a.2 < b.2)))
}

/// Where a new position goes among an ascending order: the first entry from
/// `p` on whose key it sorts strictly before, or the end.
spec fn insertion_point(keys: Seq<SortKey>, order: Seq<usize>, k: int, p: int) -> int
    decreases order.len() - p,
{
    if p >= order.len() {
        order.len() as int
    } else if key_less(keys[k], keys[order[p] as int]) {
        p
    } else {
        insertion_point(keys, order, k, p + 1)
    }
}

proof fn lemma_insertion_point(keys: Seq<SortKey>, order: Seq<usize>, k: int, p: int)
    requires
        0 <= p <= order.len(),
    ensures
        p <= insertion_point(keys, order, k, p) <= order.len(),
        forall|q: int|
            p <= q < insertion_point(keys, order, k, p) ==> !key_less(keys[k], keys[#[trigger] order[q] as int]),
        insertion_point(keys, order, k, p) < order.len() ==> key_less(
            keys[k],
            keys[order[insertion_point(keys, order, k, p)] as int],
        ),
    decreases order.len() - p,
{
    if p < order.len() && !key_less(keys[k], keys[order[p] as int]) {
        lemma_insertion_point(keys, order, k, p + 1);
    }
}

/// An ascending order of the first `k` positions, built by insertion.
proof fn sorted_prefix(keys: Seq<SortKey>, k: int) -> (order: Seq<usize>)
    requires
        0 <= k <= keys.len(),
        keys.len() <= usize::MAX,
    ensures
        order.len() == k,
        forall|q: int| 0 <= q < order.len() ==> #[trigger] order[q] < k,
        forall|j: int| 0 <= j < k ==> #[trigger] order.contains(j as usize),
        forall|a: int, b: int|
            0 <= a < b < order.len() ==> comes_before(keys, #[trigger] order[a] as int, #[trigger] order[b] as int),
    decreases k,
{
    if k == 0 {
        seq![]
    } else {
        let before = sorted_prefix(keys, k - 1);
        let n = k - 1;
        lemma_insertion_point(keys, before, n, 0);
        let p = insertion_point(keys, before, n, 0);
        let order = before.insert(p, n as usize);
        assert forall|q: int| 0 <= q < order.len() implies #[trigger] order[q] < k by {
            if q < p {
                assert(order[q] == before[q]);
            } else if q > p {
                assert(order[q] == before[q - 1]);
            }
        }
        assert forall|j: int| 0 <= j < k implies #[trigger] order.contains(j as usize) by {
            if j == n {
                assert(order[p] == n as usize);
            } else {
                assert(before.contains(j as usize));
                let q = choose|q: int| 0 <= q < before.len() && before[q] == j as usize;
                if q < p {
                    assert(order[q] == j as usize);
                } else {
                    assert(order[q + 1] == j as usize);
                }
            }
        }
        assert forall|a: int, b: int| 0 <= a < b < order.len() implies comes_before(
            keys,
            #[trigger] order[a] as int,
            #[trigger] order[b] as int,
        ) by {
            if b < p {
                assert(order[a] == before[a] && order[b] == before[b]);
            } else if b == p {
                assert(order[a] == before[a]);
                assert(!key_less(keys[n], keys[before[a] as int]));
            } else if a == p {
                assert(order[b] == before[b - 1]);
                assert(key_less(keys[n], keys[before[p] as int]));
                if b - 1 > p {
                    assert(comes_before(keys, before[p] as int, before[b - 1] as int));
                }
            } else if a < p {
                assert(order[a] == before[a] && order[b] == before[b - 1]);
            } else {
                assert(order[a] == before[a - 1] && order[b] == before[b - 1]);
            }
        }
        order
    }
}

/// Any keys a `Vec` can hold have a sorted order, so what
/// [`the_sorted_order`] names is one.
pub proof fn law_every_key_list_sorts(keys: Seq<SortKey>)
    requires
        keys.len() <= usize::MAX,
    ensures
        sorted_order(keys, the_sorted_order(keys)),
{
    let order = sorted_prefix(keys, keys.len() as int);
    lemma_the_sorted_order(keys, order);
}

/// A sorted order of some keys is the sorted order of them.
pub proof fn lemma_the_sorted_order(keys: Seq<SortKey>, order: Seq<usize>)
    requires
        sorted_order(keys, order),
    ensures
        the_sorted_order(keys) == order,
{
    let chosen = the_sorted_order(keys);
    assert(sorted_order(keys, chosen));
    law_sorted_order_is_unique(keys, chosen, order);
}

/// The positions of `keys` in sorted order, equal keys in the order they
/// were given in.
pub fn sorted_positions(keys: &Vec<SortKey>) -> (r: Vec<usize>)
    ensures
        sorted_order(keys@, r@),
        r@ == the_sorted_order(keys@),
{
    let mut order: Vec<usize> = Vec::new();
    let mut k: usize = 0;
    while k < keys.len()
        invariant
            k <= keys@.len(),
            order@.len() == k,
            forall|q: int| 0 <= q < order@.len() ==> #[trigger] order@[q] < k,
            forall|j: int| 0 <= j < k ==> #[trigger] order@.contains(j as usize),
            forall|a: int, b: int|
                0 <= a < b < order@.len() ==> comes_before(keys@, #[trigger] order@[a] as int, #[trigger] order@[b] as int),
        decreases keys@.len() - k,
    {
        // The first position whose entry the new one sorts before.
        let mut p: usize = 0;
        while p < order.len() && !less(keys[k], keys[order[p]])
            invariant
                p <= order@.len(),
                k < keys@.len(),
                forall|q: int| 0 <= q < order@.len() ==> #[trigger] order@[q] < k,
                forall|q: int| 0 <= q < p ==> !key_less(keys@[k as int], keys@[#[trigger] order@[q] as int]),
            decreases order@.len() - p,
        {
            p = p + 1;
        }
        let ghost before = order@;
        order.insert(p, k);
        proof {
            assert(order@ =~= before.insert(p as int, k));
            assert forall|j: int| 0 <= j < k + 1 implies #[trigger] order@.contains(j as usize) by {
                if j == k {
                    assert(order@[p as int] == k);
                } else {
                    assert(before.contains(j as usize));
                    let q = choose|q: int| 0 <= q < before.len() && before[q] == j as usize;
                    if q < p {
                        assert(order@[q] == j as usize);
                    } else {
                        assert(order@[q + 1] == j as usize);
                    }
                }
            }
            assert forall|a: int, b: int| 0 <= a < b < order@.len() implies comes_before(
                keys@,
                #[trigger] order@[a] as int,
                #[trigger] order@[b] as int,
            ) by {
                if b < p {
                    assert(order@[a] == before[a] && order@[b] == before[b]);
                } else if b == p {
                    assert(order@[a] == before[a]);
                    // Not after it by key, and earlier by position.
                } else if a == p {
                    assert(order@[b] == before[b - 1]);
                    if p < before.len() {
                        assert(key_less(keys@[k as int], keys@[before[p as int] as int]));
                        if b - 1 > p {
                            assert(comes_before(keys@, before[p as int] as int, before[b - 1] as int));
                        }
                    }
                } else if a < p {
                    assert(order@[a] == before[a] && order@[b] == before[b - 1]);
                } else {
                    assert(order@[a] == before[a - 1] && order@[b] == before[b - 1]);
                }
            }
        }
        k = k + 1;
    }
    proof {
        lemma_the_sorted_order(keys@, order@);
    }
    order
}

} // verus!
