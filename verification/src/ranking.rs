//! Stable orders: the largest key first, and equal keys as they stood.

use vstd::prelude::*;

verus! {

/// Whether the item at `i` comes before the item at `j`.
pub open spec fn before(keys: Seq<u128>, i: int, j: int) -> bool {
    keys[i] > keys[j] || (keys[i] == keys[j] && i < j)
}

/// Whether `order` lists the positions of all keys, the largest key first and
/// equal keys in the order in which they stand.
pub open spec fn ranks(keys: Seq<u128>, order: Seq<usize>) -> bool {
    &&& order.len() == keys.len()
    &&& forall|k: int| 0 <= k < order.len() ==> (#[trigger] order[k]) < keys.len()
    &&& forall|i: int| 0 <= i < keys.len() ==> #[trigger] order.contains(i as usize)
    &&& forall|k: int, l: int|
        0 <= k < l < order.len() ==> before(
            keys,
            (#[trigger] order[k]) as int,
            (#[trigger] order[l]) as int,
        )
}

/// The positions of `keys`, the largest key first and equal keys in the order in
/// which they stand.
pub fn ranking(keys: &[u128]) -> (r: Vec<usize>)
    ensures
        ranks(keys@, r@),
{
    let mut order: Vec<usize> = Vec::new();
    let mut i: usize = 0;
    while i < keys.len()
        invariant
            i <= keys.len(),
            ranks(keys@.take(i as int), order@),
        decreases keys.len() - i,
    {
        let mut at: usize = 0;
        while at < order.len() && keys[order[at]] >= keys[i]
            invariant
                i < keys.len(),
                at <= order.len(),
                ranks(keys@.take(i as int), order@),
                forall|k: int| 0 <= k < at ==> keys@[(#[trigger] order@[k]) as int] >= keys@[i as int],
            decreases order.len() - at,
        {
            proof {
                assert(order@[at as int] < i);
            }
            at += 1;
        }
        let ghost earlier = order@;
        let ghost shorter = keys@.take(i as int);
        let ghost longer = keys@.take(i + 1);
        order.insert(at, i);
        proof {
            assert(longer.drop_last() == shorter);
            lemma_inserted(shorter, longer, earlier, order@, at as int);
        }
        i += 1;
    }
    proof {
        assert(keys@.take(i as int) == keys@);
    }
    order
}

/// Putting the position of one more key behind those that are no smaller keeps
/// the order.
proof fn lemma_inserted(
    shorter: Seq<u128>,
    longer: Seq<u128>,
    earlier: Seq<usize>,
    order: Seq<usize>,
    at: int,
)
    requires
        ranks(shorter, earlier),
        longer.len() == shorter.len() + 1,
        shorter.len() < usize::MAX,
        longer.drop_last() == shorter,
        0 <= at <= earlier.len(),
        order == earlier.insert(at, shorter.len() as usize),
        forall|k: int| 0 <= k < at ==> shorter[(#[trigger] earlier[k]) as int] >= longer.last(),
        at < earlier.len() ==> shorter[earlier[at] as int] < longer.last(),
    ensures
        ranks(longer, order),
{
    let n = shorter.len() as int;
    assert forall|k: int| 0 <= k < n implies longer[k] == shorter[k] by {
        assert(longer.drop_last()[k] == longer[k]);
    }
    assert forall|k: int| 0 <= k < order.len() implies (#[trigger] order[k]) < longer.len() by {
        if k < at {
            assert(order[k] == earlier[k]);
        } else if k > at {
            assert(order[k] == earlier[k - 1]);
        }
    }
    assert forall|i: int| 0 <= i < longer.len() implies #[trigger] order.contains(i as usize) by {
        if i == n {
            assert(order[at] == i as usize);
        } else {
            assert(earlier.contains(i as usize));
            let k = choose|k: int| 0 <= k < earlier.len() && earlier[k] == i as usize;
            if k < at {
                assert(order[k] == i as usize);
            } else {
                assert(order[k + 1] == i as usize);
            }
        }
    }
    assert forall|k: int, l: int| 0 <= k < l < order.len() implies before(
        longer,
        (#[trigger] order[k]) as int,
        (#[trigger] order[l]) as int,
    ) by {
        let kk = if k < at {
            k
        } else {
            k - 1
        };
        let ll = if l < at {
            l
        } else {
            l - 1
        };
        if k != at && l != at {
            assert(order[k] == earlier[kk] && order[l] == earlier[ll]);
            assert(before(shorter, earlier[kk] as int, earlier[ll] as int));
        } else if l == at {
            assert(order[k] == earlier[k]);
        } else {
            assert(order[l] == earlier[ll]);
            if ll > at {
                assert(before(shorter, earlier[at] as int, earlier[ll] as int));
            }
        }
    }
}

/// There is only one such order.
pub proof fn law_ranking_is_unique(keys: Seq<u128>, a: Seq<usize>, b: Seq<usize>)
    requires
        keys.len() <= usize::MAX,
        ranks(keys, a),
        ranks(keys, b),
    ensures
        a == b,
{
    lemma_same_front(keys, a, b, keys.len() as int);
    assert(a.take(keys.len() as int) == a);
    assert(b.take(keys.len() as int) == b);
}

/// Two orders of the same keys agree up to any position.
proof fn lemma_same_front(keys: Seq<u128>, a: Seq<usize>, b: Seq<usize>, n: int)
    requires
        keys.len() <= usize::MAX,
        ranks(keys, a),
        ranks(keys, b),
        0 <= n <= keys.len(),
    ensures
        a.take(n) == b.take(n),
    decreases n,
{
    if n > 0 {
        lemma_same_front(keys, a, b, n - 1);
        let x = a[n - 1];
        let y = b[n - 1];
        if x != y {
            lemma_found_behind(keys, a, b, n - 1);
            lemma_found_behind(keys, b, a, n - 1);
        }
        assert(a.take(n) == a.take(n - 1).push(x));
        assert(b.take(n) == b.take(n - 1).push(y));
    }
}

/// Where two orders agree up to `n` and differ there, the item that one has
/// there comes later in the other.
proof fn lemma_found_behind(keys: Seq<u128>, a: Seq<usize>, b: Seq<usize>, n: int)
    requires
        keys.len() <= usize::MAX,
        ranks(keys, a),
        ranks(keys, b),
        0 <= n < keys.len(),
        a.take(n) == b.take(n),
        a[n] != b[n],
    ensures
        before(keys, b[n] as int, a[n] as int),
{
    assert(b.contains(a[n] as int as usize));
    let m = choose|m: int| 0 <= m < b.len() && b[m] == a[n];
    if m < n {
        assert(a.take(n)[m] == a[m] && b.take(n)[m] == b[m]);
        assert(a[m] == a[n]);
        assert(before(keys, a[m] as int, a[n] as int));
    }
}

/// Where the greatest of `values` stands, the last of several.
pub open spec fn last_max(values: Seq<i32>) -> int
    decreases values.len(),
{
    if values.len() <= 1 {
        0
    } else {
        let earlier = last_max(values.drop_last());
        if values.last() >= values[earlier] {
            values.len() - 1
        } else {
            earlier
        }
    }
}

/// Nothing is greater than what stands there, and nothing behind it is as great.
pub proof fn law_last_max_is_greatest(values: Seq<i32>)
    requires
        values.len() > 0,
    ensures
        0 <= last_max(values) < values.len(),
        forall|i: int|
            0 <= i < values.len() ==> #[trigger] values[i] <= values[last_max(values)] && (i
                > last_max(values) ==> values[i] < values[last_max(values)]),
    decreases values.len(),
{
    if values.len() > 1 {
        let shorter = values.drop_last();
        law_last_max_is_greatest(shorter);
        assert forall|i: int| 0 <= i < values.len() implies #[trigger] values[i]
            <= values[last_max(values)] && (i > last_max(values) ==> values[i]
            < values[last_max(values)]) by {
            if i < shorter.len() {
                assert(shorter[i] == values[i]);
            }
        }
    }
}

/// Where the greatest of `values` stands, the last of several.
pub fn index_of_last_max(values: &[i32]) -> (r: usize)
    requires
        values@.len() > 0,
    ensures
        r == last_max(values@),
        r < values@.len(),
{
    let mut best: usize = 0;
    let mut i: usize = 1;
    proof {
        assert(values@.take(1).len() == 1);
    }
    while i < values.len()
        invariant
            1 <= i <= values.len(),
            best < i,
            best == last_max(values@.take(i as int)),
        decreases values.len() - i,
    {
        proof {
            assert(values@.take(i + 1).drop_last() == values@.take(i as int));
        }
        if values[i] >= values[best] {
            best = i;
        }
        i += 1;
    }
    proof {
        assert(values@.take(i as int) == values@);
    }
    best
}

/// Distinct numbers below `n` are at most `n`.
pub proof fn lemma_distinct_below(list: Seq<int>, n: int)
    requires
        n >= 0,
        forall|k: int| 0 <= k < list.len() ==> 0 <= #[trigger] list[k] < n,
        forall|k: int, l: int| 0 <= k < l < list.len() ==> list[k] != list[l],
    ensures
        list.len() <= n,
    decreases n,
{
    if n == 0 {
        if list.len() > 0 {
            assert(0 <= list[0] < n);
        }
    } else if list.contains(n - 1) {
        let at = choose|at: int| 0 <= at < list.len() && #[trigger] list[at] == n - 1;
        let rest = list.remove(at);
        assert forall|k: int| 0 <= k < rest.len() implies 0 <= #[trigger] rest[k] < n - 1 by {
            if k < at {
                assert(rest[k] == list[k]);
            } else {
                assert(rest[k] == list[k + 1]);
            }
        }
        assert forall|k: int, l: int| 0 <= k < l < rest.len() implies rest[k] != rest[l] by {
            let kk = if k < at {
                k
            } else {
                k + 1
            };
            let ll = if l < at {
                l
            } else {
                l + 1
            };
            assert(rest[k] == list[kk] && rest[l] == list[ll]);
        }
        lemma_distinct_below(rest, n - 1);
    } else {
        assert forall|k: int| 0 <= k < list.len() implies 0 <= #[trigger] list[k] < n - 1 by {
            assert(list.contains(list[k]));
        }
        lemma_distinct_below(list, n - 1);
    }
}

/// A ranking lists every position once, larger keys before smaller ones and equal
/// keys as they stand.
pub proof fn law_ranking_sorts(keys: Seq<u128>, order: Seq<usize>)
    requires
        ranks(keys, order),
    ensures
        order.len() == keys.len(),
        order.no_duplicates(),
        forall|i: int| 0 <= i < keys.len() ==> #[trigger] order.contains(i as usize),
        forall|k: int, l: int|
            0 <= k < l < order.len() ==> {
                let (x, y) = ((#[trigger] order[k]) as int, (#[trigger] order[l]) as int);
                keys[x] > keys[y] || keys[x] == keys[y] && x < y
            },
{
    assert forall|k: int, l: int| 0 <= k < order.len() && 0 <= l < order.len() && k
        != l implies order[k] != order[l] by {
        if k < l {
            assert(before(keys, order[k] as int, order[l] as int));
        } else {
            assert(before(keys, order[l] as int, order[k] as int));
        }
    }
    assert forall|k: int, l: int| 0 <= k < l < order.len() implies {
        let (x, y) = ((#[trigger] order[k]) as int, (#[trigger] order[l]) as int);
        keys[x] > keys[y] || keys[x] == keys[y] && x < y
    } by {
        assert(before(keys, order[k] as int, order[l] as int));
    }
}

} // verus!
