//! Sorting by a key, where things with the same key keep their order.
use vstd::prelude::*;

use crate::order::{Key, Order};

verus! {

/// Whether the thing at `i` comes before the one at `j`: by the keys, and where
/// they are the same by the place.
pub open spec fn comes_first<K: Key>(keys: Seq<K::V>, i: int, j: int) -> bool {
    K::before(keys[i], keys[j]) || (keys[i] == keys[j] && i < j)
}

/// The places of all things in the order in which they come.
pub open spec fn is_sorted_order<K: Key>(keys: Seq<K::V>, order: Seq<int>) -> bool {
    &&& order.len() == keys.len()
    &&& forall|a: int| 0 <= a < order.len() ==> 0 <= #[trigger] order[a] < keys.len()
    &&& forall|k: int| 0 <= k < keys.len() ==> #[trigger] order.contains(k)
    &&& forall|a: int, b: int|
        0 <= a < b < order.len() ==> comes_first::<K>(keys, #[trigger] order[a], #[trigger] order[b])
}

/// The one such order.
pub open spec fn sorted_order<K: Key>(keys: Seq<K::V>) -> Seq<int> {
    choose|order: Seq<int>| is_sorted_order::<K>(keys, order)
}

proof fn lemma_not_both<K: Key>(keys: Seq<K::V>, i: int, j: int)
    requires
        comes_first::<K>(keys, i, j),
    ensures
        !comes_first::<K>(keys, j, i),
{
    K::irreflexive(keys[i]);
    if K::before(keys[i], keys[j]) && K::before(keys[j], keys[i]) {
        K::transitive(keys[i], keys[j], keys[i]);
    }
}

proof fn lemma_same_up_to<K: Key>(keys: Seq<K::V>, a: Seq<int>, b: Seq<int>, n: int)
    requires
        is_sorted_order::<K>(keys, a),
        is_sorted_order::<K>(keys, b),
        0 <= n <= keys.len(),
    ensures
        forall|k: int| 0 <= k < n ==> a[k] == b[k],
    decreases n,
{
    if n > 0 {
        let d = n - 1;
        lemma_same_up_to::<K>(keys, a, b, d);
        assert(b.contains(a[d]));
        assert(a.contains(b[d]));
        let p = choose|p: int| 0 <= p < b.len() && b[p] == a[d];
        let q = choose|q: int| 0 <= q < a.len() && a[q] == b[d];
        if p < d {
            assert(a[p] == a[d]);
            assert(comes_first::<K>(keys, a[p], a[d]));
            lemma_not_both::<K>(keys, a[p], a[d]);
        }
        if q < d {
            assert(b[q] == b[d]);
            assert(comes_first::<K>(keys, b[q], b[d]));
            lemma_not_both::<K>(keys, b[q], b[d]);
        }
        if p > d && q > d {
            assert(comes_first::<K>(keys, b[d], b[p]));
            assert(comes_first::<K>(keys, a[d], a[q]));
            lemma_not_both::<K>(keys, a[d], b[d]);
        }
        assert(a[d] == b[d]);
    }
}

/// Things stand in one order only.
pub proof fn lemma_sorted_order<K: Key>(keys: Seq<K::V>, order: Seq<int>)
    requires
        is_sorted_order::<K>(keys, order),
    ensures
        sorted_order::<K>(keys) == order,
{
    lemma_same_up_to::<K>(keys, sorted_order::<K>(keys), order, keys.len() as int);
    assert(sorted_order::<K>(keys) =~= order);
}

/// A thing more, put behind all that do not come after it, leaves things in
/// their order.
proof fn lemma_inserted<K: Key>(keys: Seq<K::V>, was: Seq<int>, at: int)
    requires
        keys.len() > 0,
        is_sorted_order::<K>(keys.drop_last(), was),
        0 <= at <= was.len(),
        forall|k: int|
            at <= k < was.len() ==> K::before(keys.last(), keys[#[trigger] was[k]]),
        at > 0 ==> !K::before(keys.last(), keys[was[at - 1]]),
    ensures
        is_sorted_order::<K>(keys, was.insert(at, keys.len() - 1)),
{
    let n = keys.len() - 1;
    let part = keys.drop_last();
    let now = was.insert(at, n);
    assert forall|a: int| 0 <= a < now.len() implies 0 <= #[trigger] now[a] < keys.len() by {
        if a < at {
            assert(now[a] == was[a]);
        } else if a > at {
            assert(now[a] == was[a - 1]);
        }
    }
    assert forall|k: int| 0 <= k < keys.len() implies #[trigger] now.contains(k) by {
        if k == n {
            assert(now[at] == k);
        } else {
            assert(was.contains(k));
            let p = choose|p: int| 0 <= p < was.len() && was[p] == k;
            if p < at {
                assert(now[p] == k);
            } else {
                assert(now[p + 1] == k);
            }
        }
    }
    assert forall|k: int| 0 <= k < at implies comes_first::<K>(keys, #[trigger] was[k], n) by {
        let last = was[at - 1];
        K::total(keys[last], keys[n]);
        if k < at - 1 {
            assert(comes_first::<K>(part, was[k], was[at - 1]));
            if K::before(keys[was[k]], keys[last]) && K::before(keys[last], keys[n]) {
                K::transitive(keys[was[k]], keys[last], keys[n]);
            }
        }
    }
    assert forall|a: int, b: int| 0 <= a < b < now.len() implies comes_first::<K>(
        keys,
        #[trigger] now[a],
        #[trigger] now[b],
    ) by {
        if b < at {
            assert(comes_first::<K>(part, was[a], was[b]));
        } else if b == at {
            assert(comes_first::<K>(keys, was[a], n));
        } else if a < at {
            assert(comes_first::<K>(part, was[a], was[b - 1]));
        } else if a == at {
            assert(K::before(keys[n], keys[was[b - 1]]));
        } else {
            assert(comes_first::<K>(part, was[a - 1], was[b - 1]));
        }
    }
}

/// Where the last of the keys belongs among the first `at` of an order.
spec fn gap<K: Key>(keys: Seq<K::V>, was: Seq<int>, at: int) -> int
    decreases at,
{
    if at > 0 && K::before(keys.last(), keys[was[at - 1]]) {
        gap::<K>(keys, was, at - 1)
    } else {
        at
    }
}

proof fn lemma_gap<K: Key>(keys: Seq<K::V>, was: Seq<int>, at: int)
    requires
        0 <= at <= was.len(),
        forall|k: int|
            at <= k < was.len() ==> K::before(keys.last(), keys[#[trigger] was[k]]),
    ensures
        0 <= gap::<K>(keys, was, at) <= at,
        gap::<K>(keys, was, at) > 0 ==> !K::before(
            keys.last(),
            keys[was[gap::<K>(keys, was, at) - 1]],
        ),
        forall|k: int|
            gap::<K>(keys, was, at) <= k < was.len() ==> K::before(
                keys.last(),
                keys[#[trigger] was[k]],
            ),
    decreases at,
{
    if at > 0 && K::before(keys.last(), keys[was[at - 1]]) {
        lemma_gap::<K>(keys, was, at - 1);
    }
}

/// Things always have an order.
pub proof fn lemma_sorted_order_is_one<K: Key>(keys: Seq<K::V>)
    ensures
        is_sorted_order::<K>(keys, sorted_order::<K>(keys)),
    decreases keys.len(),
{
    if keys.len() == 0 {
        assert(is_sorted_order::<K>(keys, Seq::<int>::empty()));
    } else {
        let was = sorted_order::<K>(keys.drop_last());
        lemma_sorted_order_is_one::<K>(keys.drop_last());
        lemma_gap::<K>(keys, was, was.len() as int);
        let at = gap::<K>(keys, was, was.len() as int);
        lemma_inserted::<K>(keys, was, at);
        assert(is_sorted_order::<K>(keys, was.insert(at, keys.len() - 1)));
    }
}

/// The views of a list of keys.
pub open spec fn key_views<K: Key>(keys: Seq<K>) -> Seq<K::V> {
    Seq::new(keys.len(), |k: int| keys[k]@)
}

/// The places in a list.
pub open spec fn places(order: Seq<usize>) -> Seq<int> {
    Seq::new(order.len(), |k: int| order[k] as int)
}

/// The places of all keys in the order in which they come.
pub fn sort<K: Key>(keys: &Vec<K>) -> (order: Vec<usize>)
    ensures
        is_sorted_order::<K>(key_views(keys@), places(order@)),
        places(order@) == sorted_order::<K>(key_views(keys@)),
{
    let ghost views = key_views(keys@);
    let mut order: Vec<usize> = Vec::new();
    let mut n: usize = 0;
    while n < keys.len()
        invariant
            n <= keys@.len(),
            views == key_views(keys@),
            is_sorted_order::<K>(views.take(n as int), places(order@)),
        decreases keys@.len() - n,
    {
        let ghost before = order@;
        let ghost part = views.take(n as int);
        let ghost longer = views.take(n + 1);
        assert(order@.len() == n);
        proof {
            assert forall|k: int| 0 <= k < n implies 0 <= #[trigger] before[k] < n by {
                assert(places(before)[k] == before[k]);
            }
        }
        let mut at: usize = n;
        while at > 0 && is_before(&keys[n], &keys[order[at - 1]])
            invariant
                at <= n,
                n < keys@.len(),
                order@ == before,
                before.len() == n,
                views == key_views(keys@),
                part == views.take(n as int),
                is_sorted_order::<K>(part, places(before)),
                forall|k: int|
                    at <= k < n ==> K::before(views[n as int], views[#[trigger] before[k] as int]),
                forall|k: int| 0 <= k < n ==> 0 <= #[trigger] before[k] < n,
            decreases at,
        {
            assert(places(before)[at - 1] == before[at - 1]);
            at -= 1;
        }
        proof {
            assert(longer.drop_last() =~= part);
            assert forall|k: int| at <= k < n implies K::before(
                longer.last(),
                longer[#[trigger] places(before)[k]],
            ) by {
                assert(places(before)[k] == before[k]);
            }
            if at > 0 {
                assert(places(before)[at - 1] == before[at - 1]);
            }
            lemma_inserted::<K>(longer, places(before), at as int);
        }
        order.insert(at, n);
        assert(places(order@) =~= places(before).insert(at as int, n as int));
        n += 1;
    }
    proof {
        assert(views.take(n as int) =~= views);
        lemma_sorted_order::<K>(views, places(order@));
    }
    order
}

fn is_before<K: Key>(a: &K, b: &K) -> (before: bool)
    ensures
        before == K::before(a@, b@),
{
    proof {
        K::irreflexive(a@);
    }
    match a.compare(b) {
        Order::Before => true,
        Order::Same => false,
        Order::After => {
            proof {
                if K::before(a@, b@) {
                    K::transitive(a@, b@, a@);
                }
            }
            false
        },
    }
}

} // verus!
