//! Sums over finite maps.
use vstd::prelude::*;

verus! {

/// The sum of the values of a finite map.
pub open spec fn map_sum<K>(m: Map<K, nat>) -> nat
    decreases m.dom().len(),
    when m.dom().finite()
{
    if m.dom().is_empty() {
        0
    } else {
        let k = m.dom().choose();
        m[k] + map_sum(m.remove(k))
    }
}

/// A key's value can be taken out of the sum first, whichever key it is.
pub proof fn lemma_sum_remove<K>(m: Map<K, nat>, k: K)
    requires
        m.dom().finite(),
        m.contains_key(k),
    ensures
        map_sum(m) == m[k] + map_sum(m.remove(k)),
    decreases m.dom().len(),
{
    let c = m.dom().choose();
    if c != k {
        lemma_sum_remove(m.remove(c), k);
        lemma_sum_remove(m.remove(k), c);
        assert(m.remove(c).remove(k) =~= m.remove(k).remove(c));
    }
}

pub proof fn lemma_sum_empty<K>(m: Map<K, nat>)
    requires
        m.dom() =~= Set::empty(),
    ensures
        map_sum(m) == 0,
{
    assert(m.dom().is_empty());
}

/// Writing a key replaces what it added to the sum.
pub proof fn lemma_sum_insert<K>(m: Map<K, nat>, k: K, v: nat)
    requires
        m.dom().finite(),
    ensures
        m.contains_key(k) ==> map_sum(m.insert(k, v)) == map_sum(m) - m[k] + v,
        !m.contains_key(k) ==> map_sum(m.insert(k, v)) == map_sum(m) + v,
        map_sum(m.insert(k, v)) == map_sum(m.remove(k)) + v,
{
    lemma_sum_remove(m.insert(k, v), k);
    assert(m.insert(k, v).remove(k) =~= m.remove(k));
    if m.contains_key(k) {
        lemma_sum_remove(m, k);
    } else {
        assert(m.remove(k) =~= m);
    }
}

/// A map that is nowhere above another sums to no more.
pub proof fn lemma_sum_monotone<K>(a: Map<K, nat>, b: Map<K, nat>)
    requires
        a.dom().finite(),
        b.dom().finite(),
        forall|k: K|
            a.contains_key(k) ==> #[trigger] b.contains_key(k) && a[k] <= b[k],
    ensures
        map_sum(a) <= map_sum(b),
    decreases a.dom().len(),
{
    if a.dom().is_empty() {
        lemma_sum_empty(a);
    } else {
        let k = a.dom().choose();
        assert(b.contains_key(k));
        lemma_sum_remove(b, k);
        assert forall|j: K| a.remove(k).contains_key(j) implies #[trigger] b.remove(
            k,
        ).contains_key(j) && a.remove(k)[j] <= b.remove(k)[j] by {
            assert(b.contains_key(j));
        }
        lemma_sum_monotone(a.remove(k), b.remove(k));
    }
}

/// Each value is at most the sum.
pub proof fn lemma_sum_bounds_value<K>(m: Map<K, nat>, k: K)
    requires
        m.dom().finite(),
        m.contains_key(k),
    ensures
        m[k] <= map_sum(m),
{
    lemma_sum_remove(m, k);
}

/// Keys that add nothing can be dropped from the sum.
pub proof fn lemma_sum_drop_zeros<K>(a: Map<K, nat>, b: Map<K, nat>)
    requires
        a.dom().finite(),
        b.dom().finite(),
        forall|k: K| #[trigger]
            a.contains_key(k) ==> if b.contains_key(k) {
                a[k] == b[k]
            } else {
                a[k] == 0
            },
        forall|k: K| #[trigger] b.contains_key(k) ==> a.contains_key(k),
    ensures
        map_sum(a) == map_sum(b),
    decreases a.dom().len(),
{
    if a.dom().is_empty() {
        lemma_sum_empty(a);
        assert(b.dom() =~= Set::empty()) by {
            assert forall|k: K| !b.dom().contains(k) by {
                if b.contains_key(k) {
                    assert(a.contains_key(k));
                }
            }
        }
        lemma_sum_empty(b);
    } else {
        let k = a.dom().choose();
        if b.contains_key(k) {
            lemma_sum_remove(b, k);
            lemma_sum_drop_zeros(a.remove(k), b.remove(k));
        } else {
            lemma_sum_drop_zeros(a.remove(k), b);
        }
    }
}

/// The sum of two maps over disjoint keys.
pub proof fn lemma_sum_union<K>(a: Map<K, nat>, b: Map<K, nat>)
    requires
        a.dom().finite(),
        b.dom().finite(),
        a.dom().disjoint(b.dom()),
    ensures
        map_sum(a.union_prefer_right(b)) == map_sum(a) + map_sum(b),
    decreases b.dom().len(),
{
    let u = a.union_prefer_right(b);
    assert(u.dom() =~= a.dom().union(b.dom()));
    if b.dom().is_empty() {
        assert(u =~= a);
        lemma_sum_empty(b);
    } else {
        let k = b.dom().choose();
        lemma_sum_remove(u, k);
        assert(u.remove(k) =~= a.union_prefer_right(b.remove(k)));
        lemma_sum_union(a, b.remove(k));
    }
}

/// The sum of a list of numbers.
pub open spec fn seq_sum(s: Seq<u32>) -> nat
    decreases s.len(),
{
    if s.len() == 0 {
        0
    } else {
        seq_sum(s.drop_last()) + s.last() as nat
    }
}

/// A list that is nowhere above another of the same length sums to no more, and
/// to less where it is below somewhere.
pub proof fn lemma_seq_sum_monotone(a: Seq<u32>, b: Seq<u32>)
    requires
        a.len() == b.len(),
        forall|i: int| 0 <= i < a.len() ==> a[i] <= #[trigger] b[i],
    ensures
        seq_sum(a) <= seq_sum(b),
        (exists|i: int| 0 <= i < a.len() && a[i] < #[trigger] b[i]) ==> seq_sum(a) < seq_sum(b),
    decreases a.len(),
{
    if a.len() > 0 {
        let ra = a.drop_last();
        let rb = b.drop_last();
        assert(a.last() <= b[b.len() - 1]);
        assert forall|i: int| 0 <= i < ra.len() implies ra[i] <= #[trigger] rb[i] by {
            assert(a[i] <= b[i]);
        }
        lemma_seq_sum_monotone(ra, rb);
        if exists|i: int| 0 <= i < a.len() && a[i] < #[trigger] b[i] {
            let i = choose|i: int| 0 <= i < a.len() && a[i] < #[trigger] b[i];
            if i < ra.len() {
                assert(ra[i] < rb[i]);
            }
        }
    }
}

/// Each number of a list is at most its sum.
pub proof fn lemma_seq_sum_bounds(s: Seq<u32>, i: int)
    requires
        0 <= i < s.len(),
    ensures
        s[i] <= seq_sum(s),
    decreases s.len(),
{
    if i < s.len() - 1 {
        lemma_seq_sum_bounds(s.drop_last(), i);
    }
}

/// The first numbers of a list sum to no more than all of them.
pub proof fn lemma_seq_sum_prefix(s: Seq<u32>, i: int)
    requires
        0 <= i <= s.len(),
    ensures
        seq_sum(s.subrange(0, i)) <= seq_sum(s),
        i < s.len() ==> seq_sum(s.subrange(0, i + 1)) == seq_sum(s.subrange(0, i)) + s[i],
    decreases s.len() - i,
{
    if i < s.len() {
        lemma_seq_sum_prefix(s, i + 1);
        assert(s.subrange(0, i + 1).drop_last() =~= s.subrange(0, i));
    } else {
        assert(s.subrange(0, i) =~= s);
    }
}

/// Two lists one after the other sum to both sums.
pub proof fn lemma_seq_sum_concat(a: Seq<u32>, b: Seq<u32>)
    ensures
        seq_sum(a + b) == seq_sum(a) + seq_sum(b),
    decreases b.len(),
{
    if b.len() == 0 {
        assert(a + b =~= a);
    } else {
        assert((a + b).drop_last() =~= a + b.drop_last());
        lemma_seq_sum_concat(a, b.drop_last());
    }
}

/// The map that gives the `i`-th key the `i`-th number.
pub open spec fn zipped<K>(keys: Seq<K>, values: Seq<u32>) -> Map<K, nat> {
    Map::new(|k: K| keys.contains(k), |k: K| values[keys.index_of(k)] as nat)
}

/// Keys that occur once each, with a number each, sum to the sum of the
/// numbers.
pub proof fn lemma_sum_zipped<K>(keys: Seq<K>, values: Seq<u32>)
    requires
        keys.len() == values.len(),
        keys.no_duplicates(),
    ensures
        zipped(keys, values).dom().finite(),
        map_sum(zipped(keys, values)) == seq_sum(values),
    decreases keys.len(),
{
    let m = zipped(keys, values);
    assert(m.dom() =~= keys.to_set());
    keys.unique_seq_to_set();
    if keys.len() == 0 {
        lemma_sum_empty(m);
    } else {
        let k = keys.last();
        let rest = keys.drop_last();
        lemma_sum_zipped(rest, values.drop_last());
        assert(keys[keys.len() - 1] == k);
        assert(keys.contains(k));
        let at = keys.index_of(k);
        assert(0 <= at < keys.len() && keys[at] == k);
        assert(at == keys.len() - 1);
        lemma_sum_remove(m, k);
        assert(m.remove(k) =~= zipped(rest, values.drop_last())) by {
            assert forall|q: K| m.remove(k).contains_key(q) == rest.contains(q) by {
                if rest.contains(q) {
                    let i = choose|i: int| 0 <= i < rest.len() && rest[i] == q;
                    assert(keys[i] == q);
                }
                if keys.contains(q) && q != k {
                    let i = choose|i: int| 0 <= i < keys.len() && keys[i] == q;
                    assert(rest[i] == q);
                }
            }
            assert forall|q: K| rest.contains(q) implies m[q] == zipped(
                rest,
                values.drop_last(),
            )[q] by {
                let i = rest.index_of(q);
                assert(0 <= i < rest.len() && rest[i] == q);
                assert(keys[i] == q);
                let j = keys.index_of(q);
                assert(0 <= j < keys.len() && keys[j] == q);
                assert(i == j);
            }
        }
    }
}

/// The same map with unbounded numbers.
pub open spec fn as_nats<K>(m: Map<K, u32>) -> Map<K, nat> {
    m.map_values(|v: u32| v as nat)
}

/// The sum of the values of a finite map.
pub open spec fn slot_sum<K>(m: Map<K, u32>) -> nat {
    map_sum(as_nats(m))
}

pub proof fn lemma_slot_empty<K>()
    ensures
        slot_sum(Map::<K, u32>::empty()) == 0,
{
    lemma_sum_empty(as_nats(Map::<K, u32>::empty()));
}

pub proof fn lemma_slot_insert<K>(m: Map<K, u32>, k: K, v: u32)
    requires
        m.dom().finite(),
    ensures
        m.contains_key(k) ==> slot_sum(m.insert(k, v)) == slot_sum(m) - m[k] + v,
        !m.contains_key(k) ==> slot_sum(m.insert(k, v)) == slot_sum(m) + v,
        m.contains_key(k) ==> m[k] <= slot_sum(m),
{
    assert(as_nats(m).dom() =~= m.dom());
    lemma_sum_insert(as_nats(m), k, v as nat);
    assert(as_nats(m.insert(k, v)) =~= as_nats(m).insert(k, v as nat));
    if m.contains_key(k) {
        lemma_sum_bounds_value(as_nats(m), k);
    }
}

pub proof fn lemma_slot_remove<K>(m: Map<K, u32>, k: K)
    requires
        m.dom().finite(),
    ensures
        m.contains_key(k) ==> slot_sum(m) == slot_sum(m.remove(k)) + m[k],
        !m.contains_key(k) ==> slot_sum(m.remove(k)) == slot_sum(m),
{
    assert(as_nats(m).dom() =~= m.dom());
    assert(as_nats(m.remove(k)) =~= as_nats(m).remove(k));
    if m.contains_key(k) {
        lemma_sum_remove(as_nats(m), k);
    } else {
        assert(m.remove(k) =~= m);
    }
}

} // verus!
