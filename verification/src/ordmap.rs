//! A map kept as a list of entries in the order of their keys.
use vstd::prelude::*;

use crate::order::{Dup, Key, Order};

verus! {

/// A map from keys to values that keeps its entries in the order of their keys.
///
/// Its view is the mathematical map from the views of the keys to the views of
/// the values; [`OrdMap::keys`] is the order in which the entries stand.
#[derive(Debug, PartialEq, Eq)]
pub struct OrdMap<K: Key, V: View> {
    entries: Vec<(K, V)>,
}

/// Keys in strictly rising order.
pub open spec fn rising<K: Key>(keys: Seq<K::V>) -> bool {
    forall|i: int, j: int| 0 <= i < j < keys.len() ==> K::before(#[trigger] keys[i], #[trigger] keys[j])
}

/// The keys of a list of entries.
pub open spec fn entry_keys<K: Key, V: View>(entries: Seq<(K, V)>) -> Seq<K::V> {
    Seq::new(entries.len(), |i: int| entries[i].0@)
}

/// The map that a list of entries stands for.
pub open spec fn entry_map<K: Key, V: View>(entries: Seq<(K, V)>) -> Map<K::V, V::V> {
    Map::new(
        |k: K::V| entry_keys(entries).contains(k),
        |k: K::V| entries[entry_keys(entries).index_of(k)].1@,
    )
}

/// Rising keys occur once each.
pub proof fn lemma_rising_distinct<K: Key>(keys: Seq<K::V>)
    requires
        rising::<K>(keys),
    ensures
        keys.no_duplicates(),
{
    assert forall|i: int, j: int| 0 <= i < keys.len() && 0 <= j < keys.len() && i != j implies keys[i]
        != keys[j] by {
        K::irreflexive(keys[i]);
        if i < j {
            assert(K::before(keys[i], keys[j]));
        } else {
            assert(K::before(keys[j], keys[i]));
        }
    }
}

/// In a rising list of entries, each entry gives the value of its key.
pub proof fn lemma_entry<K: Key, V: View>(entries: Seq<(K, V)>, i: int)
    requires
        rising::<K>(entry_keys(entries)),
        0 <= i < entries.len(),
    ensures
        entry_map(entries).contains_key(entry_keys(entries)[i]),
        entry_map(entries)[entry_keys(entries)[i]] == entries[i].1@,
{
    let keys = entry_keys(entries);
    lemma_rising_distinct::<K>(keys);
    assert(keys.contains(keys[i]));
    let j = keys.index_of(keys[i]);
    assert(0 <= j < keys.len() && keys[j] == keys[i]);
    assert(j == i);
}

/// Two rising lists of the same keys are the same list.
pub proof fn lemma_rising_unique<K: Key>(a: Seq<K::V>, b: Seq<K::V>)
    requires
        rising::<K>(a),
        rising::<K>(b),
        a.to_set() == b.to_set(),
    ensures
        a == b,
    decreases a.len(),
{
    if a.len() == 0 {
        if b.len() > 0 {
            assert(b.to_set().contains(b[0]));
            assert(a.to_set().contains(b[0]));
            assert(false);
        }
        assert(a =~= b);
    } else {
        assert(a.to_set().contains(a[0]));
        assert(b.to_set().contains(a[0]));
        let j = choose|j: int| 0 <= j < b.len() && b[j] == a[0];
        assert(b.to_set().contains(b[0]));
        assert(a.to_set().contains(b[0]));
        let i = choose|i: int| 0 <= i < a.len() && a[i] == b[0];
        if j > 0 && i > 0 {
            assert(K::before(b[0], b[j]));
            assert(K::before(a[0], a[i]));
            K::transitive(a[0], b[0], a[0]);
            K::irreflexive(a[0]);
        }
        assert(a[0] == b[0]);
        let ra = a.drop_first();
        let rb = b.drop_first();
        assert(rising::<K>(ra)) by {
            assert forall|i: int, j: int| 0 <= i < j < ra.len() implies K::before(
                #[trigger] ra[i],
                #[trigger] ra[j],
            ) by {
                assert(K::before(a[i + 1], a[j + 1]));
            }
        }
        assert(rising::<K>(rb)) by {
            assert forall|i: int, j: int| 0 <= i < j < rb.len() implies K::before(
                #[trigger] rb[i],
                #[trigger] rb[j],
            ) by {
                assert(K::before(b[i + 1], b[j + 1]));
            }
        }
        lemma_rising_distinct::<K>(a);
        lemma_rising_distinct::<K>(b);
        assert(ra.to_set() =~= rb.to_set()) by {
            assert forall|k: K::V| ra.to_set().contains(k) == rb.to_set().contains(k) by {
                if ra.to_set().contains(k) {
                    let i = choose|i: int| 0 <= i < ra.len() && ra[i] == k;
                    assert(a[i + 1] == k);
                    assert(a.to_set().contains(k));
                    assert(b.to_set().contains(k));
                    let j = choose|j: int| 0 <= j < b.len() && b[j] == k;
                    assert(j != 0);
                    assert(rb[j - 1] == k);
                }
                if rb.to_set().contains(k) {
                    let j = choose|j: int| 0 <= j < rb.len() && rb[j] == k;
                    assert(b[j + 1] == k);
                    assert(b.to_set().contains(k));
                    assert(a.to_set().contains(k));
                    let i = choose|i: int| 0 <= i < a.len() && a[i] == k;
                    assert(i != 0);
                    assert(ra[i - 1] == k);
                }
            }
        }
        lemma_rising_unique::<K>(ra, rb);
        assert(a =~= seq![a[0]] + ra);
        assert(b =~= seq![b[0]] + rb);
    }
}

/// The rising list of the keys in a set.
pub open spec fn listing<K: Key>(keys: Set<K::V>) -> Seq<K::V> {
    choose|list: Seq<K::V>| rising::<K>(list) && list.to_set() == keys
}

/// A rising list of the keys in a set is the rising list of them.
pub proof fn lemma_listing<K: Key>(list: Seq<K::V>, keys: Set<K::V>)
    requires
        rising::<K>(list),
        list.to_set() == keys,
    ensures
        listing::<K>(keys) == list,
{
    lemma_rising_unique::<K>(listing::<K>(keys), list);
}

/// What holds of every map: its keys rise, they are the domain of its view, and
/// the domain is finite.
pub open spec fn lists<K: Key, W>(keys: Seq<K::V>, map: Map<K::V, W>) -> bool {
    &&& rising::<K>(keys)
    &&& keys.no_duplicates()
    &&& keys.to_set() == map.dom()
    &&& map.dom().finite()
    &&& map.dom().len() == keys.len()
    &&& forall|k: K::V| #[trigger] map.contains_key(k) <==> keys.contains(k)
    &&& forall|i: int| 0 <= i < keys.len() ==> map.contains_key(#[trigger] keys[i])
}

impl<K: Key, V: View> OrdMap<K, V> {
    #[verifier::type_invariant]
    pub closed spec fn wf(self) -> bool {
        rising::<K>(entry_keys(self.entries@))
    }

    /// The keys in the order in which the entries stand.
    pub closed spec fn keys(self) -> Seq<K::V> {
        entry_keys(self.entries@)
    }

    /// What is known of the keys of a well-formed map.
    pub proof fn lemma_lists(self)
        requires
            self.wf(),
        ensures
            lists::<K, V::V>(self.keys(), self@),
    {
        let keys = self.keys();
        lemma_rising_distinct::<K>(keys);
        assert(keys.to_set() =~= self@.dom());
        keys.unique_seq_to_set();
        assert forall|i: int| 0 <= i < keys.len() implies self@.contains_key(#[trigger] keys[i]) by {
            assert(keys.contains(keys[i]));
        }
    }
}

impl<K: Key, V: View> View for OrdMap<K, V> {
    type V = Map<K::V, V::V>;

    closed spec fn view(&self) -> Map<K::V, V::V> {
        entry_map(self.entries@)
    }
}

impl<K: Key, V: View> OrdMap<K, V> {
    /// The map without entries.
    pub fn new() -> (map: Self)
        ensures
            map@ == Map::<K::V, V::V>::empty(),
            map.keys() == Seq::<K::V>::empty(),
    {
        let map = OrdMap { entries: Vec::new() };
        proof {
            assert(map@ =~= Map::empty());
            assert(map.keys() =~= Seq::empty());
        }
        map
    }

    /// How many entries the map has.
    pub fn len(&self) -> (n: usize)
        ensures
            n == self.keys().len(),
            lists::<K, V::V>(self.keys(), self@),
    {
        proof {
            use_type_invariant(self);
            self.lemma_lists();
        }
        self.entries.len()
    }

    /// The key of the `i`-th entry.
    pub fn key_at(&self, i: usize) -> (key: &K)
        requires
            i < self.keys().len(),
        ensures
            key@ == self.keys()[i as int],
            lists::<K, V::V>(self.keys(), self@),
    {
        proof {
            use_type_invariant(self);
            self.lemma_lists();
        }
        &self.entries[i].0
    }

    /// The value of the `i`-th entry.
    pub fn value_at(&self, i: usize) -> (value: &V)
        requires
            i < self.keys().len(),
        ensures
            self@.contains_key(self.keys()[i as int]),
            value@ == self@[self.keys()[i as int]],
            lists::<K, V::V>(self.keys(), self@),
    {
        proof {
            use_type_invariant(self);
            self.lemma_lists();
            lemma_entry(self.entries@, i as int);
        }
        &self.entries[i].1
    }

    /// Where `key` stands, or where it would have to stand.
    fn find(&self, key: &K) -> (r: (usize, bool))
        ensures
            r.0 <= self.entries@.len(),
            r.1 ==> r.0 < self.entries@.len() && self.entries@[r.0 as int].0@ == key@,
            forall|j: int| 0 <= j < r.0 ==> K::before(#[trigger] self.entries@[j].0@, key@),
            !r.1 ==> forall|j: int|
                r.0 <= j < self.entries@.len() ==> K::before(key@, #[trigger] self.entries@[j].0@),
            r.1 == self@.contains_key(key@),
    {
        proof {
            use_type_invariant(self);
        }
        let ghost keys = entry_keys(self.entries@);
        let mut i: usize = 0;
        while i < self.entries.len()
            invariant
                keys == entry_keys(self.entries@),
                rising::<K>(keys),
                i <= self.entries@.len(),
                forall|j: int| 0 <= j < i ==> K::before(#[trigger] self.entries@[j].0@, key@),
            decreases self.entries@.len() - i,
        {
            match self.entries[i].0.compare(key) {
                Order::Before => {},
                Order::Same => {
                    proof {
                        assert(keys[i as int] == key@);
                    }
                    return (i, true);
                },
                Order::After => {
                    proof {
                        assert forall|j: int| i <= j < self.entries@.len() implies K::before(
                            key@,
                            #[trigger] self.entries@[j].0@,
                        ) by {
                            if j > i {
                                assert(K::before(keys[i as int], keys[j]));
                                K::transitive(key@, keys[i as int], keys[j]);
                            }
                        }
                        assert(!keys.contains(key@)) by {
                            if keys.contains(key@) {
                                let j = choose|j: int| 0 <= j < keys.len() && keys[j] == key@;
                                assert(self.entries@[j].0@ == key@);
                                K::irreflexive(key@);
                            }
                        }
                    }
                    return (i, false);
                },
            }
            i += 1;
        }
        proof {
            if keys.contains(key@) {
                let j = choose|j: int| 0 <= j < keys.len() && keys[j] == key@;
                assert(self.entries@[j].0@ == key@);
                K::irreflexive(key@);
            }
        }
        (i, false)
    }

    /// The value of `key`.
    pub fn get(&self, key: &K) -> (value: Option<&V>)
        ensures
            value is Some <==> self@.contains_key(key@),
            value matches Some(v) ==> v@ == self@[key@],
            lists::<K, V::V>(self.keys(), self@),
    {
        proof {
            use_type_invariant(self);
            self.lemma_lists();
        }
        let (i, found) = self.find(key);
        if found {
            proof {
                lemma_entry(self.entries@, i as int);
            }
            Some(&self.entries[i].1)
        } else {
            None
        }
    }

    /// Whether the map has an entry for `key`.
    pub fn contains(&self, key: &K) -> (b: bool)
        ensures
            b == self@.contains_key(key@),
    {
        let (_, found) = self.find(key);
        found
    }

    /// Gives `key` the value `value`.
    pub fn insert(&mut self, key: K, value: V)
        ensures
            final(self)@ == old(self)@.insert(key@, value@),
            lists::<K, V::V>(final(self).keys(), final(self)@),
    {
        proof {
            use_type_invariant(&*self);
        }
        let (i, found) = self.find(&key);
        let ghost before = self.entries@;
        let ghost keys = entry_keys(before);
        let ghost k = key@;
        let ghost v = value@;
        let mut entries: Vec<(K, V)> = Vec::new();
        std::mem::swap(&mut self.entries, &mut entries);
        if found {
            let ghost after = before.update(i as int, (key, value));
            proof {
                assert(entry_keys(after) =~= keys);
                lemma_write(before, after, i as int, k, v);
            }
            entries.set(i, (key, value));
        } else {
            let ghost after = before.insert(i as int, (key, value));
            proof {
                lemma_add(before, after, i as int, key, value);
            }
            entries.insert(i, (key, value));
        }
        self.entries = entries;
        proof {
            self.lemma_lists();
        }
    }

    /// Takes the entry of `key` out.
    pub fn remove(&mut self, key: &K) -> (removed: Option<V>)
        ensures
            final(self)@ == old(self)@.remove(key@),
            removed is Some <==> old(self)@.contains_key(key@),
            removed matches Some(v) ==> v@ == old(self)@[key@],
            lists::<K, V::V>(final(self).keys(), final(self)@),
    {
        proof {
            use_type_invariant(&*self);
        }
        let (i, found) = self.find(key);
        let ghost before = self.entries@;
        let mut removed: Option<V> = None;
        if found {
            proof {
                lemma_entry(before, i as int);
                lemma_take(before, before.remove(i as int), i as int);
            }
            let mut entries: Vec<(K, V)> = Vec::new();
            std::mem::swap(&mut self.entries, &mut entries);
            let (_, value) = entries.remove(i);
            removed = Some(value);
            self.entries = entries;
        } else {
            proof {
                assert(self@.remove(key@) =~= self@);
            }
        }
        proof {
            self.lemma_lists();
        }
        removed
    }
}

proof fn lemma_write<K: Key, V: View>(
    before: Seq<(K, V)>,
    after: Seq<(K, V)>,
    i: int,
    k: K::V,
    v: V::V,
)
    requires
        rising::<K>(entry_keys(before)),
        0 <= i < before.len(),
        after.len() == before.len(),
        entry_keys(after) == entry_keys(before),
        after[i].0@ == k,
        after[i].1@ == v,
        forall|j: int| 0 <= j < before.len() && j != i ==> after[j] == before[j],
    ensures
        rising::<K>(entry_keys(after)),
        entry_map(after) == entry_map(before).insert(k, v),
{
    let keys = entry_keys(before);
    assert(keys[i] == entry_keys(after)[i]);
    lemma_rising_distinct::<K>(keys);
    assert(keys.contains(keys[i]));
    assert(entry_map(after) =~= entry_map(before).insert(k, v)) by {
        assert forall|q: K::V| entry_map(after).contains_key(q) implies entry_map(after)[q]
            == entry_map(before).insert(k, v)[q] by {
            let j = keys.index_of(q);
            assert(0 <= j < keys.len() && keys[j] == q);
            lemma_entry(after, j);
            lemma_entry(before, j);
        }
    }
}

proof fn lemma_add<K: Key, V: View>(
    before: Seq<(K, V)>,
    after: Seq<(K, V)>,
    i: int,
    key: K,
    value: V,
)
    requires
        rising::<K>(entry_keys(before)),
        0 <= i <= before.len(),
        after == before.insert(i, (key, value)),
        !entry_map(before).contains_key(key@),
        forall|j: int| 0 <= j < i ==> K::before(#[trigger] before[j].0@, key@),
        forall|j: int| i <= j < before.len() ==> K::before(key@, #[trigger] before[j].0@),
    ensures
        rising::<K>(entry_keys(after)),
        entry_map(after) == entry_map(before).insert(key@, value@),
{
    let ka = entry_keys(after);
    let kb = entry_keys(before);
    assert(ka =~= kb.insert(i, key@));
    assert forall|m: int, n: int| 0 <= m < n < ka.len() implies K::before(
        #[trigger] ka[m],
        #[trigger] ka[n],
    ) by {
        let om = if m < i { m } else { m - 1 };
        let on = if n < i { n } else { n - 1 };
        if m != i && n != i {
            assert(ka[m] == kb[om] && ka[n] == kb[on]);
            assert(K::before(kb[om], kb[on]));
        } else if m == i {
            assert(ka[n] == before[on].0@);
        } else {
            assert(ka[m] == before[om].0@);
        }
    }
    assert(entry_map(after) =~= entry_map(before).insert(key@, value@)) by {
        assert forall|q: K::V| entry_map(after).contains_key(q) == (q == key@ || entry_map(
            before,
        ).contains_key(q)) by {
            if kb.contains(q) {
                let j = choose|j: int| 0 <= j < kb.len() && kb[j] == q;
                let n = if j < i { j } else { j + 1 };
                assert(ka[n] == q);
            }
            if q == key@ {
                assert(ka[i] == q);
            }
            if ka.contains(q) {
                let n = choose|n: int| 0 <= n < ka.len() && ka[n] == q;
                if n != i {
                    let j = if n < i { n } else { n - 1 };
                    assert(kb[j] == q);
                }
            }
        }
        assert forall|q: K::V| entry_map(after).contains_key(q) implies entry_map(after)[q]
            == entry_map(before).insert(key@, value@)[q] by {
            let n = choose|n: int| 0 <= n < ka.len() && ka[n] == q;
            lemma_entry(after, n);
            if n == i {
            } else {
                let j = if n < i { n } else { n - 1 };
                assert(kb[j] == q);
                lemma_entry(before, j);
                assert(after[n] == before[j]);
                assert(q != key@);
            }
        }
    }
}

proof fn lemma_take<K: Key, V: View>(before: Seq<(K, V)>, after: Seq<(K, V)>, i: int)
    requires
        rising::<K>(entry_keys(before)),
        0 <= i < before.len(),
        after == before.remove(i),
    ensures
        rising::<K>(entry_keys(after)),
        entry_map(after) == entry_map(before).remove(before[i].0@),
{
    let ka = entry_keys(after);
    let kb = entry_keys(before);
    lemma_rising_distinct::<K>(kb);
    assert forall|m: int, n: int| 0 <= m < n < ka.len() implies K::before(
        #[trigger] ka[m],
        #[trigger] ka[n],
    ) by {
        let om = if m < i { m } else { m + 1 };
        let on = if n < i { n } else { n + 1 };
        assert(ka[m] == kb[om] && ka[n] == kb[on]);
        assert(K::before(kb[om], kb[on]));
    }
    let k = before[i].0@;
    assert(kb[i] == k);
    assert(entry_map(after) =~= entry_map(before).remove(k)) by {
        assert forall|q: K::V| entry_map(after).contains_key(q) == (q != k && entry_map(
            before,
        ).contains_key(q)) by {
            if kb.contains(q) && q != k {
                let j = choose|j: int| 0 <= j < kb.len() && kb[j] == q;
                let n = if j < i { j } else { j - 1 };
                assert(ka[n] == q);
            }
            if ka.contains(q) {
                let n = choose|n: int| 0 <= n < ka.len() && ka[n] == q;
                let j = if n < i { n } else { n + 1 };
                assert(kb[j] == q);
            }
        }
        assert forall|q: K::V| entry_map(after).contains_key(q) implies entry_map(after)[q]
            == entry_map(before).remove(k)[q] by {
            let n = choose|n: int| 0 <= n < ka.len() && ka[n] == q;
            let j = if n < i { n } else { n + 1 };
            lemma_entry(after, n);
            assert(kb[j] == q);
            lemma_entry(before, j);
            assert(after[n] == before[j]);
        }
    }
}

impl<K: Key, V: Dup> Dup for OrdMap<K, V> {
    fn dup(&self) -> (copy: Self) {
        let mut copy: OrdMap<K, V> = OrdMap::new();
        let mut i: usize = 0;
        let n: usize = self.len();
        while i < n
            invariant
                n == self.keys().len(),
                i <= n,
                lists::<K, V::V>(self.keys(), self@),
                forall|k: K::V| #[trigger] copy@.contains_key(k) <==> (exists|j: int|
                    0 <= j < i && self.keys()[j] == k),
                forall|k: K::V| #[trigger] copy@.contains_key(k) ==> copy@[k] == self@[k],
            decreases n - i,
        {
            copy.insert(self.key_at(i).dup(), self.value_at(i).dup());
            i += 1;
        }
        proof {
            assert(copy@ =~= self@) by {
                assert forall|k: K::V| copy@.contains_key(k) == self@.contains_key(k) by {
                    if self@.contains_key(k) {
                        let j = choose|j: int| 0 <= j < self.keys().len() && self.keys()[j] == k;
                        assert(0 <= j < i && self.keys()[j] == k);
                    }
                }
            }
        }
        copy
    }
}

} // verus!
