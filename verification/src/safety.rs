//! What holds of the coordinator over time, whatever the allocator answers.
use vstd::prelude::*;

use crate::allocation::{
    answered_with, entry_fits, law_writes_stay_within_budgets, no_empty_grants, table_slots, Holder,
    HolderName, Rejection, SlotName, TableView,
};
use crate::budget::BudgetView;
use crate::grant::{
    allocated, claims_on, initial_coordinator, recomputed, reconciled, value_or_zero, Allocator,
    CoordinatorView, PlaceName, ReportView,
};
use crate::order::Key;
use crate::ordmap::{lemma_listing, lemma_rising_distinct, rising};
use crate::spread::{
    is_spread, law_a_spread_target_is_handed_out_whole, least, lemma_spread_exists,
};
use crate::sums::{
    as_nats, lemma_seq_sum_bounds, lemma_sum_drop_zeros, lemma_sum_empty, lemma_sum_monotone,
    lemma_sum_remove, lemma_sum_union, lemma_sum_zipped, map_sum, seq_sum, zipped,
};
use crate::tenant::TenantName;

verus! {

/// What every state of a coordinator keeps: the table stands within its
/// budgets; what a holder is granted is among what it may still have; nothing
/// counts for a proxy that has departed; and no mark is later than the present
/// generation.
pub open spec fn sound(v: CoordinatorView) -> bool {
    &&& entry_fits(v.table)
    &&& no_empty_grants(v.table)
    &&& v.table.dom().subset_of(v.budgets.dom())
    &&& v.budgets.dom().finite()
    &&& v.held.dom().finite()
    &&& v.demand.dom().finite()
    &&& forall|p: PlaceName|
        !v.departed.contains_key(p.1.1) ==> #[trigger] v.slots_at(p) <= v.occupied_at(p)
    &&& forall|p: PlaceName| #[trigger]
        v.held.contains_key(p) ==> !v.departed.contains_key(p.1.1) && v.held[p].changed_at
            <= v.generation
    &&& forall|q: Seq<char>| #[trigger]
        v.generations.contains_key(q) ==> v.generations[q] <= v.generation
}

/// A coordinator that nothing was told yet is sound.
pub proof fn law_a_new_coordinator_is_sound()
    ensures
        sound(initial_coordinator()),
{
}

/// The holders that count on an instance are finitely many, and can be listed.
proof fn lemma_holders(v: CoordinatorView, i: Seq<char>)
    requires
        v.held.dom().finite(),
        v.demand.dom().finite(),
    ensures
        rising::<Holder>(v.holders_on(i)),
        v.holders_on(i).to_set() == v.holder_set(i),
        v.holders_on(i).no_duplicates(),
{
    let places = v.held.dom().union(v.demand.dom());
    let names = places.map(|p: PlaceName| p.1);
    places.lemma_map_finite(|p: PlaceName| p.1);
    assert(v.holder_set(i).subset_of(names)) by {
        assert forall|h: HolderName| v.holder_set(i).contains(h) implies names.contains(h) by {
            assert(places.contains((i, h)));
        }
    }
    vstd::set_lib::lemma_len_subset(v.holder_set(i), names);
    let list = lemma_listable::<Holder>(v.holder_set(i));
    lemma_listing::<Holder>(list, v.holder_set(i));
    lemma_rising_distinct::<Holder>(list);
}

/// Every finite set of keys can be listed in rising order.
pub proof fn lemma_listable<K: Key>(keys: Set<K::V>) -> (list: Seq<K::V>)
    requires
        keys.finite(),
    ensures
        rising::<K>(list),
        list.to_set() == keys,
    decreases keys.len(),
{
    if keys.is_empty() {
        assert(Seq::<K::V>::empty().to_set() =~= keys);
        Seq::empty()
    } else {
        let k = keys.choose();
        let rest = lemma_listable::<K>(keys.remove(k));
        let n = lemma_place_for::<K>(rest, k);
        let list = rest.insert(n, k);
        assert forall|a: int, b: int| 0 <= a < b < list.len() implies K::before(
            #[trigger] list[a],
            #[trigger] list[b],
        ) by {
            let oa = if a < n { a } else { a - 1 };
            let ob = if b < n { b } else { b - 1 };
            if a != n && b != n {
                assert(K::before(rest[oa], rest[ob]));
            }
        }
        assert(list.to_set() =~= keys) by {
            assert forall|q: K::V| list.to_set().contains(q) == keys.contains(q) by {
                if keys.contains(q) {
                    if q == k {
                        assert(list[n] == q);
                    } else {
                        assert(rest.to_set().contains(q));
                        let j = choose|j: int| 0 <= j < rest.len() && rest[j] == q;
                        let m = if j < n { j } else { j + 1 };
                        assert(list[m] == q);
                    }
                }
                if list.to_set().contains(q) {
                    let m = choose|m: int| 0 <= m < list.len() && list[m] == q;
                    if m != n {
                        let j = if m < n { m } else { m - 1 };
                        assert(rest[j] == q);
                        assert(rest.to_set().contains(q));
                    }
                }
            }
        }
        list
    }
}

/// Where a new key stands in a rising list.
proof fn lemma_place_for<K: Key>(list: Seq<K::V>, k: K::V) -> (n: int)
    requires
        rising::<K>(list),
        !list.to_set().contains(k),
    ensures
        0 <= n <= list.len(),
        forall|j: int| 0 <= j < n ==> K::before(#[trigger] list[j], k),
        forall|j: int| n <= j < list.len() ==> K::before(k, #[trigger] list[j]),
    decreases list.len(),
{
    if list.len() == 0 {
        0
    } else {
        let last = list.last();
        let rest = list.drop_last();
        assert(list[list.len() - 1] == last);
        assert(list.to_set().contains(last));
        K::total(last, k);
        if K::before(last, k) {
            assert forall|j: int| 0 <= j < list.len() implies K::before(#[trigger] list[j], k) by {
                if j < list.len() - 1 {
                    assert(K::before(list[j], list[list.len() - 1]));
                    K::transitive(list[j], last, k);
                }
            }
            list.len() as int
        } else {
            assert(rising::<K>(rest)) by {
                assert forall|a: int, b: int| 0 <= a < b < rest.len() implies K::before(
                    #[trigger] rest[a],
                    #[trigger] rest[b],
                ) by {
                    assert(K::before(list[a], list[b]));
                }
            }
            assert(!rest.to_set().contains(k)) by {
                if rest.to_set().contains(k) {
                    let j = choose|j: int| 0 <= j < rest.len() && rest[j] == k;
                    assert(list[j] == k);
                    assert(list.to_set().contains(k));
                }
            }
            let n = lemma_place_for::<K>(rest, k);
            assert forall|j: int| 0 <= j < n implies K::before(#[trigger] list[j], k) by {
                assert(rest[j] == list[j]);
            }
            assert forall|j: int| n <= j < list.len() implies K::before(k, #[trigger] list[j]) by {
                if j < rest.len() {
                    assert(rest[j] == list[j]);
                }
            }
            n
        }
    }
}

/// What the holders listed on an instance may still have.
spec fn occupied_list(v: CoordinatorView, i: Seq<char>) -> Seq<u32> {
    Seq::new(v.holders_on(i).len(), |k: int| v.occupied_at((i, v.holders_on(i)[k])))
}

spec fn larger_of(a: u32, b: u32) -> u32 {
    if a > b {
        a
    } else {
        b
    }
}

/// The larger of what each holder may still have and what it is to be granted.
spec fn occupied_next(v: CoordinatorView, targets: Map<SlotName, u32>, i: Seq<char>) -> Seq<u32> {
    Seq::new(
        v.holders_on(i).len(),
        |k: int|
            larger_of(v.occupied_at((i, v.holders_on(i)[k])), v.grant_for(targets, i, k)),
    )
}

spec fn places_of(v: CoordinatorView, i: Seq<char>) -> Seq<PlaceName> {
    Seq::new(v.holders_on(i).len(), |k: int| (i, v.holders_on(i)[k]))
}

proof fn lemma_places_of(v: CoordinatorView, i: Seq<char>)
    requires
        v.held.dom().finite(),
        v.demand.dom().finite(),
    ensures
        places_of(v, i).no_duplicates(),
        forall|p: PlaceName|
            places_of(v, i).contains(p) <==> p.0 == i && #[trigger] v.is_place(p),
{
    lemma_holders(v, i);
    let hs = v.holders_on(i);
    let ps = places_of(v, i);
    assert forall|a: int, b: int| 0 <= a < ps.len() && 0 <= b < ps.len() && a != b implies ps[a]
        != ps[b] by {
        assert(hs[a] != hs[b]);
    }
    assert forall|p: PlaceName| ps.contains(p) <==> p.0 == i && #[trigger] v.is_place(p) by {
        if ps.contains(p) {
            let k = choose|k: int| 0 <= k < ps.len() && ps[k] == p;
            assert(hs.to_set().contains(hs[k]));
            assert(v.holder_set(i).contains(hs[k]));
        }
        if p.0 == i && v.is_place(p) {
            assert(v.holder_set(i).contains(p.1));
            assert(hs.to_set().contains(p.1));
            let k = choose|k: int| 0 <= k < hs.len() && hs[k] == p.1;
            assert(ps[k] == p);
        }
    }
}

/// What may still be had on an instance is what its listed holders may still
/// have together.
proof fn lemma_occupied_sum(v: CoordinatorView, i: Seq<char>)
    requires
        sound(v),
    ensures
        v.occupied_on(i) == seq_sum(occupied_list(v, i)),
{
    lemma_places_of(v, i);
    let ps = places_of(v, i);
    let os = occupied_list(v, i);
    lemma_sum_zipped(ps, os);
    let z = zipped(ps, os);
    let m = v.occupied_map(i);
    assert(m.dom().subset_of(v.held.dom()));
    vstd::set_lib::lemma_len_subset(m.dom(), v.held.dom());
    assert forall|p: PlaceName| #[trigger] z.contains_key(p) implies if m.contains_key(p) {
        z[p] == m[p]
    } else {
        z[p] == 0
    } by {
        let k = ps.index_of(p);
        assert(ps.contains(p));
        assert(0 <= k < ps.len() && ps[k] == p);
        assert(v.is_place(p));
    }
    assert forall|p: PlaceName| #[trigger] m.contains_key(p) implies z.contains_key(p) by {
        assert(v.is_place(p));
    }
    lemma_sum_drop_zeros(z, m);
}

/// Over the first `n` holders, what is granted above what they may still have
/// is at most what is available, and what their rises ask for.
proof fn lemma_rises_within(v: CoordinatorView, targets: Map<SlotName, u32>, i: Seq<char>, n: int)
    requires
        sound(v),
        v.budgets.contains_key(i),
        0 <= n <= v.holders_on(i).len(),
    ensures
        seq_sum(occupied_next(v, targets, i).subrange(0, n)) <= seq_sum(
            occupied_list(v, i).subrange(0, n),
        ) + least(v.available(i), v.rises_before(targets, i, v.holders_on(i), n)),
    decreases n,
{
    let hs = v.holders_on(i);
    let ms = occupied_next(v, targets, i);
    let os = occupied_list(v, i);
    if n == 0 {
        assert(ms.subrange(0, 0) =~= Seq::empty());
        assert(os.subrange(0, 0) =~= Seq::empty());
    } else {
        let k = n - 1;
        lemma_rises_within(v, targets, i, k);
        assert(ms.subrange(0, n).drop_last() =~= ms.subrange(0, k));
        assert(os.subrange(0, n).drop_last() =~= os.subrange(0, k));
        let p = (i, hs[k]);
        lemma_holders(v, i);
        assert(hs.to_set().contains(hs[k]));
        assert(v.holder_set(i).contains(hs[k]));
        assert(v.is_place(p));
        assert(v.slots_at(p) <= v.occupied_at(p));
        lemma_occupied_sum(v, i);
        lemma_seq_sum_bounds(os, k);
        assert(os[k] == v.occupied_at(p));
        assert(v.occupied_at(p) + v.left_for(targets, i, k) <= u32::MAX) by {
            if v.left_for(targets, i, k) > 0 {
                assert(v.available(i) > 0);
                assert(v.occupied_on(i) + v.available(i) == v.budgets[i].total());
            }
        }
    }
}

/// Where a table is settled, what a holder is granted is what it is to be
/// granted.
proof fn lemma_settled_slots(v: CoordinatorView, targets: Map<SlotName, u32>, p: PlaceName)
    requires
        sound(v),
        entry_fits(v.entry(targets)),
    ensures
        v.settled(targets).table == v.table.union_prefer_right(v.entry(targets)),
        v.budgets.contains_key(p.0) ==> v.settled(targets).slots_at(p) == v.grant_of(
            targets,
            p.0,
            p.1,
        ),
        !v.budgets.contains_key(p.0) ==> v.settled(targets).slots_at(p) == 0 && v.slots_at(p) == 0,
        !v.is_place(p) ==> v.settled(targets).slots_at(p) == 0,
{
    let after = v.table.union_prefer_right(v.entry(targets));
    if v.budgets.contains_key(p.0) {
        assert(v.entry(targets).contains_key(p.0));
        assert(after[p.0] == v.desired(targets, p.0));
    } else {
        assert(!v.table.dom().contains(p.0));
        assert(!after.contains_key(p.0));
    }
}

/// Settling keeps a state sound.
pub proof fn law_settling_keeps_sound(v: CoordinatorView, targets: Map<SlotName, u32>)
    requires
        sound(v),
        v.generation < u64::MAX,
    ensures
        sound(v.settled(targets)),
{
    let w = v.settled(targets);
    let e = v.entry(targets);
    if entry_fits(e) {
        let after = v.table.union_prefer_right(e);
        assert(w.table == after);
        assert(entry_fits(after)) by {
            law_writes_stay_within_budgets(v.table, e);
        }
        assert(no_empty_grants(after)) by {
            assert forall|i: Seq<char>| #[trigger] after.contains_key(i) implies {
                &&& after[i].granted.dom().finite()
                &&& forall|h: HolderName| #[trigger]
                    after[i].granted.contains_key(h) ==> after[i].granted[h] > 0
            } by {
                if e.contains_key(i) {
                    lemma_holders(v, i);
                    let hs = v.holders_on(i);
                    hs.unique_seq_to_set();
                    assert(after[i].granted.dom().subset_of(hs.to_set())) by {
                        assert forall|h: HolderName| after[i].granted.contains_key(
                            h,
                        ) implies hs.to_set().contains(h) by {
                            assert(v.is_place((i, h)));
                            assert(v.holder_set(i).contains(h));
                        }
                    }
                    vstd::set_lib::lemma_len_subset(after[i].granted.dom(), hs.to_set());
                } else {
                    assert(v.table.contains_key(i));
                }
            }
        }
        assert(after.dom().subset_of(v.budgets.dom()));
        vstd::set_lib::lemma_len_subset(after.dom(), v.budgets.dom());
        lemma_moved_finite(v, after);
        if forall|p: PlaceName| !CoordinatorView::moved(v.table, after, p) {
            assert forall|p: PlaceName|
                !w.departed.contains_key(p.1.1) implies #[trigger] w.slots_at(p)
                <= w.occupied_at(p) by {
                assert(!CoordinatorView::moved(v.table, after, p));
                assert(v.slots_at(p) <= v.occupied_at(p));
            }
        } else {
            assert forall|p: PlaceName|
                !w.departed.contains_key(p.1.1) implies #[trigger] w.slots_at(p)
                <= w.occupied_at(p) by {
                assert(v.slots_at(p) <= v.occupied_at(p));
                if w.slots_at(p) > 0 {
                    if !CoordinatorView::moved(v.table, after, p) {
                        assert(v.slots_at(p) > 0);
                        assert(v.held.contains_key(p));
                    }
                    assert(w.held.contains_key(p));
                }
            }
            assert forall|p: PlaceName| #[trigger] w.held.contains_key(p) implies !w.departed.contains_key(
                p.1.1,
            ) && w.held[p].changed_at <= w.generation by {
                lemma_settled_slots(v, targets, p);
                if v.departed.contains_key(p.1.1) {
                    assert(!v.held.contains_key(p));
                    assert(v.occupied_at(p) == 0);
                    assert(!v.is_place(p));
                }
            }
        }
    }
}

/// A table grants something to finitely many holders only.
proof fn lemma_grants_finite(table: TableView, instances: Set<Seq<char>>)
    requires
        no_empty_grants(table),
        instances.finite(),
        instances.subset_of(table.dom()),
    ensures
        Set::new(
            |p: PlaceName| instances.contains(p.0) && table[p.0].granted.contains_key(p.1),
        ).finite(),
    decreases instances.len(),
{
    let all = Set::new(
        |p: PlaceName| instances.contains(p.0) && table[p.0].granted.contains_key(p.1),
    );
    if instances.is_empty() {
        assert(all =~= Set::empty());
    } else {
        let i = instances.choose();
        let others = instances.remove(i);
        lemma_grants_finite(table, others);
        let rest = Set::new(
            |p: PlaceName| others.contains(p.0) && table[p.0].granted.contains_key(p.1),
        );
        assert(table.contains_key(i));
        let on = table[i].granted.dom();
        let here = on.map(|h: HolderName| (i, h));
        on.lemma_map_finite(|h: HolderName| (i, h));
        assert(all =~= rest.union(here)) by {
            assert forall|p: PlaceName| all.contains(p) == rest.union(here).contains(p) by {
                if all.contains(p) && p.0 == i {
                    assert(on.contains(p.1));
                    assert(p == (i, p.1));
                }
                if here.contains(p) {
                    let h = choose|h: HolderName| on.contains(h) && p == (i, h);
                }
            }
        }
    }
}

/// Only finitely many holders count after the table has moved.
proof fn lemma_moved_finite(v: CoordinatorView, after: TableView)
    requires
        v.held.dom().finite(),
        no_empty_grants(after),
        after.dom().finite(),
    ensures
        v.moved_to(after).held.dom().finite(),
{
    let w = v.moved_to(after);
    lemma_grants_finite(after, after.dom());
    let granted = Set::new(
        |p: PlaceName| after.dom().contains(p.0) && after[p.0].granted.contains_key(p.1),
    );
    let both = v.held.dom().union(granted);
    assert(w.held.dom().subset_of(both)) by {
        assert forall|p: PlaceName| w.held.dom().contains(p) implies both.contains(p) by {
            if !v.held.contains_key(p) {
                assert(table_slots(after, p.0, p.1) > 0);
            }
        }
    }
    vstd::set_lib::lemma_len_subset(w.held.dom(), both);
}


/// What each holder may still have after settling.
proof fn lemma_settled_occupied(v: CoordinatorView, targets: Map<SlotName, u32>, p: PlaceName)
    requires
        sound(v),
        v.generation < u64::MAX,
        entry_fits(v.entry(targets)),
    ensures
        v.settled(targets).occupied_at(p) == if v.is_place(p) && v.budgets.contains_key(p.0) {
            larger_of(v.occupied_at(p), v.grant_of(targets, p.0, p.1))
        } else {
            v.occupied_at(p)
        },
{
    let after = v.table.union_prefer_right(v.entry(targets));
    let w = v.settled(targets);
    lemma_settled_slots(v, targets, p);
    if v.departed.contains_key(p.1.1) {
        assert(!v.held.contains_key(p));
    } else {
        assert(v.slots_at(p) <= v.occupied_at(p));
    }
    if forall|q: PlaceName| !CoordinatorView::moved(v.table, after, q) {
        assert(!CoordinatorView::moved(v.table, after, p));
    } else {
        if !v.held.contains_key(p) && !CoordinatorView::moved(v.table, after, p) {
            assert(v.slots_at(p) == 0);
        }
    }
}

/// Settling never lets more connections be possible on an instance than its
/// total budget, or than were possible before: a slot that is taken back is not
/// granted again until it is reported closed.
pub proof fn law_settling_stays_within_the_budget(
    v: CoordinatorView,
    targets: Map<SlotName, u32>,
    i: Seq<char>,
)
    requires
        sound(v),
        v.generation < u64::MAX,
        v.budgets.contains_key(i),
    ensures
        v.settled(targets).occupied_on(i) <= v.occupied_on(i) || v.settled(targets).occupied_on(i)
            <= v.budgets[i].total(),
{
    if entry_fits(v.entry(targets)) {
        let w = v.settled(targets);
        law_settling_keeps_sound(v, targets);
        lemma_places_of(v, i);
        lemma_holders(v, i);
        let hs = v.holders_on(i);
        let ps = places_of(v, i);
        let ms = occupied_next(v, targets, i);
        let os = occupied_list(v, i);
        lemma_sum_zipped(ps, ms);
        let z = zipped(ps, ms);
        let m = w.occupied_map(i);
        assert(m.dom().subset_of(w.held.dom()));
        vstd::set_lib::lemma_len_subset(m.dom(), w.held.dom());
        assert forall|p: PlaceName| #[trigger] m.contains_key(p) implies z.contains_key(p)
            && m[p] <= z[p] by {
            lemma_settled_occupied(v, targets, p);
            lemma_settled_slots(v, targets, p);
            if !v.is_place(p) {
                assert(v.departed.contains_key(p.1.1) || !v.held.contains_key(p));
                assert(v.occupied_at(p) == 0);
                assert(w.occupied_at(p) == 0 && w.slots_at(p) == 0);
                assert(v.held.contains_key(p));
                assert(false);
            }
            assert(ps.contains(p));
            let k = ps.index_of(p);
            assert(0 <= k < ps.len() && ps[k] == p);
            assert(hs[k] == p.1);
            let at = hs.index_of(p.1);
            assert(hs.contains(p.1));
            assert(0 <= at < hs.len() && hs[at] == p.1);
            assert(at == k);
        }
        lemma_sum_monotone(m, z);
        lemma_rises_within(v, targets, i, hs.len() as int);
        assert(ms.subrange(0, hs.len() as int) =~= ms);
        assert(os.subrange(0, hs.len() as int) =~= os);
        lemma_occupied_sum(v, i);
    }
}

/// A grant that is lowered keeps counting what it was: settling never lets a
/// holder count for less than before.
pub proof fn law_a_lowered_grant_keeps_counting(
    v: CoordinatorView,
    targets: Map<SlotName, u32>,
    p: PlaceName,
)
    requires
        sound(v),
        v.generation < u64::MAX,
    ensures
        v.settled(targets).occupied_at(p) >= v.occupied_at(p),
{
    if entry_fits(v.entry(targets)) {
        lemma_settled_occupied(v, targets, p);
    }
}

/// A report measured against older grants releases nothing.
pub proof fn law_an_older_report_releases_nothing(
    v: CoordinatorView,
    proxy: Seq<char>,
    report: ReportView,
    p: PlaceName,
)
    requires
        v.held.contains_key(p),
        report.generation < v.held[p].changed_at,
    ensures
        v.reported(proxy, report).occupied_at(p) == v.occupied_at(p),
{
}

/// A report of one proxy leaves what another asks for and may have.
pub proof fn law_a_report_leaves_other_proxies(
    v: CoordinatorView,
    proxy: Seq<char>,
    report: ReportView,
    p: PlaceName,
)
    requires
        p.1.1 != proxy,
    ensures
        v.reported(proxy, report).demand_at(p) == v.demand_at(p),
        v.reported(proxy, report).occupied_at(p) == v.occupied_at(p),
        v.reported(proxy, report).slots_at(p) == v.slots_at(p),
{
}

/// Taking in a report keeps a state sound.
pub proof fn law_reporting_keeps_sound(v: CoordinatorView, proxy: Seq<char>, report: ReportView)
    requires
        sound(v),
        report.usage.dom().finite(),
    ensures
        sound(v.reported(proxy, report)),
{
    let w = v.reported(proxy, report);
    assert(w.held.dom().subset_of(v.held.dom()));
    vstd::set_lib::lemma_len_subset(w.held.dom(), v.held.dom());
    let asked = report.usage.dom().map(|s: SlotName| (s.0, (s.1, proxy)));
    report.usage.dom().lemma_map_finite(|s: SlotName| (s.0, (s.1, proxy)));
    let both = v.demand.dom().union(asked);
    assert(w.demand.dom().subset_of(both)) by {
        assert forall|p: PlaceName| w.demand.dom().contains(p) implies both.contains(p) by {
            if p.1.1 == proxy {
                assert(report.usage.dom().contains((p.0, p.1.0)));
                assert(p == ((p.0, p.1.0).0, ((p.0, p.1.0).1, proxy)));
            }
        }
    }
    vstd::set_lib::lemma_len_subset(w.demand.dom(), both);
    assert forall|p: PlaceName| !w.departed.contains_key(p.1.1) implies #[trigger] w.slots_at(p)
        <= w.occupied_at(p) by {
        assert(v.slots_at(p) <= v.occupied_at(p));
    }
}

/// Taking down since when holders are idle keeps a state sound.
pub proof fn law_idling_keeps_sound(v: CoordinatorView)
    requires
        sound(v),
    ensures
        sound(v.idling()),
        v.idling().generation == v.generation,
        v.idling().budgets == v.budgets,
        forall|i: Seq<char>| #[trigger] v.idling().occupied_on(i) == v.occupied_on(i),
{
    let w = v.idling();
    assert forall|p: PlaceName| !w.departed.contains_key(p.1.1) implies #[trigger] w.slots_at(p)
        <= w.occupied_at(p) by {
        assert(v.slots_at(p) <= v.occupied_at(p));
    }
    assert forall|i: Seq<char>| #[trigger] w.occupied_on(i) == v.occupied_on(i) by {
        assert(w.occupied_map(i) =~= v.occupied_map(i));
    }
}

/// The departure of a proxy keeps a state sound.
pub proof fn law_departing_keeps_sound(v: CoordinatorView, proxy: Seq<char>)
    requires
        sound(v),
    ensures
        sound(v.without(proxy)),
{
    let w = v.without(proxy);
    assert(w.held.dom().subset_of(v.held.dom()));
    vstd::set_lib::lemma_len_subset(w.held.dom(), v.held.dom());
    assert(w.demand.dom().subset_of(v.demand.dom()));
    vstd::set_lib::lemma_len_subset(w.demand.dom(), v.demand.dom());
    assert forall|p: PlaceName| !w.departed.contains_key(p.1.1) implies #[trigger] w.slots_at(p)
        <= w.occupied_at(p) by {
        assert(p.1.1 != proxy);
        assert(v.slots_at(p) <= v.occupied_at(p));
    }
}

/// Taking an instance under the coordinator, observing it or writing its margin
/// keeps a state sound.
pub proof fn law_moving_a_budget_keeps_sound(
    v: CoordinatorView,
    instance: Seq<char>,
    budget: BudgetView,
)
    requires
        sound(v),
    ensures
        sound(CoordinatorView { budgets: v.budgets.insert(instance, budget), ..v }),
{
    let w = CoordinatorView { budgets: v.budgets.insert(instance, budget), ..v };
    assert forall|p: PlaceName| !w.departed.contains_key(p.1.1) implies #[trigger] w.slots_at(p)
        <= w.occupied_at(p) by {
        assert(v.slots_at(p) <= v.occupied_at(p));
    }
}

/// Once a departure is settled, the proxy is granted nothing, and it stays so
/// however often the desired state is settled again.
pub proof fn law_a_departed_proxy_is_granted_nothing(
    v: CoordinatorView,
    targets: Map<SlotName, u32>,
    p: PlaceName,
)
    requires
        sound(v),
        v.departed.contains_key(p.1.1),
        entry_fits(v.entry(targets)),
    ensures
        v.settled(targets).slots_at(p) == 0,
        v.settled(targets).departed.contains_key(p.1.1),
{
    lemma_settled_slots(v, targets, p);
}

/// A tenant that no rule covers on an instance is granted nothing there.
pub proof fn law_without_a_rule_nothing_is_granted<A: Allocator>(
    allocator: A,
    v: CoordinatorView,
    targets: Map<SlotName, u32>,
    p: PlaceName,
)
    requires
        sound(v),
        allocated(allocator, v, targets),
        v.policies.policy(p.0, p.1.0) is None,
        entry_fits(v.entry(targets)),
    ensures
        v.settled(targets).slots_at(p) == 0,
{
    lemma_settled_slots(v, targets, p);
    if v.is_place(p) && v.budgets.contains_key(p.0) {
        assert(!claims_on(v, p.0, p.1.0));
        assert(!targets.contains_key((p.0, p.1.0)));
        lemma_part_of_target(v, targets, p);
    }
}

/// A holder's part of its tenant's target is no more than the target, and it is
/// granted no more than its part.
proof fn lemma_part_of_target(v: CoordinatorView, targets: Map<SlotName, u32>, p: PlaceName)
    requires
        v.held.dom().finite(),
        v.demand.dom().finite(),
        v.is_place(p),
    ensures
        v.holder_target(targets, p.0, p.1) <= value_or_zero(targets, (p.0, p.1.0)),
        v.grant_of(targets, p.0, p.1) <= v.holder_target(targets, p.0, p.1),
{
    let i = p.0;
    let h = p.1;
    lemma_group_shares(v, targets, i, h.0, h);
    let group = v.group(i, h.0);
    let shares = v.shares(targets, i, h.0);
    let at = group.index_of(h);
    assert(group.contains(h));
    assert(0 <= at < group.len() && group[at] == h);
    lemma_seq_sum_bounds(shares, at);
    lemma_holders(v, i);
    let hs = v.holders_on(i);
    assert(v.holder_set(i).contains(h));
    assert(hs.to_set().contains(h));
    assert(hs.contains(h));
    let n = hs.index_of(h);
    assert(0 <= n < hs.len() && hs[n] == h);
    assert(hs[n] == h);
}

/// A tenant's target is spread whole over its holders.
pub proof fn lemma_group_shares(
    v: CoordinatorView,
    targets: Map<SlotName, u32>,
    i: Seq<char>,
    t: TenantName,
    h: HolderName,
)
    requires
        v.held.dom().finite(),
        v.demand.dom().finite(),
        v.group_set(i, t).contains(h),
    ensures
        rising::<Holder>(v.group(i, t)),
        v.group(i, t).to_set() == v.group_set(i, t),
        v.group(i, t).no_duplicates(),
        v.group(i, t).contains(h),
        v.shares(targets, i, t).len() == v.group(i, t).len(),
        seq_sum(v.shares(targets, i, t)) == value_or_zero(targets, (i, t)),
{
    lemma_holders(v, i);
    let hs = v.holders_on(i);
    hs.unique_seq_to_set();
    assert(v.group_set(i, t).subset_of(v.holder_set(i)));
    vstd::set_lib::lemma_len_subset(v.group_set(i, t), v.holder_set(i));
    let list = lemma_listable::<Holder>(v.group_set(i, t));
    lemma_listing::<Holder>(list, v.group_set(i, t));
    lemma_rising_distinct::<Holder>(list);
    let group = v.group(i, t);
    assert(group.to_set().contains(h));
    let target = value_or_zero(targets, (i, t)) as nat;
    let some = lemma_spread_exists(target, v.demands(i, group), v.currents(i, group));
    let shares = v.shares(targets, i, t);
    assert(is_spread(target, v.demands(i, group), v.currents(i, group), shares));
    law_a_spread_target_is_handed_out_whole(
        target,
        v.demands(i, group),
        v.currents(i, group),
        shares,
    );
}


/// The tenants of the holders that count on an instance.
pub open spec fn tenants_on(v: CoordinatorView, i: Seq<char>) -> Set<TenantName> {
    Set::new(|t: TenantName| exists|h: HolderName| #[trigger] v.group_set(i, t).contains(h))
}

/// The targets of some tenants on an instance.
pub open spec fn tenant_targets(
    targets: Map<SlotName, u32>,
    i: Seq<char>,
    tenants: Set<TenantName>,
) -> Map<TenantName, nat> {
    Map::new(
        |t: TenantName| tenants.contains(t),
        |t: TenantName| value_or_zero(targets, (i, t)) as nat,
    )
}

/// The parts of the targets of the holders of some tenants on an instance.
spec fn part_map(
    v: CoordinatorView,
    targets: Map<SlotName, u32>,
    i: Seq<char>,
    tenants: Set<TenantName>,
) -> Map<HolderName, nat> {
    Map::new(
        |h: HolderName| tenants.contains(h.0) && v.is_place((i, h)),
        |h: HolderName| v.holder_target(targets, i, h) as nat,
    )
}

proof fn lemma_parts_sum(
    v: CoordinatorView,
    targets: Map<SlotName, u32>,
    i: Seq<char>,
    tenants: Set<TenantName>,
)
    requires
        v.held.dom().finite(),
        v.demand.dom().finite(),
        tenants.finite(),
        tenants.subset_of(tenants_on(v, i)),
    ensures
        part_map(v, targets, i, tenants).dom().finite(),
        map_sum(part_map(v, targets, i, tenants)) == map_sum(tenant_targets(targets, i, tenants)),
    decreases tenants.len(),
{
    let parts = part_map(v, targets, i, tenants);
    let wanted = tenant_targets(targets, i, tenants);
    assert(wanted.dom() =~= tenants);
    if tenants.is_empty() {
        assert(parts.dom() =~= Set::empty());
        lemma_sum_empty(parts);
        lemma_sum_empty(wanted);
    } else {
        let t = tenants.choose();
        let others = tenants.remove(t);
        lemma_parts_sum(v, targets, i, others);
        assert(tenants_on(v, i).contains(t));
        let h = choose|h: HolderName| #[trigger] v.group_set(i, t).contains(h);
        lemma_group_shares(v, targets, i, t, h);
        let group = v.group(i, t);
        let shares = v.shares(targets, i, t);
        lemma_sum_zipped(group, shares);
        let own = zipped(group, shares);
        let rest = part_map(v, targets, i, others);
        assert(parts =~= rest.union_prefer_right(own)) by {
            assert forall|q: HolderName| parts.contains_key(q) == rest.union_prefer_right(
                own,
            ).contains_key(q) by {
                assert(group.contains(q) == group.to_set().contains(q));
            }
            assert forall|q: HolderName| parts.contains_key(q) implies parts[q]
                == rest.union_prefer_right(own)[q] by {
                if own.contains_key(q) {
                    assert(group.to_set().contains(q));
                }
            }
        }
        assert(rest.dom().disjoint(own.dom())) by {
            assert forall|q: HolderName| !(rest.dom().contains(q) && own.dom().contains(q)) by {
                if own.dom().contains(q) {
                    assert(group.to_set().contains(q));
                }
            }
        }
        lemma_sum_union(rest, own);
        lemma_sum_remove(wanted, t);
        assert(wanted.remove(t) =~= tenant_targets(targets, i, others));
        assert(parts.dom() =~= rest.dom().union(own.dom()));
    }
}

/// Finitely many tenants have holders on an instance.
pub proof fn lemma_tenants_finite(v: CoordinatorView, i: Seq<char>)
    requires
        v.held.dom().finite(),
        v.demand.dom().finite(),
    ensures
        tenants_on(v, i).finite(),
{
    lemma_holders(v, i);
    let tenants = tenants_on(v, i);
    let names = v.holder_set(i).map(|h: HolderName| h.0);
    v.holders_on(i).unique_seq_to_set();
    v.holder_set(i).lemma_map_finite(|h: HolderName| h.0);
    assert(tenants.subset_of(names)) by {
        assert forall|t: TenantName| tenants.contains(t) implies names.contains(t) by {
            let h = choose|h: HolderName| #[trigger] v.group_set(i, t).contains(h);
            assert(v.holder_set(i).contains(h) && h.0 == t);
        }
    }
    vstd::set_lib::lemma_len_subset(tenants, names);
}

/// Targets that stay within the total budget of every instance are taken: the
/// table never rejects the desired state that they lead to.
pub proof fn law_targets_within_the_budget_are_taken(
    v: CoordinatorView,
    targets: Map<SlotName, u32>,
)
    requires
        v.held.dom().finite(),
        v.demand.dom().finite(),
        forall|i: Seq<char>| #[trigger]
            v.budgets.contains_key(i) ==> map_sum(tenant_targets(targets, i, tenants_on(v, i)))
                <= v.budgets[i].total(),
    ensures
        entry_fits(v.entry(targets)),
{
    let e = v.entry(targets);
    assert forall|i: Seq<char>| #[trigger] e.contains_key(i) implies e[i].fits() by {
        assert(v.budgets.contains_key(i));
        lemma_holders(v, i);
        v.holders_on(i).unique_seq_to_set();
        let tenants = tenants_on(v, i);
        lemma_tenants_finite(v, i);
        lemma_parts_sum(v, targets, i, tenants);
        let parts = part_map(v, targets, i, tenants);
        let granted = as_nats(e[i].granted);
        assert(granted.dom() =~= e[i].granted.dom());
        assert(granted.dom().subset_of(v.holder_set(i))) by {
            assert forall|h: HolderName| granted.dom().contains(h) implies v.holder_set(
                i,
            ).contains(h) by {
                assert(v.grant_of(targets, i, h) > 0);
            }
        }
        vstd::set_lib::lemma_len_subset(granted.dom(), v.holder_set(i));
        assert forall|h: HolderName|
            granted.contains_key(h) implies #[trigger] parts.contains_key(h) && granted[h]
            <= parts[h] by {
            assert(v.is_place((i, h)));
            lemma_part_of_target(v, targets, (i, h));
            assert(v.group_set(i, h.0).contains(h));
            assert(tenants.contains(h.0));
        }
        lemma_sum_monotone(granted, parts);
    }
}

/// The proxies as seen from outside: how many connections each holder has, what
/// grant of it its proxy last saw, and the generation of the grants that each
/// proxy last saw.
#[verifier::ext_equal]
pub struct ProxiesView {
    pub actual: Map<PlaceName, u32>,
    pub seen: Map<PlaceName, u32>,
    pub seen_at: Map<Seq<char>, u64>,
}

impl ProxiesView {
    pub open spec fn actual_at(self, p: PlaceName) -> u32 {
        value_or_zero(self.actual, p)
    }

    pub open spec fn seen_for(self, p: PlaceName) -> u32 {
        value_or_zero(self.seen, p)
    }

    pub open spec fn generation_of(self, proxy: Seq<char>) -> u64 {
        if self.seen_at.contains_key(proxy) {
            self.seen_at[proxy]
        } else {
            0
        }
    }

    /// The connections on an instance.
    pub open spec fn actual_map(self, i: Seq<char>) -> Map<PlaceName, nat> {
        Map::new(
            |p: PlaceName| self.actual.contains_key(p) && p.0 == i,
            |p: PlaceName| self.actual[p] as nat,
        )
    }

    /// All the connections on an instance together.
    pub open spec fn actual_on(self, i: Seq<char>) -> nat {
        map_sum(self.actual_map(i))
    }
}

/// Whether the proxies follow their grants: no holder has more connections, and
/// no proxy may still open more, than the coordinator counts for it; and a
/// proxy that has seen the generation at which a grant last moved has seen that
/// grant.
pub open spec fn following(v: CoordinatorView, m: ProxiesView) -> bool {
    &&& m.actual.dom().finite()
    &&& forall|p: PlaceName| #[trigger] m.actual_at(p) <= v.occupied_at(p)
    &&& forall|p: PlaceName| #[trigger] m.seen_for(p) <= v.occupied_at(p)
    &&& forall|q: Seq<char>| #[trigger] m.generation_of(q) <= v.generation
    &&& forall|p: PlaceName|
        v.held.contains_key(p) && v.held[p].changed_at <= m.generation_of(p.1.1)
            ==> #[trigger] m.seen_for(p) == v.slots_at(p)
}

/// Whether on every instance no more connections are possible than its total
/// budget.
pub open spec fn bounded(v: CoordinatorView) -> bool {
    forall|i: Seq<char>| #[trigger]
        v.budgets.contains_key(i) ==> v.occupied_on(i) <= v.budgets[i].total()
}

/// Whether everything is as it should be: the coordinator sound, the proxies
/// following it, every instance within its budget.
pub open spec fn safe(v: CoordinatorView, m: ProxiesView) -> bool {
    sound(v) && following(v, m) && bounded(v)
}

/// While everything is as it should be, no instance carries more connections
/// than its total budget.
pub proof fn law_connections_stay_within_the_budget(
    v: CoordinatorView,
    m: ProxiesView,
    i: Seq<char>,
)
    requires
        safe(v, m),
        v.budgets.contains_key(i),
    ensures
        m.actual_on(i) <= v.budgets[i].total(),
{
    let actual = m.actual_map(i);
    let occupied = v.occupied_map(i);
    assert(actual.dom().subset_of(m.actual.dom()));
    vstd::set_lib::lemma_len_subset(actual.dom(), m.actual.dom());
    assert(occupied.dom().subset_of(v.held.dom()));
    vstd::set_lib::lemma_len_subset(occupied.dom(), v.held.dom());
    let busy = Map::new(
        |p: PlaceName| actual.contains_key(p) && occupied.contains_key(p),
        |p: PlaceName| actual[p],
    );
    assert(busy.dom().subset_of(actual.dom()));
    vstd::set_lib::lemma_len_subset(busy.dom(), actual.dom());
    assert forall|p: PlaceName| #[trigger] actual.contains_key(p) implies if busy.contains_key(p) {
        actual[p] == busy[p]
    } else {
        actual[p] == 0
    } by {
        assert(m.actual_at(p) <= v.occupied_at(p));
    }
    lemma_sum_drop_zeros(actual, busy);
    assert forall|p: PlaceName| busy.contains_key(p) implies #[trigger] occupied.contains_key(p)
        && busy[p] <= occupied[p] by {
        assert(m.actual_at(p) <= v.occupied_at(p));
    }
    lemma_sum_monotone(busy, occupied);
}

/// A coordinator that nothing was told yet, and proxies that have nothing, are
/// as they should be.
pub proof fn law_the_beginning_is_safe()
    ensures
        safe(
            initial_coordinator(),
            ProxiesView { actual: Map::empty(), seen: Map::empty(), seen_at: Map::empty() },
        ),
{
}

/// Recomputing the desired state keeps everything as it should be, whatever the
/// targets are.
pub proof fn law_settling_is_safe(
    v: CoordinatorView,
    m: ProxiesView,
    targets: Map<SlotName, u32>,
)
    requires
        safe(v, m),
        v.generation < u64::MAX,
    ensures
        safe(v.settled(targets), m),
{
    let w = v.settled(targets);
    law_settling_keeps_sound(v, targets);
    assert forall|p: PlaceName| #[trigger] m.actual_at(p) <= w.occupied_at(p) by {
        law_a_lowered_grant_keeps_counting(v, targets, p);
    }
    assert forall|p: PlaceName| #[trigger] m.seen_for(p) <= w.occupied_at(p) by {
        law_a_lowered_grant_keeps_counting(v, targets, p);
    }
    assert forall|q: Seq<char>| #[trigger] m.generation_of(q) <= w.generation by {
        assert(m.generation_of(q) <= v.generation);
    }
    assert forall|p: PlaceName|
        w.held.contains_key(p) && w.held[p].changed_at <= m.generation_of(
            p.1.1,
        ) implies #[trigger] m.seen_for(p) == w.slots_at(p) by {
        assert(m.generation_of(p.1.1) <= v.generation);
        if entry_fits(v.entry(targets)) {
            let after = v.table.union_prefer_right(v.entry(targets));
            if CoordinatorView::moved(v.table, after, p) {
                assert(w.held[p].changed_at == v.generation + 1);
                assert(false);
            }
            assert(v.held.contains_key(p));
            assert(m.seen_for(p) == v.slots_at(p));
        }
    }
    assert forall|i: Seq<char>| #[trigger] w.budgets.contains_key(i) implies w.occupied_on(i)
        <= w.budgets[i].total() by {
        assert(v.budgets.contains_key(i));
        law_settling_stays_within_the_budget(v, targets, i);
    }
}

/// The proxies after one of them has read its grants.
pub open spec fn reading(v: CoordinatorView, m: ProxiesView, proxy: Seq<char>) -> ProxiesView {
    ProxiesView {
        seen: Map::new(
            |p: PlaceName|
                if p.1.1 == proxy {
                    v.slots_at(p) > 0
                } else {
                    m.seen.contains_key(p)
                },
            |p: PlaceName|
                if p.1.1 == proxy {
                    v.slots_at(p)
                } else {
                    m.seen[p]
                },
        ),
        seen_at: m.seen_at.insert(proxy, v.grants_of(proxy).generation),
        ..m
    }
}

/// A proxy that reads its grants keeps everything as it should be.
pub proof fn law_reading_grants_is_safe(v: CoordinatorView, m: ProxiesView, proxy: Seq<char>)
    requires
        safe(v, m),
        !v.departed.contains_key(proxy),
    ensures
        safe(v, reading(v, m, proxy)),
{
    let n = reading(v, m, proxy);
    assert forall|p: PlaceName| #[trigger] n.actual_at(p) <= v.occupied_at(p) by {
        assert(m.actual_at(p) <= v.occupied_at(p));
    }
    assert forall|p: PlaceName| #[trigger] n.seen_for(p) <= v.occupied_at(p) by {
        assert(m.seen_for(p) <= v.occupied_at(p));
        if p.1.1 == proxy {
            assert(v.slots_at(p) <= v.occupied_at(p));
        }
    }
    assert forall|q: Seq<char>| #[trigger] n.generation_of(q) <= v.generation by {
        assert(m.generation_of(q) <= v.generation);
    }
    assert forall|p: PlaceName|
        v.held.contains_key(p) && v.held[p].changed_at <= n.generation_of(
            p.1.1,
        ) implies #[trigger] n.seen_for(p) == v.slots_at(p) by {
        if p.1.1 != proxy {
            assert(m.generation_of(p.1.1) == n.generation_of(p.1.1));
            assert(m.seen_for(p) == v.slots_at(p));
        }
    }
}

/// The proxies after a holder has come to have `n` connections.
pub open spec fn having(m: ProxiesView, p: PlaceName, n: u32) -> ProxiesView {
    ProxiesView { actual: m.actual.insert(p, n), ..m }
}

/// A proxy that opens connections up to the grant it saw, or closes some, keeps
/// everything as it should be.
pub proof fn law_following_a_grant_is_safe(v: CoordinatorView, m: ProxiesView, p: PlaceName, n: u32)
    requires
        safe(v, m),
        n <= m.seen_for(p) || n <= m.actual_at(p),
    ensures
        safe(v, having(m, p, n)),
{
    let k = having(m, p, n);
    assert forall|q: PlaceName| #[trigger] k.actual_at(q) <= v.occupied_at(q) by {
        assert(m.actual_at(q) <= v.occupied_at(q));
        assert(m.seen_for(q) <= v.occupied_at(q));
    }
    assert forall|q: PlaceName| #[trigger] k.seen_for(q) <= v.occupied_at(q) by {
        assert(m.seen_for(q) <= v.occupied_at(q));
    }
    assert forall|q: Seq<char>| #[trigger] k.generation_of(q) <= v.generation by {
        assert(m.generation_of(q) <= v.generation);
    }
    assert forall|q: PlaceName|
        v.held.contains_key(q) && v.held[q].changed_at <= k.generation_of(
            q.1.1,
        ) implies #[trigger] k.seen_for(q) == v.slots_at(q) by {
        assert(m.generation_of(q.1.1) == k.generation_of(q.1.1));
        assert(m.seen_for(q) == v.slots_at(q));
    }
}

/// Whether a report of a proxy is true: measured against the grants that it
/// last saw, it gives the connections that the proxy has.
pub open spec fn true_report(m: ProxiesView, proxy: Seq<char>, report: ReportView) -> bool {
    &&& report.usage.dom().finite()
    &&& report.generation == m.generation_of(proxy)
    &&& forall|p: PlaceName|
        p.1.1 == proxy ==> report.at((p.0, p.1.0)).actual == #[trigger] m.actual_at(p)
}

/// A proxy that reports truly keeps everything as it should be.
pub proof fn law_reporting_truly_is_safe(
    v: CoordinatorView,
    m: ProxiesView,
    proxy: Seq<char>,
    report: ReportView,
)
    requires
        safe(v, m),
        true_report(m, proxy, report),
    ensures
        safe(v.reported(proxy, report), m),
{
    let w = v.reported(proxy, report);
    law_reporting_keeps_sound(v, proxy, report);
    assert forall|p: PlaceName| #[trigger] m.actual_at(p) <= w.occupied_at(p) by {
        assert(m.actual_at(p) <= v.occupied_at(p));
        assert(m.seen_for(p) <= v.occupied_at(p));
    }
    assert forall|p: PlaceName| #[trigger] m.seen_for(p) <= w.occupied_at(p) by {
        assert(m.seen_for(p) <= v.occupied_at(p));
        assert(m.actual_at(p) <= v.occupied_at(p));
        if v.held.contains_key(p) && p.1.1 == proxy && report.generation
            >= v.held[p].changed_at {
            assert(m.seen_for(p) == v.slots_at(p));
        }
    }
    assert forall|q: Seq<char>| #[trigger] m.generation_of(q) <= w.generation by {
        assert(m.generation_of(q) <= v.generation);
    }
    assert forall|p: PlaceName|
        w.held.contains_key(p) && w.held[p].changed_at <= m.generation_of(
            p.1.1,
        ) implies #[trigger] m.seen_for(p) == w.slots_at(p) by {
        assert(v.held.contains_key(p));
        assert(m.seen_for(p) == v.slots_at(p));
    }
    assert forall|i: Seq<char>| #[trigger] w.budgets.contains_key(i) implies w.occupied_on(i)
        <= w.budgets[i].total() by {
        assert(v.budgets.contains_key(i));
        let a = w.occupied_map(i);
        let b = v.occupied_map(i);
        assert(a.dom().subset_of(w.held.dom()));
        vstd::set_lib::lemma_len_subset(a.dom(), w.held.dom());
        assert(b.dom().subset_of(v.held.dom()));
        vstd::set_lib::lemma_len_subset(b.dom(), v.held.dom());
        assert forall|p: PlaceName| a.contains_key(p) implies #[trigger] b.contains_key(p) && a[p]
            <= b[p] by {
            assert(m.actual_at(p) <= v.occupied_at(p));
            assert(v.slots_at(p) <= v.occupied_at(p));
        }
        lemma_sum_monotone(a, b);
    }
}

/// A proxy that departs once it has closed everything keeps everything as it
/// should be.
pub proof fn law_departing_is_safe(v: CoordinatorView, m: ProxiesView, proxy: Seq<char>)
    requires
        safe(v, m),
        forall|p: PlaceName| p.1.1 == proxy ==> #[trigger] m.actual_at(p) == 0,
        forall|p: PlaceName| p.1.1 == proxy ==> #[trigger] m.seen_for(p) == 0,
    ensures
        safe(v.without(proxy), m),
{
    let w = v.without(proxy);
    law_departing_keeps_sound(v, proxy);
    assert forall|p: PlaceName| #[trigger] m.actual_at(p) <= w.occupied_at(p) by {
        assert(m.actual_at(p) <= v.occupied_at(p));
    }
    assert forall|p: PlaceName| #[trigger] m.seen_for(p) <= w.occupied_at(p) by {
        assert(m.seen_for(p) <= v.occupied_at(p));
    }
    assert forall|q: Seq<char>| #[trigger] m.generation_of(q) <= w.generation by {
        assert(m.generation_of(q) <= v.generation);
    }
    assert forall|p: PlaceName|
        w.held.contains_key(p) && w.held[p].changed_at <= m.generation_of(
            p.1.1,
        ) implies #[trigger] m.seen_for(p) == w.slots_at(p) by {
        assert(v.held.contains_key(p));
        assert(m.seen_for(p) == v.slots_at(p));
    }
    assert forall|i: Seq<char>| #[trigger] w.budgets.contains_key(i) implies w.occupied_on(i)
        <= w.budgets[i].total() by {
        assert(v.budgets.contains_key(i));
        let a = w.occupied_map(i);
        let b = v.occupied_map(i);
        assert(a.dom().subset_of(w.held.dom()));
        vstd::set_lib::lemma_len_subset(a.dom(), w.held.dom());
        assert(b.dom().subset_of(v.held.dom()));
        vstd::set_lib::lemma_len_subset(b.dom(), v.held.dom());
        assert forall|p: PlaceName| a.contains_key(p) implies #[trigger] b.contains_key(p) && a[p]
            <= b[p] by {}
        lemma_sum_monotone(a, b);
    }
}

/// Recomputing the desired state keeps everything as it should be, whatever the
/// allocator answers and whether or not the table takes it.
pub proof fn law_reconciling_is_safe<A: Allocator>(
    allocator: A,
    v: CoordinatorView,
    after: CoordinatorView,
    m: ProxiesView,
)
    requires
        safe(v, m),
        v.generation < u64::MAX,
        recomputed(allocator, v, after),
    ensures
        safe(after, m),
        after.budgets == v.budgets,
{
    let rejection = choose|rejection: Option<Rejection>| #[trigger]
        reconciled(allocator, v, after, rejection);
    let idle = v.idling();
    let targets = choose|targets: Map<SlotName, u32>|
        {
            &&& #[trigger] allocated(allocator, idle, targets)
            &&& after == idle.settled(targets)
            &&& answered_with(idle.entry(targets), rejection)
        };
    law_idling_keeps_sound(v);
    assert forall|p: PlaceName| #[trigger] m.actual_at(p) <= idle.occupied_at(p) by {
        assert(m.actual_at(p) <= v.occupied_at(p));
    }
    assert forall|p: PlaceName| #[trigger] m.seen_for(p) <= idle.occupied_at(p) by {
        assert(m.seen_for(p) <= v.occupied_at(p));
    }
    assert forall|q: Seq<char>| #[trigger] m.generation_of(q) <= idle.generation by {
        assert(m.generation_of(q) <= v.generation);
    }
    assert forall|p: PlaceName|
        idle.held.contains_key(p) && idle.held[p].changed_at <= m.generation_of(
            p.1.1,
        ) implies #[trigger] m.seen_for(p) == idle.slots_at(p) by {
        assert(m.seen_for(p) == v.slots_at(p));
    }
    assert(bounded(idle)) by {
        assert forall|i: Seq<char>| #[trigger] idle.budgets.contains_key(i) implies idle.occupied_on(
            i,
        ) <= idle.budgets[i].total() by {
            assert(v.budgets.contains_key(i));
        }
    }
    law_settling_is_safe(idle, m, targets);
}

/// A total budget that grows keeps everything as it should be.
pub proof fn law_a_larger_budget_is_safe(
    v: CoordinatorView,
    m: ProxiesView,
    i: Seq<char>,
    budget: BudgetView,
)
    requires
        safe(v, m),
        v.budgets.contains_key(i),
        budget.total() >= v.budgets[i].total(),
    ensures
        safe(CoordinatorView { budgets: v.budgets.insert(i, budget), ..v }, m),
{
    let w = CoordinatorView { budgets: v.budgets.insert(i, budget), ..v };
    law_moving_a_budget_keeps_sound(v, i, budget);
    assert forall|p: PlaceName| #[trigger] m.actual_at(p) <= w.occupied_at(p) by {
        assert(m.actual_at(p) <= v.occupied_at(p));
    }
    assert forall|p: PlaceName| #[trigger] m.seen_for(p) <= w.occupied_at(p) by {
        assert(m.seen_for(p) <= v.occupied_at(p));
    }
    assert forall|q: Seq<char>| #[trigger] m.generation_of(q) <= w.generation by {
        assert(m.generation_of(q) <= v.generation);
    }
    assert forall|p: PlaceName|
        w.held.contains_key(p) && w.held[p].changed_at <= m.generation_of(
            p.1.1,
        ) implies #[trigger] m.seen_for(p) == w.slots_at(p) by {
        assert(m.seen_for(p) == v.slots_at(p));
    }
    assert forall|j: Seq<char>| #[trigger] w.budgets.contains_key(j) implies w.occupied_on(j)
        <= w.budgets[j].total() by {
        assert(v.budgets.contains_key(j));
        assert(w.occupied_map(j) =~= v.occupied_map(j));
    }
}

/// The grants on an instance, by place.
spec fn granted_at(i: Seq<char>, granted: Map<HolderName, u32>) -> Map<PlaceName, nat> {
    Map::new(
        |p: PlaceName| p.0 == i && granted.contains_key(p.1),
        |p: PlaceName| granted[p.1] as nat,
    )
}

proof fn lemma_granted_at(i: Seq<char>, granted: Map<HolderName, u32>)
    requires
        granted.dom().finite(),
    ensures
        granted_at(i, granted).dom().finite(),
        map_sum(granted_at(i, granted)) == map_sum(as_nats(granted)),
    decreases granted.dom().len(),
{
    let places = granted_at(i, granted);
    assert(as_nats(granted).dom() =~= granted.dom());
    if granted.dom().is_empty() {
        assert(places.dom() =~= Set::empty());
        lemma_sum_empty(places);
        lemma_sum_empty(as_nats(granted));
    } else {
        let h = granted.dom().choose();
        let rest = granted.remove(h);
        lemma_granted_at(i, rest);
        assert(places.remove((i, h)) =~= granted_at(i, rest));
        assert(places.dom() =~= granted_at(i, rest).dom().insert((i, h)));
        lemma_sum_remove(places, (i, h));
        lemma_sum_remove(as_nats(granted), h);
        assert(as_nats(granted).remove(h) =~= as_nats(rest));
    }
}

/// A setting that lowers a total budget comes into force: once the table is
/// written within the budget and no holder has more than it is granted, the
/// instance is within the budget.
pub proof fn law_proxies_that_follow_bring_an_instance_within_its_budget(
    v: CoordinatorView,
    i: Seq<char>,
)
    requires
        sound(v),
        v.table.contains_key(i),
        v.table[i].budget <= v.budgets[i].total(),
        forall|p: PlaceName| p.0 == i ==> #[trigger] v.occupied_at(p) <= v.slots_at(p),
    ensures
        v.occupied_on(i) <= v.budgets[i].total(),
{
    let granted = v.table[i].granted;
    let slots = granted_at(i, granted);
    let occupied = v.occupied_map(i);
    lemma_granted_at(i, granted);
    assert(occupied.dom().subset_of(v.held.dom()));
    vstd::set_lib::lemma_len_subset(occupied.dom(), v.held.dom());
    let kept = occupied.restrict(slots.dom());
    assert(kept.dom().subset_of(occupied.dom()));
    vstd::set_lib::lemma_len_subset(kept.dom(), occupied.dom());
    assert forall|p: PlaceName| #[trigger] occupied.contains_key(p) implies if kept.contains_key(
        p,
    ) {
        occupied[p] == kept[p]
    } else {
        occupied[p] == 0
    } by {
        assert(v.occupied_at(p) <= v.slots_at(p));
    }
    lemma_sum_drop_zeros(occupied, kept);
    assert forall|p: PlaceName| kept.contains_key(p) implies #[trigger] slots.contains_key(p)
        && kept[p] <= slots[p] by {
        assert(v.occupied_at(p) <= v.slots_at(p));
    }
    lemma_sum_monotone(kept, slots);
    assert(v.table[i].fits());
}

/// What a round does to a grant: it is never above the part of the target that
/// falls to the holder; a part that is no more than the grant is granted at once;
/// and a larger one is granted as far as it goes beyond what the holder may still
/// have only into slots that nobody may still have a connection in.
pub proof fn law_a_lower_target_is_granted_at_once(
    v: CoordinatorView,
    targets: Map<SlotName, u32>,
    p: PlaceName,
)
    requires
        sound(v),
        entry_fits(v.entry(targets)),
        v.budgets.contains_key(p.0),
    ensures
        !v.is_place(p) ==> v.settled(targets).slots_at(p) == 0,
        v.is_place(p) ==> {
            let target = v.holder_target(targets, p.0, p.1);
            let granted = v.settled(targets).slots_at(p);
            &&& granted <= target
            &&& target <= v.slots_at(p) ==> granted == target
            &&& target > v.slots_at(p) ==> granted == target || granted >= v.occupied_at(p)
            &&& target > v.slots_at(p) && target <= v.occupied_at(p) ==> granted == target
            &&& granted > v.occupied_at(p) ==> granted - v.occupied_at(p)
                <= v.budgets[p.0].total() - v.occupied_on(p.0)
        },
{
    lemma_settled_slots(v, targets, p);
    if v.is_place(p) {
        lemma_holders(v, p.0);
        let hs = v.holders_on(p.0);
        assert(v.holder_set(p.0).contains(p.1));
        assert(hs.to_set().contains(p.1));
        let n = hs.index_of(p.1);
        assert(hs.contains(p.1));
        assert(0 <= n < hs.len() && hs[n] == p.1);
        if !v.departed.contains_key(p.1.1) {
            assert(v.slots_at(p) <= v.occupied_at(p));
        }
    }
}

/// A holder that is to get more than it gets is before nobody who gets into a
/// free slot: the holders are served in their order, and the first that is held
/// back leaves nothing to those behind it.
pub proof fn law_nobody_is_served_behind_one_who_is_held_back(
    v: CoordinatorView,
    targets: Map<SlotName, u32>,
    i: Seq<char>,
    n: int,
    m: int,
)
    requires
        sound(v),
        0 <= n < m < v.holders_on(i).len(),
        v.grant_for(targets, i, n) < v.holder_target(targets, i, v.holders_on(i)[n]),
        v.holder_target(targets, i, v.holders_on(i)[m]) > v.slots_at((i, v.holders_on(i)[m])),
    ensures
        v.grant_for(targets, i, m) <= v.occupied_at((i, v.holders_on(i)[m])),
{
    let hs = v.holders_on(i);
    lemma_rises_grow(v, targets, i, n + 1, m);
    lemma_holders(v, i);
    assert(hs.to_set().contains(hs[n]));
    assert(v.holder_set(i).contains(hs[n]));
    let p = (i, hs[n]);
    assert(v.is_place(p));
    assert(v.slots_at(p) <= v.occupied_at(p));
    let target = v.holder_target(targets, i, hs[n]);
    if v.left_for(targets, i, n) >= target - v.occupied_at(p) {
        assert(least(target as nat, v.occupied_at(p) as nat + v.left_for(targets, i, n)) == target);
        assert(false);
    }
    assert(v.rise(targets, i, hs[n]) == target - v.occupied_at(p));
    assert(v.left_for(targets, i, n + 1) == 0);
    assert(v.left_for(targets, i, m) == 0);
}

proof fn lemma_rises_grow(
    v: CoordinatorView,
    targets: Map<SlotName, u32>,
    i: Seq<char>,
    n: int,
    m: int,
)
    requires
        0 <= n <= m,
    ensures
        v.rises_before(targets, i, v.holders_on(i), n) <= v.rises_before(
            targets,
            i,
            v.holders_on(i),
            m,
        ),
    decreases m - n,
{
    if n < m {
        lemma_rises_grow(v, targets, i, n, m - 1);
    }
}

/// The parts of the target that fall to the holders on an instance.
pub open spec fn parts_on(
    v: CoordinatorView,
    targets: Map<SlotName, u32>,
    i: Seq<char>,
) -> Seq<u32> {
    Seq::new(
        v.holders_on(i).len(),
        |k: int| v.holder_target(targets, i, v.holders_on(i)[k]),
    )
}

/// Whether every holder on an instance has closed what was taken back, and none
/// is to get less than it has.
pub open spec fn nobody_gives_way(
    v: CoordinatorView,
    targets: Map<SlotName, u32>,
    i: Seq<char>,
) -> bool {
    forall|h: HolderName|
        v.is_place((i, h)) ==> v.occupied_at((i, h)) == v.slots_at((i, h)) && v.slots_at((i, h))
            <= #[trigger] v.holder_target(targets, i, h)
}

proof fn lemma_rises_make_up_the_parts(
    v: CoordinatorView,
    targets: Map<SlotName, u32>,
    i: Seq<char>,
    n: int,
)
    requires
        0 <= n <= v.holders_on(i).len(),
        nobody_gives_way(v, targets, i),
        v.held.dom().finite(),
        v.demand.dom().finite(),
    ensures
        seq_sum(occupied_list(v, i).subrange(0, n)) + v.rises_before(
            targets,
            i,
            v.holders_on(i),
            n,
        ) == seq_sum(parts_on(v, targets, i).subrange(0, n)),
    decreases n,
{
    let os = occupied_list(v, i);
    let parts = parts_on(v, targets, i);
    if n > 0 {
        lemma_rises_make_up_the_parts(v, targets, i, n - 1);
        assert(os.subrange(0, n).drop_last() =~= os.subrange(0, n - 1));
        assert(parts.subrange(0, n).drop_last() =~= parts.subrange(0, n - 1));
        lemma_holders(v, i);
        let h = v.holders_on(i)[n - 1];
        assert(v.holders_on(i).to_set().contains(h));
        assert(v.holder_set(i).contains(h));
        assert(v.is_place((i, h)));
        assert(v.slots_at((i, h)) <= v.holder_target(targets, i, h));
    } else {
        assert(os.subrange(0, 0) =~= Seq::empty());
        assert(parts.subrange(0, 0) =~= Seq::empty());
    }
}

/// A free slot is granted at once: where every proxy has closed what was taken
/// back, nobody is to get less, and the targets stay within the total budget,
/// everybody is granted the whole of its part.
pub proof fn law_free_slots_are_granted_at_once(
    v: CoordinatorView,
    targets: Map<SlotName, u32>,
    i: Seq<char>,
    h: HolderName,
)
    requires
        sound(v),
        entry_fits(v.entry(targets)),
        v.budgets.contains_key(i),
        v.is_place((i, h)),
        nobody_gives_way(v, targets, i),
        seq_sum(parts_on(v, targets, i)) <= v.budgets[i].total(),
    ensures
        v.settled(targets).slots_at((i, h)) == v.holder_target(targets, i, h),
{
    lemma_settled_slots(v, targets, (i, h));
    lemma_holders(v, i);
    let hs = v.holders_on(i);
    assert(v.holder_set(i).contains(h));
    assert(hs.to_set().contains(h));
    let n = hs.index_of(h);
    assert(hs.contains(h));
    assert(0 <= n < hs.len() && hs[n] == h);
    let os = occupied_list(v, i);
    let parts = parts_on(v, targets, i);
    let all = hs.len() as int;
    lemma_rises_make_up_the_parts(v, targets, i, all);
    assert(os.subrange(0, all) =~= os);
    assert(parts.subrange(0, all) =~= parts);
    lemma_occupied_sum(v, i);
    lemma_rises_grow(v, targets, i, n + 1, all);
    assert(v.slots_at((i, h)) <= v.holder_target(targets, i, h));
    if v.holder_target(targets, i, h) > v.slots_at((i, h)) {
        assert(v.rise(targets, i, h) == v.holder_target(targets, i, h) - v.occupied_at((i, h)));
        assert(v.occupied_on(i) + v.rises_before(targets, i, hs, n + 1)
            <= v.budgets[i].total());
        assert(v.available(i) >= v.rises_before(targets, i, hs, n) + v.rise(targets, i, h));
    }
}

/// What a holder may still have after a round: what it might have before, or
/// what it is granted, whichever is more.
pub proof fn law_a_raised_grant_counts_in_full_at_once(
    v: CoordinatorView,
    targets: Map<SlotName, u32>,
    p: PlaceName,
)
    requires
        sound(v),
        v.generation < u64::MAX,
        entry_fits(v.entry(targets)),
    ensures
        v.settled(targets).occupied_at(p) >= v.occupied_at(p),
        !v.departed.contains_key(p.1.1) ==> v.settled(targets).occupied_at(p) >= v.settled(
            targets,
        ).slots_at(p),
        v.settled(targets).occupied_at(p) == v.occupied_at(p) || v.settled(targets).occupied_at(p)
            == v.settled(targets).slots_at(p),
{
    lemma_settled_occupied(v, targets, p);
    lemma_settled_slots(v, targets, p);
    law_settling_keeps_sound(v, targets);
    if !v.departed.contains_key(p.1.1) {
        assert(v.settled(targets).slots_at(p) <= v.settled(targets).occupied_at(p));
    }
}

} // verus!
