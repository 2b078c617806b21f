//! The coordinator: computes the grants of every proxy out of what they report.
use vstd::prelude::*;

use crate::allocation::{
    answered_with, entry_fits, grant_keys, grant_list, holder_keys, holder_list, proxy_grants, rejection_in, table_slots,
    AllocationTable, Desired, DesiredView, Entry, Holder, HolderName, InstanceId, PreconditionError,
    ProxyId, Rejection, Slot, SlotName, TableView,
};
use crate::budget::{change_between, BudgetChange, BudgetView, InstanceBudget, TotalBudget};
use crate::grant::{
    allocated, claim_keys, claim_list, claims_on, initial_coordinator, is_claim, place_map,
    proxy_moved, reconciled, target_at, targets_from, value_or_zero, Allocator, Claim,
    CoordinatorView, GrantSet, Held, Place, PlaceName, Report, Usage,
};
use crate::order::{same_key, Dup, Key};
use crate::ordmap::{lemma_listing, lemma_rising_distinct, lists, rising, OrdMap};
use crate::policy::{capped, instance_names, Policies, PolicyChange, SettingError};
use crate::spread::{law_a_target_is_spread_one_way, spread};
use crate::sums::{lemma_seq_sum_prefix, lemma_sum_empty, lemma_sum_insert, map_sum, seq_sum};
use crate::tenant::{TenantId, TenantName};
use crate::time::{Duration, Instant};

verus! {

/// All grants of a table, by instance and holder.
fn place_grants(table: &AllocationTable) -> (grants: OrdMap<Place, u32>)
    ensures
        grants@ == place_map(table@),
{
    let mut grants: OrdMap<Place, u32> = OrdMap::new();
    let instances = table.instances();
    let ghost names = Seq::new(instances@.len(), |i: int| instances@[i]@);
    let ghost all = place_map(table@);
    let mut i: usize = 0;
    while i < instances.len()
        invariant
            i <= instances@.len(),
            names == Seq::new(instances@.len(), |i: int| instances@[i]@),
            lists::<InstanceId, DesiredView>(names, table@),
            all == place_map(table@),
            forall|p: PlaceName| #[trigger]
                grants@.contains_key(p) <==> all.contains_key(p) && (exists|m: int|
                    0 <= m < i && names[m] == p.0),
            forall|p: PlaceName| #[trigger] grants@.contains_key(p) ==> grants@[p] == all[p],
        decreases instances@.len() - i,
    {
        let instance = instances[i];
        let holders = table.holders(instance);
        let ghost hkeys = holder_keys(holders@);
        let ghost granted = table@[names[i as int]].granted;
        let ghost before = grants@;
        assert(table@.contains_key(names[i as int]));
        let mut k: usize = 0;
        while k < holders.len()
            invariant
                i < instances@.len(),
                instance@ == names[i as int],
                table@.contains_key(names[i as int]),
                k <= holders@.len(),
                hkeys == holder_keys(holders@),
                holder_list(holders@, granted),
                granted == table@[names[i as int]].granted,
                all == place_map(table@),
                forall|p: PlaceName| #[trigger]
                    grants@.contains_key(p) <==> before.contains_key(p) || (p.0 == instance@ && (
                    exists|m: int| 0 <= m < k && #[trigger] hkeys[m] == p.1)),
                forall|p: PlaceName| #[trigger] grants@.contains_key(p) ==> grants@[p] == all[p],
            decreases holders@.len() - k,
        {
            let (holder, slots) = &holders[k];
            assert(hkeys[k as int] == holder@);
            assert(granted.contains_key(hkeys[k as int]));
            assert(all.contains_key((instance@, holder@)));
            let ghost was = grants@;
            grants.insert(Place { instance: instance.clone(), holder: (*holder).clone() }, *slots);
            proof {
                assert(grants@ == was.insert((instance@, holder@), *slots));
                assert forall|p: PlaceName| #[trigger]
                    grants@.contains_key(p) <==> before.contains_key(p) || (p.0 == instance@ && (
                    exists|m: int| 0 <= m < k + 1 && #[trigger] hkeys[m] == p.1)) by {
                    if p == (instance@, holder@) {
                        assert(hkeys[k as int] == p.1);
                    }
                    if was.contains_key(p) && !before.contains_key(p) {
                        let m = choose|m: int| 0 <= m < k && #[trigger] hkeys[m] == p.1;
                        assert(0 <= m < k + 1 && hkeys[m] == p.1);
                    }
                }
            }
            k += 1;
        }
        proof {
            assert forall|p: PlaceName| #[trigger]
                grants@.contains_key(p) <==> all.contains_key(p) && (exists|m: int|
                    0 <= m < i + 1 && names[m] == p.0) by {
                if grants@.contains_key(p) {
                    if before.contains_key(p) {
                        let m = choose|m: int| 0 <= m < i && names[m] == p.0;
                        assert(0 <= m < i + 1 && names[m] == p.0);
                    } else {
                        let m = choose|m: int| 0 <= m < k && #[trigger] hkeys[m] == p.1;
                        assert(granted.contains_key(hkeys[m]));
                        assert(names[i as int] == p.0);
                    }
                }
                if all.contains_key(p) && (exists|m: int| 0 <= m < i + 1 && names[m] == p.0) {
                    let m = choose|m: int| 0 <= m < i + 1 && names[m] == p.0;
                    if m == i {
                        assert(granted.contains_key(p.1));
                        let q = choose|q: int| 0 <= q < hkeys.len() && hkeys[q] == p.1;
                        assert(0 <= q < k && hkeys[q] == p.1);
                    } else {
                        assert(before.contains_key(p));
                    }
                }
            }
        }
        i += 1;
    }
    proof {
        assert(grants@ =~= all) by {
            assert forall|p: PlaceName| grants@.contains_key(p) == all.contains_key(p) by {
                if all.contains_key(p) {
                    assert(table@.contains_key(p.0));
                    let m = choose|m: int| 0 <= m < names.len() && names[m] == p.0;
                    assert(0 <= m < i && names[m] == p.0);
                }
            }
        }
    }
    grants
}

/// In a table that grants no holder nothing, what a holder is granted is its
/// value in the map of all grants.
proof fn lemma_place_map(table: TableView, p: PlaceName)
    ensures
        value_or_zero(place_map(table), p) == table_slots(table, p.0, p.1),
{
}

/// The coordinator in the process of one proxy: the allocation table, the
/// allocator and what the proxies report.
#[derive(Debug)]
pub struct InProcessCoordinator<A> {
    proxy: ProxyId,
    allocator: A,
    release_delay: Duration,
    table: AllocationTable,
    budgets: OrdMap<InstanceId, InstanceBudget>,
    policies: Policies,
    demand: OrdMap<Place, u32>,
    held: OrdMap<Place, Held>,
    generation: u64,
    generations: OrdMap<ProxyId, u64>,
    departed: OrdMap<ProxyId, u32>,
    now: Option<Instant>,
    idle_since: OrdMap<Place, Instant>,
    reports: u64,
    rejected: Option<PreconditionError>,
}

impl<A> View for InProcessCoordinator<A> {
    type V = CoordinatorView;

    closed spec fn view(&self) -> CoordinatorView {
        CoordinatorView {
            table: self.table@,
            budgets: self.budgets@,
            policies: self.policies@,
            demand: self.demand@,
            held: self.held@,
            generation: self.generation,
            generations: self.generations@,
            departed: self.departed@,
            now: match self.now {
                Some(now) => Some(now@),
                None => None,
            },
            idle_since: self.idle_since@,
            release_delay: self.release_delay@,
            reports: self.reports,
        }
    }
}

impl<A> InProcessCoordinator<A> {
    /// The proxy in whose process the coordinator runs.
    pub closed spec fn own_proxy(&self) -> Seq<char> {
        self.proxy@
    }

    /// What the desired state was last rejected for, if that was not handed out
    /// yet.
    pub closed spec fn rejection(&self) -> Option<Rejection> {
        match self.rejected {
            Some(error) => Some(error@),
            None => None,
        }
    }

    /// Hands out what the desired state was rejected for when it was last
    /// computed, so that a rejection that nobody is answered with can be told
    /// to whoever runs the coordinator.
    pub fn take_rejection(&mut self) -> (rejected: Option<PreconditionError>)
        ensures
            old(self).rejection() is None ==> rejected is None,
            old(self).rejection() matches Some(rejection) ==> (rejected matches Some(error)
                && error@ == rejection),
            final(self).rejection() is None,
            final(self)@ == old(self)@,
            final(self).own_proxy() == old(self).own_proxy(),
            final(self).own_allocator() == old(self).own_allocator(),
    {
        let mut rejected: Option<PreconditionError> = None;
        std::mem::swap(&mut self.rejected, &mut rejected);
        rejected
    }

    fn demand_at(&self, place: &Place) -> (demand: u32)
        ensures
            demand == self@.demand_at(place@),
    {
        match self.demand.get(place) {
            Some(demand) => *demand,
            None => 0,
        }
    }

    fn occupied_at(&self, place: &Place) -> (occupied: u32)
        ensures
            occupied == self@.occupied_at(place@),
    {
        match self.held.get(place) {
            Some(held) => held.occupied,
            None => 0,
        }
    }

    /// The connections that all holders on an instance may still have, at most
    /// 2^32 - 1.
    fn occupied_on(&self, instance: &InstanceId) -> (occupied: u32)
        ensures
            occupied == capped(self@.occupied_on(instance@)),
    {
        let n: usize = self.held.len();
        let ghost keys = self.held.keys();
        let ghost all = self@.occupied_map(instance@);
        let ghost mut seen = Map::<PlaceName, nat>::empty();
        let mut occupied: u32 = 0;
        let mut i: usize = 0;
        proof {
            lemma_sum_empty(seen);
        }
        while i < n
            invariant
                n == keys.len(),
                i <= n,
                keys == self.held.keys(),
                lists::<Place, Held>(keys, self.held@),
                self@.held == self.held@,
                all == self@.occupied_map(instance@),
                seen.dom().finite(),
                forall|p: PlaceName| #[trigger]
                    seen.contains_key(p) <==> all.contains_key(p) && (exists|j: int|
                        0 <= j < i && keys[j] == p),
                forall|p: PlaceName| #[trigger] seen.contains_key(p) ==> seen[p] == all[p],
                occupied == capped(map_sum(seen)),
            decreases n - i,
        {
            let place = self.held.key_at(i);
            let held = self.held.value_at(i);
            let ghost p = keys[i as int];
            if same_key(&place.instance, instance) {
                proof {
                    assert(!seen.contains_key(p));
                    lemma_sum_insert(seen, p, held.occupied as nat);
                    seen = seen.insert(p, held.occupied as nat);
                }
                occupied = occupied.saturating_add(held.occupied);
            }
            i += 1;
        }
        proof {
            assert(seen =~= all) by {
                assert forall|p: PlaceName| #[trigger] all.contains_key(p) implies seen.contains_key(
                    p,
                ) by {
                    assert(self.held@.contains_key(p));
                    let j = choose|j: int| 0 <= j < keys.len() && keys[j] == p;
                    assert(0 <= j < i && keys[j] == p);
                }
            }
        }
        occupied
    }

    /// Whether no more connections can be held on `instance` than its budget
    /// allows.
    pub fn within_budget(&self, instance: &InstanceId) -> (b: bool)
        ensures
            b == self@.within(instance@),
    {
        let budget: u32 = match self.budgets.get(instance) {
            Some(budget) => budget.current().total(),
            None => 0,
        };
        self.occupied_on(instance) <= budget
    }

    /// Whether a margin that moved the budget of `instance` so is in force, and
    /// the setting can be answered: a budget that did not shrink is at once, and
    /// one that did, as soon as no more connections can be held than it allows.
    pub fn margin_in_force(&self, instance: &InstanceId, change: BudgetChange) -> (b: bool)
        ensures
            b == (!(change is Shrank) || self@.within(instance@)),
    {
        match change {
            BudgetChange::Shrank { .. } => self.within_budget(instance),
            _ => true,
        }
    }

    /// The holders that count on an instance.
    fn places_on(&self, instance: &InstanceId) -> (holders: OrdMap<Holder, u32>)
        ensures
            holders@.dom() == self@.holder_set(instance@),
            holders.keys() == self@.holders_on(instance@),
    {
        let mut holders: OrdMap<Holder, u32> = OrdMap::new();
        let ghost all = self@.holder_set(instance@);
        let n: usize = self.demand.len();
        let ghost dkeys = self.demand.keys();
        let mut i: usize = 0;
        while i < n
            invariant
                n == dkeys.len(),
                i <= n,
                dkeys == self.demand.keys(),
                lists::<Place, u32>(dkeys, self.demand@),
                forall|h: HolderName| #[trigger]
                    holders@.contains_key(h) <==> !self.departed@.contains_key(h.1) && (exists|
                        j: int,
                    | 0 <= j < i && #[trigger] dkeys[j] == (instance@, h)),
            decreases n - i,
        {
            let place = self.demand.key_at(i);
            let ghost was = holders@;
            if same_key(&place.instance, instance) && !self.departed.contains(
                place.holder.proxy(),
            ) {
                holders.insert(place.holder.clone(), 0);
            }
            proof {
                assert forall|h: HolderName| #[trigger]
                    holders@.contains_key(h) <==> !self.departed@.contains_key(h.1) && (exists|
                        j: int,
                    | 0 <= j < i + 1 && #[trigger] dkeys[j] == (instance@, h)) by {
                    if h == place.holder@ && place.instance@ == instance@ {
                        assert(dkeys[i as int] == (instance@, h));
                    }
                    if was.contains_key(h) {
                        let j = choose|j: int| 0 <= j < i && #[trigger] dkeys[j] == (instance@, h);
                        assert(0 <= j < i + 1 && dkeys[j] == (instance@, h));
                    }
                }
            }
            i += 1;
        }
        let m: usize = self.held.len();
        let ghost hkeys = self.held.keys();
        let ghost asked = holders@;
        let mut i: usize = 0;
        while i < m
            invariant
                m == hkeys.len(),
                i <= m,
                hkeys == self.held.keys(),
                lists::<Place, Held>(hkeys, self.held@),
                forall|h: HolderName| #[trigger]
                    holders@.contains_key(h) <==> asked.contains_key(h) || (
                    !self.departed@.contains_key(h.1) && (exists|j: int|
                        0 <= j < i && #[trigger] hkeys[j] == (instance@, h))),
            decreases m - i,
        {
            let place = self.held.key_at(i);
            let ghost was = holders@;
            if same_key(&place.instance, instance) && !self.departed.contains(
                place.holder.proxy(),
            ) {
                holders.insert(place.holder.clone(), 0);
            }
            proof {
                assert forall|h: HolderName| #[trigger]
                    holders@.contains_key(h) <==> asked.contains_key(h) || (
                    !self.departed@.contains_key(h.1) && (exists|j: int|
                        0 <= j < i + 1 && #[trigger] hkeys[j] == (instance@, h))) by {
                    if h == place.holder@ && place.instance@ == instance@ {
                        assert(hkeys[i as int] == (instance@, h));
                    }
                    if was.contains_key(h) && !asked.contains_key(h) {
                        let j = choose|j: int| 0 <= j < i && #[trigger] hkeys[j] == (instance@, h);
                        assert(0 <= j < i + 1 && hkeys[j] == (instance@, h));
                    }
                }
            }
            i += 1;
        }
        proof {
            use_type_invariant(&holders);
            holders.lemma_lists();
            assert(holders@.dom() =~= all) by {
                assert forall|h: HolderName| holders@.contains_key(h) == all.contains(h) by {
                    let p = (instance@, h);
                    if self.demand@.contains_key(p) {
                        let j = choose|j: int| 0 <= j < dkeys.len() && dkeys[j] == p;
                        assert(dkeys[j] == (instance@, h));
                    }
                    if self.held@.contains_key(p) {
                        let j = choose|j: int| 0 <= j < hkeys.len() && hkeys[j] == p;
                        assert(hkeys[j] == (instance@, h));
                    }
                    if holders@.contains_key(h) {
                        if asked.contains_key(h) {
                            let j = choose|j: int|
                                0 <= j < dkeys.len() && #[trigger] dkeys[j] == (instance@, h);
                            assert(self.demand@.contains_key(dkeys[j]));
                        } else {
                            let j = choose|j: int|
                                0 <= j < hkeys.len() && #[trigger] hkeys[j] == (instance@, h);
                            assert(self.held@.contains_key(hkeys[j]));
                        }
                    }
                }
            }
            lemma_listing::<Holder>(holders.keys(), all);
        }
        holders
    }
}


/// In a rising list of holders, those of one tenant stand together.
proof fn lemma_group(
    v: CoordinatorView,
    i: Seq<char>,
    keys: Seq<HolderName>,
    s: int,
    e: int,
)
    requires
        rising::<Holder>(keys),
        keys.to_set() == v.holder_set(i),
        0 <= s < e <= keys.len(),
        forall|k: int| s <= k < e ==> (#[trigger] keys[k]).0 == keys[s].0,
        s > 0 ==> keys[s - 1].0 != keys[s].0,
        e < keys.len() ==> keys[e].0 != keys[s].0,
    ensures
        v.group(i, keys[s].0) == keys.subrange(s, e),
        keys.subrange(s, e).no_duplicates(),
{
    let t = keys[s].0;
    let part = keys.subrange(s, e);
    assert(rising::<Holder>(part)) by {
        assert forall|a: int, b: int| 0 <= a < b < part.len() implies Holder::before(
            #[trigger] part[a],
            #[trigger] part[b],
        ) by {
            assert(Holder::before(keys[s + a], keys[s + b]));
        }
    }
    assert(part.to_set() =~= v.group_set(i, t)) by {
        assert forall|h: HolderName| part.to_set().contains(h) == v.group_set(i, t).contains(h) by {
            if part.to_set().contains(h) {
                let a = choose|a: int| 0 <= a < part.len() && part[a] == h;
                assert(keys[s + a] == h);
                assert(keys.to_set().contains(h));
                assert(v.holder_set(i).contains(h));
            }
            if v.group_set(i, t).contains(h) {
                assert(v.holder_set(i).contains(h));
                assert(keys.to_set().contains(h));
                let k = choose|k: int| 0 <= k < keys.len() && keys[k] == h;
                if k < s {
                    lemma_tenants_rise(keys, k, s - 1);
                    lemma_tenants_rise(keys, s - 1, s);
                    TenantId::irreflexive(t);
                    if keys[k].0 != keys[s - 1].0 {
                        TenantId::transitive(keys[k].0, keys[s - 1].0, t);
                    }
                    assert(false);
                }
                if k >= e {
                    lemma_tenants_rise(keys, s, e);
                    lemma_tenants_rise(keys, e, k);
                    TenantId::irreflexive(t);
                    if keys[e].0 != keys[k].0 {
                        TenantId::transitive(t, keys[e].0, keys[k].0);
                    }
                    assert(false);
                }
                assert(part[k - s] == h);
            }
        }
    }
    lemma_listing::<Holder>(part, v.group_set(i, t));
    lemma_rising_distinct::<Holder>(part);
}

proof fn lemma_tenants_rise(keys: Seq<HolderName>, a: int, b: int)
    requires
        rising::<Holder>(keys),
        0 <= a <= b < keys.len(),
    ensures
        keys[a].0 == keys[b].0 || TenantId::before(keys[a].0, keys[b].0),
{
    if a < b {
        assert(Holder::before(keys[a], keys[b]));
    }
}

/// The holders of one tenant: where they end in the list, what their clients
/// ask for and what they are granted.
struct Group {
    end: usize,
    demand: Vec<u32>,
    current: Vec<u32>,
    may_release: bool,
}

impl<A> InProcessCoordinator<A> {
    fn may_release(&self, place: &Place) -> (b: bool)
        ensures
            b == self@.may_release(place@),
    {
        match self.now {
            Some(now) => match self.idle_since.get(place) {
                Some(since) => now.duration_since(*since).at_least(&self.release_delay),
                None => true,
            },
            None => true,
        }
    }

    /// The holders of the tenant whose first holder stands at `start`.
    fn group_at(&self, instance: &InstanceId, holders: &OrdMap<Holder, u32>, start: usize) -> (g: Group)
        requires
            holders.keys() == self@.holders_on(instance@),
            holders@.dom() == self@.holder_set(instance@),
            start < holders.keys().len(),
            start > 0 ==> holders.keys()[start - 1].0 != holders.keys()[start as int].0,
        ensures
            start < g.end <= holders.keys().len(),
            forall|k: int|
                start <= k < g.end ==> (#[trigger] holders.keys()[k]).0
                    == holders.keys()[start as int].0,
            g.end < holders.keys().len() ==> holders.keys()[g.end - 1].0
                != holders.keys()[g.end as int].0,
            ({
                let t = holders.keys()[start as int].0;
                let group = self@.group(instance@, t);
                &&& group == holders.keys().subrange(start as int, g.end as int)
                &&& group.no_duplicates()
                &&& g.demand@ == self@.demands(instance@, group)
                &&& g.current@ == self@.currents(instance@, group)
                &&& g.may_release == forall|h: HolderName| #[trigger]
                    group.contains(h) ==> self@.may_release((instance@, h))
            }),
    {
        let ghost keys = holders.keys();
        let n: usize = holders.len();
        let tenant = holders.key_at(start).tenant();
        let mut end: usize = start;
        let mut demand: Vec<u32> = Vec::new();
        let mut current: Vec<u32> = Vec::new();
        let mut may_release: bool = true;
        while end < n
            invariant_except_break
                end > start ==> end <= n,
            invariant
                n == keys.len(),
                keys == holders.keys(),
                start < n,
                start <= end <= n,
                tenant@ == keys[start as int].0,
                forall|k: int| start <= k < end ==> (#[trigger] keys[k]).0 == tenant@,
                demand@.len() == end - start,
                current@.len() == end - start,
                forall|k: int|
                    0 <= k < end - start ==> #[trigger] demand@[k] == self@.demand_at(
                        (instance@, keys[start + k]),
                    ),
                forall|k: int|
                    0 <= k < end - start ==> #[trigger] current@[k] == self@.slots_at(
                        (instance@, keys[start + k]),
                    ),
                may_release == forall|k: int|
                    start <= k < end ==> self@.may_release((instance@, #[trigger] keys[k])),
            ensures
                end > start,
                end < n ==> keys[end as int].0 != tenant@,
            decreases n - end,
        {
            let holder = holders.key_at(end);
            if !same_key(holder.tenant(), tenant) {
                break;
            }
            let place = Place { instance: instance.clone(), holder: holder.clone() };
            demand.push(self.demand_at(&place));
            current.push(self.table.granted(instance, holder));
            let free = self.may_release(&place);
            if !free {
                may_release = false;
                assert(!self@.may_release((instance@, keys[end as int])));
            }
            end += 1;
        }
        proof {
            use_type_invariant(holders);
            holders.lemma_lists();
            lemma_group(self@, instance@, keys, start as int, end as int);
            let group = self@.group(instance@, tenant@);
            assert(demand@ =~= self@.demands(instance@, group));
            assert(current@ =~= self@.currents(instance@, group));
            if may_release {
                assert forall|h: HolderName| #[trigger] group.contains(h) implies self@.may_release(
                    (instance@, h),
                ) by {
                    let k = choose|k: int| 0 <= k < group.len() && group[k] == h;
                    assert(keys[start + k] == h);
                }
            } else {
                let k = choose|k: int|
                    start <= k < end && !self@.may_release((instance@, #[trigger] keys[k]));
                assert(group[k - start] == keys[k]);
                assert(group.contains(keys[k]));
            }
        }
        Group { end, demand, current, may_release }
    }

    /// Each holder's part of its tenant's target.
    fn holder_targets(
        &self,
        instance: &InstanceId,
        holders: &OrdMap<Holder, u32>,
        targets: &OrdMap<Slot, u32>,
    ) -> (parts: Vec<u32>)
        requires
            holders.keys() == self@.holders_on(instance@),
            holders@.dom() == self@.holder_set(instance@),
        ensures
            parts@.len() == holders.keys().len(),
            forall|k: int|
                0 <= k < parts@.len() ==> #[trigger] parts@[k] == self@.holder_target(
                    targets@,
                    instance@,
                    holders.keys()[k],
                ),
    {
        let ghost keys = holders.keys();
        let n: usize = holders.len();
        let mut parts: Vec<u32> = Vec::new();
        let mut start: usize = 0;
        while start < n
            invariant
                n == keys.len(),
                keys == holders.keys(),
                holders.keys() == self@.holders_on(instance@),
                holders@.dom() == self@.holder_set(instance@),
                start <= n,
                0 < start < n ==> keys[start - 1].0 != keys[start as int].0,
                parts@.len() == start,
                forall|k: int|
                    0 <= k < start ==> #[trigger] parts@[k] == self@.holder_target(
                        targets@,
                        instance@,
                        keys[k],
                    ),
            decreases n - start,
        {
            let tenant = holders.key_at(start).tenant();
            let group = self.group_at(instance, holders, start);
            let ghost list = self@.group(instance@, tenant@);
            let slot = Slot { instance: instance.clone(), tenant: tenant.clone() };
            let target: u32 = match targets.get(&slot) {
                Some(target) => *target,
                None => 0,
            };
            let shares = spread(target, &group.demand, &group.current);
            proof {
                law_a_target_is_spread_one_way(
                    target as nat,
                    self@.demands(instance@, list),
                    self@.currents(instance@, list),
                    shares@,
                    self@.shares(targets@, instance@, tenant@),
                );
            }
            let mut k: usize = 0;
            while k < shares.len()
                invariant
                    k <= shares@.len(),
                    shares@ == self@.shares(targets@, instance@, tenant@),
                    shares@.len() == list.len(),
                    list == self@.group(instance@, tenant@),
                    list == keys.subrange(start as int, group.end as int),
                    list.no_duplicates(),
                    start < group.end <= keys.len(),
                    tenant@ == keys[start as int].0,
                    forall|j: int| start <= j < group.end ==> (#[trigger] keys[j]).0 == tenant@,
                    parts@.len() == start + k,
                    forall|j: int|
                        0 <= j < start + k ==> #[trigger] parts@[j] == self@.holder_target(
                            targets@,
                            instance@,
                            keys[j],
                        ),
                decreases shares@.len() - k,
            {
                proof {
                    let h = keys[start + k];
                    assert(list[k as int] == h);
                    assert(list.contains(h));
                    let at = list.index_of(h);
                    assert(0 <= at < list.len() && list[at] == h);
                    assert(at == k);
                }
                parts.push(shares[k]);
                k += 1;
            }
            start = group.end;
        }
        parts
    }
}


/// A holder's occupied slots are among those of the instance.
proof fn lemma_occupied_within(v: CoordinatorView, p: PlaceName)
    requires
        v.held.dom().finite(),
    ensures
        v.occupied_at(p) <= v.occupied_on(p.0),
{
    let m = v.occupied_map(p.0);
    assert(m.dom().subset_of(v.held.dom()));
    vstd::set_lib::lemma_len_subset(m.dom(), v.held.dom());
    if v.held.contains_key(p) {
        crate::sums::lemma_sum_bounds_value(m, p);
    }
}

impl<A> InProcessCoordinator<A> {
    /// The desired state of an instance for those targets.
    fn desired_on(
        &self,
        instance: &InstanceId,
        budget: u32,
        targets: &OrdMap<Slot, u32>,
    ) -> (desired: Desired)
        requires
            self@.budgets.contains_key(instance@),
            budget == self@.budgets[instance@].total(),
        ensures
            desired@ == self@.desired(targets@, instance@),
    {
        let holders = self.places_on(instance);
        let parts = self.holder_targets(instance, &holders, targets);
        let ghost keys = holders.keys();
        let ghost i = instance@;
        let ghost v = self@;
        let n: usize = holders.len();
        let mut left: u32 = budget.saturating_sub(self.occupied_on(instance));
        let ghost free = left as nat;
        assert(free == v.available(i));
        let mut desired = Desired::new(budget);
        let mut k: usize = 0;
        proof {
            use_type_invariant(&self.held);
            self.held.lemma_lists();
        }
        while k < n
            invariant
                n == keys.len(),
                k <= n,
                keys == holders.keys(),
                lists::<Holder, u32>(keys, holders@),
                keys == v.holders_on(i),
                v == self@,
                i == instance@,
                v.held.dom().finite(),
                holders@.dom() == v.holder_set(i),
                parts@.len() == n,
                forall|j: int|
                    0 <= j < n ==> #[trigger] parts@[j] == v.holder_target(targets@, i, keys[j]),
                left == v.left_for(targets@, i, k as int),
                budget == v.budgets[i].total(),
                desired@.budget == budget,
                forall|h: HolderName| #[trigger]
                    desired@.granted.contains_key(h) <==> (exists|j: int|
                        0 <= j < k && #[trigger] keys[j] == h && v.grant_for(targets@, i, j) > 0),
                forall|h: HolderName| #[trigger]
                    desired@.granted.contains_key(h) ==> desired@.granted[h] == v.grant_of(
                        targets@,
                        i,
                        h,
                    ),
            decreases n - k,
        {
            let holder = holders.key_at(k);
            let ghost h = keys[k as int];
            let place = Place { instance: instance.clone(), holder: holder.clone() };
            let current: u32 = self.table.granted(instance, holder);
            let occupied: u32 = self.occupied_at(&place);
            let target: u32 = parts[k];
            let slots: u32 = if target <= current {
                target
            } else {
                proof {
                    lemma_occupied_within(v, (i, h));
                }
                let within: u32 = occupied + left;
                let slots: u32 = if target < within { target } else { within };
                left = left - slots.saturating_sub(occupied);
                slots
            };
            proof {
                assert(holders@.contains_key(h));
                assert(v.holder_set(i).contains(h));
                assert(keys.contains(h));
                let at = keys.index_of(h);
                assert(0 <= at < keys.len() && keys[at] == h);
                assert(at == k);
                assert(slots == v.grant_for(targets@, i, k as int));
                assert(slots == v.grant_of(targets@, i, h));
            }
            let ghost was = desired@;
            desired = desired.grant(holder.clone(), slots);
            proof {
                assert(!was.granted.contains_key(h)) by {
                    if was.granted.contains_key(h) {
                        let j = choose|j: int|
                            0 <= j < k && #[trigger] keys[j] == h && v.grant_for(targets@, i, j) > 0;
                        assert(false);
                    }
                }
                assert forall|q: HolderName| #[trigger]
                    desired@.granted.contains_key(q) <==> (exists|j: int|
                        0 <= j < k + 1 && #[trigger] keys[j] == q && v.grant_for(targets@, i, j)
                            > 0) by {
                    if desired@.granted.contains_key(q) {
                        if q == h {
                            assert(keys[k as int] == q);
                        } else {
                            assert(was.granted.contains_key(q));
                        }
                    }
                    if exists|j: int|
                        0 <= j < k + 1 && #[trigger] keys[j] == q && v.grant_for(targets@, i, j)
                            > 0 {
                        let j = choose|j: int|
                            0 <= j < k + 1 && #[trigger] keys[j] == q && v.grant_for(
                                targets@,
                                i,
                                j,
                            ) > 0;
                        if j < k {
                            assert(was.granted.contains_key(q));
                        }
                    }
                }
            }
            k += 1;
        }
        proof {
            let spec = v.desired(targets@, i);
            assert(desired@.granted =~= spec.granted) by {
                assert forall|h: HolderName| desired@.granted.contains_key(h)
                    == spec.granted.contains_key(h) by {
                    if spec.granted.contains_key(h) {
                        assert(v.is_place((i, h)));
                        assert(v.holder_set(i).contains(h));
                        assert(holders@.contains_key(h));
                        assert(keys.contains(h));
                        let at = keys.index_of(h);
                        assert(0 <= at < k && keys[at] == h && v.grant_for(targets@, i, at) > 0);
                    }
                    if desired@.granted.contains_key(h) {
                        let j = choose|j: int|
                            0 <= j < k && #[trigger] keys[j] == h && v.grant_for(targets@, i, j) > 0;
                        assert(holders@.contains_key(keys[j]));
                        assert(v.holder_set(i).contains(h));
                        let at = keys.index_of(h);
                        assert(keys.contains(h));
                        assert(0 <= at < keys.len() && keys[at] == h);
                        assert(at == j);
                    }
                }
            }
        }
        desired
    }

    /// The desired state of every instance for those targets.
    fn desired_state(&self, targets: &OrdMap<Slot, u32>) -> (entry: Entry)
        ensures
            entry@ == self@.entry(targets@),
    {
        let mut entry = Entry::new();
        let ghost all = self@.entry(targets@);
        let n: usize = self.budgets.len();
        let ghost names = self.budgets.keys();
        let mut i: usize = 0;
        while i < n
            invariant
                n == names.len(),
                i <= n,
                names == self.budgets.keys(),
                lists::<InstanceId, BudgetView>(names, self.budgets@),
                all == self@.entry(targets@),
                self@.budgets == self.budgets@,
                forall|q: Seq<char>| #[trigger]
                    entry@.contains_key(q) <==> (exists|j: int| 0 <= j < i && names[j] == q),
                forall|q: Seq<char>| #[trigger]
                    entry@.contains_key(q) ==> all.contains_key(q) && entry@[q] == all[q],
            decreases n - i,
        {
            let instance = self.budgets.key_at(i);
            let budget: u32 = self.budgets.value_at(i).current().total();
            let desired = self.desired_on(instance, budget, targets);
            let ghost was = entry@;
            entry = entry.instance(instance.clone(), desired);
            assert(entry@ == was.insert(names[i as int], all[names[i as int]]));
            i += 1;
        }
        proof {
            assert(entry@ =~= all) by {
                assert forall|q: Seq<char>| entry@.contains_key(q) == all.contains_key(q) by {
                    if all.contains_key(q) {
                        let j = choose|j: int| 0 <= j < names.len() && names[j] == q;
                        assert(0 <= j < i && names[j] == q);
                    }
                }
            }
        }
        entry
    }
}


/// The places whose grant differs between two maps of grants, with what each is
/// granted in the second.
spec fn differing(previous: Map<PlaceName, u32>, next: Map<PlaceName, u32>) -> Map<PlaceName, u32> {
    Map::new(
        |p: PlaceName| value_or_zero(previous, p) != value_or_zero(next, p),
        |p: PlaceName| value_or_zero(next, p),
    )
}

fn value_of(map: &OrdMap<Place, u32>, place: &Place) -> (value: u32)
    ensures
        value == value_or_zero(map@, place@),
{
    match map.get(place) {
        Some(value) => *value,
        None => 0,
    }
}

/// Adds the places of `among` whose grant differs between the two maps.
fn add_differing(
    moved: &mut OrdMap<Place, u32>,
    among: &OrdMap<Place, u32>,
    previous: &OrdMap<Place, u32>,
    next: &OrdMap<Place, u32>,
)
    requires
        forall|p: PlaceName| #[trigger]
            old(moved)@.contains_key(p) ==> differing(previous@, next@).contains_key(p)
                && old(moved)@[p] == differing(previous@, next@)[p],
    ensures
        forall|p: PlaceName| #[trigger]
            final(moved)@.contains_key(p) <==> old(moved)@.contains_key(p) || (
            among@.contains_key(p) && differing(previous@, next@).contains_key(p)),
        forall|p: PlaceName| #[trigger]
            final(moved)@.contains_key(p) ==> final(moved)@[p] == differing(previous@, next@)[p],
{
    let ghost all = differing(previous@, next@);
    let ghost before = moved@;
    let n: usize = among.len();
    let ghost keys = among.keys();
    let mut i: usize = 0;
    while i < n
        invariant
            n == keys.len(),
            i <= n,
            keys == among.keys(),
            lists::<Place, u32>(keys, among@),
            all == differing(previous@, next@),
            forall|p: PlaceName| #[trigger]
                moved@.contains_key(p) <==> before.contains_key(p) || (all.contains_key(p) && (
                exists|j: int| 0 <= j < i && keys[j] == p)),
            forall|p: PlaceName| #[trigger] moved@.contains_key(p) ==> moved@[p] == all[p],
        decreases n - i,
    {
        let place = among.key_at(i);
        let was: u32 = value_of(previous, place);
        let is: u32 = value_of(next, place);
        let ghost earlier = moved@;
        if was != is {
            moved.insert(place.dup(), is);
        }
        proof {
            assert forall|p: PlaceName| #[trigger]
                moved@.contains_key(p) <==> before.contains_key(p) || (all.contains_key(p) && (
                exists|j: int| 0 <= j < i + 1 && keys[j] == p)) by {
                if earlier.contains_key(p) && !before.contains_key(p) {
                    let j = choose|j: int| 0 <= j < i && keys[j] == p;
                    assert(0 <= j < i + 1 && keys[j] == p);
                }
                if p == place@ {
                    assert(keys[i as int] == p);
                }
            }
        }
        i += 1;
    }
    proof {
        assert forall|p: PlaceName| #[trigger]
            moved@.contains_key(p) <==> before.contains_key(p) || (among@.contains_key(p)
                && all.contains_key(p)) by {
            if among@.contains_key(p) && all.contains_key(p) {
                let j = choose|j: int| 0 <= j < keys.len() && keys[j] == p;
                assert(0 <= j < i && keys[j] == p);
            }
            if moved@.contains_key(p) && !before.contains_key(p) {
                let j = choose|j: int| 0 <= j < i && keys[j] == p;
                assert(among@.contains_key(keys[j]));
            }
        }
    }
}

/// The places whose grant differs between two maps of grants.
fn differences(previous: &OrdMap<Place, u32>, next: &OrdMap<Place, u32>) -> (moved: OrdMap<
    Place,
    u32,
>)
    ensures
        moved@ == differing(previous@, next@),
{
    let mut moved: OrdMap<Place, u32> = OrdMap::new();
    add_differing(&mut moved, previous, previous, next);
    add_differing(&mut moved, next, previous, next);
    proof {
        assert(moved@ =~= differing(previous@, next@));
    }
    moved
}

/// What is held, without the places that nothing is occupied in or granted.
fn retained(held: &OrdMap<Place, Held>, granted: &OrdMap<Place, u32>) -> (kept: OrdMap<Place, Held>)
    ensures
        kept@ == Map::new(
            |p: PlaceName|
                held@.contains_key(p) && (held@[p].occupied > 0 || granted@.contains_key(p)),
            |p: PlaceName| held@[p],
        ),
{
    let mut kept: OrdMap<Place, Held> = OrdMap::new();
    let ghost all = Map::new(
        |p: PlaceName|
            held@.contains_key(p) && (held@[p].occupied > 0 || granted@.contains_key(p)),
        |p: PlaceName| held@[p],
    );
    let n: usize = held.len();
    let ghost keys = held.keys();
    let mut i: usize = 0;
    while i < n
        invariant
            n == keys.len(),
            i <= n,
            keys == held.keys(),
            lists::<Place, Held>(keys, held@),
            all == Map::new(
                |p: PlaceName|
                    held@.contains_key(p) && (held@[p].occupied > 0 || granted@.contains_key(p)),
                |p: PlaceName| held@[p],
            ),
            forall|p: PlaceName| #[trigger]
                kept@.contains_key(p) <==> all.contains_key(p) && (exists|j: int|
                    0 <= j < i && keys[j] == p),
            forall|p: PlaceName| #[trigger] kept@.contains_key(p) ==> kept@[p] == held@[p],
        decreases n - i,
    {
        let place = held.key_at(i);
        let value: Held = *held.value_at(i);
        let ghost was = kept@;
        if value.occupied > 0 || granted.contains(place) {
            kept.insert(place.dup(), value);
        }
        proof {
            assert forall|p: PlaceName| #[trigger]
                kept@.contains_key(p) <==> all.contains_key(p) && (exists|j: int|
                    0 <= j < i + 1 && keys[j] == p) by {
                if was.contains_key(p) {
                    let j = choose|j: int| 0 <= j < i && keys[j] == p;
                    assert(0 <= j < i + 1 && keys[j] == p);
                }
                if p == place@ {
                    assert(keys[i as int] == p);
                }
            }
        }
        i += 1;
    }
    proof {
        assert(kept@ =~= all) by {
            assert forall|p: PlaceName| all.contains_key(p) implies #[trigger] kept@.contains_key(
                p,
            ) by {
                let j = choose|j: int| 0 <= j < keys.len() && keys[j] == p;
                assert(0 <= j < i && keys[j] == p);
            }
        }
    }
    kept
}

impl<A> InProcessCoordinator<A> {
    /// Takes down since when each idle holder is idle.
    fn track_idle(&mut self)
        ensures
            final(self)@ == old(self)@.idling(),
            final(self).own_proxy() == old(self).own_proxy(),
            final(self).rejection() == old(self).rejection(),
            final(self).own_allocator() == old(self).own_allocator(),
    {
        let now = match self.now {
            Some(now) => now,
            None => return,
        };
        let granted = place_grants(&self.table);
        let mut idle_since: OrdMap<Place, Instant> = OrdMap::new();
        let ghost all = self@.idling().idle_since;
        let ghost v = self@;
        let n: usize = granted.len();
        let ghost keys = granted.keys();
        let mut i: usize = 0;
        while i < n
            invariant
                n == keys.len(),
                i <= n,
                keys == granted.keys(),
                lists::<Place, u32>(keys, granted@),
                granted@ == place_map(v.table),
                v == self@,
                v == old(self)@,
                *self == *old(self),
                v.now == Some(now@),
                all == v.idling().idle_since,
                forall|p: PlaceName| #[trigger]
                    idle_since@.contains_key(p) <==> v.is_idle(p) && (exists|j: int|
                        0 <= j < i && keys[j] == p),
                forall|p: PlaceName| #[trigger]
                    idle_since@.contains_key(p) ==> idle_since@[p] == all[p],
            decreases n - i,
        {
            let place = granted.key_at(i);
            let slots: u32 = *granted.value_at(i);
            let ghost was = idle_since@;
            proof {
                lemma_place_map(v.table, place@);
            }
            if self.demand_at(place) < slots {
                let since: Instant = match self.idle_since.get(place) {
                    Some(since) => *since,
                    None => now,
                };
                idle_since.insert(place.dup(), since);
            }
            proof {
                assert forall|p: PlaceName| #[trigger]
                    idle_since@.contains_key(p) <==> v.is_idle(p) && (exists|j: int|
                        0 <= j < i + 1 && keys[j] == p) by {
                    if was.contains_key(p) {
                        let j = choose|j: int| 0 <= j < i && keys[j] == p;
                        assert(0 <= j < i + 1 && keys[j] == p);
                    }
                    if p == place@ {
                        assert(keys[i as int] == p);
                    }
                }
            }
            i += 1;
        }
        proof {
            assert(idle_since@ =~= all) by {
                assert forall|p: PlaceName| all.contains_key(p) implies #[trigger] idle_since@.contains_key(
                    p,
                ) by {
                    lemma_place_map(v.table, p);
                    assert(granted@.contains_key(p));
                    let j = choose|j: int| 0 <= j < keys.len() && keys[j] == p;
                    assert(0 <= j < i && keys[j] == p);
                }
            }
        }
        self.idle_since = idle_since;
        assert(self@ =~= v.idling());
    }

    /// Takes in that the grants moved from `previous` to those of the table.
    fn record(&mut self, previous: &OrdMap<Place, u32>, Ghost(before): Ghost<CoordinatorView>)
        requires
            old(self)@ == (CoordinatorView { table: old(self)@.table, ..before }),
            previous@ == place_map(before.table),
            before.generation < u64::MAX,
        ensures
            final(self)@ == before.moved_to(old(self)@.table),
            final(self).own_proxy() == old(self).own_proxy(),
            final(self).own_allocator() == old(self).own_allocator(),
    {
        let ghost after = self@.table;
        let next = place_grants(&self.table);
        let moved = differences(previous, &next);
        proof {
            assert forall|p: PlaceName| #[trigger]
                moved@.contains_key(p) == CoordinatorView::moved(before.table, after, p) by {
                lemma_place_map(before.table, p);
                lemma_place_map(after, p);
            }
        }
        let n: usize = moved.len();
        let ghost keys = moved.keys();
        if n == 0 {
            proof {
                assert forall|p: PlaceName| !CoordinatorView::moved(before.table, after, p) by {
                    if CoordinatorView::moved(before.table, after, p) {
                        assert(moved@.contains_key(p));
                        let j = choose|j: int| 0 <= j < keys.len() && keys[j] == p;
                    }
                }
            }
            return;
        }
        proof {
            assert(moved@.contains_key(keys[0]));
            assert(CoordinatorView::moved(before.table, after, keys[0]));
        }
        self.generation = self.generation + 1;
        let generation: u64 = self.generation;
        let mut i: usize = 0;
        while i < n
            invariant
                n == keys.len(),
                i <= n,
                keys == moved.keys(),
                lists::<Place, u32>(keys, moved@),
                forall|p: PlaceName| #[trigger]
                    moved@.contains_key(p) == CoordinatorView::moved(before.table, after, p),
                forall|p: PlaceName| #[trigger]
                    moved@.contains_key(p) ==> moved@[p] == table_slots(after, p.0, p.1),
                generation == before.generation + 1,
                self.generation == generation,
                self.own_proxy() == old(self).own_proxy(),
                self.own_allocator() == old(self).own_allocator(),
                self@ == (CoordinatorView {
                    table: after,
                    generation,
                    held: self@.held,
                    generations: self@.generations,
                    ..before
                }),
                forall|p: PlaceName| #[trigger]
                    self@.held.contains_key(p) <==> before.held.contains_key(p) || (exists|j: int|
                        0 <= j < i && keys[j] == p),
                forall|p: PlaceName| #[trigger]
                    self@.held.contains_key(p) ==> self@.held[p] == (if exists|j: int|
                        0 <= j < i && keys[j] == p {
                        Held { changed_at: generation, occupied: before.occupied_after(after, p) }
                    } else {
                        before.held[p]
                    }),
                forall|q: Seq<char>| #[trigger]
                    self@.generations.contains_key(q) <==> before.generations.contains_key(q) || (
                    exists|j: int| 0 <= j < i && (#[trigger] keys[j]).1.1 == q),
                forall|q: Seq<char>| #[trigger]
                    self@.generations.contains_key(q) ==> self@.generations[q] == (if exists|j: int|
                        0 <= j < i && (#[trigger] keys[j]).1.1 == q {
                        generation
                    } else {
                        before.generations[q]
                    }),
            decreases n - i,
        {
            let place = moved.key_at(i);
            let slots: u32 = *moved.value_at(i);
            let occupied: u32 = self.occupied_at(place);
            let ghost was = self@;
            proof {
                assert(place@ == keys[i as int]);
                assert(!(exists|j: int| 0 <= j < i && keys[j] == place@));
                assert(occupied == before.occupied_at(place@));
                assert(moved@.contains_key(place@));
            }
            let count: u32 = if slots > occupied { slots } else { occupied };
            self.held.insert(place.dup(), Held { changed_at: generation, occupied: count });
            self.generations.insert(place.holder.proxy().clone(), generation);
            proof {
                let p0 = place@;
                assert(count == before.occupied_after(after, p0));
                assert forall|p: PlaceName| #[trigger]
                    self@.held.contains_key(p) <==> before.held.contains_key(p) || (exists|j: int|
                        0 <= j < i + 1 && keys[j] == p) by {
                    if p == p0 {
                        assert(keys[i as int] == p);
                    }
                    if was.held.contains_key(p) && !before.held.contains_key(p) {
                        let j = choose|j: int| 0 <= j < i && keys[j] == p;
                        assert(0 <= j < i + 1 && keys[j] == p);
                    }
                }
                assert forall|p: PlaceName| #[trigger]
                    self@.held.contains_key(p) implies self@.held[p] == (if exists|j: int|
                        0 <= j < i + 1 && keys[j] == p {
                        Held { changed_at: generation, occupied: before.occupied_after(after, p) }
                    } else {
                        before.held[p]
                    }) by {
                    if p == p0 {
                        assert(keys[i as int] == p);
                    } else {
                        assert(was.held.contains_key(p));
                        if exists|j: int| 0 <= j < i && keys[j] == p {
                            let j = choose|j: int| 0 <= j < i && keys[j] == p;
                            assert(0 <= j < i + 1 && keys[j] == p);
                        }
                    }
                }
                assert forall|q: Seq<char>| #[trigger]
                    self@.generations.contains_key(q) <==> before.generations.contains_key(q) || (
                    exists|j: int| 0 <= j < i + 1 && (#[trigger] keys[j]).1.1 == q) by {
                    if q == p0.1.1 {
                        assert(keys[i as int].1.1 == q);
                    }
                    if was.generations.contains_key(q) && !before.generations.contains_key(q) {
                        let j = choose|j: int| 0 <= j < i && (#[trigger] keys[j]).1.1 == q;
                        assert(0 <= j < i + 1 && keys[j].1.1 == q);
                    }
                }
                assert forall|q: Seq<char>| #[trigger]
                    self@.generations.contains_key(q) implies self@.generations[q] == (if exists|
                        j: int,
                    | 0 <= j < i + 1 && (#[trigger] keys[j]).1.1 == q {
                        generation
                    } else {
                        before.generations[q]
                    }) by {
                    if q == p0.1.1 {
                        assert(keys[i as int].1.1 == q);
                    } else {
                        assert(was.generations.contains_key(q));
                        if exists|j: int| 0 <= j < i && (#[trigger] keys[j]).1.1 == q {
                            let j = choose|j: int| 0 <= j < i && (#[trigger] keys[j]).1.1 == q;
                            assert(0 <= j < i + 1 && keys[j].1.1 == q);
                        }
                    }
                }
            }
            i += 1;
        }
        let ghost full = self@;
        self.held = retained(&self.held, &next);
        proof {
            let spec = before.moved_to(after);
            assert forall|p: PlaceName| CoordinatorView::moved(before.table, after, p) == (exists|
                j: int,
            | 0 <= j < i && keys[j] == p) by {
                if CoordinatorView::moved(before.table, after, p) {
                    assert(moved@.contains_key(p));
                    let j = choose|j: int| 0 <= j < keys.len() && keys[j] == p;
                    assert(0 <= j < i && keys[j] == p);
                }
                if exists|j: int| 0 <= j < i && keys[j] == p {
                    let j = choose|j: int| 0 <= j < i && keys[j] == p;
                    assert(moved@.contains_key(keys[j]));
                }
            }
            assert forall|q: Seq<char>| proxy_moved(before.table, after, q) == (exists|j: int|
                0 <= j < i && (#[trigger] keys[j]).1.1 == q) by {
                if proxy_moved(before.table, after, q) {
                    let p = choose|p: PlaceName|
                        p.1.1 == q && #[trigger] CoordinatorView::moved(before.table, after, p);
                    assert(moved@.contains_key(p));
                    let j = choose|j: int| 0 <= j < keys.len() && keys[j] == p;
                    assert(0 <= j < i && keys[j].1.1 == q);
                }
                if exists|j: int| 0 <= j < i && (#[trigger] keys[j]).1.1 == q {
                    let j = choose|j: int| 0 <= j < i && (#[trigger] keys[j]).1.1 == q;
                    assert(moved@.contains_key(keys[j]));
                    assert(CoordinatorView::moved(before.table, after, keys[j]));
                }
            }
            use_type_invariant(&self.table);
            self.table.lemma_wf();
            assert(self@.held =~= spec.held) by {
                assert forall|p: PlaceName| self@.held.contains_key(p) == spec.held.contains_key(p) by {
                    assert(next@.contains_key(p) == (table_slots(after, p.0, p.1) > 0));
                    assert(CoordinatorView::moved(before.table, after, p) == (exists|j: int|
                        0 <= j < i && keys[j] == p));
                    assert(full.held.contains_key(p) == (before.held.contains_key(p)
                        || CoordinatorView::moved(before.table, after, p)));
                    if full.held.contains_key(p) {
                        assert(full.held[p].occupied == before.occupied_after(after, p));
                    }
                }
            }
            assert(self@.generations =~= spec.generations);
            assert(self@ =~= spec);
        }
    }
}


/// The sum of a list, at most 2^32 - 1.
fn capped_sum(list: &Vec<u32>) -> (sum: u32)
    ensures
        sum == capped(seq_sum(list@)),
{
    let mut sum: u32 = 0;
    let mut i: usize = 0;
    assert(list@.subrange(0, 0) =~= Seq::empty());
    while i < list.len()
        invariant
            i <= list@.len(),
            sum == capped(seq_sum(list@.subrange(0, i as int))),
        decreases list@.len() - i,
    {
        proof {
            lemma_seq_sum_prefix(list@, i as int);
        }
        sum = sum.saturating_add(list[i]);
        i += 1;
    }
    assert(list@.subrange(0, i as int) =~= list@);
    sum
}

impl<A> InProcessCoordinator<A> {
    /// The allocator that shares the budgets out.
    pub closed spec fn own_allocator(&self) -> A {
        self.allocator
    }

    /// What the tenants claim on an instance, in the order of the tenants.
    pub fn claims(&self, instance: &InstanceId) -> (claims: Vec<Claim>)
        ensures
            claim_list(self@, instance@, claims@),
    {
        let holders = self.places_on(instance);
        let ghost keys = holders.keys();
        let ghost v = self@;
        let ghost i = instance@;
        let n: usize = holders.len();
        let mut claims: Vec<Claim> = Vec::new();
        let mut start: usize = 0;
        while start < n
            invariant
                n == keys.len(),
                keys == holders.keys(),
                v == self@,
                i == instance@,
                lists::<Holder, u32>(keys, holders@),
                holders.keys() == v.holders_on(i),
                holders@.dom() == v.holder_set(i),
                start <= n,
                0 < start < n ==> keys[start - 1].0 != keys[start as int].0,
                rising::<TenantId>(claim_keys(claims@)),
                forall|k: int| 0 <= k < claims@.len() ==> is_claim(v, i, #[trigger] claims@[k]),
                forall|k: int|
                    0 <= k < claims@.len() ==> exists|j: int|
                        0 <= j < start && #[trigger] keys[j].0 == (#[trigger] claims@[k]).key@,
                forall|j: int|
                    0 <= j < start && claims_on(v, i, (#[trigger] keys[j]).0) ==> claim_keys(
                        claims@,
                    ).contains(keys[j].0),
            decreases n - start,
        {
            let tenant = holders.key_at(start).tenant();
            let group = self.group_at(instance, &holders, start);
            let ghost t = tenant@;
            let ghost list = v.group(i, t);
            let ghost was = claims@;
            proof {
                assert(holders@.contains_key(keys[start as int]));
                assert(v.holder_set(i).contains(keys[start as int]));
                assert(v.group_set(i, t).contains(keys[start as int]));
            }
            if let Some(policy) = self.policies.policy(instance, tenant) {
                let claim = Claim {
                    key: tenant.clone(),
                    min: policy.min,
                    max: policy.max,
                    weight: policy.weight,
                    demand: capped_sum(&group.demand),
                    current: capped_sum(&group.current),
                    may_release: group.may_release,
                };
                assert(is_claim(v, i, claim));
                claims.push(claim);
                proof {
                    let now = claim_keys(claims@);
                    assert(now =~= claim_keys(was).push(t));
                    assert forall|a: int, b: int| 0 <= a < b < now.len() implies TenantId::before(
                        #[trigger] now[a],
                        #[trigger] now[b],
                    ) by {
                        assert(now[a] == claim_keys(was)[a]);
                        if b < was.len() {
                            assert(now[b] == claim_keys(was)[b]);
                        } else {
                            let j = choose|j: int|
                                0 <= j < start && #[trigger] keys[j].0 == was[a].key@;
                            lemma_tenants_rise(keys, j, start - 1);
                            lemma_tenants_rise(keys, start - 1, start as int);
                            if keys[j].0 != keys[start - 1].0 {
                                TenantId::transitive(keys[j].0, keys[start - 1].0, t);
                            }
                        }
                    }
                }
            }
            proof {
                let now = claim_keys(claims@);
                assert forall|k: int| 0 <= k < claims@.len() implies exists|j: int|
                    0 <= j < group.end && #[trigger] keys[j].0 == (#[trigger] claims@[k]).key@ by {
                    if k < was.len() {
                        let j = choose|j: int| 0 <= j < start && #[trigger] keys[j].0 == was[k].key@;
                        assert(keys[j].0 == claims@[k].key@);
                    } else {
                        assert(keys[start as int].0 == claims@[k].key@);
                    }
                }
                assert forall|j: int|
                    0 <= j < group.end && claims_on(
                        v,
                        i,
                        (#[trigger] keys[j]).0,
                    ) implies now.contains(keys[j].0) by {
                    if j < start {
                        let c = choose|c: int|
                            0 <= c < was.len() && claim_keys(was)[c] == keys[j].0;
                        assert(claim_keys(was).contains(keys[j].0));
                        assert(now[c] == keys[j].0);
                    } else {
                        assert(keys[j].0 == t);
                        assert(now[was.len() as int] == t);
                    }
                }
            }
            start = group.end;
        }
        proof {
            assert forall|t: TenantName| #[trigger] claims_on(v, i, t) implies claim_keys(
                claims@,
            ).contains(t) by {
                let h = choose|h: HolderName| #[trigger] v.group_set(i, t).contains(h);
                assert(v.holder_set(i).contains(h));
                assert(holders@.contains_key(h));
                let j = choose|j: int| 0 <= j < keys.len() && keys[j] == h;
                assert(keys[j].0 == t);
            }
        }
        claims
    }

    /// Puts the desired state for those targets in force: what each tenant is
    /// to hold on each instance, over all proxies. Where the table rejects it,
    /// everything stays as it is, and the error is the table's.
    pub fn settle(&mut self, targets: &OrdMap<Slot, u32>) -> (result: Result<(), PreconditionError>)
        requires
            old(self)@.generation < u64::MAX,
        ensures
            result is Ok <==> entry_fits(old(self)@.entry(targets@)),
            answered_with(old(self)@.entry(targets@), rejection_in(result)),
            final(self).rejection() == rejection_in(result),
            final(self)@ == old(self)@.settled(targets@),
            final(self).own_proxy() == old(self).own_proxy(),
            final(self).own_allocator() == old(self).own_allocator(),
    {
        let ghost before = self@;
        let entry = self.desired_state(targets);
        let previous = place_grants(&self.table);
        let result = self.table.apply(&entry);
        match result {
            Ok(()) => {
                self.record(&previous, Ghost(before));
                self.rejected = None;
                assert(self@ =~= before.settled(targets@));
                Ok(())
            },
            Err(error) => {
                self.rejected = Some(error.clone());
                assert(self@ =~= before);
                Err(error)
            },
        }
    }

    /// The table as it stands.
    pub fn table(&self) -> (table: AllocationTable)
        ensures
            table@ == self@.table,
    {
        self.table.clone()
    }
}

impl<A: Allocator> InProcessCoordinator<A> {
    pub fn new(proxy: ProxyId, allocator: A) -> (coordinator: Self)
        ensures
            coordinator@ == initial_coordinator(),
            coordinator.own_proxy() == proxy@,
            coordinator.own_allocator() == allocator,
            coordinator.rejection() is None,
    {
        let coordinator = InProcessCoordinator {
            proxy,
            allocator,
            release_delay: Duration::from_nanos(0),
            table: AllocationTable::new(),
            budgets: OrdMap::new(),
            policies: Policies::new(),
            demand: OrdMap::new(),
            held: OrdMap::new(),
            generation: 0,
            generations: OrdMap::new(),
            departed: OrdMap::new(),
            now: None,
            idle_since: OrdMap::new(),
            reports: 0,
            rejected: None,
        };
        assert(coordinator@ =~= initial_coordinator());
        coordinator
    }

    /// Asks the allocator for the targets of every instance.
    fn targets(&self) -> (targets: OrdMap<Slot, u32>)
        ensures
            allocated(self.own_allocator(), self@, targets@),
    {
        let mut targets: OrdMap<Slot, u32> = OrdMap::new();
        let ghost v = self@;
        let ghost allocator = self.own_allocator();
        let n: usize = self.budgets.len();
        let ghost names = self.budgets.keys();
        let mut i: usize = 0;
        while i < n
            invariant
                n == names.len(),
                i <= n,
                v == self@,
                allocator == self.own_allocator(),
                names == self.budgets.keys(),
                lists::<InstanceId, BudgetView>(names, self.budgets@),
                forall|j: int|
                    0 <= j < i ==> targets_from(allocator, v, #[trigger] names[j], targets@),
                forall|s: SlotName| #[trigger]
                    targets@.contains_key(s) ==> v.budgets.contains_key(s.0) && claims_on(
                        v,
                        s.0,
                        s.1,
                    ) && (exists|j: int| 0 <= j < i && names[j] == s.0),
            decreases n - i,
        {
            let instance = self.budgets.key_at(i);
            let budget: u32 = self.budgets.value_at(i).current().total();
            let claims = self.claims(instance);
            let answers = self.allocator.allocate(budget, &claims);
            let ghost before = targets@;
            let ghost ckeys = claim_keys(claims@);
            let ghost name = names[i as int];
            assert(call_ensures(A::allocate, (&allocator, v.budgets[name].total(), &claims), answers));
            let mut k: usize = 0;
            while k < claims.len()
                invariant
                    k <= claims@.len(),
                    ckeys == claim_keys(claims@),
                    claim_list(v, name, claims@),
                    instance@ == name,
                    v.budgets.contains_key(name),
                    forall|s: SlotName| #[trigger]
                        targets@.contains_key(s) ==> before.contains_key(s) || (s.0 == name
                            && claims_on(v, s.0, s.1)),
                    forall|s: SlotName|
                        s.0 != name ==> (#[trigger] targets@.contains_key(s)
                            == before.contains_key(s) && (before.contains_key(s) ==> targets@[s]
                            == before[s])),
                    forall|j: int|
                        0 <= j < k ==> value_or_zero(
                            targets@,
                            (name, (#[trigger] claims@[j]).key@),
                        ) == target_at(answers@, j),
                decreases claims@.len() - k,
            {
                let target: u32 = if k < answers.len() { answers[k] } else { 0 };
                let slot = Slot { instance: instance.clone(), tenant: claims[k].key.clone() };
                let ghost was = targets@;
                targets.insert(slot, target);
                proof {
                    let s0 = (name, claims@[k as int].key@);
                    assert(targets@ == was.insert(s0, target));
                    assert(is_claim(v, name, claims@[k as int]));
                    lemma_rising_distinct::<TenantId>(ckeys);
                    assert forall|j: int| 0 <= j < k + 1 implies value_or_zero(
                        targets@,
                        (name, (#[trigger] claims@[j]).key@),
                    ) == target_at(answers@, j) by {
                        assert(ckeys[j] == claims@[j].key@ && ckeys[k as int]
                            == claims@[k as int].key@);
                    }
                }
                k += 1;
            }
            proof {
                assert(targets_from(allocator, v, name, targets@));
                assert forall|j: int| 0 <= j < i + 1 implies targets_from(
                    allocator,
                    v,
                    #[trigger] names[j],
                    targets@,
                ) by {
                    if j < i {
                        assert(names[j] != name);
                        assert(targets_from(allocator, v, names[j], before));
                        let (cs, ans) = choose|cs: Vec<Claim>, ans: Vec<u32>|
                            {
                                &&& claim_list(v, names[j], cs@)
                                &&& #[trigger] call_ensures(
                                    A::allocate,
                                    (&allocator, v.budgets[names[j]].total(), &cs),
                                    ans,
                                )
                                &&& forall|k: int|
                                    0 <= k < cs@.len() ==> value_or_zero(
                                        before,
                                        (names[j], (#[trigger] cs@[k]).key@),
                                    ) == target_at(ans@, k)
                            };
                        assert forall|k: int| 0 <= k < cs@.len() implies value_or_zero(
                            targets@,
                            (names[j], (#[trigger] cs@[k]).key@),
                        ) == target_at(ans@, k) by {
                            let s = (names[j], cs@[k].key@);
                            assert(targets@.contains_key(s) == before.contains_key(s));
                        }
                        assert(call_ensures(
                            A::allocate,
                            (&allocator, v.budgets[names[j]].total(), &cs),
                            ans,
                        ));
                    }
                }
                assert forall|s: SlotName| #[trigger]
                    targets@.contains_key(s) implies v.budgets.contains_key(s.0) && claims_on(
                    v,
                    s.0,
                    s.1,
                ) && (exists|j: int| 0 <= j < i + 1 && names[j] == s.0) by {
                    if before.contains_key(s) {
                        let j = choose|j: int| 0 <= j < i && names[j] == s.0;
                        assert(0 <= j < i + 1 && names[j] == s.0);
                    } else {
                        assert(names[i as int] == s.0);
                    }
                }
            }
            i += 1;
        }
        proof {
            assert forall|q: Seq<char>| #[trigger] v.budgets.contains_key(q) implies targets_from(
                allocator,
                v,
                q,
                targets@,
            ) by {
                let j = choose|j: int| 0 <= j < names.len() && names[j] == q;
                assert(targets_from(allocator, v, names[j], targets@));
            }
        }
        targets
    }

    /// Recomputes the desired state out of what was last reported and puts it
    /// in force.
    pub fn reconcile(&mut self) -> (result: Result<(), PreconditionError>)
        requires
            old(self)@.generation < u64::MAX,
        ensures
            reconciled(
                old(self).own_allocator(),
                old(self)@,
                final(self)@,
                rejection_in(result),
            ),
            final(self).rejection() == rejection_in(result),
            final(self).own_proxy() == old(self).own_proxy(),
            final(self).own_allocator() == old(self).own_allocator(),
    {
        self.track_idle();
        let targets = self.targets();
        let ghost v = self@;
        let result = self.settle(&targets);
        assert(allocated(self.own_allocator(), v, targets@));
        result
    }
}


/// The entries of a map whose place is not of that proxy.
fn demand_without(demand: &OrdMap<Place, u32>, proxy: &ProxyId) -> (kept: OrdMap<Place, u32>)
    ensures
        kept@ == Map::new(
            |p: PlaceName| demand@.contains_key(p) && p.1.1 != proxy@,
            |p: PlaceName| demand@[p],
        ),
{
    let mut kept: OrdMap<Place, u32> = OrdMap::new();
    let n: usize = demand.len();
    let ghost keys = demand.keys();
    let mut i: usize = 0;
    while i < n
        invariant
            n == keys.len(),
            i <= n,
            keys == demand.keys(),
            lists::<Place, u32>(keys, demand@),
            forall|p: PlaceName| #[trigger]
                kept@.contains_key(p) <==> p.1.1 != proxy@ && (exists|j: int|
                    0 <= j < i && keys[j] == p),
            forall|p: PlaceName| #[trigger] kept@.contains_key(p) ==> kept@[p] == demand@[p],
        decreases n - i,
    {
        let place = demand.key_at(i);
        let ghost was = kept@;
        if !same_key(place.holder.proxy(), proxy) {
            kept.insert(place.dup(), *demand.value_at(i));
        }
        proof {
            assert forall|p: PlaceName| #[trigger]
                kept@.contains_key(p) <==> p.1.1 != proxy@ && (exists|j: int|
                    0 <= j < i + 1 && keys[j] == p) by {
                if was.contains_key(p) {
                    let j = choose|j: int| 0 <= j < i && keys[j] == p;
                    assert(0 <= j < i + 1 && keys[j] == p);
                }
                if p == place@ {
                    assert(keys[i as int] == p);
                }
            }
        }
        i += 1;
    }
    proof {
        let all = Map::new(
            |p: PlaceName| demand@.contains_key(p) && p.1.1 != proxy@,
            |p: PlaceName| demand@[p],
        );
        assert(kept@ =~= all) by {
            assert forall|p: PlaceName| kept@.contains_key(p) == all.contains_key(p) by {
                if all.contains_key(p) {
                    let j = choose|j: int| 0 <= j < keys.len() && keys[j] == p;
                    assert(0 <= j < i && keys[j] == p);
                }
                if kept@.contains_key(p) {
                    let j = choose|j: int| 0 <= j < i && keys[j] == p;
                    assert(demand@.contains_key(keys[j]));
                }
            }
        }
    }
    kept
}

/// The entries of a map whose place is not of that proxy.
fn held_without(held: &OrdMap<Place, Held>, proxy: &ProxyId) -> (kept: OrdMap<Place, Held>)
    ensures
        kept@ == Map::new(
            |p: PlaceName| held@.contains_key(p) && p.1.1 != proxy@,
            |p: PlaceName| held@[p],
        ),
{
    let mut kept: OrdMap<Place, Held> = OrdMap::new();
    let n: usize = held.len();
    let ghost keys = held.keys();
    let mut i: usize = 0;
    while i < n
        invariant
            n == keys.len(),
            i <= n,
            keys == held.keys(),
            lists::<Place, Held>(keys, held@),
            forall|p: PlaceName| #[trigger]
                kept@.contains_key(p) <==> p.1.1 != proxy@ && (exists|j: int|
                    0 <= j < i && keys[j] == p),
            forall|p: PlaceName| #[trigger] kept@.contains_key(p) ==> kept@[p] == held@[p],
        decreases n - i,
    {
        let place = held.key_at(i);
        let ghost was = kept@;
        if !same_key(place.holder.proxy(), proxy) {
            kept.insert(place.dup(), *held.value_at(i));
        }
        proof {
            assert forall|p: PlaceName| #[trigger]
                kept@.contains_key(p) <==> p.1.1 != proxy@ && (exists|j: int|
                    0 <= j < i + 1 && keys[j] == p) by {
                if was.contains_key(p) {
                    let j = choose|j: int| 0 <= j < i && keys[j] == p;
                    assert(0 <= j < i + 1 && keys[j] == p);
                }
                if p == place@ {
                    assert(keys[i as int] == p);
                }
            }
        }
        i += 1;
    }
    proof {
        let all = Map::new(
            |p: PlaceName| held@.contains_key(p) && p.1.1 != proxy@,
            |p: PlaceName| held@[p],
        );
        assert(kept@ =~= all) by {
            assert forall|p: PlaceName| kept@.contains_key(p) == all.contains_key(p) by {
                if all.contains_key(p) {
                    let j = choose|j: int| 0 <= j < keys.len() && keys[j] == p;
                    assert(0 <= j < i && keys[j] == p);
                }
                if kept@.contains_key(p) {
                    let j = choose|j: int| 0 <= j < i && keys[j] == p;
                    assert(held@.contains_key(keys[j]));
                }
            }
        }
    }
    kept
}

impl<A> InProcessCoordinator<A> {
    /// What the proxies ask for once `report` of `proxy` is taken in.
    fn demand_reported(&self, proxy: &ProxyId, report: &Report) -> (demand: OrdMap<Place, u32>)
        ensures
            demand@ == self@.reported(proxy@, report@).demand,
    {
        let mut demand = demand_without(&self.demand, proxy);
        let ghost others = demand@;
        let usage = report.all();
        let n: usize = usage.len();
        let ghost keys = usage.keys();
        let mut i: usize = 0;
        while i < n
            invariant
                n == keys.len(),
                i <= n,
                keys == usage.keys(),
                lists::<Slot, Usage>(keys, usage@),
                usage@ == report@.usage,
                forall|p: PlaceName| #[trigger] others.contains_key(p) ==> p.1.1 != proxy@,
                forall|p: PlaceName| #[trigger]
                    demand@.contains_key(p) <==> others.contains_key(p) || (p.1.1 == proxy@ && (
                    exists|j: int| 0 <= j < i && keys[j] == (p.0, p.1.0))),
                forall|p: PlaceName| #[trigger]
                    demand@.contains_key(p) ==> demand@[p] == (if p.1.1 == proxy@ {
                        report@.usage[(p.0, p.1.0)].demand
                    } else {
                        others[p]
                    }),
            decreases n - i,
        {
            let slot = usage.key_at(i);
            let asked: u32 = usage.value_at(i).demand;
            let ghost was = demand@;
            demand.insert(
                Place {
                    instance: slot.instance.clone(),
                    holder: Holder::new(slot.tenant.clone(), proxy.clone()),
                },
                asked,
            );
            proof {
                let p0 = (slot@.0, (slot@.1, proxy@));
                assert(demand@ == was.insert(p0, asked));
                assert forall|p: PlaceName| #[trigger]
                    demand@.contains_key(p) <==> others.contains_key(p) || (p.1.1 == proxy@ && (
                    exists|j: int| 0 <= j < i + 1 && keys[j] == (p.0, p.1.0))) by {
                    if p == p0 {
                        assert(keys[i as int] == (p.0, p.1.0));
                    }
                    if was.contains_key(p) && !others.contains_key(p) {
                        let j = choose|j: int| 0 <= j < i && keys[j] == (p.0, p.1.0);
                        assert(0 <= j < i + 1 && keys[j] == (p.0, p.1.0));
                    }
                    if p.1.1 == proxy@ && keys[i as int] == (p.0, p.1.0) {
                        assert(p == p0);
                    }
                }
            }
            i += 1;
        }
        proof {
            let all = self@.reported(proxy@, report@).demand;
            assert(demand@ =~= all) by {
                assert forall|p: PlaceName| demand@.contains_key(p) == all.contains_key(p) by {
                    let s = (p.0, p.1.0);
                    if report@.usage.contains_key(s) {
                        let j = choose|j: int| 0 <= j < keys.len() && keys[j] == s;
                        assert(0 <= j < i && keys[j] == (p.0, p.1.0));
                    }
                    if demand@.contains_key(p) && p.1.1 == proxy@ {
                        let j = choose|j: int| 0 <= j < i && keys[j] == (p.0, p.1.0);
                        assert(usage@.contains_key(keys[j]));
                    }
                }
            }
        }
        demand
    }

    /// What the holders may still have once `report` of `proxy` is taken in.
    fn held_reported(&self, proxy: &ProxyId, report: &Report) -> (held: OrdMap<Place, Held>)
        ensures
            held@ == self@.reported(proxy@, report@).held,
    {
        let mut held: OrdMap<Place, Held> = OrdMap::new();
        let ghost v = self@;
        let ghost r = report@;
        let n: usize = self.held.len();
        let ghost keys = self.held.keys();
        let mut i: usize = 0;
        while i < n
            invariant
                n == keys.len(),
                i <= n,
                keys == self.held.keys(),
                lists::<Place, Held>(keys, self.held@),
                v == self@,
                r == report@,
                forall|p: PlaceName| #[trigger]
                    held@.contains_key(p) <==> (exists|j: int| 0 <= j < i && keys[j] == p),
                forall|p: PlaceName| #[trigger]
                    held@.contains_key(p) ==> held@[p] == (Held {
                        changed_at: v.held[p].changed_at,
                        occupied: v.occupied_reported(proxy@, r, p),
                    }),
            decreases n - i,
        {
            let place = self.held.key_at(i);
            let was: Held = *self.held.value_at(i);
            let mut occupied: u32 = was.occupied;
            if same_key(place.holder.proxy(), proxy) && report.generation() >= was.changed_at {
                let actual: u32 = report.get(&place.instance, place.holder.tenant()).actual;
                let slots: u32 = self.table.granted(&place.instance, &place.holder);
                occupied = if actual > slots { actual } else { slots };
            }
            let ghost earlier = held@;
            assert(occupied == v.occupied_reported(proxy@, r, place@));
            held.insert(place.dup(), Held { changed_at: was.changed_at, occupied });
            proof {
                assert forall|p: PlaceName| #[trigger]
                    held@.contains_key(p) <==> (exists|j: int| 0 <= j < i + 1 && keys[j] == p) by {
                    if p == place@ {
                        assert(keys[i as int] == p);
                    }
                    if earlier.contains_key(p) {
                        let j = choose|j: int| 0 <= j < i && keys[j] == p;
                        assert(0 <= j < i + 1 && keys[j] == p);
                    }
                }
            }
            i += 1;
        }
        let granted = place_grants(&self.table);
        let kept = retained(&held, &granted);
        proof {
            use_type_invariant(&self.table);
            self.table.lemma_wf();
            let all = v.reported(proxy@, r).held;
            assert(kept@ =~= all) by {
                assert forall|p: PlaceName| kept@.contains_key(p) == all.contains_key(p) by {
                    assert(granted@.contains_key(p) == (table_slots(v.table, p.0, p.1) > 0));
                    if self.held@.contains_key(p) {
                        let j = choose|j: int| 0 <= j < keys.len() && keys[j] == p;
                        assert(0 <= j < i && keys[j] == p);
                        assert(held@.contains_key(p));
                    }
                    if held@.contains_key(p) {
                        let j = choose|j: int| 0 <= j < i && keys[j] == p;
                        assert(self.held@.contains_key(keys[j]));
                    }
                }
            }
        }
        kept
    }

    /// Takes in what a proxy reports.
    pub fn report_from(&mut self, proxy: &ProxyId, report: &Report)
        ensures
            final(self)@ == old(self)@.reported(proxy@, report@),
            final(self).own_proxy() == old(self).own_proxy(),
            final(self).rejection() == old(self).rejection(),
            final(self).own_allocator() == old(self).own_allocator(),
    {
        let ghost v = self@;
        let demand = self.demand_reported(proxy, report);
        let held = self.held_reported(proxy, report);
        self.demand = demand;
        self.held = held;
        self.reports = self.reports.wrapping_add(1);
        assert(self@ =~= v.reported(proxy@, report@));
    }

    /// Takes in what the coordinator's own proxy reports.
    pub fn report(&mut self, report: &Report)
        ensures
            final(self)@ == old(self)@.reported(old(self).own_proxy(), report@),
            final(self).own_proxy() == old(self).own_proxy(),
            final(self).rejection() == old(self).rejection(),
            final(self).own_allocator() == old(self).own_allocator(),
    {
        let proxy = self.proxy.clone();
        self.report_from(&proxy, report);
    }

    /// The grants of a proxy.
    pub fn grants_of(&self, proxy: &ProxyId) -> (set: GrantSet)
        ensures
            set@ == self@.grants_of(proxy@),
    {
        let list = self.table.grants_for(proxy);
        let ghost keys = grant_keys(list@);
        let ghost all = proxy_grants(self@.table, proxy@);
        let mut grants: OrdMap<Slot, u32> = OrdMap::new();
        let mut i: usize = 0;
        while i < list.len()
            invariant
                i <= list@.len(),
                keys == grant_keys(list@),
                grant_list(list@, all),
                forall|s: SlotName| #[trigger]
                    grants@.contains_key(s) <==> (exists|j: int| 0 <= j < i && keys[j] == s),
                forall|s: SlotName| #[trigger] grants@.contains_key(s) ==> grants@[s] == all[s],
            decreases list@.len() - i,
        {
            let (instance, tenant, slots) = &list[i];
            let ghost was = grants@;
            grants.insert(
                Slot { instance: (*instance).clone(), tenant: (*tenant).clone() },
                *slots,
            );
            proof {
                let s0 = keys[i as int];
                assert(s0 == (instance@, tenant@));
                assert(grants@ == was.insert(s0, *slots));
                assert forall|s: SlotName| #[trigger]
                    grants@.contains_key(s) <==> (exists|j: int| 0 <= j < i + 1 && keys[j] == s) by {
                    if s == s0 {
                        assert(keys[i as int] == s);
                    }
                    if was.contains_key(s) {
                        let j = choose|j: int| 0 <= j < i && keys[j] == s;
                        assert(0 <= j < i + 1 && keys[j] == s);
                    }
                }
            }
            i += 1;
        }
        proof {
            assert(grants@ =~= all) by {
                assert forall|s: SlotName| grants@.contains_key(s) == all.contains_key(s) by {
                    if all.contains_key(s) {
                        let j = choose|j: int| 0 <= j < keys.len() && keys[j] == s;
                        assert(0 <= j < i && keys[j] == s);
                    }
                    if grants@.contains_key(s) {
                        let j = choose|j: int| 0 <= j < i && keys[j] == s;
                        assert(all.contains_key(keys[j]));
                    }
                }
            }
        }
        let generation: u64 = match self.generations.get(proxy) {
            Some(generation) => *generation,
            None => 0,
        };
        proof {
            use_type_invariant(&self.table);
            self.table.lemma_wf();
        }
        GrantSet::new(generation, grants)
    }

    /// The grants of the coordinator's own proxy.
    pub fn grants(&self) -> (set: GrantSet)
        ensures
            set@ == self@.grants_of(self.own_proxy()),
    {
        self.grants_of(&self.proxy)
    }

    /// How often the desired state has moved.
    pub fn generation(&self) -> (generation: u64)
        ensures
            generation == self@.generation,
    {
        self.generation
    }

    /// How many reports were taken in. A setting that waits for the proxies to
    /// converge looks again when it moves, since a report is the only thing
    /// that tells the coordinator a connection is gone.
    pub fn reports(&self) -> (count: u64)
        ensures
            count == self@.reports,
    {
        self.reports
    }

    /// How long a grant stays idle before it may be taken back.
    pub fn with_release_delay(self, delay: Duration) -> (coordinator: Self)
        ensures
            coordinator@ == (CoordinatorView { release_delay: delay@, ..self@ }),
            coordinator.own_proxy() == self.own_proxy(),
            coordinator.own_allocator() == self.own_allocator(),
            coordinator.rejection() == self.rejection(),
    {
        let mut coordinator = self;
        coordinator.release_delay = delay;
        coordinator
    }

    /// Takes `instance` under the coordinator with the total budget derived
    /// for it. The budget is derived here rather than reported as a number,
    /// because the margin it deducts is a cluster setting an operator writes
    /// and a setting has one home.
    pub fn add_instance(&mut self, instance: InstanceId, budget: InstanceBudget)
        ensures
            final(self)@ == (CoordinatorView {
                budgets: old(self)@.budgets.insert(instance@, budget@),
                ..old(self)@
            }),
            final(self).own_proxy() == old(self).own_proxy(),
            final(self).rejection() == old(self).rejection(),
            final(self).own_allocator() == old(self).own_allocator(),
    {
        self.budgets.insert(instance, budget);
    }

    /// Re-derives an instance's total budget from the connections that belong
    /// to someone else, and answers which way it moved. An instance the
    /// coordinator does not hold is not observed at all.
    pub fn observe_instance(
        &mut self,
        instance: &InstanceId,
        at: Instant,
        foreign_connections: u32,
    ) -> (change: Option<BudgetChange>)
        ensures
            change is Some <==> old(self)@.budgets.contains_key(instance@),
            change is None ==> final(self)@ == old(self)@,
            change matches Some(moved) ==> {
                let before = old(self)@.budgets[instance@];
                let after = before.observed(at@, foreign_connections);
                &&& final(self)@ == (CoordinatorView {
                    budgets: old(self)@.budgets.insert(instance@, after),
                    ..old(self)@
                })
                &&& moved == change_between(before.total(), after.total())
            },
            final(self).own_proxy() == old(self).own_proxy(),
            final(self).rejection() == old(self).rejection(),
            final(self).own_allocator() == old(self).own_allocator(),
    {
        let mut budget = match self.budgets.get(instance) {
            Some(budget) => budget.dup(),
            None => return None,
        };
        let change = budget.observe(at, foreign_connections);
        self.budgets.insert(instance.clone(), budget);
        Some(change)
    }

    /// Each instance's total budget together with the parts it was derived
    /// from, in the order the instances are named.
    pub fn instances(&self) -> (list: Vec<(InstanceId, TotalBudget)>)
        ensures
            lists::<InstanceId, BudgetView>(
                Seq::new(list@.len(), |k: int| list@[k].0@),
                self@.budgets,
            ),
            forall|k: int|
                0 <= k < list@.len() ==> (#[trigger] list@[k]).1@
                    == self@.budgets[list@[k].0@].inputs(),
    {
        let mut list: Vec<(InstanceId, TotalBudget)> = Vec::new();
        let n: usize = self.budgets.len();
        let ghost names = self.budgets.keys();
        let mut i: usize = 0;
        while i < n
            invariant
                n == names.len(),
                i <= n,
                names == self.budgets.keys(),
                lists::<InstanceId, BudgetView>(names, self.budgets@),
                list@.len() == i,
                forall|k: int|
                    0 <= k < i ==> (#[trigger] list@[k]).0@ == names[k] && list@[k].1@
                        == self.budgets@[names[k]].inputs(),
            decreases n - i,
        {
            list.push((self.budgets.key_at(i).clone(), self.budgets.value_at(i).current()));
            i += 1;
        }
        proof {
            assert(Seq::new(list@.len(), |k: int| list@[k].0@) =~= names);
        }
        list
    }

    pub fn set_policies(&mut self, policies: Policies)
        ensures
            final(self)@ == (CoordinatorView { policies: policies@, ..old(self)@ }),
            final(self).own_proxy() == old(self).own_proxy(),
            final(self).rejection() == old(self).rejection(),
            final(self).own_allocator() == old(self).own_allocator(),
    {
        self.policies = policies;
    }

    pub fn policies(&self) -> (policies: Policies)
        ensures
            policies@ == self@.policies,
    {
        self.policies.clone()
    }

    /// The total budget of each instance that a rule lists, in that order.
    fn budgets_for(&self, instances: &Vec<InstanceId>) -> (answers: Vec<Option<u32>>)
        ensures
            answers@ == self@.budgets_of(instance_names(instances@)),
    {
        let ghost names = instance_names(instances@);
        let mut answers: Vec<Option<u32>> = Vec::new();
        let mut i: usize = 0;
        while i < instances.len()
            invariant
                i <= instances@.len(),
                names == instance_names(instances@),
                answers@.len() == i,
                forall|k: int| 0 <= k < i ==> #[trigger] answers@[k] == self@.budgets_of(names)[k],
            decreases instances@.len() - i,
        {
            assert(names[i as int] == instances@[i as int]@);
            let answer: Option<u32> = match self.budgets.get(&instances[i]) {
                Some(budget) => Some(budget.current().total()),
                None => None,
            };
            answers.push(answer);
            i += 1;
        }
        assert(answers@ =~= self@.budgets_of(names));
        answers
    }
}

impl<A: Allocator> InProcessCoordinator<A> {
    /// Recomputes the desired state as of the moment `now`.
    pub fn reconcile_at(&mut self, now: Instant) -> (result: Result<(), PreconditionError>)
        requires
            old(self)@.generation < u64::MAX,
        ensures
            reconciled(
                old(self).own_allocator(),
                CoordinatorView { now: Some(now@), ..old(self)@ },
                final(self)@,
                rejection_in(result),
            ),
            final(self).rejection() == rejection_in(result),
            final(self).own_proxy() == old(self).own_proxy(),
            final(self).own_allocator() == old(self).own_allocator(),
    {
        let ghost v = self@;
        self.now = Some(now);
        assert(self@ =~= CoordinatorView { now: Some(now@), ..v });
        self.reconcile()
    }

    /// Writes one tenant rule of the cluster configuration and recomputes the
    /// desired state from it, so that a setting an operator wrote is in force
    /// when the command is answered rather than at the next round.
    pub fn set_tenant(&mut self, tenant: &str, change: PolicyChange) -> (result: Result<
        (),
        SettingError,
    >)
        requires
            old(self)@.generation < u64::MAX,
        ensures
            match old(self)@.tenant_change(tenant@, change) {
                Err(refusal) => {
                    &&& result matches Err(error) && error@ == refusal
                    &&& final(self)@ == old(self)@
                    &&& final(self).rejection() == old(self).rejection()
                },
                Ok(policies) => {
                    &&& result is Ok
                    &&& reconciled(
                        old(self).own_allocator(),
                        CoordinatorView { policies, ..old(self)@ },
                        final(self)@,
                        final(self).rejection(),
                    )
                },
            },
            final(self).own_proxy() == old(self).own_proxy(),
            final(self).own_allocator() == old(self).own_allocator(),
    {
        let ghost v = self@;
        let answers = match self.policies.rule(tenant) {
            Some(rule) => self.budgets_for(&rule.instances),
            None => Vec::new(),
        };
        match self.policies.change_tenant_within(tenant, change, &answers) {
            Ok(policies) => {
                self.policies = policies;
                assert(self@ =~= CoordinatorView { policies: policies@, ..v });
                let _ = self.reconcile();
                Ok(())
            },
            Err(error) => Err(error),
        }
    }

    /// Writes the margin an instance's total budget is derived with, and
    /// answers which way the budget moved.
    ///
    /// A margin that grows the budget is in force as soon as the desired state
    /// has been computed from it. A margin that shrinks it is not: until the
    /// proxies have closed what they hold above the new budget, the instance
    /// carries more connections than the setting allows, so whoever answers the
    /// setting waits for [`InProcessCoordinator::within_budget`].
    pub fn set_margin(&mut self, instance: &InstanceId, margin: u32) -> (result: Result<
        BudgetChange,
        SettingError,
    >)
        requires
            old(self)@.generation < u64::MAX,
        ensures
            match old(self)@.margin_refused(instance@, margin) {
                Some(refusal) => {
                    &&& result matches Err(error) && error@ == refusal
                    &&& final(self)@ == old(self)@
                    &&& final(self).rejection() == old(self).rejection()
                },
                None => {
                    let written = old(self)@.with_margin(instance@, margin);
                    &&& result matches Ok(change) && change == change_between(
                        old(self)@.budgets[instance@].total(),
                        written.budgets[instance@].total(),
                    )
                    &&& reconciled(
                        old(self).own_allocator(),
                        written,
                        final(self)@,
                        final(self).rejection(),
                    )
                },
            },
            final(self).own_proxy() == old(self).own_proxy(),
            final(self).own_allocator() == old(self).own_allocator(),
    {
        let ghost v = self@;
        let mut budget = match self.budgets.get(instance) {
            Some(budget) => budget.dup(),
            None => return Err(SettingError::NoSuchInstance { instance: instance.clone() }),
        };
        let derived: u32 = budget.with_margin(margin).total();
        let minimums: u32 = self.policies.minimums_on(instance);
        if minimums > derived {
            return Err(
                SettingError::AboveBudget { instance: instance.clone(), minimums, budget: derived },
            );
        }
        let change = budget.set_margin(margin);
        self.budgets.insert(instance.clone(), budget);
        assert(self@ =~= v.with_margin(instance@, margin));
        let _ = self.reconcile();
        Ok(change)
    }

    /// Gives every grant `proxy` holds back to its instances, and leaves it
    /// granted nothing from then on.
    ///
    /// A proxy that is stopping calls it once the connections behind those
    /// grants are closed. From this moment the slots are free for another
    /// holder to open into, so a proxy that still held its connections would
    /// put the instance over its total budget.
    pub fn withdraw_proxy(&mut self, proxy: &ProxyId)
        requires
            old(self)@.generation < u64::MAX,
        ensures
            reconciled(
                old(self).own_allocator(),
                old(self)@.without(proxy@),
                final(self)@,
                final(self).rejection(),
            ),
            final(self).own_proxy() == old(self).own_proxy(),
            final(self).own_allocator() == old(self).own_allocator(),
    {
        let ghost v = self@;
        let demand = demand_without(&self.demand, proxy);
        let held = held_without(&self.held, proxy);
        self.departed.insert(proxy.clone(), 0);
        self.demand = demand;
        self.held = held;
        assert(self@ =~= v.without(proxy@));
        let _ = self.reconcile();
    }

    /// Gives back what the coordinator's own proxy holds.
    pub fn withdraw(&mut self)
        requires
            old(self)@.generation < u64::MAX,
        ensures
            reconciled(
                old(self).own_allocator(),
                old(self)@.without(old(self).own_proxy()),
                final(self)@,
                final(self).rejection(),
            ),
            final(self).own_proxy() == old(self).own_proxy(),
            final(self).own_allocator() == old(self).own_allocator(),
    {
        let proxy = self.proxy.clone();
        self.withdraw_proxy(&proxy);
    }

    /// The way by which another proxy learns what it may hold and tells what it
    /// holds.
    pub fn channel(&self, proxy: ProxyId) -> (channel: ProxyChannel)
        ensures
            channel@ == proxy@,
    {
        ProxyChannel { proxy }
    }
}

/// One proxy's way to the coordinator.
///
/// The proxy never decides a grant. It receives them here and reports its
/// demand and its actual connections back.
#[derive(Debug, PartialEq, Eq)]
pub struct ProxyChannel {
    proxy: ProxyId,
}

impl View for ProxyChannel {
    type V = Seq<char>;

    /// The proxy's name.
    closed spec fn view(&self) -> Seq<char> {
        self.proxy@
    }
}

impl ProxyChannel {
    pub fn proxy(&self) -> (proxy: &ProxyId)
        ensures
            proxy@ == self@,
    {
        &self.proxy
    }

    /// What the proxy is granted.
    pub fn grants<A>(&self, coordinator: &InProcessCoordinator<A>) -> (set: GrantSet)
        ensures
            set@ == coordinator@.grants_of(self@),
    {
        coordinator.grants_of(&self.proxy)
    }

    /// Tells what the proxy asks for and holds.
    pub fn report<A>(&self, coordinator: &mut InProcessCoordinator<A>, report: &Report)
        ensures
            final(coordinator)@ == old(coordinator)@.reported(self@, report@),
            final(coordinator).own_proxy() == old(coordinator).own_proxy(),
            final(coordinator).own_allocator() == old(coordinator).own_allocator(),
            final(coordinator).rejection() == old(coordinator).rejection(),
    {
        coordinator.report_from(&self.proxy, report);
    }

    /// Gives back what the proxy holds.
    pub fn withdraw<A: Allocator>(&self, coordinator: &mut InProcessCoordinator<A>)
        requires
            old(coordinator)@.generation < u64::MAX,
        ensures
            reconciled(
                old(coordinator).own_allocator(),
                old(coordinator)@.without(self@),
                final(coordinator)@,
                final(coordinator).rejection(),
            ),
            final(coordinator).own_proxy() == old(coordinator).own_proxy(),
            final(coordinator).own_allocator() == old(coordinator).own_allocator(),
    {
        coordinator.withdraw_proxy(&self.proxy);
    }
}

} // verus!
