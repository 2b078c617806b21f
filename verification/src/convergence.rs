//! The pools of a proxy, one for each instance and tenant, and how they follow
//! the grants.
use vstd::prelude::*;

use crate::allocation::{InstanceId, Slot, SlotName};
use crate::grant::{GrantSet, GrantsView, Report, Usage};
use crate::order::Dup;
use crate::ordmap::{lists, OrdMap};
use crate::pool::PoolStats;
use crate::tenant::TenantId;

verus! {

/// A pool as an entry of the map of all pools.
#[derive(Debug)]
struct Item<P> {
    pool: P,
}

impl<P> View for Item<P> {
    type V = P;

    closed spec fn view(&self) -> P {
        self.pool
    }
}

/// A count, or the largest that fits 32 bits.
pub open spec fn saturated(count: nat) -> u32 {
    if count > u32::MAX {
        u32::MAX
    } else {
        count as u32
    }
}

fn saturate(count: usize) -> (n: u32)
    ensures
        n == saturated(count as nat),
{
    if count > u32::MAX as usize {
        u32::MAX
    } else {
        count as u32
    }
}

/// What is reported of a pool: what its clients ask for, and every connection
/// that the instance may hold. A connection that is still opening counts: the
/// instance may already hold it, and a slot reported free while one is on its
/// way would be granted to someone else.
pub open spec fn measured(stats: PoolStats) -> Usage {
    Usage {
        demand: saturated(stats.demand_count()),
        actual: saturated(stats.occupied_count()),
    }
}

/// Whether the counts of a pool can be added up.
pub open spec fn countable(stats: PoolStats) -> bool {
    stats.demand_count() <= usize::MAX && stats.occupied_count() <= usize::MAX
}

/// What is granted to a tenant on an instance.
pub open spec fn granted_in(grants: GrantsView, slot: SlotName) -> u32 {
    if grants.grants.contains_key(slot) {
        grants.grants[slot]
    } else {
        0
    }
}

/// The proxy's pools, one per instance and tenant, each sized by the grant it
/// is given and nothing else.
///
/// A pool exists only while its tenant is in use here: it is opened by the
/// first client that needs it and dropped by the convergence that finds it
/// without a grant, without a connection and without anyone holding it.
#[derive(Debug)]
pub struct ProxyPools<P> {
    pools: OrdMap<Slot, Item<P>>,
}

impl<P> View for ProxyPools<P> {
    type V = Map<SlotName, P>;

    closed spec fn view(&self) -> Map<SlotName, P> {
        self.pools@
    }
}

/// Whether the `k`-th pool has no grant and is not in use.
pub open spec fn unneeded(
    grants: GrantsView,
    keys: Seq<SlotName>,
    unused: Seq<bool>,
    k: int,
) -> bool {
    granted_in(grants, keys[k]) == 0 && unused[k]
}

/// The instances and tenants of some slots.
pub open spec fn slot_names(slots: Seq<&Slot>) -> Seq<SlotName> {
    Seq::new(slots.len(), |k: int| slots[k]@)
}

impl<P> ProxyPools<P> {
    /// The instances and tenants of the pools, in order.
    pub closed spec fn keys(&self) -> Seq<SlotName> {
        self.pools.keys()
    }

    pub fn new() -> (pools: Self)
        ensures
            pools@ == Map::<SlotName, P>::empty(),
    {
        ProxyPools { pools: OrdMap::new() }
    }

    /// Puts a pool in place for a tenant on an instance.
    pub fn insert(&mut self, instance: InstanceId, tenant: TenantId, pool: P)
        ensures
            final(self)@ == old(self)@.insert((instance@, tenant@), pool),
    {
        self.pools.insert(Slot { instance, tenant }, Item { pool });
    }

    /// The pool of a tenant on an instance.
    pub fn get(&self, instance: &InstanceId, tenant: &TenantId) -> (pool: Option<&P>)
        ensures
            pool is Some <==> self@.contains_key((instance@, tenant@)),
            pool matches Some(p) ==> *p == self@[(instance@, tenant@)],
    {
        match self.pools.get(&Slot { instance: instance.clone(), tenant: tenant.clone() }) {
            Some(item) => Some(&item.pool),
            None => None,
        }
    }

    /// The pool of a tenant on an instance, opened by the first client that
    /// needs it.
    pub fn checkout<F: FnOnce() -> P>(
        &mut self,
        instance: &InstanceId,
        tenant: &TenantId,
        open: F,
    ) -> (opened: bool)
        requires
            open.requires(()),
        ensures
            opened == !old(self)@.contains_key((instance@, tenant@)),
            !opened ==> final(self)@ == old(self)@,
            opened ==> exists|pool: P| #[trigger]
                open.ensures((), pool) && final(self)@ == old(self)@.insert(
                    (instance@, tenant@),
                    pool,
                ),
    {
        let slot = Slot { instance: instance.clone(), tenant: tenant.clone() };
        if self.pools.contains(&slot) {
            return false;
        }
        let pool = open();
        self.pools.insert(slot, Item { pool });
        true
    }

    pub fn len(&self) -> (n: usize)
        ensures
            n == self@.dom().len(),
            n == self.keys().len(),
            lists::<Slot, P>(self.keys(), self@),
    {
        self.pools.len()
    }

    pub fn is_empty(&self) -> (b: bool)
        ensures
            b == (self@.dom().len() == 0),
    {
        self.pools.len() == 0
    }

    /// The instances and tenants of the pools, in order.
    pub fn slots(&self) -> (slots: Vec<&Slot>)
        ensures
            slot_names(slots@) == self.keys(),
            lists::<Slot, P>(self.keys(), self@),
    {
        let mut slots: Vec<&Slot> = Vec::new();
        let n: usize = self.pools.len();
        let mut i: usize = 0;
        while i < n
            invariant
                n == self.pools.keys().len(),
                i <= n,
                slots@.len() == i,
                forall|k: int| 0 <= k < i ==> (#[trigger] slots@[k])@ == self.pools.keys()[k],
            decreases n - i,
        {
            slots.push(self.pools.key_at(i));
            i += 1;
        }
        assert(slot_names(slots@) =~= self.keys());
        slots
    }

    /// The report of what was measured of every pool, in the order of the
    /// pools, against the grants of `generation`.
    pub fn report(&self, generation: u64, stats: &Vec<PoolStats>) -> (report: Report)
        requires
            stats@.len() == self.keys().len(),
            forall|k: int| 0 <= k < stats@.len() ==> countable(#[trigger] stats@[k]),
        ensures
            report@.generation == generation,
            report@.usage.dom() == self@.dom(),
            forall|k: int|
                0 <= k < stats@.len() ==> report@.usage[#[trigger] self.keys()[k]] == measured(
                    stats@[k],
                ),
    {
        let mut report = Report::new(generation);
        let n: usize = self.pools.len();
        let ghost keys = self.pools.keys();
        let mut i: usize = 0;
        while i < n
            invariant
                n == keys.len(),
                i <= n,
                keys == self.pools.keys(),
                keys == self.keys(),
                lists::<Slot, P>(keys, self.pools@),
                stats@.len() == n,
                forall|k: int| 0 <= k < stats@.len() ==> countable(#[trigger] stats@[k]),
                report@.generation == generation,
                forall|s: SlotName| #[trigger]
                    report@.usage.contains_key(s) <==> (exists|j: int| 0 <= j < i && keys[j] == s),
                forall|k: int|
                    0 <= k < i ==> report@.usage[#[trigger] keys[k]] == measured(stats@[k]),
            decreases n - i,
        {
            let slot = self.pools.key_at(i);
            let of = stats[i];
            let usage = Usage { demand: saturate(of.demand()), actual: saturate(of.occupied()) };
            let ghost was = report@;
            report = report.usage(slot.instance.clone(), slot.tenant.clone(), usage);
            proof {
                assert(report@.usage == was.usage.insert(keys[i as int], usage));
            }
            i += 1;
        }
        proof {
            assert(report@.usage.dom() =~= self@.dom()) by {
                assert forall|s: SlotName| report@.usage.dom().contains(s) == self@.dom().contains(
                    s,
                ) by {
                    if self@.contains_key(s) {
                        let j = choose|j: int| 0 <= j < keys.len() && keys[j] == s;
                        assert(0 <= j < i && keys[j] == s);
                    }
                    if report@.usage.contains_key(s) {
                        let j = choose|j: int| 0 <= j < i && keys[j] == s;
                        assert(self.pools@.contains_key(keys[j]));
                    }
                }
            }
        }
        report
    }

    /// Drops the pools that have no grant and are not in use; `unused` says for
    /// each, in order, whether nothing is in it and nobody holds it.
    pub fn drop_unused(&mut self, grants: &GrantSet, unused: &Vec<bool>)
        requires
            unused@.len() == old(self).keys().len(),
        ensures
            final(self)@.dom().subset_of(old(self)@.dom()),
            forall|s: SlotName| #[trigger]
                final(self)@.contains_key(s) ==> final(self)@[s] == old(self)@[s],
            forall|k: int|
                0 <= k < unused@.len() ==> final(self)@.contains_key(
                    #[trigger] old(self).keys()[k],
                ) == !unneeded(grants@, old(self).keys(), unused@, k),
    {
        let n: usize = self.pools.len();
        let ghost before = self.pools@;
        let ghost keys = self.pools.keys();
        let mut gone: OrdMap<Slot, u32> = OrdMap::new();
        let mut i: usize = 0;
        while i < n
            invariant
                n == keys.len(),
                i <= n,
                n == unused@.len(),
                keys == self.pools.keys(),
                before == self.pools@,
                *self == *old(self),
                lists::<Slot, P>(keys, before),
                forall|s: SlotName| #[trigger]
                    gone@.contains_key(s) <==> exists|k: int|
                        0 <= k < i && keys[k] == s && unneeded(grants@, keys, unused@, k),
            decreases n - i,
        {
            let slot = self.pools.key_at(i);
            let ghost was = gone@;
            if grants.get(&slot.instance, &slot.tenant) == 0 && unused[i] {
                gone.insert(slot.dup(), 0);
            }
            proof {
                assert forall|s: SlotName| #[trigger]
                    gone@.contains_key(s) <==> exists|k: int|
                        0 <= k < i + 1 && keys[k] == s && unneeded(grants@, keys, unused@, k) by {
                    if was.contains_key(s) {
                        let k = choose|k: int|
                            0 <= k < i && keys[k] == s && unneeded(grants@, keys, unused@, k);
                        assert(0 <= k < i + 1 && keys[k] == s && unneeded(
                            grants@,
                            keys,
                            unused@,
                            k,
                        ));
                    }
                    if gone@.contains_key(s) && !was.contains_key(s) {
                        assert(keys[i as int] == s && unneeded(grants@, keys, unused@, i as int));
                    }
                }
            }
            i += 1;
        }
        let m: usize = gone.len();
        let ghost gkeys = gone.keys();
        let mut g: usize = 0;
        while g < m
            invariant
                g <= m,
                m == gkeys.len(),
                gkeys == gone.keys(),
                lists::<Slot, u32>(gkeys, gone@),
                forall|s: SlotName| #[trigger]
                    self.pools@.contains_key(s) <==> before.contains_key(s) && !(exists|d: int|
                        0 <= d < g && gkeys[d] == s),
                forall|s: SlotName| #[trigger]
                    self.pools@.contains_key(s) ==> self.pools@[s] == before[s],
            decreases m - g,
        {
            let ghost was = self.pools@;
            let _ = self.pools.remove(gone.key_at(g));
            proof {
                assert forall|s: SlotName| #[trigger]
                    self.pools@.contains_key(s) <==> before.contains_key(s) && !(exists|d: int|
                        0 <= d < g + 1 && gkeys[d] == s) by {
                    if s == gkeys[g as int] {
                        assert(0 <= g < g + 1 && gkeys[g as int] == s);
                    }
                    if before.contains_key(s) && !was.contains_key(s) {
                        let d = choose|d: int| 0 <= d < g && gkeys[d] == s;
                        assert(0 <= d < g + 1 && gkeys[d] == s);
                    }
                }
            }
            g += 1;
        }
        proof {
            assert forall|k: int| 0 <= k < unused@.len() implies self@.contains_key(
                #[trigger] keys[k],
            ) == !unneeded(grants@, keys, unused@, k) by {
                let s = keys[k];
                assert(before.contains_key(s));
                if gone@.contains_key(s) {
                    let j = choose|j: int|
                        0 <= j < n && keys[j] == s && unneeded(grants@, keys, unused@, j);
                    assert(j == k);
                    let d = choose|d: int| 0 <= d < gkeys.len() && gkeys[d] == s;
                    assert(0 <= d < g && gkeys[d] == s);
                } else if exists|d: int| 0 <= d < g && gkeys[d] == s {
                    let d = choose|d: int| 0 <= d < g && gkeys[d] == s;
                    assert(gone@.contains_key(gkeys[d]));
                }
            }
        }
    }
}

impl<P> Default for ProxyPools<P> {
    fn default() -> (pools: Self)
        ensures
            pools@ == Map::<SlotName, P>::empty(),
    {
        ProxyPools::new()
    }
}

/// What is reported of a pool covers every connection that the instance may
/// hold: those idle, held, being opened and being closed, up to the largest
/// number that a report holds. A slot is reported free only where no connection
/// is in it or on its way.
pub proof fn law_a_report_covers_what_the_instance_may_hold(stats: PoolStats)
    ensures
        measured(stats).actual == u32::MAX || measured(stats).actual == stats.idle + stats.in_use
            + stats.opening + stats.closing,
        measured(stats).actual == u32::MAX ==> stats.idle + stats.in_use + stats.opening
            + stats.closing >= u32::MAX,
        measured(stats).demand == u32::MAX || measured(stats).demand == stats.waiting
            + stats.in_use + stats.opening,
        measured(stats).demand == u32::MAX ==> stats.waiting + stats.in_use + stats.opening
            >= u32::MAX,
{
}

/// A pool goes only where nothing is granted to its tenant on its instance and
/// nobody uses it.
pub proof fn law_a_pool_that_is_granted_or_used_stays(
    grants: GrantsView,
    keys: Seq<SlotName>,
    unused: Seq<bool>,
    k: int,
)
    requires
        0 <= k < keys.len(),
        keys.len() == unused.len(),
    ensures
        unneeded(grants, keys, unused, k) ==> unused[k],
        unneeded(grants, keys, unused, k) && grants.grants.contains_key(keys[k])
            ==> grants.grants[keys[k]] == 0,
        !unneeded(grants, keys, unused, k) && unused[k] ==> grants.grants.contains_key(keys[k])
            && grants.grants[keys[k]] > 0,
{
}

} // verus!
