//! Grants: which proxy may hold how many connections of which tenant where.
use vstd::prelude::*;

use crate::allocation::{
    answered_with, entry_fits, grant_keys, grant_list, proxy_grants, table_slots, DesiredView,
    Holder, HolderName, InstanceId, Rejection, Slot, SlotName, TableView,
};
use crate::budget::{budget_total, BudgetInputs, BudgetView};
use crate::order::{
    lemma_pair_irreflexive, lemma_pair_total, lemma_pair_transitive, pair_before, Dup, Key, Order,
};
use crate::ordmap::{listing, lists, rising, OrdMap};
use crate::policy::{capped, minimums, PoliciesView, PolicyChange, Refusal};
use crate::spread::{is_spread, least};
use crate::sums::{map_sum, seq_sum};
use crate::tenant::{TenantId, TenantName};
use crate::time::elapsed;

pub use crate::coordinator::{InProcessCoordinator, ProxyChannel};

verus! {

/// A weight: a number above 0.
#[derive(Debug, Clone, Copy, PartialEq, Eq, Structural)]
pub struct Weight {
    value: u32,
}

impl View for Weight {
    type V = u32;

    closed spec fn view(&self) -> u32 {
        self.value
    }
}

impl Weight {
    #[verifier::type_invariant]
    pub closed spec fn wf(self) -> bool {
        self.value > 0
    }

    /// The weight of that value.
    pub closed spec fn of(value: u32) -> Weight {
        Weight { value }
    }

    /// The weight of that value, where it is above 0.
    pub fn new(value: u32) -> (weight: Option<Self>)
        ensures
            weight is Some <==> value > 0,
            weight matches Some(w) ==> w == Weight::of(value) && w@ == value,
    {
        if value > 0 {
            Some(Weight { value })
        } else {
            None
        }
    }

    pub fn get(&self) -> (value: u32)
        ensures
            value == self@,
            value > 0,
    {
        proof {
            use_type_invariant(self);
        }
        self.value
    }
}

impl Dup for Weight {
    fn dup(&self) -> (copy: Self) {
        *self
    }
}

/// A tenant's share of an instance: what it is guaranteed, what it may hold at
/// most, and how it weighs against other tenants.
#[derive(Debug, Clone, Copy, PartialEq, Eq, Structural)]
pub struct TenantPolicy {
    pub min: u32,
    pub max: u32,
    pub weight: Weight,
}

/// What a proxy reports of one tenant on one instance: how many connections its
/// clients ask for, and how many it has.
#[derive(Debug, Clone, Copy, PartialEq, Eq, Structural)]
pub struct Usage {
    pub demand: u32,
    pub actual: u32,
}

impl View for Usage {
    type V = Usage;

    open spec fn view(&self) -> Usage {
        *self
    }
}

impl Default for Usage {
    fn default() -> (usage: Self)
        ensures
            usage == (Usage { demand: 0, actual: 0 }),
    {
        Usage { demand: 0, actual: 0 }
    }
}

/// A report: the generation of the grants it was measured against, and what is
/// reported of each tenant on each instance.
#[verifier::ext_equal]
pub struct ReportView {
    pub generation: u64,
    pub usage: Map<SlotName, Usage>,
}

impl ReportView {
    /// What is reported of a tenant on an instance: nothing, where it is left
    /// out.
    pub open spec fn at(self, slot: SlotName) -> Usage {
        if self.usage.contains_key(slot) {
            self.usage[slot]
        } else {
            Usage { demand: 0, actual: 0 }
        }
    }
}

/// Everything a proxy reports in one round, as of the grants of `generation`.
///
/// A report is complete: an instance and tenant it leaves out has no demand
/// and no connection.
#[derive(Debug, PartialEq, Eq)]
pub struct Report {
    generation: u64,
    usage: OrdMap<Slot, Usage>,
}

impl View for Report {
    type V = ReportView;

    closed spec fn view(&self) -> ReportView {
        ReportView { generation: self.generation, usage: self.usage@ }
    }
}

impl Report {
    pub fn new(generation: u64) -> (report: Self)
        ensures
            report@ == (ReportView { generation, usage: Map::empty() }),
    {
        Report { generation, usage: OrdMap::new() }
    }

    /// Adds what is reported of a tenant on an instance.
    pub fn usage(self, instance: InstanceId, tenant: TenantId, usage: Usage) -> (report: Self)
        ensures
            report@ == (ReportView {
                usage: self@.usage.insert((instance@, tenant@), usage),
                ..self@
            }),
    {
        let mut report = self;
        report.usage.insert(Slot { instance, tenant }, usage);
        report
    }

    pub fn generation(&self) -> (generation: u64)
        ensures
            generation == self@.generation,
    {
        self.generation
    }

    /// What is reported, by instance and tenant.
    pub fn all(&self) -> (usage: &OrdMap<Slot, Usage>)
        ensures
            usage@ == self@.usage,
    {
        &self.usage
    }

    pub fn get(&self, instance: &InstanceId, tenant: &TenantId) -> (usage: Usage)
        ensures
            usage == self@.at((instance@, tenant@)),
    {
        match self.usage.get(&Slot { instance: instance.clone(), tenant: tenant.clone() }) {
            Some(usage) => *usage,
            None => Usage { demand: 0, actual: 0 },
        }
    }
}

/// The grants of one proxy and their generation.
#[verifier::ext_equal]
pub struct GrantsView {
    pub generation: u64,
    pub grants: Map<SlotName, u32>,
}

/// Whether every grant is of at least one slot.
pub open spec fn no_zeros(grants: Map<SlotName, u32>) -> bool {
    forall|s: SlotName| #[trigger] grants.contains_key(s) ==> grants[s] > 0
}

/// The grants one proxy holds. The generation moves whenever a grant does, so a
/// report can say which grants it was measured against.
#[derive(Debug, PartialEq, Eq)]
pub struct GrantSet {
    generation: u64,
    grants: OrdMap<Slot, u32>,
}

impl GrantSet {
    /// What is granted is at least one slot.
    #[verifier::type_invariant]
    closed spec fn wf(self) -> bool {
        no_zeros(self.grants@)
    }

    /// The grants of that generation.
    pub fn new(generation: u64, grants: OrdMap<Slot, u32>) -> (set: Self)
        requires
            no_zeros(grants@),
        ensures
            set@ == (GrantsView { generation, grants: grants@ }),
    {
        GrantSet { generation, grants }
    }
}

impl View for GrantSet {
    type V = GrantsView;

    closed spec fn view(&self) -> GrantsView {
        GrantsView { generation: self.generation, grants: self.grants@ }
    }
}

impl GrantSet {
    pub fn generation(&self) -> (generation: u64)
        ensures
            generation == self@.generation,
    {
        self.generation
    }

    /// The slots granted to a tenant on an instance.
    pub fn get(&self, instance: &InstanceId, tenant: &TenantId) -> (slots: u32)
        ensures
            slots == (if self@.grants.contains_key((instance@, tenant@)) {
                self@.grants[(instance@, tenant@)]
            } else {
                0
            }),
    {
        match self.grants.get(&Slot { instance: instance.clone(), tenant: tenant.clone() }) {
            Some(slots) => *slots,
            None => 0,
        }
    }

    /// The grants, in the order of their instances and tenants: none of them of
    /// zero slots.
    pub fn iter(&self) -> (list: Vec<(&InstanceId, &TenantId, u32)>)
        ensures
            grant_list(list@, self@.grants),
            no_zeros(self@.grants),
    {
        proof {
            use_type_invariant(self);
        }
        let mut list: Vec<(&InstanceId, &TenantId, u32)> = Vec::new();
        let n: usize = self.grants.len();
        let mut i: usize = 0;
        while i < n
            invariant
                n == self.grants.keys().len(),
                i <= n,
                lists::<Slot, u32>(self.grants.keys(), self.grants@),
                list@.len() == i,
                forall|j: int|
                    0 <= j < i ==> ((#[trigger] list@[j]).0@, list@[j].1@) == self.grants.keys()[j]
                        && list@[j].2 == self.grants@[self.grants.keys()[j]],
            decreases n - i,
        {
            let slot = self.grants.key_at(i);
            list.push((&slot.instance, &slot.tenant, *self.grants.value_at(i)));
            i += 1;
        }
        proof {
            assert(grant_keys(list@) =~= self.grants.keys());
        }
        list
    }
}

impl Default for GrantSet {
    fn default() -> (set: Self)
        ensures
            set@ == (GrantsView { generation: 0, grants: Map::empty() }),
    {
        GrantSet { generation: 0, grants: OrdMap::new() }
    }
}

impl Clone for GrantSet {
    fn clone(&self) -> (copy: Self)
        ensures
            copy@ == self@,
    {
        proof {
            use_type_invariant(self);
        }
        GrantSet { generation: self.generation, grants: self.grants.dup() }
    }
}

/// What a tenant claims of an instance's total budget.
#[derive(Debug, PartialEq, Eq)]
pub struct Claim {
    pub key: TenantId,
    pub min: u32,
    pub max: u32,
    pub weight: Weight,
    pub demand: u32,
    pub current: u32,
    pub may_release: bool,
}

/// What shares an instance's total budget out among the tenants that claim it:
/// the target of each claim, in the order of the claims. A target that is left
/// out is 0.
pub trait Allocator {
    fn allocate(&self, budget: u32, claims: &Vec<Claim>) -> Vec<u32>;
}

/// An instance and a holder on it.
pub type PlaceName = (Seq<char>, HolderName);

/// A holder on an instance.
#[derive(Debug, PartialEq, Eq)]
pub struct Place {
    pub instance: InstanceId,
    pub holder: Holder,
}

impl View for Place {
    type V = PlaceName;

    open spec fn view(&self) -> PlaceName {
        (self.instance@, self.holder@)
    }
}

impl Dup for Place {
    fn dup(&self) -> (copy: Self) {
        Place { instance: self.instance.clone(), holder: self.holder.clone() }
    }
}

impl Key for Place {
    open spec fn before(a: PlaceName, b: PlaceName) -> bool {
        pair_before::<InstanceId, Holder>(a, b)
    }

    proof fn irreflexive(a: PlaceName) {
        lemma_pair_irreflexive::<InstanceId, Holder>(a);
    }

    proof fn transitive(a: PlaceName, b: PlaceName, c: PlaceName) {
        lemma_pair_transitive::<InstanceId, Holder>(a, b, c);
    }

    proof fn total(a: PlaceName, b: PlaceName) {
        lemma_pair_total::<InstanceId, Holder>(a, b);
    }

    fn compare(&self, other: &Self) -> (order: Order) {
        match self.instance.compare(&other.instance) {
            Order::Same => self.holder.compare(&other.holder),
            order => order,
        }
    }
}

/// How many connections a holder may still have on the instance.
///
/// A grant that went up counts in full at once, since the proxy may open up to
/// it at any moment. A grant that went down keeps counting what it was until a
/// report measured against the lowered grant says the connections are gone.
#[derive(Debug, Clone, Copy, PartialEq, Eq, Structural)]
pub struct Held {
    pub changed_at: u64,
    pub occupied: u32,
}

impl View for Held {
    type V = Held;

    open spec fn view(&self) -> Held {
        *self
    }
}

/// The value of a key, or 0 where it has none.
pub open spec fn value_or_zero<K>(m: Map<K, u32>, k: K) -> u32 {
    if m.contains_key(k) {
        m[k]
    } else {
        0
    }
}

/// All grants of a table, by instance and holder.
pub open spec fn place_map(table: TableView) -> Map<PlaceName, u32> {
    Map::new(
        |p: PlaceName| table.contains_key(p.0) && table[p.0].granted.contains_key(p.1),
        |p: PlaceName| table[p.0].granted[p.1],
    )
}

/// The state of a coordinator.
#[verifier::ext_equal]
pub struct CoordinatorView {
    pub table: TableView,
    pub budgets: Map<Seq<char>, BudgetView>,
    pub policies: PoliciesView,
    pub demand: Map<PlaceName, u32>,
    pub held: Map<PlaceName, Held>,
    pub generation: u64,
    pub generations: Map<Seq<char>, u64>,
    pub departed: Map<Seq<char>, u32>,
    pub now: Option<nat>,
    pub idle_since: Map<PlaceName, nat>,
    pub release_delay: nat,
    pub reports: u64,
}

impl CoordinatorView {
    /// What the clients of a holder ask for.
    pub open spec fn demand_at(self, p: PlaceName) -> u32 {
        value_or_zero(self.demand, p)
    }

    /// How many connections a holder may still have.
    pub open spec fn occupied_at(self, p: PlaceName) -> u32 {
        if self.held.contains_key(p) {
            self.held[p].occupied
        } else {
            0
        }
    }

    /// What a holder is granted.
    pub open spec fn slots_at(self, p: PlaceName) -> u32 {
        table_slots(self.table, p.0, p.1)
    }

    /// Whether a holder counts on an instance: its proxy has not departed, and
    /// its clients ask for connections there or it may still have some.
    pub open spec fn is_place(self, p: PlaceName) -> bool {
        (self.demand.contains_key(p) || self.held.contains_key(p)) && !self.departed.contains_key(
            p.1.1,
        )
    }

    /// The holders that count on an instance.
    pub open spec fn holder_set(self, i: Seq<char>) -> Set<HolderName> {
        Set::new(|h: HolderName| self.is_place((i, h)))
    }

    /// The holders that count on an instance, in order.
    pub open spec fn holders_on(self, i: Seq<char>) -> Seq<HolderName> {
        listing::<Holder>(self.holder_set(i))
    }

    /// The holders of one tenant on an instance, one for each proxy.
    pub open spec fn group_set(self, i: Seq<char>, t: TenantName) -> Set<HolderName> {
        Set::new(|h: HolderName| h.0 == t && self.is_place((i, h)))
    }

    /// The holders of one tenant on an instance, in order.
    pub open spec fn group(self, i: Seq<char>, t: TenantName) -> Seq<HolderName> {
        listing::<Holder>(self.group_set(i, t))
    }

    /// What the clients of some holders ask for.
    pub open spec fn demands(self, i: Seq<char>, holders: Seq<HolderName>) -> Seq<u32> {
        Seq::new(holders.len(), |k: int| self.demand_at((i, holders[k])))
    }

    /// What some holders are granted.
    pub open spec fn currents(self, i: Seq<char>, holders: Seq<HolderName>) -> Seq<u32> {
        Seq::new(holders.len(), |k: int| self.slots_at((i, holders[k])))
    }

    /// The connections that all holders on an instance may still have.
    pub open spec fn occupied_map(self, i: Seq<char>) -> Map<PlaceName, nat> {
        Map::new(
            |p: PlaceName| self.held.contains_key(p) && p.0 == i,
            |p: PlaceName| self.held[p].occupied as nat,
        )
    }

    pub open spec fn occupied_on(self, i: Seq<char>) -> nat {
        map_sum(self.occupied_map(i))
    }

    /// The slots of an instance that nobody can still have a connection in.
    pub open spec fn available(self, i: Seq<char>) -> nat {
        if self.budgets[i].total() > self.occupied_on(i) {
            (self.budgets[i].total() - self.occupied_on(i)) as nat
        } else {
            0
        }
    }

    /// Whether no more connections can be held on an instance than its total
    /// budget allows. The connections are counted up to the largest number of a
    /// budget's type.
    pub open spec fn within(self, i: Seq<char>) -> bool {
        if self.budgets.contains_key(i) {
            self.occupied_on(i) <= self.budgets[i].total() || self.budgets[i].total() == u32::MAX
        } else {
            self.occupied_on(i) == 0
        }
    }

    /// How a tenant's target is spread over its holders on an instance.
    pub open spec fn shares(
        self,
        targets: Map<SlotName, u32>,
        i: Seq<char>,
        t: TenantName,
    ) -> Seq<u32> {
        let group = self.group(i, t);
        choose|shares: Seq<u32>|
            is_spread(
                value_or_zero(targets, (i, t)) as nat,
                self.demands(i, group),
                self.currents(i, group),
                shares,
            )
    }

    /// A holder's part of its tenant's target.
    pub open spec fn holder_target(
        self,
        targets: Map<SlotName, u32>,
        i: Seq<char>,
        h: HolderName,
    ) -> u32 {
        self.shares(targets, i, h.0)[self.group(i, h.0).index_of(h)]
    }

    /// How far a holder's target is above what it may still have, where it is
    /// to be granted more.
    pub open spec fn rise(self, targets: Map<SlotName, u32>, i: Seq<char>, h: HolderName) -> nat {
        let target = self.holder_target(targets, i, h);
        if target > self.slots_at((i, h)) && target > self.occupied_at((i, h)) {
            (target - self.occupied_at((i, h))) as nat
        } else {
            0
        }
    }

    /// The rises of the first `n` holders together.
    pub open spec fn rises_before(
        self,
        targets: Map<SlotName, u32>,
        i: Seq<char>,
        holders: Seq<HolderName>,
        n: int,
    ) -> nat
        decreases n,
    {
        if n <= 0 {
            0
        } else {
            self.rises_before(targets, i, holders, n - 1) + self.rise(targets, i, holders[n - 1])
        }
    }

    /// What the holders before the `n`-th leave of the available slots.
    pub open spec fn left_for(self, targets: Map<SlotName, u32>, i: Seq<char>, n: int) -> nat {
        let taken = self.rises_before(targets, i, self.holders_on(i), n);
        if self.available(i) > taken {
            (self.available(i) - taken) as nat
        } else {
            0
        }
    }

    /// What the `n`-th holder on an instance is to be granted: its target at
    /// once where that is no more than it has, and otherwise as much of it as
    /// what it may still have and the slots left for it allow.
    pub open spec fn grant_for(self, targets: Map<SlotName, u32>, i: Seq<char>, n: int) -> u32 {
        let h = self.holders_on(i)[n];
        let target = self.holder_target(targets, i, h);
        if target <= self.slots_at((i, h)) {
            target
        } else {
            least(
                target as nat,
                self.occupied_at((i, h)) as nat + self.left_for(targets, i, n),
            ) as u32
        }
    }

    /// What a holder on an instance is to be granted.
    pub open spec fn grant_of(
        self,
        targets: Map<SlotName, u32>,
        i: Seq<char>,
        h: HolderName,
    ) -> u32 {
        if self.is_place((i, h)) {
            self.grant_for(targets, i, self.holders_on(i).index_of(h))
        } else {
            0
        }
    }

    /// The desired state of an instance.
    pub open spec fn desired(self, targets: Map<SlotName, u32>, i: Seq<char>) -> DesiredView {
        DesiredView {
            budget: self.budgets[i].total(),
            granted: Map::new(
                |h: HolderName| self.grant_of(targets, i, h) > 0,
                |h: HolderName| self.grant_of(targets, i, h),
            ),
        }
    }

    /// The desired state of every instance.
    pub open spec fn entry(self, targets: Map<SlotName, u32>) -> TableView {
        Map::new(
            |i: Seq<char>| self.budgets.contains_key(i),
            |i: Seq<char>| self.desired(targets, i),
        )
    }

    /// Whether a holder is granted more than its clients ask for.
    pub open spec fn is_idle(self, p: PlaceName) -> bool {
        self.demand_at(p) < self.slots_at(p)
    }

    /// The state once it is taken down since when each idle holder is idle.
    pub open spec fn idling(self) -> CoordinatorView {
        match self.now {
            None => self,
            Some(now) => CoordinatorView {
                idle_since: Map::new(
                    |p: PlaceName| self.is_idle(p),
                    |p: PlaceName|
                        if self.idle_since.contains_key(p) {
                            self.idle_since[p]
                        } else {
                            now
                        },
                ),
                ..self
            },
        }
    }

    /// Whether an idle grant may be taken back: unless it is known to have been
    /// idle for less than the release delay.
    pub open spec fn may_release(self, p: PlaceName) -> bool {
        match self.now {
            Some(now) => self.idle_since.contains_key(p) ==> elapsed(self.idle_since[p], now)
                >= self.release_delay,
            None => true,
        }
    }

    /// The holders whose grant differs between two tables.
    pub open spec fn moved(before: TableView, after: TableView, p: PlaceName) -> bool {
        table_slots(before, p.0, p.1) != table_slots(after, p.0, p.1)
    }

    /// How many connections a holder may still have once the table has become
    /// `after`.
    pub open spec fn occupied_after(self, after: TableView, p: PlaceName) -> u32 {
        if Self::moved(self.table, after, p) && table_slots(after, p.0, p.1) > self.occupied_at(p) {
            table_slots(after, p.0, p.1)
        } else {
            self.occupied_at(p)
        }
    }

    /// The state once the table has become `after`: where a grant moved, a new
    /// generation begins, and the moved grants count from it.
    pub open spec fn moved_to(self, after: TableView) -> CoordinatorView {
        let next = (self.generation + 1) as u64;
        if forall|p: PlaceName| !Self::moved(self.table, after, p) {
            CoordinatorView { table: after, ..self }
        } else {
            CoordinatorView {
                table: after,
                generation: next,
                held: Map::new(
                    |p: PlaceName|
                        {
                            &&& self.held.contains_key(p) || Self::moved(self.table, after, p)
                            &&& self.occupied_after(after, p) > 0 || table_slots(after, p.0, p.1)
                                > 0
                        },
                    |p: PlaceName|
                        Held {
                            changed_at: if Self::moved(self.table, after, p) {
                                next
                            } else {
                                self.held[p].changed_at
                            },
                            occupied: self.occupied_after(after, p),
                        },
                ),
                generations: Map::new(
                    |q: Seq<char>|
                        self.generations.contains_key(q) || proxy_moved(self.table, after, q),
                    |q: Seq<char>|
                        if proxy_moved(self.table, after, q) {
                            next
                        } else {
                            self.generations[q]
                        },
                ),
                ..self
            }
        }
    }

    /// The state once the desired state for those targets is in force: the
    /// same state, where the table rejects it.
    pub open spec fn settled(self, targets: Map<SlotName, u32>) -> CoordinatorView {
        if entry_fits(self.entry(targets)) {
            self.moved_to(self.table.union_prefer_right(self.entry(targets)))
        } else {
            self
        }
    }
}

/// Whether a grant of that proxy differs between two tables.
pub open spec fn proxy_moved(before: TableView, after: TableView, proxy: Seq<char>) -> bool {
    exists|p: PlaceName| p.1.1 == proxy && #[trigger] CoordinatorView::moved(before, after, p)
}


/// Whether a tenant claims a part of an instance's total budget: some holder of
/// it counts there, and its rule lists the instance.
pub open spec fn claims_on(v: CoordinatorView, i: Seq<char>, t: TenantName) -> bool {
    &&& exists|h: HolderName| #[trigger] v.group_set(i, t).contains(h)
    &&& v.policies.policy(i, t) is Some
}

/// What a tenant claims on an instance: the share that its rule gives it, what
/// its clients ask for and what it is granted over all proxies, and whether
/// idle grants of it may be taken back.
pub open spec fn is_claim(v: CoordinatorView, i: Seq<char>, claim: Claim) -> bool {
    let t = claim.key@;
    let group = v.group(i, t);
    &&& claims_on(v, i, t)
    &&& v.policies.policy(i, t) == Some(
        TenantPolicy { min: claim.min, max: claim.max, weight: claim.weight },
    )
    &&& claim.demand == capped(seq_sum(v.demands(i, group)))
    &&& claim.current == capped(seq_sum(v.currents(i, group)))
    &&& claim.may_release == forall|h: HolderName| #[trigger]
        group.contains(h) ==> v.may_release((i, h))
}

/// The tenants of a list of claims.
pub open spec fn claim_keys(claims: Seq<Claim>) -> Seq<TenantName> {
    Seq::new(claims.len(), |k: int| claims[k].key@)
}

/// A list of exactly the claims on an instance, in the order of the tenants.
pub open spec fn claim_list(v: CoordinatorView, i: Seq<char>, claims: Seq<Claim>) -> bool {
    &&& rising::<TenantId>(claim_keys(claims))
    &&& forall|k: int| 0 <= k < claims.len() ==> is_claim(v, i, #[trigger] claims[k])
    &&& forall|t: TenantName| #[trigger]
        claims_on(v, i, t) ==> claim_keys(claims).contains(t)
}

/// The `k`-th target, where there is one.
pub open spec fn target_at(answers: Seq<u32>, k: int) -> u32 {
    if 0 <= k < answers.len() {
        answers[k]
    } else {
        0
    }
}

/// Whether the targets on an instance are those that `allocator` may give for
/// its total budget and the claims on it.
pub open spec fn targets_from<A: Allocator>(
    allocator: A,
    v: CoordinatorView,
    i: Seq<char>,
    targets: Map<SlotName, u32>,
) -> bool {
    exists|claims: Vec<Claim>, answers: Vec<u32>|
        {
            &&& claim_list(v, i, claims@)
            &&& #[trigger] call_ensures(
                A::allocate,
                (&allocator, v.budgets[i].total(), &claims),
                answers,
            )
            &&& forall|k: int|
                0 <= k < claims@.len() ==> value_or_zero(targets, (i, (#[trigger] claims@[k]).key@))
                    == target_at(answers@, k)
        }
}

/// Whether targets are those that `allocator` may give for every instance, and
/// only tenants that claim something have one.
pub open spec fn allocated<A: Allocator>(
    allocator: A,
    v: CoordinatorView,
    targets: Map<SlotName, u32>,
) -> bool {
    &&& forall|i: Seq<char>| #[trigger]
        v.budgets.contains_key(i) ==> targets_from(allocator, v, i, targets)
    &&& forall|s: SlotName| #[trigger]
        targets.contains_key(s) ==> v.budgets.contains_key(s.0) && claims_on(v, s.0, s.1)
}


/// Whether recomputing the desired state may lead from one state to the other,
/// and what the table rejects it for, if it does: for some targets that
/// `allocator` gives.
pub open spec fn reconciled<A: Allocator>(
    allocator: A,
    before: CoordinatorView,
    after: CoordinatorView,
    rejection: Option<Rejection>,
) -> bool {
    exists|targets: Map<SlotName, u32>|
        {
            &&& #[trigger] allocated(allocator, before.idling(), targets)
            &&& after == before.idling().settled(targets)
            &&& answered_with(before.idling().entry(targets), rejection)
        }
}

/// Whether recomputing the desired state may lead from one state to the other,
/// whether or not the table takes it.
pub open spec fn recomputed<A: Allocator>(
    allocator: A,
    before: CoordinatorView,
    after: CoordinatorView,
) -> bool {
    exists|rejection: Option<Rejection>| #[trigger]
        reconciled(allocator, before, after, rejection)
}

/// The state of a coordinator that nothing was told yet.
pub open spec fn initial_coordinator() -> CoordinatorView {
    CoordinatorView {
        table: Map::empty(),
        budgets: Map::empty(),
        policies: PoliciesView { weights: Map::empty(), rules: Map::empty() },
        demand: Map::empty(),
        held: Map::empty(),
        generation: 0,
        generations: Map::empty(),
        departed: Map::empty(),
        now: None,
        idle_since: Map::empty(),
        release_delay: 0,
        reports: 0,
    }
}


impl CoordinatorView {
    /// What a holder may still have once `report` of `proxy` is taken in: a
    /// report measured against the holder's present grant says it exactly.
    pub open spec fn occupied_reported(
        self,
        proxy: Seq<char>,
        report: ReportView,
        p: PlaceName,
    ) -> u32 {
        if p.1.1 == proxy && report.generation >= self.held[p].changed_at {
            let actual = report.at((p.0, p.1.0)).actual;
            if actual > self.slots_at(p) {
                actual
            } else {
                self.slots_at(p)
            }
        } else {
            self.held[p].occupied
        }
    }

    /// The state once `report` of `proxy` is taken in.
    pub open spec fn reported(self, proxy: Seq<char>, report: ReportView) -> CoordinatorView {
        CoordinatorView {
            demand: Map::new(
                |p: PlaceName|
                    if p.1.1 == proxy {
                        report.usage.contains_key((p.0, p.1.0))
                    } else {
                        self.demand.contains_key(p)
                    },
                |p: PlaceName|
                    if p.1.1 == proxy {
                        report.usage[(p.0, p.1.0)].demand
                    } else {
                        self.demand[p]
                    },
            ),
            held: Map::new(
                |p: PlaceName|
                    self.held.contains_key(p) && (self.occupied_reported(proxy, report, p) > 0
                        || self.slots_at(p) > 0),
                |p: PlaceName|
                    Held {
                        changed_at: self.held[p].changed_at,
                        occupied: self.occupied_reported(proxy, report, p),
                    },
            ),
            reports: if self.reports == u64::MAX {
                0
            } else {
                (self.reports + 1) as u64
            },
            ..self
        }
    }

    /// The state once `proxy` has departed: it asks for nothing and has
    /// nothing.
    pub open spec fn without(self, proxy: Seq<char>) -> CoordinatorView {
        CoordinatorView {
            departed: self.departed.insert(proxy, 0),
            demand: Map::new(
                |p: PlaceName| self.demand.contains_key(p) && p.1.1 != proxy,
                |p: PlaceName| self.demand[p],
            ),
            held: Map::new(
                |p: PlaceName| self.held.contains_key(p) && p.1.1 != proxy,
                |p: PlaceName| self.held[p],
            ),
            ..self
        }
    }

    /// The grants of a proxy, under the generation at which they last moved.
    pub open spec fn grants_of(self, proxy: Seq<char>) -> GrantsView {
        GrantsView {
            generation: if self.generations.contains_key(proxy) {
                self.generations[proxy]
            } else {
                0
            },
            grants: proxy_grants(self.table, proxy),
        }
    }

    /// The total budget answered for each instance: nothing, for one that the
    /// coordinator does not hold.
    pub open spec fn budgets_of(self, instances: Seq<Seq<char>>) -> Seq<Option<u32>> {
        Seq::new(
            instances.len(),
            |k: int|
                if self.budgets.contains_key(instances[k]) {
                    Some(self.budgets[instances[k]].total())
                } else {
                    None
                },
        )
    }

    /// What writing `change` into the rule named `tenant` comes to, weighed
    /// against the budgets that the coordinator holds.
    pub open spec fn tenant_change(self, tenant: Seq<char>, change: PolicyChange) -> Result<
        PoliciesView,
        Refusal,
    > {
        self.policies.change(
            tenant,
            change,
            self.budgets_of(self.policies.rules[tenant].instances),
        )
    }

    /// Why a margin for an instance is refused, if it is.
    pub open spec fn margin_refused(self, instance: Seq<char>, margin: u32) -> Option<Refusal> {
        if !self.budgets.contains_key(instance) {
            Some(Refusal::NoSuchInstance { instance })
        } else {
            let derived = budget_total(
                BudgetInputs { margin, ..self.budgets[instance].inputs() },
            );
            let reserved = minimums(self.policies.rules, instance);
            if reserved > derived {
                Some(Refusal::AboveBudget { instance, minimums: reserved, budget: derived })
            } else {
                None
            }
        }
    }

    /// The state with the margin of an instance written.
    pub open spec fn with_margin(self, instance: Seq<char>, margin: u32) -> CoordinatorView {
        CoordinatorView {
            budgets: self.budgets.insert(
                instance,
                BudgetView { margin, ..self.budgets[instance] },
            ),
            ..self
        }
    }
}

/// A weight made of a value has that value.
pub proof fn law_a_weight_is_its_value(value: u32)
    ensures
        Weight::of(value)@ == value,
{
}

} // verus!
