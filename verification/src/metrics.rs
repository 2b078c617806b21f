//! What a node publishes of itself, and how a scrape of it is answered.
use vstd::prelude::*;
use vstd::string::StringExecFns;
use vstd::utf8::encode_utf8;

use crate::allocation::{
    entry_fits, holder_keys, holder_list, table_budget, table_slots, table_total, DesiredView, Holder,
    HolderName, InstanceId, Slot,
};
use crate::backend::{lossy, lossy_text};
use crate::budget::{budget_shortfall, budget_total, reserved_total, BudgetInputs, TotalBudget};
use crate::console::{
    countable, pool_slots, snapshot_names, ConsoleView, InstanceSnapshot, PoolSnapshot,
};
use crate::order::same_text;
use crate::ordmap::{lemma_listing, listing, lists};
use crate::sorting::{key_views, lemma_sorted_order_is_one, places, sort, sorted_order};
use crate::sums::{as_nats, lemma_sum_zipped, seq_sum, slot_sum, zipped};
use crate::tenant::{TenantId, TenantName};
use crate::text::{
    chars_of, decimal, decimal_text, find, find_char, is_space, is_white, lemma_find, part, text_of,
};

verus! {

/// What every name this system publishes begins with, so that a scrape of a
/// host running several exporters says which one a series came from.
pub const PREFIX: &'static str = "pgsteward";

/// One series of a metric: its labels, and the number.
#[derive(Debug, PartialEq, Eq)]
pub struct Series {
    pub labels: Vec<(&'static str, String)>,
    pub value: u64,
}

/// One series of a metric, with texts as sequences.
#[verifier::ext_equal]
pub struct SeriesView {
    pub labels: Seq<(Seq<char>, Seq<char>)>,
    pub value: nat,
}

impl View for Series {
    type V = SeriesView;

    open spec fn view(&self) -> SeriesView {
        SeriesView {
            labels: Seq::new(self.labels@.len(), |k: int| (self.labels@[k].0@, self.labels@[k].1@)),
            value: self.value as nat,
        }
    }
}

/// Whether the numbers of a metric only ever grow.
#[derive(Debug, Clone, Copy, PartialEq, Eq, Structural)]
pub enum MetricKind {
    Gauge,
    Counter,
}

/// A metric and every series it has, in the order in which they are written.
#[derive(Debug, PartialEq, Eq)]
pub struct Family {
    pub name: &'static str,
    pub help: &'static str,
    pub kind: MetricKind,
    pub series: Vec<Series>,
}

/// A metric, with texts as sequences.
#[verifier::ext_equal]
pub struct FamilyView {
    pub name: Seq<char>,
    pub help: Seq<char>,
    pub kind: MetricKind,
    pub series: Seq<SeriesView>,
}

/// The series of a list.
pub open spec fn all_series(list: Seq<Series>) -> Seq<SeriesView> {
    Seq::new(list.len(), |k: int| list[k]@)
}

impl View for Family {
    type V = FamilyView;

    open spec fn view(&self) -> FamilyView {
        FamilyView {
            name: self.name@,
            help: self.help@,
            kind: self.kind,
            series: all_series(self.series@),
        }
    }
}

/// The metrics of a list.
pub open spec fn families(list: Seq<Family>) -> Seq<FamilyView> {
    Seq::new(list.len(), |k: int| list[k]@)
}

/// Counts travel as gauges, and nothing this node counts comes near the range
/// of the value a gauge carries.
pub open spec fn counted(count: nat) -> nat {
    if count <= i64::MAX {
        count
    } else {
        i64::MAX as nat
    }
}

fn count(n: usize) -> (value: u64)
    ensures
        value == counted(n as nat),
{
    let n: u64 = n as u64;
    if n > i64::MAX as u64 {
        i64::MAX as u64
    } else {
        n
    }
}

/// The labels of an instance.
pub open spec fn instance_labels(instance: Seq<char>) -> Seq<(Seq<char>, Seq<char>)> {
    seq![("instance"@, instance)]
}

/// The labels of a tenant on an instance.
pub open spec fn pool_labels(instance: Seq<char>, tenant: TenantName) -> Seq<
    (Seq<char>, Seq<char>),
> {
    seq![("instance"@, instance), ("database"@, tenant.1), ("user"@, tenant.0)]
}

fn labels_of_instance(instance: &InstanceId) -> (labels: Vec<(&'static str, String)>)
    ensures
        labels@.len() == 1,
        labels@[0].0@ == "instance"@,
        labels@[0].1@ == instance@,
{
    let mut labels: Vec<(&'static str, String)> = Vec::new();
    labels.push(("instance", instance.to_string()));
    labels
}

fn labels_of_pool(instance: &InstanceId, tenant: &TenantId) -> (labels: Vec<
    (&'static str, String),
>)
    ensures
        labels@.len() == 3,
        labels@[0].0@ == "instance"@,
        labels@[0].1@ == instance@,
        labels@[1].0@ == "database"@,
        labels@[1].1@ == tenant@.1,
        labels@[2].0@ == "user"@,
        labels@[2].1@ == tenant@.0,
{
    let mut labels = labels_of_instance(instance);
    labels.push(("database", tenant.database().to_owned()));
    labels.push(("user", tenant.user().to_owned()));
    labels
}

/// The series of a grant.
pub open spec fn grant_series(view: ConsoleView, instance: Seq<char>, holder: HolderName) -> SeriesView {
    SeriesView {
        labels: pool_labels(instance, holder.0).push(("proxy"@, holder.1)),
        value: table_slots(view.table@, instance, holder) as nat,
    }
}

/// The grants on an instance, in the order of the holders.
pub open spec fn grants_on(view: ConsoleView, instance: Seq<char>) -> Seq<SeriesView> {
    let holders = listing::<Holder>(view.table@[instance].granted.dom());
    Seq::new(holders.len(), |k: int| grant_series(view, instance, holders[k]))
}

/// The grants on some instances, one instance after the other.
pub open spec fn grants_on_all(view: ConsoleView, instances: Seq<Seq<char>>) -> Seq<SeriesView>
    decreases instances.len(),
{
    if instances.len() == 0 {
        Seq::empty()
    } else {
        grants_on_all(view, instances.drop_last()) + grants_on(view, instances.last())
    }
}

/// The slots of each budget that are granted to no one.
pub open spec fn unallocated(view: ConsoleView, instances: Seq<Seq<char>>) -> Seq<SeriesView> {
    Seq::new(
        instances.len(),
        |k: int|
            SeriesView {
                labels: instance_labels(instances[k]),
                value: (table_budget(view.table@, instances[k]) - table_total(
                    view.table@,
                    instances[k],
                )) as nat,
            },
    )
}

/// The desired state, holder by holder, and the slots of each budget that are
/// granted to no one.
pub open spec fn grant_families(view: ConsoleView) -> Seq<FamilyView> {
    let instances = listing::<InstanceId>(view.table@.dom());
    seq![
        FamilyView {
            name: "granted_slots"@,
            help: "Connection slots the allocation table grants to a holder on an instance"@,
            kind: MetricKind::Gauge,
            series: grants_on_all(view, instances),
        },
        FamilyView {
            name: "unallocated_slots"@,
            help: "Connection slots of an instance's total budget that are granted to no one"@,
            kind: MetricKind::Gauge,
            series: unallocated(view, instances),
        },
    ]
}

fn push_grants(view: &ConsoleView, instance: &InstanceId, series: &mut Vec<Series>)
    requires
        view.table@.contains_key(instance@),
    ensures
        all_series(final(series)@) == all_series(old(series)@) + grants_on(*view, instance@),
{
    let holders = view.table.holders(instance);
    let ghost granted = view.table@[instance@].granted;
    let ghost keys = holder_keys(holders@);
    let ghost start = all_series(series@);
    proof {
        lemma_listing::<Holder>(keys, granted.dom());
    }
    let mut k: usize = 0;
    while k < holders.len()
        invariant
            k <= holders@.len(),
            keys == holder_keys(holders@),
            granted == view.table@[instance@].granted,
            view.table@.contains_key(instance@),
            holder_list(holders@, granted),
            all_series(series@) == start + Seq::new(
                k as nat,
                |j: int| grant_series(*view, instance@, keys[j]),
            ),
        decreases holders@.len() - k,
    {
        let holder = holders[k].0;
        let mut labels = labels_of_pool(instance, holder.tenant());
        labels.push(("proxy", holder.proxy().to_string()));
        let one = Series { labels, value: holders[k].1 as u64 };
        assert(keys[k as int] == holder@);
        assert(granted.contains_key(keys[k as int]));
        assert(one@ =~= grant_series(*view, instance@, keys[k as int]));
        let ghost before = series@;
        series.push(one);
        assert(all_series(series@) =~= all_series(before).push(one@));
        assert(all_series(series@) =~= start + Seq::new(
            (k + 1) as nat,
            |j: int| grant_series(*view, instance@, keys[j]),
        ));
        k += 1;
    }
    assert(all_series(series@) =~= start + grants_on(*view, instance@));
}

fn encode_grants(view: &ConsoleView) -> (list: Vec<Family>)
    ensures
        families(list@) == grant_families(*view),
{
    let instances = view.table.instances();
    let ghost names = Seq::new(instances@.len(), |k: int| instances@[k]@);
    let mut granted: Vec<Series> = Vec::new();
    let mut free: Vec<Series> = Vec::new();
    proof {
        lemma_listing::<InstanceId>(names, view.table@.dom());
        assert(all_series(granted@) =~= grants_on_all(*view, names.take(0)));
        assert(all_series(free@) =~= unallocated(*view, names.take(0)));
    }
    let mut k: usize = 0;
    while k < instances.len()
        invariant
            k <= instances@.len(),
            names == Seq::new(instances@.len(), |k: int| instances@[k]@),
            lists::<InstanceId, DesiredView>(names, view.table@),
            all_series(granted@) == grants_on_all(*view, names.take(k as int)),
            all_series(free@) == unallocated(*view, names.take(k as int)),
        decreases instances@.len() - k,
    {
        assert(view.table@.contains_key(names[k as int]));
        push_grants(view, instances[k], &mut granted);
        let one = Series {
            labels: labels_of_instance(instances[k]),
            value: view.table.headroom(instances[k]) as u64,
        };
        let ghost before = free@;
        free.push(one);
        proof {
            assert(names.take(k + 1).drop_last() =~= names.take(k as int));
            assert(one@.labels =~= instance_labels(names[k as int]));
            assert(all_series(free@) =~= all_series(before).push(one@));
            assert(all_series(free@) =~= unallocated(*view, names.take(k + 1)));
        }
        k += 1;
    }
    assert(names.take(k as int) =~= names);
    let mut list: Vec<Family> = Vec::new();
    list.push(
        Family {
            name: "granted_slots",
            help: "Connection slots the allocation table grants to a holder on an instance",
            kind: MetricKind::Gauge,
            series: granted,
        },
    );
    list.push(
        Family {
            name: "unallocated_slots",
            help: "Connection slots of an instance's total budget that are granted to no one",
            kind: MetricKind::Gauge,
            series: free,
        },
    );
    assert(families(list@) =~= grant_families(*view));
    list
}

/// The states that the connections of a pool are in. Their counts add up to the
/// number the connection cap is judged against, so a connection being opened
/// is not among them.
pub open spec fn pool_states(pool: PoolSnapshot) -> Seq<SeriesView> {
    let labels = pool_labels(pool.instance@, pool.tenant@);
    seq![
        SeriesView {
            labels: labels.push(("state"@, "idle"@)),
            value: counted(pool.stats.idle as nat),
        },
        SeriesView {
            labels: labels.push(("state"@, "active"@)),
            value: counted(pool.stats.in_use as nat),
        },
        SeriesView {
            labels: labels.push(("state"@, "closing"@)),
            value: counted(pool.stats.closing as nat),
        },
    ]
}

/// The states that the connections of some pools are in, pool by pool.
pub open spec fn all_states(pools: Seq<PoolSnapshot>) -> Seq<SeriesView>
    decreases pools.len(),
{
    if pools.len() == 0 {
        Seq::empty()
    } else {
        all_states(pools.drop_last()) + pool_states(pools.last())
    }
}

/// What a pool has one series of, at most.
#[derive(Debug, Clone, Copy, PartialEq, Eq, Structural)]
pub enum PoolMetric {
    Opening,
    Opened,
    Waiting,
    Demand,
    Min,
    Max,
}

/// The number that a pool gives a metric, where it is known: the share of a
/// tenant that no rule covers is not.
pub open spec fn pool_value(metric: PoolMetric, pool: PoolSnapshot) -> Option<nat> {
    match metric {
        PoolMetric::Opening => Some(counted(pool.stats.opening as nat)),
        PoolMetric::Opened => Some(pool.stats.opened as nat),
        PoolMetric::Waiting => Some(counted(pool.stats.waiting as nat)),
        PoolMetric::Demand => Some(counted(pool.stats.demand_count())),
        PoolMetric::Min => match pool.policy {
            Some(policy) => Some(policy.min as nat),
            None => None,
        },
        PoolMetric::Max => match pool.policy {
            Some(policy) => Some(policy.max as nat),
            None => None,
        },
    }
}

/// The series of a metric over some pools: one for each pool whose number is
/// known.
pub open spec fn pool_series(metric: PoolMetric, pools: Seq<PoolSnapshot>) -> Seq<SeriesView>
    decreases pools.len(),
{
    if pools.len() == 0 {
        Seq::empty()
    } else {
        let rest = pool_series(metric, pools.drop_last());
        match pool_value(metric, pools.last()) {
            Some(value) => rest.push(
                SeriesView {
                    labels: pool_labels(pools.last().instance@, pools.last().tenant@),
                    value,
                },
            ),
            None => rest,
        }
    }
}

/// The pools by instance and tenant.
pub open spec fn pools_in_order(pools: Seq<PoolSnapshot>) -> Seq<PoolSnapshot> {
    let order = sorted_order::<Slot>(pool_slots(pools));
    Seq::new(pools.len(), |k: int| pools[order[k]])
}

/// A gauge over some pools.
pub open spec fn pool_gauge(
    name: Seq<char>,
    help: Seq<char>,
    metric: PoolMetric,
    pools: Seq<PoolSnapshot>,
) -> FamilyView {
    FamilyView { name, help, kind: MetricKind::Gauge, series: pool_series(metric, pools) }
}

/// What this node actually holds against the grants, and what is waiting on it.
pub open spec fn pool_families(view: ConsoleView) -> Seq<FamilyView> {
    let pools = pools_in_order(view.pools@);
    seq![
        FamilyView {
            name: "server_connections"@,
            help: "Server connections this node holds, by the state they are in"@,
            kind: MetricKind::Gauge,
            series: all_states(pools),
        },
        pool_gauge(
            "server_connections_opening"@,
            "Server connections this node is opening and the instance does not hold yet"@,
            PoolMetric::Opening,
            pools,
        ),
        FamilyView {
            kind: MetricKind::Counter,
            ..pool_gauge(
                "server_connections_opened"@,
                "Server connections this node has opened for a tenant since it started"@,
                PoolMetric::Opened,
                pools,
            )
        },
        pool_gauge(
            "clients_waiting"@,
            "Clients queued for a connection slot"@,
            PoolMetric::Waiting,
            pools,
        ),
        pool_gauge(
            "demand_slots"@,
            "Connection slots this node reports it needs for a tenant"@,
            PoolMetric::Demand,
            pools,
        ),
        pool_gauge(
            "tenant_min_slots"@,
            "The slots a tenant is guaranteed by the rule the cluster configuration writes"@,
            PoolMetric::Min,
            pools,
        ),
        pool_gauge(
            "tenant_max_slots"@,
            "The slots a tenant may not exceed by the rule the cluster configuration writes"@,
            PoolMetric::Max,
            pools,
        ),
    ]
}

fn pool_order(view: &ConsoleView) -> (order: Vec<usize>)
    ensures
        order@.len() == view.pools@.len(),
        forall|a: int| 0 <= a < order@.len() ==> (#[trigger] order@[a]) < view.pools@.len(),
        forall|a: int|
            0 <= a < order@.len() ==> view.pools@[#[trigger] order@[a] as int] == pools_in_order(
                view.pools@,
            )[a],
{
    let mut slots: Vec<Slot> = Vec::new();
    let mut k: usize = 0;
    while k < view.pools.len()
        invariant
            k <= view.pools@.len(),
            slots@.len() == k,
            forall|j: int|
                0 <= j < k ==> (#[trigger] slots@[j])@ == (
                    view.pools@[j].instance@,
                    view.pools@[j].tenant@,
                ),
        decreases view.pools@.len() - k,
    {
        let pool = &view.pools[k];
        slots.push(Slot { instance: pool.instance.clone(), tenant: pool.tenant.clone() });
        k += 1;
    }
    let order = sort(&slots);
    assert(key_views(slots@) =~= pool_slots(view.pools@));
    assert forall|a: int| 0 <= a < order@.len() implies (#[trigger] order@[a]) < view.pools@.len()
        && view.pools@[order@[a] as int] == pools_in_order(view.pools@)[a] by {
        assert(places(order@)[a] == order@[a]);
    }
    order
}

fn state_series(pool: &PoolSnapshot, state: &'static str, n: usize) -> (series: Series)
    ensures
        series@ == (SeriesView {
            labels: pool_labels(pool.instance@, pool.tenant@).push(("state"@, state@)),
            value: counted(n as nat),
        }),
{
    let mut labels = labels_of_pool(&pool.instance, &pool.tenant);
    labels.push(("state", state.to_owned()));
    let series = Series { labels, value: count(n) };
    assert(series@ =~= SeriesView {
        labels: pool_labels(pool.instance@, pool.tenant@).push(("state"@, state@)),
        value: counted(n as nat),
    });
    series
}

fn encode_states(view: &ConsoleView, order: &Vec<usize>) -> (series: Vec<Series>)
    requires
        order@.len() == view.pools@.len(),
        forall|a: int| 0 <= a < order@.len() ==> (#[trigger] order@[a]) < view.pools@.len(),
        forall|a: int|
            0 <= a < order@.len() ==> view.pools@[#[trigger] order@[a] as int] == pools_in_order(
                view.pools@,
            )[a],
    ensures
        all_series(series@) == all_states(pools_in_order(view.pools@)),
{
    let ghost sorted = pools_in_order(view.pools@);
    let mut series: Vec<Series> = Vec::new();
    assert(all_series(series@) =~= all_states(sorted.take(0)));
    let mut k: usize = 0;
    while k < order.len()
        invariant
            k <= order@.len(),
            order@.len() == view.pools@.len(),
            sorted == pools_in_order(view.pools@),
            forall|a: int| 0 <= a < order@.len() ==> (#[trigger] order@[a]) < view.pools@.len(),
            forall|a: int|
                0 <= a < order@.len() ==> view.pools@[#[trigger] order@[a] as int] == sorted[a],
            all_series(series@) == all_states(sorted.take(k as int)),
        decreases order@.len() - k,
    {
        let pool = &view.pools[order[k]];
        let ghost before = all_series(series@);
        series.push(state_series(pool, "idle", pool.stats.idle));
        series.push(state_series(pool, "active", pool.stats.in_use));
        series.push(state_series(pool, "closing", pool.stats.closing));
        proof {
            assert(*pool == sorted[k as int]);
            assert(all_series(series@) =~= before + pool_states(*pool));
            assert(sorted.take(k + 1).drop_last() =~= sorted.take(k as int));
        }
        k += 1;
    }
    assert(sorted.take(k as int) =~= sorted);
    series
}

fn value_of(metric: PoolMetric, pool: &PoolSnapshot) -> (value: Option<u64>)
    requires
        pool.stats.demand_count() <= usize::MAX,
    ensures
        pool_value(metric, *pool) == match value {
            Some(n) => Some(n as nat),
            None => None,
        },
{
    match metric {
        PoolMetric::Opening => Some(count(pool.stats.opening)),
        PoolMetric::Opened => Some(pool.stats.opened),
        PoolMetric::Waiting => Some(count(pool.stats.waiting)),
        PoolMetric::Demand => Some(count(pool.stats.demand())),
        PoolMetric::Min => match &pool.policy {
            Some(policy) => Some(policy.min as u64),
            None => None,
        },
        PoolMetric::Max => match &pool.policy {
            Some(policy) => Some(policy.max as u64),
            None => None,
        },
    }
}

fn encode_pool_metric(view: &ConsoleView, order: &Vec<usize>, metric: PoolMetric) -> (series: Vec<
    Series,
>)
    requires
        countable(view.pools@),
        order@.len() == view.pools@.len(),
        forall|a: int| 0 <= a < order@.len() ==> (#[trigger] order@[a]) < view.pools@.len(),
        forall|a: int|
            0 <= a < order@.len() ==> view.pools@[#[trigger] order@[a] as int] == pools_in_order(
                view.pools@,
            )[a],
    ensures
        all_series(series@) == pool_series(metric, pools_in_order(view.pools@)),
{
    let ghost sorted = pools_in_order(view.pools@);
    let mut series: Vec<Series> = Vec::new();
    assert(all_series(series@) =~= pool_series(metric, sorted.take(0)));
    let mut k: usize = 0;
    while k < order.len()
        invariant
            k <= order@.len(),
            countable(view.pools@),
            order@.len() == view.pools@.len(),
            sorted == pools_in_order(view.pools@),
            forall|a: int| 0 <= a < order@.len() ==> (#[trigger] order@[a]) < view.pools@.len(),
            forall|a: int|
                0 <= a < order@.len() ==> view.pools@[#[trigger] order@[a] as int] == sorted[a],
            all_series(series@) == pool_series(metric, sorted.take(k as int)),
        decreases order@.len() - k,
    {
        let pool = &view.pools[order[k]];
        proof {
            assert(*pool == sorted[k as int]);
            assert(sorted.take(k + 1).drop_last() =~= sorted.take(k as int));
        }
        if let Some(value) = value_of(metric, pool) {
            let one = Series { labels: labels_of_pool(&pool.instance, &pool.tenant), value };
            let ghost before = series@;
            series.push(one);
            assert(one@.labels =~= pool_labels(pool.instance@, pool.tenant@));
            assert(all_series(series@) =~= all_series(before).push(one@));
        }
        k += 1;
    }
    assert(sorted.take(k as int) =~= sorted);
    series
}

fn encode_pools(view: &ConsoleView) -> (list: Vec<Family>)
    requires
        countable(view.pools@),
    ensures
        families(list@) == pool_families(*view),
{
    let order = pool_order(view);
    let mut list: Vec<Family> = Vec::new();
    list.push(
        Family {
            name: "server_connections",
            help: "Server connections this node holds, by the state they are in",
            kind: MetricKind::Gauge,
            series: encode_states(view, &order),
        },
    );
    list.push(
        Family {
            name: "server_connections_opening",
            help: "Server connections this node is opening and the instance does not hold yet",
            kind: MetricKind::Gauge,
            series: encode_pool_metric(view, &order, PoolMetric::Opening),
        },
    );
    list.push(
        Family {
            name: "server_connections_opened",
            help: "Server connections this node has opened for a tenant since it started",
            kind: MetricKind::Counter,
            series: encode_pool_metric(view, &order, PoolMetric::Opened),
        },
    );
    list.push(
        Family {
            name: "clients_waiting",
            help: "Clients queued for a connection slot",
            kind: MetricKind::Gauge,
            series: encode_pool_metric(view, &order, PoolMetric::Waiting),
        },
    );
    list.push(
        Family {
            name: "demand_slots",
            help: "Connection slots this node reports it needs for a tenant",
            kind: MetricKind::Gauge,
            series: encode_pool_metric(view, &order, PoolMetric::Demand),
        },
    );
    list.push(
        Family {
            name: "tenant_min_slots",
            help: "The slots a tenant is guaranteed by the rule the cluster configuration writes",
            kind: MetricKind::Gauge,
            series: encode_pool_metric(view, &order, PoolMetric::Min),
        },
    );
    list.push(
        Family {
            name: "tenant_max_slots",
            help: "The slots a tenant may not exceed by the rule the cluster configuration writes",
            kind: MetricKind::Gauge,
            series: encode_pool_metric(view, &order, PoolMetric::Max),
        },
    );
    assert(families(list@) =~= pool_families(*view));
    list
}

/// Each instance's total budget together with the parts it was derived from,
/// in the order the derivation subtracts them, so that why a budget is what it
/// is can be read off a dashboard the same way `SHOW INSTANCES` reads.
#[derive(Debug, Clone, Copy, PartialEq, Eq, Structural)]
pub enum InstanceMetric {
    MaxConnections,
    Reserved,
    ForeignPeak,
    Margin,
    Shortfall,
    Total,
}

/// The number that a budget gives a metric.
pub open spec fn budget_value(metric: InstanceMetric, budget: BudgetInputs) -> u32 {
    match metric {
        InstanceMetric::MaxConnections => budget.limits.max_connections,
        InstanceMetric::Reserved => reserved_total(budget.limits),
        InstanceMetric::ForeignPeak => budget.foreign_peak,
        InstanceMetric::Margin => budget.margin,
        InstanceMetric::Shortfall => budget_shortfall(budget),
        InstanceMetric::Total => budget_total(budget),
    }
}

/// The instances in order.
pub open spec fn instances_in_order(instances: Seq<InstanceSnapshot>) -> Seq<InstanceSnapshot> {
    let order = sorted_order::<InstanceId>(snapshot_names(instances));
    Seq::new(instances.len(), |k: int| instances[order[k]])
}

/// The series of a metric over some instances.
pub open spec fn instance_series(
    metric: InstanceMetric,
    instances: Seq<InstanceSnapshot>,
) -> Seq<SeriesView> {
    Seq::new(
        instances.len(),
        |k: int|
            SeriesView {
                labels: instance_labels(instances[k].instance@),
                value: budget_value(metric, instances[k].budget@) as nat,
            },
    )
}

/// A gauge over some instances.
pub open spec fn instance_gauge(
    name: Seq<char>,
    help: Seq<char>,
    metric: InstanceMetric,
    instances: Seq<InstanceSnapshot>,
) -> FamilyView {
    FamilyView { name, help, kind: MetricKind::Gauge, series: instance_series(metric, instances) }
}

/// Each instance's total budget together with the parts it was derived from.
pub open spec fn instance_families(view: ConsoleView) -> Seq<FamilyView> {
    let instances = instances_in_order(view.instances@);
    seq![
        instance_gauge(
            "max_connections"@,
            "The instance's max_connections setting"@,
            InstanceMetric::MaxConnections,
            instances,
        ),
        instance_gauge(
            "reserved_connections"@,
            "Connections the instance reserves for superusers and for reserved roles"@,
            InstanceMetric::Reserved,
            instances,
        ),
        instance_gauge(
            "foreign_connections_peak"@,
            "The highest number of connections not opened by this system seen over the window"@,
            InstanceMetric::ForeignPeak,
            instances,
        ),
        instance_gauge(
            "budget_margin"@,
            "The margin held back from the instance's total budget"@,
            InstanceMetric::Margin,
            instances,
        ),
        instance_gauge(
            "budget_shortfall"@,
            "By how much the deductions exceed max_connections, leaving the budget at zero"@,
            InstanceMetric::Shortfall,
            instances,
        ),
        instance_gauge(
            "total_budget_slots"@,
            "Connections this system may hold on the instance, as derived from the instance"@,
            InstanceMetric::Total,
            instances,
        ),
    ]
}

fn of_budget(metric: InstanceMetric, budget: &TotalBudget) -> (value: u32)
    ensures
        value == budget_value(metric, budget@),
{
    match metric {
        InstanceMetric::MaxConnections => budget.inputs().limits.max_connections,
        InstanceMetric::Reserved => budget.inputs().limits.reserved(),
        InstanceMetric::ForeignPeak => budget.inputs().foreign_peak,
        InstanceMetric::Margin => budget.inputs().margin,
        InstanceMetric::Shortfall => budget.shortfall(),
        InstanceMetric::Total => budget.total(),
    }
}

fn instance_order(view: &ConsoleView) -> (order: Vec<usize>)
    ensures
        order@.len() == view.instances@.len(),
        forall|a: int| 0 <= a < order@.len() ==> (#[trigger] order@[a]) < view.instances@.len(),
        forall|a: int|
            0 <= a < order@.len() ==> view.instances@[#[trigger] order@[a] as int]
                == instances_in_order(view.instances@)[a],
{
    let mut names: Vec<InstanceId> = Vec::new();
    let mut k: usize = 0;
    while k < view.instances.len()
        invariant
            k <= view.instances@.len(),
            names@.len() == k,
            forall|j: int| 0 <= j < k ==> (#[trigger] names@[j])@ == view.instances@[j].instance@,
        decreases view.instances@.len() - k,
    {
        names.push(view.instances[k].instance.clone());
        k += 1;
    }
    let order = sort(&names);
    assert(key_views(names@) =~= snapshot_names(view.instances@));
    assert forall|a: int| 0 <= a < order@.len() implies (#[trigger] order@[a])
        < view.instances@.len() && view.instances@[order@[a] as int] == instances_in_order(
        view.instances@,
    )[a] by {
        assert(places(order@)[a] == order@[a]);
    }
    order
}

fn encode_instance_metric(
    view: &ConsoleView,
    order: &Vec<usize>,
    name: &'static str,
    help: &'static str,
    metric: InstanceMetric,
) -> (family: Family)
    requires
        order@.len() == view.instances@.len(),
        forall|a: int| 0 <= a < order@.len() ==> (#[trigger] order@[a]) < view.instances@.len(),
        forall|a: int|
            0 <= a < order@.len() ==> view.instances@[#[trigger] order@[a] as int]
                == instances_in_order(view.instances@)[a],
    ensures
        family@ == instance_gauge(name@, help@, metric, instances_in_order(view.instances@)),
{
    let ghost sorted = instances_in_order(view.instances@);
    let mut series: Vec<Series> = Vec::new();
    assert(all_series(series@) =~= instance_series(metric, sorted.take(0)));
    let mut k: usize = 0;
    while k < order.len()
        invariant
            k <= order@.len(),
            order@.len() == view.instances@.len(),
            sorted == instances_in_order(view.instances@),
            forall|a: int| 0 <= a < order@.len() ==> (#[trigger] order@[a]) < view.instances@.len(),
            forall|a: int|
                0 <= a < order@.len() ==> view.instances@[#[trigger] order@[a] as int] == sorted[a],
            all_series(series@) == instance_series(metric, sorted.take(k as int)),
        decreases order@.len() - k,
    {
        let snapshot = &view.instances[order[k]];
        let one = Series {
            labels: labels_of_instance(&snapshot.instance),
            value: of_budget(metric, &snapshot.budget) as u64,
        };
        let ghost before = series@;
        series.push(one);
        proof {
            assert(*snapshot == sorted[k as int]);
            assert(one@.labels =~= instance_labels(snapshot.instance@));
            assert(all_series(series@) =~= all_series(before).push(one@));
            assert(all_series(series@) =~= instance_series(metric, sorted.take(k + 1)));
        }
        k += 1;
    }
    assert(sorted.take(k as int) =~= sorted);
    Family { name, help, kind: MetricKind::Gauge, series }
}

fn encode_instances(view: &ConsoleView) -> (list: Vec<Family>)
    ensures
        families(list@) == instance_families(*view),
{
    let order = instance_order(view);
    let mut list: Vec<Family> = Vec::new();
    list.push(
        encode_instance_metric(
            view,
            &order,
            "max_connections",
            "The instance's max_connections setting",
            InstanceMetric::MaxConnections,
        ),
    );
    list.push(
        encode_instance_metric(
            view,
            &order,
            "reserved_connections",
            "Connections the instance reserves for superusers and for reserved roles",
            InstanceMetric::Reserved,
        ),
    );
    list.push(
        encode_instance_metric(
            view,
            &order,
            "foreign_connections_peak",
            "The highest number of connections not opened by this system seen over the window",
            InstanceMetric::ForeignPeak,
        ),
    );
    list.push(
        encode_instance_metric(
            view,
            &order,
            "budget_margin",
            "The margin held back from the instance's total budget",
            InstanceMetric::Margin,
        ),
    );
    list.push(
        encode_instance_metric(
            view,
            &order,
            "budget_shortfall",
            "By how much the deductions exceed max_connections, leaving the budget at zero",
            InstanceMetric::Shortfall,
        ),
    );
    list.push(
        encode_instance_metric(
            view,
            &order,
            "total_budget_slots",
            "Connections this system may hold on the instance, as derived from the instance",
            InstanceMetric::Total,
        ),
    );
    assert(families(list@) =~= instance_families(*view));
    list
}

/// Every metric of a node.
pub open spec fn node_families(view: ConsoleView) -> Seq<FamilyView> {
    grant_families(view) + pool_families(view) + instance_families(view)
}

/// Every metric of this node, in the order in which they are written.
///
/// It is given one reading of the node and reads nothing else, so the desired
/// state and the actual connections in one scrape are of the same moment.
/// Taking them from two readings would show them apart while they agree, or
/// together while they do not, and it is exactly their agreement that the
/// connection cap rests on.
///
/// **What this node cannot know is left out rather than published as a zero.**
/// The connections behind another proxy's grant, and the share of a tenant no
/// rule covers, have no series here: a zero would be the different claim that
/// the number was measured and found to be none.
///
/// The series are written in the order the tables of the admin console list
/// their rows, so two scrapes of the same reading are the same text and a
/// diff of two scrapes shows what moved.
pub fn metrics(view: &ConsoleView) -> (list: Vec<Family>)
    requires
        countable(view.pools@),
    ensures
        families(list@) == node_families(*view),
{
    let mut list = encode_grants(view);
    let mut pools = encode_pools(view);
    let mut instances = encode_instances(view);
    let ghost parts = (list@, pools@, instances@);
    list.append(&mut pools);
    list.append(&mut instances);
    assert(families(list@) =~= families(parts.0) + families(parts.1) + families(parts.2));
    list
}

/// What some series come to together.
pub open spec fn series_sum(series: Seq<SeriesView>) -> nat
    decreases series.len(),
{
    if series.len() == 0 {
        0
    } else {
        series_sum(series.drop_last()) + series.last().value
    }
}

/// The states that a pool's connections are in add up to the connections that
/// the total budget counts.
pub proof fn law_the_states_add_up_to_what_the_budget_counts(pool: PoolSnapshot)
    requires
        pool.stats.actual_count() <= i64::MAX,
    ensures
        series_sum(pool_states(pool)) == pool.stats.actual_count(),
{
    let states = pool_states(pool);
    let two = states.drop_last();
    let one = two.drop_last();
    assert(series_sum(one.drop_last()) == 0);
    assert(series_sum(one) == states[0].value);
    assert(series_sum(two) == states[0].value + states[1].value);
}

proof fn lemma_series_sum(series: Seq<SeriesView>, values: Seq<u32>)
    requires
        series.len() == values.len(),
        forall|k: int| 0 <= k < values.len() ==> (#[trigger] series[k]).value == values[k],
    ensures
        series_sum(series) == seq_sum(values),
    decreases series.len(),
{
    if series.len() > 0 {
        lemma_series_sum(series.drop_last(), values.drop_last());
        assert(series.last().value == values.last());
    }
}

/// What is granted on an instance and what is granted to no one come to its
/// total budget.
pub proof fn law_the_granted_and_the_unallocated_make_up_the_budget(
    view: ConsoleView,
    instance: Seq<char>,
    holders: Seq<HolderName>,
)
    requires
        entry_fits(view.table@),
        view.table@.contains_key(instance),
        lists::<Holder, u32>(holders, view.table@[instance].granted),
    ensures
        series_sum(grants_on(view, instance)) + unallocated(view, seq![instance])[0].value
            == table_budget(view.table@, instance),
{
    let granted = view.table@[instance].granted;
    lemma_listing::<Holder>(holders, granted.dom());
    let values = Seq::new(holders.len(), |k: int| granted[holders[k]]);
    let series = grants_on(view, instance);
    assert forall|k: int| 0 <= k < values.len() implies (#[trigger] series[k]).value
        == values[k] by {
        assert(granted.contains_key(holders[k]));
    }
    lemma_series_sum(series, values);
    lemma_sum_zipped(holders, values);
    assert(zipped(holders, values) =~= as_nats(granted)) by {
        assert forall|h: HolderName| zipped(holders, values).contains_key(h) implies zipped(
            holders,
            values,
        )[h] == as_nats(granted)[h] by {
            let j = holders.index_of(h);
            assert(holders.contains(h));
            assert(holders[j] == h);
        }
    }
}

/// What the body is written in. The version is part of the type, so a scraper
/// that only speaks the older Prometheus text format can tell.
pub const CONTENT_TYPE: &'static str =
    "application/openmetrics-text; version=1.0.0; charset=utf-8";

/// The one path a scrape reads. A node publishes nothing else over this
/// listener, so a request for anything else is answered without reading the
/// node at all.
pub const PATH: &'static str = "/metrics";

/// How much of a request head is read before giving up on it. A scrape sends a
/// request line and a handful of headers; anything longer is not one.
pub const HEAD_LIMIT: usize = 8192;

/// Whether a request head is read: up to the blank line that ends it, or as
/// much as is read at most.
pub fn head_read(head: &[u8]) -> (read: bool)
    ensures
        read == (head@.len() >= HEAD_LIMIT || (head@.len() >= 4 && head@.subrange(
            head@.len() - 4,
            head@.len() as int,
        ) == seq![13u8, 10u8, 13u8, 10u8])),
{
    let n: usize = head.len();
    if n >= HEAD_LIMIT {
        return true;
    }
    if n < 4 {
        return false;
    }
    let ended = head[n - 4] == 13 && head[n - 3] == 10 && head[n - 2] == 13 && head[n - 1] == 10;
    proof {
        let end = head@.subrange(head@.len() - 4, head@.len() as int);
        if ended {
            assert(end =~= seq![13u8, 10u8, 13u8, 10u8]);
        } else {
            assert(end[0] == head@[n - 4] && end[1] == head@[n - 3] && end[2] == head@[n - 2]
                && end[3] == head@[n - 1]);
        }
    }
    ended
}

/// Where the white space from `from` on ends.
pub open spec fn space_end(s: Seq<char>, from: int) -> int
    decreases s.len() - from,
{
    if from >= s.len() || !is_space(s[from]) {
        from
    } else {
        space_end(s, from + 1)
    }
}

/// Where the word from `from` on ends.
pub open spec fn word_end(s: Seq<char>, from: int) -> int
    decreases s.len() - from,
{
    if from >= s.len() || is_space(s[from]) {
        from
    } else {
        word_end(s, from + 1)
    }
}

/// The first two words of the first line: the method and the target.
pub open spec fn request_of(head: Seq<char>) -> Option<(Seq<char>, Seq<char>)> {
    let line = head.subrange(0, find(head, '\n'));
    let a = space_end(line, 0);
    let b = word_end(line, a);
    let c = space_end(line, b);
    let d = word_end(line, c);
    if a < b && c < d {
        Some((line.subrange(a, b), line.subrange(c, d)))
    } else {
        None
    }
}

fn past_space(chars: &Vec<char>, from: usize) -> (end: usize)
    requires
        from <= chars@.len(),
    ensures
        end == space_end(chars@, from as int),
        from <= end <= chars@.len(),
{
    let mut end: usize = from;
    while end < chars.len() && is_white(chars[end])
        invariant
            from <= end <= chars@.len(),
            space_end(chars@, from as int) == space_end(chars@, end as int),
        decreases chars@.len() - end,
    {
        end += 1;
    }
    end
}

fn past_word(chars: &Vec<char>, from: usize) -> (end: usize)
    requires
        from <= chars@.len(),
    ensures
        end == word_end(chars@, from as int),
        from <= end <= chars@.len(),
{
    let mut end: usize = from;
    while end < chars.len() && !is_white(chars[end])
        invariant
            from <= end <= chars@.len(),
            word_end(chars@, from as int) == word_end(chars@, end as int),
        decreases chars@.len() - end,
    {
        end += 1;
    }
    end
}

fn request_line(head: &Vec<char>) -> (words: Option<(Vec<char>, Vec<char>)>)
    ensures
        words is Some <==> request_of(head@) is Some,
        words matches Some((method, target)) ==> request_of(head@) == Some((method@, target@)),
{
    proof {
        lemma_find(head@, '\n');
    }
    let newline: usize = find_char(head, '\n', 0);
    let line = part(head, 0, newline);
    let a: usize = past_space(&line, 0);
    let b: usize = past_word(&line, a);
    let c: usize = past_space(&line, b);
    let d: usize = past_word(&line, c);
    if a < b && c < d {
        Some((part(&line, a, b), part(&line, c, d)))
    } else {
        None
    }
}

/// Where the path of a target from `from` on ends.
pub open spec fn path_end(target: Seq<char>, from: int) -> int
    decreases target.len() - from,
{
    if from >= target.len() || target[from] == '?' || target[from] == '#' {
        from
    } else {
        path_end(target, from + 1)
    }
}

/// The path of a request target, with any query string left off: a scraper
/// that appends parameters is still asking for the same one path.
pub open spec fn path_in(target: Seq<char>) -> Seq<char> {
    target.subrange(0, path_end(target, 0))
}

fn path_of(target: &Vec<char>) -> (path: String)
    ensures
        path@ == path_in(target@),
{
    let mut end: usize = 0;
    while end < target.len() && target[end] != '?' && target[end] != '#'
        invariant
            end <= target@.len(),
            path_end(target@, 0) == path_end(target@, end as int),
        decreases target@.len() - end,
    {
        end += 1;
    }
    text_of(&part(target, 0, end))
}

/// What a request asks for.
#[derive(Debug, Clone, Copy, PartialEq, Eq, Structural)]
pub enum Scrape {
    /// The metrics.
    Metrics,
    /// Something else.
    Elsewhere,
    /// Something that is no read.
    NotARead,
    /// It is no request.
    NotHttp,
}

/// What a request asks for, by its head.
pub open spec fn scrape_of(head: Seq<char>) -> Scrape {
    match request_of(head) {
        Some((method, target)) => if method == "GET"@ {
            if path_in(target) == "/metrics"@ {
                Scrape::Metrics
            } else {
                Scrape::Elsewhere
            }
        } else {
            Scrape::NotARead
        },
        None => Scrape::NotHttp,
    }
}

/// Decides what a request asks for, by its head.
pub fn scrape(head: &str) -> (asked: Scrape)
    ensures
        asked == scrape_of(head@),
{
    match request_line(&chars_of(head)) {
        Some((method, target)) => if same_text(text_of(&method).as_str(), "GET") {
            if same_text(path_of(&target).as_str(), PATH) {
                Scrape::Metrics
            } else {
                Scrape::Elsewhere
            }
        } else {
            Scrape::NotARead
        },
        None => Scrape::NotHttp,
    }
}

/// Decides what a request asks for, by the bytes of its head. Bytes that are no
/// UTF-8 are replaced.
pub fn scrape_in(head: &[u8]) -> (asked: Scrape)
    ensures
        asked == scrape_of(lossy(head@)),
{
    scrape(lossy_text(head).as_str())
}

/// Every answer closes the connection it was written on. A scrape is one
/// request, and keeping the socket would hold a reading of the node open
/// against the next one.
pub open spec fn http(
    code: nat,
    reason: Seq<char>,
    content_type: Seq<char>,
    body: Seq<char>,
) -> Seq<char> {
    "HTTP/1.1 "@ + decimal(code) + " "@ + reason + "\r\nContent-Type: "@ + content_type
        + "\r\nContent-Length: "@ + decimal(encode_utf8(body).len())
        + "\r\nConnection: close\r\n\r\n"@ + body
}

fn body(code: u16, reason: &str, content_type: &str, content: &str) -> (response: String)
    ensures
        response@ == http(code as nat, reason@, content_type@, content@),
{
    let mut text = "HTTP/1.1 ".to_owned();
    text.append(decimal_text(code as u64).as_str());
    text.append(" ");
    text.append(reason);
    text.append("\r\nContent-Type: ");
    text.append(content_type);
    text.append("\r\nContent-Length: ");
    text.append(decimal_text(content.as_bytes().len() as u64).as_str());
    text.append("\r\nConnection: close\r\n\r\n");
    text.append(content);
    text
}

fn refusal(code: u16, reason: &str, message: &str) -> (response: String)
    ensures
        response@ == http(code as nat, reason@, "text/plain; charset=utf-8"@, message@),
{
    body(code, reason, "text/plain; charset=utf-8", message)
}

/// The answer to a request, with the metrics as they are written: they are read
/// only where the request asks for them.
pub fn answer(asked: Scrape, exposition: &str) -> (response: String)
    ensures
        response@ == match asked {
            Scrape::Metrics => http(200, "OK"@, CONTENT_TYPE@, exposition@),
            Scrape::Elsewhere => http(
                404,
                "Not Found"@,
                "text/plain; charset=utf-8"@,
                "This node publishes /metrics.\n"@,
            ),
            Scrape::NotARead => http(
                405,
                "Method Not Allowed"@,
                "text/plain; charset=utf-8"@,
                "A scrape reads /metrics.\n"@,
            ),
            Scrape::NotHttp => http(
                400,
                "Bad Request"@,
                "text/plain; charset=utf-8"@,
                "Not an HTTP request.\n"@,
            ),
        },
{
    match asked {
        Scrape::Metrics => body(200, "OK", CONTENT_TYPE, exposition),
        Scrape::Elsewhere => refusal(404, "Not Found", "This node publishes /metrics.\n"),
        Scrape::NotARead => refusal(405, "Method Not Allowed", "A scrape reads /metrics.\n"),
        Scrape::NotHttp => refusal(400, "Bad Request", "Not an HTTP request.\n"),
    }
}

/// A pool's connections are published by the state they are in, under the pool's
/// own instance, database and user: those idle as idle, those held as active and
/// those on their way out as closing, and none in two states.
pub proof fn law_every_state_is_published_under_its_name(pool: PoolSnapshot)
    requires
        pool.stats.idle <= i64::MAX,
        pool.stats.in_use <= i64::MAX,
        pool.stats.closing <= i64::MAX,
    ensures
        ({
            let states = pool_states(pool);
            let own = seq![
                ("instance"@, pool.instance@),
                ("database"@, pool.tenant@.1),
                ("user"@, pool.tenant@.0),
            ];
            &&& states.len() == 3
            &&& states[0].labels == own.push(("state"@, "idle"@)) && states[0].value
                == pool.stats.idle
            &&& states[1].labels == own.push(("state"@, "active"@)) && states[1].value
                == pool.stats.in_use
            &&& states[2].labels == own.push(("state"@, "closing"@)) && states[2].value
                == pool.stats.closing
        }),
{
}

/// A pool adds its own three states to what is published of the pools before it,
/// and to every other metric its own series, where the number is known, and no
/// more.
pub proof fn law_every_pool_adds_its_own_series(
    metric: PoolMetric,
    pools: Seq<PoolSnapshot>,
    pool: PoolSnapshot,
)
    ensures
        all_states(Seq::empty()) == Seq::<SeriesView>::empty(),
        all_states(pools.push(pool)) == all_states(pools) + pool_states(pool),
        pool_series(metric, Seq::empty()) == Seq::<SeriesView>::empty(),
        pool_value(metric, pool) is None ==> pool_series(metric, pools.push(pool)) == pool_series(
            metric,
            pools,
        ),
        pool_value(metric, pool) matches Some(value) ==> pool_series(metric, pools.push(pool))
            == pool_series(metric, pools).push(
            SeriesView {
                labels: seq![
                    ("instance"@, pool.instance@),
                    ("database"@, pool.tenant@.1),
                    ("user"@, pool.tenant@.0),
                ],
                value,
            },
        ),
{
    assert(pools.push(pool).drop_last() =~= pools);
}

/// What a pool gives each metric: the connections being opened, those ever
/// opened, the clients that wait, what they and those who hold or are given one
/// come to, and the share of its tenant, which is left out where no rule gives
/// one.
pub proof fn law_a_metric_is_of_what_it_names(pool: PoolSnapshot)
    requires
        pool.stats.opening <= i64::MAX,
        pool.stats.waiting + pool.stats.in_use + pool.stats.opening <= i64::MAX,
    ensures
        pool_value(PoolMetric::Opening, pool) == Some(pool.stats.opening as nat),
        pool_value(PoolMetric::Opened, pool) == Some(pool.stats.opened as nat),
        pool_value(PoolMetric::Waiting, pool) == Some(pool.stats.waiting as nat),
        pool_value(PoolMetric::Demand, pool) == Some(
            (pool.stats.waiting + pool.stats.in_use + pool.stats.opening) as nat,
        ),
        pool.policy is None ==> pool_value(PoolMetric::Min, pool) is None && pool_value(
            PoolMetric::Max,
            pool,
        ) is None,
        pool.policy matches Some(policy) ==> pool_value(PoolMetric::Min, pool) == Some(
            policy.min as nat,
        ) && pool_value(PoolMetric::Max, pool) == Some(policy.max as nat),
{
}

/// The metrics of the pools and of the instances stand under their names: each
/// family is of what its name says, over the pools or the instances in order.
pub proof fn law_every_family_is_of_what_its_name_says(view: ConsoleView)
    ensures
        ({
            let pools = pools_in_order(view.pools@);
            let instances = instances_in_order(view.instances@);
            let all = node_families(view);
            &&& all.len() == 15
            &&& all[0].name == "granted_slots"@
            &&& all[1].name == "unallocated_slots"@
            &&& all[2].name == "server_connections"@ && all[2].series == all_states(pools)
            &&& all[3].name == "server_connections_opening"@ && all[3].series == pool_series(
                PoolMetric::Opening,
                pools,
            )
            &&& all[4].name == "server_connections_opened"@ && all[4].series == pool_series(
                PoolMetric::Opened,
                pools,
            ) && all[4].kind == MetricKind::Counter
            &&& all[5].name == "clients_waiting"@ && all[5].series == pool_series(
                PoolMetric::Waiting,
                pools,
            )
            &&& all[6].name == "demand_slots"@ && all[6].series == pool_series(
                PoolMetric::Demand,
                pools,
            )
            &&& all[7].name == "tenant_min_slots"@ && all[7].series == pool_series(
                PoolMetric::Min,
                pools,
            )
            &&& all[8].name == "tenant_max_slots"@ && all[8].series == pool_series(
                PoolMetric::Max,
                pools,
            )
            &&& all[9].name == "max_connections"@ && all[9].series == instance_series(
                InstanceMetric::MaxConnections,
                instances,
            )
            &&& all[10].name == "reserved_connections"@ && all[10].series == instance_series(
                InstanceMetric::Reserved,
                instances,
            )
            &&& all[11].name == "foreign_connections_peak"@ && all[11].series == instance_series(
                InstanceMetric::ForeignPeak,
                instances,
            )
            &&& all[12].name == "budget_margin"@ && all[12].series == instance_series(
                InstanceMetric::Margin,
                instances,
            )
            &&& all[13].name == "budget_shortfall"@ && all[13].series == instance_series(
                InstanceMetric::Shortfall,
                instances,
            )
            &&& all[14].name == "total_budget_slots"@ && all[14].series == instance_series(
                InstanceMetric::Total,
                instances,
            )
            &&& forall|k: int|
                0 <= k < 15 && k != 4 ==> (#[trigger] all[k]).kind == MetricKind::Gauge
        }),
{
}

/// Every pool of the node is published, whichever order they are in.
pub proof fn law_every_pool_is_published_once(pools: Seq<PoolSnapshot>, k: int)
    requires
        0 <= k < pools.len(),
    ensures
        pools_in_order(pools).len() == pools.len(),
        pools_in_order(pools).contains(pools[k]),
{
    let order = sorted_order::<Slot>(pool_slots(pools));
    lemma_sorted_order_is_one::<Slot>(pool_slots(pools));
    assert(order.contains(k));
    let p = choose|p: int| 0 <= p < order.len() && order[p] == k;
    assert(pools_in_order(pools)[p] == pools[k]);
}

/// What an instance publishes of its total budget are the terms that it was
/// derived from and what they come to, each under its own metric.
pub proof fn law_an_instance_publishes_the_terms_of_its_budget(
    instances: Seq<InstanceSnapshot>,
    k: int,
)
    requires
        0 <= k < instances.len(),
    ensures
        ({
            let budget = instances[k].budget@;
            &&& instance_series(InstanceMetric::MaxConnections, instances)[k].value
                == budget.limits.max_connections
            &&& budget.limits.superuser_reserved_connections + budget.limits.reserved_connections
                <= u32::MAX ==> instance_series(InstanceMetric::Reserved, instances)[k].value
                == budget.limits.superuser_reserved_connections
                + budget.limits.reserved_connections
            &&& instance_series(InstanceMetric::ForeignPeak, instances)[k].value
                == budget.foreign_peak
            &&& instance_series(InstanceMetric::Margin, instances)[k].value == budget.margin
            &&& instance_series(InstanceMetric::Shortfall, instances)[k].value == budget_shortfall(
                budget,
            )
            &&& instance_series(InstanceMetric::Total, instances)[k].value == budget_total(budget)
            &&& instance_series(InstanceMetric::Total, instances)[k].labels == seq![
                ("instance"@, instances[k].instance@),
            ]
        }),
{
}

proof fn lemma_space_end(s: Seq<char>, from: int, to: int)
    requires
        0 <= from <= to <= s.len(),
        forall|j: int| from <= j < to ==> is_space(#[trigger] s[j]),
        to < s.len() ==> !is_space(s[to]),
    ensures
        space_end(s, from) == to,
    decreases to - from,
{
    if from < to {
        lemma_space_end(s, from + 1, to);
    }
}

proof fn lemma_word_end(s: Seq<char>, from: int, to: int)
    requires
        0 <= from <= to <= s.len(),
        forall|j: int| from <= j < to ==> !is_space(#[trigger] s[j]),
        to < s.len() ==> is_space(s[to]),
    ensures
        word_end(s, from) == to,
    decreases to - from,
{
    if from < to {
        lemma_word_end(s, from + 1, to);
    }
}

/// Whether a text is a word: not empty, and without white space.
pub open spec fn is_word(s: Seq<char>) -> bool {
    s.len() > 0 && forall|j: int| 0 <= j < s.len() ==> !is_space(#[trigger] s[j])
}

/// A request is read as the method and the target that its first line names: two
/// words with a space between them and a space behind them, whatever follows.
pub proof fn law_a_request_is_its_method_and_its_target(
    method: Seq<char>,
    target: Seq<char>,
    rest: Seq<char>,
)
    requires
        is_word(method),
        is_word(target),
    ensures
        request_of(method + seq![' '] + target + seq![' '] + rest) == Some((method, target)),
{
    let head = method + seq![' '] + target + seq![' '] + rest;
    let two = method.len() + 1 + target.len();
    lemma_find(head, '\n');
    assert forall|j: int| 0 <= j <= two implies head[j] != '\n' by {
        if j < method.len() {
            assert(head[j] == method[j]);
        } else if j > method.len() && j < two {
            assert(head[j] == target[j - method.len() - 1]);
        }
    }
    let end = find(head, '\n');
    assert(end > two) by {
        if end <= two {
            assert(end < head.len());
            assert(head[end] == '\n');
        }
    }
    let line = head.subrange(0, end);
    let m = method.len() as int;
    assert forall|j: int| 0 <= j < m implies !is_space(#[trigger] line[j]) by {
        assert(line[j] == method[j]);
    }
    assert forall|j: int| m < j < two implies !is_space(#[trigger] line[j]) by {
        assert(line[j] == target[j - m - 1]);
    }
    assert(line[m] == ' ' && line[two as int] == ' ');
    lemma_space_end(line, 0, 0);
    lemma_word_end(line, 0, m);
    lemma_space_end(line, m, m + 1);
    lemma_word_end(line, m + 1, two as int);
    assert(line.subrange(0, m) =~= method);
    assert(line.subrange(m + 1, two as int) =~= target);
}

proof fn lemma_path_end(target: Seq<char>, from: int, to: int)
    requires
        0 <= from <= to <= target.len(),
        forall|j: int|
            from <= j < to ==> (#[trigger] target[j]) != '?' && target[j] != '#',
        to < target.len() ==> target[to] == '?' || target[to] == '#',
    ensures
        path_end(target, from) == to,
    decreases to - from,
{
    if from < to {
        lemma_path_end(target, from + 1, to);
    }
}

/// A query behind a path does not make it another one, and the metrics are read
/// with `GET` at their one path, with a query or without.
pub proof fn law_the_metrics_are_read_at_one_path(
    method: Seq<char>,
    path: Seq<char>,
    query: Seq<char>,
    rest: Seq<char>,
)
    requires
        is_word(method),
        is_word(path),
        forall|j: int| 0 <= j < path.len() ==> (#[trigger] path[j]) != '?' && path[j] != '#',
        query.len() > 0 ==> query[0] == '?' || query[0] == '#',
        forall|j: int| 0 <= j < query.len() ==> !is_space(#[trigger] query[j]),
    ensures
        path_in(path + query) == path,
        ({
            let asked = scrape_of(method + seq![' '] + (path + query) + seq![' '] + rest);
            &&& asked is Metrics <==> method == "GET"@ && path == "/metrics"@
            &&& asked is Elsewhere <==> method == "GET"@ && path != "/metrics"@
            &&& asked is NotARead <==> method != "GET"@
        }),
{
    let target = path + query;
    assert forall|j: int| 0 <= j < path.len() implies (#[trigger] target[j]) != '?' && target[j]
        != '#' by {
        assert(target[j] == path[j]);
    }
    if query.len() > 0 {
        assert(target[path.len() as int] == query[0]);
    }
    lemma_path_end(target, 0, path.len() as int);
    assert(target.subrange(0, path.len() as int) =~= path);
    assert forall|j: int| 0 <= j < target.len() implies !is_space(#[trigger] target[j]) by {
        if j < path.len() {
            assert(target[j] == path[j]);
        } else {
            assert(target[j] == query[j - path.len()]);
        }
    }
    law_a_request_is_its_method_and_its_target(method, target, rest);
}

/// Every instance adds the grants on it to those published, one for each holder
/// under its own names, and the slots of its budget that nobody is granted.
pub proof fn law_every_instance_publishes_its_grants(
    view: ConsoleView,
    names: Seq<Seq<char>>,
    instance: Seq<char>,
    holder: HolderName,
)
    requires
        view.table@.contains_key(instance),
        entry_fits(view.table@),
        view.table@[instance].granted.contains_key(holder),
    ensures
        grants_on_all(view, Seq::empty()) == Seq::<SeriesView>::empty(),
        grants_on_all(view, names.push(instance)) == grants_on_all(view, names) + grants_on(
            view,
            instance,
        ),
        grant_series(view, instance, holder).value == view.table@[instance].granted[holder],
        grant_series(view, instance, holder).labels == seq![
            ("instance"@, instance),
            ("database"@, holder.0.1),
            ("user"@, holder.0.0),
            ("proxy"@, holder.1),
        ],
        unallocated(view, names.push(instance)).len() == names.len() + 1,
        unallocated(view, names.push(instance)).last().labels == seq![("instance"@, instance)],
        unallocated(view, names.push(instance)).last().value + slot_sum(
            view.table@[instance].granted,
        ) == view.table@[instance].budget,
{
    assert(names.push(instance).drop_last() =~= names);
    assert(view.table@[instance].fits());
    assert(grant_series(view, instance, holder).labels =~= seq![
        ("instance"@, instance),
        ("database"@, holder.0.1),
        ("user"@, holder.0.0),
        ("proxy"@, holder.1),
    ]);
}

/// A count is published as it is, up to the largest that a gauge carries.
pub proof fn law_a_count_is_published_as_it_is(count: nat)
    ensures
        count <= i64::MAX ==> counted(count) == count,
        count > i64::MAX ==> counted(count) == i64::MAX,
{
}

/// A reply ends with its body, behind a head that says how many bytes the body has:
/// two bodies of as many bytes have the same head, however many characters they
/// are.
pub proof fn law_a_reply_announces_the_bytes_of_its_body(
    code: nat,
    reason: Seq<char>,
    content_type: Seq<char>,
    one: Seq<char>,
    other: Seq<char>,
)
    ensures
        ({
            let first = http(code, reason, content_type, one);
            let second = http(code, reason, content_type, other);
            let head = first.len() - one.len();
            &&& head >= 0
            &&& first.subrange(head, first.len() as int) == one
            &&& encode_utf8(one).len() == encode_utf8(other).len() ==> second == first.subrange(
                0,
                head,
            ) + other
        }),
{
    let first = http(code, reason, content_type, one);
    let second = http(code, reason, content_type, other);
    let head = first.len() - one.len();
    assert(first.subrange(head, first.len() as int) =~= one);
    if encode_utf8(one).len() == encode_utf8(other).len() {
        assert(second =~= first.subrange(0, head) + other);
    }
}

} // verus!
