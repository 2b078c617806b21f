//! How a node serves: what it needs to start, where a client goes, and what it
//! gives back when it stops.
use vstd::prelude::*;
use vstd::string::StringExecFns;

use crate::allocation::{InstanceId, ProxyId};
use crate::budget::{
    law_every_deduction_counts_once, law_the_window_decides_what_counts, BudgetView, InstanceBudget,
    ServerLimits,
};
use crate::cancel::CancelRegistry;
use crate::config::{
    address_of, config_text, logs_in, password_of, rules_of, weighs, weights_of, ClusterConfig,
    ConfigError, InstanceSection, NodeConfig, PoolMode,
};
use crate::console::{is_console, ConsoleView, InstanceSnapshot, PoolSnapshot};
use crate::coordinator::InProcessCoordinator;
use crate::grant::{initial_coordinator, reconciled, Allocator, CoordinatorView};
use crate::inspect::{inspect_text, InspectError};
use crate::ordmap::{lists, OrdMap};
use crate::policy::{law_rolls_are_shared_by_weight, Policies, PoliciesView};
use crate::pool::PoolStats;
use crate::response::{ErrorResponse, ResponseView};
use crate::server::{connect_text, ConnectError, ServerCredentials};
use crate::startup::CancelKey;
use crate::tenant::{tenant_text, TenantId, TenantName};
use crate::time::{Duration, Instant};
use crate::tls::{roots_fault, roots_in, ServerTls};

verus! {

/// The name under which a node's own connections show.
pub const PROXY: &'static str = "proxy";

/// The name under which the connection that observes an instance shows.
pub const MONITOR: &'static str = "monitor";

/// Values the design leaves to measurement. None of them is a config key yet;
/// the defaults are provisional.
#[derive(Debug, Clone, Copy, PartialEq, Eq, Structural)]
pub struct ServeOptions {
    pub margin: u32,
    pub foreign_window: Duration,
    pub observe_interval: Duration,
    pub wait_timeout: Duration,
    pub shutdown_grace: Duration,
    pub release_delay: Duration,
}

impl Default for ServeOptions {
    fn default() -> (options: Self)
        ensures
            options.margin == 15,
            options.foreign_window@ == 60_000_000_000,
            options.observe_interval@ == 1_000_000_000,
            options.wait_timeout@ == 30_000_000_000,
            options.shutdown_grace@ == 15_000_000_000,
            options.release_delay@ == 60_000_000_000,
    {
        ServeOptions {
            margin: 15,
            foreign_window: Duration::from_secs(60),
            observe_interval: Duration::from_secs(1),
            wait_timeout: Duration::from_secs(30),
            shutdown_grace: Duration::from_secs(15),
            release_delay: Duration::from_secs(60),
        }
    }
}

/// Why a node does not serve.
#[derive(Debug, PartialEq, Eq)]
pub enum ServeError {
    SessionMode,
    NoMonitor,
    Config(ConfigError),
    Connect { instance: InstanceId, source: ConnectError },
    Inspect { instance: InstanceId, source: InspectError },
    Listen { addr: String, source: String },
}

/// Why a node does not serve, in words.
pub open spec fn serve_text(error: ServeError) -> Seq<char> {
    match error {
        ServeError::SessionMode => {
            "pool_mode = \"session\" is not served yet; set pool_mode = \"transaction\""@
        },
        ServeError::NoMonitor => {
            "no [monitor] section: the node needs a login that can read max_connections and count every backend on each instance"@
        },
        ServeError::Config(source) => "invalid config: "@ + config_text(source),
        ServeError::Connect { instance, source } => {
            "cannot reach instance `"@ + instance@ + "` to derive its total budget: "@
                + connect_text(source)
        },
        ServeError::Inspect { instance, source } => {
            "cannot read the limits of instance `"@ + instance@ + "`: "@ + inspect_text(source@)
        },
        ServeError::Listen { addr, source } => "cannot listen on "@ + addr@ + ": "@ + source@,
    }
}

impl ServeError {
    /// The error in words.
    pub fn to_string(&self) -> (text: String)
        ensures
            text@ == serve_text(*self),
    {
        match self {
            ServeError::SessionMode => {
                "pool_mode = \"session\" is not served yet; set pool_mode = \"transaction\"".to_owned()
            },
            ServeError::NoMonitor => {
                "no [monitor] section: the node needs a login that can read max_connections and count every backend on each instance".to_owned()
            },
            ServeError::Config(source) => {
                let mut text = "invalid config: ".to_owned();
                text.append(source.to_string().as_str());
                text
            },
            ServeError::Connect { instance, source } => {
                let mut text = "cannot reach instance `".to_owned();
                text.append(instance.as_str());
                text.append("` to derive its total budget: ");
                text.append(source.to_string().as_str());
                text
            },
            ServeError::Inspect { instance, source } => {
                let mut text = "cannot read the limits of instance `".to_owned();
                text.append(instance.as_str());
                text.append("`: ");
                text.append(source.to_string().as_str());
                text
            },
            ServeError::Listen { addr, source } => {
                let mut text = "cannot listen on ".to_owned();
                text.append(addr.as_str());
                text.append(": ");
                text.append(source.as_str());
                text
            },
        }
    }
}

/// What a node needs before it starts: a pool mode that is served, and a login
/// for the monitor.
pub fn ready(node: &NodeConfig, cluster: &ClusterConfig) -> (monitor: Result<
    ServerCredentials,
    ServeError,
>)
    ensures
        if cluster.cluster.pool_mode == PoolMode::Session {
            monitor matches Err(ServeError::SessionMode)
        } else {
            match node.monitor {
                None => monitor matches Err(ServeError::NoMonitor),
                Some(section) => monitor matches Ok(c) && logs_in(
                    c,
                    section.user@,
                    section.database@,
                    password_of(node.server@, section.user@),
                ),
            }
        },
{
    if cluster.cluster.pool_mode == PoolMode::Session {
        return Err(ServeError::SessionMode);
    }
    match node.monitor_credentials() {
        Some(credentials) => Ok(credentials),
        None => Err(ServeError::NoMonitor),
    }
}

/// An instance to look at before the node serves, and its address.
#[derive(Debug, PartialEq, Eq)]
pub struct Observed {
    pub instance: InstanceId,
    pub address: String,
}

/// What a node starts with, before it has looked at any instance.
pub struct Start<A> {
    pub monitor: ServerCredentials,
    pub server_tls: ServerTls,
    pub proxy: ProxyId,
    pub coordinator: InProcessCoordinator<A>,
    pub instances: Vec<Observed>,
}

/// Whether the instances to look at are those that the configuration lists, in
/// its order.
pub open spec fn observes(instances: Seq<Observed>, sections: Seq<InstanceSection>) -> bool {
    &&& instances.len() == sections.len()
    &&& forall|k: int|
        0 <= k < instances.len() ==> (#[trigger] instances[k]).instance@ == sections[k].name@
            && instances[k].address@ == address_of(sections[k].name@)
}

/// Decides whether a node can start, and what it starts with: a coordinator of
/// its own, under the name of the address it listens on, that holds the rules
/// of the cluster and grants nothing yet.
pub fn start<A: Allocator>(
    node: &NodeConfig,
    cluster: &ClusterConfig,
    options: &ServeOptions,
    root: Option<&[u8]>,
    allocator: A,
) -> (start: Result<Start<A>, ServeError>)
    requires
        weighs(*cluster),
    ensures
        if cluster.cluster.pool_mode == PoolMode::Session {
            start matches Err(ServeError::SessionMode)
        } else if node.monitor is None {
            start matches Err(ServeError::NoMonitor)
        } else {
            match node.server_tls_with(roots_in(root), roots_fault(root)) {
                Err(fault) => start matches Err(ServeError::Config(error)) && error.tells(fault),
                Ok(tls) => {
                    &&& start matches Ok(s) && s.server_tls@ == tls && logs_in(
                        s.monitor,
                        node.monitor->0.user@,
                        node.monitor->0.database@,
                        password_of(node.server@, node.monitor->0.user@),
                    ) && s.proxy@ == node.node.listen@ && s.coordinator.own_proxy()
                        == node.node.listen@ && s.coordinator.own_allocator() == allocator
                        && s.coordinator@ == (CoordinatorView {
                        policies: PoliciesView {
                            weights: weights_of(cluster.instance@),
                            rules: rules_of(cluster.tenant@),
                        },
                        release_delay: options.release_delay@,
                        ..initial_coordinator()
                    }) && observes(s.instances@, cluster.instance@)
                },
            }
        },
{
    let monitor = match ready(node, cluster) {
        Ok(monitor) => monitor,
        Err(error) => return Err(error),
    };
    let server_tls = match node.server_tls(root) {
        Ok(tls) => tls,
        Err(error) => return Err(ServeError::Config(error)),
    };
    let proxy = ProxyId::new(node.node.listen.clone());
    let mut coordinator = InProcessCoordinator::new(proxy.clone(), allocator).with_release_delay(
        options.release_delay,
    );
    coordinator.set_policies(cluster.policies());
    let mut instances: Vec<Observed> = Vec::new();
    let mut k: usize = 0;
    while k < cluster.instance.len()
        invariant
            k <= cluster.instance@.len(),
            instances@.len() == k,
            forall|j: int|
                0 <= j < k ==> (#[trigger] instances@[j]).instance@ == cluster.instance@[j].name@
                    && instances@[j].address@ == address_of(cluster.instance@[j].name@),
        decreases cluster.instance@.len() - k,
    {
        let section = &cluster.instance[k];
        instances.push(Observed { instance: section.id(), address: section.address() });
        k += 1;
    }
    Ok(Start { monitor, server_tls, proxy, coordinator, instances })
}

/// The foreign connections, with the observer's own among them.
pub open spec fn with_observer(foreign: u32) -> u32 {
    if foreign == u32::MAX {
        u32::MAX
    } else {
        (foreign + 1) as u32
    }
}

/// The observer's own connection carries this system's application name, so
/// the foreign count leaves it out. No pool holds it either, so it is counted
/// here rather than taken off the budget with the margin: the margin is a
/// setting an operator writes and reads back, and it would no longer be the
/// number they wrote.
pub fn including_the_observer(foreign: u32) -> (count: u32)
    ensures
        count == with_observer(foreign),
{
    foreign.saturating_add(1)
}

/// The budget that an instance starts with, after the first look at it.
pub fn first_budget(
    limits: ServerLimits,
    foreign: u32,
    options: &ServeOptions,
    now: Instant,
) -> (budget: InstanceBudget)
    ensures
        budget@ == (BudgetView {
            limits,
            margin: options.margin,
            window: options.foreign_window@,
            held: Seq::empty(),
        }).observed(now@, with_observer(foreign)),
{
    let mut budget = InstanceBudget::new(limits, options.margin, options.foreign_window);
    let _ = budget.observe(now, including_the_observer(foreign));
    budget
}

/// `rand::random_range` from 0 to below `total`: some number below `total`.
#[verifier::external_body]
fn roll(total: u32) -> (rolled: u32)
    requires
        total > 0,
    ensures
        rolled < total,
{
    rand::random_range(0..total)
}

/// Where a client goes.
#[derive(Debug, PartialEq, Eq)]
pub enum Destination {
    Console,
    Instance(InstanceId),
    Refused(ErrorResponse),
}

/// What a client is told whom no rule covers.
pub open spec fn unknown_tenant(tenant: TenantName) -> ResponseView {
    ResponseView::fatal(
        "28000"@,
        "no [tenant.\"…\"] rule covers "@ + tenant_text(tenant)
            + ", and there is no [tenant.\"*\"]"@,
    )
}

fn refuse_unknown_tenant(tenant: &TenantId) -> (response: ErrorResponse)
    ensures
        response@ == unknown_tenant(tenant@),
{
    let mut message = "no [tenant.\"…\"] rule covers ".to_owned();
    message.append(tenant.to_string().as_str());
    message.append(", and there is no [tenant.\"*\"]");
    ErrorResponse::fatal("28000", message)
}

/// Whether the weights of the instances that a tenant's rule lists add up to a
/// number below 2^32.
pub open spec fn routable(policies: PoliciesView, tenant: TenantName) -> bool {
    policies.resolve(tenant) matches Some(rule) ==> policies.weight_before(
        rule.instances,
        rule.instances.len() as int,
    ) <= u32::MAX
}

/// Whether a client of that tenant may go there, with that number rolled: to
/// the console where its database names it, else to the instance that the
/// number picks out of those its rule lists, or nowhere.
pub open spec fn goes(
    policies: PoliciesView,
    tenant: TenantName,
    rolled: nat,
    destination: Destination,
) -> bool {
    if tenant.1 == "pgsteward"@ {
        destination is Console
    } else {
        match policies.resolve(tenant) {
            None => destination matches Destination::Refused(response) && response@
                == unknown_tenant(tenant),
            Some(rule) => if rule.instances.len() == 0 {
                destination matches Destination::Refused(response) && response@ == unknown_tenant(
                    tenant,
                )
            } else {
                destination matches Destination::Instance(instance) && exists|k: int|
                    #[trigger] policies.picks(rule.instances, rolled, k) && instance@
                        == rule.instances[k]
            },
        }
    }
}

/// The database alone leads a client to the console: the rules are not asked,
/// and no other client gets there.
pub proof fn law_the_database_alone_leads_to_the_console(
    policies: PoliciesView,
    tenant: TenantName,
    rolled: nat,
    destination: Destination,
)
    requires
        goes(policies, tenant, rolled, destination),
    ensures
        destination is Console <==> tenant.1 == "pgsteward"@,
{
}

/// A client goes to no instance but one that its tenant's rule lists.
pub proof fn law_a_client_goes_where_its_rule_says(
    policies: PoliciesView,
    tenant: TenantName,
    rolled: nat,
    destination: Destination,
)
    requires
        goes(policies, tenant, rolled, destination),
        destination is Instance,
    ensures
        policies.resolve(tenant) matches Some(rule) && rule.instances.contains(
            destination->Instance_0@,
        ),
{
    let rule = policies.resolve(tenant)->0;
    let k = choose|k: int|
        #[trigger] policies.picks(rule.instances, rolled, k) && destination->Instance_0@
            == rule.instances[k];
    assert(rule.instances[k] == destination->Instance_0@);
}

/// Decides where a client goes, with that number rolled.
pub fn destination_by(policies: &Policies, tenant: &TenantId, rolled: u32) -> (destination:
    Destination)
    requires
        routable(policies@, tenant@),
    ensures
        goes(policies@, tenant@, rolled as nat, destination),
{
    if is_console(tenant) {
        return Destination::Console;
    }
    match policies.route_by(tenant, rolled) {
        Some(instance) => Destination::Instance(instance.clone()),
        None => Destination::Refused(refuse_unknown_tenant(tenant)),
    }
}

/// Decides where a client goes, at random among the instances that its rule
/// lists.
pub fn destination(policies: &Policies, tenant: &TenantId) -> (destination: Destination)
    requires
        routable(policies@, tenant@),
    ensures
        exists|rolled: nat| goes(policies@, tenant@, rolled, destination),
{
    if is_console(tenant) {
        assert(goes(policies@, tenant@, 0, Destination::Console));
        return Destination::Console;
    }
    let routed = policies.route(tenant, roll);
    match routed {
        Some(instance) => {
            let destination = Destination::Instance(instance.clone());
            proof {
                let rule = policies@.resolve(tenant@)->0;
                let (rolled, k) = choose|rolled: u32, k: int|
                    #[trigger] policies@.picks(rule.instances, rolled as nat, k) && instance@
                        == rule.instances[k];
                assert(policies@.picks(rule.instances, rolled as nat, k));
                assert(goes(policies@, tenant@, rolled as nat, destination));
            }
            destination
        },
        None => {
            let destination = Destination::Refused(refuse_unknown_tenant(tenant));
            assert(goes(policies@, tenant@, 0, destination));
            destination
        },
    }
}

/// Where a cancel request goes, if anywhere: the address of the instance, and
/// the key of the server connection.
///
/// A key this node did not issue, and one whose client is between requests,
/// are both dropped without a reply: a `CancelRequest` is unauthenticated,
/// and the protocol gives it no answer either way.
pub fn cancel_target(
    registry: &CancelRegistry,
    addresses: &OrdMap<InstanceId, String>,
    key: CancelKey,
) -> (target: Option<(String, CancelKey)>)
    ensures
        match registry@.target(key) {
            None => target is None,
            Some(aimed) => if addresses@.contains_key(aimed.instance) {
                target matches Some((address, backend)) && address@ == addresses@[aimed.instance]
                    && backend == aimed.backend
            } else {
                target is None
            },
        },
{
    match registry.target(key) {
        Some(target) => match addresses.get(target.instance()) {
            Some(address) => Some((address.clone(), target.backend())),
            None => None,
        },
        None => None,
    }
}

/// One pool's numbers, as its node keeps them.
#[derive(Debug, PartialEq, Eq)]
pub struct PoolReading {
    pub instance: InstanceId,
    pub tenant: TenantId,
    pub stats: PoolStats,
}

/// Whether a pool stands in a reading of the node as its numbers are, with the
/// share that the rules give its tenant.
pub open spec fn pool_shown(
    policies: PoliciesView,
    pool: PoolReading,
    snapshot: PoolSnapshot,
) -> bool {
    &&& snapshot.instance@ == pool.instance@
    &&& snapshot.tenant@ == pool.tenant@
    &&& snapshot.stats == pool.stats
    &&& snapshot.policy == policies.policy(pool.instance@, pool.tenant@)
}

/// The names of the instances in a reading.
pub open spec fn reading_names(instances: Seq<InstanceSnapshot>) -> Seq<Seq<char>> {
    Seq::new(instances.len(), |k: int| instances[k].instance@)
}

/// One reading of the node for the console: its pools, and what the coordinator
/// holds at the same moment.
pub fn console_view<A: Allocator>(
    proxy: &ProxyId,
    pool_mode: PoolMode,
    pools: &Vec<PoolReading>,
    coordinator: &InProcessCoordinator<A>,
) -> (view: ConsoleView)
    ensures
        view.proxy@ == proxy@,
        view.pool_mode@ == match pool_mode {
            PoolMode::Session => "session"@,
            PoolMode::Transaction => "transaction"@,
        },
        view.pools@.len() == pools@.len(),
        forall|k: int|
            0 <= k < pools@.len() ==> pool_shown(
                coordinator@.policies,
                pools@[k],
                #[trigger] view.pools@[k],
            ),
        lists::<InstanceId, BudgetView>(reading_names(view.instances@), coordinator@.budgets),
        forall|k: int|
            0 <= k < view.instances@.len() ==> (#[trigger] view.instances@[k]).budget@
                == coordinator@.budgets[view.instances@[k].instance@].inputs(),
        view.table@ == coordinator@.table,
{
    let policies = coordinator.policies();
    let mut shown: Vec<PoolSnapshot> = Vec::new();
    let mut k: usize = 0;
    while k < pools.len()
        invariant
            k <= pools@.len(),
            shown@.len() == k,
            policies@ == coordinator@.policies,
            forall|j: int|
                0 <= j < k ==> pool_shown(
                    coordinator@.policies,
                    pools@[j],
                    #[trigger] shown@[j],
                ),
        decreases pools@.len() - k,
    {
        let pool = &pools[k];
        shown.push(
            PoolSnapshot {
                instance: pool.instance.clone(),
                tenant: pool.tenant.clone(),
                policy: policies.policy(&pool.instance, &pool.tenant),
                stats: pool.stats,
            },
        );
        k += 1;
    }
    let listed = coordinator.instances();
    let mut instances: Vec<InstanceSnapshot> = Vec::new();
    let mut i: usize = 0;
    while i < listed.len()
        invariant
            i <= listed@.len(),
            instances@.len() == i,
            forall|j: int|
                0 <= j < i ==> (#[trigger] instances@[j]).instance@ == listed@[j].0@
                    && instances@[j].budget@ == listed@[j].1@,
        decreases listed@.len() - i,
    {
        instances.push(
            InstanceSnapshot { instance: listed[i].0.clone(), budget: listed[i].1 },
        );
        i += 1;
    }
    proof {
        assert(reading_names(instances@) =~= Seq::new(listed@.len(), |k: int| listed@[k].0@));
        assert forall|k: int| 0 <= k < instances@.len() implies (#[trigger] instances@[k]).budget@
            == coordinator@.budgets[instances@[k].instance@].inputs() by {
            assert(listed@[k].1@ == coordinator@.budgets[listed@[k].0@].inputs());
        }
    }
    ConsoleView {
        proxy: proxy.clone(),
        pool_mode: pool_mode.as_str().to_owned(),
        pools: shown,
        instances,
        table: coordinator.table(),
    }
}

/// What stopping a node left behind.
#[derive(Debug, Clone, Copy, PartialEq, Eq, Structural)]
pub struct Stopped {
    /// The server connections the node closed on its way out.
    pub closed: usize,
    /// The server connections a client was still using when the grace ended.
    pub held: usize,
}

/// Ends the stop of a node that closed so many server connections and still
/// holds so many: its grants go back only once the instances hold nothing of
/// its.
///
/// A transaction that is still running when the grace ends is not cut off,
/// and the slot behind the connection it holds is not given back. A grant
/// handed back is a slot another holder may open into, so giving one back
/// while this node still holds its connection would put the instance over
/// its total budget.
pub fn stop<A: Allocator>(
    coordinator: &mut InProcessCoordinator<A>,
    closed: usize,
    held: usize,
) -> (stopped: Stopped)
    requires
        old(coordinator)@.generation < u64::MAX,
    ensures
        stopped == (Stopped { closed, held }),
        held > 0 ==> *final(coordinator) == *old(coordinator),
        held == 0 ==> reconciled(
            old(coordinator).own_allocator(),
            old(coordinator)@.without(old(coordinator).own_proxy()),
            final(coordinator)@,
            final(coordinator).rejection(),
        ),
{
    if held == 0 {
        coordinator.withdraw();
    }
    Stopped { closed, held }
}

/// The observer's own connection is counted with the foreign ones, so that an
/// instance starts with a budget that leaves it its place: one below what the
/// foreign connections alone would leave, as long as something is left.
pub proof fn law_the_observer_takes_its_place(
    limits: ServerLimits,
    margin: u32,
    window: nat,
    foreign: u32,
    now: nat,
)
    requires
        foreign < u32::MAX,
        limits.superuser_reserved_connections + limits.reserved_connections <= u32::MAX,
    ensures
        with_observer(foreign) == foreign + 1,
        ({
            let first = (BudgetView { limits, margin, window, held: Seq::empty() }).observed(
                now,
                with_observer(foreign),
            );
            let left = limits.max_connections - limits.superuser_reserved_connections
                - limits.reserved_connections - margin - foreign - 1;
            &&& first.inputs().foreign_peak == foreign + 1
            &&& left >= 0 ==> first.total() == left
            &&& left < 0 ==> first.total() == 0
        }),
{
    let empty = BudgetView { limits, margin, window, held: Seq::empty() };
    law_the_window_decides_what_counts(empty, now, with_observer(foreign), (0, 0));
    let first = empty.observed(now, with_observer(foreign));
    law_every_deduction_counts_once(first.inputs());
}

/// A client is refused exactly where no rule covers its tenant, or the rule lists
/// no instance; where the rule lists one instance, it goes there, whatever was
/// rolled.
pub proof fn law_a_client_is_refused_only_where_no_rule_covers_it(
    policies: PoliciesView,
    tenant: TenantName,
    rolled: nat,
    destination: Destination,
)
    requires
        goes(policies, tenant, rolled, destination),
        tenant.1 != "pgsteward"@,
    ensures
        destination is Refused <==> policies.resolve(tenant) is None || policies.resolve(
            tenant,
        )->0.instances.len() == 0,
        policies.resolve(tenant) is Some && policies.resolve(tenant)->0.instances.len() == 1 ==> (
        destination matches Destination::Instance(instance) && instance@ == policies.resolve(
            tenant,
        )->0.instances[0]),
{
}

/// A client goes to the instance into whose stretch its roll falls: of the weights
/// of the listed instances laid one behind the other, the one that the roll, taken
/// modulo all of them together, lands in. So of two instances the heavier gets
/// more of the rolls.
pub proof fn law_a_roll_leads_into_the_stretch_it_falls_into(
    policies: PoliciesView,
    tenant: TenantName,
    rolled: nat,
    destination: Destination,
    k: int,
)
    requires
        goes(policies, tenant, rolled, destination),
        tenant.1 != "pgsteward"@,
        policies.resolve(tenant) is Some,
        0 <= k < policies.resolve(tenant)->0.instances.len(),
        rolled < policies.weight_before(
            policies.resolve(tenant)->0.instances,
            policies.resolve(tenant)->0.instances.len() as int,
        ),
        policies.weight_before(policies.resolve(tenant)->0.instances, k) <= rolled
            < policies.weight_before(policies.resolve(tenant)->0.instances, k + 1),
    ensures
        destination matches Destination::Instance(instance) && instance@ == policies.resolve(
            tenant,
        )->0.instances[k],
{
    let instances = policies.resolve(tenant)->0.instances;
    let j = choose|j: int|
        #[trigger] policies.picks(instances, rolled, j) && destination->Instance_0@
            == instances[j];
    law_rolls_are_shared_by_weight(policies, instances, rolled, k, j);
    assert(policies.picks(instances, rolled, k));
}

/// Every instance that the cluster declares is observed, in its turn, under its name
/// and at its address.
pub proof fn law_every_declared_instance_is_observed(
    instances: Seq<Observed>,
    sections: Seq<InstanceSection>,
    k: int,
)
    requires
        observes(instances, sections),
        0 <= k < sections.len(),
    ensures
        k < instances.len(),
        instances[k].instance@ == sections[k].name@,
        instances[k].address@ == address_of(sections[k].name@),
{
}

/// A pool is shown with its own numbers, and with the rule that holds for its own
/// tenant on its own instance.
pub proof fn law_a_pool_is_shown_with_its_own_rule(
    policies: PoliciesView,
    pool: PoolReading,
    snapshot: PoolSnapshot,
)
    requires
        pool_shown(policies, pool, snapshot),
    ensures
        (snapshot.instance@, snapshot.tenant@) == (pool.instance@, pool.tenant@),
        snapshot.stats == pool.stats,
        snapshot.policy == policies.policy(snapshot.instance@, snapshot.tenant@),
{
}

} // verus!
