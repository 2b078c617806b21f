use pgsteward::admission::ClientLimit;
use pgsteward::allocation::{InstanceId, ProxyId};
use pgsteward::budget::{InstanceBudget, ServerLimits};
use pgsteward::cancel::{CancelRegistry, ProxyTag};
use pgsteward::config::{
    ClusterConfig, ClusterSection, ConfigError, InstanceSection, MonitorSection, NodeConfig, NodeSection, PoolMode,
    Role, ServerSection, ServerTlsSection, SslModeSection, TenantSection,
};
use pgsteward::grant::{
    Allocator, Claim, InProcessCoordinator, Report, TenantPolicy, Usage, Weight,
};
use pgsteward::inspect::InspectError;
use pgsteward::ordmap::OrdMap;
use pgsteward::policy::{Policies, TenantRule};
use pgsteward::pool::PoolStats;
use pgsteward::serve::{
    cancel_target, console_view, destination, destination_by, first_budget, including_the_observer,
    ready, start, stop, Destination, PoolReading, ServeError, ServeOptions, Stopped,
};
use pgsteward::server::ConnectError;
use pgsteward::session::AcceptError;
use pgsteward::startup::CancelKey;
use pgsteward::tenant::TenantId;
use pgsteward::time::{Duration, Instant};
use pgsteward::tls::SslMode;

/// Gives everybody what they ask for, one after the other.
struct InTurn;

impl Allocator for InTurn {
    fn allocate(&self, budget: u32, claims: &Vec<Claim>) -> Vec<u32> {
        let mut left = budget;
        claims
            .iter()
            .map(|claim| {
                let given = claim.demand.min(left);
                left -= given;
                given
            })
            .collect()
    }
}

fn primary() -> InstanceId {
    InstanceId::new("primary")
}

fn rule(instances: &[&str]) -> TenantRule {
    TenantRule {
        instances: instances.iter().map(|name| InstanceId::new(*name)).collect(),
        policy: TenantPolicy {
            min: 1,
            max: 9,
            weight: Weight::new(1).unwrap(),
        },
    }
}

fn policies() -> Policies {
    Policies::new()
        .instance(primary(), Weight::new(1).unwrap())
        .instance(InstanceId::new("replica"), Weight::new(2).unwrap())
        .tenant("alice", rule(&["primary", "replica"]))
}

fn node(monitor: bool) -> NodeConfig {
    let mut server = OrdMap::new();
    server.insert(
        "watcher".to_owned(),
        ServerSection {
            password: "watch".to_owned(),
        },
    );
    NodeConfig {
        node: NodeSection {
            role: Role::Proxy,
            listen: "0.0.0.0:6432".to_owned(),
            metrics_listen: None,
            coordinator: "here".to_owned(),
            max_client_connections: 1,
            tls: None,
            server_tls: None,
        },
        client: OrdMap::new(),
        server,
        monitor: monitor.then(|| MonitorSection {
            user: "watcher".to_owned(),
            database: "ops".to_owned(),
        }),
    }
}

fn cluster(pool_mode: PoolMode) -> ClusterConfig {
    ClusterConfig {
        cluster: ClusterSection {
            pool_mode,
            grant_ttl: Duration::from_secs(10),
            arbitration_interval: Duration::from_millis(10),
        },
        instance: Vec::new(),
        tenant: OrdMap::new(),
    }
}

#[test]
fn session_mode_is_not_served_yet() {
    let error = ready(&node(true), &cluster(PoolMode::Session)).err().unwrap();
    assert_eq!(error, ServeError::SessionMode);
    assert_eq!(
        error.to_string(),
        "pool_mode = \"session\" is not served yet; set pool_mode = \"transaction\""
    );
}

#[test]
fn a_node_without_a_monitor_does_not_serve() {
    let error = ready(&node(false), &cluster(PoolMode::Transaction)).err().unwrap();
    assert_eq!(error, ServeError::NoMonitor);
    let monitor = ready(&node(true), &cluster(PoolMode::Transaction)).ok().unwrap();
    assert_eq!(monitor.user, "watcher");
    assert_eq!(monitor.database, "ops");
    assert_eq!(monitor.password.as_deref(), Some("watch"));
}

#[test]
fn every_reason_not_to_serve_is_told() {
    for (error, text) in [
        (
            ServeError::Config(ConfigError::Syntax("line 1".to_owned())),
            "invalid config: config syntax error: line 1",
        ),
        (
            ServeError::Connect {
                instance: primary(),
                source: ConnectError::Unreachable("refused".to_owned()),
            },
            "cannot reach instance `primary` to derive its total budget: cannot reach the server: refused",
        ),
        (
            ServeError::Inspect {
                instance: primary(),
                source: InspectError::Missing("max_connections"),
            },
            "cannot read the limits of instance `primary`: the server returned no value for max_connections",
        ),
        (
            ServeError::Listen {
                addr: "0.0.0.0:1".to_owned(),
                source: "denied".to_owned(),
            },
            "cannot listen on 0.0.0.0:1: denied",
        ),
    ] {
        assert_eq!(error.to_string(), text);
    }
}

#[test]
fn the_observer_counts_itself() {
    assert_eq!(including_the_observer(0), 1);
    assert_eq!(including_the_observer(u32::MAX), u32::MAX);
    let limits = ServerLimits {
        max_connections: 100,
        superuser_reserved_connections: 3,
        reserved_connections: 0,
    };
    let budget = first_budget(
        limits,
        9,
        &ServeOptions::default(),
        Instant::after_origin(Duration::from_secs(1)),
    );
    assert_eq!(budget.current().inputs().foreign_peak, 10);
    assert_eq!(budget.current().inputs().margin, 15);
    assert_eq!(budget.current().total(), 72);
}

#[test]
fn the_options_have_their_defaults() {
    let options = ServeOptions::default();
    assert_eq!(options.foreign_window, Duration::from_secs(60));
    assert_eq!(options.observe_interval, Duration::from_secs(1));
    assert_eq!(options.wait_timeout, Duration::from_secs(30));
    assert_eq!(options.shutdown_grace, Duration::from_secs(15));
    assert_eq!(options.release_delay, Duration::from_secs(60));
}

#[test]
fn the_console_is_reached_by_its_database_whatever_the_rules_are() {
    for user in ["alice", "nobody"] {
        let tenant = TenantId::new(user, "pgsteward");
        assert_eq!(destination(&policies(), &tenant), Destination::Console);
        assert_eq!(destination_by(&policies(), &tenant, 2), Destination::Console);
    }
}

#[test]
fn a_client_goes_to_an_instance_its_rule_lists() {
    let tenant = TenantId::new("alice", "app");
    let by = |rolled| destination_by(&policies(), &tenant, rolled);
    assert_eq!(by(0), Destination::Instance(primary()));
    assert_eq!(by(1), Destination::Instance(InstanceId::new("replica")));
    assert_eq!(by(2), Destination::Instance(InstanceId::new("replica")));
    let mut seen = [false, false];
    for _ in 0..500 {
        match destination(&policies(), &tenant) {
            Destination::Instance(instance) => seen[usize::from(instance == primary())] = true,
            other => panic!("expected an instance, got {other:?}"),
        }
    }
    assert_eq!(seen, [true, true]);
}

#[test]
fn a_tenant_no_rule_covers_is_refused() {
    let Destination::Refused(response) = destination(&policies(), &TenantId::new("bob", "app"))
    else {
        panic!("no rule covers the tenant");
    };
    assert!(response.fatal);
    assert_eq!(response.code, "28000");
    assert_eq!(
        response.message,
        "no [tenant.\"…\"] rule covers bob@app, and there is no [tenant.\"*\"]"
    );
}

#[test]
fn a_cancel_request_goes_where_its_client_is_served() {
    let mut registry = CancelRegistry::new(ProxyTag::new(1).unwrap());
    let mut addresses = OrdMap::new();
    addresses.insert(primary(), "primary:5432".to_owned());
    let ticket = registry.issue();
    assert_eq!(cancel_target(&registry, &addresses, ticket.key()), None);
    let backend = CancelKey {
        process_id: 42,
        secret_key: 7,
    };
    ticket.aim(&mut registry, primary(), backend);
    assert_eq!(
        cancel_target(&registry, &addresses, ticket.key()),
        Some(("primary:5432".to_owned(), backend))
    );
    ticket.aim(&mut registry, InstanceId::new("gone"), backend);
    assert_eq!(cancel_target(&registry, &addresses, ticket.key()), None);
}

fn coordinator() -> InProcessCoordinator<InTurn> {
    let mut coordinator = InProcessCoordinator::new(ProxyId::new("proxy-1"), InTurn);
    let limits = ServerLimits {
        max_connections: 10,
        superuser_reserved_connections: 0,
        reserved_connections: 0,
    };
    coordinator.add_instance(
        primary(),
        InstanceBudget::new(limits, 0, Duration::from_secs(60)),
    );
    coordinator.set_policies(policies());
    coordinator.report(&Report::new(0).usage(
        primary(),
        TenantId::new("alice", "app"),
        Usage {
            demand: 3,
            actual: 0,
        },
    ));
    coordinator.reconcile().unwrap();
    coordinator
}

#[test]
fn the_console_reads_the_node_at_one_moment() {
    let coordinator = coordinator();
    let reading = |user: &str| PoolReading {
        instance: primary(),
        tenant: TenantId::new(user, "app"),
        stats: PoolStats::default(),
    };
    let view = console_view(
        &ProxyId::new("proxy-1"),
        PoolMode::Transaction,
        &vec![reading("bob"), reading("alice")],
        &coordinator,
    );
    assert_eq!(view.pool_mode, "transaction");
    assert_eq!(view.pools[0].policy, None);
    assert_eq!(view.pools[1].policy.unwrap().max, 9);
    assert_eq!(view.instances.len(), 1);
    assert_eq!(view.instances[0].budget.total(), 10);
    assert_eq!(view.table, coordinator.table());
}

#[test]
fn a_node_that_holds_nothing_gives_its_grants_back() {
    let mut coordinator = coordinator();
    assert_eq!(coordinator.table().granted_total(&primary()), 3);
    assert_eq!(
        stop(&mut coordinator, 4, 0),
        Stopped { closed: 4, held: 0 }
    );
    assert_eq!(coordinator.table().granted_total(&primary()), 0);
}

#[test]
fn a_node_that_still_holds_connections_keeps_its_grants() {
    let mut coordinator = coordinator();
    assert_eq!(
        stop(&mut coordinator, 1, 2),
        Stopped { closed: 1, held: 2 }
    );
    assert_eq!(coordinator.table().granted_total(&primary()), 3);
}

#[test]
fn a_node_accepts_up_to_its_client_connection_limit() {
    let mut limit = ClientLimit::new(2);
    assert!(limit.drained());
    let first = limit.admit_client().unwrap();
    let second = limit.admit_client().unwrap();
    assert_eq!(limit.live(), 2);
    assert!(limit.admit_client().is_none());
    let refusal = AcceptError::TooManyClients { max: limit.max() }
        .response()
        .unwrap();
    assert_eq!(refusal.code, "53300");
    assert!(
        refusal.message.contains('2'),
        "the refusal must tell the client what the limit is: {}",
        refusal.message
    );
    assert_eq!(limit.live(), 2, "a refused client takes no place");
    assert_eq!(limit.max(), 2);

    limit.leave(first);

    assert!(!limit.drained());
    let third = limit.admit_client().unwrap();
    limit.leave(second);
    limit.leave(third);
    assert!(limit.drained());
}

#[test]
fn a_node_starts_with_the_rules_of_the_cluster_and_no_grant() {
    let mut cluster = cluster(PoolMode::Transaction);
    cluster.instance = vec![InstanceSection {
        name: "primary".to_owned(),
        weight: 2,
    }];
    cluster.tenant.insert(
        "alice".to_owned(),
        TenantSection {
            instances: vec!["primary".to_owned()],
            min: 3,
            max: None,
            weight: 1,
        },
    );
    cluster.validate().unwrap();

    let started = start(&node(true), &cluster, &ServeOptions::default(), None, InTurn)
        .ok()
        .unwrap();

    assert_eq!(started.proxy, ProxyId::new("0.0.0.0:6432"));
    assert_eq!(started.server_tls.mode(), SslMode::Prefer);
    assert_eq!(started.monitor.user, "watcher");
    assert_eq!(started.instances.len(), 1);
    assert_eq!(started.instances[0].instance, primary());
    assert_eq!(started.instances[0].address, "primary:5432");
    let rule = started
        .coordinator
        .policies()
        .rule("alice")
        .map(|rule| (rule.policy.min, rule.policy.max));
    assert_eq!(rule, Some((3, u32::MAX)));
    assert_eq!(started.coordinator.table().instances().len(), 0);
    assert_eq!(started.coordinator.generation(), 0);
}

#[test]
fn a_node_that_cannot_start_says_why() {
    let options = ServeOptions::default();
    let started = |node: &NodeConfig, mode| {
        start(node, &cluster(mode), &options, None, InTurn).err()
    };
    assert_eq!(
        started(&node(false), PoolMode::Session),
        Some(ServeError::SessionMode)
    );
    assert_eq!(
        started(&node(false), PoolMode::Transaction),
        Some(ServeError::NoMonitor)
    );
    let mut checking = node(true);
    checking.node.server_tls = Some(ServerTlsSection {
        mode: SslModeSection::VerifyFull,
        root_cert: None,
    });
    assert!(matches!(
        started(&checking, PoolMode::Transaction),
        Some(ServeError::Config(ConfigError::Invalid { .. }))
    ));
}
