use pgsteward::allocation::{InstanceId, ProxyId};
use pgsteward::budget::{InstanceBudget, ServerLimits};
use pgsteward::grant::{
    Allocator, Claim, InProcessCoordinator, ProxyChannel, Report, TenantPolicy, Usage, Weight,
};
use pgsteward::policy::{Policies, TenantRule};
use pgsteward::tenant::TenantId;
use pgsteward::time::{Duration, Instant};

/// Shares by weight: what each is guaranteed comes first, then what they ask
/// for is filled evenly by weight, and what is left lets those keep their slots
/// that may not be asked to give them back yet.
#[derive(Debug, Clone, Copy)]
struct Fair;

impl Allocator for Fair {
    fn allocate(&self, budget: u32, claims: &Vec<Claim>) -> Vec<u32> {
        let mut left = budget;
        let wanted: Vec<u32> = claims.iter().map(|c| c.demand.min(c.max)).collect();
        let mut given = vec![0; claims.len()];
        for (k, claim) in claims.iter().enumerate() {
            given[k] = wanted[k].min(claim.min).min(left);
            left -= given[k];
        }
        while left > 0 {
            let next = (0..claims.len())
                .filter(|&k| given[k] < wanted[k])
                .min_by_key(|&k| (u64::from(given[k]) * 1_000 / u64::from(claims[k].weight.get()), k));
            match next {
                Some(k) => given[k] += 1,
                None => break,
            }
            left -= 1;
        }
        for (k, claim) in claims.iter().enumerate() {
            if !claim.may_release {
                let kept = claim.current.min(claim.max).saturating_sub(given[k]).min(left);
                given[k] += kept;
                left -= kept;
            }
        }
        given
    }
}

type Coordinator = InProcessCoordinator<Fair>;

fn release_delay() -> Duration {
    Duration::from_secs(1)
}

fn primary() -> InstanceId {
    InstanceId::new("primary")
}

fn tenant(user: &str) -> TenantId {
    TenantId::new(user, user)
}

fn open_policy() -> TenantPolicy {
    TenantPolicy {
        min: 0,
        max: u32::MAX,
        weight: Weight::new(1).unwrap(),
    }
}

fn flat(total: u32) -> InstanceBudget {
    InstanceBudget::new(
        ServerLimits {
            max_connections: total,
            superuser_reserved_connections: 0,
            reserved_connections: 0,
        },
        0,
        Duration::from_secs(60),
    )
}

fn coordinator(budget: u32, rules: &[(&str, TenantPolicy)]) -> Coordinator {
    let mut coordinator =
        InProcessCoordinator::new(ProxyId::new("proxy-1"), Fair)
            .with_release_delay(release_delay());
    coordinator.add_instance(primary(), flat(budget));
    coordinator.set_policies(rules.iter().fold(
        Policies::new().instance(primary(), Weight::new(1).unwrap()),
        |policies, (user, policy)| {
            policies.tenant(
                *user,
                TenantRule {
                    instances: vec![primary()],
                    policy: *policy,
                },
            )
        },
    ));
    coordinator
}

fn open(budget: u32, users: &[&str]) -> Coordinator {
    let rules: Vec<(&str, TenantPolicy)> =
        users.iter().map(|user| (*user, open_policy())).collect();
    coordinator(budget, &rules)
}

fn granted(coordinator: &Coordinator, proxy: &ProxyChannel, user: &str) -> u32 {
    proxy.grants(coordinator).get(&primary(), &tenant(user))
}

fn report(coordinator: &mut Coordinator, proxy: &ProxyChannel, usage: &[(&str, u32, u32)]) {
    let generation = proxy.grants(coordinator).generation();
    let report = usage
        .iter()
        .fold(Report::new(generation), |report, (user, demand, actual)| {
            report.usage(
                primary(),
                tenant(user),
                Usage {
                    demand: *demand,
                    actual: *actual,
                },
            )
        });
    proxy.report(coordinator, &report);
}

#[test]
fn each_proxy_is_granted_what_its_own_clients_ask_for() {
    let mut coordinator = open(10, &["alice"]);
    let first = coordinator.channel(ProxyId::new("proxy-1"));
    let second = coordinator.channel(ProxyId::new("proxy-2"));
    report(&mut coordinator, &first, &[("alice", 3, 0)]);
    report(&mut coordinator, &second, &[("alice", 4, 0)]);

    coordinator.reconcile().unwrap();

    assert_eq!(granted(&coordinator, &first, "alice"), 3);
    assert_eq!(granted(&coordinator, &second, "alice"), 4);
    assert_eq!(coordinator.table().granted_total(&primary()), 7);
}

#[test]
fn a_tenant_maximum_caps_the_sum_over_its_proxies() {
    let mut coordinator = coordinator(
        10,
        &[(
            "alice",
            TenantPolicy {
                max: 5,
                ..open_policy()
            },
        )],
    );
    let first = coordinator.channel(ProxyId::new("proxy-1"));
    let second = coordinator.channel(ProxyId::new("proxy-2"));
    report(&mut coordinator, &first, &[("alice", 4, 0)]);
    report(&mut coordinator, &second, &[("alice", 4, 0)]);

    coordinator.reconcile().unwrap();

    assert_eq!(
        granted(&coordinator, &first, "alice") + granted(&coordinator, &second, "alice"),
        5
    );
}

#[test]
fn a_tenant_minimum_is_guaranteed_over_its_proxies_together() {
    let mut coordinator = coordinator(
        6,
        &[
            (
                "alice",
                TenantPolicy {
                    min: 4,
                    ..open_policy()
                },
            ),
            ("bob", open_policy()),
        ],
    );
    let first = coordinator.channel(ProxyId::new("proxy-1"));
    let second = coordinator.channel(ProxyId::new("proxy-2"));
    report(&mut coordinator, &first, &[("alice", 2, 0), ("bob", 10, 0)]);
    report(&mut coordinator, &second, &[("alice", 2, 0)]);

    coordinator.reconcile().unwrap();

    assert_eq!(granted(&coordinator, &first, "alice"), 2);
    assert_eq!(granted(&coordinator, &second, "alice"), 2);
    assert_eq!(granted(&coordinator, &first, "bob"), 2);
}

#[test]
fn the_grants_over_every_proxy_stay_within_the_budget() {
    let mut coordinator = open(6, &["alice", "bob"]);
    let first = coordinator.channel(ProxyId::new("proxy-1"));
    let second = coordinator.channel(ProxyId::new("proxy-2"));
    report(&mut coordinator, &first, &[("alice", 10, 0), ("bob", 10, 0)]);
    report(&mut coordinator, &second, &[("alice", 10, 0), ("bob", 10, 0)]);

    coordinator.reconcile().unwrap();

    assert_eq!(coordinator.table().granted_total(&primary()), 6);
    assert!(granted(&coordinator, &second, "alice") + granted(&coordinator, &second, "bob") > 0);
}

#[test]
fn a_report_from_one_proxy_leaves_the_demand_of_another() {
    let mut coordinator = open(10, &["alice"]);
    let first = coordinator.channel(ProxyId::new("proxy-1"));
    let second = coordinator.channel(ProxyId::new("proxy-2"));
    report(&mut coordinator, &second, &[("alice", 4, 0)]);
    report(&mut coordinator, &first, &[("alice", 3, 0)]);

    coordinator.reconcile().unwrap();

    assert_eq!(granted(&coordinator, &second, "alice"), 4);
}

#[test]
fn a_proxy_that_gave_its_grants_back_leaves_the_others_theirs() {
    let mut coordinator = open(10, &["alice"]);
    let first = coordinator.channel(ProxyId::new("proxy-1"));
    let second = coordinator.channel(ProxyId::new("proxy-2"));
    report(&mut coordinator, &first, &[("alice", 3, 3)]);
    report(&mut coordinator, &second, &[("alice", 4, 4)]);
    coordinator.reconcile().unwrap();
    assert_eq!(granted(&coordinator, &second, "alice"), 4);

    second.withdraw(&mut coordinator);

    assert_eq!(granted(&coordinator, &second, "alice"), 0);
    assert_eq!(granted(&coordinator, &first, "alice"), 3);
    assert_eq!(coordinator.table().granted_total(&primary()), 3);
}

#[test]
fn an_idle_grant_on_one_proxy_gives_way_before_a_busy_one() {
    let mut coordinator = open(8, &["alice", "bob"]);
    let first = coordinator.channel(ProxyId::new("proxy-1"));
    let second = coordinator.channel(ProxyId::new("proxy-2"));
    let start = Instant::after_origin(Duration::from_secs(100));
    report(&mut coordinator, &first, &[("alice", 5, 0)]);
    report(&mut coordinator, &second, &[("alice", 3, 0)]);
    coordinator.reconcile_at(start).unwrap();
    report(&mut coordinator, &first, &[("alice", 5, 5)]);
    report(&mut coordinator, &second, &[("alice", 0, 3)]);
    coordinator.reconcile_at(start).unwrap();
    assert_eq!(granted(&coordinator, &second, "alice"), 3);

    report(&mut coordinator, &first, &[("alice", 5, 5), ("bob", 3, 0)]);
    coordinator
        .reconcile_at(start.plus(Duration::from_millis(10)))
        .unwrap();

    assert_eq!(granted(&coordinator, &first, "alice"), 5);
    assert_eq!(granted(&coordinator, &second, "alice"), 0);
}
