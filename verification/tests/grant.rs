use pgsteward::allocation::{Holder, InstanceId, PreconditionError, ProxyId};
use pgsteward::budget::{BudgetChange, InstanceBudget, ServerLimits};
use pgsteward::grant::{
    Allocator, Claim, InProcessCoordinator, Report, TenantPolicy, Usage, Weight,
};
use pgsteward::policy::{Policies, PolicyChange, SettingError, TenantRule};
use pgsteward::tenant::TenantId;
use pgsteward::time::{Duration, Instant};

/// Shares by weight: what each is guaranteed comes first, then what they ask
/// for is filled evenly by weight, and what is left lets those keep their slots
/// that may not be asked to give them back yet.
#[derive(Debug, Clone, Copy)]
struct Fair;

impl Allocator for Fair {
    fn allocate(&self, budget: u32, claims: &Vec<Claim>) -> Vec<u32> {
        let mut left = budget;
        let wanted: Vec<u32> = claims.iter().map(|c| c.demand.min(c.max)).collect();
        let mut given = vec![0; claims.len()];
        for (k, claim) in claims.iter().enumerate() {
            given[k] = wanted[k].min(claim.min).min(left);
            left -= given[k];
        }
        while left > 0 {
            let next = (0..claims.len())
                .filter(|&k| given[k] < wanted[k])
                .min_by_key(|&k| (u64::from(given[k]) * 1_000 / u64::from(claims[k].weight.get()), k));
            match next {
                Some(k) => given[k] += 1,
                None => break,
            }
            left -= 1;
        }
        for (k, claim) in claims.iter().enumerate() {
            if !claim.may_release {
                let kept = claim.current.min(claim.max).saturating_sub(given[k]).min(left);
                given[k] += kept;
                left -= kept;
            }
        }
        given
    }
}

type Coordinator = InProcessCoordinator<Fair>;

fn window() -> Duration {
    Duration::from_secs(60)
}

fn now() -> Instant {
    Instant::after_origin(Duration::from_secs(1_000))
}

fn primary() -> InstanceId {
    InstanceId::new("primary")
}

fn tenant(user: &str) -> TenantId {
    TenantId::new(user, user)
}

fn proxy() -> ProxyId {
    ProxyId::new("proxy-1")
}

fn open_policy() -> TenantPolicy {
    TenantPolicy {
        min: 0,
        max: u32::MAX,
        weight: Weight::new(1).unwrap(),
    }
}

fn coordinator(budget: u32, tenants: &[&str]) -> Coordinator {
    let mut coordinator = InProcessCoordinator::new(proxy(), Fair);
    coordinator.add_instance(primary(), flat(budget));
    coordinator.set_policies(policies(tenants, open_policy()));
    coordinator
}

fn limits(max_connections: u32) -> ServerLimits {
    ServerLimits {
        max_connections,
        superuser_reserved_connections: 3,
        reserved_connections: 2,
    }
}

fn flat(total: u32) -> InstanceBudget {
    InstanceBudget::new(
        ServerLimits {
            max_connections: total,
            superuser_reserved_connections: 0,
            reserved_connections: 0,
        },
        0,
        window(),
    )
}

fn policies(tenants: &[&str], policy: TenantPolicy) -> Policies {
    tenants.iter().fold(
        Policies::new().instance(primary(), Weight::new(1).unwrap()),
        |policies, user| {
            policies.tenant(
                *user,
                TenantRule {
                    instances: vec![primary()],
                    policy,
                },
            )
        },
    )
}

fn granted(coordinator: &Coordinator, user: &str) -> u32 {
    coordinator.grants().get(&primary(), &tenant(user))
}

fn generation(coordinator: &Coordinator) -> u64 {
    coordinator.grants().generation()
}

fn report(coordinator: &mut Coordinator, usage: &[(&str, u32, u32)]) {
    let generation = generation(coordinator);
    let report = usage
        .iter()
        .fold(Report::new(generation), |report, (user, demand, actual)| {
            report.usage(
                primary(),
                tenant(user),
                Usage {
                    demand: *demand,
                    actual: *actual,
                },
            )
        });
    coordinator.report(&report);
}

#[test]
fn a_tenant_that_asks_is_granted_what_it_asks_for() {
    let mut coordinator = coordinator(10, &["alice"]);
    report(&mut coordinator, &[("alice", 3, 0)]);

    coordinator.reconcile().unwrap();

    assert_eq!(granted(&coordinator, "alice"), 3);
    assert_eq!(
        coordinator
            .table()
            .granted(&primary(), &Holder::new(tenant("alice"), proxy())),
        3
    );
}

#[test]
fn nothing_is_granted_before_a_reconciliation() {
    let mut coordinator = coordinator(10, &["alice"]);
    report(&mut coordinator, &[("alice", 3, 0)]);

    assert_eq!(granted(&coordinator, "alice"), 0);
    assert_eq!(generation(&coordinator), 0);
}

#[test]
fn a_tenant_without_demand_is_granted_nothing_despite_its_minimum() {
    let mut coordinator = InProcessCoordinator::new(proxy(), Fair);
    coordinator.add_instance(primary(), flat(10));
    coordinator.set_policies(policies(
        &["alice"],
        TenantPolicy {
            min: 5,
            ..open_policy()
        },
    ));
    report(&mut coordinator, &[("alice", 0, 0)]);

    coordinator.reconcile().unwrap();

    assert_eq!(granted(&coordinator, "alice"), 0);
    assert_eq!(coordinator.table().holders(&primary()).len(), 0);
}

#[test]
fn a_tenant_without_a_policy_is_granted_nothing() {
    let mut coordinator = coordinator(10, &[]);
    report(&mut coordinator, &[("alice", 3, 0)]);

    coordinator.reconcile().unwrap();

    assert_eq!(granted(&coordinator, "alice"), 0);
}

#[test]
fn an_instance_without_a_budget_grants_nothing() {
    let mut coordinator = InProcessCoordinator::new(proxy(), Fair);
    coordinator.set_policies(policies(&["alice"], open_policy()));
    report(&mut coordinator, &[("alice", 3, 0)]);

    coordinator.reconcile().unwrap();

    assert_eq!(granted(&coordinator, "alice"), 0);
}

#[test]
fn competing_tenants_share_the_budget() {
    let mut coordinator = coordinator(10, &["alice", "bob"]);
    report(&mut coordinator, &[("alice", 8, 0), ("bob", 8, 0)]);

    coordinator.reconcile().unwrap();

    assert_eq!(granted(&coordinator, "alice"), 5);
    assert_eq!(granted(&coordinator, "bob"), 5);
    assert_eq!(coordinator.table().granted_total(&primary()), 10);
}

#[test]
fn a_reconciliation_that_changes_nothing_keeps_the_generation() {
    let mut coordinator = coordinator(10, &["alice"]);
    report(&mut coordinator, &[("alice", 3, 0)]);
    coordinator.reconcile().unwrap();
    let before = generation(&coordinator);
    report(&mut coordinator, &[("alice", 3, 3)]);

    coordinator.reconcile().unwrap();

    assert_eq!(generation(&coordinator), before);
    assert_eq!(granted(&coordinator, "alice"), 3);
}

#[test]
fn a_changed_grant_is_published_under_a_new_generation() {
    let mut coordinator = coordinator(10, &["alice"]);
    report(&mut coordinator, &[("alice", 3, 0)]);
    coordinator.reconcile().unwrap();
    let first = generation(&coordinator);
    report(&mut coordinator, &[("alice", 5, 3)]);

    coordinator.reconcile().unwrap();

    assert!(generation(&coordinator) > first);
    assert_eq!(granted(&coordinator, "alice"), 5);
}

#[test]
fn a_generation_moves_by_one_with_a_grant_of_the_proxy_that_moved_last() {
    let mut coordinator = coordinator(10, &["alice"]);
    assert_eq!(generation(&coordinator), 0);
    report(&mut coordinator, &[("alice", 3, 0)]);
    coordinator.reconcile().unwrap();
    assert_eq!(generation(&coordinator), 1);
    report(&mut coordinator, &[("alice", 5, 3)]);
    coordinator.reconcile().unwrap();
    assert_eq!(generation(&coordinator), 2);
    coordinator.reconcile().unwrap();
    assert_eq!(generation(&coordinator), 2);

    let other = coordinator.channel(ProxyId::new("node-b"));
    let asked = Report::new(0).usage(
        primary(),
        tenant("alice"),
        Usage {
            demand: 2,
            actual: 0,
        },
    );
    other.report(&mut coordinator, &asked);
    coordinator.reconcile().unwrap();
    assert_eq!(other.grants(&coordinator).generation(), 3);
    assert_eq!(generation(&coordinator), 2);
    assert_eq!(coordinator.generation(), 3);
    report(&mut coordinator, &[("alice", 1, 5)]);
    coordinator.reconcile().unwrap();
    assert_eq!(generation(&coordinator), 4);
}

#[test]
fn a_subscriber_sees_the_new_grants() {
    let mut coordinator = coordinator(10, &["alice"]);
    let grants = coordinator.grants();
    report(&mut coordinator, &[("alice", 3, 0)]);

    coordinator.reconcile().unwrap();

    assert!(coordinator.grants().generation() > grants.generation());
    assert_eq!(
        coordinator.grants().get(&primary(), &tenant("alice")),
        3
    );
}

#[test]
fn a_reclaimed_slot_is_not_regranted_until_its_holder_reports_it_closed() {
    let mut coordinator = coordinator(4, &["alice", "bob"]);
    report(&mut coordinator, &[("alice", 4, 0)]);
    coordinator.reconcile().unwrap();
    report(&mut coordinator, &[("alice", 4, 4)]);
    coordinator.reconcile().unwrap();
    assert_eq!(granted(&coordinator, "alice"), 4);

    report(&mut coordinator, &[("alice", 0, 4), ("bob", 4, 0)]);
    coordinator.reconcile().unwrap();
    assert_eq!(granted(&coordinator, "alice"), 0);
    assert_eq!(granted(&coordinator, "bob"), 0);

    coordinator.reconcile().unwrap();
    assert_eq!(granted(&coordinator, "bob"), 0);

    report(&mut coordinator, &[("alice", 0, 1), ("bob", 4, 0)]);
    coordinator.reconcile().unwrap();
    assert_eq!(granted(&coordinator, "bob"), 3);

    report(&mut coordinator, &[("alice", 0, 0), ("bob", 4, 3)]);
    coordinator.reconcile().unwrap();
    assert_eq!(granted(&coordinator, "bob"), 4);
}

#[test]
fn a_report_older_than_the_reclaim_does_not_release_the_slot() {
    let mut coordinator = coordinator(4, &["alice", "bob"]);
    report(&mut coordinator, &[("alice", 4, 0)]);
    coordinator.reconcile().unwrap();
    let before_reclaim = generation(&coordinator);
    report(&mut coordinator, &[("alice", 0, 4), ("bob", 4, 0)]);
    coordinator.reconcile().unwrap();
    assert!(generation(&coordinator) > before_reclaim);

    coordinator.report(
        &Report::new(before_reclaim)
            .usage(
                primary(),
                tenant("alice"),
                Usage {
                    demand: 0,
                    actual: 0,
                },
            )
            .usage(
                primary(),
                tenant("bob"),
                Usage {
                    demand: 4,
                    actual: 0,
                },
            ),
    );
    coordinator.reconcile().unwrap();

    assert_eq!(granted(&coordinator, "bob"), 0);
}

#[test]
fn a_grant_not_yet_reported_counts_in_full() {
    let mut coordinator = coordinator(4, &["alice", "bob"]);
    report(&mut coordinator, &[("alice", 4, 0)]);
    coordinator.reconcile().unwrap();

    report(&mut coordinator, &[("alice", 0, 0), ("bob", 4, 0)]);
    coordinator.reconcile().unwrap();

    assert_eq!(granted(&coordinator, "alice"), 0);
    assert_eq!(granted(&coordinator, "bob"), 0);
}

#[test]
fn a_larger_budget_is_granted_at_once() {
    let mut coordinator = coordinator(4, &["alice"]);
    report(&mut coordinator, &[("alice", 6, 0)]);
    coordinator.reconcile().unwrap();
    assert_eq!(granted(&coordinator, "alice"), 4);

    coordinator.add_instance(primary(), flat(8));
    coordinator.reconcile().unwrap();

    assert_eq!(granted(&coordinator, "alice"), 6);
}

#[test]
fn a_smaller_budget_lowers_the_grants_with_it() {
    let mut coordinator = coordinator(4, &["alice"]);
    report(&mut coordinator, &[("alice", 4, 0)]);
    coordinator.reconcile().unwrap();
    report(&mut coordinator, &[("alice", 4, 4)]);

    coordinator.add_instance(primary(), flat(2));
    coordinator.reconcile().unwrap();

    assert_eq!(granted(&coordinator, "alice"), 2);
    assert_eq!(coordinator.table().budget(&primary()), 2);
}

#[test]
fn a_smaller_budget_holds_back_growth_until_the_excess_is_closed() {
    let mut coordinator = coordinator(4, &["alice", "bob"]);
    report(&mut coordinator, &[("alice", 4, 0)]);
    coordinator.reconcile().unwrap();
    report(&mut coordinator, &[("alice", 4, 4)]);

    coordinator.add_instance(primary(), flat(2));
    report(&mut coordinator, &[("alice", 4, 4), ("bob", 2, 0)]);
    coordinator.reconcile().unwrap();

    assert_eq!(granted(&coordinator, "alice"), 1);
    assert_eq!(granted(&coordinator, "bob"), 0);

    report(&mut coordinator, &[("alice", 4, 1), ("bob", 2, 0)]);
    coordinator.reconcile().unwrap();

    assert_eq!(granted(&coordinator, "bob"), 1);
}

#[test]
fn the_coordinator_allocates_against_the_budget_it_derives() {
    let mut coordinator = InProcessCoordinator::new(proxy(), Fair);
    coordinator.add_instance(primary(), InstanceBudget::new(limits(200), 15, window()));
    coordinator.observe_instance(&primary(), now(), 30);
    coordinator.set_policies(policies(&["alice"], open_policy()));
    report(&mut coordinator, &[("alice", 500, 0)]);

    coordinator.reconcile().unwrap();

    assert_eq!(coordinator.table().budget(&primary()), 150);
    assert_eq!(granted(&coordinator, "alice"), 150);
}

#[test]
fn foreign_connections_that_appear_shrink_what_the_coordinator_allocates() {
    let mut coordinator = InProcessCoordinator::new(proxy(), Fair);
    coordinator.add_instance(primary(), InstanceBudget::new(limits(200), 15, window()));
    coordinator.set_policies(policies(&["alice"], open_policy()));

    let change = coordinator.observe_instance(&primary(), now(), 50);

    assert_eq!(change, Some(BudgetChange::Shrank { from: 180, to: 130 }));
    coordinator.reconcile().unwrap();
    assert_eq!(coordinator.table().budget(&primary()), 130);
}

#[test]
fn the_coordinator_answers_how_it_derived_each_budget() {
    let mut coordinator = InProcessCoordinator::new(proxy(), Fair);
    coordinator.add_instance(primary(), InstanceBudget::new(limits(200), 15, window()));
    coordinator.observe_instance(&primary(), now(), 30);

    let derived = coordinator.instances();

    assert_eq!(derived.len(), 1);
    let (instance, budget) = &derived[0];
    assert_eq!(instance, &primary());
    assert_eq!(budget.total(), 150);
    assert_eq!(budget.inputs().limits, limits(200));
    assert_eq!(budget.inputs().foreign_peak, 30);
    assert_eq!(budget.inputs().margin, 15);
}

#[test]
fn an_instance_the_coordinator_does_not_hold_is_not_observed() {
    let mut coordinator = InProcessCoordinator::new(proxy(), Fair);

    assert_eq!(
        coordinator.observe_instance(&primary(), now(), 30),
        None
    );
    assert!(coordinator.instances().is_empty());
}

#[test]
fn a_tenant_covered_by_the_wildcard_is_granted() {
    let mut coordinator = InProcessCoordinator::new(proxy(), Fair);
    coordinator.add_instance(primary(), flat(10));
    coordinator.set_policies(policies(&["*"], open_policy()));
    report(&mut coordinator, &[("alice", 3, 0)]);

    coordinator.reconcile().unwrap();

    assert_eq!(granted(&coordinator, "alice"), 3);
}

#[test]
fn a_tenant_is_granted_nothing_on_an_instance_its_rule_does_not_list() {
    let replica = InstanceId::new("replica");
    let mut coordinator = InProcessCoordinator::new(proxy(), Fair);
    coordinator.add_instance(primary(), flat(10));
    coordinator.add_instance(replica.clone(), flat(10));
    coordinator.set_policies(policies(&["alice"], open_policy()));
    coordinator.report(
        &Report::new(0).usage(
        replica.clone(),
        tenant("alice"),
        Usage {
            demand: 3,
            actual: 0,
        },
    ));

    coordinator.reconcile().unwrap();

    assert_eq!(
        coordinator
            .grants()
            .get(&replica, &tenant("alice")),
        0
    );
}

#[test]
fn a_tenant_setting_moves_the_grants_without_waiting_for_the_next_round() {
    let mut coordinator = coordinator(10, &["alice"]);
    report(&mut coordinator, &[("alice", 8, 0)]);
    coordinator.reconcile().unwrap();
    assert_eq!(granted(&coordinator, "alice"), 8);

    coordinator
        .set_tenant(
            "alice",
            PolicyChange {
                max: Some(3),
                ..PolicyChange::default()
            },
        )
        .unwrap();

    assert_eq!(granted(&coordinator, "alice"), 3);
}

#[test]
fn a_refused_tenant_setting_leaves_the_rule_that_was_in_force() {
    let mut coordinator = coordinator(10, &["alice"]);
    report(&mut coordinator, &[("alice", 8, 0)]);
    coordinator.reconcile().unwrap();

    let error = coordinator
        .set_tenant(
            "alice",
            PolicyChange {
                min: Some(11),
                ..PolicyChange::default()
            },
        )
        .unwrap_err();

    assert_eq!(
        error,
        SettingError::AboveBudget {
            instance: primary(),
            minimums: 11,
            budget: 10,
        }
    );
    assert_eq!(coordinator.policies().rule("alice").unwrap().policy.min, 0);
    assert_eq!(granted(&coordinator, "alice"), 8);
}

#[test]
fn a_proxy_that_gave_its_grants_back_holds_none() {
    let mut coordinator = coordinator(10, &["alice"]);
    report(&mut coordinator, &[("alice", 3, 3)]);
    coordinator.reconcile().unwrap();
    let before = generation(&coordinator);

    coordinator.withdraw();

    assert_eq!(granted(&coordinator, "alice"), 0);
    assert_eq!(coordinator.table().holders(&primary()).len(), 0);
    assert_eq!(coordinator.table().headroom(&primary()), 10);
    assert!(
        generation(&coordinator) > before,
        "the proxy learns that it holds nothing"
    );
}

#[test]
fn a_proxy_that_gave_its_grants_back_is_granted_nothing_again() {
    let mut coordinator = coordinator(10, &["alice"]);
    report(&mut coordinator, &[("alice", 3, 3)]);
    coordinator.reconcile().unwrap();
    coordinator.withdraw();

    report(&mut coordinator, &[("alice", 5, 0)]);
    coordinator.reconcile().unwrap();

    assert_eq!(granted(&coordinator, "alice"), 0);
    assert_eq!(coordinator.table().holders(&primary()).len(), 0);
}

const USERS: [&str; 3] = ["alice", "bob", "carol"];

/// A generator of numbers that gives the same ones in every run.
struct Rolls(u64);

impl Rolls {
    fn below(&mut self, n: u64) -> u64 {
        self.0 = self.0.wrapping_mul(6364136223846793005).wrapping_add(1442695040888963407);
        (self.0 >> 33) % n
    }
}

struct ModelProxy {
    seen: [u32; 3],
    generation: u64,
    demand: [u32; 3],
    actual: [u32; 3],
}

impl ModelProxy {
    fn open(&mut self, coordinator: &Coordinator) {
        let grants = coordinator.grants();
        self.generation = grants.generation();
        for (index, user) in USERS.iter().enumerate() {
            let grant = grants.get(&primary(), &tenant(user));
            self.seen[index] = grant;
            let wanted = self.demand[index].min(grant);
            if self.actual[index] < wanted {
                self.actual[index] = wanted;
            }
        }
    }

    fn close(&mut self, index: usize) {
        self.actual[index] = self.actual[index].min(self.seen[index]);
    }

    fn report(&self, coordinator: &mut Coordinator) {
        let report =
            USERS
                .iter()
                .enumerate()
                .fold(Report::new(self.generation), |report, (index, user)| {
                    report.usage(
                        primary(),
                        tenant(user),
                        Usage {
                            demand: self.demand[index],
                            actual: self.actual[index],
                        },
                    )
                });
        coordinator.report(&report);
    }
}

#[test]
fn a_proxy_that_follows_its_grants_never_puts_the_instance_over_its_budget() {
    let mut rolls = Rolls(11);
    for _ in 0..100 {
        let budget = 1 + rolls.below(6) as u32;
        let mut coordinator = coordinator(budget, &USERS);
        let mut proxy = ModelProxy {
            seen: [0; 3],
            generation: 0,
            demand: [0; 3],
            actual: [0; 3],
        };
        for _ in 0..1 + rolls.below(79) {
            match rolls.below(5) {
                0 => {
                    let index = rolls.below(3) as usize;
                    proxy.demand[index] = rolls.below(7) as u32;
                }
                1 => coordinator.reconcile().unwrap(),
                2 => proxy.open(&coordinator),
                3 => proxy.close(rolls.below(3) as usize),
                _ => proxy.report(&mut coordinator),
            }
            assert!(proxy.actual.iter().sum::<u32>() <= budget);
            assert!(coordinator.table().granted_total(&primary()) <= budget);
        }
    }
}

#[test]
fn a_written_margin_moves_the_budget_that_is_derived_from_it() {
    let mut coordinator = InProcessCoordinator::new(proxy(), Fair);
    coordinator.add_instance(primary(), InstanceBudget::new(limits(200), 15, window()));

    coordinator.set_margin(&primary(), 45).unwrap();

    let (_, budget) = &coordinator.instances()[0];
    assert_eq!(budget.inputs().margin, 45);
    assert_eq!(budget.total(), 150);
}

#[test]
fn a_margin_that_grows_the_budget_is_in_force_when_the_setting_is_answered() {
    let mut coordinator = InProcessCoordinator::new(proxy(), Fair);
    coordinator.add_instance(primary(), InstanceBudget::new(limits(200), 15, window()));
    coordinator.set_policies(policies(&["alice"], open_policy()));
    report(&mut coordinator, &[("alice", 500, 0)]);
    coordinator.reconcile().unwrap();
    assert_eq!(granted(&coordinator, "alice"), 180);

    let change = coordinator.set_margin(&primary(), 5).unwrap();

    assert!(coordinator.margin_in_force(&primary(), change));
    assert!(coordinator.within_budget(&primary()));
    assert_eq!(coordinator.table().budget(&primary()), 190);
    assert_eq!(granted(&coordinator, "alice"), 190);
}

#[test]
fn a_margin_that_shrinks_the_budget_is_answered_after_the_connections_are_gone() {
    let mut coordinator = InProcessCoordinator::new(proxy(), Fair);
    coordinator.add_instance(primary(), InstanceBudget::new(limits(200), 15, window()));
    coordinator.set_policies(policies(&["alice"], open_policy()));
    report(&mut coordinator, &[("alice", 500, 0)]);
    coordinator.reconcile().unwrap();
    report(&mut coordinator, &[("alice", 500, 180)]);

    let change = coordinator.set_margin(&primary(), 45).unwrap();

    assert_eq!(change, BudgetChange::Shrank { from: 180, to: 150 });
    assert!(!coordinator.within_budget(&primary()));
    assert!(
        !coordinator.margin_in_force(&primary(), change),
        "the setting is not answered while the proxy still holds the connections"
    );
    assert_eq!(
        granted(&coordinator, "alice"),
        150,
        "the desired state is computed within the new budget at once"
    );
    let before = coordinator.reports();

    report(&mut coordinator, &[("alice", 500, 150)]);

    assert!(coordinator.reports() != before);
    assert!(coordinator.margin_in_force(&primary(), change));
    assert!(coordinator.within_budget(&primary()));
    assert_eq!(coordinator.table().budget(&primary()), 150);
}

#[test]
fn a_margin_for_an_instance_the_coordinator_does_not_hold_is_refused() {
    let mut coordinator = InProcessCoordinator::new(proxy(), Fair);

    let error = coordinator.set_margin(&primary(), 20).unwrap_err();

    assert_eq!(
        error,
        SettingError::NoSuchInstance {
            instance: primary()
        }
    );
}

#[test]
fn a_margin_that_would_put_the_budget_below_the_minimums_is_refused() {
    let mut coordinator = InProcessCoordinator::new(proxy(), Fair);
    coordinator.add_instance(primary(), InstanceBudget::new(limits(200), 15, window()));
    coordinator.set_policies(policies(
        &["alice"],
        TenantPolicy {
            min: 100,
            ..open_policy()
        },
    ));

    let error = coordinator.set_margin(&primary(), 150).unwrap_err();

    assert_eq!(
        error,
        SettingError::AboveBudget {
            instance: primary(),
            minimums: 100,
            budget: 45,
        }
    );
    let (_, budget) = &coordinator.instances()[0];
    assert_eq!(budget.inputs().margin, 15);
    assert_eq!(budget.total(), 180);
}

/// Gives everyone what they ask for, whatever the budget is.
#[derive(Debug, Clone, Copy)]
struct Lavish;

impl Allocator for Lavish {
    fn allocate(&self, _budget: u32, claims: &Vec<Claim>) -> Vec<u32> {
        claims.iter().map(|claim| claim.demand).collect()
    }
}

#[test]
fn a_rejected_desired_state_is_told_with_what_the_table_says_of_it() {
    let mut coordinator = InProcessCoordinator::new(proxy(), Lavish);
    coordinator.add_instance(primary(), flat(10));
    coordinator.set_policies(policies(&["alice"], open_policy()));
    coordinator.report(&Report::new(0).usage(
        primary(),
        tenant("alice"),
        Usage {
            demand: 10,
            actual: 0,
        },
    ));
    coordinator.reconcile().unwrap();
    assert_eq!(coordinator.take_rejection(), None);

    let change = coordinator.set_margin(&primary(), 6).unwrap();

    let expected = || PreconditionError::OverBudget {
        instance: primary(),
        granted: 10,
        budget: 4,
    };
    assert_eq!(change, BudgetChange::Shrank { from: 10, to: 4 });
    assert_eq!(coordinator.take_rejection(), Some(expected()));
    assert_eq!(coordinator.take_rejection(), None);
    assert_eq!(coordinator.table().granted_total(&primary()), 10);

    assert_eq!(coordinator.reconcile(), Err(expected()));
    assert_eq!(coordinator.reconcile_at(now()), Err(expected()));
    assert_eq!(coordinator.take_rejection(), Some(expected()));
    let refused = coordinator.set_tenant("nobody", PolicyChange::default());
    assert!(refused.is_err());
    assert_eq!(coordinator.take_rejection(), None);
    coordinator
        .set_tenant("alice", PolicyChange::default())
        .unwrap();
    assert_eq!(coordinator.take_rejection(), Some(expected()));
}
