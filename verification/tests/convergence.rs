use pgsteward::allocation::{InstanceId, Slot};
use pgsteward::convergence::ProxyPools;
use pgsteward::grant::GrantSet;
use pgsteward::ordmap::OrdMap;
use pgsteward::pool::PoolStats;
use pgsteward::tenant::TenantId;

fn primary() -> InstanceId {
    InstanceId::new("primary")
}

fn tenant(user: &str) -> TenantId {
    TenantId::new(user, user)
}

#[test]
fn demand_is_the_waiting_clients_and_the_connections_in_use() {
    let stats = PoolStats {
        slots: 2,
        idle: 1,
        in_use: 2,
        opening: 1,
        closing: 1,
        waiting: 3,
        opened: 0,
    };

    assert_eq!(stats.demand(), 6);
}

#[test]
fn occupied_counts_every_connection_the_instance_may_hold() {
    let stats = PoolStats {
        slots: 2,
        idle: 1,
        in_use: 2,
        opening: 1,
        closing: 1,
        waiting: 3,
        opened: 0,
    };

    assert_eq!(stats.occupied(), 5);
}

#[test]
fn the_report_carries_what_every_pool_asks_for_and_has() {
    let mut pools: ProxyPools<u8> = ProxyPools::new();
    pools.insert(primary(), tenant("bob"), 2);
    pools.insert(primary(), tenant("alice"), 1);
    let stats = |waiting, in_use| PoolStats {
        in_use,
        waiting,
        ..PoolStats::default()
    };

    let report = pools.report(7, &vec![stats(1, 0), stats(0, 3)]);

    assert_eq!(report.generation(), 7);
    assert_eq!(report.get(&primary(), &tenant("alice")).demand, 1);
    assert_eq!(report.get(&primary(), &tenant("alice")).actual, 0);
    assert_eq!(report.get(&primary(), &tenant("bob")).demand, 3);
    assert_eq!(report.get(&primary(), &tenant("bob")).actual, 3);
    assert_eq!(report.get(&primary(), &tenant("carol")).demand, 0);
}

#[test]
fn a_pool_is_opened_once_for_a_tenant_on_an_instance() {
    let mut pools: ProxyPools<u8> = ProxyPools::new();
    assert!(pools.checkout(&primary(), &tenant("alice"), || 1));
    assert!(!pools.checkout(&primary(), &tenant("alice"), || 2));
    assert_eq!(pools.get(&primary(), &tenant("alice")), Some(&1));
    assert_eq!(pools.len(), 1);
}

#[test]
fn a_pool_with_neither_a_grant_nor_a_client_is_dropped() {
    let mut pools: ProxyPools<u8> = ProxyPools::new();
    pools.insert(primary(), tenant("alice"), 1);
    pools.insert(primary(), tenant("bob"), 2);
    pools.insert(primary(), tenant("carol"), 3);
    let mut granted: OrdMap<Slot, u32> = OrdMap::new();
    granted.insert(
        Slot {
            instance: primary(),
            tenant: tenant("bob"),
        },
        4,
    );

    pools.drop_unused(&GrantSet::new(1, granted), &vec![true, true, false]);

    assert!(pools.get(&primary(), &tenant("alice")).is_none());
    assert_eq!(pools.get(&primary(), &tenant("bob")), Some(&2));
    assert_eq!(pools.get(&primary(), &tenant("carol")), Some(&3));
}
