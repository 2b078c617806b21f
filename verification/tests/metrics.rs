use std::collections::BTreeMap;
use std::fmt;

use pgsteward::allocation::{AllocationTable, Desired, Entry, Holder, InstanceId, ProxyId};
use pgsteward::budget::{BudgetInputs, ServerLimits, TotalBudget};
use pgsteward::console::{ConsoleView, InstanceSnapshot, PoolSnapshot};
use pgsteward::grant::{TenantPolicy, Weight};
use pgsteward::metrics::{
    answer, head_read, metrics, scrape, scrape_in, Family, MetricKind, Scrape, PREFIX,
};
use pgsteward::pool::PoolStats;
use pgsteward::tenant::TenantId;
use prometheus_client::collector::Collector;
use prometheus_client::encoding::text::encode;
use prometheus_client::encoding::{DescriptorEncoder, NoLabelSet};
use prometheus_client::metrics::MetricType;
use prometheus_client::registry::Registry;

const PROXY: &str = "10.0.0.1:6432";
const OTHER_PROXY: &str = "10.0.0.2:6432";
const INSTANCE: &str = "db-a";

fn instance() -> InstanceId {
    InstanceId::new(INSTANCE)
}

fn tenant(user: &str) -> TenantId {
    TenantId::new(user, "app")
}

fn policy(min: u32, max: u32) -> TenantPolicy {
    TenantPolicy {
        min,
        max,
        weight: Weight::new(1).expect("a positive weight"),
    }
}

fn stats(idle: usize, in_use: usize, closing: usize, opening: usize, waiting: usize) -> PoolStats {
    PoolStats {
        slots: idle + in_use + opening,
        idle,
        in_use,
        opening,
        closing,
        waiting,
        opened: 0,
    }
}

fn budget(max_connections: u32, foreign_peak: u32, margin: u32) -> TotalBudget {
    TotalBudget::derive(BudgetInputs {
        limits: ServerLimits {
            max_connections,
            superuser_reserved_connections: 3,
            reserved_connections: 2,
        },
        foreign_peak,
        margin,
    })
}

fn table(entry: &Entry) -> AllocationTable {
    let mut table = AllocationTable::new();
    table.apply(entry).expect("an entry within the budget");
    table
}

fn view(
    table: AllocationTable,
    pools: Vec<PoolSnapshot>,
    instances: Vec<InstanceSnapshot>,
) -> ConsoleView {
    ConsoleView {
        proxy: ProxyId::new(PROXY),
        pool_mode: "transaction".to_owned(),
        pools,
        instances,
        table,
    }
}

/// One node holding three connections for `app_web` out of the six slots it
/// was granted, on an instance whose budget leaves room for more.
fn one_pool() -> ConsoleView {
    let table = table(
        &Entry::new().instance(
            instance(),
            Desired::new(70)
                .grant(Holder::new(tenant("app_web"), ProxyId::new(PROXY)), 6)
                .grant(Holder::new(tenant("batch"), ProxyId::new(OTHER_PROXY)), 4),
        ),
    );
    view(
        table,
        vec![PoolSnapshot {
            instance: instance(),
            tenant: tenant("app_web"),
            policy: Some(policy(2, 8)),
            stats: PoolStats {
                opened: 17,
                ..stats(2, 3, 1, 1, 4)
            },
        }],
        vec![InstanceSnapshot {
            instance: instance(),
            budget: budget(100, 10, 15),
        }],
    )
}

/// The metrics of a node, written out by the encoder that a scrape is answered
/// with.
#[derive(Debug)]
struct Written(Vec<Family>);

impl Collector for Written {
    fn encode(&self, mut encoder: DescriptorEncoder) -> Result<(), fmt::Error> {
        for family in &self.0 {
            let kind = match family.kind {
                MetricKind::Gauge => MetricType::Gauge,
                MetricKind::Counter => MetricType::Counter,
            };
            let mut metric = encoder.encode_descriptor(family.name, family.help, None, kind)?;
            for series in &family.series {
                let mut sample = metric.encode_family(&series.labels)?;
                match family.kind {
                    MetricKind::Gauge => {
                        sample.encode_gauge(&i64::try_from(series.value).expect("a gauge"))?;
                    }
                    MetricKind::Counter => {
                        sample.encode_counter::<NoLabelSet, _, u64>(&series.value, None)?;
                    }
                }
            }
        }
        Ok(())
    }
}

fn exposition(view: &ConsoleView) -> String {
    let mut registry = Registry::with_prefix(PREFIX);
    registry.register_collector(Box::new(Written(metrics(view))));
    let mut text = String::new();
    encode(&mut text, &registry).expect("writing into a String never fails");
    text
}

/// Every sample of the exposition, keyed by its name and its labels in
/// alphabetical order so that a test does not pin the order they are written
/// in.
fn samples(text: &str) -> BTreeMap<String, u64> {
    text.lines()
        .filter(|line| !line.starts_with('#') && !line.trim().is_empty())
        .map(|line| {
            let (series, value) = line.rsplit_once(' ').expect("a sample ends with its value");
            (normalize(series), value.parse().expect("a whole number"))
        })
        .collect()
}

fn normalize(series: &str) -> String {
    let Some((name, labels)) = series.split_once('{') else {
        return series.to_owned();
    };
    let mut labels: Vec<&str> = labels
        .trim_end_matches('}')
        .split(',')
        .filter(|label| !label.is_empty())
        .collect();
    labels.sort_unstable();
    format!("{name}{{{}}}", labels.join(","))
}

fn value(text: &str, series: &str) -> u64 {
    *samples(text)
        .get(&normalize(series))
        .unwrap_or_else(|| panic!("no sample named {series} in:\n{text}"))
}

fn named(text: &str, name: &str) -> BTreeMap<String, u64> {
    samples(text)
        .into_iter()
        .filter(|(series, _)| series.starts_with(&format!("{name}{{")) || series == name)
        .collect()
}

#[test]
fn granted_slots_and_server_connections_stand_side_by_side() {
    let text = exposition(&one_pool());

    assert_eq!(
        value(
            &text,
            r#"pgsteward_granted_slots{instance="db-a",database="app",user="app_web",proxy="10.0.0.1:6432"}"#
        ),
        6
    );
    assert_eq!(
        value(
            &text,
            r#"pgsteward_server_connections{instance="db-a",database="app",user="app_web",state="idle"}"#
        ),
        2
    );
    assert_eq!(
        value(
            &text,
            r#"pgsteward_server_connections{instance="db-a",database="app",user="app_web",state="active"}"#
        ),
        3
    );
    assert_eq!(
        value(
            &text,
            r#"pgsteward_server_connections{instance="db-a",database="app",user="app_web",state="closing"}"#
        ),
        1
    );
}

#[test]
fn the_connection_states_add_up_to_what_the_budget_counts() {
    let view = one_pool();
    let actual = view.pools[0].stats.actual() as u64;
    let text = exposition(&view);

    let counted: u64 = named(&text, "pgsteward_server_connections").values().sum();

    assert_eq!(counted, actual);
    assert_eq!(
        value(
            &text,
            r#"pgsteward_server_connections_opening{instance="db-a",database="app",user="app_web"}"#
        ),
        1
    );
}

#[test]
fn every_server_connection_the_node_opened_is_counted() {
    let text = exposition(&one_pool());

    assert_eq!(
        value(
            &text,
            r#"pgsteward_server_connections_opened_total{instance="db-a",database="app",user="app_web"}"#
        ),
        17
    );
    assert!(
        text.contains("# TYPE pgsteward_server_connections_opened counter"),
        "{text}"
    );
}

#[test]
fn a_grant_held_by_another_proxy_reports_no_connections() {
    let text = exposition(&one_pool());

    assert_eq!(
        value(
            &text,
            r#"pgsteward_granted_slots{instance="db-a",database="app",user="batch",proxy="10.0.0.2:6432"}"#
        ),
        4
    );
    assert!(
        named(&text, "pgsteward_server_connections")
            .keys()
            .all(|series| !series.contains(r#"user="batch""#)),
        "the connections of another proxy are unknown here, not zero:\n{text}"
    );
}

#[test]
fn the_waiting_clients_and_the_demand_they_make_are_reported() {
    let text = exposition(&one_pool());

    assert_eq!(
        value(
            &text,
            r#"pgsteward_clients_waiting{instance="db-a",database="app",user="app_web"}"#
        ),
        4
    );
    assert_eq!(
        value(
            &text,
            r#"pgsteward_demand_slots{instance="db-a",database="app",user="app_web"}"#
        ),
        8
    );
}

#[test]
fn a_tenant_no_rule_covers_reports_no_share() {
    let text = exposition(&view(
        table(&Entry::new().instance(instance(), Desired::new(70))),
        vec![PoolSnapshot {
            instance: instance(),
            tenant: tenant("app_web"),
            policy: None,
            stats: stats(1, 0, 0, 0, 0),
        }],
        Vec::new(),
    ));

    assert!(named(&text, "pgsteward_tenant_min_slots").is_empty());
    assert!(named(&text, "pgsteward_tenant_max_slots").is_empty());
    assert_eq!(
        value(
            &text,
            r#"pgsteward_server_connections{instance="db-a",database="app",user="app_web",state="idle"}"#
        ),
        1
    );
}

#[test]
fn the_share_a_rule_writes_is_reported() {
    let text = exposition(&one_pool());

    assert_eq!(
        value(
            &text,
            r#"pgsteward_tenant_min_slots{instance="db-a",database="app",user="app_web"}"#
        ),
        2
    );
    assert_eq!(
        value(
            &text,
            r#"pgsteward_tenant_max_slots{instance="db-a",database="app",user="app_web"}"#
        ),
        8
    );
}

#[test]
fn the_total_budget_comes_with_every_part_it_was_derived_from() {
    let text = exposition(&one_pool());

    assert_eq!(
        value(&text, r#"pgsteward_max_connections{instance="db-a"}"#),
        100
    );
    assert_eq!(
        value(&text, r#"pgsteward_reserved_connections{instance="db-a"}"#),
        5
    );
    assert_eq!(
        value(
            &text,
            r#"pgsteward_foreign_connections_peak{instance="db-a"}"#
        ),
        10
    );
    assert_eq!(
        value(&text, r#"pgsteward_budget_margin{instance="db-a"}"#),
        15
    );
    assert_eq!(
        value(&text, r#"pgsteward_budget_shortfall{instance="db-a"}"#),
        0
    );
    assert_eq!(
        value(&text, r#"pgsteward_total_budget_slots{instance="db-a"}"#),
        70
    );
}

#[test]
fn a_budget_the_deductions_outgrew_reports_its_shortfall() {
    let text = exposition(&view(
        table(&Entry::new().instance(instance(), Desired::new(0))),
        Vec::new(),
        vec![InstanceSnapshot {
            instance: instance(),
            budget: budget(20, 30, 15),
        }],
    ));

    assert_eq!(
        value(&text, r#"pgsteward_total_budget_slots{instance="db-a"}"#),
        0
    );
    assert_eq!(
        value(&text, r#"pgsteward_budget_shortfall{instance="db-a"}"#),
        30
    );
}

#[test]
fn the_granted_slots_and_the_unallocated_ones_make_up_the_budget() {
    let text = exposition(&one_pool());

    let granted: u64 = named(&text, "pgsteward_granted_slots").values().sum();
    let unallocated = value(&text, r#"pgsteward_unallocated_slots{instance="db-a"}"#);

    assert_eq!(unallocated, 60);
    assert_eq!(
        granted + unallocated,
        value(&text, r#"pgsteward_total_budget_slots{instance="db-a"}"#)
    );
}

#[test]
fn a_node_holding_nothing_writes_a_complete_exposition() {
    let text = exposition(&view(AllocationTable::new(), Vec::new(), Vec::new()));

    assert!(samples(&text).is_empty(), "{text}");
    assert!(text.ends_with("# EOF\n"), "{text}");
}

#[test]
fn every_name_says_which_system_it_belongs_to() {
    let text = exposition(&one_pool());

    assert!(
        samples(&text)
            .keys()
            .all(|series| series.starts_with("pgsteward_")),
        "{text}"
    );
}

#[test]
fn a_scrape_reads_the_metrics_of_the_node() {
    let asked = scrape_in(b"GET /metrics HTTP/1.1\r\nHost: node\r\n\r\n");
    assert_eq!(asked, Scrape::Metrics);

    let text = exposition(&one_pool());
    let answer = answer(asked, &text);

    assert!(answer.starts_with("HTTP/1.1 200 OK\r\n"), "{answer}");
    assert!(
        answer.contains("Content-Type: application/openmetrics-text; version=1.0.0; charset=utf-8"),
        "{answer}"
    );
    assert!(
        answer.contains(&format!("Content-Length: {}\r\n", text.len())),
        "{answer}"
    );
    let body = answer.split_once("\r\n\r\n").expect("a body").1;
    assert_eq!(body, text);
}

#[test]
fn a_query_string_is_left_off_the_path() {
    assert_eq!(scrape("GET /metrics?name=x HTTP/1.1\r\n\r\n"), Scrape::Metrics);
    assert_eq!(scrape("GET /metrics#top HTTP/1.1\r\n\r\n"), Scrape::Metrics);
    assert_eq!(scrape("GET /metrics/x HTTP/1.1\r\n\r\n"), Scrape::Elsewhere);
}

#[test]
fn a_path_that_is_not_the_scrape_reads_nothing() {
    let asked = scrape("GET /healthz HTTP/1.1\r\nHost: node\r\n\r\n");

    assert_eq!(asked, Scrape::Elsewhere);
    assert_eq!(
        answer(asked, "unread"),
        "HTTP/1.1 404 Not Found\r\nContent-Type: text/plain; charset=utf-8\r\n\
         Content-Length: 30\r\nConnection: close\r\n\r\nThis node publishes /metrics.\n"
    );
}

#[test]
fn a_request_that_is_not_a_read_is_refused() {
    let asked = scrape("POST /metrics HTTP/1.1\r\nHost: node\r\n\r\n");

    assert_eq!(asked, Scrape::NotARead);
    let answer = answer(asked, "unread");
    assert!(
        answer.starts_with("HTTP/1.1 405 Method Not Allowed\r\n"),
        "{answer}"
    );
    assert!(answer.ends_with("A scrape reads /metrics.\n"), "{answer}");
}

#[test]
fn what_is_no_request_is_refused() {
    for head in ["", "GET\r\n/metrics\r\n\r\n", "\n GET /metrics"] {
        assert_eq!(scrape(head), Scrape::NotHttp, "{head:?}");
    }
    let answer = answer(Scrape::NotHttp, "unread");
    assert!(answer.starts_with("HTTP/1.1 400 Bad Request\r\n"), "{answer}");
    assert!(answer.ends_with("Not an HTTP request.\n"), "{answer}");
}

#[test]
fn bytes_that_are_no_text_are_replaced() {
    assert_eq!(scrape_in(b"GET /\xff HTTP/1.1\r\n\r\n"), Scrape::Elsewhere);
}

#[test]
fn words_may_stand_apart_by_any_white_space() {
    assert_eq!(scrape(" \tGET\u{3000}/metrics\u{85}x"), Scrape::Metrics);
}

#[test]
fn a_head_is_read_up_to_its_blank_line_or_its_limit() {
    assert!(!head_read(b"GET / HTTP/1.1\r\n"));
    assert!(head_read(b"GET / HTTP/1.1\r\n\r\n"));
    assert!(head_read(b"\r\n\r\n"));
    assert!(!head_read(b"\n\r\n"));
    assert!(!head_read(&[b'x'; 8191]));
    assert!(head_read(&[b'x'; 8192]));
}

#[test]
fn the_series_come_in_the_order_of_the_tables() {
    let pool = |name: &str, user: &str| PoolSnapshot {
        instance: InstanceId::new(name),
        tenant: tenant(user),
        policy: None,
        stats: stats(1, 0, 0, 0, 0),
    };
    let families = metrics(&view(
        AllocationTable::new(),
        vec![pool("db-b", "a"), pool("db-a", "b"), pool("db-a", "a")],
        Vec::new(),
    ));
    let names: Vec<_> = families.iter().map(|family| family.name).collect();
    assert_eq!(
        names,
        vec![
            "granted_slots",
            "unallocated_slots",
            "server_connections",
            "server_connections_opening",
            "server_connections_opened",
            "clients_waiting",
            "demand_slots",
            "tenant_min_slots",
            "tenant_max_slots",
            "max_connections",
            "reserved_connections",
            "foreign_connections_peak",
            "budget_margin",
            "budget_shortfall",
            "total_budget_slots",
        ]
    );
    let users: Vec<_> = families[3]
        .series
        .iter()
        .map(|series| (series.labels[0].1.clone(), series.labels[2].1.clone()))
        .collect();
    assert_eq!(
        users,
        vec![
            ("db-a".to_owned(), "a".to_owned()),
            ("db-a".to_owned(), "b".to_owned()),
            ("db-b".to_owned(), "a".to_owned()),
        ]
    );
}
