use pgsteward::allocation::{AllocationTable, Desired, Entry, Holder, InstanceId, ProxyId};
use pgsteward::budget::{BudgetInputs, ServerLimits, TotalBudget};
use pgsteward::console::{
    answer, greeting, is_console, setting_reply, show, show_budget, show_instances, show_pools,
    AdminCommand, Answer, Console, ConsoleError, ConsoleStep, ConsoleView, InstanceSnapshot,
    PoolSnapshot, ResultSet, Table, TenantSettings, DATABASE,
};
use pgsteward::grant::{TenantPolicy, Weight};
use pgsteward::policy::{PolicyChange, SettingError};
use pgsteward::pool::PoolStats;
use pgsteward::response::{Column, ErrorResponse, Reply, TransactionStatus};
use pgsteward::tenant::TenantId;

const PROXY: &str = "10.0.0.1:6432";
const OTHER_PROXY: &str = "10.0.0.2:6432";

fn instance(name: &str) -> InstanceId {
    InstanceId::new(name)
}

fn tenant(user: &str) -> TenantId {
    TenantId::new(user, "app")
}

fn policy(min: u32, max: u32) -> TenantPolicy {
    TenantPolicy {
        min,
        max,
        weight: Weight::new(1).expect("a positive weight"),
    }
}

fn stats(idle: usize, in_use: usize, opening: usize, waiting: usize) -> PoolStats {
    PoolStats {
        slots: idle + in_use + opening,
        idle,
        in_use,
        opening,
        closing: 0,
        waiting,
        opened: 0,
    }
}

fn budget(max_connections: u32, foreign_peak: u32, margin: u32) -> TotalBudget {
    TotalBudget::derive(BudgetInputs {
        limits: ServerLimits {
            max_connections,
            superuser_reserved_connections: 3,
            reserved_connections: 2,
        },
        foreign_peak,
        margin,
    })
}

fn view(
    table: AllocationTable,
    pools: Vec<PoolSnapshot>,
    instances: Vec<InstanceSnapshot>,
) -> ConsoleView {
    ConsoleView {
        proxy: ProxyId::new(PROXY),
        pool_mode: "transaction".to_owned(),
        pools,
        instances,
        table,
    }
}

fn table(entry: &Entry) -> AllocationTable {
    let mut table = AllocationTable::new();
    table.apply(entry).expect("an entry within the budget");
    table
}

fn row(set: &ResultSet, at: usize) -> Vec<Option<&str>> {
    set.rows[at].iter().map(Option::as_deref).collect()
}

#[test]
fn a_pool_puts_the_desired_state_next_to_what_the_instance_holds() {
    let table = table(&Entry::new().instance(
        instance("primary"),
        Desired::new(50).grant(Holder::new(tenant("alice"), ProxyId::new(PROXY)), 7),
    ));
    let view = view(
        table,
        vec![PoolSnapshot {
            instance: instance("primary"),
            tenant: tenant("alice"),
            policy: Some(policy(2, 20)),
            stats: stats(1, 3, 1, 4),
        }],
        Vec::new(),
    );

    let set = show_pools(&view);

    assert_eq!(
        set.columns,
        vec![
            Column::text("database"),
            Column::text("user"),
            Column::text("instance"),
            Column::count("cl_waiting"),
            Column::count("sv_active"),
            Column::count("sv_idle"),
            Column::count("sv_login"),
            Column::text("pool_mode"),
            Column::count("granted"),
            Column::count("actual"),
            Column::count("min"),
            Column::count("max"),
            Column::count("demand"),
        ]
    );
    assert_eq!(
        row(&set, 0),
        vec![
            Some("app"),
            Some("alice"),
            Some("primary"),
            Some("4"),
            Some("3"),
            Some("1"),
            Some("1"),
            Some("transaction"),
            Some("7"),
            Some("4"),
            Some("2"),
            Some("20"),
            Some("8"),
        ]
    );
}

#[test]
fn a_pool_no_tenant_rule_covers_leaves_its_share_null() {
    let view = view(
        AllocationTable::new(),
        vec![PoolSnapshot {
            instance: instance("primary"),
            tenant: tenant("alice"),
            policy: None,
            stats: PoolStats::default(),
        }],
        Vec::new(),
    );

    let set = show_pools(&view);

    assert_eq!(row(&set, 0)[10..12], [None, None]);
    assert_eq!(row(&set, 0)[8], Some("0"));
}

#[test]
fn pools_come_out_in_one_order_whatever_order_they_were_given_in() {
    let view = view(
        AllocationTable::new(),
        vec![
            PoolSnapshot {
                instance: instance("replica"),
                tenant: tenant("alice"),
                policy: None,
                stats: PoolStats::default(),
            },
            PoolSnapshot {
                instance: instance("primary"),
                tenant: tenant("bob"),
                policy: None,
                stats: PoolStats::default(),
            },
            PoolSnapshot {
                instance: instance("primary"),
                tenant: tenant("alice"),
                policy: None,
                stats: PoolStats::default(),
            },
        ],
        Vec::new(),
    );

    let set = show_pools(&view);

    let named: Vec<_> = set
        .rows
        .iter()
        .map(|row| (row[2].clone().unwrap(), row[1].clone().unwrap()))
        .collect();
    assert_eq!(
        named,
        vec![
            ("primary".to_owned(), "alice".to_owned()),
            ("primary".to_owned(), "bob".to_owned()),
            ("replica".to_owned(), "alice".to_owned()),
        ]
    );
}

#[test]
fn the_budget_names_every_holder_of_every_instance() {
    let table = table(
        &Entry::new()
            .instance(
                instance("primary"),
                Desired::new(50)
                    .grant(Holder::new(tenant("alice"), ProxyId::new(PROXY)), 7)
                    .grant(Holder::new(tenant("bob"), ProxyId::new(PROXY)), 5),
            )
            .instance(
                instance("replica"),
                Desired::new(20).grant(Holder::new(tenant("alice"), ProxyId::new(PROXY)), 2),
            ),
    );
    let view = view(
        table,
        vec![PoolSnapshot {
            instance: instance("primary"),
            tenant: tenant("alice"),
            policy: Some(policy(2, 20)),
            stats: stats(2, 4, 0, 0),
        }],
        Vec::new(),
    );

    let set = show_budget(&view);

    assert_eq!(
        set.columns,
        vec![
            Column::text("instance"),
            Column::text("tenant"),
            Column::text("proxy"),
            Column::count("granted"),
            Column::count("actual"),
        ]
    );
    assert_eq!(
        row(&set, 0),
        vec![
            Some("primary"),
            Some("alice@app"),
            Some(PROXY),
            Some("7"),
            Some("6"),
        ]
    );
    assert_eq!(
        row(&set, 1),
        vec![
            Some("primary"),
            Some("bob@app"),
            Some(PROXY),
            Some("5"),
            Some("0"),
        ]
    );
    assert_eq!(
        row(&set, 3),
        vec![
            Some("replica"),
            Some("alice@app"),
            Some(PROXY),
            Some("2"),
            Some("0"),
        ]
    );
}

#[test]
fn the_budget_gives_the_slots_no_one_holds_a_row_of_their_own() {
    let table = table(&Entry::new().instance(
        instance("primary"),
        Desired::new(50).grant(Holder::new(tenant("alice"), ProxyId::new(PROXY)), 7),
    ));
    let view = view(table, Vec::new(), Vec::new());

    let set = show_budget(&view);

    assert_eq!(
        row(&set, 1),
        vec![Some("primary"), None, None, Some("43"), None]
    );
}

#[test]
fn the_budget_leaves_the_connections_of_another_proxy_unclaimed() {
    let table = table(&Entry::new().instance(
        instance("primary"),
        Desired::new(50).grant(Holder::new(tenant("alice"), ProxyId::new(OTHER_PROXY)), 7),
    ));
    let view = view(table, Vec::new(), Vec::new());

    let set = show_budget(&view);

    assert_eq!(
        row(&set, 0),
        vec![
            Some("primary"),
            Some("alice@app"),
            Some(OTHER_PROXY),
            Some("7"),
            None,
        ]
    );
}

#[test]
fn an_instance_explains_its_total_budget_by_the_parts_it_was_derived_from() {
    let table = table(
        &Entry::new().instance(
            instance("primary"),
            Desired::new(69)
                .grant(Holder::new(tenant("alice"), ProxyId::new(PROXY)), 7)
                .grant(Holder::new(tenant("bob"), ProxyId::new(PROXY)), 5),
        ),
    );
    let view = view(
        table,
        vec![PoolSnapshot {
            instance: instance("primary"),
            tenant: tenant("alice"),
            policy: Some(policy(2, 20)),
            stats: stats(2, 4, 0, 0),
        }],
        vec![InstanceSnapshot {
            instance: instance("primary"),
            budget: budget(100, 10, 16),
        }],
    );

    let set = show_instances(&view);

    assert_eq!(
        set.columns,
        vec![
            Column::text("instance"),
            Column::count("max_connections"),
            Column::count("reserved"),
            Column::count("foreign_peak"),
            Column::count("margin"),
            Column::count("shortfall"),
            Column::count("total_budget"),
            Column::count("granted"),
            Column::count("actual"),
            Column::count("tenants"),
        ]
    );
    assert_eq!(
        row(&set, 0),
        vec![
            Some("primary"),
            Some("100"),
            Some("5"),
            Some("10"),
            Some("16"),
            Some("0"),
            Some("69"),
            Some("12"),
            Some("6"),
            Some("2"),
        ]
    );
}

#[test]
fn an_instance_whose_deductions_outgrow_max_connections_reports_the_shortfall() {
    let view = view(
        AllocationTable::new(),
        Vec::new(),
        vec![InstanceSnapshot {
            instance: instance("primary"),
            budget: budget(10, 8, 5),
        }],
    );

    let set = show_instances(&view);

    assert_eq!(row(&set, 0)[5..7], [Some("8"), Some("0")]);
}

#[test]
fn a_result_set_is_written_as_its_columns_then_its_rows_then_a_command_tag() {
    let view = view(
        AllocationTable::new(),
        vec![PoolSnapshot {
            instance: instance("primary"),
            tenant: tenant("alice"),
            policy: None,
            stats: PoolStats::default(),
        }],
        Vec::new(),
    );
    let mut out = Vec::new();

    show_pools(&view).encode(&mut out);

    let mut messages = out.into_iter();
    let Some(Reply::Columns(columns)) = messages.next() else {
        panic!("the result set opens with a row description");
    };
    assert_eq!(columns.len(), 13);
    let Some(Reply::Row(values)) = messages.next() else {
        panic!("the columns are followed by one row per pool");
    };
    assert_eq!(values[10], None);
    assert_eq!(values[3], Some("0".to_owned()));
    let Some(Reply::Complete(tag)) = messages.next() else {
        panic!("the rows are followed by a command tag");
    };
    assert_eq!(tag, "SHOW");
    assert!(messages.next().is_none(), "nothing follows the command tag");
}

#[test]
fn a_console_that_holds_nothing_answers_with_no_rows() {
    let view = view(AllocationTable::new(), Vec::new(), Vec::new());

    assert!(show_pools(&view).rows.is_empty());
    assert!(show_budget(&view).rows.is_empty());
    assert!(show_instances(&view).rows.is_empty());
}

#[test]
fn the_console_is_named_by_the_database_alone() {
    assert!(is_console(&TenantId::new("alice", DATABASE)));
    assert!(is_console(&TenantId::new("postgres", DATABASE)));
    assert!(!is_console(&TenantId::new(DATABASE, "app")));
    assert!(!is_console(&TenantId::new("alice", "app")));
}

fn empty_view() -> ConsoleView {
    view(AllocationTable::new(), Vec::new(), Vec::new())
}

fn one_pool_view() -> ConsoleView {
    view(
        AllocationTable::new(),
        vec![PoolSnapshot {
            instance: instance("primary"),
            tenant: tenant("alice"),
            policy: None,
            stats: PoolStats::default(),
        }],
        Vec::new(),
    )
}

fn refused(reply: Reply) -> ErrorResponse {
    match reply {
        Reply::Error(response) => response,
        other => panic!("expected a refusal, got {other:?}"),
    }
}

/// How many rows a command is answered with by a node that holds nothing.
fn rows(command: AdminCommand) -> usize {
    let Answer::Show(table) = answer(Ok(command)) else {
        panic!("the command shows a table");
    };
    show(table, &empty_view())
        .iter()
        .filter(|reply| matches!(reply, Reply::Row(_)))
        .count()
}

#[test]
fn the_console_greets_a_client_before_it_reads_a_command() {
    let greeting = greeting("0.1.0");

    let named: Vec<(&str, &str)> = greeting
        .iter()
        .filter_map(|reply| match reply {
            Reply::Parameter { name, value } => Some((name.as_str(), value.as_str())),
            _ => None,
        })
        .collect();
    assert_eq!(
        named,
        vec![
            ("server_version", "0.1.0 (PgSteward)"),
            ("server_encoding", "UTF8"),
            ("client_encoding", "UTF8"),
            ("DateStyle", "ISO"),
            ("TimeZone", "UTC"),
            ("standard_conforming_strings", "on"),
        ]
    );
    assert_eq!(greeting.len(), 7);
    assert_eq!(greeting[6], Reply::Ready(TransactionStatus::Idle));
}

#[test]
fn the_console_writes_the_table_the_command_names() {
    assert_eq!(
        answer(Ok(AdminCommand::ShowPools)),
        Answer::Show(Table::Pools)
    );

    let shown = show(Table::Pools, &one_pool_view());

    assert_eq!(shown.len(), 3);
    assert!(matches!(&shown[0], Reply::Columns(columns) if columns.len() == 13));
    assert!(matches!(shown[1], Reply::Row(_)));
    assert_eq!(shown[2], Reply::Complete("SHOW"));
}

#[test]
fn the_three_tables_the_node_serves_are_all_answered() {
    for (command, table, columns) in [
        (AdminCommand::ShowPools, Table::Pools, 13),
        (AdminCommand::ShowBudget, Table::Budget, 5),
        (AdminCommand::ShowInstances, Table::Instances, 10),
    ] {
        assert_eq!(answer(Ok(command)), Answer::Show(table));
        let shown = show(table, &empty_view());
        assert_eq!(shown.len(), 2, "the table holds no rows");
        assert!(matches!(&shown[0], Reply::Columns(list) if list.len() == columns));
    }
}

#[test]
fn a_text_that_holds_no_statement_gets_an_empty_query_response() {
    assert_eq!(
        answer(Ok(AdminCommand::Empty)),
        Answer::Reply(Reply::EmptyQuery)
    );
}

#[test]
fn a_text_that_is_no_command_is_answered_with_its_complaint() {
    let complaint = ErrorResponse::error("42601", "no such command".to_owned())
        .with_hint("The console has SHOW POOLS.");

    let Answer::Reply(reply) = answer(Err(complaint)) else {
        panic!("a text that is no command is refused");
    };
    let error = refused(reply);
    assert_eq!(error.code, "42601");
    assert!(error.hint.unwrap_or_default().contains("SHOW POOLS"));
    assert_eq!(rows(AdminCommand::ShowPools), 0);
}

#[test]
fn a_command_of_the_language_this_node_does_not_serve_yet_says_which_it_serves() {
    for (command, name) in [
        (AdminCommand::ShowClients, "SHOW CLIENTS"),
        (AdminCommand::ShowServers, "SHOW SERVERS"),
        (AdminCommand::ShowConfig, "SHOW CONFIG"),
        (AdminCommand::Reload, "RELOAD"),
        (AdminCommand::Pause, "PAUSE"),
        (AdminCommand::Resume, "RESUME"),
    ] {
        let Answer::Reply(reply) = answer(Ok(command)) else {
            panic!("{name} is not served");
        };
        let error = refused(reply);
        assert_eq!(error.code, "0A000");
        assert!(!error.fatal);
        assert_eq!(
            error.message,
            format!("`{name}` is part of the admin console but this node does not serve it yet")
        );
        assert!(
            error.hint.unwrap_or_default().contains("SHOW POOLS"),
            "the refusal names the commands this node serves"
        );
    }
    assert_eq!(rows(AdminCommand::ShowBudget), 0);
}

#[test]
fn a_tenant_setting_reaches_the_node_with_the_name_as_it_was_written() {
    let command = AdminCommand::SetTenant {
        tenant: "app web@reports".to_owned(),
        settings: TenantSettings {
            min: Some(2),
            max: None,
            weight: Some(3),
        },
    };
    assert_eq!(
        answer(Ok(command)),
        Answer::SetTenant {
            tenant: "app web@reports".to_owned(),
            change: PolicyChange {
                min: Some(2),
                max: None,
                weight: Some(3),
            },
        }
    );
    assert_eq!(setting_reply(Ok(())), Reply::Complete("SET"));
}

#[test]
fn an_instance_setting_reaches_the_node() {
    assert_eq!(
        answer(Ok(AdminCommand::SetInstance {
            instance: "primary".to_owned(),
            margin: 20,
        })),
        Answer::SetInstance {
            instance: "primary".to_owned(),
            margin: 20,
        }
    );
}

#[test]
fn a_tenant_setting_the_node_refuses_says_why_and_the_session_goes_on() {
    let error = refused(setting_reply(Err(SettingError::AboveBudget {
        instance: instance("primary"),
        minimums: 45,
        budget: 40,
    })));

    assert_eq!(error.code, "22023");
    assert!(
        error.message.contains("primary") && error.message.contains("40"),
        "the refusal names the instance and its total budget, got {:?}",
        error.message
    );
    assert!(
        error.hint.unwrap_or_default().contains("SHOW INSTANCES"),
        "the refusal points at the table that explains the budget"
    );
    assert_eq!(rows(AdminCommand::ShowPools), 0);
}

#[test]
fn a_name_no_rule_is_written_as_is_refused_as_an_undefined_object() {
    let error = refused(setting_reply(Err(SettingError::NoSuchTenant {
        tenant: "app_web@orders".to_owned(),
    })));

    assert_eq!(error.code, "42704");
    assert!(error.message.contains("app_web@orders"));
}

#[test]
fn every_other_refused_setting_has_its_code_and_its_hint() {
    for (error, code, hint) in [
        (
            SettingError::NoSuchInstance {
                instance: instance("nowhere"),
            },
            "42704",
            "SHOW INSTANCES names",
        ),
        (
            SettingError::MinAboveMax { min: 5, max: 4 },
            "22023",
            "Write min and max in one command",
        ),
        (SettingError::ZeroWeight, "22023", "A weight is at least 1"),
    ] {
        let response = refused(setting_reply(Err(error)));
        assert_eq!(response.code, code);
        assert!(response.hint.unwrap_or_default().contains(hint));
    }
}

#[test]
fn the_console_reads_the_simple_query_protocol_only() {
    let mut console = Console::default();

    let ConsoleStep::Reply(reply) = console.on_message(b'P') else {
        panic!("a parse is refused");
    };
    assert_eq!(refused(reply).code, "0A000");
    assert_eq!(console.on_message(b'D'), ConsoleStep::Ignore);
    assert_eq!(console.on_message(b'E'), ConsoleStep::Ignore);
    assert_eq!(console.on_message(b'Q'), ConsoleStep::Ignore);
    assert_eq!(
        console.on_message(b'S'),
        ConsoleStep::Reply(Reply::Ready(TransactionStatus::Idle))
    );
    assert_eq!(console.on_message(b'Q'), ConsoleStep::Query);
}

#[test]
fn terminate_ends_the_console_session() {
    let mut console = Console::default();
    assert_eq!(console.on_message(b'X'), ConsoleStep::Leave);
    console.on_message(b'P');
    assert_eq!(console.on_message(b'X'), ConsoleStep::Leave);
}

#[test]
fn a_console_error_says_what_went_wrong() {
    assert_eq!(
        ConsoleError::Io("broken pipe".to_owned()).to_string(),
        "i/o error while serving the admin console: broken pipe"
    );
    assert_eq!(
        ConsoleError::Frame("too long".to_owned()).to_string(),
        "malformed message: too long"
    );
    assert_eq!(ConsoleError::Message("bad tag".to_owned()).to_string(), "bad tag");
    assert_eq!(ConsoleError::Frontend("no text".to_owned()).to_string(), "no text");
}

#[test]
fn pools_of_one_tenant_keep_the_order_they_were_given_in() {
    let pool = |waiting| PoolSnapshot {
        instance: instance("primary"),
        tenant: tenant("alice"),
        policy: None,
        stats: stats(0, 0, 0, waiting),
    };
    let set = show_pools(&view(
        AllocationTable::new(),
        vec![pool(2), pool(1), pool(3)],
        Vec::new(),
    ));
    let waiting: Vec<_> = set.rows.iter().map(|row| row[3].clone().unwrap()).collect();
    assert_eq!(waiting, vec!["2", "1", "3"]);
}

#[test]
fn a_tenant_on_two_proxies_counts_once() {
    let table = table(
        &Entry::new().instance(
            instance("primary"),
            Desired::new(50)
                .grant(Holder::new(tenant("alice"), ProxyId::new(PROXY)), 7)
                .grant(Holder::new(tenant("alice"), ProxyId::new(OTHER_PROXY)), 3)
                .grant(Holder::new(tenant("bob"), ProxyId::new(PROXY)), 5),
        ),
    );
    let set = show_instances(&view(
        table,
        Vec::new(),
        vec![InstanceSnapshot {
            instance: instance("primary"),
            budget: budget(100, 10, 16),
        }],
    ));
    assert_eq!(row(&set, 0)[7..], [Some("15"), Some("0"), Some("2")]);
}
