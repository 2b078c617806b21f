use pgsteward::budget::ServerLimits;
use pgsteward::inspect::{
    count_foreign_connections, foreign_connections_query, parse_count, parse_duration, show_query,
    InspectError, LimitsReader, LimitsStep, TimeoutSettings, TimeoutsReader, TimeoutsStep,
};
use pgsteward::server::QueryError;
use pgsteward::time::Duration;

type Answered = Result<Vec<Vec<Option<String>>>, QueryError>;

fn value(value: &str) -> Answered {
    Ok(vec![vec![Some(value.to_owned())]])
}

fn refusal(code: &str) -> Answered {
    Err(QueryError::Server {
        code: code.to_owned(),
        message: "no".to_owned(),
    })
}

/// Reads a server's limits out of what it answers to each `SHOW`.
fn read_server_limits(
    settings: &[(&str, Answered)],
) -> Result<ServerLimits, InspectError> {
    let mut reader = LimitsReader::new();
    loop {
        let setting = reader.setting();
        let answered = settings
            .iter()
            .find(|(name, _)| *name == setting)
            .map_or(refusal("42704"), |(_, answered)| match answered {
                Ok(rows) => Ok(rows.clone()),
                Err(QueryError::Server { code, .. }) => refusal(code),
                Err(other) => panic!("no such answer: {other:?}"),
            });
        match reader.on_answer(answered)? {
            LimitsStep::Ask(next) => reader = next,
            LimitsStep::Done(limits) => return Ok(limits),
        }
    }
}

#[test]
fn the_server_limits_are_read_from_max_connections_and_both_reservations() {
    let limits = read_server_limits(&[
        ("max_connections", value("200")),
        ("superuser_reserved_connections", value("3")),
        ("reserved_connections", value("5")),
    ])
    .unwrap();

    assert_eq!(
        limits,
        ServerLimits {
            max_connections: 200,
            superuser_reserved_connections: 3,
            reserved_connections: 5,
        }
    );
    assert_eq!(limits.reserved(), 8);
}

#[test]
fn a_server_without_reserved_connections_reserves_nothing_for_it() {
    let limits = read_server_limits(&[
        ("max_connections", value("100")),
        ("superuser_reserved_connections", value("3")),
    ])
    .unwrap();

    assert_eq!(limits.reserved_connections, 0);
    assert_eq!(limits.reserved(), 3);
}

#[test]
fn a_server_without_max_connections_is_an_error() {
    let err = read_server_limits(&[("superuser_reserved_connections", value("3"))]).unwrap_err();

    match err {
        InspectError::Missing(setting) => assert_eq!(setting, "max_connections"),
        other => panic!("expected the setting to be reported as missing, got {other:?}"),
    }
}

#[test]
fn a_refused_show_is_reported_with_its_sqlstate() {
    let err = read_server_limits(&[
        ("max_connections", value("100")),
        ("superuser_reserved_connections", refusal("42501")),
    ])
    .unwrap_err();

    match err {
        InspectError::Query(QueryError::Server { code, .. }) => assert_eq!(code, "42501"),
        other => panic!("expected the server error to be reported, got {other:?}"),
    }
}

#[test]
fn a_refused_reservation_is_reported_too() {
    let err = read_server_limits(&[
        ("max_connections", value("100")),
        ("superuser_reserved_connections", value("3")),
        ("reserved_connections", refusal("42501")),
    ])
    .unwrap_err();

    assert!(matches!(err, InspectError::Query(_)), "{err:?}");
}

#[test]
fn a_max_connections_that_is_not_a_number_is_an_error() {
    let err = read_server_limits(&[("max_connections", value("many"))]).unwrap_err();

    assert_eq!(
        err.to_string(),
        "cannot read max_connections from the value \"many\" the server returned"
    );
    match err {
        InspectError::Unreadable { what, value } => {
            assert_eq!(what, "max_connections");
            assert_eq!(value, "many");
        }
        other => panic!("expected an unreadable value, got {other:?}"),
    }
}

fn read_timeout_settings(idle: &str, user: &str) -> Result<TimeoutSettings, InspectError> {
    let reader = TimeoutsReader::new();
    assert_eq!(show_query(reader.setting()), "SHOW tcp_keepalives_idle");
    let TimeoutsStep::Ask(reader) = reader.on_answer(value(idle))? else {
        panic!("one setting is left");
    };
    assert_eq!(reader.setting(), "tcp_user_timeout");
    match reader.on_answer(value(user))? {
        TimeoutsStep::Done(settings) => Ok(settings),
        TimeoutsStep::Ask(_) => panic!("no setting is left"),
    }
}

#[test]
fn timeouts_are_read_in_the_units_the_server_writes() {
    let settings = read_timeout_settings("7200", "0").unwrap();
    assert_eq!(settings.tcp_keepalives_idle, Duration::from_secs(7_200));
    assert_eq!(settings.tcp_user_timeout, Duration::from_secs(0));

    let settings = read_timeout_settings("2min", "30s").unwrap();
    assert_eq!(settings.tcp_keepalives_idle, Duration::from_secs(120));
    assert_eq!(settings.tcp_user_timeout, Duration::from_secs(30));

    let settings = read_timeout_settings("1h", "1500").unwrap();
    assert_eq!(settings.tcp_keepalives_idle, Duration::from_secs(3_600));
    assert_eq!(settings.tcp_user_timeout, Duration::from_millis(1_500));
}

#[test]
fn every_unit_of_a_span_is_known() {
    let base = Duration::from_secs(1);
    for (text, nanos) in [
        ("7", 7_000_000_000),
        ("7us", 7_000),
        ("7ms", 7_000_000),
        ("7s", 7_000_000_000),
        ("7min", 420_000_000_000),
        ("7h", 25_200_000_000_000),
        ("7d", 604_800_000_000_000),
    ] {
        let span = parse_duration("x", text, base).unwrap();
        assert_eq!(span.as_nanos(), nanos, "{text}");
    }
    for text in ["", "s", "-1s", "1 s", "1week", "4294967296", "+1"] {
        assert!(
            matches!(
                parse_duration("x", text, base),
                Err(InspectError::Unreadable { what: "x", .. })
            ),
            "{text}"
        );
    }
}

#[test]
fn a_span_that_is_too_long_cannot_be_read() {
    let longest = Duration::from_nanos(18_446_744_073_709_551_615_999_999_999);
    assert!(parse_duration("x", "1", longest).is_ok());
    assert!(parse_duration("x", "2", longest).is_err());
}

#[test]
fn the_foreign_connections_are_counted_by_their_application_name() {
    assert_eq!(
        foreign_connections_query(),
        "SELECT count(*) FROM pg_stat_activity WHERE backend_type = 'client backend' AND left(application_name, 10) IS DISTINCT FROM 'pgsteward-'"
    );
    assert_eq!(count_foreign_connections(value("12")).unwrap(), 12);
}

#[test]
fn an_answer_without_a_count_is_an_error() {
    let no_row: Answered = Ok(Vec::new());
    let no_value: Answered = Ok(vec![Vec::new()]);
    let null: Answered = Ok(vec![vec![None]]);
    for answered in [no_row, no_value, null] {
        assert_eq!(
            count_foreign_connections(answered).unwrap_err().to_string(),
            "the server returned no value for the number of foreign connections"
        );
    }
    assert!(matches!(
        count_foreign_connections(value("-1")),
        Err(InspectError::Unreadable { .. })
    ));
    assert!(matches!(
        count_foreign_connections(Err(QueryError::ConnectionClosed)),
        Err(InspectError::Query(QueryError::ConnectionClosed))
    ));
}

#[test]
fn a_count_may_have_a_plus_in_front() {
    assert_eq!(parse_count("x", "+12").unwrap(), 12);
    assert_eq!(parse_count("x", "4294967295").unwrap(), u32::MAX);
    assert!(parse_count("x", "4294967296").is_err());
}
