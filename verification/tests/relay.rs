use pgsteward::allocation::InstanceId;
use pgsteward::cancel::{CancelRegistry, ProxyTag};
use pgsteward::pool::PoolError;
use pgsteward::relay::{
    after_requests, after_reset, between_assignments, dispose, give_up, greeting, hold, on_event,
    still_waits, Awaiting, Boundary, Disposal, Event, Forwarding, Frame, Onward, RelayError,
    Requests, Taken, TransactionSession, Verdict, Welcome, RESET,
};
use pgsteward::response::{Reply, TransactionStatus};
use pgsteward::server::QueryError;
use pgsteward::startup::CancelKey;
use pgsteward::time::Duration;

fn frame(tag: u8, body: &[u8]) -> Frame {
    Frame {
        tag,
        body: body.to_vec(),
    }
}

fn query(sql: &str) -> Frame {
    frame(b'Q', sql.as_bytes())
}

#[test]
fn requests_cross_in_the_order_they_came() {
    let mut forwarding = Forwarding::new();
    for (request, verdict) in [
        (query("one"), Verdict::Forward),
        (query("two"), Verdict::Skip),
        (query("three"), Verdict::Forward),
    ] {
        let forwards = verdict == Verdict::Forward;
        let taken = forwarding.on_request(request, verdict, 0, TransactionStatus::Idle);
        assert_eq!(taken, if forwards { Taken::Track } else { Taken::Next });
    }

    let (out, refusals, requests) = forwarding.into_parts();

    assert_eq!(out, vec![query("one"), query("three")]);
    assert!(refusals.is_empty());
    assert_eq!(requests, Requests::Drained);
}

#[test]
fn an_unknown_prepared_statement_is_refused_without_reaching_the_server() {
    let mut forwarding = Forwarding::new();
    let taken = forwarding.on_request(
        frame(b'B', b""),
        Verdict::Reject("s1".to_owned()),
        0,
        TransactionStatus::Idle,
    );
    assert_eq!(taken, Taken::Next);

    let (out, refusals, _) = forwarding.into_parts();

    assert!(out.is_empty());
    let [Reply::Error(response)] = &refusals[..] else {
        panic!("one refusal");
    };
    assert!(!response.fatal);
    assert_eq!(response.code, "26000");
    assert_eq!(
        response.message,
        "prepared statement \"s1\" does not exist on this server connection"
    );
    assert_eq!(
        response.detail.as_deref(),
        Some(
            "PgSteward does not support server-side prepared statements in transaction mode: \
             a connection is handed to the next client at every transaction boundary, and the \
             reset in between deallocates whatever was prepared on it."
        )
    );
    assert!(response.hint.as_deref().unwrap().contains("prepareThreshold=0"));
}

#[test]
fn a_listen_is_refused_and_the_node_says_it_is_ready() {
    let mut forwarding = Forwarding::new();
    let taken = forwarding.on_request(
        query("LISTEN x"),
        Verdict::RejectListen,
        0,
        TransactionStatus::InTransaction,
    );
    assert_eq!(taken, Taken::Next);

    let (_, refusals, requests) = forwarding.into_parts();

    assert_eq!(requests, Requests::Answered);
    assert_eq!(refusals.len(), 2);
    let Reply::Error(response) = &refusals[0] else {
        panic!("a LISTEN is refused");
    };
    assert_eq!(response.code, "0A000");
    assert_eq!(
        response.message,
        "LISTEN is not supported on a pooled server connection"
    );
    assert_eq!(
        response.detail.as_deref(),
        Some(
            "PgSteward hands the server connection to the next client at every transaction \
             boundary in transaction mode, and the reset in between runs UNLISTEN *: a \
             registration made here would stop receiving notifications with nothing to show \
             for it."
        )
    );
    assert_eq!(
        response.hint.as_deref(),
        Some(
            "Run this tenant in session mode if the client has to listen, or poll for the \
             change the notification announces. NOTIFY needs no registration and crosses \
             unchanged."
        )
    );
    assert_eq!(refusals[1], Reply::Ready(TransactionStatus::InTransaction));
}

#[test]
fn a_listen_waits_for_the_answers_in_flight() {
    let mut forwarding = Forwarding::new();
    let taken = forwarding.on_request(
        query("LISTEN x"),
        Verdict::RejectListen,
        1,
        TransactionStatus::Idle,
    );
    assert_eq!(taken, Taken::Hold(query("LISTEN x")));

    let (out, refusals, requests) = forwarding.into_parts();
    assert!(out.is_empty() && refusals.is_empty());
    assert_eq!(requests, Requests::Drained);
}

#[test]
fn a_held_request_stands_ahead_of_what_is_pending() {
    assert_eq!(
        hold(&frame(b'Q', b"ab"), &b"rest".to_vec()),
        b"Q\0\0\0\x06abrest"
    );
    let long = hold(&frame(b'd', &[7; 70_000]), &Vec::new());
    assert_eq!(&long[..6], &[b'd', 0, 1, 0x11, 0x74, 7]);
}

#[test]
fn a_listen_in_an_extended_query_passes_over_what_follows() {
    let mut forwarding = Forwarding::new();
    let taken = forwarding.on_request(
        frame(b'P', b""),
        Verdict::RejectListen,
        3,
        TransactionStatus::Idle,
    );
    assert_eq!(taken, Taken::DiscardUntilSync);
    let (_, refusals, requests) = forwarding.into_parts();
    assert_eq!(refusals.len(), 1);
    assert_eq!(requests, Requests::Drained);
}

#[test]
fn terminate_ends_the_assignment_without_reaching_the_server() {
    let mut forwarding = Forwarding::new();
    assert!(!forwarding.on_tag(b'Q'));
    assert!(forwarding.on_tag(b'X'));
    let (out, _, requests) = forwarding.into_parts();
    assert!(out.is_empty());
    assert_eq!(requests, Requests::Terminated);
    assert_eq!(
        after_requests(requests, true),
        Some(Boundary::ClientClosed { may_release: true })
    );
    assert_eq!(
        after_requests(requests, false),
        Some(Boundary::ClientClosed { may_release: false })
    );
}

#[test]
fn an_answered_request_releases_the_assignment_only_at_a_boundary() {
    assert_eq!(
        after_requests(Requests::Answered, true),
        Some(Boundary::Released)
    );
    assert_eq!(after_requests(Requests::Answered, false), None);
    assert_eq!(after_requests(Requests::Drained, true), None);
}

/// A client sends a query, and the server answers it with those messages: what
/// reaches the server, what reaches the client, and how the assignment ends, if
/// it does. In a transaction the connection may not be released.
fn assignment(sql: &str, answers: &[Frame]) -> (Vec<Frame>, Vec<Frame>, Option<Boundary>) {
    let mut forwarding = Forwarding::new();
    let request = frame(b'Q', &[sql.as_bytes(), b"\0"].concat());
    assert!(!forwarding.on_tag(request.tag));
    assert_eq!(
        forwarding.on_request(request, Verdict::Forward, 0, TransactionStatus::Idle),
        Taken::Track
    );
    let (out, refusals, requests) = forwarding.into_parts();
    assert!(refusals.is_empty());
    assert_eq!(after_requests(requests, false), None);
    let mut relayed = Vec::new();
    for answer in answers {
        let ready = answer.tag == b'Z';
        let idle = ready && answer.body == b"I";
        let event = Event::FromServer(Some((frame(answer.tag, &answer.body), ready)));
        let served = on_event(event, idle).unwrap();
        relayed.extend(served.relay);
        if served.boundary.is_some() {
            return (out, relayed, served.boundary);
        }
    }
    (out, relayed, None)
}

fn command_complete(tag: &str, status: u8) -> Vec<Frame> {
    vec![
        frame(b'C', &[tag.as_bytes(), b"\0"].concat()),
        frame(b'Z', &[status]),
    ]
}

#[test]
fn a_simple_query_releases_the_assignment_when_the_server_reports_idle() {
    let result = [
        frame(b'T', &[0, 0]),
        frame(b'D', &[0, 0]),
        frame(b'C', b"SELECT 1\0"),
        frame(b'Z', b"I"),
    ];

    let (sent, relayed, boundary) = assignment("SELECT 1", &result);

    assert_eq!(sent, vec![frame(b'Q', b"SELECT 1\0")]);
    assert_eq!(relayed, result);
    assert_eq!(boundary, Some(Boundary::Released));
}

#[test]
fn an_open_transaction_holds_the_assignment_until_it_ends() {
    let begun = command_complete("BEGIN", b'T');
    let (sent, relayed, boundary) = assignment("BEGIN", &begun);
    assert_eq!(sent, vec![frame(b'Q', b"BEGIN\0")]);
    assert_eq!(relayed, begun);
    assert_eq!(
        boundary, None,
        "an open transaction must hold the assignment"
    );

    let committed = command_complete("COMMIT", b'I');
    let (sent, relayed, boundary) = assignment("COMMIT", &committed);
    assert_eq!(sent, vec![frame(b'Q', b"COMMIT\0")]);
    assert_eq!(relayed, committed);
    assert_eq!(boundary, Some(Boundary::Released));
}

#[test]
fn a_client_that_leaves_mid_transaction_leaves_the_assignment_unreleasable() {
    let served = on_event(Event::FromClient(0), false).unwrap();
    assert_eq!(
        served.boundary,
        Some(Boundary::ClientClosed { may_release: false })
    );
    assert_eq!(on_event(Event::FromClient(9), false).unwrap().boundary, None);
    assert_eq!(
        dispose(Ok(Boundary::ClientClosed { may_release: false })),
        (Disposal::Discard, Onward::Leave)
    );
}

#[test]
fn a_server_that_closes_mid_request_fails_the_assignment() {
    let error = on_event(Event::FromServer(None), true).unwrap_err();
    assert_eq!(error, RelayError::ServerClosed);
    assert_eq!(
        dispose(Err(error)),
        (Disposal::Discard, Onward::Fail(RelayError::ServerClosed))
    );
}

#[test]
fn a_released_assignment_leaves_the_server_connection_to_the_next_client() {
    for sql in ["SELECT 1", "SELECT 2"] {
        let answer = command_complete(sql, b'I');
        let (_, relayed, boundary) = assignment(sql, &answer);
        assert_eq!(boundary, Some(Boundary::Released));
        assert_eq!(relayed, answer);
    }
    assert_eq!(
        dispose(Ok(Boundary::Released)),
        (Disposal::Release, Onward::Again)
    );
    assert_eq!(
        dispose(Ok(Boundary::ClientClosed { may_release: true })),
        (Disposal::Release, Onward::Leave)
    );
}

#[test]
fn a_session_between_assignments_waits_for_the_client() {
    assert_eq!(between_assignments(b"", false), Awaiting::Read);
    assert_eq!(between_assignments(b"", true), Awaiting::Leave);
    assert_eq!(between_assignments(b"X\0\0\0\x04", false), Awaiting::Leave);
    assert_eq!(between_assignments(b"Q", false), Awaiting::Acquire);
}

#[test]
fn a_client_that_leaves_while_it_waits_for_a_slot_gives_up_its_place() {
    assert!(still_waits(Some(3)));
    assert!(!still_waits(Some(0)));
    assert!(!still_waits(None));
}

#[test]
fn a_client_that_waited_too_long_is_told_for_how_long() {
    let response = give_up(PoolError::WaitTimeout {
        waited: Duration::from_secs(30),
    })
    .unwrap();
    assert!(response.fatal);
    assert_eq!(response.code, "53300");
    assert_eq!(
        response.message,
        "no server connection became free within 30s"
    );
    assert_eq!(
        response.hint.as_deref(),
        Some("Retry, or ask for more connection slots for this tenant.")
    );
    assert_eq!(
        give_up(PoolError::Closed),
        Err(RelayError::Pool(PoolError::Closed))
    );
}

#[test]
fn the_client_is_greeted_with_the_server_parameters_the_backend_key_and_ready_for_query() {
    let key = CancelKey {
        process_id: 4242,
        secret_key: 987_654_321,
    };
    let parameters = vec![
        ("client_encoding".to_owned(), "UTF8".to_owned()),
        ("server_version".to_owned(), "16.4".to_owned()),
    ];
    assert_eq!(
        greeting(&parameters, key),
        vec![
            Reply::Parameter {
                name: "client_encoding".to_owned(),
                value: "UTF8".to_owned(),
            },
            Reply::Parameter {
                name: "server_version".to_owned(),
                value: "16.4".to_owned(),
            },
            Reply::Key(key),
            Reply::Ready(TransactionStatus::Idle),
        ]
    );
}

#[test]
fn every_client_is_greeted_with_the_parameters_of_the_first_connection() {
    let mut welcome = Welcome::default();
    assert!(welcome.parameters().is_none());
    let first = vec![("server_version".to_owned(), "16.4".to_owned())];
    welcome.set(first.clone());
    welcome.set(vec![("server_version".to_owned(), "17.0".to_owned())]);
    assert_eq!(welcome.parameters(), Some(&first));
}

#[test]
fn a_relay_error_says_what_went_wrong() {
    for (error, text) in [
        (
            RelayError::Io("reset".to_owned()),
            "i/o error while relaying a session: reset",
        ),
        (
            RelayError::Frame("too long".to_owned()),
            "malformed message: too long",
        ),
        (RelayError::Message("a tag".to_owned()), "a tag"),
        (RelayError::Frontend("a body".to_owned()), "a body"),
        (RelayError::Tracker("a count".to_owned()), "a count"),
        (
            RelayError::ServerClosed,
            "the server closed the connection while a request was in flight",
        ),
        (
            RelayError::Pool(PoolError::Closed),
            "the pool stopped answering requests",
        ),
    ] {
        assert_eq!(error.to_string(), text);
    }
}

#[test]
fn a_key_points_somewhere_only_while_its_client_is_served() {
    let mut registry = CancelRegistry::new(ProxyTag::new(9).unwrap());
    let session = TransactionSession::begin(&mut registry, InstanceId::new("primary"));
    let backend = CancelKey {
        process_id: 42,
        secret_key: 7,
    };
    assert_eq!(ProxyTag::in_key(session.key()).get(), 9);
    assert!(registry.target(session.key()).is_none());

    session.assigned(&mut registry, backend);
    let target = registry.target(session.key()).expect("the client is served");
    assert_eq!(target.instance(), &InstanceId::new("primary"));
    assert_eq!(target.backend(), backend);

    assert_eq!(
        session.served(&mut registry, Ok(Boundary::Released)),
        (Disposal::Release, Onward::Again)
    );
    assert!(registry.target(session.key()).is_none());
    assert_eq!(
        session.greet(&Vec::new()),
        vec![
            Reply::Key(session.key()),
            Reply::Ready(TransactionStatus::Idle)
        ]
    );

    session.end(&mut registry);
    assert!(registry.is_empty());
}

#[test]
fn a_connection_that_cannot_be_reset_is_discarded() {
    assert_eq!(RESET, "DISCARD ALL");
    assert_eq!(after_reset(&Ok(Vec::new())), Disposal::Release);
    assert_eq!(
        after_reset(&Err(QueryError::Server {
            code: "25P02".to_owned(),
            message: "the fake connection refuses to reset".to_owned(),
        })),
        Disposal::Discard
    );
}
