use pgsteward::backend::{message_length, read_message, BackendMessage};
use pgsteward::frontend::terminate_message;
use pgsteward::scram::{ScramExchange, ScramVerifier};
use pgsteward::server::{
    asks_for_encryption, encryption_answer, host_of, scram_begun, scram_continued, scram_finished,
    simple_query, startup_request, ApplicationName, ConnectError, EncryptionStep, HandshakeError,
    Progress, QueryError, QueryState, ServerCredentials, StartupState,
};
use pgsteward::startup::{CancelKey, ProtocolVersion};
use pgsteward::tls::SslMode;

fn credentials(password: Option<&str>) -> ServerCredentials {
    ServerCredentials {
        user: "app_web".to_owned(),
        database: "shop".to_owned(),
        password: password.map(str::to_owned),
    }
}

fn frame(tag: u8, body: &[u8]) -> Vec<u8> {
    let mut out = vec![tag];
    out.extend_from_slice(&u32::try_from(body.len() + 4).unwrap().to_be_bytes());
    out.extend_from_slice(body);
    out
}

fn authentication(kind: i32, rest: &[u8]) -> Vec<u8> {
    frame(b'R', &[&kind.to_be_bytes()[..], rest].concat())
}

fn authentication_ok() -> Vec<u8> {
    authentication(0, &[])
}

fn parameter_status(name: &str, value: &str) -> Vec<u8> {
    frame(b'S', format!("{name}\0{value}\0").as_bytes())
}

fn backend_key_data(process_id: i32, secret_key: i32) -> Vec<u8> {
    frame(
        b'K',
        &[process_id.to_be_bytes(), secret_key.to_be_bytes()].concat(),
    )
}

fn ready_for_query(status: u8) -> Vec<u8> {
    frame(b'Z', &[status])
}

fn response(tag: u8, severity: &str, sqlstate: &str, message: &str) -> Vec<u8> {
    frame(
        tag,
        format!("S{severity}\0C{sqlstate}\0M{message}\0\0").as_bytes(),
    )
}

fn error_response(sqlstate: &str, message: &str) -> Vec<u8> {
    response(b'E', "FATAL", sqlstate, message)
}

fn notice_response(message: &str) -> Vec<u8> {
    response(b'N', "NOTICE", "00000", message)
}

/// Opens a connection against a server that says these messages, whatever it is
/// told.
fn handshake(
    credentials: &ServerCredentials,
    messages: &[Vec<u8>],
) -> (StartupState, Vec<Vec<u8>>, Result<Option<CancelKey>, HandshakeError>) {
    let mut state = StartupState::new();
    let mut sent = Vec::new();
    for message in messages {
        match state.advance(credentials, message) {
            Ok(Progress::ReadOn) => {}
            Ok(Progress::Send(bytes)) => sent.push(bytes),
            Ok(Progress::Opened(key)) => return (state, sent, Ok(Some(key))),
            Err(error) => return (state, sent, Err(error)),
        }
    }
    (state, sent, Ok(None))
}

fn successful_startup_tail() -> Vec<Vec<u8>> {
    vec![
        authentication_ok(),
        parameter_status("server_version", "16.4"),
        parameter_status("client_encoding", "UTF8"),
        backend_key_data(4242, 987_654_321),
        ready_for_query(b'I'),
    ]
}

fn refused(credentials: &ServerCredentials, messages: &[Vec<u8>]) -> HandshakeError {
    let (_, _, opened) = handshake(credentials, messages);
    opened.expect_err("the handshake fails")
}

#[test]
fn handshake_sends_user_database_and_a_tagged_application_name() {
    let startup = startup_request(&credentials(None), &ApplicationName::new("node-1"));
    assert_eq!(startup.version(), ProtocolVersion { major: 3, minor: 0 });
    assert_eq!(startup.user(), Some("app_web"));
    assert_eq!(startup.database(), Some("shop"));
    assert_eq!(startup.get("application_name"), Some("pgsteward-node-1"));

    let (state, sent, opened) = handshake(&credentials(None), &successful_startup_tail());

    assert!(sent.is_empty());
    assert_eq!(
        opened.unwrap(),
        Some(CancelKey {
            process_id: 4242,
            secret_key: 987_654_321
        })
    );
    let parameters = state.parameters();
    assert_eq!(parameters.len(), 2);
    assert_eq!(
        parameters.get(&"server_version".to_owned()),
        Some(&"16.4".to_owned())
    );
    assert_eq!(
        parameters.get(&"client_encoding".to_owned()),
        Some(&"UTF8".to_owned())
    );
}

#[test]
fn handshake_answers_md5_with_the_salted_hash() {
    let mut messages = vec![authentication(5, &[1, 2, 3, 4])];
    messages.extend(successful_startup_tail());

    let (_, sent, opened) = handshake(&credentials(Some("secret")), &messages);

    assert!(opened.unwrap().is_some());
    assert_eq!(
        sent,
        vec![frame(b'p', b"md53e2532b4448fb5de380fc851a83eeae2\0")]
    );
}

#[test]
fn md5_without_a_configured_password_is_refused_and_nothing_more_is_sent() {
    let (_, sent, opened) = handshake(&credentials(None), &[authentication(5, &[1, 2, 3, 4])]);

    let err = opened.unwrap_err();
    assert!(
        matches!(err, HandshakeError::PasswordRequired(_)),
        "{err:?}"
    );
    assert!(err.to_string().contains("password"), "{err:?}");
    assert!(sent.is_empty());
}

#[test]
fn cleartext_password_authentication_is_not_supported() {
    let (_, sent, opened) = handshake(&credentials(Some("secret")), &[authentication(3, &[])]);

    let err = opened.unwrap_err();
    assert!(
        matches!(err, HandshakeError::UnsupportedAuthentication(_)),
        "{err:?}"
    );
    assert!(err.to_string().contains("cleartext"), "{err:?}");
    assert!(sent.is_empty());
}

fn authentication_sasl(mechanisms: &[&str]) -> Vec<u8> {
    let mut rest = Vec::new();
    for mechanism in mechanisms {
        rest.extend_from_slice(mechanism.as_bytes());
        rest.push(0);
    }
    rest.push(0);
    authentication(10, &rest)
}

/// The mechanism and the data of a `SASLInitialResponse`.
fn initial_response(bytes: &[u8]) -> (String, Vec<u8>) {
    assert_eq!(bytes[0], b'p');
    let body = &bytes[5..];
    let nul = body.iter().position(|byte| *byte == 0).unwrap();
    let declared = i32::from_be_bytes(body[nul + 1..nul + 5].try_into().unwrap());
    let data = body[nul + 5..].to_vec();
    assert_eq!(usize::try_from(declared).unwrap(), data.len());
    (String::from_utf8(body[..nul].to_vec()).unwrap(), data)
}

const FORGED_SIGNATURE: &[u8] = b"v=AAAAAAAAAAAAAAAAAAAAAAAAAAAAAAAAAAAAAAAAAAA=";

/// What a client said in a SCRAM exchange.
struct ScramTranscript {
    mechanism: String,
    client_first: String,
    client_final: String,
}

/// Plays a SCRAM exchange up to the server's last word, which is handed out.
fn scram_up_to_the_client_proof(
    state: &mut StartupState,
    credentials: &ServerCredentials,
    mechanisms: &[&str],
) -> (ScramTranscript, String) {
    let expected = ScramVerifier::from_password("secret", b"pgsteward-salt16", 4096);
    let mut server = ScramExchange::new(expected, "3rfcNHYJY1ZVvWVs7j".to_owned());
    let Ok(Progress::Send(initial)) = state.advance(credentials, &authentication_sasl(mechanisms))
    else {
        panic!("the exchange begins");
    };
    let (mechanism, client_first) = initial_response(&initial);
    let server_first = server.server_first(&client_first).unwrap();
    let Ok(Progress::Send(response)) =
        state.advance(credentials, &authentication(11, server_first.as_bytes()))
    else {
        panic!("the exchange goes on");
    };
    assert_eq!(response[0], b'p');
    let server_final = server
        .server_final(&response[5..])
        .expect("the client proves the password");
    (
        ScramTranscript {
            mechanism,
            client_first: String::from_utf8(client_first).unwrap(),
            client_final: String::from_utf8(response[5..].to_vec()).unwrap(),
        },
        server_final,
    )
}

/// Plays a whole handshake with a SCRAM exchange in it.
fn run_scram(mechanisms: &[&str]) -> (StartupState, ScramTranscript, Option<CancelKey>) {
    let credentials = credentials(Some("secret"));
    let mut state = StartupState::new();
    let (transcript, server_final) =
        scram_up_to_the_client_proof(&mut state, &credentials, mechanisms);
    assert!(matches!(
        state.advance(&credentials, &authentication(12, server_final.as_bytes())),
        Ok(Progress::ReadOn)
    ));
    let mut opened = None;
    for message in successful_startup_tail() {
        if let Progress::Opened(key) = state.advance(&credentials, &message).unwrap() {
            opened = Some(key);
        }
    }
    (state, transcript, opened)
}

#[test]
fn handshake_completes_the_scram_sha_256_exchange() {
    let (state, transcript, opened) = run_scram(&["SCRAM-SHA-256"]);

    assert_eq!(opened.unwrap().process_id, 4242);
    assert_eq!(
        state.parameters().get(&"server_version".to_owned()),
        Some(&"16.4".to_owned())
    );
    assert_eq!(transcript.mechanism, "SCRAM-SHA-256");
    assert!(
        transcript.client_first.starts_with("n,,n=,r="),
        "{}",
        transcript.client_first
    );
    assert!(
        transcript.client_final.starts_with("c=biws,r="),
        "{}",
        transcript.client_final
    );
}

#[test]
fn channel_binding_is_declined_while_the_db_side_runs_without_tls() {
    let (_, transcript, opened) = run_scram(&["SCRAM-SHA-256", "SCRAM-SHA-256-PLUS"]);

    assert!(opened.is_some());
    assert_eq!(transcript.mechanism, "SCRAM-SHA-256");
    assert!(
        transcript.client_first.starts_with("n,,"),
        "{}",
        transcript.client_first
    );
}

#[test]
fn a_forged_server_signature_fails_the_handshake() {
    let credentials = credentials(Some("secret"));
    let mut state = StartupState::new();
    scram_up_to_the_client_proof(&mut state, &credentials, &["SCRAM-SHA-256"]);

    let err = state
        .advance(&credentials, &authentication(12, FORGED_SIGNATURE))
        .unwrap_err();

    assert!(matches!(err, HandshakeError::Scram(_)), "{err:?}");
}

#[test]
fn an_exchange_is_over_the_nonce_that_was_sent_and_takes_one_challenge() {
    let credentials = credentials(Some("secret"));
    let mut state = StartupState::new();
    let Ok(Progress::Send(initial)) =
        state.advance(&credentials, &authentication_sasl(&["SCRAM-SHA-256"]))
    else {
        panic!("the exchange begins");
    };
    let (_, client_first) = initial_response(&initial);
    assert_eq!(client_first.len(), 32);
    assert!(client_first[8..]
        .iter()
        .all(|byte| byte.is_ascii_graphic() && *byte != b','));

    let challenge = authentication(11, b"r=another-nonce,s=cGdzdGV3YXJkLXNhbHQxNg==,i=4096");
    let err = state.advance(&credentials, &challenge).unwrap_err();
    assert!(matches!(err, HandshakeError::Scram(_)), "{err:?}");
    for message in [challenge, authentication(12, FORGED_SIGNATURE)] {
        assert_eq!(
            state.advance(&credentials, &message).unwrap_err(),
            HandshakeError::Scram("invalid SCRAM state".to_owned())
        );
    }
}

#[test]
fn authentication_ok_before_the_scram_proof_is_a_protocol_violation() {
    let credentials = credentials(Some("secret"));
    let mut state = StartupState::new();
    assert!(matches!(
        state.advance(&credentials, &authentication_sasl(&["SCRAM-SHA-256"])),
        Ok(Progress::Send(_))
    ));

    let err = state.advance(&credentials, &authentication_ok()).unwrap_err();

    assert!(
        matches!(err, HandshakeError::UnexpectedMessage(_)),
        "{err:?}"
    );
}

#[test]
fn scram_without_a_configured_password_is_refused_and_nothing_more_is_sent() {
    let (_, sent, opened) = handshake(
        &credentials(None),
        &[authentication_sasl(&["SCRAM-SHA-256"])],
    );

    let err = opened.unwrap_err();
    assert!(
        matches!(err, HandshakeError::PasswordRequired(_)),
        "{err:?}"
    );
    assert!(err.to_string().contains("SCRAM-SHA-256"), "{err:?}");
    assert!(sent.is_empty());
}

#[test]
fn sasl_without_scram_sha_256_is_not_supported() {
    let (_, sent, opened) = handshake(
        &credentials(Some("secret")),
        &[authentication_sasl(&["SCRAM-SHA-256-PLUS"])],
    );

    let err = opened.unwrap_err();
    assert!(
        matches!(err, HandshakeError::UnsupportedAuthentication(_)),
        "{err:?}"
    );
    assert!(err.to_string().contains("SCRAM-SHA-256"), "{err:?}");
    assert!(sent.is_empty());
}

#[test]
fn server_error_during_startup_is_reported_with_its_sqlstate() {
    let err = refused(
        &credentials(None),
        &[error_response("3D000", "database \"shop\" does not exist")],
    );

    match err {
        HandshakeError::Server { code, message } => {
            assert_eq!(code, "3D000");
            assert_eq!(message, "database \"shop\" does not exist");
        }
        other => panic!("expected the server error, got {other:?}"),
    }
}

#[test]
fn notices_during_startup_are_ignored() {
    let mut messages = vec![notice_response("welcome")];
    messages.extend(successful_startup_tail());

    let (state, _, opened) = handshake(&credentials(None), &messages);

    assert!(opened.unwrap().is_some());
    assert_eq!(state.parameters().len(), 2);
}

#[test]
fn ready_for_query_before_authentication_ok_is_a_protocol_violation() {
    let err = refused(
        &credentials(None),
        &[backend_key_data(1, 2), ready_for_query(b'I')],
    );
    assert!(
        matches!(err, HandshakeError::UnexpectedMessage(_)),
        "{err:?}"
    );
}

#[test]
fn ready_for_query_without_backend_key_data_is_a_protocol_violation() {
    let err = refused(
        &credentials(None),
        &[authentication_ok(), ready_for_query(b'I')],
    );
    assert!(
        matches!(err, HandshakeError::UnexpectedMessage(_)),
        "{err:?}"
    );
}

#[test]
fn ready_for_query_outside_idle_is_a_protocol_violation() {
    let err = refused(
        &credentials(None),
        &[
            authentication_ok(),
            backend_key_data(1, 2),
            ready_for_query(b'T'),
        ],
    );
    assert!(
        matches!(err, HandshakeError::UnexpectedMessage(_)),
        "{err:?}"
    );
}

#[test]
fn data_before_ready_for_query_is_a_protocol_violation() {
    let err = refused(
        &credentials(None),
        &[authentication_ok(), frame(b'C', b"SELECT 1\0")],
    );
    assert!(
        matches!(err, HandshakeError::UnexpectedMessage(_)),
        "{err:?}"
    );
}

#[test]
fn terminate_sends_the_terminate_message_and_closes() {
    assert_eq!(terminate_message(), frame(b'X', &[]));
}

#[test]
fn application_name_carries_the_prefix_the_observer_filters_on() {
    let name = ApplicationName::new("node-1");
    assert_eq!(name.as_str(), "pgsteward-node-1");
    assert_eq!(name.to_string(), "pgsteward-node-1");
    assert!(name.as_str().starts_with(ApplicationName::PREFIX));
    assert_eq!(ApplicationName::PREFIX, "pgsteward-");
}

#[test]
fn credentials_debug_output_redacts_the_password() {
    let text = credentials(Some("hunter2")).describe();
    assert!(text.contains("app_web"), "{text}");
    assert!(!text.contains("hunter2"), "{text}");
    assert_eq!(
        text,
        "ServerCredentials { user: \"app_web\", database: \"shop\", password: Some(\"<redacted>\") }"
    );
    assert!(credentials(None).describe().ends_with("password: None }"));
}

fn row_description(names: &[&str]) -> Vec<u8> {
    let mut body = u16::try_from(names.len()).unwrap().to_be_bytes().to_vec();
    for name in names {
        body.extend_from_slice(name.as_bytes());
        body.push(0);
        body.extend_from_slice(&0i32.to_be_bytes());
        body.extend_from_slice(&0i16.to_be_bytes());
        body.extend_from_slice(&25i32.to_be_bytes());
        body.extend_from_slice(&(-1i16).to_be_bytes());
        body.extend_from_slice(&(-1i32).to_be_bytes());
        body.extend_from_slice(&0i16.to_be_bytes());
    }
    frame(b'T', &body)
}

fn data_row(values: &[Option<&str>]) -> Vec<u8> {
    let mut body = u16::try_from(values.len()).unwrap().to_be_bytes().to_vec();
    for value in values {
        match value {
            Some(value) => {
                body.extend_from_slice(&i32::try_from(value.len()).unwrap().to_be_bytes());
                body.extend_from_slice(value.as_bytes());
            }
            None => body.extend_from_slice(&(-1i32).to_be_bytes()),
        }
    }
    frame(b'D', &body)
}

fn command_complete(tag: &str) -> Vec<u8> {
    frame(b'C', format!("{tag}\0").as_bytes())
}

type Answered = Result<Vec<Vec<Option<String>>>, QueryError>;

fn run(state: &mut QueryState, messages: &[Vec<u8>]) -> Option<Answered> {
    messages.iter().find_map(|message| state.advance(message))
}

#[test]
fn simple_query_returns_every_row_of_the_result() {
    assert_eq!(
        simple_query("SELECT name, setting FROM pg_settings").unwrap(),
        frame(b'Q', b"SELECT name, setting FROM pg_settings\0")
    );
    let mut state = QueryState::new();

    let rows = run(
        &mut state,
        &[
            row_description(&["name", "setting"]),
            data_row(&[Some("max_connections"), Some("200")]),
            data_row(&[Some("reserved_connections"), None]),
            command_complete("SELECT 2"),
            ready_for_query(b'I'),
        ],
    )
    .unwrap()
    .unwrap();

    assert_eq!(
        rows,
        vec![
            vec![Some("max_connections".to_owned()), Some("200".to_owned())],
            vec![Some("reserved_connections".to_owned()), None],
        ]
    );
}

#[test]
fn simple_query_reports_the_server_error_and_leaves_the_connection_usable() {
    let err = run(
        &mut QueryState::new(),
        &[
            error_response("42704", "unrecognized configuration parameter \"nope\""),
            ready_for_query(b'I'),
        ],
    )
    .unwrap()
    .unwrap_err();
    match err {
        QueryError::Server { code, message } => {
            assert_eq!(code, "42704");
            assert!(message.contains("nope"), "{message}");
        }
        other => panic!("expected a server error, got {other:?}"),
    }

    let rows = run(
        &mut QueryState::new(),
        &[
            row_description(&["setting"]),
            data_row(&[Some("200")]),
            command_complete("SHOW"),
            ready_for_query(b'I'),
        ],
    )
    .unwrap()
    .unwrap();
    assert_eq!(rows, vec![vec![Some("200".to_owned())]]);
}

#[test]
fn simple_query_keeps_a_parameter_status_sent_while_it_runs() {
    let mut state = QueryState::new();

    let rows = run(
        &mut state,
        &[
            parameter_status("TimeZone", "UTC"),
            notice_response("a notice in the middle of a result"),
            row_description(&["set_config"]),
            data_row(&[Some("UTC")]),
            command_complete("SELECT 1"),
            ready_for_query(b'I'),
        ],
    )
    .unwrap()
    .unwrap();

    assert_eq!(rows, vec![vec![Some("UTC".to_owned())]]);
    assert_eq!(
        state.parameters().get(&"TimeZone".to_owned()),
        Some(&"UTC".to_owned())
    );
}

#[test]
fn what_a_server_reported_is_kept_however_its_answer_ends() {
    for end in [
        vec![frame(b'!', &[])],
        vec![authentication_ok()],
        vec![error_response("42704", "no"), ready_for_query(b'I')],
    ] {
        let mut state = QueryState::new();
        let mut messages = vec![parameter_status("TimeZone", "UTC")];
        messages.extend(end);
        assert!(run(&mut state, &messages).unwrap().is_err());
        assert_eq!(
            state.parameters().get(&"TimeZone".to_owned()),
            Some(&"UTC".to_owned())
        );
    }
}

#[test]
fn a_message_is_read_by_its_bytes() {
    assert_eq!(
        read_message(&ready_for_query(b'E')),
        Ok(BackendMessage::ReadyForQuery { status: b'E' })
    );
    assert_eq!(
        read_message(&backend_key_data(-2, i32::MIN)),
        Ok(BackendMessage::KeyData(CancelKey {
            process_id: -2,
            secret_key: i32::MIN
        }))
    );
    assert_eq!(
        read_message(&parameter_status("TimeZone", "UTC")),
        Ok(BackendMessage::ParameterStatus {
            name: "TimeZone".to_owned(),
            value: "UTC".to_owned()
        })
    );
    assert_eq!(
        read_message(&authentication(5, &[1, 2, 3, 4])),
        Ok(BackendMessage::Md5 {
            salt: vec![1, 2, 3, 4]
        })
    );
    let mut bytes = authentication(11, b"r=x");
    bytes.extend_from_slice(b"more");
    assert_eq!(
        read_message(&bytes),
        Ok(BackendMessage::SaslContinue(b"r=x".to_vec()))
    );
    assert_eq!(
        read_message(&authentication(12, b"v=x")),
        Ok(BackendMessage::SaslFinal(b"v=x".to_vec()))
    );
    assert_eq!(
        read_message(&notice_response("welcome")),
        Ok(BackendMessage::Notice)
    );
    for kind in [2, 7, 8, 9] {
        assert_eq!(
            read_message(&authentication(kind, &[])),
            Ok(BackendMessage::Gssapi)
        );
    }
    for body in [&b"\xff\0UTC\0"[..], b"TimeZone\0\xff\0"] {
        let complaint = read_message(&frame(b'S', body)).unwrap_err();
        assert!(complaint.contains("utf-8"), "{complaint}");
    }
}

#[test]
fn a_query_that_holds_a_zero_is_not_sent() {
    let error = simple_query("SELECT \0").unwrap_err();
    assert_eq!(
        error,
        QueryError::Io("string contains embedded null".to_owned())
    );
}

#[test]
fn a_message_is_cut_off_by_its_length() {
    let mut bytes = ready_for_query(b'I');
    bytes.push(b'Z');
    assert_eq!(message_length(&bytes), Ok(Some(6)));
    assert_eq!(message_length(&bytes[..5]), Ok(None));
    assert_eq!(message_length(&[b'Z', 0, 0, 0, 3]), Err(()));
}

#[test]
fn a_message_that_is_no_message_is_told() {
    assert!(read_message(&frame(b'!', &[])).is_err());
    assert!(matches!(
        read_message(&authentication_ok()),
        Ok(BackendMessage::AuthenticationOk)
    ));
}

#[test]
fn a_mode_decides_what_an_encryption_answer_leads_to() {
    assert!(!asks_for_encryption(SslMode::Disable));
    assert!(asks_for_encryption(SslMode::Prefer));
    assert!(matches!(
        encryption_answer(SslMode::Prefer, b'S'),
        Ok(EncryptionStep::Encrypt)
    ));
    assert!(matches!(
        encryption_answer(SslMode::Prefer, b'N'),
        Ok(EncryptionStep::StayPlain)
    ));
    assert_eq!(
        encryption_answer(SslMode::Require, b'N').err(),
        Some(ConnectError::EncryptionRefused)
    );
    assert_eq!(
        encryption_answer(SslMode::Prefer, b'E').err(),
        Some(ConnectError::EncryptionAnswer(b'E'))
    );
}

#[test]
fn the_host_of_an_address_is_what_stands_before_its_port() {
    for (address, host) in [
        ("db-primary.internal:5432", "db-primary.internal"),
        ("db-primary.internal", "db-primary.internal"),
        ("[::1]:5432", "::1"),
    ] {
        assert_eq!(host_of(address), host);
    }
}

#[test]
fn every_error_of_a_connection_says_what_went_wrong() {
    assert_eq!(
        ConnectError::Unreachable("refused".to_owned()).to_string(),
        "cannot reach the server: refused"
    );
    assert_eq!(
        ConnectError::Handshake(HandshakeError::ConnectionClosed).to_string(),
        HandshakeError::ConnectionClosed.to_string()
    );
    assert_eq!(
        QueryError::ConnectionClosed.to_string(),
        "server closed the connection while running a query"
    );
    assert_eq!(
        QueryError::Io("broken pipe".to_owned()).to_string(),
        "i/o error while running a query: broken pipe"
    );
}

#[test]
fn what_comes_of_an_exchange_is_sent_or_told() {
    assert_eq!(
        scram_begun(b"n,,n=,r=abc").unwrap(),
        frame(b'p', b"SCRAM-SHA-256\0\0\0\0\x0bn,,n=,r=abc")
    );
    assert_eq!(
        scram_continued(Ok(b"c=biws".to_vec())).unwrap(),
        frame(b'p', b"c=biws")
    );
    assert_eq!(
        scram_continued(Err("no nonce".to_owned())),
        Err(HandshakeError::Scram("no nonce".to_owned()))
    );
    assert_eq!(scram_finished(Ok(())), Ok(()));
    assert_eq!(
        scram_finished(Err("forged".to_owned())),
        Err(HandshakeError::Scram("forged".to_owned()))
    );
}
