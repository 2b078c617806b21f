use pgsteward::auth::{AuthMethod, ClientCredentials, Credentials, TrustAll};
use pgsteward::scram::{ScramError, ScramVerifier, DEFAULT_ITERATIONS};
use pgsteward::session::{
    authenticate, AcceptError, Authentication, Challenge, ClientSession, Encryption, Negotiated,
    Negotiation, StartupError, StartupRequest,
};
use pgsteward::startup::{CancelKey, ProtocolVersion, StartupMessage};
use pgsteward::tenant::{TenantId, TenantResolveError};
use postgres_protocol::authentication::sasl::{ChannelBinding, ScramSha256};

fn startup(params: &[(&str, &str)]) -> StartupRequest {
    StartupRequest::Startup(StartupMessage::new(
        ProtocolVersion { major: 3, minor: 0 },
        params
            .iter()
            .map(|(name, value)| ((*name).to_owned(), (*value).to_owned()))
            .collect(),
    ))
}

fn one_user() -> ClientCredentials {
    let mut credentials = ClientCredentials::new();
    credentials.insert(
        "app_web",
        AuthMethod::ScramSha256(ScramVerifier::from_password(
            "secret",
            b"pgsteward-salt-1",
            DEFAULT_ITERATIONS,
        )),
    );
    credentials
}

fn challenged(user: &str) -> Authentication {
    let tenant = TenantId::new(user, "shop");
    match authenticate(one_user().method(&tenant), &tenant) {
        Challenge::Prove(client) => client,
        Challenge::Trusted => panic!("a password is asked for"),
    }
}

/// Starts as a user that is named alone.
fn started(asked: &mut Negotiation, tls: bool) -> TenantId {
    match asked.accept(startup(&[("user", "app_web")]), tls, false) {
        Negotiated::Start { tenant, .. } => tenant,
        other => panic!("the client starts, got {other:?}"),
    }
}

/// Plays the client's part with a password.
fn prove(client: &mut Authentication, password: &str) -> Result<String, AcceptError> {
    let mut scram = ScramSha256::new(password.as_bytes(), ChannelBinding::unsupported());
    let first = client.on_initial(b'p', "SCRAM-SHA-256", scram.message())?;
    scram.update(first.as_bytes()).expect("a server-first message");
    let last = client.on_final(b'p', scram.message())?;
    scram.finish(last.as_bytes()).expect("the server proves itself");
    Ok(last)
}

#[test]
fn a_startup_message_resolves_the_tenant_and_answers_authentication_ok() {
    let mut asked = Negotiation::default();
    let Negotiated::Start { tenant, startup } = asked.accept(
        startup(&[("user", "app_web"), ("database", "shop")]),
        false,
        false,
    ) else {
        panic!("the client starts");
    };
    assert_eq!(tenant, TenantId::new("app_web", "shop"));
    assert!(matches!(
        authenticate(TrustAll.method(&tenant), &tenant),
        Challenge::Trusted
    ));
    let session = ClientSession::new(tenant, startup);
    assert_eq!(session.tenant().user(), "app_web");
    assert_eq!(session.parameter("database"), Some("shop"));
    assert_eq!(session.parameter("options"), None);
    assert_eq!(session.parameters().len(), 2);
}

#[test]
fn the_database_defaults_to_the_user_name() {
    let mut asked = Negotiation::default();
    let Negotiated::Start { tenant, .. } =
        asked.accept(startup(&[("user", "app_web")]), false, false)
    else {
        panic!("the client starts");
    };
    assert_eq!(tenant, TenantId::new("app_web", "app_web"));
}

#[test]
fn an_ssl_request_is_refused_with_a_single_byte_and_startup_continues() {
    let mut asked = Negotiation::default();
    assert_eq!(
        asked.accept(StartupRequest::Ssl, false, false),
        Negotiated::RefuseEncryption
    );
    assert_eq!(started(&mut asked, false).user(), "app_web");
}

#[test]
fn a_gssenc_request_is_refused_before_an_ssl_request_is_refused() {
    let mut asked = Negotiation::default();
    assert_eq!(
        asked.accept(StartupRequest::GssEnc, false, false),
        Negotiated::RefuseEncryption
    );
    assert_eq!(
        asked.accept(StartupRequest::Ssl, false, false),
        Negotiated::RefuseEncryption
    );
    assert_eq!(started(&mut asked, false).user(), "app_web");
}

#[test]
fn a_gssenc_request_is_refused_and_the_tls_request_after_it_is_accepted() {
    let mut asked = Negotiation::default();
    assert_eq!(
        asked.accept(StartupRequest::GssEnc, true, false),
        Negotiated::RefuseEncryption
    );
    assert_eq!(
        asked.accept(StartupRequest::Ssl, true, false),
        Negotiated::Encrypt
    );
    assert_eq!(started(&mut asked, true).user(), "app_web");
}

#[test]
fn unencrypted_bytes_sent_with_the_ssl_request_are_refused_without_a_reply() {
    let mut asked = Negotiation::default();
    assert_eq!(
        asked.accept(StartupRequest::Ssl, true, true),
        Negotiated::DropUnencrypted
    );
    assert_eq!(AcceptError::UnencryptedData.response(), None);
}

#[test]
fn a_second_ssl_request_inside_the_tls_connection_is_a_protocol_violation() {
    let mut asked = Negotiation::default();
    assert_eq!(
        asked.accept(StartupRequest::Ssl, true, false),
        Negotiated::Encrypt
    );
    let Negotiated::Refuse(error) = asked.accept(StartupRequest::Ssl, true, false) else {
        panic!("the client is refused");
    };
    assert_eq!(
        error,
        AcceptError::RepeatedEncryptionRequest(Encryption::Tls)
    );
    assert_eq!(error.response().unwrap().code, "08P01");
}

#[test]
fn a_cancel_request_is_returned_without_resolving_a_tenant() {
    let key = CancelKey {
        process_id: 4242,
        secret_key: 987_654_321,
    };
    assert_eq!(
        Negotiation::default().accept(StartupRequest::Cancel(key), false, false),
        Negotiated::Cancel(key)
    );
}

#[test]
fn a_startup_message_without_a_user_is_refused_with_a_fatal_error() {
    let refused =
        Negotiation::default().accept(startup(&[("database", "shop")]), false, false);
    let Negotiated::Refuse(error) = refused else {
        panic!("a tenant has a user");
    };
    assert_eq!(error, AcceptError::Tenant(TenantResolveError::MissingUser));
    let response = error.response().unwrap();
    assert!(response.fatal);
    assert_eq!(response.code, "28000");
    assert_eq!(
        response.hint.as_deref(),
        Some("Name the user in the connection string.")
    );
}

#[test]
fn an_unsupported_protocol_version_is_refused_as_an_unsupported_feature() {
    let error = AcceptError::Startup(StartupError::UnsupportedProtocolVersion {
        version: ProtocolVersion { major: 2, minor: 0 },
        text: "protocol 2.0".to_owned(),
    });
    assert_eq!(error.to_string(), "protocol 2.0");
    let response = error.response().unwrap();
    assert_eq!(response.code, "0A000");
    assert_eq!(
        response.message,
        "unsupported frontend protocol 2.0; this node speaks 3.0"
    );
}

#[test]
fn a_repeated_ssl_request_is_a_protocol_violation() {
    let mut asked = Negotiation::default();
    assert_eq!(
        asked.accept(StartupRequest::Ssl, false, false),
        Negotiated::RefuseEncryption
    );
    let Negotiated::Refuse(error) = asked.accept(StartupRequest::Ssl, false, false) else {
        panic!("it was asked twice");
    };
    assert!(
        matches!(error, AcceptError::RepeatedEncryptionRequest(_)),
        "{error:?}"
    );
    let response = error.response().unwrap();
    assert_eq!(response.code, "08P01");
    assert_eq!(response.message, "the client asked for TLS encryption twice");
}

#[test]
fn a_startup_packet_that_cannot_be_framed_is_a_protocol_violation() {
    let error = AcceptError::Frame("10001 bytes".to_owned());
    let response = error.response().unwrap();
    assert_eq!(response.code, "08P01");
    assert_eq!(response.message, "malformed startup packet: 10001 bytes");
}

#[test]
fn a_client_that_closes_before_the_startup_packet_is_not_an_error_response() {
    assert_eq!(AcceptError::ConnectionClosed.response(), None);
    assert_eq!(AcceptError::Io("reset".to_owned()).response(), None);
    assert_eq!(
        AcceptError::Io("reset".to_owned()).to_string(),
        "i/o error while accepting a client: reset"
    );
}

#[test]
fn a_client_that_proves_its_password_is_answered_authentication_ok() {
    let server_final = prove(&mut challenged("app_web"), "secret").unwrap();
    assert!(server_final.starts_with("v="), "{server_final}");
}

#[test]
fn a_wrong_password_is_refused_with_the_sqlstate_postgres_uses() {
    let error = prove(&mut challenged("app_web"), "wrong").unwrap_err();

    assert_eq!(error, AcceptError::AuthenticationFailed("app_web".to_owned()));
    let response = error.response().unwrap();
    assert!(response.fatal);
    assert_eq!(response.code, "28P01");
}

#[test]
fn a_user_without_credentials_is_refused_exactly_as_a_wrong_password_is() {
    let error = prove(&mut challenged("nobody"), "secret").unwrap_err();

    assert_eq!(error, AcceptError::AuthenticationFailed("nobody".to_owned()));
    let response = error.response().unwrap();
    assert_eq!(response.code, "28P01");
    assert_eq!(
        response.message,
        "password authentication failed for user \"nobody\""
    );
}

#[test]
fn an_unknown_user_comes_as_far_as_a_wrong_password_does() {
    for (user, password) in [("app_web", "wrong"), ("nobody", "secret")] {
        let mut client = challenged(user);
        let mut scram = ScramSha256::new(password.as_bytes(), ChannelBinding::unsupported());
        let first = client
            .on_initial(b'p', "SCRAM-SHA-256", scram.message())
            .unwrap();
        assert!(first.ends_with(",i=4096"), "{first}");
        scram.update(first.as_bytes()).unwrap();
        assert_eq!(
            client.on_final(b'p', scram.message()).unwrap_err(),
            AcceptError::AuthenticationFailed(user.to_owned())
        );
    }
}

#[test]
fn a_mechanism_this_node_does_not_offer_is_refused() {
    let error = challenged("app_web")
        .on_initial(
            b'p',
            "SCRAM-SHA-256-PLUS",
            b"p=tls-server-end-point,,n=,r=abc",
        )
        .unwrap_err();

    assert_eq!(
        error,
        AcceptError::UnsupportedMechanism("SCRAM-SHA-256-PLUS".to_owned())
    );
    let response = error.response().unwrap();
    assert_eq!(response.code, "0A000");
    assert_eq!(
        response.message,
        "the client asked for the \"SCRAM-SHA-256-PLUS\" SASL mechanism; this node offers SCRAM-SHA-256"
    );
}

#[test]
fn a_query_sent_where_a_sasl_response_belongs_is_a_protocol_violation() {
    let mut client = challenged("app_web");
    for error in [
        client.on_initial(b'Q', "SCRAM-SHA-256", b"").unwrap_err(),
        client.on_final(b'Q', b"").unwrap_err(),
    ] {
        assert_eq!(error, AcceptError::UnexpectedMessage(b'Q'));
        let response = error.response().unwrap();
        assert_eq!(response.code, "08P01");
        assert_eq!(
            response.message,
            "the client sent 'Q' where a SASL response was expected"
        );
    }
}

#[test]
fn channel_binding_is_refused_as_an_unsupported_feature() {
    let error = challenged("app_web")
        .on_initial(b'p', "SCRAM-SHA-256", b"p=tls-server-end-point,,n=,r=abc")
        .unwrap_err();

    assert_eq!(error, AcceptError::Scram(ScramError::ChannelBinding));
    assert_eq!(error.response().unwrap().code, "0A000");
}

#[test]
fn a_proof_that_comes_first_is_out_of_order() {
    let error = challenged("app_web")
        .on_final(b'p', b"c=biws,r=abc,p=cHJvb2Y=")
        .unwrap_err();

    assert_eq!(error, AcceptError::Scram(ScramError::OutOfOrder));
    assert_eq!(error.response().unwrap().code, "08P01");
}

#[test]
fn a_malformed_sasl_message_is_a_protocol_violation() {
    let response = AcceptError::Frontend("no zero".to_owned()).response().unwrap();
    assert_eq!(response.code, "08P01");
    assert_eq!(response.message, "malformed SASL message: no zero");
    let malformed = AcceptError::Startup(StartupError::Malformed {
        text: "no terminator".to_owned(),
    });
    assert_eq!(malformed.response().unwrap().code, "08P01");
    assert_eq!(malformed.to_string(), "no terminator");
}

#[test]
fn a_client_over_the_limit_is_told_how_many_there_are() {
    let response = AcceptError::TooManyClients { max: 2 }.response().unwrap();
    assert!(response.fatal);
    assert_eq!(response.code, "53300");
    assert_eq!(
        response.message,
        "this node already holds the 2 client connections it accepts"
    );
    assert!(response.hint.unwrap().contains("node.max_client_connections"));
}

#[test]
fn an_encryption_has_a_name() {
    assert_eq!(Encryption::Tls.to_string(), "TLS");
    assert_eq!(Encryption::GssApi.to_string(), "GSSAPI");
}
