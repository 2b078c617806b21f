//! How a client is taken in: what it asks for before it is served, and how it
//! proves who it is.
use vstd::prelude::*;
use vstd::string::StringExecFns;
use vstd::utf8::encode_utf8;

use crate::auth::{AuthMethod, MethodView};
use crate::crypto::{base64_decoded, base64_encoded};
use crate::order::same_text;
use crate::response::{ErrorResponse, ResponseView};
use crate::scram::{
    client_final_text, failure_text, first_shaped, is_mock, is_nonce, law_only_the_proof_decides,
    nonce, ExchangeState, ExchangeView, ScramError, ScramExchange, ScramFailure, ScramVerifier,
};
use crate::startup::{CancelKey, ProtocolVersion, StartupMessage};
use crate::tenant::{tenant_of, TenantId, TenantName, TenantResolveError};
use crate::text::{decimal, decimal_text, quote, quote_char, quoted, quoted_char};

verus! {

/// What a client asks to encrypt with.
#[derive(Debug, Clone, Copy, PartialEq, Eq, Hash, Structural)]
pub enum Encryption {
    Tls,
    GssApi,
}

impl Encryption {
    pub open spec fn text(self) -> Seq<char> {
        match self {
            Encryption::Tls => "TLS"@,
            Encryption::GssApi => "GSSAPI"@,
        }
    }

    /// The name of the encryption.
    pub fn to_string(&self) -> (text: String)
        ensures
            text@ == self.text(),
    {
        match self {
            Encryption::Tls => "TLS".to_owned(),
            Encryption::GssApi => "GSSAPI".to_owned(),
        }
    }
}

/// What a client sends before it is served.
#[derive(Debug, PartialEq, Eq)]
pub enum StartupRequest {
    Ssl,
    GssEnc,
    Cancel(CancelKey),
    Startup(StartupMessage),
}

/// Why a startup packet cannot be taken: a protocol that this node does not
/// speak, or something else; in either case with what there is to say of it.
#[derive(Debug, PartialEq, Eq)]
pub enum StartupError {
    UnsupportedProtocolVersion { version: ProtocolVersion, text: String },
    Malformed { text: String },
}

impl StartupError {
    pub open spec fn text(self) -> Seq<char> {
        match self {
            StartupError::UnsupportedProtocolVersion { version: _, text } => text@,
            StartupError::Malformed { text } => text@,
        }
    }
}

/// Why a client is not taken in.
#[derive(Debug, PartialEq, Eq)]
pub enum AcceptError {
    Io(String),
    ConnectionClosed,
    Frame(String),
    Startup(StartupError),
    Tenant(TenantResolveError),
    RepeatedEncryptionRequest(Encryption),
    UnencryptedData,
    Frontend(String),
    UnsupportedMechanism(String),
    UnexpectedMessage(u8),
    Scram(ScramError),
    AuthenticationFailed(String),
    TooManyClients { max: usize },
}

/// Why a client is not taken in, in words.
pub open spec fn accept_text(error: AcceptError) -> Seq<char> {
    match error {
        AcceptError::Io(source) => "i/o error while accepting a client: "@ + source@,
        AcceptError::ConnectionClosed => {
            "the client closed the connection before sending a startup packet"@
        },
        AcceptError::Frame(source) => "malformed startup packet: "@ + source@,
        AcceptError::Startup(source) => source.text(),
        AcceptError::Tenant(_) => {
            "no user name in the startup message; a tenant is a user and a database"@
        },
        AcceptError::RepeatedEncryptionRequest(encryption) => {
            "the client asked for "@ + encryption.text() + " encryption twice"@
        },
        AcceptError::UnencryptedData => {
            "the client sent unencrypted data after this node answered its TLS request"@
        },
        AcceptError::Frontend(source) => "malformed SASL message: "@ + source@,
        AcceptError::UnsupportedMechanism(mechanism) => {
            "the client asked for the "@ + quoted(mechanism@)
                + " SASL mechanism; this node offers SCRAM-SHA-256"@
        },
        AcceptError::UnexpectedMessage(tag) => {
            "the client sent "@ + quoted_char(tag as char) + " where a SASL response was expected"@
        },
        AcceptError::Scram(source) => "SCRAM-SHA-256 exchange failed: "@ + failure_text(source@),
        AcceptError::AuthenticationFailed(user) => {
            "password authentication failed for user "@ + quoted(user@)
        },
        AcceptError::TooManyClients { max } => {
            "this node already holds the "@ + decimal(max as nat)
                + " client connections it accepts"@
        },
    }
}

/// The protocol version as it is written.
pub open spec fn version_text(version: ProtocolVersion) -> Seq<char> {
    decimal(version.major as nat) + "."@ + decimal(version.minor as nat)
}

/// What a client that is not taken in is told, if anything.
pub open spec fn accept_response(error: AcceptError) -> Option<ResponseView> {
    match error {
        AcceptError::Io(_) => None,
        AcceptError::ConnectionClosed => None,
        AcceptError::UnencryptedData => None,
        AcceptError::Startup(StartupError::UnsupportedProtocolVersion { version, text: _ }) => Some(
            ResponseView::fatal(
                "0A000"@,
                "unsupported frontend protocol "@ + version_text(version)
                    + "; this node speaks 3.0"@,
            ),
        ),
        AcceptError::Tenant(_) => Some(
            ResponseView::fatal("28000"@, accept_text(error)).with_hint(
                "Name the user in the connection string."@,
            ),
        ),
        AcceptError::UnsupportedMechanism(_) => Some(
            ResponseView::fatal("0A000"@, accept_text(error)),
        ),
        AcceptError::TooManyClients { max: _ } => Some(
            ResponseView::fatal("53300"@, accept_text(error)).with_hint(
                "Raise node.max_client_connections, or spread the clients over more proxy nodes."@,
            ),
        ),
        AcceptError::AuthenticationFailed(_) => Some(
            ResponseView::fatal("28P01"@, accept_text(error)),
        ),
        AcceptError::Scram(source) => if source@ == ScramFailure::ChannelBinding {
            Some(ResponseView::fatal("0A000"@, accept_text(error)))
        } else {
            Some(ResponseView::fatal("08P01"@, accept_text(error)))
        },
        _ => Some(ResponseView::fatal("08P01"@, accept_text(error))),
    }
}

impl AcceptError {
    /// The error in words.
    pub fn to_string(&self) -> (text: String)
        ensures
            text@ == accept_text(*self),
    {
        match self {
            AcceptError::Io(source) => {
                let mut text = "i/o error while accepting a client: ".to_owned();
                text.append(source.as_str());
                text
            },
            AcceptError::ConnectionClosed => {
                "the client closed the connection before sending a startup packet".to_owned()
            },
            AcceptError::Frame(source) => {
                let mut text = "malformed startup packet: ".to_owned();
                text.append(source.as_str());
                text
            },
            AcceptError::Startup(source) => match source {
                StartupError::UnsupportedProtocolVersion { version: _, text } => text.clone(),
                StartupError::Malformed { text } => text.clone(),
            },
            AcceptError::Tenant(source) => source.to_string(),
            AcceptError::RepeatedEncryptionRequest(encryption) => {
                let mut text = "the client asked for ".to_owned();
                text.append(encryption.to_string().as_str());
                text.append(" encryption twice");
                text
            },
            AcceptError::UnencryptedData => {
                "the client sent unencrypted data after this node answered its TLS request".to_owned()
            },
            AcceptError::Frontend(source) => {
                let mut text = "malformed SASL message: ".to_owned();
                text.append(source.as_str());
                text
            },
            AcceptError::UnsupportedMechanism(mechanism) => {
                let mut text = "the client asked for the ".to_owned();
                text.append(quote(mechanism.as_str()).as_str());
                text.append(" SASL mechanism; this node offers SCRAM-SHA-256");
                text
            },
            AcceptError::UnexpectedMessage(tag) => {
                let mut text = "the client sent ".to_owned();
                text.append(quote_char(*tag as char).as_str());
                text.append(" where a SASL response was expected");
                text
            },
            AcceptError::Scram(source) => {
                let mut text = "SCRAM-SHA-256 exchange failed: ".to_owned();
                text.append(source.to_string().as_str());
                text
            },
            AcceptError::AuthenticationFailed(user) => {
                let mut text = "password authentication failed for user ".to_owned();
                text.append(quote(user.as_str()).as_str());
                text
            },
            AcceptError::TooManyClients { max } => {
                let mut text = "this node already holds the ".to_owned();
                text.append(decimal_text(*max as u64).as_str());
                text.append(" client connections it accepts");
                text
            },
        }
    }

    /// What the client is told, if anything: nothing, where it is gone or what
    /// it would read could come from somebody else.
    pub fn response(&self) -> (response: Option<ErrorResponse>)
        ensures
            response is Some <==> accept_response(*self) is Some,
            response matches Some(r) ==> accept_response(*self) == Some(r@),
    {
        match self {
            AcceptError::Io(_) => None,
            AcceptError::ConnectionClosed => None,
            AcceptError::UnencryptedData => None,
            AcceptError::Startup(
                StartupError::UnsupportedProtocolVersion { version, text: _ },
            ) => {
                let mut message = "unsupported frontend protocol ".to_owned();
                let mut shown = decimal_text(version.major as u64);
                shown.append(".");
                shown.append(decimal_text(version.minor as u64).as_str());
                message.append(shown.as_str());
                message.append("; this node speaks 3.0");
                Some(ErrorResponse::fatal("0A000", message))
            },
            AcceptError::Tenant(_) => Some(
                ErrorResponse::fatal("28000", self.to_string()).with_hint(
                    "Name the user in the connection string.",
                ),
            ),
            AcceptError::UnsupportedMechanism(_) => Some(
                ErrorResponse::fatal("0A000", self.to_string()),
            ),
            AcceptError::TooManyClients { max: _ } => Some(
                ErrorResponse::fatal("53300", self.to_string()).with_hint(
                    "Raise node.max_client_connections, or spread the clients over more proxy nodes.",
                ),
            ),
            AcceptError::AuthenticationFailed(_) => Some(
                ErrorResponse::fatal("28P01", self.to_string()),
            ),
            AcceptError::Scram(ScramError::ChannelBinding) => Some(
                ErrorResponse::fatal("0A000", self.to_string()),
            ),
            _ => Some(ErrorResponse::fatal("08P01", self.to_string())),
        }
    }
}

/// Which encryptions a client has asked for.
#[derive(Debug, Clone, Copy, PartialEq, Eq, Structural)]
pub struct Negotiation {
    pub tls: bool,
    pub gssapi: bool,
}

impl Default for Negotiation {
    fn default() -> (negotiation: Self)
        ensures
            negotiation == (Negotiation { tls: false, gssapi: false }),
    {
        Negotiation { tls: false, gssapi: false }
    }
}

impl Negotiation {
    /// Whether an encryption was asked for.
    pub open spec fn asked(self, encryption: Encryption) -> bool {
        match encryption {
            Encryption::Tls => self.tls,
            Encryption::GssApi => self.gssapi,
        }
    }

    /// The same, once an encryption was asked for.
    pub open spec fn with(self, encryption: Encryption) -> Negotiation {
        match encryption {
            Encryption::Tls => Negotiation { tls: true, ..self },
            Encryption::GssApi => Negotiation { gssapi: true, ..self },
        }
    }

    fn first_time(&mut self, encryption: Encryption) -> (first: bool)
        ensures
            first == !old(self).asked(encryption),
            *final(self) == old(self).with(encryption),
    {
        match encryption {
            Encryption::Tls => {
                let asked = self.tls;
                self.tls = true;
                !asked
            },
            Encryption::GssApi => {
                let asked = self.gssapi;
                self.gssapi = true;
                !asked
            },
        }
    }
}

/// What a startup packet leads to.
#[derive(Debug, PartialEq, Eq)]
pub enum Negotiated {
    /// Answer that this node does not encrypt, and read on.
    RefuseEncryption,
    /// Answer that this node encrypts, encrypt, and read on.
    Encrypt,
    /// Answer that this node encrypts, and drop the client: it sent data in the
    /// clear that would be read as if it were encrypted.
    DropUnencrypted,
    /// The client asks to cancel what another one runs.
    Cancel(CancelKey),
    /// The client asks to be served as this tenant.
    Start { tenant: TenantId, startup: StartupMessage },
    /// The client is refused.
    Refuse(AcceptError),
}

/// What an encryption request leads to.
pub open spec fn encryption_step(
    asked: Negotiation,
    encryption: Encryption,
    tls: bool,
    pending: bool,
) -> Negotiated {
    if asked.asked(encryption) {
        Negotiated::Refuse(AcceptError::RepeatedEncryptionRequest(encryption))
    } else if !tls || encryption == Encryption::GssApi {
        Negotiated::RefuseEncryption
    } else if pending {
        Negotiated::DropUnencrypted
    } else {
        Negotiated::Encrypt
    }
}

impl Negotiation {
    fn encryption(&mut self, encryption: Encryption, tls: bool, pending: bool) -> (next: Negotiated)
        ensures
            next == encryption_step(*old(self), encryption, tls, pending),
            *final(self) == old(self).with(encryption),
    {
        if !self.first_time(encryption) {
            return Negotiated::Refuse(AcceptError::RepeatedEncryptionRequest(encryption));
        }
        match encryption {
            Encryption::Tls => if tls {
                if pending {
                    Negotiated::DropUnencrypted
                } else {
                    Negotiated::Encrypt
                }
            } else {
                Negotiated::RefuseEncryption
            },
            Encryption::GssApi => Negotiated::RefuseEncryption,
        }
    }

    /// Decides what a startup packet leads to, on a node that can encrypt or
    /// not, with data behind the packet or not.
    pub fn accept(&mut self, request: StartupRequest, tls: bool, pending: bool) -> (next: Negotiated)
        ensures
            match request {
                StartupRequest::Ssl => {
                    &&& next == encryption_step(*old(self), Encryption::Tls, tls, pending)
                    &&& *final(self) == old(self).with(Encryption::Tls)
                },
                StartupRequest::GssEnc => {
                    &&& next == encryption_step(*old(self), Encryption::GssApi, tls, pending)
                    &&& *final(self) == old(self).with(Encryption::GssApi)
                },
                StartupRequest::Cancel(key) => next == Negotiated::Cancel(key) && *final(self)
                    == *old(self),
                StartupRequest::Startup(message) => {
                    &&& *final(self) == *old(self)
                    &&& match tenant_of(message@) {
                        Some(name) => next matches Negotiated::Start { tenant, startup } && tenant@
                            == name && startup@ == message@ && startup.protocol()
                            == message.protocol(),
                        None => next == Negotiated::Refuse(
                            AcceptError::Tenant(TenantResolveError::MissingUser),
                        ),
                    }
                },
            },
    {
        match request {
            StartupRequest::Ssl => self.encryption(Encryption::Tls, tls, pending),
            StartupRequest::GssEnc => self.encryption(Encryption::GssApi, tls, pending),
            StartupRequest::Cancel(key) => Negotiated::Cancel(key),
            StartupRequest::Startup(startup) => match TenantId::from_startup(&startup) {
                Ok(tenant) => Negotiated::Start { tenant, startup },
                Err(error) => Negotiated::Refuse(AcceptError::Tenant(error)),
            },
        }
    }
}

/// A client that asks for the same encryption a second time is refused, however
/// it was answered the first time.
pub proof fn law_an_encryption_is_asked_for_once(
    asked: Negotiation,
    encryption: Encryption,
    tls: bool,
    pending: bool,
)
    ensures
        encryption_step(asked.with(encryption), encryption, tls, pending) == Negotiated::Refuse(
            AcceptError::RepeatedEncryptionRequest(encryption),
        ),
{
}

/// A connection is encrypted only where nothing was sent behind the request:
/// data sent in the clear is never read as if it were encrypted.
pub proof fn law_nothing_in_the_clear_is_read_as_encrypted(
    asked: Negotiation,
    encryption: Encryption,
    tls: bool,
    pending: bool,
)
    ensures
        encryption_step(asked, encryption, tls, pending) == Negotiated::Encrypt ==> !pending && tls
            && encryption == Encryption::Tls,
{
}

/// What a client has to prove: nothing, where it is trusted; else what its
/// verifier, or one made up for a user that is not known, asks for.
pub enum Challenge {
    Trusted,
    Prove(Authentication),
}

/// How a client that has to prove itself is told of a failure: that its
/// password is wrong, where the proof does not match; else what went wrong.
pub open spec fn proof_failure(failure: ScramFailure, user: Seq<char>, error: AcceptError) -> bool {
    if failure == ScramFailure::Proof {
        error matches AcceptError::AuthenticationFailed(name) && name@ == user
    } else {
        error matches AcceptError::Scram(source) && source@ == failure
    }
}

/// A client that proves who it is.
pub struct Authentication {
    exchange: ScramExchange,
    user: String,
}

impl View for Authentication {
    type V = (ExchangeView, Seq<char>);

    closed spec fn view(&self) -> (ExchangeView, Seq<char>) {
        (self.exchange@, self.user@)
    }
}

/// Begins to authenticate a client of `tenant`. A user without a method plays
/// the exchange out with a verifier that nobody knows the password of.
pub fn authenticate(method: Option<AuthMethod>, tenant: &TenantId) -> (challenge: Challenge)
    ensures
        (method matches Some(m) && m@ == MethodView::Trust) ==> challenge is Trusted,
        !(method matches Some(m) && m@ == MethodView::Trust) ==> {
            &&& challenge matches Challenge::Prove(client) && client@.1 == tenant@.0
                && client@.0.state is Start && is_nonce(client@.0.server_nonce)
        },
        method matches Some(AuthMethod::ScramSha256(verifier)) ==> (challenge matches
            Challenge::Prove(client) && client@.0.verifier == verifier@),
        method is None ==> (challenge matches Challenge::Prove(client) && is_mock(
            client@.0.verifier,
        )),
{
    let verifier = match method {
        Some(AuthMethod::Trust) => return Challenge::Trusted,
        Some(AuthMethod::ScramSha256(verifier)) => verifier,
        None => ScramVerifier::mock(),
    };
    Challenge::Prove(Authentication::new(verifier, nonce(), tenant.user()))
}

impl Authentication {
    /// The exchange with a client of that user.
    pub fn new(verifier: ScramVerifier, server_nonce: String, user: &str) -> (client: Self)
        ensures
            client@ == (
                ExchangeView {
                    verifier: verifier@,
                    server_nonce: server_nonce@,
                    state: ExchangeState::Start,
                },
                user@,
            ),
    {
        Authentication {
            exchange: ScramExchange::new(verifier, server_nonce),
            user: user.to_owned(),
        }
    }

    fn failed(&self, error: ScramError) -> (failed: AcceptError)
        ensures
            proof_failure(error@, self@.1, failed),
    {
        match error {
            ScramError::Proof => AcceptError::AuthenticationFailed(self.user.clone()),
            other => AcceptError::Scram(other),
        }
    }

    /// Takes in the client's first message, which came under `tag` and names
    /// `mechanism`, and answers what the client is sent.
    pub fn on_initial(&mut self, tag: u8, mechanism: &str, data: &[u8]) -> (answer: Result<
        String,
        AcceptError,
    >)
        requires
            data@.len() <= usize::MAX / 4,
        ensures
            final(self)@.1 == old(self)@.1,
            if tag != 0x70 {
                answer == Err::<String, AcceptError>(AcceptError::UnexpectedMessage(tag))
                    && final(self)@ == old(self)@
            } else if mechanism@ != "SCRAM-SHA-256"@ {
                &&& answer matches Err(AcceptError::UnsupportedMechanism(name)) && name@
                    == mechanism@
                &&& final(self)@ == old(self)@
            } else {
                match old(self)@.0.first(data@) {
                    Ok(challenge) => {
                        &&& answer matches Ok(text) && text@ == challenge.server_first
                        &&& first_shaped(
                            challenge.server_first,
                            challenge.nonce,
                            old(self)@.0.verifier.salt.len(),
                            old(self)@.0.verifier.iterations,
                        )
                        &&& final(self)@.0 == (ExchangeView {
                            state: ExchangeState::AwaitingProof(challenge),
                            ..old(self)@.0
                        })
                    },
                    Err(failure) => {
                        &&& answer matches Err(error) && proof_failure(
                            failure,
                            old(self)@.1,
                            error,
                        )
                        &&& final(self)@ == old(self)@
                    },
                }
            },
    {
        if tag != 0x70 {
            return Err(AcceptError::UnexpectedMessage(tag));
        }
        if !same_text(mechanism, "SCRAM-SHA-256") {
            return Err(AcceptError::UnsupportedMechanism(mechanism.to_owned()));
        }
        match self.exchange.server_first(data) {
            Ok(text) => Ok(text),
            Err(error) => Err(self.failed(error)),
        }
    }

    /// Takes in the client's final message, which came under `tag`, and answers
    /// what the client is sent: it has then proved who it is.
    pub fn on_final(&mut self, tag: u8, data: &[u8]) -> (answer: Result<String, AcceptError>)
        ensures
            final(self)@.1 == old(self)@.1,
            if tag != 0x70 {
                answer == Err::<String, AcceptError>(AcceptError::UnexpectedMessage(tag))
                    && final(self)@ == old(self)@
            } else {
                match old(self)@.0.state {
                    ExchangeState::AwaitingProof(challenge) => {
                        &&& final(self)@.0 == (ExchangeView {
                            state: ExchangeState::Done,
                            ..old(self)@.0
                        })
                        &&& match old(self)@.0.answered(challenge, data@) {
                            Ok(text) => answer matches Ok(a) && a@ == text,
                            Err(failure) => answer matches Err(error) && proof_failure(
                                failure,
                                old(self)@.1,
                                error,
                            ),
                        }
                    },
                    _ => {
                        &&& answer matches Err(error) && proof_failure(
                            ScramFailure::OutOfOrder,
                            old(self)@.1,
                            error,
                        )
                        &&& final(self)@ == old(self)@
                    },
                }
            },
    {
        if tag != 0x70 {
            return Err(AcceptError::UnexpectedMessage(tag));
        }
        match self.exchange.server_final(data) {
            Ok(text) => Ok(text),
            Err(error) => Err(self.failed(error)),
        }
    }
}

/// How an exchange goes with a client that sends those two messages: whether
/// the client is sent a challenge, and how it fails, if it does.
pub open spec fn dialogue(exchange: ExchangeView, first: Seq<u8>, last: Seq<u8>) -> (
    bool,
    Option<ScramFailure>,
) {
    match exchange.first(first) {
        Err(failure) => (false, Some(failure)),
        Ok(challenge) => match exchange.answered(challenge, last) {
            Err(failure) => (true, Some(failure)),
            Ok(_) => (true, None),
        },
    }
}

/// Whatever a client sends, its login fails in the same way, after the same
/// messages and with the same words, whether the user is known or not: a
/// failure does not depend on the verifier that the exchange is held with.
pub proof fn law_a_failed_login_tells_nothing_of_the_user(
    known: ExchangeView,
    unknown: ExchangeView,
    first: Seq<u8>,
    last: Seq<u8>,
    user: Seq<char>,
    a: AcceptError,
    b: AcceptError,
)
    requires
        known.state is Start,
        unknown.state is Start,
        known.server_nonce == unknown.server_nonce,
        dialogue(known, first, last).1 is Some,
        dialogue(unknown, first, last).1 is Some,
        proof_failure(dialogue(known, first, last).1->0, user, a),
        proof_failure(dialogue(unknown, first, last).1->0, user, b),
    ensures
        dialogue(known, first, last) == dialogue(unknown, first, last),
        accept_response(a) == accept_response(b),
        a is AuthenticationFailed <==> b is AuthenticationFailed,
{
}

/// A wrong password and a user that is not known are told the same. With a
/// client that holds to the protocol both exchanges come to a challenge; and
/// unless a proof holds, both clients are told that the password of the user is
/// wrong.
pub proof fn law_an_unknown_user_fails_as_a_wrong_password_does(
    known: ExchangeView,
    unknown: ExchangeView,
    first: Seq<u8>,
    proofs: (Seq<char>, Seq<char>),
    user: Seq<char>,
    a: AcceptError,
    b: AcceptError,
)
    requires
        known.state is Start,
        unknown.state is Start,
        known.first(first) is Ok,
        ({
            let challenge = known.first(first)->Ok_0;
            let other = unknown.first(first)->Ok_0;
            &&& base64_decoded(proofs.0) is Some && !proofs.0.contains(',')
            &&& base64_decoded(proofs.1) is Some && !proofs.1.contains(',')
            &&& !base64_encoded(encode_utf8(challenge.gs2_header)).contains(',')
            &&& !challenge.nonce.contains(',') && !other.nonce.contains(',')
            &&& known.answered(
                challenge,
                encode_utf8(client_final_text(challenge, proofs.0)),
            ) matches Err(failure) && proof_failure(failure, user, a)
            &&& unknown.answered(
                other,
                encode_utf8(client_final_text(other, proofs.1)),
            ) matches Err(failure) && proof_failure(failure, user, b)
        }),
    ensures
        unknown.first(first) is Ok,
        a matches AcceptError::AuthenticationFailed(name) && name@ == user,
        b matches AcceptError::AuthenticationFailed(name) && name@ == user,
        accept_response(a) == Some(
            ResponseView::fatal(
                "28P01"@,
                "password authentication failed for user "@ + quoted(user),
            ),
        ),
        accept_response(b) == accept_response(a),
{
    law_only_the_proof_decides(known, known.first(first)->Ok_0, proofs.0);
    law_only_the_proof_decides(unknown, unknown.first(first)->Ok_0, proofs.1);
}

/// Who a client is served as, and what it asked for when it came.
#[derive(Debug, PartialEq, Eq)]
pub struct ClientSession {
    tenant: TenantId,
    startup: StartupMessage,
}

impl ClientSession {
    pub closed spec fn name(&self) -> TenantName {
        self.tenant@
    }

    pub closed spec fn asked(&self) -> Seq<(Seq<char>, Seq<char>)> {
        self.startup@
    }

    pub fn new(tenant: TenantId, startup: StartupMessage) -> (session: Self)
        ensures
            session.name() == tenant@,
            session.asked() == startup@,
    {
        ClientSession { tenant, startup }
    }

    pub fn tenant(&self) -> (tenant: &TenantId)
        ensures
            tenant@ == self.name(),
    {
        &self.tenant
    }

    /// The parameters that the client named, in order.
    pub fn parameters(&self) -> (parameters: &Vec<(String, String)>)
        ensures
            crate::startup::parameter_list(parameters@) == self.asked(),
    {
        self.startup.parameters()
    }

    /// The value of a parameter that the client named.
    pub fn parameter(&self, name: &str) -> (value: Option<&str>)
        ensures
            value is Some <==> crate::startup::parameter(self.asked(), name@) is Some,
            value matches Some(v) ==> crate::startup::parameter(self.asked(), name@) == Some(v@),
    {
        self.startup.get(name)
    }
}

/// A client that asks for TLS the first time is encrypted where the node can and
/// nothing was sent behind the request, told that the node does not where it
/// cannot, and dropped where something was; GSSAPI is never taken up. What was
/// asked for is remembered, and nothing else.
pub proof fn law_a_first_request_is_answered_by_what_the_node_can(
    asked: Negotiation,
    tls: bool,
    pending: bool,
)
    ensures
        !asked.tls ==> encryption_step(asked, Encryption::Tls, tls, pending) == (if !tls {
            Negotiated::RefuseEncryption
        } else if pending {
            Negotiated::DropUnencrypted
        } else {
            Negotiated::Encrypt
        }),
        !asked.gssapi ==> encryption_step(asked, Encryption::GssApi, tls, pending)
            == Negotiated::RefuseEncryption,
        asked.tls ==> encryption_step(asked, Encryption::Tls, tls, pending) is Refuse,
        asked.gssapi ==> encryption_step(asked, Encryption::GssApi, tls, pending) is Refuse,
        asked.with(Encryption::Tls) == (Negotiation { tls: true, gssapi: asked.gssapi }),
        asked.with(Encryption::GssApi) == (Negotiation { tls: asked.tls, gssapi: true }),
{
}

/// A client that is not taken in is told why, in words, unless there is nobody to tell
/// or no way to: a connection that broke or closed, or data that came in the clear. A
/// wrong password is told apart from an exchange that went wrong, a node that is full
/// from one that does not know what was asked for.
pub proof fn law_a_client_that_is_not_taken_in_is_told_why(error: AcceptError)
    ensures
        accept_response(error) is None <==> error is Io || error is ConnectionClosed
            || error is UnencryptedData,
        accept_response(error) matches Some(response) ==> {
            &&& response.fatal
            &&& response.code == "28P01"@ <==> error is AuthenticationFailed
            &&& response.code == "53300"@ <==> error is TooManyClients
            &&& response.code == "28000"@ <==> error is Tenant
            &&& response.code == "0A000"@ <==> error is UnsupportedMechanism || (
            error matches AcceptError::Startup(source) && source is UnsupportedProtocolVersion) || (
            error matches AcceptError::Scram(source) && source@ == ScramFailure::ChannelBinding)
            &&& !(error is Startup) ==> response.message == accept_text(error)
        },
{
    reveal_strlit("28P01");
    reveal_strlit("53300");
    reveal_strlit("28000");
    reveal_strlit("0A000");
    reveal_strlit("08P01");
    assert("28P01"@[2] == 'P' && "53300"@[0] == '5' && "28000"@[2] == '0' && "28000"@[0] == '2'
        && "0A000"@[1] == 'A' && "08P01"@[1] == '8' && "08P01"@[0] == '0' && "28P01"@[0] == '2'
        && "28P01"@[1] == '8' && "53300"@[1] == '3' && "28000"@[1] == '8');
}

/// A client whose proof does not match is told that its password is wrong, under the
/// name that it gave; one whose exchange failed otherwise is told how.
pub proof fn law_only_a_wrong_proof_is_a_wrong_password(
    failure: ScramFailure,
    user: Seq<char>,
    error: AcceptError,
)
    requires
        proof_failure(failure, user, error),
    ensures
        error is AuthenticationFailed <==> failure == ScramFailure::Proof,
        error matches AcceptError::AuthenticationFailed(name) ==> name@ == user,
        error matches AcceptError::Scram(source) ==> source@ == failure,
        error is AuthenticationFailed || error is Scram,
{
}

} // verus!
