//! A connection to a server: how it is opened, and how a simple query on it is
//! answered.
use vstd::prelude::*;
use vstd::string::StringExecFns;
use vstd::utf8::encode_utf8;

use crate::backend::{message_of, read_message, row_text, BackendMessage, MessageView, Row};
use crate::exchange::{
    begin_scram, continue_scram, finish_scram, is_first, outcome_view, ClientExchange, ClientView,
    Stage,
};
use crate::frontend::{
    complaint, fits, framed, initial_body, initial_sendable, password_message, query_message,
    sasl_initial_response, sasl_response, sendable, terminated,
};
use crate::ordmap::OrdMap;
use crate::startup::{
    law_a_parameter_has_the_value_named_first, parameter, parameter_list, CancelKey, ProtocolVersion, StartupMessage,
};
use crate::text::{
    chars_of, decimal, find, find_char, law_a_number_reads_as_it_was_written, lemma_found, number,
    parse_number, part, quote, quoted, text_of,
};
use crate::tls::SslMode;

verus! {

/// The name under which a node shows itself to servers.
#[derive(Debug, PartialEq, Eq, Hash)]
pub struct ApplicationName {
    name: String,
}

impl View for ApplicationName {
    type V = Seq<char>;

    closed spec fn view(&self) -> Seq<char> {
        self.name@
    }
}

impl ApplicationName {
    /// What every such name begins with.
    pub const PREFIX: &'static str = "pgsteward-";

    pub fn new(identifier: &str) -> (name: Self)
        ensures
            name@ == "pgsteward-"@ + identifier@,
    {
        let mut name = "pgsteward-".to_owned();
        name.append(identifier);
        ApplicationName { name }
    }

    pub fn as_str(&self) -> (name: &str)
        ensures
            name@ == self@,
    {
        self.name.as_str()
    }

    /// The name.
    pub fn to_string(&self) -> (name: String)
        ensures
            name@ == self@,
    {
        self.name.clone()
    }
}

impl Clone for ApplicationName {
    fn clone(&self) -> (copy: Self)
        ensures
            copy@ == self@,
    {
        ApplicationName { name: self.name.clone() }
    }
}

/// Who a node is to a server. It cannot be printed, since it holds a password.
#[derive(PartialEq, Eq)]
pub struct ServerCredentials {
    pub user: String,
    pub database: String,
    pub password: Option<String>,
}

/// Credentials as they may be printed: without the password.
pub open spec fn credentials_text(
    user: Seq<char>,
    database: Seq<char>,
    password: bool,
) -> Seq<char> {
    "ServerCredentials { user: "@ + quoted(user) + ", database: "@ + quoted(database)
        + ", password: "@ + if password {
        "Some(\"<redacted>\")"@
    } else {
        "None"@
    } + " }"@
}

impl ServerCredentials {
    /// The credentials as they may be printed: without the password.
    pub fn describe(&self) -> (text: String)
        ensures
            text@ == credentials_text(self.user@, self.database@, self.password is Some),
    {
        let mut text = "ServerCredentials { user: ".to_owned();
        text.append(quote(self.user.as_str()).as_str());
        text.append(", database: ");
        text.append(quote(self.database.as_str()).as_str());
        text.append(", password: ");
        text.append(
            if self.password.is_some() {
                "Some(\"<redacted>\")"
            } else {
                "None"
            },
        );
        text.append(" }");
        text
    }
}

/// The parameters that a node names when it opens a connection.
pub open spec fn startup_parameters(
    user: Seq<char>,
    database: Seq<char>,
    application_name: Seq<char>,
) -> Seq<(Seq<char>, Seq<char>)> {
    seq![
        ("user"@, user),
        ("database"@, database),
        ("application_name"@, application_name),
    ]
}

/// The startup message with which a node opens a connection.
pub fn startup_request(credentials: &ServerCredentials, application_name: &ApplicationName) -> (
    message: StartupMessage)
    ensures
        message@ == startup_parameters(
            credentials.user@,
            credentials.database@,
            application_name@,
        ),
        message.protocol() == (ProtocolVersion { major: 3, minor: 0 }),
{
    let mut parameters: Vec<(String, String)> = Vec::new();
    parameters.push(("user".to_owned(), credentials.user.clone()));
    parameters.push(("database".to_owned(), credentials.database.clone()));
    parameters.push(("application_name".to_owned(), application_name.to_string()));
    let ghost list = parameter_list(parameters@);
    assert(list =~= startup_parameters(
        credentials.user@,
        credentials.database@,
        application_name@,
    ));
    StartupMessage::new(ProtocolVersion { major: 3, minor: 0 }, parameters)
}

/// Why a connection cannot be opened once the server is reached.
#[derive(Debug, PartialEq, Eq)]
pub enum HandshakeError {
    Io(String),
    Server { code: String, message: String },
    UnsupportedAuthentication(&'static str),
    PasswordRequired(&'static str),
    Scram(String),
    UnexpectedMessage(&'static str),
    ConnectionClosed,
}

/// Why a connection cannot be opened, with texts as sequences.
pub enum HandshakeFailure {
    Io(Seq<char>),
    Server { code: Seq<char>, message: Seq<char> },
    UnsupportedAuthentication(Seq<char>),
    PasswordRequired(Seq<char>),
    Scram(Seq<char>),
    UnexpectedMessage(Seq<char>),
    ConnectionClosed,
}

impl View for HandshakeError {
    type V = HandshakeFailure;

    open spec fn view(&self) -> HandshakeFailure {
        match *self {
            HandshakeError::Io(source) => HandshakeFailure::Io(source@),
            HandshakeError::Server { code, message } => HandshakeFailure::Server {
                code: code@,
                message: message@,
            },
            HandshakeError::UnsupportedAuthentication(method) => {
                HandshakeFailure::UnsupportedAuthentication(method@)
            },
            HandshakeError::PasswordRequired(method) => HandshakeFailure::PasswordRequired(method@),
            HandshakeError::Scram(source) => HandshakeFailure::Scram(source@),
            HandshakeError::UnexpectedMessage(what) => HandshakeFailure::UnexpectedMessage(what@),
            HandshakeError::ConnectionClosed => HandshakeFailure::ConnectionClosed,
        }
    }
}

/// A failed handshake in words.
pub open spec fn handshake_text(failure: HandshakeFailure) -> Seq<char> {
    match failure {
        HandshakeFailure::Io(source) => "i/o error during startup: "@ + source,
        HandshakeFailure::Server { code, message } => {
            "server refused the connection ("@ + code + "): "@ + message
        },
        HandshakeFailure::UnsupportedAuthentication(method) => {
            "server requested "@ + method
                + " authentication, which is not supported; use SCRAM-SHA-256 or MD5"@
        },
        HandshakeFailure::PasswordRequired(method) => {
            "server requested "@ + method
                + " authentication but no password is configured for this instance"@
        },
        HandshakeFailure::Scram(source) => "SCRAM-SHA-256 exchange failed: "@ + source,
        HandshakeFailure::UnexpectedMessage(what) => {
            "protocol violation during startup: "@ + what
        },
        HandshakeFailure::ConnectionClosed => "server closed the connection during startup"@,
    }
}

impl HandshakeError {
    /// The failure in words.
    pub fn to_string(&self) -> (text: String)
        ensures
            text@ == handshake_text(self@),
    {
        match self {
            HandshakeError::Io(source) => {
                let mut text = "i/o error during startup: ".to_owned();
                text.append(source.as_str());
                text
            },
            HandshakeError::Server { code, message } => {
                let mut text = "server refused the connection (".to_owned();
                text.append(code.as_str());
                text.append("): ");
                text.append(message.as_str());
                text
            },
            HandshakeError::UnsupportedAuthentication(method) => {
                let mut text = "server requested ".to_owned();
                text.append(method);
                text.append(" authentication, which is not supported; use SCRAM-SHA-256 or MD5");
                text
            },
            HandshakeError::PasswordRequired(method) => {
                let mut text = "server requested ".to_owned();
                text.append(method);
                text.append(" authentication but no password is configured for this instance");
                text
            },
            HandshakeError::Scram(source) => {
                let mut text = "SCRAM-SHA-256 exchange failed: ".to_owned();
                text.append(source.as_str());
                text
            },
            HandshakeError::UnexpectedMessage(what) => {
                let mut text = "protocol violation during startup: ".to_owned();
                text.append(what);
                text
            },
            HandshakeError::ConnectionClosed => {
                "server closed the connection during startup".to_owned()
            },
        }
    }
}

/// Why a server cannot be connected to.
#[derive(Debug, PartialEq, Eq)]
pub enum ConnectError {
    Unreachable(String),
    Handshake(HandshakeError),
    EncryptionRefused,
    EncryptionAnswer(u8),
    Encryption(String),
}

/// Why a server cannot be connected to, in words.
pub open spec fn connect_text(error: ConnectError) -> Seq<char> {
    match error {
        ConnectError::Unreachable(source) => "cannot reach the server: "@ + source@,
        ConnectError::Handshake(failure) => handshake_text(failure@),
        ConnectError::EncryptionRefused => {
            "the server does not encrypt, and this node is configured to demand it"@
        },
        ConnectError::EncryptionAnswer(answer) => {
            "the server answered the encryption request with `"@.push(answer as char)
                + "`, which is neither S nor N"@
        },
        ConnectError::Encryption(source) => {
            "cannot encrypt the connection to the server: "@ + source@
        },
    }
}

impl ConnectError {
    /// The error in words.
    pub fn to_string(&self) -> (text: String)
        ensures
            text@ == connect_text(*self),
    {
        match self {
            ConnectError::Unreachable(source) => {
                let mut text = "cannot reach the server: ".to_owned();
                text.append(source.as_str());
                text
            },
            ConnectError::Handshake(failure) => failure.to_string(),
            ConnectError::EncryptionRefused => {
                "the server does not encrypt, and this node is configured to demand it".to_owned()
            },
            ConnectError::EncryptionAnswer(answer) => {
                let mut text = "the server answered the encryption request with `".to_owned();
                text.push(*answer as char);
                text.append("`, which is neither S nor N");
                text
            },
            ConnectError::Encryption(source) => {
                let mut text = "cannot encrypt the connection to the server: ".to_owned();
                text.append(source.as_str());
                text
            },
        }
    }
}

/// What becomes of a connection once the server has answered whether it
/// encrypts.
#[derive(Debug, Clone, Copy, PartialEq, Eq, Structural)]
pub enum EncryptionStep {
    Encrypt,
    StayPlain,
}

/// Whether a node asks a server to encrypt at all.
pub fn asks_for_encryption(mode: SslMode) -> (b: bool)
    ensures
        b == (mode != SslMode::Disable),
{
    match mode {
        SslMode::Disable => false,
        _ => true,
    }
}

/// What a server's answer to an `SSLRequest` leads to: `S` is to encrypt and `N`
/// to carry on in the clear, where that will do.
pub fn encryption_answer(mode: SslMode, answer: u8) -> (step: Result<EncryptionStep, ConnectError>)
    ensures
        match step {
            Ok(EncryptionStep::Encrypt) => answer == 0x53,
            Ok(EncryptionStep::StayPlain) => answer == 0x4e && !mode.demands(),
            Err(error) => if answer == 0x4e {
                error == ConnectError::EncryptionRefused && mode.demands()
            } else {
                error == ConnectError::EncryptionAnswer(answer) && answer != 0x53
            },
        },
{
    if answer == 0x53 {
        Ok(EncryptionStep::Encrypt)
    } else if answer == 0x4e {
        if mode.demands_encryption() {
            Err(ConnectError::EncryptionRefused)
        } else {
            Ok(EncryptionStep::StayPlain)
        }
    } else {
        Err(ConnectError::EncryptionAnswer(answer))
    }
}

/// Whether a text is a port: a decimal number below 2^16.
pub open spec fn is_port(text: Seq<char>) -> bool {
    match number(text) {
        Some(port) => port <= 65535,
        None => false,
    }
}

/// Where a character last stands in a text: -1, where it does not.
pub open spec fn last_index(s: Seq<char>, c: char) -> int
    decreases s.len(),
{
    if s.len() == 0 {
        -1
    } else if s.last() == c {
        s.len() - 1
    } else {
        last_index(s.drop_last(), c)
    }
}

/// The host of an address: what stands between brackets, where it begins with
/// one; else what stands before the last colon, where a port follows it; else
/// the whole.
pub open spec fn host_in(addr: Seq<char>) -> Seq<char> {
    if addr.len() > 0 && addr[0] == '[' {
        let rest = addr.subrange(1, addr.len() as int);
        let end = find(rest, ']');
        if end < rest.len() {
            rest.subrange(0, end)
        } else {
            addr
        }
    } else {
        let at = last_index(addr, ':');
        if at >= 0 && is_port(addr.subrange(at + 1, addr.len() as int)) {
            addr.subrange(0, at)
        } else {
            addr
        }
    }
}

proof fn lemma_last_index(s: Seq<char>, c: char)
    ensures
        -1 <= last_index(s, c) < s.len(),
    decreases s.len(),
{
    if s.len() > 0 && s.last() != c {
        lemma_last_index(s.drop_last(), c);
    }
}

/// The host of `host:port`, which is the name a certificate is checked against.
pub fn host_of(addr: &str) -> (host: String)
    ensures
        host@ == host_in(addr@),
{
    let chars = chars_of(addr);
    let n: usize = chars.len();
    if n > 0 && chars[0] == '[' {
        let end: usize = find_char(&chars, ']', 1);
        if end < n {
            let host = part(&chars, 1, end);
            assert(host@ =~= addr@.subrange(1, n as int).subrange(0, end - 1));
            return text_of(&host);
        }
        return addr.to_owned();
    }
    let mut at: usize = n;
    assert(chars@.subrange(0, n as int) =~= chars@);
    while at > 0 && chars[at - 1] != ':'
        invariant
            at <= n,
            n == chars@.len(),
            last_index(chars@, ':') == last_index(chars@.subrange(0, at as int), ':'),
        decreases at,
    {
        assert(chars@.subrange(0, at as int).drop_last() =~= chars@.subrange(0, at - 1));
        at = at - 1;
    }
    if at > 0 {
        assert(chars@.subrange(0, at as int).last() == ':');
        let port = part(&chars, at, n);
        if let Some(number) = parse_number(&port) {
            if number <= 65535 {
                return text_of(&part(&chars, 0, at - 1));
            }
        }
    }
    addr.to_owned()
}

/// What `postgres_protocol::authentication::md5_hash` makes of a user, a
/// password and a salt.
pub uninterp spec fn md5_of(user: Seq<u8>, password: Seq<u8>, salt: Seq<u8>) -> Seq<char>;

/// Whether a text is an MD5 answer: `md5` and 32 hexadecimal digits.
pub open spec fn is_md5_text(text: Seq<char>) -> bool {
    &&& text.len() == 35
    &&& text.subrange(0, 3) == "md5"@
    &&& forall|k: int|
        3 <= k < 35 ==> '0' <= #[trigger] text[k] <= '9' || 'a' <= text[k] <= 'f'
}

/// `postgres_protocol::authentication::md5_hash`: the result is named; it is
/// `md5` and a digest of 16 bytes, in lower-case hexadecimal digits.
#[verifier::external_body]
fn md5_hash(user: &[u8], password: &[u8], salt: &[u8]) -> (hash: String)
    requires
        salt@.len() == 4,
    ensures
        hash@ == md5_of(user@, password@, salt@),
        is_md5_text(hash@),
{
    let salt: [u8; 4] = salt.try_into().expect("a salt of four bytes");
    postgres_protocol::authentication::md5_hash(user, password, salt)
}

/// Bytes to send or why the handshake fails, with texts as sequences.
pub open spec fn sent_view(sent: Result<Vec<u8>, HandshakeError>) -> Result<
    Seq<u8>,
    HandshakeFailure,
> {
    match sent {
        Ok(bytes) => Ok(bytes@),
        Err(error) => Err(error@),
    }
}

/// What a server is sent to begin an exchange whose first message is that.
pub open spec fn begun_with(first: Seq<u8>) -> Result<Seq<u8>, HandshakeFailure> {
    if initial_sendable("SCRAM-SHA-256"@, first) {
        Ok(framed(0x70, initial_body("SCRAM-SHA-256"@, first)))
    } else {
        Err(HandshakeFailure::Io(complaint(encode_utf8("SCRAM-SHA-256"@).contains(0))))
    }
}

/// What a server is sent to begin an exchange whose first message is `first`.
pub fn scram_begun(first: &[u8]) -> (sent: Result<Vec<u8>, HandshakeError>)
    ensures
        sent_view(sent) == begun_with(first@),
{
    match sasl_initial_response("SCRAM-SHA-256", first) {
        Ok(bytes) => Ok(bytes),
        Err(complaint) => Err(HandshakeError::Io(complaint)),
    }
}

/// What a server is sent when an exchange goes on, by what came of its
/// challenge: the client's next message, or a complaint.
pub open spec fn continued_with(outcome: Result<Seq<u8>, Seq<char>>) -> Result<
    Seq<u8>,
    HandshakeFailure,
> {
    match outcome {
        Ok(message) => if fits(message) {
            Ok(framed(0x70, message))
        } else {
            Err(HandshakeFailure::Io(complaint(false)))
        },
        Err(complaint) => Err(HandshakeFailure::Scram(complaint)),
    }
}

/// What a server is sent when an exchange goes on, by what came of its
/// challenge.
pub fn scram_continued(outcome: Result<Vec<u8>, String>) -> (sent: Result<Vec<u8>, HandshakeError>)
    ensures
        sent_view(sent) == continued_with(outcome_view(outcome)),
{
    match outcome {
        Ok(message) => match sasl_response(message.as_slice()) {
            Ok(bytes) => Ok(bytes),
            Err(complaint) => Err(HandshakeError::Io(complaint)),
        },
        Err(complaint) => Err(HandshakeError::Scram(complaint)),
    }
}

/// What comes of an exchange once the server has had its last word: it has
/// proved itself, or the handshake fails with the complaint.
pub fn scram_finished(outcome: Result<(), String>) -> (proved: Result<(), HandshakeError>)
    ensures
        match outcome {
            Ok(()) => proved is Ok,
            Err(complaint) => proved matches Err(error) && error@ == HandshakeFailure::Scram(
                complaint@,
            ),
        },
{
    match outcome {
        Ok(()) => Ok(()),
        Err(complaint) => Err(HandshakeError::Scram(complaint)),
    }
}

/// How far the SCRAM exchange of a handshake has come.
pub enum ScramPhase {
    Absent,
    InProgress(ClientView),
    Proved,
}

enum ScramState {
    Absent,
    InProgress(ClientExchange),
    Proved,
}

/// What a handshake has taken in so far.
#[verifier::ext_equal]
pub struct StartupView {
    pub parameters: Map<Seq<char>, Seq<char>>,
    pub backend_key: Option<CancelKey>,
    pub authenticated: bool,
    pub scram: ScramPhase,
}

/// What a handshake is to do next.
#[derive(Debug, PartialEq, Eq)]
pub enum Decision {
    /// Read on.
    ReadOn,
    /// The connection is open, and this key names it.
    Opened(CancelKey),
    /// Begin a SCRAM exchange.
    BeginScram,
    /// Answer the server's first message in the exchange.
    ContinueScram(Vec<u8>),
    /// Check the server's final message in the exchange.
    FinishScram(Vec<u8>),
    /// Send the password hashed with this salt.
    SendMd5(Vec<u8>),
}

/// What a handshake is to do next, with bytes as sequences.
pub enum DecisionView {
    ReadOn,
    Opened(CancelKey),
    BeginScram,
    ContinueScram(Seq<u8>),
    FinishScram(Seq<u8>),
    SendMd5(Seq<u8>),
}

impl View for Decision {
    type V = DecisionView;

    open spec fn view(&self) -> DecisionView {
        match *self {
            Decision::ReadOn => DecisionView::ReadOn,
            Decision::Opened(key) => DecisionView::Opened(key),
            Decision::BeginScram => DecisionView::BeginScram,
            Decision::ContinueScram(data) => DecisionView::ContinueScram(data@),
            Decision::FinishScram(data) => DecisionView::FinishScram(data@),
            Decision::SendMd5(salt) => DecisionView::SendMd5(salt@),
        }
    }
}

impl StartupView {
    /// Whether a `ReadyForQuery` opens the connection: only once the node is
    /// authenticated, the server has named its backend, and it is idle.
    pub open spec fn ready(self, status: u8) -> Result<CancelKey, HandshakeFailure> {
        if !self.authenticated {
            Err(HandshakeFailure::UnexpectedMessage("ReadyForQuery before AuthenticationOk"@))
        } else if self.backend_key is None {
            Err(HandshakeFailure::UnexpectedMessage("ReadyForQuery before BackendKeyData"@))
        } else if status != 0x49 {
            Err(
                HandshakeFailure::UnexpectedMessage(
                    "ReadyForQuery with a non-idle transaction status at startup"@,
                ),
            )
        } else {
            Ok(self.backend_key->0)
        }
    }

    /// What an authentication message calls for.
    pub open spec fn authentication(self, password: bool, message: MessageView) -> Result<
        DecisionView,
        HandshakeFailure,
    > {
        match message {
            MessageView::Sasl { scram } => if !scram {
                Err(
                    HandshakeFailure::UnsupportedAuthentication(
                        "SASL without the SCRAM-SHA-256 mechanism"@,
                    ),
                )
            } else if !password {
                Err(HandshakeFailure::PasswordRequired("SCRAM-SHA-256"@))
            } else {
                Ok(DecisionView::BeginScram)
            },
            MessageView::SaslContinue(data) => if self.scram is InProgress {
                Ok(DecisionView::ContinueScram(data))
            } else {
                Err(
                    HandshakeFailure::UnexpectedMessage(
                        "SASL continuation without a SASL exchange"@,
                    ),
                )
            },
            MessageView::SaslFinal(data) => if self.scram is InProgress {
                Ok(DecisionView::FinishScram(data))
            } else {
                Err(
                    HandshakeFailure::UnexpectedMessage(
                        "SASL continuation without a SASL exchange"@,
                    ),
                )
            },
            MessageView::Md5 { salt } => if !password {
                Err(HandshakeFailure::PasswordRequired("MD5"@))
            } else {
                Ok(DecisionView::SendMd5(salt))
            },
            MessageView::Cleartext => {
                Err(HandshakeFailure::UnsupportedAuthentication("cleartext password"@))
            },
            MessageView::Gssapi => {
                Err(HandshakeFailure::UnsupportedAuthentication("GSSAPI/Kerberos"@))
            },
            MessageView::ScmCredential => {
                Err(HandshakeFailure::UnsupportedAuthentication("SCM credential"@))
            },
            _ => Err(
                HandshakeFailure::UnexpectedMessage(
                    "message other than authentication, ParameterStatus, BackendKeyData, ReadyForQuery or ErrorResponse before ReadyForQuery"@,
                ),
            ),
        }
    }

    /// What a message of the server calls for, and what is taken in of it.
    pub open spec fn step(self, password: bool, message: MessageView) -> (
        StartupView,
        Result<DecisionView, HandshakeFailure>,
    ) {
        match message {
            MessageView::ReadyForQuery { status } => (
                self,
                match self.ready(status) {
                    Ok(key) => Ok(DecisionView::Opened(key)),
                    Err(failure) => Err(failure),
                },
            ),
            MessageView::Error { code, message } => (
                self,
                Err(HandshakeFailure::Server { code, message }),
            ),
            MessageView::Notice => (self, Ok(DecisionView::ReadOn)),
            MessageView::ParameterStatus { name, value } => (
                StartupView { parameters: self.parameters.insert(name, value), ..self },
                Ok(DecisionView::ReadOn),
            ),
            MessageView::KeyData(key) => (
                StartupView { backend_key: Some(key), ..self },
                Ok(DecisionView::ReadOn),
            ),
            MessageView::AuthenticationOk => if self.scram is InProgress {
                (
                    self,
                    Err(
                        HandshakeFailure::UnexpectedMessage(
                            "AuthenticationOk before the server proved itself with a SASL final message"@,
                        ),
                    ),
                )
            } else {
                (StartupView { authenticated: true, ..self }, Ok(DecisionView::ReadOn))
            },
            _ => (self, self.authentication(password, message)),
        }
    }
}

impl StartupView {
    /// The same, with an exchange begun over that secret and that first message.
    pub open spec fn begun(self, secret: Seq<u8>, first: Seq<u8>) -> StartupView {
        StartupView {
            scram: ScramPhase::InProgress(ClientView { secret, first, stage: Stage::Fresh }),
            ..self
        }
    }
}

/// What is wrong with a message of an exchange that was not begun.
pub open spec fn out_of_exchange() -> HandshakeFailure {
    HandshakeFailure::UnexpectedMessage("SASL continuation without a SASL exchange"@)
}

/// What a server is sent that asks for an MD5 hash.
pub open spec fn md5_answer(user: Seq<char>, password: Seq<char>, salt: Seq<u8>) -> Seq<u8> {
    framed(
        0x70,
        terminated(encode_utf8(md5_of(encode_utf8(user), encode_utf8(password), salt))),
    )
}

/// An MD5 answer can be sent.
proof fn lemma_md5_can_be_sent(hash: Seq<char>)
    requires
        is_md5_text(hash),
    ensures
        sendable(encode_utf8(hash)),
{
    reveal_strlit("md5");
    assert forall|k: int| 0 <= k < hash.len() implies '\0' < #[trigger] hash[k] <= '\u{7f}' by {
        if k < 3 {
            assert(hash[k] == hash.subrange(0, 3)[k]);
        }
    }
    assert(vstd::utf8::is_ascii_chars(hash));
    vstd::utf8::is_ascii_chars_encode_utf8(hash);
    let bytes = encode_utf8(hash);
    assert forall|k: int| 0 <= k < bytes.len() implies bytes[k] != 0 by {
        assert(hash[k] as u8 == bytes[k]);
    }
}

fn md5_sent(credentials: &ServerCredentials, salt: &Vec<u8>) -> (sent: Result<
    Option<Vec<u8>>,
    HandshakeError,
>)
    requires
        salt@.len() == 4,
    ensures
        match credentials.password {
            None => sent matches Err(error) && error@ == HandshakeFailure::PasswordRequired("MD5"@),
            Some(password) => sent matches Ok(Some(bytes)) && bytes@ == md5_answer(
                credentials.user@,
                password@,
                salt@,
            ),
        },
{
    let password = match &credentials.password {
        Some(password) => password,
        None => return Err(HandshakeError::PasswordRequired("MD5")),
    };
    let hash = md5_hash(
        credentials.user.as_str().as_bytes(),
        password.as_str().as_bytes(),
        salt.as_slice(),
    );
    proof {
        lemma_md5_can_be_sent(hash@);
    }
    match password_message(hash.as_str().as_bytes()) {
        Ok(bytes) => Ok(Some(bytes)),
        Err(complaint) => Err(HandshakeError::Io(complaint)),
    }
}

/// A client's first message can be sent.
proof fn lemma_first_can_be_sent(first: Seq<u8>)
    requires
        is_first(first),
    ensures
        begun_with(first) is Ok,
{
    reveal_strlit("SCRAM-SHA-256");
    let mechanism = "SCRAM-SHA-256"@;
    assert(vstd::utf8::is_ascii_chars(mechanism));
    vstd::utf8::is_ascii_chars_encode_utf8(mechanism);
    assert(!encode_utf8(mechanism).contains(0));
}

/// A decision or why the handshake fails.
pub open spec fn decision_view(decision: Result<Decision, HandshakeError>) -> Result<
    DecisionView,
    HandshakeFailure,
> {
    match decision {
        Ok(decision) => Ok(decision@),
        Err(error) => Err(error@),
    }
}

/// A handshake with a server.
pub struct StartupState {
    parameters: OrdMap<String, String>,
    backend_key: Option<CancelKey>,
    authenticated: bool,
    scram: ScramState,
}

impl View for StartupState {
    type V = StartupView;

    closed spec fn view(&self) -> StartupView {
        StartupView {
            parameters: self.parameters@,
            backend_key: self.backend_key,
            authenticated: self.authenticated,
            scram: match self.scram {
                ScramState::Absent => ScramPhase::Absent,
                ScramState::InProgress(exchange) => ScramPhase::InProgress(exchange@),
                ScramState::Proved => ScramPhase::Proved,
            },
        }
    }
}

fn copied(bytes: &Vec<u8>) -> (copy: Vec<u8>)
    ensures
        copy@ == bytes@,
{
    let mut copy: Vec<u8> = Vec::new();
    let mut i: usize = 0;
    while i < bytes.len()
        invariant
            i <= bytes@.len(),
            copy@ == bytes@.subrange(0, i as int),
        decreases bytes@.len() - i,
    {
        copy.push(bytes[i]);
        assert(bytes@.subrange(0, i + 1) =~= bytes@.subrange(0, i as int).push(bytes@[i as int]));
        i += 1;
    }
    assert(bytes@.subrange(0, i as int) =~= bytes@);
    copy
}

impl StartupState {
    pub fn new() -> (state: Self)
        ensures
            state@ == (StartupView {
                parameters: Map::empty(),
                backend_key: None,
                authenticated: false,
                scram: ScramPhase::Absent,
            }),
    {
        StartupState {
            parameters: OrdMap::new(),
            backend_key: None,
            authenticated: false,
            scram: ScramState::Absent,
        }
    }

    fn in_progress(&self) -> (b: bool)
        ensures
            b == (self@.scram is InProgress),
    {
        match &self.scram {
            ScramState::InProgress(_) => true,
            _ => false,
        }
    }

    fn authentication_ok(&mut self) -> (result: Result<(), HandshakeError>)
        ensures
            old(self)@.scram is InProgress ==> {
                &&& result matches Err(error) && error@ == HandshakeFailure::UnexpectedMessage(
                    "AuthenticationOk before the server proved itself with a SASL final message"@,
                )
                &&& final(self)@ == old(self)@
            },
            !(old(self)@.scram is InProgress) ==> {
                &&& result is Ok
                &&& final(self)@ == (StartupView { authenticated: true, ..old(self)@ })
            },
    {
        if self.in_progress() {
            return Err(
                HandshakeError::UnexpectedMessage(
                    "AuthenticationOk before the server proved itself with a SASL final message",
                ),
            );
        }
        self.authenticated = true;
        Ok(())
    }

    fn ready(&self, status: u8) -> (result: Result<CancelKey, HandshakeError>)
        ensures
            match result {
                Ok(key) => self@.ready(status) matches Ok(k) && k == key,
                Err(error) => self@.ready(status) matches Err(failure) && failure == error@,
            },
    {
        if !self.authenticated {
            return Err(HandshakeError::UnexpectedMessage("ReadyForQuery before AuthenticationOk"));
        }
        let key = match self.backend_key {
            Some(key) => key,
            None => return Err(
                HandshakeError::UnexpectedMessage("ReadyForQuery before BackendKeyData"),
            ),
        };
        if status != 0x49 {
            return Err(
                HandshakeError::UnexpectedMessage(
                    "ReadyForQuery with a non-idle transaction status at startup",
                ),
            );
        }
        Ok(key)
    }

    fn decide_authentication(&self, password: bool, message: &BackendMessage) -> (decision: Result<
        Decision,
        HandshakeError,
    >)
        ensures
            decision_view(decision) == self@.authentication(password, message@),
    {
        match message {
            BackendMessage::Sasl { scram } => {
                if !*scram {
                    return Err(
                        HandshakeError::UnsupportedAuthentication(
                            "SASL without the SCRAM-SHA-256 mechanism",
                        ),
                    );
                }
                if !password {
                    return Err(HandshakeError::PasswordRequired("SCRAM-SHA-256"));
                }
                Ok(Decision::BeginScram)
            },
            BackendMessage::SaslContinue(data) => if self.in_progress() {
                Ok(Decision::ContinueScram(copied(data)))
            } else {
                Err(HandshakeError::UnexpectedMessage("SASL continuation without a SASL exchange"))
            },
            BackendMessage::SaslFinal(data) => if self.in_progress() {
                Ok(Decision::FinishScram(copied(data)))
            } else {
                Err(HandshakeError::UnexpectedMessage("SASL continuation without a SASL exchange"))
            },
            BackendMessage::Md5 { salt } => {
                if !password {
                    return Err(HandshakeError::PasswordRequired("MD5"));
                }
                Ok(Decision::SendMd5(copied(salt)))
            },
            BackendMessage::Cleartext => {
                Err(HandshakeError::UnsupportedAuthentication("cleartext password"))
            },
            BackendMessage::Gssapi => {
                Err(HandshakeError::UnsupportedAuthentication("GSSAPI/Kerberos"))
            },
            BackendMessage::ScmCredential => {
                Err(HandshakeError::UnsupportedAuthentication("SCM credential"))
            },
            _ => Err(
                HandshakeError::UnexpectedMessage(
                    "message other than authentication, ParameterStatus, BackendKeyData, ReadyForQuery or ErrorResponse before ReadyForQuery",
                ),
            ),
        }
    }

    /// Takes in a message of the server and decides what it calls for.
    pub fn on_message(&mut self, credentials: &ServerCredentials, message: &BackendMessage) -> (
        decision: Result<Decision, HandshakeError>)
        ensures
            (final(self)@, decision_view(decision)) == old(self)@.step(
                credentials.password is Some,
                message@,
            ),
    {
        match message {
            BackendMessage::ReadyForQuery { status } => match self.ready(*status) {
                Ok(key) => Ok(Decision::Opened(key)),
                Err(error) => Err(error),
            },
            BackendMessage::Error { code, message } => Err(
                HandshakeError::Server { code: code.clone(), message: message.clone() },
            ),
            BackendMessage::Notice => Ok(Decision::ReadOn),
            BackendMessage::ParameterStatus { name, value } => {
                let ghost before = self@;
                self.parameters.insert(name.clone(), value.clone());
                assert(self@ =~= StartupView {
                    parameters: before.parameters.insert(name@, value@),
                    ..before
                });
                Ok(Decision::ReadOn)
            },
            BackendMessage::KeyData(key) => {
                self.backend_key = Some(*key);
                Ok(Decision::ReadOn)
            },
            BackendMessage::AuthenticationOk => match self.authentication_ok() {
                Ok(()) => Ok(Decision::ReadOn),
                Err(error) => Err(error),
            },
            _ => self.decide_authentication(credentials.password.is_some(), message),
        }
    }

    fn begin_exchange(&mut self, credentials: &ServerCredentials) -> (sent: Result<
        Option<Vec<u8>>,
        HandshakeError,
    >)
        ensures
            match credentials.password {
                None => {
                    &&& sent matches Err(error) && error@ == HandshakeFailure::PasswordRequired(
                        "SCRAM-SHA-256"@,
                    )
                    &&& final(self)@ == old(self)@
                },
                Some(password) => exists|first: Seq<u8>| #[trigger]
                    is_first(first) && {
                        &&& sent matches Ok(Some(bytes)) && Ok::<Seq<u8>, HandshakeFailure>(bytes@)
                            == begun_with(first)
                        &&& final(self)@ == old(self)@.begun(encode_utf8(password@), first)
                    },
            },
    {
        let password = match &credentials.password {
            Some(password) => password,
            None => return Err(HandshakeError::PasswordRequired("SCRAM-SHA-256")),
        };
        let (scram, first) = begin_scram(password.as_str().as_bytes());
        proof {
            lemma_first_can_be_sent(first@);
        }
        match scram_begun(first.as_slice()) {
            Ok(bytes) => {
                self.scram = ScramState::InProgress(scram);
                assert(is_first(first@));
                Ok(Some(bytes))
            },
            Err(error) => Err(error),
        }
    }

    fn answer_challenge(&mut self, data: &Vec<u8>) -> (sent: Result<Option<Vec<u8>>, HandshakeError>)
        ensures
            match old(self)@.scram {
                ScramPhase::InProgress(exchange) => {
                    &&& match continued_with(exchange.reply(data@)) {
                        Ok(continued) => sent matches Ok(Some(bytes)) && bytes@ == continued,
                        Err(failure) => sent matches Err(error) && error@ == failure,
                    }
                    &&& final(self)@ == (StartupView {
                        scram: ScramPhase::InProgress(exchange.challenged(data@)),
                        ..old(self)@
                    })
                },
                _ => {
                    &&& sent matches Err(error) && error@ == out_of_exchange()
                    &&& final(self)@ == old(self)@
                },
            },
    {
        let mut state = ScramState::Absent;
        std::mem::swap(&mut self.scram, &mut state);
        match state {
            ScramState::InProgress(mut scram) => {
                let outcome = continue_scram(&mut scram, data.as_slice());
                self.scram = ScramState::InProgress(scram);
                match scram_continued(outcome) {
                    Ok(bytes) => Ok(Some(bytes)),
                    Err(error) => Err(error),
                }
            },
            other => {
                self.scram = other;
                Err(HandshakeError::UnexpectedMessage("SASL continuation without a SASL exchange"))
            },
        }
    }

    fn check_proof(&mut self, data: &Vec<u8>) -> (sent: Result<Option<Vec<u8>>, HandshakeError>)
        ensures
            match old(self)@.scram {
                ScramPhase::InProgress(exchange) => match exchange.proved(data@) {
                    Ok(()) => {
                        &&& sent matches Ok(None)
                        &&& final(self)@ == (StartupView {
                            scram: ScramPhase::Proved,
                            ..old(self)@
                        })
                    },
                    Err(complaint) => {
                        &&& sent matches Err(error) && error@ == HandshakeFailure::Scram(complaint)
                        &&& final(self)@ == (StartupView {
                            scram: ScramPhase::InProgress(exchange.at(Stage::Spent)),
                            ..old(self)@
                        })
                    },
                },
                _ => {
                    &&& sent matches Err(error) && error@ == out_of_exchange()
                    &&& final(self)@ == old(self)@
                },
            },
    {
        let mut state = ScramState::Absent;
        std::mem::swap(&mut self.scram, &mut state);
        match state {
            ScramState::InProgress(mut scram) => {
                match scram_finished(finish_scram(&mut scram, data.as_slice())) {
                    Ok(()) => {
                        self.scram = ScramState::Proved;
                        Ok(None)
                    },
                    Err(error) => {
                        self.scram = ScramState::InProgress(scram);
                        Err(error)
                    },
                }
            },
            other => {
                self.scram = other;
                Err(HandshakeError::UnexpectedMessage("SASL continuation without a SASL exchange"))
            },
        }
    }

    /// Does what a decision calls for, and answers what is to be sent, if
    /// anything. A SCRAM exchange begins over the password, and moves on with
    /// the server's messages; nothing else of the handshake moves.
    pub fn perform(&mut self, credentials: &ServerCredentials, decision: &Decision) -> (sent: Result<
        Option<Vec<u8>>,
        HandshakeError,
    >)
        requires
            decision@ matches DecisionView::SendMd5(salt) ==> salt.len() == 4,
        ensures
            final(self)@.parameters == old(self)@.parameters,
            final(self)@.backend_key == old(self)@.backend_key,
            final(self)@.authenticated == old(self)@.authenticated,
            match decision@ {
                DecisionView::ReadOn => sent matches Ok(None) && final(self)@ == old(self)@,
                DecisionView::Opened(_) => sent matches Ok(None) && final(self)@ == old(self)@,
                DecisionView::BeginScram => match credentials.password {
                    None => {
                        &&& sent matches Err(error) && error@ == HandshakeFailure::PasswordRequired(
                            "SCRAM-SHA-256"@,
                        )
                        &&& final(self)@ == old(self)@
                    },
                    Some(password) => exists|first: Seq<u8>| #[trigger]
                        is_first(first) && {
                            &&& sent matches Ok(Some(bytes)) && Ok::<Seq<u8>, HandshakeFailure>(
                                bytes@,
                            ) == begun_with(first)
                            &&& final(self)@ == old(self)@.begun(encode_utf8(password@), first)
                        },
                },
                DecisionView::ContinueScram(data) => match old(self)@.scram {
                    ScramPhase::InProgress(exchange) => {
                        &&& match continued_with(exchange.reply(data)) {
                            Ok(continued) => sent matches Ok(Some(bytes)) && bytes@ == continued,
                            Err(failure) => sent matches Err(error) && error@ == failure,
                        }
                        &&& final(self)@.scram == ScramPhase::InProgress(exchange.challenged(data))
                    },
                    _ => {
                        &&& sent matches Err(error) && error@ == out_of_exchange()
                        &&& final(self)@ == old(self)@
                    },
                },
                DecisionView::FinishScram(data) => match old(self)@.scram {
                    ScramPhase::InProgress(exchange) => match exchange.proved(data) {
                        Ok(()) => {
                            &&& sent matches Ok(None)
                            &&& final(self)@.scram == ScramPhase::Proved
                        },
                        Err(complaint) => {
                            &&& sent matches Err(error) && error@ == HandshakeFailure::Scram(
                                complaint,
                            )
                            &&& final(self)@.scram == ScramPhase::InProgress(
                                exchange.at(Stage::Spent),
                            )
                        },
                    },
                    _ => {
                        &&& sent matches Err(error) && error@ == out_of_exchange()
                        &&& final(self)@ == old(self)@
                    },
                },
                DecisionView::SendMd5(salt) => {
                    &&& final(self)@ == old(self)@
                    &&& match credentials.password {
                        None => sent matches Err(error) && error@
                            == HandshakeFailure::PasswordRequired("MD5"@),
                        Some(password) => {
                            sent matches Ok(Some(bytes)) && bytes@ == md5_answer(
                                credentials.user@,
                                password@,
                                salt,
                            )
                        },
                    }
                },
            },
    {
        match decision {
            Decision::ReadOn => Ok(None),
            Decision::Opened(_) => Ok(None),
            Decision::BeginScram => self.begin_exchange(credentials),
            Decision::ContinueScram(data) => self.answer_challenge(data),
            Decision::FinishScram(data) => self.check_proof(data),
            Decision::SendMd5(salt) => md5_sent(credentials, salt),
        }
    }

    /// What the server reported of itself.
    pub fn parameters(&self) -> (parameters: &OrdMap<String, String>)
        ensures
            parameters@ == self@.parameters,
    {
        &self.parameters
    }
}


/// Where a handshake stands once a message was answered.
#[derive(Debug, PartialEq, Eq)]
pub enum Progress {
    ReadOn,
    Send(Vec<u8>),
    Opened(CancelKey),
}

impl StartupState {
    /// Takes in the bytes of one message of the server, and does what it calls
    /// for.
    pub fn advance(&mut self, credentials: &ServerCredentials, bytes: &[u8]) -> (progress: Result<
        Progress,
        HandshakeError,
    >)
        ensures
            match message_of(bytes@) {
                Err(complaint) => {
                    &&& progress matches Err(error) && error@ == HandshakeFailure::Io(complaint)
                    &&& final(self)@ == old(self)@
                },
                Ok(message) => {
                    let (next, decision) = old(self)@.step(
                        credentials.password is Some,
                        message,
                    );
                    match decision {
                        Err(failure) => {
                            &&& progress matches Err(error) && error@ == failure
                            &&& final(self)@ == next
                        },
                        Ok(DecisionView::ReadOn) => {
                            &&& progress matches Ok(Progress::ReadOn)
                            &&& final(self)@ == next
                        },
                        Ok(DecisionView::Opened(key)) => {
                            &&& progress matches Ok(Progress::Opened(k)) && k == key
                            &&& final(self)@ == next
                        },
                        Ok(DecisionView::BeginScram) => exists|first: Seq<u8>| #[trigger]
                            is_first(first) && {
                                &&& progress matches Ok(Progress::Send(sent)) && Ok::<
                                    Seq<u8>,
                                    HandshakeFailure,
                                >(sent@) == begun_with(first)
                                &&& final(self)@ == next.begun(
                                    encode_utf8(credentials.password->0@),
                                    first,
                                )
                            },
                        Ok(DecisionView::ContinueScram(data)) => {
                            let exchange = next.scram->InProgress_0;
                            &&& match continued_with(exchange.reply(data)) {
                                Ok(continued) => progress matches Ok(Progress::Send(sent)) && sent@
                                    == continued,
                                Err(failure) => progress matches Err(error) && error@ == failure,
                            }
                            &&& final(self)@ == (StartupView {
                                scram: ScramPhase::InProgress(exchange.challenged(data)),
                                ..next
                            })
                        },
                        Ok(DecisionView::FinishScram(data)) => {
                            let exchange = next.scram->InProgress_0;
                            match exchange.proved(data) {
                                Ok(()) => {
                                    &&& progress matches Ok(Progress::ReadOn)
                                    &&& final(self)@ == (StartupView {
                                        scram: ScramPhase::Proved,
                                        ..next
                                    })
                                },
                                Err(complaint) => {
                                    &&& progress matches Err(error) && error@
                                        == HandshakeFailure::Scram(complaint)
                                    &&& final(self)@ == (StartupView {
                                        scram: ScramPhase::InProgress(exchange.at(Stage::Spent)),
                                        ..next
                                    })
                                },
                            }
                        },
                        Ok(DecisionView::SendMd5(salt)) => {
                            &&& progress matches Ok(Progress::Send(sent)) && sent@ == md5_answer(
                                credentials.user@,
                                credentials.password->0@,
                                salt,
                            )
                            &&& final(self)@ == next
                        },
                    }
                },
            },
    {
        let message = match read_message(bytes) {
            Ok(message) => message,
            Err(complaint) => return Err(HandshakeError::Io(complaint)),
        };
        let decision = match self.on_message(credentials, &message) {
            Ok(decision) => decision,
            Err(error) => return Err(error),
        };
        match &decision {
            Decision::Opened(key) => return Ok(Progress::Opened(*key)),
            Decision::ReadOn => return Ok(Progress::ReadOn),
            _ => {},
        }
        match self.perform(credentials, &decision) {
            Ok(Some(bytes)) => Ok(Progress::Send(bytes)),
            Ok(None) => Ok(Progress::ReadOn),
            Err(error) => Err(error),
        }
    }
}

/// A server that proves nothing is not taken at its word: `AuthenticationOk`
/// while a SCRAM exchange is in progress fails the handshake, and only
/// `AuthenticationOk` ever makes a node authenticated.
pub proof fn law_only_a_proved_server_authenticates(
    state: StartupView,
    password: bool,
    message: MessageView,
)
    ensures
        state.scram is InProgress && message is AuthenticationOk ==> state.step(
            password,
            message,
        ).1 is Err,
        state.step(password, message).0.authenticated && !state.authenticated ==> message
            is AuthenticationOk && !(state.scram is InProgress),
{
}

/// A connection is opened only once it is authenticated, idle and named, and
/// under the name that the server gave last.
pub proof fn law_a_connection_opens_under_its_backend_key(
    state: StartupView,
    password: bool,
    message: MessageView,
)
    ensures
        state.step(password, message).1 matches Ok(DecisionView::Opened(key)) ==> {
            &&& message == (MessageView::ReadyForQuery { status: 0x49 })
            &&& state.authenticated
            &&& state.backend_key == Some(key)
        },
{
}

/// Without a password a node never answers a request for one.
pub proof fn law_no_password_is_made_up(state: StartupView, message: MessageView)
    ensures
        !(state.step(false, message).1 matches Ok(DecisionView::BeginScram)),
        !(state.step(false, message).1 matches Ok(DecisionView::SendMd5(_))),
{
}

/// Why a query fails.
#[derive(Debug, PartialEq, Eq)]
pub enum QueryError {
    Io(String),
    Server { code: String, message: String },
    UnexpectedMessage(&'static str),
    ConnectionClosed,
}

/// Why a query fails, with texts as sequences.
pub enum QueryFailure {
    Io(Seq<char>),
    Server { code: Seq<char>, message: Seq<char> },
    UnexpectedMessage(Seq<char>),
    ConnectionClosed,
}

impl View for QueryError {
    type V = QueryFailure;

    open spec fn view(&self) -> QueryFailure {
        match *self {
            QueryError::Io(source) => QueryFailure::Io(source@),
            QueryError::Server { code, message } => QueryFailure::Server {
                code: code@,
                message: message@,
            },
            QueryError::UnexpectedMessage(what) => QueryFailure::UnexpectedMessage(what@),
            QueryError::ConnectionClosed => QueryFailure::ConnectionClosed,
        }
    }
}

/// A failed query in words.
pub open spec fn query_failure_text(failure: QueryFailure) -> Seq<char> {
    match failure {
        QueryFailure::Io(source) => "i/o error while running a query: "@ + source,
        QueryFailure::Server { code, message } => {
            "server refused the query ("@ + code + "): "@ + message
        },
        QueryFailure::UnexpectedMessage(what) => {
            "protocol violation while running a query: "@ + what
        },
        QueryFailure::ConnectionClosed => "server closed the connection while running a query"@,
    }
}

impl QueryError {
    /// The failure in words.
    pub fn to_string(&self) -> (text: String)
        ensures
            text@ == query_failure_text(self@),
    {
        match self {
            QueryError::Io(source) => {
                let mut text = "i/o error while running a query: ".to_owned();
                text.append(source.as_str());
                text
            },
            QueryError::Server { code, message } => {
                let mut text = "server refused the query (".to_owned();
                text.append(code.as_str());
                text.append("): ");
                text.append(message.as_str());
                text
            },
            QueryError::UnexpectedMessage(what) => {
                let mut text = "protocol violation while running a query: ".to_owned();
                text.append(what);
                text
            },
            QueryError::ConnectionClosed => {
                "server closed the connection while running a query".to_owned()
            },
        }
    }
}

/// The rows of an answer as texts.
pub type RowsView = Seq<Seq<Option<Seq<char>>>>;

/// The texts of some rows.
pub open spec fn rows_text(rows: Seq<Row>) -> RowsView {
    Seq::new(rows.len(), |i: int| row_text(rows[i]@))
}

/// What is taken in of the answer to a simple query: its rows, the refusal of
/// the server, if any, and what it reported of itself.
#[verifier::ext_equal]
pub struct QueryView {
    pub rows: RowsView,
    pub refusal: Option<QueryFailure>,
    pub parameters: Map<Seq<char>, Seq<char>>,
}

/// What comes of a message in the answer to a simple query: nothing yet, or the
/// outcome of the query.
pub enum QueryOutcome {
    ReadOn,
    Answered(RowsView),
    Failed(QueryFailure),
}

impl QueryView {
    pub open spec fn step(self, message: MessageView) -> (QueryView, QueryOutcome) {
        match message {
            MessageView::ReadyForQuery { status } => (
                self,
                match self.refusal {
                    Some(failure) => QueryOutcome::Failed(failure),
                    None => QueryOutcome::Answered(self.rows),
                },
            ),
            MessageView::DataRow(row) => (
                QueryView { rows: self.rows.push(row), ..self },
                QueryOutcome::ReadOn,
            ),
            MessageView::RowDescription => (self, QueryOutcome::ReadOn),
            MessageView::CommandComplete => (self, QueryOutcome::ReadOn),
            MessageView::EmptyQuery => (self, QueryOutcome::ReadOn),
            MessageView::Error { code, message } => (
                QueryView { refusal: Some(QueryFailure::Server { code, message }), ..self },
                QueryOutcome::ReadOn,
            ),
            MessageView::Notice => (self, QueryOutcome::ReadOn),
            MessageView::ParameterStatus { name, value } => (
                QueryView { parameters: self.parameters.insert(name, value), ..self },
                QueryOutcome::ReadOn,
            ),
            _ => (
                self,
                QueryOutcome::Failed(
                    QueryFailure::UnexpectedMessage(
                        "message other than a row, a completion, ParameterStatus, NoticeResponse, ErrorResponse or ReadyForQuery in a simple query result"@,
                    ),
                ),
            ),
        }
    }
}

/// The bytes of a simple query.
pub fn simple_query(sql: &str) -> (message: Result<Vec<u8>, QueryError>)
    ensures
        message is Ok <==> sendable(encode_utf8(sql@)),
        message matches Ok(m) ==> m@ == framed(0x51, terminated(encode_utf8(sql@))),
        message matches Err(error) ==> error@ == QueryFailure::Io(
            complaint(encode_utf8(sql@).contains(0)),
        ),
{
    match query_message(sql) {
        Ok(message) => Ok(message),
        Err(complaint) => Err(QueryError::Io(complaint)),
    }
}

/// A simple query that is being answered.
pub struct QueryState {
    rows: Vec<Row>,
    refusal: Option<(String, String)>,
    parameters: OrdMap<String, String>,
}

impl View for QueryState {
    type V = QueryView;

    closed spec fn view(&self) -> QueryView {
        QueryView {
            rows: rows_text(self.rows@),
            refusal: match self.refusal {
                Some((code, message)) => Some(
                    QueryFailure::Server { code: code@, message: message@ },
                ),
                None => None,
            },
            parameters: self.parameters@,
        }
    }
}

fn copied_row(row: &Row) -> (copy: Row)
    ensures
        row_text(copy@) == row_text(row@),
{
    let mut copy: Row = Vec::new();
    let mut i: usize = 0;
    while i < row.len()
        invariant
            i <= row@.len(),
            copy@.len() == i,
            forall|j: int| 0 <= j < i ==> row_text(copy@)[j] == #[trigger] row_text(row@)[j],
        decreases row@.len() - i,
    {
        let ghost before = copy@;
        let value: Option<String> = match &row[i] {
            Some(value) => Some(value.clone()),
            None => None,
        };
        copy.push(value);
        proof {
            assert forall|j: int| 0 <= j < i + 1 implies row_text(copy@)[j] == #[trigger] row_text(
                row@,
            )[j] by {
                if j < i {
                    assert(row_text(before)[j] == row_text(row@)[j]);
                }
            }
        }
        i += 1;
    }
    assert(row_text(copy@) =~= row_text(row@));
    copy
}

impl QueryState {
    pub fn new() -> (state: Self)
        ensures
            state@ == (QueryView {
                rows: Seq::empty(),
                refusal: None,
                parameters: Map::empty(),
            }),
    {
        let state = QueryState { rows: Vec::new(), refusal: None, parameters: OrdMap::new() };
        assert(state@.rows =~= Seq::empty());
        state
    }

    /// Takes in a message of the answer. The outcome is nothing while the
    /// answer goes on; what the server reported of itself is kept when it ends.
    pub fn on_message(&mut self, message: &BackendMessage) -> (outcome: Option<
        Result<Vec<Row>, QueryError>,
    >)
        ensures
            match old(self)@.step(message@).1 {
                QueryOutcome::ReadOn => outcome is None && final(self)@ == old(self)@.step(
                    message@,
                ).0,
                QueryOutcome::Answered(rows) => {
                    &&& outcome matches Some(Ok(r)) && rows_text(r@) == rows
                    &&& final(self)@ == (QueryView { rows: Seq::empty(), ..old(self)@ })
                },
                QueryOutcome::Failed(failure) => {
                    &&& outcome matches Some(Err(error)) && error@ == failure
                    &&& final(self)@ == old(self)@
                },
            },
    {
        let ghost before = self@;
        match message {
            BackendMessage::ReadyForQuery { status: _ } => match &self.refusal {
                Some((code, message)) => Some(
                    Err(QueryError::Server { code: code.clone(), message: message.clone() }),
                ),
                None => {
                    let mut rows: Vec<Row> = Vec::new();
                    std::mem::swap(&mut self.rows, &mut rows);
                    assert(self@.rows =~= Seq::empty());
                    Some(Ok(rows))
                },
            },
            BackendMessage::DataRow(row) => {
                self.rows.push(copied_row(row));
                proof {
                    assert(self@.rows =~= before.rows.push(row_text(row@)));
                }
                None
            },
            BackendMessage::RowDescription => None,
            BackendMessage::CommandComplete => None,
            BackendMessage::EmptyQuery => None,
            BackendMessage::Error { code, message } => {
                self.refusal = Some((code.clone(), message.clone()));
                None
            },
            BackendMessage::Notice => None,
            BackendMessage::ParameterStatus { name, value } => {
                self.parameters.insert(name.clone(), value.clone());
                None
            },
            _ => Some(
                Err(
                    QueryError::UnexpectedMessage(
                        "message other than a row, a completion, ParameterStatus, NoticeResponse, ErrorResponse or ReadyForQuery in a simple query result",
                    ),
                ),
            ),
        }
    }

    /// Takes in the bytes of one message of the answer.
    pub fn advance(&mut self, bytes: &[u8]) -> (outcome: Option<Result<Vec<Row>, QueryError>>)
        ensures
            match message_of(bytes@) {
                Err(complaint) => {
                    &&& outcome matches Some(Err(error)) && error@ == QueryFailure::Io(complaint)
                    &&& final(self)@ == old(self)@
                },
                Ok(message) => match old(self)@.step(message).1 {
                    QueryOutcome::ReadOn => outcome is None && final(self)@ == old(self)@.step(
                        message,
                    ).0,
                    QueryOutcome::Answered(rows) => {
                        &&& outcome matches Some(Ok(r)) && rows_text(r@) == rows
                        &&& final(self)@ == (QueryView { rows: Seq::empty(), ..old(self)@ })
                    },
                    QueryOutcome::Failed(failure) => {
                        &&& outcome matches Some(Err(error)) && error@ == failure
                        &&& final(self)@ == old(self)@
                    },
                },
            },
    {
        match read_message(bytes) {
            Ok(message) => self.on_message(&message),
            Err(complaint) => Some(Err(QueryError::Io(complaint))),
        }
    }

    /// What the server reported of itself while it answered.
    pub fn parameters(&self) -> (parameters: &OrdMap<String, String>)
        ensures
            parameters@ == self@.parameters,
    {
        &self.parameters
    }
}

proof fn lemma_last_index_is(s: Seq<char>, c: char, at: int)
    requires
        0 <= at < s.len(),
        s[at] == c,
        forall|j: int| at < j < s.len() ==> s[j] != c,
    ensures
        last_index(s, c) == at,
    decreases s.len(),
{
    if at < s.len() - 1 {
        assert(s.last() != c);
        lemma_last_index_is(s.drop_last(), c, at);
    }
}

proof fn lemma_last_index_none(s: Seq<char>, c: char)
    requires
        !s.contains(c),
    ensures
        last_index(s, c) == -1,
    decreases s.len(),
{
    if s.len() > 0 {
        assert(s.contains(s[s.len() - 1]));
        let shorter = s.drop_last();
        assert(!shorter.contains(c)) by {
            if shorter.contains(c) {
                let j = choose|j: int| 0 <= j < shorter.len() && shorter[j] == c;
                assert(s[j] == c);
            }
        }
        lemma_last_index_none(shorter, c);
    }
}

/// The name that a certificate is checked against is the host of an address: what
/// stands before its port, what stands in its brackets, and the whole where it
/// names no port.
pub proof fn law_a_certificate_is_checked_against_the_host(host: Seq<char>, port: nat, rest: Seq<char>)
    requires
        host.len() > 0,
        host[0] != '[',
    ensures
        port <= 65535 ==> host_in(host + seq![':'] + decimal(port)) == host,
        !host.contains(':') ==> host_in(host) == host,
        !host.contains(']') ==> host_in(seq!['['] + host + seq![']'] + rest) == host,
{
    let addr = host + seq![':'] + decimal(port);
    law_a_number_reads_as_it_was_written(port, port);
    assert(addr[0] == host[0]);
    assert forall|j: int| host.len() < j < addr.len() implies addr[j] != ':' by {
        assert(addr[j] == decimal(port)[j - host.len() - 1]);
    }
    lemma_last_index_is(addr, ':', host.len() as int);
    assert(addr.subrange(host.len() as int + 1, addr.len() as int) =~= decimal(port));
    assert(addr.subrange(0, host.len() as int) =~= host);
    if !host.contains(':') {
        lemma_last_index_none(host, ':');
    }
    if !host.contains(']') {
        let bracketed = seq!['['] + host + seq![']'] + rest;
        let inner = bracketed.subrange(1, bracketed.len() as int);
        assert(bracketed[0] == '[');
        assert forall|j: int| 0 <= j < host.len() implies inner[j] != ']' by {
            assert(inner[j] == host[j]);
            assert(host.contains(host[j]));
        }
        assert(inner[host.len() as int] == ']');
        lemma_found(inner, ']', host.len() as int);
        assert(inner.subrange(0, host.len() as int) =~= host);
    }
}

/// What a server reports of itself is kept, the latest value of each parameter,
/// and moves nothing else.
pub proof fn law_the_latest_report_of_a_parameter_is_kept(
    state: StartupView,
    query: QueryView,
    password: bool,
    name: Seq<char>,
    value: Seq<char>,
    other: Seq<char>,
)
    ensures
        ({
            let message = MessageView::ParameterStatus { name, value };
            let (after, decision) = state.step(password, message);
            let (answered, outcome) = query.step(message);
            &&& decision matches Ok(DecisionView::ReadOn)
            &&& outcome is ReadOn
            &&& after.parameters.contains_key(name) && after.parameters[name] == value
            &&& answered.parameters.contains_key(name) && answered.parameters[name] == value
            &&& other != name ==> after.parameters.contains_key(other)
                == state.parameters.contains_key(other) && answered.parameters.contains_key(other)
                == query.parameters.contains_key(other)
            &&& other != name && state.parameters.contains_key(other) ==> after.parameters[other]
                == state.parameters[other]
            &&& other != name && query.parameters.contains_key(other)
                ==> answered.parameters[other] == query.parameters[other]
            &&& after.backend_key == state.backend_key && after.authenticated
                == state.authenticated && after.scram == state.scram
            &&& answered.rows == query.rows && answered.refusal == query.refusal
        }),
{
}

/// A server's demand is met wherever it can be: with a password, an MD5 request is
/// answered with its own salt and a SCRAM offer is taken up, and the messages of
/// an exchange that is in progress are taken further; a way of authentication that
/// a node does not know is refused whatever it has.
pub proof fn law_a_demand_is_met_where_it_can_be(
    state: StartupView,
    password: bool,
    data: Seq<u8>,
)
    ensures
        state.step(true, MessageView::Md5 { salt: data }).1 == Ok::<DecisionView, HandshakeFailure>(
            DecisionView::SendMd5(data),
        ),
        state.step(true, MessageView::Sasl { scram: true }).1 == Ok::<
            DecisionView,
            HandshakeFailure,
        >(DecisionView::BeginScram),
        state.step(false, MessageView::Md5 { salt: data }).1 is Err,
        state.step(false, MessageView::Sasl { scram: true }).1 is Err,
        state.step(password, MessageView::Sasl { scram: false }).1 matches Err(
            HandshakeFailure::UnsupportedAuthentication(_),
        ),
        state.step(password, MessageView::Cleartext).1 matches Err(
            HandshakeFailure::UnsupportedAuthentication(_),
        ),
        state.step(password, MessageView::Gssapi).1 matches Err(
            HandshakeFailure::UnsupportedAuthentication(_),
        ),
        state.step(password, MessageView::ScmCredential).1 matches Err(
            HandshakeFailure::UnsupportedAuthentication(_),
        ),
        state.scram is InProgress ==> state.step(password, MessageView::SaslContinue(data)).1
            == Ok::<DecisionView, HandshakeFailure>(DecisionView::ContinueScram(data)),
        state.scram is InProgress ==> state.step(password, MessageView::SaslFinal(data)).1 == Ok::<
            DecisionView,
            HandshakeFailure,
        >(DecisionView::FinishScram(data)),
        !(state.scram is InProgress) ==> state.step(password, MessageView::SaslContinue(data)).1 is Err
            && state.step(password, MessageView::SaslFinal(data)).1 is Err,
        state.step(password, MessageView::Md5 { salt: data }).0 == state,
{
}

/// A connection opens as soon as an authenticated node that was told its backend
/// hears that the server is idle, and a refusal of the server ends the handshake
/// with the server's own words.
pub proof fn law_a_connection_opens_where_everything_was_said(
    state: StartupView,
    password: bool,
    key: CancelKey,
    code: Seq<char>,
    message: Seq<char>,
)
    ensures
        state.authenticated && state.backend_key == Some(key) ==> state.step(
            password,
            MessageView::ReadyForQuery { status: 0x49 },
        ).1 == Ok::<DecisionView, HandshakeFailure>(DecisionView::Opened(key)),
        !state.authenticated || state.backend_key is None ==> state.step(
            password,
            MessageView::ReadyForQuery { status: 0x49 },
        ).1 is Err,
        state.step(password, MessageView::KeyData(key)).0.backend_key == Some(key),
        state.step(password, MessageView::KeyData(key)).0.parameters == state.parameters,
        !(state.scram is InProgress) ==> state.step(
            password,
            MessageView::AuthenticationOk,
        ).0.authenticated && state.step(password, MessageView::AuthenticationOk).1 is Ok,
        state.step(password, MessageView::Error { code, message }).1 == Err::<
            DecisionView,
            HandshakeFailure,
        >(HandshakeFailure::Server { code, message }),
        state.step(password, MessageView::Notice) == (
            state,
            Ok::<DecisionView, HandshakeFailure>(DecisionView::ReadOn),
        ),
{
}

/// What is taken in of some messages of an answer.
pub open spec fn query_run(from: QueryView, messages: Seq<MessageView>) -> QueryView
    decreases messages.len(),
{
    if messages.len() == 0 {
        from
    } else {
        query_run(from, messages.drop_last()).step(messages.last()).0
    }
}

/// The rows among some messages, in their order.
pub open spec fn rows_among(messages: Seq<MessageView>) -> RowsView {
    messages.filter(|m: MessageView| m is DataRow).map_values(|m: MessageView| m->DataRow_0)
}

/// An answer is the rows that the server sent, all of them and in their order,
/// unless it refused the query: then it is the refusal, the last one, and no rows.
#[verifier::spinoff_prover]
#[verifier::rlimit(50)]
pub proof fn law_an_answer_is_every_row_or_the_refusal(messages: Seq<MessageView>, status: u8)
    requires
        forall|k: int|
            0 <= k < messages.len() ==> (#[trigger] messages[k]) is DataRow || messages[k] is Error
                || messages[k] is RowDescription || messages[k] is CommandComplete
                || messages[k] is EmptyQuery || messages[k] is Notice
                || messages[k] is ParameterStatus,
    ensures
        ({
            let begin = QueryView { rows: Seq::empty(), refusal: None, parameters: Map::empty() };
            let end = query_run(begin, messages);
            let outcome = end.step(MessageView::ReadyForQuery { status }).1;
            &&& end.rows == rows_among(messages)
            &&& (forall|k: int| 0 <= k < messages.len() ==> !((#[trigger] messages[k]) is Error))
                ==> outcome == QueryOutcome::Answered(rows_among(messages))
            &&& forall|k: int|
                0 <= k < messages.len() && (#[trigger] messages[k]) is Error && (forall|j: int|
                    k < j < messages.len() ==> !((#[trigger] messages[j]) is Error)) ==> outcome
                    == QueryOutcome::Failed(
                    QueryFailure::Server {
                        code: messages[k]->Error_code,
                        message: messages[k]->Error_message,
                    },
                )
        }),
    decreases messages.len(),
{
    let begin = QueryView { rows: Seq::empty(), refusal: None, parameters: Map::empty() };
    let is_row = |m: MessageView| m is DataRow;
    let row_in = |m: MessageView| m->DataRow_0;
    reveal(Seq::filter);
    if messages.len() == 0 {
        assert(rows_among(messages) =~= Seq::empty());
    } else {
        let before = messages.drop_last();
        let last = messages.last();
        assert forall|k: int| 0 <= k < before.len() implies (#[trigger] before[k]) is DataRow
            || before[k] is Error || before[k] is RowDescription || before[k] is CommandComplete
            || before[k] is EmptyQuery || before[k] is Notice || before[k] is ParameterStatus by {
            assert(before[k] == messages[k]);
        }
        law_an_answer_is_every_row_or_the_refusal(before, status);
        assert(messages[messages.len() - 1] == last);
        let kept = before.filter(is_row);
        if last is DataRow {
            assert(messages.filter(is_row) == kept.push(last));
            assert(rows_among(messages) =~= rows_among(before).push(last->DataRow_0));
        } else {
            assert(messages.filter(is_row) == kept);
        }
        let end = query_run(begin, messages);
        assert(end == query_run(begin, before).step(last).0);
        let outcome = end.step(MessageView::ReadyForQuery { status }).1;
        if forall|k: int| 0 <= k < messages.len() ==> !((#[trigger] messages[k]) is Error) {
            assert forall|k: int| 0 <= k < before.len() implies !((#[trigger] before[k]) is Error) by {
                assert(before[k] == messages[k]);
            }
        }
        assert forall|k: int|
            0 <= k < messages.len() && (#[trigger] messages[k]) is Error && (forall|j: int|
                k < j < messages.len() ==> !((#[trigger] messages[j]) is Error)) implies outcome
            == QueryOutcome::Failed(
            QueryFailure::Server {
                code: messages[k]->Error_code,
                message: messages[k]->Error_message,
            },
        ) by {
            if k < before.len() {
                assert(before[k] == messages[k]);
                assert(!(messages[messages.len() - 1] is Error));
                assert forall|j: int| k < j < before.len() implies !((
                #[trigger] before[j]) is Error) by {
                    assert(before[j] == messages[j]);
                }
            }
        }
    }
}

/// A node introduces itself to a server with the user, the database and the name
/// that it is given, each under its own parameter.
pub proof fn law_a_node_introduces_itself_with_what_it_is_given(
    user: Seq<char>,
    database: Seq<char>,
    name: Seq<char>,
)
    requires
        user.len() > 0,
        database.len() > 0,
        name.len() > 0,
    ensures
        parameter(startup_parameters(user, database, name), "user"@) == Some(user),
        parameter(startup_parameters(user, database, name), "database"@) == Some(database),
        parameter(startup_parameters(user, database, name), "application_name"@) == Some(name),
        startup_parameters(user, database, name).len() == 3,
{
    reveal_strlit("user");
    reveal_strlit("database");
    reveal_strlit("application_name");
    assert("user"@.len() == 4 && "database"@.len() == 8 && "application_name"@.len() == 16);
    let all = startup_parameters(user, database, name);
    let (one, two, three) = (all[0], all[1], all[2]);
    law_a_parameter_has_the_value_named_first(Seq::empty(), "user"@, user, seq![two, three]);
    assert(Seq::<(Seq<char>, Seq<char>)>::empty() + seq![one] + seq![two, three] =~= all);
    law_a_parameter_has_the_value_named_first(seq![one], "database"@, database, seq![three]);
    assert(seq![one] + seq![two] + seq![three] =~= all);
    law_a_parameter_has_the_value_named_first(
        seq![one, two],
        "application_name"@,
        name,
        Seq::empty(),
    );
    assert(seq![one, two] + seq![three] + Seq::<(Seq<char>, Seq<char>)>::empty() =~= all);
}

} // verus!
