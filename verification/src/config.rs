//! The configuration of a node and of the cluster: what is accepted, and what
//! it comes to.
use vstd::prelude::*;
use vstd::string::StringExecFns;
use vstd::utf8::encode_utf8;

use crate::admission::ClientLimit;
use crate::allocation::InstanceId;
use crate::auth::{AuthMethod, ClientCredentials, MethodView};
use crate::grant::{law_a_weight_is_its_value, TenantPolicy, Weight};
use crate::order::same_text;
use crate::ordmap::{lemma_listing, listing, lists, OrdMap};
use crate::policy::{instance_names, Policies, PoliciesView, RuleView, TenantRule};
use crate::safety::lemma_listable;
use crate::scram::{
    verifier_failure_text, verifier_in, ScramVerifier, VerifierFailure,
};
use crate::server::ServerCredentials;
use crate::tenant::TenantId;
use crate::text::{
    blank, chars_of, decimal, decimal_text, find_last, is_blank,
    law_a_number_reads_as_it_was_written, lemma_rfind_char, lemma_rfind_none, number, parse_number,
    part, rfind,
};
use crate::time::Duration;
use crate::tls::{
    acceptor_made, certificates_in, client_tls_of, private_key_in, roots_fault, roots_in,
    server_tls_of, tls_text, unusable, ClientTls, ServerTls, ServerTlsView, SslMode, TlsError,
    TlsFailure,
};

verus! {

/// Why a configuration is not accepted.
#[derive(Debug, PartialEq, Eq)]
pub enum ConfigError {
    Syntax(String),
    Invalid { path: String, message: String },
}

/// Where a configuration is wrong, and what is wrong there.
#[verifier::ext_equal]
pub struct Fault {
    pub path: Seq<char>,
    pub message: Seq<char>,
}

/// Why a configuration is not accepted, in words.
pub open spec fn config_text(error: ConfigError) -> Seq<char> {
    match error {
        ConfigError::Syntax(source) => "config syntax error: "@ + source@,
        ConfigError::Invalid { path, message } => {
            "invalid config at `"@ + path@ + "`: "@ + message@
        },
    }
}

impl ConfigError {
    /// Whether the error tells of a fault.
    pub open spec fn tells(self, fault: Fault) -> bool {
        self matches ConfigError::Invalid { path, message } && path@ == fault.path && message@
            == fault.message
    }

    fn invalid(path: String, message: String) -> (error: Self)
        ensures
            error.tells(Fault { path: path@, message: message@ }),
    {
        ConfigError::Invalid { path, message }
    }

    /// The error in words.
    pub fn to_string(&self) -> (text: String)
        ensures
            text@ == config_text(*self),
    {
        match self {
            ConfigError::Syntax(source) => {
                let mut text = "config syntax error: ".to_owned();
                text.append(source.as_str());
                text
            },
            ConfigError::Invalid { path, message } => {
                let mut text = "invalid config at `".to_owned();
                text.append(path.as_str());
                text.append("`: ");
                text.append(message.as_str());
                text
            },
        }
    }
}

/// Whether a check came out as it should: it fails with the fault, if there is
/// one.
pub open spec fn checked(result: Result<(), ConfigError>, fault: Option<Fault>) -> bool {
    match fault {
        Some(fault) => result matches Err(error) && error.tells(fault),
        None => result is Ok,
    }
}

/// What a node is.
#[derive(Debug, Clone, Copy, PartialEq, Eq, Structural)]
pub enum Role {
    Proxy,
    Coordinator,
}

/// The files that a node terminates client TLS with.
#[derive(Debug, PartialEq, Eq)]
pub struct TlsSection {
    pub cert: String,
    pub key: String,
}

/// The modes in which a node encrypts its connections to a server, as libpq's
/// `sslmode` has them.
#[derive(Debug, Clone, Copy, PartialEq, Eq, Structural)]
pub enum SslModeSection {
    Disable,
    Prefer,
    Require,
    VerifyCa,
    VerifyFull,
}

impl SslModeSection {
    /// The mode.
    pub open spec fn mode_of(self) -> SslMode {
        match self {
            SslModeSection::Disable => SslMode::Disable,
            SslModeSection::Prefer => SslMode::Prefer,
            SslModeSection::Require => SslMode::Require,
            SslModeSection::VerifyCa => SslMode::VerifyCa,
            SslModeSection::VerifyFull => SslMode::VerifyFull,
        }
    }

    /// The mode.
    pub fn mode(self) -> (mode: SslMode)
        ensures
            mode == self.mode_of(),
    {
        match self {
            SslModeSection::Disable => SslMode::Disable,
            SslModeSection::Prefer => SslMode::Prefer,
            SslModeSection::Require => SslMode::Require,
            SslModeSection::VerifyCa => SslMode::VerifyCa,
            SslModeSection::VerifyFull => SslMode::VerifyFull,
        }
    }
}

/// How far this node goes to encrypt the connections it opens to an instance.
/// The modes are libpq's `sslmode`, and `root_cert` is what `verify-ca` and
/// `verify-full` check the certificate against.
#[derive(Debug, PartialEq, Eq)]
pub struct ServerTlsSection {
    pub mode: SslModeSection,
    pub root_cert: Option<String>,
}

/// What a node is and where it listens.
#[derive(Debug, PartialEq, Eq)]
pub struct NodeSection {
    pub role: Role,
    pub listen: String,
    pub metrics_listen: Option<String>,
    pub coordinator: String,
    pub max_client_connections: u32,
    pub tls: Option<TlsSection>,
    pub server_tls: Option<ServerTlsSection>,
}

/// How a user of this node proves who it is.
#[derive(Debug, PartialEq, Eq)]
pub struct ClientSection {
    pub verifier: String,
}

impl View for ClientSection {
    type V = Seq<char>;

    open spec fn view(&self) -> Seq<char> {
        self.verifier@
    }
}

/// The password of a user on the instances. It cannot be printed.
#[derive(PartialEq, Eq)]
pub struct ServerSection {
    pub password: String,
}

impl ServerSection {
    /// The section as it may be printed: without the password.
    pub fn describe(&self) -> (text: String)
        ensures
            text@ == "ServerSection { password: \"<redacted>\" }"@,
    {
        "ServerSection { password: \"<redacted>\" }".to_owned()
    }
}

impl View for ServerSection {
    type V = Seq<char>;

    open spec fn view(&self) -> Seq<char> {
        self.password@
    }
}

/// The login this node uses to read `max_connections` and to count the foreign
/// connections of each instance. Counting other users' backends needs the
/// `pg_monitor` role or a superuser.
#[derive(Debug, PartialEq, Eq)]
pub struct MonitorSection {
    pub user: String,
    pub database: String,
}

/// The database that the monitor logs in to, where none is named.
pub fn default_monitor_database() -> (database: String)
    ensures
        database@ == "postgres"@,
{
    "postgres".to_owned()
}

/// The weight of what names none.
pub fn default_weight() -> (weight: u32)
    ensures
        weight == 1,
{
    1
}

/// The configuration of one node. It cannot be printed, since it holds
/// passwords.
pub struct NodeConfig {
    pub node: NodeSection,
    pub client: OrdMap<String, ClientSection>,
    pub server: OrdMap<String, ServerSection>,
    pub monitor: Option<MonitorSection>,
}

/// Whether every verifier is short enough to be read.
pub open spec fn verifiers_readable(clients: Map<Seq<char>, Seq<char>>) -> bool {
    forall|user: Seq<char>| #[trigger]
        clients.contains_key(user) ==> encode_utf8(clients[user]).len() <= usize::MAX / 4
}

/// What is wrong with the verifier of a user.
pub open spec fn verifier_fault(user: Seq<char>, failure: VerifierFailure) -> Fault {
    Fault {
        path: "client.\""@ + user + "\".verifier"@,
        message: verifier_failure_text(failure),
    }
}

/// What is wrong with the first verifier that cannot be read.
pub open spec fn first_verifier_fault(
    clients: Map<Seq<char>, Seq<char>>,
    users: Seq<Seq<char>>,
) -> Option<Fault>
    decreases users.len(),
{
    if users.len() == 0 {
        None
    } else {
        match verifier_in(clients[users[0]]) {
            Err(failure) => Some(verifier_fault(users[0], failure)),
            Ok(_) => first_verifier_fault(clients, users.drop_first()),
        }
    }
}

/// What is wrong with the verifiers, if anything: of two, that of the user that
/// comes first is told.
pub open spec fn client_fault(clients: Map<Seq<char>, Seq<char>>) -> Option<Fault> {
    first_verifier_fault(clients, listing::<String>(clients.dom()))
}

/// How each user proves who it is.
pub open spec fn client_methods(clients: Map<Seq<char>, Seq<char>>) -> Map<Seq<char>, MethodView> {
    Map::new(
        |user: Seq<char>| clients.contains_key(user),
        |user: Seq<char>| MethodView::ScramSha256(verifier_in(clients[user])->Ok_0),
    )
}

/// Whether a section is named by nothing but white space.
pub open spec fn has_blank_name(sections: Map<Seq<char>, Seq<char>>) -> bool {
    exists|name: Seq<char>| #[trigger] sections.contains_key(name) && blank(name)
}

/// What is wrong with the configuration of a node, if anything.
pub open spec fn node_fault(config: NodeConfig) -> Option<Fault> {
    if config.node.max_client_connections == 0 {
        Some(
            Fault { path: "node.max_client_connections"@, message: "must be at least 1"@ },
        )
    } else if blank(config.node.coordinator@) {
        Some(
            Fault {
                path: "node.coordinator"@,
                message: "must name one coordinator entry point"@,
            },
        )
    } else if has_blank_name(config.client@) {
        Some(
            Fault {
                path: "client"@,
                message: "a client section must name the user it holds a verifier for"@,
            },
        )
    } else if client_fault(config.client@) is Some {
        client_fault(config.client@)
    } else if has_blank_name(config.server@) {
        Some(
            Fault {
                path: "server"@,
                message: "a server section must name the user it holds a password for"@,
            },
        )
    } else if config.monitor matches Some(monitor) && blank(monitor.user@) {
        Some(Fault { path: "monitor.user"@, message: "must not be empty"@ })
    } else {
        None
    }
}

fn names_nobody<V: View<V = Seq<char>>>(sections: &OrdMap<String, V>) -> (b: bool)
    ensures
        b == has_blank_name(sections@),
{
    proof {
        use_type_invariant(sections);
        sections.lemma_lists();
    }
    let n: usize = sections.len();
    let mut i: usize = 0;
    while i < n
        invariant
            i <= n,
            n == sections.keys().len(),
            lists::<String, Seq<char>>(sections.keys(), sections@),
            forall|j: int| 0 <= j < i ==> !blank(#[trigger] sections.keys()[j]),
        decreases n - i,
    {
        if is_blank(sections.key_at(i).as_str()) {
            assert(sections@.contains_key(sections.keys()[i as int]));
            return true;
        }
        i += 1;
    }
    proof {
        if has_blank_name(sections@) {
            let name = choose|name: Seq<char>| #[trigger]
                sections@.contains_key(name) && blank(name);
            assert(sections.keys().contains(name));
        }
    }
    false
}

impl NodeConfig {
    /// The users this node authenticates, read from the `[client."…"]` sections.
    /// Verifiers are what PostgreSQL stores in `pg_authid.rolpassword`, so that
    /// no plain password is written into a file this node reads.
    pub fn client_credentials(&self) -> (credentials: Result<ClientCredentials, ConfigError>)
        requires
            verifiers_readable(self.client@),
        ensures
            match client_fault(self.client@) {
                Some(fault) => credentials matches Err(error) && error.tells(fault),
                None => credentials matches Ok(c) && c@ == client_methods(self.client@),
            },
    {
        let mut credentials = ClientCredentials::new();
        let ghost clients = self.client@;
        let ghost users = self.client.keys();
        proof {
            use_type_invariant(&self.client);
            self.client.lemma_lists();
            lemma_listing::<String>(users, clients.dom());
            assert(users.skip(0) =~= users);
            assert(credentials@ =~= client_methods(clients).restrict(users.take(0).to_set()));
        }
        let n: usize = self.client.len();
        let mut i: usize = 0;
        while i < n
            invariant
                i <= n,
                n == users.len(),
                users == self.client.keys(),
                clients == self.client@,
                lists::<String, Seq<char>>(users, clients),
                verifiers_readable(clients),
                client_fault(clients) == first_verifier_fault(clients, users.skip(i as int)),
                credentials@ == client_methods(clients).restrict(users.take(i as int).to_set()),
            decreases n - i,
        {
            let user = self.client.key_at(i);
            let client = self.client.value_at(i);
            assert(clients.contains_key(users[i as int]));
            assert(users.skip(i as int)[0] == users[i as int]);
            assert(users.skip(i as int).drop_first() =~= users.skip(i + 1));
            let read = ScramVerifier::from_str(client.verifier.as_str());
            let verifier = match read {
                Ok(verifier) => verifier,
                Err(error) => {
                    let mut path = "client.\"".to_owned();
                    path.append(user.as_str());
                    path.append("\".verifier");
                    return Err(ConfigError::invalid(path, error.to_string()));
                },
            };
            assert(verifier_in(clients[users[i as int]]) == Ok::<_, VerifierFailure>(verifier@));
            credentials.insert(user.clone(), AuthMethod::ScramSha256(verifier));
            proof {
                assert(users.take(i + 1) =~= users.take(i as int).push(users[i as int]));
                users.take(i as int).lemma_push_to_set_commute(users[i as int]);
                assert(credentials@ =~= client_methods(clients).restrict(
                    users.take(i + 1).to_set(),
                ));
            }
            i += 1;
        }
        proof {
            assert(users.take(i as int) =~= users);
            assert(users.skip(i as int).len() == 0);
            assert(credentials@ =~= client_methods(clients));
        }
        Ok(credentials)
    }

    /// Whether every verifier is short enough to be read.
    pub fn verifiers_fit(&self) -> (b: bool)
        ensures
            b == verifiers_readable(self.client@),
    {
        let ghost clients = self.client@;
        let ghost users = self.client.keys();
        proof {
            use_type_invariant(&self.client);
            self.client.lemma_lists();
        }
        let n: usize = self.client.len();
        let mut i: usize = 0;
        while i < n
            invariant
                i <= n,
                n == users.len(),
                users == self.client.keys(),
                clients == self.client@,
                lists::<String, Seq<char>>(users, clients),
                forall|j: int|
                    0 <= j < i ==> encode_utf8(clients[#[trigger] users[j]]).len() <= usize::MAX
                        / 4,
            decreases n - i,
        {
            let client = self.client.value_at(i);
            assert(clients.contains_key(users[i as int]));
            if client.verifier.as_str().as_bytes().len() > usize::MAX / 4 {
                return false;
            }
            i += 1;
        }
        proof {
            assert forall|user: Seq<char>| #[trigger] clients.contains_key(user) implies encode_utf8(
                clients[user],
            ).len() <= usize::MAX / 4 by {
                assert(users.contains(user));
                let j = choose|j: int| 0 <= j < users.len() && users[j] == user;
                assert(encode_utf8(clients[users[j]]).len() <= usize::MAX / 4);
            }
        }
        true
    }

    /// Checks the configuration.
    pub fn validate(&self) -> (result: Result<(), ConfigError>)
        requires
            verifiers_readable(self.client@),
        ensures
            checked(result, node_fault(*self)),
    {
        if self.node.max_client_connections == 0 {
            return Err(
                ConfigError::invalid(
                    "node.max_client_connections".to_owned(),
                    "must be at least 1".to_owned(),
                ),
            );
        }
        if is_blank(self.node.coordinator.as_str()) {
            return Err(
                ConfigError::invalid(
                    "node.coordinator".to_owned(),
                    "must name one coordinator entry point".to_owned(),
                ),
            );
        }
        if names_nobody(&self.client) {
            return Err(
                ConfigError::invalid(
                    "client".to_owned(),
                    "a client section must name the user it holds a verifier for".to_owned(),
                ),
            );
        }
        match self.client_credentials() {
            Ok(_) => {},
            Err(error) => return Err(error),
        }
        if names_nobody(&self.server) {
            return Err(
                ConfigError::invalid(
                    "server".to_owned(),
                    "a server section must name the user it holds a password for".to_owned(),
                ),
            );
        }
        if let Some(monitor) = &self.monitor {
            if is_blank(monitor.user.as_str()) {
                return Err(
                    ConfigError::invalid(
                        "monitor.user".to_owned(),
                        "must not be empty".to_owned(),
                    ),
                );
            }
        }
        Ok(())
    }
}

/// The password of a user on the instances, if it has one.
pub open spec fn password_of(
    passwords: Map<Seq<char>, Seq<char>>,
    user: Seq<char>,
) -> Option<Seq<char>> {
    if passwords.contains_key(user) {
        Some(passwords[user])
    } else {
        None
    }
}

/// Whether somebody logs in as that user, to that database, with that password.
pub open spec fn logs_in(
    credentials: ServerCredentials,
    user: Seq<char>,
    database: Seq<char>,
    password: Option<Seq<char>>,
) -> bool {
    &&& credentials.user@ == user
    &&& credentials.database@ == database
    &&& password == match credentials.password {
        Some(word) => Some(word@),
        None => None,
    }
}

impl NodeConfig {
    fn password(&self, user: &str) -> (password: Option<String>)
        ensures
            password_of(self.server@, user@) == match password {
                Some(word) => Some(word@),
                None => None,
            },
    {
        match self.server.get(&user.to_owned()) {
            Some(server) => Some(server.password.clone()),
            None => None,
        }
    }

    /// A server connection for a tenant logs in as the tenant's user to the
    /// tenant's database, with the password of that user's `[server."…"]`
    /// section, or none when the user has no section.
    pub fn server_credentials(&self, tenant: &TenantId) -> (credentials: ServerCredentials)
        ensures
            logs_in(
                credentials,
                tenant@.0,
                tenant@.1,
                password_of(self.server@, tenant@.0),
            ),
    {
        ServerCredentials {
            user: tenant.user().to_owned(),
            database: tenant.database().to_owned(),
            password: self.password(tenant.user()),
        }
    }

    /// How the monitor logs in, where there is one.
    pub fn monitor_credentials(&self) -> (credentials: Option<ServerCredentials>)
        ensures
            match self.monitor {
                Some(monitor) => credentials matches Some(c) && logs_in(
                    c,
                    monitor.user@,
                    monitor.database@,
                    password_of(self.server@, monitor.user@),
                ),
                None => credentials is None,
            },
    {
        match &self.monitor {
            Some(monitor) => Some(
                ServerCredentials {
                    user: monitor.user.clone(),
                    database: monitor.database.clone(),
                    password: self.password(monitor.user.as_str()),
                },
            ),
            None => None,
        }
    }

    /// How many client connections this node accepts at once.
    pub fn client_limit(&self) -> (limit: ClientLimit)
        ensures
            limit.wf(),
            limit.limit() == self.node.max_client_connections,
            limit.count() == 0,
    {
        ClientLimit::new(self.node.max_client_connections as usize)
    }
}

/// What is wrong with a file that cannot be read.
pub open spec fn unreadable_fault(key: Seq<char>, file: Seq<char>, complaint: Seq<char>) -> Fault {
    Fault { path: key, message: "cannot read `"@ + file + "`: "@ + complaint }
}

/// The error for a file that cannot be read.
pub fn unreadable(key: &str, file: &str, complaint: &str) -> (error: ConfigError)
    ensures
        error.tells(unreadable_fault(key@, file@, complaint@)),
{
    let mut message = "cannot read `".to_owned();
    message.append(file);
    message.append("`: ");
    message.append(complaint);
    ConfigError::invalid(key.to_owned(), message)
}

/// Where and what is wrong with what clients are encrypted with.
pub open spec fn client_tls_fault(failure: TlsFailure) -> Fault {
    Fault {
        path: match failure {
            TlsFailure::Certificate(_) => "node.tls.cert"@,
            TlsFailure::NoCertificate => "node.tls.cert"@,
            TlsFailure::PrivateKey(_) => "node.tls.key"@,
            _ => "node.tls"@,
        },
        message: tls_text(failure),
    }
}

fn client_tls_error(source: TlsError) -> (error: ConfigError)
    ensures
        error.tells(client_tls_fault(source@)),
{
    let path = match source {
        TlsError::Certificate(_) => "node.tls.cert",
        TlsError::NoCertificate => "node.tls.cert",
        TlsError::PrivateKey(_) => "node.tls.key",
        _ => "node.tls",
    };
    ConfigError::invalid(path.to_owned(), source.to_string())
}

/// Where and what is wrong with what servers are encrypted with.
pub open spec fn server_tls_fault(failure: TlsFailure) -> Fault {
    Fault {
        path: match failure {
            TlsFailure::RootCertificate(_) => "node.server_tls.root_cert"@,
            TlsFailure::NoRootCertificate => "node.server_tls.root_cert"@,
            TlsFailure::Verifier(_) => "node.server_tls.root_cert"@,
            _ => "node.server_tls"@,
        },
        message: tls_text(failure),
    }
}

fn server_tls_error(source: TlsError) -> (error: ConfigError)
    ensures
        error.tells(server_tls_fault(source@)),
{
    let path = match source {
        TlsError::RootCertificate(_) => "node.server_tls.root_cert",
        TlsError::NoRootCertificate => "node.server_tls.root_cert",
        TlsError::Verifier(_) => "node.server_tls.root_cert",
        _ => "node.server_tls",
    };
    ConfigError::invalid(path.to_owned(), source.to_string())
}

/// What is wrong with how a node is to encrypt its connections to servers, if
/// anything: a root certificate has to be named where it is read, and only
/// there.
pub open spec fn root_fault(section: ServerTlsSection) -> Option<Fault> {
    let mode = section.mode.mode_of();
    if section.root_cert is Some && !mode.verifies() {
        Some(
            Fault {
                path: "node.server_tls.root_cert"@,
                message: "`"@ + mode.text()
                    + "` never reads a root certificate; use verify-ca or verify-full"@,
            },
        )
    } else if section.root_cert is None && mode.verifies() {
        Some(
            Fault {
                path: "node.server_tls.root_cert"@,
                message: "`"@ + mode.text()
                    + "` verifies the certificate and needs a root certificate"@,
            },
        )
    } else {
        None
    }
}

impl NodeConfig {
    /// What this node terminates client TLS with, out of the two files that
    /// `[node.tls]` names, or none when it is absent and clients are told this
    /// node does not encrypt.
    pub fn client_tls(&self, certificates: &[u8], key: &[u8]) -> (tls: Result<
        Option<ClientTls>,
        ConfigError,
    >)
        ensures
            self.node.tls is None ==> (tls matches Ok(none) && none is None),
            self.node.tls is Some ==> match client_tls_of(
                certificates_in(certificates@),
                private_key_in(key@),
                unusable(certificates_in(certificates@)->Ok_0, private_key_in(key@)->Ok_0),
            ) {
                Ok(chain) => tls matches Ok(Some(t)) && t@ == chain && t.accepts_with()
                    == acceptor_made(chain, private_key_in(key@)->Ok_0),
                Err(failure) => tls matches Err(error) && error.tells(client_tls_fault(failure)),
            },
    {
        if self.node.tls.is_none() {
            return Ok(None);
        }
        match ClientTls::from_pem(certificates, key) {
            Ok(tls) => Ok(Some(tls)),
            Err(source) => Err(client_tls_error(source)),
        }
    }

    /// The file with the root certificates that has to be read, if any.
    pub fn server_root(&self) -> (file: Result<Option<&str>, ConfigError>)
        ensures
            match self.node.server_tls {
                None => file matches Ok(none) && none is None,
                Some(section) => match root_fault(section) {
                    Some(fault) => file matches Err(error) && error.tells(fault),
                    None => match section.root_cert {
                        Some(root) => file matches Ok(Some(f)) && f@ == root@,
                        None => file matches Ok(none) && none is None,
                    },
                },
            },
    {
        let section = match &self.node.server_tls {
            Some(section) => section,
            None => return Ok(None),
        };
        let mode = section.mode.mode();
        match &section.root_cert {
            Some(root) => if mode.verifies_certificate() {
                Ok(Some(root.as_str()))
            } else {
                let mut message = "`".to_owned();
                message.append(mode.to_string().as_str());
                message.append("` never reads a root certificate; use verify-ca or verify-full");
                Err(ConfigError::invalid("node.server_tls.root_cert".to_owned(), message))
            },
            None => if mode.verifies_certificate() {
                let mut message = "`".to_owned();
                message.append(mode.to_string().as_str());
                message.append("` verifies the certificate and needs a root certificate");
                Err(ConfigError::invalid("node.server_tls.root_cert".to_owned(), message))
            } else {
                Ok(None)
            },
        }
    }

    /// How this node encrypts the connections it opens to an instance, by what
    /// was read of the root certificates and what is wrong with them, or what is
    /// wrong.
    pub open spec fn server_tls_with(
        &self,
        roots: Option<Result<Seq<Seq<u8>>, Seq<char>>>,
        unusable: Option<Seq<char>>,
    ) -> Result<ServerTlsView, Fault> {
        let (mode, fault) = match self.node.server_tls {
            Some(section) => (section.mode.mode_of(), root_fault(section)),
            None => (SslMode::Prefer, None),
        };
        match fault {
            Some(fault) => Err(fault),
            None => match server_tls_of(mode, roots, unusable) {
                Ok(tls) => Ok(tls),
                Err(failure) => Err(server_tls_fault(failure)),
            },
        }
    }

    /// How this node encrypts the connections it opens to an instance, with
    /// what the file of [`NodeConfig::server_root`] holds. Without a
    /// `[node.server_tls]` section it asks for encryption and carries on in the
    /// clear when the instance does not offer it, as libpq does.
    pub fn server_tls(&self, root: Option<&[u8]>) -> (tls: Result<ServerTls, ConfigError>)
        ensures
            match self.server_tls_with(roots_in(root), roots_fault(root)) {
                Ok(view) => tls matches Ok(t) && t@ == view,
                Err(fault) => tls matches Err(error) && error.tells(fault),
            },
    {
        match self.server_root() {
            Ok(_) => {},
            Err(error) => return Err(error),
        }
        let mode = match &self.node.server_tls {
            Some(section) => section.mode.mode(),
            None => SslMode::default(),
        };
        match ServerTls::new(mode, root) {
            Ok(tls) => Ok(tls),
            Err(source) => Err(server_tls_error(source)),
        }
    }
}

/// When a client's server connection goes back to its pool.
#[derive(Debug, Clone, Copy, PartialEq, Eq, Structural)]
pub enum PoolMode {
    Session,
    Transaction,
}

impl PoolMode {
    /// The mode as it is written.
    pub fn as_str(&self) -> (text: &'static str)
        ensures
            text@ == match self {
                PoolMode::Session => "session"@,
                PoolMode::Transaction => "transaction"@,
            },
    {
        match self {
            PoolMode::Session => "session",
            PoolMode::Transaction => "transaction",
        }
    }
}

/// What holds for the whole cluster.
#[derive(Debug, Clone, Copy, PartialEq, Eq, Structural)]
pub struct ClusterSection {
    pub pool_mode: PoolMode,
    pub grant_ttl: Duration,
    pub arbitration_interval: Duration,
}

/// An instance of the cluster.
#[derive(Debug, PartialEq, Eq)]
pub struct InstanceSection {
    pub name: String,
    pub weight: u32,
}

/// A tenant rule: the instances, and the share on each of them.
#[derive(Debug, PartialEq, Eq)]
pub struct TenantSection {
    pub instances: Vec<String>,
    pub min: u32,
    pub max: Option<u32>,
    pub weight: u32,
}

/// A tenant rule, with names as sequences.
#[verifier::ext_equal]
pub struct TenantSectionView {
    pub instances: Seq<Seq<char>>,
    pub min: u32,
    pub max: Option<u32>,
    pub weight: u32,
}

/// The texts of a list.
pub open spec fn texts(list: Seq<String>) -> Seq<Seq<char>> {
    Seq::new(list.len(), |k: int| list[k]@)
}

impl View for TenantSection {
    type V = TenantSectionView;

    open spec fn view(&self) -> TenantSectionView {
        TenantSectionView {
            instances: texts(self.instances@),
            min: self.min,
            max: self.max,
            weight: self.weight,
        }
    }
}

/// The configuration of the cluster.
#[derive(Debug, PartialEq, Eq)]
pub struct ClusterConfig {
    pub cluster: ClusterSection,
    pub instance: Vec<InstanceSection>,
    pub tenant: OrdMap<String, TenantSection>,
}

/// Whether a name ends in a colon and a port number.
pub open spec fn names_port(name: Seq<char>) -> bool {
    let colon = rfind(name, seq![':']);
    &&& colon >= 0
    &&& number(name.subrange(colon + 1, name.len() as int)) matches Some(port) && port <= 65535
}

/// The address of an instance of that name: on port 5432 unless it names
/// another one.
pub open spec fn address_of(name: Seq<char>) -> Seq<char> {
    if names_port(name) {
        name
    } else {
        name + ":5432"@
    }
}

impl InstanceSection {
    pub fn id(&self) -> (id: InstanceId)
        ensures
            id@ == self.name@,
    {
        InstanceId::new(self.name.clone())
    }

    /// The name is resolved as the address to connect to, on port 5432 unless
    /// it names another one.
    pub fn address(&self) -> (address: String)
        ensures
            address@ == address_of(self.name@),
    {
        let chars = chars_of(self.name.as_str());
        let colon: Vec<char> = vec![':'];
        assert(colon@ =~= seq![':']);
        let end: usize = chars.len();
        if let Some(at) = find_last(&chars, &colon) {
            if let Some(port) = parse_number(&part(&chars, at + 1, end)) {
                if port <= 65535 {
                    return self.name.clone();
                }
            }
        }
        let mut address = self.name.clone();
        address.append(":5432");
        address
    }
}

/// What is wrong with the section of the cluster, if anything.
pub open spec fn section_fault(section: ClusterSection) -> Option<Fault> {
    if section.grant_ttl@ == 0 {
        Some(Fault { path: "cluster.grant_ttl"@, message: "must be longer than 0"@ })
    } else if section.arbitration_interval@ == 0 {
        Some(Fault { path: "cluster.arbitration_interval"@, message: "must be longer than 0"@ })
    } else if section.arbitration_interval@ >= section.grant_ttl@ {
        Some(
            Fault {
                path: "cluster.arbitration_interval"@,
                message: "must be shorter than cluster.grant_ttl ("@
                    + section.grant_ttl.shown_text() + ")"@,
            },
        )
    } else {
        None
    }
}

/// The names of the instances.
pub open spec fn declared(instances: Seq<InstanceSection>) -> Seq<Seq<char>> {
    Seq::new(instances.len(), |k: int| instances[k].name@)
}

/// Where an instance stands in the configuration.
pub open spec fn instance_path(index: int, key: Seq<char>) -> Seq<char> {
    "instance["@ + decimal(index as nat) + "]."@ + key
}

/// What is wrong with an instance, if anything: with its name, its weight, or
/// that one before it has the same name.
pub open spec fn instance_fault(instances: Seq<InstanceSection>, index: int) -> Option<Fault> {
    let instance = instances[index];
    if blank(instance.name@) {
        Some(Fault { path: instance_path(index, "name"@), message: "must not be empty"@ })
    } else if instance.weight == 0 {
        Some(Fault { path: instance_path(index, "weight"@), message: "must be at least 1"@ })
    } else if declared(instances).take(index).contains(instance.name@) {
        Some(
            Fault {
                path: instance_path(index, "name"@),
                message: "instance `"@ + instance.name@ + "` is declared more than once"@,
            },
        )
    } else {
        None
    }
}

/// What is wrong with the first instance from `index` on that has a fault.
pub open spec fn instance_fault_from(instances: Seq<InstanceSection>, index: int) -> Option<Fault>
    decreases instances.len() - index,
{
    if index >= instances.len() {
        None
    } else if instance_fault(instances, index) is Some {
        instance_fault(instances, index)
    } else {
        instance_fault_from(instances, index + 1)
    }
}

/// What is wrong with the instances, if anything.
pub open spec fn instances_fault(instances: Seq<InstanceSection>) -> Option<Fault> {
    if instances.len() == 0 {
        Some(Fault { path: "instance"@, message: "at least one [[instance]] is required"@ })
    } else {
        instance_fault_from(instances, 0)
    }
}

/// Where a tenant rule stands in the configuration.
pub open spec fn tenant_path(name: Seq<char>, key: Seq<char>) -> Seq<char> {
    "tenant.\""@ + name + "\"."@ + key
}

/// What is wrong with the first of the instances of a rule from `index` on that
/// is not declared, or was listed before.
pub open spec fn listed_fault_from(
    name: Seq<char>,
    listed: Seq<Seq<char>>,
    names: Seq<Seq<char>>,
    index: int,
) -> Option<Fault>
    decreases listed.len() - index,
{
    if index >= listed.len() {
        None
    } else if !names.contains(listed[index]) {
        Some(
            Fault {
                path: tenant_path(name, "instances"@),
                message: "instance `"@ + listed[index] + "` is not declared in [[instance]]"@,
            },
        )
    } else if listed.take(index).contains(listed[index]) {
        Some(
            Fault {
                path: tenant_path(name, "instances"@),
                message: "instance `"@ + listed[index] + "` is listed more than once"@,
            },
        )
    } else {
        listed_fault_from(name, listed, names, index + 1)
    }
}

/// What is wrong with a tenant rule, if anything.
pub open spec fn tenant_fault(
    name: Seq<char>,
    tenant: TenantSectionView,
    names: Seq<Seq<char>>,
) -> Option<Fault> {
    if name.len() == 0 {
        Some(Fault { path: "tenant"@, message: "tenant name must not be empty"@ })
    } else if tenant.instances.len() == 0 {
        Some(
            Fault {
                path: tenant_path(name, "instances"@),
                message: "must list at least one instance"@,
            },
        )
    } else if listed_fault_from(name, tenant.instances, names, 0) is Some {
        listed_fault_from(name, tenant.instances, names, 0)
    } else if tenant.weight == 0 {
        Some(Fault { path: tenant_path(name, "weight"@), message: "must be at least 1"@ })
    } else if tenant.max matches Some(max) && tenant.min > max {
        Some(
            Fault {
                path: tenant_path(name, "min"@),
                message: "min ("@ + decimal(tenant.min as nat) + ") must not exceed max ("@
                    + decimal(tenant.max->0 as nat) + ")"@,
            },
        )
    } else {
        None
    }
}

/// What is wrong with the first of some tenant rules that has a fault.
pub open spec fn first_tenant_fault(
    tenants: Map<Seq<char>, TenantSectionView>,
    keys: Seq<Seq<char>>,
    names: Seq<Seq<char>>,
) -> Option<Fault>
    decreases keys.len(),
{
    if keys.len() == 0 {
        None
    } else if tenant_fault(keys[0], tenants[keys[0]], names) is Some {
        tenant_fault(keys[0], tenants[keys[0]], names)
    } else {
        first_tenant_fault(tenants, keys.drop_first(), names)
    }
}

/// What is wrong with the configuration of the cluster, if anything.
pub open spec fn cluster_fault(config: ClusterConfig) -> Option<Fault> {
    if section_fault(config.cluster) is Some {
        section_fault(config.cluster)
    } else if instances_fault(config.instance@) is Some {
        instances_fault(config.instance@)
    } else {
        first_tenant_fault(
            config.tenant@,
            listing::<String>(config.tenant@.dom()),
            declared(config.instance@),
        )
    }
}

fn names_instance(instances: &Vec<InstanceSection>, before: usize, name: &str) -> (b: bool)
    requires
        before <= instances@.len(),
    ensures
        b == declared(instances@).take(before as int).contains(name@),
{
    let mut k: usize = 0;
    while k < before
        invariant
            k <= before <= instances@.len(),
            forall|j: int| 0 <= j < k ==> (#[trigger] instances@[j]).name@ != name@,
        decreases before - k,
    {
        if same_text(instances[k].name.as_str(), name) {
            assert(declared(instances@).take(before as int)[k as int] == name@);
            return true;
        }
        k += 1;
    }
    proof {
        let names = declared(instances@).take(before as int);
        if names.contains(name@) {
            let j = choose|j: int| 0 <= j < names.len() && names[j] == name@;
            assert(instances@[j].name@ == name@);
        }
    }
    false
}

fn lists_before(list: &Vec<String>, before: usize, name: &str) -> (b: bool)
    requires
        before <= list@.len(),
    ensures
        b == texts(list@).take(before as int).contains(name@),
{
    let mut k: usize = 0;
    while k < before
        invariant
            k <= before <= list@.len(),
            forall|j: int| 0 <= j < k ==> (#[trigger] list@[j])@ != name@,
        decreases before - k,
    {
        if same_text(list[k].as_str(), name) {
            assert(texts(list@).take(before as int)[k as int] == name@);
            return true;
        }
        k += 1;
    }
    proof {
        let names = texts(list@).take(before as int);
        if names.contains(name@) {
            let j = choose|j: int| 0 <= j < names.len() && names[j] == name@;
            assert(list@[j]@ == name@);
        }
    }
    false
}

fn path_of_instance(index: usize, key: &str) -> (path: String)
    ensures
        path@ == instance_path(index as int, key@),
{
    let mut path = "instance[".to_owned();
    path.append(decimal_text(index as u64).as_str());
    path.append("].");
    path.append(key);
    path
}

fn path_of_tenant(name: &str, key: &str) -> (path: String)
    ensures
        path@ == tenant_path(name@, key@),
{
    let mut path = "tenant.\"".to_owned();
    path.append(name);
    path.append("\".");
    path.append(key);
    path
}

fn about_instance(name: &str, what: &str) -> (message: String)
    ensures
        message@ == "instance `"@ + name@ + what@,
{
    let mut message = "instance `".to_owned();
    message.append(name);
    message.append(what);
    message
}

fn validate_tenant(name: &str, tenant: &TenantSection, instances: &Vec<InstanceSection>) -> (result:
    Result<(), ConfigError>)
    ensures
        checked(result, tenant_fault(name@, tenant@, declared(instances@))),
{
    if same_text(name, "") {
        assert(name@.len() == 0) by {
            reveal_strlit("");
        }
        return Err(
            ConfigError::invalid("tenant".to_owned(), "tenant name must not be empty".to_owned()),
        );
    }
    assert(name@.len() > 0) by {
        reveal_strlit("");
        if name@.len() == 0 {
            assert(name@ =~= ""@);
        }
    }
    if tenant.instances.len() == 0 {
        return Err(
            ConfigError::invalid(
                path_of_tenant(name, "instances"),
                "must list at least one instance".to_owned(),
            ),
        );
    }
    let ghost names = declared(instances@);
    let ghost listed = texts(tenant.instances@);
    assert(names.take(names.len() as int) =~= names);
    let mut k: usize = 0;
    while k < tenant.instances.len()
        invariant
            k <= tenant.instances@.len(),
            name@.len() > 0,
            tenant@.instances.len() > 0,
            names == declared(instances@),
            names.take(names.len() as int) == names,
            listed == texts(tenant.instances@),
            listed_fault_from(name@, listed, names, 0) == listed_fault_from(
                name@,
                listed,
                names,
                k as int,
            ),
        decreases tenant.instances@.len() - k,
    {
        let instance = tenant.instances[k].as_str();
        assert(listed[k as int] == instance@);
        if !names_instance(instances, instances.len(), instance) {
            return Err(
                ConfigError::invalid(
                    path_of_tenant(name, "instances"),
                    about_instance(instance, "` is not declared in [[instance]]"),
                ),
            );
        }
        if lists_before(&tenant.instances, k, instance) {
            return Err(
                ConfigError::invalid(
                    path_of_tenant(name, "instances"),
                    about_instance(instance, "` is listed more than once"),
                ),
            );
        }
        k += 1;
    }
    if tenant.weight == 0 {
        return Err(
            ConfigError::invalid(path_of_tenant(name, "weight"), "must be at least 1".to_owned()),
        );
    }
    if let Some(max) = tenant.max {
        if tenant.min > max {
            let mut message = "min (".to_owned();
            message.append(decimal_text(tenant.min as u64).as_str());
            message.append(") must not exceed max (");
            message.append(decimal_text(max as u64).as_str());
            message.append(")");
            return Err(ConfigError::invalid(path_of_tenant(name, "min"), message));
        }
    }
    Ok(())
}

/// The weight of each instance: of two with the same name, that of the later.
pub open spec fn weights_of(instances: Seq<InstanceSection>) -> Map<Seq<char>, u32>
    decreases instances.len(),
{
    if instances.len() == 0 {
        Map::empty()
    } else {
        weights_of(instances.drop_last()).insert(instances.last().name@, instances.last().weight)
    }
}

/// A tenant rule as the coordinator applies it. A tenant without `max` may take
/// up to the whole total budget of an instance, which the allocator enforces on
/// its own.
pub open spec fn rule_of(tenant: TenantSectionView) -> RuleView {
    RuleView {
        instances: tenant.instances,
        policy: TenantPolicy {
            min: tenant.min,
            max: match tenant.max {
                Some(max) => max,
                None => u32::MAX,
            },
            weight: Weight::of(tenant.weight),
        },
    }
}

/// The tenant rules as the coordinator applies them.
pub open spec fn rules_of(tenants: Map<Seq<char>, TenantSectionView>) -> Map<Seq<char>, RuleView> {
    Map::new(|name: Seq<char>| tenants.contains_key(name), |name: Seq<char>| rule_of(tenants[name]))
}

/// Whether every instance and every tenant weighs something.
pub open spec fn weighs(config: ClusterConfig) -> bool {
    &&& forall|k: int|
        0 <= k < config.instance@.len() ==> (#[trigger] config.instance@[k]).weight > 0
    &&& forall|name: Seq<char>| #[trigger]
        config.tenant@.contains_key(name) ==> config.tenant@[name].weight > 0
}

/// Whether the instances have names of their own and weigh something, whether
/// every tenant rule lists instances that there are, each once, and whether it
/// weighs something and asks for no more than it may have.
pub open spec fn sound(config: ClusterConfig) -> bool {
    &&& 0 < config.cluster.arbitration_interval@ < config.cluster.grant_ttl@
    &&& config.instance@.len() > 0
    &&& declared(config.instance@).no_duplicates()
    &&& weighs(config)
    &&& forall|name: Seq<char>| #[trigger]
        config.tenant@.contains_key(name) ==> sound_rule(
            config.tenant@[name],
            declared(config.instance@),
        )
}

/// Whether a rule lists instances that there are, each once, and asks for no
/// more than it may have.
pub open spec fn sound_rule(tenant: TenantSectionView, names: Seq<Seq<char>>) -> bool {
    &&& tenant.instances.len() > 0
    &&& tenant.instances.no_duplicates()
    &&& forall|k: int|
        0 <= k < tenant.instances.len() ==> names.contains(#[trigger] tenant.instances[k])
    &&& tenant.weight > 0
    &&& tenant.max matches Some(max) ==> tenant.min <= max
}

proof fn lemma_instances_sound(instances: Seq<InstanceSection>, from: int)
    requires
        0 <= from,
        instance_fault_from(instances, from) is None,
    ensures
        forall|k: int|
            from <= k < instances.len() ==> instance_fault(instances, k) is None
                && #[trigger] instances[k].weight > 0,
    decreases instances.len() - from,
{
    if from < instances.len() {
        lemma_instances_sound(instances, from + 1);
        assert forall|k: int| from <= k < instances.len() implies instance_fault(
            instances,
            k,
        ) is None && #[trigger] instances[k].weight > 0 by {
            assert(instance_fault(instances, from) is None);
        }
    }
}

proof fn lemma_listed_sound(
    name: Seq<char>,
    listed: Seq<Seq<char>>,
    names: Seq<Seq<char>>,
    from: int,
)
    requires
        0 <= from,
        listed_fault_from(name, listed, names, from) is None,
    ensures
        forall|k: int|
            from <= k < listed.len() ==> names.contains(#[trigger] listed[k]) && !listed.take(
                k,
            ).contains(listed[k]),
    decreases listed.len() - from,
{
    if from < listed.len() {
        lemma_listed_sound(name, listed, names, from + 1);
    }
}

proof fn lemma_distinct(list: Seq<Seq<char>>)
    requires
        forall|k: int| 0 <= k < list.len() ==> !list.take(k).contains(#[trigger] list[k]),
    ensures
        list.no_duplicates(),
{
    assert forall|i: int, j: int| 0 <= i < j < list.len() implies list[i] != list[j] by {
        assert(!list.take(j).contains(list[j]));
        assert(list.take(j)[i] == list[i]);
    }
}

proof fn lemma_tenants_sound(
    tenants: Map<Seq<char>, TenantSectionView>,
    keys: Seq<Seq<char>>,
    names: Seq<Seq<char>>,
)
    requires
        first_tenant_fault(tenants, keys, names) is None,
    ensures
        forall|i: int|
            0 <= i < keys.len() ==> sound_rule(tenants[#[trigger] keys[i]], names),
    decreases keys.len(),
{
    if keys.len() > 0 {
        let rest = keys.drop_first();
        lemma_tenants_sound(tenants, rest, names);
        let first = tenants[keys[0]];
        lemma_listed_sound(keys[0], first.instances, names, 0);
        lemma_distinct(first.instances);
        assert(sound_rule(first, names));
        assert forall|i: int| 0 <= i < keys.len() implies sound_rule(
            tenants[#[trigger] keys[i]],
            names,
        ) by {
            if i > 0 {
                assert(keys[i] == rest[i - 1]);
            }
        }
    }
}

proof fn lemma_no_fault_is_sound(config: ClusterConfig, keys: Seq<Seq<char>>)
    requires
        cluster_fault(config) is None,
        lists::<String, TenantSectionView>(keys, config.tenant@),
    ensures
        sound(config),
{
    let instances = config.instance@;
    let names = declared(instances);
    lemma_listing::<String>(keys, config.tenant@.dom());
    lemma_instances_sound(instances, 0);
    assert forall|k: int| 0 <= k < names.len() implies !names.take(k).contains(
        #[trigger] names[k],
    ) by {
        assert(instances[k].weight > 0);
        assert(instance_fault(instances, k) is None);
    }
    lemma_distinct(names);
    lemma_tenants_sound(config.tenant@, keys, names);
    assert forall|name: Seq<char>| #[trigger] config.tenant@.contains_key(name) implies sound_rule(
        config.tenant@[name],
        names,
    ) by {
        assert(keys.contains(name));
        let i = choose|i: int| 0 <= i < keys.len() && keys[i] == name;
        assert(sound_rule(config.tenant@[keys[i]], names));
    }
}

impl ClusterConfig {
    fn validate_cluster_section(&self) -> (result: Result<(), ConfigError>)
        ensures
            checked(result, section_fault(self.cluster)),
    {
        if self.cluster.grant_ttl.as_nanos() == 0 {
            return Err(
                ConfigError::invalid(
                    "cluster.grant_ttl".to_owned(),
                    "must be longer than 0".to_owned(),
                ),
            );
        }
        if self.cluster.arbitration_interval.as_nanos() == 0 {
            return Err(
                ConfigError::invalid(
                    "cluster.arbitration_interval".to_owned(),
                    "must be longer than 0".to_owned(),
                ),
            );
        }
        if self.cluster.arbitration_interval.at_least(&self.cluster.grant_ttl) {
            let mut message = "must be shorter than cluster.grant_ttl (".to_owned();
            message.append(self.cluster.grant_ttl.shown().as_str());
            message.append(")");
            return Err(ConfigError::invalid("cluster.arbitration_interval".to_owned(), message));
        }
        Ok(())
    }

    fn validate_instances(&self) -> (result: Result<(), ConfigError>)
        ensures
            checked(result, instances_fault(self.instance@)),
    {
        if self.instance.len() == 0 {
            return Err(
                ConfigError::invalid(
                    "instance".to_owned(),
                    "at least one [[instance]] is required".to_owned(),
                ),
            );
        }
        let mut index: usize = 0;
        while index < self.instance.len()
            invariant
                index <= self.instance@.len(),
                self.instance@.len() > 0,
                instances_fault(self.instance@) == instance_fault_from(
                    self.instance@,
                    index as int,
                ),
            decreases self.instance@.len() - index,
        {
            let instance = &self.instance[index];
            if is_blank(instance.name.as_str()) {
                return Err(
                    ConfigError::invalid(
                        path_of_instance(index, "name"),
                        "must not be empty".to_owned(),
                    ),
                );
            }
            if instance.weight == 0 {
                return Err(
                    ConfigError::invalid(
                        path_of_instance(index, "weight"),
                        "must be at least 1".to_owned(),
                    ),
                );
            }
            if names_instance(&self.instance, index, instance.name.as_str()) {
                return Err(
                    ConfigError::invalid(
                        path_of_instance(index, "name"),
                        about_instance(instance.name.as_str(), "` is declared more than once"),
                    ),
                );
            }
            index += 1;
        }
        Ok(())
    }

    /// Checks the configuration. What passes is sound.
    pub fn validate(&self) -> (result: Result<(), ConfigError>)
        ensures
            checked(result, cluster_fault(*self)),
            result is Ok ==> sound(*self),
    {
        match self.validate_cluster_section() {
            Ok(()) => {},
            Err(error) => return Err(error),
        }
        match self.validate_instances() {
            Ok(()) => {},
            Err(error) => return Err(error),
        }
        let ghost names = declared(self.instance@);
        let ghost tenants = self.tenant@;
        let ghost keys = self.tenant.keys();
        proof {
            use_type_invariant(&self.tenant);
            self.tenant.lemma_lists();
            lemma_listing::<String>(keys, tenants.dom());
            assert(keys.skip(0) =~= keys);
        }
        let n: usize = self.tenant.len();
        let mut i: usize = 0;
        while i < n
            invariant
                i <= n,
                n == keys.len(),
                keys == self.tenant.keys(),
                tenants == self.tenant@,
                lists::<String, TenantSectionView>(keys, tenants),
                names == declared(self.instance@),
                cluster_fault(*self) == first_tenant_fault(tenants, keys.skip(i as int), names),
            decreases n - i,
        {
            assert(tenants.contains_key(keys[i as int]));
            assert(keys.skip(i as int)[0] == keys[i as int]);
            assert(keys.skip(i as int).drop_first() =~= keys.skip(i + 1));
            match validate_tenant(
                self.tenant.key_at(i).as_str(),
                self.tenant.value_at(i),
                &self.instance,
            ) {
                Ok(()) => {},
                Err(error) => return Err(error),
            }
            i += 1;
        }
        proof {
            assert(keys.skip(i as int).len() == 0);
            lemma_no_fault_is_sound(*self, keys);
        }
        Ok(())
    }

    /// The tenant rules as the coordinator applies them. A tenant without `max`
    /// may take up to the whole total budget of an instance, which the
    /// allocator enforces on its own.
    pub fn policies(&self) -> (policies: Policies)
        requires
            weighs(*self),
        ensures
            policies@ == (PoliciesView {
                weights: weights_of(self.instance@),
                rules: rules_of(self.tenant@),
            }),
    {
        let mut policies = Policies::new();
        let mut k: usize = 0;
        assert(self.instance@.take(0) =~= Seq::empty());
        while k < self.instance.len()
            invariant
                k <= self.instance@.len(),
                weighs(*self),
                policies@ == (PoliciesView {
                    weights: weights_of(self.instance@.take(k as int)),
                    rules: Map::empty(),
                }),
            decreases self.instance@.len() - k,
        {
            let instance = &self.instance[k];
            let weight = nonzero(instance.weight);
            policies = policies.instance(instance.id(), weight);
            assert(self.instance@.take(k + 1).drop_last() =~= self.instance@.take(k as int));
            k += 1;
        }
        assert(self.instance@.take(k as int) =~= self.instance@);
        let ghost tenants = self.tenant@;
        let ghost keys = self.tenant.keys();
        proof {
            use_type_invariant(&self.tenant);
            self.tenant.lemma_lists();
            assert(policies@.rules =~= rules_of(tenants).restrict(keys.take(0).to_set()));
        }
        let n: usize = self.tenant.len();
        let mut i: usize = 0;
        while i < n
            invariant
                i <= n,
                n == keys.len(),
                keys == self.tenant.keys(),
                tenants == self.tenant@,
                lists::<String, TenantSectionView>(keys, tenants),
                weighs(*self),
                policies@ == (PoliciesView {
                    weights: weights_of(self.instance@),
                    rules: rules_of(tenants).restrict(keys.take(i as int).to_set()),
                }),
            decreases n - i,
        {
            assert(tenants.contains_key(keys[i as int]));
            let tenant = self.tenant.value_at(i);
            let rule = TenantRule {
                instances: instance_ids(&tenant.instances),
                policy: TenantPolicy {
                    min: tenant.min,
                    max: match tenant.max {
                        Some(max) => max,
                        None => u32::MAX,
                    },
                    weight: nonzero(tenant.weight),
                },
            };
            assert(rule@ =~= rule_of(tenants[keys[i as int]]));
            policies = policies.tenant(self.tenant.key_at(i).clone(), rule);
            proof {
                assert(keys.take(i + 1) =~= keys.take(i as int).push(keys[i as int]));
                keys.take(i as int).lemma_push_to_set_commute(keys[i as int]);
                assert(policies@.rules =~= rules_of(tenants).restrict(keys.take(i + 1).to_set()));
            }
            i += 1;
        }
        proof {
            assert(keys.take(i as int) =~= keys);
            assert(policies@.rules =~= rules_of(tenants));
        }
        policies
    }
}

fn nonzero(weight: u32) -> (w: Weight)
    requires
        weight > 0,
    ensures
        w == Weight::of(weight),
        w@ == weight,
{
    Weight::new(weight).unwrap()
}

fn instance_ids(names: &Vec<String>) -> (ids: Vec<InstanceId>)
    ensures
        instance_names(ids@) == texts(names@),
{
    let mut ids: Vec<InstanceId> = Vec::new();
    let mut k: usize = 0;
    while k < names.len()
        invariant
            k <= names@.len(),
            ids@.len() == k,
            forall|j: int| 0 <= j < k ==> (#[trigger] ids@[j])@ == names@[j]@,
        decreases names@.len() - k,
    {
        ids.push(InstanceId::new(names[k].clone()));
        k += 1;
    }
    assert(instance_names(ids@) =~= texts(names@));
    ids
}

/// A rule says what its section writes: the instances, the minimum, the maximum
/// where one is written and else none, and the weight.
pub proof fn law_a_rule_says_what_its_section_writes(
    tenants: Map<Seq<char>, TenantSectionView>,
    name: Seq<char>,
)
    ensures
        rules_of(tenants).contains_key(name) <==> tenants.contains_key(name),
        tenants.contains_key(name) ==> ({
            let rule = rules_of(tenants)[name];
            let section = tenants[name];
            &&& rule.instances == section.instances
            &&& rule.policy.min == section.min
            &&& section.max matches Some(max) ==> rule.policy.max == max
            &&& section.max is None ==> rule.policy.max == u32::MAX
            &&& rule.policy.weight@ == section.weight
        }),
{
    if tenants.contains_key(name) {
        law_a_weight_is_its_value(tenants[name].weight);
    }
}

/// An instance weighs what its section writes, where no other section has its
/// name, and no instance weighs anything that no section writes.
pub proof fn law_an_instance_weighs_what_its_section_writes(
    instances: Seq<InstanceSection>,
    k: int,
    other: Seq<char>,
)
    requires
        0 <= k < instances.len(),
        forall|j: int|
            0 <= j < instances.len() && j != k ==> (#[trigger] instances[j]).name@
                != instances[k].name@,
    ensures
        weights_of(instances).contains_key(instances[k].name@),
        weights_of(instances)[instances[k].name@] == instances[k].weight,
        weights_of(instances).contains_key(other) ==> exists|j: int|
            0 <= j < instances.len() && (#[trigger] instances[j]).name@ == other,
    decreases instances.len(),
{
    lemma_weights_are_written(instances, other);
    let shorter = instances.drop_last();
    if k < shorter.len() {
        assert(instances[instances.len() - 1].name@ != instances[k].name@);
        assert forall|j: int| 0 <= j < shorter.len() && j != k implies (#[trigger] shorter[j]).name@
            != shorter[k].name@ by {
            assert(shorter[j] == instances[j]);
        }
        law_an_instance_weighs_what_its_section_writes(shorter, k, other);
    }
}

proof fn lemma_weights_are_written(instances: Seq<InstanceSection>, name: Seq<char>)
    ensures
        weights_of(instances).contains_key(name) ==> exists|j: int|
            0 <= j < instances.len() && (#[trigger] instances[j]).name@ == name,
    decreases instances.len(),
{
    if instances.len() > 0 {
        let shorter = instances.drop_last();
        lemma_weights_are_written(shorter, name);
        if weights_of(instances).contains_key(name) {
            if instances.last().name@ == name {
                assert(instances[instances.len() - 1].name@ == name);
            } else {
                let j = choose|j: int|
                    0 <= j < shorter.len() && (#[trigger] shorter[j]).name@ == name;
                assert(instances[j].name@ == name);
            }
        }
    }
}

proof fn lemma_no_instance_fault(instances: Seq<InstanceSection>, from: int)
    requires
        0 <= from,
    ensures
        instance_fault_from(instances, from) is None <==> forall|k: int|
            from <= k < instances.len() ==> {
                &&& !blank((#[trigger] instances[k]).name@)
                &&& instances[k].weight > 0
                &&& !declared(instances).take(k).contains(instances[k].name@)
            },
    decreases instances.len() - from,
{
    if from < instances.len() {
        lemma_no_instance_fault(instances, from + 1);
        if instance_fault_from(instances, from) is None {
            assert(instance_fault(instances, from) is None);
        } else if instance_fault(instances, from) is Some {
            assert(blank(instances[from].name@) || instances[from].weight == 0 || declared(
                instances,
            ).take(from).contains(instances[from].name@));
        }
    }
}

proof fn lemma_no_listed_fault(
    name: Seq<char>,
    listed: Seq<Seq<char>>,
    names: Seq<Seq<char>>,
    from: int,
)
    requires
        0 <= from,
    ensures
        listed_fault_from(name, listed, names, from) is None <==> forall|k: int|
            from <= k < listed.len() ==> names.contains(#[trigger] listed[k]) && !listed.take(
                k,
            ).contains(listed[k]),
    decreases listed.len() - from,
{
    if from < listed.len() {
        lemma_no_listed_fault(name, listed, names, from + 1);
    }
}

/// A tenant rule passes exactly where it has a name, lists at least one instance,
/// lists only instances that are declared, each once, weighs something, and asks
/// for no more than it may have.
pub proof fn law_a_tenant_rule_passes_exactly_where_it_is_right(
    name: Seq<char>,
    tenant: TenantSectionView,
    names: Seq<Seq<char>>,
)
    ensures
        tenant_fault(name, tenant, names) is None <==> {
            &&& name.len() > 0
            &&& tenant.instances.len() > 0
            &&& tenant.instances.no_duplicates()
            &&& forall|k: int|
                0 <= k < tenant.instances.len() ==> names.contains(#[trigger] tenant.instances[k])
            &&& tenant.weight > 0
            &&& tenant.max is Some ==> tenant.min <= tenant.max->0
        },
{
    let listed = tenant.instances;
    lemma_no_listed_fault(name, listed, names, 0);
    if listed_fault_from(name, listed, names, 0) is None {
        lemma_distinct(listed);
    }
    if listed.no_duplicates() && forall|k: int|
        0 <= k < listed.len() ==> names.contains(#[trigger] listed[k]) {
        assert forall|k: int| 0 <= k < listed.len() implies names.contains(#[trigger] listed[k])
            && !listed.take(k).contains(listed[k]) by {
            if listed.take(k).contains(listed[k]) {
                let j = choose|j: int| 0 <= j < k && listed.take(k)[j] == listed[k];
                assert(listed[j] == listed[k]);
            }
        }
    }
}

proof fn lemma_no_tenant_fault(
    tenants: Map<Seq<char>, TenantSectionView>,
    keys: Seq<Seq<char>>,
    names: Seq<Seq<char>>,
)
    ensures
        first_tenant_fault(tenants, keys, names) is None <==> forall|k: int|
            0 <= k < keys.len() ==> tenant_fault(#[trigger] keys[k], tenants[keys[k]], names) is None,
    decreases keys.len(),
{
    if keys.len() > 0 {
        let rest = keys.drop_first();
        lemma_no_tenant_fault(tenants, rest, names);
        if first_tenant_fault(tenants, keys, names) is None {
            assert forall|k: int| 0 <= k < keys.len() implies tenant_fault(
                #[trigger] keys[k],
                tenants[keys[k]],
                names,
            ) is None by {
                if k > 0 {
                    assert(keys[k] == rest[k - 1]);
                }
            }
        } else if forall|k: int|
            0 <= k < keys.len() ==> tenant_fault(#[trigger] keys[k], tenants[keys[k]], names) is None {
            assert(tenant_fault(keys[0], tenants[keys[0]], names) is None);
            assert forall|k: int| 0 <= k < rest.len() implies tenant_fault(
                #[trigger] rest[k],
                tenants[rest[k]],
                names,
            ) is None by {
                assert(rest[k] == keys[k + 1]);
            }
        }
    }
}

/// The configuration of a cluster passes exactly where it is right: the rounds
/// come more often than grants expire and neither takes no time, there is an
/// instance, every instance has a name of its own that is not blank and weighs
/// something, and every tenant rule passes.
pub proof fn law_a_cluster_passes_exactly_where_it_is_right(config: ClusterConfig)
    requires
        config.tenant@.dom().finite(),
    ensures
        cluster_fault(config) is None <==> {
            &&& 0 < config.cluster.arbitration_interval@ < config.cluster.grant_ttl@
            &&& config.instance@.len() > 0
            &&& forall|k: int|
                0 <= k < config.instance@.len() ==> !blank((#[trigger] config.instance@[k]).name@)
                    && config.instance@[k].weight > 0
            &&& forall|j: int, k: int|
                0 <= j < k < config.instance@.len() ==> (#[trigger] config.instance@[j]).name@
                    != (#[trigger] config.instance@[k]).name@
            &&& forall|name: Seq<char>| #[trigger]
                config.tenant@.contains_key(name) ==> tenant_fault(
                    name,
                    config.tenant@[name],
                    declared(config.instance@),
                ) is None
        },
{
    let instances = config.instance@;
    let names = declared(instances);
    let tenants = config.tenant@;
    let keys = lemma_listable::<String>(tenants.dom());
    lemma_listing::<String>(keys, tenants.dom());
    lemma_no_instance_fault(instances, 0);
    lemma_no_tenant_fault(tenants, keys, names);
    assert forall|k: int| 0 <= k < keys.len() implies tenants.contains_key(#[trigger] keys[k]) by {
        assert(keys.to_set().contains(keys[k]));
    }
    assert forall|name: Seq<char>| #[trigger] tenants.contains_key(name) implies exists|k: int|
        0 <= k < keys.len() && #[trigger] keys[k] == name by {
        assert(keys.to_set().contains(name));
    }
    if instance_fault_from(instances, 0) is None {
        assert forall|j: int, k: int| 0 <= j < k < instances.len() implies (
        #[trigger] instances[j]).name@ != (#[trigger] instances[k]).name@ by {
            assert(!names.take(k).contains(instances[k].name@));
            assert(names.take(k)[j] == instances[j].name@);
        }
    }
    if forall|j: int, k: int|
        0 <= j < k < instances.len() ==> (#[trigger] instances[j]).name@ != (
        #[trigger] instances[k]).name@ {
        assert forall|k: int| 0 <= k < instances.len() implies !names.take(k).contains(
            (#[trigger] instances[k]).name@,
        ) by {
            if names.take(k).contains(instances[k].name@) {
                let j = choose|j: int| 0 <= j < k && names.take(k)[j] == instances[k].name@;
                assert(instances[j].name@ == instances[k].name@);
            }
        }
    }
}

proof fn lemma_no_verifier_fault(clients: Map<Seq<char>, Seq<char>>, users: Seq<Seq<char>>)
    ensures
        first_verifier_fault(clients, users) is None <==> forall|k: int|
            0 <= k < users.len() ==> verifier_in(clients[#[trigger] users[k]]) is Ok,
    decreases users.len(),
{
    if users.len() > 0 {
        let rest = users.drop_first();
        lemma_no_verifier_fault(clients, rest);
        if first_verifier_fault(clients, users) is None {
            assert forall|k: int| 0 <= k < users.len() implies verifier_in(
                clients[#[trigger] users[k]],
            ) is Ok by {
                if k > 0 {
                    assert(users[k] == rest[k - 1]);
                }
            }
        } else if forall|k: int|
            0 <= k < users.len() ==> verifier_in(clients[#[trigger] users[k]]) is Ok {
            assert(verifier_in(clients[users[0]]) is Ok);
            assert forall|k: int| 0 <= k < rest.len() implies verifier_in(
                clients[#[trigger] rest[k]],
            ) is Ok by {
                assert(rest[k] == users[k + 1]);
            }
        }
    }
}

/// The configuration of a node passes exactly where it is right: it takes at least
/// one client, names its coordinator, every client and server section names a
/// user, every verifier can be read, and a monitor names its user.
pub proof fn law_a_node_passes_exactly_where_it_is_right(config: NodeConfig)
    requires
        config.client@.dom().finite(),
    ensures
        node_fault(config) is None <==> {
            &&& config.node.max_client_connections > 0
            &&& !blank(config.node.coordinator@)
            &&& forall|user: Seq<char>| #[trigger]
                config.client@.contains_key(user) ==> !blank(user) && verifier_in(
                    config.client@[user],
                ) is Ok
            &&& forall|user: Seq<char>| #[trigger]
                config.server@.contains_key(user) ==> !blank(user)
            &&& config.monitor is Some ==> !blank(config.monitor->0.user@)
        },
        forall|user: Seq<char>| #[trigger]
            client_methods(config.client@).contains_key(user) <==> config.client@.contains_key(
                user,
            ),
        forall|user: Seq<char>| #[trigger]
            config.client@.contains_key(user) && verifier_in(config.client@[user]) is Ok
                ==> client_methods(config.client@)[user] == MethodView::ScramSha256(
                verifier_in(config.client@[user])->Ok_0,
            ),
{
    let clients = config.client@;
    let users = lemma_listable::<String>(clients.dom());
    lemma_listing::<String>(users, clients.dom());
    lemma_no_verifier_fault(clients, users);
    assert forall|k: int| 0 <= k < users.len() implies clients.contains_key(
        #[trigger] users[k],
    ) by {
        assert(users.to_set().contains(users[k]));
    }
    assert forall|user: Seq<char>| #[trigger] clients.contains_key(user) implies exists|k: int|
        0 <= k < users.len() && #[trigger] users[k] == user by {
        assert(users.to_set().contains(user));
    }
}

/// A root certificate has to be named exactly where the mode checks certificates.
pub proof fn law_a_root_certificate_is_named_where_it_is_read(section: ServerTlsSection)
    ensures
        root_fault(section) is None <==> (section.root_cert is Some <==> section.mode
            == SslModeSection::VerifyCa || section.mode == SslModeSection::VerifyFull),
        root_fault(section) matches Some(fault) ==> fault.path == "node.server_tls.root_cert"@,
{
}

/// A tenant logs in to the instances with the password of its own user, and with
/// none where its user has no section.
pub proof fn law_a_user_logs_in_with_its_own_password(
    passwords: Map<Seq<char>, Seq<char>>,
    user: Seq<char>,
)
    ensures
        passwords.contains_key(user) ==> password_of(passwords, user) == Some(passwords[user]),
        !passwords.contains_key(user) ==> password_of(passwords, user) is None,
{
}

/// An instance is reached at the port that its name ends with, and on port 5432
/// where its name has none.
pub proof fn law_an_instance_is_reached_at_its_port(host: Seq<char>, port: nat)
    ensures
        port <= 65535 ==> address_of(host + seq![':'] + decimal(port)) == host + seq![':'] + decimal(
            port,
        ),
        !host.contains(':') ==> address_of(host) == host + ":5432"@,
{
    let name = host + seq![':'] + decimal(port);
    law_a_number_reads_as_it_was_written(port, port);
    assert forall|j: int| host.len() < j < name.len() implies name[j] != ':' by {
        assert(name[j] == decimal(port)[j - host.len() - 1]);
    }
    lemma_rfind_char(name, ':', host.len() as int);
    assert(name.subrange(host.len() as int + 1, name.len() as int) =~= decimal(port));
    if !host.contains(':') {
        lemma_rfind_none(host, ':');
    }
}

/// What is wrong with a certificate, a key or the root certificates is told of the
/// setting that names the file.
pub proof fn law_a_fault_names_the_file_to_mend(complaint: Seq<char>)
    ensures
        client_tls_fault(TlsFailure::Certificate(complaint)).path == "node.tls.cert"@,
        client_tls_fault(TlsFailure::NoCertificate).path == "node.tls.cert"@,
        client_tls_fault(TlsFailure::PrivateKey(complaint)).path == "node.tls.key"@,
        client_tls_fault(TlsFailure::Unusable(complaint)).path == "node.tls"@,
        server_tls_fault(TlsFailure::RootCertificate(complaint)).path
            == "node.server_tls.root_cert"@,
        server_tls_fault(TlsFailure::NoRootCertificate).path == "node.server_tls.root_cert"@,
        server_tls_fault(TlsFailure::Verifier(complaint)).path == "node.server_tls.root_cert"@,
{
}

/// A node encrypts what it opens as its section says, and prefers to where there is no
/// section. It checks a certificate against all the roots that were read; it does not
/// start where it is to check and has none that can be used, nor where it names roots
/// that it would never read.
pub proof fn law_a_node_encrypts_as_its_section_says(
    config: NodeConfig,
    roots: Option<Result<Seq<Seq<u8>>, Seq<char>>>,
    unusable: Option<Seq<char>>,
)
    ensures
        config.node.server_tls is None ==> (config.server_tls_with(roots, unusable) matches Ok(tls)
            && tls.mode == SslMode::Prefer && tls.roots.len() == 0),
        config.node.server_tls matches Some(section) ==> {
            let checks = section.mode is VerifyCa || section.mode is VerifyFull;
            let usable = roots is Some && roots->0 is Ok && roots->0->Ok_0.len() > 0
                && unusable is None;
            &&& config.server_tls_with(roots, unusable) is Ok <==> if checks {
                section.root_cert is Some && usable
            } else {
                section.root_cert is None
            }
            &&& config.server_tls_with(roots, unusable) matches Ok(tls) ==> {
                &&& section.mode is Disable <==> tls.mode == SslMode::Disable
                &&& section.mode is Prefer <==> tls.mode == SslMode::Prefer
                &&& section.mode is Require <==> tls.mode == SslMode::Require
                &&& section.mode is VerifyCa <==> tls.mode == SslMode::VerifyCa
                &&& section.mode is VerifyFull <==> tls.mode == SslMode::VerifyFull
                &&& checks ==> tls.roots == roots->0->Ok_0
            }
        },
{
}

} // verus!
