//! Whether and how connections are encrypted.
use std::sync::Arc;

use tokio_rustls::rustls::client::WebPkiServerVerifier;
use tokio_rustls::rustls::crypto::ring;
use tokio_rustls::rustls::pki_types::pem::PemObject;
use tokio_rustls::rustls::pki_types::{
    CertificateDer, PrivateKeyDer, PrivatePkcs1KeyDer, PrivatePkcs8KeyDer, PrivateSec1KeyDer,
};
use tokio_rustls::rustls::{RootCertStore, ServerConfig};
use tokio_rustls::TlsAcceptor;
use vstd::prelude::*;
use vstd::string::StringExecFns;

verus! {

/// How far a node insists on encryption toward a server.
#[derive(Debug, Clone, Copy, PartialEq, Eq, Hash, Structural)]
pub enum SslMode {
    Disable,
    Prefer,
    Require,
    VerifyCa,
    VerifyFull,
}

impl Default for SslMode {
    fn default() -> (mode: Self)
        ensures
            mode == SslMode::Prefer,
    {
        SslMode::Prefer
    }
}

impl SslMode {
    /// Whether a connection in the clear will not do.
    pub open spec fn demands(self) -> bool {
        self == SslMode::Require || self == SslMode::VerifyCa || self == SslMode::VerifyFull
    }

    /// Whether the server has to show a certificate that a root certificate
    /// vouches for.
    pub open spec fn verifies(self) -> bool {
        self == SslMode::VerifyCa || self == SslMode::VerifyFull
    }

    /// Whether a connection in the clear will not do.
    pub fn demands_encryption(&self) -> (b: bool)
        ensures
            b == self.demands(),
    {
        match self {
            SslMode::Disable => false,
            SslMode::Prefer => false,
            SslMode::Require => true,
            SslMode::VerifyCa => true,
            SslMode::VerifyFull => true,
        }
    }

    /// Whether the server has to show a certificate that a root certificate
    /// vouches for.
    pub fn verifies_certificate(&self) -> (b: bool)
        ensures
            b == self.verifies(),
    {
        match self {
            SslMode::VerifyCa => true,
            SslMode::VerifyFull => true,
            _ => false,
        }
    }

    /// The mode as it is written.
    pub open spec fn text(self) -> Seq<char> {
        match self {
            SslMode::Disable => "disable"@,
            SslMode::Prefer => "prefer"@,
            SslMode::Require => "require"@,
            SslMode::VerifyCa => "verify-ca"@,
            SslMode::VerifyFull => "verify-full"@,
        }
    }

    /// The mode as it is written.
    pub fn to_string(&self) -> (text: String)
        ensures
            text@ == self.text(),
    {
        match self {
            SslMode::Disable => "disable".to_owned(),
            SslMode::Prefer => "prefer".to_owned(),
            SslMode::Require => "require".to_owned(),
            SslMode::VerifyCa => "verify-ca".to_owned(),
            SslMode::VerifyFull => "verify-full".to_owned(),
        }
    }
}

/// Why a node cannot encrypt.
#[derive(Debug, PartialEq, Eq)]
pub enum TlsError {
    Certificate(String),
    NoCertificate,
    PrivateKey(String),
    Unusable(String),
    RootCertificate(String),
    /// A mode that checks certificates was asked for without a root
    /// certificate to check them against.
    NoRootCertificate,
    /// A root certificate that nothing can be checked against.
    Verifier(String),
}

/// Why a node cannot encrypt, with texts as sequences.
pub enum TlsFailure {
    Certificate(Seq<char>),
    NoCertificate,
    PrivateKey(Seq<char>),
    Unusable(Seq<char>),
    RootCertificate(Seq<char>),
    NoRootCertificate,
    Verifier(Seq<char>),
}

impl View for TlsError {
    type V = TlsFailure;

    open spec fn view(&self) -> TlsFailure {
        match *self {
            TlsError::Certificate(source) => TlsFailure::Certificate(source@),
            TlsError::NoCertificate => TlsFailure::NoCertificate,
            TlsError::PrivateKey(source) => TlsFailure::PrivateKey(source@),
            TlsError::Unusable(source) => TlsFailure::Unusable(source@),
            TlsError::RootCertificate(source) => TlsFailure::RootCertificate(source@),
            TlsError::NoRootCertificate => TlsFailure::NoRootCertificate,
            TlsError::Verifier(source) => TlsFailure::Verifier(source@),
        }
    }
}

/// Why a node cannot encrypt, in words.
pub open spec fn tls_text(failure: TlsFailure) -> Seq<char> {
    match failure {
        TlsFailure::Certificate(source) => "cannot read a PEM certificate chain: "@ + source,
        TlsFailure::NoCertificate => "holds no certificate"@,
        TlsFailure::PrivateKey(source) => "cannot read a PEM private key: "@ + source,
        TlsFailure::Unusable(source) => {
            "the certificate and the key do not make a TLS configuration: "@ + source
        },
        TlsFailure::RootCertificate(source) => "cannot read a PEM root certificate: "@ + source,
        TlsFailure::NoRootCertificate => {
            "a mode that verifies the certificate needs a root certificate"@
        },
        TlsFailure::Verifier(source) => {
            "cannot verify certificates with the root certificate: "@ + source
        },
    }
}

impl TlsError {
    /// The error in words.
    pub fn to_string(&self) -> (text: String)
        ensures
            text@ == tls_text(self@),
    {
        match self {
            TlsError::Certificate(source) => {
                let mut text = "cannot read a PEM certificate chain: ".to_owned();
                text.append(source.as_str());
                text
            },
            TlsError::NoCertificate => "holds no certificate".to_owned(),
            TlsError::PrivateKey(source) => {
                let mut text = "cannot read a PEM private key: ".to_owned();
                text.append(source.as_str());
                text
            },
            TlsError::Unusable(source) => {
                let mut text =
                    "the certificate and the key do not make a TLS configuration: ".to_owned();
                text.append(source.as_str());
                text
            },
            TlsError::RootCertificate(source) => {
                let mut text = "cannot read a PEM root certificate: ".to_owned();
                text.append(source.as_str());
                text
            },
            TlsError::NoRootCertificate => {
                "a mode that verifies the certificate needs a root certificate".to_owned()
            },
            TlsError::Verifier(source) => {
                let mut text = "cannot verify certificates with the root certificate: ".to_owned();
                text.append(source.as_str());
                text
            },
        }
    }
}

/// How a private key is written.
#[derive(Debug, Clone, Copy, PartialEq, Eq, Structural)]
pub enum KeyFormat {
    Pkcs1,
    Sec1,
    Pkcs8,
}

/// A private key: how it is written, and its bytes. It cannot be printed.
pub struct PrivateKey {
    pub format: KeyFormat,
    pub der: Vec<u8>,
}

/// A private key, with its bytes as a sequence.
#[verifier::ext_equal]
pub struct KeyView {
    pub format: KeyFormat,
    pub der: Seq<u8>,
}

impl View for PrivateKey {
    type V = KeyView;

    open spec fn view(&self) -> KeyView {
        KeyView { format: self.format, der: self.der@ }
    }
}

/// The bytes of each certificate of a chain.
pub open spec fn chain_bytes(chain: Seq<Vec<u8>>) -> Seq<Seq<u8>> {
    Seq::new(chain.len(), |k: int| chain[k]@)
}

/// The certificates read, or why not, with texts as sequences.
pub open spec fn chain_view(chain: Result<Vec<Vec<u8>>, String>) -> Result<
    Seq<Seq<u8>>,
    Seq<char>,
> {
    match chain {
        Ok(chain) => Ok(chain_bytes(chain@)),
        Err(complaint) => Err(complaint@),
    }
}

/// The key read, or why not, with texts as sequences.
pub open spec fn key_view(key: Result<PrivateKey, String>) -> Result<KeyView, Seq<char>> {
    match key {
        Ok(key) => Ok(key@),
        Err(complaint) => Err(complaint@),
    }
}

/// What keeps a chain and a key from use, if anything.
pub open spec fn fault_view(acceptor: Result<TlsAcceptor, String>) -> Option<Seq<char>> {
    match acceptor {
        Ok(_) => None,
        Err(complaint) => Some(complaint@),
    }
}

/// What certificates a PEM text holds, or why it cannot be read.
pub uninterp spec fn certificates_in(pem: Seq<u8>) -> Result<Seq<Seq<u8>>, Seq<char>>;

/// What private key a PEM text holds first, or why it cannot be read.
pub uninterp spec fn private_key_in(pem: Seq<u8>) -> Result<KeyView, Seq<char>>;

/// What keeps a chain and a key from making a TLS configuration, if anything.
pub uninterp spec fn unusable(chain: Seq<Seq<u8>>, key: KeyView) -> Option<Seq<char>>;

/// What connections are accepted with, by the chain and the key that a node
/// shows, where they make a TLS configuration.
pub uninterp spec fn acceptor_made(chain: Seq<Seq<u8>>, key: KeyView) -> TlsAcceptor;

/// `tokio_rustls::TlsAcceptor`: it is opaque.
#[verifier::external_type_specification]
#[verifier::external_body]
pub struct ExTlsAcceptor(TlsAcceptor);

/// `CertificateDer::pem_slice_iter`: the certificates of a PEM text, or the
/// first complaint about it. What they are is named.
#[verifier::external_body]
fn certificates_of(pem: &[u8]) -> (chain: Result<Vec<Vec<u8>>, String>)
    ensures
        chain_view(chain) == certificates_in(pem@),
{
    CertificateDer::pem_slice_iter(pem)
        .map(|certificate| certificate.map(|certificate| certificate.to_vec()))
        .collect::<Result<Vec<Vec<u8>>, _>>()
        .map_err(|error| error.to_string())
}

/// `PrivateKeyDer::from_pem_slice`: the first private key of a PEM text, or the
/// complaint about it. What it is is named.
#[verifier::external_body]
fn private_key_of(pem: &[u8]) -> (key: Result<PrivateKey, String>)
    ensures
        key_view(key) == private_key_in(pem@),
{
    let key = PrivateKeyDer::from_pem_slice(pem).map_err(|error| error.to_string())?;
    let der = key.secret_der().to_vec();
    match key {
        PrivateKeyDer::Pkcs1(_) => Ok(PrivateKey { format: KeyFormat::Pkcs1, der }),
        PrivateKeyDer::Sec1(_) => Ok(PrivateKey { format: KeyFormat::Sec1, der }),
        PrivateKeyDer::Pkcs8(_) => Ok(PrivateKey { format: KeyFormat::Pkcs8, der }),
        _ => Err(String::new()),
    }
}

/// `ServerConfig::builder_with_provider` and its `with_single_cert`, behind a
/// `TlsAcceptor`: whether a chain and a key make a TLS configuration is named,
/// and so is the acceptor that they make.
#[verifier::external_body]
fn acceptor_of(chain: &Vec<Vec<u8>>, key: &PrivateKey) -> (acceptor: Result<TlsAcceptor, String>)
    ensures
        fault_view(acceptor) == unusable(chain_bytes(chain@), key@),
        acceptor matches Ok(a) ==> a == acceptor_made(chain_bytes(chain@), key@),
{
    let chain = chain.iter().cloned().map(CertificateDer::from).collect();
    let key = match key.format {
        KeyFormat::Pkcs1 => PrivateKeyDer::Pkcs1(PrivatePkcs1KeyDer::from(key.der.clone())),
        KeyFormat::Sec1 => PrivateKeyDer::Sec1(PrivateSec1KeyDer::from(key.der.clone())),
        KeyFormat::Pkcs8 => PrivateKeyDer::Pkcs8(PrivatePkcs8KeyDer::from(key.der.clone())),
    };
    ServerConfig::builder_with_provider(Arc::new(ring::default_provider()))
        .with_safe_default_protocol_versions()
        .and_then(|builder| builder.with_no_client_auth().with_single_cert(chain, key))
        .map(|config| TlsAcceptor::from(Arc::new(config)))
        .map_err(|error| error.to_string())
}

/// What this node terminates client TLS with. It cannot be printed, since it
/// holds a private key.
pub struct ClientTls {
    chain: Vec<Vec<u8>>,
    acceptor: TlsAcceptor,
}

impl View for ClientTls {
    type V = Seq<Seq<u8>>;

    /// The certificates that the node shows.
    closed spec fn view(&self) -> Seq<Seq<u8>> {
        chain_bytes(self.chain@)
    }
}

/// What a node terminates client TLS with, by what was read: the certificates
/// that it shows, or why it cannot.
pub open spec fn client_tls_of(
    chain: Result<Seq<Seq<u8>>, Seq<char>>,
    key: Result<KeyView, Seq<char>>,
    fault: Option<Seq<char>>,
) -> Result<Seq<Seq<u8>>, TlsFailure> {
    match chain {
        Err(complaint) => Err(TlsFailure::Certificate(complaint)),
        Ok(chain) => if chain.len() == 0 {
            Err(TlsFailure::NoCertificate)
        } else {
            match key {
                Err(complaint) => Err(TlsFailure::PrivateKey(complaint)),
                Ok(_) => match fault {
                    Some(complaint) => Err(TlsFailure::Unusable(complaint)),
                    None => Ok(chain),
                },
            }
        },
    }
}

impl ClientTls {
    /// What came of reading, or why the node cannot encrypt.
    pub open spec fn outcome(result: Result<ClientTls, TlsError>) -> Result<
        Seq<Seq<u8>>,
        TlsFailure,
    > {
        match result {
            Ok(tls) => Ok(tls@),
            Err(error) => Err(error@),
        }
    }

    /// Reads the certificates and the private key that the node shows itself
    /// with.
    pub fn from_pem(certificates: &[u8], private_key: &[u8]) -> (result: Result<Self, TlsError>)
        ensures
            ClientTls::outcome(result) == client_tls_of(
                certificates_in(certificates@),
                private_key_in(private_key@),
                unusable(
                    certificates_in(certificates@)->Ok_0,
                    private_key_in(private_key@)->Ok_0,
                ),
            ),
            result matches Ok(tls) ==> tls.accepts_with() == acceptor_made(
                certificates_in(certificates@)->Ok_0,
                private_key_in(private_key@)->Ok_0,
            ),
    {
        let chain = match certificates_of(certificates) {
            Ok(chain) => chain,
            Err(complaint) => return Err(TlsError::Certificate(complaint)),
        };
        if chain.len() == 0 {
            return Err(TlsError::NoCertificate);
        }
        let key = match private_key_of(private_key) {
            Ok(key) => key,
            Err(complaint) => return Err(TlsError::PrivateKey(complaint)),
        };
        match acceptor_of(&chain, &key) {
            Ok(acceptor) => Ok(ClientTls { chain, acceptor }),
            Err(complaint) => Err(TlsError::Unusable(complaint)),
        }
    }

    /// What a connection is accepted with.
    pub closed spec fn accepts_with(&self) -> TlsAcceptor {
        self.acceptor
    }

    /// What a connection is accepted with.
    pub fn acceptor(&self) -> (acceptor: &TlsAcceptor)
        ensures
            *acceptor == self.accepts_with(),
    {
        &self.acceptor
    }
}

/// What a node encrypts its connections to a server with.
#[derive(Debug, Clone, Copy, PartialEq, Eq, Structural)]
pub enum TlsPlan {
    /// Never encrypt.
    Off,
    /// Encrypt, and take whatever certificate the server shows.
    AnyCertificate,
    /// Encrypt, and check the server's certificate against the root
    /// certificates, with or without its name.
    Checked { name: bool },
}

/// Whether a server's certificate passes, by what checking it against the root
/// certificates came to: nothing is wrong, or something is, which is `true`
/// where the certificate is for another name and nothing else is wrong with it.
/// Where the name is not checked, that is passed over; where nothing is checked,
/// everything passes.
pub fn passes(plan: TlsPlan, failure: Option<bool>) -> (b: bool)
    ensures
        b == (plan == TlsPlan::Off || plan == TlsPlan::AnyCertificate || failure is None || (
        failure == Some(true) && plan == (TlsPlan::Checked { name: false }))),
{
    match plan {
        TlsPlan::Off => true,
        TlsPlan::AnyCertificate => true,
        TlsPlan::Checked { name } => match failure {
            None => true,
            Some(only_name) => only_name && !name,
        },
    }
}

/// `tokio_rustls::rustls::RootCertStore`: it is opaque.
#[verifier::external_type_specification]
#[verifier::external_body]
pub struct ExRootCertStore(RootCertStore);

/// `tokio_rustls::rustls::client::WebPkiServerVerifier`: it is opaque.
#[verifier::external_type_specification]
#[verifier::external_body]
pub struct ExWebPkiServerVerifier(WebPkiServerVerifier);

/// What keeps a certificate from being a trust anchor, if anything.
pub uninterp spec fn no_anchor(certificate: Seq<u8>) -> Option<Seq<char>>;

/// What checks certificates against those root certificates.
pub uninterp spec fn verifier_made(roots: Seq<Seq<u8>>) -> WebPkiServerVerifier;

/// The root certificates that a store was given. None is made but by
/// [`no_roots`], so that what it stands for is what it was given.
struct Roots {
    store: RootCertStore,
    given: Ghost<Seq<Seq<u8>>>,
}

impl View for Roots {
    type V = Seq<Seq<u8>>;

    closed spec fn view(&self) -> Seq<Seq<u8>> {
        self.given@
    }
}

/// What keeps a certificate from use, if anything.
spec fn anchor_view(added: Result<(), String>) -> Option<Seq<char>> {
    match added {
        Ok(()) => None,
        Err(complaint) => Some(complaint@),
    }
}

/// `RootCertStore::empty`: a store that was given nothing.
#[verifier::external_body]
fn no_roots() -> (roots: Roots)
    ensures
        roots@ == Seq::<Seq<u8>>::empty(),
{
    Roots { store: RootCertStore::empty(), given: Ghost(arbitrary()) }
}

/// `RootCertStore::add`: the store is given a certificate that can be a trust
/// anchor, and stays as it is where the certificate cannot. What keeps a
/// certificate from it is named.
#[verifier::external_body]
fn add_root(roots: &mut Roots, certificate: &Vec<u8>) -> (added: Result<(), String>)
    ensures
        anchor_view(added) == no_anchor(certificate@),
        added is Ok ==> final(roots)@ == old(roots)@.push(certificate@),
        added is Err ==> final(roots)@ == old(roots)@,
{
    let certificate = CertificateDer::from(certificate.clone());
    roots.store.add(certificate).map_err(|error| error.to_string())
}

/// `WebPkiServerVerifier::builder_with_provider` and its `build`: there is
/// something to check certificates with unless there is no root certificate.
/// What it is is named.
#[verifier::external_body]
fn verifier_with(roots: Roots) -> (made: Result<Arc<WebPkiServerVerifier>, String>)
    ensures
        made is Ok <==> roots@.len() > 0,
        made matches Ok(verifier) ==> *verifier == verifier_made(roots@),
{
    let provider = Arc::new(ring::default_provider());
    WebPkiServerVerifier::builder_with_provider(Arc::new(roots.store), provider)
        .build()
        .map_err(|error| error.to_string())
}

/// What is wrong with the first of some root certificates that cannot be a
/// trust anchor, if any cannot.
pub open spec fn anchor_fault(roots: Seq<Seq<u8>>) -> Option<Seq<char>>
    decreases roots.len(),
{
    if roots.len() == 0 {
        None
    } else {
        match anchor_fault(roots.drop_last()) {
            Some(complaint) => Some(complaint),
            None => no_anchor(roots.last()),
        }
    }
}

/// The root certificates that a PEM text holds, if there is one.
pub open spec fn roots_in(root: Option<&[u8]>) -> Option<Result<Seq<Seq<u8>>, Seq<char>>> {
    match root {
        Some(pem) => Some(certificates_in(pem@)),
        None => None,
    }
}

/// What is wrong with the root certificates that a PEM text holds, where it
/// holds any.
pub open spec fn roots_fault(root: Option<&[u8]>) -> Option<Seq<char>> {
    anchor_fault(roots_in(root)->0->Ok_0)
}

/// A fault among some root certificates is one of them all.
proof fn lemma_a_fault_stays(roots: Seq<Seq<u8>>, n: int)
    requires
        0 <= n <= roots.len(),
        anchor_fault(roots.subrange(0, n)) is Some,
    ensures
        anchor_fault(roots) == anchor_fault(roots.subrange(0, n)),
    decreases roots.len() - n,
{
    if n == roots.len() {
        assert(roots.subrange(0, n) =~= roots);
    } else {
        assert(roots.subrange(0, n + 1).drop_last() =~= roots.subrange(0, n));
        lemma_a_fault_stays(roots, n + 1);
    }
}

/// What checks certificates against some root certificates, or why nothing can.
fn checked_against(certificates: &Vec<Vec<u8>>) -> (made: Result<
    Arc<WebPkiServerVerifier>,
    String,
>)
    requires
        certificates@.len() > 0,
    ensures
        made matches Ok(verifier) ==> {
            &&& anchor_fault(chain_bytes(certificates@)) is None
            &&& *verifier == verifier_made(chain_bytes(certificates@))
        },
        made matches Err(complaint) ==> anchor_fault(chain_bytes(certificates@)) == Some(
            complaint@,
        ),
{
    let ghost all = chain_bytes(certificates@);
    let mut roots = no_roots();
    let mut i: usize = 0;
    while i < certificates.len()
        invariant
            i <= certificates@.len(),
            all == chain_bytes(certificates@),
            roots@ =~= all.subrange(0, i as int),
            anchor_fault(all.subrange(0, i as int)) is None,
        decreases certificates@.len() - i,
    {
        let added = add_root(&mut roots, &certificates[i]);
        proof {
            assert(all.subrange(0, i + 1).drop_last() =~= all.subrange(0, i as int));
            assert(all.subrange(0, i + 1).last() == certificates@[i as int]@);
        }
        match added {
            Ok(()) => {},
            Err(complaint) => {
                proof {
                    lemma_a_fault_stays(all, i + 1);
                }
                return Err(complaint);
            },
        }
        i += 1;
    }
    assert(all.subrange(0, i as int) =~= all);
    verifier_with(roots)
}

/// How this node encrypts the connections it opens to a server: the mode, the
/// certificates that a server's certificate is checked against, and what checks
/// it.
#[derive(Debug)]
pub struct ServerTls {
    mode: SslMode,
    roots: Vec<Vec<u8>>,
    checks: Option<Arc<WebPkiServerVerifier>>,
}

/// How a node encrypts, with bytes as sequences.
#[verifier::ext_equal]
pub struct ServerTlsView {
    pub mode: SslMode,
    pub roots: Seq<Seq<u8>>,
}

impl View for ServerTls {
    type V = ServerTlsView;

    closed spec fn view(&self) -> ServerTlsView {
        ServerTlsView { mode: self.mode, roots: chain_bytes(self.roots@) }
    }
}

impl ServerTlsView {
    /// What a node encrypts with.
    pub open spec fn plan(self) -> TlsPlan {
        match self.mode {
            SslMode::Disable => TlsPlan::Off,
            SslMode::Prefer => TlsPlan::AnyCertificate,
            SslMode::Require => TlsPlan::AnyCertificate,
            SslMode::VerifyCa => TlsPlan::Checked { name: false },
            SslMode::VerifyFull => TlsPlan::Checked { name: true },
        }
    }

    /// What checks a server's certificate, if anything does.
    pub open spec fn checks(self) -> Option<WebPkiServerVerifier> {
        if self.mode.verifies() {
            Some(verifier_made(self.roots))
        } else {
            None
        }
    }
}

/// How a node encrypts in a mode, by what was read of the root certificates,
/// if there are any, and what is wrong with them: a mode that checks
/// certificates needs some to check them against, and another reads none.
pub open spec fn server_tls_of(
    mode: SslMode,
    roots: Option<Result<Seq<Seq<u8>>, Seq<char>>>,
    fault: Option<Seq<char>>,
) -> Result<ServerTlsView, TlsFailure> {
    if !mode.verifies() {
        Ok(ServerTlsView { mode, roots: Seq::empty() })
    } else {
        match roots {
            None => Err(TlsFailure::NoRootCertificate),
            Some(Err(complaint)) => Err(TlsFailure::RootCertificate(complaint)),
            Some(Ok(roots)) => if roots.len() == 0 {
                Err(TlsFailure::RootCertificate("holds no certificate"@))
            } else {
                match fault {
                    Some(complaint) => Err(TlsFailure::Verifier(complaint)),
                    None => Ok(ServerTlsView { mode, roots }),
                }
            },
        }
    }
}

impl ServerTls {
    /// What checks a server's certificate is made of the root certificates.
    #[verifier::type_invariant]
    closed spec fn wf(self) -> bool {
        match self.checks {
            Some(verifier) => self@.checks() == Some(*verifier),
            None => self@.checks() is None,
        }
    }

    /// What came of reading, or why the node cannot encrypt.
    pub open spec fn outcome(result: Result<ServerTls, TlsError>) -> Result<
        ServerTlsView,
        TlsFailure,
    > {
        match result {
            Ok(tls) => Ok(tls@),
            Err(error) => Err(error@),
        }
    }

    /// How a node encrypts in a mode, with the root certificates in a PEM text.
    pub fn new(mode: SslMode, root: Option<&[u8]>) -> (result: Result<Self, TlsError>)
        ensures
            ServerTls::outcome(result) == server_tls_of(
                mode,
                roots_in(root),
                roots_fault(root),
            ),
    {
        if !mode.verifies_certificate() {
            let tls = ServerTls { mode, roots: Vec::new(), checks: None };
            assert(tls@ =~= ServerTlsView { mode, roots: Seq::empty() });
            return Ok(tls);
        }
        match root {
            None => Err(TlsError::NoRootCertificate),
            Some(pem) => match certificates_of(pem) {
                Err(complaint) => Err(TlsError::RootCertificate(complaint)),
                Ok(roots) => if roots.len() == 0 {
                    Err(TlsError::RootCertificate("holds no certificate".to_owned()))
                } else {
                    match checked_against(&roots) {
                        Ok(verifier) => Ok(ServerTls { mode, roots, checks: Some(verifier) }),
                        Err(complaint) => Err(TlsError::Verifier(complaint)),
                    }
                },
            },
        }
    }

    /// Never encrypts.
    pub fn disabled() -> (tls: Self)
        ensures
            tls@ == (ServerTlsView { mode: SslMode::Disable, roots: Seq::empty() }),
    {
        let tls = ServerTls { mode: SslMode::Disable, roots: Vec::new(), checks: None };
        assert(tls@ =~= ServerTlsView { mode: SslMode::Disable, roots: Seq::empty() });
        tls
    }

    pub fn mode(&self) -> (mode: SslMode)
        ensures
            mode == self@.mode,
    {
        self.mode
    }

    /// The certificates that a server's certificate is checked against.
    pub fn roots(&self) -> (roots: &Vec<Vec<u8>>)
        ensures
            chain_bytes(roots@) == self@.roots,
    {
        &self.roots
    }

    /// What checks a server's certificate, if anything does.
    pub fn certificate_check(&self) -> (checks: Option<&Arc<WebPkiServerVerifier>>)
        ensures
            checks matches Some(verifier) ==> self@.checks() == Some(**verifier),
            checks is None ==> self@.checks() is None,
    {
        proof {
            use_type_invariant(self);
        }
        match &self.checks {
            Some(verifier) => Some(verifier),
            None => None,
        }
    }

    /// What the node encrypts with.
    pub fn plan(&self) -> (plan: TlsPlan)
        ensures
            plan == self@.plan(),
    {
        match self.mode {
            SslMode::Disable => TlsPlan::Off,
            SslMode::Prefer => TlsPlan::AnyCertificate,
            SslMode::Require => TlsPlan::AnyCertificate,
            SslMode::VerifyCa => TlsPlan::Checked { name: false },
            SslMode::VerifyFull => TlsPlan::Checked { name: true },
        }
    }
}

/// A node that checks certificates has certificates to check them against, and
/// one that does not never reads any.
pub proof fn law_what_is_checked_is_checked_against_something(
    mode: SslMode,
    roots: Option<Result<Seq<Seq<u8>>, Seq<char>>>,
    fault: Option<Seq<char>>,
)
    ensures
        server_tls_of(mode, roots, fault) matches Ok(tls) ==> {
            &&& tls.mode == mode
            &&& tls.plan() is Checked <==> tls.roots.len() > 0
            &&& tls.plan() is Checked <==> tls.checks() is Some
            &&& tls.plan() is Checked ==> fault is None
        },
{
}

/// Each mode insists on as much as it says: `disable` never encrypts, `prefer`
/// carries on in the clear, `require` does not, `verify-ca` checks the certificate
/// as well, and `verify-full` its name too.
pub proof fn law_each_mode_insists_on_as_much_as_it_says(tls: ServerTlsView)
    ensures
        tls.mode.demands() <==> tls.mode != SslMode::Disable && tls.mode != SslMode::Prefer,
        tls.mode.verifies() <==> tls.mode == SslMode::VerifyCa || tls.mode == SslMode::VerifyFull,
        tls.plan() == TlsPlan::Off <==> tls.mode == SslMode::Disable,
        tls.plan() == (TlsPlan::Checked { name: true }) <==> tls.mode == SslMode::VerifyFull,
        tls.plan() == (TlsPlan::Checked { name: false }) <==> tls.mode == SslMode::VerifyCa,
        tls.plan() == TlsPlan::AnyCertificate <==> tls.mode == SslMode::Prefer || tls.mode
            == SslMode::Require,
        tls.checks() is Some <==> tls.mode.verifies(),
{
}

/// A node can encrypt toward a server wherever the mode checks nothing, and else
/// exactly where a root certificate is named, can be read, holds a certificate and
/// every one of them can be a trust anchor; what it cannot is told for the first of
/// these reasons.
pub proof fn law_a_node_that_checks_needs_usable_roots(
    mode: SslMode,
    roots: Option<Result<Seq<Seq<u8>>, Seq<char>>>,
    fault: Option<Seq<char>>,
)
    ensures
        !(mode == SslMode::VerifyCa || mode == SslMode::VerifyFull) ==> server_tls_of(
            mode,
            roots,
            fault,
        ) == Ok::<ServerTlsView, TlsFailure>(ServerTlsView { mode, roots: Seq::empty() }),
        mode == SslMode::VerifyCa || mode == SslMode::VerifyFull ==> {
            let result = server_tls_of(mode, roots, fault);
            &&& result is Ok <==> roots is Some && roots->0 is Ok && roots->0->Ok_0.len() > 0
                && fault is None
            &&& result matches Ok(tls) ==> tls.mode == mode && tls.roots == roots->0->Ok_0
            &&& roots is None ==> result == Err::<ServerTlsView, TlsFailure>(
                TlsFailure::NoRootCertificate,
            )
            &&& roots is Some && (roots->0 is Err || roots->0->Ok_0.len() == 0) ==> (result matches
                Err(TlsFailure::RootCertificate(_)))
        },
{
}

/// The first certificate that cannot be a trust anchor is told, and none where all
/// can.
pub proof fn law_the_first_unusable_root_is_told(roots: Seq<Seq<u8>>, n: int)
    requires
        0 <= n <= roots.len(),
        forall|k: int| 0 <= k < n ==> no_anchor(#[trigger] roots[k]) is None,
    ensures
        n == roots.len() ==> anchor_fault(roots) is None,
        n < roots.len() && no_anchor(roots[n]) is Some ==> anchor_fault(roots) == no_anchor(
            roots[n],
        ),
    decreases roots.len(),
{
    if roots.len() > 0 {
        let shorter = roots.drop_last();
        if n < roots.len() {
            law_the_first_unusable_root_is_told(shorter, n);
        } else {
            law_the_first_unusable_root_is_told(shorter, n - 1);
        }
    }
}

/// A node can encrypt toward clients exactly where its certificates can be read and
/// there is one, its key can be read, and the two make a configuration; what it
/// cannot is told for the first of these reasons.
pub proof fn law_a_node_that_encrypts_needs_a_chain_and_its_key(
    chain: Result<Seq<Seq<u8>>, Seq<char>>,
    key: Result<KeyView, Seq<char>>,
    fault: Option<Seq<char>>,
)
    ensures
        ({
            let result = client_tls_of(chain, key, fault);
            &&& result is Ok <==> chain is Ok && chain->Ok_0.len() > 0 && key is Ok && fault is None
            &&& result matches Ok(shown) ==> shown == chain->Ok_0
            &&& chain matches Err(complaint) ==> result == Err::<Seq<Seq<u8>>, TlsFailure>(
                TlsFailure::Certificate(complaint),
            )
            &&& chain is Ok && chain->Ok_0.len() == 0 ==> result == Err::<
                Seq<Seq<u8>>,
                TlsFailure,
            >(TlsFailure::NoCertificate)
            &&& chain is Ok && chain->Ok_0.len() > 0 && key is Err ==> result == Err::<
                Seq<Seq<u8>>,
                TlsFailure,
            >(TlsFailure::PrivateKey(key->Err_0))
        }),
{
}

} // verus!
