//! How a client is to prove who it is.
use vstd::prelude::*;

use crate::order::Dup;
use crate::ordmap::OrdMap;
use crate::scram::{ScramVerifier, VerifierView};
use crate::tenant::TenantId;
use crate::text::IntoText;

verus! {

/// How a user proves who it is.
#[derive(PartialEq, Eq)]
pub enum AuthMethod {
    Trust,
    ScramSha256(ScramVerifier),
}

/// How a user proves who it is.
pub enum MethodView {
    Trust,
    ScramSha256(VerifierView),
}

impl View for AuthMethod {
    type V = MethodView;

    open spec fn view(&self) -> MethodView {
        match *self {
            AuthMethod::Trust => MethodView::Trust,
            AuthMethod::ScramSha256(verifier) => MethodView::ScramSha256(verifier@),
        }
    }
}

impl Dup for AuthMethod {
    fn dup(&self) -> (copy: Self) {
        match self {
            AuthMethod::Trust => AuthMethod::Trust,
            AuthMethod::ScramSha256(verifier) => AuthMethod::ScramSha256(verifier.dup()),
        }
    }
}

impl Clone for AuthMethod {
    fn clone(&self) -> (copy: Self)
        ensures
            copy@ == self@,
    {
        self.dup()
    }
}

/// What answers how a tenant proves who it is: nothing, for one it does not
/// know.
pub trait Credentials {
    fn method(&self, tenant: &TenantId) -> Option<AuthMethod>;
}

/// Takes everybody at their word.
#[derive(Debug, Clone, Copy, PartialEq, Eq, Structural)]
pub struct TrustAll;

impl Credentials for TrustAll {
    fn method(&self, tenant: &TenantId) -> (method: Option<AuthMethod>)
        ensures
            method matches Some(m) && m@ == MethodView::Trust,
    {
        Some(AuthMethod::Trust)
    }
}

/// The users this node can authenticate, looked up by user name because a
/// tenant is a user and a database while a verifier belongs to the user alone.
/// A user the table does not name has no method: the caller still plays the
/// exchange out with a mock verifier, so that asking cannot tell whether a user
/// exists.
pub struct ClientCredentials {
    users: OrdMap<String, AuthMethod>,
}

impl View for ClientCredentials {
    type V = Map<Seq<char>, MethodView>;

    closed spec fn view(&self) -> Map<Seq<char>, MethodView> {
        self.users@
    }
}

impl ClientCredentials {
    pub fn new() -> (credentials: Self)
        ensures
            credentials@ == Map::<Seq<char>, MethodView>::empty(),
    {
        ClientCredentials { users: OrdMap::new() }
    }

    /// Says how a user proves who it is.
    pub fn insert<T: IntoText>(&mut self, user: T, method: AuthMethod)
        ensures
            final(self)@ == old(self)@.insert(user.text(), method@),
    {
        self.users.insert(user.into_text(), method);
    }
}

impl Credentials for ClientCredentials {
    fn method(&self, tenant: &TenantId) -> (method: Option<AuthMethod>)
        ensures
            method is Some <==> self@.contains_key(tenant@.0),
            method matches Some(m) ==> m@ == self@[tenant@.0],
    {
        match self.users.get(&tenant.user().to_owned()) {
            Some(method) => Some(method.dup()),
            None => None,
        }
    }
}

impl Default for ClientCredentials {
    fn default() -> (credentials: Self)
        ensures
            credentials@ == Map::<Seq<char>, MethodView>::empty(),
    {
        ClientCredentials::new()
    }
}

} // verus!
