//! Tenants: who connects to what.
use vstd::prelude::*;
use vstd::string::StringExecFns;

use crate::order::{
    lemma_pair_irreflexive, lemma_pair_total, lemma_pair_transitive, pair_before, Dup, Key, Order,
};
use crate::startup::{parameter, StartupMessage};
use crate::text::IntoText;

verus! {

/// A tenant's user and database.
pub type TenantName = (Seq<char>, Seq<char>);

/// A tenant: a user together with the database it connects to.
#[derive(Debug, PartialEq, Eq, Hash, PartialOrd, Ord)]
pub struct TenantId {
    user: String,
    database: String,
}

#[derive(Debug, Clone, Copy, PartialEq, Eq, Structural)]
pub enum TenantResolveError {
    MissingUser,
}

impl TenantResolveError {
    /// The error in words.
    pub fn to_string(&self) -> (text: String)
        ensures
            text@ == "no user name in the startup message; a tenant is a user and a database"@,
    {
        "no user name in the startup message; a tenant is a user and a database".to_owned()
    }
}

impl View for TenantId {
    type V = TenantName;

    closed spec fn view(&self) -> TenantName {
        (self.user@, self.database@)
    }
}

/// A tenant as it is written: the user, `@`, the database.
pub open spec fn tenant_text(tenant: TenantName) -> Seq<char> {
    tenant.0 + "@"@ + tenant.1
}

/// The tenant of a startup message: its user, and its database or, where none
/// is named, the database called like the user.
pub open spec fn tenant_of(parameters: Seq<(Seq<char>, Seq<char>)>) -> Option<TenantName> {
    match parameter(parameters, "user"@) {
        Some(user) => match parameter(parameters, "database"@) {
            Some(database) => Some((user, database)),
            None => Some((user, user)),
        },
        None => None,
    }
}

impl TenantId {
    pub fn new<U: IntoText, D: IntoText>(user: U, database: D) -> (tenant: Self)
        ensures
            tenant@ == (user.text(), database.text()),
    {
        TenantId { user: user.into_text(), database: database.into_text() }
    }

    pub fn from_startup(startup: &StartupMessage) -> (tenant: Result<Self, TenantResolveError>)
        ensures
            tenant is Ok <==> tenant_of(startup@) is Some,
            tenant matches Ok(t) ==> tenant_of(startup@) == Some(t@),
            tenant matches Err(e) ==> e == TenantResolveError::MissingUser,
    {
        match startup.user() {
            Some(user) => {
                let database = match startup.database() {
                    Some(database) => database,
                    None => user,
                };
                Ok(TenantId::new(user, database))
            },
            None => Err(TenantResolveError::MissingUser),
        }
    }

    pub fn user(&self) -> (user: &str)
        ensures
            user@ == self@.0,
    {
        self.user.as_str()
    }

    pub fn database(&self) -> (database: &str)
        ensures
            database@ == self@.1,
    {
        self.database.as_str()
    }

    /// The tenant as `user@database`.
    pub fn to_string(&self) -> (text: String)
        ensures
            text@ == tenant_text(self@),
    {
        let mut text = self.user.clone();
        text.append("@");
        text.append(self.database.as_str());
        text
    }
}

impl Clone for TenantId {
    fn clone(&self) -> (copy: Self)
        ensures
            copy@ == self@,
    {
        TenantId { user: self.user.clone(), database: self.database.clone() }
    }
}

impl Dup for TenantId {
    fn dup(&self) -> (copy: Self) {
        self.clone()
    }
}

impl Key for TenantId {
    open spec fn before(a: TenantName, b: TenantName) -> bool {
        pair_before::<String, String>(a, b)
    }

    proof fn irreflexive(a: TenantName) {
        lemma_pair_irreflexive::<String, String>(a);
    }

    proof fn transitive(a: TenantName, b: TenantName, c: TenantName) {
        lemma_pair_transitive::<String, String>(a, b, c);
    }

    proof fn total(a: TenantName, b: TenantName) {
        lemma_pair_total::<String, String>(a, b);
    }

    fn compare(&self, other: &Self) -> (order: Order) {
        match self.user.compare(&other.user) {
            Order::Same => self.database.compare(&other.database),
            order => order,
        }
    }
}

/// A tenant is the user that a client names and the database it names, or the one
/// called like the user where it names none; without a user there is no tenant.
/// It is written with an `@` between them.
pub proof fn law_a_tenant_is_its_user_and_its_database(
    parameters: Seq<(Seq<char>, Seq<char>)>,
    user: Seq<char>,
    database: Seq<char>,
)
    ensures
        tenant_of(parameters) is None <==> parameter(parameters, "user"@) is None,
        tenant_of(parameters) matches Some(tenant) ==> {
            &&& parameter(parameters, "user"@) == Some(tenant.0)
            &&& parameter(parameters, "database"@) is Some ==> parameter(parameters, "database"@)
                == Some(tenant.1)
            &&& parameter(parameters, "database"@) is None ==> tenant.1 == tenant.0
        },
        tenant_text((user, database)).len() == user.len() + 1 + database.len(),
        tenant_text((user, database)).subrange(0, user.len() as int) == user,
        tenant_text((user, database))[user.len() as int] == '@',
        tenant_text((user, database)).subrange(
            user.len() as int + 1,
            user.len() as int + 1 + database.len(),
        ) == database,
{
    reveal_strlit("@");
    let text = tenant_text((user, database));
    assert(text.subrange(0, user.len() as int) =~= user);
    assert(text.subrange(user.len() as int + 1, user.len() as int + 1 + database.len())
        =~= database);
}

} // verus!
