//! What a client asks for when it opens a connection.
use vstd::prelude::*;

use crate::order::{same_text, Dup, Key, Order};

verus! {

/// A version of the protocol.
#[derive(Debug, Clone, Copy, PartialEq, Eq, Structural)]
pub struct ProtocolVersion {
    pub major: u16,
    pub minor: u16,
}

/// What names a backend to a server, and proves the right to cancel what it
/// runs.
#[derive(Debug, Clone, Copy, PartialEq, Eq, Hash, Structural)]
pub struct CancelKey {
    pub process_id: i32,
    pub secret_key: i32,
}

impl View for CancelKey {
    type V = CancelKey;

    open spec fn view(&self) -> CancelKey {
        *self
    }
}

impl Dup for CancelKey {
    fn dup(&self) -> (copy: Self) {
        *self
    }
}

impl Key for CancelKey {
    open spec fn before(a: CancelKey, b: CancelKey) -> bool {
        a.process_id < b.process_id || (a.process_id == b.process_id && a.secret_key
            < b.secret_key)
    }

    proof fn irreflexive(a: CancelKey) {
    }

    proof fn transitive(a: CancelKey, b: CancelKey, c: CancelKey) {
    }

    proof fn total(a: CancelKey, b: CancelKey) {
    }

    fn compare(&self, other: &Self) -> (order: Order) {
        if self.process_id < other.process_id {
            Order::Before
        } else if self.process_id > other.process_id {
            Order::After
        } else if self.secret_key < other.secret_key {
            Order::Before
        } else if self.secret_key > other.secret_key {
            Order::After
        } else {
            Order::Same
        }
    }
}

/// The startup message: the protocol version a client speaks and the
/// parameters it names, in the order in which it names them.
#[derive(Debug, PartialEq, Eq)]
pub struct StartupMessage {
    version: ProtocolVersion,
    parameters: Vec<(String, String)>,
}

/// The parameters of a startup message as names and values.
pub open spec fn parameter_list(parameters: Seq<(String, String)>) -> Seq<(Seq<char>, Seq<char>)> {
    Seq::new(parameters.len(), |i: int| (parameters[i].0@, parameters[i].1@))
}

/// The value of the first parameter of that name, unless there is none or it
/// is empty.
pub open spec fn parameter(
    parameters: Seq<(Seq<char>, Seq<char>)>,
    name: Seq<char>,
) -> Option<Seq<char>>
    decreases parameters.len(),
{
    if parameters.len() == 0 {
        None
    } else if parameters[0].0 == name {
        if parameters[0].1.len() == 0 {
            None
        } else {
            Some(parameters[0].1)
        }
    } else {
        parameter(parameters.drop_first(), name)
    }
}

impl View for StartupMessage {
    type V = Seq<(Seq<char>, Seq<char>)>;

    /// The parameters, in order.
    closed spec fn view(&self) -> Seq<(Seq<char>, Seq<char>)> {
        parameter_list(self.parameters@)
    }
}

impl StartupMessage {
    pub closed spec fn protocol(&self) -> ProtocolVersion {
        self.version
    }

    pub fn new(version: ProtocolVersion, parameters: Vec<(String, String)>) -> (message: Self)
        ensures
            message@ == parameter_list(parameters@),
            message.protocol() == version,
    {
        StartupMessage { version, parameters }
    }

    pub fn version(&self) -> (version: ProtocolVersion)
        ensures
            version == self.protocol(),
    {
        self.version
    }

    /// The parameters, in order.
    pub fn parameters(&self) -> (parameters: &Vec<(String, String)>)
        ensures
            parameter_list(parameters@) == self@,
    {
        &self.parameters
    }

    /// The value of the parameter `name`.
    pub fn get(&self, name: &str) -> (value: Option<&str>)
        ensures
            value is Some <==> parameter(self@, name@) is Some,
            value matches Some(v) ==> parameter(self@, name@) == Some(v@),
    {
        let ghost all = self@;
        let mut i: usize = 0;
        assert(all.subrange(0, all.len() as int) =~= all);
        while i < self.parameters.len()
            invariant
                i <= self.parameters@.len(),
                all == parameter_list(self.parameters@),
                all == self@,
                parameter(all, name@) == parameter(
                    all.subrange(i as int, all.len() as int),
                    name@,
                ),
            decreases self.parameters@.len() - i,
        {
            let ghost rest = all.subrange(i as int, all.len() as int);
            assert(rest[0] == all[i as int]);
            assert(rest.drop_first() =~= all.subrange(i + 1, all.len() as int));
            if same_text(self.parameters[i].0.as_str(), name) {
                let value = self.parameters[i].1.as_str();
                return if value.is_empty() { None } else { Some(value) };
            }
            i += 1;
        }
        None
    }

    /// The user, unless none or an empty one is named.
    pub fn user(&self) -> (user: Option<&str>)
        ensures
            user is Some <==> parameter(self@, "user"@) is Some,
            user matches Some(v) ==> parameter(self@, "user"@) == Some(v@),
    {
        self.get("user")
    }

    /// The database, unless none or an empty one is named.
    pub fn database(&self) -> (database: Option<&str>)
        ensures
            database is Some <==> parameter(self@, "database"@) is Some,
            database matches Some(v) ==> parameter(self@, "database"@) == Some(v@),
    {
        self.get("database")
    }
}

/// A parameter has the value that the client names first under its name; one that
/// is named behind others of other names is found as well as one that is named
/// alone, and one that is never named, or first named empty, has none.
pub proof fn law_a_parameter_has_the_value_named_first(
    before: Seq<(Seq<char>, Seq<char>)>,
    name: Seq<char>,
    value: Seq<char>,
    after: Seq<(Seq<char>, Seq<char>)>,
)
    requires
        forall|k: int| 0 <= k < before.len() ==> (#[trigger] before[k]).0 != name,
    ensures
        parameter(before, name) is None,
        value.len() > 0 ==> parameter(before + seq![(name, value)] + after, name) == Some(value),
        value.len() == 0 ==> parameter(before + seq![(name, value)] + after, name) is None,
    decreases before.len(),
{
    let all = before + seq![(name, value)] + after;
    if before.len() > 0 {
        let rest = before.drop_first();
        assert(all[0] == before[0]);
        assert(before[0].0 != name);
        assert forall|k: int| 0 <= k < rest.len() implies (#[trigger] rest[k]).0 != name by {
            assert(rest[k] == before[k + 1]);
        }
        law_a_parameter_has_the_value_named_first(rest, name, value, after);
        assert(all.drop_first() =~= rest + seq![(name, value)] + after);
    } else {
        assert(all[0] == (name, value));
    }
}

} // verus!
