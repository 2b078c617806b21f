//! The admin console: what an operator reads of a node, and what they set.
use vstd::prelude::*;
use vstd::string::StringExecFns;

use crate::allocation::{
    entry_fits, holder_keys, holder_list, table_budget, table_slots, table_total, AllocationTable, DesiredView,
    Holder, HolderName, InstanceId, ProxyId, Slot, SlotName, TableView,
};
use crate::budget::{budget_shortfall, budget_total, reserved_total, TotalBudget};
use crate::grant::TenantPolicy;
use crate::order::{same_key, same_text};
use crate::ordmap::{lemma_listing, lemma_rising_distinct, listing, lists};
use crate::policy::{refusal_text, PolicyChange, Refusal, SettingError};
use crate::pool::PoolStats;
use crate::relay::{QUERY, SYNC, TERMINATE};
use crate::response::{
    cells, columns_of, replies, Column, ColumnView, ErrorResponse, Reply, ReplyView, ResponseView,
    TransactionStatus,
};
use crate::safety::lemma_listable;
use crate::sorting::{
    comes_first, key_views, lemma_sorted_order_is_one, places, sort, sorted_order,
};
use crate::sums::slot_sum;
use crate::tenant::{tenant_text, TenantId, TenantName};
use crate::text::{decimal, decimal_text};

verus! {

/// What every table the console writes reports as its command tag, the way
/// PostgreSQL answers a `SHOW`.
pub const TAG: &'static str = "SHOW";

/// What a written setting reports as its command tag, the way PostgreSQL
/// answers a `SET`.
pub const SET_TAG: &'static str = "SET";

/// The database a client names to reach the admin console instead of an
/// instance. It is reserved: a tenant rule that names it is never consulted,
/// so the console is reachable on every node without configuring it.
pub const DATABASE: &'static str = "pgsteward";

/// What this node answers today. The console's language is wider than this,
/// and every refusal points back at the part that is served.
pub const SERVED: &'static str =
    "This node serves SHOW POOLS, SHOW BUDGET, SHOW INSTANCES, SET TENANT and SET INSTANCE.";

/// Whether this client asked for the admin console rather than for an
/// instance. The database alone decides it, so an operator reaches the console
/// with whatever login the node already authenticates.
pub fn is_console(tenant: &TenantId) -> (console: bool)
    ensures
        console == (tenant@.1 == "pgsteward"@),
{
    same_text(tenant.database(), DATABASE)
}

/// Why the console stops.
#[derive(Debug, PartialEq, Eq)]
pub enum ConsoleError {
    Io(String),
    Frame(String),
    Message(String),
    Frontend(String),
}

/// Why the console stops, in words.
pub open spec fn console_text(error: ConsoleError) -> Seq<char> {
    match error {
        ConsoleError::Io(source) => "i/o error while serving the admin console: "@ + source@,
        ConsoleError::Frame(source) => "malformed message: "@ + source@,
        ConsoleError::Message(source) => source@,
        ConsoleError::Frontend(source) => source@,
    }
}

impl ConsoleError {
    /// The error in words.
    pub fn to_string(&self) -> (text: String)
        ensures
            text@ == console_text(*self),
    {
        match self {
            ConsoleError::Io(source) => {
                let mut text = "i/o error while serving the admin console: ".to_owned();
                text.append(source.as_str());
                text
            },
            ConsoleError::Frame(source) => {
                let mut text = "malformed message: ".to_owned();
                text.append(source.as_str());
                text
            },
            ConsoleError::Message(source) => source.clone(),
            ConsoleError::Frontend(source) => source.clone(),
        }
    }
}

/// What the console tells about itself before it reads a command.
///
/// A console session runs no query on any instance, so none of these values
/// comes from a server: they describe how the console itself writes its
/// answers.
pub open spec fn console_greeting(version: Seq<char>) -> Seq<ReplyView> {
    seq![
        ReplyView::Parameter { name: "server_version"@, value: version + " (PgSteward)"@ },
        ReplyView::Parameter { name: "server_encoding"@, value: "UTF8"@ },
        ReplyView::Parameter { name: "client_encoding"@, value: "UTF8"@ },
        ReplyView::Parameter { name: "DateStyle"@, value: "ISO"@ },
        ReplyView::Parameter { name: "TimeZone"@, value: "UTC"@ },
        ReplyView::Parameter { name: "standard_conforming_strings"@, value: "on"@ },
        ReplyView::Ready(TransactionStatus::Idle),
    ]
}

fn parameter(name: &str, value: &str) -> (reply: Reply)
    ensures
        reply@ == (ReplyView::Parameter { name: name@, value: value@ }),
{
    Reply::Parameter { name: name.to_owned(), value: value.to_owned() }
}

/// What the console of a node of this version greets a client with.
pub fn greeting(version: &str) -> (greeting: Vec<Reply>)
    ensures
        replies(greeting@) == console_greeting(version@),
{
    let mut shown = version.to_owned();
    shown.append(" (PgSteward)");
    let mut out: Vec<Reply> = Vec::new();
    out.push(parameter("server_version", shown.as_str()));
    out.push(parameter("server_encoding", "UTF8"));
    out.push(parameter("client_encoding", "UTF8"));
    out.push(parameter("DateStyle", "ISO"));
    out.push(parameter("TimeZone", "UTC"));
    out.push(parameter("standard_conforming_strings", "on"));
    out.push(Reply::Ready(TransactionStatus::Idle));
    assert(replies(out@) =~= console_greeting(version@));
    out
}

/// What a command changes of a tenant.
#[derive(Debug, Clone, Copy, PartialEq, Eq, Structural)]
pub struct TenantSettings {
    pub min: Option<u32>,
    pub max: Option<u32>,
    pub weight: Option<u32>,
}

/// A command of the console's language.
#[derive(Debug, PartialEq, Eq)]
pub enum AdminCommand {
    Empty,
    ShowPools,
    ShowBudget,
    ShowInstances,
    SetTenant { tenant: String, settings: TenantSettings },
    SetInstance { instance: String, margin: u32 },
    ShowClients,
    ShowServers,
    ShowConfig,
    Reload,
    Pause,
    Resume,
}

/// A table that the console shows.
#[derive(Debug, Clone, Copy, PartialEq, Eq, Structural)]
pub enum Table {
    Pools,
    Budget,
    Instances,
}

/// What a command leads to.
#[derive(Debug, PartialEq, Eq)]
pub enum Answer {
    /// This is the whole answer.
    Reply(Reply),
    /// Show the table, from one reading of the node.
    Show(Table),
    /// Write the rule of a tenant.
    SetTenant { tenant: String, change: PolicyChange },
    /// Write the margin of an instance.
    SetInstance { instance: String, margin: u32 },
}

/// How a command that is not served is written.
pub open spec fn unserved(command: AdminCommand) -> Option<Seq<char>> {
    match command {
        AdminCommand::ShowClients => Some("SHOW CLIENTS"@),
        AdminCommand::ShowServers => Some("SHOW SERVERS"@),
        AdminCommand::ShowConfig => Some("SHOW CONFIG"@),
        AdminCommand::Reload => Some("RELOAD"@),
        AdminCommand::Pause => Some("PAUSE"@),
        AdminCommand::Resume => Some("RESUME"@),
        _ => None,
    }
}

/// What the console says of a command that it does not serve.
pub open spec fn unserved_response(command: Seq<char>) -> ResponseView {
    ResponseView::error(
        "0A000"@,
        "`"@ + command + "` is part of the admin console but this node does not serve it yet"@,
    ).with_hint(SERVED@)
}

fn not_served(command: &str) -> (answer: Answer)
    ensures
        answer matches Answer::Reply(reply) && reply@ == ReplyView::Error(
            unserved_response(command@),
        ),
{
    let mut message = "`".to_owned();
    message.append(command);
    message.append("` is part of the admin console but this node does not serve it yet");
    Answer::Reply(Reply::Error(ErrorResponse::error("0A000", message).with_hint(SERVED)))
}

fn change_of(settings: TenantSettings) -> (change: PolicyChange)
    ensures
        change.min == settings.min,
        change.max == settings.max,
        change.weight == settings.weight,
{
    PolicyChange { min: settings.min, max: settings.max, weight: settings.weight }
}

/// Decides what a command leads to. What cannot be read as a command comes with
/// what is to be said of it.
pub fn answer(command: Result<AdminCommand, ErrorResponse>) -> (answer: Answer)
    ensures
        match command {
            Err(response) => answer matches Answer::Reply(reply) && reply@ == ReplyView::Error(
                response@,
            ),
            Ok(AdminCommand::Empty) => answer matches Answer::Reply(reply) && reply@
                == ReplyView::EmptyQuery,
            Ok(AdminCommand::ShowPools) => answer == Answer::Show(Table::Pools),
            Ok(AdminCommand::ShowBudget) => answer == Answer::Show(Table::Budget),
            Ok(AdminCommand::ShowInstances) => answer == Answer::Show(Table::Instances),
            Ok(AdminCommand::SetTenant { tenant, settings }) => answer == (Answer::SetTenant {
                tenant,
                change: PolicyChange {
                    min: settings.min,
                    max: settings.max,
                    weight: settings.weight,
                },
            }),
            Ok(AdminCommand::SetInstance { instance, margin }) => answer == (Answer::SetInstance {
                instance,
                margin,
            }),
            Ok(other) => answer matches Answer::Reply(reply) && reply@ == ReplyView::Error(
                unserved_response(unserved(other)->0),
            ),
        },
{
    let command = match command {
        Ok(command) => command,
        Err(response) => return Answer::Reply(Reply::Error(response)),
    };
    match command {
        AdminCommand::Empty => Answer::Reply(Reply::EmptyQuery),
        AdminCommand::ShowPools => Answer::Show(Table::Pools),
        AdminCommand::ShowBudget => Answer::Show(Table::Budget),
        AdminCommand::ShowInstances => Answer::Show(Table::Instances),
        AdminCommand::SetTenant { tenant, settings } => Answer::SetTenant {
            tenant,
            change: change_of(settings),
        },
        AdminCommand::SetInstance { instance, margin } => Answer::SetInstance { instance, margin },
        AdminCommand::ShowClients => not_served("SHOW CLIENTS"),
        AdminCommand::ShowServers => not_served("SHOW SERVERS"),
        AdminCommand::ShowConfig => not_served("SHOW CONFIG"),
        AdminCommand::Reload => not_served("RELOAD"),
        AdminCommand::Pause => not_served("PAUSE"),
        AdminCommand::Resume => not_served("RESUME"),
    }
}

/// Where the operator can read the numbers a setting was weighed against.
pub open spec fn refusal_hint(refusal: Refusal) -> Seq<char> {
    match refusal {
        Refusal::NoSuchTenant { tenant: _ } => {
            "The name is a tenant rule as the cluster configuration writes it, for example `app_web@reports`, `app_web` or `*`."@
        },
        Refusal::NoSuchInstance { instance: _ } => {
            "SHOW INSTANCES names the instances the cluster configuration holds."@
        },
        Refusal::MinAboveMax { min: _, max: _ } => {
            "Write min and max in one command to move both at once."@
        },
        Refusal::ZeroWeight => {
            "A weight is at least 1, which is the value a rule holds unless it says otherwise."@
        },
        Refusal::AboveBudget { instance: _, minimums: _, budget: _ } => {
            "SHOW INSTANCES explains how each total budget was derived."@
        },
    }
}

/// Whether a refusal is on account of a name.
pub open spec fn names_nothing(refusal: Refusal) -> bool {
    refusal is NoSuchTenant || refusal is NoSuchInstance
}

/// What the console sends back when the node will not take a setting.
///
/// A name no rule is written as is an object that does not exist; a value the
/// allocation could not stand behind is a parameter out of range. Each refusal
/// points at where the operator can read the numbers it was weighed against.
pub fn refusal(error: &SettingError) -> (response: ErrorResponse)
    ensures
        response@ == ResponseView::error(
            if names_nothing(error@) {
                "42704"@
            } else {
                "22023"@
            },
            refusal_text(error@),
        ).with_hint(refusal_hint(error@)),
{
    let (code, hint) = match error {
        SettingError::NoSuchTenant { tenant: _ } => (
            "42704",
            "The name is a tenant rule as the cluster configuration writes it, for example `app_web@reports`, `app_web` or `*`.",
        ),
        SettingError::NoSuchInstance { instance: _ } => (
            "42704",
            "SHOW INSTANCES names the instances the cluster configuration holds.",
        ),
        SettingError::MinAboveMax { min: _, max: _ } => (
            "22023",
            "Write min and max in one command to move both at once.",
        ),
        SettingError::ZeroWeight => (
            "22023",
            "A weight is at least 1, which is the value a rule holds unless it says otherwise.",
        ),
        SettingError::AboveBudget { instance: _, minimums: _, budget: _ } => (
            "22023",
            "SHOW INSTANCES explains how each total budget was derived.",
        ),
    };
    ErrorResponse::error(code, error.to_string()).with_hint(hint)
}

/// What the console says once a setting is written, or refused.
pub fn setting_reply(outcome: Result<(), SettingError>) -> (reply: Reply)
    ensures
        match outcome {
            Ok(()) => reply@ == ReplyView::Complete("SET"@),
            Err(error) => reply@ == ReplyView::Error(
                ResponseView::error(
                    if names_nothing(error@) {
                        "42704"@
                    } else {
                        "22023"@
                    },
                    refusal_text(error@),
                ).with_hint(refusal_hint(error@)),
            ),
        },
{
    match outcome {
        Ok(()) => Reply::Complete(SET_TAG),
        Err(error) => Reply::Error(refusal(&error)),
    }
}

/// What the console says to anything but a simple query.
pub open spec fn simple_query_response() -> ResponseView {
    ResponseView::error(
        "0A000"@,
        "the admin console reads the simple query protocol only"@,
    ).with_hint("Send the command as a simple query."@)
}

/// The console reads whole commands, so it has nowhere to put a parse that is
/// bound and executed later.
fn simple_query_only() -> (response: ErrorResponse)
    ensures
        response@ == simple_query_response(),
{
    ErrorResponse::error(
        "0A000",
        "the admin console reads the simple query protocol only".to_owned(),
    ).with_hint("Send the command as a simple query.")
}

/// What a message to the console leads to.
#[derive(Debug, PartialEq, Eq)]
pub enum ConsoleStep {
    /// The client leaves.
    Leave,
    /// Nothing: it belongs to what was refused.
    Ignore,
    /// It is answered with this.
    Reply(Reply),
    /// Answer the command it holds, and then that the console is ready.
    Query,
}

/// A console session: whether it passes over what comes before the next `Sync`.
#[derive(Debug, Clone, Copy, PartialEq, Eq, Structural)]
pub struct Console {
    pub discarding: bool,
}

impl Default for Console {
    fn default() -> (console: Self)
        ensures
            !console.discarding,
    {
        Console { discarding: false }
    }
}

impl Console {
    /// Decides what a message with this tag leads to.
    pub fn on_message(&mut self, tag: u8) -> (step: ConsoleStep)
        ensures
            if tag == TERMINATE {
                step == ConsoleStep::Leave && final(self).discarding == old(self).discarding
            } else if tag == SYNC {
                &&& step matches ConsoleStep::Reply(reply) && reply@ == ReplyView::Ready(
                    TransactionStatus::Idle,
                )
                &&& !final(self).discarding
            } else if old(self).discarding {
                step == ConsoleStep::Ignore && final(self).discarding
            } else if tag == QUERY {
                step == ConsoleStep::Query && !final(self).discarding
            } else {
                &&& step matches ConsoleStep::Reply(reply) && reply@ == ReplyView::Error(
                    simple_query_response(),
                )
                &&& final(self).discarding
            },
    {
        if tag == TERMINATE {
            ConsoleStep::Leave
        } else if tag == SYNC {
            self.discarding = false;
            ConsoleStep::Reply(Reply::Ready(TransactionStatus::Idle))
        } else if self.discarding {
            ConsoleStep::Ignore
        } else if tag == QUERY {
            ConsoleStep::Query
        } else {
            self.discarding = true;
            ConsoleStep::Reply(Reply::Error(simple_query_only()))
        }
    }
}

/// One pool of this node, as it stood when the view was taken.
#[derive(Debug, PartialEq, Eq)]
pub struct PoolSnapshot {
    pub instance: InstanceId,
    pub tenant: TenantId,
    /// The share the cluster configuration gives this tenant, or `None` when
    /// no rule covers it.
    pub policy: Option<TenantPolicy>,
    pub stats: PoolStats,
}

/// One instance this node is configured with, and the total budget derived
/// for it.
#[derive(Debug, PartialEq, Eq)]
pub struct InstanceSnapshot {
    pub instance: InstanceId,
    pub budget: TotalBudget,
}

/// Everything the console reads to write one table.
///
/// It is taken at one moment and nothing in it is read again while the rows
/// are written, so a table never mixes two states of the node.
#[derive(Debug, PartialEq, Eq)]
pub struct ConsoleView {
    pub proxy: ProxyId,
    pub pool_mode: String,
    pub pools: Vec<PoolSnapshot>,
    pub instances: Vec<InstanceSnapshot>,
    pub table: AllocationTable,
}

/// Whether a pool is of that instance, and of that tenant where one is named.
pub open spec fn of_interest(
    pool: PoolSnapshot,
    instance: Seq<char>,
    tenant: Option<TenantName>,
) -> bool {
    pool.instance@ == instance && (tenant matches Some(name) ==> pool.tenant@ == name)
}

/// The connections that this node holds on an instance, for one tenant or over
/// every tenant.
pub open spec fn held_on(
    pools: Seq<PoolSnapshot>,
    instance: Seq<char>,
    tenant: Option<TenantName>,
) -> nat
    decreases pools.len(),
{
    if pools.len() == 0 {
        0
    } else {
        held_on(pools.drop_last(), instance, tenant) + if of_interest(
            pools.last(),
            instance,
            tenant,
        ) {
            pools.last().stats.actual_count()
        } else {
            0
        }
    }
}

/// All the connections that this node holds.
pub open spec fn all_held(pools: Seq<PoolSnapshot>) -> nat
    decreases pools.len(),
{
    if pools.len() == 0 {
        0
    } else {
        all_held(pools.drop_last()) + pools.last().stats.actual_count()
    }
}

proof fn lemma_held_within(
    pools: Seq<PoolSnapshot>,
    instance: Seq<char>,
    tenant: Option<TenantName>,
    n: int,
)
    requires
        0 <= n <= pools.len(),
    ensures
        held_on(pools.take(n), instance, tenant) <= all_held(pools.take(n)) <= all_held(pools),
        n < pools.len() ==> pools[n].stats.actual_count() <= all_held(pools),
        n < pools.len() ==> held_on(pools.take(n + 1), instance, tenant) == held_on(
            pools.take(n),
            instance,
            tenant,
        ) + if of_interest(pools[n], instance, tenant) {
            pools[n].stats.actual_count()
        } else {
            0
        },
    decreases pools.len(), n,
{
    if n > 0 {
        let shorter = pools.take(n).drop_last();
        assert(shorter =~= pools.take(n - 1));
        lemma_held_within(pools, instance, tenant, n - 1);
    }
    if n < pools.len() {
        assert(pools.take(n + 1).drop_last() =~= pools.take(n));
        lemma_all_held_prefix(pools, n + 1);
    }
    lemma_all_held_prefix(pools, n);
}

proof fn lemma_all_held_prefix(pools: Seq<PoolSnapshot>, n: int)
    requires
        0 <= n <= pools.len(),
    ensures
        all_held(pools.take(n)) <= all_held(pools),
    decreases pools.len(),
{
    if n == pools.len() {
        assert(pools.take(n) =~= pools);
    } else {
        lemma_all_held_prefix(pools.drop_last(), n);
        assert(pools.drop_last().take(n) =~= pools.take(n));
    }
}

/// Whether everything in a reading can be counted.
pub open spec fn fits(view: ConsoleView) -> bool {
    countable(view.pools@) && all_held(view.pools@) <= usize::MAX
}

/// The tenants that hold slots on an instance.
pub open spec fn tenants_granted(table: TableView, instance: Seq<char>) -> Set<TenantName> {
    if table.contains_key(instance) {
        table[instance].granted.dom().map(|holder: HolderName| holder.0)
    } else {
        Set::empty()
    }
}

impl ConsoleView {
    /// Whether everything in the reading can be counted.
    pub fn can_be_counted(&self) -> (b: bool)
        ensures
            b == fits(*self),
    {
        let mut held: usize = 0;
        let mut k: usize = 0;
        while k < self.pools.len()
            invariant
                k <= self.pools@.len(),
                held == all_held(self.pools@.take(k as int)),
                forall|j: int|
                    0 <= j < k ==> (#[trigger] self.pools@[j]).stats.actual_count() <= usize::MAX
                        && self.pools@[j].stats.demand_count() <= usize::MAX,
            decreases self.pools@.len() - k,
        {
            let stats = self.pools[k].stats;
            proof {
                let next = self.pools@.take(k + 1);
                assert(next.drop_last() =~= self.pools@.take(k as int));
                assert(next.last() == self.pools@[k as int]);
                lemma_all_held_prefix(self.pools@, k + 1);
            }
            let actual: u128 = stats.idle as u128 + stats.in_use as u128 + stats.closing as u128;
            let demand: u128 = stats.waiting as u128 + stats.in_use as u128 + stats.opening as u128;
            if demand > usize::MAX as u128 || held as u128 + actual > usize::MAX as u128 {
                assert(!fits(*self)) by {
                    assert(self.pools@[k as int].stats == stats);
                }
                return false;
            }
            held = held + actual as usize;
            k += 1;
        }
        assert(self.pools@.take(k as int) =~= self.pools@);
        true
    }

    /// The connections this node holds on `instance`, for `tenant` where one is
    /// named.
    fn sum(&self, instance: &InstanceId, tenant: Option<&TenantId>) -> (held: usize)
        requires
            all_held(self.pools@) <= usize::MAX,
        ensures
            held == held_on(
                self.pools@,
                instance@,
                match tenant {
                    Some(name) => Some(name@),
                    None => None,
                },
            ),
    {
        let ghost wanted = match tenant {
            Some(name) => Some(name@),
            None => None,
        };
        let mut held: usize = 0;
        let mut k: usize = 0;
        while k < self.pools.len()
            invariant
                k <= self.pools@.len(),
                all_held(self.pools@) <= usize::MAX,
                wanted == match tenant {
                    Some(name) => Some(name@),
                    None => None,
                },
                held == held_on(self.pools@.take(k as int), instance@, wanted),
            decreases self.pools@.len() - k,
        {
            let pool = &self.pools[k];
            let counts = same_key(&pool.instance, instance) && match tenant {
                Some(name) => same_key(&pool.tenant, name),
                None => true,
            };
            proof {
                lemma_held_within(self.pools@, instance@, wanted, k as int);
                lemma_held_within(self.pools@, instance@, wanted, k + 1);
            }
            if counts {
                held = held + pool.stats.actual();
            }
            k += 1;
        }
        assert(self.pools@.take(k as int) =~= self.pools@);
        held
    }

    /// The connections this node holds on `instance` for `tenant`.
    fn actual_of(&self, instance: &InstanceId, tenant: &TenantId) -> (held: usize)
        requires
            all_held(self.pools@) <= usize::MAX,
        ensures
            held == held_on(self.pools@, instance@, Some(tenant@)),
    {
        self.sum(instance, Some(tenant))
    }

    /// The connections this node holds on `instance`, over every tenant.
    fn actual_on(&self, instance: &InstanceId) -> (held: usize)
        requires
            all_held(self.pools@) <= usize::MAX,
        ensures
            held == held_on(self.pools@, instance@, None),
    {
        self.sum(instance, None)
    }

    fn tenants_on(&self, instance: &InstanceId) -> (n: usize)
        ensures
            n == tenants_granted(self.table@, instance@).len(),
    {
        let holders = self.table.holders(instance);
        let ghost keys = holder_keys(holders@);
        let ghost firsts = keys.map_values(|holder: HolderName| holder.0);
        let mut n: usize = 0;
        let mut k: usize = 0;
        assert(firsts.take(0).to_set() =~= Set::empty());
        while k < holders.len()
            invariant
                k <= holders@.len(),
                keys == holder_keys(holders@),
                firsts == keys.map_values(|holder: HolderName| holder.0),
                crate::ordmap::rising::<Holder>(keys),
                n <= k,
                n == firsts.take(k as int).to_set().len(),
            decreases holders@.len() - k,
        {
            let repeated = k > 0 && same_key(holders[k].0.tenant(), holders[k - 1].0.tenant());
            proof {
                let seen = firsts.take(k as int);
                assert(firsts.take(k + 1) =~= seen.push(firsts[k as int]));
                seen.lemma_push_to_set_commute(firsts[k as int]);
                if repeated {
                    assert(seen[k - 1] == firsts[k as int]);
                    assert(seen.to_set().contains(firsts[k as int]));
                    assert(seen.to_set().insert(firsts[k as int]) =~= seen.to_set());
                } else if seen.to_set().contains(firsts[k as int]) {
                    let j = choose|j: int| 0 <= j < seen.len() && seen[j] == firsts[k as int];
                    assert(j < k - 1);
                    let (a, b, c) = (keys[j], keys[k - 1], keys[k as int]);
                    assert(<Holder as crate::order::Key>::before(a, b));
                    assert(<Holder as crate::order::Key>::before(b, c));
                    <TenantId as crate::order::Key>::irreflexive(a.0);
                    if a.0 != b.0 {
                        <TenantId as crate::order::Key>::transitive(a.0, b.0, c.0);
                    }
                    assert(false);
                }
            }
            if !repeated {
                n = n + 1;
            }
            k += 1;
        }
        proof {
            assert(firsts.take(k as int) =~= firsts);
            let tenants = tenants_granted(self.table@, instance@);
            let granted = if self.table@.contains_key(instance@) {
                self.table@[instance@].granted
            } else {
                Map::<HolderName, u32>::empty()
            };
            assert forall|t: TenantName| firsts.to_set().contains(t) == #[trigger] tenants.contains(t) by {
                if firsts.to_set().contains(t) {
                    let j = choose|j: int| 0 <= j < firsts.len() && firsts[j] == t;
                    assert(granted.contains_key(keys[j]));
                    assert(granted.dom().contains(keys[j]));
                }
                if tenants.contains(t) {
                    let h = choose|h: HolderName| granted.dom().contains(h) && h.0 == t;
                    assert(granted.contains_key(h));
                    assert(keys.contains(h));
                    let j = choose|j: int| 0 <= j < keys.len() && keys[j] == h;
                    assert(firsts[j] == t);
                }
            }
            assert(firsts.to_set() =~= tenants);
        }
        n
    }
}

/// A table, with texts as sequences.
#[verifier::ext_equal]
pub struct ResultView {
    pub columns: Seq<ColumnView>,
    pub rows: Seq<Seq<Option<Seq<char>>>>,
}

/// The cells of each row.
pub open spec fn rows_of(rows: Seq<Vec<Option<String>>>) -> Seq<Seq<Option<Seq<char>>>> {
    Seq::new(rows.len(), |k: int| cells(rows[k]@))
}

impl ResultView {
    /// How a table is sent: its columns, its rows, and that it is complete.
    pub open spec fn sent(self) -> Seq<ReplyView> {
        seq![ReplyView::Columns(self.columns)] + Seq::new(
            self.rows.len(),
            |k: int| ReplyView::Row(self.rows[k]),
        ) + seq![ReplyView::Complete("SHOW"@)]
    }
}

/// A table the console answers a `SHOW` with. Values travel in the text
/// format, and a `None` is a null.
#[derive(Debug, PartialEq, Eq)]
pub struct ResultSet {
    pub columns: Vec<Column>,
    pub rows: Vec<Vec<Option<String>>>,
}

impl View for ResultSet {
    type V = ResultView;

    open spec fn view(&self) -> ResultView {
        ResultView { columns: columns_of(self.columns@), rows: rows_of(self.rows@) }
    }
}

fn copy_row(row: &Vec<Option<String>>) -> (copy: Vec<Option<String>>)
    ensures
        cells(copy@) == cells(row@),
{
    let mut copy: Vec<Option<String>> = Vec::new();
    let mut k: usize = 0;
    while k < row.len()
        invariant
            k <= row@.len(),
            cells(copy@) == cells(row@.take(k as int)),
        decreases row@.len() - k,
    {
        let cell = match &row[k] {
            Some(text) => Some(text.clone()),
            None => None,
        };
        let ghost before = copy@;
        copy.push(cell);
        assert(cells(copy@) =~= cells(before).push(cells(row@)[k as int]));
        assert(cells(row@.take(k + 1)) =~= cells(row@.take(k as int)).push(cells(row@)[k as int]));
        k += 1;
    }
    assert(row@.take(k as int) =~= row@);
    copy
}

impl ResultSet {
    /// Sends the table: its columns, its rows, and that it is complete.
    pub fn encode(&self, out: &mut Vec<Reply>)
        ensures
            replies(final(out)@) == replies(old(out)@) + self@.sent(),
    {
        let mut columns: Vec<Column> = Vec::new();
        let mut c: usize = 0;
        while c < self.columns.len()
            invariant
                c <= self.columns@.len(),
                columns@ == self.columns@.take(c as int),
            decreases self.columns@.len() - c,
        {
            columns.push(self.columns[c]);
            assert(columns@ =~= self.columns@.take(c + 1));
            c += 1;
        }
        assert(columns@ =~= self.columns@);
        let ghost before = replies(out@);
        out.push(Reply::Columns(columns));
        assert(replies(out@) =~= before.push(ReplyView::Columns(self@.columns)));
        let ghost head = before.push(ReplyView::Columns(self@.columns));
        let mut k: usize = 0;
        while k < self.rows.len()
            invariant
                k <= self.rows@.len(),
                replies(out@) == head + Seq::new(
                    k as nat,
                    |j: int| ReplyView::Row(self@.rows[j]),
                ),
            decreases self.rows@.len() - k,
        {
            let ghost was = replies(out@);
            out.push(Reply::Row(copy_row(&self.rows[k])));
            assert(replies(out@) =~= was.push(ReplyView::Row(self@.rows[k as int])));
            assert(replies(out@) =~= head + Seq::new(
                (k + 1) as nat,
                |j: int| ReplyView::Row(self@.rows[j]),
            ));
            k += 1;
        }
        let ghost was = replies(out@);
        out.push(Reply::Complete(TAG));
        assert(replies(out@) =~= was.push(ReplyView::Complete("SHOW"@)));
        assert(replies(out@) =~= before + self@.sent());
    }
}

/// A cell that holds a text.
pub open spec fn text_cell(text: Seq<char>) -> Option<Seq<char>> {
    Some(text)
}

/// A cell that holds a count.
pub open spec fn count_cell(n: nat) -> Option<Seq<char>> {
    Some(decimal(n))
}

/// Collects one row's cells in the order its columns were described.
struct Row {
    cells: Vec<Option<String>>,
}

impl Row {
    spec fn view(&self) -> Seq<Option<Seq<char>>> {
        cells(self.cells@)
    }

    fn new() -> (row: Self)
        ensures
            row@ == Seq::<Option<Seq<char>>>::empty(),
    {
        let row = Row { cells: Vec::new() };
        assert(row@ =~= Seq::<Option<Seq<char>>>::empty());
        row
    }

    fn put(self, cell: Option<String>) -> (row: Self)
        ensures
            row@ == self@.push(
                match cell {
                    Some(text) => Some(text@),
                    None => None,
                },
            ),
    {
        let mut list = self.cells;
        list.push(cell);
        let row = Row { cells: list };
        assert(row@ =~= self@.push(
            match cell {
                Some(text) => Some(text@),
                None => None,
            },
        ));
        row
    }

    fn text(self, text: &str) -> (row: Self)
        ensures
            row@ == self@.push(text_cell(text@)),
    {
        self.put(Some(text.to_owned()))
    }

    fn value(self, n: u64) -> (row: Self)
        ensures
            row@ == self@.push(count_cell(n as nat)),
    {
        self.put(Some(decimal_text(n)))
    }

    /// A cell the console has no answer for, rather than a zero it would have
    /// to stand behind.
    fn maybe(self, value: Option<u64>) -> (row: Self)
        ensures
            row@ == self@.push(
                match value {
                    Some(n) => count_cell(n as nat),
                    None => None,
                },
            ),
    {
        match value {
            Some(n) => self.value(n),
            None => self.null(),
        }
    }

    fn null(self) -> (row: Self)
        ensures
            row@ == self@.push(None),
    {
        self.put(None)
    }

    fn build(self) -> (cells: Vec<Option<String>>)
        ensures
            crate::response::cells(cells@) == self@,
    {
        self.cells
    }
}

/// A column of texts.
pub open spec fn text_column(name: Seq<char>) -> ColumnView {
    ColumnView { name, counts: false }
}

/// A column of counts.
pub open spec fn count_column(name: Seq<char>) -> ColumnView {
    ColumnView { name, counts: true }
}

/// The columns of the table of pools.
pub open spec fn pool_columns() -> Seq<ColumnView> {
    seq![
        text_column("database"@),
        text_column("user"@),
        text_column("instance"@),
        count_column("cl_waiting"@),
        count_column("sv_active"@),
        count_column("sv_idle"@),
        count_column("sv_login"@),
        text_column("pool_mode"@),
        count_column("granted"@),
        count_column("actual"@),
        count_column("min"@),
        count_column("max"@),
        count_column("demand"@),
    ]
}

/// The columns of the table of grants.
pub open spec fn budget_columns() -> Seq<ColumnView> {
    seq![
        text_column("instance"@),
        text_column("tenant"@),
        text_column("proxy"@),
        count_column("granted"@),
        count_column("actual"@),
    ]
}

/// The columns of the table of instances.
pub open spec fn instance_columns() -> Seq<ColumnView> {
    seq![
        text_column("instance"@),
        count_column("max_connections"@),
        count_column("reserved"@),
        count_column("foreign_peak"@),
        count_column("margin"@),
        count_column("shortfall"@),
        count_column("total_budget"@),
        count_column("granted"@),
        count_column("actual"@),
        count_column("tenants"@),
    ]
}

/// The row of a pool.
pub open spec fn pool_row(view: ConsoleView, pool: PoolSnapshot) -> Seq<Option<Seq<char>>> {
    let stats = pool.stats;
    seq![
        text_cell(pool.tenant@.1),
        text_cell(pool.tenant@.0),
        text_cell(pool.instance@),
        count_cell(stats.waiting as nat),
        count_cell(stats.in_use as nat),
        count_cell(stats.idle as nat),
        count_cell(stats.opening as nat),
        text_cell(view.pool_mode@),
        count_cell(
            table_slots(view.table@, pool.instance@, (pool.tenant@, view.proxy@)) as nat,
        ),
        count_cell(stats.actual_count()),
        match pool.policy {
            Some(policy) => count_cell(policy.min as nat),
            None => None,
        },
        match pool.policy {
            Some(policy) => count_cell(policy.max as nat),
            None => None,
        },
        count_cell(stats.demand_count()),
    ]
}

/// The instance and tenant of each pool.
pub open spec fn pool_slots(pools: Seq<PoolSnapshot>) -> Seq<SlotName> {
    Seq::new(pools.len(), |k: int| (pools[k].instance@, pools[k].tenant@))
}

/// Whether the counts of a pool fit where they are shown.
pub open spec fn countable(pools: Seq<PoolSnapshot>) -> bool {
    forall|k: int|
        0 <= k < pools.len() ==> (#[trigger] pools[k]).stats.actual_count() <= usize::MAX
            && pools[k].stats.demand_count() <= usize::MAX
}

/// The table of pools: a row for each, by instance and tenant.
pub open spec fn pool_table(view: ConsoleView) -> ResultView {
    let order = sorted_order::<Slot>(pool_slots(view.pools@));
    ResultView {
        columns: pool_columns(),
        rows: Seq::new(view.pools@.len(), |k: int| pool_row(view, view.pools@[order[k]])),
    }
}

fn pool_cells(view: &ConsoleView, pool: &PoolSnapshot) -> (row: Vec<Option<String>>)
    requires
        pool.stats.actual_count() <= usize::MAX,
        pool.stats.demand_count() <= usize::MAX,
    ensures
        cells(row@) == pool_row(*view, *pool),
{
    let holder = Holder::new(pool.tenant.clone(), view.proxy.clone());
    let (min, max): (Option<u64>, Option<u64>) = match &pool.policy {
        Some(policy) => (Some(policy.min as u64), Some(policy.max as u64)),
        None => (None, None),
    };
    let row = Row::new()
        .text(pool.tenant.database())
        .text(pool.tenant.user())
        .text(pool.instance.as_str())
        .value(pool.stats.waiting as u64)
        .value(pool.stats.in_use as u64)
        .value(pool.stats.idle as u64)
        .value(pool.stats.opening as u64)
        .text(view.pool_mode.as_str())
        .value(view.table.granted(&pool.instance, &holder) as u64)
        .value(pool.stats.actual() as u64)
        .maybe(min)
        .maybe(max)
        .value(pool.stats.demand() as u64);
    assert(row@ =~= pool_row(*view, *pool));
    row.build()
}

/// The pools this node holds: the slots each was granted beside the
/// connections it actually has, and the demand that asked for them.
pub fn show_pools(view: &ConsoleView) -> (table: ResultSet)
    requires
        countable(view.pools@),
    ensures
        table@ == pool_table(*view),
{
    let mut slots: Vec<Slot> = Vec::new();
    let mut k: usize = 0;
    while k < view.pools.len()
        invariant
            k <= view.pools@.len(),
            slots@.len() == k,
            forall|j: int|
                0 <= j < k ==> (#[trigger] slots@[j])@ == (
                    view.pools@[j].instance@,
                    view.pools@[j].tenant@,
                ),
        decreases view.pools@.len() - k,
    {
        let pool = &view.pools[k];
        slots.push(Slot { instance: pool.instance.clone(), tenant: pool.tenant.clone() });
        k += 1;
    }
    let order = sort(&slots);
    let ghost sorted = sorted_order::<Slot>(pool_slots(view.pools@));
    assert(key_views(slots@) =~= pool_slots(view.pools@));
    let mut rows: Vec<Vec<Option<String>>> = Vec::new();
    let mut i: usize = 0;
    while i < order.len()
        invariant
            i <= order@.len(),
            order@.len() == view.pools@.len(),
            sorted == places(order@),
            forall|a: int| 0 <= a < sorted.len() ==> 0 <= #[trigger] sorted[a] < view.pools@.len(),
            countable(view.pools@),
            rows_of(rows@) == Seq::new(
                i as nat,
                |j: int| pool_row(*view, view.pools@[sorted[j]]),
            ),
        decreases order@.len() - i,
    {
        assert(sorted[i as int] == order@[i as int]);
        let ghost before = rows@;
        let row = pool_cells(view, &view.pools[order[i]]);
        rows.push(row);
        assert(rows_of(rows@) =~= rows_of(before).push(cells(row@)));
        assert(rows_of(rows@) =~= Seq::new(
            (i + 1) as nat,
            |j: int| pool_row(*view, view.pools@[sorted[j]]),
        ));
        i += 1;
    }
    let columns = vec![
        Column::text("database"),
        Column::text("user"),
        Column::text("instance"),
        Column::count("cl_waiting"),
        Column::count("sv_active"),
        Column::count("sv_idle"),
        Column::count("sv_login"),
        Column::text("pool_mode"),
        Column::count("granted"),
        Column::count("actual"),
        Column::count("min"),
        Column::count("max"),
        Column::count("demand"),
    ];
    assert(columns_of(columns@) =~= pool_columns());
    ResultSet { columns, rows }
}

/// The row of a grant. The connections are known for this node alone, so a
/// grant held by another proxy leaves that cell null.
pub open spec fn holder_row(view: ConsoleView, instance: Seq<char>, holder: HolderName) -> Seq<
    Option<Seq<char>>,
> {
    seq![
        text_cell(instance),
        text_cell(tenant_text(holder.0)),
        text_cell(holder.1),
        count_cell(table_slots(view.table@, instance, holder) as nat),
        if holder.1 == view.proxy@ {
            count_cell(held_on(view.pools@, instance, Some(holder.0)))
        } else {
            None
        },
    ]
}

/// The row of the slots that are granted to no one.
pub open spec fn headroom_row(view: ConsoleView, instance: Seq<char>) -> Seq<Option<Seq<char>>> {
    seq![
        text_cell(instance),
        None,
        None,
        count_cell(
            (table_budget(view.table@, instance) - table_total(view.table@, instance)) as nat,
        ),
        None,
    ]
}

/// The rows of an instance: its holders in order, and what nobody holds.
pub open spec fn instance_rows(view: ConsoleView, instance: Seq<char>) -> Seq<
    Seq<Option<Seq<char>>>,
> {
    let holders = listing::<Holder>(view.table@[instance].granted.dom());
    Seq::new(holders.len(), |k: int| holder_row(view, instance, holders[k])).push(
        headroom_row(view, instance),
    )
}

/// The rows of some instances, one after the other.
pub open spec fn budget_rows(view: ConsoleView, instances: Seq<Seq<char>>) -> Seq<
    Seq<Option<Seq<char>>>,
>
    decreases instances.len(),
{
    if instances.len() == 0 {
        Seq::empty()
    } else {
        budget_rows(view, instances.drop_last()) + instance_rows(view, instances.last())
    }
}

/// The table of grants: every instance in order.
pub open spec fn budget_table(view: ConsoleView) -> ResultView {
    ResultView {
        columns: budget_columns(),
        rows: budget_rows(view, listing::<InstanceId>(view.table@.dom())),
    }
}

fn instance_cells(view: &ConsoleView, instance: &InstanceId, rows: &mut Vec<Vec<Option<String>>>)
    requires
        all_held(view.pools@) <= usize::MAX,
        view.table@.contains_key(instance@),
    ensures
        rows_of(final(rows)@) == rows_of(old(rows)@) + instance_rows(*view, instance@),
{
    let holders = view.table.holders(instance);
    let ghost granted = view.table@[instance@].granted;
    let ghost keys = holder_keys(holders@);
    let ghost start = rows_of(rows@);
    proof {
        lemma_listing::<Holder>(keys, granted.dom());
    }
    let mut k: usize = 0;
    while k < holders.len()
        invariant
            k <= holders@.len(),
            keys == holder_keys(holders@),
            granted == view.table@[instance@].granted,
            view.table@.contains_key(instance@),
            holder_list(holders@, granted),
            all_held(view.pools@) <= usize::MAX,
            rows_of(rows@) == start + Seq::new(
                k as nat,
                |j: int| holder_row(*view, instance@, keys[j]),
            ),
        decreases holders@.len() - k,
    {
        let holder = holders[k].0;
        let actual: Option<u64> = if same_key(holder.proxy(), &view.proxy) {
            Some(view.actual_of(instance, holder.tenant()) as u64)
        } else {
            None
        };
        let row = Row::new()
            .text(instance.as_str())
            .text(holder.tenant().to_string().as_str())
            .text(holder.proxy().as_str())
            .value(holders[k].1 as u64)
            .maybe(actual);
        assert(keys[k as int] == holder@);
        assert(granted.contains_key(keys[k as int]));
        assert(row@ =~= holder_row(*view, instance@, keys[k as int]));
        let ghost before = rows@;
        rows.push(row.build());
        assert(rows_of(rows@) =~= rows_of(before).push(
            holder_row(*view, instance@, keys[k as int]),
        ));
        assert(rows_of(rows@) =~= start + Seq::new(
            (k + 1) as nat,
            |j: int| holder_row(*view, instance@, keys[j]),
        ));
        k += 1;
    }
    let row = Row::new()
        .text(instance.as_str())
        .null()
        .null()
        .value(view.table.headroom(instance) as u64)
        .null();
    assert(row@ =~= headroom_row(*view, instance@));
    let ghost before = rows@;
    rows.push(row.build());
    assert(rows_of(rows@) =~= rows_of(before).push(headroom_row(*view, instance@)));
    assert(rows_of(rows@) =~= start + instance_rows(*view, instance@));
}

/// The whole allocation table, instance by instance: what each holder is
/// granted, and the slots that are granted to no one.
///
/// The actual connections are known for this node alone, so a grant held by
/// another proxy leaves that column null rather than claiming a zero.
pub fn show_budget(view: &ConsoleView) -> (table: ResultSet)
    requires
        all_held(view.pools@) <= usize::MAX,
    ensures
        table@ == budget_table(*view),
{
    let mut rows: Vec<Vec<Option<String>>> = Vec::new();
    let instances = view.table.instances();
    let ghost names = Seq::new(instances@.len(), |k: int| instances@[k]@);
    proof {
        lemma_listing::<InstanceId>(names, view.table@.dom());
        assert(rows_of(rows@) =~= budget_rows(*view, names.take(0)));
    }
    let mut k: usize = 0;
    while k < instances.len()
        invariant
            k <= instances@.len(),
            names == Seq::new(instances@.len(), |k: int| instances@[k]@),
            lists::<InstanceId, DesiredView>(names, view.table@),
            all_held(view.pools@) <= usize::MAX,
            rows_of(rows@) == budget_rows(*view, names.take(k as int)),
        decreases instances@.len() - k,
    {
        assert(view.table@.contains_key(names[k as int]));
        instance_cells(view, instances[k], &mut rows);
        assert(names.take(k + 1).drop_last() =~= names.take(k as int));
        k += 1;
    }
    assert(names.take(k as int) =~= names);
    let columns = vec![
        Column::text("instance"),
        Column::text("tenant"),
        Column::text("proxy"),
        Column::count("granted"),
        Column::count("actual"),
    ];
    assert(columns_of(columns@) =~= budget_columns());
    ResultSet { columns, rows }
}

/// The row of an instance.
pub open spec fn instance_row(view: ConsoleView, snapshot: InstanceSnapshot) -> Seq<
    Option<Seq<char>>,
> {
    let instance = snapshot.instance@;
    let inputs = snapshot.budget@;
    seq![
        text_cell(instance),
        count_cell(inputs.limits.max_connections as nat),
        count_cell(reserved_total(inputs.limits) as nat),
        count_cell(inputs.foreign_peak as nat),
        count_cell(inputs.margin as nat),
        count_cell(budget_shortfall(inputs) as nat),
        count_cell(budget_total(inputs) as nat),
        count_cell(table_total(view.table@, instance)),
        count_cell(held_on(view.pools@, instance, None)),
        count_cell(tenants_granted(view.table@, instance).len()),
    ]
}

/// The name of each instance.
pub open spec fn snapshot_names(instances: Seq<InstanceSnapshot>) -> Seq<Seq<char>> {
    Seq::new(instances.len(), |k: int| instances[k].instance@)
}

/// The table of instances: a row for each, in order.
pub open spec fn instance_table(view: ConsoleView) -> ResultView {
    let order = sorted_order::<InstanceId>(snapshot_names(view.instances@));
    ResultView {
        columns: instance_columns(),
        rows: Seq::new(
            view.instances@.len(),
            |k: int| instance_row(view, view.instances@[order[k]]),
        ),
    }
}

fn snapshot_cells(view: &ConsoleView, snapshot: &InstanceSnapshot) -> (row: Vec<Option<String>>)
    requires
        all_held(view.pools@) <= usize::MAX,
    ensures
        cells(row@) == instance_row(*view, *snapshot),
{
    let instance = &snapshot.instance;
    let inputs = snapshot.budget.inputs();
    let row = Row::new()
        .text(instance.as_str())
        .value(inputs.limits.max_connections as u64)
        .value(inputs.limits.reserved() as u64)
        .value(inputs.foreign_peak as u64)
        .value(inputs.margin as u64)
        .value(snapshot.budget.shortfall() as u64)
        .value(snapshot.budget.total() as u64)
        .value(view.table.granted_total(instance) as u64)
        .value(view.actual_on(instance) as u64)
        .value(view.tenants_on(instance) as u64);
    assert(row@ =~= instance_row(*view, *snapshot));
    row.build()
}

/// Each instance's total budget together with the parts it was derived from,
/// so that why the budget is what it is takes one command to answer.
pub fn show_instances(view: &ConsoleView) -> (table: ResultSet)
    requires
        all_held(view.pools@) <= usize::MAX,
    ensures
        table@ == instance_table(*view),
{
    let mut names: Vec<InstanceId> = Vec::new();
    let mut k: usize = 0;
    while k < view.instances.len()
        invariant
            k <= view.instances@.len(),
            names@.len() == k,
            forall|j: int|
                0 <= j < k ==> (#[trigger] names@[j])@ == view.instances@[j].instance@,
        decreases view.instances@.len() - k,
    {
        names.push(view.instances[k].instance.clone());
        k += 1;
    }
    let order = sort(&names);
    let ghost sorted = sorted_order::<InstanceId>(snapshot_names(view.instances@));
    assert(key_views(names@) =~= snapshot_names(view.instances@));
    let mut rows: Vec<Vec<Option<String>>> = Vec::new();
    let mut i: usize = 0;
    while i < order.len()
        invariant
            i <= order@.len(),
            order@.len() == view.instances@.len(),
            sorted == places(order@),
            forall|a: int|
                0 <= a < sorted.len() ==> 0 <= #[trigger] sorted[a] < view.instances@.len(),
            all_held(view.pools@) <= usize::MAX,
            rows_of(rows@) == Seq::new(
                i as nat,
                |j: int| instance_row(*view, view.instances@[sorted[j]]),
            ),
        decreases order@.len() - i,
    {
        assert(sorted[i as int] == order@[i as int]);
        let ghost before = rows@;
        let row = snapshot_cells(view, &view.instances[order[i]]);
        rows.push(row);
        assert(rows_of(rows@) =~= rows_of(before).push(cells(row@)));
        assert(rows_of(rows@) =~= Seq::new(
            (i + 1) as nat,
            |j: int| instance_row(*view, view.instances@[sorted[j]]),
        ));
        i += 1;
    }
    let columns = vec![
        Column::text("instance"),
        Column::count("max_connections"),
        Column::count("reserved"),
        Column::count("foreign_peak"),
        Column::count("margin"),
        Column::count("shortfall"),
        Column::count("total_budget"),
        Column::count("granted"),
        Column::count("actual"),
        Column::count("tenants"),
    ];
    assert(columns_of(columns@) =~= instance_columns());
    ResultSet { columns, rows }
}

/// A table of the console.
pub open spec fn table_of(table: Table, view: ConsoleView) -> ResultView {
    match table {
        Table::Pools => pool_table(view),
        Table::Budget => budget_table(view),
        Table::Instances => instance_table(view),
    }
}

/// Shows a table, from one reading of the node.
pub fn show(table: Table, view: &ConsoleView) -> (shown: Vec<Reply>)
    requires
        countable(view.pools@),
        all_held(view.pools@) <= usize::MAX,
    ensures
        replies(shown@) == table_of(table, *view).sent(),
{
    let set = match table {
        Table::Pools => show_pools(view),
        Table::Budget => show_budget(view),
        Table::Instances => show_instances(view),
    };
    let mut out: Vec<Reply> = Vec::new();
    set.encode(&mut out);
    assert(replies(out@) =~= table_of(table, *view).sent());
    out
}

/// Every pool has its row in the table of pools, and every row is of a pool.
pub proof fn law_every_pool_has_its_row(view: ConsoleView, k: int)
    requires
        0 <= k < view.pools@.len(),
    ensures
        pool_table(view).rows.len() == view.pools@.len(),
        pool_table(view).rows.contains(pool_row(view, view.pools@[k])),
{
    let order = sorted_order::<Slot>(pool_slots(view.pools@));
    lemma_sorted_order_is_one::<Slot>(pool_slots(view.pools@));
    assert(order.contains(k));
    let p = choose|p: int| 0 <= p < order.len() && order[p] == k;
    assert(pool_table(view).rows[p] == pool_row(view, view.pools@[k]));
}

/// What an instance's rows grant, and what they leave to no one, make up its
/// total budget.
pub proof fn law_the_grants_and_the_headroom_make_up_the_budget(table: TableView, instance: Seq<char>)
    requires
        entry_fits(table),
        table.contains_key(instance),
    ensures
        slot_sum(table[instance].granted) + (table_budget(table, instance) - table_total(
            table,
            instance,
        )) == table_budget(table, instance),
        table_total(table, instance) <= table_budget(table, instance),
{
}

/// A pool adds its idle, held and closing connections to what is shown of its own
/// tenant on its own instance, where user and database both are the tenant's, and
/// to what is shown of its instance over every tenant; it moves nothing else.
pub proof fn law_a_pool_counts_only_for_its_own_tenant_and_instance(
    pools: Seq<PoolSnapshot>,
    pool: PoolSnapshot,
    instance: Seq<char>,
    tenant: TenantName,
)
    ensures
        held_on(Seq::empty(), instance, Some(tenant)) == 0,
        held_on(Seq::empty(), instance, None) == 0,
        pool.instance@ == instance && pool.tenant@.0 == tenant.0 && pool.tenant@.1 == tenant.1
            ==> held_on(pools.push(pool), instance, Some(tenant)) == held_on(
            pools,
            instance,
            Some(tenant),
        ) + pool.stats.idle + pool.stats.in_use + pool.stats.closing,
        pool.instance@ != instance || pool.tenant@.0 != tenant.0 || pool.tenant@.1 != tenant.1
            ==> held_on(pools.push(pool), instance, Some(tenant)) == held_on(
            pools,
            instance,
            Some(tenant),
        ),
        pool.instance@ == instance ==> held_on(pools.push(pool), instance, None) == held_on(
            pools,
            instance,
            None,
        ) + pool.stats.idle + pool.stats.in_use + pool.stats.closing,
        pool.instance@ != instance ==> held_on(pools.push(pool), instance, None) == held_on(
            pools,
            instance,
            None,
        ),
{
    assert(pools.push(pool).drop_last() =~= pools);
}

/// A pool of another tenant or on another instance never moves what is shown of a
/// tenant, wherever it stands.
pub proof fn law_other_pools_never_move_what_is_shown_of_a_tenant(
    pools: Seq<PoolSnapshot>,
    instance: Seq<char>,
    tenant: TenantName,
    k: int,
)
    requires
        0 <= k < pools.len(),
        pools[k].instance@ != instance || pools[k].tenant@ != tenant,
    ensures
        held_on(pools.remove(k), instance, Some(tenant)) == held_on(pools, instance, Some(tenant)),
    decreases pools.len(),
{
    let last = pools.len() - 1;
    let shorter = pools.drop_last();
    law_a_pool_counts_only_for_its_own_tenant_and_instance(
        shorter,
        pools[last],
        instance,
        tenant,
    );
    assert(shorter.push(pools[last]) =~= pools);
    if k == last {
        assert(pools.remove(k) =~= shorter);
    } else {
        law_other_pools_never_move_what_is_shown_of_a_tenant(shorter, instance, tenant, k);
        law_a_pool_counts_only_for_its_own_tenant_and_instance(
            shorter.remove(k),
            pools[last],
            instance,
            tenant,
        );
        assert(shorter.remove(k).push(pools[last]) =~= pools.remove(k));
    }
}

/// The row of a grant shows under `actual` what this node holds for exactly that
/// tenant on that instance, and nothing where another proxy holds the grant;
/// under `granted`, the slots that the table gives the holder.
pub proof fn law_the_row_of_a_grant_shows_its_holder(
    view: ConsoleView,
    instance: Seq<char>,
    holder: HolderName,
)
    requires
        view.table@.contains_key(instance),
        view.table@[instance].granted.contains_key(holder),
    ensures
        ({
            let row = holder_row(view, instance, holder);
            &&& row.len() == budget_columns().len()
            &&& budget_columns()[0].name == "instance"@ && row[0] == Some(instance)
            &&& budget_columns()[1].name == "tenant"@ && row[1] == Some(
                holder.0.0 + "@"@ + holder.0.1,
            )
            &&& budget_columns()[2].name == "proxy"@ && row[2] == Some(holder.1)
            &&& budget_columns()[3].name == "granted"@ && row[3] == Some(
                decimal(view.table@[instance].granted[holder] as nat),
            )
            &&& budget_columns()[4].name == "actual"@
            &&& holder.1 == view.proxy@ ==> row[4] == Some(
                decimal(held_on(view.pools@, instance, Some(holder.0))),
            )
            &&& holder.1 != view.proxy@ ==> row[4] is None
        }),
{
}

/// The row of a pool shows each of its numbers under the column of that name.
pub proof fn law_the_row_of_a_pool_shows_the_pool(view: ConsoleView, pool: PoolSnapshot)
    ensures
        ({
            let row = pool_row(view, pool);
            let columns = pool_columns();
            let stats = pool.stats;
            let holder = (pool.tenant@, view.proxy@);
            &&& row.len() == columns.len()
            &&& columns[0].name == "database"@ && row[0] == Some(pool.tenant@.1)
            &&& columns[1].name == "user"@ && row[1] == Some(pool.tenant@.0)
            &&& columns[2].name == "instance"@ && row[2] == Some(pool.instance@)
            &&& columns[3].name == "cl_waiting"@ && row[3] == Some(decimal(stats.waiting as nat))
            &&& columns[4].name == "sv_active"@ && row[4] == Some(decimal(stats.in_use as nat))
            &&& columns[5].name == "sv_idle"@ && row[5] == Some(decimal(stats.idle as nat))
            &&& columns[6].name == "sv_login"@ && row[6] == Some(decimal(stats.opening as nat))
            &&& columns[7].name == "pool_mode"@ && row[7] == Some(view.pool_mode@)
            &&& columns[8].name == "granted"@ && row[8] == Some(
                decimal(
                    if view.table@.contains_key(pool.instance@)
                        && view.table@[pool.instance@].granted.contains_key(holder) {
                        view.table@[pool.instance@].granted[holder] as nat
                    } else {
                        0
                    },
                ),
            )
            &&& columns[9].name == "actual"@ && row[9] == Some(
                decimal((stats.idle + stats.in_use + stats.closing) as nat),
            )
            &&& columns[10].name == "min"@ && columns[11].name == "max"@
            &&& pool.policy is None ==> row[10] is None && row[11] is None
            &&& pool.policy matches Some(policy) ==> row[10] == Some(decimal(policy.min as nat))
                && row[11] == Some(decimal(policy.max as nat))
            &&& columns[12].name == "demand"@ && row[12] == Some(
                decimal((stats.waiting + stats.in_use + stats.opening) as nat),
            )
        }),
{
}

/// The row of an instance shows every term of its total budget under the column of
/// that name, and behind them what is granted, held and by how many tenants.
pub proof fn law_the_row_of_an_instance_shows_its_budget(
    view: ConsoleView,
    snapshot: InstanceSnapshot,
)
    ensures
        ({
            let row = instance_row(view, snapshot);
            let columns = instance_columns();
            let inputs = snapshot.budget@;
            &&& row.len() == columns.len()
            &&& columns[0].name == "instance"@ && row[0] == Some(snapshot.instance@)
            &&& columns[1].name == "max_connections"@ && row[1] == Some(
                decimal(inputs.limits.max_connections as nat),
            )
            &&& columns[2].name == "reserved"@
            &&& inputs.limits.superuser_reserved_connections + inputs.limits.reserved_connections
                <= u32::MAX ==> row[2] == Some(
                decimal(
                    (inputs.limits.superuser_reserved_connections
                        + inputs.limits.reserved_connections) as nat,
                ),
            )
            &&& columns[3].name == "foreign_peak"@ && row[3] == Some(
                decimal(inputs.foreign_peak as nat),
            )
            &&& columns[4].name == "margin"@ && row[4] == Some(decimal(inputs.margin as nat))
            &&& columns[5].name == "shortfall"@ && row[5] == Some(
                decimal(budget_shortfall(inputs) as nat),
            )
            &&& columns[6].name == "total_budget"@ && row[6] == Some(
                decimal(budget_total(inputs) as nat),
            )
            &&& columns[7].name == "granted"@ && row[7] == Some(
                decimal(
                    if view.table@.contains_key(snapshot.instance@) {
                        slot_sum(view.table@[snapshot.instance@].granted)
                    } else {
                        0
                    },
                ),
            )
            &&& columns[8].name == "actual"@ && row[8] == Some(
                decimal(held_on(view.pools@, snapshot.instance@, None)),
            )
            &&& columns[9].name == "tenants"@ && row[9] == Some(
                decimal(tenants_granted(view.table@, snapshot.instance@).len()),
            )
        }),
{
}

/// The tenants counted on an instance are those that are granted something there
/// through some proxy, each counted once.
pub proof fn law_a_tenant_is_counted_where_it_is_granted_something(
    table: TableView,
    instance: Seq<char>,
    tenant: TenantName,
)
    ensures
        tenants_granted(table, instance).contains(tenant) <==> table.contains_key(instance) && exists|
            proxy: Seq<char>,
        | #[trigger] table[instance].granted.contains_key((tenant, proxy)),
{
    if table.contains_key(instance) {
        let granted = table[instance].granted;
        let tenants = tenants_granted(table, instance);
        if tenants.contains(tenant) {
            let h = choose|h: HolderName| granted.dom().contains(h) && h.0 == tenant;
            assert(granted.contains_key((tenant, h.1)));
        }
        if exists|proxy: Seq<char>| #[trigger] granted.contains_key((tenant, proxy)) {
            let proxy = choose|proxy: Seq<char>| #[trigger] granted.contains_key((tenant, proxy));
            assert(granted.dom().contains((tenant, proxy)));
            assert((tenant, proxy).0 == tenant);
        }
    }
}

/// The last row of an instance shows what of its budget nobody is granted, and
/// before it every holder has its row.
pub proof fn law_the_rows_of_an_instance_cover_its_budget(
    view: ConsoleView,
    instance: Seq<char>,
    holder: HolderName,
)
    requires
        view.table@.contains_key(instance),
        entry_fits(view.table@),
        view.table@[instance].granted.contains_key(holder),
        view.table@[instance].granted.dom().finite(),
    ensures
        ({
            let rows = instance_rows(view, instance);
            let granted = view.table@[instance].granted;
            &&& rows.len() == granted.dom().len() + 1
            &&& rows.contains(holder_row(view, instance, holder))
            &&& rows.last().len() == 5
            &&& rows.last()[0] == Some(instance)
            &&& rows.last()[1] is None && rows.last()[2] is None && rows.last()[4] is None
            &&& rows.last()[3] == Some(
                decimal((view.table@[instance].budget - slot_sum(granted)) as nat),
            )
        }),
{
    let granted = view.table@[instance].granted;
    let list = lemma_listable::<Holder>(granted.dom());
    lemma_listing::<Holder>(list, granted.dom());
    lemma_rising_distinct::<Holder>(list);
    list.unique_seq_to_set();
    assert(list.to_set().contains(holder));
    let k = choose|k: int| 0 <= k < list.len() && list[k] == holder;
    assert(instance_rows(view, instance)[k] == holder_row(view, instance, holder));
    assert(view.table@[instance].fits());
}

/// The pools are shown by instance and, on an instance, by tenant: no row stands
/// before one of an instance or tenant that comes first, and every pool is shown
/// once.
pub proof fn law_pools_are_shown_by_instance_and_tenant(view: ConsoleView, a: int, b: int)
    requires
        0 <= a < b < view.pools@.len(),
    ensures
        exists|x: int, y: int|
            {
                &&& 0 <= x < view.pools@.len()
                &&& 0 <= y < view.pools@.len()
                &&& x != y
                &&& pool_table(view).rows[a] == #[trigger] pool_row(view, view.pools@[x])
                &&& pool_table(view).rows[b] == #[trigger] pool_row(view, view.pools@[y])
                &&& !<Slot as crate::order::Key>::before(
                    (view.pools@[y].instance@, view.pools@[y].tenant@),
                    (view.pools@[x].instance@, view.pools@[x].tenant@),
                )
            },
{
    let slots = pool_slots(view.pools@);
    let order = sorted_order::<Slot>(slots);
    lemma_sorted_order_is_one::<Slot>(slots);
    let (x, y) = (order[a], order[b]);
    assert(0 <= order[a] < slots.len() && 0 <= order[b] < slots.len());
    assert(comes_first::<Slot>(slots, order[a], order[b]));
    if <Slot as crate::order::Key>::before(slots[y], slots[x]) {
        if slots[x] != slots[y] {
            <Slot as crate::order::Key>::transitive(slots[x], slots[y], slots[x]);
        }
        <Slot as crate::order::Key>::irreflexive(slots[x]);
    }
    if x == y {
        <Slot as crate::order::Key>::irreflexive(slots[x]);
    }
    assert(pool_table(view).rows[a] == pool_row(view, view.pools@[x]));
    assert(pool_table(view).rows[b] == pool_row(view, view.pools@[y]));
}

/// A table is sent as its columns, then every row in its order, then that it is
/// complete.
pub proof fn law_a_table_is_sent_whole(table: ResultView, k: int)
    requires
        0 <= k < table.rows.len(),
    ensures
        table.sent().len() == table.rows.len() + 2,
        table.sent()[0] == ReplyView::Columns(table.columns),
        table.sent()[k + 1] == ReplyView::Row(table.rows[k]),
        table.sent().last() == ReplyView::Complete("SHOW"@),
{
}

/// Every instance of the table has its rows, behind those of the instances before
/// it, and every configured instance has its row among the instances.
pub proof fn law_every_instance_has_its_rows(
    view: ConsoleView,
    names: Seq<Seq<char>>,
    instance: Seq<char>,
    k: int,
)
    requires
        0 <= k < view.instances@.len(),
    ensures
        budget_rows(view, Seq::empty()) == Seq::<Seq<Option<Seq<char>>>>::empty(),
        budget_rows(view, names.push(instance)) == budget_rows(view, names) + instance_rows(
            view,
            instance,
        ),
        instance_table(view).rows.len() == view.instances@.len(),
        instance_table(view).rows.contains(instance_row(view, view.instances@[k])),
        instance_table(view).columns == instance_columns(),
        pool_table(view).columns == pool_columns(),
        budget_table(view).columns == budget_columns(),
{
    assert(names.push(instance).drop_last() =~= names);
    let list = snapshot_names(view.instances@);
    let order = sorted_order::<InstanceId>(list);
    lemma_sorted_order_is_one::<InstanceId>(list);
    assert(order.contains(k));
    let p = choose|p: int| 0 <= p < order.len() && order[p] == k;
    assert(instance_table(view).rows[p] == instance_row(view, view.instances@[k]));
}

/// Each command shows its own table.
pub proof fn law_each_table_is_the_one_that_is_named(view: ConsoleView)
    ensures
        table_of(Table::Pools, view).columns == pool_columns(),
        table_of(Table::Pools, view).rows.len() == view.pools@.len(),
        table_of(Table::Budget, view).columns == budget_columns(),
        table_of(Table::Instances, view).columns == instance_columns(),
        table_of(Table::Instances, view).rows.len() == view.instances@.len(),
{
}

/// A setting is refused for a name where no rule or no instance has the name, and for
/// a value otherwise.
pub proof fn law_a_refusal_is_for_a_name_or_for_a_value(
    name: Seq<char>,
    min: u32,
    max: u32,
    minimums: u32,
    budget: u32,
)
    ensures
        names_nothing(Refusal::NoSuchTenant { tenant: name }),
        names_nothing(Refusal::NoSuchInstance { instance: name }),
        !names_nothing(Refusal::MinAboveMax { min, max }),
        !names_nothing(Refusal::ZeroWeight),
        !names_nothing(Refusal::AboveBudget { instance: name, minimums, budget }),
{
}

} // verus!
