//! What a node asks a server about itself: its limits, its timeouts, and the
//! connections that this system did not open.
use vstd::prelude::*;
use vstd::string::StringExecFns;

use crate::backend::{row_text, Row};
use crate::budget::ServerLimits;
use crate::order::same_text;
use crate::server::{query_failure_text, QueryError, QueryFailure};
use crate::text::{
    chars_of, decimal, is_digit, law_a_number_reads_as_it_was_written, number, parse_number, part,
    quote, quoted, text_of,
};
use crate::time::{longest, Duration};

verus! {

/// The code with which a server answers that it has no such setting.
///
/// `reserved_connections` is one of those below PostgreSQL 16, so only this
/// code means "this server has no such setting"; every other server error is
/// passed on.
pub const UNDEFINED_OBJECT: &'static str = "42704";

/// What the count of foreign connections is called.
pub const FOREIGN_CONNECTIONS: &'static str = "the number of foreign connections";

/// The timeouts of a server's own connections.
#[derive(Debug, Clone, Copy, PartialEq, Eq, Hash, Structural)]
pub struct TimeoutSettings {
    pub tcp_keepalives_idle: Duration,
    pub tcp_user_timeout: Duration,
}

/// Why something cannot be read from a server.
#[derive(Debug, PartialEq, Eq)]
pub enum InspectError {
    Query(QueryError),
    Missing(&'static str),
    Unreadable { what: &'static str, value: String },
}

/// Why something cannot be read from a server, with texts as sequences.
pub enum InspectFailure {
    Query(QueryFailure),
    Missing(Seq<char>),
    Unreadable { what: Seq<char>, value: Seq<char> },
}

impl View for InspectError {
    type V = InspectFailure;

    open spec fn view(&self) -> InspectFailure {
        match *self {
            InspectError::Query(error) => InspectFailure::Query(error@),
            InspectError::Missing(what) => InspectFailure::Missing(what@),
            InspectError::Unreadable { what, value } => InspectFailure::Unreadable {
                what: what@,
                value: value@,
            },
        }
    }
}

/// Why something cannot be read from a server, in words.
pub open spec fn inspect_text(failure: InspectFailure) -> Seq<char> {
    match failure {
        InspectFailure::Query(error) => query_failure_text(error),
        InspectFailure::Missing(what) => "the server returned no value for "@ + what,
        InspectFailure::Unreadable { what, value } => {
            "cannot read "@ + what + " from the value "@ + quoted(value) + " the server returned"@
        },
    }
}

impl InspectError {
    /// The error in words.
    pub fn to_string(&self) -> (text: String)
        ensures
            text@ == inspect_text(self@),
    {
        match self {
            InspectError::Query(error) => error.to_string(),
            InspectError::Missing(what) => {
                let mut text = "the server returned no value for ".to_owned();
                text.append(what);
                text
            },
            InspectError::Unreadable { what, value } => {
                let mut text = "cannot read ".to_owned();
                text.append(what);
                text.append(" from the value ");
                text.append(quote(value.as_str()).as_str());
                text.append(" the server returned");
                text
            },
        }
    }
}

/// What a query was answered with.
pub type Answered = Result<Vec<Row>, QueryError>;

/// What a query was answered with, with texts as sequences.
pub type AnsweredView = Result<Seq<Seq<Option<Seq<char>>>>, QueryFailure>;

/// What a query was answered with, with texts as sequences.
pub open spec fn answered_view(answered: Answered) -> AnsweredView {
    match answered {
        Ok(rows) => Ok(Seq::new(rows@.len(), |k: int| row_text(rows@[k]@))),
        Err(error) => Err(error@),
    }
}

/// A value read, with texts as sequences.
pub open spec fn text_outcome(outcome: Result<String, InspectError>) -> Result<
    Seq<char>,
    InspectFailure,
> {
    match outcome {
        Ok(text) => Ok(text@),
        Err(error) => Err(error@),
    }
}

/// A value read, with the failure as its view.
pub open spec fn outcome<T>(outcome: Result<T, InspectError>) -> Result<T, InspectFailure> {
    match outcome {
        Ok(value) => Ok(value),
        Err(error) => Err(error@),
    }
}

/// The first value of the first row.
pub open spec fn first_of(rows: Seq<Seq<Option<Seq<char>>>>) -> Option<Seq<char>> {
    if rows.len() > 0 && rows[0].len() > 0 {
        rows[0][0]
    } else {
        None
    }
}

fn first_value(rows: &Vec<Row>) -> (value: Option<String>)
    ensures
        value is Some <==> first_of(
            Seq::new(rows@.len(), |k: int| row_text(rows@[k]@)),
        ) is Some,
        value matches Some(v) ==> first_of(Seq::new(rows@.len(), |k: int| row_text(rows@[k]@)))
            == Some(v@),
{
    let ghost list = Seq::new(rows@.len(), |k: int| row_text(rows@[k]@));
    if rows.len() == 0 || rows[0].len() == 0 {
        return None;
    }
    assert(list[0][0] == row_text(rows@[0]@)[0]);
    match &rows[0][0] {
        Some(value) => Some(value.clone()),
        None => None,
    }
}

/// The value of a setting, out of the answer to a `SHOW`.
pub open spec fn setting_of(setting: Seq<char>, answered: AnsweredView) -> Result<
    Seq<char>,
    InspectFailure,
> {
    match answered {
        Ok(rows) => match first_of(rows) {
            Some(value) => Ok(value),
            None => Err(InspectFailure::Missing(setting)),
        },
        Err(error) => if error matches QueryFailure::Server { code, .. } && code == "42704"@ {
            Err(InspectFailure::Missing(setting))
        } else {
            Err(InspectFailure::Query(error))
        },
    }
}

/// The query that shows a setting.
pub fn show_query(setting: &str) -> (sql: String)
    ensures
        sql@ == "SHOW "@ + setting@,
{
    let mut sql = "SHOW ".to_owned();
    sql.append(setting);
    sql
}

/// Reads the value of a setting out of the answer to a `SHOW`.
pub fn shown(setting: &'static str, answered: Answered) -> (value: Result<String, InspectError>)
    ensures
        text_outcome(value) == setting_of(setting@, answered_view(answered)),
{
    match answered {
        Ok(rows) => match first_value(&rows) {
            Some(value) => Ok(value),
            None => Err(InspectError::Missing(setting)),
        },
        Err(error) => {
            let missing = match &error {
                QueryError::Server { code, message: _ } => same_text(
                    code.as_str(),
                    UNDEFINED_OBJECT,
                ),
                _ => false,
            };
            if missing {
                Err(InspectError::Missing(setting))
            } else {
                Err(InspectError::Query(error))
            }
        },
    }
}

/// The count that a value writes.
pub open spec fn count_of(what: Seq<char>, value: Seq<char>) -> Result<u32, InspectFailure> {
    match number(value) {
        Some(n) => Ok(n),
        None => Err(InspectFailure::Unreadable { what, value }),
    }
}

/// Reads a count.
pub fn parse_count(what: &'static str, value: &str) -> (count: Result<u32, InspectError>)
    ensures
        outcome(count) == count_of(what@, value@),
{
    match parse_number(&chars_of(value)) {
        Some(n) => Ok(n),
        None => Err(InspectError::Unreadable { what, value: value.to_owned() }),
    }
}

/// How many decimal digits a text begins with.
pub open spec fn leading_digits(s: Seq<char>) -> nat
    decreases s.len(),
{
    if s.len() == 0 || !is_digit(s[0]) {
        0
    } else {
        1 + leading_digits(s.drop_first())
    }
}

proof fn lemma_leading_digits(s: Seq<char>, n: int)
    requires
        0 <= n <= s.len(),
        forall|k: int| 0 <= k < n ==> is_digit(#[trigger] s[k]),
        n < s.len() ==> !is_digit(s[n]),
    ensures
        leading_digits(s) == n,
    decreases s.len(),
{
    if s.len() > 0 && n > 0 {
        assert(is_digit(s[0]));
        let rest = s.drop_first();
        assert forall|k: int| 0 <= k < n - 1 implies is_digit(#[trigger] rest[k]) by {
            assert(rest[k] == s[k + 1]);
        }
        lemma_leading_digits(rest, n - 1);
    }
}

/// The span that a unit stands for, in nanoseconds: `base` where none is
/// written.
pub open spec fn unit_nanos(unit: Seq<char>, base: nat) -> Option<nat> {
    if unit == ""@ {
        Some(base)
    } else if unit == "us"@ {
        Some(1_000)
    } else if unit == "ms"@ {
        Some(1_000_000)
    } else if unit == "s"@ {
        Some(1_000_000_000)
    } else if unit == "min"@ {
        Some(60_000_000_000)
    } else if unit == "h"@ {
        Some(3_600_000_000_000)
    } else if unit == "d"@ {
        Some(86_400_000_000_000)
    } else {
        None
    }
}

/// The span that a value writes, in nanoseconds: an amount, and a unit behind
/// it.
pub open spec fn span_in(value: Seq<char>, base: nat) -> Option<nat> {
    let digits = leading_digits(value);
    match (
        number(value.subrange(0, digits as int)),
        unit_nanos(value.subrange(digits as int, value.len() as int), base),
    ) {
        (Some(amount), Some(unit)) => if amount * unit <= longest() {
            Some((amount * unit) as nat)
        } else {
            None
        },
        _ => None,
    }
}

/// Reads a span of time, in `base` where no unit is written.
pub fn parse_duration(what: &'static str, value: &str, base: Duration) -> (span: Result<
    Duration,
    InspectError,
>)
    requires
        base@ <= longest(),
    ensures
        match span_in(value@, base@) {
            Some(nanos) => span matches Ok(d) && d@ == nanos,
            None => span matches Err(error) && error@ == (InspectFailure::Unreadable {
                what: what@,
                value: value@,
            }),
        },
{
    let chars = chars_of(value);
    let mut digits: usize = 0;
    while digits < chars.len() && '0' <= chars[digits] && chars[digits] <= '9'
        invariant
            digits <= chars@.len(),
            forall|k: int| 0 <= k < digits ==> is_digit(#[trigger] chars@[k]),
        decreases chars@.len() - digits,
    {
        digits += 1;
    }
    proof {
        lemma_leading_digits(chars@, digits as int);
    }
    let amount = parse_number(&part(&chars, 0, digits));
    let unit = text_of(&part(&chars, digits, chars.len()));
    let unit = unit.as_str();
    let nanos: u128 = if same_text(unit, "") {
        base.as_nanos()
    } else if same_text(unit, "us") {
        1_000
    } else if same_text(unit, "ms") {
        1_000_000
    } else if same_text(unit, "s") {
        1_000_000_000
    } else if same_text(unit, "min") {
        60_000_000_000
    } else if same_text(unit, "h") {
        3_600_000_000_000
    } else if same_text(unit, "d") {
        86_400_000_000_000
    } else {
        return Err(InspectError::Unreadable { what, value: value.to_owned() });
    };
    match amount {
        Some(n) => {
            assert(nanos <= longest());
            assert(n as u128 * nanos <= u32::MAX * longest()) by (nonlinear_arith)
                requires
                    n <= u32::MAX,
                    0 <= nanos <= longest(),
            ;
            let product: u128 = n as u128 * nanos;
            if product <= 18_446_744_073_709_551_615_999_999_999 {
                Ok(Duration::from_nanos(product))
            } else {
                Err(InspectError::Unreadable { what, value: value.to_owned() })
            }
        },
        None => Err(InspectError::Unreadable { what, value: value.to_owned() }),
    }
}

/// How far a server's limits are read.
#[derive(Debug, Clone, Copy, PartialEq, Eq, Structural)]
pub enum LimitsReader {
    MaxConnections,
    SuperuserReserved { max_connections: u32 },
    Reserved { max_connections: u32, superuser_reserved_connections: u32 },
}

/// What reading a server's limits leads to next.
#[derive(Debug, Clone, Copy, PartialEq, Eq, Structural)]
pub enum LimitsStep {
    Ask(LimitsReader),
    Done(ServerLimits),
}

/// The count that a setting has.
pub open spec fn setting_count(setting: Seq<char>, answered: AnsweredView) -> Result<
    u32,
    InspectFailure,
> {
    match setting_of(setting, answered) {
        Ok(value) => count_of(setting, value),
        Err(failure) => Err(failure),
    }
}

impl LimitsReader {
    /// The setting to ask for.
    pub open spec fn asks(self) -> Seq<char> {
        match self {
            LimitsReader::MaxConnections => "max_connections"@,
            LimitsReader::SuperuserReserved { .. } => "superuser_reserved_connections"@,
            LimitsReader::Reserved { .. } => "reserved_connections"@,
        }
    }

    /// What the answer leads to. A server that has no `reserved_connections`
    /// reserves none.
    pub open spec fn step(self, answered: AnsweredView) -> Result<LimitsStep, InspectFailure> {
        match self {
            LimitsReader::MaxConnections => match setting_count(self.asks(), answered) {
                Ok(max_connections) => Ok(
                    LimitsStep::Ask(LimitsReader::SuperuserReserved { max_connections }),
                ),
                Err(failure) => Err(failure),
            },
            LimitsReader::SuperuserReserved { max_connections } => match setting_count(
                self.asks(),
                answered,
            ) {
                Ok(superuser_reserved_connections) => Ok(
                    LimitsStep::Ask(
                        LimitsReader::Reserved { max_connections, superuser_reserved_connections },
                    ),
                ),
                Err(failure) => Err(failure),
            },
            LimitsReader::Reserved { max_connections, superuser_reserved_connections } => {
                if setting_of(self.asks(), answered) matches Err(InspectFailure::Missing(_)) {
                    Ok(
                        LimitsStep::Done(
                            ServerLimits {
                                max_connections,
                                superuser_reserved_connections,
                                reserved_connections: 0,
                            },
                        ),
                    )
                } else {
                    match setting_count(self.asks(), answered) {
                        Ok(reserved_connections) => Ok(
                            LimitsStep::Done(
                                ServerLimits {
                                    max_connections,
                                    superuser_reserved_connections,
                                    reserved_connections,
                                },
                            ),
                        ),
                        Err(failure) => Err(failure),
                    }
                }
            },
        }
    }

    /// Begins to read a server's limits.
    pub fn new() -> (reader: Self)
        ensures
            reader == LimitsReader::MaxConnections,
    {
        LimitsReader::MaxConnections
    }

    /// The setting to ask for.
    pub fn setting(&self) -> (setting: &'static str)
        ensures
            setting@ == self.asks(),
    {
        match self {
            LimitsReader::MaxConnections => "max_connections",
            LimitsReader::SuperuserReserved { .. } => "superuser_reserved_connections",
            LimitsReader::Reserved { .. } => "reserved_connections",
        }
    }

    /// Takes in what the server answered.
    pub fn on_answer(self, answered: Answered) -> (step: Result<LimitsStep, InspectError>)
        ensures
            outcome(step) == self.step(answered_view(answered)),
    {
        let setting = self.setting();
        let value = match shown(setting, answered) {
            Ok(value) => value,
            Err(error) => {
                if let LimitsReader::Reserved { max_connections, superuser_reserved_connections } =
                    self {
                    if let InspectError::Missing(_) = error {
                        return Ok(
                            LimitsStep::Done(
                                ServerLimits {
                                    max_connections,
                                    superuser_reserved_connections,
                                    reserved_connections: 0,
                                },
                            ),
                        );
                    }
                }
                return Err(error);
            },
        };
        let count: u32 = match parse_count(setting, value.as_str()) {
            Ok(count) => count,
            Err(error) => return Err(error),
        };
        Ok(
            match self {
                LimitsReader::MaxConnections => LimitsStep::Ask(
                    LimitsReader::SuperuserReserved { max_connections: count },
                ),
                LimitsReader::SuperuserReserved { max_connections } => LimitsStep::Ask(
                    LimitsReader::Reserved {
                        max_connections,
                        superuser_reserved_connections: count,
                    },
                ),
                LimitsReader::Reserved { max_connections, superuser_reserved_connections } => {
                    LimitsStep::Done(
                        ServerLimits {
                            max_connections,
                            superuser_reserved_connections,
                            reserved_connections: count,
                        },
                    )
                },
            },
        )
    }
}

/// A server's limits are what it answers for its three settings; one that does
/// not know the third reserves nothing for it.
pub proof fn law_the_limits_are_what_the_server_answers(
    max: AnsweredView,
    superuser: AnsweredView,
    reserved: AnsweredView,
)
    requires
        setting_count("max_connections"@, max) is Ok,
        setting_count("superuser_reserved_connections"@, superuser) is Ok,
        setting_count("reserved_connections"@, reserved) is Ok || setting_of(
            "reserved_connections"@,
            reserved,
        ) matches Err(InspectFailure::Missing(_)),
    ensures
        ({
            let first = LimitsReader::MaxConnections.step(max);
            let second = first->Ok_0->Ask_0.step(superuser);
            let third = second->Ok_0->Ask_0.step(reserved);
            third == Ok::<LimitsStep, InspectFailure>(
                LimitsStep::Done(
                    ServerLimits {
                        max_connections: setting_count("max_connections"@, max)->Ok_0,
                        superuser_reserved_connections: setting_count(
                            "superuser_reserved_connections"@,
                            superuser,
                        )->Ok_0,
                        reserved_connections: if setting_count(
                            "reserved_connections"@,
                            reserved,
                        ) is Ok {
                            setting_count("reserved_connections"@, reserved)->Ok_0
                        } else {
                            0
                        },
                    },
                ),
            )
        }),
{
}

/// How far a server's timeouts are read.
#[derive(Debug, Clone, Copy, PartialEq, Eq, Structural)]
pub enum TimeoutsReader {
    KeepalivesIdle,
    UserTimeout { tcp_keepalives_idle: Duration },
}

/// What reading a server's timeouts leads to next.
#[derive(Debug, Clone, Copy, PartialEq, Eq, Structural)]
pub enum TimeoutsStep {
    Ask(TimeoutsReader),
    Done(TimeoutSettings),
}

/// The span that a setting has, in nanoseconds.
pub open spec fn setting_span(setting: Seq<char>, answered: AnsweredView, base: nat) -> Result<
    nat,
    InspectFailure,
> {
    match setting_of(setting, answered) {
        Ok(value) => match span_in(value, base) {
            Some(nanos) => Ok(nanos),
            None => Err(InspectFailure::Unreadable { what: setting, value }),
        },
        Err(failure) => Err(failure),
    }
}

fn read_span(setting: &'static str, answered: Answered, base: Duration) -> (span: Result<
    Duration,
    InspectError,
>)
    requires
        base@ <= longest(),
    ensures
        match setting_span(setting@, answered_view(answered), base@) {
            Ok(nanos) => span matches Ok(d) && d@ == nanos,
            Err(failure) => span matches Err(error) && error@ == failure,
        },
{
    match shown(setting, answered) {
        Ok(value) => parse_duration(setting, value.as_str(), base),
        Err(error) => Err(error),
    }
}

impl TimeoutsReader {
    /// The setting to ask for.
    pub open spec fn asks(self) -> Seq<char> {
        match self {
            TimeoutsReader::KeepalivesIdle => "tcp_keepalives_idle"@,
            TimeoutsReader::UserTimeout { .. } => "tcp_user_timeout"@,
        }
    }

    /// The unit of the setting where none is written, in nanoseconds: seconds,
    /// then milliseconds.
    pub open spec fn base(self) -> nat {
        match self {
            TimeoutsReader::KeepalivesIdle => 1_000_000_000,
            TimeoutsReader::UserTimeout { .. } => 1_000_000,
        }
    }

    /// Begins to read a server's timeouts.
    pub fn new() -> (reader: Self)
        ensures
            reader == TimeoutsReader::KeepalivesIdle,
    {
        TimeoutsReader::KeepalivesIdle
    }

    /// The setting to ask for.
    pub fn setting(&self) -> (setting: &'static str)
        ensures
            setting@ == self.asks(),
    {
        match self {
            TimeoutsReader::KeepalivesIdle => "tcp_keepalives_idle",
            TimeoutsReader::UserTimeout { .. } => "tcp_user_timeout",
        }
    }

    /// Takes in what the server answered.
    pub fn on_answer(self, answered: Answered) -> (step: Result<TimeoutsStep, InspectError>)
        ensures
            match setting_span(self.asks(), answered_view(answered), self.base()) {
                Ok(nanos) => match self {
                    TimeoutsReader::KeepalivesIdle => step matches Ok(
                        TimeoutsStep::Ask(TimeoutsReader::UserTimeout { tcp_keepalives_idle }),
                    ) && tcp_keepalives_idle@ == nanos,
                    TimeoutsReader::UserTimeout { tcp_keepalives_idle } => step matches Ok(
                        TimeoutsStep::Done(settings),
                    ) && settings.tcp_keepalives_idle == tcp_keepalives_idle
                        && settings.tcp_user_timeout@ == nanos,
                },
                Err(failure) => step matches Err(error) && error@ == failure,
            },
    {
        let base = match self {
            TimeoutsReader::KeepalivesIdle => Duration::from_secs(1),
            TimeoutsReader::UserTimeout { .. } => Duration::from_millis(1),
        };
        match read_span(self.setting(), answered, base) {
            Ok(span) => Ok(
                match self {
                    TimeoutsReader::KeepalivesIdle => TimeoutsStep::Ask(
                        TimeoutsReader::UserTimeout { tcp_keepalives_idle: span },
                    ),
                    TimeoutsReader::UserTimeout { tcp_keepalives_idle } => TimeoutsStep::Done(
                        TimeoutSettings { tcp_keepalives_idle, tcp_user_timeout: span },
                    ),
                },
            ),
            Err(error) => Err(error),
        }
    }
}

/// The query that counts the client backends this system did not open. The
/// total budget is derived by subtracting the peak of this count, because how
/// many connections an administrator's psql or a monitoring agent takes is in
/// no configuration.
pub fn foreign_connections_query() -> (sql: String)
    ensures
        sql@
            == "SELECT count(*) FROM pg_stat_activity WHERE backend_type = 'client backend' AND left(application_name, 10) IS DISTINCT FROM 'pgsteward-'"@,
{
    "SELECT count(*) FROM pg_stat_activity WHERE backend_type = 'client backend' AND left(application_name, 10) IS DISTINCT FROM 'pgsteward-'".to_owned()
}

/// The number of foreign connections, out of the answer to that query.
pub open spec fn foreign_of(answered: AnsweredView) -> Result<u32, InspectFailure> {
    match answered {
        Ok(rows) => match first_of(rows) {
            Some(value) => count_of(FOREIGN_CONNECTIONS@, value),
            None => Err(InspectFailure::Missing(FOREIGN_CONNECTIONS@)),
        },
        Err(error) => Err(InspectFailure::Query(error)),
    }
}

/// Reads the number of foreign connections out of the answer to that query.
pub fn count_foreign_connections(answered: Answered) -> (count: Result<u32, InspectError>)
    ensures
        outcome(count) == foreign_of(answered_view(answered)),
{
    match answered {
        Ok(rows) => match first_value(&rows) {
            Some(value) => parse_count(FOREIGN_CONNECTIONS, value.as_str()),
            None => Err(InspectError::Missing(FOREIGN_CONNECTIONS)),
        },
        Err(error) => Err(InspectError::Query(error)),
    }
}

/// A setting is read out of the first value of the first row: a count that the
/// server writes there is the count that is read. What the server does not know,
/// or has no value for, is missing; any other refusal is told as it is.
pub proof fn law_a_setting_is_the_first_value_the_server_answers(
    setting: Seq<char>,
    rows: Seq<Seq<Option<Seq<char>>>>,
    n: nat,
    refusal: QueryFailure,
)
    ensures
        rows.len() > 0 && rows[0].len() > 0 && rows[0][0] == Some(decimal(n)) && n <= u32::MAX ==> {
            &&& setting_count(setting, Ok(rows)) == Ok::<u32, InspectFailure>(n as u32)
            &&& foreign_of(Ok(rows)) == Ok::<u32, InspectFailure>(n as u32)
        },
        rows.len() == 0 || rows[0].len() == 0 || rows[0][0] is None ==> {
            &&& setting_of(setting, Ok(rows)) == Err::<Seq<char>, InspectFailure>(
                InspectFailure::Missing(setting),
            )
            &&& foreign_of(Ok(rows)) matches Err(InspectFailure::Missing(_))
        },
        rows.len() > 0 && rows[0].len() > 0 && rows[0][0] is Some ==> setting_of(setting, Ok(rows))
            == Ok::<Seq<char>, InspectFailure>(rows[0][0]->0),
        (refusal matches QueryFailure::Server { code, message } && code == "42704"@) ==> setting_of(
            setting,
            Err(refusal),
        ) == Err::<Seq<char>, InspectFailure>(InspectFailure::Missing(setting)),
        !(refusal matches QueryFailure::Server { code, message } && code == "42704"@)
            ==> setting_of(setting, Err(refusal)) == Err::<Seq<char>, InspectFailure>(
            InspectFailure::Query(refusal),
        ),
        foreign_of(Err(refusal)) == Err::<u32, InspectFailure>(InspectFailure::Query(refusal)),
{
    law_a_number_reads_as_it_was_written(n, n);
}

proof fn lemma_amount_and_unit(n: nat, unit: Seq<char>)
    requires
        unit.len() > 0 ==> !is_digit(unit[0]),
    ensures
        leading_digits(decimal(n) + unit) == decimal(n).len(),
        (decimal(n) + unit).subrange(0, decimal(n).len() as int) == decimal(n),
        (decimal(n) + unit).subrange(
            decimal(n).len() as int,
            (decimal(n) + unit).len() as int,
        ) == unit,
{
    let value = decimal(n) + unit;
    law_a_number_reads_as_it_was_written(n, n);
    assert forall|k: int| 0 <= k < decimal(n).len() implies is_digit(#[trigger] value[k]) by {
        assert(value[k] == decimal(n)[k]);
    }
    lemma_leading_digits(value, decimal(n).len() as int);
    assert(value.subrange(0, decimal(n).len() as int) =~= decimal(n));
    assert(value.subrange(decimal(n).len() as int, value.len() as int) =~= unit);
}

/// A span is read as the amount times the unit behind it, and in the setting's own
/// unit where none stands there.
pub proof fn law_a_span_is_the_amount_times_its_unit(n: nat, base: nat)
    requires
        n <= u32::MAX,
    ensures
        n * 1000 <= longest() ==> span_in(decimal(n) + "us"@, base) == Some(
            (n * 1000) as nat,
        ),
        n * 1000000 <= longest() ==> span_in(decimal(n) + "ms"@, base) == Some(
            (n * 1000000) as nat,
        ),
        n * 1000000000 <= longest() ==> span_in(decimal(n) + "s"@, base) == Some(
            (n * 1000000000) as nat,
        ),
        n * 60000000000 <= longest() ==> span_in(decimal(n) + "min"@, base) == Some(
            (n * 60000000000) as nat,
        ),
        n * 3600000000000 <= longest() ==> span_in(decimal(n) + "h"@, base) == Some(
            (n * 3600000000000) as nat,
        ),
        n * 86400000000000 <= longest() ==> span_in(decimal(n) + "d"@, base) == Some(
            (n * 86400000000000) as nat,
        ),
        n * base <= longest() ==> span_in(decimal(n), base) == Some(n * base),
{
    reveal_strlit("");
    reveal_strlit("us");
    reveal_strlit("ms");
    reveal_strlit("s");
    reveal_strlit("min");
    reveal_strlit("h");
    reveal_strlit("d");
    law_a_number_reads_as_it_was_written(n, n);
    assert("ms"@[0] != "us"@[0]);
    assert("h"@[0] != "s"@[0] && "d"@[0] != "s"@[0] && "d"@[0] != "h"@[0]);
    lemma_amount_and_unit(n, "us"@);
    lemma_amount_and_unit(n, "ms"@);
    lemma_amount_and_unit(n, "s"@);
    lemma_amount_and_unit(n, "min"@);
    lemma_amount_and_unit(n, "h"@);
    lemma_amount_and_unit(n, "d"@);
    lemma_amount_and_unit(n, Seq::empty());
    assert(decimal(n) + Seq::<char>::empty() =~= decimal(n));
    assert(""@ =~= Seq::<char>::empty());
}

/// A span is read out of the first value that the server answers, in the unit that
/// the setting is in; what cannot be read is told of that setting and that value.
pub proof fn law_a_setting_is_a_span_in_its_own_unit(
    setting: Seq<char>,
    rows: Seq<Seq<Option<Seq<char>>>>,
    base: nat,
)
    requires
        rows.len() > 0,
        rows[0].len() > 0,
        rows[0][0] is Some,
    ensures
        match setting_span(setting, Ok(rows), base) {
            Ok(nanos) => span_in(rows[0][0]->0, base) == Some(nanos),
            Err(failure) => span_in(rows[0][0]->0, base) is None && failure
                == (InspectFailure::Unreadable { what: setting, value: rows[0][0]->0 }),
        },
{
}

} // verus!
