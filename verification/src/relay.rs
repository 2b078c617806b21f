//! How requests and answers cross between a client and the server connection it
//! is given for a transaction.
use vstd::prelude::*;
use vstd::string::StringExecFns;

use crate::allocation::InstanceId;
use crate::backend::Row;
use crate::cancel::{CancelRegistry, RegistryView, TargetView, Ticket};
use crate::frontend::{be_bytes, fits, framed};
use crate::pool::{pool_text, PoolError};
use crate::response::{replies, ErrorResponse, Reply, ReplyView, ResponseView, TransactionStatus};
use crate::server::QueryError;
use crate::startup::{parameter_list, CancelKey};

verus! {

/// The tag of the message with which a client leaves.
pub const TERMINATE: u8 = 0x58;

/// The tag of a simple query.
pub const QUERY: u8 = 0x51;

/// The tag of the message that ends a run of extended queries.
pub const SYNC: u8 = 0x53;

/// Why a client cannot register for notifications.
pub const LISTEN_DETAIL: &'static str = "PgSteward hands the server connection to the next client at every transaction \
     boundary in transaction mode, and the reset in between runs UNLISTEN *: a \
     registration made here would stop receiving notifications with nothing to show \
     for it.";

/// What such a client can do.
pub const LISTEN_HINT: &'static str = "Run this tenant in session mode if the client has to listen, or poll for the \
     change the notification announces. NOTIFY needs no registration and crosses \
     unchanged.";

/// Why a prepared statement is not there.
pub const STATEMENT_DETAIL: &'static str = "PgSteward does not support server-side prepared statements in transaction mode: \
     a connection is handed to the next client at every transaction boundary, and the \
     reset in between deallocates whatever was prepared on it.";

/// What a client that prepares statements can do.
pub const STATEMENT_HINT: &'static str = "Turn them off in the client (Prisma: ?pgbouncer=true, JDBC: prepareThreshold=0, \
     asyncpg: statement_cache_size=0, sqlx: statement_cache_capacity=0), or run this \
     tenant in session mode.";

/// Why a session is not relayed on.
#[derive(Debug, PartialEq, Eq)]
pub enum RelayError {
    Io(String),
    Frame(String),
    Message(String),
    Frontend(String),
    Tracker(String),
    ServerClosed,
    Pool(PoolError),
}

/// Why a session is not relayed on, in words.
pub open spec fn relay_text(error: RelayError) -> Seq<char> {
    match error {
        RelayError::Io(source) => "i/o error while relaying a session: "@ + source@,
        RelayError::Frame(source) => "malformed message: "@ + source@,
        RelayError::Message(source) => source@,
        RelayError::Frontend(source) => source@,
        RelayError::Tracker(source) => source@,
        RelayError::ServerClosed => {
            "the server closed the connection while a request was in flight"@
        },
        RelayError::Pool(source) => pool_text(source),
    }
}

impl RelayError {
    /// The error in words.
    pub fn to_string(&self) -> (text: String)
        ensures
            text@ == relay_text(*self),
    {
        match self {
            RelayError::Io(source) => {
                let mut text = "i/o error while relaying a session: ".to_owned();
                text.append(source.as_str());
                text
            },
            RelayError::Frame(source) => {
                let mut text = "malformed message: ".to_owned();
                text.append(source.as_str());
                text
            },
            RelayError::Message(source) => source.clone(),
            RelayError::Frontend(source) => source.clone(),
            RelayError::Tracker(source) => source.clone(),
            RelayError::ServerClosed => {
                "the server closed the connection while a request was in flight".to_owned()
            },
            RelayError::Pool(source) => source.to_string(),
        }
    }
}

/// A message as it crosses: its tag and its body.
#[derive(Debug, PartialEq, Eq)]
pub struct Frame {
    pub tag: u8,
    pub body: Vec<u8>,
}

/// A message, with its body as a sequence.
#[verifier::ext_equal]
pub struct FrameView {
    pub tag: u8,
    pub body: Seq<u8>,
}

impl View for Frame {
    type V = FrameView;

    open spec fn view(&self) -> FrameView {
        FrameView { tag: self.tag, body: self.body@ }
    }
}

/// The messages of a list.
pub open spec fn frames(list: Seq<Frame>) -> Seq<FrameView> {
    Seq::new(list.len(), |k: int| list[k]@)
}

/// What is to become of a request, by what was prepared on the connection.
#[derive(Debug, PartialEq, Eq)]
pub enum Verdict {
    /// It crosses.
    Forward,
    /// It belongs to what was refused before, and is passed over.
    Skip,
    /// It names a prepared statement that the connection does not hold.
    Reject(String),
    /// It registers for notifications.
    RejectListen,
}

/// What is to become of a request, with names as sequences.
pub enum VerdictView {
    Forward,
    Skip,
    Reject(Seq<char>),
    RejectListen,
}

impl View for Verdict {
    type V = VerdictView;

    open spec fn view(&self) -> VerdictView {
        match self {
            Verdict::Forward => VerdictView::Forward,
            Verdict::Skip => VerdictView::Skip,
            Verdict::Reject(statement) => VerdictView::Reject(statement@),
            Verdict::RejectListen => VerdictView::RejectListen,
        }
    }
}

/// How far the requests that are at hand were taken.
#[derive(Debug, Clone, Copy, PartialEq, Eq, Structural)]
pub enum Requests {
    /// All of them crossed, or wait for what is in flight.
    Drained,
    /// The node answered one itself, in full.
    Answered,
    /// The client leaves.
    Terminated,
}

/// What has to be done about a request before the next one is taken.
#[derive(Debug, PartialEq, Eq)]
pub enum Taken {
    /// Nothing.
    Next,
    /// Count it as in flight.
    Track,
    /// Pass over what follows, up to the next `Sync`.
    DiscardUntilSync,
    /// Put it back in front of what is pending, and take no more for now.
    Hold(Frame),
}

/// What has to be done about a request, with its body as a sequence.
pub enum TakenView {
    Next,
    Track,
    DiscardUntilSync,
    Hold(FrameView),
}

impl View for Taken {
    type V = TakenView;

    open spec fn view(&self) -> TakenView {
        match self {
            Taken::Next => TakenView::Next,
            Taken::Track => TakenView::Track,
            Taken::DiscardUntilSync => TakenView::DiscardUntilSync,
            Taken::Hold(frame) => TakenView::Hold(frame@),
        }
    }
}

/// What a client that registers for notifications is told.
pub open spec fn listen_response() -> ResponseView {
    ResponseView::error(
        "0A000"@,
        "LISTEN is not supported on a pooled server connection"@,
    ).with_detail(LISTEN_DETAIL@).with_hint(LISTEN_HINT@)
}

fn listen_unsupported() -> (response: ErrorResponse)
    ensures
        response@ == listen_response(),
{
    ErrorResponse::error(
        "0A000",
        "LISTEN is not supported on a pooled server connection".to_owned(),
    ).with_detail(LISTEN_DETAIL).with_hint(LISTEN_HINT)
}

/// What a client that names an unknown prepared statement is told.
pub open spec fn statement_response(statement: Seq<char>) -> ResponseView {
    ResponseView::error(
        "26000"@,
        "prepared statement \""@ + statement + "\" does not exist on this server connection"@,
    ).with_detail(STATEMENT_DETAIL@).with_hint(STATEMENT_HINT@)
}

fn no_such_statement(statement: &str) -> (response: ErrorResponse)
    ensures
        response@ == statement_response(statement@),
{
    let mut message = "prepared statement \"".to_owned();
    message.append(statement);
    message.append("\" does not exist on this server connection");
    ErrorResponse::error("26000", message).with_detail(STATEMENT_DETAIL).with_hint(STATEMENT_HINT)
}

/// The requests at hand, as far as they were taken: what crosses to the server,
/// what the client is told at once, and how it ended.
#[verifier::ext_equal]
pub struct ForwardingView {
    pub out: Seq<FrameView>,
    pub refusals: Seq<ReplyView>,
    pub requests: Requests,
}

impl ForwardingView {
    /// What taking a request leads to, with so many answers in flight and the
    /// session standing so.
    pub open spec fn taken(
        self,
        frame: FrameView,
        verdict: VerdictView,
        outstanding: nat,
        status: TransactionStatus,
    ) -> (ForwardingView, TakenView) {
        match verdict {
            VerdictView::Forward => (
                ForwardingView { out: self.out.push(frame), ..self },
                TakenView::Track,
            ),
            VerdictView::Skip => (self, TakenView::Next),
            VerdictView::Reject(statement) => (
                ForwardingView {
                    refusals: self.refusals.push(ReplyView::Error(statement_response(statement))),
                    ..self
                },
                TakenView::Next,
            ),
            VerdictView::RejectListen => if frame.tag == QUERY {
                if outstanding > 0 {
                    (self, TakenView::Hold(frame))
                } else {
                    (
                        ForwardingView {
                            refusals: self.refusals.push(ReplyView::Error(listen_response())).push(
                                ReplyView::Ready(status),
                            ),
                            requests: Requests::Answered,
                            ..self
                        },
                        TakenView::Next,
                    )
                }
            } else {
                (
                    ForwardingView {
                        refusals: self.refusals.push(ReplyView::Error(listen_response())),
                        ..self
                    },
                    TakenView::DiscardUntilSync,
                )
            },
        }
    }
}

/// The requests at hand, as far as they were taken.
#[derive(Debug, PartialEq, Eq)]
pub struct Forwarding {
    out: Vec<Frame>,
    refusals: Vec<Reply>,
    requests: Requests,
}

impl View for Forwarding {
    type V = ForwardingView;

    closed spec fn view(&self) -> ForwardingView {
        ForwardingView {
            out: frames(self.out@),
            refusals: replies(self.refusals@),
            requests: self.requests,
        }
    }
}

impl Forwarding {
    /// No request is taken yet.
    pub fn new() -> (forwarding: Self)
        ensures
            forwarding@ == (ForwardingView {
                out: Seq::empty(),
                refusals: Seq::empty(),
                requests: Requests::Drained,
            }),
    {
        let forwarding = Forwarding {
            out: Vec::new(),
            refusals: Vec::new(),
            requests: Requests::Drained,
        };
        assert(forwarding@ =~= ForwardingView {
            out: Seq::empty(),
            refusals: Seq::empty(),
            requests: Requests::Drained,
        });
        forwarding
    }

    /// Notes that the next request has this tag: whether the client leaves with
    /// it, so that nothing more is taken.
    pub fn on_tag(&mut self, tag: u8) -> (terminated: bool)
        ensures
            terminated == (tag == TERMINATE),
            terminated ==> final(self)@ == (ForwardingView {
                requests: Requests::Terminated,
                ..old(self)@
            }),
            !terminated ==> final(self)@ == old(self)@,
    {
        if tag == TERMINATE {
            self.requests = Requests::Terminated;
            true
        } else {
            false
        }
    }

    fn refuse(&mut self, response: ErrorResponse)
        ensures
            final(self)@ == (ForwardingView {
                refusals: old(self)@.refusals.push(ReplyView::Error(response@)),
                ..old(self)@
            }),
    {
        self.refusals.push(Reply::Error(response));
        assert(self@ =~= ForwardingView {
            refusals: old(self)@.refusals.push(ReplyView::Error(response@)),
            ..old(self)@
        });
    }

    /// Takes one request, of which `verdict` says what is to become, with
    /// `outstanding` answers in flight and the session standing at `status`.
    pub fn on_request(
        &mut self,
        frame: Frame,
        verdict: Verdict,
        outstanding: usize,
        status: TransactionStatus,
    ) -> (taken: Taken)
        ensures
            (final(self)@, taken@) == old(self)@.taken(
                frame@,
                verdict@,
                outstanding as nat,
                status,
            ),
    {
        match verdict {
            Verdict::Forward => {
                self.out.push(frame);
                assert(self@ =~= ForwardingView {
                    out: old(self)@.out.push(frame@),
                    ..old(self)@
                });
                Taken::Track
            },
            Verdict::Skip => Taken::Next,
            Verdict::Reject(statement) => {
                self.refuse(no_such_statement(statement.as_str()));
                Taken::Next
            },
            Verdict::RejectListen => if frame.tag == QUERY {
                if outstanding > 0 {
                    return Taken::Hold(frame);
                }
                self.refuse(listen_unsupported());
                let ghost refused = self@;
                self.refusals.push(Reply::Ready(status));
                self.requests = Requests::Answered;
                assert(self@ =~= ForwardingView {
                    refusals: refused.refusals.push(ReplyView::Ready(status)),
                    requests: Requests::Answered,
                    ..refused
                });
                Taken::Next
            } else {
                self.refuse(listen_unsupported());
                Taken::DiscardUntilSync
            },
        }
    }

    /// What crosses to the server, what the client is told, and how it ended.
    pub fn into_parts(self) -> (parts: (Vec<Frame>, Vec<Reply>, Requests))
        ensures
            frames(parts.0@) == self@.out,
            replies(parts.1@) == self@.refusals,
            parts.2 == self@.requests,
    {
        (self.out, self.refusals, self.requests)
    }
}

/// One request as it was taken.
pub struct Step {
    pub frame: FrameView,
    pub verdict: VerdictView,
    pub outstanding: nat,
    pub status: TransactionStatus,
}

/// What a run of requests leads to.
pub open spec fn run(from: ForwardingView, steps: Seq<Step>) -> ForwardingView
    decreases steps.len(),
{
    if steps.len() == 0 {
        from
    } else {
        let last = steps.last();
        run(from, steps.drop_last()).taken(
            last.frame,
            last.verdict,
            last.outstanding,
            last.status,
        ).0
    }
}

/// The requests of a run that are to cross.
pub open spec fn crossing(steps: Seq<Step>) -> Seq<FrameView>
    decreases steps.len(),
{
    if steps.len() == 0 {
        Seq::empty()
    } else if steps.last().verdict is Forward {
        crossing(steps.drop_last()).push(steps.last().frame)
    } else {
        crossing(steps.drop_last())
    }
}

/// The requests that reach the server are those that are to cross, unchanged
/// and in the order in which they came.
pub proof fn law_requests_cross_in_order(from: ForwardingView, steps: Seq<Step>)
    ensures
        run(from, steps).out == from.out + crossing(steps),
    decreases steps.len(),
{
    if steps.len() > 0 {
        law_requests_cross_in_order(from, steps.drop_last());
    }
    assert(run(from, steps).out =~= from.out + crossing(steps));
}

/// A client that sends `LISTEN` as a simple query is not answered ahead of what
/// is in flight: the request is put back, and nothing is sent on its account.
pub proof fn law_a_refusal_waits_for_the_answers_in_flight(
    from: ForwardingView,
    frame: FrameView,
    outstanding: nat,
    status: TransactionStatus,
)
    requires
        frame.tag == QUERY,
        outstanding > 0,
    ensures
        from.taken(frame, VerdictView::RejectListen, outstanding, status) == (
            from,
            TakenView::Hold(frame),
        ),
{
}

/// Puts a message back where it was read from, ahead of whatever else is
/// waiting.
///
/// The client is owed the answers already in flight before it is owed this
/// message's refusal, and those answers end with a `ReadyForQuery` of their
/// own. Holding the message until then keeps the two in the order the client
/// counts them in.
pub fn hold(frame: &Frame, pending: &Vec<u8>) -> (held: Vec<u8>)
    requires
        fits(frame.body@),
    ensures
        held@ == framed(frame.tag, frame.body@) + pending@,
{
    let size: usize = frame.body.len();
    let length: u32 = size as u32 + 4;
    let mut held: Vec<u8> = Vec::new();
    held.push(frame.tag);
    held.push((length / 0x100_0000 % 0x100) as u8);
    held.push((length / 0x1_0000 % 0x100) as u8);
    held.push((length / 0x100 % 0x100) as u8);
    held.push((length % 0x100) as u8);
    assert(held@ =~= seq![frame.tag] + be_bytes(frame.body@.len() + 4));
    held.extend_from_slice(frame.body.as_slice());
    held.extend_from_slice(pending.as_slice());
    assert(held@ =~= framed(frame.tag, frame.body@) + pending@);
    held
}

/// How the service of one assignment ends.
#[derive(Debug, Clone, Copy, PartialEq, Eq, Structural)]
pub enum Boundary {
    Released,
    ClientClosed { may_release: bool },
}

/// Whether the requests that were taken end the assignment.
pub open spec fn boundary_after(requests: Requests, may_release: bool) -> Option<Boundary> {
    match requests {
        Requests::Terminated => Some(Boundary::ClientClosed { may_release }),
        Requests::Answered => if may_release {
            Some(Boundary::Released)
        } else {
            None
        },
        Requests::Drained => None,
    }
}

/// Decides whether the requests that were taken end the assignment, by whether
/// the connection may be released.
pub fn after_requests(requests: Requests, may_release: bool) -> (boundary: Option<Boundary>)
    ensures
        boundary == boundary_after(requests, may_release),
{
    match requests {
        Requests::Terminated => Some(Boundary::ClientClosed { may_release }),
        Requests::Answered => if may_release {
            Some(Boundary::Released)
        } else {
            None
        },
        Requests::Drained => None,
    }
}

/// What comes while an assignment is served: so many bytes from the client, or
/// a message of the server, which may say that it is ready for the next query.
#[derive(Debug, PartialEq, Eq)]
pub enum Event {
    FromClient(usize),
    FromServer(Option<(Frame, bool)>),
}

/// What an event leads to: a message for the client, and then perhaps the end
/// of the assignment.
#[derive(Debug, PartialEq, Eq)]
pub struct Served {
    pub relay: Option<Frame>,
    pub boundary: Option<Boundary>,
}

/// Whether an event ends the assignment.
pub open spec fn boundary_on(event: Event, may_release: bool) -> Option<Boundary> {
    match event {
        Event::FromClient(read) => if read == 0 {
            Some(Boundary::ClientClosed { may_release })
        } else {
            None
        },
        Event::FromServer(Some((_, ready))) => if ready && may_release {
            Some(Boundary::Released)
        } else {
            None
        },
        Event::FromServer(None) => None,
    }
}

/// What an event leads to, by whether the connection may be released after it.
pub fn on_event(event: Event, may_release: bool) -> (served: Result<Served, RelayError>)
    ensures
        match event {
            Event::FromClient(_) => served == Ok::<Served, RelayError>(
                (Served { relay: None, boundary: boundary_on(event, may_release) }),
            ),
            Event::FromServer(None) => served == Err::<Served, RelayError>(
                RelayError::ServerClosed,
            ),
            Event::FromServer(Some((frame, _))) => served == Ok::<Served, RelayError>(
                (Served { relay: Some(frame), boundary: boundary_on(event, may_release) }),
            ),
        },
{
    match event {
        Event::FromClient(read) => {
            let boundary = if read == 0 {
                Some(Boundary::ClientClosed { may_release })
            } else {
                None
            };
            Ok(Served { relay: None, boundary })
        },
        Event::FromServer(None) => Err(RelayError::ServerClosed),
        Event::FromServer(Some((frame, ready))) => {
            let boundary = if ready && may_release {
                Some(Boundary::Released)
            } else {
                None
            };
            Ok(Served { relay: Some(frame), boundary })
        },
    }
}

/// What becomes of a server connection once its assignment has ended.
#[derive(Debug, Clone, Copy, PartialEq, Eq, Structural)]
pub enum Disposal {
    Release,
    Discard,
}

/// What becomes of the session after that.
#[derive(Debug, PartialEq, Eq)]
pub enum Onward {
    Again,
    Leave,
    Fail(RelayError),
}

/// What becomes of a connection whose assignment ended so.
pub open spec fn disposal_of(served: Result<Boundary, RelayError>) -> Disposal {
    if served matches Ok(boundary) && boundary != (Boundary::ClientClosed { may_release: false }) {
        Disposal::Release
    } else {
        Disposal::Discard
    }
}

/// Decides what becomes of a connection whose assignment has ended, and of the
/// session.
pub fn dispose(served: Result<Boundary, RelayError>) -> (next: (Disposal, Onward))
    ensures
        next.0 == disposal_of(served),
        match served {
            Ok(Boundary::Released) => next.1 == Onward::Again,
            Ok(Boundary::ClientClosed { may_release: _ }) => next.1 == Onward::Leave,
            Err(error) => next.1 == Onward::Fail(error),
        },
{
    match served {
        Ok(Boundary::Released) => (Disposal::Release, Onward::Again),
        Ok(Boundary::ClientClosed { may_release: true }) => (Disposal::Release, Onward::Leave),
        Ok(Boundary::ClientClosed { may_release: false }) => (Disposal::Discard, Onward::Leave),
        Err(error) => (Disposal::Discard, Onward::Fail(error)),
    }
}

/// The query that puts a connection back into the state a fresh one is in,
/// before it goes to another client.
pub const RESET: &'static str = "DISCARD ALL";

/// Decides what becomes of a connection that was to be reset: one that could
/// not be is never handed to a client again.
pub fn after_reset(answered: &Result<Vec<Row>, QueryError>) -> (disposal: Disposal)
    ensures
        disposal == if answered is Ok {
            Disposal::Release
        } else {
            Disposal::Discard
        },
{
    match answered {
        Ok(_) => Disposal::Release,
        Err(_) => Disposal::Discard,
    }
}

/// A connection goes on to another client only from a transaction boundary:
/// however its assignment ends, it is released exactly where it may be, and
/// thrown away otherwise.
pub proof fn law_a_connection_is_kept_only_at_a_boundary(
    requests: Requests,
    event: Event,
    may_release: bool,
)
    ensures
        boundary_after(requests, may_release) matches Some(boundary) ==> disposal_of(Ok(boundary))
            == (if may_release {
            Disposal::Release
        } else {
            Disposal::Discard
        }),
        boundary_on(event, may_release) matches Some(boundary) ==> disposal_of(Ok(boundary)) == (
        if may_release {
            Disposal::Release
        } else {
            Disposal::Discard
        }),
{
}

/// What a session between assignments does next.
#[derive(Debug, Clone, Copy, PartialEq, Eq, Structural)]
pub enum Awaiting {
    /// Read more from the client.
    Read,
    /// End: the client leaves, or is gone.
    Leave,
    /// Ask for a server connection.
    Acquire,
}

/// Decides what a session between assignments does next, by what the client has
/// sent and whether it has closed its side.
pub fn between_assignments(pending: &[u8], closed: bool) -> (next: Awaiting)
    ensures
        next == if pending@.len() == 0 {
            if closed {
                Awaiting::Leave
            } else {
                Awaiting::Read
            }
        } else if pending@[0] == TERMINATE {
            Awaiting::Leave
        } else {
            Awaiting::Acquire
        },
{
    if pending.len() == 0 {
        if closed {
            Awaiting::Leave
        } else {
            Awaiting::Read
        }
    } else if pending[0] == TERMINATE {
        Awaiting::Leave
    } else {
        Awaiting::Acquire
    }
}

/// Decides whether a client that waits for a server connection goes on waiting,
/// by what was read from it meanwhile: it is gone where nothing came or the
/// read failed.
pub fn still_waits(read: Option<usize>) -> (waits: bool)
    ensures
        waits == (read matches Some(n) && n > 0),
{
    match read {
        Some(n) => n > 0,
        None => false,
    }
}

/// What a client that got no connection is told: only that it waited too long.
pub fn give_up(error: PoolError) -> (response: Result<ErrorResponse, RelayError>)
    ensures
        match error {
            PoolError::WaitTimeout { waited } => response matches Ok(r) && r@
                == ResponseView::fatal(
                "53300"@,
                "no server connection became free within "@ + waited.shown_text(),
            ).with_hint("Retry, or ask for more connection slots for this tenant."@),
            _ => response == Err::<ErrorResponse, RelayError>(RelayError::Pool(error)),
        },
{
    match error {
        PoolError::WaitTimeout { waited } => {
            let mut message = "no server connection became free within ".to_owned();
            message.append(waited.shown().as_str());
            Ok(
                ErrorResponse::fatal("53300", message).with_hint(
                    "Retry, or ask for more connection slots for this tenant.",
                ),
            )
        },
        other => Err(RelayError::Pool(other)),
    }
}

/// What a client is greeted with: the parameters, the key under which it may
/// cancel, and that it may send its first query.
pub open spec fn greeting_of(parameters: Seq<(Seq<char>, Seq<char>)>, key: CancelKey) -> Seq<
    ReplyView,
> {
    Seq::new(
        parameters.len(),
        |k: int| ReplyView::Parameter { name: parameters[k].0, value: parameters[k].1 },
    ).push(ReplyView::Key(key)).push(ReplyView::Ready(TransactionStatus::Idle))
}

/// What a client is greeted with.
pub fn greeting(parameters: &Vec<(String, String)>, key: CancelKey) -> (greeting: Vec<Reply>)
    ensures
        replies(greeting@) == greeting_of(parameter_list(parameters@), key),
{
    let mut out: Vec<Reply> = Vec::new();
    let mut k: usize = 0;
    while k < parameters.len()
        invariant
            k <= parameters@.len(),
            out@.len() == k,
            forall|j: int|
                #![trigger out@[j]]
                0 <= j < k ==> out@[j]@ == (ReplyView::Parameter {
                    name: parameters@[j].0@,
                    value: parameters@[j].1@,
                }),
        decreases parameters@.len() - k,
    {
        out.push(
            Reply::Parameter { name: parameters[k].0.clone(), value: parameters[k].1.clone() },
        );
        k += 1;
    }
    out.push(Reply::Key(key));
    out.push(Reply::Ready(TransactionStatus::Idle));
    assert(replies(out@) =~= greeting_of(parameter_list(parameters@), key));
    out
}

/// The `ParameterStatus` set every client is greeted with, taken from the first
/// server connection this node opens.
///
/// A client waits for `ReadyForQuery` before it sends anything, so the greeting
/// cannot wait for the client's first message the way an assignment does. The
/// first client to arrive borrows a connection just long enough to copy its
/// parameters and gives it straight back; every client after that is greeted
/// without touching the pool.
#[derive(Debug)]
pub struct Welcome {
    parameters: Option<Vec<(String, String)>>,
}

impl View for Welcome {
    type V = Option<Seq<(Seq<char>, Seq<char>)>>;

    closed spec fn view(&self) -> Option<Seq<(Seq<char>, Seq<char>)>> {
        match self.parameters {
            Some(parameters) => Some(parameter_list(parameters@)),
            None => None,
        }
    }
}

impl Default for Welcome {
    fn default() -> (welcome: Self)
        ensures
            welcome@ is None,
    {
        Welcome { parameters: None }
    }
}

impl Welcome {
    /// The parameters, once they are known.
    pub fn parameters(&self) -> (parameters: Option<&Vec<(String, String)>>)
        ensures
            parameters is Some <==> self@ is Some,
            parameters matches Some(p) ==> self@ == Some(parameter_list(p@)),
    {
        self.parameters.as_ref()
    }

    /// Keeps the parameters of a connection, unless some are kept already.
    pub fn set(&mut self, parameters: Vec<(String, String)>)
        ensures
            final(self)@ == if old(self)@ is Some {
                old(self)@
            } else {
                Some(parameter_list(parameters@))
            },
    {
        if self.parameters.is_none() {
            self.parameters = Some(parameters);
        }
    }
}

/// A session in transaction mode: the key that its client may cancel with, and
/// the instance that it is served by.
#[derive(Debug, PartialEq, Eq)]
pub struct TransactionSession {
    ticket: Ticket,
    instance: InstanceId,
}

impl TransactionSession {
    /// The key that the client may cancel with.
    pub closed spec fn issued(&self) -> CancelKey {
        self.ticket@
    }

    /// The instance that the client is served by.
    pub closed spec fn served_by(&self) -> Seq<char> {
        self.instance@
    }

    /// Begins a session: its client gets a key of its own, which points at
    /// nothing yet.
    pub fn begin(registry: &mut CancelRegistry, instance: InstanceId) -> (session: Self)
        ensures
            session.served_by() == instance@,
            session.issued() == old(registry)@.next_key(session.issued().secret_key),
            final(registry)@ == (RegistryView {
                serial: if old(registry)@.serial == u32::MAX {
                    0
                } else {
                    (old(registry)@.serial + 1) as u32
                },
                live: old(registry)@.live.insert(session.issued(), None),
                ..old(registry)@
            }),
            final(registry)@.target(session.issued()) is None,
    {
        TransactionSession { ticket: registry.issue(), instance }
    }

    /// The key that the client may cancel with.
    pub fn key(&self) -> (key: CancelKey)
        ensures
            key == self.issued(),
    {
        self.ticket.key()
    }

    /// What the client is greeted with.
    pub fn greet(&self, parameters: &Vec<(String, String)>) -> (replies: Vec<Reply>)
        ensures
            crate::response::replies(replies@) == greeting_of(parameter_list(parameters@), self.issued()),
    {
        greeting(parameters, self.ticket.key())
    }

    /// A server connection was assigned to the client: its key points at it.
    pub fn assigned(&self, registry: &mut CancelRegistry, backend: CancelKey)
        ensures
            final(registry)@ == (RegistryView {
                live: old(registry)@.live.insert(
                    self.issued(),
                    Some(TargetView { instance: self.served_by(), backend }),
                ),
                ..old(registry)@
            }),
            final(registry)@.target(self.issued()) == Some(
                TargetView { instance: self.served_by(), backend },
            ),
    {
        self.ticket.aim(registry, self.instance.clone(), backend);
    }

    /// The assignment has ended: the key points at nothing, and it is decided
    /// what becomes of the connection and of the session.
    pub fn served(&self, registry: &mut CancelRegistry, served: Result<Boundary, RelayError>) -> (
        next: (Disposal, Onward))
        ensures
            final(registry)@ == (RegistryView {
                live: old(registry)@.live.insert(self.issued(), None),
                ..old(registry)@
            }),
            final(registry)@.target(self.issued()) is None,
            next.0 == disposal_of(served),
            match served {
                Ok(Boundary::Released) => next.1 == Onward::Again,
                Ok(Boundary::ClientClosed { may_release: _ }) => next.1 == Onward::Leave,
                Err(error) => next.1 == Onward::Fail(error),
            },
    {
        self.ticket.stand_down(registry);
        dispose(served)
    }

    /// Ends the session: its key is forgotten.
    pub fn end(self, registry: &mut CancelRegistry)
        ensures
            final(registry)@ == (RegistryView {
                live: old(registry)@.live.remove(self.issued()),
                ..old(registry)@
            }),
            final(registry)@.target(self.issued()) is None,
    {
        self.ticket.leave(registry);
    }
}

/// What becomes of a request that does not cross: one to be passed over leaves no
/// trace; one for a statement that is not there is refused at once; and a `LISTEN`
/// is refused, as a query together with word that the session stands as it did,
/// which ends it, and otherwise up to the next `Sync`. None of them reaches the
/// server.
pub proof fn law_what_does_not_cross_is_answered_here(
    from: ForwardingView,
    frame: FrameView,
    statement: Seq<char>,
    outstanding: nat,
    status: TransactionStatus,
)
    ensures
        from.taken(frame, VerdictView::Skip, outstanding, status) == (from, TakenView::Next),
        ({
            let (after, taken) = from.taken(
                frame,
                VerdictView::Reject(statement),
                outstanding,
                status,
            );
            &&& after.out == from.out && after.requests == from.requests && taken is Next
            &&& after.refusals.len() == from.refusals.len() + 1
            &&& after.refusals.drop_last() == from.refusals
            &&& after.refusals.last() matches ReplyView::Error(response) && !response.fatal
                && response.code == "26000"@
        }),
        ({
            let (after, taken) = from.taken(frame, VerdictView::RejectListen, outstanding, status);
            &&& after.out == from.out
            &&& frame.tag == 0x51 && outstanding == 0 ==> {
                &&& taken is Next
                &&& after.requests == Requests::Answered
                &&& after.refusals.len() == from.refusals.len() + 2
                &&& after.refusals[from.refusals.len() as int] is Error
                &&& after.refusals.last() == ReplyView::Ready(status)
            }
            &&& frame.tag == 0x51 && outstanding > 0 ==> taken == TakenView::Hold(frame) && after
                == from
            &&& frame.tag != 0x51 ==> {
                &&& taken is DiscardUntilSync
                &&& after.requests == from.requests
                &&& after.refusals.len() == from.refusals.len() + 1
                &&& after.refusals.last() is Error
            }
        }),
        ({
            let (after, taken) = from.taken(frame, VerdictView::Forward, outstanding, status);
            &&& taken is Track
            &&& after.out == from.out.push(frame)
            &&& after.refusals == from.refusals && after.requests == from.requests
        }),
{
    let (after, taken) = from.taken(frame, VerdictView::Reject(statement), outstanding, status);
    assert(after.refusals.drop_last() =~= from.refusals);
}

/// An assignment ends exactly where the client leaves, or where the server is
/// ready, or was not needed, and the connection may be released.
pub proof fn law_an_assignment_ends_where_nothing_is_owed(
    requests: Requests,
    frame: Frame,
    ready: bool,
    read: usize,
    may_release: bool,
)
    ensures
        boundary_on(Event::FromServer(Some((frame, ready))), may_release) == (if ready
            && may_release {
            Some(Boundary::Released)
        } else {
            None
        }),
        boundary_on(Event::FromClient(read), may_release) is Some <==> read == 0,
        boundary_on(Event::FromClient(0), may_release) == Some(
            Boundary::ClientClosed { may_release },
        ),
        boundary_after(Requests::Terminated, may_release) == Some(
            Boundary::ClientClosed { may_release },
        ),
        boundary_after(Requests::Answered, may_release) is Some <==> may_release,
        boundary_after(Requests::Drained, may_release) is None,
        disposal_of(Ok(Boundary::Released)) == Disposal::Release,
        disposal_of(Ok(Boundary::ClientClosed { may_release })) == Disposal::Release
            <==> may_release,
        disposal_of(Err(RelayError::ServerClosed)) == Disposal::Discard,
{
}

/// A client is greeted with every parameter, in their order, then with its key,
/// and last with word that it may send its first query.
pub proof fn law_a_client_is_greeted_in_full(
    parameters: Seq<(Seq<char>, Seq<char>)>,
    key: CancelKey,
    k: int,
)
    requires
        0 <= k < parameters.len(),
    ensures
        greeting_of(parameters, key).len() == parameters.len() + 2,
        greeting_of(parameters, key)[k] == (ReplyView::Parameter {
            name: parameters[k].0,
            value: parameters[k].1,
        }),
        greeting_of(parameters, key)[parameters.len() as int] == ReplyView::Key(key),
        greeting_of(parameters, key).last() == ReplyView::Ready(TransactionStatus::Idle),
{
}

} // verus!
