//! A pool of server connections: who gets a connection, who gets a slot to open
//! one, who waits, and what is closed when the grant falls.
use std::collections::VecDeque;

use vstd::prelude::*;
use vstd::string::StringExecFns;

use crate::server::{connect_text, ConnectError};
use crate::time::Duration;

verus! {

/// Why a client gets no connection.
#[derive(Debug, PartialEq, Eq)]
pub enum PoolError {
    WaitTimeout { waited: Duration },
    Open(ConnectError),
    Closed,
}

/// Why a client gets no connection, in words.
pub open spec fn pool_text(error: PoolError) -> Seq<char> {
    match error {
        PoolError::WaitTimeout { waited } => {
            "no connection slot became free within "@ + waited.shown_text()
        },
        PoolError::Open(source) => "could not open a server connection: "@ + connect_text(source),
        PoolError::Closed => "the pool stopped answering requests"@,
    }
}

impl PoolError {
    /// The error in words.
    pub fn to_string(&self) -> (text: String)
        ensures
            text@ == pool_text(*self),
    {
        match self {
            PoolError::WaitTimeout { waited } => {
                let mut text = "no connection slot became free within ".to_owned();
                text.append(waited.shown().as_str());
                text
            },
            PoolError::Open(source) => {
                let mut text = "could not open a server connection: ".to_owned();
                text.append(source.to_string().as_str());
                text
            },
            PoolError::Closed => "the pool stopped answering requests".to_owned(),
        }
    }
}

/// What a pool is made with: its slots, and how long a client waits for one.
#[derive(Debug, Clone, Copy, PartialEq, Eq, Structural)]
pub struct PoolLimits {
    pub slots: usize,
    pub wait_timeout: Duration,
}

/// What a pool holds at a moment.
#[derive(Debug, Clone, Copy, PartialEq, Eq, Structural)]
pub struct PoolStats {
    pub slots: usize,
    pub idle: usize,
    pub in_use: usize,
    pub opening: usize,
    pub closing: usize,
    pub waiting: usize,
    pub opened: u64,
}

impl Default for PoolStats {
    fn default() -> (stats: Self)
        ensures
            stats == (PoolStats {
                slots: 0,
                idle: 0,
                in_use: 0,
                opening: 0,
                closing: 0,
                waiting: 0,
                opened: 0,
            }),
    {
        PoolStats { slots: 0, idle: 0, in_use: 0, opening: 0, closing: 0, waiting: 0, opened: 0 }
    }
}

impl View for PoolStats {
    type V = PoolStats;

    open spec fn view(&self) -> PoolStats {
        *self
    }
}

impl PoolStats {
    /// The connections that are there: idle, held by a client, or on their way
    /// out.
    pub open spec fn actual_count(self) -> nat {
        (self.idle + self.in_use + self.closing) as nat
    }

    /// The connections that clients ask for: those who wait, those who hold one
    /// and those for whom one is being opened.
    pub open spec fn demand_count(self) -> nat {
        (self.waiting + self.in_use + self.opening) as nat
    }

    /// Every connection that the instance may hold.
    pub open spec fn occupied_count(self) -> nat {
        (self.idle + self.in_use + self.opening + self.closing) as nat
    }

    pub fn actual(&self) -> (n: usize)
        requires
            self.actual_count() <= usize::MAX,
        ensures
            n == self.actual_count(),
    {
        self.idle + self.in_use + self.closing
    }

    pub fn demand(&self) -> (n: usize)
        requires
            self.demand_count() <= usize::MAX,
        ensures
            n == self.demand_count(),
    {
        self.waiting + self.in_use + self.opening
    }

    pub fn occupied(&self) -> (n: usize)
        requires
            self.occupied_count() <= usize::MAX,
        ensures
            n == self.occupied_count(),
    {
        self.idle + self.in_use + self.opening + self.closing
    }
}

/// The state of a pool: its slots; the idle connections, the last one returned
/// at the end; how many are held by clients, being opened and being closed;
/// those that are to be closed; the tickets of the clients that wait, the first
/// to come first; the next ticket; and how many were ever opened.
#[verifier::ext_equal]
#[verifier::reject_recursive_types(C)]
pub struct PoolView<C> {
    pub slots: nat,
    pub idle: Seq<C>,
    pub in_use: nat,
    pub opening: nat,
    pub retired: Seq<C>,
    pub being_closed: nat,
    pub waiters: Seq<u64>,
    pub next_ticket: u64,
    pub opened: u64,
}

/// Tickets in the order in which they were given out, all before the next one.
pub open spec fn in_turn(tickets: Seq<u64>, next: u64) -> bool {
    &&& forall|i: int, j: int| 0 <= i < j < tickets.len() ==> tickets[i] < tickets[j]
    &&& forall|i: int| 0 <= i < tickets.len() ==> tickets[i] < next
}

/// What a client that asks for a connection gets: an idle one, a slot to open
/// one in, or a place in the queue.
pub enum Request<C> {
    Assigned(C),
    Reserved,
    Queued(u64),
}

/// What becomes of a connection that a client gives back: it goes to the client
/// that has waited longest, or it stays with the pool.
pub enum Returned<C> {
    HandedTo(u64, C),
    Kept,
}

impl<C> PoolView<C> {
    /// The connections on their way out.
    pub open spec fn closing(self) -> nat {
        self.retired.len() + self.being_closed
    }

    /// The connections that stay if nothing changes: idle, held or being
    /// opened.
    pub open spec fn staying(self) -> nat {
        self.idle.len() + self.in_use + self.opening
    }

    /// Every connection that the instance may hold.
    pub open spec fn occupied(self) -> nat {
        self.staying() + self.closing()
    }

    /// What every pool keeps: its connections can be counted; clients wait in
    /// the order of their tickets; nobody waits while a connection is idle; and
    /// nothing is idle above the grant.
    pub open spec fn wf(self) -> bool {
        &&& self.occupied() <= usize::MAX
        &&& self.slots <= usize::MAX
        &&& in_turn(self.waiters, self.next_ticket)
        &&& self.idle.len() > 0 ==> self.waiters.len() == 0 && self.staying() <= self.slots
    }

    /// A client asks for a connection.
    pub open spec fn requested(self) -> (PoolView<C>, Request<C>) {
        if self.idle.len() > 0 {
            (
                PoolView { idle: self.idle.drop_last(), in_use: self.in_use + 1, ..self },
                Request::Assigned(self.idle.last()),
            )
        } else if self.occupied() < self.slots {
            (PoolView { opening: self.opening + 1, ..self }, Request::Reserved)
        } else {
            (
                PoolView {
                    waiters: self.waiters.push(self.next_ticket),
                    next_ticket: (self.next_ticket + 1) as u64,
                    ..self
                },
                Request::Queued(self.next_ticket),
            )
        }
    }

    /// A connection came to be open in a reserved slot.
    pub open spec fn fulfilled(self) -> PoolView<C> {
        PoolView {
            opening: (self.opening - 1) as nat,
            in_use: self.in_use + 1,
            opened: (self.opened + 1) as u64,
            ..self
        }
    }

    /// A client that waited has left.
    pub open spec fn given_up(self, ticket: u64) -> PoolView<C> {
        if self.waiters.contains(ticket) {
            PoolView { waiters: self.waiters.remove(self.waiters.index_of(ticket)), ..self }
        } else {
            self
        }
    }

    /// A client gives a connection back: above the grant it is retired, else it
    /// goes to the client that has waited longest, else it is idle.
    pub open spec fn released(self, connection: C) -> (PoolView<C>, Returned<C>) {
        if self.staying() > self.slots {
            (
                PoolView {
                    in_use: (self.in_use - 1) as nat,
                    retired: self.retired.push(connection),
                    ..self
                },
                Returned::Kept,
            )
        } else if self.waiters.len() > 0 {
            (
                PoolView { waiters: self.waiters.drop_first(), ..self },
                Returned::HandedTo(self.waiters[0], connection),
            )
        } else {
            (
                PoolView {
                    in_use: (self.in_use - 1) as nat,
                    idle: self.idle.push(connection),
                    ..self
                },
                Returned::Kept,
            )
        }
    }

    /// A reserved slot is given back: within the grant it goes to the client
    /// that has waited longest.
    pub open spec fn slot_freed(self) -> (PoolView<C>, Option<u64>) {
        if self.occupied() <= self.slots && self.waiters.len() > 0 {
            (PoolView { waiters: self.waiters.drop_first(), ..self }, Some(self.waiters[0]))
        } else {
            (PoolView { opening: (self.opening - 1) as nat, ..self }, None)
        }
    }

    /// A connection that a client held is gone: its slot is given back.
    pub open spec fn discarded(self) -> (PoolView<C>, Option<u64>) {
        PoolView {
            in_use: (self.in_use - 1) as nat,
            opening: self.opening + 1,
            ..self
        }.slot_freed()
    }

    /// How many idle connections are above a grant.
    pub open spec fn excess(self, grant: nat) -> nat {
        if self.staying() <= grant {
            0
        } else if self.staying() - grant < self.idle.len() {
            (self.staying() - grant) as nat
        } else {
            self.idle.len()
        }
    }

    /// The pool is held to a new grant: what was retired and what is idle above
    /// the grant, the latest returned first, is taken out to be closed.
    pub open spec fn retargeted(self, grant: nat) -> (PoolView<C>, Seq<C>) {
        let keep = (self.idle.len() - self.excess(grant)) as int;
        let taken = self.retired + self.idle.subrange(keep, self.idle.len() as int).reverse();
        (
            PoolView {
                slots: grant,
                idle: self.idle.subrange(0, keep),
                retired: Seq::empty(),
                being_closed: self.being_closed + taken.len(),
                ..self
            },
            taken,
        )
    }

    /// A connection that was to be closed is gone.
    pub open spec fn closed(self) -> PoolView<C> {
        PoolView { being_closed: (self.being_closed - 1) as nat, ..self }
    }

    /// How many of those who wait can be handed a slot.
    pub open spec fn handed(self) -> nat {
        if self.occupied() >= self.slots {
            0
        } else if self.slots - self.occupied() < self.waiters.len() {
            (self.slots - self.occupied()) as nat
        } else {
            self.waiters.len()
        }
    }

    /// The free slots are handed to those who have waited longest.
    pub open spec fn handed_out(self) -> (PoolView<C>, Seq<u64>) {
        let n = self.handed();
        (
            PoolView {
                opening: self.opening + n,
                waiters: self.waiters.subrange(n as int, self.waiters.len() as int),
                ..self
            },
            self.waiters.subrange(0, n as int),
        )
    }
}

/// A pool of connections held to a number of slots.
#[derive(Debug)]
pub struct PoolState<C> {
    slots: usize,
    idle: Vec<C>,
    in_use: usize,
    opening: usize,
    retired: Vec<C>,
    being_closed: usize,
    waiters: VecDeque<u64>,
    next_ticket: u64,
    opened: u64,
}

impl<C> View for PoolState<C> {
    type V = PoolView<C>;

    closed spec fn view(&self) -> PoolView<C> {
        PoolView {
            slots: self.slots as nat,
            idle: self.idle@,
            in_use: self.in_use as nat,
            opening: self.opening as nat,
            retired: self.retired@,
            being_closed: self.being_closed as nat,
            waiters: self.waiters@,
            next_ticket: self.next_ticket,
            opened: self.opened,
        }
    }
}

impl<C> PoolState<C> {
    pub fn new(slots: usize) -> (pool: Self)
        ensures
            pool@.wf(),
            pool@ == (PoolView::<C> {
                slots: slots as nat,
                idle: Seq::<C>::empty(),
                in_use: 0,
                opening: 0,
                retired: Seq::empty(),
                being_closed: 0,
                waiters: Seq::empty(),
                next_ticket: 0,
                opened: 0,
            }),
    {
        PoolState {
            slots,
            idle: Vec::new(),
            in_use: 0,
            opening: 0,
            retired: Vec::new(),
            being_closed: 0,
            waiters: VecDeque::new(),
            next_ticket: 0,
            opened: 0,
        }
    }

    pub fn stats(&self) -> (stats: PoolStats)
        requires
            self@.wf(),
        ensures
            stats.slots == self@.slots,
            stats.idle == self@.idle.len(),
            stats.in_use == self@.in_use,
            stats.opening == self@.opening,
            stats.closing == self@.closing(),
            stats.waiting == self@.waiters.len(),
            stats.opened == self@.opened,
    {
        PoolStats {
            slots: self.slots,
            idle: self.idle.len(),
            in_use: self.in_use,
            opening: self.opening,
            closing: self.retired.len() + self.being_closed,
            waiting: self.waiters.len(),
            opened: self.opened,
        }
    }

    fn staying(&self) -> (n: usize)
        requires
            self@.wf(),
        ensures
            n == self@.staying(),
    {
        self.idle.len() + self.in_use + self.opening
    }

    fn occupied(&self) -> (n: usize)
        requires
            self@.wf(),
        ensures
            n == self@.occupied(),
    {
        self.idle.len() + self.in_use + self.opening + self.retired.len() + self.being_closed
    }

    /// Whether the pool has no connection and nobody asks it for one.
    pub fn is_unused(&self) -> (b: bool)
        requires
            self@.wf(),
        ensures
            b == (self@.occupied() == 0 && self@.waiters.len() == 0),
    {
        self.occupied() == 0 && self.waiters.len() == 0
    }

    /// A client asks for a connection.
    pub fn request(&mut self) -> (request: Request<C>)
        requires
            old(self)@.wf(),
            old(self)@.next_ticket < u64::MAX,
        ensures
            final(self)@.wf(),
            (final(self)@, request) == old(self)@.requested(),
    {
        let ghost before = self@;
        if let Some(connection) = self.idle.pop() {
            self.in_use = self.in_use + 1;
            assert(self@.idle =~= before.idle.drop_last());
            return Request::Assigned(connection);
        }
        if self.occupied() < self.slots {
            self.opening = self.opening + 1;
            return Request::Reserved;
        }
        let ticket: u64 = self.next_ticket;
        self.next_ticket = self.next_ticket + 1;
        self.waiters.push_back(ticket);
        Request::Queued(ticket)
    }

    /// A connection came to be open in a reserved slot, for the client that
    /// holds the reservation.
    pub fn fulfil(&mut self)
        requires
            old(self)@.wf(),
            old(self)@.opening > 0,
            old(self)@.opened < u64::MAX,
        ensures
            final(self)@.wf(),
            final(self)@ == old(self)@.fulfilled(),
    {
        self.opening = self.opening - 1;
        self.in_use = self.in_use + 1;
        self.opened = self.opened + 1;
    }

    /// A client that waited leaves. Whether it still stood in the queue is
    /// answered: if not, it was handed something already.
    pub fn give_up(&mut self, ticket: u64) -> (waited: bool)
        requires
            old(self)@.wf(),
        ensures
            final(self)@.wf(),
            final(self)@ == old(self)@.given_up(ticket),
            waited == old(self)@.waiters.contains(ticket),
    {
        let ghost before = self@;
        let mut i: usize = 0;
        while i < self.waiters.len()
            invariant
                i <= self.waiters@.len(),
                self@ == before,
                self@.wf(),
                before == old(self)@,
                forall|j: int| 0 <= j < i ==> self.waiters@[j] != ticket,
            decreases self.waiters@.len() - i,
        {
            if self.waiters[i] == ticket {
                proof {
                    assert(before.waiters[i as int] == ticket);
                    assert(before.waiters.contains(ticket));
                    let at = before.waiters.index_of(ticket);
                    assert(0 <= at < before.waiters.len() && before.waiters[at] == ticket);
                    assert(at == i);
                }
                let _ = self.waiters.remove(i);
                assert(self@.waiters =~= before.waiters.remove(i as int));
                return true;
            }
            i += 1;
        }
        false
    }

    /// A client gives a connection back.
    pub fn release(&mut self, connection: C) -> (returned: Returned<C>)
        requires
            old(self)@.wf(),
            old(self)@.in_use > 0,
        ensures
            final(self)@.wf(),
            (final(self)@, returned) == old(self)@.released(connection),
    {
        let ghost before = self@;
        if self.staying() > self.slots {
            self.in_use = self.in_use - 1;
            self.retired.push(connection);
            return Returned::Kept;
        }
        if let Some(ticket) = self.waiters.pop_front() {
            assert(self@.waiters =~= before.waiters.drop_first());
            return Returned::HandedTo(ticket, connection);
        }
        self.in_use = self.in_use - 1;
        self.idle.push(connection);
        Returned::Kept
    }

    /// A reserved slot is given back, since nothing came to be open in it. The
    /// ticket of the client that it is handed to is answered.
    pub fn free_slot(&mut self) -> (handed: Option<u64>)
        requires
            old(self)@.wf(),
            old(self)@.opening > 0,
        ensures
            final(self)@.wf(),
            (final(self)@, handed) == old(self)@.slot_freed(),
    {
        let ghost before = self@;
        if self.occupied() <= self.slots {
            if let Some(ticket) = self.waiters.pop_front() {
                assert(self@.waiters =~= before.waiters.drop_first());
                return Some(ticket);
            }
        }
        self.opening = self.opening - 1;
        None
    }

    /// A connection that a client held is closed and does not go back to the
    /// pool. The ticket of the client that its slot is handed to is answered.
    pub fn discard(&mut self) -> (handed: Option<u64>)
        requires
            old(self)@.wf(),
            old(self)@.in_use > 0,
        ensures
            final(self)@.wf(),
            (final(self)@, handed) == old(self)@.discarded(),
    {
        self.in_use = self.in_use - 1;
        self.opening = self.opening + 1;
        self.free_slot()
    }

    /// Holds the pool to a new grant. What has to be closed for it is answered;
    /// each is reported with [`PoolState::closed`] once it is gone.
    pub fn converge(&mut self, grant: usize) -> (to_close: Vec<C>)
        requires
            old(self)@.wf(),
        ensures
            final(self)@.wf(),
            (final(self)@, to_close@) == old(self)@.retargeted(grant as nat),
    {
        let ghost before = self@;
        let ghost keep = (before.idle.len() - before.excess(grant as nat)) as int;
        let mut to_close: Vec<C> = Vec::new();
        std::mem::swap(&mut self.retired, &mut to_close);
        self.slots = grant;
        let mut staying: usize = self.idle.len() + self.in_use + self.opening;
        while staying > grant && self.idle.len() > 0
            invariant
                keep <= self.idle@.len() <= before.idle.len(),
                keep == before.idle.len() - before.excess(grant as nat),
                self.idle@ == before.idle.subrange(0, self.idle@.len() as int),
                to_close@ == before.retired + before.idle.subrange(
                    self.idle@.len() as int,
                    before.idle.len() as int,
                ).reverse(),
                staying == self.idle@.len() + before.in_use + before.opening,
                self@ == (PoolView {
                    slots: grant as nat,
                    idle: self.idle@,
                    retired: Seq::empty(),
                    ..before
                }),
                before.wf(),
            decreases self.idle@.len(),
        {
            let ghost n = self.idle@.len() as int;
            let ghost taken = before.idle.subrange(n, before.idle.len() as int);
            if let Some(connection) = self.idle.pop() {
                to_close.push(connection);
                proof {
                    let more = before.idle.subrange(n - 1, before.idle.len() as int);
                    assert(connection == before.idle[n - 1]);
                    assert(more.reverse() =~= taken.reverse().push(connection));
                    assert(to_close@ =~= before.retired + more.reverse());
                    assert(self.idle@ =~= before.idle.subrange(0, n - 1));
                }
                staying = staying - 1;
            }
        }
        self.being_closed = self.being_closed + to_close.len();
        assert(self.idle@.len() == keep);
        to_close
    }

    /// A connection that was taken out to be closed is gone.
    pub fn closed(&mut self)
        requires
            old(self)@.wf(),
            old(self)@.being_closed > 0,
        ensures
            final(self)@.wf(),
            final(self)@ == old(self)@.closed(),
    {
        self.being_closed = self.being_closed - 1;
    }

    /// Hands the free slots to those who have waited longest. Their tickets are
    /// answered, in the order in which they came.
    pub fn hand_out(&mut self) -> (handed: Vec<u64>)
        requires
            old(self)@.wf(),
        ensures
            final(self)@.wf(),
            (final(self)@, handed@) == old(self)@.handed_out(),
    {
        let ghost before = self@;
        let mut handed: Vec<u64> = Vec::new();
        while self.occupied() < self.slots && self.waiters.len() > 0
            invariant
                handed@.len() <= before.handed(),
                handed@ == before.waiters.subrange(0, handed@.len() as int),
                before.wf(),
                self@.wf(),
                self@ == (PoolView {
                    opening: before.opening + handed@.len(),
                    waiters: before.waiters.subrange(
                        handed@.len() as int,
                        before.waiters.len() as int,
                    ),
                    ..before
                }),
            decreases self.waiters@.len(),
        {
            if let Some(ticket) = self.waiters.pop_front() {
                let ghost n = handed@.len() as int;
                handed.push(ticket);
                self.opening = self.opening + 1;
                proof {
                    assert(handed@ =~= before.waiters.subrange(0, n + 1));
                    assert(self@.waiters =~= before.waiters.subrange(
                        n + 1,
                        before.waiters.len() as int,
                    ));
                }
            }
        }
        assert(before.waiters.subrange(0, before.waiters.len() as int) =~= before.waiters);
        handed
    }
}

/// A connection is opened only where it leaves the pool within its slots:
/// whenever a slot is reserved or handed on, no more connections are possible
/// than slots.
pub proof fn law_a_connection_is_opened_only_within_the_slots<C>(pool: PoolView<C>)
    requires
        pool.wf(),
    ensures
        pool.requested().1 is Reserved ==> pool.requested().0.occupied() <= pool.slots,
        pool.opening > 0 && pool.slot_freed().1 is Some ==> pool.slot_freed().0.occupied()
            <= pool.slots,
        pool.in_use > 0 && pool.discarded().1 is Some ==> pool.discarded().0.occupied()
            <= pool.slots,
        pool.handed_out().1.len() > 0 ==> pool.handed_out().0.occupied() <= pool.slots,
{
}

/// No step but opening lets more connections be possible than before, so a pool
/// that stands within its slots stays within them until its grant falls.
pub proof fn law_a_pool_within_its_slots_stays_within_them<C>(
    pool: PoolView<C>,
    connection: C,
    ticket: u64,
)
    requires
        pool.wf(),
        pool.occupied() <= pool.slots,
    ensures
        pool.requested().0.occupied() <= pool.slots,
        pool.opening > 0 ==> pool.fulfilled().occupied() <= pool.slots,
        pool.given_up(ticket).occupied() <= pool.slots,
        pool.in_use > 0 ==> pool.released(connection).0.occupied() <= pool.slots,
        pool.opening > 0 ==> pool.slot_freed().0.occupied() <= pool.slots,
        pool.in_use > 0 ==> pool.discarded().0.occupied() <= pool.slots,
        pool.being_closed > 0 ==> pool.closed().occupied() <= pool.slots,
        pool.handed_out().0.occupied() <= pool.slots,
{
}

/// A lowered grant interrupts nobody: what clients hold and what is being
/// opened stays, and only idle connections above the grant are closed.
pub proof fn law_a_lowered_grant_interrupts_nobody<C>(pool: PoolView<C>, grant: nat)
    requires
        pool.wf(),
        grant <= usize::MAX,
    ensures
        pool.retargeted(grant).0.in_use == pool.in_use,
        pool.retargeted(grant).0.opening == pool.opening,
        pool.retargeted(grant).0.waiters == pool.waiters,
        pool.retargeted(grant).0.occupied() == pool.occupied(),
        pool.retargeted(grant).0.idle.len() > 0 ==> pool.retargeted(grant).0.staying() <= grant,
        pool.staying() <= grant ==> pool.retargeted(grant).0.idle == pool.idle,
{
    if pool.staying() <= grant {
        assert(pool.idle.subrange(0, pool.idle.len() as int) =~= pool.idle);
    }
}

/// Converging to the grant that a pool already holds, with nothing retired,
/// moves nothing.
pub proof fn law_converging_to_the_same_grant_moves_nothing<C>(pool: PoolView<C>)
    requires
        pool.wf(),
        pool.retired.len() == 0,
        pool.staying() <= pool.slots,
    ensures
        pool.retargeted(pool.slots).0 == pool,
        pool.retargeted(pool.slots).1.len() == 0,
{
    assert(pool.idle.subrange(0, pool.idle.len() as int) =~= pool.idle);
    assert(pool.retired =~= Seq::empty());
    assert(pool.retargeted(pool.slots).0 =~= pool);
}

/// Clients are served in the order in which they started to wait: whoever is
/// handed a connection or a slot came before everybody who still waits.
pub proof fn law_the_longest_waiting_is_served_first<C>(pool: PoolView<C>, connection: C, k: int)
    requires
        pool.wf(),
    ensures
        pool.released(connection).1 matches Returned::HandedTo(ticket, _) ==> 0 <= k < pool.released(
            connection,
        ).0.waiters.len() ==> ticket < pool.released(connection).0.waiters[k],
        pool.slot_freed().1 matches Some(ticket) ==> 0 <= k < pool.slot_freed().0.waiters.len()
            ==> ticket < pool.slot_freed().0.waiters[k],
        forall|j: int|
            0 <= j < pool.handed_out().1.len() && 0 <= k < pool.handed_out().0.waiters.len()
                ==> #[trigger] pool.handed_out().1[j] < pool.handed_out().0.waiters[k],
{
}

/// A connection is with one client at a time: one that is assigned leaves the
/// idle ones, one that is handed on goes from one client to one other, and the
/// number of clients with a connection moves with it.
pub proof fn law_a_connection_is_with_one_client<C>(pool: PoolView<C>, connection: C)
    requires
        pool.wf(),
        pool.in_use > 0,
    ensures
        pool.requested().1 matches Request::Assigned(c) ==> pool.idle == pool.requested().0.idle.push(
            c,
        ) && pool.requested().0.in_use == pool.in_use + 1,
        match pool.released(connection).1 {
            Returned::HandedTo(_, c) => c == connection && pool.released(connection).0.in_use
                == pool.in_use && pool.released(connection).0.idle == pool.idle,
            Returned::Kept => pool.released(connection).0.in_use == pool.in_use - 1,
        },
{
    if pool.idle.len() > 0 {
        assert(pool.idle =~= pool.idle.drop_last().push(pool.idle.last()));
    }
}

/// A client waits only where no slot is free: it gets an idle connection where
/// there is one, a slot to open one in where fewer connections are idle, held,
/// being opened or on their way out than there are slots, and else a place in
/// the queue, behind everybody who waits already.
pub proof fn law_a_client_waits_only_where_no_slot_is_free<C>(pool: PoolView<C>)
    requires
        pool.wf(),
        pool.next_ticket < u64::MAX,
    ensures
        pool.requested().1 is Assigned <==> pool.idle.len() > 0,
        pool.requested().1 is Reserved <==> pool.idle.len() == 0 && pool.in_use + pool.opening
            + pool.retired.len() + pool.being_closed < pool.slots,
        pool.requested().1 is Queued <==> pool.idle.len() == 0 && pool.in_use + pool.opening
            + pool.retired.len() + pool.being_closed >= pool.slots,
        pool.requested().1 matches Request::Queued(ticket) ==> {
            let after = pool.requested().0;
            &&& !pool.waiters.contains(ticket)
            &&& after.waiters == pool.waiters.push(ticket)
            &&& after.next_ticket > ticket
            &&& after.opening == pool.opening && after.in_use == pool.in_use
        },
        pool.requested().1 is Reserved ==> {
            let after = pool.requested().0;
            &&& after.opening == pool.opening + 1
            &&& after.in_use == pool.in_use
            &&& after.waiters == pool.waiters
        },
{
}

/// A connection that is given back within the grant while nobody waits is the
/// next to be assigned, and assigning it leaves the pool as it was while the
/// client held it.
pub proof fn law_what_is_given_back_is_assigned_next<C>(pool: PoolView<C>, connection: C)
    requires
        pool.wf(),
        pool.in_use > 0,
        pool.waiters.len() == 0,
        pool.idle.len() + pool.in_use + pool.opening <= pool.slots,
    ensures
        pool.released(connection).0.requested().1 == Request::Assigned(connection),
        pool.released(connection).0.requested().0 == pool,
        pool.released(connection).0.idle.len() == pool.idle.len() + 1,
        pool.released(connection).0.in_use + 1 == pool.in_use,
        pool.released(connection).0.opened == pool.opened,
{
    let after = pool.released(connection).0;
    assert(after.idle.drop_last() =~= pool.idle);
    assert(after.requested().0 =~= pool);
}

/// What becomes of a connection that is given back: above the grant it is to be
/// closed, whoever waits; within it, it goes to whoever has waited longest; and
/// else it is idle. In any case it is somewhere, and once.
pub proof fn law_a_connection_given_back_goes_one_way<C>(pool: PoolView<C>, connection: C)
    requires
        pool.wf(),
        pool.in_use > 0,
    ensures
        ({
            let (after, returned) = pool.released(connection);
            &&& pool.idle.len() + pool.in_use + pool.opening > pool.slots <==> after.retired.len()
                > pool.retired.len()
            &&& pool.idle.len() + pool.in_use + pool.opening > pool.slots ==> after.retired
                == pool.retired.push(connection) && after.idle == pool.idle && returned is Kept
                && after.waiters == pool.waiters
            &&& returned is HandedTo <==> pool.waiters.len() > 0 && pool.idle.len() + pool.in_use
                + pool.opening <= pool.slots
            &&& returned matches Returned::HandedTo(ticket, c) ==> c == connection && seq![ticket]
                + after.waiters == pool.waiters
            &&& after.idle.len() > pool.idle.len() ==> after.idle == pool.idle.push(connection)
            &&& after.idle.len() + after.in_use + after.retired.len() == pool.idle.len()
                + pool.in_use + pool.retired.len()
            &&& after.being_closed == pool.being_closed && after.opening == pool.opening
            &&& after.slots == pool.slots && after.opened == pool.opened
        }),
{
    let (after, returned) = pool.released(connection);
    if let Returned::HandedTo(ticket, c) = returned {
        assert(seq![ticket] + after.waiters =~= pool.waiters);
    }
}

/// A client that leaves the queue as soon as it came leaves it as it was, and a
/// slot that is given back as soon as it was reserved, while nobody waits, is as
/// free as it was.
pub proof fn law_a_request_that_is_taken_back_leaves_no_trace<C>(pool: PoolView<C>)
    requires
        pool.wf(),
        pool.next_ticket < u64::MAX,
    ensures
        pool.requested().1 matches Request::Queued(ticket) ==> pool.requested().0.given_up(
            ticket,
        ).waiters == pool.waiters,
        pool.requested().1 is Reserved && pool.waiters.len() == 0 ==> pool.requested().0.slot_freed()
            == (pool, None::<u64>),
{
    if pool.requested().1 is Queued {
        let after = pool.requested().0;
        let ticket = pool.next_ticket;
        let at = after.waiters.index_of(ticket);
        assert(after.waiters[pool.waiters.len() as int] == ticket);
        assert(after.waiters.contains(ticket));
        assert(0 <= at < after.waiters.len() && after.waiters[at] == ticket);
        assert(at == pool.waiters.len());
        assert(after.waiters.remove(at) =~= pool.waiters);
    }
    if pool.requested().1 is Reserved && pool.waiters.len() == 0 {
        assert(pool.requested().0.slot_freed().0 =~= pool);
    }
}

/// A client that leaves the queue is the only one that leaves it: everybody else
/// keeps their place before or behind everybody else.
pub proof fn law_whoever_leaves_the_queue_leaves_alone<C>(pool: PoolView<C>, ticket: u64, other: u64)
    requires
        pool.wf(),
    ensures
        !pool.given_up(ticket).waiters.contains(ticket),
        other != ticket ==> pool.given_up(ticket).waiters.contains(other) == pool.waiters.contains(
            other,
        ),
        in_turn(pool.given_up(ticket).waiters, pool.next_ticket),
        pool.given_up(ticket).idle == pool.idle,
        pool.given_up(ticket).in_use == pool.in_use,
        pool.given_up(ticket).opening == pool.opening,
        pool.given_up(ticket).retired == pool.retired,
        pool.given_up(ticket).being_closed == pool.being_closed,
        pool.given_up(ticket).slots == pool.slots,
        pool.given_up(ticket).opened == pool.opened,
{
    if pool.waiters.contains(ticket) {
        let at = pool.waiters.index_of(ticket);
        assert(0 <= at < pool.waiters.len() && pool.waiters[at] == ticket);
        let after = pool.waiters.remove(at);
        assert forall|k: int| 0 <= k < after.len() implies after[k] == pool.waiters[if k < at {
            k
        } else {
            k + 1
        }] by {}
        if other != ticket && pool.waiters.contains(other) {
            let k = choose|k: int| 0 <= k < pool.waiters.len() && pool.waiters[k] == other;
            if k < at {
                assert(after[k] == other);
            } else {
                assert(after[k - 1] == other);
            }
        }
        if after.contains(other) {
            let k = choose|k: int| 0 <= k < after.len() && after[k] == other;
            assert(pool.waiters[if k < at {
                k
            } else {
                k + 1
            }] == other);
        }
        if after.contains(ticket) {
            let k = choose|k: int| 0 <= k < after.len() && after[k] == ticket;
            assert(after[k] == pool.waiters[if k < at {
                k
            } else {
                k + 1
            }]);
        }
    }
}

/// A connection that came to be open leaves the number of connections as it is:
/// one fewer is on its way, one more is held, and one more was opened.
pub proof fn law_an_opened_connection_is_held_by_whoever_asked<C>(pool: PoolView<C>)
    requires
        pool.wf(),
        pool.opening > 0,
        pool.opened < u64::MAX,
    ensures
        pool.fulfilled().opening + 1 == pool.opening,
        pool.fulfilled().in_use == pool.in_use + 1,
        pool.fulfilled().opened == pool.opened + 1,
        pool.fulfilled().idle == pool.idle,
        pool.fulfilled().retired == pool.retired,
        pool.fulfilled().being_closed == pool.being_closed,
        pool.fulfilled().waiters == pool.waiters,
        pool.fulfilled().slots == pool.slots,
{
}

/// A slot that is given back is handed to whoever has waited longest, unless
/// nobody waits or there are more connections than slots: then it is free.
pub proof fn law_a_slot_given_back_serves_whoever_waits<C>(pool: PoolView<C>)
    requires
        pool.wf(),
    ensures
        pool.opening > 0 ==> {
            let (after, handed) = pool.slot_freed();
            &&& handed is Some <==> pool.waiters.len() > 0 && pool.idle.len() + pool.in_use
                + pool.opening + pool.retired.len() + pool.being_closed <= pool.slots
            &&& handed matches Some(ticket) ==> seq![ticket] + after.waiters == pool.waiters
                && after.opening == pool.opening
            &&& handed is None ==> after.opening + 1 == pool.opening && after.waiters
                == pool.waiters
            &&& after.in_use == pool.in_use && after.idle == pool.idle
        },
        pool.in_use > 0 ==> {
            let (after, handed) = pool.discarded();
            &&& handed is Some <==> pool.waiters.len() > 0 && pool.idle.len() + pool.in_use
                + pool.opening + pool.retired.len() + pool.being_closed <= pool.slots
            &&& handed matches Some(ticket) ==> seq![ticket] + after.waiters == pool.waiters
                && after.opening == pool.opening + 1
            &&& handed is None ==> after.opening == pool.opening && after.waiters == pool.waiters
            &&& after.in_use + 1 == pool.in_use && after.idle == pool.idle && after.retired
                == pool.retired
        },
{
    if pool.waiters.len() > 0 {
        assert(seq![pool.waiters[0]] + pool.waiters.drop_first() =~= pool.waiters);
    }
}

/// A grant closes no more than it has to: what stays idle are the connections
/// returned first, what goes are those that were to go already and as many of
/// those returned last as are above the grant, and nothing is lost.
pub proof fn law_a_grant_closes_no_more_than_it_has_to<C>(pool: PoolView<C>, grant: nat)
    requires
        pool.wf(),
        grant <= usize::MAX,
    ensures
        ({
            let (after, taken) = pool.retargeted(grant);
            &&& after.slots == grant
            &&& after.retired.len() == 0
            &&& after.being_closed == pool.being_closed + taken.len()
            &&& after.idle.len() + taken.len() == pool.idle.len() + pool.retired.len()
            &&& after.idle =~= pool.idle.subrange(0, after.idle.len() as int)
            &&& after.idle + taken.subrange(
                pool.retired.len() as int,
                taken.len() as int,
            ).reverse() =~= pool.idle
            &&& taken.subrange(0, pool.retired.len() as int) =~= pool.retired
            &&& after.idle.len() < pool.idle.len() ==> after.idle.len() + pool.in_use
                + pool.opening >= grant
            &&& after.idle.len() > 0 ==> after.idle.len() + pool.in_use + pool.opening <= grant
            &&& after.in_use == pool.in_use && after.opening == pool.opening && after.waiters
                == pool.waiters && after.opened == pool.opened
        }),
{
}

/// A connection that is gone frees its slot, and nothing else moves.
pub proof fn law_a_closed_connection_frees_one_slot<C>(pool: PoolView<C>)
    requires
        pool.wf(),
        pool.being_closed > 0,
    ensures
        pool.closed().being_closed + 1 == pool.being_closed,
        pool.closed().idle == pool.idle,
        pool.closed().in_use == pool.in_use,
        pool.closed().opening == pool.opening,
        pool.closed().retired == pool.retired,
        pool.closed().waiters == pool.waiters,
        pool.closed().slots == pool.slots,
{
}

/// Handing out leaves no slot free while somebody waits, takes the clients from
/// the front of the queue, and begins to open one connection for each of them.
pub proof fn law_no_slot_stays_free_while_somebody_waits<C>(pool: PoolView<C>)
    requires
        pool.wf(),
    ensures
        ({
            let (after, handed) = pool.handed_out();
            &&& handed + after.waiters =~= pool.waiters
            &&& after.opening == pool.opening + handed.len()
            &&& after.waiters.len() == 0 || after.idle.len() + after.in_use + after.opening
                + after.retired.len() + after.being_closed >= pool.slots
            &&& handed.len() > 0 ==> after.idle.len() + after.in_use + after.opening
                + after.retired.len() + after.being_closed <= pool.slots
            &&& after.in_use == pool.in_use && after.idle == pool.idle && after.retired
                == pool.retired && after.being_closed == pool.being_closed && after.slots
                == pool.slots
        }),
{
}

/// Two clients that wait are served in the order in which they came, by two
/// connections that are given back one after the other.
pub proof fn law_two_who_wait_are_served_in_turn<C>(pool: PoolView<C>, one: C, two: C)
    requires
        pool.wf(),
        pool.in_use > 0,
        pool.waiters.len() >= 2,
        pool.idle.len() + pool.in_use + pool.opening <= pool.slots,
    ensures
        pool.released(one).1 == Returned::HandedTo(pool.waiters[0], one),
        pool.released(one).0.released(two).1 == Returned::HandedTo(pool.waiters[1], two),
{
}

/// What a pool counts: the connections that are there, those that clients ask
/// for, and those that the instance may hold.
pub proof fn law_what_a_pool_counts(stats: PoolStats)
    ensures
        stats.actual_count() == stats.idle + stats.in_use + stats.closing,
        stats.demand_count() == stats.waiting + stats.in_use + stats.opening,
        stats.occupied_count() == stats.actual_count() + stats.opening,
{
}

} // verus!
