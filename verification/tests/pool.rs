use pgsteward::pool::{PoolError, PoolState, PoolStats, Request, Returned};
use pgsteward::server::ConnectError;
use pgsteward::time::Duration;

/// What asking for a connection came to.
#[derive(Debug, PartialEq)]
enum Got {
    Connection(usize),
    Refused,
    Waiting(u64),
}

/// A pool over connections that are numbered in the order in which they are
/// opened.
struct Driver {
    pool: PoolState<usize>,
    refusals: usize,
    attempts: usize,
    opened: usize,
    live: usize,
    peak: usize,
}

impl Driver {
    fn new(slots: usize) -> Self {
        Driver::refusing(slots, 0)
    }

    /// A pool whose first opens are refused.
    fn refusing(slots: usize, refusals: usize) -> Self {
        Driver {
            pool: PoolState::new(slots),
            refusals,
            attempts: 0,
            opened: 0,
            live: 0,
            peak: 0,
        }
    }

    fn stats(&self) -> PoolStats {
        self.pool.stats()
    }

    /// Opens a connection for a slot that is reserved, unless it is refused.
    fn open(&mut self) -> Option<usize> {
        self.attempts += 1;
        if self.refusals > 0 {
            self.refusals -= 1;
            return None;
        }
        let id = self.opened;
        self.opened += 1;
        self.live += 1;
        self.peak = self.peak.max(self.live);
        self.pool.fulfil();
        Some(id)
    }

    fn ask(&mut self) -> Got {
        match self.pool.request() {
            Request::Assigned(id) => Got::Connection(id),
            Request::Queued(ticket) => Got::Waiting(ticket),
            Request::Reserved => match self.open() {
                Some(id) => Got::Connection(id),
                None => {
                    assert_eq!(self.pool.free_slot(), None);
                    Got::Refused
                }
            },
        }
    }

    fn acquire(&mut self) -> usize {
        match self.ask() {
            Got::Connection(id) => id,
            other => panic!("expected a connection, got {other:?}"),
        }
    }

    fn wait(&mut self) -> u64 {
        match self.ask() {
            Got::Waiting(ticket) => ticket,
            other => panic!("expected to wait, got {other:?}"),
        }
    }

    /// Gives a connection back; answers whom it was handed to.
    fn release(&mut self, id: usize) -> Option<(u64, usize)> {
        match self.pool.release(id) {
            Returned::HandedTo(ticket, id) => Some((ticket, id)),
            Returned::Kept => None,
        }
    }

    /// Closes a connection instead of giving it back; answers who may open
    /// another.
    fn discard(&mut self) -> Option<u64> {
        self.live -= 1;
        self.pool.discard()
    }

    /// Holds the pool to a grant; answers how many connections were closed, and
    /// who may open one.
    fn converge(&mut self, slots: usize) -> (usize, Vec<u64>) {
        let closing = self.pool.converge(slots);
        for _ in &closing {
            self.live -= 1;
            self.pool.closed();
        }
        (closing.len(), self.pool.hand_out())
    }
}

#[test]
fn a_new_pool_opens_no_connection_until_the_first_client_asks() {
    let mut driver = Driver::new(2);

    assert_eq!(driver.attempts, 0);
    assert_eq!(driver.stats().actual(), 0);

    driver.acquire();

    assert_eq!(driver.opened, 1);
    assert_eq!(driver.stats().in_use, 1);
    assert_eq!(driver.stats().actual(), 1);
}

#[test]
fn a_released_connection_is_handed_to_the_next_client() {
    let mut driver = Driver::new(2);

    let id = driver.acquire();
    assert_eq!(driver.release(id), None);
    assert_eq!(driver.stats().idle, 1);

    assert_eq!(driver.acquire(), id);
    assert_eq!(driver.attempts, 1);
    assert_eq!(driver.stats().idle, 0);
    assert_eq!(driver.stats().in_use, 1);
}

#[test]
fn one_slot_is_never_assigned_to_two_clients_at_once() {
    let mut driver = Driver::new(1);

    let id = driver.acquire();
    let ticket = driver.wait();
    assert_eq!(driver.stats().waiting, 1);

    assert_eq!(driver.release(id), Some((ticket, id)));
    assert_eq!(driver.opened, 1);
    assert_eq!(driver.peak, 1);
}

#[test]
fn the_number_of_open_connections_never_exceeds_the_slots() {
    let mut driver = Driver::new(2);
    let mut served = vec![driver.acquire(), driver.acquire()];
    let tickets: Vec<u64> = (0..6).map(|_| driver.wait()).collect();
    assert_eq!(driver.stats().occupied(), 2);
    assert_eq!(driver.stats().demand(), 8);

    for ticket in tickets {
        let id = served.remove(0);
        assert_eq!(driver.release(id), Some((ticket, id)));
        served.push(id);
    }
    for id in served {
        assert_eq!(driver.release(id), None);
    }

    assert_eq!(driver.peak, 2, "more connections than slots were open");
    assert_eq!(driver.opened, 2);
    assert_eq!(driver.stats().in_use, 0);
    assert_eq!(driver.stats().idle, 2);
}

#[test]
fn clients_are_served_in_the_order_they_started_waiting() {
    let mut driver = Driver::new(1);
    let held = driver.acquire();
    let tickets = [driver.wait(), driver.wait(), driver.wait()];
    assert_eq!(driver.stats().waiting, 3);

    for ticket in tickets {
        assert_eq!(driver.release(held), Some((ticket, held)));
    }
    assert_eq!(driver.opened, 1);
}

#[test]
fn a_client_that_leaves_while_it_waits_gives_up_its_place_in_the_queue() {
    let mut driver = Driver::new(1);
    driver.acquire();
    let leaving = driver.wait();
    assert_eq!(driver.stats().waiting, 1);

    assert!(driver.pool.give_up(leaving));

    assert_eq!(
        driver.stats().waiting,
        0,
        "a client that went away must leave the queue"
    );
    assert_eq!(
        driver.stats().demand(),
        1,
        "only the client holding the connection still asks for one"
    );
    assert!(!driver.pool.give_up(leaving));
}

#[test]
fn the_freed_connection_goes_to_the_client_behind_the_one_that_left() {
    let mut driver = Driver::new(1);
    let held = driver.acquire();
    let leaving = driver.wait();
    let staying = driver.wait();
    assert_eq!(driver.stats().waiting, 2);

    assert!(driver.pool.give_up(leaving));
    assert_eq!(driver.stats().waiting, 1);

    assert_eq!(driver.release(held), Some((staying, held)));
    assert_eq!(driver.opened, 1);
}

#[test]
fn a_refused_open_frees_the_slot_it_reserved() {
    let mut driver = Driver::refusing(1, 1);

    assert_eq!(driver.ask(), Got::Refused);

    assert_eq!(driver.stats().actual(), 0);
    assert_eq!(driver.stats().in_use, 0);

    driver.acquire();

    assert_eq!(driver.attempts, 2);
    assert_eq!(driver.opened, 1);
}

#[test]
fn the_slot_of_a_refused_open_goes_to_the_waiting_client() {
    let mut driver = Driver::refusing(1, 1);

    assert!(matches!(driver.pool.request(), Request::Reserved));
    assert_eq!(driver.stats().opening, 1);
    let waiting = driver.wait();
    assert_eq!(driver.stats().waiting, 1);

    assert_eq!(driver.open(), None);
    assert_eq!(driver.pool.free_slot(), Some(waiting));
    assert_eq!(driver.stats().opening, 1);

    assert_eq!(driver.open(), Some(0));
    assert_eq!(driver.attempts, 2);
    assert_eq!(driver.peak, 1);
}

#[test]
fn a_discarded_connection_frees_its_slot_without_going_back_to_the_pool() {
    let mut driver = Driver::new(1);

    driver.acquire();
    assert_eq!(driver.discard(), None);

    assert_eq!(driver.stats().idle, 0);
    assert_eq!(driver.stats().in_use, 0);
    assert_eq!(driver.stats().actual(), 0);
    assert_eq!(driver.live, 0);

    driver.acquire();

    assert_eq!(driver.opened, 2);
    assert_eq!(
        driver.peak, 1,
        "the discarded connection must be closed before its replacement opens"
    );
}

#[test]
fn the_slot_of_a_discarded_connection_goes_to_the_waiting_client() {
    let mut driver = Driver::new(1);

    driver.acquire();
    let waiting = driver.wait();
    assert_eq!(driver.stats().waiting, 1);

    assert_eq!(driver.discard(), Some(waiting));
    assert_eq!(driver.open(), Some(1));

    assert_eq!(driver.opened, 2);
    assert_eq!(driver.peak, 1);
}

#[test]
fn a_raised_grant_hands_a_slot_to_a_waiting_client() {
    let mut driver = Driver::new(1);
    driver.acquire();
    let waiting = driver.wait();
    assert_eq!(driver.stats().waiting, 1);

    assert_eq!(driver.converge(2), (0, vec![waiting]));

    assert_eq!(driver.open(), Some(1));
    assert_eq!(driver.stats().slots, 2);
    assert_eq!(driver.opened, 2);
}

#[test]
fn a_grant_hands_out_no_more_slots_than_it_raises() {
    let mut driver = Driver::new(0);
    let tickets = [driver.wait(), driver.wait(), driver.wait()];

    assert_eq!(driver.converge(2), (0, tickets[..2].to_vec()));

    assert_eq!(driver.stats().opening, 2);
    assert_eq!(driver.stats().waiting, 1);
}

#[test]
fn a_lowered_grant_closes_an_idle_connection() {
    let mut driver = Driver::new(2);
    let first = driver.acquire();
    let second = driver.acquire();
    driver.release(first);
    driver.release(second);
    assert_eq!(driver.stats().idle, 2);

    assert_eq!(driver.converge(1), (1, vec![]));

    assert_eq!(driver.stats().idle, 1);
    assert_eq!(driver.stats().actual(), 1);
    assert_eq!(driver.live, 1);
}

#[test]
fn a_lowered_grant_does_not_interrupt_a_connection_in_use() {
    let mut driver = Driver::new(2);
    driver.acquire();
    driver.acquire();

    assert_eq!(driver.converge(1), (0, vec![]));

    assert_eq!(driver.stats().in_use, 2);
    assert_eq!(driver.live, 2);
}

#[test]
fn a_connection_returned_over_the_grant_is_closed_rather_than_pooled() {
    let mut driver = Driver::new(2);
    let first = driver.acquire();
    driver.acquire();
    driver.converge(1);

    assert_eq!(driver.release(first), None);

    assert_eq!(driver.stats().idle, 0);
    assert_eq!(driver.stats().closing, 1);
    assert_eq!(driver.stats().actual(), 2);
    assert_eq!(driver.live, 2);

    assert_eq!(driver.converge(1), (1, vec![]));

    assert_eq!(driver.stats().closing, 0);
    assert_eq!(driver.stats().actual(), 1);
    assert_eq!(driver.live, 1);
}

#[test]
fn a_grant_of_zero_leaves_no_slot_for_a_new_client() {
    let mut driver = Driver::new(1);
    let held = driver.acquire();
    driver.converge(0);

    driver.release(held);
    assert_eq!(driver.stats().closing, 1);

    driver.wait();
    assert_eq!(driver.attempts, 1);
    assert!(!driver.pool.is_unused());
}

#[test]
fn a_retired_connection_is_closed_before_its_replacement_opens() {
    let mut driver = Driver::new(1);
    let held = driver.acquire();
    driver.converge(0);
    driver.release(held);

    assert_eq!(driver.converge(1), (1, vec![]));

    driver.acquire();
    assert_eq!(driver.opened, 2);
    assert_eq!(driver.peak, 1);
}

#[test]
fn a_slot_is_not_handed_out_while_its_connection_is_closing() {
    let mut pool: PoolState<usize> = PoolState::new(1);
    assert!(matches!(pool.request(), Request::Reserved));
    pool.fulfil();
    pool.converge(0);
    assert!(matches!(pool.release(7), Returned::Kept));
    assert_eq!(pool.converge(1), vec![7]);

    assert!(matches!(pool.request(), Request::Queued(_)));
    assert!(pool.hand_out().is_empty());
    pool.closed();
    assert_eq!(pool.hand_out().len(), 1);
}

#[test]
fn converging_to_the_grant_the_pool_already_holds_moves_nothing() {
    let mut driver = Driver::new(2);
    driver.acquire();
    let before = driver.stats();

    assert_eq!(driver.converge(2), (0, vec![]));

    assert_eq!(driver.stats(), before);
    assert_eq!(driver.live, 1);
}

#[test]
fn the_pool_counts_every_connection_it_opens() {
    let mut driver = Driver::new(1);
    assert_eq!(driver.stats().opened, 0);

    let first = driver.acquire();
    driver.release(first);
    let again = driver.acquire();
    driver.release(again);
    assert_eq!(
        driver.stats().opened,
        1,
        "a reused connection is not a new one"
    );

    driver.acquire();
    driver.discard();
    driver.acquire();

    assert_eq!(driver.stats().opened, 2);
    assert_eq!(driver.stats().opened, driver.opened as u64);
}

#[test]
fn an_open_the_instance_refused_is_not_counted() {
    let mut driver = Driver::refusing(1, 1);

    assert_eq!(driver.ask(), Got::Refused);

    assert_eq!(driver.attempts, 1);
    assert_eq!(driver.stats().opened, 0);
}

#[test]
fn a_pool_error_says_why() {
    assert_eq!(
        PoolError::WaitTimeout {
            waited: Duration::from_millis(1_500)
        }
        .to_string(),
        "no connection slot became free within 1.5s"
    );
    assert_eq!(
        PoolError::Open(ConnectError::Unreachable("refused".to_owned())).to_string(),
        "could not open a server connection: cannot reach the server: refused"
    );
    assert_eq!(
        PoolError::Closed.to_string(),
        "the pool stopped answering requests"
    );
}
