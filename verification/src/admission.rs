//! How many client connections a node holds at once.
use vstd::prelude::*;

verus! {

/// How many client connections this node holds at once. Whether to take a
/// client is the proxy's own decision, so the limit is node-local and says
/// nothing about connection slots: a place here is not a grant, and a client
/// that holds one has not cost the instance anything yet.
#[derive(Debug)]
pub struct ClientLimit {
    max: usize,
    live: usize,
}

/// The place one client connection holds.
#[derive(Debug, PartialEq, Eq)]
pub struct Admitted {
    place: (),
}

impl ClientLimit {
    /// How many clients may be there at once.
    pub closed spec fn limit(&self) -> usize {
        self.max
    }

    /// How many clients are there.
    pub closed spec fn count(&self) -> usize {
        self.live
    }

    /// There are never more clients than the limit.
    pub open spec fn wf(&self) -> bool {
        self.count() <= self.limit()
    }

    pub fn new(max: usize) -> (limit: Self)
        ensures
            limit.wf(),
            limit.limit() == max,
            limit.count() == 0,
    {
        ClientLimit { max, live: 0 }
    }

    pub fn max(&self) -> (max: usize)
        ensures
            max == self.limit(),
    {
        self.max
    }

    pub fn live(&self) -> (live: usize)
        ensures
            live == self.count(),
    {
        self.live
    }

    /// Takes a place for a client, where one is left.
    pub fn admit_client(&mut self) -> (admitted: Option<Admitted>)
        requires
            old(self).wf(),
        ensures
            final(self).wf(),
            final(self).limit() == old(self).limit(),
            admitted is Some <==> old(self).count() < old(self).limit(),
            final(self).count() == old(self).count() + if admitted is Some {
                1int
            } else {
                0int
            },
    {
        if self.live >= self.max {
            return None;
        }
        self.live = self.live + 1;
        Some(Admitted { place: () })
    }

    /// Gives a place back.
    pub fn leave(&mut self, admitted: Admitted)
        requires
            old(self).wf(),
            old(self).count() > 0,
        ensures
            final(self).wf(),
            final(self).limit() == old(self).limit(),
            final(self).count() == old(self).count() - 1,
    {
        self.live = self.live - 1;
    }

    /// Whether this node holds no client connection. A node that is stopping
    /// waits for it: a client that is still being served holds a place until
    /// its session ends, whichever way it ends.
    pub fn drained(&self) -> (b: bool)
        ensures
            b == (self.count() == 0),
    {
        self.live == 0
    }
}

} // verus!
