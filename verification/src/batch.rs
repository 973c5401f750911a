//! The batch accumulator: buffers inbound publishes and flushes them to
//! the router as one locked pass, amortizing the cost of taking the
//! store's lock and bounding how long one flush holds it.

use vstd::prelude::*;
use crate::frame::SendPayload;
use crate::queue::QState;
use crate::registry::{Exchange, RouteError};

verus! {

/// How many pending publishes a batch holds before it must flush.
pub const BATCH_SIZE: usize = 5;

/// The accumulator: the open batch of pending publishes and the fixed
/// capacity it never grows past.
pub struct Batch {
    capacity: usize,
    pending: Vec<SendPayload>,
}

impl Batch {
    /// The pending publishes, in arrival order.
    pub closed spec fn pending_view(self) -> Seq<SendPayload> {
        self.pending@
    }

    /// The capacity the batch was made with.
    pub closed spec fn cap(self) -> usize {
        self.capacity
    }

    /// The accumulator's invariant: room for at least one publish, and
    /// never fuller than its capacity.
    pub open spec fn wf(self) -> bool {
        self.pending_view().len() <= self.cap() && self.cap() >= 1
    }

    /// An empty batch with the given capacity.
    pub fn new(capacity: usize) -> (r: Self)
        requires
            capacity >= 1,
        ensures
            r.wf(),
            r.cap() == capacity,
            r.pending_view() == Seq::<SendPayload>::empty(),
    {
        Batch { capacity, pending: Vec::new() }
    }

    /// Whether the open batch is at capacity, so that the next offer
    /// would be refused until a flush.
    pub fn is_full(&self) -> (r: bool)
        ensures
            r == (self.pending_view().len() >= self.cap()),
    {
        self.pending.len() >= self.capacity
    }

    /// Offer a publish to the open batch: accepted while there is room,
    /// refused once the batch is full — the caller must flush before it
    /// retries the offer.
    pub fn offer(&mut self, p: SendPayload) -> (accepted: bool)
        requires
            old(self).wf(),
        ensures
            final(self).wf(),
            final(self).cap() == old(self).cap(),
            accepted == (old(self).pending_view().len() < old(self).cap()),
            accepted ==> final(self).pending_view() == old(self).pending_view().push(p),
            !accepted ==> final(self).pending_view() == old(self).pending_view(),
    {
        if self.pending.len() < self.capacity {
            self.pending.push(p);
            true
        } else {
            false
        }
    }

    /// Flush: hand the whole batch to the router in one pass and start
    /// an empty one. When the call returns, everything the batch held is
    /// committed and visible in its target queues; the unroutable
    /// publishes come back as recorded diagnostics.
    pub fn flush(&mut self, reg: &Exchange, store: &mut QState) -> (dropped: Vec<RouteError>)
        requires
            old(self).wf(),
            old(store).wf(),
        ensures
            final(self).wf(),
            final(self).cap() == old(self).cap(),
            final(self).pending_view() == Seq::<SendPayload>::empty(),
            final(store).wf(),
            forall|n: Seq<char>| #[trigger] final(store).contents(n) == old(store).contents(n)
                + reg.spec_deliveries(old(self).pending_view(), n),
            dropped@ == reg.spec_dropped(old(self).pending_view()),
    {
        let r = reg.process_batch(&mut self.pending, store);
        proof {
            assert(self.pending@ =~= Seq::<SendPayload>::empty());
        }
        r
    }
}

} // verus!
