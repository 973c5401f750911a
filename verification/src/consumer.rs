//! The consumer session: the frames a polling consumer exchanges with
//! the broker. The consumer connects once, declaring its identifier and
//! the queue it polls, then sends a receive frame each interval; the
//! timer and the socket stay outside the library.

use vstd::prelude::*;
use crate::frame::{ConnPayload, FrameModel, RecvPaylod, RequestType};

verus! {

/// One consumer: its identifier and the queue it polls. Consumers that
/// share a queue name compete for that queue round-robin.
pub struct Consumer {
    pub identifier: &'static str,
    pub q_name: &'static str,
}

impl Consumer {
    /// A consumer of the named queue, under the given identifier.
    pub fn new(identifier: &'static str, q_name: &'static str) -> (r: Self)
        ensures
            r.identifier@ == identifier@,
            r.q_name@ == q_name@,
    {
        Self { identifier, q_name }
    }

    /// The connect frame that opens this consumer's session: its
    /// identifier in the name field and the queue it wants to poll. The
    /// exchange-type slot carries the fanout tag as a default; a consumer
    /// connect declares no exchange.
    pub fn connect_frame(&self) -> (r: RequestType)
        ensures
            r@ == (FrameModel::Connect {
                x_name: self.identifier@,
                q_name: self.q_name@,
                x_type: 'f',
            }),
    {
        RequestType::Connection(
            ConnPayload {
                x_name: self.identifier.to_owned(),
                q_name: self.q_name.to_owned(),
                x_type: 'f',
            },
        )
    }

    /// The receive frame this consumer sends each polling interval.
    pub fn poll_frame(&self) -> (r: RequestType)
        ensures
            r@ == (FrameModel::Receive { q_name: self.q_name@ }),
    {
        RequestType::Consumer(RecvPaylod { q_name: self.q_name.to_owned() })
    }
}

} // verus!
