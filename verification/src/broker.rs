//! The broker's frame dispatcher: the verified step from one decoded
//! frame to the broker's next state and its reply. Connect frames
//! declare an exchange or register a consumer, send frames enter the
//! batch accumulator (flushing it first when it is full), and receive
//! frames are served immediately — never batched, because pollers are
//! latency-sensitive. The caller serializes `handle` calls under its
//! connection handling.

use vstd::prelude::*;
use crate::batch::Batch;
use crate::dispatch::{spec_serve, ConsumerRegistry};
use crate::frame::{FrameModel, RequestType, SendPayload};
use crate::producer::ExchangeOption;
use crate::queue::QState;
use crate::registry::{BindingModel, ConfigError, Exchange, RouteError};

verus! {

/// The exchange mode a wire tag declares: `'d'` is direct; any other
/// tag falls back to fanout.
pub open spec fn tag_mode(c: char) -> ExchangeOption {
    if c == 'd' {
        ExchangeOption::Direct
    } else {
        ExchangeOption::Fanout
    }
}

/// What the broker answers one frame with.
pub enum Reply {
    /// A declaration was taken, or refused for redeclaring a mode.
    Declared(Result<(), ConfigError>),
    /// A consumer connect was registered.
    Connected,
    /// A publish entered the open batch; when it forced a flush first,
    /// the flush's routing diagnostics ride along.
    Accepted(Vec<RouteError>),
    /// The answer to a poll: one payload, or silence.
    Data(Option<String>),
}

/// The broker's whole state: the exchange registry, the queue store,
/// the open batch, and the consumer registrations.
pub struct Broker {
    pub exchanges: Exchange,
    pub store: QState,
    pub batch: Batch,
    pub consumers: ConsumerRegistry,
}

impl Broker {
    /// All four components are well-formed.
    pub open spec fn wf(self) -> bool {
        self.exchanges.wf() && self.store.wf() && self.batch.wf() && self.consumers.wf()
    }

    /// A broker with nothing declared, nothing queued and nobody
    /// registered, which flushes after `batch_capacity` buffered
    /// publishes.
    pub fn new(batch_capacity: usize) -> (r: Self)
        requires
            batch_capacity >= 1,
        ensures
            r.wf(),
            r.batch.cap() == batch_capacity,
            r.batch.pending_view() == Seq::<SendPayload>::empty(),
            forall|n: Seq<char>| #[trigger] r.store.contents(n) == Seq::<String>::empty(),
            forall|x: Seq<char>| #[trigger] r.exchanges.mode_of(x) is None,
            forall|q: Seq<char>| #[trigger] r.consumers.members_of(q) == Seq::<Seq<char>>::empty(),
            forall|q: Seq<char>| #[trigger] r.consumers.cursor_of(q) == 0,
    {
        Broker {
            exchanges: Exchange::new(),
            store: QState::new(),
            batch: Batch::new(batch_capacity),
            consumers: ConsumerRegistry::new(),
        }
    }

    /// Dispatch one decoded frame from the connection identified by
    /// `conn` and answer it.
    ///
    /// A connect frame with an empty queue field is a producer's
    /// declaration of the named exchange; one with a queue field
    /// registers the connection as a consumer of that queue. A send
    /// frame enters the open batch, after flushing it if it was full. A
    /// receive frame is served at once against the queue store, under
    /// the rotation that keeps competing consumers fair.
    pub fn handle(&mut self, conn: &String, frame: RequestType) -> (r: Reply)
        requires
            old(self).wf(),
        ensures
            final(self).wf(),
            frame@ is Connect && frame@->Connect_q_name.len() == 0 ==> ({
                let x_name = frame@->Connect_x_name;
                let x_type = frame@->Connect_x_type;
                &&& final(self).store == old(self).store
                &&& final(self).batch == old(self).batch
                &&& final(self).consumers == old(self).consumers
                &&& r matches Reply::Declared(res)
                &&& (old(self).exchanges.mode_of(x_name) is None ==> res is Ok && final(self).exchanges.mode_of(x_name) == Some(tag_mode(x_type)) && final(self).exchanges.bindings_of(x_name) == Seq::<BindingModel>::empty())
                &&& (old(self).exchanges.mode_of(x_name) == Some(tag_mode(x_type)) ==> res is Ok)
                &&& (old(self).exchanges.mode_of(x_name) is Some && old(self).exchanges.mode_of(
                    x_name,
                ) != Some(tag_mode(x_type)) ==> res == Err::<(), ConfigError>(
                    ConfigError::ModeMismatch,
                ))
                &&& (old(self).exchanges.mode_of(x_name) is Some ==> final(self).exchanges.mode_of(x_name) == old(self).exchanges.mode_of(x_name))
                &&& forall|x: Seq<char>|
                    x != x_name ==> #[trigger] final(self).exchanges.mode_of(x) == old(self).exchanges.mode_of(x)
            }),
            frame@ is Connect && frame@->Connect_q_name.len() > 0 ==> ({
                let q_name = frame@->Connect_q_name;
                &&& final(self).store == old(self).store
                &&& final(self).batch == old(self).batch
                &&& final(self).exchanges == old(self).exchanges
                &&& r is Connected
                &&& (!old(self).consumers.members_of(q_name).contains(conn@) ==> final(self).consumers.members_of(q_name) == old(self).consumers.members_of(q_name).push(
                    conn@,
                ))
                &&& (old(self).consumers.members_of(q_name).contains(conn@) ==> final(self).consumers.members_of(q_name) == old(self).consumers.members_of(q_name))
                &&& final(self).consumers.cursor_of(q_name) == old(self).consumers.cursor_of(
                    q_name,
                )
                &&& forall|q: Seq<char>|
                    q != q_name ==> #[trigger] final(self).consumers.members_of(q) == old(self).consumers.members_of(q)
            }),
            frame is Producer ==> ({
                let p = frame->Producer_0;
                &&& final(self).exchanges == old(self).exchanges
                &&& final(self).consumers == old(self).consumers
                &&& final(self).batch.cap() == old(self).batch.cap()
                &&& r matches Reply::Accepted(dropped)
                &&& (old(self).batch.pending_view().len() < old(self).batch.cap() ==> ({
                    &&& final(self).batch.pending_view() == old(self).batch.pending_view().push(p)
                    &&& final(self).store == old(self).store
                    &&& dropped@ == Seq::<RouteError>::empty()
                }))
                &&& (old(self).batch.pending_view().len() >= old(self).batch.cap() ==> ({
                    &&& final(self).batch.pending_view() == Seq::<SendPayload>::empty().push(p)
                    &&& (forall|n: Seq<char>| #[trigger]
                        final(self).store.contents(n) == old(self).store.contents(n) + old(self).exchanges.spec_deliveries(old(self).batch.pending_view(), n))
                    &&& dropped@ == old(self).exchanges.spec_dropped(
                        old(self).batch.pending_view(),
                    )
                }))
            }),
            frame@ is Receive ==> ({
                let q_name = frame@->Receive_q_name;
                &&& final(self).exchanges == old(self).exchanges
                &&& final(self).batch == old(self).batch
                &&& r matches Reply::Data(d)
                &&& ({
                    let t = spec_serve(
                        old(self).consumers.members_of(q_name),
                        old(self).consumers.cursor_of(q_name),
                        old(self).store.contents(q_name),
                        conn@,
                    );
                    &&& (t.0 ==> d == Some(old(self).store.contents(q_name)[0]))
                    &&& (!t.0 ==> d is None)
                    &&& final(self).consumers.cursor_of(q_name) == t.1
                    &&& final(self).store.contents(q_name) == t.2
                    &&& final(self).consumers.members_of(q_name) == old(self).consumers.members_of(q_name)
                })
                &&& forall|n: Seq<char>|
                    n != q_name ==> #[trigger] final(self).store.contents(n) == old(self).store.contents(n)
            }),
    {
        match frame {
            RequestType::Connection(p) => {
                if p.q_name.as_str().is_empty() {
                    let mode = if p.x_type == 'd' {
                        ExchangeOption::Direct
                    } else {
                        ExchangeOption::Fanout
                    };
                    let res = self.exchanges.declare(p.x_name, mode);
                    Reply::Declared(res)
                } else {
                    self.consumers.register(conn.clone(), p.q_name);
                    Reply::Connected
                }
            },
            RequestType::Producer(p) => {
                let dropped = if self.batch.is_full() {
                    self.batch.flush(&self.exchanges, &mut self.store)
                } else {
                    Vec::new()
                };
                let accepted = self.batch.offer(p);
                proof {
                    assert(accepted);
                }
                Reply::Accepted(dropped)
            },
            RequestType::Consumer(p) => {
                let d = self.consumers.serve(conn, &p.q_name, &mut self.store);
                Reply::Data(d)
            },
        }
    }
}

} // verus!
