//! A minimal message broker engine.
//!
//! Producers publish payloads to named exchanges; exchanges route payloads to
//! bound queues (fanout, or direct with a routing key); consumers poll bound
//! queues and compete round-robin when they share a queue name.
//!
//! The crate holds the broker's verified core: the binary wire codec, the
//! named FIFO queue store, the exchange registry and router, the batch
//! accumulator that amortizes commits, the round-robin consumer dispatcher,
//! and the producer/consumer session helpers. All socket and task plumbing
//! lives outside the library and talks to it in plain values.

pub mod batch;
pub mod broker;
pub mod codec;
pub mod consumer;
pub mod dispatch;
pub mod frame;
pub mod producer;
pub mod queue;
pub mod registry;
pub mod util;
