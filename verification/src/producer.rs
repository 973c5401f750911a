//! The producer session: the connect/declare/publish contract between a
//! producer and the broker. The session tracks what the producer declared
//! and builds the exact bytes its socket must carry; the socket itself
//! stays outside the library.

use vstd::prelude::*;
use crate::codec::{encode, field_fits, spec_encode};
use crate::frame::{ConnPayload, FrameModel, RequestType, SendPayload};

verus! {

/// The routing mode of an exchange: fanout delivers a publish to every
/// bound queue; direct only to bindings whose routing key matches.
#[derive(Debug, Clone, Copy, PartialEq, Eq, Structural)]
pub enum ExchangeOption {
    Fanout,
    Direct,
}

impl ExchangeOption {
    /// The wire tag of this mode.
    pub open spec fn spec_tag(self) -> char {
        match self {
            ExchangeOption::Fanout => 'f',
            ExchangeOption::Direct => 'd',
        }
    }

    /// The wire tag of this mode, `'f'` or `'d'`.
    pub fn tag(&self) -> (r: char)
        ensures
            r == self.spec_tag(),
    {
        match self {
            ExchangeOption::Fanout => 'f',
            ExchangeOption::Direct => 'd',
        }
    }
}

/// A producer's way in: the address it dials to reach the broker.
pub struct Connection {
    pub addr: &'static str,
}

/// A producer's session with the broker: where it connects, the exchange
/// it publishes to, and the mode it declared, once it declared them.
pub struct Exchange {
    pub conn: Connection,
    pub exchange_name: Option<String>,
    pub exchange_option: Option<ExchangeOption>,
}

impl Connection {
    /// Start a session toward the broker at `addr`. Dialing the socket is
    /// the caller's business; the session begins with nothing declared.
    pub fn connect(addr: &'static str) -> (r: Exchange)
        ensures
            r.conn.addr@ == addr@,
            r.exchange_name is None,
            r.exchange_option is None,
    {
        Exchange {
            conn: Connection { addr },
            exchange_name: None,
            exchange_option: None,
        }
    }
}

impl Exchange {
    /// Record which exchange this session publishes to, and its mode.
    pub fn declare_exchange(&mut self, exchange_name: String, exchange_option: ExchangeOption)
        ensures
            final(self).exchange_name == Some(exchange_name),
            final(self).exchange_option == Some(exchange_option),
    {
        self.exchange_name = Some(exchange_name);
        self.exchange_option = Some(exchange_option);
    }

    /// The declaration frame of this session: a connect frame naming the
    /// exchange and its mode. Its queue-name field stays empty, which is
    /// what marks it as a declaration rather than a consumer connect.
    pub fn declare_frame(&self) -> (r: RequestType)
        requires
            self.exchange_name is Some,
            self.exchange_option is Some,
        ensures
            r@ == (FrameModel::Connect {
                x_name: self.exchange_name->0@,
                q_name: Seq::<char>::empty(),
                x_type: self.exchange_option->0.spec_tag(),
            }),
    {
        RequestType::Connection(
            ConnPayload {
                x_name: self.exchange_name.as_ref().unwrap().clone(),
                q_name: String::new(),
                x_type: self.exchange_option.as_ref().unwrap().tag(),
            },
        )
    }

    /// Build the wire bytes of one publish: a send frame naming the
    /// declared exchange and carrying the routing descriptor and payload.
    /// The caller writes the bytes out and moves on: publish is
    /// fire-and-forget.
    pub fn publish(&self, data: &str, routing_key: &str) -> (r: Vec<u8>)
        requires
            self.exchange_name is Some,
            self.exchange_option is Some,
            field_fits(self.exchange_name->0@),
            field_fits(routing_key@),
            field_fits(data@),
        ensures
            r@ == spec_encode(
                FrameModel::Send {
                    x_name: self.exchange_name->0@,
                    q_name: routing_key@,
                    data: data@,
                    x_type: self.exchange_option->0.spec_tag(),
                },
            ),
    {
        let frame = RequestType::Producer(
            SendPayload {
                x_name: self.exchange_name.as_ref().unwrap().clone(),
                q_name: routing_key.to_owned(),
                data: data.to_owned(),
                x_type: self.exchange_option.as_ref().unwrap().tag(),
            },
        );
        encode(&frame)
    }
}

} // verus!
