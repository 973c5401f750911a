//! The protocol's data model: one decoded unit of the wire protocol,
//! tagged by message kind, together with its ghost model.

use vstd::prelude::*;

verus! {

/// A connect/declare request (`'c'` frames).
///
/// The first name field of the wire format is an exchange-or-identifier
/// name: a producer declaration names the exchange it declares (and leaves
/// the queue name empty), while a consumer connect carries its identifier
/// and the queue it wants to poll. `x_type` is the exchange-type tag,
/// `'f'` for fanout or `'d'` for direct; it is meaningful for declarations.
#[derive(Debug, Clone, PartialEq, Eq)]
pub struct ConnPayload {
    pub x_name: String,
    pub q_name: String,
    pub x_type: char,
}

/// A publish request (`'s'` frames): exchange name, routing descriptor,
/// payload data, and the exchange-type tag.
///
/// `q_name` is the routing descriptor: for a direct exchange it carries the
/// routing key of this publish; an empty descriptor means the request has no
/// usable routing key. Fanout routing ignores it.
#[derive(Debug, Clone, PartialEq, Eq)]
pub struct SendPayload {
    pub x_name: String,
    pub q_name: String,
    pub data: String,
    pub x_type: char,
}

/// A poll request (`'r'` frames): the queue the consumer polls.
#[derive(Debug, Clone, PartialEq, Eq)]
pub struct RecvPaylod {
    pub q_name: String,
}

/// One decoded frame, dispatched by message kind.
#[derive(Debug, Clone, PartialEq, Eq)]
pub enum RequestType {
    Connection(ConnPayload),
    Producer(SendPayload),
    Consumer(RecvPaylod),
}

/// A pending payload's target: either an exchange to route through,
/// or a queue to commit into directly.
#[derive(Debug, Clone, PartialEq, Eq)]
pub enum PayloadType {
    XName(String),
    QName(String),
}

/// The mathematical model of a frame: the same three variants over
/// sequences of characters.
#[verifier::ext_equal]
pub enum FrameModel {
    Connect { x_name: Seq<char>, q_name: Seq<char>, x_type: char },
    Send { x_name: Seq<char>, q_name: Seq<char>, data: Seq<char>, x_type: char },
    Receive { q_name: Seq<char> },
}

impl View for RequestType {
    type V = FrameModel;

    open spec fn view(&self) -> FrameModel {
        match self {
            RequestType::Connection(p) => FrameModel::Connect {
                x_name: p.x_name@,
                q_name: p.q_name@,
                x_type: p.x_type,
            },
            RequestType::Producer(p) => FrameModel::Send {
                x_name: p.x_name@,
                q_name: p.q_name@,
                data: p.data@,
                x_type: p.x_type,
            },
            RequestType::Consumer(p) => FrameModel::Receive { q_name: p.q_name@ },
        }
    }
}

impl PayloadType {
    /// The name this target carries, whichever side it is on.
    pub open spec fn spec_name(&self) -> Seq<char> {
        match self {
            PayloadType::XName(s) => s@,
            PayloadType::QName(s) => s@,
        }
    }

    /// Borrow the carried name.
    pub fn name(&self) -> (r: &String)
        ensures
            r@ == self.spec_name(),
    {
        match self {
            PayloadType::XName(s) => s,
            PayloadType::QName(s) => s,
        }
    }
}

/// The single-byte message-kind tag of a frame, as a string.
pub fn msg_type(req: RequestType) -> (r: &'static str)
    ensures
        req is Producer ==> r@ == seq!['s'],
        req is Consumer ==> r@ == seq!['r'],
        req is Connection ==> r@ == seq!['c'],
{
    proof {
        reveal_strlit("s");
        reveal_strlit("r");
        reveal_strlit("c");
    }
    match req {
        RequestType::Producer(_) => "s",
        RequestType::Consumer(_) => "r",
        RequestType::Connection(_) => "c",
    }
}

} // verus!
