//! The wire vocabulary: a closed tagged union of the seven message kinds
//! exchanged between peers. Messages are value objects; `id` on the probe
//! messages is a correlation token chosen by the initiator and echoed back,
//! and `nodes` on every kind is a piggy-backed membership snapshot merged
//! into the receiver's registry as a side effect of handling any message.

use vstd::prelude::*;

use crate::node::Node;

verus! {

/// Bootstrap request: the sender is a new node asking for a full state
/// transfer; it carries its own record.
#[derive(Clone, Debug, PartialEq)]
pub struct JoinReq {
    pub src: Node,
}

impl JoinReq {
    pub fn new(src: Node) -> (m: JoinReq)
        ensures
            m == (JoinReq { src }),
    {
        JoinReq { src }
    }
}

/// Bootstrap answer: the receiver's full membership snapshot, with which
/// the joiner seeds its registry in one round trip.
#[derive(Clone, Debug, PartialEq)]
pub struct JoinResp {
    pub nodes: Vec<Node>,
}

impl JoinResp {
    pub fn new(nodes: Vec<Node>) -> (m: JoinResp)
        ensures
            m == (JoinResp { nodes }),
    {
        JoinResp { nodes }
    }
}

/// Direct liveness probe; expects an `Ack` echoing the same `id`.
#[derive(Clone, Debug, PartialEq)]
pub struct Ping {
    pub id: usize,
    pub nodes: Vec<Node>,
}

impl Ping {
    pub fn new(id: usize, nodes: Vec<Node>) -> (m: Ping)
        ensures
            m == (Ping { id, nodes }),
    {
        Ping { id, nodes }
    }
}

/// Answer to a `Ping`, correlated by `id`.
#[derive(Clone, Debug, PartialEq)]
pub struct Ack {
    pub id: usize,
    pub nodes: Vec<Node>,
}

impl Ack {
    pub fn new(id: usize, nodes: Vec<Node>) -> (m: Ack)
        ensures
            m == (Ack { id, nodes }),
    {
        Ack { id, nodes }
    }
}

/// Ask a third party to probe `target` on the sender's behalf, after a
/// direct probe failed.
#[derive(Clone, Debug, PartialEq)]
pub struct IndirectPing {
    pub id: usize,
    pub target: Node,
    pub nodes: Vec<Node>,
}

impl IndirectPing {
    pub fn new(id: usize, target: Node, nodes: Vec<Node>) -> (m: IndirectPing)
        ensures
            m == (IndirectPing { id, target, nodes }),
    {
        IndirectPing { id, target, nodes }
    }
}

/// The proxy reached the target; reported back to the original prober.
#[derive(Clone, Debug, PartialEq)]
pub struct IndirectAck {
    pub id: usize,
    pub nodes: Vec<Node>,
}

impl IndirectAck {
    pub fn new(id: usize, nodes: Vec<Node>) -> (m: IndirectAck)
        ensures
            m == (IndirectAck { id, nodes }),
    {
        IndirectAck { id, nodes }
    }
}

/// The proxy could not reach the target either.
#[derive(Clone, Debug, PartialEq)]
pub struct IndirectNack {
    pub id: usize,
    pub nodes: Vec<Node>,
}

impl IndirectNack {
    pub fn new(id: usize, nodes: Vec<Node>) -> (m: IndirectNack)
        ensures
            m == (IndirectNack { id, nodes }),
    {
        IndirectNack { id, nodes }
    }
}

/// The closed set of messages a peer may send or receive.
#[derive(Clone, Debug, PartialEq)]
pub enum GossipMessage {
    JoinReq(JoinReq),
    JoinResp(JoinResp),
    Ping(Ping),
    Ack(Ack),
    IndirectPing(IndirectPing),
    IndirectAck(IndirectAck),
    IndirectNack(IndirectNack),
}

/// The mathematical shape of a message: the same tagged union with node
/// lists abstracted to sequences. Contracts and the wire-format
/// specification speak of this shape.
pub enum MessageView {
    JoinReq { src: Node },
    JoinResp { nodes: Seq<Node> },
    Ping { id: usize, nodes: Seq<Node> },
    Ack { id: usize, nodes: Seq<Node> },
    IndirectPing { id: usize, target: Node, nodes: Seq<Node> },
    IndirectAck { id: usize, nodes: Seq<Node> },
    IndirectNack { id: usize, nodes: Seq<Node> },
}

impl View for GossipMessage {
    type V = MessageView;

    open spec fn view(&self) -> MessageView {
        match self {
            GossipMessage::JoinReq(x) => MessageView::JoinReq { src: x.src },
            GossipMessage::JoinResp(x) => MessageView::JoinResp { nodes: x.nodes@ },
            GossipMessage::Ping(x) => MessageView::Ping { id: x.id, nodes: x.nodes@ },
            GossipMessage::Ack(x) => MessageView::Ack { id: x.id, nodes: x.nodes@ },
            GossipMessage::IndirectPing(x) => MessageView::IndirectPing {
                id: x.id,
                target: x.target,
                nodes: x.nodes@,
            },
            GossipMessage::IndirectAck(x) => MessageView::IndirectAck {
                id: x.id,
                nodes: x.nodes@,
            },
            GossipMessage::IndirectNack(x) => MessageView::IndirectNack {
                id: x.id,
                nodes: x.nodes@,
            },
        }
    }
}

} // verus!
