//! The gossip engine: a stateless dispatcher that interprets one inbound
//! frame against the registry and produces at most one reply. Every path
//! terminates the request with an explicit outcome — a reply, a deliberate
//! absence of one, or a probe the caller must run — so a caller holding a
//! reply handle can always resolve it.

use vstd::prelude::*;

use crate::codec::decode_message;
use crate::codec::encode_message;
use crate::codec::spec_decode;
use crate::codec::spec_encode;
use crate::message::Ack;
use crate::message::GossipMessage;
use crate::message::IndirectAck;
use crate::message::IndirectNack;
use crate::message::JoinReq;
use crate::message::JoinResp;
use crate::message::MessageView;
use crate::message::Ping;
use crate::node::Node;
use crate::nodestore::merge_seq;
use crate::nodestore::snapshot_of;
use crate::nodestore::Nodestore;

verus! {

/// What handling one decoded message does to the registry: a join request
/// upserts the joiner's record, every other kind folds in its piggy-backed
/// snapshot under the incarnation rule.
pub open spec fn store_after(m0: Map<usize, Node>, v: MessageView) -> Map<usize, Node> {
    match v {
        MessageView::JoinReq { src } => m0.insert(src.id, src),
        MessageView::JoinResp { nodes } => merge_seq(m0, nodes),
        MessageView::Ping { id: _, nodes } => merge_seq(m0, nodes),
        MessageView::Ack { id: _, nodes } => merge_seq(m0, nodes),
        MessageView::IndirectPing { id: _, target: _, nodes } => merge_seq(m0, nodes),
        MessageView::IndirectAck { id: _, nodes } => merge_seq(m0, nodes),
        MessageView::IndirectNack { id: _, nodes } => merge_seq(m0, nodes),
    }
}

/// The engine's verdict on one decoded message.
pub enum MessageOutcome {
    /// Send this message back through the reply handle.
    Reply(GossipMessage),
    /// Terminate the request without a payload.
    NoReply,
    /// Probe `target` directly on behalf of the original prober, then
    /// answer with `indirect_reply` under the same correlation id.
    Probe { id: usize, target: Node },
}

/// Fold a piggy-backed snapshot into the registry.
pub fn handle_gossip(store: &mut Nodestore, nodes: Vec<Node>)
    requires
        old(store).wf(),
    ensures
        final(store).wf(),
        final(store)@ == merge_seq(old(store)@, nodes@),
        final(store).self_node_spec() == old(store).self_node_spec(),
{
    store.update_from_vec(nodes);
}

/// A ping merges its gossip and is answered by an `Ack` that echoes the
/// probe's correlation id and carries the full membership snapshot.
pub fn handle_ping(store: &mut Nodestore, ping: Ping) -> (r: Ack)
    requires
        old(store).wf(),
    ensures
        final(store).wf(),
        final(store)@ == merge_seq(old(store)@, ping.nodes@),
        final(store).self_node_spec() == old(store).self_node_spec(),
        r.id == ping.id,
        snapshot_of(r.nodes@, final(store)@),
{
    let id = ping.id;
    store.update_from_vec(ping.nodes);
    let nodes = store.get_all();
    Ack { id, nodes }
}

/// An ack is the terminal leg of a probe the caller initiated elsewhere:
/// the engine only folds the piggy-backed gossip in.
pub fn handle_ack(store: &mut Nodestore, ack: Ack)
    requires
        old(store).wf(),
    ensures
        final(store).wf(),
        final(store)@ == merge_seq(old(store)@, ack.nodes@),
        final(store).self_node_spec() == old(store).self_node_spec(),
{
    store.update_from_vec(ack.nodes);
}

/// A join request upserts the joiner's record and is answered with the
/// full membership snapshot, so the joiner seeds its registry in one
/// round trip.
pub fn handle_join_req(store: &mut Nodestore, join_req: JoinReq) -> (r: JoinResp)
    requires
        old(store).wf(),
    ensures
        final(store).wf(),
        final(store)@ == old(store)@.insert(join_req.src.id, join_req.src),
        final(store).self_node_spec() == old(store).self_node_spec(),
        snapshot_of(r.nodes@, final(store)@),
{
    store.insert(join_req.src);
    let nodes = store.get_all();
    JoinResp { nodes }
}

/// Dispatch one decoded message: merge or insert as its kind demands, and
/// decide the reply. Exactly the ping and join kinds produce a reply; an
/// indirect ping asks the caller to run a probe first.
pub fn handle_message(store: &mut Nodestore, msg: GossipMessage) -> (r: MessageOutcome)
    requires
        old(store).wf(),
    ensures
        final(store).wf(),
        final(store).self_node_spec() == old(store).self_node_spec(),
        final(store)@ == store_after(old(store)@, msg@),
        match msg@ {
            MessageView::Ping { id, nodes: _ } => {
                &&& r matches MessageOutcome::Reply(reply)
                &&& reply@ matches MessageView::Ack { id: aid, nodes: ns }
                &&& aid == id
                &&& snapshot_of(ns, final(store)@)
            },
            MessageView::JoinReq { src: _ } => {
                &&& r matches MessageOutcome::Reply(reply)
                &&& reply@ matches MessageView::JoinResp { nodes: ns }
                &&& snapshot_of(ns, final(store)@)
            },
            MessageView::IndirectPing { id, target, nodes: _ } => r == (MessageOutcome::Probe {
                id,
                target,
            }),
            _ => r == MessageOutcome::NoReply,
        },
{
    match msg {
        GossipMessage::Ping(p) => {
            let a = handle_ping(store, p);
            MessageOutcome::Reply(GossipMessage::Ack(a))
        },
        GossipMessage::JoinReq(j) => {
            let resp = handle_join_req(store, j);
            MessageOutcome::Reply(GossipMessage::JoinResp(resp))
        },
        GossipMessage::Ack(a) => {
            handle_ack(store, a);
            MessageOutcome::NoReply
        },
        GossipMessage::JoinResp(jr) => {
            handle_gossip(store, jr.nodes);
            MessageOutcome::NoReply
        },
        GossipMessage::IndirectPing(ip) => {
            let id = ip.id;
            let target = ip.target;
            handle_gossip(store, ip.nodes);
            MessageOutcome::Probe { id, target }
        },
        GossipMessage::IndirectAck(x) => {
            handle_gossip(store, x.nodes);
            MessageOutcome::NoReply
        },
        GossipMessage::IndirectNack(x) => {
            handle_gossip(store, x.nodes);
            MessageOutcome::NoReply
        },
    }
}

/// The engine's verdict on one raw frame.
pub enum FrameOutcome {
    /// Write these bytes back through the reply handle.
    Reply(Vec<u8>),
    /// Terminate the request without a payload; the caller must still
    /// release the reply handle so nobody waits forever.
    NoReply,
    /// Probe `target` directly, then answer with `indirect_reply`.
    Probe { id: usize, target: Node },
}

/// The single entry point for inbound frames: decode, dispatch, encode the
/// reply. Total on all inputs — a malformed frame leaves the registry
/// untouched and yields `NoReply`, never a panic; the caller then releases
/// the reply handle explicitly.
pub fn handle_frame(store: &mut Nodestore, bytes: &Vec<u8>) -> (r: FrameOutcome)
    requires
        old(store).wf(),
    ensures
        final(store).wf(),
        final(store).self_node_spec() == old(store).self_node_spec(),
        match spec_decode(bytes@) {
            Some(v) => {
                &&& final(store)@ == store_after(old(store)@, v)
                &&& match v {
                    MessageView::Ping { id, nodes: _ } => {
                        &&& r matches FrameOutcome::Reply(out)
                        &&& exists|ns: Seq<Node>|
                            snapshot_of(ns, final(store)@) && out@ == spec_encode(
                                MessageView::Ack { id, nodes: ns },
                            )
                    },
                    MessageView::JoinReq { src: _ } => {
                        &&& r matches FrameOutcome::Reply(out)
                        &&& exists|ns: Seq<Node>|
                            snapshot_of(ns, final(store)@) && out@ == spec_encode(
                                MessageView::JoinResp { nodes: ns },
                            )
                    },
                    MessageView::IndirectPing { id, target, nodes: _ } => r == (
                    FrameOutcome::Probe { id, target }),
                    _ => r == FrameOutcome::NoReply,
                }
            },
            None => final(store)@ == old(store)@ && r == FrameOutcome::NoReply,
        },
{
    match decode_message(bytes) {
        Some(msg) => {
            let ghost v = msg@;
            match handle_message(store, msg) {
                MessageOutcome::Reply(reply) => {
                    let out = encode_message(&reply);
                    proof {
                        match v {
                            MessageView::Ping { id: _, nodes: _ } => {
                                assert(reply@ matches MessageView::Ack { id: aid, nodes: ns }
                                    && snapshot_of(ns, store@) && out@ == spec_encode(reply@));
                            },
                            MessageView::JoinReq { src: _ } => {
                                assert(reply@ matches MessageView::JoinResp { nodes: ns }
                                    && snapshot_of(ns, store@) && out@ == spec_encode(reply@));
                            },
                            _ => {},
                        }
                    }
                    FrameOutcome::Reply(out)
                },
                MessageOutcome::NoReply => FrameOutcome::NoReply,
                MessageOutcome::Probe { id, target } => FrameOutcome::Probe { id, target },
            }
        },
        None => FrameOutcome::NoReply,
    }
}

/// Build the proxy's report back to the original prober: an `IndirectAck`
/// when the target was reached, an `IndirectNack` when it was not, either
/// way echoing the correlation id and carrying the full snapshot.
pub fn indirect_reply(store: &Nodestore, id: usize, reached: bool) -> (r: Vec<u8>)
    requires
        store.wf(),
    ensures
        exists|ns: Seq<Node>|
            snapshot_of(ns, store@) && r@ == spec_encode(
                if reached {
                    MessageView::IndirectAck { id, nodes: ns }
                } else {
                    MessageView::IndirectNack { id, nodes: ns }
                },
            ),
{
    let nodes = store.get_all();
    let ghost ns = nodes@;
    let msg = if reached {
        GossipMessage::IndirectAck(IndirectAck { id, nodes })
    } else {
        GossipMessage::IndirectNack(IndirectNack { id, nodes })
    };
    let r = encode_message(&msg);
    proof {
        assert(snapshot_of(ns, store@) && r@ == spec_encode(
            if reached {
                MessageView::IndirectAck { id, nodes: ns }
            } else {
                MessageView::IndirectNack { id, nodes: ns }
            },
        ));
    }
    r
}

} // verus!
