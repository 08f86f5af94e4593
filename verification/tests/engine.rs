use gossip::codec::decode_message;
use gossip::codec::encode_message;
use gossip::engine::handle_frame;
use gossip::engine::handle_join_req;
use gossip::engine::handle_message;
use gossip::engine::handle_ping;
use gossip::engine::indirect_reply;
use gossip::engine::FrameOutcome;
use gossip::engine::MessageOutcome;
use gossip::message::Ack;
use gossip::message::GossipMessage;
use gossip::message::IndirectPing;
use gossip::message::JoinReq;
use gossip::message::Ping;
use gossip::node::Addr;
use gossip::node::Node;
use gossip::node::State;
use gossip::nodestore::Nodestore;

fn addr_a() -> Addr {
    Addr::new(1, 2, 3, 4, 1000)
}

fn addr_b() -> Addr {
    Addr::new(2, 3, 4, 5, 1001)
}

fn sorted_ids(nodes: &[Node]) -> Vec<usize> {
    let mut ids: Vec<usize> = nodes.iter().map(|n| n.id).collect();
    ids.sort();
    ids
}

#[test]
fn test_join_req_seeds_both_sides() {
    let mut store = Nodestore::new(Node::new(0, addr_a()));
    let joiner = Node::new(1, addr_b());
    let resp = handle_join_req(&mut store, JoinReq::new(joiner));

    assert_eq!(2, store.len());
    assert_eq!(joiner, store.get(1).unwrap());
    assert_eq!(vec![0, 1], sorted_ids(&resp.nodes));
}

#[test]
fn test_ping_ack_correlation_id() {
    let mut store = Nodestore::new(Node::new(0, addr_a()));
    let ack = handle_ping(&mut store, Ping::new(7, vec![]));
    assert_eq!(7, ack.id);
    assert_eq!(vec![0], sorted_ids(&ack.nodes));
}

#[test]
fn test_ping_frame_gets_ack_frame() {
    let mut store = Nodestore::new(Node::new(0, addr_a()));
    let frame = encode_message(&GossipMessage::Ping(Ping::new(7, vec![Node::new(1, addr_b())])));
    match handle_frame(&mut store, &frame) {
        FrameOutcome::Reply(out) => match decode_message(&out) {
            Some(GossipMessage::Ack(ack)) => {
                assert_eq!(7, ack.id);
                assert_eq!(vec![0, 1], sorted_ids(&ack.nodes));
            },
            other => panic!("expected an ack, got {:?}", other),
        },
        _ => panic!("a ping deserves a reply"),
    }
    assert_eq!(2, store.len());
}

#[test]
fn test_ack_merges_without_reply() {
    let mut store = Nodestore::new(Node::new(0, addr_a()));
    let gossip = vec![Node::new(4, addr_b())];
    let outcome = handle_message(&mut store, GossipMessage::Ack(Ack::new(9, gossip)));
    assert!(matches!(outcome, MessageOutcome::NoReply));
    assert_eq!(2, store.len());
    assert_eq!(Some(Node::new(4, addr_b())), store.get(4));
}

#[test]
fn test_indirect_ping_asks_for_probe() {
    let mut store = Nodestore::new(Node::new(0, addr_a()));
    let target = Node::new(3, addr_b());
    let frame = encode_message(&GossipMessage::IndirectPing(IndirectPing::new(
        21,
        target,
        vec![],
    )));
    match handle_frame(&mut store, &frame) {
        FrameOutcome::Probe { id, target: t } => {
            assert_eq!(21, id);
            assert_eq!(target, t);
        },
        _ => panic!("an indirect ping asks the receiver to probe"),
    }

    // the proxy could not reach the target: its report is a nack
    let report = indirect_reply(&store, 21, false);
    match decode_message(&report) {
        Some(GossipMessage::IndirectNack(nack)) => {
            assert_eq!(21, nack.id);
            assert_eq!(vec![0], sorted_ids(&nack.nodes));
        },
        other => panic!("expected a nack report, got {:?}", other),
    }

    // and when it could: an ack
    let report = indirect_reply(&store, 21, true);
    match decode_message(&report) {
        Some(GossipMessage::IndirectAck(ack)) => assert_eq!(21, ack.id),
        other => panic!("expected an ack report, got {:?}", other),
    }
}

#[test]
fn test_malformed_frame_is_harmless() {
    let mut store = Nodestore::new(Node::new(0, addr_a()));
    store.insert(Node { id: 2, addr: addr_b(), state: State::DEAD, incarnation: 3 });

    for frame in [vec![], vec![42u8], vec![3u8, 1], vec![0xffu8; 100]] {
        let outcome = handle_frame(&mut store, &frame);
        assert!(matches!(outcome, FrameOutcome::NoReply));
    }
    assert_eq!(2, store.len());
    assert_eq!(Some(Node::new(0, addr_a())), store.get(0));
}

#[test]
fn test_gossip_piggybacks_on_every_kind() {
    let fact = Node { id: 8, addr: addr_b(), state: State::ALIVE, incarnation: 2 };
    let frames = [
        GossipMessage::Ping(Ping::new(1, vec![fact])),
        GossipMessage::Ack(Ack::new(1, vec![fact])),
        GossipMessage::IndirectPing(IndirectPing::new(1, Node::new(9, addr_b()), vec![fact])),
    ];
    for msg in frames {
        let mut store = Nodestore::new(Node::new(0, addr_a()));
        let frame = encode_message(&msg);
        handle_frame(&mut store, &frame);
        assert_eq!(Some(fact), store.get(8));
    }
}
