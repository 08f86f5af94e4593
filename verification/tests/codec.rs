use gossip::codec::decode_message;
use gossip::codec::encode_message;
use gossip::message::Ack;
use gossip::message::GossipMessage;
use gossip::message::IndirectAck;
use gossip::message::IndirectNack;
use gossip::message::IndirectPing;
use gossip::message::JoinReq;
use gossip::message::JoinResp;
use gossip::message::Ping;
use gossip::node::Addr;
use gossip::node::Node;
use gossip::node::State;

fn sample_nodes() -> Vec<Node> {
    vec![
        Node::new(0, Addr::new(10, 0, 0, 1, 7000)),
        Node { id: 300, addr: Addr::new(10, 0, 0, 2, 7001), state: State::DEAD, incarnation: 12 },
    ]
}

fn round_trip(m: GossipMessage) {
    let bytes = encode_message(&m);
    assert_eq!(Some(m), decode_message(&bytes));
}

#[test]
fn test_round_trip_join_req() {
    round_trip(GossipMessage::JoinReq(JoinReq::new(Node::new(9, Addr::new(1, 2, 3, 4, 80)))));
}

#[test]
fn test_round_trip_join_resp() {
    round_trip(GossipMessage::JoinResp(JoinResp::new(sample_nodes())));
}

#[test]
fn test_round_trip_ping() {
    round_trip(GossipMessage::Ping(Ping::new(7, sample_nodes())));
    round_trip(GossipMessage::Ping(Ping::new(usize::MAX, vec![])));
}

#[test]
fn test_round_trip_ack() {
    round_trip(GossipMessage::Ack(Ack::new(7, vec![])));
}

#[test]
fn test_round_trip_indirect_ping() {
    round_trip(GossipMessage::IndirectPing(IndirectPing::new(
        11,
        Node::new(2, Addr::new(9, 9, 9, 9, 9)),
        sample_nodes(),
    )));
}

#[test]
fn test_round_trip_indirect_ack() {
    round_trip(GossipMessage::IndirectAck(IndirectAck::new(11, sample_nodes())));
}

#[test]
fn test_round_trip_indirect_nack() {
    round_trip(GossipMessage::IndirectNack(IndirectNack::new(11, vec![])));
}

#[test]
fn test_exact_bytes_of_empty_ping() {
    let bytes = encode_message(&GossipMessage::Ping(Ping::new(7, vec![])));
    let mut expected = vec![3u8];
    expected.extend_from_slice(&[7, 0, 0, 0, 0, 0, 0, 0]); // correlation id
    expected.extend_from_slice(&[0, 0, 0, 0, 0, 0, 0, 0]); // node count
    assert_eq!(expected, bytes);
}

#[test]
fn test_exact_bytes_of_node_record() {
    let n = Node { id: 5, addr: Addr::new(1, 2, 3, 4, 258), state: State::DEAD, incarnation: 6 };
    let bytes = encode_message(&GossipMessage::JoinReq(JoinReq::new(n)));
    let mut expected = vec![1u8];
    expected.extend_from_slice(&[5, 0, 0, 0, 0, 0, 0, 0]); // id
    expected.extend_from_slice(&[1, 2, 3, 4]); // address octets
    expected.extend_from_slice(&[2, 1]); // port 258 little-endian
    expected.push(1); // DEAD
    expected.extend_from_slice(&[6, 0, 0, 0, 0, 0, 0, 0]); // incarnation
    assert_eq!(expected, bytes);
}

#[test]
fn test_decode_empty_frame() {
    assert_eq!(None, decode_message(&vec![]));
}

#[test]
fn test_decode_unknown_tag() {
    assert_eq!(None, decode_message(&vec![9u8, 0, 0, 0]));
    assert_eq!(None, decode_message(&vec![0u8]));
    assert_eq!(None, decode_message(&vec![255u8; 24]));
}

#[test]
fn test_decode_truncated_frame() {
    let good = encode_message(&GossipMessage::Ping(Ping::new(7, sample_nodes())));
    for cut in 0..good.len() {
        assert_eq!(None, decode_message(&good[..cut].to_vec()));
    }
}

#[test]
fn test_decode_trailing_bytes() {
    let mut bytes = encode_message(&GossipMessage::Ack(Ack::new(1, sample_nodes())));
    bytes.push(0);
    assert_eq!(None, decode_message(&bytes));
}

#[test]
fn test_decode_bad_state_byte() {
    let mut bytes = encode_message(&GossipMessage::JoinReq(JoinReq::new(Node::new(
        9,
        Addr::new(1, 2, 3, 4, 80),
    ))));
    bytes[15] = 2; // the state byte of the embedded record
    assert_eq!(None, decode_message(&bytes));
}

#[test]
fn test_decode_count_mismatch() {
    // claims one node but carries none
    let mut bytes = vec![2u8];
    bytes.extend_from_slice(&[1, 0, 0, 0, 0, 0, 0, 0]);
    assert_eq!(None, decode_message(&bytes));
}
