//! The wire format: a compact binary encoding in which every message opens
//! with a one-byte discriminator naming its kind, integers travel as
//! fixed-width little-endian fields, and node lists are length-prefixed.
//! Unknown discriminators, short frames, trailing bytes and malformed
//! records are decode failures, never panics.

use vstd::prelude::*;

use crate::message::Ack;
use crate::message::GossipMessage;
use crate::message::IndirectAck;
use crate::message::IndirectNack;
use crate::message::IndirectPing;
use crate::message::JoinReq;
use crate::message::JoinResp;
use crate::message::MessageView;
use crate::message::Ping;
use crate::node::Addr;
use crate::node::Node;
use crate::node::State;

verus! {

/// 256 to the power `k`: the number of values of a `k`-byte field.
pub open spec fn pow256(k: nat) -> int
    decreases k,
{
    if k == 0 {
        1
    } else {
        256 * pow256((k - 1) as nat)
    }
}

/// The `k` little-endian bytes of `x`, least significant first.
pub open spec fn le_bytes(x: int, k: nat) -> Seq<u8>
    decreases k,
{
    if k == 0 {
        Seq::empty()
    } else {
        seq![(x % 256) as u8] + le_bytes(x / 256, (k - 1) as nat)
    }
}

/// The value of the `k` bytes at offset `i` of `s`, read little-endian.
pub open spec fn le_val(s: Seq<u8>, i: int, k: nat) -> int
    decreases k,
{
    if k == 0 {
        0
    } else {
        s[i] + 256 * le_val(s, i + 1, (k - 1) as nat)
    }
}

proof fn lemma_pow256_pos(k: nat)
    ensures
        pow256(k) >= 1,
    decreases k,
{
    if k > 0 {
        lemma_pow256_pos((k - 1) as nat);
    }
}

proof fn lemma_pow256_mono(a: nat, b: nat)
    requires
        a <= b,
    ensures
        pow256(a) <= pow256(b),
    decreases b,
{
    lemma_pow256_pos(a);
    if a < b {
        lemma_pow256_mono(a, (b - 1) as nat);
        lemma_pow256_pos((b - 1) as nat);
    }
}

proof fn lemma_pow256_values()
    ensures
        pow256(2) == 0x10000,
        pow256(7) == 0x100000000000000,
        pow256(8) == 0x10000000000000000,
{
    assert(pow256(0) == 1);
    assert(pow256(1) == 256);
    assert(pow256(2) == 0x10000);
    assert(pow256(3) == 0x1000000);
    assert(pow256(4) == 0x100000000);
    assert(pow256(5) == 0x10000000000);
    assert(pow256(6) == 0x1000000000000);
    assert(pow256(7) == 0x100000000000000);
    assert(pow256(8) == 0x10000000000000000);
}

proof fn lemma_le_bytes_len(x: int, k: nat)
    ensures
        le_bytes(x, k).len() == k,
    decreases k,
{
    if k > 0 {
        lemma_le_bytes_len(x / 256, (k - 1) as nat);
    }
}

proof fn lemma_le_val_bound(s: Seq<u8>, i: int, k: nat)
    requires
        0 <= i,
        i + k <= s.len(),
    ensures
        0 <= le_val(s, i, k) < pow256(k),
    decreases k,
{
    if k > 0 {
        lemma_le_val_bound(s, i + 1, (k - 1) as nat);
    }
}

/// Reading back the little-endian bytes of `x` yields `x`.
proof fn lemma_le_roundtrip(s: Seq<u8>, i: int, x: int, k: nat)
    requires
        0 <= x < pow256(k),
        0 <= i,
        i + k <= s.len(),
        s.subrange(i, i + k as int) == le_bytes(x, k),
    ensures
        le_val(s, i, k) == x,
    decreases k,
{
    if k > 0 {
        lemma_le_bytes_len(x / 256, (k - 1) as nat);
        let sub = s.subrange(i, i + k as int);
        assert(sub[0] == s[i]);
        assert(le_bytes(x, k)[0] == (x % 256) as u8);
        assert(s[i] == (x % 256) as u8);
        vstd::arithmetic::div_mod::lemma_fundamental_div_mod(x, 256);
        assert(s.subrange(i + 1, i + k as int) =~= le_bytes(x / 256, (k - 1) as nat)) by {
            assert forall|j: int| 0 <= j < k - 1 implies #[trigger] s.subrange(i + 1, i + k as int)[j]
                == le_bytes(x / 256, (k - 1) as nat)[j] by {
                assert(s.subrange(i + 1, i + k as int)[j] == sub[j + 1]);
                assert(le_bytes(x, k)[j + 1] == le_bytes(x / 256, (k - 1) as nat)[j]);
            }
        }
        assert(x / 256 < pow256((k - 1) as nat));
        lemma_le_roundtrip(s, i + 1, x / 256, (k - 1) as nat);
        assert(le_val(s, i, k) == s[i] + 256 * (x / 256));
    }
}

/// Append the `k` little-endian bytes of `x`.
fn push_le(out: &mut Vec<u8>, x: u64, k: usize)
    requires
        k <= 8,
    ensures
        final(out)@ == old(out)@ + le_bytes(x as int, k as nat),
{
    let mut cur = x;
    let mut j: usize = 0;
    while j < k
        invariant
            j <= k,
            out@ + le_bytes(cur as int, (k - j) as nat) == old(out)@ + le_bytes(
                x as int,
                k as nat,
            ),
        decreases k - j,
    {
        let ghost pre = out@;
        out.push((cur % 256) as u8);
        proof {
            assert(le_bytes(cur as int, (k - j) as nat) == seq![((cur as int) % 256) as u8]
                + le_bytes((cur as int) / 256, (k - j - 1) as nat));
            assert(out@ + le_bytes((cur / 256) as int, (k - (j + 1)) as nat) =~= pre + le_bytes(
                cur as int,
                (k - j) as nat,
            ));
        }
        cur = cur / 256;
        j = j + 1;
    }
    proof {
        assert(out@ + le_bytes(cur as int, 0) =~= out@);
    }
}

/// The wire byte for a liveness state.
pub open spec fn state_byte(st: State) -> u8 {
    match st {
        State::ALIVE => 0,
        State::DEAD => 1,
    }
}

/// A node record on the wire: id, address octets, port, state byte,
/// incarnation — 23 bytes in all.
pub open spec fn enc_node(n: Node) -> Seq<u8> {
    le_bytes(n.id as int, 8) + seq![n.addr.ip0, n.addr.ip1, n.addr.ip2, n.addr.ip3] + le_bytes(
        n.addr.port as int,
        2,
    ) + seq![state_byte(n.state)] + le_bytes(n.incarnation as int, 8)
}

/// Node records laid out back to back.
pub open spec fn enc_nodes(s: Seq<Node>) -> Seq<u8>
    decreases s.len(),
{
    if s.len() == 0 {
        Seq::empty()
    } else {
        enc_node(s[0]) + enc_nodes(s.drop_first())
    }
}

/// The encoding of a whole message: a discriminator byte, then the
/// variant's fields, node lists prefixed by their count.
pub open spec fn spec_encode(v: MessageView) -> Seq<u8> {
    match v {
        MessageView::JoinReq { src } => seq![1u8] + enc_node(src),
        MessageView::JoinResp { nodes } => seq![2u8] + le_bytes(nodes.len() as int, 8) + enc_nodes(
            nodes,
        ),
        MessageView::Ping { id, nodes } => seq![3u8] + le_bytes(id as int, 8) + le_bytes(
            nodes.len() as int,
            8,
        ) + enc_nodes(nodes),
        MessageView::Ack { id, nodes } => seq![4u8] + le_bytes(id as int, 8) + le_bytes(
            nodes.len() as int,
            8,
        ) + enc_nodes(nodes),
        MessageView::IndirectPing { id, target, nodes } => seq![5u8] + le_bytes(id as int, 8)
            + enc_node(target) + le_bytes(nodes.len() as int, 8) + enc_nodes(nodes),
        MessageView::IndirectAck { id, nodes } => seq![6u8] + le_bytes(id as int, 8) + le_bytes(
            nodes.len() as int,
            8,
        ) + enc_nodes(nodes),
        MessageView::IndirectNack { id, nodes } => seq![7u8] + le_bytes(id as int, 8) + le_bytes(
            nodes.len() as int,
            8,
        ) + enc_nodes(nodes),
    }
}

/// Parse the 23-byte node record at offset `i`; fails on a state byte
/// outside the vocabulary or a counter that does not fit the platform.
pub open spec fn parse_node(s: Seq<u8>, i: int) -> Option<Node> {
    if 0 <= i && i + 23 <= s.len() {
        let idv = le_val(s, i, 8);
        let portv = le_val(s, i + 12, 2);
        let stb = s[i + 14];
        let incv = le_val(s, i + 15, 8);
        if idv <= usize::MAX as int && incv <= usize::MAX as int && (stb == 0 || stb == 1) {
            Some(
                Node {
                    id: idv as usize,
                    addr: Addr {
                        ip0: s[i + 8],
                        ip1: s[i + 9],
                        ip2: s[i + 10],
                        ip3: s[i + 11],
                        port: portv as u16,
                    },
                    state: if stb == 0 {
                        State::ALIVE
                    } else {
                        State::DEAD
                    },
                    incarnation: incv as usize,
                },
            )
        } else {
            None
        }
    } else {
        None
    }
}

/// Parse `count` node records laid out back to back from offset `i`.
pub open spec fn parse_nodes(s: Seq<u8>, i: int, count: nat) -> Option<Seq<Node>>
    decreases count,
{
    if count == 0 {
        Some(Seq::empty())
    } else {
        match parse_node(s, i) {
            Some(n) => match parse_nodes(s, i + 23, (count - 1) as nat) {
                Some(rest) => Some(seq![n] + rest),
                None => None,
            },
            None => None,
        }
    }
}

/// What a frame means, if anything: the unique message it encodes.
/// A frame decodes only when its discriminator is known, every field
/// parses, the node count matches the frame length exactly, and nothing
/// trails.
pub open spec fn spec_decode(s: Seq<u8>) -> Option<MessageView> {
    if s.len() < 1 {
        None
    } else {
        let tag = s[0];
        if tag == 1 {
            if s.len() == 24 {
                match parse_node(s, 1) {
                    Some(n) => Some(MessageView::JoinReq { src: n }),
                    None => None,
                }
            } else {
                None
            }
        } else if tag == 2 {
            if s.len() >= 9 {
                let cnt = le_val(s, 1, 8);
                if s.len() == 9 + 23 * cnt {
                    match parse_nodes(s, 9, cnt as nat) {
                        Some(ns) => Some(MessageView::JoinResp { nodes: ns }),
                        None => None,
                    }
                } else {
                    None
                }
            } else {
                None
            }
        } else if tag == 3 || tag == 4 || tag == 6 || tag == 7 {
            if s.len() >= 17 {
                let idv = le_val(s, 1, 8);
                let cnt = le_val(s, 9, 8);
                if idv <= usize::MAX as int && s.len() == 17 + 23 * cnt {
                    match parse_nodes(s, 17, cnt as nat) {
                        Some(ns) => if tag == 3 {
                            Some(MessageView::Ping { id: idv as usize, nodes: ns })
                        } else if tag == 4 {
                            Some(MessageView::Ack { id: idv as usize, nodes: ns })
                        } else if tag == 6 {
                            Some(MessageView::IndirectAck { id: idv as usize, nodes: ns })
                        } else {
                            Some(MessageView::IndirectNack { id: idv as usize, nodes: ns })
                        },
                        None => None,
                    }
                } else {
                    None
                }
            } else {
                None
            }
        } else if tag == 5 {
            if s.len() >= 40 {
                let idv = le_val(s, 1, 8);
                let cnt = le_val(s, 32, 8);
                if idv <= usize::MAX as int && s.len() == 40 + 23 * cnt {
                    match parse_node(s, 9) {
                        Some(t) => match parse_nodes(s, 40, cnt as nat) {
                            Some(ns) => Some(
                                MessageView::IndirectPing {
                                    id: idv as usize,
                                    target: t,
                                    nodes: ns,
                                },
                            ),
                            None => None,
                        },
                        None => None,
                    }
                } else {
                    None
                }
            } else {
                None
            }
        } else {
            None
        }
    }
}

/// A message whose node list fits an eight-byte count — true of every
/// message a process can actually hold.
pub open spec fn msg_wf(v: MessageView) -> bool {
    match v {
        MessageView::JoinReq { src: _ } => true,
        MessageView::JoinResp { nodes } => nodes.len() < pow256(8),
        MessageView::Ping { id: _, nodes } => nodes.len() < pow256(8),
        MessageView::Ack { id: _, nodes } => nodes.len() < pow256(8),
        MessageView::IndirectPing { id: _, target: _, nodes } => nodes.len() < pow256(8),
        MessageView::IndirectAck { id: _, nodes } => nodes.len() < pow256(8),
        MessageView::IndirectNack { id: _, nodes } => nodes.len() < pow256(8),
    }
}

proof fn lemma_enc_node_len(n: Node)
    ensures
        enc_node(n).len() == 23,
{
    lemma_le_bytes_len(n.id as int, 8);
    lemma_le_bytes_len(n.addr.port as int, 2);
    lemma_le_bytes_len(n.incarnation as int, 8);
}

proof fn lemma_enc_nodes_len(s: Seq<Node>)
    ensures
        enc_nodes(s).len() == 23 * s.len(),
    decreases s.len(),
{
    if s.len() > 0 {
        lemma_enc_node_len(s[0]);
        lemma_enc_nodes_len(s.drop_first());
    }
}

proof fn lemma_enc_nodes_push(s: Seq<Node>, n: Node)
    ensures
        enc_nodes(s.push(n)) == enc_nodes(s) + enc_node(n),
    decreases s.len(),
{
    if s.len() == 0 {
        assert(s.push(n)[0] == n);
        assert(s.push(n).drop_first() =~= Seq::<Node>::empty());
        assert(enc_nodes(Seq::<Node>::empty()) == Seq::<u8>::empty());
        assert(enc_nodes(s.push(n)) == enc_node(n) + Seq::<u8>::empty());
        assert(s =~= Seq::<Node>::empty());
        assert(enc_node(n) + Seq::<u8>::empty() =~= Seq::<u8>::empty() + enc_node(n));
    } else {
        assert(s.push(n)[0] == s[0]);
        assert(s.push(n).drop_first() =~= s.drop_first().push(n));
        lemma_enc_nodes_push(s.drop_first(), n);
        assert(enc_nodes(s.push(n)) == enc_node(s[0]) + enc_nodes(s.drop_first().push(n)));
        assert(enc_node(s[0]) + (enc_nodes(s.drop_first()) + enc_node(n)) =~= (enc_node(s[0])
            + enc_nodes(s.drop_first())) + enc_node(n));
    }
}

/// Read the `k`-byte little-endian field at offset `i`.
fn read_le(b: &Vec<u8>, i: usize, k: usize) -> (x: u64)
    requires
        k <= 8,
        i + k <= b@.len(),
    ensures
        x as int == le_val(b@, i as int, k as nat),
{
    proof {
        lemma_pow256_values();
    }
    let blen = b.len();
    let mut x: u64 = 0;
    let mut j: usize = k;
    while j > 0
        invariant
            j <= k,
            k <= 8,
            i + k <= b@.len(),
            blen == b@.len(),
            x as int == le_val(b@, i as int + j as int, (k - j) as nat),
            pow256(2) == 0x10000,
            pow256(7) == 0x100000000000000,
            pow256(8) == 0x10000000000000000,
        decreases j,
    {
        proof {
            lemma_le_val_bound(b@, i as int + j as int, (k - j) as nat);
            lemma_pow256_mono((k - j) as nat, 7);
        }
        j = j - 1;
        x = x * 256 + (b[i + j] as u64);
        proof {
            assert(le_val(b@, i as int + j as int, (k - j) as nat) == b@[i as int + j as int] + 256
                * le_val(b@, i as int + j as int + 1, (k - j - 1) as nat));
        }
    }
    x
}

fn state_to_byte(st: State) -> (b: u8)
    ensures
        b == state_byte(st),
{
    match st {
        State::ALIVE => 0,
        State::DEAD => 1,
    }
}

/// Append one node record.
fn push_node(out: &mut Vec<u8>, n: &Node)
    ensures
        final(out)@ == old(out)@ + enc_node(*n),
{
    push_le(out, n.id as u64, 8);
    out.push(n.addr.ip0);
    out.push(n.addr.ip1);
    out.push(n.addr.ip2);
    out.push(n.addr.ip3);
    push_le(out, n.addr.port as u64, 2);
    let sb = state_to_byte(n.state);
    out.push(sb);
    push_le(out, n.incarnation as u64, 8);
    proof {
        lemma_le_bytes_len(n.id as int, 8);
        lemma_le_bytes_len(n.addr.port as int, 2);
        lemma_le_bytes_len(n.incarnation as int, 8);
        assert(out@ =~= old(out)@ + enc_node(*n));
    }
}

/// Append node records back to back.
fn push_nodes(out: &mut Vec<u8>, nodes: &Vec<Node>)
    ensures
        final(out)@ == old(out)@ + enc_nodes(nodes@),
{
    let mut i: usize = 0;
    while i < nodes.len()
        invariant
            i <= nodes@.len(),
            out@ == old(out)@ + enc_nodes(nodes@.subrange(0, i as int)),
        decreases nodes@.len() - i,
    {
        let n = nodes[i];
        push_node(out, &n);
        proof {
            assert(nodes@.subrange(0, i as int + 1) =~= nodes@.subrange(0, i as int).push(n));
            lemma_enc_nodes_push(nodes@.subrange(0, i as int), n);
            assert(out@ =~= old(out)@ + enc_nodes(nodes@.subrange(0, i as int + 1)));
        }
        i = i + 1;
    }
    proof {
        assert(nodes@.subrange(0, nodes@.len() as int) =~= nodes@);
    }
}

/// Encode a message for the wire.
pub fn encode_message(m: &GossipMessage) -> (r: Vec<u8>)
    ensures
        r@ == spec_encode(m@),
{
    let mut out: Vec<u8> = Vec::new();
    match m {
        GossipMessage::JoinReq(x) => {
            out.push(1u8);
            push_node(&mut out, &x.src);
            proof {
                assert(out@ =~= spec_encode(m@));
            }
        },
        GossipMessage::JoinResp(x) => {
            out.push(2u8);
            push_le(&mut out, x.nodes.len() as u64, 8);
            push_nodes(&mut out, &x.nodes);
            proof {
                assert(out@ =~= spec_encode(m@));
            }
        },
        GossipMessage::Ping(x) => {
            out.push(3u8);
            push_le(&mut out, x.id as u64, 8);
            push_le(&mut out, x.nodes.len() as u64, 8);
            push_nodes(&mut out, &x.nodes);
            proof {
                assert(out@ =~= spec_encode(m@));
            }
        },
        GossipMessage::Ack(x) => {
            out.push(4u8);
            push_le(&mut out, x.id as u64, 8);
            push_le(&mut out, x.nodes.len() as u64, 8);
            push_nodes(&mut out, &x.nodes);
            proof {
                assert(out@ =~= spec_encode(m@));
            }
        },
        GossipMessage::IndirectPing(x) => {
            out.push(5u8);
            push_le(&mut out, x.id as u64, 8);
            push_node(&mut out, &x.target);
            push_le(&mut out, x.nodes.len() as u64, 8);
            push_nodes(&mut out, &x.nodes);
            proof {
                assert(out@ =~= spec_encode(m@));
            }
        },
        GossipMessage::IndirectAck(x) => {
            out.push(6u8);
            push_le(&mut out, x.id as u64, 8);
            push_le(&mut out, x.nodes.len() as u64, 8);
            push_nodes(&mut out, &x.nodes);
            proof {
                assert(out@ =~= spec_encode(m@));
            }
        },
        GossipMessage::IndirectNack(x) => {
            out.push(7u8);
            push_le(&mut out, x.id as u64, 8);
            push_le(&mut out, x.nodes.len() as u64, 8);
            push_nodes(&mut out, &x.nodes);
            proof {
                assert(out@ =~= spec_encode(m@));
            }
        },
    }
    out
}

/// Parse the node record at offset `i`.
fn decode_node(b: &Vec<u8>, i: usize) -> (r: Option<Node>)
    requires
        i + 23 <= b@.len(),
    ensures
        r == parse_node(b@, i as int),
{
    proof {
        lemma_pow256_values();
        lemma_le_val_bound(b@, i as int + 12, 2);
    }
    let blen = b.len();
    let idv = read_le(b, i, 8);
    let portv = read_le(b, i + 12, 2);
    let stb = b[i + 14];
    let incv = read_le(b, i + 15, 8);
    if !(stb == 0 || stb == 1) {
        return None;
    }
    if idv > usize::MAX as u64 || incv > usize::MAX as u64 {
        return None;
    }
    Some(
        Node {
            id: idv as usize,
            addr: Addr {
                ip0: b[i + 8],
                ip1: b[i + 9],
                ip2: b[i + 10],
                ip3: b[i + 11],
                port: portv as u16,
            },
            state: if stb == 0 {
                State::ALIVE
            } else {
                State::DEAD
            },
            incarnation: incv as usize,
        },
    )
}

/// Parse `cnt` node records from offset `start`.
fn decode_nodes(b: &Vec<u8>, start: usize, cnt: usize) -> (r: Option<Vec<Node>>)
    requires
        start + 23 * cnt <= b@.len(),
    ensures
        match r {
            Some(v) => parse_nodes(b@, start as int, cnt as nat) == Some(v@),
            None => parse_nodes(b@, start as int, cnt as nat) == None::<Seq<Node>>,
        },
{
    let blen = b.len();
    let mut out: Vec<Node> = Vec::new();
    let mut j: usize = 0;
    while j < cnt
        invariant
            j <= cnt,
            start + 23 * cnt <= b@.len(),
            blen == b@.len(),
            parse_nodes(b@, start as int, cnt as nat) == (match parse_nodes(
                b@,
                start as int + 23 * j as int,
                (cnt - j) as nat,
            ) {
                Some(rest) => Some(out@ + rest),
                None => None::<Seq<Node>>,
            }),
        decreases cnt - j,
    {
        let ghost pre = out@;
        let ghost p = start as int + 23 * j as int;
        let ghost c = (cnt - j) as nat;
        match decode_node(b, start + 23 * j) {
            Some(n) => {
                out.push(n);
                proof {
                    match parse_nodes(b@, p + 23, (c - 1) as nat) {
                        Some(rest) => {
                            assert(parse_nodes(b@, p, c) == Some(seq![n] + rest));
                            assert(pre + (seq![n] + rest) =~= out@ + rest);
                        },
                        None => {
                            assert(parse_nodes(b@, p, c) == None::<Seq<Node>>);
                        },
                    }
                }
            },
            None => {
                proof {
                    assert(parse_nodes(b@, p, c) == None::<Seq<Node>>);
                }
                return None;
            },
        }
        j = j + 1;
    }
    proof {
        assert(parse_nodes(b@, start as int + 23 * j as int, 0) == Some(Seq::<Node>::empty()));
        assert(out@ + Seq::<Node>::empty() =~= out@);
    }
    Some(out)
}

/// Decode a frame, or report that it encodes no message. Total on all
/// inputs: malformed bytes yield an absence, never a panic.
pub fn decode_message(bytes: &Vec<u8>) -> (r: Option<GossipMessage>)
    ensures
        match r {
            Some(m) => spec_decode(bytes@) == Some(m@),
            None => spec_decode(bytes@) == None::<MessageView>,
        },
{
    proof {
        lemma_pow256_values();
    }
    let blen = bytes.len();
    if blen < 1 {
        return None;
    }
    let tag = bytes[0];
    if tag == 1 {
        if blen != 24 {
            return None;
        }
        match decode_node(bytes, 1) {
            Some(n) => Some(GossipMessage::JoinReq(JoinReq { src: n })),
            None => None,
        }
    } else if tag == 2 {
        if blen < 9 {
            return None;
        }
        let cnt64 = read_le(bytes, 1, 8);
        let body = blen - 9;
        proof {
            vstd::arithmetic::div_mod::lemma_fundamental_div_mod(body as int, 23);
        }
        if !(body % 23 == 0 && cnt64 == (body / 23) as u64) {
            return None;
        }
        let cnt = body / 23;
        match decode_nodes(bytes, 9, cnt) {
            Some(v) => Some(GossipMessage::JoinResp(JoinResp { nodes: v })),
            None => None,
        }
    } else if tag == 3 || tag == 4 || tag == 6 || tag == 7 {
        if blen < 17 {
            return None;
        }
        let id64 = read_le(bytes, 1, 8);
        let cnt64 = read_le(bytes, 9, 8);
        if id64 > usize::MAX as u64 {
            return None;
        }
        let body = blen - 17;
        proof {
            vstd::arithmetic::div_mod::lemma_fundamental_div_mod(body as int, 23);
        }
        if !(body % 23 == 0 && cnt64 == (body / 23) as u64) {
            return None;
        }
        let cnt = body / 23;
        let id = id64 as usize;
        match decode_nodes(bytes, 17, cnt) {
            Some(v) => {
                if tag == 3 {
                    Some(GossipMessage::Ping(Ping { id, nodes: v }))
                } else if tag == 4 {
                    Some(GossipMessage::Ack(Ack { id, nodes: v }))
                } else if tag == 6 {
                    Some(GossipMessage::IndirectAck(IndirectAck { id, nodes: v }))
                } else {
                    Some(GossipMessage::IndirectNack(IndirectNack { id, nodes: v }))
                }
            },
            None => None,
        }
    } else if tag == 5 {
        if blen < 40 {
            return None;
        }
        let id64 = read_le(bytes, 1, 8);
        let cnt64 = read_le(bytes, 32, 8);
        if id64 > usize::MAX as u64 {
            return None;
        }
        let body = blen - 40;
        proof {
            vstd::arithmetic::div_mod::lemma_fundamental_div_mod(body as int, 23);
        }
        if !(body % 23 == 0 && cnt64 == (body / 23) as u64) {
            return None;
        }
        let cnt = body / 23;
        let id = id64 as usize;
        match decode_node(bytes, 9) {
            Some(t) => match decode_nodes(bytes, 40, cnt) {
                Some(v) => Some(
                    GossipMessage::IndirectPing(IndirectPing { id, target: t, nodes: v }),
                ),
                None => None,
            },
            None => None,
        }
    } else {
        None
    }
}

proof fn lemma_parse_node_of_enc(s: Seq<u8>, i: int, n: Node)
    requires
        0 <= i,
        i + 23 <= s.len(),
        s.subrange(i, i + 23) == enc_node(n),
    ensures
        parse_node(s, i) == Some(n),
{
    lemma_pow256_values();
    lemma_le_bytes_len(n.id as int, 8);
    lemma_le_bytes_len(n.addr.port as int, 2);
    lemma_le_bytes_len(n.incarnation as int, 8);
    let e = enc_node(n);
    let pa = le_bytes(n.id as int, 8);
    let pb = seq![n.addr.ip0, n.addr.ip1, n.addr.ip2, n.addr.ip3];
    let pc = le_bytes(n.addr.port as int, 2);
    let pd = seq![state_byte(n.state)];
    let pe = le_bytes(n.incarnation as int, 8);
    assert(e == pa + pb + pc + pd + pe);
    assert forall|j: int| 0 <= j < 23 implies s[i + j] == #[trigger] e[j] by {
        assert(s.subrange(i, i + 23)[j] == s[i + j]);
    }
    assert(e[8] == pb[0] && e[9] == pb[1] && e[10] == pb[2] && e[11] == pb[3]);
    assert(e[14] == pd[0]);
    assert(s.subrange(i, i + 8) =~= le_bytes(n.id as int, 8)) by {
        assert forall|j: int| 0 <= j < 8 implies #[trigger] s.subrange(i, i + 8)[j] == le_bytes(
            n.id as int,
            8,
        )[j] by {
            assert(e[j] == le_bytes(n.id as int, 8)[j]);
        }
    }
    assert((usize::MAX as int) < pow256(8));
    lemma_le_roundtrip(s, i, n.id as int, 8);
    assert(s[i + 8] == n.addr.ip0);
    assert(s[i + 9] == n.addr.ip1);
    assert(s[i + 10] == n.addr.ip2);
    assert(s[i + 11] == n.addr.ip3);
    assert(s.subrange(i + 12, i + 14) =~= le_bytes(n.addr.port as int, 2)) by {
        assert forall|j: int| 0 <= j < 2 implies #[trigger] s.subrange(i + 12, i + 14)[j]
            == le_bytes(n.addr.port as int, 2)[j] by {
            assert(e[12 + j] == le_bytes(n.addr.port as int, 2)[j]);
        }
    }
    lemma_le_roundtrip(s, i + 12, n.addr.port as int, 2);
    assert(s[i + 14] == state_byte(n.state));
    assert(s.subrange(i + 15, i + 23) =~= le_bytes(n.incarnation as int, 8)) by {
        assert forall|j: int| 0 <= j < 8 implies #[trigger] s.subrange(i + 15, i + 23)[j]
            == le_bytes(n.incarnation as int, 8)[j] by {
            assert(e[15 + j] == le_bytes(n.incarnation as int, 8)[j]);
        }
    }
    lemma_le_roundtrip(s, i + 15, n.incarnation as int, 8);
}

proof fn lemma_parse_nodes_of_enc(s: Seq<u8>, i: int, ns: Seq<Node>)
    requires
        0 <= i,
        i + 23 * ns.len() <= s.len(),
        s.subrange(i, i + 23 * ns.len()) == enc_nodes(ns),
    ensures
        parse_nodes(s, i, ns.len()) == Some(ns),
    decreases ns.len(),
{
    if ns.len() == 0 {
        assert(ns =~= Seq::<Node>::empty());
    } else {
        let rest = ns.drop_first();
        lemma_enc_node_len(ns[0]);
        lemma_enc_nodes_len(rest);
        let w = s.subrange(i, i + 23 * ns.len());
        assert forall|j: int| 0 <= j < 23 * ns.len() implies s[i + j] == #[trigger] enc_nodes(
            ns,
        )[j] by {
            assert(w[j] == s[i + j]);
        }
        assert(s.subrange(i, i + 23) =~= enc_node(ns[0])) by {
            assert forall|j: int| 0 <= j < 23 implies #[trigger] s.subrange(i, i + 23)[j]
                == enc_node(ns[0])[j] by {
                assert(enc_nodes(ns)[j] == enc_node(ns[0])[j]);
            }
        }
        lemma_parse_node_of_enc(s, i, ns[0]);
        assert(s.subrange(i + 23, i + 23 + 23 * rest.len()) =~= enc_nodes(rest)) by {
            assert forall|j: int| 0 <= j < 23 * rest.len() implies #[trigger] s.subrange(
                i + 23,
                i + 23 + 23 * rest.len(),
            )[j] == enc_nodes(rest)[j] by {
                assert(enc_nodes(ns)[23 + j] == enc_nodes(rest)[j]);
            }
        }
        lemma_parse_nodes_of_enc(s, i + 23, rest);
        assert(seq![ns[0]] + rest =~= ns);
    }
}

/// Decoding inverts encoding: every message a process can hold survives
/// the round trip through the wire format unchanged.
pub proof fn lemma_codec_round_trip(v: MessageView)
    requires
        msg_wf(v),
    ensures
        spec_decode(spec_encode(v)) == Some(v),
{
    lemma_pow256_values();
    assert((usize::MAX as int) < pow256(8));
    let s = spec_encode(v);
    match v {
        MessageView::JoinReq { src } => {
            lemma_enc_node_len(src);
            assert(s.len() == 24);
            assert(s[0] == 1);
            assert(s.subrange(1, 24) =~= enc_node(src)) by {
                assert forall|j: int| 0 <= j < 23 implies #[trigger] s.subrange(1, 24)[j]
                    == enc_node(src)[j] by {
                    assert(s[1 + j] == enc_node(src)[j]);
                }
            }
            lemma_parse_node_of_enc(s, 1, src);
        },
        MessageView::JoinResp { nodes } => {
            lemma_le_bytes_len(nodes.len() as int, 8);
            lemma_enc_nodes_len(nodes);
            assert(s.len() == 9 + 23 * nodes.len());
            assert(s[0] == 2);
            assert(s.subrange(1, 9) =~= le_bytes(nodes.len() as int, 8)) by {
                assert forall|j: int| 0 <= j < 8 implies #[trigger] s.subrange(1, 9)[j] == le_bytes(
                    nodes.len() as int,
                    8,
                )[j] by {
                    assert(s[1 + j] == le_bytes(nodes.len() as int, 8)[j]);
                }
            }
            lemma_le_roundtrip(s, 1, nodes.len() as int, 8);
            assert(s.subrange(9, 9 + 23 * nodes.len() as int) =~= enc_nodes(nodes)) by {
                assert forall|j: int| 0 <= j < 23 * nodes.len() implies #[trigger] s.subrange(
                    9,
                    9 + 23 * nodes.len() as int,
                )[j] == enc_nodes(nodes)[j] by {
                    assert(s[9 + j] == enc_nodes(nodes)[j]);
                }
            }
            lemma_parse_nodes_of_enc(s, 9, nodes);
        },
        MessageView::Ping { id, nodes } => {
            lemma_std_layout(s, 3, id, nodes);
        },
        MessageView::Ack { id, nodes } => {
            lemma_std_layout(s, 4, id, nodes);
        },
        MessageView::IndirectAck { id, nodes } => {
            lemma_std_layout(s, 6, id, nodes);
        },
        MessageView::IndirectNack { id, nodes } => {
            lemma_std_layout(s, 7, id, nodes);
        },
        MessageView::IndirectPing { id, target, nodes } => {
            lemma_le_bytes_len(id as int, 8);
            lemma_enc_node_len(target);
            lemma_le_bytes_len(nodes.len() as int, 8);
            lemma_enc_nodes_len(nodes);
            assert(s.len() == 40 + 23 * nodes.len());
            assert(s[0] == 5);
            assert(s.subrange(1, 9) =~= le_bytes(id as int, 8)) by {
                assert forall|j: int| 0 <= j < 8 implies #[trigger] s.subrange(1, 9)[j] == le_bytes(
                    id as int,
                    8,
                )[j] by {
                    assert(s[1 + j] == le_bytes(id as int, 8)[j]);
                }
            }
            lemma_le_roundtrip(s, 1, id as int, 8);
            assert(s.subrange(9, 32) =~= enc_node(target)) by {
                assert forall|j: int| 0 <= j < 23 implies #[trigger] s.subrange(9, 32)[j]
                    == enc_node(target)[j] by {
                    assert(s[9 + j] == enc_node(target)[j]);
                }
            }
            lemma_parse_node_of_enc(s, 9, target);
            assert(s.subrange(32, 40) =~= le_bytes(nodes.len() as int, 8)) by {
                assert forall|j: int| 0 <= j < 8 implies #[trigger] s.subrange(32, 40)[j]
                    == le_bytes(nodes.len() as int, 8)[j] by {
                    assert(s[32 + j] == le_bytes(nodes.len() as int, 8)[j]);
                }
            }
            lemma_le_roundtrip(s, 32, nodes.len() as int, 8);
            assert(s.subrange(40, 40 + 23 * nodes.len() as int) =~= enc_nodes(nodes)) by {
                assert forall|j: int| 0 <= j < 23 * nodes.len() implies #[trigger] s.subrange(
                    40,
                    40 + 23 * nodes.len() as int,
                )[j] == enc_nodes(nodes)[j] by {
                    assert(s[40 + j] == enc_nodes(nodes)[j]);
                }
            }
            lemma_parse_nodes_of_enc(s, 40, nodes);
        },
    }
}

/// Shared layout of the four probe-flavoured messages: discriminator,
/// correlation id, count, then the node records.
proof fn lemma_std_layout(s: Seq<u8>, tag: u8, id: usize, nodes: Seq<Node>)
    requires
        nodes.len() < pow256(8),
        s == seq![tag] + le_bytes(id as int, 8) + le_bytes(nodes.len() as int, 8) + enc_nodes(
            nodes,
        ),
    ensures
        s.len() == 17 + 23 * nodes.len(),
        s[0] == tag,
        le_val(s, 1, 8) == id as int,
        le_val(s, 9, 8) == nodes.len() as int,
        parse_nodes(s, 17, nodes.len()) == Some(nodes),
{
    lemma_pow256_values();
    assert((usize::MAX as int) < pow256(8));
    lemma_le_bytes_len(id as int, 8);
    lemma_le_bytes_len(nodes.len() as int, 8);
    lemma_enc_nodes_len(nodes);
    assert(s.subrange(1, 9) =~= le_bytes(id as int, 8)) by {
        assert forall|j: int| 0 <= j < 8 implies #[trigger] s.subrange(1, 9)[j] == le_bytes(
            id as int,
            8,
        )[j] by {
            assert(s[1 + j] == le_bytes(id as int, 8)[j]);
        }
    }
    lemma_le_roundtrip(s, 1, id as int, 8);
    assert(s.subrange(9, 17) =~= le_bytes(nodes.len() as int, 8)) by {
        assert forall|j: int| 0 <= j < 8 implies #[trigger] s.subrange(9, 17)[j] == le_bytes(
            nodes.len() as int,
            8,
        )[j] by {
            assert(s[9 + j] == le_bytes(nodes.len() as int, 8)[j]);
        }
    }
    lemma_le_roundtrip(s, 9, nodes.len() as int, 8);
    assert(s.subrange(17, 17 + 23 * nodes.len() as int) =~= enc_nodes(nodes)) by {
        assert forall|j: int| 0 <= j < 23 * nodes.len() implies #[trigger] s.subrange(
            17,
            17 + 23 * nodes.len() as int,
        )[j] == enc_nodes(nodes)[j] by {
            assert(s[17 + j] == enc_nodes(nodes)[j]);
        }
    }
    lemma_parse_nodes_of_enc(s, 17, nodes);
}

} // verus!
