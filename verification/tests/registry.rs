use gossip::node::Addr;
use gossip::node::Node;
use gossip::node::State;
use gossip::nodestore::Nodestore;

fn addr_a() -> Addr {
    Addr::new(1, 2, 3, 4, 1000)
}

fn addr_b() -> Addr {
    Addr::new(2, 3, 4, 5, 1001)
}

fn ids_of(nodes: &[Node]) -> Vec<usize> {
    let mut ids: Vec<usize> = nodes.iter().map(|n| n.id).collect();
    ids.sort();
    ids
}

#[test]
fn test_node_store() {
    let self_node = Node::new(0, addr_a());
    let mut node_store = Nodestore::new(self_node);

    assert_eq!(1, node_store.len());

    assert_eq!(self_node, node_store.get(node_store.self_node().id).unwrap());

    let another_node = Node::new(1, addr_b());
    node_store.insert(another_node);

    assert_eq!(2, node_store.len());
}

#[test]
fn test_get_miss_is_absence() {
    let store = Nodestore::new(Node::new(0, addr_a()));
    assert_eq!(None, store.get(42));
}

#[test]
fn test_insert_replaces_by_id() {
    let mut store = Nodestore::new(Node::new(0, addr_a()));
    let replacement = Node { id: 0, addr: addr_b(), state: State::DEAD, incarnation: 9 };
    store.insert(replacement);
    assert_eq!(1, store.len());
    assert_eq!(replacement, store.get(0).unwrap());
}

#[test]
fn test_merge_lower_incarnation_discarded() {
    let mut store = Nodestore::new(Node::new(0, addr_a()));
    let existing = Node { id: 5, addr: addr_b(), state: State::ALIVE, incarnation: 2 };
    store.insert(existing);

    let lower = Node { id: 5, addr: addr_a(), state: State::DEAD, incarnation: 1 };
    store.update_from_vec(vec![lower]);
    assert_eq!(existing, store.get(5).unwrap());

    let tie = Node { id: 5, addr: addr_a(), state: State::DEAD, incarnation: 2 };
    store.update_from_vec(vec![tie]);
    assert_eq!(existing, store.get(5).unwrap());

    let higher = Node { id: 5, addr: addr_a(), state: State::DEAD, incarnation: 3 };
    store.update_from_vec(vec![higher]);
    assert_eq!(higher, store.get(5).unwrap());
}

#[test]
fn test_merge_inserts_unknown_ids() {
    let mut store = Nodestore::new(Node::new(0, addr_a()));
    let n1 = Node::new(1, addr_b());
    let n2 = Node { id: 2, addr: addr_b(), state: State::ALIVE, incarnation: 7 };
    store.update_from_vec(vec![n1, n2]);
    assert_eq!(3, store.len());
    assert_eq!(n1, store.get(1).unwrap());
    assert_eq!(n2, store.get(2).unwrap());
}

#[test]
fn test_merge_idempotent() {
    let snapshot = vec![
        Node { id: 1, addr: addr_b(), state: State::ALIVE, incarnation: 4 },
        Node { id: 2, addr: addr_a(), state: State::DEAD, incarnation: 1 },
        Node { id: 0, addr: addr_b(), state: State::ALIVE, incarnation: 2 },
    ];

    let mut once = Nodestore::new(Node::new(0, addr_a()));
    once.update_from_vec(snapshot.clone());

    let mut twice = Nodestore::new(Node::new(0, addr_a()));
    twice.update_from_vec(snapshot.clone());
    twice.update_from_vec(snapshot);

    assert_eq!(once.len(), twice.len());
    for id in 0..3 {
        assert_eq!(once.get(id), twice.get(id));
    }
}

#[test]
fn test_merge_order_independent() {
    let a = Node { id: 1, addr: addr_b(), state: State::ALIVE, incarnation: 4 };
    let b = Node { id: 2, addr: addr_a(), state: State::DEAD, incarnation: 1 };
    let c = Node { id: 1, addr: addr_a(), state: State::DEAD, incarnation: 6 };

    let mut fwd = Nodestore::new(Node::new(0, addr_a()));
    fwd.update_from_vec(vec![a, b, c]);

    let mut rev = Nodestore::new(Node::new(0, addr_a()));
    rev.update_from_vec(vec![c, b, a]);

    assert_eq!(fwd.len(), rev.len());
    for id in 0..3 {
        assert_eq!(fwd.get(id), rev.get(id));
    }
}

#[test]
fn test_self_id_always_member() {
    let mut store = Nodestore::new(Node::new(7, addr_a()));
    store.update_from_vec(vec![Node::new(1, addr_b()), Node::new(2, addr_b())]);
    store.insert(Node::new(3, addr_b()));
    store.mark_dead(1);
    store.mark_dead(7);
    let members = store.get_all();
    assert!(ids_of(&members).contains(&7));
}

#[test]
fn test_mark_dead_keeps_incarnation() {
    let mut store = Nodestore::new(Node::new(0, addr_a()));
    let peer = Node { id: 3, addr: addr_b(), state: State::ALIVE, incarnation: 5 };
    store.insert(peer);
    store.mark_dead(3);
    let got = store.get(3).unwrap();
    assert_eq!(State::DEAD, got.state);
    assert_eq!(5, got.incarnation);
    assert_eq!(addr_b(), got.addr);

    // an unknown id changes nothing
    store.mark_dead(99);
    assert_eq!(2, store.len());
}

#[test]
fn test_node_inc() {
    let mut n = Node::new(4, addr_a());
    assert_eq!(0, n.incarnation);
    n.inc();
    n.inc();
    assert_eq!(2, n.incarnation);
    assert_eq!(4, n.id);
    assert_eq!(State::ALIVE, n.state);
}
