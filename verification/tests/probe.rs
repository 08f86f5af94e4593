use gossip::node::Addr;
use gossip::node::Node;
use gossip::node::State;
use gossip::nodestore::Nodestore;
use gossip::probe::Probe;
use gossip::probe::ProbeAction;
use gossip::probe::ProbeEvent;
use gossip::probe::ProbePhase;

#[test]
fn test_probe_direct_ack_succeeds() {
    let mut p = Probe::new(3, 100, 2);
    assert_eq!(ProbePhase::Direct, p.phase);
    let a = p.step(ProbeEvent::Ack { id: 100 });
    assert_eq!(ProbeAction::Ignore, a);
    assert_eq!(ProbePhase::Succeeded, p.phase);
}

#[test]
fn test_probe_mismatched_id_ignored() {
    let mut p = Probe::new(3, 100, 2);
    p.step(ProbeEvent::Ack { id: 55 });
    assert_eq!(ProbePhase::Direct, p.phase);
    p.step(ProbeEvent::DirectTimeout);
    p.step(ProbeEvent::IndirectAck { id: 55 });
    p.step(ProbeEvent::IndirectNack { id: 55 });
    assert_eq!(ProbePhase::Indirect, p.phase);
    assert_eq!(0, p.nacks);
}

#[test]
fn test_probe_timeout_fans_out_then_all_nacks_kill() {
    let mut store = Nodestore::new(Node::new(0, Addr::new(1, 2, 3, 4, 1000)));
    let target = Node::new(3, Addr::new(2, 3, 4, 5, 1001));
    store.insert(target);

    let mut p = Probe::new(3, 100, 2);
    let a = p.step(ProbeEvent::DirectTimeout);
    assert_eq!(ProbeAction::SendIndirectPings, a);
    assert_eq!(ProbePhase::Indirect, p.phase);

    let a = p.step(ProbeEvent::IndirectNack { id: 100 });
    assert_eq!(ProbeAction::Ignore, a);
    let a = p.step(ProbeEvent::IndirectNack { id: 100 });
    assert_eq!(ProbeAction::DeclareDead, a);
    assert_eq!(ProbePhase::Failed, p.phase);

    // the caller acts on the verdict
    store.mark_dead(p.target);
    assert_eq!(State::DEAD, store.get(3).unwrap().state);
}

#[test]
fn test_probe_single_indirect_ack_cancels() {
    let mut p = Probe::new(3, 100, 3);
    p.step(ProbeEvent::DirectTimeout);
    p.step(ProbeEvent::IndirectNack { id: 100 });
    let a = p.step(ProbeEvent::IndirectAck { id: 100 });
    assert_eq!(ProbeAction::Ignore, a);
    assert_eq!(ProbePhase::Succeeded, p.phase);

    // refutation is final: the window closing changes nothing
    let a = p.step(ProbeEvent::WindowExpired);
    assert_eq!(ProbeAction::Ignore, a);
    assert_eq!(ProbePhase::Succeeded, p.phase);
}

#[test]
fn test_probe_window_expiry_kills() {
    let mut p = Probe::new(3, 100, 2);
    p.step(ProbeEvent::DirectTimeout);
    let a = p.step(ProbeEvent::WindowExpired);
    assert_eq!(ProbeAction::DeclareDead, a);
    assert_eq!(ProbePhase::Failed, p.phase);
}

#[test]
fn test_probe_without_proxies_fails_on_timeout() {
    let mut p = Probe::new(3, 100, 0);
    let a = p.step(ProbeEvent::DirectTimeout);
    assert_eq!(ProbeAction::DeclareDead, a);
    assert_eq!(ProbePhase::Failed, p.phase);
}
