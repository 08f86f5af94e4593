//! A member's record: identity, endpoint, liveness state and incarnation.

use vstd::prelude::*;

verus! {

/// Liveness state of a member as known locally.
#[derive(Clone, Copy, Debug, Hash, PartialEq, Eq, Structural)]
pub enum State {
    ALIVE,
    DEAD,
}

/// A reachable network endpoint: four IPv4 octets and a port.
#[derive(Clone, Copy, Debug, Hash, PartialEq, Eq, Structural)]
pub struct Addr {
    pub ip0: u8,
    pub ip1: u8,
    pub ip2: u8,
    pub ip3: u8,
    pub port: u16,
}

impl Addr {
    pub fn new(ip0: u8, ip1: u8, ip2: u8, ip3: u8, port: u16) -> (a: Addr)
        ensures
            a == (Addr { ip0, ip1, ip2, ip3, port }),
    {
        Addr { ip0, ip1, ip2, ip3, port }
    }
}

/// One member's known facts. Within a registry there is at most one
/// record per `id`; conflicting facts about the same id are ordered by
/// `incarnation`, a counter only the node itself may bump.
#[derive(Clone, Copy, Debug, Hash, PartialEq, Eq, Structural)]
pub struct Node {
    pub id: usize,
    pub addr: Addr,
    pub state: State,
    pub incarnation: usize,
}

impl Node {
    /// A freshly known member starts alive at incarnation zero.
    pub fn new(id: usize, addr: Addr) -> (n: Node)
        ensures
            n == (Node { id, addr, state: State::ALIVE, incarnation: 0 }),
    {
        Node { id, addr, state: State::ALIVE, incarnation: 0 }
    }

    /// Bump the incarnation counter; a node calls this on its own record
    /// to refute false suspicion.
    pub fn inc(&mut self)
        requires
            old(self).incarnation < usize::MAX,
        ensures
            final(self).incarnation == old(self).incarnation + 1,
            final(self).id == old(self).id,
            final(self).addr == old(self).addr,
            final(self).state == old(self).state,
    {
        self.incarnation = self.incarnation + 1;
    }
}

} // verus!
