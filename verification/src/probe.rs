//! The failure-detection state machine for one monitored peer: a direct
//! probe that times out turns into suspicion, suspicion fans out as
//! indirect probes through `k` proxies, a single positive report refutes
//! it, and an exhausted window or a unanimous negative report declares the
//! peer dead. The suspicion window and the proxy count are the caller's
//! parameters, not constants of this module.

use vstd::prelude::*;

verus! {

/// Where one probe stands.
#[derive(Clone, Copy, Debug, PartialEq, Eq, Structural)]
pub enum ProbePhase {
    /// Waiting on the direct ping.
    Direct,
    /// The direct ping timed out; the peer is suspect and the proxies'
    /// reports are awaited.
    Indirect,
    /// The peer answered, directly or through a proxy; suspicion is
    /// cancelled.
    Succeeded,
    /// No answer before the window closed, or every proxy reported the
    /// peer unreachable.
    Failed,
}

/// What the prober observes while a probe is outstanding.
#[derive(Clone, Copy, Debug, PartialEq, Eq, Structural)]
pub enum ProbeEvent {
    /// A direct `Ack` arrived carrying this correlation id.
    Ack { id: usize },
    /// The direct ping's timeout elapsed without an answer.
    DirectTimeout,
    /// A proxy reported the target reachable, under this correlation id.
    IndirectAck { id: usize },
    /// A proxy reported the target unreachable, under this correlation id.
    IndirectNack { id: usize },
    /// The suspicion window closed.
    WindowExpired,
}

/// What the caller must do after a step.
#[derive(Clone, Copy, Debug, PartialEq, Eq, Structural)]
pub enum ProbeAction {
    /// Nothing: the event was stale, mismatched or already settled.
    Ignore,
    /// Send an `IndirectPing` for the target to each chosen proxy.
    SendIndirectPings,
    /// Record the target as dead in the registry and gossip the fact.
    DeclareDead,
}

/// One outstanding probe of one peer.
#[derive(Clone, Copy, Debug, PartialEq, Eq, Structural)]
pub struct Probe {
    /// The monitored peer's id.
    pub target: usize,
    /// The correlation token every answer must echo.
    pub corr_id: usize,
    /// How many proxies are asked when the probe turns indirect.
    pub proxies: usize,
    /// Negative proxy reports received so far.
    pub nacks: usize,
    /// Where the probe stands.
    pub phase: ProbePhase,
}

impl Probe {
    /// Negative reports never outnumber the proxies, and while reports are
    /// still awaited at least one proxy has not answered.
    pub open spec fn wf(&self) -> bool {
        &&& self.nacks <= self.proxies
        &&& self.phase == ProbePhase::Direct ==> self.nacks == 0
        &&& self.phase == ProbePhase::Indirect ==> self.nacks < self.proxies
    }

    /// The transition relation, written out: given the phase and one
    /// event, the next probe state and the action owed.
    pub open spec fn step_spec(self, ev: ProbeEvent) -> (Probe, ProbeAction) {
        match self.phase {
            ProbePhase::Direct => match ev {
                ProbeEvent::Ack { id } => if id == self.corr_id {
                    (Probe { phase: ProbePhase::Succeeded, ..self }, ProbeAction::Ignore)
                } else {
                    (self, ProbeAction::Ignore)
                },
                ProbeEvent::DirectTimeout => if self.proxies == 0 {
                    (Probe { phase: ProbePhase::Failed, ..self }, ProbeAction::DeclareDead)
                } else {
                    (Probe { phase: ProbePhase::Indirect, ..self }, ProbeAction::SendIndirectPings)
                },
                ProbeEvent::WindowExpired => (
                    Probe { phase: ProbePhase::Failed, ..self },
                    ProbeAction::DeclareDead,
                ),
                _ => (self, ProbeAction::Ignore),
            },
            ProbePhase::Indirect => match ev {
                ProbeEvent::Ack { id } => if id == self.corr_id {
                    (Probe { phase: ProbePhase::Succeeded, ..self }, ProbeAction::Ignore)
                } else {
                    (self, ProbeAction::Ignore)
                },
                ProbeEvent::IndirectAck { id } => if id == self.corr_id {
                    (Probe { phase: ProbePhase::Succeeded, ..self }, ProbeAction::Ignore)
                } else {
                    (self, ProbeAction::Ignore)
                },
                ProbeEvent::IndirectNack { id } => if id == self.corr_id {
                    if self.nacks + 1 == self.proxies {
                        (
                            Probe { nacks: self.proxies, phase: ProbePhase::Failed, ..self },
                            ProbeAction::DeclareDead,
                        )
                    } else {
                        (Probe { nacks: (self.nacks + 1) as usize, ..self }, ProbeAction::Ignore)
                    }
                } else {
                    (self, ProbeAction::Ignore)
                },
                ProbeEvent::WindowExpired => (
                    Probe { phase: ProbePhase::Failed, ..self },
                    ProbeAction::DeclareDead,
                ),
                _ => (self, ProbeAction::Ignore),
            },
            _ => (self, ProbeAction::Ignore),
        }
    }

    /// A fresh probe starts with the direct ping outstanding and no
    /// negative reports.
    pub fn new(target: usize, corr_id: usize, proxies: usize) -> (p: Probe)
        ensures
            p == (Probe { target, corr_id, proxies, nacks: 0, phase: ProbePhase::Direct }),
            p.wf(),
    {
        Probe { target, corr_id, proxies, nacks: 0, phase: ProbePhase::Direct }
    }

    /// Feed one event through the transition relation.
    pub fn step(&mut self, ev: ProbeEvent) -> (a: ProbeAction)
        requires
            old(self).wf(),
        ensures
            final(self).wf(),
            (*final(self), a) == old(self).step_spec(ev),
    {
        match self.phase {
            ProbePhase::Direct => match ev {
                ProbeEvent::Ack { id } => {
                    if id == self.corr_id {
                        self.phase = ProbePhase::Succeeded;
                    }
                    ProbeAction::Ignore
                },
                ProbeEvent::DirectTimeout => {
                    if self.proxies == 0 {
                        self.phase = ProbePhase::Failed;
                        ProbeAction::DeclareDead
                    } else {
                        self.phase = ProbePhase::Indirect;
                        ProbeAction::SendIndirectPings
                    }
                },
                ProbeEvent::WindowExpired => {
                    self.phase = ProbePhase::Failed;
                    ProbeAction::DeclareDead
                },
                _ => ProbeAction::Ignore,
            },
            ProbePhase::Indirect => match ev {
                ProbeEvent::Ack { id } => {
                    if id == self.corr_id {
                        self.phase = ProbePhase::Succeeded;
                    }
                    ProbeAction::Ignore
                },
                ProbeEvent::IndirectAck { id } => {
                    if id == self.corr_id {
                        self.phase = ProbePhase::Succeeded;
                    }
                    ProbeAction::Ignore
                },
                ProbeEvent::IndirectNack { id } => {
                    if id == self.corr_id {
                        if self.nacks + 1 == self.proxies {
                            self.nacks = self.proxies;
                            self.phase = ProbePhase::Failed;
                            ProbeAction::DeclareDead
                        } else {
                            self.nacks = self.nacks + 1;
                            ProbeAction::Ignore
                        }
                    } else {
                        ProbeAction::Ignore
                    }
                },
                ProbeEvent::WindowExpired => {
                    self.phase = ProbePhase::Failed;
                    ProbeAction::DeclareDead
                },
                _ => ProbeAction::Ignore,
            },
            _ => ProbeAction::Ignore,
        }
    }
}

/// Once a probe has succeeded — the peer answered, directly or through a
/// proxy — no later event can declare the peer dead.
pub proof fn lemma_refutation_is_final(p: Probe, ev: ProbeEvent)
    requires
        p.phase == ProbePhase::Succeeded,
    ensures
        p.step_spec(ev).0 == p,
        p.step_spec(ev).1 != ProbeAction::DeclareDead,
{
}

} // verus!
