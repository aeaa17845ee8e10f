//! The per-host prober as a state machine: each enabled host runs one loop
//! that sleeps until its tick, sends one echo probe, classifies what came
//! back, and emits the outcome — until its output channel is closed.  The
//! decisions live here, verified; the surrounding loop performs the timer
//! waits, the network sends and the channel pushes and feeds every result
//! back in as a [`ProberEvent`].

use crate::ping::PingEvent;
use crate::stats::PingResult;
use vstd::prelude::*;

verus! {

/// What the network primitive reported for one echo probe.
#[derive(Debug)]
pub enum ProbeResponse {
    /// A reply arrived within the timeout; its round-trip time in
    /// microseconds.
    Reply { rtt: u32 },
    /// The send/receive primitive itself failed (e.g. host unreachable).
    Failed { error: String },
    /// Nothing arrived before the timeout elapsed.
    Silence,
}

/// How a raw response to the probe issued at `timestamp` with `sequence`
/// classifies: a reply is a success with its round-trip time, a primitive
/// failure is an error, and silence through the timeout window is a timeout.
pub open spec fn classified(response: ProbeResponse, sequence: u16, timestamp: u64) -> PingResult {
    match response {
        ProbeResponse::Reply { rtt } => PingResult::Success { rtt, sequence, timestamp },
        ProbeResponse::Failed { error } => PingResult::Error { error, sequence, timestamp },
        ProbeResponse::Silence => PingResult::Timeout { sequence, timestamp },
    }
}

/// Classify one raw probe response into the outcome that is recorded.
/// Exactly one variant results; in particular a probe that stays silent
/// through its timeout window resolves to a timeout stamped with its issue
/// time.
pub fn classify(response: ProbeResponse, sequence: u16, timestamp: u64) -> (r: PingResult)
    ensures
        r == classified(response, sequence, timestamp),
        response is Silence ==> r == (PingResult::Timeout { sequence, timestamp }),
{
    match response {
        ProbeResponse::Reply { rtt } => PingResult::Success { rtt, sequence, timestamp },
        ProbeResponse::Failed { error } => PingResult::Error { error, sequence, timestamp },
        ProbeResponse::Silence => PingResult::Timeout { sequence, timestamp },
    }
}

/// The prober's position in its loop.
#[derive(Debug, Clone, Copy, PartialEq, Eq, Structural)]
pub enum ProberPhase {
    /// Between ticks; the next tick sends a probe.
    Idle,
    /// An echo request is in flight.
    Probing,
    /// The event consumer has gone away; the loop is over.
    Stopped,
}

/// One prober: the host it probes and where its loop stands.
#[derive(Debug)]
pub struct Prober {
    /// Identifier of the probed host.
    pub host_id: String,
    /// Display name of the probed host.
    pub host_name: String,
    /// Sequence number the next probe will carry (wraps at 16 bits).
    pub sequence: u16,
    /// Position in the loop.
    pub phase: ProberPhase,
}

/// What the surrounding loop reports back to the prober.
#[derive(Debug)]
pub enum ProberEvent {
    /// The interval timer fired.
    Tick,
    /// The in-flight probe finished with this raw response; `timestamp` is
    /// the probe's issue time in microseconds.
    Completed { response: ProbeResponse, timestamp: u64 },
    /// The produced event was offered to the channel; `accepted` is false
    /// when the consumer has gone away.
    Emitted { accepted: bool },
}

/// What the surrounding loop must do next.
#[derive(Debug)]
pub enum ProberAction {
    /// Send one echo request carrying this sequence number, bounded by the
    /// configured timeout.
    SendProbe { sequence: u16 },
    /// Push this event onto the event channel.
    Emit { event: PingEvent },
    /// Nothing to do until the next event.
    Wait,
    /// The loop is over; emit nothing further.
    Halt,
}

/// The sequence number after `s`: a wrapping 16-bit counter.
pub open spec fn next_sequence(s: u16) -> u16 {
    if s == u16::MAX {
        0
    } else {
        (s + 1) as u16
    }
}

/// The whole step relation: next prober state and required action for each
/// state and event.
pub open spec fn step_spec(p: Prober, event: ProberEvent) -> (Prober, ProberAction) {
    if p.phase is Stopped {
        (p, ProberAction::Halt)
    } else {
        match event {
            ProberEvent::Tick => {
                if p.phase is Idle {
                    (
                        Prober { phase: ProberPhase::Probing, ..p },
                        ProberAction::SendProbe { sequence: p.sequence },
                    )
                } else {
                    (p, ProberAction::Wait)
                }
            },
            ProberEvent::Completed { response, timestamp } => {
                if p.phase is Probing {
                    (
                        Prober {
                            phase: ProberPhase::Idle,
                            sequence: next_sequence(p.sequence),
                            ..p
                        },
                        ProberAction::Emit {
                            event: PingEvent {
                                host_id: p.host_id,
                                host_name: p.host_name,
                                result: classified(response, p.sequence, timestamp),
                            },
                        },
                    )
                } else {
                    (p, ProberAction::Wait)
                }
            },
            ProberEvent::Emitted { accepted } => {
                if accepted {
                    (p, ProberAction::Wait)
                } else {
                    (Prober { phase: ProberPhase::Stopped, ..p }, ProberAction::Halt)
                }
            },
        }
    }
}

impl Prober {
    /// A fresh prober for one host: idle, sequence zero.
    pub fn new(host_id: String, host_name: String) -> (p: Self)
        ensures
            p.host_id == host_id,
            p.host_name == host_name,
            p.sequence == 0,
            p.phase is Idle,
    {
        Prober { host_id, host_name, sequence: 0, phase: ProberPhase::Idle }
    }

    /// Advance the state machine by one event and say what the loop does
    /// next.  A rejected emission — the channel's consumer is gone — stops
    /// the loop for good; that is the normal shutdown path, not a failure.
    pub fn step(&mut self, event: ProberEvent) -> (action: ProberAction)
        ensures
            ({
                let sa = step_spec(*old(self), event);
                *final(self) == sa.0 && action == sa.1
            }),
            (event matches ProberEvent::Emitted { accepted: false }) ==> final(self).phase
                is Stopped && action is Halt,
            old(self).phase is Stopped ==> *final(self) == *old(self) && action is Halt,
    {
        match self.phase {
            ProberPhase::Stopped => ProberAction::Halt,
            ProberPhase::Idle | ProberPhase::Probing => {
                match event {
                    ProberEvent::Tick => {
                        match self.phase {
                            ProberPhase::Idle => {
                                self.phase = ProberPhase::Probing;
                                ProberAction::SendProbe { sequence: self.sequence }
                            },
                            _ => ProberAction::Wait,
                        }
                    },
                    ProberEvent::Completed { response, timestamp } => {
                        match self.phase {
                            ProberPhase::Probing => {
                                let sequence = self.sequence;
                                let result = classify(response, sequence, timestamp);
                                let out = PingEvent {
                                    host_id: self.host_id.clone(),
                                    host_name: self.host_name.clone(),
                                    result,
                                };
                                self.sequence = if sequence == u16::MAX {
                                    0
                                } else {
                                    sequence + 1
                                };
                                self.phase = ProberPhase::Idle;
                                ProberAction::Emit { event: out }
                            },
                            _ => ProberAction::Wait,
                        }
                    },
                    ProberEvent::Emitted { accepted } => {
                        if accepted {
                            ProberAction::Wait
                        } else {
                            self.phase = ProberPhase::Stopped;
                            ProberAction::Halt
                        }
                    },
                }
            },
        }
    }
}

/// The prober state after a whole sequence of events.
pub open spec fn run_steps(p: Prober, events: Seq<ProberEvent>) -> Prober
    decreases events.len(),
{
    if events.len() == 0 {
        p
    } else {
        step_spec(run_steps(p, events.drop_last()), events.last()).0
    }
}

/// Law: a prober whose channel was closed stays stopped.  Whatever events
/// still arrive, its state no longer changes, and every further step answers
/// `Halt` — it sends no probe and emits no event again.
pub proof fn lemma_stopped_prober_stays_stopped(p: Prober, events: Seq<ProberEvent>)
    requires
        p.phase is Stopped,
    ensures
        run_steps(p, events) == p,
        forall|e: ProberEvent| step_spec(run_steps(p, events), e).1 is Halt,
    decreases events.len(),
{
    if events.len() > 0 {
        lemma_stopped_prober_stays_stopped(p, events.drop_last());
    }
}

} // verus!
