//! The decisions of one connection: authenticate, register with the hub,
//! then shuttle messages both ways, and tell the hub once when it ends.
use vstd::prelude::*;
use crate::hub::ClientEvent;
use crate::message::{Message, MessageView};

verus! {

#[derive(Debug, Clone, Copy, PartialEq, Eq, Structural)]
pub enum Phase {
    Handshaking,
    Running,
    Closed,
}

/// What happened on the connection.
pub enum InteractorEvent {
    /// The client proved to be this user.
    Authenticated(String),
    /// The client's credentials were refused.
    Rejected,
    /// A message came from the client.
    FromClient(Message),
    /// The hub has a message for the client.
    ToClient(Message),
    /// The transport or the hub failed, or the client went away.
    Failed,
}

/// What the connection is to do next.
pub enum InteractorAction {
    WriteToClient(Message),
    /// Register with the hub as this user.
    Register(String),
    SendToHub(ClientEvent),
    Stop,
}

pub open spec fn is_close_for(a: InteractorAction, id: Seq<char>) -> bool {
    a matches InteractorAction::SendToHub(ClientEvent::Close { id: c }) && c@ == id
}

/// The state of one connection.
pub struct Interactor {
    pub id: String,
    pub phase: Phase,
}

/// The phase after an event.
pub open spec fn next_phase(phase: Phase, event: InteractorEvent) -> Phase {
    match (phase, event) {
        (Phase::Handshaking, InteractorEvent::Authenticated(_)) => Phase::Running,
        (Phase::Handshaking, InteractorEvent::ToClient(_)) => Phase::Handshaking,
        (Phase::Handshaking, InteractorEvent::FromClient(_)) => Phase::Handshaking,
        (Phase::Handshaking, _) => Phase::Closed,
        (Phase::Running, InteractorEvent::Failed) => Phase::Closed,
        (Phase::Running, InteractorEvent::Rejected) => Phase::Closed,
        (p, _) => p,
    }
}

/// The number of close events sent for a run of events from `phase`.
pub open spec fn closes_sent(phase: Phase, events: Seq<InteractorEvent>) -> nat
    decreases events.len(),
{
    if events.len() == 0 {
        0
    } else {
        let here: nat = if phase == Phase::Running && next_phase(phase, events[0]) == Phase::Closed {
            1
        } else {
            0
        };
        here + closes_sent(next_phase(phase, events[0]), events.drop_first())
    }
}

/// Whatever happens, a connection sends at most one close event, and none
/// before it has registered.
pub proof fn law_single_close(phase: Phase, events: Seq<InteractorEvent>)
    ensures
        phase == Phase::Closed ==> closes_sent(phase, events) == 0,
        phase == Phase::Handshaking || phase == Phase::Running ==> closes_sent(phase, events) <= 1,
    decreases events.len(),
{
    if events.len() > 0 {
        law_single_close(next_phase(phase, events[0]), events.drop_first());
    }
}

impl Interactor {
    pub fn new(id: String) -> (r: Interactor)
        ensures
            r.id@ == id@,
            r.phase == Phase::Handshaking,
    {
        Interactor { id, phase: Phase::Handshaking }
    }

    /// Decides what an event leads to. Once authenticated, the client gets
    /// its id and the hub learns of it; then messages go through both ways;
    /// a failure after registering sends the hub one close event; after
    /// closing nothing more is done.
    pub fn step(&mut self, event: InteractorEvent) -> (r: Vec<InteractorAction>)
        ensures
            final(self).id == old(self).id,
            final(self).phase == next_phase(old(self).phase, event),
            old(self).phase == Phase::Closed ==> r@.len() == 0,
            (exists|i: int| 0 <= i < r@.len() && is_close_for(#[trigger] r@[i], old(self).id@)) <==> (
            old(self).phase == Phase::Running && final(self).phase == Phase::Closed),
            match (old(self).phase, event) {
                (Phase::Handshaking, InteractorEvent::Authenticated(user)) => r@.len() == 2
                    && (r@[0] matches InteractorAction::WriteToClient(m) && m@ == (MessageView::AuthenticationResponse { client_id: old(self).id@ }))
                    && (r@[1] matches InteractorAction::Register(u) && u@ == user@),
                (Phase::Running, InteractorEvent::FromClient(m)) => r@.len() == 1
                    && (r@[0] matches InteractorAction::SendToHub(ClientEvent::Message { id, message }) && id@ == old(self).id@ && message == m),
                (Phase::Running, InteractorEvent::ToClient(m)) => r@.len() == 1
                    && (r@[0] matches InteractorAction::WriteToClient(x) && x == m),
                (Phase::Running, InteractorEvent::Authenticated(_)) => r@.len() == 0,
                (Phase::Running, _) => r@.len() == 2 && r@[1] is Stop,
                (Phase::Handshaking, InteractorEvent::ToClient(_)) => r@.len() == 0,
                (Phase::Handshaking, InteractorEvent::FromClient(_)) => r@.len() == 0,
                (Phase::Handshaking, _) => r@.len() == 1 && r@[0] is Stop,
                _ => true,
            },
    {
        let mut actions: Vec<InteractorAction> = Vec::new();
        match self.phase {
            Phase::Closed => {},
            Phase::Handshaking => match event {
                InteractorEvent::Authenticated(user) => {
                    let response = Message::AuthenticationResponse { client_id: self.id.clone() };
                    actions.push(InteractorAction::WriteToClient(response));
                    actions.push(InteractorAction::Register(user));
                    self.phase = Phase::Running;
                },
                InteractorEvent::ToClient(_) => {},
                InteractorEvent::FromClient(_) => {},
                _ => {
                    actions.push(InteractorAction::Stop);
                    self.phase = Phase::Closed;
                },
            },
            Phase::Running => match event {
                InteractorEvent::FromClient(message) => {
                    actions.push(InteractorAction::SendToHub(ClientEvent::Message { id: self.id.clone(), message }));
                },
                InteractorEvent::ToClient(message) => {
                    actions.push(InteractorAction::WriteToClient(message));
                },
                InteractorEvent::Authenticated(_) => {},
                _ => {
                    actions.push(InteractorAction::SendToHub(ClientEvent::Close { id: self.id.clone() }));
                    actions.push(InteractorAction::Stop);
                    self.phase = Phase::Closed;
                    assert(is_close_for(actions@[0], old(self).id@));
                },
            },
        }
        actions
    }
}

} // verus!
