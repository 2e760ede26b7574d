//! A run as a whole: the coordinator, its participants and its clients,
//! joined by channels.
//!
//! Nothing here is executed. The roles take their steps in any order that
//! the channels allow; votes may be lost on the way, and may come after
//! the window in which they were waited for.

use vstd::prelude::*;
use crate::client::{ClientAction, ClientEvent, ClientView};
use crate::coordinator::{CoordinatorAction, CoordinatorView};
use crate::message::ProtocolMessage;
use crate::participant::{ParticipantAction, ParticipantView};

verus! {


/// The roles of a run and what is on its way between them.
pub struct System {
    /// How many requests each client is to send.
    pub n_requests: nat,
    pub coordinator: CoordinatorView,
    pub participants: Seq<ParticipantView>,
    pub clients: Seq<ClientView>,
    /// The requests that clients sent and the coordinator has not taken.
    pub requests: Seq<ProtocolMessage>,
    /// The votes that got through and that the coordinator has not counted.
    pub votes: Seq<ProtocolMessage>,
    /// For each participant, what the coordinator sent it and it has not
    /// taken.
    pub to_participants: Seq<Seq<ProtocolMessage>>,
    /// For each client, what the coordinator sent it and it has not taken.
    pub to_clients: Seq<Seq<ProtocolMessage>>,
}

/// One step of one role.
pub enum Move {
    /// The client with this index sends its next request.
    ClientSends(int),
    /// The client with this index takes the oldest message sent to it.
    ClientHears(int),
    /// The client with this index sees the stop signal.
    ClientStops(int),
    /// The coordinator takes the oldest request.
    CoordinatorTakes,
    /// The coordinator's vote window closes when this many of the votes on
    /// their way have arrived.
    CoordinatorCounts(int),
    /// The coordinator takes its next step.
    CoordinatorAdvances,
    /// The coordinator sees the stop signal.
    CoordinatorStops,
    /// The participant with this index takes the oldest message sent to it.
    ParticipantHears(int),
    /// The participant with this index takes its next step, with these two
    /// draws.
    ParticipantAdvances(int, nat, nat),
}

/// The boxes with one more message in the box `to`, if there is such a box.
pub open spec fn post(boxes: Seq<Seq<ProtocolMessage>>, to: int, m: ProtocolMessage) -> Seq<
    Seq<ProtocolMessage>,
> {
    if 0 <= to < boxes.len() {
        boxes.update(to, boxes[to].push(m))
    } else {
        boxes
    }
}

/// The participants' boxes once the coordinator's actions were carried out.
pub open spec fn to_participants_after(
    actions: Seq<CoordinatorAction>,
    boxes: Seq<Seq<ProtocolMessage>>,
) -> Seq<Seq<ProtocolMessage>>
    decreases actions.len(),
{
    if actions.len() == 0 {
        boxes
    } else {
        let before = to_participants_after(actions.drop_last(), boxes);
        match actions.last() {
            CoordinatorAction::ToParticipant(p, m) => post(before, p as int, m),
            _ => before,
        }
    }
}

/// The clients' boxes once the coordinator's actions were carried out.
pub open spec fn to_clients_after(
    actions: Seq<CoordinatorAction>,
    boxes: Seq<Seq<ProtocolMessage>>,
) -> Seq<Seq<ProtocolMessage>>
    decreases actions.len(),
{
    if actions.len() == 0 {
        boxes
    } else {
        let before = to_clients_after(actions.drop_last(), boxes);
        match actions.last() {
            CoordinatorAction::ToClient(c, m) => post(before, c as int, m),
            _ => before,
        }
    }
}

/// What the actions of a client or a participant send, in order.
pub open spec fn client_sends(actions: Seq<ClientAction>) -> Seq<ProtocolMessage>
    decreases actions.len(),
{
    if actions.len() == 0 {
        Seq::empty()
    } else {
        match actions.last() {
            ClientAction::Send(m) => client_sends(actions.drop_last()).push(m),
            _ => client_sends(actions.drop_last()),
        }
    }
}

/// What the actions of a participant send, in order.
pub open spec fn participant_sends(actions: Seq<ParticipantAction>) -> Seq<ProtocolMessage>
    decreases actions.len(),
{
    if actions.len() == 0 {
        Seq::empty()
    } else {
        match actions.last() {
            ParticipantAction::Send(m) => participant_sends(actions.drop_last()).push(m),
            _ => participant_sends(actions.drop_last()),
        }
    }
}

impl System {
    /// The number of requests that the coordinator is to handle.
    pub open spec fn num_tasks(self) -> nat {
        self.clients.len() * self.n_requests
    }

    /// The start of a run: every role is as it is made, every participant
    /// and client has joined under its index, and nothing was sent.
    pub open spec fn starts(self) -> bool {
        &&& self.n_requests <= u32::MAX
        &&& self.clients.len() <= u32::MAX
        &&& self.participants.len() <= u32::MAX
        &&& self.coordinator == (CoordinatorView {
            participants: self.participants.len(),
            clients: self.clients.len(),
            ..CoordinatorView::initial()
        })
        &&& forall|p: int|
            0 <= p < self.participants.len() ==> #[trigger] self.participants[p]
                == ParticipantView::initial(
                self.participants[p].id,
                p as nat,
                self.participants[p].send_success,
                self.participants[p].operation_success,
            )
        &&& forall|c: int|
            0 <= c < self.clients.len() ==> #[trigger] self.clients[c] == ClientView::initial(
                self.clients[c].id,
                c as nat,
            )
        &&& self.requests == Seq::<ProtocolMessage>::empty()
        &&& self.votes == Seq::<ProtocolMessage>::empty()
        &&& self.to_participants == Seq::new(
            self.participants.len(),
            |p: int| Seq::<ProtocolMessage>::empty(),
        )
        &&& self.to_clients == Seq::new(
            self.clients.len(),
            |c: int| Seq::<ProtocolMessage>::empty(),
        )
    }

    /// The run after the coordinator took a step that asked for these
    /// actions.
    pub open spec fn coordinator_moved(
        self,
        after: CoordinatorView,
        actions: Seq<CoordinatorAction>,
    ) -> System {
        System {
            coordinator: after,
            to_participants: to_participants_after(actions, self.to_participants),
            to_clients: to_clients_after(actions, self.to_clients),
            ..self
        }
    }

    /// The run after one move. A move that cannot be made, because there is
    /// no such role, nothing for it to take, or because the role refuses,
    /// leaves the run as it was.
    pub open spec fn moved(self, mv: Move) -> System {
        match mv {
            Move::ClientSends(c) => if 0 <= c < self.clients.len() {
                match self.clients[c].step(self.n_requests, ClientEvent::Advance) {
                    Ok((after, actions)) => System {
                        clients: self.clients.update(c, after),
                        requests: self.requests + client_sends(actions),
                        ..self
                    },
                    Err(_) => self,
                }
            } else {
                self
            },
            Move::ClientHears(c) => if 0 <= c < self.clients.len() && c < self.to_clients.len()
                && self.to_clients[c].len() > 0 {
                match self.clients[c].step(
                    self.n_requests,
                    ClientEvent::Result(self.to_clients[c][0]),
                ) {
                    Ok((after, actions)) => System {
                        clients: self.clients.update(c, after),
                        to_clients: self.to_clients.update(c, self.to_clients[c].drop_first()),
                        requests: self.requests + client_sends(actions),
                        ..self
                    },
                    Err(_) => self,
                }
            } else {
                self
            },
            Move::ClientStops(c) => if 0 <= c < self.clients.len() {
                match self.clients[c].step(self.n_requests, ClientEvent::Stop) {
                    Ok((after, actions)) => System {
                        clients: self.clients.update(c, after),
                        requests: self.requests + client_sends(actions),
                        ..self
                    },
                    Err(_) => self,
                }
            } else {
                self
            },
            Move::CoordinatorTakes => if self.requests.len() > 0 {
                match self.coordinator.on_request(self.num_tasks(), self.requests[0]) {
                    Ok((after, actions)) => System {
                        requests: self.requests.drop_first(),
                        ..self.coordinator_moved(after, actions)
                    },
                    Err(_) => self,
                }
            } else {
                self
            },
            Move::CoordinatorCounts(k) => if 0 <= k <= self.votes.len() {
                match self.coordinator.on_votes(self.votes.subrange(0, k)) {
                    Ok((after, actions)) => System {
                        votes: self.votes.subrange(k, self.votes.len() as int),
                        ..self.coordinator_moved(after, actions)
                    },
                    Err(_) => self,
                }
            } else {
                self
            },
            Move::CoordinatorAdvances => match self.coordinator.on_advance() {
                Ok((after, actions)) => self.coordinator_moved(after, actions),
                Err(_) => self,
            },
            Move::CoordinatorStops => match self.coordinator.on_stop() {
                Ok((after, actions)) => self.coordinator_moved(after, actions),
                Err(_) => self,
            },
            Move::ParticipantHears(p) => if 0 <= p < self.participants.len() && p
                < self.to_participants.len() && self.to_participants[p].len() > 0 {
                match self.participants[p].on_message(self.to_participants[p][0]) {
                    Ok((after, actions)) => System {
                        participants: self.participants.update(p, after),
                        to_participants: self.to_participants.update(
                            p,
                            self.to_participants[p].drop_first(),
                        ),
                        votes: self.votes + participant_sends(actions),
                        ..self
                    },
                    Err(_) => self,
                }
            } else {
                self
            },
            Move::ParticipantAdvances(p, op_draw, send_draw) => if 0 <= p
                < self.participants.len() {
                match self.participants[p].on_advance(op_draw, send_draw) {
                    Ok((after, actions)) => System {
                        participants: self.participants.update(p, after),
                        votes: self.votes + participant_sends(actions),
                        ..self
                    },
                    Err(_) => self,
                }
            } else {
                self
            },
        }
    }

    /// The run after the moves were made one after the other.
    pub open spec fn after(self, moves: Seq<Move>) -> System
        decreases moves.len(),
    {
        if moves.len() == 0 {
            self
        } else {
            self.after(moves.drop_last()).moved(moves.last())
        }
    }
}

} // verus!
