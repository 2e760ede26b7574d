//! The values that travel between the roles.

use vstd::prelude::*;

verus! {

/// What a message announces.
#[derive(Clone, Copy, Debug, PartialEq, Eq, Hash, Structural)]
pub enum MessageType {
    /// A client asks the coordinator for a transaction.
    ClientRequest,
    /// The coordinator asks a participant to vote.
    CoordinatorPropose,
    /// A participant is able to commit.
    ParticipantVoteCommit,
    /// A participant refuses.
    ParticipantVoteAbort,
    /// The coordinator's decision: abort everywhere.
    CoordinatorAbort,
    /// The coordinator's decision: commit everywhere.
    CoordinatorCommit,
    /// The outcome told to the client: committed.
    ClientResultCommit,
    /// The outcome told to the client: aborted.
    ClientResultAbort,
    /// The coordinator is shutting down.
    CoordinatorExit,
}

/// How a transaction ended, as one role saw it.
#[derive(Clone, Copy, Debug, PartialEq, Eq, Hash, Structural)]
pub enum RequestStatus {
    /// The transaction was committed.
    Committed,
    /// The transaction was aborted.
    Aborted,
    /// Neither is known.
    Unknown,
}

/// Why a role refuses an event. A role that has refused is left as it was;
/// its process is expected to stop.
#[derive(Clone, Copy, Debug, PartialEq, Eq, Hash, Structural)]
pub enum ProtocolViolation {
    /// The event cannot be taken in the state that the role is in.
    UnexpectedEvent,
    /// The message is of a kind that the role does not take in its state.
    UnexpectedMessage,
    /// The message names a sender that never joined.
    UnknownSender,
}

/// The identity of a transaction: the client that asked for it and the
/// position of the request in that client's stream.
#[derive(Clone, Copy, Debug, PartialEq, Eq, Hash, Structural)]
pub struct TxId {
    pub client: u32,
    pub seq: u32,
}

/// One protocol event. A message is built once and never changed.
#[derive(Clone, Copy, Debug, PartialEq, Eq, Hash, Structural)]
pub struct ProtocolMessage {
    pub mtype: MessageType,
    pub txid: TxId,
    /// The participant or client that the message is from or about.
    pub senderid: u32,
    /// The sequence number of the operation.
    pub opid: u32,
}

impl MessageType {
    /// A participant's answer to a proposal.
    pub open spec fn is_vote(self) -> bool {
        self == MessageType::ParticipantVoteCommit || self == MessageType::ParticipantVoteAbort
    }

    /// The coordinator's terminal decision on a transaction.
    pub open spec fn is_decision(self) -> bool {
        self == MessageType::CoordinatorCommit || self == MessageType::CoordinatorAbort
    }

    /// The outcome as the coordinator tells it to the client.
    pub open spec fn is_result(self) -> bool {
        self == MessageType::ClientResultCommit || self == MessageType::ClientResultAbort
    }

    /// The outcome that a decision or a result stands for; `Unknown` for
    /// every other kind.
    pub open spec fn status(self) -> RequestStatus {
        match self {
            MessageType::CoordinatorCommit | MessageType::ClientResultCommit => {
                RequestStatus::Committed
            },
            MessageType::CoordinatorAbort | MessageType::ClientResultAbort => RequestStatus::Aborted,
            _ => RequestStatus::Unknown,
        }
    }

    /// Whether the kind is a participant's answer to a proposal.
    pub fn vote(self) -> (b: bool)
        ensures
            b == self.is_vote(),
    {
        match self {
            MessageType::ParticipantVoteCommit | MessageType::ParticipantVoteAbort => true,
            _ => false,
        }
    }

    /// Whether the kind is a decision of the coordinator.
    pub fn decision(self) -> (b: bool)
        ensures
            b == self.is_decision(),
    {
        match self {
            MessageType::CoordinatorCommit | MessageType::CoordinatorAbort => true,
            _ => false,
        }
    }

    /// Whether the kind is an outcome told to a client.
    pub fn result(self) -> (b: bool)
        ensures
            b == self.is_result(),
    {
        match self {
            MessageType::ClientResultCommit | MessageType::ClientResultAbort => true,
            _ => false,
        }
    }

    /// The outcome that a decision or a result stands for; `Unknown` for
    /// every other kind.
    pub fn outcome(self) -> (s: RequestStatus)
        ensures
            s == self.status(),
    {
        match self {
            MessageType::CoordinatorCommit | MessageType::ClientResultCommit => {
                RequestStatus::Committed
            },
            MessageType::CoordinatorAbort | MessageType::ClientResultAbort => RequestStatus::Aborted,
            _ => RequestStatus::Unknown,
        }
    }
}

impl TxId {
    /// The identity of the request with this number of this client.
    pub fn new(client: u32, seq: u32) -> (id: TxId)
        ensures
            id == (TxId { client, seq }),
    {
        TxId { client, seq }
    }
}

impl ProtocolMessage {
    /// Builds a message from its four parts. Nothing is checked here: whether
    /// the message makes sense is for the role that receives it to say.
    pub fn generate(mtype: MessageType, txid: TxId, senderid: u32, opid: u32) -> (m:
        ProtocolMessage)
        ensures
            m == (ProtocolMessage { mtype, txid, senderid, opid }),
    {
        ProtocolMessage { mtype, txid, senderid, opid }
    }
}

} // verus!
