//! The participant: it votes on each proposal, and applies each decision.
//!
//! A participant stands for a resource manager that may refuse an operation,
//! behind a link that may lose what it sends. Both are a matter of chance:
//! an operation succeeds, and a vote gets through, with a configured
//! probability.

use vstd::prelude::*;
use crate::message::{MessageType, ProtocolMessage, ProtocolViolation};
use crate::oplog::{
    count_kind, lemma_count_kind_push, lemma_count_two_kinds_bound, outstanding, LogRecord, OpLog,
    RunTally,
};

verus! {

/// Probabilities are given in millionths: `PROBABILITY_SCALE` is certainty.
pub const PROBABILITY_SCALE: u32 = 1_000_000;

/// Where the participant stands in the handling of one transaction.
#[derive(Clone, Copy, Debug, PartialEq, Eq, Structural)]
pub enum ParticipantState {
    /// Between two transactions.
    Idle,
    /// A proposal was taken and is not yet voted on.
    ProposalReceived,
    /// The vote is cast, and the decision is waited for.
    Voted,
    /// The decision was taken in and is not yet logged.
    DecisionApplied,
    /// The coordinator said to exit.
    Terminated,
}

/// One thing that the participant asks its caller to do, in the order
/// given: a record is on stable storage before a later message leaves.
#[derive(Clone, Copy, Debug, PartialEq, Eq, Structural)]
pub enum ParticipantAction {
    /// Append the record to the participant's log.
    Log(LogRecord),
    /// Send the message to the coordinator.
    Send(ProtocolMessage),
}

/// What the participant needs from its caller before it can go on.
#[derive(Clone, Copy, Debug, PartialEq, Eq, Structural)]
pub enum ParticipantWait {
    /// The next message from the coordinator.
    Message,
    /// Nothing from outside: the next step can be taken at once.
    Advance,
    /// Nothing more: the participant has terminated.
    Nothing,
}

/// What happened outside the participant.
#[derive(Clone, Copy, Debug, PartialEq, Eq, Structural)]
pub enum ParticipantEvent {
    /// This message arrived from the coordinator.
    Message(ProtocolMessage),
    /// Nothing: take the next step.
    Advance,
}

/// The participant as a mathematical value.
pub struct ParticipantView {
    pub id: Seq<char>,
    /// The participant's index at the coordinator.
    pub num: nat,
    pub state: ParticipantState,
    pub log: Seq<LogRecord>,
    /// The proposal in hand, or the one handled last.
    pub proposal: ProtocolMessage,
    /// The decision taken in, or the one applied last.
    pub decision: MessageType,
    /// In millionths, how likely a vote is to reach the coordinator.
    pub send_success: nat,
    /// In millionths, how likely an operation is to succeed.
    pub operation_success: nat,
}

impl ParticipantView {
    /// The participant before its first proposal.
    pub open spec fn initial(
        id: Seq<char>,
        num: nat,
        send_success: nat,
        operation_success: nat,
    ) -> ParticipantView {
        ParticipantView {
            id,
            num,
            state: ParticipantState::Idle,
            log: Seq::empty(),
            proposal: ProtocolMessage {
                mtype: MessageType::CoordinatorPropose,
                txid: crate::message::TxId { client: 0, seq: 0 },
                senderid: num as u32,
                opid: 0,
            },
            decision: MessageType::CoordinatorAbort,
            send_success,
            operation_success,
        }
    }

    /// What the participant waits for.
    pub open spec fn awaiting(self) -> ParticipantWait {
        match self.state {
            ParticipantState::Idle | ParticipantState::Voted => ParticipantWait::Message,
            ParticipantState::ProposalReceived
            | ParticipantState::DecisionApplied => ParticipantWait::Advance,
            ParticipantState::Terminated => ParticipantWait::Nothing,
        }
    }

    /// The record of the transaction in hand, of the given kind, under this
    /// participant's index.
    pub open spec fn record(self, kind: MessageType) -> LogRecord {
        ProtocolMessage {
            mtype: kind,
            txid: self.proposal.txid,
            senderid: self.num as u32,
            opid: self.proposal.opid,
        }
    }

    /// The vote policy: the operation succeeds, and the vote is to commit,
    /// when the draw falls below the configured probability.
    pub open spec fn vote_kind(self, op_draw: nat) -> MessageType {
        if op_draw < self.operation_success {
            MessageType::ParticipantVoteCommit
        } else {
            MessageType::ParticipantVoteAbort
        }
    }

    /// ProposalReceived to Voted: the vote is logged; then it is sent, unless
    /// the link loses it.
    pub open spec fn vote(self, op_draw: nat, send_draw: nat) -> (
        ParticipantView,
        Seq<ParticipantAction>,
    ) {
        let rec = self.record(self.vote_kind(op_draw));
        (
            ParticipantView { state: ParticipantState::Voted, log: self.log.push(rec), ..self },
            if send_draw < self.send_success {
                seq![ParticipantAction::Log(rec), ParticipantAction::Send(rec)]
            } else {
                seq![ParticipantAction::Log(rec)]
            },
        )
    }

    /// DecisionApplied to Idle: the outcome is logged.
    pub open spec fn record_outcome(self) -> (ParticipantView, Seq<ParticipantAction>) {
        let rec = self.record(self.decision);
        (
            ParticipantView { state: ParticipantState::Idle, log: self.log.push(rec), ..self },
            seq![ParticipantAction::Log(rec)],
        )
    }

    /// The step taken on a message from the coordinator.
    pub open spec fn on_message(self, m: ProtocolMessage) -> Result<
        (ParticipantView, Seq<ParticipantAction>),
        ProtocolViolation,
    > {
        if self.awaiting() != ParticipantWait::Message {
            Err(ProtocolViolation::UnexpectedEvent)
        } else if m.mtype == MessageType::CoordinatorExit {
            Ok((ParticipantView { state: ParticipantState::Terminated, ..self }, Seq::empty()))
        } else if self.state == ParticipantState::Idle && m.mtype
            == MessageType::CoordinatorPropose {
            Ok(
                (
                    ParticipantView {
                        state: ParticipantState::ProposalReceived,
                        proposal: m,
                        ..self
                    },
                    Seq::empty(),
                ),
            )
        } else if self.state == ParticipantState::Voted && m.mtype.is_decision() && m.txid
            == self.proposal.txid {
            Ok(
                (
                    ParticipantView {
                        state: ParticipantState::DecisionApplied,
                        decision: m.mtype,
                        ..self
                    },
                    Seq::empty(),
                ),
            )
        } else {
            Err(ProtocolViolation::UnexpectedMessage)
        }
    }

    /// The step taken without anything from outside. The two draws are used
    /// when the step is a vote.
    pub open spec fn on_advance(self, op_draw: nat, send_draw: nat) -> Result<
        (ParticipantView, Seq<ParticipantAction>),
        ProtocolViolation,
    > {
        match self.state {
            ParticipantState::ProposalReceived => Ok(self.vote(op_draw, send_draw)),
            ParticipantState::DecisionApplied => Ok(self.record_outcome()),
            _ => Err(ProtocolViolation::UnexpectedEvent),
        }
    }

    /// The participant's transition function for given draws: the state
    /// after the event and the actions asked for, or the reason why the
    /// event is refused.
    pub open spec fn step(self, event: ParticipantEvent, op_draw: nat, send_draw: nat) -> Result<
        (ParticipantView, Seq<ParticipantAction>),
        ProtocolViolation,
    > {
        match event {
            ParticipantEvent::Message(m) => self.on_message(m),
            ParticipantEvent::Advance => self.on_advance(op_draw, send_draw),
        }
    }

    /// The tally of the participant's log: the decisions applied, and the
    /// votes cast on which no decision came.
    pub open spec fn tally(self) -> (nat, nat, nat) {
        let committed = count_kind(self.log, MessageType::CoordinatorCommit);
        let aborted = count_kind(self.log, MessageType::CoordinatorAbort);
        let voted = count_kind(self.log, MessageType::ParticipantVoteCommit) + count_kind(
            self.log,
            MessageType::ParticipantVoteAbort,
        );
        (committed, aborted, outstanding(voted, committed + aborted))
    }
}

/// The step `expected` was taken from `pre`: where it is a move, the role is
/// now in the state moved to and `r` holds the actions asked for; where it
/// is a refusal, the role is as it was and `r` holds the reason.
pub open spec fn taken(
    expected: Result<(ParticipantView, Seq<ParticipantAction>), ProtocolViolation>,
    pre: ParticipantView,
    post: ParticipantView,
    r: Result<Vec<ParticipantAction>, ProtocolViolation>,
) -> bool {
    match expected {
        Ok((next, actions)) => r matches Ok(out) && out@ == actions && post == next,
        Err(e) => r == Err::<Vec<ParticipantAction>, ProtocolViolation>(e) && post == pre,
    }
}

/// Write-ahead logging. Whatever step the participant takes, what it
/// sends is a vote that the same step logged first, and its log grows by
/// exactly the records that the step asks to log.
pub proof fn lemma_vote_logged_first(
    v: ParticipantView,
    event: ParticipantEvent,
    op_draw: nat,
    send_draw: nat,
)
    requires
        v.step(event, op_draw, send_draw) is Ok,
    ensures
        ({
            let (after, actions) = v.step(event, op_draw, send_draw)->Ok_0;
            &&& forall|j: int|
                0 <= j < actions.len() && #[trigger] actions[j] is Send ==> {
                    &&& j == 1
                    &&& actions[0] == ParticipantAction::Log(actions[j]->Send_0)
                    &&& (actions[j]->Send_0).mtype.is_vote()
                    &&& (actions[j]->Send_0).txid == v.proposal.txid
                    &&& (actions[j]->Send_0).senderid == v.num as u32
                }
            &&& actions.len() == 0 ==> after.log == v.log
            &&& actions.len() > 0 ==> actions[0] is Log && after.log == v.log.push(
                actions[0]->Log_0,
            )
        }),
{
}

impl ParticipantView {
    /// How many votes the log holds.
    pub open spec fn votes_cast(self) -> nat {
        count_kind(self.log, MessageType::ParticipantVoteCommit) + count_kind(
            self.log,
            MessageType::ParticipantVoteAbort,
        )
    }

    /// How many outcomes the log holds.
    pub open spec fn outcomes(self) -> nat {
        count_kind(self.log, MessageType::CoordinatorCommit) + count_kind(
            self.log,
            MessageType::CoordinatorAbort,
        )
    }

    /// What holds of a participant's log at all times: it holds an outcome
    /// for every vote, but for the one vote on which the decision may still
    /// be out.
    pub open spec fn tallied(self) -> bool {
        &&& self.outcomes() <= self.votes_cast() <= self.outcomes() + 1
        &&& self.state == ParticipantState::Idle || self.state
            == ParticipantState::ProposalReceived ==> self.votes_cast() == self.outcomes()
        &&& self.state == ParticipantState::Voted || self.state
            == ParticipantState::DecisionApplied ==> self.votes_cast() == self.outcomes() + 1
        &&& self.state == ParticipantState::DecisionApplied ==> self.decision.is_decision()
    }
}

/// One step keeps what holds of a participant's log at all times.
pub proof fn lemma_step_tallied(
    v: ParticipantView,
    event: ParticipantEvent,
    op_draw: nat,
    send_draw: nat,
)
    requires
        v.tallied(),
    ensures
        v.step(event, op_draw, send_draw) matches Ok((after, _)) ==> after.tallied(),
{
    match v.step(event, op_draw, send_draw) {
        Ok((after, _)) => {
            if event is Advance {
                let rec = after.log[after.log.len() - 1];
                assert(after.log =~= v.log.push(rec));
                lemma_count_kind_push(v.log, rec, MessageType::ParticipantVoteCommit);
                lemma_count_kind_push(v.log, rec, MessageType::ParticipantVoteAbort);
                lemma_count_kind_push(v.log, rec, MessageType::CoordinatorCommit);
                lemma_count_kind_push(v.log, rec, MessageType::CoordinatorAbort);
            }
        },
        Err(_) => {},
    }
}

/// The participant's tally. Where what holds of a participant's log at all
/// times holds, the committed, the aborted and the unknown transactions that
/// it reports are together as many as the votes that it cast, and at most
/// one is unknown: the one on which the decision is still out.
pub proof fn lemma_tally_accounts(v: ParticipantView)
    requires
        v.tallied(),
    ensures
        ({
            let (committed, aborted, unknown) = v.tally();
            &&& committed + aborted + unknown == v.votes_cast()
            &&& unknown <= 1
        }),
{
}

/// A number below `bound`, drawn by `rand::Rng::gen_range` from the
/// generator that `rand::thread_rng` hands out, over the range from zero up
/// to, and without, `bound`. The range must not be empty. The contract is
/// not proved; it claims only that the number lies in the range: which one
/// it is is a matter of chance.
#[verifier::external_body]
fn random_below(bound: u32) -> (r: u32)
    requires
        bound > 0,
    ensures
        r < bound,
{
    rand::Rng::gen_range(&mut rand::thread_rng(), 0..bound)
}

/// One participant of a run.
#[derive(Debug)]
pub struct Participant {
    id_str: String,
    num: u32,
    state: ParticipantState,
    log: OpLog,
    proposal: ProtocolMessage,
    decision: MessageType,
    send_success: u32,
    operation_success: u32,
}

impl View for Participant {
    type V = ParticipantView;

    closed spec fn view(&self) -> ParticipantView {
        ParticipantView {
            id: self.id_str@,
            num: self.num as nat,
            state: self.state,
            log: self.log@,
            proposal: self.proposal,
            decision: self.decision,
            send_success: self.send_success as nat,
            operation_success: self.operation_success as nat,
        }
    }
}

impl Participant {
    /// A participant that has seen no proposal yet, with an empty log for
    /// the given storage location. `num` is its index at the coordinator.
    /// The two probabilities are in millionths; anything from
    /// `PROBABILITY_SCALE` up is certainty.
    pub fn new(
        id_str: String,
        num: u32,
        log_path: String,
        send_success_prob: u32,
        operation_success_prob: u32,
    ) -> (p: Participant)
        ensures
            p@ == ParticipantView::initial(
                id_str@,
                num as nat,
                send_success_prob as nat,
                operation_success_prob as nat,
            ),
            p.log_location() == log_path@,
    {
        Participant {
            id_str,
            num,
            state: ParticipantState::Idle,
            log: OpLog::new(log_path),
            proposal: ProtocolMessage::generate(
                MessageType::CoordinatorPropose,
                crate::message::TxId::new(0, 0),
                num,
                0,
            ),
            decision: MessageType::CoordinatorAbort,
            send_success: send_success_prob,
            operation_success: operation_success_prob,
        }
    }

    /// The storage location of the participant's log.
    pub closed spec fn log_location(&self) -> Seq<char> {
        self.log.location()
    }

    /// The participant's name.
    pub fn id_str(&self) -> (id: &String)
        ensures
            id@ == self@.id,
    {
        &self.id_str
    }

    /// The participant's index at the coordinator.
    pub fn num(&self) -> (n: u32)
        ensures
            n == self@.num,
    {
        self.num
    }

    /// Where the participant stands.
    pub fn state(&self) -> (s: ParticipantState)
        ensures
            s == self@.state,
    {
        self.state
    }

    /// The participant's log.
    pub fn log(&self) -> (log: &OpLog)
        ensures
            log@ == self@.log,
            log.location() == self.log_location(),
    {
        &self.log
    }

    /// What the participant needs next.
    pub fn awaiting(&self) -> (w: ParticipantWait)
        ensures
            w == self@.awaiting(),
    {
        match self.state {
            ParticipantState::Idle | ParticipantState::Voted => ParticipantWait::Message,
            ParticipantState::ProposalReceived
            | ParticipantState::DecisionApplied => ParticipantWait::Advance,
            ParticipantState::Terminated => ParticipantWait::Nothing,
        }
    }

    /// The decisions that this participant applied, and the votes that it
    /// cast without seeing a decision, counted from the log.
    pub fn report_status(&self) -> (t: RunTally)
        ensures
            t.counts() == self@.tally(),
    {
        let committed = self.log.count(MessageType::CoordinatorCommit);
        let aborted = self.log.count(MessageType::CoordinatorAbort);
        let yes = self.log.count(MessageType::ParticipantVoteCommit);
        let no = self.log.count(MessageType::ParticipantVoteAbort);
        proof {
            lemma_count_two_kinds_bound(
                self.log@,
                MessageType::CoordinatorCommit,
                MessageType::CoordinatorAbort,
            );
            lemma_count_two_kinds_bound(
                self.log@,
                MessageType::ParticipantVoteCommit,
                MessageType::ParticipantVoteAbort,
            );
        }
        let voted = yes + no;
        let closed = committed + aborted;
        let unknown = if voted >= closed {
            voted - closed
        } else {
            0
        };
        RunTally { committed, aborted, unknown }
    }

    /// Takes one step of the protocol with the two draws given: the
    /// participant moves to its next state and returns what it asks its
    /// caller to do, in order. An event that does not fit is refused, and
    /// the participant stays as it was.
    pub fn protocol_with(&mut self, event: ParticipantEvent, op_draw: u32, send_draw: u32) -> (r:
        Result<Vec<ParticipantAction>, ProtocolViolation>)
        ensures
            taken(
                old(self)@.step(event, op_draw as nat, send_draw as nat),
                old(self)@,
                final(self)@,
                r,
            ),
            final(self).log_location() == old(self).log_location(),
    {
        let mut out: Vec<ParticipantAction> = Vec::new();
        match event {
            ParticipantEvent::Message(m) => {
                match self.state {
                    ParticipantState::Idle | ParticipantState::Voted => {},
                    _ => {
                        return Err(ProtocolViolation::UnexpectedEvent);
                    },
                }
                if m.mtype == MessageType::CoordinatorExit {
                    self.state = ParticipantState::Terminated;
                } else if self.state == ParticipantState::Idle && m.mtype
                    == MessageType::CoordinatorPropose {
                    self.proposal = m;
                    self.state = ParticipantState::ProposalReceived;
                } else if self.state == ParticipantState::Voted && m.mtype.decision() && m.txid
                    == self.proposal.txid {
                    self.decision = m.mtype;
                    self.state = ParticipantState::DecisionApplied;
                } else {
                    return Err(ProtocolViolation::UnexpectedMessage);
                }
            },
            ParticipantEvent::Advance => {
                match self.state {
                    ParticipantState::ProposalReceived => {
                        let kind = if op_draw < self.operation_success {
                            MessageType::ParticipantVoteCommit
                        } else {
                            MessageType::ParticipantVoteAbort
                        };
                        let rec = self.log.append(
                            kind,
                            self.proposal.txid,
                            self.num,
                            self.proposal.opid,
                        );
                        out.push(ParticipantAction::Log(rec));
                        if send_draw < self.send_success {
                            out.push(ParticipantAction::Send(rec));
                        }
                        self.state = ParticipantState::Voted;
                    },
                    ParticipantState::DecisionApplied => {
                        let rec = self.log.append(
                            self.decision,
                            self.proposal.txid,
                            self.num,
                            self.proposal.opid,
                        );
                        out.push(ParticipantAction::Log(rec));
                        self.state = ParticipantState::Idle;
                    },
                    _ => {
                        return Err(ProtocolViolation::UnexpectedEvent);
                    },
                }
            },
        }
        proof {
            assert(out@ =~= old(self)@.step(event, op_draw as nat, send_draw as nat)->Ok_0.1);
        }
        Ok(out)
    }

    /// Takes one step of the protocol. Where the step is a vote, chance
    /// decides whether the operation succeeds and whether the vote gets
    /// through: the step is the one that `protocol_with` takes for some two
    /// draws below `PROBABILITY_SCALE`.
    pub fn protocol(&mut self, event: ParticipantEvent) -> (r: Result<
        Vec<ParticipantAction>,
        ProtocolViolation,
    >)
        ensures
            exists|op_draw: nat, send_draw: nat|
                op_draw < PROBABILITY_SCALE && send_draw < PROBABILITY_SCALE && taken(
                    #[trigger] old(self)@.step(event, op_draw, send_draw),
                    old(self)@,
                    final(self)@,
                    r,
                ),
            final(self).log_location() == old(self).log_location(),
    {
        let voting = self.state == ParticipantState::ProposalReceived;
        let op_draw = if voting {
            random_below(PROBABILITY_SCALE)
        } else {
            0
        };
        let send_draw = if voting {
            random_below(PROBABILITY_SCALE)
        } else {
            0
        };
        let r = self.protocol_with(event, op_draw, send_draw);
        proof {
            assert(taken(
                old(self)@.step(event, op_draw as nat, send_draw as nat),
                old(self)@,
                self@,
                r,
            ));
        }
        r
    }
}

} // verus!
