//! The coordinator: it takes one request at a time, asks every participant
//! to vote, decides, and tells everybody.

use vstd::prelude::*;
use crate::message::{MessageType, ProtocolMessage, ProtocolViolation, TxId};
use crate::oplog::{count_kind, lemma_count_kind_push, tally_of, LogRecord, OpLog, RunTally};

verus! {

/// Where the coordinator stands in the handling of one transaction.
#[derive(Clone, Copy, Debug, PartialEq, Eq, Structural)]
pub enum CoordinatorState {
    /// Between two transactions.
    Quiescent,
    /// A request was taken and is not yet proposed.
    ReceivedRequest,
    /// The proposal is out, and the votes are waited for.
    ProposalSent,
    /// The votes are counted: the transaction is to be aborted.
    ReceivedVotesAbort,
    /// The votes are counted: the transaction is to be committed.
    ReceivedVotesCommit,
    /// The decision is out, and the client is not yet told.
    SentGlobalDecision,
}

/// One thing that the coordinator asks its caller to do. The caller does
/// them in the order given, and goes on to the next only when the one before
/// is done: a record is on stable storage before a later message leaves.
#[derive(Clone, Copy, Debug, PartialEq, Eq, Structural)]
pub enum CoordinatorAction {
    /// Append the record to the coordinator's log.
    Log(LogRecord),
    /// Send the message to the participant with this index.
    ToParticipant(u32, ProtocolMessage),
    /// Send the message to the client with this index.
    ToClient(u32, ProtocolMessage),
}

/// What the coordinator needs from its caller before it can go on.
#[derive(Clone, Copy, Debug, PartialEq, Eq, Structural)]
pub enum CoordinatorWait {
    /// The next client request, or the stop signal if that comes first.
    Request,
    /// The votes that arrive within the vote window. The window is a span of
    /// time that the caller fixes beforehand; it does not grow when a
    /// participant is slow. A vote that comes after it counts as missing, so
    /// that a transaction may be aborted which a longer wait would have seen
    /// committed.
    Votes,
    /// Nothing from outside: the next step can be taken at once.
    Advance,
    /// The stop signal.
    Stop,
    /// Nothing more: the coordinator has finished.
    Nothing,
}

/// What happened outside the coordinator.
#[derive(Clone, Debug)]
pub enum CoordinatorEvent {
    /// This message arrived from a client.
    Request(ProtocolMessage),
    /// The vote window closed, and these messages had arrived from the
    /// participants by then, in this order.
    Votes(Vec<ProtocolMessage>),
    /// Nothing: take the next step.
    Advance,
    /// The stop signal was seen.
    Stop,
}

/// The coordinator as a mathematical value.
pub struct CoordinatorView {
    pub state: CoordinatorState,
    pub log: Seq<LogRecord>,
    /// How many participants have joined.
    pub participants: nat,
    /// How many clients have joined.
    pub clients: nat,
    /// The request that is being handled, or that was handled last.
    pub request: ProtocolMessage,
    /// Whether the transaction that was decided last was committed.
    pub commit: bool,
    /// How many requests were taken so far.
    pub handled: nat,
    /// The stop signal came while a transaction was under way.
    pub stopping: bool,
    /// Everybody was told to exit.
    pub finished: bool,
}

/// The message of the given kind about one transaction, as participant `p`
/// gets it.
pub open spec fn notice(kind: MessageType, txid: TxId, opid: u32, p: int) -> ProtocolMessage {
    ProtocolMessage { mtype: kind, txid, senderid: p as u32, opid }
}

/// The same message to each of `n` participants, lowest index first.
pub open spec fn to_all(kind: MessageType, txid: TxId, opid: u32, n: nat) -> Seq<
    CoordinatorAction,
> {
    Seq::new(n, |p: int| CoordinatorAction::ToParticipant(p as u32, notice(kind, txid, opid, p)))
}

/// The message that tells the role with index `i` to exit.
pub open spec fn exit_notice(i: int) -> ProtocolMessage {
    notice(MessageType::CoordinatorExit, TxId { client: 0, seq: 0 }, 0, i)
}

/// The exit message to each client, then to each participant.
pub open spec fn exit_all(clients: nat, participants: nat) -> Seq<CoordinatorAction> {
    Seq::new(clients, |c: int| CoordinatorAction::ToClient(c as u32, exit_notice(c))) + to_all(
        MessageType::CoordinatorExit,
        TxId { client: 0, seq: 0 },
        0,
        participants,
    )
}

/// The message is participant `p`'s vote to commit the transaction.
pub open spec fn commit_vote(m: ProtocolMessage, txid: TxId, p: nat) -> bool {
    m.mtype == MessageType::ParticipantVoteCommit && m.txid == txid && m.senderid == p
}

/// The message is a vote to abort the transaction.
pub open spec fn abort_vote(m: ProtocolMessage, txid: TxId) -> bool {
    m.mtype == MessageType::ParticipantVoteAbort && m.txid == txid
}

/// Among the first `upto` messages is participant `p`'s vote to commit the
/// transaction.
pub open spec fn voted_commit(votes: Seq<ProtocolMessage>, txid: TxId, p: nat, upto: int) -> bool {
    exists|i: int| 0 <= i < upto && i < votes.len() && commit_vote(#[trigger] votes[i], txid, p)
}

/// Among the first `upto` messages is a vote to abort the transaction.
pub open spec fn voted_abort(votes: Seq<ProtocolMessage>, txid: TxId, upto: int) -> bool {
    exists|i: int| 0 <= i < upto && i < votes.len() && abort_vote(#[trigger] votes[i], txid)
}

/// The decision rule. The transaction commits if and only if each of the `n`
/// participants has a vote to commit it among the messages that arrived, and
/// nobody voted to abort it. A participant whose vote did not arrive counts
/// as one that voted to abort. Votes on other transactions are late answers
/// to proposals that were decided without them, and count for nothing.
pub open spec fn unanimous(votes: Seq<ProtocolMessage>, txid: TxId, n: nat) -> bool {
    &&& forall|p: nat| p < n ==> #[trigger] voted_commit(votes, txid, p, votes.len() as int)
    &&& !voted_abort(votes, txid, votes.len() as int)
}

/// Every message is a vote.
pub open spec fn all_votes(votes: Seq<ProtocolMessage>) -> bool {
    forall|i: int| 0 <= i < votes.len() ==> (#[trigger] votes[i]).mtype.is_vote()
}

impl CoordinatorView {
    /// The coordinator before anybody has joined.
    pub open spec fn initial() -> CoordinatorView {
        CoordinatorView {
            state: CoordinatorState::Quiescent,
            log: Seq::empty(),
            participants: 0,
            clients: 0,
            request: ProtocolMessage {
                mtype: MessageType::ClientRequest,
                txid: TxId { client: 0, seq: 0 },
                senderid: 0,
                opid: 0,
            },
            commit: false,
            handled: 0,
            stopping: false,
            finished: false,
        }
    }

    /// What the coordinator waits for when it is to handle `num_tasks`
    /// requests in all.
    pub open spec fn awaiting(self, num_tasks: nat) -> CoordinatorWait {
        if self.finished {
            CoordinatorWait::Nothing
        } else {
            match self.state {
                CoordinatorState::Quiescent => if self.stopping || self.handled >= num_tasks {
                    CoordinatorWait::Stop
                } else {
                    CoordinatorWait::Request
                },
                CoordinatorState::ProposalSent => CoordinatorWait::Votes,
                _ => CoordinatorWait::Advance,
            }
        }
    }

    /// The record of the transaction in hand, of the given kind.
    pub open spec fn record(self, kind: MessageType) -> LogRecord {
        ProtocolMessage {
            mtype: kind,
            txid: self.request.txid,
            senderid: self.request.senderid,
            opid: self.request.opid,
        }
    }

    /// The same message about the transaction in hand to every participant.
    pub open spec fn broadcast(self, kind: MessageType) -> Seq<CoordinatorAction> {
        to_all(kind, self.request.txid, self.request.opid, self.participants)
    }

    /// Quiescent to ReceivedRequest: the request is taken in hand.
    pub open spec fn receive_request(self, req: ProtocolMessage) -> CoordinatorView {
        CoordinatorView {
            state: CoordinatorState::ReceivedRequest,
            request: req,
            handled: self.handled + 1,
            ..self
        }
    }

    /// ReceivedRequest to ProposalSent: the proposal is logged, then sent to
    /// every participant.
    pub open spec fn send_proposal(self) -> (CoordinatorView, Seq<CoordinatorAction>) {
        let rec = self.record(MessageType::CoordinatorPropose);
        (
            CoordinatorView { state: CoordinatorState::ProposalSent, log: self.log.push(rec), ..self },
            seq![CoordinatorAction::Log(rec)] + self.broadcast(MessageType::CoordinatorPropose),
        )
    }

    /// ProposalSent to ReceivedVotesCommit or ReceivedVotesAbort: the
    /// decision is taken from the votes that arrived.
    pub open spec fn collect_votes(self, votes: Seq<ProtocolMessage>) -> CoordinatorView {
        CoordinatorView {
            state: if unanimous(votes, self.request.txid, self.participants) {
                CoordinatorState::ReceivedVotesCommit
            } else {
                CoordinatorState::ReceivedVotesAbort
            },
            ..self
        }
    }

    /// ReceivedVotesCommit or ReceivedVotesAbort to SentGlobalDecision: the
    /// decision is logged, then sent to every participant.
    pub open spec fn send_decision(self) -> (CoordinatorView, Seq<CoordinatorAction>) {
        let commit = self.state == CoordinatorState::ReceivedVotesCommit;
        let kind = if commit {
            MessageType::CoordinatorCommit
        } else {
            MessageType::CoordinatorAbort
        };
        let rec = self.record(kind);
        (
            CoordinatorView {
                state: CoordinatorState::SentGlobalDecision,
                log: self.log.push(rec),
                commit,
                ..self
            },
            seq![CoordinatorAction::Log(rec)] + self.broadcast(kind),
        )
    }

    /// SentGlobalDecision to Quiescent: the result is logged, then sent to
    /// the client that asked. If the stop signal came in the meantime,
    /// everybody is now told to exit.
    pub open spec fn send_result(self) -> (CoordinatorView, Seq<CoordinatorAction>) {
        let kind = if self.commit {
            MessageType::ClientResultCommit
        } else {
            MessageType::ClientResultAbort
        };
        let rec = self.record(kind);
        let told = seq![
            CoordinatorAction::Log(rec),
            CoordinatorAction::ToClient(self.request.senderid, rec),
        ];
        (
            CoordinatorView {
                state: CoordinatorState::Quiescent,
                log: self.log.push(rec),
                finished: self.stopping,
                ..self
            },
            if self.stopping {
                told + exit_all(self.clients, self.participants)
            } else {
                told
            },
        )
    }

    /// The step taken on a request.
    pub open spec fn on_request(self, num_tasks: nat, req: ProtocolMessage) -> Result<
        (CoordinatorView, Seq<CoordinatorAction>),
        ProtocolViolation,
    > {
        if self.awaiting(num_tasks) != CoordinatorWait::Request {
            Err(ProtocolViolation::UnexpectedEvent)
        } else if req.mtype != MessageType::ClientRequest {
            Err(ProtocolViolation::UnexpectedMessage)
        } else if req.senderid >= self.clients {
            Err(ProtocolViolation::UnknownSender)
        } else {
            Ok((self.receive_request(req), Seq::empty()))
        }
    }

    /// The step taken when the vote window has closed.
    pub open spec fn on_votes(self, votes: Seq<ProtocolMessage>) -> Result<
        (CoordinatorView, Seq<CoordinatorAction>),
        ProtocolViolation,
    > {
        if self.finished || self.state != CoordinatorState::ProposalSent {
            Err(ProtocolViolation::UnexpectedEvent)
        } else if !all_votes(votes) {
            Err(ProtocolViolation::UnexpectedMessage)
        } else {
            Ok((self.collect_votes(votes), Seq::empty()))
        }
    }

    /// The step taken without anything from outside.
    pub open spec fn on_advance(self) -> Result<
        (CoordinatorView, Seq<CoordinatorAction>),
        ProtocolViolation,
    > {
        if self.finished {
            Err(ProtocolViolation::UnexpectedEvent)
        } else {
            match self.state {
                CoordinatorState::ReceivedRequest => Ok(self.send_proposal()),
                CoordinatorState::ReceivedVotesCommit | CoordinatorState::ReceivedVotesAbort => Ok(
                    self.send_decision(),
                ),
                CoordinatorState::SentGlobalDecision => Ok(self.send_result()),
                _ => Err(ProtocolViolation::UnexpectedEvent),
            }
        }
    }

    /// The step taken on the stop signal. Between two transactions everybody
    /// is told to exit at once. While a transaction is under way the signal
    /// is only noted: the transaction is first brought to its decision.
    pub open spec fn on_stop(self) -> Result<
        (CoordinatorView, Seq<CoordinatorAction>),
        ProtocolViolation,
    > {
        if self.finished {
            Err(ProtocolViolation::UnexpectedEvent)
        } else if self.state == CoordinatorState::Quiescent {
            Ok(
                (
                    CoordinatorView { stopping: true, finished: true, ..self },
                    exit_all(self.clients, self.participants),
                ),
            )
        } else {
            Ok((CoordinatorView { stopping: true, ..self }, Seq::empty()))
        }
    }

    /// The coordinator's transition function: the state after the event and
    /// the actions asked for, or the reason why the event is refused.
    pub open spec fn step(self, num_tasks: nat, event: CoordinatorEvent) -> Result<
        (CoordinatorView, Seq<CoordinatorAction>),
        ProtocolViolation,
    > {
        match event {
            CoordinatorEvent::Request(req) => self.on_request(num_tasks, req),
            CoordinatorEvent::Votes(votes) => self.on_votes(votes@),
            CoordinatorEvent::Advance => self.on_advance(),
            CoordinatorEvent::Stop => self.on_stop(),
        }
    }
}

/// How many of the messages are votes on the transaction.
pub open spec fn votes_on(votes: Seq<ProtocolMessage>, txid: TxId) -> nat
    decreases votes.len(),
{
    if votes.len() == 0 {
        0
    } else {
        votes_on(votes.drop_last(), txid) + if votes.last().mtype.is_vote() && votes.last().txid
            == txid {
            1nat
        } else {
            0nat
        }
    }
}

/// How many of the messages are votes to commit the transaction from a
/// participant with an index from `lo` up to, and without, `hi`.
pub open spec fn commit_votes_from(
    votes: Seq<ProtocolMessage>,
    txid: TxId,
    lo: nat,
    hi: nat,
) -> nat
    decreases votes.len(),
{
    if votes.len() == 0 {
        0
    } else {
        let m = votes.last();
        commit_votes_from(votes.drop_last(), txid, lo, hi) + if m.mtype
            == MessageType::ParticipantVoteCommit && m.txid == txid && lo <= m.senderid < hi {
            1nat
        } else {
            0nat
        }
    }
}

/// The votes to commit from the first `n + 1` participants are those from
/// the first `n` and those from participant `n`; none of them is counted
/// that is not a vote on the transaction, and no vote that is not a message.
proof fn lemma_commit_votes_split(votes: Seq<ProtocolMessage>, txid: TxId, n: nat)
    ensures
        commit_votes_from(votes, txid, 0, n + 1) == commit_votes_from(votes, txid, 0, n)
            + commit_votes_from(votes, txid, n, n + 1),
        commit_votes_from(votes, txid, 0, n) <= votes_on(votes, txid),
        votes_on(votes, txid) <= votes.len(),
    decreases votes.len(),
{
    if votes.len() > 0 {
        lemma_commit_votes_split(votes.drop_last(), txid, n);
    }
}

/// A participant whose vote to commit is among the messages is counted.
proof fn lemma_commit_vote_counted(votes: Seq<ProtocolMessage>, txid: TxId, p: nat)
    requires
        voted_commit(votes, txid, p, votes.len() as int),
    ensures
        commit_votes_from(votes, txid, p, p + 1) >= 1,
    decreases votes.len(),
{
    let i = choose|i: int|
        0 <= i < votes.len() && i < votes.len() && commit_vote(#[trigger] votes[i], txid, p);
    if i < votes.len() - 1 {
        let rest = votes.drop_last();
        assert(commit_vote(rest[i], txid, p));
        lemma_commit_vote_counted(rest, txid, p);
    }
}

/// Where each of the first `n` participants has a vote to commit among the
/// messages, at least `n` such votes are among them.
proof fn lemma_commit_votes_cover(votes: Seq<ProtocolMessage>, txid: TxId, n: nat)
    requires
        forall|p: nat| p < n ==> #[trigger] voted_commit(votes, txid, p, votes.len() as int),
    ensures
        commit_votes_from(votes, txid, 0, n) >= n,
    decreases n,
{
    if n > 0 {
        let m = (n - 1) as nat;
        lemma_commit_votes_cover(votes, txid, m);
        assert(voted_commit(votes, txid, m, votes.len() as int));
        lemma_commit_vote_counted(votes, txid, m);
        lemma_commit_votes_split(votes, txid, m);
    }
}

/// Default to abort: where fewer votes on the transaction arrived than
/// there are participants, the transaction is not committed, whatever the
/// votes that did arrive say.
pub proof fn lemma_missing_vote_aborts(votes: Seq<ProtocolMessage>, txid: TxId, n: nat)
    requires
        votes_on(votes, txid) < n,
    ensures
        !unanimous(votes, txid, n),
{
    if unanimous(votes, txid, n) {
        lemma_commit_votes_cover(votes, txid, n);
        lemma_commit_votes_split(votes, txid, n);
    }
}

/// Default to abort, by the number of messages: where fewer messages
/// arrived within the window than there are participants, the transaction
/// is not committed.
pub proof fn lemma_few_messages_abort(votes: Seq<ProtocolMessage>, txid: TxId, n: nat)
    requires
        votes.len() < n,
    ensures
        !unanimous(votes, txid, n),
{
    lemma_commit_votes_split(votes, txid, n);
    lemma_missing_vote_aborts(votes, txid, n);
}

/// One vote to abort is enough: where a vote to abort the transaction
/// arrived, the transaction is not committed.
pub proof fn lemma_abort_vote_aborts(votes: Seq<ProtocolMessage>, txid: TxId, n: nat, i: int)
    requires
        0 <= i < votes.len(),
        abort_vote(votes[i], txid),
    ensures
        !unanimous(votes, txid, n),
{
}

/// The Log actions among the actions, in order.
pub open spec fn logged(actions: Seq<CoordinatorAction>) -> Seq<LogRecord>
    decreases actions.len(),
{
    if actions.len() == 0 {
        Seq::empty()
    } else {
        match actions.last() {
            CoordinatorAction::Log(rec) => logged(actions.drop_last()).push(rec),
            _ => logged(actions.drop_last()),
        }
    }
}

/// The message that an action sends, if it sends one.
pub open spec fn sent(action: CoordinatorAction) -> Option<ProtocolMessage> {
    match action {
        CoordinatorAction::Log(_) => None,
        CoordinatorAction::ToParticipant(_, m) => Some(m),
        CoordinatorAction::ToClient(_, m) => Some(m),
    }
}

/// The record is one of what the message announces: of the same kind, on
/// the same transaction and operation.
pub open spec fn record_of(rec: LogRecord, m: ProtocolMessage) -> bool {
    rec.mtype == m.mtype && rec.txid == m.txid && rec.opid == m.opid
}

/// Before place `j`, the actions hold a Log action with a record of what
/// the message announces.
pub open spec fn logged_before(actions: Seq<CoordinatorAction>, j: int, m: ProtocolMessage) -> bool {
    exists|i: int|
        0 <= i < j && i < actions.len() && (#[trigger] actions[i]) is Log && record_of(
            actions[i]->Log_0,
            m,
        )
}

/// What the action at place `j` sends, if it sends anything but the word to
/// exit, was logged before.
pub open spec fn announced(actions: Seq<CoordinatorAction>, j: int) -> bool {
    match sent(actions[j]) {
        Some(m) => m.mtype == MessageType::CoordinatorExit || logged_before(actions, j, m),
        None => true,
    }
}

/// Each message among the actions that tells of a proposal, a decision or
/// a result comes after a Log action with a record of it.
pub open spec fn write_ahead(actions: Seq<CoordinatorAction>) -> bool {
    forall|j: int| 0 <= j < actions.len() ==> #[trigger] announced(actions, j)
}

/// A record, followed by actions that log nothing and send only what the
/// record is of, or the word to exit.
proof fn lemma_record_first(rec: LogRecord, rest: Seq<CoordinatorAction>)
    requires
        logged(rest) == Seq::<LogRecord>::empty(),
        forall|k: int|
            0 <= k < rest.len() ==> match sent(#[trigger] rest[k]) {
                Some(m) => m.mtype == MessageType::CoordinatorExit || record_of(rec, m),
                None => true,
            },
    ensures
        logged(seq![CoordinatorAction::Log(rec)] + rest) == seq![rec],
        write_ahead(seq![CoordinatorAction::Log(rec)] + rest),
{
    let first = seq![CoordinatorAction::Log(rec)];
    let all = first + rest;
    assert(first.drop_last() =~= Seq::<CoordinatorAction>::empty());
    assert(logged(first.drop_last()) == Seq::<LogRecord>::empty());
    assert(first.last() == CoordinatorAction::Log(rec));
    assert(logged(first) =~= seq![rec]);
    lemma_logged_concat(first, rest);
    assert(seq![rec] + Seq::<LogRecord>::empty() =~= seq![rec]);
    assert forall|j: int| 0 <= j < all.len() implies #[trigger] announced(all, j) by {
        if j >= 1 {
            assert(all[j] == rest[j - 1]);
            assert(all[0] is Log && all[0]->Log_0 == rec);
        }
    }
}

/// Messages to the participants log nothing.
proof fn lemma_logged_sends(kind: MessageType, txid: TxId, opid: u32, n: nat)
    ensures
        logged(to_all(kind, txid, opid, n)) == Seq::<LogRecord>::empty(),
    decreases n,
{
    if n > 0 {
        lemma_logged_sends(kind, txid, opid, (n - 1) as nat);
        assert(to_all(kind, txid, opid, n).drop_last() =~= to_all(kind, txid, opid, (n - 1) as nat));
    }
}

/// The word to exit to the clients logs nothing.
proof fn lemma_logged_exits(clients: nat)
    ensures
        logged(Seq::new(clients, |c: int| CoordinatorAction::ToClient(c as u32, exit_notice(c))))
            == Seq::<LogRecord>::empty(),
    decreases clients,
{
    if clients > 0 {
        lemma_logged_exits((clients - 1) as nat);
        assert(Seq::new(
            clients,
            |c: int| CoordinatorAction::ToClient(c as u32, exit_notice(c)),
        ).drop_last() =~= Seq::new(
            (clients - 1) as nat,
            |c: int| CoordinatorAction::ToClient(c as u32, exit_notice(c)),
        ));
    }
}

/// What two runs of actions log is what the first logs, then what the
/// second logs.
proof fn lemma_logged_concat(a: Seq<CoordinatorAction>, b: Seq<CoordinatorAction>)
    ensures
        logged(a + b) == logged(a) + logged(b),
    decreases b.len(),
{
    if b.len() == 0 {
        assert(a + b =~= a);
        assert(logged(a) + logged(b) =~= logged(a));
    } else {
        lemma_logged_concat(a, b.drop_last());
        assert((a + b).drop_last() =~= a + b.drop_last());
        assert((a + b).last() == b.last());
        match b.last() {
            CoordinatorAction::Log(rec) => {
                assert(logged(a) + logged(b.drop_last()).push(rec) =~= (logged(a) + logged(
                    b.drop_last(),
                )).push(rec));
            },
            _ => {},
        }
    }
}

/// Telling everybody to exit logs nothing.
proof fn lemma_logged_exit_all(clients: nat, participants: nat)
    ensures
        logged(exit_all(clients, participants)) == Seq::<LogRecord>::empty(),
{
    lemma_logged_exits(clients);
    lemma_logged_sends(
        MessageType::CoordinatorExit,
        TxId { client: 0, seq: 0 },
        0,
        participants,
    );
    lemma_logged_concat(
        Seq::new(clients, |c: int| CoordinatorAction::ToClient(c as u32, exit_notice(c))),
        to_all(MessageType::CoordinatorExit, TxId { client: 0, seq: 0 }, 0, participants),
    );
}

/// Write-ahead logging. Whatever step the coordinator takes, the records
/// that it asks its caller to log are, in order, exactly those by which its
/// own log has grown, and no proposal, decision or result is sent before
/// the record of it was logged.
pub proof fn lemma_write_ahead(v: CoordinatorView, num_tasks: nat, event: CoordinatorEvent)
    requires
        v.step(num_tasks, event) is Ok,
    ensures
        ({
            let (post, actions) = v.step(num_tasks, event)->Ok_0;
            &&& post.log == v.log + logged(actions)
            &&& write_ahead(actions)
        }),
{
    let (post, actions) = v.step(num_tasks, event)->Ok_0;
    lemma_logged_exit_all(v.clients, v.participants);
    assert(v.log + Seq::<LogRecord>::empty() =~= v.log);
    assert(logged(Seq::<CoordinatorAction>::empty()) == Seq::<LogRecord>::empty());
    if event is Advance {
        if v.state == CoordinatorState::SentGlobalDecision {
            let rec = v.record(
                if v.commit {
                    MessageType::ClientResultCommit
                } else {
                    MessageType::ClientResultAbort
                },
            );
            let answer = seq![CoordinatorAction::ToClient(v.request.senderid, rec)];
            let rest = if v.stopping {
                answer + exit_all(v.clients, v.participants)
            } else {
                answer
            };
            assert(answer.drop_last() =~= Seq::<CoordinatorAction>::empty());
            assert(logged(answer.drop_last()) == Seq::<LogRecord>::empty());
            assert(answer.last() == CoordinatorAction::ToClient(v.request.senderid, rec));
            assert(logged(answer) == Seq::<LogRecord>::empty());
            lemma_logged_concat(answer, exit_all(v.clients, v.participants));
            assert(Seq::<LogRecord>::empty() + Seq::<LogRecord>::empty() =~= Seq::<
                LogRecord,
            >::empty());
            lemma_record_first(rec, rest);
            assert(actions =~= seq![CoordinatorAction::Log(rec)] + rest);
            assert(v.log + seq![rec] =~= v.log.push(rec));
        } else {
            let kind = if v.state == CoordinatorState::ReceivedRequest {
                MessageType::CoordinatorPropose
            } else if v.state == CoordinatorState::ReceivedVotesCommit {
                MessageType::CoordinatorCommit
            } else {
                MessageType::CoordinatorAbort
            };
            let rec = v.record(kind);
            lemma_logged_sends(kind, v.request.txid, v.request.opid, v.participants);
            lemma_record_first(rec, v.broadcast(kind));
            assert(v.log + seq![rec] =~= v.log.push(rec));
        }
    } else if event is Stop {
        assert forall|j: int| 0 <= j < actions.len() implies #[trigger] announced(actions, j) by {
        }
    } else {
        assert(actions =~= Seq::<CoordinatorAction>::empty());
    }
}

impl CoordinatorView {
    /// How many transactions the log holds as proposed.
    pub open spec fn proposed(self) -> nat {
        count_kind(self.log, MessageType::CoordinatorPropose)
    }

    /// How many decisions the log holds.
    pub open spec fn decided(self) -> nat {
        count_kind(self.log, MessageType::CoordinatorCommit) + count_kind(
            self.log,
            MessageType::CoordinatorAbort,
        )
    }

    /// How many results the log holds as told to clients.
    pub open spec fn answered(self) -> nat {
        count_kind(self.log, MessageType::ClientResultCommit) + count_kind(
            self.log,
            MessageType::ClientResultAbort,
        )
    }

    /// What holds of the coordinator's log at all times: every transaction
    /// that was proposed is decided, and every decision told to the client,
    /// but for the one transaction that may be under way; and as many
    /// results say committed as decisions do.
    pub open spec fn tallied(self) -> bool {
        let open: nat = match self.state {
            CoordinatorState::ProposalSent
            | CoordinatorState::ReceivedVotesCommit
            | CoordinatorState::ReceivedVotesAbort => 1,
            _ => 0,
        };
        let untold: nat = if self.state == CoordinatorState::SentGlobalDecision {
            1
        } else {
            0
        };
        &&& self.proposed() == self.decided() + open
        &&& self.decided() == self.answered() + untold
        &&& count_kind(self.log, MessageType::CoordinatorCommit) == count_kind(
            self.log,
            MessageType::ClientResultCommit,
        ) + if self.commit {
            untold
        } else {
            0
        }
        &&& self.handled == self.proposed() + if self.state
            == CoordinatorState::ReceivedRequest {
            1nat
        } else {
            0nat
        }
    }
}

/// One step keeps what holds of the coordinator's log at all times,
/// whichever step it is: the taking of a request, the counting of the
/// votes, the step that follows without anything from outside, or the
/// noting of the stop signal.
pub proof fn lemma_step_tallied(
    v: CoordinatorView,
    num_tasks: nat,
    req: ProtocolMessage,
    votes: Seq<ProtocolMessage>,
)
    requires
        v.tallied(),
    ensures
        v.on_request(num_tasks, req) matches Ok((after, _)) ==> after.tallied(),
        v.on_votes(votes) matches Ok((after, _)) ==> after.tallied(),
        v.on_advance() matches Ok((after, _)) ==> after.tallied(),
        v.on_stop() matches Ok((after, _)) ==> after.tallied(),
{
    match v.on_advance() {
        Ok((after, _)) => {
            let rec = after.log[after.log.len() - 1];
            assert(after.log =~= v.log.push(rec));
            lemma_count_kind_push(v.log, rec, MessageType::CoordinatorPropose);
            lemma_count_kind_push(v.log, rec, MessageType::CoordinatorCommit);
            lemma_count_kind_push(v.log, rec, MessageType::CoordinatorAbort);
            lemma_count_kind_push(v.log, rec, MessageType::ClientResultCommit);
            lemma_count_kind_push(v.log, rec, MessageType::ClientResultAbort);
        },
        Err(_) => {},
    }
}

/// The coordinator's tally. Where what holds of the coordinator's log at
/// all times holds, the committed, the aborted and the unknown transactions
/// that it reports are together as many as it proposed; the unknown one, if
/// there is one, is the transaction under way.
pub proof fn lemma_tally_accounts(v: CoordinatorView)
    requires
        v.tallied(),
    ensures
        ({
            let (committed, aborted, unknown) = tally_of(
                v.log,
                MessageType::CoordinatorPropose,
                MessageType::CoordinatorCommit,
                MessageType::CoordinatorAbort,
            );
            &&& committed + aborted + unknown == v.proposed()
            &&& unknown <= 1
            &&& unknown == 1 <==> v.state == CoordinatorState::ProposalSent || v.state
                == CoordinatorState::ReceivedVotesCommit || v.state
                == CoordinatorState::ReceivedVotesAbort
        }),
{
}

/// Default to abort, as the log shows it. Where the vote window closes on
/// fewer votes on the transaction than there are participants, the steps
/// that end the transaction log an abort, send the abort to every
/// participant, and tell the client that the transaction was aborted,
/// whatever the votes that did arrive say.
pub proof fn lemma_default_to_abort(v: CoordinatorView, votes: Seq<ProtocolMessage>)
    requires
        !v.finished,
        v.state == CoordinatorState::ProposalSent,
        all_votes(votes),
        votes_on(votes, v.request.txid) < v.participants,
    ensures
        ({
            let decision = v.record(MessageType::CoordinatorAbort);
            let result = v.record(MessageType::ClientResultAbort);
            let (counted, _) = v.on_votes(votes)->Ok_0;
            let (decided, told) = counted.on_advance()->Ok_0;
            let (done, answered) = decided.on_advance()->Ok_0;
            &&& counted.state == CoordinatorState::ReceivedVotesAbort
            &&& told == seq![CoordinatorAction::Log(decision)] + to_all(
                MessageType::CoordinatorAbort,
                v.request.txid,
                v.request.opid,
                v.participants,
            )
            &&& answered[1] == CoordinatorAction::ToClient(v.request.senderid, result)
            &&& done.log == v.log.push(decision).push(result)
        }),
{
    lemma_missing_vote_aborts(votes, v.request.txid, v.participants);
    lemma_commit_iff_unanimous(v, votes);
}

/// After it has told everybody to exit, the coordinator takes no request
/// and nothing else: it refuses every event.
pub proof fn lemma_finished_refuses(v: CoordinatorView, num_tasks: nat, event: CoordinatorEvent)
    requires
        v.finished,
    ensures
        v.step(num_tasks, event) is Err,
{
}

/// The stop signal never cuts a transaction short: while a transaction is
/// under way the signal changes nothing but that it is noted, and the step
/// that ends the transaction then tells everybody to exit.
pub proof fn lemma_stop_lets_finish(v: CoordinatorView)
    requires
        !v.finished,
        v.state != CoordinatorState::Quiescent,
    ensures
        v.on_stop() == Ok::<(CoordinatorView, Seq<CoordinatorAction>), ProtocolViolation>(
            (CoordinatorView { stopping: true, ..v }, Seq::empty()),
        ),
        v.state == CoordinatorState::SentGlobalDecision ==> ({
            let (after, actions) = (CoordinatorView { stopping: true, ..v }).on_advance()->Ok_0;
            &&& after.finished
            &&& after.state == CoordinatorState::Quiescent
            &&& actions.subrange(2, actions.len() as int) == exit_all(v.clients, v.participants)
        }),
{
    if v.state == CoordinatorState::SentGlobalDecision {
        let (after, actions) = (CoordinatorView { stopping: true, ..v }).on_advance()->Ok_0;
        assert(actions.subrange(2, actions.len() as int) =~= exit_all(v.clients, v.participants));
    }
}

/// Unanimity for commit. From the moment the vote window closes, the three
/// steps that end a transaction add two records to the coordinator's log, a
/// decision and a result. They say that the transaction was committed if
/// and only if each participant's vote to commit it arrived and no vote to
/// abort it did; otherwise they say that it was aborted. The same decision
/// goes to every participant, and the same result to the client that asked.
pub proof fn lemma_commit_iff_unanimous(v: CoordinatorView, votes: Seq<ProtocolMessage>)
    requires
        !v.finished,
        v.state == CoordinatorState::ProposalSent,
        all_votes(votes),
    ensures
        ({
            let commit = unanimous(votes, v.request.txid, v.participants);
            let decision = v.record(
                if commit {
                    MessageType::CoordinatorCommit
                } else {
                    MessageType::CoordinatorAbort
                },
            );
            let result = v.record(
                if commit {
                    MessageType::ClientResultCommit
                } else {
                    MessageType::ClientResultAbort
                },
            );
            let (counted, none) = v.on_votes(votes)->Ok_0;
            let (decided, told) = counted.on_advance()->Ok_0;
            let (done, answered) = decided.on_advance()->Ok_0;
            &&& v.on_votes(votes) is Ok
            &&& counted.on_advance() is Ok
            &&& decided.on_advance() is Ok
            &&& none == Seq::<CoordinatorAction>::empty()
            &&& counted.state == if commit {
                CoordinatorState::ReceivedVotesCommit
            } else {
                CoordinatorState::ReceivedVotesAbort
            }
            &&& told == seq![CoordinatorAction::Log(decision)] + to_all(
                decision.mtype,
                v.request.txid,
                v.request.opid,
                v.participants,
            )
            &&& answered.len() >= 2
            &&& answered[0] == CoordinatorAction::Log(result)
            &&& answered[1] == CoordinatorAction::ToClient(v.request.senderid, result)
            &&& done.log == v.log.push(decision).push(result)
            &&& done.state == CoordinatorState::Quiescent
        }),
{
}

/// The coordinator of one run.
#[derive(Debug)]
pub struct Coordinator {
    state: CoordinatorState,
    log: OpLog,
    participants: u32,
    clients: u32,
    request: ProtocolMessage,
    commit: bool,
    handled: u32,
    stopping: bool,
    finished: bool,
}

impl View for Coordinator {
    type V = CoordinatorView;

    closed spec fn view(&self) -> CoordinatorView {
        CoordinatorView {
            state: self.state,
            log: self.log@,
            participants: self.participants as nat,
            clients: self.clients as nat,
            request: self.request,
            commit: self.commit,
            handled: self.handled as nat,
            stopping: self.stopping,
            finished: self.finished,
        }
    }
}

/// Adds the same message about one transaction to each of `n` participants.
fn push_to_all(out: &mut Vec<CoordinatorAction>, kind: MessageType, txid: TxId, opid: u32, n: u32)
    ensures
        final(out)@ == old(out)@ + to_all(kind, txid, opid, n as nat),
{
    let mut p: u32 = 0;
    while p < n
        invariant
            p <= n,
            out@ == old(out)@ + to_all(kind, txid, opid, p as nat),
        decreases n - p,
    {
        out.push(CoordinatorAction::ToParticipant(p, ProtocolMessage::generate(kind, txid, p, opid)));
        proof {
            assert(to_all(kind, txid, opid, (p + 1) as nat) =~= to_all(
                kind,
                txid,
                opid,
                p as nat,
            ).push(CoordinatorAction::ToParticipant(p, notice(kind, txid, opid, p as int))));
        }
        p = p + 1;
    }
}

/// Adds the exit message to each client, then to each participant.
fn push_exit_all(out: &mut Vec<CoordinatorAction>, clients: u32, participants: u32)
    ensures
        final(out)@ == old(out)@ + exit_all(clients as nat, participants as nat),
{
    let none = TxId::new(0, 0);
    let mut c: u32 = 0;
    while c < clients
        invariant
            c <= clients,
            none == (TxId { client: 0, seq: 0 }),
            out@ == old(out)@ + Seq::new(
                c as nat,
                |i: int| CoordinatorAction::ToClient(i as u32, exit_notice(i)),
            ),
        decreases clients - c,
    {
        out.push(
            CoordinatorAction::ToClient(
                c,
                ProtocolMessage::generate(MessageType::CoordinatorExit, none, c, 0),
            ),
        );
        proof {
            assert(Seq::new(
                (c + 1) as nat,
                |i: int| CoordinatorAction::ToClient(i as u32, exit_notice(i)),
            ) =~= Seq::new(
                c as nat,
                |i: int| CoordinatorAction::ToClient(i as u32, exit_notice(i)),
            ).push(CoordinatorAction::ToClient(c, exit_notice(c as int))));
        }
        c = c + 1;
    }
    push_to_all(out, MessageType::CoordinatorExit, none, 0, participants);
    proof {
        assert(out@ =~= old(out)@ + exit_all(clients as nat, participants as nat));
    }
}

impl Coordinator {
    /// A coordinator that nobody has joined yet, with an empty log for the
    /// given storage location.
    pub fn new(log_path: String) -> (c: Coordinator)
        ensures
            c@ == CoordinatorView::initial(),
            c.log_location() == log_path@,
    {
        Coordinator {
            state: CoordinatorState::Quiescent,
            log: OpLog::new(log_path),
            participants: 0,
            clients: 0,
            request: ProtocolMessage::generate(MessageType::ClientRequest, TxId::new(0, 0), 0, 0),
            commit: false,
            handled: 0,
            stopping: false,
            finished: false,
        }
    }

    /// The storage location of the coordinator's log.
    pub closed spec fn log_location(&self) -> Seq<char> {
        self.log.location()
    }

    /// Registers one more participant and returns its index. Participants
    /// join between transactions only.
    pub fn participant_join(&mut self) -> (index: u32)
        requires
            old(self)@.state == CoordinatorState::Quiescent,
            old(self)@.participants < u32::MAX,
        ensures
            index == old(self)@.participants,
            final(self)@ == (CoordinatorView {
                participants: old(self)@.participants + 1,
                ..old(self)@
            }),
            final(self).log_location() == old(self).log_location(),
    {
        let index = self.participants;
        self.participants = index + 1;
        index
    }

    /// Registers one more client and returns its index. Clients join between
    /// transactions only.
    pub fn client_join(&mut self) -> (index: u32)
        requires
            old(self)@.state == CoordinatorState::Quiescent,
            old(self)@.clients < u32::MAX,
        ensures
            index == old(self)@.clients,
            final(self)@ == (CoordinatorView { clients: old(self)@.clients + 1, ..old(self)@ }),
            final(self).log_location() == old(self).log_location(),
    {
        let index = self.clients;
        self.clients = index + 1;
        index
    }

    /// Where the coordinator stands.
    pub fn state(&self) -> (s: CoordinatorState)
        ensures
            s == self@.state,
    {
        self.state
    }

    /// How many participants have joined.
    pub fn participant_count(&self) -> (n: u32)
        ensures
            n == self@.participants,
    {
        self.participants
    }

    /// How many clients have joined.
    pub fn client_count(&self) -> (n: u32)
        ensures
            n == self@.clients,
    {
        self.clients
    }

    /// The coordinator's log.
    pub fn log(&self) -> (log: &OpLog)
        ensures
            log@ == self@.log,
            log.location() == self.log_location(),
    {
        &self.log
    }

    /// What the coordinator needs next when it is to handle `num_tasks`
    /// requests in all.
    pub fn awaiting(&self, num_tasks: u32) -> (w: CoordinatorWait)
        ensures
            w == self@.awaiting(num_tasks as nat),
    {
        if self.finished {
            CoordinatorWait::Nothing
        } else {
            match self.state {
                CoordinatorState::Quiescent => if self.stopping || self.handled >= num_tasks {
                    CoordinatorWait::Stop
                } else {
                    CoordinatorWait::Request
                },
                CoordinatorState::ProposalSent => CoordinatorWait::Votes,
                _ => CoordinatorWait::Advance,
            }
        }
    }

    /// The committed and aborted transactions, and those proposed but not
    /// decided, counted from the log.
    pub fn report_status(&self) -> (t: RunTally)
        ensures
            t.counts() == tally_of(
                self@.log,
                MessageType::CoordinatorPropose,
                MessageType::CoordinatorCommit,
                MessageType::CoordinatorAbort,
            ),
    {
        self.log.tally(
            MessageType::CoordinatorPropose,
            MessageType::CoordinatorCommit,
            MessageType::CoordinatorAbort,
        )
    }

    /// Logs the proposal and asks for it to be sent to every participant.
    fn send_proposal(&mut self) -> (out: Vec<CoordinatorAction>)
        ensures
            (final(self)@, out@) == old(self)@.send_proposal(),
            final(self).log_location() == old(self).log_location(),
    {
        let req = self.request;
        let rec = self.log.append(MessageType::CoordinatorPropose, req.txid, req.senderid, req.opid);
        let mut out: Vec<CoordinatorAction> = Vec::new();
        out.push(CoordinatorAction::Log(rec));
        push_to_all(&mut out, MessageType::CoordinatorPropose, req.txid, req.opid, self.participants);
        self.state = CoordinatorState::ProposalSent;
        proof {
            assert(out@ =~= old(self)@.send_proposal().1);
        }
        out
    }

    /// Logs the decision and asks for it to be sent to every participant.
    fn send_decision(&mut self) -> (out: Vec<CoordinatorAction>)
        ensures
            (final(self)@, out@) == old(self)@.send_decision(),
            final(self).log_location() == old(self).log_location(),
    {
        let req = self.request;
        let commit = self.state == CoordinatorState::ReceivedVotesCommit;
        let kind = if commit {
            MessageType::CoordinatorCommit
        } else {
            MessageType::CoordinatorAbort
        };
        let rec = self.log.append(kind, req.txid, req.senderid, req.opid);
        let mut out: Vec<CoordinatorAction> = Vec::new();
        out.push(CoordinatorAction::Log(rec));
        push_to_all(&mut out, kind, req.txid, req.opid, self.participants);
        self.commit = commit;
        self.state = CoordinatorState::SentGlobalDecision;
        proof {
            assert(out@ =~= old(self)@.send_decision().1);
        }
        out
    }

    /// Logs the result and asks for it to be sent to the client; then,
    /// where the stop signal was noted, for everybody to be told to exit.
    fn send_result(&mut self) -> (out: Vec<CoordinatorAction>)
        ensures
            (final(self)@, out@) == old(self)@.send_result(),
            final(self).log_location() == old(self).log_location(),
    {
        let req = self.request;
        let kind = if self.commit {
            MessageType::ClientResultCommit
        } else {
            MessageType::ClientResultAbort
        };
        let rec = self.log.append(kind, req.txid, req.senderid, req.opid);
        let mut out: Vec<CoordinatorAction> = Vec::new();
        out.push(CoordinatorAction::Log(rec));
        out.push(CoordinatorAction::ToClient(req.senderid, rec));
        if self.stopping {
            push_exit_all(&mut out, self.clients, self.participants);
        }
        self.finished = self.stopping;
        self.state = CoordinatorState::Quiescent;
        proof {
            assert(out@ =~= old(self)@.send_result().1);
        }
        out
    }

    /// Takes one step of the protocol: the coordinator moves to its next
    /// state and returns what it asks its caller to do, in order. An event
    /// that does not fit is refused, and the coordinator stays as it was.
    ///
    /// `num_tasks` is the number of requests that the run is to handle; once
    /// that many were taken the coordinator waits for the stop signal.
    pub fn protocol(&mut self, num_tasks: u32, event: CoordinatorEvent) -> (r: Result<
        Vec<CoordinatorAction>,
        ProtocolViolation,
    >)
        ensures
            match old(self)@.step(num_tasks as nat, event) {
                Ok((post, actions)) => r matches Ok(out) && out@ == actions && final(self)@ == post,
                Err(e) => r == Err::<Vec<CoordinatorAction>, ProtocolViolation>(e) && final(self)@
                    == old(self)@,
            },
            final(self).log_location() == old(self).log_location(),
    {
        match event {
            CoordinatorEvent::Request(req) => {
                if self.finished || self.state != CoordinatorState::Quiescent || self.stopping
                    || self.handled >= num_tasks {
                    Err(ProtocolViolation::UnexpectedEvent)
                } else if req.mtype != MessageType::ClientRequest {
                    Err(ProtocolViolation::UnexpectedMessage)
                } else if req.senderid >= self.clients {
                    Err(ProtocolViolation::UnknownSender)
                } else {
                    self.request = req;
                    self.handled = self.handled + 1;
                    self.state = CoordinatorState::ReceivedRequest;
                    Ok(Vec::new())
                }
            },
            CoordinatorEvent::Votes(votes) => {
                if self.finished || self.state != CoordinatorState::ProposalSent {
                    Err(ProtocolViolation::UnexpectedEvent)
                } else if !votes_only(&votes) {
                    Err(ProtocolViolation::UnexpectedMessage)
                } else {
                    if votes_unanimous(&votes, self.request.txid, self.participants) {
                        self.state = CoordinatorState::ReceivedVotesCommit;
                    } else {
                        self.state = CoordinatorState::ReceivedVotesAbort;
                    }
                    Ok(Vec::new())
                }
            },
            CoordinatorEvent::Advance => {
                if self.finished {
                    Err(ProtocolViolation::UnexpectedEvent)
                } else {
                    match self.state {
                        CoordinatorState::ReceivedRequest => Ok(self.send_proposal()),
                        CoordinatorState::ReceivedVotesCommit
                        | CoordinatorState::ReceivedVotesAbort => Ok(self.send_decision()),
                        CoordinatorState::SentGlobalDecision => Ok(self.send_result()),
                        _ => Err(ProtocolViolation::UnexpectedEvent),
                    }
                }
            },
            CoordinatorEvent::Stop => {
                if self.finished {
                    Err(ProtocolViolation::UnexpectedEvent)
                } else {
                    let mut out: Vec<CoordinatorAction> = Vec::new();
                    self.stopping = true;
                    if self.state == CoordinatorState::Quiescent {
                        push_exit_all(&mut out, self.clients, self.participants);
                        self.finished = true;
                    }
                    Ok(out)
                }
            },
        }
    }
}

/// Whether every participant voted to commit the transaction and nobody
/// voted to abort it.
pub fn votes_unanimous(votes: &Vec<ProtocolMessage>, txid: TxId, n: u32) -> (b: bool)
    ensures
        b == unanimous(votes@, txid, n as nat),
{
    let mut seen: Vec<bool> = Vec::new();
    let mut k: u32 = 0;
    while k < n
        invariant
            k <= n,
            seen@.len() == k,
            forall|p: int| 0 <= p < k ==> !seen@[p],
        decreases n - k,
    {
        seen.push(false);
        k = k + 1;
    }
    let mut refused = false;
    let mut j: usize = 0;
    while j < votes.len()
        invariant
            j <= votes@.len(),
            seen@.len() == n,
            forall|p: int| 0 <= p < n ==> seen@[p] == voted_commit(votes@, txid, p as nat, j as int),
            refused == voted_abort(votes@, txid, j as int),
        decreases votes@.len() - j,
    {
        let m = votes[j];
        let ghost before = seen@;
        if m.txid == txid {
            match m.mtype {
                MessageType::ParticipantVoteAbort => {
                    refused = true;
                },
                MessageType::ParticipantVoteCommit => {
                    if m.senderid < n {
                        seen.set(m.senderid as usize, true);
                    }
                },
                _ => {},
            }
        }
        proof {
            assert(voted_abort(votes@, txid, j + 1) == (voted_abort(votes@, txid, j as int)
                || abort_vote(votes@[j as int], txid))) by {
                if abort_vote(votes@[j as int], txid) {
                    assert(abort_vote(votes@[j as int], txid) && j < j + 1);
                }
            }
            assert forall|p: int| 0 <= p < n implies seen@[p] == voted_commit(
                votes@,
                txid,
                p as nat,
                j + 1,
            ) by {
                assert(before[p] == voted_commit(votes@, txid, p as nat, j as int));
                if commit_vote(votes@[j as int], txid, p as nat) {
                    assert(commit_vote(votes@[j as int], txid, p as nat) && j < j + 1);
                }
            }
        }
        j = j + 1;
    }
    let mut all = true;
    let mut q: usize = 0;
    while q < seen.len()
        invariant
            q <= seen@.len(),
            seen@.len() == n,
            all == (forall|p: int| 0 <= p < q ==> seen@[p]),
        decreases seen@.len() - q,
    {
        if !seen[q] {
            all = false;
        }
        q = q + 1;
    }
    proof {
        if all {
            assert forall|p: nat| p < n implies #[trigger] voted_commit(
                votes@,
                txid,
                p,
                votes@.len() as int,
            ) by {
                assert(seen@[p as int]);
            }
        } else {
            let p = choose|p: int| 0 <= p < n && !seen@[p];
            assert(!voted_commit(votes@, txid, p as nat, votes@.len() as int));
        }
    }
    all && !refused
}

/// Whether every message is a vote.
pub fn votes_only(votes: &Vec<ProtocolMessage>) -> (b: bool)
    ensures
        b == all_votes(votes@),
{
    let mut j: usize = 0;
    while j < votes.len()
        invariant
            j <= votes@.len(),
            forall|i: int| 0 <= i < j ==> (#[trigger] votes@[i]).mtype.is_vote(),
        decreases votes@.len() - j,
    {
        if !votes[j].mtype.vote() {
            return false;
        }
        j = j + 1;
    }
    true
}

} // verus!
