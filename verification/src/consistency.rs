//! What holds of a run at all times, and why every move of every role
//! keeps it so.

use vstd::prelude::*;
use crate::checker::{count_tx, decision_on, decisions, mentions, txids};
use crate::client::{lemma_client_sequential, lemma_step_sequential, ClientEvent, ClientView};
use crate::coordinator::{
    commit_vote, exit_all, lemma_step_tallied, sent, to_all, unanimous, voted_commit,
    CoordinatorAction, CoordinatorState, CoordinatorView,
};
use crate::message::{MessageType, ProtocolMessage, RequestStatus, TxId};
use crate::oplog::{lemma_count_kind_push, LogRecord};
use crate::participant::{ParticipantEvent, ParticipantState, ParticipantView};
use crate::system::{
    client_sends, participant_sends, post, to_clients_after, to_participants_after, Move, System,
};

verus! {

/// The message, where it tells of a decision or a result, tells what the
/// coordinator's log holds as the decision on that transaction.
pub open spec fn settled(log: Seq<LogRecord>, m: ProtocolMessage) -> bool {
    m.mtype.is_decision() || m.mtype.is_result() ==> m.mtype.status() == decision_on(log, m.txid)
}

/// Every one of the messages is settled.
pub open spec fn all_settled(log: Seq<LogRecord>, ms: Seq<ProtocolMessage>) -> bool {
    forall|j: int| 0 <= j < ms.len() ==> settled(log, #[trigger] ms[j])
}

/// Every message in every box is settled.
pub open spec fn boxes_settled(log: Seq<LogRecord>, boxes: Seq<Seq<ProtocolMessage>>) -> bool {
    forall|p: int| 0 <= p < boxes.len() ==> all_settled(log, #[trigger] boxes[p])
}

/// Every message that the actions send is settled.
pub open spec fn actions_settled(log: Seq<LogRecord>, actions: Seq<CoordinatorAction>) -> bool {
    forall|j: int|
        0 <= j < actions.len() ==> match sent(#[trigger] actions[j]) {
            Some(m) => settled(log, m),
            None => true,
        }
}

/// Adding a record raises the count of its own kind and transaction by one
/// and leaves every other count as it was.
pub proof fn lemma_count_tx_push(log: Seq<LogRecord>, rec: LogRecord, kind: MessageType, txid: TxId)
    ensures
        count_tx(log.push(rec), kind, txid) == count_tx(log, kind, txid) + if rec.mtype == kind
            && rec.txid == txid {
            1nat
        } else {
            0nat
        },
{
    assert(log.push(rec).drop_last() =~= log);
}

/// A log that never speaks of a transaction holds no record of it.
pub proof fn lemma_unmentioned(log: Seq<LogRecord>, kind: MessageType, txid: TxId)
    requires
        !mentions(log, txid, log.len() as int),
    ensures
        count_tx(log, kind, txid) == 0,
    decreases log.len(),
{
    if log.len() > 0 {
        let rest = log.drop_last();
        assert(log[log.len() - 1].txid != txid);
        assert(!mentions(rest, txid, rest.len() as int)) by {
            if mentions(rest, txid, rest.len() as int) {
                let k = choose|k: int|
                    0 <= k < rest.len() && k < rest.len() && (#[trigger] rest[k]).txid == txid;
                assert(log[k].txid == txid);
            }
        }
        lemma_unmentioned(rest, kind, txid);
    }
}

/// A log with one more record speaks of what it spoke of and of that
/// record's transaction.
pub proof fn lemma_mentions_push(log: Seq<LogRecord>, rec: LogRecord, txid: TxId)
    ensures
        mentions(log.push(rec), txid, log.len() as int + 1) <==> mentions(log, txid, log.len() as int)
            || rec.txid == txid,
{
    let more = log.push(rec);
    if mentions(log, txid, log.len() as int) {
        let k = choose|k: int|
            0 <= k < log.len() && k < log.len() && (#[trigger] log[k]).txid == txid;
        assert(more[k].txid == txid);
    }
    if rec.txid == txid {
        assert(more[log.len() as int].txid == txid);
    }
    if mentions(more, txid, log.len() as int + 1) {
        let k = choose|k: int|
            0 <= k < log.len() + 1 && k < more.len() && (#[trigger] more[k]).txid == txid;
        if k < log.len() {
            assert(log[k].txid == txid);
        }
    }
}

/// What a record does to the decision on a transaction: nothing, unless it
/// is a decision on that very transaction; and where it is the first one,
/// the decision is from then on what the record says.
pub proof fn lemma_decision_push(log: Seq<LogRecord>, rec: LogRecord, txid: TxId)
    ensures
        !rec.mtype.is_decision() || rec.txid != txid ==> decisions(log.push(rec), txid)
            == decisions(log, txid) && decision_on(log.push(rec), txid) == decision_on(log, txid),
        rec.mtype.is_decision() && rec.txid == txid ==> decisions(log.push(rec), txid)
            == decisions(log, txid) + 1,
        rec.mtype.is_decision() && rec.txid == txid && decisions(log, txid) == 0 ==> decision_on(
            log.push(rec),
            txid,
        ) == rec.mtype.status(),
{
    lemma_count_tx_push(log, rec, MessageType::CoordinatorCommit, txid);
    lemma_count_tx_push(log, rec, MessageType::CoordinatorAbort, txid);
}

/// A settled message stays settled when the log grows, as long as the log
/// does not decide a transaction for the second time.
pub proof fn lemma_settled_push(log: Seq<LogRecord>, rec: LogRecord, m: ProtocolMessage)
    requires
        settled(log, m),
        rec.mtype.is_decision() ==> decisions(log, rec.txid) == 0,
    ensures
        settled(log.push(rec), m),
{
    lemma_decision_push(log, rec, m.txid);
}

/// Settled messages stay settled when the log grows without deciding a
/// transaction for the second time.
proof fn lemma_all_settled_push(log: Seq<LogRecord>, rec: LogRecord, ms: Seq<ProtocolMessage>)
    requires
        all_settled(log, ms),
        rec.mtype.is_decision() ==> decisions(log, rec.txid) == 0,
    ensures
        all_settled(log.push(rec), ms),
{
    assert forall|j: int| 0 <= j < ms.len() implies settled(log.push(rec), #[trigger] ms[j]) by {
        lemma_settled_push(log, rec, ms[j]);
    }
}

/// Settled boxes stay settled when the log grows without deciding a
/// transaction for the second time.
proof fn lemma_boxes_settled_push(
    log: Seq<LogRecord>,
    rec: LogRecord,
    boxes: Seq<Seq<ProtocolMessage>>,
)
    requires
        boxes_settled(log, boxes),
        rec.mtype.is_decision() ==> decisions(log, rec.txid) == 0,
    ensures
        boxes_settled(log.push(rec), boxes),
{
    assert forall|p: int| 0 <= p < boxes.len() implies all_settled(
        log.push(rec),
        #[trigger] boxes[p],
    ) by {
        lemma_all_settled_push(log, rec, boxes[p]);
    }
}

/// Settled boxes stay settled when a settled message is put into one.
proof fn lemma_post_settled(
    log: Seq<LogRecord>,
    boxes: Seq<Seq<ProtocolMessage>>,
    to: int,
    m: ProtocolMessage,
)
    requires
        boxes_settled(log, boxes),
        settled(log, m),
    ensures
        boxes_settled(log, post(boxes, to, m)),
        post(boxes, to, m).len() == boxes.len(),
{
    let after = post(boxes, to, m);
    assert forall|p: int| 0 <= p < after.len() implies all_settled(log, #[trigger] after[p]) by {
        assert(all_settled(log, boxes[p]));
    }
}

/// Settled boxes stay settled when settled messages are put into them.
proof fn lemma_deliver_settled(
    log: Seq<LogRecord>,
    actions: Seq<CoordinatorAction>,
    boxes: Seq<Seq<ProtocolMessage>>,
)
    requires
        boxes_settled(log, boxes),
        actions_settled(log, actions),
    ensures
        boxes_settled(log, to_participants_after(actions, boxes)),
        boxes_settled(log, to_clients_after(actions, boxes)),
        to_participants_after(actions, boxes).len() == boxes.len(),
        to_clients_after(actions, boxes).len() == boxes.len(),
    decreases actions.len(),
{
    if actions.len() > 0 {
        let rest = actions.drop_last();
        assert forall|j: int| 0 <= j < rest.len() implies match sent(#[trigger] rest[j]) {
            Some(m) => settled(log, m),
            None => true,
        } by {
            assert(rest[j] == actions[j]);
        }
        lemma_deliver_settled(log, rest, boxes);
        let last = actions[actions.len() - 1];
        assert(match sent(last) {
            Some(m) => settled(log, m),
            None => true,
        });
        match last {
            CoordinatorAction::ToParticipant(p, m) => {
                lemma_post_settled(log, to_participants_after(rest, boxes), p as int, m);
            },
            CoordinatorAction::ToClient(c, m) => {
                lemma_post_settled(log, to_clients_after(rest, boxes), c as int, m);
            },
            _ => {},
        }
    }
}

impl System {
    /// The coordinator's log speaks of the transaction.
    pub open spec fn speaks_of(self, t: TxId) -> bool {
        mentions(self.coordinator.log, t, self.coordinator.log.len() as int)
    }

    /// The transaction is one that a client of the run has asked for.
    pub open spec fn owned(self, t: TxId) -> bool {
        t.client < self.clients.len() && t.seq < self.clients[t.client as int].num_requests
    }

    /// The coordinator has proposed a transaction and not yet logged its
    /// decision.
    pub open spec fn deciding(self) -> bool {
        ||| self.coordinator.state == CoordinatorState::ProposalSent
        ||| self.coordinator.state == CoordinatorState::ReceivedVotesCommit
        ||| self.coordinator.state == CoordinatorState::ReceivedVotesAbort
    }

    /// The roles and the boxes fit together.
    pub open spec fn shaped(self) -> bool {
        &&& self.n_requests <= u32::MAX
        &&& self.clients.len() <= u32::MAX
        &&& self.participants.len() <= u32::MAX
        &&& self.coordinator.participants == self.participants.len()
        &&& self.coordinator.clients == self.clients.len()
        &&& self.to_participants.len() == self.participants.len()
        &&& self.to_clients.len() == self.clients.len()
        &&& forall|c: int|
            0 <= c < self.clients.len() ==> (#[trigger] self.clients[c]).num == c
                && self.clients[c].sequential(self.n_requests)
    }

    /// Whatever tells of a decision or a result, be it on its way, noted by
    /// a client, logged or taken in by a participant, or logged by the
    /// coordinator itself, tells what the coordinator's log holds as the
    /// decision.
    pub open spec fn agreed(self) -> bool {
        let log = self.coordinator.log;
        &&& boxes_settled(log, self.to_participants)
        &&& boxes_settled(log, self.to_clients)
        &&& forall|p: int|
            0 <= p < self.participants.len() ==> all_settled(
                log,
                (#[trigger] self.participants[p]).log,
            )
        &&& forall|c: int|
            0 <= c < self.clients.len() ==> all_settled(log, (#[trigger] self.clients[c]).log)
        &&& forall|p: int|
            0 <= p < self.participants.len() ==> (#[trigger] self.participants[p]).state
                == ParticipantState::DecisionApplied ==> self.participants[p].decision.is_decision()
                && settled(log, self.participants[p].record(self.participants[p].decision))
        &&& all_settled(log, log)
    }

    /// The coordinator's log holds at most one decision on a transaction,
    /// and exactly one on each that it speaks of, but for the one that is
    /// under way.
    pub open spec fn orderly(self) -> bool {
        let log = self.coordinator.log;
        let now = self.coordinator.request.txid;
        &&& forall|t: TxId| #[trigger] decisions(log, t) <= 1
        &&& forall|t: TxId| #[trigger]
            self.speaks_of(t) ==> decisions(log, t) == 1 || (self.deciding() && t == now)
        &&& self.deciding() ==> decisions(log, now) == 0
        &&& self.coordinator.state == CoordinatorState::ReceivedRequest ==> !self.speaks_of(now)
        &&& self.coordinator.state == CoordinatorState::SentGlobalDecision ==> decision_on(log, now)
            == if self.coordinator.commit {
            RequestStatus::Committed
        } else {
            RequestStatus::Aborted
        }
    }

    /// Every request on its way is for a transaction that its client asked
    /// for, that no other request is for, and that the coordinator has not
    /// seen; and the coordinator has seen only transactions that a client
    /// asked for.
    pub open spec fn fresh(self) -> bool {
        &&& forall|i: int|
            0 <= i < self.requests.len() ==> {
                let t = (#[trigger] self.requests[i]).txid;
                &&& self.owned(t)
                &&& !self.speaks_of(t)
                &&& self.coordinator.state != CoordinatorState::Quiescent ==> t
                    != self.coordinator.request.txid
            }
        &&& forall|i: int, j: int|
            0 <= i < j < self.requests.len() ==> (#[trigger] self.requests[i]).txid != (
            #[trigger] self.requests[j]).txid
        &&& forall|t: TxId| #[trigger] self.speaks_of(t) ==> self.owned(t)
        &&& self.coordinator.state != CoordinatorState::Quiescent ==> self.owned(
            self.coordinator.request.txid,
        )
    }

    /// What holds of a run at all times.
    pub open spec fn consistent(self) -> bool {
        &&& self.shaped()
        &&& self.agreed()
        &&& self.orderly()
        &&& self.fresh()
    }
}

/// What holds of a run at all times holds at its start.
proof fn lemma_starts_consistent(s: System)
    requires
        s.starts(),
    ensures
        s.consistent(),
{
    let log = s.coordinator.log;
    assert forall|t: TxId| !(#[trigger] s.speaks_of(t)) by {}
    assert forall|t: TxId| #[trigger] decisions(log, t) == 0 by {
        lemma_unmentioned(log, MessageType::CoordinatorCommit, t);
        lemma_unmentioned(log, MessageType::CoordinatorAbort, t);
    }
    assert forall|c: int| 0 <= c < s.clients.len() implies (#[trigger] s.clients[c]).num == c
        && s.clients[c].sequential(s.n_requests) by {
        lemma_client_sequential(s.clients[c].id, c as nat, s.n_requests, Seq::empty());
    }
    assert forall|p: int| 0 <= p < s.participants.len() implies all_settled(
        log,
        (#[trigger] s.participants[p]).log,
    ) by {}
}

/// A client sends its next request when it advances, and nothing on any
/// other step.
proof fn lemma_client_outbox(v: ClientView, n_requests: nat, event: ClientEvent)
    ensures
        match v.step(n_requests, event) {
            Ok((_, actions)) => client_sends(actions) == if event is Advance {
                seq![v.next_request()]
            } else {
                Seq::<ProtocolMessage>::empty()
            },
            Err(_) => true,
        },
{
    match v.step(n_requests, event) {
        Ok((_, actions)) => {
            if actions.len() == 2 {
                assert(actions.drop_last().drop_last() =~= Seq::empty());
                assert(client_sends(actions.drop_last().drop_last()) =~= Seq::empty());
                assert(client_sends(actions.drop_last()) =~= Seq::empty());
                assert(client_sends(actions) =~= seq![v.next_request()]);
            } else if actions.len() == 1 {
                assert(actions.drop_last() =~= Seq::empty());
                assert(client_sends(actions.drop_last()) =~= Seq::empty());
            }
        },
        Err(_) => {},
    }
}

/// A client's request keeps what holds of a run at all times.
proof fn lemma_client_sends_consistent(s: System, c: int)
    requires
        s.consistent(),
    ensures
        s.moved(Move::ClientSends(c)).consistent(),
{
    let after = s.moved(Move::ClientSends(c));
    if after != s {
        let v = s.clients[c];
        let w = after.clients[c];
        let req = v.next_request();
        let log = s.coordinator.log;
        lemma_client_outbox(v, s.n_requests, ClientEvent::Advance);
        assert(after.requests =~= s.requests.push(req));
        assert(v.num == c);
        assert(req.txid.client == c && req.txid.seq == v.num_requests);
        assert forall|t: TxId| s.owned(t) implies after.owned(t) && t != req.txid by {
            if t.client as int != c {
                assert(after.clients[t.client as int] == s.clients[t.client as int]);
            }
        }
        assert(after.owned(req.txid));
        assert forall|t: TxId| #[trigger] after.speaks_of(t) implies after.owned(t) by {
            assert(s.speaks_of(t));
        }
        assert forall|i: int| 0 <= i < after.requests.len() implies {
            let t = (#[trigger] after.requests[i]).txid;
            &&& after.owned(t)
            &&& !after.speaks_of(t)
            &&& after.coordinator.state != CoordinatorState::Quiescent ==> t
                != after.coordinator.request.txid
        } by {
            if i < s.requests.len() {
                assert(s.owned(s.requests[i].txid));
            } else {
                if s.speaks_of(req.txid) {
                    assert(s.owned(req.txid));
                }
            }
        }
        assert forall|i: int, j: int| 0 <= i < j < after.requests.len() implies (
        #[trigger] after.requests[i]).txid != (#[trigger] after.requests[j]).txid by {
            if j == s.requests.len() {
                assert(s.owned(s.requests[i].txid));
            }
        }
        assert(after.fresh());
        assert forall|k: int| 0 <= k < after.clients.len() implies (
        #[trigger] after.clients[k]).num == k && after.clients[k].sequential(
            after.n_requests,
        ) by {
            assert(s.clients[k].num == k);
            lemma_step_sequential(v, s.n_requests, ClientEvent::Advance);
        }
        assert(after.shaped());
        assert forall|k: int| 0 <= k < after.clients.len() implies all_settled(
            log,
            (#[trigger] after.clients[k]).log,
        ) by {
            assert(all_settled(log, s.clients[k].log));
            if k == c {
                assert forall|j: int| 0 <= j < w.log.len() implies settled(
                    log,
                    #[trigger] w.log[j],
                ) by {
                    if j < v.log.len() {
                        assert(w.log[j] == v.log[j]);
                    }
                }
            }
        }
        assert(after.agreed());
        assert forall|t: TxId| #[trigger]
            after.speaks_of(t) implies decisions(log, t) == 1 || (after.deciding() && t
            == after.coordinator.request.txid) by {
            assert(s.speaks_of(t));
        }
        assert(after.orderly());
    }
}

/// A client's taking of a message keeps what holds of a run at all times.
proof fn lemma_client_hears_consistent(s: System, c: int)
    requires
        s.consistent(),
    ensures
        s.moved(Move::ClientHears(c)).consistent(),
{
    let after = s.moved(Move::ClientHears(c));
    if after != s {
        let v = s.clients[c];
        let w = after.clients[c];
        let m = s.to_clients[c][0];
        let log = s.coordinator.log;
        lemma_client_outbox(v, s.n_requests, ClientEvent::Result(m));
        assert(after.requests =~= s.requests);
        assert(all_settled(log, s.to_clients[c]));
        assert(settled(log, m));
        assert forall|t: TxId| s.owned(t) == after.owned(t) by {
            if t.client as int != c && (t.client as int) < s.clients.len() {
                assert(after.clients[t.client as int] == s.clients[t.client as int]);
            }
        }
        assert forall|t: TxId| #[trigger] after.speaks_of(t) implies after.owned(t) by {
            assert(s.speaks_of(t));
        }
        assert forall|i: int| 0 <= i < after.requests.len() implies {
            let t = (#[trigger] after.requests[i]).txid;
            &&& after.owned(t)
            &&& !after.speaks_of(t)
            &&& after.coordinator.state != CoordinatorState::Quiescent ==> t
                != after.coordinator.request.txid
        } by {
            assert(s.owned(s.requests[i].txid));
        }
        assert(after.fresh());
        assert forall|k: int| 0 <= k < after.clients.len() implies (
        #[trigger] after.clients[k]).num == k && after.clients[k].sequential(
            after.n_requests,
        ) by {
            assert(s.clients[k].num == k);
            lemma_step_sequential(v, s.n_requests, ClientEvent::Result(m));
        }
        assert(after.shaped());
        assert forall|k: int| 0 <= k < after.clients.len() implies all_settled(
            log,
            (#[trigger] after.clients[k]).log,
        ) by {
            assert(all_settled(log, s.clients[k].log));
            if k == c {
                assert forall|j: int| 0 <= j < w.log.len() implies settled(
                    log,
                    #[trigger] w.log[j],
                ) by {
                    if j < v.log.len() {
                        assert(w.log[j] == v.log[j]);
                    }
                }
            }
        }
        assert forall|k: int| 0 <= k < after.to_clients.len() implies all_settled(
            log,
            #[trigger] after.to_clients[k],
        ) by {
            assert(all_settled(log, s.to_clients[k]));
            if k == c {
                assert forall|j: int| 0 <= j < after.to_clients[k].len() implies settled(
                    log,
                    #[trigger] after.to_clients[k][j],
                ) by {
                    assert(after.to_clients[k][j] == s.to_clients[k][j + 1]);
                }
            }
        }
        assert(after.agreed());
        assert forall|t: TxId| #[trigger]
            after.speaks_of(t) implies decisions(log, t) == 1 || (after.deciding() && t
            == after.coordinator.request.txid) by {
            assert(s.speaks_of(t));
        }
        assert(after.orderly());
    }
}

/// A client's stop keeps what holds of a run at all times.
proof fn lemma_client_stops_consistent(s: System, c: int)
    requires
        s.consistent(),
    ensures
        s.moved(Move::ClientStops(c)).consistent(),
{
    let after = s.moved(Move::ClientStops(c));
    if after != s {
        let v = s.clients[c];
        let log = s.coordinator.log;
        lemma_client_outbox(v, s.n_requests, ClientEvent::Stop);
        assert(after.requests =~= s.requests);
        assert forall|t: TxId| s.owned(t) == after.owned(t) by {
            if t.client as int != c && (t.client as int) < s.clients.len() {
                assert(after.clients[t.client as int] == s.clients[t.client as int]);
            }
        }
        assert forall|t: TxId| #[trigger] after.speaks_of(t) implies after.owned(t) by {
            assert(s.speaks_of(t));
        }
        assert forall|i: int| 0 <= i < after.requests.len() implies {
            let t = (#[trigger] after.requests[i]).txid;
            &&& after.owned(t)
            &&& !after.speaks_of(t)
            &&& after.coordinator.state != CoordinatorState::Quiescent ==> t
                != after.coordinator.request.txid
        } by {
            assert(s.owned(s.requests[i].txid));
        }
        assert(after.fresh());
        assert forall|k: int| 0 <= k < after.clients.len() implies (
        #[trigger] after.clients[k]).num == k && after.clients[k].sequential(
            after.n_requests,
        ) by {
            assert(s.clients[k].num == k);
            lemma_step_sequential(v, s.n_requests, ClientEvent::Stop);
        }
        assert(after.shaped());
        assert forall|k: int| 0 <= k < after.clients.len() implies all_settled(
            log,
            (#[trigger] after.clients[k]).log,
        ) by {
            assert(all_settled(log, s.clients[k].log));
        }
        assert(after.agreed());
        assert forall|t: TxId| #[trigger]
            after.speaks_of(t) implies decisions(log, t) == 1 || (after.deciding() && t
            == after.coordinator.request.txid) by {
            assert(s.speaks_of(t));
        }
        assert(after.orderly());
    }
}

/// A move of a participant leaves the coordinator, the clients and the
/// requests alone.
proof fn lemma_participant_moves_frame(s: System, after: System)
    requires
        s.consistent(),
        after.coordinator == s.coordinator,
        after.clients == s.clients,
        after.requests == s.requests,
        after.n_requests == s.n_requests,
        after.to_clients == s.to_clients,
        after.participants.len() == s.participants.len(),
        after.to_participants.len() == s.to_participants.len(),
    ensures
        after.shaped(),
        after.orderly(),
        after.fresh(),
{
    assert forall|t: TxId| s.speaks_of(t) == after.speaks_of(t) by {}
    assert forall|t: TxId| s.owned(t) == after.owned(t) by {}
    assert forall|t: TxId| #[trigger]
        after.speaks_of(t) implies decisions(after.coordinator.log, t) == 1 || (after.deciding()
        && t == after.coordinator.request.txid) by {
        assert(s.speaks_of(t));
    }
    assert forall|t: TxId| #[trigger] after.speaks_of(t) implies after.owned(t) by {
        assert(s.speaks_of(t));
    }
    assert forall|i: int| 0 <= i < after.requests.len() implies {
        let t = (#[trigger] after.requests[i]).txid;
        &&& after.owned(t)
        &&& !after.speaks_of(t)
        &&& after.coordinator.state != CoordinatorState::Quiescent ==> t
            != after.coordinator.request.txid
    } by {
        assert(s.owned(s.requests[i].txid));
    }
}

/// A participant's taking of a message keeps what holds of a run at all
/// times.
proof fn lemma_participant_hears_consistent(s: System, p: int)
    requires
        s.consistent(),
    ensures
        s.moved(Move::ParticipantHears(p)).consistent(),
{
    let after = s.moved(Move::ParticipantHears(p));
    if after != s {
        let v = s.participants[p];
        let w = after.participants[p];
        let m = s.to_participants[p][0];
        let log = s.coordinator.log;
        lemma_participant_moves_frame(s, after);
        assert(all_settled(log, s.to_participants[p]));
        assert(settled(log, m));
        assert forall|k: int| 0 <= k < after.to_participants.len() implies all_settled(
            log,
            #[trigger] after.to_participants[k],
        ) by {
            assert(all_settled(log, s.to_participants[k]));
            if k == p {
                assert forall|j: int| 0 <= j < after.to_participants[k].len() implies settled(
                    log,
                    #[trigger] after.to_participants[k][j],
                ) by {
                    assert(after.to_participants[k][j] == s.to_participants[k][j + 1]);
                }
            }
        }
        assert forall|k: int| 0 <= k < after.participants.len() implies all_settled(
            log,
            (#[trigger] after.participants[k]).log,
        ) by {
            assert(all_settled(log, s.participants[k].log));
        }
        assert forall|k: int|
            0 <= k < after.participants.len() && (#[trigger] after.participants[k]).state
                == ParticipantState::DecisionApplied implies after.participants[k].decision.is_decision()
            && settled(log, after.participants[k].record(after.participants[k].decision)) by {
            if k != p {
                assert(after.participants[k] == s.participants[k]);
            }
        }
        assert forall|c: int| 0 <= c < after.clients.len() implies all_settled(
            log,
            (#[trigger] after.clients[c]).log,
        ) by {}
        assert(after.agreed());
    }
}

/// A participant's vote, and its logging of an outcome, keep what holds of
/// a run at all times.
proof fn lemma_participant_advances_consistent(s: System, p: int, op_draw: nat, send_draw: nat)
    requires
        s.consistent(),
    ensures
        s.moved(Move::ParticipantAdvances(p, op_draw, send_draw)).consistent(),
{
    let after = s.moved(Move::ParticipantAdvances(p, op_draw, send_draw));
    if after != s {
        let v = s.participants[p];
        let w = after.participants[p];
        let log = s.coordinator.log;
        lemma_participant_moves_frame(s, after);
        assert forall|k: int| 0 <= k < after.participants.len() implies all_settled(
            log,
            (#[trigger] after.participants[k]).log,
        ) by {
            assert(all_settled(log, s.participants[k].log));
            if k == p {
                assert forall|j: int| 0 <= j < w.log.len() implies settled(
                    log,
                    #[trigger] w.log[j],
                ) by {
                    if j < v.log.len() {
                        assert(w.log[j] == v.log[j]);
                    }
                }
            }
        }
        assert forall|k: int|
            0 <= k < after.participants.len() && (#[trigger] after.participants[k]).state
                == ParticipantState::DecisionApplied implies after.participants[k].decision.is_decision()
            && settled(log, after.participants[k].record(after.participants[k].decision)) by {
            if k != p {
                assert(after.participants[k] == s.participants[k]);
            }
        }
        assert forall|c: int| 0 <= c < after.clients.len() implies all_settled(
            log,
            (#[trigger] after.clients[c]).log,
        ) by {}
        assert(after.agreed());
    }
}

/// A move of the coordinator that leaves its log and its boxes alone.
proof fn lemma_coordinator_quiet_move(s: System, after: System)
    requires
        s.consistent(),
        after.coordinator.log == s.coordinator.log,
        after.coordinator.participants == s.coordinator.participants,
        after.coordinator.clients == s.coordinator.clients,
        after.clients == s.clients,
        after.participants == s.participants,
        after.n_requests == s.n_requests,
        after.to_clients == s.to_clients,
        after.to_participants == s.to_participants,
    ensures
        after.shaped(),
        after.agreed(),
{
    assert forall|p: int| 0 <= p < after.participants.len() implies all_settled(
        after.coordinator.log,
        (#[trigger] after.participants[p]).log,
    ) by {}
    assert forall|c: int| 0 <= c < after.clients.len() implies all_settled(
        after.coordinator.log,
        (#[trigger] after.clients[c]).log,
    ) by {}
}

/// No actions, no change to the boxes.
proof fn lemma_boxes_untouched(boxes: Seq<Seq<ProtocolMessage>>)
    ensures
        to_participants_after(Seq::empty(), boxes) == boxes,
        to_clients_after(Seq::empty(), boxes) == boxes,
{
}

/// The coordinator's taking of a request keeps what holds of a run at all
/// times.
proof fn lemma_coordinator_takes_consistent(s: System)
    requires
        s.consistent(),
    ensures
        s.moved(Move::CoordinatorTakes).consistent(),
{
    let after = s.moved(Move::CoordinatorTakes);
    if after != s {
        let req = s.requests[0];
        let log = s.coordinator.log;
        lemma_boxes_untouched(s.to_participants);
        lemma_boxes_untouched(s.to_clients);
        lemma_coordinator_quiet_move(s, after);
        assert(s.coordinator.state == CoordinatorState::Quiescent);
        assert(after.coordinator.request == req);
        assert forall|t: TxId| s.speaks_of(t) == after.speaks_of(t) by {}
        assert forall|t: TxId| s.owned(t) == after.owned(t) by {}
        assert(s.owned(s.requests[0].txid) && !s.speaks_of(s.requests[0].txid));
        assert forall|t: TxId| #[trigger]
            after.speaks_of(t) implies decisions(log, t) == 1 || (after.deciding() && t
            == after.coordinator.request.txid) by {
            assert(s.speaks_of(t));
        }
        assert(after.orderly());
        assert forall|t: TxId| #[trigger] after.speaks_of(t) implies after.owned(t) by {
            assert(s.speaks_of(t));
        }
        assert forall|i: int| 0 <= i < after.requests.len() implies {
            let t = (#[trigger] after.requests[i]).txid;
            &&& after.owned(t)
            &&& !after.speaks_of(t)
            &&& after.coordinator.state != CoordinatorState::Quiescent ==> t
                != after.coordinator.request.txid
        } by {
            assert(after.requests[i] == s.requests[i + 1]);
            assert(s.owned(s.requests[i + 1].txid));
            assert(s.requests[0].txid != s.requests[i + 1].txid);
        }
        assert forall|i: int, j: int| 0 <= i < j < after.requests.len() implies (
        #[trigger] after.requests[i]).txid != (#[trigger] after.requests[j]).txid by {
            assert(after.requests[i] == s.requests[i + 1]);
            assert(after.requests[j] == s.requests[j + 1]);
        }
        assert(after.fresh());
    }
}

/// The coordinator's counting of the votes keeps what holds of a run at
/// all times.
proof fn lemma_coordinator_counts_consistent(s: System, k: int)
    requires
        s.consistent(),
    ensures
        s.moved(Move::CoordinatorCounts(k)).consistent(),
{
    let after = s.moved(Move::CoordinatorCounts(k));
    if after != s {
        let log = s.coordinator.log;
        lemma_boxes_untouched(s.to_participants);
        lemma_boxes_untouched(s.to_clients);
        lemma_coordinator_quiet_move(s, after);
        assert(s.deciding() && after.deciding());
        assert forall|t: TxId| s.speaks_of(t) == after.speaks_of(t) by {}
        assert forall|t: TxId| s.owned(t) == after.owned(t) by {}
        assert forall|t: TxId| #[trigger]
            after.speaks_of(t) implies decisions(log, t) == 1 || (after.deciding() && t
            == after.coordinator.request.txid) by {
            assert(s.speaks_of(t));
        }
        assert(after.orderly());
        assert forall|t: TxId| #[trigger] after.speaks_of(t) implies after.owned(t) by {
            assert(s.speaks_of(t));
        }
        assert forall|i: int| 0 <= i < after.requests.len() implies {
            let t = (#[trigger] after.requests[i]).txid;
            &&& after.owned(t)
            &&& !after.speaks_of(t)
            &&& after.coordinator.state != CoordinatorState::Quiescent ==> t
                != after.coordinator.request.txid
        } by {
            assert(s.owned(s.requests[i].txid));
        }
        assert(after.fresh());
    }
}

/// The word to exit is settled, whatever the log.
proof fn lemma_exits_settled(log: Seq<LogRecord>, clients: nat, participants: nat)
    ensures
        actions_settled(log, exit_all(clients, participants)),
        actions_settled(log, Seq::empty()),
{
    let actions = exit_all(clients, participants);
    assert forall|j: int| 0 <= j < actions.len() implies match sent(#[trigger] actions[j]) {
        Some(m) => settled(log, m),
        None => true,
    } by {
        if j >= clients {
            assert(actions[j] == to_all(
                MessageType::CoordinatorExit,
                TxId { client: 0, seq: 0 },
                0,
                participants,
            )[j - clients]);
        }
    }
}

/// A move of the coordinator by which its log grows by one record and
/// settled messages go out.
proof fn lemma_coordinator_logs(
    s: System,
    next: CoordinatorView,
    rec: LogRecord,
    actions: Seq<CoordinatorAction>,
)
    requires
        s.consistent(),
        next.log == s.coordinator.log.push(rec),
        next.participants == s.coordinator.participants,
        next.clients == s.coordinator.clients,
        rec.mtype.is_decision() ==> decisions(s.coordinator.log, rec.txid) == 0,
        settled(next.log, rec),
        actions_settled(next.log, actions),
    ensures
        s.coordinator_moved(next, actions).shaped(),
        s.coordinator_moved(next, actions).agreed(),
{
    let after = s.coordinator_moved(next, actions);
    let log = s.coordinator.log;
    lemma_boxes_settled_push(log, rec, s.to_participants);
    lemma_boxes_settled_push(log, rec, s.to_clients);
    lemma_deliver_settled(next.log, actions, s.to_participants);
    lemma_deliver_settled(next.log, actions, s.to_clients);
    assert forall|p: int| 0 <= p < after.participants.len() implies all_settled(
        next.log,
        (#[trigger] after.participants[p]).log,
    ) by {
        assert(all_settled(log, s.participants[p].log));
        lemma_all_settled_push(log, rec, s.participants[p].log);
    }
    assert forall|c: int| 0 <= c < after.clients.len() implies all_settled(
        next.log,
        (#[trigger] after.clients[c]).log,
    ) by {
        assert(all_settled(log, s.clients[c].log));
        lemma_all_settled_push(log, rec, s.clients[c].log);
    }
    assert forall|p: int|
        0 <= p < after.participants.len() && (#[trigger] after.participants[p]).state
            == ParticipantState::DecisionApplied implies after.participants[p].decision.is_decision()
        && settled(next.log, after.participants[p].record(after.participants[p].decision)) by {
        let v = s.participants[p];
        if v.state == ParticipantState::DecisionApplied {
            lemma_settled_push(log, rec, v.record(v.decision));
        }
    }
    assert(all_settled(next.log, next.log)) by {
        lemma_all_settled_push(log, rec, log);
        assert forall|j: int| 0 <= j < next.log.len() implies settled(
            next.log,
            #[trigger] next.log[j],
        ) by {
            if j < log.len() {
                assert(next.log[j] == log[j]);
                assert(settled(next.log, log[j]));
            }
        }
    }
}

/// What a move of the coordinator by which its log grows leaves as it was.
proof fn lemma_coordinator_logs_fresh(
    s: System,
    next: CoordinatorView,
    rec: LogRecord,
    actions: Seq<CoordinatorAction>,
)
    requires
        s.consistent(),
        s.coordinator.state != CoordinatorState::Quiescent,
        next.log == s.coordinator.log.push(rec),
        next.request == s.coordinator.request,
        rec.txid == s.coordinator.request.txid,
    ensures
        s.coordinator_moved(next, actions).fresh(),
        forall|t: TxId|
            #![trigger s.coordinator_moved(next, actions).speaks_of(t)]
            s.coordinator_moved(next, actions).speaks_of(t) <==> s.speaks_of(t) || t == rec.txid,
{
    let after = s.coordinator_moved(next, actions);
    let log = s.coordinator.log;
    assert forall|t: TxId|
        #![trigger after.speaks_of(t)]
        after.speaks_of(t) <==> s.speaks_of(t) || t == rec.txid by {
        lemma_mentions_push(log, rec, t);
    }
    assert forall|t: TxId| s.owned(t) == after.owned(t) by {}
    assert forall|t: TxId| #[trigger] after.speaks_of(t) implies after.owned(t) by {
        if t != rec.txid {
            assert(s.speaks_of(t));
        }
    }
    assert forall|i: int| 0 <= i < after.requests.len() implies {
        let t = (#[trigger] after.requests[i]).txid;
        &&& after.owned(t)
        &&& !after.speaks_of(t)
        &&& after.coordinator.state != CoordinatorState::Quiescent ==> t
            != after.coordinator.request.txid
    } by {
        assert(s.owned(s.requests[i].txid));
    }
}

/// The coordinator's proposal, decision and result keep what holds of a
/// run at all times.
#[verifier::spinoff_prover]
#[verifier::rlimit(40)]
proof fn lemma_coordinator_advances_consistent(s: System)
    requires
        s.consistent(),
    ensures
        s.moved(Move::CoordinatorAdvances).consistent(),
{
    let after = s.moved(Move::CoordinatorAdvances);
    if after != s {
        let v = s.coordinator;
        let log = v.log;
        let now = v.request.txid;
        let (next, actions) = v.on_advance()->Ok_0;
        assert(after == s.coordinator_moved(next, actions));
        let rec = next.log[next.log.len() - 1];
        assert(next.log =~= log.push(rec));
        assert(rec.txid == now);
        lemma_coordinator_logs_fresh(s, next, rec, actions);
        assert forall|t: TxId|
            decisions(next.log, t) == decisions(log, t) + if rec.mtype.is_decision() && t == now {
                1nat
            } else {
                0nat
            } by {
            lemma_decision_push(log, rec, t);
        }
        lemma_decision_push(log, rec, now);
        if v.state == CoordinatorState::ReceivedRequest {
            assert(!s.speaks_of(now));
            lemma_unmentioned(log, MessageType::CoordinatorCommit, now);
            lemma_unmentioned(log, MessageType::CoordinatorAbort, now);
            assert forall|j: int| 0 <= j < actions.len() implies match sent(#[trigger] actions[j]) {
                Some(m) => settled(next.log, m),
                None => true,
            } by {
                if j >= 1 {
                    assert(actions[j] == v.broadcast(MessageType::CoordinatorPropose)[j - 1]);
                }
            }
        } else if v.state == CoordinatorState::SentGlobalDecision {
            lemma_exits_settled(next.log, v.clients, v.participants);
            assert(decisions(log, now) >= 1);
            if !s.speaks_of(now) {
                lemma_unmentioned(log, MessageType::CoordinatorCommit, now);
                lemma_unmentioned(log, MessageType::CoordinatorAbort, now);
            }
            assert(s.speaks_of(now));
            assert forall|j: int| 0 <= j < actions.len() implies match sent(#[trigger] actions[j]) {
                Some(m) => settled(next.log, m),
                None => true,
            } by {
                if j >= 2 {
                    assert(actions[j] == exit_all(v.clients, v.participants)[j - 2]);
                }
            }
        } else {
            assert(s.deciding());
            assert forall|j: int| 0 <= j < actions.len() implies match sent(#[trigger] actions[j]) {
                Some(m) => settled(next.log, m),
                None => true,
            } by {
                if j >= 1 {
                    assert(actions[j] == v.broadcast(rec.mtype)[j - 1]);
                }
            }
        }
        lemma_coordinator_logs(s, next, rec, actions);
        assert forall|t: TxId| #[trigger] decisions(next.log, t) <= 1 by {
            assert(decisions(log, t) <= 1);
        }
        assert forall|t: TxId| #[trigger]
            after.speaks_of(t) implies decisions(next.log, t) == 1 || (after.deciding() && t
            == now) by {
            if t != now {
                assert(s.speaks_of(t));
            }
        }
        assert(after.orderly());
    }
}

/// The coordinator's stop keeps what holds of a run at all times.
proof fn lemma_coordinator_stops_consistent(s: System)
    requires
        s.consistent(),
    ensures
        s.moved(Move::CoordinatorStops).consistent(),
{
    let after = s.moved(Move::CoordinatorStops);
    if after != s {
        let v = s.coordinator;
        let log = v.log;
        let (next, actions) = v.on_stop()->Ok_0;
        assert(after == s.coordinator_moved(next, actions));
        lemma_exits_settled(log, v.clients, v.participants);
        lemma_deliver_settled(log, actions, s.to_participants);
        lemma_deliver_settled(log, actions, s.to_clients);
        assert forall|p: int| 0 <= p < after.participants.len() implies all_settled(
            log,
            (#[trigger] after.participants[p]).log,
        ) by {}
        assert forall|c: int| 0 <= c < after.clients.len() implies all_settled(
            log,
            (#[trigger] after.clients[c]).log,
        ) by {}
        assert(after.agreed());
        assert(after.shaped());
        assert forall|t: TxId| s.speaks_of(t) == after.speaks_of(t) by {}
        assert forall|t: TxId| s.owned(t) == after.owned(t) by {}
        assert forall|t: TxId| #[trigger]
            after.speaks_of(t) implies decisions(log, t) == 1 || (after.deciding() && t
            == after.coordinator.request.txid) by {
            assert(s.speaks_of(t));
        }
        assert(after.orderly());
        assert forall|t: TxId| #[trigger] after.speaks_of(t) implies after.owned(t) by {
            assert(s.speaks_of(t));
        }
        assert forall|i: int| 0 <= i < after.requests.len() implies {
            let t = (#[trigger] after.requests[i]).txid;
            &&& after.owned(t)
            &&& !after.speaks_of(t)
            &&& after.coordinator.state != CoordinatorState::Quiescent ==> t
                != after.coordinator.request.txid
        } by {
            assert(s.owned(s.requests[i].txid));
        }
        assert(after.fresh());
    }
}

/// One move keeps what holds of a run at all times.
pub proof fn lemma_move_consistent(s: System, mv: Move)
    requires
        s.consistent(),
    ensures
        s.moved(mv).consistent(),
{
    match mv {
        Move::ClientSends(c) => lemma_client_sends_consistent(s, c),
        Move::ClientHears(c) => lemma_client_hears_consistent(s, c),
        Move::ClientStops(c) => lemma_client_stops_consistent(s, c),
        Move::CoordinatorTakes => lemma_coordinator_takes_consistent(s),
        Move::CoordinatorCounts(k) => lemma_coordinator_counts_consistent(s, k),
        Move::CoordinatorAdvances => lemma_coordinator_advances_consistent(s),
        Move::CoordinatorStops => lemma_coordinator_stops_consistent(s),
        Move::ParticipantHears(p) => lemma_participant_hears_consistent(s, p),
        Move::ParticipantAdvances(p, op_draw, send_draw) => lemma_participant_advances_consistent(
            s,
            p,
            op_draw,
            send_draw,
        ),
    }
}

/// Whatever moves are made from the start of a run, and in whatever order,
/// what holds of a run at all times holds after them.
pub proof fn lemma_run_consistent(start: System, moves: Seq<Move>)
    requires
        start.starts(),
    ensures
        start.after(moves).consistent(),
    decreases moves.len(),
{
    if moves.len() == 0 {
        lemma_starts_consistent(start);
    } else {
        lemma_run_consistent(start, moves.drop_last());
        lemma_move_consistent(start.after(moves.drop_last()), moves.last());
    }
}

/// A settled decision or result is of a transaction that was decided once.
pub proof fn lemma_settled_decided(s: System, m: ProtocolMessage)
    requires
        s.consistent(),
        settled(s.coordinator.log, m),
        m.mtype.is_decision() || m.mtype.is_result(),
    ensures
        decisions(s.coordinator.log, m.txid) == 1,
        decision_on(s.coordinator.log, m.txid) == m.mtype.status(),
        s.speaks_of(m.txid),
{
    let log = s.coordinator.log;
    assert(decisions(log, m.txid) <= 1);
    if !s.speaks_of(m.txid) {
        lemma_unmentioned(log, MessageType::CoordinatorCommit, m.txid);
        lemma_unmentioned(log, MessageType::CoordinatorAbort, m.txid);
    }
}

/// The log holds a vote to commit the transaction.
pub open spec fn cast_commit(log: Seq<LogRecord>, t: TxId) -> bool {
    exists|j: int|
        0 <= j < log.len() && (#[trigger] log[j]).mtype == MessageType::ParticipantVoteCommit
            && log[j].txid == t
}

impl System {
    /// Every participant has logged a vote to commit the transaction.
    pub open spec fn all_cast_commit(self, t: TxId) -> bool {
        forall|p: int|
            0 <= p < self.participants.len() ==> cast_commit(
                (#[trigger] self.participants[p]).log,
                t,
            )
    }

    /// Votes are what they say: a vote to commit that is on its way under a
    /// participant's index was logged by that participant, and where the
    /// coordinator has counted the votes as unanimous, or has logged a
    /// decision to commit, every participant has logged its vote to commit.
    pub open spec fn vouched(self) -> bool {
        &&& forall|p: int|
            0 <= p < self.participants.len() ==> (#[trigger] self.participants[p]).num == p
        &&& forall|i: int|
            0 <= i < self.votes.len() ==> {
                let m = #[trigger] self.votes[i];
                m.mtype == MessageType::ParticipantVoteCommit && m.senderid
                    < self.participants.len() ==> cast_commit(
                    self.participants[m.senderid as int].log,
                    m.txid,
                )
            }
        &&& self.coordinator.state == CoordinatorState::ReceivedVotesCommit
            ==> self.all_cast_commit(self.coordinator.request.txid)
        &&& forall|t: TxId| #[trigger]
            count_tx(self.coordinator.log, MessageType::CoordinatorCommit, t) > 0
                ==> self.all_cast_commit(t)
    }
}

/// A participant sends its vote when it votes and the link lets it through,
/// and nothing on any other step.
proof fn lemma_participant_outbox(v: ParticipantView, event: ParticipantEvent, op: nat, send: nat)
    ensures
        match v.step(event, op, send) {
            Ok((after, actions)) => participant_sends(actions) == if event is Advance && v.state
                == ParticipantState::ProposalReceived && send < v.send_success {
                seq![v.record(v.vote_kind(op))]
            } else {
                Seq::<ProtocolMessage>::empty()
            },
            Err(_) => true,
        },
{
    match v.step(event, op, send) {
        Ok((_, actions)) => {
            if actions.len() == 2 {
                assert(actions.drop_last().drop_last() =~= Seq::empty());
                assert(participant_sends(actions.drop_last().drop_last()) =~= Seq::empty());
                assert(participant_sends(actions.drop_last()) =~= Seq::empty());
                assert(participant_sends(actions) =~= seq![v.record(v.vote_kind(op))]);
            } else if actions.len() == 1 {
                assert(actions.drop_last() =~= Seq::empty());
                assert(participant_sends(actions.drop_last()) =~= Seq::empty());
            }
        },
        Err(_) => {},
    }
}

/// A vote to commit that a log holds stays in it, and one that is added is
/// in it.
proof fn lemma_cast_commit_push(log: Seq<LogRecord>, rec: LogRecord, t: TxId)
    ensures
        cast_commit(log, t) ==> cast_commit(log.push(rec), t),
        rec.mtype == MessageType::ParticipantVoteCommit && rec.txid == t ==> cast_commit(
            log.push(rec),
            t,
        ),
{
    let more = log.push(rec);
    if cast_commit(log, t) {
        let j = choose|j: int|
            0 <= j < log.len() && (#[trigger] log[j]).mtype == MessageType::ParticipantVoteCommit
                && log[j].txid == t;
        assert(more[j] == log[j]);
    }
    if rec.mtype == MessageType::ParticipantVoteCommit && rec.txid == t {
        assert(more[log.len() as int] == rec);
    }
}

/// A move that leaves the participants and the votes alone, and after which
/// the coordinator holds no decision to commit that it did not hold, and
/// has not newly counted votes as unanimous.
proof fn lemma_vouched_frame(s: System, after: System)
    requires
        s.vouched(),
        after.participants == s.participants,
        after.votes == s.votes,
        after.coordinator.state == CoordinatorState::ReceivedVotesCommit ==> s.coordinator.state
            == CoordinatorState::ReceivedVotesCommit && after.coordinator.request
            == s.coordinator.request,
        forall|t: TxId| #[trigger]
            count_tx(after.coordinator.log, MessageType::CoordinatorCommit, t) > 0 ==> count_tx(
                s.coordinator.log,
                MessageType::CoordinatorCommit,
                t,
            ) > 0 || (s.coordinator.state == CoordinatorState::ReceivedVotesCommit && t
                == s.coordinator.request.txid),
    ensures
        after.vouched(),
{
    assert forall|t: TxId| s.all_cast_commit(t) == after.all_cast_commit(t) by {}
    assert forall|t: TxId| #[trigger]
        count_tx(after.coordinator.log, MessageType::CoordinatorCommit, t)
            > 0 implies after.all_cast_commit(t) by {
        if count_tx(s.coordinator.log, MessageType::CoordinatorCommit, t) > 0 {
            assert(s.all_cast_commit(t));
        }
    }
}

/// One move keeps votes what they say.
#[verifier::spinoff_prover]
#[verifier::rlimit(40)]
proof fn lemma_move_vouched(s: System, mv: Move)
    requires
        s.consistent(),
        s.vouched(),
    ensures
        s.moved(mv).vouched(),
{
    let after = s.moved(mv);
    if after != s {
        let log = s.coordinator.log;
        match mv {
            Move::ClientSends(_) | Move::ClientHears(_) | Move::ClientStops(_) => {
                lemma_vouched_frame(s, after);
            },
            Move::CoordinatorTakes | Move::CoordinatorStops => {
                lemma_vouched_frame(s, after);
            },
            Move::CoordinatorAdvances => {
                let rec = after.coordinator.log[after.coordinator.log.len() - 1];
                assert(after.coordinator.log =~= log.push(rec));
                assert forall|t: TxId| #[trigger]
                    count_tx(after.coordinator.log, MessageType::CoordinatorCommit, t)
                        > 0 implies count_tx(log, MessageType::CoordinatorCommit, t) > 0 || (
                s.coordinator.state == CoordinatorState::ReceivedVotesCommit && t
                    == s.coordinator.request.txid) by {
                    lemma_count_tx_push(log, rec, MessageType::CoordinatorCommit, t);
                }
                lemma_vouched_frame(s, after);
            },
            Move::CoordinatorCounts(k) => {
                let counted = s.votes.subrange(0, k);
                let now = s.coordinator.request.txid;
                assert forall|i: int| 0 <= i < after.votes.len() implies {
                    let m = #[trigger] after.votes[i];
                    m.mtype == MessageType::ParticipantVoteCommit && m.senderid
                        < after.participants.len() ==> cast_commit(
                        after.participants[m.senderid as int].log,
                        m.txid,
                    )
                } by {
                    assert(after.votes[i] == s.votes[i + k]);
                }
                if after.coordinator.state == CoordinatorState::ReceivedVotesCommit {
                    assert(unanimous(counted, now, s.coordinator.participants));
                    assert forall|p: int| 0 <= p < after.participants.len() implies cast_commit(
                        (#[trigger] after.participants[p]).log,
                        now,
                    ) by {
                        assert(voted_commit(counted, now, p as nat, counted.len() as int));
                        let i = choose|i: int|
                            0 <= i < counted.len() && i < counted.len() && commit_vote(
                                #[trigger] counted[i],
                                now,
                                p as nat,
                            );
                        assert(counted[i] == s.votes[i]);
                    }
                }
                assert forall|t: TxId| s.all_cast_commit(t) == after.all_cast_commit(t) by {}
                assert forall|t: TxId| #[trigger]
                    count_tx(after.coordinator.log, MessageType::CoordinatorCommit, t)
                        > 0 implies after.all_cast_commit(t) by {
                    assert(s.all_cast_commit(t));
                }
            },
            Move::ParticipantHears(p) => {
                let m = s.to_participants[p][0];
                lemma_participant_outbox(s.participants[p], ParticipantEvent::Message(m), 0, 0);
                assert(after.votes =~= s.votes);
                assert forall|t: TxId| s.all_cast_commit(t) implies after.all_cast_commit(t) by {
                    assert forall|q: int| 0 <= q < after.participants.len() implies cast_commit(
                        (#[trigger] after.participants[q]).log,
                        t,
                    ) by {
                        assert(cast_commit(s.participants[q].log, t));
                    }
                }
                assert forall|i: int| 0 <= i < after.votes.len() implies {
                    let m = #[trigger] after.votes[i];
                    m.mtype == MessageType::ParticipantVoteCommit && m.senderid
                        < after.participants.len() ==> cast_commit(
                        after.participants[m.senderid as int].log,
                        m.txid,
                    )
                } by {
                    let m = s.votes[i];
                    if (m.senderid as int) < s.participants.len() {
                        assert(after.participants[m.senderid as int].log
                            == s.participants[m.senderid as int].log);
                    }
                }
                assert forall|q: int| 0 <= q < after.participants.len() implies (
                #[trigger] after.participants[q]).num == q by {
                    assert(s.participants[q].num == q);
                }
                assert forall|t: TxId| #[trigger]
                    count_tx(after.coordinator.log, MessageType::CoordinatorCommit, t)
                        > 0 implies after.all_cast_commit(t) by {
                    assert(s.all_cast_commit(t));
                }
            },
            Move::ParticipantAdvances(p, op, send) => {
                let v = s.participants[p];
                let w = after.participants[p];
                lemma_participant_outbox(v, ParticipantEvent::Advance, op, send);
                let rec = w.log[w.log.len() - 1];
                assert(w.log =~= v.log.push(rec));
                assert(v.num == p);
                assert forall|q: int, t: TxId|
                    0 <= q < s.participants.len() && cast_commit(
                        s.participants[q].log,
                        t,
                    ) implies cast_commit(after.participants[q].log, t) by {
                    if q == p {
                        lemma_cast_commit_push(v.log, rec, t);
                    }
                }
                assert forall|t: TxId| s.all_cast_commit(t) implies after.all_cast_commit(t) by {
                    assert forall|q: int| 0 <= q < after.participants.len() implies cast_commit(
                        (#[trigger] after.participants[q]).log,
                        t,
                    ) by {
                        assert(cast_commit(s.participants[q].log, t));
                    }
                }
                assert forall|i: int| 0 <= i < after.votes.len() implies {
                    let m = #[trigger] after.votes[i];
                    m.mtype == MessageType::ParticipantVoteCommit && m.senderid
                        < after.participants.len() ==> cast_commit(
                        after.participants[m.senderid as int].log,
                        m.txid,
                    )
                } by {
                    if i < s.votes.len() {
                        assert(after.votes[i] == s.votes[i]);
                    } else {
                        assert(after.votes[i] == rec);
                        lemma_cast_commit_push(v.log, rec, rec.txid);
                    }
                }
                assert forall|q: int| 0 <= q < after.participants.len() implies (
                #[trigger] after.participants[q]).num == q by {
                    assert(s.participants[q].num == q);
                }
                assert forall|t: TxId| #[trigger]
                    count_tx(after.coordinator.log, MessageType::CoordinatorCommit, t)
                        > 0 implies after.all_cast_commit(t) by {
                    assert(s.all_cast_commit(t));
                }
            },
        }
    }
}

/// Whatever moves are made from the start of a run, votes are what they
/// say.
pub proof fn lemma_run_vouched(start: System, moves: Seq<Move>)
    requires
        start.starts(),
    ensures
        start.after(moves).vouched(),
    decreases moves.len(),
{
    if moves.len() == 0 {
        assert forall|t: TxId|
            count_tx(start.coordinator.log, MessageType::CoordinatorCommit, t) == 0 by {}
    } else {
        lemma_run_vouched(start, moves.drop_last());
        lemma_run_consistent(start, moves.drop_last());
        lemma_move_vouched(start.after(moves.drop_last()), moves.last());
    }
}

impl System {
    /// The coordinator's log accounts for every transaction: what holds of
    /// the log at all times holds, the transactions that it speaks of are as
    /// many as it holds proposals, and the one in hand is among them once it
    /// was proposed.
    pub open spec fn accounted(self) -> bool {
        let log = self.coordinator.log;
        &&& self.coordinator.tallied()
        &&& txids(log, log.len() as int).finite()
        &&& txids(log, log.len() as int).len() == self.coordinator.proposed()
        &&& self.coordinator.state != CoordinatorState::Quiescent && self.coordinator.state
            != CoordinatorState::ReceivedRequest ==> self.speaks_of(self.coordinator.request.txid)
    }
}

/// One move keeps the coordinator's log accounting for every transaction.
proof fn lemma_move_accounted(s: System, mv: Move)
    requires
        s.consistent(),
        s.accounted(),
    ensures
        s.moved(mv).accounted(),
{
    let after = s.moved(mv);
    let v = s.coordinator;
    let log = v.log;
    if after.coordinator != v {
        let req = if s.requests.len() > 0 {
            s.requests[0]
        } else {
            v.request
        };
        let votes = match mv {
            Move::CoordinatorCounts(k) => s.votes.subrange(0, k),
            _ => s.votes,
        };
        lemma_step_tallied(v, s.num_tasks(), req, votes);
        if mv is CoordinatorAdvances {
            let more = after.coordinator.log;
            let rec = more[more.len() - 1];
            let now = v.request.txid;
            assert(more =~= log.push(rec));
            lemma_count_kind_push(log, rec, MessageType::CoordinatorPropose);
            assert forall|t: TxId|
                mentions(more, t, more.len() as int) <==> mentions(log, t, log.len() as int) || t
                    == now by {
                lemma_mentions_push(log, rec, t);
            }
            if v.state == CoordinatorState::ReceivedRequest {
                assert(!s.speaks_of(now));
                assert(txids(more, more.len() as int) =~= txids(log, log.len() as int).insert(now));
            } else {
                assert(s.speaks_of(now));
                assert(txids(more, more.len() as int) =~= txids(log, log.len() as int));
            }
        } else {
            assert(after.coordinator.log == log);
        }
    }
}

/// Whatever moves are made from the start of a run, the coordinator's log
/// accounts for every transaction.
pub proof fn lemma_run_accounted(start: System, moves: Seq<Move>)
    requires
        start.starts(),
    ensures
        start.after(moves).accounted(),
    decreases moves.len(),
{
    if moves.len() == 0 {
        let log = start.coordinator.log;
        assert(txids(log, log.len() as int) =~= Set::<TxId>::empty());
    } else {
        lemma_run_accounted(start, moves.drop_last());
        lemma_run_consistent(start, moves.drop_last());
        lemma_move_accounted(start.after(moves.drop_last()), moves.last());
    }
}

} // verus!
