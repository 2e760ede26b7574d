//! What a run guarantees: whatever the roles do, and in whatever order, the
//! logs that they write agree, and the auditor finds nothing.

use vstd::prelude::*;
use crate::checker::{
    client_finding, client_found, clients_found, coordinator_finding, coordinator_found,
    decision_on, decisions, is_finding, participant_finding, participant_found,
    participants_found, txids, Finding,
};
use crate::coordinator::{
    lemma_commit_iff_unanimous, lemma_few_messages_abort, lemma_tally_accounts, CoordinatorState,
};
use crate::consistency::{
    all_settled, lemma_run_accounted, lemma_run_consistent, lemma_run_vouched,
    lemma_settled_decided,
};
use crate::message::{MessageType, RequestStatus, TxId};
use crate::oplog::{tally_of, LogRecord};
use crate::system::{Move, System};

verus! {

/// The transactions that this many clients ask for when each sends this
/// many requests.
pub open spec fn issued(clients: nat, n_requests: nat) -> Set<TxId> {
    Set::new(|t: TxId| t.client < clients && t.seq < n_requests)
}

/// The transactions that the client with index `c` asks for when it sends
/// `n` requests.
pub open spec fn issued_by(c: nat, n: nat) -> Set<TxId> {
    Set::new(|t: TxId| t.client == c && t.seq < n)
}

/// A client that sends `n` requests asks for `n` transactions.
proof fn lemma_issued_by_count(c: nat, n: nat)
    requires
        c <= u32::MAX,
        n <= u32::MAX,
    ensures
        issued_by(c, n).finite(),
        issued_by(c, n).len() == n,
    decreases n,
{
    if n == 0 {
        assert(issued_by(c, n) =~= Set::<TxId>::empty());
    } else {
        let m = (n - 1) as nat;
        lemma_issued_by_count(c, m);
        let last = TxId { client: c as u32, seq: m as u32 };
        assert(issued_by(c, n) =~= issued_by(c, m).insert(last));
    }
}

/// Distinct transaction ids: the transactions that `clients` clients ask
/// for when each sends `n_requests` requests are `clients` times
/// `n_requests` in number.
pub proof fn lemma_issued_count(clients: nat, n_requests: nat)
    requires
        clients <= u32::MAX,
        n_requests <= u32::MAX,
    ensures
        issued(clients, n_requests).finite(),
        issued(clients, n_requests).len() == clients * n_requests,
    decreases clients,
{
    if clients == 0 {
        assert(issued(clients, n_requests) =~= Set::<TxId>::empty());
        assert(clients * n_requests == 0) by (nonlinear_arith)
            requires
                clients == 0,
        ;
    } else {
        let fewer = (clients - 1) as nat;
        lemma_issued_count(fewer, n_requests);
        lemma_issued_by_count(fewer, n_requests);
        let a = issued(fewer, n_requests);
        let b = issued_by(fewer, n_requests);
        assert(issued(clients, n_requests) =~= a + b);
        assert(a.disjoint(b));
        vstd::set_lib::lemma_set_disjoint_lens(a, b);
        assert(clients * n_requests == fewer * n_requests + n_requests) by (nonlinear_arith)
            requires
                clients == fewer + 1,
        ;
    }
}

impl System {
    /// The participants' logs, by index.
    pub open spec fn participant_logs(self) -> Seq<Seq<LogRecord>> {
        Seq::new(self.participants.len(), |p: int| self.participants[p].log)
    }

    /// What the clients noted, by index.
    pub open spec fn client_logs(self) -> Seq<Seq<LogRecord>> {
        Seq::new(self.clients.len(), |c: int| self.clients[c].log)
    }

    /// Atomicity: the coordinator's log never holds two decisions on one
    /// transaction; every outcome in a participant's log, every result
    /// that a client noted, and every result that the coordinator logged
    /// as told to a client, is of a transaction that the coordinator
    /// decided, and is what it decided.
    pub open spec fn atomic(self) -> bool {
        let log = self.coordinator.log;
        &&& forall|t: TxId| #[trigger] decisions(log, t) <= 1
        &&& forall|p: int, j: int|
            0 <= p < self.participants.len() && 0 <= j < self.participants[p].log.len() && (
            #[trigger] self.participants[p].log[j]).mtype.is_decision() ==> {
                let rec = self.participants[p].log[j];
                &&& decisions(log, rec.txid) == 1
                &&& decision_on(log, rec.txid) == rec.mtype.status()
            }
        &&& forall|c: int, j: int|
            0 <= c < self.clients.len() && 0 <= j < self.clients[c].log.len() && (
            #[trigger] self.clients[c].log[j]).mtype.is_result() ==> {
                let rec = self.clients[c].log[j];
                &&& decisions(log, rec.txid) == 1
                &&& decision_on(log, rec.txid) == rec.mtype.status()
            }
        &&& forall|j: int|
            0 <= j < log.len() && (#[trigger] log[j]).mtype.is_result() ==> {
                &&& decisions(log, log[j].txid) == 1
                &&& decision_on(log, log[j].txid) == log[j].mtype.status()
            }
    }

    /// Every client has noted a result of each of its requests.
    pub open spec fn complete(self) -> bool {
        forall|c: int|
            0 <= c < self.clients.len() ==> (#[trigger] self.clients[c]).results_seen()
                == self.n_requests
    }
}

/// What holds of a run at all times makes it atomic.
proof fn lemma_consistent_atomic(s: System)
    requires
        s.consistent(),
    ensures
        s.atomic(),
{
    let log = s.coordinator.log;
    assert forall|p: int, j: int|
        0 <= p < s.participants.len() && 0 <= j < s.participants[p].log.len() && (
        #[trigger] s.participants[p].log[j]).mtype.is_decision() implies {
        let rec = s.participants[p].log[j];
        &&& decisions(log, rec.txid) == 1
        &&& decision_on(log, rec.txid) == rec.mtype.status()
    } by {
        assert(all_settled(log, s.participants[p].log));
        lemma_settled_decided(s, s.participants[p].log[j]);
    }
    assert forall|c: int, j: int|
        0 <= c < s.clients.len() && 0 <= j < s.clients[c].log.len() && (
        #[trigger] s.clients[c].log[j]).mtype.is_result() implies {
        let rec = s.clients[c].log[j];
        &&& decisions(log, rec.txid) == 1
        &&& decision_on(log, rec.txid) == rec.mtype.status()
    } by {
        assert(all_settled(log, s.clients[c].log));
        lemma_settled_decided(s, s.clients[c].log[j]);
    }
    assert forall|j: int| 0 <= j < log.len() && (#[trigger] log[j]).mtype.is_result() implies {
        &&& decisions(log, log[j].txid) == 1
        &&& decision_on(log, log[j].txid) == log[j].mtype.status()
    } by {
        lemma_settled_decided(s, log[j]);
    }
}

/// Atomicity. Whatever moves are made from the start of a run, in whatever
/// order, with whatever votes, and whichever of them are lost or late: the
/// coordinator's log holds at most one decision on a transaction, and every
/// outcome that a participant logged and every result that a client was
/// told or noted is what the coordinator decided on that transaction.
pub proof fn lemma_atomicity(start: System, moves: Seq<Move>)
    requires
        start.starts(),
    ensures
        start.after(moves).atomic(),
{
    lemma_run_consistent(start, moves);
    lemma_consistent_atomic(start.after(moves));
}

/// The coordinator's log speaks only of transactions that the clients ask
/// for, and of all of them once every client has its results.
proof fn lemma_spoken_issued(s: System)
    requires
        s.consistent(),
    ensures
        txids(s.coordinator.log, s.coordinator.log.len() as int).subset_of(
            issued(s.clients.len(), s.n_requests),
        ),
        s.complete() ==> txids(s.coordinator.log, s.coordinator.log.len() as int) == issued(
            s.clients.len(),
            s.n_requests,
        ),
{
    let log = s.coordinator.log;
    let spoken = txids(log, log.len() as int);
    let all = issued(s.clients.len(), s.n_requests);
    assert forall|t: TxId| spoken.contains(t) implies all.contains(t) by {
        assert(s.speaks_of(t));
        assert(s.owned(t));
        assert(s.clients[t.client as int].sequential(s.n_requests));
    }
    if s.complete() {
        assert forall|t: TxId| all.contains(t) implies spoken.contains(t) by {
            let v = s.clients[t.client as int];
            assert(v.sequential(s.n_requests));
            assert(v.num == t.client);
            assert(v.answered(t.seq as nat));
            let j = choose|j: int|
                0 <= j < v.log.len() && (#[trigger] v.log[j]).mtype.is_result() && v.log[j].txid
                    == (TxId { client: v.num as u32, seq: t.seq as nat as u32 });
            assert(all_settled(log, v.log));
            lemma_settled_decided(s, v.log[j]);
        }
        assert(spoken =~= all);
    }
}

/// Uniqueness. Whatever moves are made from the start of a run, the
/// coordinator's log speaks of no more transactions than the clients times
/// the requests of each; and once every client has noted a result of each
/// of its requests, it speaks of exactly that many.
pub proof fn lemma_transactions_counted(start: System, moves: Seq<Move>)
    requires
        start.starts(),
    ensures
        ({
            let s = start.after(moves);
            let spoken = txids(s.coordinator.log, s.coordinator.log.len() as int);
            &&& s.clients.len() == start.clients.len()
            &&& s.n_requests == start.n_requests
            &&& spoken.finite()
            &&& spoken.len() <= s.clients.len() * s.n_requests
            &&& s.complete() ==> spoken.len() == s.clients.len() * s.n_requests
        }),
{
    let s = start.after(moves);
    lemma_run_consistent(start, moves);
    lemma_run_size(start, moves);
    lemma_spoken_issued(s);
    lemma_issued_count(s.clients.len(), s.n_requests);
    vstd::set_lib::lemma_len_subset(
        txids(s.coordinator.log, s.coordinator.log.len() as int),
        issued(s.clients.len(), s.n_requests),
    );
}

/// A run keeps its clients, its participants and the number of requests.
pub proof fn lemma_run_size(start: System, moves: Seq<Move>)
    ensures
        start.after(moves).clients.len() == start.clients.len(),
        start.after(moves).participants.len() == start.participants.len(),
        start.after(moves).n_requests == start.n_requests,
    decreases moves.len(),
{
    if moves.len() > 0 {
        lemma_run_size(start, moves.drop_last());
    }
}

/// The auditor finds nothing. Whatever moves are made from the start of a
/// run, as soon as the coordinator has logged the decision on the
/// transaction in hand, no inconsistency is to be found between the
/// coordinator's log, the participants' logs, what the clients noted and the
/// size of the run.
pub proof fn lemma_audit_finds_nothing(start: System, moves: Seq<Move>, f: Finding)
    requires
        start.starts(),
        !start.after(moves).deciding(),
    ensures
        ({
            let s = start.after(moves);
            !is_finding(
                f,
                s.clients.len(),
                s.n_requests,
                s.participants.len(),
                s.coordinator.log,
                s.participant_logs(),
                s.client_logs(),
            )
        }),
{
    let s = start.after(moves);
    let log = s.coordinator.log;
    lemma_run_consistent(start, moves);
    lemma_transactions_counted(start, moves);
    lemma_consistent_atomic(s);
    if coordinator_found(f, log, log.len() as int) {
        let i = choose|i: int|
            0 <= i < log.len() && i < log.len() && #[trigger] coordinator_finding(f, log, i);
        assert(log[i].txid == log[i].txid && s.speaks_of(log[i].txid));
        assert(decisions(log, log[i].txid) == 1);
    }
    if participants_found(f, log, s.participant_logs(), s.participant_logs().len() as int) {
        let logs = s.participant_logs();
        let p = choose|p: int|
            0 <= p < logs.len() && p < logs.len() && #[trigger] participant_found(
                f,
                log,
                logs[p],
                p,
                logs[p].len() as int,
            );
        let j = choose|j: int|
            0 <= j < logs[p].len() && j < logs[p].len() && #[trigger] participant_finding(
                f,
                log,
                logs[p],
                p,
                j,
            );
        assert(s.participants[p].log[j].mtype.is_decision());
    }
    if clients_found(f, log, s.client_logs(), s.client_logs().len() as int) {
        let logs = s.client_logs();
        let c = choose|c: int|
            0 <= c < logs.len() && c < logs.len() && #[trigger] client_found(
                f,
                log,
                logs[c],
                c,
                logs[c].len() as int,
            );
        let j = choose|j: int|
            0 <= j < logs[c].len() && j < logs[c].len() && #[trigger] client_finding(
                f,
                log,
                logs[c],
                c,
                j,
            );
        assert(s.clients[c].log[j].mtype.is_result());
    }
}

/// Commit needs every vote. Whatever moves are made from the start of a
/// run, a transaction that the coordinator's log holds as committed is one
/// that every participant has voted to commit, as its own log shows.
pub proof fn lemma_commit_needs_every_vote(start: System, moves: Seq<Move>, t: TxId)
    requires
        start.starts(),
        decision_on(start.after(moves).coordinator.log, t) == RequestStatus::Committed,
    ensures
        start.after(moves).all_cast_commit(t),
{
    lemma_run_vouched(start, moves);
}

/// The tallies add up. Whatever moves are made from the start of a run, the
/// transactions that the coordinator's log speaks of are as many as the
/// committed, the aborted and the unknown of its tally together; none is
/// unknown but the one under way; and once every client has noted a result
/// of each of its requests, the committed and the aborted are together as
/// many as the clients times the requests of each.
pub proof fn lemma_tallies_add_up(start: System, moves: Seq<Move>)
    requires
        start.starts(),
    ensures
        ({
            let s = start.after(moves);
            let log = s.coordinator.log;
            let (committed, aborted, unknown) = tally_of(
                log,
                MessageType::CoordinatorPropose,
                MessageType::CoordinatorCommit,
                MessageType::CoordinatorAbort,
            );
            &&& txids(log, log.len() as int).len() == committed + aborted + unknown
            &&& !s.deciding() ==> unknown == 0
            &&& s.complete() ==> unknown == 0 && committed + aborted == start.clients.len()
                * start.n_requests
        }),
{
    let s = start.after(moves);
    let log = s.coordinator.log;
    lemma_run_consistent(start, moves);
    lemma_run_accounted(start, moves);
    lemma_tally_accounts(s.coordinator);
    lemma_transactions_counted(start, moves);
    if s.complete() && s.deciding() {
        let now = s.coordinator.request.txid;
        let v = s.clients[now.client as int];
        assert(s.owned(now));
        assert(v.sequential(s.n_requests));
        assert(v.answered(now.seq as nat));
        let j = choose|j: int|
            0 <= j < v.log.len() && (#[trigger] v.log[j]).mtype.is_result() && v.log[j].txid == (
            TxId { client: v.num as u32, seq: now.seq as nat as u32 });
        assert(all_settled(log, v.log));
        lemma_settled_decided(s, v.log[j]);
    }
}

/// Silence is no obstacle. Where the coordinator has proposed a
/// transaction to at least one participant, it can go on without hearing
/// from any of them: if its vote window closes with nothing arrived, its
/// next two steps log the decision to abort and the result, and it is ready
/// for the next request.
pub proof fn lemma_silence_aborts(s: System)
    requires
        s.coordinator.state == CoordinatorState::ProposalSent,
        !s.coordinator.finished,
        s.coordinator.participants > 0,
    ensures
        ({
            let later = s.moved(Move::CoordinatorCounts(0)).moved(Move::CoordinatorAdvances).moved(
                Move::CoordinatorAdvances,
            );
            &&& later.coordinator.state == CoordinatorState::Quiescent
            &&& later.coordinator.log == s.coordinator.log.push(
                s.coordinator.record(MessageType::CoordinatorAbort),
            ).push(s.coordinator.record(MessageType::ClientResultAbort))
        }),
{
    let none = s.votes.subrange(0, 0);
    lemma_few_messages_abort(none, s.coordinator.request.txid, s.coordinator.participants);
    lemma_commit_iff_unanimous(s.coordinator, none);
}

} // verus!
