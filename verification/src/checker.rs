//! The auditor: once every role has stopped, it reads their logs and says
//! whether the run was consistent.

use vstd::prelude::*;
use crate::message::{MessageType, RequestStatus, TxId};
use crate::oplog::{count_kind, count_records, LogRecord};

verus! {

/// One inconsistency between the logs of a run.
#[allow(inconsistent_fields)]
#[derive(Clone, Copy, Debug, PartialEq, Eq, Structural)]
pub enum Finding {
    /// The coordinator's log speaks of the transaction and holds `actual`
    /// decisions on it, where exactly one is expected: none if the
    /// transaction was left undecided, several if it was decided again.
    DecisionCount { txid: TxId, expected: u64, actual: u64 },
    /// The log of the participant with this index records an outcome of the
    /// transaction that is not what the coordinator decided.
    ParticipantOutcome {
        txid: TxId,
        participant: usize,
        expected: RequestStatus,
        actual: RequestStatus,
    },
    /// The client with this index was told, or saw, a result of the
    /// transaction that is not what the coordinator decided.
    ClientResult { txid: TxId, client: usize, expected: RequestStatus, actual: RequestStatus },
    /// The coordinator's log speaks of more transactions than the clients
    /// of the run can have asked for.
    TransactionCount { expected: u64, actual: u64 },
    /// The run had `expected` participants, and `actual` participants' logs
    /// were handed in.
    ParticipantCount { expected: u64, actual: u64 },
}

/// What the auditor found.
#[derive(Debug)]
pub struct CheckReport {
    /// How many decisions to commit the coordinator logged.
    pub committed: u64,
    /// How many decisions to abort the coordinator logged.
    pub aborted: u64,
    /// How many different transactions the coordinator's log speaks of.
    pub transactions: u64,
    /// Every inconsistency; none if the run was consistent.
    pub findings: Vec<Finding>,
}

/// How many records of a log are of the given kind and about the given
/// transaction.
pub open spec fn count_tx(log: Seq<LogRecord>, kind: MessageType, txid: TxId) -> nat
    decreases log.len(),
{
    if log.len() == 0 {
        0
    } else {
        count_tx(log.drop_last(), kind, txid) + if log.last().mtype == kind && log.last().txid
            == txid {
            1nat
        } else {
            0nat
        }
    }
}

/// How many decisions on the transaction a log holds.
pub open spec fn decisions(log: Seq<LogRecord>, txid: TxId) -> nat {
    count_tx(log, MessageType::CoordinatorCommit, txid) + count_tx(
        log,
        MessageType::CoordinatorAbort,
        txid,
    )
}

/// What the coordinator's log says of the transaction: committed if it
/// holds a decision to commit it and none to abort it, aborted if it holds a
/// decision to abort it and none to commit it, unknown if it holds neither or
/// both.
pub open spec fn decision_on(log: Seq<LogRecord>, txid: TxId) -> RequestStatus {
    let commits = count_tx(log, MessageType::CoordinatorCommit, txid);
    let aborts = count_tx(log, MessageType::CoordinatorAbort, txid);
    if commits > 0 && aborts == 0 {
        RequestStatus::Committed
    } else if aborts > 0 && commits == 0 {
        RequestStatus::Aborted
    } else {
        RequestStatus::Unknown
    }
}

/// One of the first `upto` records of the log is about the transaction.
pub open spec fn mentions(log: Seq<LogRecord>, txid: TxId, upto: int) -> bool {
    exists|k: int| 0 <= k < upto && k < log.len() && (#[trigger] log[k]).txid == txid
}

/// The transactions that the first `upto` records of a log speak of.
pub open spec fn txids(log: Seq<LogRecord>, upto: int) -> Set<TxId> {
    Set::new(|t: TxId| mentions(log, t, upto))
}

/// Record `i` of the coordinator's log shows the inconsistency `f`: the
/// record's transaction does not have exactly one decision, or the record
/// is a result told to a client that is not what was decided.
pub open spec fn coordinator_finding(f: Finding, coord: Seq<LogRecord>, i: int) -> bool {
    let rec = coord[i];
    ||| decisions(coord, rec.txid) != 1 && f == (Finding::DecisionCount {
        txid: rec.txid,
        expected: 1,
        actual: decisions(coord, rec.txid) as u64,
    })
    ||| rec.mtype.is_result() && decision_on(coord, rec.txid) != rec.mtype.status() && f == (
    Finding::ClientResult {
        txid: rec.txid,
        client: rec.senderid as usize,
        expected: decision_on(coord, rec.txid),
        actual: rec.mtype.status(),
    })
}

/// Record `j` of the log of participant `p` shows the inconsistency `f`: it
/// is an outcome that is not what the coordinator decided.
pub open spec fn participant_finding(
    f: Finding,
    coord: Seq<LogRecord>,
    log: Seq<LogRecord>,
    p: int,
    j: int,
) -> bool {
    let rec = log[j];
    rec.mtype.is_decision() && decision_on(coord, rec.txid) != rec.mtype.status() && f == (
    Finding::ParticipantOutcome {
        txid: rec.txid,
        participant: p as usize,
        expected: decision_on(coord, rec.txid),
        actual: rec.mtype.status(),
    })
}

/// Record `j` of what client `c` noted shows the inconsistency `f`: it is a
/// result that is not what the coordinator decided.
pub open spec fn client_finding(
    f: Finding,
    coord: Seq<LogRecord>,
    log: Seq<LogRecord>,
    c: int,
    j: int,
) -> bool {
    let rec = log[j];
    rec.mtype.is_result() && decision_on(coord, rec.txid) != rec.mtype.status() && f == (
    Finding::ClientResult {
        txid: rec.txid,
        client: c as usize,
        expected: decision_on(coord, rec.txid),
        actual: rec.mtype.status(),
    })
}

/// The run is not of the size that it was meant to have, and `f` says so:
/// the coordinator's log speaks of more transactions than `n_clients`
/// clients with `n_requests` requests each can have asked for, or the
/// participants' logs are not `n_participants` in number.
pub open spec fn scale_finding(
    f: Finding,
    n_clients: nat,
    n_requests: nat,
    n_participants: nat,
    coord: Seq<LogRecord>,
    participants: nat,
) -> bool {
    ||| txids(coord, coord.len() as int).len() > n_clients * n_requests && f == (
    Finding::TransactionCount {
        expected: (n_clients * n_requests) as u64,
        actual: txids(coord, coord.len() as int).len() as u64,
    })
    ||| participants != n_participants && f == (Finding::ParticipantCount {
        expected: n_participants as u64,
        actual: participants as u64,
    })
}

/// One of the first `upto` records of the coordinator's log shows `f`.
pub open spec fn coordinator_found(f: Finding, coord: Seq<LogRecord>, upto: int) -> bool {
    exists|i: int| 0 <= i < upto && i < coord.len() && #[trigger] coordinator_finding(f, coord, i)
}

/// One of the first `upto` records of the log of participant `p` shows `f`.
pub open spec fn participant_found(
    f: Finding,
    coord: Seq<LogRecord>,
    log: Seq<LogRecord>,
    p: int,
    upto: int,
) -> bool {
    exists|j: int|
        0 <= j < upto && j < log.len() && #[trigger] participant_finding(f, coord, log, p, j)
}

/// One of the first `upto` records of what client `c` noted shows `f`.
pub open spec fn client_found(
    f: Finding,
    coord: Seq<LogRecord>,
    log: Seq<LogRecord>,
    c: int,
    upto: int,
) -> bool {
    exists|j: int| 0 <= j < upto && j < log.len() && #[trigger] client_finding(f, coord, log, c, j)
}

/// The log of one of the first `upto` participants shows `f`.
pub open spec fn participants_found(
    f: Finding,
    coord: Seq<LogRecord>,
    logs: Seq<Seq<LogRecord>>,
    upto: int,
) -> bool {
    exists|p: int|
        0 <= p < upto && p < logs.len() && #[trigger] participant_found(
            f,
            coord,
            logs[p],
            p,
            logs[p].len() as int,
        )
}

/// What one of the first `upto` clients noted shows `f`.
pub open spec fn clients_found(
    f: Finding,
    coord: Seq<LogRecord>,
    logs: Seq<Seq<LogRecord>>,
    upto: int,
) -> bool {
    exists|c: int|
        0 <= c < upto && c < logs.len() && #[trigger] client_found(
            f,
            coord,
            logs[c],
            c,
            logs[c].len() as int,
        )
}

/// `f` is an inconsistency of the run: of the coordinator's log in itself,
/// between it and a participant's log, between it and what a client noted,
/// or between it and the size of the run.
pub open spec fn is_finding(
    f: Finding,
    n_clients: nat,
    n_requests: nat,
    n_participants: nat,
    coord: Seq<LogRecord>,
    participants: Seq<Seq<LogRecord>>,
    clients: Seq<Seq<LogRecord>>,
) -> bool {
    ||| coordinator_found(f, coord, coord.len() as int)
    ||| participants_found(f, coord, participants, participants.len() as int)
    ||| clients_found(f, coord, clients, clients.len() as int)
    ||| scale_finding(f, n_clients, n_requests, n_participants, coord, participants.len())
}

/// The logs as sequences.
pub open spec fn logs_of(logs: Seq<Vec<LogRecord>>) -> Seq<Seq<LogRecord>> {
    Seq::new(logs.len(), |i: int| logs[i]@)
}

impl CheckReport {
    /// Nothing was found: the run was consistent.
    pub open spec fn consistent(self) -> bool {
        self.findings@.len() == 0
    }

    /// Whether nothing was found.
    pub fn passed(&self) -> (b: bool)
        ensures
            b == self.consistent(),
    {
        self.findings.len() == 0
    }
}

/// A kind is counted for a transaction no more often than the log is long.
pub proof fn lemma_count_tx_bound(log: Seq<LogRecord>, a: MessageType, b: MessageType, txid: TxId)
    requires
        a != b,
    ensures
        count_tx(log, a, txid) + count_tx(log, b, txid) <= log.len(),
    decreases log.len(),
{
    if log.len() > 0 {
        lemma_count_tx_bound(log.drop_last(), a, b, txid);
    }
}

/// Whether one of the first `upto` records of the log is about the
/// transaction.
fn seen_before(log: &Vec<LogRecord>, txid: TxId, upto: usize) -> (b: bool)
    requires
        upto <= log@.len(),
    ensures
        b == mentions(log@, txid, upto as int),
{
    let mut k: usize = 0;
    while k < upto
        invariant
            k <= upto <= log@.len(),
            !mentions(log@, txid, k as int),
        decreases upto - k,
    {
        if log[k].txid == txid {
            return true;
        }
        k = k + 1;
    }
    false
}

/// How many records of the log are of the given kind and about the given
/// transaction.
fn count_for(log: &Vec<LogRecord>, kind: MessageType, txid: TxId) -> (n: u64)
    ensures
        n == count_tx(log@, kind, txid),
        n <= log@.len(),
{
    let mut n: u64 = 0;
    let mut i: usize = 0;
    while i < log.len()
        invariant
            i <= log@.len(),
            n == count_tx(log@.subrange(0, i as int), kind, txid),
            n <= i,
        decreases log@.len() - i,
    {
        proof {
            assert(log@.subrange(0, i + 1).drop_last() =~= log@.subrange(0, i as int));
        }
        if log[i].mtype == kind && log[i].txid == txid {
            n = n + 1;
        }
        i = i + 1;
    }
    proof {
        assert(log@.subrange(0, i as int) =~= log@);
    }
    n
}

/// What the coordinator's log says of the transaction.
pub fn decision_of(coord: &Vec<LogRecord>, txid: TxId) -> (s: RequestStatus)
    ensures
        s == decision_on(coord@, txid),
{
    let commits = count_for(coord, MessageType::CoordinatorCommit, txid);
    let aborts = count_for(coord, MessageType::CoordinatorAbort, txid);
    if commits > 0 && aborts == 0 {
        RequestStatus::Committed
    } else if aborts > 0 && commits == 0 {
        RequestStatus::Aborted
    } else {
        RequestStatus::Unknown
    }
}

/// Audits the coordinator's log in itself, adds what it finds to
/// `findings`, and returns the number of different transactions that the
/// log speaks of.
fn check_coordinator(coord: &Vec<LogRecord>, findings: &mut Vec<Finding>) -> (distinct: u64)
    requires
        old(findings)@.no_duplicates(),
    ensures
        distinct == txids(coord@, coord@.len() as int).len(),
        final(findings)@.no_duplicates(),
        forall|f: Finding|
            final(findings)@.contains(f) <==> old(findings)@.contains(f) || coordinator_found(
                f,
                coord@,
                coord@.len() as int,
            ),
{
    let mut distinct: u64 = 0;
    let mut i: usize = 0;
    proof {
        assert(txids(coord@, 0) =~= Set::<TxId>::empty());
    }
    while i < coord.len()
        invariant
            i <= coord@.len(),
            txids(coord@, i as int).finite(),
            distinct == txids(coord@, i as int).len(),
            distinct <= i,
            findings@.no_duplicates(),
            forall|f: Finding|
                findings@.contains(f) <==> old(findings)@.contains(f) || coordinator_found(
                    f,
                    coord@,
                    i as int,
                ),
        decreases coord@.len() - i,
    {
        let rec = coord[i];
        let ghost before = findings@;
        let fresh = !seen_before(coord, rec.txid, i);
        let commits = count_for(coord, MessageType::CoordinatorCommit, rec.txid);
        let aborts = count_for(coord, MessageType::CoordinatorAbort, rec.txid);
        proof {
            lemma_count_tx_bound(
                coord@,
                MessageType::CoordinatorCommit,
                MessageType::CoordinatorAbort,
                rec.txid,
            );
        }
        let count = commits + aborts;
        if count != 1 {
            note(findings, Finding::DecisionCount { txid: rec.txid, expected: 1, actual: count });
        }
        let ghost middle = findings@;
        let expected = decision_of(coord, rec.txid);
        let actual = rec.mtype.outcome();
        if rec.mtype.result() && expected != actual {
            note(
                findings,
                Finding::ClientResult {
                    txid: rec.txid,
                    client: rec.senderid as usize,
                    expected,
                    actual,
                },
            );
        }
        proof {
            assert(txids(coord@, i + 1) =~= txids(coord@, i as int).insert(rec.txid)) by {
                assert forall|t: TxId| mentions(coord@, t, i + 1) <==> mentions(coord@, t, i as int)
                    || t == rec.txid by {
                    if t == rec.txid {
                        assert(coord@[i as int].txid == t);
                    }
                }
            }
            assert forall|f: Finding|
                findings@.contains(f) <==> old(findings)@.contains(f) || coordinator_found(
                    f,
                    coord@,
                    i + 1,
                ) by {
                assert(middle.contains(f) <==> before.contains(f) || (count != 1 && f == (
                Finding::DecisionCount { txid: rec.txid, expected: 1, actual: count })));
                assert(coordinator_found(f, coord@, i + 1) <==> coordinator_found(
                    f,
                    coord@,
                    i as int,
                ) || coordinator_finding(f, coord@, i as int)) by {
                    if coordinator_finding(f, coord@, i as int) {
                        assert(coordinator_found(f, coord@, i + 1));
                    }
                }
            }
        }
        if fresh {
            distinct = distinct + 1;
        }
        i = i + 1;
    }
    distinct
}

/// Audits the log of participant `p` against the coordinator's, and adds
/// what it finds to `findings`.
fn check_participant(
    coord: &Vec<LogRecord>,
    log: &Vec<LogRecord>,
    p: usize,
    findings: &mut Vec<Finding>,
)
    requires
        old(findings)@.no_duplicates(),
    ensures
        final(findings)@.no_duplicates(),
        forall|f: Finding|
            final(findings)@.contains(f) <==> old(findings)@.contains(f) || participant_found(
                f,
                coord@,
                log@,
                p as int,
                log@.len() as int,
            ),
{
    let mut j: usize = 0;
    while j < log.len()
        invariant
            j <= log@.len(),
            findings@.no_duplicates(),
            forall|f: Finding|
                findings@.contains(f) <==> old(findings)@.contains(f) || participant_found(
                    f,
                    coord@,
                    log@,
                    p as int,
                    j as int,
                ),
        decreases log@.len() - j,
    {
        let rec = log[j];
        let expected = decision_of(coord, rec.txid);
        let actual = rec.mtype.outcome();
        if rec.mtype.decision() && expected != actual {
            note(
                findings,
                Finding::ParticipantOutcome { txid: rec.txid, participant: p, expected, actual },
            );
        }
        proof {
            assert forall|f: Finding|
                findings@.contains(f) <==> old(findings)@.contains(f) || participant_found(
                    f,
                    coord@,
                    log@,
                    p as int,
                    j + 1,
                ) by {
                assert(participant_found(f, coord@, log@, p as int, j + 1) <==> participant_found(
                    f,
                    coord@,
                    log@,
                    p as int,
                    j as int,
                ) || participant_finding(f, coord@, log@, p as int, j as int)) by {
                    if participant_finding(f, coord@, log@, p as int, j as int) {
                        assert(participant_found(f, coord@, log@, p as int, j + 1));
                    }
                }
            }
        }
        j = j + 1;
    }
}

/// Audits what client `c` noted against the coordinator's log, and adds
/// what it finds to `findings`.
fn check_client(coord: &Vec<LogRecord>, log: &Vec<LogRecord>, c: usize, findings: &mut Vec<Finding>)
    requires
        old(findings)@.no_duplicates(),
    ensures
        final(findings)@.no_duplicates(),
        forall|f: Finding|
            final(findings)@.contains(f) <==> old(findings)@.contains(f) || client_found(
                f,
                coord@,
                log@,
                c as int,
                log@.len() as int,
            ),
{
    let mut j: usize = 0;
    while j < log.len()
        invariant
            j <= log@.len(),
            findings@.no_duplicates(),
            forall|f: Finding|
                findings@.contains(f) <==> old(findings)@.contains(f) || client_found(
                    f,
                    coord@,
                    log@,
                    c as int,
                    j as int,
                ),
        decreases log@.len() - j,
    {
        let rec = log[j];
        let expected = decision_of(coord, rec.txid);
        let actual = rec.mtype.outcome();
        if rec.mtype.result() && expected != actual {
            note(findings, Finding::ClientResult { txid: rec.txid, client: c, expected, actual });
        }
        proof {
            assert forall|f: Finding|
                findings@.contains(f) <==> old(findings)@.contains(f) || client_found(
                    f,
                    coord@,
                    log@,
                    c as int,
                    j + 1,
                ) by {
                assert(client_found(f, coord@, log@, c as int, j + 1) <==> client_found(
                    f,
                    coord@,
                    log@,
                    c as int,
                    j as int,
                ) || client_finding(f, coord@, log@, c as int, j as int)) by {
                    if client_finding(f, coord@, log@, c as int, j as int) {
                        assert(client_found(f, coord@, log@, c as int, j + 1));
                    }
                }
            }
        }
        j = j + 1;
    }
}

/// Audits a run from the logs that it left: the coordinator's, one of each
/// participant, and, where the clients kept them, one of each client (pass
/// no client logs where they did not). `n_clients`, `n_requests` and
/// `n_participants` say how large the run was meant to be.
///
/// The report holds an inconsistency exactly when the logs show it, and
/// holds none twice:
/// - the coordinator's log speaks of a transaction without holding exactly
///   one decision on it, be it that the transaction was proposed and never
///   decided, or decided more than once;
/// - a participant recorded an outcome that is not the coordinator's
///   decision;
/// - a client was told, or noted, a result that is not the coordinator's
///   decision;
/// - the coordinator's log speaks of more transactions than the clients can
///   have asked for;
/// - the participants' logs are not as many as the run had participants.
pub fn check_last_run(
    n_clients: u32,
    n_requests: u32,
    n_participants: u32,
    coordinator: &Vec<LogRecord>,
    participants: &Vec<Vec<LogRecord>>,
    clients: &Vec<Vec<LogRecord>>,
) -> (report: CheckReport)
    ensures
        report.committed == count_kind(coordinator@, MessageType::CoordinatorCommit),
        report.aborted == count_kind(coordinator@, MessageType::CoordinatorAbort),
        report.transactions == txids(coordinator@, coordinator@.len() as int).len(),
        report.findings@.no_duplicates(),
        forall|f: Finding|
            report.findings@.contains(f) <==> is_finding(
                f,
                n_clients as nat,
                n_requests as nat,
                n_participants as nat,
                coordinator@,
                logs_of(participants@),
                logs_of(clients@),
            ),
        report.consistent() <==> forall|f: Finding|
            !is_finding(
                f,
                n_clients as nat,
                n_requests as nat,
                n_participants as nat,
                coordinator@,
                logs_of(participants@),
                logs_of(clients@),
            ),
{
    let mut findings: Vec<Finding> = Vec::new();
    let transactions = check_coordinator(coordinator, &mut findings);
    let ghost parts = logs_of(participants@);
    let ghost notes = logs_of(clients@);
    let mut p: usize = 0;
    while p < participants.len()
        invariant
            p <= participants@.len(),
            parts == logs_of(participants@),
            findings@.no_duplicates(),
            forall|f: Finding|
                findings@.contains(f) <==> coordinator_found(
                    f,
                    coordinator@,
                    coordinator@.len() as int,
                ) || participants_found(f, coordinator@, parts, p as int),
        decreases participants@.len() - p,
    {
        check_participant(coordinator, &participants[p], p, &mut findings);
        proof {
            assert forall|f: Finding|
                findings@.contains(f) <==> coordinator_found(
                    f,
                    coordinator@,
                    coordinator@.len() as int,
                ) || participants_found(f, coordinator@, parts, p + 1) by {
                let here = participant_found(
                    f,
                    coordinator@,
                    parts[p as int],
                    p as int,
                    parts[p as int].len() as int,
                );
                assert(participants_found(f, coordinator@, parts, p + 1) <==> participants_found(
                    f,
                    coordinator@,
                    parts,
                    p as int,
                ) || here) by {
                    if here {
                        assert(participants_found(f, coordinator@, parts, p + 1));
                    }
                }
            }
        }
        p = p + 1;
    }
    let mut c: usize = 0;
    while c < clients.len()
        invariant
            c <= clients@.len(),
            notes == logs_of(clients@),
            findings@.no_duplicates(),
            forall|f: Finding|
                findings@.contains(f) <==> coordinator_found(
                    f,
                    coordinator@,
                    coordinator@.len() as int,
                ) || participants_found(f, coordinator@, parts, parts.len() as int)
                    || clients_found(f, coordinator@, notes, c as int),
        decreases clients@.len() - c,
    {
        check_client(coordinator, &clients[c], c, &mut findings);
        proof {
            assert forall|f: Finding|
                findings@.contains(f) <==> coordinator_found(
                    f,
                    coordinator@,
                    coordinator@.len() as int,
                ) || participants_found(f, coordinator@, parts, parts.len() as int)
                    || clients_found(f, coordinator@, notes, c + 1) by {
                let here = client_found(
                    f,
                    coordinator@,
                    notes[c as int],
                    c as int,
                    notes[c as int].len() as int,
                );
                assert(clients_found(f, coordinator@, notes, c + 1) <==> clients_found(
                    f,
                    coordinator@,
                    notes,
                    c as int,
                ) || here) by {
                    if here {
                        assert(clients_found(f, coordinator@, notes, c + 1));
                    }
                }
            }
        }
        c = c + 1;
    }
    proof {
        assert(n_clients * n_requests <= u32::MAX * u32::MAX) by (nonlinear_arith)
            requires
                n_clients <= u32::MAX,
                n_requests <= u32::MAX,
        ;
    }
    let expected: u64 = (n_clients as u64) * (n_requests as u64);
    let ghost before = findings@;
    if transactions > expected {
        note(&mut findings, Finding::TransactionCount { expected, actual: transactions });
    }
    let ghost middle = findings@;
    let handed_in = participants.len();
    if handed_in != n_participants as usize {
        note(
            &mut findings,
            Finding::ParticipantCount { expected: n_participants as u64, actual: handed_in as u64 },
        );
    }
    proof {
        assert forall|f: Finding|
            findings@.contains(f) <==> is_finding(
                f,
                n_clients as nat,
                n_requests as nat,
                n_participants as nat,
                coordinator@,
                parts,
                notes,
            ) by {
            assert(middle.contains(f) <==> before.contains(f) || (transactions > expected && f == (
            Finding::TransactionCount { expected, actual: transactions })));
        }
    }
    proof {
        if findings@.len() > 0 {
            let first = findings@[0];
            assert(findings@.contains(first));
            assert(is_finding(
                first,
                n_clients as nat,
                n_requests as nat,
                n_participants as nat,
                coordinator@,
                parts,
                notes,
            ));
        } else {
            assert forall|f: Finding|
                !is_finding(
                    f,
                    n_clients as nat,
                    n_requests as nat,
                    n_participants as nat,
                    coordinator@,
                    parts,
                    notes,
                ) by {
                assert(!findings@.contains(f));
            }
        }
    }
    CheckReport {
        committed: count_records(coordinator, MessageType::CoordinatorCommit),
        aborted: count_records(coordinator, MessageType::CoordinatorAbort),
        transactions,
        findings,
    }
}

/// Adds the finding to the list, unless the list holds it already.
fn note(findings: &mut Vec<Finding>, f: Finding)
    requires
        old(findings)@.no_duplicates(),
    ensures
        final(findings)@.no_duplicates(),
        forall|g: Finding| final(findings)@.contains(g) <==> old(findings)@.contains(g) || g == f,
{
    let mut i: usize = 0;
    while i < findings.len()
        invariant
            i <= findings@.len(),
            findings@ == old(findings)@,
            findings@.no_duplicates(),
            forall|k: int| 0 <= k < i ==> findings@[k] != f,
        decreases findings@.len() - i,
    {
        if findings[i] == f {
            return ;
        }
        i = i + 1;
    }
    findings.push(f);
    proof {
        assert forall|g: Finding|
            findings@.contains(g) <==> old(findings)@.contains(g) || g == f by {
            lemma_push_contains(old(findings)@, f, g);
        }
    }
}

/// A sequence with one more element holds what it held and that element.
proof fn lemma_push_contains(s: Seq<Finding>, x: Finding, f: Finding)
    ensures
        s.push(x).contains(f) <==> s.contains(f) || f == x,
{
    if s.contains(f) {
        let i = choose|i: int| 0 <= i < s.len() && s[i] == f;
        assert(s.push(x)[i] == f);
    }
    if f == x {
        assert(s.push(x)[s.len() as int] == f);
    }
}

} // verus!
