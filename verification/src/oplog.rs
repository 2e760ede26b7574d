//! The append-only record store that each role keeps.
//!
//! A log is an ordered sequence of records. A record is added at the end and
//! is never changed or removed afterwards, so that what an auditor reads once
//! a run is over is what the role wrote while it ran.

use vstd::prelude::*;
use crate::message::{MessageType, ProtocolMessage, TxId};

verus! {

/// One entry of a log. It has the shape of a message: the kind of step that
/// was taken, the transaction, the participant or client concerned, and the
/// sequence number of the operation.
pub type LogRecord = ProtocolMessage;

/// The committed, aborted and unknown counts that a role reports when it
/// stops. They are read off the role's log and kept nowhere.
#[derive(Clone, Copy, Debug, PartialEq, Eq, Structural)]
pub struct RunTally {
    pub committed: u64,
    pub aborted: u64,
    pub unknown: u64,
}

/// The log of one role.
#[derive(Debug)]
pub struct OpLog {
    path: String,
    records: Vec<LogRecord>,
}

/// How many records of a log are of the given kind.
pub open spec fn count_kind(log: Seq<LogRecord>, kind: MessageType) -> nat
    decreases log.len(),
{
    if log.len() == 0 {
        0
    } else {
        count_kind(log.drop_last(), kind) + if log.last().mtype == kind {
            1nat
        } else {
            0nat
        }
    }
}

/// `opened` minus `closed`, and zero where more were closed than opened.
pub open spec fn outstanding(opened: nat, closed: nat) -> nat {
    if opened >= closed {
        (opened - closed) as nat
    } else {
        0
    }
}

/// The tally of a log in which `opened` is the kind of record that starts a
/// transaction, and `commit` and `abort` the two kinds that end one.
pub open spec fn tally_of(
    log: Seq<LogRecord>,
    opened: MessageType,
    commit: MessageType,
    abort: MessageType,
) -> (nat, nat, nat) {
    (
        count_kind(log, commit),
        count_kind(log, abort),
        outstanding(count_kind(log, opened), count_kind(log, commit) + count_kind(log, abort)),
    )
}

impl RunTally {
    /// The three counts as numbers.
    pub open spec fn counts(self) -> (nat, nat, nat) {
        (self.committed as nat, self.aborted as nat, self.unknown as nat)
    }
}

/// Two different kinds share no record: together they are counted no more
/// often than the log is long.
pub proof fn lemma_count_two_kinds_bound(log: Seq<LogRecord>, a: MessageType, b: MessageType)
    requires
        a != b,
    ensures
        count_kind(log, a) + count_kind(log, b) <= log.len(),
    decreases log.len(),
{
    if log.len() > 0 {
        lemma_count_two_kinds_bound(log.drop_last(), a, b);
    }
}

/// Adding a record raises the count of its own kind by one and leaves the
/// count of every other kind as it was.
pub proof fn lemma_count_kind_push(log: Seq<LogRecord>, rec: LogRecord, kind: MessageType)
    ensures
        count_kind(log.push(rec), kind) == count_kind(log, kind) + if rec.mtype == kind {
            1nat
        } else {
            0nat
        },
{
    assert(log.push(rec).drop_last() =~= log);
}

/// How many of the records are of the given kind.
pub fn count_records(records: &Vec<LogRecord>, kind: MessageType) -> (n: u64)
    ensures
        n == count_kind(records@, kind),
        n <= records@.len() <= usize::MAX,
{
    let mut n: u64 = 0;
    let mut i: usize = 0;
    while i < records.len()
        invariant
            i <= records@.len(),
            n == count_kind(records@.subrange(0, i as int), kind),
            n <= i,
        decreases records@.len() - i,
    {
        proof {
            assert(records@.subrange(0, i + 1).drop_last() =~= records@.subrange(0, i as int));
        }
        if records[i].mtype == kind {
            n = n + 1;
        }
        i = i + 1;
    }
    proof {
        assert(records@.subrange(0, i as int) =~= records@);
    }
    n
}

impl View for OpLog {
    type V = Seq<LogRecord>;

    closed spec fn view(&self) -> Seq<LogRecord> {
        self.records@
    }
}

impl OpLog {
    /// The storage location that the log was made for.
    pub closed spec fn location(&self) -> Seq<char> {
        self.path@
    }

    /// An empty log for the given storage location.
    pub fn new(fpath: String) -> (log: OpLog)
        ensures
            log@ == Seq::<LogRecord>::empty(),
            log.location() == fpath@,
    {
        OpLog { path: fpath, records: Vec::new() }
    }

    /// The storage location that the log was made for.
    pub fn path(&self) -> (p: &String)
        ensures
            p@ == self.location(),
    {
        &self.path
    }

    /// Adds one record at the end of the log and returns it. What was in the
    /// log stays as it was.
    pub fn append(&mut self, t: MessageType, tid: TxId, sender: u32, op: u32) -> (rec: LogRecord)
        ensures
            rec == (ProtocolMessage { mtype: t, txid: tid, senderid: sender, opid: op }),
            final(self)@ == old(self)@.push(rec),
            final(self).location() == old(self).location(),
    {
        let rec = ProtocolMessage::generate(t, tid, sender, op);
        self.records.push(rec);
        rec
    }

    /// The number of records.
    pub fn len(&self) -> (n: usize)
        ensures
            n == self@.len(),
    {
        self.records.len()
    }

    /// The record at `offset`, counted from the oldest, if there is one.
    pub fn read(&self, offset: usize) -> (rec: Option<LogRecord>)
        ensures
            rec == if offset < self@.len() {
                Some(self@[offset as int])
            } else {
                None
            },
    {
        if offset < self.records.len() {
            Some(self.records[offset])
        } else {
            None
        }
    }

    /// Every record, oldest first.
    pub fn read_all(&self) -> (all: Vec<LogRecord>)
        ensures
            all@ == self@,
    {
        let mut all: Vec<LogRecord> = Vec::new();
        let mut i: usize = 0;
        while i < self.records.len()
            invariant
                i <= self.records@.len(),
                all@ == self.records@.subrange(0, i as int),
            decreases self.records@.len() - i,
        {
            all.push(self.records[i]);
            i = i + 1;
        }
        all
    }

    /// How many records are of the given kind.
    pub fn count(&self, kind: MessageType) -> (n: u64)
        ensures
            n == count_kind(self@, kind),
            n <= self@.len() <= usize::MAX,
    {
        count_records(&self.records, kind)
    }

    /// The tally of this log, where `opened` is the kind of record that
    /// starts a transaction, and `commit` and `abort` the two kinds that end
    /// one.
    pub fn tally(&self, opened: MessageType, commit: MessageType, abort: MessageType) -> (t:
        RunTally)
        requires
            commit != abort,
        ensures
            t.counts() == tally_of(self@, opened, commit, abort),
    {
        let committed = self.count(commit);
        let aborted = self.count(abort);
        let started = self.count(opened);
        proof {
            lemma_count_two_kinds_bound(self@, commit, abort);
        }
        let closed = committed + aborted;
        let unknown = if started >= closed {
            started - closed
        } else {
            0
        };
        RunTally { committed, aborted, unknown }
    }
}

} // verus!
