//! The format in which a log is kept on stable storage.
//!
//! A record takes seventeen bytes: one for its kind, then four words of
//! four bytes each, most significant byte first, for the client and the
//! number of the transaction, the participant or client concerned, and the
//! sequence number of the operation. A log is its records one after the
//! other, so that a record is added by adding its bytes at the end, and a
//! log is read back in full from its bytes. A message has the shape of a
//! record, and the same seventeen bytes carry it over a channel.

use vstd::prelude::*;
use crate::message::{MessageType, ProtocolMessage, TxId};
use crate::oplog::{LogRecord, OpLog};

verus! {

/// The number of bytes that a record takes.
pub const RECORD_BYTES: usize = 17;

/// The byte that stands for a kind.
pub open spec fn kind_code(kind: MessageType) -> u8 {
    match kind {
        MessageType::ClientRequest => 0,
        MessageType::CoordinatorPropose => 1,
        MessageType::ParticipantVoteCommit => 2,
        MessageType::ParticipantVoteAbort => 3,
        MessageType::CoordinatorAbort => 4,
        MessageType::CoordinatorCommit => 5,
        MessageType::ClientResultCommit => 6,
        MessageType::ClientResultAbort => 7,
        MessageType::CoordinatorExit => 8,
    }
}

/// The kind that a byte stands for, if it stands for one.
pub open spec fn kind_from(code: u8) -> Option<MessageType> {
    if code == 0 {
        Some(MessageType::ClientRequest)
    } else if code == 1 {
        Some(MessageType::CoordinatorPropose)
    } else if code == 2 {
        Some(MessageType::ParticipantVoteCommit)
    } else if code == 3 {
        Some(MessageType::ParticipantVoteAbort)
    } else if code == 4 {
        Some(MessageType::CoordinatorAbort)
    } else if code == 5 {
        Some(MessageType::CoordinatorCommit)
    } else if code == 6 {
        Some(MessageType::ClientResultCommit)
    } else if code == 7 {
        Some(MessageType::ClientResultAbort)
    } else if code == 8 {
        Some(MessageType::CoordinatorExit)
    } else {
        None
    }
}

/// The four bytes of a word, most significant first.
pub open spec fn word_bytes(x: u32) -> Seq<u8> {
    seq![
        (x / 0x100_0000) as u8,
        (x / 0x1_0000 % 0x100) as u8,
        (x / 0x100 % 0x100) as u8,
        (x % 0x100) as u8,
    ]
}

/// The word that the four bytes from `at` on stand for.
pub open spec fn word_from(bytes: Seq<u8>, at: int) -> int {
    bytes[at] * 0x100_0000 + bytes[at + 1] * 0x1_0000 + bytes[at + 2] * 0x100 + bytes[at + 3]
}

/// The bytes of a record.
pub open spec fn record_bytes(rec: LogRecord) -> Seq<u8> {
    seq![kind_code(rec.mtype)] + word_bytes(rec.txid.client) + word_bytes(rec.txid.seq)
        + word_bytes(rec.senderid) + word_bytes(rec.opid)
}

/// The record that the bytes stand for, if they are seventeen and the first
/// stands for a kind.
pub open spec fn record_from(bytes: Seq<u8>) -> Option<LogRecord> {
    if bytes.len() != RECORD_BYTES {
        None
    } else {
        match kind_from(bytes[0]) {
            Some(kind) => Some(
                ProtocolMessage {
                    mtype: kind,
                    txid: TxId {
                        client: word_from(bytes, 1) as u32,
                        seq: word_from(bytes, 5) as u32,
                    },
                    senderid: word_from(bytes, 9) as u32,
                    opid: word_from(bytes, 13) as u32,
                },
            ),
            None => None,
        }
    }
}

/// The bytes of a log: those of its records, oldest first.
pub open spec fn log_bytes(log: Seq<LogRecord>) -> Seq<u8>
    decreases log.len(),
{
    if log.len() == 0 {
        Seq::empty()
    } else {
        log_bytes(log.drop_last()) + record_bytes(log.last())
    }
}

/// The log that the bytes stand for, if they are whole records throughout.
pub open spec fn log_from(bytes: Seq<u8>) -> Option<Seq<LogRecord>>
    decreases bytes.len(),
{
    if bytes.len() == 0 {
        Some(Seq::empty())
    } else if bytes.len() < RECORD_BYTES {
        None
    } else {
        let cut = bytes.len() - RECORD_BYTES;
        match (log_from(bytes.subrange(0, cut)), record_from(bytes.subrange(cut, bytes.len() as int))) {
            (Some(log), Some(rec)) => Some(log.push(rec)),
            _ => None,
        }
    }
}

/// A word is read back from its four bytes as it was written.
proof fn lemma_word_round_trip(bytes: Seq<u8>, at: int, x: u32)
    requires
        0 <= at,
        at + 4 <= bytes.len(),
        bytes.subrange(at, at + 4) == word_bytes(x),
    ensures
        word_from(bytes, at) == x,
{
    let w = bytes.subrange(at, at + 4);
    assert(w[0] == bytes[at] && w[1] == bytes[at + 1] && w[2] == bytes[at + 2] && w[3] == bytes[at
        + 3]);
    let a = x / 0x100_0000;
    let b = x / 0x1_0000 % 0x100;
    let c = x / 0x100 % 0x100;
    let d = x % 0x100;
    assert(a * 0x100_0000 + b * 0x1_0000 + c * 0x100 + d == x && a < 0x100) by (bit_vector)
        requires
            a == x / 0x100_0000,
            b == x / 0x1_0000 % 0x100,
            c == x / 0x100 % 0x100,
            d == x % 0x100,
    ;
}

/// A record is read back from its bytes as it was written.
pub proof fn lemma_record_round_trip(rec: LogRecord)
    ensures
        record_bytes(rec).len() == RECORD_BYTES,
        record_from(record_bytes(rec)) == Some(rec),
{
    let bytes = record_bytes(rec);
    assert(bytes.len() == 17);
    assert(bytes[0] == kind_code(rec.mtype));
    assert(bytes.subrange(1, 5) =~= word_bytes(rec.txid.client));
    assert(bytes.subrange(5, 9) =~= word_bytes(rec.txid.seq));
    assert(bytes.subrange(9, 13) =~= word_bytes(rec.senderid));
    assert(bytes.subrange(13, 17) =~= word_bytes(rec.opid));
    lemma_word_round_trip(bytes, 1, rec.txid.client);
    lemma_word_round_trip(bytes, 5, rec.txid.seq);
    lemma_word_round_trip(bytes, 9, rec.senderid);
    lemma_word_round_trip(bytes, 13, rec.opid);
}

/// Adding a record to a log adds its bytes at the end of the log's bytes,
/// and leaves the bytes before them as they were.
pub proof fn lemma_append_is_append(log: Seq<LogRecord>, rec: LogRecord)
    ensures
        log_bytes(log.push(rec)) == log_bytes(log) + record_bytes(rec),
        log_bytes(log).len() == log.len() * RECORD_BYTES,
    decreases log.len(),
{
    assert(log.push(rec).drop_last() =~= log);
    if log.len() > 0 {
        lemma_append_is_append(log.drop_last(), log.last());
        assert(log.drop_last().push(log.last()) =~= log);
        lemma_record_round_trip(log.last());
    }
}

/// A log is read back from its bytes in full, as it was written.
pub proof fn lemma_log_round_trip(log: Seq<LogRecord>)
    ensures
        log_from(log_bytes(log)) == Some(log),
    decreases log.len(),
{
    if log.len() > 0 {
        let bytes = log_bytes(log);
        let rest = log.drop_last();
        lemma_log_round_trip(rest);
        lemma_record_round_trip(log.last());
        let cut = bytes.len() - RECORD_BYTES;
        assert(bytes.subrange(0, cut) =~= log_bytes(rest));
        assert(bytes.subrange(cut, bytes.len() as int) =~= record_bytes(log.last()));
        assert(rest.push(log.last()) =~= log);
    }
}

/// Bytes that are more than `n` records and less than `n + 1` stand for no
/// log.
proof fn lemma_ragged(bytes: Seq<u8>, n: nat)
    requires
        n * RECORD_BYTES < bytes.len() < (n + 1) * RECORD_BYTES,
    ensures
        log_from(bytes) is None,
    decreases n,
{
    if n > 0 {
        lemma_ragged(bytes.subrange(0, bytes.len() - RECORD_BYTES), (n - 1) as nat);
    }
}

/// Where the first `upto` bytes stand for no log, they do not either when
/// `k` records' worth of bytes follow them.
proof fn lemma_broken(bytes: Seq<u8>, upto: int, k: nat)
    requires
        0 <= upto,
        bytes.len() == upto + k * RECORD_BYTES,
        log_from(bytes.subrange(0, upto)) is None,
    ensures
        log_from(bytes) is None,
    decreases k,
{
    if k == 0 {
        assert(bytes.subrange(0, upto) =~= bytes);
    } else {
        let shorter = bytes.subrange(0, bytes.len() - RECORD_BYTES);
        assert(shorter.subrange(0, upto) =~= bytes.subrange(0, upto));
        lemma_broken(shorter, upto, (k - 1) as nat);
    }
}

/// The log that the bytes up to the end of a record stand for is the log
/// that the bytes before the record stand for, and then that record.
proof fn lemma_one_more_record(bytes: Seq<u8>, at: int)
    requires
        0 <= at,
        at + RECORD_BYTES <= bytes.len(),
    ensures
        log_from(bytes.subrange(0, at + RECORD_BYTES)) == match (
            log_from(bytes.subrange(0, at)),
            record_from(bytes.subrange(at, at + RECORD_BYTES)),
        ) {
            (Some(log), Some(rec)) => Some(log.push(rec)),
            _ => None::<Seq<LogRecord>>,
        },
{
    let upto = bytes.subrange(0, at + RECORD_BYTES);
    assert(upto.len() == at + RECORD_BYTES);
    assert(upto.subrange(0, at) =~= bytes.subrange(0, at));
    assert(upto.subrange(at, upto.len() as int) =~= bytes.subrange(at, at + RECORD_BYTES));
}

/// The byte that stands for a kind.
fn kind_byte(kind: MessageType) -> (code: u8)
    ensures
        code == kind_code(kind),
{
    match kind {
        MessageType::ClientRequest => 0,
        MessageType::CoordinatorPropose => 1,
        MessageType::ParticipantVoteCommit => 2,
        MessageType::ParticipantVoteAbort => 3,
        MessageType::CoordinatorAbort => 4,
        MessageType::CoordinatorCommit => 5,
        MessageType::ClientResultCommit => 6,
        MessageType::ClientResultAbort => 7,
        MessageType::CoordinatorExit => 8,
    }
}

/// The kind that a byte stands for, if it stands for one.
fn byte_kind(code: u8) -> (kind: Option<MessageType>)
    ensures
        kind == kind_from(code),
{
    if code == 0 {
        Some(MessageType::ClientRequest)
    } else if code == 1 {
        Some(MessageType::CoordinatorPropose)
    } else if code == 2 {
        Some(MessageType::ParticipantVoteCommit)
    } else if code == 3 {
        Some(MessageType::ParticipantVoteAbort)
    } else if code == 4 {
        Some(MessageType::CoordinatorAbort)
    } else if code == 5 {
        Some(MessageType::CoordinatorCommit)
    } else if code == 6 {
        Some(MessageType::ClientResultCommit)
    } else if code == 7 {
        Some(MessageType::ClientResultAbort)
    } else if code == 8 {
        Some(MessageType::CoordinatorExit)
    } else {
        None
    }
}

/// Adds the four bytes of a word at the end of `out`.
fn push_word(out: &mut Vec<u8>, x: u32)
    ensures
        final(out)@ == old(out)@ + word_bytes(x),
{
    out.push((x / 0x100_0000) as u8);
    out.push((x / 0x1_0000 % 0x100) as u8);
    out.push((x / 0x100 % 0x100) as u8);
    out.push((x % 0x100) as u8);
    proof {
        assert(out@ =~= old(out)@ + word_bytes(x));
    }
}

/// The word that the four bytes from `at` on stand for.
fn read_word(bytes: &Vec<u8>, at: usize) -> (x: u32)
    requires
        at + 4 <= bytes@.len(),
    ensures
        x == word_from(bytes@, at as int),
{
    proof {
        assert(bytes@.len() == bytes.len());
    }
    let b0: u32 = bytes[at] as u32;
    let b1: u32 = bytes[at + 1] as u32;
    let b2: u32 = bytes[at + 2] as u32;
    let b3: u32 = bytes[at + 3] as u32;
    b0 * 0x100_0000 + b1 * 0x1_0000 + b2 * 0x100 + b3
}

/// Adds the bytes of a record at the end of `out`.
pub fn write_record(out: &mut Vec<u8>, rec: &LogRecord)
    ensures
        final(out)@ == old(out)@ + record_bytes(*rec),
{
    out.push(kind_byte(rec.mtype));
    push_word(out, rec.txid.client);
    push_word(out, rec.txid.seq);
    push_word(out, rec.senderid);
    push_word(out, rec.opid);
    proof {
        assert(out@ =~= old(out)@ + record_bytes(*rec));
    }
}

/// The bytes of a record.
pub fn encode_record(rec: &LogRecord) -> (bytes: Vec<u8>)
    ensures
        bytes@ == record_bytes(*rec),
{
    let mut bytes: Vec<u8> = Vec::new();
    write_record(&mut bytes, rec);
    proof {
        assert(bytes@ =~= record_bytes(*rec));
    }
    bytes
}

/// The record that the seventeen bytes from `at` on stand for, if there are
/// that many and the first stands for a kind.
pub fn read_record(bytes: &Vec<u8>, at: usize) -> (rec: Option<LogRecord>)
    ensures
        rec == if at + RECORD_BYTES <= bytes@.len() {
            record_from(bytes@.subrange(at as int, at + RECORD_BYTES))
        } else {
            None
        },
{
    if bytes.len() < RECORD_BYTES || at > bytes.len() - RECORD_BYTES {
        return None;
    }
    let ghost part = bytes@.subrange(at as int, at + RECORD_BYTES);
    proof {
        assert(part[0] == bytes@[at as int]);
        assert(word_from(part, 1) == word_from(bytes@, at + 1));
        assert(word_from(part, 5) == word_from(bytes@, at + 5));
        assert(word_from(part, 9) == word_from(bytes@, at + 9));
        assert(word_from(part, 13) == word_from(bytes@, at + 13));
    }
    match byte_kind(bytes[at]) {
        Some(kind) => {
            let client = read_word(bytes, at + 1);
            let seq = read_word(bytes, at + 5);
            let senderid = read_word(bytes, at + 9);
            let opid = read_word(bytes, at + 13);
            Some(ProtocolMessage::generate(kind, TxId::new(client, seq), senderid, opid))
        },
        None => None,
    }
}

/// The record that the bytes stand for, if they are seventeen and the first
/// stands for a kind.
pub fn decode_record(bytes: &Vec<u8>) -> (rec: Option<LogRecord>)
    ensures
        rec == record_from(bytes@),
{
    if bytes.len() != RECORD_BYTES {
        return None;
    }
    proof {
        assert(bytes@.subrange(0, RECORD_BYTES as int) =~= bytes@);
    }
    read_record(bytes, 0)
}

impl OpLog {
    /// The bytes of the log, as they stand on stable storage.
    pub fn to_bytes(&self) -> (bytes: Vec<u8>)
        ensures
            bytes@ == log_bytes(self@),
    {
        let records = self.read_all();
        let mut bytes: Vec<u8> = Vec::new();
        let mut i: usize = 0;
        while i < records.len()
            invariant
                i <= records@.len(),
                bytes@ == log_bytes(records@.subrange(0, i as int)),
            decreases records@.len() - i,
        {
            proof {
                lemma_append_is_append(records@.subrange(0, i as int), records@[i as int]);
                assert(records@.subrange(0, i as int).push(records@[i as int])
                    =~= records@.subrange(0, i + 1));
            }
            write_record(&mut bytes, &records[i]);
            i = i + 1;
        }
        proof {
            assert(records@.subrange(0, i as int) =~= records@);
        }
        bytes
    }

    /// Replays a log from its bytes: the log for the given storage location
    /// that holds the records that the bytes stand for, or nothing if the
    /// bytes are not whole records throughout.
    pub fn from_bytes(fpath: String, bytes: &Vec<u8>) -> (replayed: Option<OpLog>)
        ensures
            match replayed {
                Some(log) => log_from(bytes@) == Some(log@) && log.location() == fpath@,
                None => log_from(bytes@) is None,
            },
    {
        let n = bytes.len() / RECORD_BYTES;
        if n * RECORD_BYTES != bytes.len() {
            proof {
                lemma_ragged(bytes@, n as nat);
            }
            return None;
        }
        let mut log = OpLog::new(fpath);
        let mut i: usize = 0;
        while i < n
            invariant
                i <= n,
                n * RECORD_BYTES == bytes@.len() <= usize::MAX,
                log_from(bytes@.subrange(0, i * RECORD_BYTES)) == Some(log@),
                log.location() == fpath@,
            decreases n - i,
        {
            let at = i * RECORD_BYTES;
            proof {
                lemma_one_more_record(bytes@, at as int);
            }
            match read_record(bytes, at) {
                Some(rec) => {
                    log.append(rec.mtype, rec.txid, rec.senderid, rec.opid);
                },
                None => {
                    proof {
                        lemma_broken(bytes@, at + RECORD_BYTES, (n - i - 1) as nat);
                    }
                    return None;
                },
            }
            i = i + 1;
        }
        proof {
            assert(bytes@.subrange(0, i * RECORD_BYTES) =~= bytes@);
        }
        Some(log)
    }
}

} // verus!
