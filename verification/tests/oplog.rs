use twopc::codec::{decode_record, encode_record, read_record, write_record, RECORD_BYTES};
use twopc::message::{MessageType, ProtocolMessage, TxId};
use twopc::oplog::{count_records, OpLog, RunTally};

fn sample(kind: MessageType, client: u32, seq: u32) -> ProtocolMessage {
    ProtocolMessage::generate(kind, TxId::new(client, seq), client, seq)
}

#[test]
fn a_new_log_is_empty_and_keeps_its_location() {
    let log = OpLog::new(String::from("logs/coordinator.log"));
    assert_eq!(log.len(), 0);
    assert_eq!(log.path().as_str(), "logs/coordinator.log");
    assert_eq!(log.read(0), None);
    assert!(log.read_all().is_empty());
}

#[test]
fn append_adds_at_the_end_and_returns_the_record() {
    let mut log = OpLog::new(String::from("a"));
    let first = log.append(MessageType::CoordinatorPropose, TxId::new(1, 0), 1, 0);
    let second = log.append(MessageType::CoordinatorCommit, TxId::new(1, 0), 1, 0);
    assert_eq!(first, sample(MessageType::CoordinatorPropose, 1, 0));
    assert_eq!(second, sample(MessageType::CoordinatorCommit, 1, 0));
    assert_eq!(log.len(), 2);
    assert_eq!(log.read(0), Some(first));
    assert_eq!(log.read(1), Some(second));
    assert_eq!(log.read(2), None);
    assert_eq!(log.path().as_str(), "a");
}

#[test]
fn read_all_replays_in_append_order() {
    let mut log = OpLog::new(String::from("a"));
    let mut expected = Vec::new();
    for seq in 0..5u32 {
        expected.push(log.append(MessageType::ParticipantVoteCommit, TxId::new(2, seq), 7, seq));
    }
    assert_eq!(log.read_all(), expected);
}

#[test]
fn earlier_records_stay_as_they_were() {
    let mut log = OpLog::new(String::from("a"));
    log.append(MessageType::CoordinatorPropose, TxId::new(0, 0), 0, 0);
    let before = log.read_all();
    log.append(MessageType::CoordinatorAbort, TxId::new(0, 0), 0, 0);
    log.append(MessageType::ClientResultAbort, TxId::new(0, 0), 0, 0);
    let after = log.read_all();
    assert_eq!(&after[..before.len()], &before[..]);
    assert_eq!(after.len(), before.len() + 2);
}

#[test]
fn count_counts_one_kind() {
    let mut log = OpLog::new(String::from("a"));
    log.append(MessageType::CoordinatorPropose, TxId::new(0, 0), 0, 0);
    log.append(MessageType::CoordinatorCommit, TxId::new(0, 0), 0, 0);
    log.append(MessageType::CoordinatorPropose, TxId::new(0, 1), 0, 1);
    log.append(MessageType::CoordinatorAbort, TxId::new(0, 1), 0, 1);
    log.append(MessageType::CoordinatorPropose, TxId::new(0, 2), 0, 2);
    assert_eq!(log.count(MessageType::CoordinatorPropose), 3);
    assert_eq!(log.count(MessageType::CoordinatorCommit), 1);
    assert_eq!(log.count(MessageType::CoordinatorAbort), 1);
    assert_eq!(log.count(MessageType::CoordinatorExit), 0);
    assert_eq!(count_records(&log.read_all(), MessageType::CoordinatorPropose), 3);
}

#[test]
fn tally_counts_commits_aborts_and_what_is_left_open() {
    let mut log = OpLog::new(String::from("a"));
    log.append(MessageType::CoordinatorPropose, TxId::new(0, 0), 0, 0);
    log.append(MessageType::CoordinatorCommit, TxId::new(0, 0), 0, 0);
    log.append(MessageType::CoordinatorPropose, TxId::new(0, 1), 0, 1);
    log.append(MessageType::CoordinatorAbort, TxId::new(0, 1), 0, 1);
    log.append(MessageType::CoordinatorPropose, TxId::new(0, 2), 0, 2);
    let t = log.tally(
        MessageType::CoordinatorPropose,
        MessageType::CoordinatorCommit,
        MessageType::CoordinatorAbort,
    );
    assert_eq!(t, RunTally { committed: 1, aborted: 1, unknown: 1 });
}

#[test]
fn tally_of_an_empty_log_is_zero() {
    let log = OpLog::new(String::from("a"));
    let t = log.tally(
        MessageType::ClientRequest,
        MessageType::ClientResultCommit,
        MessageType::ClientResultAbort,
    );
    assert_eq!(t, RunTally { committed: 0, aborted: 0, unknown: 0 });
}

#[test]
fn tally_never_goes_below_zero() {
    let mut log = OpLog::new(String::from("a"));
    log.append(MessageType::CoordinatorCommit, TxId::new(0, 0), 0, 0);
    log.append(MessageType::CoordinatorAbort, TxId::new(0, 1), 0, 1);
    let t = log.tally(
        MessageType::CoordinatorPropose,
        MessageType::CoordinatorCommit,
        MessageType::CoordinatorAbort,
    );
    assert_eq!(t, RunTally { committed: 1, aborted: 1, unknown: 0 });
}

#[test]
fn a_record_takes_seventeen_bytes() {
    assert_eq!(RECORD_BYTES, 17);
    let rec = ProtocolMessage::generate(
        MessageType::CoordinatorCommit,
        TxId::new(0x0102_0304, 0x0506_0708),
        0x090a_0b0c,
        0xfffe_fdfc,
    );
    let bytes = encode_record(&rec);
    assert_eq!(
        bytes,
        vec![5, 1, 2, 3, 4, 5, 6, 7, 8, 9, 10, 11, 12, 0xff, 0xfe, 0xfd, 0xfc]
    );
}

#[test]
fn every_kind_has_its_own_byte() {
    let kinds = [
        (MessageType::ClientRequest, 0u8),
        (MessageType::CoordinatorPropose, 1),
        (MessageType::ParticipantVoteCommit, 2),
        (MessageType::ParticipantVoteAbort, 3),
        (MessageType::CoordinatorAbort, 4),
        (MessageType::CoordinatorCommit, 5),
        (MessageType::ClientResultCommit, 6),
        (MessageType::ClientResultAbort, 7),
        (MessageType::CoordinatorExit, 8),
    ];
    for (kind, code) in kinds {
        let rec = ProtocolMessage::generate(kind, TxId::new(1, 2), 3, 4);
        let bytes = encode_record(&rec);
        assert_eq!(bytes[0], code);
        assert_eq!(decode_record(&bytes), Some(rec));
    }
}

#[test]
fn a_record_is_read_back_as_written() {
    for (client, seq, sender, op) in [
        (0u32, 0u32, 0u32, 0u32),
        (1, 2, 3, 4),
        (255, 256, 65535, 65536),
        (u32::MAX, u32::MAX - 1, 0x8000_0000, 0x00ff_ff00),
    ] {
        let rec = ProtocolMessage::generate(
            MessageType::ParticipantVoteAbort,
            TxId::new(client, seq),
            sender,
            op,
        );
        assert_eq!(decode_record(&encode_record(&rec)), Some(rec));
    }
}

#[test]
fn decode_refuses_a_wrong_length_and_an_unknown_kind() {
    let rec = sample(MessageType::ClientRequest, 1, 1);
    let mut bytes = encode_record(&rec);
    bytes.push(0);
    assert_eq!(decode_record(&bytes), None);
    bytes.truncate(16);
    assert_eq!(decode_record(&bytes), None);
    assert_eq!(decode_record(&Vec::new()), None);
    let mut unknown = encode_record(&rec);
    unknown[0] = 9;
    assert_eq!(decode_record(&unknown), None);
    unknown[0] = 255;
    assert_eq!(decode_record(&unknown), None);
}

#[test]
fn write_record_adds_at_the_end() {
    let first = sample(MessageType::CoordinatorPropose, 1, 0);
    let second = sample(MessageType::CoordinatorAbort, 1, 0);
    let mut out = Vec::new();
    write_record(&mut out, &first);
    let after_first = out.clone();
    write_record(&mut out, &second);
    assert_eq!(out.len(), 34);
    assert_eq!(&out[..17], &after_first[..]);
    assert_eq!(read_record(&out, 0), Some(first));
    assert_eq!(read_record(&out, 17), Some(second));
    assert_eq!(read_record(&out, 18), None);
    assert_eq!(read_record(&out, 34), None);
    assert_eq!(read_record(&out, usize::MAX), None);
}

#[test]
fn a_log_is_replayed_from_its_bytes() {
    let mut log = OpLog::new(String::from("p0.log"));
    log.append(MessageType::ParticipantVoteCommit, TxId::new(0, 0), 0, 0);
    log.append(MessageType::CoordinatorCommit, TxId::new(0, 0), 0, 0);
    log.append(MessageType::ParticipantVoteAbort, TxId::new(0, 1), 0, 1);
    let bytes = log.to_bytes();
    assert_eq!(bytes.len(), 3 * RECORD_BYTES);
    let replayed = OpLog::from_bytes(String::from("copy.log"), &bytes).unwrap();
    assert_eq!(replayed.read_all(), log.read_all());
    assert_eq!(replayed.path().as_str(), "copy.log");
}

#[test]
fn appending_a_record_appends_its_bytes() {
    let mut log = OpLog::new(String::from("a"));
    log.append(MessageType::CoordinatorPropose, TxId::new(3, 4), 3, 4);
    let before = log.to_bytes();
    let rec = log.append(MessageType::CoordinatorCommit, TxId::new(3, 4), 3, 4);
    let mut expected = before.clone();
    expected.extend_from_slice(&encode_record(&rec));
    assert_eq!(log.to_bytes(), expected);
}

#[test]
fn an_empty_file_is_an_empty_log() {
    let log = OpLog::from_bytes(String::from("a"), &Vec::new()).unwrap();
    assert_eq!(log.len(), 0);
    assert!(OpLog::new(String::from("a")).to_bytes().is_empty());
}

#[test]
fn replay_refuses_what_is_not_whole_records() {
    let mut log = OpLog::new(String::from("a"));
    log.append(MessageType::CoordinatorPropose, TxId::new(3, 4), 3, 4);
    log.append(MessageType::CoordinatorCommit, TxId::new(3, 4), 3, 4);
    let mut bytes = log.to_bytes();
    bytes.pop();
    assert!(OpLog::from_bytes(String::from("a"), &bytes).is_none());
    let mut broken = log.to_bytes();
    broken[0] = 42;
    assert!(OpLog::from_bytes(String::from("a"), &broken).is_none());
    let mut later = log.to_bytes();
    later[17] = 9;
    assert!(OpLog::from_bytes(String::from("a"), &later).is_none());
}
