use twopc::message::{MessageType, ProtocolMessage, RequestStatus, TxId};

#[test]
fn generate_keeps_the_four_parts() {
    let m = ProtocolMessage::generate(MessageType::CoordinatorPropose, TxId::new(3, 7), 2, 7);
    assert_eq!(m.mtype, MessageType::CoordinatorPropose);
    assert_eq!(m.txid, TxId { client: 3, seq: 7 });
    assert_eq!(m.senderid, 2);
    assert_eq!(m.opid, 7);
}

#[test]
fn kinds_are_told_apart() {
    assert!(MessageType::ParticipantVoteCommit.vote());
    assert!(MessageType::ParticipantVoteAbort.vote());
    assert!(!MessageType::CoordinatorCommit.vote());
    assert!(MessageType::CoordinatorCommit.decision());
    assert!(MessageType::CoordinatorAbort.decision());
    assert!(!MessageType::ClientResultAbort.decision());
    assert!(MessageType::ClientResultCommit.result());
    assert!(MessageType::ClientResultAbort.result());
    assert!(!MessageType::CoordinatorExit.result());
    assert_eq!(MessageType::CoordinatorCommit.outcome(), RequestStatus::Committed);
    assert_eq!(MessageType::ClientResultAbort.outcome(), RequestStatus::Aborted);
    assert_eq!(MessageType::ClientRequest.outcome(), RequestStatus::Unknown);
}
