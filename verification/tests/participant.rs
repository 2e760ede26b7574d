use twopc::message::{MessageType, ProtocolMessage, ProtocolViolation, TxId};
use twopc::oplog::RunTally;
use twopc::participant::{
    Participant, ParticipantAction, ParticipantEvent, ParticipantState, ParticipantWait,
    PROBABILITY_SCALE,
};

fn participant(num: u32, send: u32, op: u32) -> Participant {
    Participant::new(String::from("participant"), num, String::from("p.log"), send, op)
}

fn message(kind: MessageType, txid: TxId, to: u32) -> ProtocolMessage {
    ProtocolMessage::generate(kind, txid, to, txid.seq)
}

fn propose(txid: TxId, to: u32) -> ParticipantEvent {
    ParticipantEvent::Message(message(MessageType::CoordinatorPropose, txid, to))
}

#[test]
fn the_scale_is_a_million() {
    assert_eq!(PROBABILITY_SCALE, 1_000_000);
}

#[test]
fn a_new_participant_is_idle() {
    let p = Participant::new(
        String::from("participant_2"),
        2,
        String::from("dir/participant_2.log"),
        900_000,
        500_000,
    );
    assert_eq!(p.id_str().as_str(), "participant_2");
    assert_eq!(p.num(), 2);
    assert_eq!(p.state(), ParticipantState::Idle);
    assert_eq!(p.awaiting(), ParticipantWait::Message);
    assert_eq!(p.log().len(), 0);
    assert_eq!(p.log().path().as_str(), "dir/participant_2.log");
    assert_eq!(p.report_status(), RunTally { committed: 0, aborted: 0, unknown: 0 });
}

#[test]
fn the_participant_walks_through_every_state() {
    let mut p = participant(1, 500_000, 500_000);
    let t = TxId::new(0, 3);
    assert_eq!(p.protocol_with(propose(t, 1), 0, 0), Ok(vec![]));
    assert_eq!(p.state(), ParticipantState::ProposalReceived);
    assert_eq!(p.awaiting(), ParticipantWait::Advance);

    let vote = message(MessageType::ParticipantVoteCommit, t, 1);
    assert_eq!(
        p.protocol_with(ParticipantEvent::Advance, 499_999, 499_999),
        Ok(vec![ParticipantAction::Log(vote), ParticipantAction::Send(vote)])
    );
    assert_eq!(p.state(), ParticipantState::Voted);
    assert_eq!(p.awaiting(), ParticipantWait::Message);

    let decision = ParticipantEvent::Message(message(MessageType::CoordinatorCommit, t, 1));
    assert_eq!(p.protocol_with(decision, 0, 0), Ok(vec![]));
    assert_eq!(p.state(), ParticipantState::DecisionApplied);
    assert_eq!(p.awaiting(), ParticipantWait::Advance);

    let outcome = message(MessageType::CoordinatorCommit, t, 1);
    assert_eq!(
        p.protocol_with(ParticipantEvent::Advance, 0, 0),
        Ok(vec![ParticipantAction::Log(outcome)])
    );
    assert_eq!(p.state(), ParticipantState::Idle);
    assert_eq!(p.log().read_all(), vec![vote, outcome]);
    assert_eq!(p.report_status(), RunTally { committed: 1, aborted: 0, unknown: 0 });
}

#[test]
fn the_draw_decides_the_vote() {
    let t = TxId::new(0, 0);
    for (draw, kind) in [
        (0u32, MessageType::ParticipantVoteCommit),
        (299_999, MessageType::ParticipantVoteCommit),
        (300_000, MessageType::ParticipantVoteAbort),
        (999_999, MessageType::ParticipantVoteAbort),
    ] {
        let mut p = participant(0, PROBABILITY_SCALE, 300_000);
        p.protocol_with(propose(t, 0), 0, 0).unwrap();
        let actions = p.protocol_with(ParticipantEvent::Advance, draw, 0).unwrap();
        let vote = message(kind, t, 0);
        assert_eq!(actions, vec![ParticipantAction::Log(vote), ParticipantAction::Send(vote)]);
    }
}

#[test]
fn the_draw_decides_whether_the_vote_gets_through() {
    let t = TxId::new(0, 0);
    for (draw, through) in [(0u32, true), (699_999, true), (700_000, false), (999_999, false)] {
        let mut p = participant(0, 700_000, PROBABILITY_SCALE);
        p.protocol_with(propose(t, 0), 0, 0).unwrap();
        let actions = p.protocol_with(ParticipantEvent::Advance, 0, draw).unwrap();
        let vote = message(MessageType::ParticipantVoteCommit, t, 0);
        if through {
            assert_eq!(actions, vec![ParticipantAction::Log(vote), ParticipantAction::Send(vote)]);
        } else {
            assert_eq!(actions, vec![ParticipantAction::Log(vote)]);
        }
        assert_eq!(p.state(), ParticipantState::Voted);
        assert_eq!(p.log().read_all(), vec![vote]);
    }
}

#[test]
fn a_lost_vote_is_still_logged() {
    let mut p = participant(3, 0, 0);
    let t = TxId::new(1, 1);
    p.protocol_with(propose(t, 3), 0, 0).unwrap();
    let actions = p.protocol_with(ParticipantEvent::Advance, 0, 0).unwrap();
    let vote = message(MessageType::ParticipantVoteAbort, t, 3);
    assert_eq!(actions, vec![ParticipantAction::Log(vote)]);
}

#[test]
fn the_vote_carries_the_participants_own_index() {
    let mut p = participant(5, PROBABILITY_SCALE, PROBABILITY_SCALE);
    let t = TxId::new(2, 9);
    p.protocol_with(propose(t, 0), 0, 0).unwrap();
    let actions = p.protocol_with(ParticipantEvent::Advance, 0, 0).unwrap();
    let vote = ProtocolMessage::generate(MessageType::ParticipantVoteCommit, t, 5, 9);
    assert_eq!(actions, vec![ParticipantAction::Log(vote), ParticipantAction::Send(vote)]);
}

#[test]
fn certainty_always_commits_and_always_gets_through() {
    for seq in 0..200u32 {
        let mut p = participant(0, PROBABILITY_SCALE, PROBABILITY_SCALE);
        let t = TxId::new(0, seq);
        assert_eq!(p.protocol(propose(t, 0)), Ok(vec![]));
        let vote = message(MessageType::ParticipantVoteCommit, t, 0);
        assert_eq!(
            p.protocol(ParticipantEvent::Advance),
            Ok(vec![ParticipantAction::Log(vote), ParticipantAction::Send(vote)])
        );
    }
}

#[test]
fn impossibility_always_aborts_and_never_gets_through() {
    for seq in 0..200u32 {
        let mut p = participant(0, 0, 0);
        let t = TxId::new(0, seq);
        assert_eq!(p.protocol(propose(t, 0)), Ok(vec![]));
        let vote = message(MessageType::ParticipantVoteAbort, t, 0);
        assert_eq!(p.protocol(ParticipantEvent::Advance), Ok(vec![ParticipantAction::Log(vote)]));
    }
}

#[test]
fn chance_gives_both_votes_in_the_long_run() {
    let mut commits = 0;
    let mut aborts = 0;
    for seq in 0..400u32 {
        let mut p = participant(0, PROBABILITY_SCALE, 500_000);
        let t = TxId::new(0, seq);
        p.protocol(propose(t, 0)).unwrap();
        match p.protocol(ParticipantEvent::Advance).unwrap()[0] {
            ParticipantAction::Log(rec) if rec.mtype == MessageType::ParticipantVoteCommit => {
                commits += 1
            }
            ParticipantAction::Log(rec) if rec.mtype == MessageType::ParticipantVoteAbort => {
                aborts += 1
            }
            other => panic!("{:?}", other),
        }
    }
    assert_eq!(commits + aborts, 400);
    assert!(commits > 0);
    assert!(aborts > 0);
}

#[test]
fn an_abort_is_applied_as_it_comes() {
    let mut p = participant(0, PROBABILITY_SCALE, PROBABILITY_SCALE);
    let t = TxId::new(0, 0);
    p.protocol_with(propose(t, 0), 0, 0).unwrap();
    p.protocol_with(ParticipantEvent::Advance, 0, 0).unwrap();
    let decision = message(MessageType::CoordinatorAbort, t, 0);
    p.protocol_with(ParticipantEvent::Message(decision), 0, 0).unwrap();
    assert_eq!(
        p.protocol_with(ParticipantEvent::Advance, 0, 0),
        Ok(vec![ParticipantAction::Log(decision)])
    );
    assert_eq!(p.report_status(), RunTally { committed: 0, aborted: 1, unknown: 0 });
}

#[test]
fn exit_terminates() {
    let mut p = participant(0, 1, 1);
    let exit = message(MessageType::CoordinatorExit, TxId::new(0, 0), 0);
    assert_eq!(p.protocol_with(ParticipantEvent::Message(exit), 0, 0), Ok(vec![]));
    assert_eq!(p.state(), ParticipantState::Terminated);
    assert_eq!(p.awaiting(), ParticipantWait::Nothing);
    assert_eq!(
        p.protocol_with(propose(TxId::new(0, 0), 0), 0, 0),
        Err(ProtocolViolation::UnexpectedEvent)
    );
    assert_eq!(
        p.protocol_with(ParticipantEvent::Advance, 0, 0),
        Err(ProtocolViolation::UnexpectedEvent)
    );
    assert_eq!(p.protocol(ParticipantEvent::Advance), Err(ProtocolViolation::UnexpectedEvent));
}

#[test]
fn exit_after_a_vote_leaves_the_transaction_unknown() {
    let mut p = participant(0, PROBABILITY_SCALE, PROBABILITY_SCALE);
    p.protocol_with(propose(TxId::new(0, 0), 0), 0, 0).unwrap();
    p.protocol_with(ParticipantEvent::Advance, 0, 0).unwrap();
    let exit = message(MessageType::CoordinatorExit, TxId::new(0, 0), 0);
    assert_eq!(p.protocol_with(ParticipantEvent::Message(exit), 0, 0), Ok(vec![]));
    assert_eq!(p.state(), ParticipantState::Terminated);
    assert_eq!(p.report_status(), RunTally { committed: 0, aborted: 0, unknown: 1 });
}

#[test]
fn the_participant_refuses_an_event_that_does_not_fit() {
    let mut p = participant(0, PROBABILITY_SCALE, PROBABILITY_SCALE);
    let t = TxId::new(0, 0);
    assert_eq!(
        p.protocol_with(ParticipantEvent::Advance, 0, 0),
        Err(ProtocolViolation::UnexpectedEvent)
    );
    p.protocol_with(propose(t, 0), 0, 0).unwrap();
    assert_eq!(
        p.protocol_with(propose(TxId::new(0, 1), 0), 0, 0),
        Err(ProtocolViolation::UnexpectedEvent)
    );
    assert_eq!(p.state(), ParticipantState::ProposalReceived);
    p.protocol_with(ParticipantEvent::Advance, 0, 0).unwrap();
    assert_eq!(
        p.protocol_with(ParticipantEvent::Advance, 0, 0),
        Err(ProtocolViolation::UnexpectedEvent)
    );
    assert_eq!(p.state(), ParticipantState::Voted);
    assert_eq!(p.log().len(), 1);
}

#[test]
fn the_participant_refuses_a_message_of_the_wrong_kind() {
    let mut p = participant(0, PROBABILITY_SCALE, PROBABILITY_SCALE);
    let t = TxId::new(0, 0);
    let decision = ParticipantEvent::Message(message(MessageType::CoordinatorCommit, t, 0));
    assert_eq!(p.protocol_with(decision, 0, 0), Err(ProtocolViolation::UnexpectedMessage));
    let request = ParticipantEvent::Message(message(MessageType::ClientRequest, t, 0));
    assert_eq!(p.protocol_with(request, 0, 0), Err(ProtocolViolation::UnexpectedMessage));
    assert_eq!(p.state(), ParticipantState::Idle);
    p.protocol_with(propose(t, 0), 0, 0).unwrap();
    p.protocol_with(ParticipantEvent::Advance, 0, 0).unwrap();
    assert_eq!(
        p.protocol_with(propose(TxId::new(0, 1), 0), 0, 0),
        Err(ProtocolViolation::UnexpectedMessage)
    );
    let other = ParticipantEvent::Message(message(MessageType::CoordinatorCommit, TxId::new(0, 1), 0));
    assert_eq!(p.protocol_with(other, 0, 0), Err(ProtocolViolation::UnexpectedMessage));
    assert_eq!(p.state(), ParticipantState::Voted);
}
