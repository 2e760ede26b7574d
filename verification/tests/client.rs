use twopc::client::{Client, ClientAction, ClientEvent, ClientState, ClientWait};
use twopc::message::{MessageType, ProtocolMessage, ProtocolViolation, TxId};
use twopc::oplog::RunTally;

fn result(kind: MessageType, client: u32, seq: u32) -> ProtocolMessage {
    ProtocolMessage::generate(kind, TxId::new(client, seq), client, seq)
}

#[test]
fn a_new_client_has_sent_nothing() {
    let c = Client::new(String::from("client_4"), 4);
    assert_eq!(c.id_str().as_str(), "client_4");
    assert_eq!(c.num(), 4);
    assert_eq!(c.num_requests(), 0);
    assert_eq!(c.state(), ClientState::Ready);
    assert_eq!(c.log().len(), 0);
    assert_eq!(c.awaiting(1), ClientWait::Advance);
    assert_eq!(c.awaiting(0), ClientWait::Stop);
    assert_eq!(c.report_status(), RunTally { committed: 0, aborted: 0, unknown: 0 });
}

#[test]
fn send_next_operation_makes_a_fresh_request() {
    let mut c = Client::new(String::from("client_7"), 7);
    let first = c.send_next_operation();
    assert_eq!(
        first,
        ProtocolMessage {
            mtype: MessageType::ClientRequest,
            txid: TxId { client: 7, seq: 0 },
            senderid: 7,
            opid: 0,
        }
    );
    assert_eq!(c.state(), ClientState::AwaitingResult);
    assert_eq!(c.num_requests(), 1);
    assert_eq!(c.recv_result(&result(MessageType::ClientResultCommit, 7, 0)), 1);
    let second = c.send_next_operation();
    assert_eq!(second.txid, TxId { client: 7, seq: 1 });
    assert_eq!(second.opid, 1);
    assert_eq!(c.num_requests(), 2);
    assert_ne!(first.txid, second.txid);
}

#[test]
fn recv_result_tells_commit_abort_and_the_rest_apart() {
    let mut c = Client::new(String::from("client_1"), 1);
    c.send_next_operation();
    assert_eq!(c.recv_result(&result(MessageType::ClientResultCommit, 1, 0)), 1);
    assert_eq!(c.state(), ClientState::Ready);
    c.send_next_operation();
    assert_eq!(c.recv_result(&result(MessageType::ClientResultAbort, 1, 1)), 0);
    c.send_next_operation();
    assert_eq!(c.recv_result(&result(MessageType::CoordinatorExit, 0, 0)), -1);
    assert_eq!(c.state(), ClientState::Ready);
    assert_eq!(c.awaiting(10), ClientWait::Stop);
    assert_eq!(c.report_status(), RunTally { committed: 1, aborted: 1, unknown: 1 });
}

#[test]
fn a_result_of_another_transaction_is_no_result() {
    let mut c = Client::new(String::from("client_1"), 1);
    c.send_next_operation();
    assert_eq!(c.recv_result(&result(MessageType::ClientResultCommit, 1, 5)), -1);
    let mut d = Client::new(String::from("client_1"), 1);
    d.send_next_operation();
    assert_eq!(d.recv_result(&result(MessageType::ClientResultAbort, 2, 0)), -1);
    let mut e = Client::new(String::from("client_1"), 1);
    e.send_next_operation();
    assert_eq!(e.recv_result(&result(MessageType::CoordinatorCommit, 1, 0)), -1);
}

#[test]
fn the_protocol_sends_one_request_at_a_time() {
    let mut c = Client::new(String::from("client_0"), 0);
    let n = 3;
    let mut sent = Vec::new();
    for seq in 0..n {
        assert_eq!(c.awaiting(n), ClientWait::Advance);
        let actions = c.protocol(n, ClientEvent::Advance).unwrap();
        let req = result(MessageType::ClientRequest, 0, seq);
        assert_eq!(actions, vec![ClientAction::Log(req), ClientAction::Send(req)]);
        sent.push(req.txid);
        assert_eq!(c.awaiting(n), ClientWait::Result);
        assert_eq!(
            c.protocol(n, ClientEvent::Advance),
            Err(ProtocolViolation::UnexpectedEvent)
        );
        assert_eq!(c.num_requests(), seq + 1);
        let answer = result(MessageType::ClientResultCommit, 0, seq);
        assert_eq!(c.protocol(n, ClientEvent::Result(answer)), Ok(vec![ClientAction::Log(answer)]));
    }
    assert_eq!(sent, vec![TxId::new(0, 0), TxId::new(0, 1), TxId::new(0, 2)]);
    assert_eq!(c.awaiting(n), ClientWait::Stop);
    assert_eq!(c.protocol(n, ClientEvent::Advance), Err(ProtocolViolation::UnexpectedEvent));
    assert_eq!(c.protocol(n, ClientEvent::Stop), Ok(vec![]));
    assert_eq!(c.awaiting(n), ClientWait::Nothing);
    assert_eq!(c.state(), ClientState::Finished);
    assert_eq!(c.report_status(), RunTally { committed: 3, aborted: 0, unknown: 0 });
}

#[test]
fn a_result_without_a_request_is_refused() {
    let mut c = Client::new(String::from("client_0"), 0);
    assert_eq!(
        c.protocol(3, ClientEvent::Result(result(MessageType::ClientResultCommit, 0, 0))),
        Err(ProtocolViolation::UnexpectedEvent)
    );
    assert_eq!(c.state(), ClientState::Ready);
    assert_eq!(c.log().len(), 0);
}

#[test]
fn after_the_stop_signal_no_request_is_sent() {
    let mut c = Client::new(String::from("client_0"), 0);
    c.protocol(5, ClientEvent::Advance).unwrap();
    c.protocol(5, ClientEvent::Result(result(MessageType::ClientResultAbort, 0, 0))).unwrap();
    assert_eq!(c.protocol(5, ClientEvent::Stop), Ok(vec![]));
    assert_eq!(c.protocol(5, ClientEvent::Advance), Err(ProtocolViolation::UnexpectedEvent));
    assert_eq!(c.protocol(5, ClientEvent::Stop), Err(ProtocolViolation::UnexpectedEvent));
    assert_eq!(
        c.protocol(5, ClientEvent::Result(result(MessageType::ClientResultAbort, 0, 1))),
        Err(ProtocolViolation::UnexpectedEvent)
    );
    assert_eq!(c.num_requests(), 1);
    assert_eq!(c.report_status(), RunTally { committed: 0, aborted: 1, unknown: 0 });
}

#[test]
fn the_stop_signal_while_waiting_leaves_the_request_unknown() {
    let mut c = Client::new(String::from("client_0"), 0);
    c.protocol(5, ClientEvent::Advance).unwrap();
    assert_eq!(c.protocol(5, ClientEvent::Stop), Ok(vec![]));
    assert_eq!(c.state(), ClientState::Finished);
    assert_eq!(c.report_status(), RunTally { committed: 0, aborted: 0, unknown: 1 });
}

#[test]
fn an_exit_in_place_of_a_result_ends_the_requests() {
    let mut c = Client::new(String::from("client_2"), 2);
    c.protocol(5, ClientEvent::Advance).unwrap();
    let exit = ProtocolMessage::generate(MessageType::CoordinatorExit, TxId::new(0, 0), 2, 0);
    assert_eq!(c.protocol(5, ClientEvent::Result(exit)), Ok(vec![]));
    assert_eq!(c.awaiting(5), ClientWait::Stop);
    assert_eq!(c.protocol(5, ClientEvent::Advance), Err(ProtocolViolation::UnexpectedEvent));
    assert_eq!(c.protocol(5, ClientEvent::Stop), Ok(vec![]));
    assert_eq!(c.report_status(), RunTally { committed: 0, aborted: 0, unknown: 1 });
}

#[test]
fn the_log_holds_requests_and_results_in_order() {
    let mut c = Client::new(String::from("client_3"), 3);
    c.protocol(2, ClientEvent::Advance).unwrap();
    c.protocol(2, ClientEvent::Result(result(MessageType::ClientResultAbort, 3, 0))).unwrap();
    c.protocol(2, ClientEvent::Advance).unwrap();
    c.protocol(2, ClientEvent::Result(result(MessageType::ClientResultCommit, 3, 1))).unwrap();
    assert_eq!(
        c.log().read_all(),
        vec![
            result(MessageType::ClientRequest, 3, 0),
            result(MessageType::ClientResultAbort, 3, 0),
            result(MessageType::ClientRequest, 3, 1),
            result(MessageType::ClientResultCommit, 3, 1),
        ]
    );
    assert_eq!(c.report_status(), RunTally { committed: 1, aborted: 1, unknown: 0 });
}

#[test]
fn two_clients_never_share_a_transaction_id() {
    let mut a = Client::new(String::from("client_0"), 0);
    let mut b = Client::new(String::from("client_1"), 1);
    let mut seen = Vec::new();
    for seq in 0..4 {
        let ra = a.send_next_operation();
        let rb = b.send_next_operation();
        assert!(!seen.contains(&ra.txid));
        seen.push(ra.txid);
        assert!(!seen.contains(&rb.txid));
        seen.push(rb.txid);
        a.recv_result(&result(MessageType::ClientResultCommit, 0, seq));
        b.recv_result(&result(MessageType::ClientResultCommit, 1, seq));
    }
    assert_eq!(seen.len(), 8);
}
