use twopc::checker::{check_last_run, decision_of, CheckReport, Finding};
use twopc::message::{MessageType, ProtocolMessage, RequestStatus, TxId};

fn rec(kind: MessageType, client: u32, seq: u32, extra: u32) -> ProtocolMessage {
    ProtocolMessage::generate(kind, TxId::new(client, seq), extra, seq)
}

/// The coordinator's three records of one transaction.
fn decided(client: u32, seq: u32, commit: bool) -> Vec<ProtocolMessage> {
    let (decision, result) = if commit {
        (MessageType::CoordinatorCommit, MessageType::ClientResultCommit)
    } else {
        (MessageType::CoordinatorAbort, MessageType::ClientResultAbort)
    };
    vec![
        rec(MessageType::CoordinatorPropose, client, seq, client),
        rec(decision, client, seq, client),
        rec(result, client, seq, client),
    ]
}

/// A participant's two records of one transaction.
fn applied(participant: u32, client: u32, seq: u32, vote: bool, commit: bool) -> Vec<ProtocolMessage> {
    let vote = if vote {
        MessageType::ParticipantVoteCommit
    } else {
        MessageType::ParticipantVoteAbort
    };
    let decision = if commit {
        MessageType::CoordinatorCommit
    } else {
        MessageType::CoordinatorAbort
    };
    vec![rec(vote, client, seq, participant), rec(decision, client, seq, participant)]
}

fn sorted(report: &CheckReport) -> Vec<String> {
    let mut found: Vec<String> = report.findings.iter().map(|f| format!("{:?}", f)).collect();
    found.sort();
    found
}

#[test]
fn an_empty_run_is_consistent() {
    let report = check_last_run(0, 0, 0, &vec![], &vec![], &vec![]);
    assert!(report.passed());
    assert_eq!(report.committed, 0);
    assert_eq!(report.aborted, 0);
    assert_eq!(report.transactions, 0);
    assert!(report.findings.is_empty());
}

#[test]
fn a_consistent_run_passes() {
    let mut coordinator = decided(0, 0, true);
    coordinator.extend(decided(1, 0, false));
    coordinator.extend(decided(0, 1, true));
    let mut first = applied(0, 0, 0, true, true);
    first.extend(applied(0, 1, 0, true, false));
    first.extend(applied(0, 0, 1, true, true));
    let mut second = applied(1, 0, 0, true, true);
    second.extend(applied(1, 1, 0, false, false));
    second.extend(applied(1, 0, 1, true, true));
    let c0 = vec![
        rec(MessageType::ClientRequest, 0, 0, 0),
        rec(MessageType::ClientResultCommit, 0, 0, 0),
        rec(MessageType::ClientRequest, 0, 1, 0),
        rec(MessageType::ClientResultCommit, 0, 1, 0),
    ];
    let c1 = vec![
        rec(MessageType::ClientRequest, 1, 0, 1),
        rec(MessageType::ClientResultAbort, 1, 0, 1),
    ];
    let report = check_last_run(2, 2, 2, &coordinator, &vec![first, second], &vec![c0, c1]);
    assert!(report.passed());
    assert_eq!(report.committed, 2);
    assert_eq!(report.aborted, 1);
    assert_eq!(report.transactions, 3);
}

#[test]
fn client_logs_may_be_left_out() {
    let coordinator = decided(0, 0, true);
    let first = applied(0, 0, 0, true, true);
    let report = check_last_run(1, 1, 1, &coordinator, &vec![first], &vec![]);
    assert!(report.passed());
    assert_eq!(report.committed, 1);
}

#[test]
fn decision_of_reads_the_coordinators_log() {
    let mut log = decided(0, 0, true);
    log.extend(decided(0, 1, false));
    log.push(rec(MessageType::CoordinatorPropose, 0, 2, 0));
    log.push(rec(MessageType::CoordinatorCommit, 0, 3, 0));
    log.push(rec(MessageType::CoordinatorAbort, 0, 3, 0));
    log.push(rec(MessageType::CoordinatorCommit, 0, 4, 0));
    log.push(rec(MessageType::CoordinatorCommit, 0, 4, 0));
    assert_eq!(decision_of(&log, TxId::new(0, 0)), RequestStatus::Committed);
    assert_eq!(decision_of(&log, TxId::new(0, 1)), RequestStatus::Aborted);
    assert_eq!(decision_of(&log, TxId::new(0, 2)), RequestStatus::Unknown);
    assert_eq!(decision_of(&log, TxId::new(0, 3)), RequestStatus::Unknown);
    assert_eq!(decision_of(&log, TxId::new(0, 4)), RequestStatus::Committed);
    assert_eq!(decision_of(&log, TxId::new(9, 9)), RequestStatus::Unknown);
}

#[test]
fn a_proposal_without_a_decision_is_found() {
    let mut coordinator = decided(0, 0, true);
    coordinator.push(rec(MessageType::CoordinatorPropose, 0, 1, 0));
    let report = check_last_run(1, 2, 0, &coordinator, &vec![], &vec![]);
    assert!(!report.passed());
    assert_eq!(
        report.findings,
        vec![Finding::DecisionCount { txid: TxId::new(0, 1), expected: 1, actual: 0 }]
    );
    assert_eq!(report.transactions, 2);
    assert_eq!(report.committed, 1);
}

#[test]
fn a_second_decision_is_found_once() {
    let mut coordinator = decided(0, 0, true);
    coordinator.push(rec(MessageType::CoordinatorCommit, 0, 0, 0));
    let report = check_last_run(1, 1, 0, &coordinator, &vec![], &vec![]);
    assert_eq!(
        report.findings,
        vec![Finding::DecisionCount { txid: TxId::new(0, 0), expected: 1, actual: 2 }]
    );
    assert_eq!(report.committed, 2);
    assert_eq!(report.transactions, 1);
}

#[test]
fn two_decisions_that_differ_leave_nothing_to_agree_with() {
    let coordinator = vec![
        rec(MessageType::CoordinatorPropose, 0, 0, 0),
        rec(MessageType::CoordinatorCommit, 0, 0, 0),
        rec(MessageType::CoordinatorAbort, 0, 0, 0),
    ];
    let first = applied(0, 0, 0, true, true);
    let report = check_last_run(1, 1, 1, &coordinator, &vec![first], &vec![]);
    assert_eq!(
        sorted(&report),
        vec![
            format!(
                "{:?}",
                Finding::DecisionCount { txid: TxId::new(0, 0), expected: 1, actual: 2 }
            ),
            format!(
                "{:?}",
                Finding::ParticipantOutcome {
                    txid: TxId::new(0, 0),
                    participant: 0,
                    expected: RequestStatus::Unknown,
                    actual: RequestStatus::Committed,
                }
            ),
        ]
    );
}

#[test]
fn a_participant_that_disagrees_is_found() {
    let mut coordinator = decided(0, 0, true);
    coordinator.extend(decided(0, 1, false));
    let mut first = applied(0, 0, 0, true, true);
    first.extend(applied(0, 0, 1, true, false));
    let mut second = applied(1, 0, 0, true, false);
    second.extend(applied(1, 0, 1, false, true));
    let report = check_last_run(1, 2, 2, &coordinator, &vec![first, second], &vec![]);
    assert!(!report.passed());
    assert_eq!(
        report.findings,
        vec![
            Finding::ParticipantOutcome {
                txid: TxId::new(0, 0),
                participant: 1,
                expected: RequestStatus::Committed,
                actual: RequestStatus::Aborted,
            },
            Finding::ParticipantOutcome {
                txid: TxId::new(0, 1),
                participant: 1,
                expected: RequestStatus::Aborted,
                actual: RequestStatus::Committed,
            },
        ]
    );
}

#[test]
fn an_outcome_that_the_coordinator_never_decided_is_found() {
    let coordinator = decided(0, 0, true);
    let mut first = applied(0, 0, 0, true, true);
    first.extend(applied(0, 0, 7, true, true));
    let report = check_last_run(1, 8, 1, &coordinator, &vec![first], &vec![]);
    assert_eq!(
        report.findings,
        vec![Finding::ParticipantOutcome {
            txid: TxId::new(0, 7),
            participant: 0,
            expected: RequestStatus::Unknown,
            actual: RequestStatus::Committed,
        }]
    );
}

#[test]
fn a_participants_vote_is_not_held_against_it() {
    let coordinator = decided(0, 0, false);
    let first = applied(0, 0, 0, true, false);
    let second = vec![rec(MessageType::ParticipantVoteAbort, 0, 0, 1)];
    let report = check_last_run(1, 1, 2, &coordinator, &vec![first, second], &vec![]);
    assert!(report.passed());
    assert_eq!(report.aborted, 1);
}

#[test]
fn a_client_that_saw_something_else_is_found() {
    let coordinator = decided(0, 0, false);
    let c0 = vec![
        rec(MessageType::ClientRequest, 0, 0, 0),
        rec(MessageType::ClientResultCommit, 0, 0, 0),
    ];
    let report = check_last_run(1, 1, 0, &coordinator, &vec![], &vec![c0]);
    assert_eq!(
        report.findings,
        vec![Finding::ClientResult {
            txid: TxId::new(0, 0),
            client: 0,
            expected: RequestStatus::Aborted,
            actual: RequestStatus::Committed,
        }]
    );
}

#[test]
fn a_result_that_the_coordinator_told_wrongly_is_found() {
    let coordinator = vec![
        rec(MessageType::CoordinatorPropose, 3, 0, 3),
        rec(MessageType::CoordinatorCommit, 3, 0, 3),
        rec(MessageType::ClientResultAbort, 3, 0, 3),
    ];
    let report = check_last_run(4, 1, 0, &coordinator, &vec![], &vec![]);
    assert_eq!(
        report.findings,
        vec![Finding::ClientResult {
            txid: TxId::new(3, 0),
            client: 3,
            expected: RequestStatus::Committed,
            actual: RequestStatus::Aborted,
        }]
    );
}

#[test]
fn more_transactions_than_the_run_can_hold_are_found() {
    let mut coordinator = decided(0, 0, true);
    coordinator.extend(decided(0, 1, true));
    coordinator.extend(decided(0, 2, false));
    let report = check_last_run(1, 2, 0, &coordinator, &vec![], &vec![]);
    assert_eq!(report.findings, vec![Finding::TransactionCount { expected: 2, actual: 3 }]);
    assert_eq!(report.transactions, 3);
    let enough = check_last_run(1, 3, 0, &coordinator, &vec![], &vec![]);
    assert!(enough.passed());
}

#[test]
fn a_run_that_was_cut_short_is_still_consistent() {
    let coordinator = decided(0, 0, true);
    let report = check_last_run(2, 10, 0, &coordinator, &vec![], &vec![]);
    assert!(report.passed());
    assert_eq!(report.transactions, 1);
}

#[test]
fn the_expected_size_does_not_overflow() {
    let report = check_last_run(u32::MAX, u32::MAX, 0, &decided(0, 0, true), &vec![], &vec![]);
    assert!(report.passed());
}

#[test]
fn a_missing_participant_log_is_found() {
    let coordinator = decided(0, 0, true);
    let first = applied(0, 0, 0, true, true);
    let report = check_last_run(1, 1, 2, &coordinator, &vec![first], &vec![]);
    assert!(!report.passed());
    assert_eq!(report.findings, vec![Finding::ParticipantCount { expected: 2, actual: 1 }]);
}

#[test]
fn the_same_inconsistency_is_listed_once() {
    let coordinator = decided(0, 0, true);
    let mut log = applied(0, 0, 0, true, false);
    log.push(rec(MessageType::CoordinatorAbort, 0, 0, 0));
    let report = check_last_run(1, 1, 1, &coordinator, &vec![log], &vec![]);
    assert_eq!(
        report.findings,
        vec![Finding::ParticipantOutcome {
            txid: TxId::new(0, 0),
            participant: 0,
            expected: RequestStatus::Committed,
            actual: RequestStatus::Aborted,
        }]
    );
}

#[test]
fn a_transaction_without_a_decision_is_found_once_however_often_it_is_spoken_of() {
    let coordinator = vec![
        rec(MessageType::CoordinatorPropose, 0, 0, 0),
        rec(MessageType::CoordinatorPropose, 0, 0, 0),
        rec(MessageType::ClientRequest, 0, 0, 0),
    ];
    let report = check_last_run(1, 1, 0, &coordinator, &vec![], &vec![]);
    assert_eq!(
        report.findings,
        vec![Finding::DecisionCount { txid: TxId::new(0, 0), expected: 1, actual: 0 }]
    );
    assert_eq!(report.transactions, 1);
}
