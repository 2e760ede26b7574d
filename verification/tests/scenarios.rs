use std::collections::VecDeque;

use twopc::checker::check_last_run;
use twopc::client::{Client, ClientAction, ClientEvent, ClientWait};
use twopc::coordinator::{
    Coordinator, CoordinatorAction, CoordinatorEvent, CoordinatorState, CoordinatorWait,
};
use twopc::message::{MessageType, ProtocolMessage, RequestStatus, TxId};
use twopc::oplog::{OpLog, RunTally};
use twopc::participant::{
    Participant, ParticipantAction, ParticipantEvent, ParticipantWait, PROBABILITY_SCALE,
};

/// A whole run in one process: the roles, the channels between them as
/// queues, and what each role wrote to its storage, as bytes.
struct Run {
    n_requests: u32,
    coordinator: Coordinator,
    participants: Vec<Participant>,
    clients: Vec<Client>,
    requests: VecDeque<ProtocolMessage>,
    votes: VecDeque<ProtocolMessage>,
    to_participants: Vec<VecDeque<ProtocolMessage>>,
    to_clients: Vec<VecDeque<ProtocolMessage>>,
    coordinator_disk: Vec<u8>,
    participant_disks: Vec<Vec<u8>>,
    stop: bool,
    /// Everything that was sent or logged, in the order in which it happened.
    trace: Vec<String>,
}

impl Run {
    /// A run with one participant for each pair of probabilities, in
    /// millionths: that a vote gets through, and that an operation succeeds.
    fn new(participants: &[(u32, u32)], n_clients: u32, n_requests: u32) -> Run {
        let mut coordinator = Coordinator::new(String::from("coordinator.log"));
        let mut ps = Vec::new();
        for (i, (send, op)) in participants.iter().enumerate() {
            let index = coordinator.participant_join();
            assert_eq!(index as usize, i);
            ps.push(Participant::new(
                format!("participant_{}", index),
                index,
                format!("participant_{}.log", index),
                *send,
                *op,
            ));
        }
        let mut cs = Vec::new();
        for _ in 0..n_clients {
            assert_eq!(coordinator.state(), CoordinatorState::Quiescent);
            let index = coordinator.client_join();
            cs.push(Client::new(format!("client_{}", index), index));
        }
        Run {
            n_requests,
            coordinator,
            to_participants: vec![VecDeque::new(); ps.len()],
            to_clients: vec![VecDeque::new(); cs.len()],
            participant_disks: vec![Vec::new(); ps.len()],
            participants: ps,
            clients: cs,
            requests: VecDeque::new(),
            votes: VecDeque::new(),
            coordinator_disk: Vec::new(),
            stop: false,
            trace: Vec::new(),
        }
    }

    fn num_tasks(&self) -> u32 {
        self.clients.len() as u32 * self.n_requests
    }

    fn coordinator_step(&mut self, event: CoordinatorEvent) {
        let tasks = self.num_tasks();
        for action in self.coordinator.protocol(tasks, event).unwrap() {
            match action {
                CoordinatorAction::Log(rec) => {
                    twopc::codec::write_record(&mut self.coordinator_disk, &rec);
                    self.trace.push(format!("coordinator logs {:?} {:?}", rec.mtype, rec.txid));
                }
                CoordinatorAction::ToParticipant(p, m) => {
                    self.trace.push(format!("coordinator sends {:?} {:?}", m.mtype, m.txid));
                    self.to_participants[p as usize].push_back(m)
                }
                CoordinatorAction::ToClient(c, m) => {
                    self.trace.push(format!("coordinator sends {:?} {:?}", m.mtype, m.txid));
                    self.to_clients[c as usize].push_back(m)
                }
            }
        }
    }

    /// One turn of the coordinator. Returns whether it did anything.
    fn coordinator_turn(&mut self) -> bool {
        let event = match self.coordinator.awaiting(self.num_tasks()) {
            CoordinatorWait::Request => {
                if self.stop {
                    CoordinatorEvent::Stop
                } else if let Some(m) = self.requests.pop_front() {
                    CoordinatorEvent::Request(m)
                } else {
                    return false;
                }
            }
            CoordinatorWait::Votes => CoordinatorEvent::Votes(self.votes.drain(..).collect()),
            CoordinatorWait::Advance => CoordinatorEvent::Advance,
            CoordinatorWait::Stop => {
                if self.stop {
                    CoordinatorEvent::Stop
                } else {
                    return false;
                }
            }
            CoordinatorWait::Nothing => return false,
        };
        self.coordinator_step(event);
        true
    }

    /// Lets every participant work until it waits for a message that has
    /// not come.
    fn participants_turn(&mut self) -> bool {
        let mut any = false;
        for p in 0..self.participants.len() {
            loop {
                let event = match self.participants[p].awaiting() {
                    ParticipantWait::Message => match self.to_participants[p].pop_front() {
                        Some(m) => ParticipantEvent::Message(m),
                        None => break,
                    },
                    ParticipantWait::Advance => ParticipantEvent::Advance,
                    ParticipantWait::Nothing => break,
                };
                any = true;
                for action in self.participants[p].protocol(event).unwrap() {
                    match action {
                        ParticipantAction::Log(rec) => {
                            twopc::codec::write_record(&mut self.participant_disks[p], &rec);
                            self.trace.push(format!(
                                "participant {} logs {:?} {:?}",
                                p, rec.mtype, rec.txid
                            ));
                        }
                        ParticipantAction::Send(m) => {
                            self.trace.push(format!(
                                "participant {} sends {:?} {:?}",
                                p, m.mtype, m.txid
                            ));
                            self.votes.push_back(m)
                        }
                    }
                }
            }
        }
        any
    }

    fn clients_turn(&mut self) -> bool {
        let mut any = false;
        for c in 0..self.clients.len() {
            let event = match self.clients[c].awaiting(self.n_requests) {
                ClientWait::Advance => {
                    if self.stop {
                        ClientEvent::Stop
                    } else {
                        ClientEvent::Advance
                    }
                }
                ClientWait::Result => match self.to_clients[c].pop_front() {
                    Some(m) => ClientEvent::Result(m),
                    None => continue,
                },
                ClientWait::Stop => {
                    if self.stop {
                        ClientEvent::Stop
                    } else {
                        continue;
                    }
                }
                ClientWait::Nothing => continue,
            };
            any = true;
            for action in self.clients[c].protocol(self.n_requests, event).unwrap() {
                match action {
                    ClientAction::Log(_) => {}
                    ClientAction::Send(m) => {
                        self.trace.push(format!("client {} sends {:?} {:?}", c, m.mtype, m.txid));
                        self.requests.push_back(m)
                    }
                }
            }
        }
        any
    }

    /// Runs until nobody can do anything.
    fn settle(&mut self) {
        for _ in 0..100_000 {
            let a = self.clients_turn();
            let b = self.coordinator_turn();
            let c = self.participants_turn();
            if !(a || b || c) {
                return;
            }
        }
        panic!("the run does not come to rest");
    }

    fn coordinator_log(&self) -> Vec<ProtocolMessage> {
        OpLog::from_bytes(String::from("coordinator.log"), &self.coordinator_disk)
            .unwrap()
            .read_all()
    }

    fn participant_logs(&self) -> Vec<Vec<ProtocolMessage>> {
        self.participant_disks
            .iter()
            .map(|disk| OpLog::from_bytes(String::from("p"), disk).unwrap().read_all())
            .collect()
    }

    fn client_logs(&self) -> Vec<Vec<ProtocolMessage>> {
        self.clients.iter().map(|c| c.log().read_all()).collect()
    }
}

const SURE: u32 = PROBABILITY_SCALE;

#[test]
fn two_willing_participants_commit_three_requests() {
    let mut run = Run::new(&[(SURE, SURE), (SURE, SURE)], 1, 3);
    run.settle();
    run.stop = true;
    run.settle();
    assert_eq!(run.coordinator.awaiting(3), CoordinatorWait::Nothing);
    let report = check_last_run(
        1,
        3,
        2,
        &run.coordinator_log(),
        &run.participant_logs(),
        &run.client_logs(),
    );
    assert_eq!(report.committed, 3);
    assert_eq!(report.aborted, 0);
    assert_eq!(report.transactions, 3);
    assert!(report.findings.is_empty());
    assert!(report.passed());
    let all = RunTally { committed: 3, aborted: 0, unknown: 0 };
    assert_eq!(run.coordinator.report_status(), all);
    assert_eq!(run.clients[0].report_status(), all);
    assert_eq!(run.participants[0].report_status(), all);
    assert_eq!(run.participants[1].report_status(), all);
    assert_eq!(run.coordinator.log().read_all(), run.coordinator_log());
    assert_eq!(run.participants[0].log().read_all(), run.participant_logs()[0]);
}

#[test]
fn one_unwilling_participant_aborts_everything() {
    let n = 4;
    let mut run = Run::new(&[(SURE, SURE), (SURE, 0)], 1, n);
    run.settle();
    run.stop = true;
    run.settle();
    let coordinator = run.coordinator_log();
    for seq in 0..n {
        assert_eq!(
            twopc::checker::decision_of(&coordinator, TxId::new(0, seq)),
            RequestStatus::Aborted
        );
    }
    assert_eq!(
        run.clients[0].report_status(),
        RunTally { committed: 0, aborted: n as u64, unknown: 0 }
    );
    assert_eq!(
        run.coordinator.report_status(),
        RunTally { committed: 0, aborted: n as u64, unknown: 0 }
    );
    let report =
        check_last_run(1, n, 2, &coordinator, &run.participant_logs(), &run.client_logs());
    assert_eq!(report.committed, 0);
    assert_eq!(report.aborted, n as u64);
    assert!(report.passed());
    let willing = run.participant_logs()[0].clone();
    assert_eq!(
        willing.iter().filter(|r| r.mtype == MessageType::ParticipantVoteCommit).count(),
        n as usize
    );
    assert_eq!(
        willing.iter().filter(|r| r.mtype == MessageType::CoordinatorAbort).count(),
        n as usize
    );
}

#[test]
fn lost_votes_abort_by_timeout_without_a_deadlock() {
    let n = 3;
    let mut run = Run::new(&[(SURE, SURE), (0, SURE)], 2, n);
    run.settle();
    run.stop = true;
    run.settle();
    assert_eq!(run.coordinator.awaiting(run.num_tasks()), CoordinatorWait::Nothing);
    let coordinator = run.coordinator_log();
    let report =
        check_last_run(2, n, 2, &coordinator, &run.participant_logs(), &run.client_logs());
    assert_eq!(report.committed, 0);
    assert_eq!(report.aborted, 6);
    assert_eq!(report.transactions, 6);
    assert!(report.findings.is_empty());
    for log in run.participant_logs() {
        assert_eq!(log.iter().filter(|r| r.mtype == MessageType::ParticipantVoteCommit).count(), 6);
        assert_eq!(log.iter().filter(|r| r.mtype == MessageType::CoordinatorAbort).count(), 6);
        assert_eq!(log.iter().filter(|r| r.mtype == MessageType::CoordinatorCommit).count(), 0);
    }
    for client in &run.clients {
        assert_eq!(client.report_status(), RunTally { committed: 0, aborted: 3, unknown: 0 });
    }
}

#[test]
fn a_stop_in_the_middle_lets_the_transaction_finish() {
    let mut run = Run::new(&[(SURE, SURE), (SURE, SURE)], 1, 5);
    run.clients_turn();
    assert!(run.coordinator_turn());
    assert!(run.coordinator_turn());
    assert_eq!(run.coordinator.state(), CoordinatorState::ProposalSent);
    run.coordinator_step(CoordinatorEvent::Stop);
    run.stop = true;
    assert_eq!(run.coordinator.state(), CoordinatorState::ProposalSent);
    run.participants_turn();
    run.settle();
    assert_eq!(run.coordinator.awaiting(5), CoordinatorWait::Nothing);
    let t = TxId::new(0, 0);
    let coordinator = run.coordinator_log();
    assert_eq!(
        coordinator,
        vec![
            ProtocolMessage::generate(MessageType::CoordinatorPropose, t, 0, 0),
            ProtocolMessage::generate(MessageType::CoordinatorCommit, t, 0, 0),
            ProtocolMessage::generate(MessageType::ClientResultCommit, t, 0, 0),
        ]
    );
    for (p, log) in run.participant_logs().iter().enumerate() {
        assert_eq!(
            log,
            &vec![
                ProtocolMessage::generate(MessageType::ParticipantVoteCommit, t, p as u32, 0),
                ProtocolMessage::generate(MessageType::CoordinatorCommit, t, p as u32, 0),
            ]
        );
    }
    assert_eq!(
        run.clients[0].report_status(),
        RunTally { committed: 1, aborted: 0, unknown: 0 }
    );
    assert_eq!(run.clients[0].num_requests(), 1);
    let report = check_last_run(1, 5, 2, &coordinator, &run.participant_logs(), &run.client_logs());
    assert!(report.passed());
    assert_eq!(report.committed, 1);
    for p in &run.participants {
        assert_eq!(p.awaiting(), ParticipantWait::Nothing);
    }
}

#[test]
fn many_clients_get_distinct_transactions() {
    let (clients, n) = (4u32, 5u32);
    let mut run = Run::new(&[(SURE, SURE), (SURE, SURE), (SURE, SURE)], clients, n);
    run.settle();
    run.stop = true;
    run.settle();
    let coordinator = run.coordinator_log();
    let mut ids: Vec<TxId> = coordinator
        .iter()
        .filter(|r| r.mtype == MessageType::CoordinatorPropose)
        .map(|r| r.txid)
        .collect();
    assert_eq!(ids.len(), 20);
    ids.sort_by_key(|t| (t.client, t.seq));
    ids.dedup();
    assert_eq!(ids.len() as u32, clients * n);
    let report =
        check_last_run(clients, n, 3, &coordinator, &run.participant_logs(), &run.client_logs());
    assert_eq!(report.transactions, 20);
    assert_eq!(report.committed, 20);
    assert!(report.passed());
}

#[test]
fn a_run_under_chance_is_consistent_whatever_happens() {
    for round in 0..20u32 {
        let mut run = Run::new(&[(700_000, 800_000), (900_000, 600_000), (SURE, 950_000)], 3, 6);
        run.settle();
        run.stop = true;
        run.settle();
        let coordinator = run.coordinator_log();
        let report =
            check_last_run(3, 6, 3, &coordinator, &run.participant_logs(), &run.client_logs());
        assert!(report.passed(), "round {}: {:?}", round, report.findings);
        assert_eq!(report.committed + report.aborted, 18);
        let mut committed = 0;
        let mut aborted = 0;
        for client in &run.clients {
            let t = client.report_status();
            assert_eq!(t.committed + t.aborted, 6);
            assert_eq!(t.unknown, 0);
            committed += t.committed;
            aborted += t.aborted;
        }
        assert_eq!(committed, report.committed);
        assert_eq!(aborted, report.aborted);
        for rec in coordinator.iter().filter(|r| r.mtype == MessageType::CoordinatorCommit) {
            for log in run.participant_logs() {
                assert!(log
                    .iter()
                    .any(|r| r.mtype == MessageType::ParticipantVoteCommit && r.txid == rec.txid));
            }
        }
    }
}

#[test]
fn no_client_has_two_requests_outstanding() {
    let mut run = Run::new(&[(SURE, 500_000)], 2, 4);
    run.settle();
    run.stop = true;
    run.settle();
    for c in 0..2u32 {
        let mut outstanding: Option<TxId> = None;
        let mut next = 0;
        for line in &run.trace {
            if line.starts_with(&format!("client {} sends", c)) {
                assert_eq!(outstanding, None);
                outstanding = Some(TxId::new(c, next));
                next += 1;
            }
            if let Some(t) = outstanding {
                if line == &format!("coordinator sends ClientResultCommit {:?}", t)
                    || line == &format!("coordinator sends ClientResultAbort {:?}", t)
                {
                    outstanding = None;
                }
            }
        }
        assert_eq!(next, 4);
        assert_eq!(outstanding, None);
    }
}

#[test]
fn what_is_sent_was_logged_before() {
    let mut run = Run::new(&[(SURE, 500_000), (SURE, SURE)], 2, 3);
    run.settle();
    run.stop = true;
    run.settle();
    for (place, line) in run.trace.iter().enumerate() {
        if let Some(rest) = line.strip_prefix("coordinator sends ") {
            if rest.starts_with("CoordinatorExit") {
                continue;
            }
            let logged = format!("coordinator logs {}", rest);
            assert!(run.trace[..place].contains(&logged), "{}", line);
        }
        if let Some((who, rest)) = line.split_once(" sends ") {
            if who.starts_with("participant") {
                let logged = format!("{} logs {}", who, rest);
                assert!(run.trace[..place].contains(&logged), "{}", line);
            }
        }
    }
    assert!(run.trace.iter().any(|l| l.starts_with("participant 0 sends")));
}

#[test]
fn the_tallies_add_up() {
    let mut run = Run::new(&[(SURE, 600_000), (800_000, SURE)], 2, 5);
    run.settle();
    run.stop = true;
    run.settle();
    let coordinator = run.coordinator.report_status();
    assert_eq!(coordinator.committed + coordinator.aborted, 10);
    assert_eq!(coordinator.unknown, 0);
    let report = check_last_run(
        2,
        5,
        2,
        &run.coordinator_log(),
        &run.participant_logs(),
        &run.client_logs(),
    );
    assert_eq!(report.transactions, 10);
    assert_eq!(report.committed, coordinator.committed);
    assert_eq!(report.aborted, coordinator.aborted);
    for participant in &run.participants {
        assert_eq!(participant.report_status(), coordinator);
    }
    let mut committed = 0;
    for client in &run.clients {
        let t = client.report_status();
        assert_eq!(t.committed + t.aborted, 5);
        committed += t.committed;
    }
    assert_eq!(committed, coordinator.committed);
}
