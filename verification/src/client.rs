//! The client: it asks for one transaction after another and counts how
//! they end.

use vstd::prelude::*;
use crate::message::{MessageType, ProtocolMessage, ProtocolViolation, TxId};
use crate::oplog::{count_kind, lemma_count_kind_push, tally_of, LogRecord, OpLog, RunTally};

verus! {

/// Where the client stands.
#[derive(Clone, Copy, Debug, PartialEq, Eq, Structural)]
pub enum ClientState {
    /// No request is outstanding.
    Ready,
    /// A request was sent and its result has not been seen.
    AwaitingResult,
    /// The stop signal was seen.
    Finished,
}

/// One thing that the client asks its caller to do, in the order given.
#[derive(Clone, Copy, Debug, PartialEq, Eq, Structural)]
pub enum ClientAction {
    /// Append the record to the client's own record of the run.
    Log(LogRecord),
    /// Send the message to the coordinator.
    Send(ProtocolMessage),
}

/// What the client needs from its caller before it can go on.
#[derive(Clone, Copy, Debug, PartialEq, Eq, Structural)]
pub enum ClientWait {
    /// Nothing from outside: the next request can be sent, unless the stop
    /// signal is seen first.
    Advance,
    /// The result of the request that is outstanding.
    Result,
    /// The stop signal.
    Stop,
    /// Nothing more: the client has finished.
    Nothing,
}

/// What happened outside the client.
#[derive(Clone, Copy, Debug, PartialEq, Eq, Structural)]
pub enum ClientEvent {
    /// Nothing: send the next request.
    Advance,
    /// This message arrived from the coordinator.
    Result(ProtocolMessage),
    /// The stop signal was seen.
    Stop,
}

/// The client as a mathematical value.
pub struct ClientView {
    pub id: Seq<char>,
    /// The client's index, which is the first half of its transaction ids.
    pub num: nat,
    /// How many requests were sent so far.
    pub num_requests: nat,
    pub state: ClientState,
    /// The transaction asked for last.
    pub current: TxId,
    /// A result came that was neither a commit nor an abort of the
    /// transaction asked for: no more requests are sent.
    pub gave_up: bool,
    /// The requests sent and the results seen, oldest first.
    pub log: Seq<LogRecord>,
}

/// How a message answers the request for the transaction `txid`: 1 when it
/// says that the transaction was committed, 0 when it says that it was
/// aborted, and -1 when it says neither.
pub open spec fn result_code(m: ProtocolMessage, txid: TxId) -> int {
    if m.txid == txid && m.mtype == MessageType::ClientResultCommit {
        1
    } else if m.txid == txid && m.mtype == MessageType::ClientResultAbort {
        0
    } else {
        -1
    }
}

impl ClientView {
    /// The client before its first request.
    pub open spec fn initial(id: Seq<char>, num: nat) -> ClientView {
        ClientView {
            id,
            num,
            num_requests: 0,
            state: ClientState::Ready,
            current: TxId { client: num as u32, seq: 0 },
            gave_up: false,
            log: Seq::empty(),
        }
    }

    /// What the client waits for when it is to send `n_requests` in all.
    pub open spec fn awaiting(self, n_requests: nat) -> ClientWait {
        match self.state {
            ClientState::Finished => ClientWait::Nothing,
            ClientState::AwaitingResult => ClientWait::Result,
            ClientState::Ready => if self.gave_up || self.num_requests >= n_requests {
                ClientWait::Stop
            } else {
                ClientWait::Advance
            },
        }
    }

    /// The identity of the next transaction: this client's index and the
    /// number of requests that it has sent.
    pub open spec fn next_txid(self) -> TxId {
        TxId { client: self.num as u32, seq: self.num_requests as u32 }
    }

    /// The next request.
    pub open spec fn next_request(self) -> ProtocolMessage {
        ProtocolMessage {
            mtype: MessageType::ClientRequest,
            txid: self.next_txid(),
            senderid: self.num as u32,
            opid: self.num_requests as u32,
        }
    }

    /// Ready to AwaitingResult: the next request is noted and goes out.
    pub open spec fn send_next_operation(self) -> ClientView {
        ClientView {
            num_requests: self.num_requests + 1,
            state: ClientState::AwaitingResult,
            current: self.next_txid(),
            log: self.log.push(self.next_request()),
            ..self
        }
    }

    /// AwaitingResult to Ready: the result is noted if it is one of the
    /// transaction asked for; if it is not, the client gives up.
    pub open spec fn recv_result(self, m: ProtocolMessage) -> ClientView {
        if result_code(m, self.current) >= 0 {
            ClientView { state: ClientState::Ready, log: self.log.push(m), ..self }
        } else {
            ClientView { state: ClientState::Ready, gave_up: true, ..self }
        }
    }

    /// The client's transition function: the state after the event and the
    /// actions asked for, or the reason why the event is refused.
    pub open spec fn step(self, n_requests: nat, event: ClientEvent) -> Result<
        (ClientView, Seq<ClientAction>),
        ProtocolViolation,
    > {
        match event {
            ClientEvent::Advance => if self.awaiting(n_requests) == ClientWait::Advance {
                Ok(
                    (
                        self.send_next_operation(),
                        seq![
                            ClientAction::Log(self.next_request()),
                            ClientAction::Send(self.next_request()),
                        ],
                    ),
                )
            } else {
                Err(ProtocolViolation::UnexpectedEvent)
            },
            ClientEvent::Result(m) => if self.state == ClientState::AwaitingResult {
                Ok(
                    (
                        self.recv_result(m),
                        if result_code(m, self.current) >= 0 {
                            seq![ClientAction::Log(m)]
                        } else {
                            Seq::empty()
                        },
                    ),
                )
            } else {
                Err(ProtocolViolation::UnexpectedEvent)
            },
            ClientEvent::Stop => if self.state == ClientState::Finished {
                Err(ProtocolViolation::UnexpectedEvent)
            } else {
                Ok((ClientView { state: ClientState::Finished, ..self }, Seq::empty()))
            },
        }
    }
}

/// The client after it was given the events one after the other, from its
/// start. An event that it refuses leaves it as it was.
pub open spec fn client_after(
    id: Seq<char>,
    num: nat,
    n_requests: nat,
    events: Seq<ClientEvent>,
) -> ClientView
    decreases events.len(),
{
    if events.len() == 0 {
        ClientView::initial(id, num)
    } else {
        let before = client_after(id, num, n_requests, events.drop_last());
        match before.step(n_requests, events.last()) {
            Ok((after, _)) => after,
            Err(_) => before,
        }
    }
}

impl ClientView {
    /// How many requests the client has noted as sent.
    pub open spec fn requests_sent(self) -> nat {
        count_kind(self.log, MessageType::ClientRequest)
    }

    /// How many results the client has noted.
    pub open spec fn results_seen(self) -> nat {
        count_kind(self.log, MessageType::ClientResultCommit) + count_kind(
            self.log,
            MessageType::ClientResultAbort,
        )
    }

    /// The request noted at place `i` is the client's `k`-th, counted from
    /// zero, where `k` requests were noted before it, and is for the
    /// transaction of this client with that number.
    pub open spec fn numbered(self, i: int) -> bool {
        self.log[i].mtype == MessageType::ClientRequest ==> self.log[i].txid == (TxId {
            client: self.num as u32,
            seq: count_kind(self.log.subrange(0, i), MessageType::ClientRequest) as u32,
        })
    }

    /// What holds of a client at all times: it has at most one request
    /// outstanding, and none when it is ready to send; its `k`-th request is
    /// for its transaction number `k`; and the results that it has noted
    /// are those of its first transactions, with none left out.
    pub open spec fn sequential(self, n_requests: nat) -> bool {
        &&& self.requests_sent() == self.num_requests
        &&& self.num_requests <= n_requests
        &&& self.results_seen() <= self.num_requests <= self.results_seen() + 1
        &&& self.state == ClientState::AwaitingResult ==> !self.gave_up && self.num_requests
            == self.results_seen() + 1
        &&& self.state == ClientState::Ready && !self.gave_up ==> self.num_requests
            == self.results_seen()
        &&& self.state == ClientState::AwaitingResult ==> self.current == (TxId {
            client: self.num as u32,
            seq: (self.num_requests - 1) as u32,
        })
        &&& forall|i: int| 0 <= i < self.log.len() ==> #[trigger] self.numbered(i)
        &&& forall|k: nat| k < self.results_seen() ==> #[trigger] self.answered(k)
    }

    /// The client has noted a result of its transaction number `k`.
    pub open spec fn answered(self, k: nat) -> bool {
        exists|j: int|
            0 <= j < self.log.len() && (#[trigger] self.log[j]).mtype.is_result()
                && self.log[j].txid == (TxId { client: self.num as u32, seq: k as u32 })
    }
}

/// A kind is counted in a part of a log from its start no more often than
/// in the whole, and less often where the record that follows the part is of
/// that kind.
proof fn lemma_count_prefix(log: Seq<LogRecord>, kind: MessageType, i: int)
    requires
        0 <= i <= log.len(),
    ensures
        count_kind(log.subrange(0, i), kind) <= count_kind(log, kind),
        i < log.len() && log[i].mtype == kind ==> count_kind(log.subrange(0, i), kind)
            < count_kind(log, kind),
    decreases log.len(),
{
    if i == log.len() {
        assert(log.subrange(0, i) =~= log);
    } else {
        let rest = log.drop_last();
        assert(rest.subrange(0, i) =~= log.subrange(0, i));
        lemma_count_prefix(rest, kind, i);
        if i == log.len() - 1 {
            assert(rest.subrange(0, i) =~= rest);
        }
    }
}

/// A kind is counted less often before a record of that kind than before
/// any later place.
proof fn lemma_count_between(log: Seq<LogRecord>, kind: MessageType, i: int, j: int)
    requires
        0 <= i < j <= log.len(),
        log[i].mtype == kind,
    ensures
        count_kind(log.subrange(0, i), kind) < count_kind(log.subrange(0, j), kind),
{
    let upto = log.subrange(0, j);
    assert(upto.subrange(0, i) =~= log.subrange(0, i));
    lemma_count_prefix(upto, kind, i);
}

/// One step keeps what holds of a client at all times.
pub proof fn lemma_step_sequential(v: ClientView, n_requests: nat, event: ClientEvent)
    requires
        v.sequential(n_requests),
    ensures
        match v.step(n_requests, event) {
            Ok((after, _)) => after.sequential(n_requests),
            Err(_) => true,
        },
{
    match v.step(n_requests, event) {
        Ok((after, _)) => {
            match event {
                ClientEvent::Advance => {
                    let req = v.next_request();
                    lemma_count_kind_push(v.log, req, MessageType::ClientRequest);
                    lemma_count_kind_push(v.log, req, MessageType::ClientResultCommit);
                    lemma_count_kind_push(v.log, req, MessageType::ClientResultAbort);
                    assert forall|i: int| 0 <= i < after.log.len() implies #[trigger] after.numbered(
                        i,
                    ) by {
                        assert(after.log.subrange(0, i) =~= v.log.subrange(0, i));
                        if i < v.log.len() {
                            assert(v.numbered(i));
                        } else {
                            assert(v.log.subrange(0, i) =~= v.log);
                        }
                    }
                    assert forall|k: nat| k < after.results_seen() implies #[trigger] after.answered(
                        k,
                    ) by {
                        assert(v.answered(k));
                        let j = choose|j: int|
                            0 <= j < v.log.len() && (#[trigger] v.log[j]).mtype.is_result()
                                && v.log[j].txid == (TxId { client: v.num as u32, seq: k as u32 });
                        assert(after.log[j] == v.log[j]);
                    }
                },
                ClientEvent::Result(m) => {
                    if result_code(m, v.current) >= 0 {
                        lemma_count_kind_push(v.log, m, MessageType::ClientRequest);
                        lemma_count_kind_push(v.log, m, MessageType::ClientResultCommit);
                        lemma_count_kind_push(v.log, m, MessageType::ClientResultAbort);
                        assert forall|i: int|
                            0 <= i < after.log.len() implies #[trigger] after.numbered(i) by {
                            assert(after.log.subrange(0, i) =~= v.log.subrange(0, i));
                            if i < v.log.len() {
                                assert(v.numbered(i));
                            }
                        }
                        assert forall|k: nat|
                            k < after.results_seen() implies #[trigger] after.answered(k) by {
                            if k < v.results_seen() {
                                assert(v.answered(k));
                                let j = choose|j: int|
                                    0 <= j < v.log.len() && (#[trigger] v.log[j]).mtype.is_result()
                                        && v.log[j].txid == (TxId {
                                        client: v.num as u32,
                                        seq: k as u32,
                                    });
                                assert(after.log[j] == v.log[j]);
                            } else {
                                assert(after.log[v.log.len() as int] == m);
                            }
                        }
                    } else {
                        assert forall|i: int|
                            0 <= i < after.log.len() implies #[trigger] after.numbered(i) by {
                            assert(v.numbered(i));
                        }
                        assert forall|k: nat|
                            k < after.results_seen() implies #[trigger] after.answered(k) by {
                            assert(v.answered(k));
                        }
                    }
                },
                ClientEvent::Stop => {
                    assert forall|i: int| 0 <= i < after.log.len() implies #[trigger] after.numbered(
                        i,
                    ) by {
                        assert(v.numbered(i));
                    }
                    assert forall|k: nat| k < after.results_seen() implies #[trigger] after.answered(
                        k,
                    ) by {
                        assert(v.answered(k));
                    }
                },
            }
        },
        Err(_) => {},
    }
}

/// Whatever events a client is given, what holds of a client at all times
/// holds of it.
pub proof fn lemma_client_sequential(
    id: Seq<char>,
    num: nat,
    n_requests: nat,
    events: Seq<ClientEvent>,
)
    ensures
        client_after(id, num, n_requests, events).sequential(n_requests),
    decreases events.len(),
{
    if events.len() > 0 {
        let before = client_after(id, num, n_requests, events.drop_last());
        lemma_client_sequential(id, num, n_requests, events.drop_last());
        lemma_step_sequential(before, n_requests, events.last());
    }
}

/// Sequential client. Whatever events a client was given, it has noted at
/// most one request more than results; and where its next step sends a
/// request, it has noted a result for every request that it sent before,
/// the request is for a transaction number that it has not used, and it
/// will send no other before a result is handed to it.
pub proof fn lemma_one_request_at_a_time(
    id: Seq<char>,
    num: nat,
    n_requests: nat,
    events: Seq<ClientEvent>,
    next: ClientEvent,
)
    ensures
        ({
            let v = client_after(id, num, n_requests, events);
            &&& v.requests_sent() <= v.results_seen() + 1
            &&& match v.step(n_requests, next) {
                Ok((after, actions)) => forall|j: int|
                    0 <= j < actions.len() && #[trigger] actions[j] is Send ==> {
                        &&& v.requests_sent() == v.results_seen()
                        &&& actions[j]->Send_0 == v.next_request()
                        &&& after.state == ClientState::AwaitingResult
                        &&& forall|other: ClientEvent|
                            !(other is Result) ==> match #[trigger] after.step(n_requests, other) {
                                Ok((_, more)) => more == Seq::<ClientAction>::empty(),
                                Err(_) => true,
                            }
                    },
                Err(_) => true,
            }
        }),
{
    lemma_client_sequential(id, num, n_requests, events);
}

/// The client's tally. Whatever events a client was given, the committed,
/// the aborted and the unknown transactions that it reports are together as
/// many as the requests that it sent, and at most one is unknown: the one
/// that it sent last, if it has not seen how it ended.
pub proof fn lemma_tally_accounts(
    id: Seq<char>,
    num: nat,
    n_requests: nat,
    events: Seq<ClientEvent>,
)
    ensures
        ({
            let v = client_after(id, num, n_requests, events);
            let (committed, aborted, unknown) = tally_of(
                v.log,
                MessageType::ClientRequest,
                MessageType::ClientResultCommit,
                MessageType::ClientResultAbort,
            );
            &&& committed + aborted + unknown == v.num_requests
            &&& unknown <= 1
        }),
{
    lemma_client_sequential(id, num, n_requests, events);
}

/// After the stop signal a client sends nothing: once it has seen the
/// signal it refuses every event.
pub proof fn lemma_nothing_after_stop(v: ClientView, n_requests: nat, event: ClientEvent)
    requires
        v.step(n_requests, ClientEvent::Stop) is Ok,
    ensures
        (v.step(n_requests, ClientEvent::Stop)->Ok_0).0.step(n_requests, event) is Err,
{
}

/// Transaction ids are never reused by one client: whatever events it was
/// given, no two requests that it has noted are for the same transaction,
/// as long as it is to send no more requests than a sequence number can
/// count.
pub proof fn lemma_ids_never_reused(
    id: Seq<char>,
    num: nat,
    n_requests: nat,
    events: Seq<ClientEvent>,
    i: int,
    j: int,
)
    requires
        n_requests <= u32::MAX,
        ({
            let v = client_after(id, num, n_requests, events);
            &&& 0 <= i < j < v.log.len()
            &&& v.log[i].mtype == MessageType::ClientRequest
            &&& v.log[j].mtype == MessageType::ClientRequest
        }),
    ensures
        ({
            let v = client_after(id, num, n_requests, events);
            v.log[i].txid != v.log[j].txid
        }),
{
    let v = client_after(id, num, n_requests, events);
    lemma_client_sequential(id, num, n_requests, events);
    assert(v.numbered(i));
    assert(v.numbered(j));
    lemma_count_between(v.log, MessageType::ClientRequest, i, j);
    lemma_count_prefix(v.log, MessageType::ClientRequest, j);
}

/// Two clients never use the same transaction id: a request of the client
/// with one index is for another transaction than any request of the client
/// with another index.
pub proof fn lemma_ids_apart(
    a: ClientView,
    b: ClientView,
    n_requests: nat,
    i: int,
    j: int,
)
    requires
        a.sequential(n_requests),
        b.sequential(n_requests),
        a.num != b.num,
        a.num <= u32::MAX,
        b.num <= u32::MAX,
        0 <= i < a.log.len(),
        0 <= j < b.log.len(),
        a.log[i].mtype == MessageType::ClientRequest,
        b.log[j].mtype == MessageType::ClientRequest,
    ensures
        a.log[i].txid != b.log[j].txid,
{
    assert(a.numbered(i));
    assert(b.numbered(j));
}

/// One client of a run.
#[derive(Debug)]
pub struct Client {
    id_str: String,
    num: u32,
    num_requests: u32,
    state: ClientState,
    current: TxId,
    gave_up: bool,
    log: OpLog,
}

impl View for Client {
    type V = ClientView;

    closed spec fn view(&self) -> ClientView {
        ClientView {
            id: self.id_str@,
            num: self.num as nat,
            num_requests: self.num_requests as nat,
            state: self.state,
            current: self.current,
            gave_up: self.gave_up,
            log: self.log@,
        }
    }
}

impl Client {
    /// A client that has sent nothing yet. `num` is its index at the
    /// coordinator.
    pub fn new(id_str: String, num: u32) -> (c: Client)
        ensures
            c@ == ClientView::initial(id_str@, num as nat),
    {
        let log = OpLog::new(id_str.clone());
        Client {
            id_str,
            num,
            num_requests: 0,
            state: ClientState::Ready,
            current: TxId::new(num, 0),
            gave_up: false,
            log,
        }
    }

    /// The client's name.
    pub fn id_str(&self) -> (id: &String)
        ensures
            id@ == self@.id,
    {
        &self.id_str
    }

    /// The client's index at the coordinator.
    pub fn num(&self) -> (n: u32)
        ensures
            n == self@.num,
    {
        self.num
    }

    /// How many requests were sent so far.
    pub fn num_requests(&self) -> (n: u32)
        ensures
            n == self@.num_requests,
    {
        self.num_requests
    }

    /// Where the client stands.
    pub fn state(&self) -> (s: ClientState)
        ensures
            s == self@.state,
    {
        self.state
    }

    /// The requests sent and the results seen.
    pub fn log(&self) -> (log: &OpLog)
        ensures
            log@ == self@.log,
    {
        &self.log
    }

    /// What the client needs next when it is to send `n_requests` in all.
    pub fn awaiting(&self, n_requests: u32) -> (w: ClientWait)
        ensures
            w == self@.awaiting(n_requests as nat),
    {
        match self.state {
            ClientState::Finished => ClientWait::Nothing,
            ClientState::AwaitingResult => ClientWait::Result,
            ClientState::Ready => if self.gave_up || self.num_requests >= n_requests {
                ClientWait::Stop
            } else {
                ClientWait::Advance
            },
        }
    }

    /// Makes the next request, under a transaction id that this client has
    /// not used before, and returns it for sending. The client has no other
    /// request outstanding.
    pub fn send_next_operation(&mut self) -> (pm: ProtocolMessage)
        requires
            old(self)@.state == ClientState::Ready,
            old(self)@.num_requests < u32::MAX,
        ensures
            pm == old(self)@.next_request(),
            final(self)@ == old(self)@.send_next_operation(),
    {
        let txid = TxId::new(self.num, self.num_requests);
        let pm = self.log.append(MessageType::ClientRequest, txid, self.num, self.num_requests);
        self.current = txid;
        self.num_requests = self.num_requests + 1;
        self.state = ClientState::AwaitingResult;
        pm
    }

    /// Takes the coordinator's answer to the request that is outstanding:
    /// 1 for a commit, 0 for an abort, and -1 for anything else, after which
    /// the client sends no more requests.
    pub fn recv_result(&mut self, result: &ProtocolMessage) -> (code: i32)
        requires
            old(self)@.state == ClientState::AwaitingResult,
        ensures
            code == result_code(*result, old(self)@.current),
            final(self)@ == old(self)@.recv_result(*result),
    {
        self.state = ClientState::Ready;
        if result.txid == self.current && result.mtype.result() {
            self.log.append(result.mtype, result.txid, result.senderid, result.opid);
            if result.mtype == MessageType::ClientResultCommit {
                1
            } else {
                0
            }
        } else {
            self.gave_up = true;
            -1
        }
    }

    /// The transactions that this client saw committed and aborted, and the
    /// requests that it sent without seeing how they ended.
    pub fn report_status(&self) -> (t: RunTally)
        ensures
            t.counts() == tally_of(
                self@.log,
                MessageType::ClientRequest,
                MessageType::ClientResultCommit,
                MessageType::ClientResultAbort,
            ),
    {
        self.log.tally(
            MessageType::ClientRequest,
            MessageType::ClientResultCommit,
            MessageType::ClientResultAbort,
        )
    }

    /// Takes one step of the protocol: the client moves to its next state
    /// and returns what it asks its caller to do, in order. An event that
    /// does not fit is refused, and the client stays as it was.
    ///
    /// `n_requests` is the number of requests that the client is to send.
    pub fn protocol(&mut self, n_requests: u32, event: ClientEvent) -> (r: Result<
        Vec<ClientAction>,
        ProtocolViolation,
    >)
        ensures
            match old(self)@.step(n_requests as nat, event) {
                Ok((post, actions)) => r matches Ok(out) && out@ == actions && final(self)@ == post,
                Err(e) => r == Err::<Vec<ClientAction>, ProtocolViolation>(e) && final(self)@
                    == old(self)@,
            },
    {
        let mut out: Vec<ClientAction> = Vec::new();
        match event {
            ClientEvent::Advance => {
                if self.state != ClientState::Ready || self.gave_up || self.num_requests
                    >= n_requests {
                    return Err(ProtocolViolation::UnexpectedEvent);
                }
                let pm = self.send_next_operation();
                out.push(ClientAction::Log(pm));
                out.push(ClientAction::Send(pm));
            },
            ClientEvent::Result(m) => {
                if self.state != ClientState::AwaitingResult {
                    return Err(ProtocolViolation::UnexpectedEvent);
                }
                let code = self.recv_result(&m);
                if code >= 0 {
                    out.push(ClientAction::Log(m));
                }
            },
            ClientEvent::Stop => {
                if self.state == ClientState::Finished {
                    return Err(ProtocolViolation::UnexpectedEvent);
                }
                self.state = ClientState::Finished;
            },
        }
        proof {
            assert(out@ =~= old(self)@.step(n_requests as nat, event)->Ok_0.1);
        }
        Ok(out)
    }
}

} // verus!
