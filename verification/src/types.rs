//! Plain data carried through the replication core: replica identities,
//! roles, log entries, wire messages, and the actions a state-machine step
//! asks its caller to perform.

use vstd::prelude::*;

verus! {

/// Identity of a replica, derived deterministically from its transport
/// address. A node without an address is a listener: it propagates traffic
/// but never votes and never acknowledges log entries.
#[derive(Clone, Copy, PartialEq, Eq, Structural, Hash, Debug)]
pub struct NodeId {
    pub id: u64,
}

/// The role a replica currently plays in the election state machine.
#[derive(Clone, Copy, PartialEq, Eq, Structural, Debug)]
pub enum Role {
    Follower,
    Candidate,
    Leader,
}

/// The error kinds of the core. `Decode` covers malformed wire or on-disk
/// bytes, `Store` and `Transport` are carried for the unverified shell, and
/// `Logic` marks a bounds or precondition violation.
#[derive(Clone, Copy, PartialEq, Eq, Structural, Debug)]
pub enum RaftError {
    Decode,
    Store,
    Transport,
    Logic,
}

/// One replicated log entry: the term it was created in and an opaque
/// payload.
#[derive(Debug)]
pub struct Log {
    pub term: u64,
    pub msg: Vec<u8>,
}

/// Mathematical image of a log entry.
#[verifier::ext_equal]
pub struct LogV {
    pub term: u64,
    pub msg: Seq<u8>,
}

impl View for Log {
    type V = LogV;

    open spec fn view(&self) -> LogV {
        LogV { term: self.term, msg: self.msg@ }
    }
}

impl DeepView for Log {
    type V = LogV;

    open spec fn deep_view(&self) -> LogV {
        self@
    }
}

impl Clone for Log {
    fn clone(&self) -> (r: Self)
        ensures
            r@ == self@,
    {
        Log { term: self.term, msg: clone_bytes(&self.msg) }
    }
}

impl PartialEq for Log {
    fn eq(&self, other: &Self) -> (r: bool)
        ensures
            r == (self@ == other@),
    {
        let same = self.term == other.term && bytes_eq(&self.msg, &other.msg);
        proof {
            if same {
                assert(self@ == other@);
            }
        }
        same
    }
}

impl vstd::std_specs::cmp::PartialEqSpecImpl for Log {
    open spec fn obeys_eq_spec() -> bool {
        true
    }

    open spec fn eq_spec(&self, other: &Self) -> bool {
        self@ == other@
    }
}

/// Copies a byte vector; the copy has the same contents.
pub fn clone_bytes(v: &Vec<u8>) -> (r: Vec<u8>)
    ensures
        r@ == v@,
{
    let mut r: Vec<u8> = Vec::new();
    let mut i: usize = 0;
    while i < v.len()
        invariant
            i <= v.len(),
            r@ == v@.take(i as int),
        decreases v.len() - i,
    {
        r.push(v[i]);
        i = i + 1;
        proof {
            assert(r@ =~= v@.take(i as int));
        }
    }
    proof {
        assert(r@ =~= v@);
    }
    r
}

/// Compares two byte vectors by contents.
pub fn bytes_eq(a: &Vec<u8>, b: &Vec<u8>) -> (r: bool)
    ensures
        r == (a@ == b@),
{
    if a.len() != b.len() {
        proof {
            assert(a@.len() != b@.len());
        }
        return false;
    }
    let mut i: usize = 0;
    while i < a.len()
        invariant
            i <= a.len(),
            a@.len() == b@.len(),
            forall|j: int| 0 <= j < i ==> a@[j] == b@[j],
        decreases a.len() - i,
    {
        if a[i] != b[i] {
            return false;
        }
        i = i + 1;
    }
    proof {
        assert(a@ =~= b@);
    }
    true
}

/// Copies a vector of log entries; the copy has the same image.
pub fn clone_entries(v: &Vec<Log>) -> (r: Vec<Log>)
    ensures
        r.deep_view() == v.deep_view(),
{
    let mut r: Vec<Log> = Vec::new();
    let mut i: usize = 0;
    while i < v.len()
        invariant
            i <= v.len(),
            r@.len() == i,
            forall|j: int| 0 <= j < i ==> r@[j]@ == v@[j]@,
        decreases v.len() - i,
    {
        r.push(v[i].clone());
        i = i + 1;
    }
    proof {
        assert forall|j: int| 0 <= j < r.deep_view().len() implies r.deep_view()[j]
            == v.deep_view()[j] by {
            assert(r.deep_view()[j] == r@[j]@);
            assert(v.deep_view()[j] == v@[j]@);
        }
        assert(r.deep_view() =~~= v.deep_view());
    }
    r
}

/// A candidate's call for votes.
#[derive(Clone, Copy, PartialEq, Eq, Structural, Debug)]
pub struct VoteRequest {
    pub node_id: NodeId,
    pub current_term: u64,
    pub log_length: u64,
    pub last_term: u64,
}

/// A replica's answer to a `VoteRequest`.
#[derive(Clone, Copy, PartialEq, Eq, Structural, Debug)]
pub struct VoteResponse {
    pub node_id: NodeId,
    pub current_term: u64,
    pub ok: bool,
}

/// A leader's replication message: the suffix of its log past the prefix it
/// believes the recipient already holds.
#[derive(Debug)]
pub struct LogRequest {
    pub leader_id: NodeId,
    pub current_term: u64,
    pub prefix_len: u64,
    pub prefix_term: u64,
    pub commit_length: u64,
    pub suffix: Vec<Log>,
}

/// Mathematical image of a `LogRequest`.
#[verifier::ext_equal]
pub struct LogRequestV {
    pub leader_id: NodeId,
    pub current_term: u64,
    pub prefix_len: u64,
    pub prefix_term: u64,
    pub commit_length: u64,
    pub suffix: Seq<LogV>,
}

impl View for LogRequest {
    type V = LogRequestV;

    open spec fn view(&self) -> LogRequestV {
        LogRequestV {
            leader_id: self.leader_id,
            current_term: self.current_term,
            prefix_len: self.prefix_len,
            prefix_term: self.prefix_term,
            commit_length: self.commit_length,
            suffix: self.suffix.deep_view(),
        }
    }
}

/// A follower's answer to a `LogRequest`: the prefix length it now
/// acknowledges as stored.
#[derive(Clone, Copy, PartialEq, Eq, Structural, Debug)]
pub struct LogResponse {
    pub node_id: NodeId,
    pub current_term: u64,
    pub ack: u64,
    pub ok: bool,
}

/// An application payload forwarded towards the current leader.
#[derive(Debug)]
pub struct BroadcastMsgRequest(pub Vec<u8>);

impl View for BroadcastMsgRequest {
    type V = Seq<u8>;

    open spec fn view(&self) -> Seq<u8> {
        self.0@
    }
}

/// The wire method tags; each `NetMsg` carries exactly one.
#[derive(Clone, Copy, PartialEq, Eq, Structural, Debug)]
pub enum NetMsgMethod {
    VoteRequest,
    VoteResponse,
    LogRequest,
    LogResponse,
    BroadcastRequest,
}

/// The stable numeric tag of a method.
pub fn method_tag(m: NetMsgMethod) -> (r: u8)
    ensures
        r == spec_method_tag(m),
{
    match m {
        NetMsgMethod::VoteRequest => 0,
        NetMsgMethod::VoteResponse => 1,
        NetMsgMethod::LogRequest => 2,
        NetMsgMethod::LogResponse => 3,
        NetMsgMethod::BroadcastRequest => 4,
    }
}

pub open spec fn spec_method_tag(m: NetMsgMethod) -> u8 {
    match m {
        NetMsgMethod::VoteRequest => 0,
        NetMsgMethod::VoteResponse => 1,
        NetMsgMethod::LogRequest => 2,
        NetMsgMethod::LogResponse => 3,
        NetMsgMethod::BroadcastRequest => 4,
    }
}

/// The method a numeric tag stands for; `None` for an unknown tag.
pub fn tag_method(t: u8) -> (r: Option<NetMsgMethod>)
    ensures
        r == spec_tag_method(t),
{
    match t {
        0 => Some(NetMsgMethod::VoteRequest),
        1 => Some(NetMsgMethod::VoteResponse),
        2 => Some(NetMsgMethod::LogRequest),
        3 => Some(NetMsgMethod::LogResponse),
        4 => Some(NetMsgMethod::BroadcastRequest),
        _ => None,
    }
}

pub open spec fn spec_tag_method(t: u8) -> Option<NetMsgMethod> {
    if t == 0 {
        Some(NetMsgMethod::VoteRequest)
    } else if t == 1 {
        Some(NetMsgMethod::VoteResponse)
    } else if t == 2 {
        Some(NetMsgMethod::LogRequest)
    } else if t == 3 {
        Some(NetMsgMethod::LogResponse)
    } else if t == 4 {
        Some(NetMsgMethod::BroadcastRequest)
    } else {
        None
    }
}

/// A typed message as the transport carries it. `recipient_id == None` means
/// broadcast to all peers; a recipient tag is advisory, so every replica must
/// be ready to see messages meant for others.
#[derive(Debug)]
pub struct NetMsg {
    pub id: u32,
    pub recipient_id: Option<NodeId>,
    pub payload: Vec<u8>,
    pub method: NetMsgMethod,
}

/// Mathematical image of a `NetMsg`.
#[verifier::ext_equal]
pub struct NetMsgV {
    pub id: u32,
    pub recipient_id: Option<NodeId>,
    pub payload: Seq<u8>,
    pub method: NetMsgMethod,
}

impl View for NetMsg {
    type V = NetMsgV;

    open spec fn view(&self) -> NetMsgV {
        NetMsgV {
            id: self.id,
            recipient_id: self.recipient_id,
            payload: self.payload@,
            method: self.method,
        }
    }
}

/// The envelope the task daemon replicates: a sealed payload and the nonce
/// it was sealed with.
#[derive(Debug)]
pub struct MsgPayload {
    pub nonce: Vec<u8>,
    pub payload: Vec<u8>,
}

/// Mathematical image of a `MsgPayload`.
#[verifier::ext_equal]
pub struct MsgPayloadV {
    pub nonce: Seq<u8>,
    pub payload: Seq<u8>,
}

impl View for MsgPayload {
    type V = MsgPayloadV;

    open spec fn view(&self) -> MsgPayloadV {
        MsgPayloadV { nonce: self.nonce@, payload: self.payload@ }
    }
}

/// One write against the durable store.
#[derive(Debug)]
pub enum StoreAction {
    PutTerm(u64),
    PutVote(Option<NodeId>),
    AppendLog(Log),
    ReplaceLog(Vec<Log>),
    PutCommitLength(u64),
    AppendCommit(Vec<u8>),
}

/// Mathematical image of a `StoreAction`.
#[verifier::ext_equal]
pub enum StoreActionV {
    PutTerm(u64),
    PutVote(Option<NodeId>),
    AppendLog(LogV),
    ReplaceLog(Seq<LogV>),
    PutCommitLength(u64),
    AppendCommit(Seq<u8>),
}

impl View for StoreAction {
    type V = StoreActionV;

    open spec fn view(&self) -> StoreActionV {
        match self {
            StoreAction::PutTerm(t) => StoreActionV::PutTerm(*t),
            StoreAction::PutVote(v) => StoreActionV::PutVote(*v),
            StoreAction::AppendLog(e) => StoreActionV::AppendLog(e@),
            StoreAction::ReplaceLog(es) => StoreActionV::ReplaceLog(es.deep_view()),
            StoreAction::PutCommitLength(l) => StoreActionV::PutCommitLength(*l),
            StoreAction::AppendCommit(p) => StoreActionV::AppendCommit(p@),
        }
    }
}

impl DeepView for StoreAction {
    type V = StoreActionV;

    open spec fn deep_view(&self) -> StoreActionV {
        self@
    }
}

/// One step of outside work a state-machine transition asks for, in the
/// order it must be performed: durable writes come before the sends that
/// depend on them, and committed payloads are delivered in commit order.
#[derive(Debug)]
pub enum Action {
    /// Write to the durable store.
    Store(StoreAction),
    /// Hand the message to the outbound transport channel.
    Send(NetMsg),
    /// Deliver a committed payload on the application's commit stream.
    Deliver(Vec<u8>),
}

/// Mathematical image of an `Action`.
#[verifier::ext_equal]
pub enum ActionV {
    Store(StoreActionV),
    Send(NetMsgV),
    Deliver(Seq<u8>),
}

impl View for Action {
    type V = ActionV;

    open spec fn view(&self) -> ActionV {
        match self {
            Action::Store(a) => ActionV::Store(a@),
            Action::Send(m) => ActionV::Send(m@),
            Action::Deliver(p) => ActionV::Deliver(p@),
        }
    }
}

impl DeepView for Action {
    type V = ActionV;

    open spec fn deep_view(&self) -> ActionV {
        self@
    }
}

} // verus!
