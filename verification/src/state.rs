//! The replication state machine: the Raft role machine with leader
//! election, log replication, and commit advancement.
//!
//! Every step is a pure transition: it mutates the in-memory state and
//! returns the ordered list of [`Action`]s the caller must perform — durable
//! writes first, then the sends that depend on them. The unverified shell
//! around the library owns the timers, channels and the disk, performs the
//! actions in order, and feeds inbound messages back in.

use vstd::prelude::*;

use crate::codec::{
    decode_broadcast_request, decode_log_request, decode_log_response, decode_vote_request,
    decode_vote_response, enc_log_request, enc_log_response, enc_vote_request, enc_vote_response,
    encode_log_request, encode_log_response, encode_vote_request, encode_vote_response,
    enc_broadcast_request, encode_broadcast_request, dec_vote_request, dec_vote_response,
    dec_log_request, dec_log_response, dec_broadcast_request,
};
use crate::logs::{last_term_of, Logs};
use crate::maplen::MapLength;
use crate::rng::random_msg_id;
use crate::store::DurableState;
use crate::types::{
    clone_bytes, Action, ActionV, BroadcastMsgRequest, Log, LogRequest, LogRequestV, LogResponse,
    LogV, NetMsg, NetMsgMethod, NetMsgV, NodeId, RaftError, Role, StoreAction, StoreActionV,
    VoteRequest, VoteResponse,
};

verus! {

/// Heartbeat interval of a leader, in milliseconds.
pub const HEARTBEAT_TIMEOUT: u64 = 100;

/// Base election timeout, in milliseconds.
pub const TIMEOUT: u64 = 300;

/// Width of the random election-jitter window, in milliseconds.
pub const JITTER: u64 = 200;

/// Cadence at which the shell refreshes the peer registry, in milliseconds.
pub const TIMEOUT_NODES: u64 = 300;

/// The replica state machine. The five durable fields (`current_term`,
/// `voted_for`, `logs`, `commit_length`, and the commits mirror held by the
/// store) are shadowed on disk through the store actions each step emits.
pub struct RaftState {
    /// This replica's identity; `None` for a listener.
    pub id: Option<NodeId>,
    pub current_term: u64,
    pub voted_for: Option<NodeId>,
    pub logs: Logs,
    pub commit_length: u64,
    pub role: Role,
    pub current_leader: Option<NodeId>,
    /// Who voted for this replica in its current candidacy; no duplicates.
    pub votes_received: Vec<NodeId>,
    /// Leader bookkeeping: how much of the log was sent to each peer.
    pub sent_length: MapLength,
    /// Leader bookkeeping: how much of the log each peer acknowledged.
    pub acked_length: MapLength,
    /// Term of the last log entry, recomputed before it is used.
    pub last_term: u64,
    /// The term in which `voted_for` was assigned.
    pub vote_term: Ghost<u64>,
}

impl RaftState {
    /// The state invariant: the vote is from the current term, a listener
    /// stays a follower, votes are counted at most once, and the maps are
    /// well formed.
    pub open spec fn wf(&self) -> bool {
        &&& self.sent_length.wf()
        &&& self.acked_length.wf()
        &&& self.votes_received@.no_duplicates()
        &&& (self.voted_for is Some ==> self.vote_term@ == self.current_term)
        &&& (self.id is None ==> self.role == Role::Follower)
    }
}

/// The two states agree on every field the machine reads.
pub open spec fn same_core(a: RaftState, b: RaftState) -> bool {
    &&& a.id == b.id
    &&& a.current_term == b.current_term
    &&& a.voted_for == b.voted_for
    &&& a.logs@ == b.logs@
    &&& a.commit_length == b.commit_length
    &&& a.role == b.role
    &&& a.current_leader == b.current_leader
    &&& a.votes_received@ == b.votes_received@
    &&& a.sent_length@ == b.sent_length@
    &&& a.acked_length@ == b.acked_length@
    &&& a.last_term == b.last_term
}

/// `a` hands `payload` to the transport, addressed to `recipient` (`None`
/// broadcasts). The message identifier is random and left open.
pub open spec fn is_send_to(
    a: ActionV,
    recipient: Option<NodeId>,
    payload: Seq<u8>,
    method: NetMsgMethod,
) -> bool {
    match a {
        ActionV::Send(m) => m.recipient_id == recipient && m.payload == payload && m.method
            == method,
        _ => false,
    }
}

/// Appends one action; the earlier ones keep their places.
fn push_action(acts: &mut Vec<Action>, a: Action)
    ensures
        final(acts).deep_view() == old(acts).deep_view().push(a@),
{
    let ghost a0 = acts.deep_view();
    acts.push(a);
    proof {
        assert forall|j: int| 0 <= j < acts.deep_view().len() implies acts.deep_view()[j]
            == a0.push(a@)[j] by {
            assert(acts.deep_view()[j] == acts@[j]@);
            if j < a0.len() {
                assert(acts@[j] == old(acts)@[j]);
                assert(a0[j] == old(acts)@[j]@);
            }
        }
        assert(acts.deep_view() =~~= a0.push(a@));
    }
}

/// Appends a send action carrying `payload` to `recipient`, with a fresh
/// random message identifier.
fn push_send(acts: &mut Vec<Action>, recipient: Option<NodeId>, payload: Vec<u8>, method: NetMsgMethod)
    ensures
        final(acts).deep_view().len() == old(acts).deep_view().len() + 1,
        final(acts).deep_view().take(old(acts).deep_view().len() as int) == old(acts).deep_view(),
        is_send_to(final(acts).deep_view().last(), recipient, payload@, method),
{
    let id = random_msg_id();
    let msg = NetMsg { id, recipient_id: recipient, payload, method };
    push_action(acts, Action::Send(msg));
    proof {
        assert(acts.deep_view().take(old(acts).deep_view().len() as int) =~~= old(
            acts,
        ).deep_view());
    }
}

/// The number of acknowledgements that make a quorum over `n` known peers:
/// a strict majority, `floor(n / 2) + 1`.
pub fn quorum(n: usize) -> (r: u64)
    ensures
        r == spec_quorum(n as int),
{
    (n as u64) / 2 + 1
}

pub open spec fn spec_quorum(n: int) -> int {
    n / 2 + 1
}

/// Adds a vote to the tally unless that replica was already counted.
fn add_vote(votes: &mut Vec<NodeId>, n: NodeId)
    requires
        old(votes)@.no_duplicates(),
    ensures
        final(votes)@.no_duplicates(),
        final(votes)@.to_set() == old(votes)@.to_set().insert(n),
        old(votes)@.contains(n) ==> final(votes)@ == old(votes)@,
        !old(votes)@.contains(n) ==> final(votes)@ == old(votes)@.push(n),
{
    let mut i: usize = 0;
    while i < votes.len()
        invariant
            votes@ == old(votes)@,
            old(votes)@.no_duplicates(),
            i <= votes@.len(),
            forall|j: int| 0 <= j < i ==> votes@[j] != n,
        decreases votes@.len() - i,
    {
        if votes[i] == n {
            proof {
                assert(votes@.contains(n));
                assert(votes@.to_set() =~= votes@.to_set().insert(n));
            }
            return;
        }
        i = i + 1;
    }
    proof {
        assert(!old(votes)@.contains(n));
    }
    votes.push(n);
    proof {
        assert(votes@ == old(votes)@.push(n));
        assert forall|j: int| 0 <= j < votes@.len() - 1 implies votes@[j] != n by {
            assert(votes@[j] == old(votes)@[j]);
        }
        assert(votes@.no_duplicates());
        assert forall|x: NodeId| votes@.to_set().contains(x) <==> old(votes)@.to_set().insert(
            n,
        ).contains(x) by {
            if votes@.contains(x) {
                let j = choose|j: int| 0 <= j < votes@.len() && votes@[j] == x;
                if j < votes@.len() - 1 {
                    assert(old(votes)@[j] == x);
                    assert(old(votes)@.contains(x));
                }
            }
            if old(votes)@.contains(x) {
                let j = choose|j: int| 0 <= j < old(votes)@.len() && old(votes)@[j] == x;
                assert(votes@[j] == x);
                assert(votes@.contains(x));
            }
            if x == n {
                assert(votes@.last() == n);
                assert(votes@.contains(n));
            }
        }
        assert(votes@.to_set() =~= old(votes)@.to_set().insert(n));
    }
}

impl RaftState {
    /// Builds the state of a freshly started replica from what the durable
    /// store holds; `store` carries the defaults when the store was empty.
    /// A store image whose commit length exceeds its log is corrupt and is
    /// rejected with `Err(Decode)`.
    pub fn new(id: Option<NodeId>, store: &DurableState) -> (r: Result<RaftState, RaftError>)
        ensures
            store.commit_length <= store.logs@.len() ==> (r matches Ok(s) && {
                &&& s.wf()
                &&& s.id == id
                &&& s.current_term == store.current_term
                &&& s.voted_for == store.voted_for
                &&& s.logs@ == store.logs@
                &&& s.commit_length == store.commit_length
                &&& s.role == Role::Follower
                &&& s.current_leader is None
                &&& s.votes_received@ == Seq::<NodeId>::empty()
                &&& s.sent_length@ == Map::<NodeId, u64>::empty()
                &&& s.acked_length@ == Map::<NodeId, u64>::empty()
                &&& s.last_term == 0
            }),
            store.commit_length > store.logs@.len() ==> (r matches Err(e) && e
                == RaftError::Decode),
    {
        if store.commit_length > store.logs.len() {
            return Err(RaftError::Decode);
        }
        let s = RaftState {
            id,
            current_term: store.current_term,
            voted_for: store.voted_for,
            logs: store.logs.clone(),
            commit_length: store.commit_length,
            role: Role::Follower,
            current_leader: None,
            votes_received: Vec::new(),
            sent_length: MapLength::new(),
            acked_length: MapLength::new(),
            last_term: 0,
            vote_term: Ghost(store.current_term),
        };
        Ok(s)
    }

    /// The next timer to arm: the fixed heartbeat interval for a leader,
    /// the base election timeout plus the supplied random jitter otherwise.
    pub fn next_timeout(&self, jitter: u64) -> (r: u64)
        requires
            jitter < JITTER,
        ensures
            self.role == Role::Leader ==> r == HEARTBEAT_TIMEOUT,
            self.role != Role::Leader ==> r == TIMEOUT + jitter,
    {
        if self.role == Role::Leader {
            HEARTBEAT_TIMEOUT
        } else {
            TIMEOUT + jitter
        }
    }
}

/// What starting an election does: a listener does nothing; otherwise the
/// replica enters the next term as a candidate, votes for itself (both
/// persisted, in that order), recomputes its last log term, and broadcasts
/// a vote request.
pub open spec fn start_election_post(
    pre: RaftState,
    post: RaftState,
    acts: Seq<ActionV>,
) -> bool {
    if pre.id is None {
        &&& same_core(pre, post)
        &&& acts == Seq::<ActionV>::empty()
    } else {
        let me = pre.id->0;
        &&& post.id == pre.id
        &&& post.current_term == pre.current_term + 1
        &&& post.voted_for == Some(me)
        &&& post.logs@ == pre.logs@
        &&& post.commit_length == pre.commit_length
        &&& post.role == Role::Candidate
        &&& post.current_leader == pre.current_leader
        &&& post.votes_received@ == seq![me]
        &&& post.sent_length@ == pre.sent_length@
        &&& post.acked_length@ == pre.acked_length@
        &&& post.last_term == last_term_of(pre.logs@)
        &&& acts.len() == 3
        &&& acts[0] == ActionV::Store(StoreActionV::PutTerm(post.current_term))
        &&& acts[1] == ActionV::Store(StoreActionV::PutVote(Some(me)))
        &&& is_send_to(
            acts[2],
            None,
            enc_vote_request(
                VoteRequest {
                    node_id: me,
                    current_term: post.current_term,
                    log_length: pre.logs@.len() as u64,
                    last_term: post.last_term,
                },
            ),
            NetMsgMethod::VoteRequest,
        )
    }
}

/// What receiving a vote request does: a listener ignores it; otherwise a
/// higher term is adopted (vote cleared, back to follower), and the vote is
/// granted if and only if the terms match, the candidate's log is at least
/// as current, and this replica has not voted for anyone else this term.
/// The reply always goes back to the candidate.
pub open spec fn vote_request_post(
    pre: RaftState,
    post: RaftState,
    vr: VoteRequest,
    acts: Seq<ActionV>,
) -> bool {
    if pre.id is None {
        &&& same_core(pre, post)
        &&& acts == Seq::<ActionV>::empty()
    } else {
        let me = pre.id->0;
        let adopt = vr.current_term > pre.current_term;
        let term = if adopt { vr.current_term } else { pre.current_term };
        let vote0: Option<NodeId> = if adopt { None } else { pre.voted_for };
        let role0 = if adopt { Role::Follower } else { pre.role };
        let lt = last_term_of(pre.logs@);
        let log_ok = vr.last_term > lt || (vr.last_term == lt && vr.log_length >= pre.logs@.len());
        let may_vote = vote0 is None || vote0 == Some(vr.node_id);
        let grant = vr.current_term == term && log_ok && may_vote;
        let stores: Seq<ActionV> = (if adopt {
            seq![
                ActionV::Store(StoreActionV::PutTerm(term)),
                ActionV::Store(StoreActionV::PutVote(None)),
            ]
        } else {
            Seq::<ActionV>::empty()
        }) + (if grant {
            seq![ActionV::Store(StoreActionV::PutVote(Some(vr.node_id)))]
        } else {
            Seq::<ActionV>::empty()
        });
        &&& post.id == pre.id
        &&& post.current_term == term
        &&& post.voted_for == (if grant {
            Some(vr.node_id)
        } else {
            vote0
        })
        &&& post.logs@ == pre.logs@
        &&& post.commit_length == pre.commit_length
        &&& post.role == role0
        &&& post.current_leader == pre.current_leader
        &&& post.votes_received@ == pre.votes_received@
        &&& post.sent_length@ == pre.sent_length@
        &&& post.acked_length@ == pre.acked_length@
        &&& post.last_term == lt
        &&& acts.len() == stores.len() + 1
        &&& acts.take(stores.len() as int) == stores
        &&& is_send_to(
            acts.last(),
            Some(vr.node_id),
            enc_vote_response(VoteResponse { node_id: me, current_term: term, ok: grant }),
            NetMsgMethod::VoteResponse,
        )
    }
}

impl RaftState {
    /// Starts an election, as the timer expiring on a non-leader asks.
    pub fn send_vote_request(&mut self) -> (acts: Vec<Action>)
        requires
            old(self).wf(),
            old(self).current_term < u64::MAX,
        ensures
            final(self).wf(),
            final(self).commit_length >= old(self).commit_length,
            start_election_post(*old(self), *final(self), acts.deep_view()),
    {
        let mut acts: Vec<Action> = Vec::new();
        let me = match &self.id {
            Some(n) => *n,
            None => {
                proof {
                    assert(acts.deep_view() =~~= Seq::<ActionV>::empty());
                }
                return acts;
            },
        };
        self.current_term = self.current_term + 1;
        push_action(&mut acts, Action::Store(StoreAction::PutTerm(self.current_term)));
        self.role = Role::Candidate;
        self.voted_for = Some(me);
        self.vote_term = Ghost(self.current_term);
        push_action(&mut acts, Action::Store(StoreAction::PutVote(Some(me))));
        self.votes_received = Vec::new();
        self.votes_received.push(me);
        self.last_term = self.logs.last_term();
        let request = VoteRequest {
            node_id: me,
            current_term: self.current_term,
            log_length: self.logs.len(),
            last_term: self.last_term,
        };
        let payload = encode_vote_request(&request);
        push_send(&mut acts, None, payload, NetMsgMethod::VoteRequest);
        proof {
            assert(self.votes_received@ =~= seq![me]);
            assert(acts.deep_view().take(2) =~= seq![
                ActionV::Store(StoreActionV::PutTerm(self.current_term)),
                ActionV::Store(StoreActionV::PutVote(Some(me))),
            ]);
            assert(acts.deep_view()[0] == ActionV::Store(StoreActionV::PutTerm(self.current_term)));
            assert(acts.deep_view()[1] == ActionV::Store(StoreActionV::PutVote(Some(me))));
        }
        acts
    }

    /// Answers a candidate's vote request.
    pub fn receive_vote_request(&mut self, vr: VoteRequest) -> (acts: Vec<Action>)
        requires
            old(self).wf(),
        ensures
            final(self).wf(),
            final(self).commit_length >= old(self).commit_length,
            vote_request_post(*old(self), *final(self), vr, acts.deep_view()),
    {
        let mut acts: Vec<Action> = Vec::new();
        let me = match &self.id {
            Some(n) => *n,
            None => {
                proof {
                    assert(acts.deep_view() =~~= Seq::<ActionV>::empty());
                }
                return acts;
            },
        };
        let ghost adopt = vr.current_term > self.current_term;
        if vr.current_term > self.current_term {
            self.current_term = vr.current_term;
            push_action(&mut acts, Action::Store(StoreAction::PutTerm(self.current_term)));
            self.voted_for = None;
            push_action(&mut acts, Action::Store(StoreAction::PutVote(None)));
            self.role = Role::Follower;
        }
        self.last_term = self.logs.last_term();
        let log_ok = vr.last_term > self.last_term || (vr.last_term == self.last_term
            && vr.log_length >= self.logs.len());
        let may_vote = match &self.voted_for {
            Some(v) => *v == vr.node_id,
            None => true,
        };
        let grant = vr.current_term == self.current_term && log_ok && may_vote;
        let ghost stores0 = acts.deep_view();
        if grant {
            self.voted_for = Some(vr.node_id);
            self.vote_term = Ghost(self.current_term);
            push_action(&mut acts, Action::Store(StoreAction::PutVote(Some(vr.node_id))));
        }
        let ghost stores = acts.deep_view();
        let response = VoteResponse { node_id: me, current_term: self.current_term, ok: grant };
        let payload = encode_vote_response(&response);
        push_send(&mut acts, Some(vr.node_id), payload, NetMsgMethod::VoteResponse);
        proof {
            let pre = *old(self);
            let expected: Seq<ActionV> = (if adopt {
                seq![
                    ActionV::Store(StoreActionV::PutTerm(self.current_term)),
                    ActionV::Store(StoreActionV::PutVote(None)),
                ]
            } else {
                Seq::<ActionV>::empty()
            }) + (if grant {
                seq![ActionV::Store(StoreActionV::PutVote(Some(vr.node_id)))]
            } else {
                Seq::<ActionV>::empty()
            });
            assert(stores =~= expected);
            assert(acts.deep_view().take(stores.len() as int) == stores);
        }
        acts
    }
}


// ---------------------------------------------------------------------------
// log replication: what a leader sends, what a follower does with it
// ---------------------------------------------------------------------------

/// The replication message a leader with state `s` sends to a peer it
/// believes holds a prefix of `p_sent` entries.
pub open spec fn log_request_view(s: RaftState, p_sent: u64) -> LogRequestV {
    LogRequestV {
        leader_id: s.id->0,
        current_term: s.current_term,
        prefix_len: p_sent,
        prefix_term: if p_sent > 0 {
            s.logs@[p_sent - 1].term
        } else {
            0
        },
        commit_length: s.commit_length,
        suffix: s.logs@.skip(p_sent as int),
    }
}

/// The follower holds entries past the prefix and the first of them that
/// the suffix also covers disagrees on the term: the old suffix is stale.
pub open spec fn truncate_needed(log: Seq<LogV>, prefix_len: int, suffix: Seq<LogV>) -> bool {
    &&& suffix.len() > 0
    &&& log.len() > prefix_len
    &&& {
        let index = (if log.len() <= prefix_len + suffix.len() {
            log.len() as int
        } else {
            prefix_len + suffix.len()
        }) - 1;
        log[index].term != suffix[index - prefix_len].term
    }
}

/// The log after the possible truncation to the matched prefix.
pub open spec fn append_base(log: Seq<LogV>, prefix_len: int, suffix: Seq<LogV>) -> Seq<LogV> {
    if truncate_needed(log, prefix_len, suffix) {
        log.take(prefix_len)
    } else {
        log
    }
}

/// The log after the whole append step: new suffix entries are appended
/// where the log was shorter than what the leader sent.
pub open spec fn append_result(log: Seq<LogV>, prefix_len: int, suffix: Seq<LogV>) -> Seq<LogV> {
    let base = append_base(log, prefix_len, suffix);
    if prefix_len + suffix.len() > base.len() {
        base + suffix.skip(base.len() - prefix_len)
    } else {
        base
    }
}

/// Where the commit length moves: up to what the leader reports, but never
/// past the local log and never backwards.
pub open spec fn new_commit_length(commit: u64, leader_commit: u64, new_len: int) -> int {
    let target = if leader_commit <= new_len {
        leader_commit as int
    } else {
        new_len
    };
    if target > commit {
        target
    } else {
        commit as int
    }
}

/// The store writes that append `es` one after the other.
pub open spec fn append_store_acts(es: Seq<LogV>) -> Seq<ActionV>
    decreases es.len(),
{
    if es.len() == 0 {
        Seq::empty()
    } else {
        append_store_acts(es.drop_last()) + seq![
            ActionV::Store(StoreActionV::AppendLog(es.last())),
        ]
    }
}

/// Delivering and mirroring the payloads of `log` at indices
/// `[from, to)`, in order.
pub open spec fn commit_emit_acts(log: Seq<LogV>, from: int, to: int) -> Seq<ActionV>
    decreases to - from,
    when from <= to
{
    if to <= from {
        Seq::empty()
    } else {
        commit_emit_acts(log, from, to - 1) + seq![
            ActionV::Deliver(log[to - 1].msg),
            ActionV::Store(StoreActionV::AppendCommit(log[to - 1].msg)),
        ]
    }
}

/// Everything the append step does to the durable log and the commits,
/// in the order it is done.
pub open spec fn append_log_acts(
    log: Seq<LogV>,
    commit: u64,
    prefix_len: int,
    leader_commit: u64,
    suffix: Seq<LogV>,
) -> Seq<ActionV> {
    let base = append_base(log, prefix_len, suffix);
    let new_log = append_result(log, prefix_len, suffix);
    let appended = if prefix_len + suffix.len() > base.len() {
        suffix.skip(base.len() - prefix_len)
    } else {
        Seq::<LogV>::empty()
    };
    let nc = new_commit_length(commit, leader_commit, new_log.len() as int);
    (if truncate_needed(log, prefix_len, suffix) {
        seq![ActionV::Store(StoreActionV::ReplaceLog(base))]
    } else {
        Seq::<ActionV>::empty()
    }) + append_store_acts(appended) + commit_emit_acts(new_log, commit as int, nc) + (if nc
        != commit {
        seq![ActionV::Store(StoreActionV::PutCommitLength(nc as u64))]
    } else {
        Seq::<ActionV>::empty()
    })
}

impl RaftState {
    /// The follower-side append: truncate a conflicting suffix, append the
    /// new entries, and move the commit length towards what the leader
    /// reports, delivering each newly committed payload in order.
    #[verifier::rlimit(100)]
    pub fn append_log(
        &mut self,
        prefix_len: u64,
        leader_commit: u64,
        suffix: &Vec<Log>,
        acts: &mut Vec<Action>,
    )
        requires
            old(self).wf(),
            prefix_len <= old(self).logs@.len(),
        ensures
            final(self).wf(),
            final(self).logs@ == append_result(
                old(self).logs@,
                prefix_len as int,
                suffix.deep_view(),
            ),
            final(self).commit_length == new_commit_length(
                old(self).commit_length,
                leader_commit,
                final(self).logs@.len() as int,
            ),
            final(self).commit_length >= old(self).commit_length,
            final(self).id == old(self).id,
            final(self).current_term == old(self).current_term,
            final(self).voted_for == old(self).voted_for,
            final(self).vote_term == old(self).vote_term,
            final(self).role == old(self).role,
            final(self).current_leader == old(self).current_leader,
            final(self).votes_received@ == old(self).votes_received@,
            final(self).sent_length@ == old(self).sent_length@,
            final(self).acked_length@ == old(self).acked_length@,
            final(self).last_term == old(self).last_term,
            final(acts).deep_view() == old(acts).deep_view() + append_log_acts(
                old(self).logs@,
                old(self).commit_length,
                prefix_len as int,
                leader_commit,
                suffix.deep_view(),
            ),
    {
        let ghost log0 = self.logs@;
        let ghost suf = suffix.deep_view();
        let ghost acts0 = acts.deep_view();
        proof {
            assert(suf.len() == suffix@.len());
        }
        // 1. Truncate a conflicting stale suffix back to the matched prefix.
        let n: usize = self.logs.0.len();
        if suffix.len() > 0 && n as u64 > prefix_len {
            let pl: usize = prefix_len as usize;
            let index: usize = if n - pl <= suffix.len() {
                n - 1
            } else {
                pl + suffix.len() - 1
            };
            proof {
                assert(index as int == (if log0.len() <= prefix_len + suf.len() {
                    log0.len() as int
                } else {
                    prefix_len + suf.len()
                }) - 1);
                assert(pl <= index < log0.len());
                assert(0 <= index - pl < suf.len());
            }
            let local_term = self.logs.0[index].term;
            let suffix_term = suffix[index - pl].term;
            proof {
                assert(log0[index as int] == self.logs.0@[index as int]@);
                assert(local_term == log0[index as int].term);
                assert(suf[index - pl] == suffix@[index - pl]@);
                assert(suffix_term == suf[index - pl].term);
            }
            if local_term != suffix_term {
                proof {
                    assert(truncate_needed(log0, prefix_len as int, suf));
                }
                let base = match self.logs.slice_to(prefix_len) {
                    Some(b) => b,
                    None => {
                        proof {
                            assert(false);
                        }
                        Logs(Vec::new())
                    },
                };
                push_action(
                    &mut *acts,
                    Action::Store(StoreAction::ReplaceLog(crate::types::clone_entries(&base.0))),
                );
                self.logs = base;
            } else {
                proof {
                    assert(!truncate_needed(log0, prefix_len as int, suf));
                }
            }
        } else {
            proof {
                assert(!truncate_needed(log0, prefix_len as int, suf));
            }
        }
        let ghost base = append_base(log0, prefix_len as int, suf);
        let ghost acts1 = acts.deep_view();
        proof {
            assert(self.logs@ == base);
            assert(acts1 == acts0 + (if truncate_needed(log0, prefix_len as int, suf) {
                seq![ActionV::Store(StoreActionV::ReplaceLog(base))]
            } else {
                Seq::<ActionV>::empty()
            })) by {
                if truncate_needed(log0, prefix_len as int, suf) {
                    assert(acts1 =~= acts0 + seq![
                        ActionV::Store(StoreActionV::ReplaceLog(base)),
                    ]);
                } else {
                    assert(acts1 =~= acts0 + Seq::<ActionV>::empty());
                }
            }
        }
        // 2. Append the entries the log does not hold yet.
        let ghost appended = if prefix_len + suf.len() > base.len() {
            suf.skip(base.len() - prefix_len)
        } else {
            Seq::<LogV>::empty()
        };
        let base_len = self.logs.len();
        if suffix.len() as u64 > base_len - prefix_len {
            let start: u64 = base_len - prefix_len;
            proof {
                assert(prefix_len + suf.len() > base.len());
                assert(appended == suf.skip(start as int));
            }
            let mut i: usize = start as usize;
            while i < suffix.len()
                invariant
                    start <= i <= suffix@.len(),
                    suf == suffix.deep_view(),
                    suf.len() == suffix@.len(),
                    start == base.len() - prefix_len,
                    appended == suf.skip(start as int),
                    self.logs@ == base + suf.subrange(start as int, i as int),
                    acts.deep_view() == acts1 + append_store_acts(
                        suf.subrange(start as int, i as int),
                    ),
                    self.id == old(self).id,
                    self.current_term == old(self).current_term,
                    self.voted_for == old(self).voted_for,
                    self.vote_term == old(self).vote_term,
                    self.role == old(self).role,
                    self.current_leader == old(self).current_leader,
                    self.votes_received == old(self).votes_received,
                    self.sent_length == old(self).sent_length,
                    self.acked_length == old(self).acked_length,
                    self.last_term == old(self).last_term,
                    self.commit_length == old(self).commit_length,
                    old(self).wf(),
                decreases suffix@.len() - i,
            {
                let ghost before = suf.subrange(start as int, i as int);
                let entry = suffix[i].clone();
                self.logs.push(&entry);
                push_action(&mut *acts, Action::Store(StoreAction::AppendLog(entry)));
                proof {
                    let after = suf.subrange(start as int, i as int + 1);
                    assert(after.drop_last() =~= before);
                    assert(after.last() == suf[i as int]);
                    assert(suffix@[i as int]@ == suf[i as int]);
                    assert(self.logs@ =~= base + after);
                    assert(append_store_acts(after) == append_store_acts(before) + seq![
                        ActionV::Store(StoreActionV::AppendLog(suf[i as int])),
                    ]);
                    assert(acts.deep_view() =~= acts1 + append_store_acts(after));
                }
                i = i + 1;
            }
            proof {
                assert(suf.subrange(start as int, suf.len() as int) =~= suf.skip(start as int));
            }
        } else {
            proof {
                assert(!(prefix_len + suf.len() > base.len()));
                assert(appended =~= Seq::<LogV>::empty());
                assert(append_store_acts(Seq::<LogV>::empty()) == Seq::<ActionV>::empty());
                assert(self.logs@ =~= base);
                assert(acts.deep_view() =~= acts1 + append_store_acts(appended));
            }
        }
        let ghost new_log = append_result(log0, prefix_len as int, suf);
        let ghost acts2 = acts.deep_view();
        proof {
            assert(self.logs@ == new_log);
            assert(acts2 == acts1 + append_store_acts(appended));
        }
        // 3. Advance the commit length towards the leader's, delivering the
        // newly committed payloads in order.
        let ghost nc = new_commit_length(
            old(self).commit_length,
            leader_commit,
            new_log.len() as int,
        );
        if leader_commit > self.commit_length {
            let n2: usize = self.logs.0.len();
            let target: usize = if leader_commit <= n2 as u64 {
                leader_commit as usize
            } else {
                n2
            };
            let ghost c0 = self.commit_length;
            if target as u64 > self.commit_length {
                proof {
                    assert(nc == target as int);
                }
                let mut i: usize = self.commit_length as usize;
                while i < target
                    invariant
                        c0 <= i <= target,
                        target <= self.logs@.len(),
                        self.logs@ == new_log,
                        self.commit_length == c0,
                        acts.deep_view() == acts2 + commit_emit_acts(new_log, c0 as int, i as int),
                        self.id == old(self).id,
                        self.current_term == old(self).current_term,
                        self.voted_for == old(self).voted_for,
                        self.vote_term == old(self).vote_term,
                        self.role == old(self).role,
                        self.current_leader == old(self).current_leader,
                        self.votes_received == old(self).votes_received,
                        self.sent_length == old(self).sent_length,
                        self.acked_length == old(self).acked_length,
                        self.last_term == old(self).last_term,
                        old(self).wf(),
                    decreases target - i,
                {
                    proof {
                        assert(new_log[i as int] == self.logs.0@[i as int]@);
                    }
                    let payload = clone_bytes(&self.logs.0[i].msg);
                    let payload2 = clone_bytes(&payload);
                    push_action(&mut *acts, Action::Deliver(payload));
                    push_action(&mut *acts, Action::Store(StoreAction::AppendCommit(payload2)));
                    proof {
                        assert(payload@ == new_log[i as int].msg);
                        assert(commit_emit_acts(new_log, c0 as int, i as int + 1)
                            == commit_emit_acts(new_log, c0 as int, i as int) + seq![
                            ActionV::Deliver(new_log[i as int].msg),
                            ActionV::Store(StoreActionV::AppendCommit(new_log[i as int].msg)),
                        ]);
                        assert(acts.deep_view() =~= acts2 + commit_emit_acts(
                            new_log,
                            c0 as int,
                            i as int + 1,
                        ));
                    }
                    i = i + 1;
                }
                self.commit_length = target as u64;
                push_action(
                    &mut *acts,
                    Action::Store(StoreAction::PutCommitLength(target as u64)),
                );
                proof {
                    assert(acts.deep_view() =~= acts2 + commit_emit_acts(
                        new_log,
                        c0 as int,
                        nc,
                    ) + seq![ActionV::Store(StoreActionV::PutCommitLength(nc as u64))]);
                }
            } else {
                proof {
                    assert(nc == c0);
                    assert(commit_emit_acts(new_log, c0 as int, nc) == Seq::<ActionV>::empty());
                    assert(acts.deep_view() =~= acts2 + commit_emit_acts(new_log, c0 as int, nc)
                        + Seq::<ActionV>::empty());
                }
            }
        } else {
            proof {
                assert(nc == self.commit_length);
                assert(commit_emit_acts(new_log, self.commit_length as int, nc)
                    == Seq::<ActionV>::empty());
                assert(acts.deep_view() =~= acts2 + commit_emit_acts(
                    new_log,
                    self.commit_length as int,
                    nc,
                ) + Seq::<ActionV>::empty());
            }
        }
        proof {
            assert(acts.deep_view() =~= old(acts).deep_view() + append_log_acts(
                log0,
                old(self).commit_length,
                prefix_len as int,
                leader_commit,
                suf,
            ));
        }
    }
}


impl RaftState {
    /// Builds the replication message for `node`, from the prefix length
    /// recorded for it: the suffix of the log past that prefix, the term
    /// just before it, and the leader's commit length. `Ok(None)` when the
    /// recorded prefix runs past the log (the peer is ahead of what this
    /// leader sent; the backfill loop will walk it down), `Err(Logic)`
    /// when nothing was recorded for the node.
    pub fn update_logs(&self, node: &NodeId) -> (r: Result<Option<NetMsg>, RaftError>)
        requires
            self.wf(),
            self.id is Some,
        ensures
            !self.sent_length@.dom().contains(*node) ==> (r matches Err(e) && e
                == RaftError::Logic),
            self.sent_length@.dom().contains(*node) ==> {
                let sent = self.sent_length@[*node];
                if sent > self.logs@.len() {
                    r matches Ok(m) && m is None
                } else {
                    r matches Ok(m) && m matches Some(msg) && msg@.recipient_id == Some(*node)
                        && msg@.method == NetMsgMethod::LogRequest && msg@.payload
                        == enc_log_request(log_request_view(*self, sent))
                }
            },
    {
        let prefix_len = match self.sent_length.get(node) {
            Ok(v) => v,
            Err(e) => {
                return Err(e);
            },
        };
        let suffix = match self.logs.slice_from(prefix_len) {
            Some(s) => s,
            None => {
                return Ok(None);
            },
        };
        let mut prefix_term: u64 = 0;
        let n: usize = self.logs.0.len();
        if prefix_len > 0 {
            let idx: usize = (prefix_len - 1) as usize;
            proof {
                assert(prefix_len <= n as u64);
                assert(idx as int == prefix_len - 1);
            }
            prefix_term = self.logs.0[idx].term;
            proof {
                assert(self.logs@[prefix_len - 1] == self.logs.0@[prefix_len - 1]@);
            }
        }
        let me = match &self.id {
            Some(n) => *n,
            None => {
                proof {
                    assert(false);
                }
                return Err(RaftError::Logic);
            },
        };
        let request = LogRequest {
            leader_id: me,
            current_term: self.current_term,
            prefix_len,
            prefix_term,
            commit_length: self.commit_length,
            suffix: suffix.0,
        };
        proof {
            assert(request@ =~~= log_request_view(*self, prefix_len));
        }
        let payload = encode_log_request(&request);
        let msg = NetMsg {
            id: random_msg_id(),
            recipient_id: Some(*node),
            payload,
            method: NetMsgMethod::LogRequest,
        };
        Ok(Some(msg))
    }
}

/// What receiving a replication message does: a higher term is adopted
/// (vote cleared); on a term match the replica follows the sender. The
/// entries are taken exactly when the term matches and the local log
/// reaches the claimed prefix with a matching term at its end; the reply
/// carries the acknowledged prefix, and a listener does not reply.
pub open spec fn log_request_post(
    pre: RaftState,
    post: RaftState,
    lr: LogRequestV,
    acts: Seq<ActionV>,
) -> bool {
    let adopt = lr.current_term > pre.current_term;
    let term = if adopt { lr.current_term } else { pre.current_term };
    let vote0: Option<NodeId> = if adopt { None } else { pre.voted_for };
    let term_match = lr.current_term == term;
    let ok = pre.logs@.len() >= lr.prefix_len && (lr.prefix_len == 0 || pre.logs@[
        lr.prefix_len - 1
    ].term == lr.prefix_term);
    let do_append = term_match && ok;
    let new_log = if do_append {
        append_result(pre.logs@, lr.prefix_len as int, lr.suffix)
    } else {
        pre.logs@
    };
    let ack: int = if do_append { lr.prefix_len + lr.suffix.len() } else { 0 };
    let adopt_acts: Seq<ActionV> = if adopt {
        seq![
            ActionV::Store(StoreActionV::PutTerm(term)),
            ActionV::Store(StoreActionV::PutVote(None)),
        ]
    } else {
        Seq::<ActionV>::empty()
    };
    let append_acts: Seq<ActionV> = if do_append {
        append_log_acts(pre.logs@, pre.commit_length, lr.prefix_len as int, lr.commit_length, lr.suffix)
    } else {
        Seq::<ActionV>::empty()
    };
    &&& post.id == pre.id
    &&& post.current_term == term
    &&& post.voted_for == vote0
    &&& post.logs@ == new_log
    &&& post.commit_length == (if do_append {
        new_commit_length(pre.commit_length, lr.commit_length, new_log.len() as int)
    } else {
        pre.commit_length as int
    })
    &&& post.role == (if term_match {
        Role::Follower
    } else {
        pre.role
    })
    &&& post.current_leader == (if term_match {
        Some(lr.leader_id)
    } else {
        pre.current_leader
    })
    &&& post.votes_received@ == pre.votes_received@
    &&& post.sent_length@ == pre.sent_length@
    &&& post.acked_length@ == pre.acked_length@
    &&& post.last_term == pre.last_term
    &&& (pre.id is None ==> acts == adopt_acts + append_acts)
    &&& (pre.id is Some ==> {
        &&& acts.len() == adopt_acts.len() + append_acts.len() + 1
        &&& acts.take(acts.len() - 1) == adopt_acts + append_acts
        &&& is_send_to(
            acts.last(),
            Some(lr.leader_id),
            enc_log_response(
                LogResponse { node_id: pre.id->0, current_term: term, ack: ack as u64, ok },
            ),
            NetMsgMethod::LogResponse,
        )
    })
}

impl RaftState {
    /// Handles a leader's replication message on the follower side.
    #[verifier::rlimit(100)]
    pub fn receive_log_request(&mut self, lr: &LogRequest) -> (acts: Vec<Action>)
        requires
            old(self).wf(),
        ensures
            final(self).wf(),
            final(self).commit_length >= old(self).commit_length,
            log_request_post(*old(self), *final(self), lr@, acts.deep_view()),
    {
        let mut acts: Vec<Action> = Vec::new();
        let ghost pre = *old(self);
        if lr.current_term > self.current_term {
            self.current_term = lr.current_term;
            push_action(&mut acts, Action::Store(StoreAction::PutTerm(self.current_term)));
            self.voted_for = None;
            push_action(&mut acts, Action::Store(StoreAction::PutVote(None)));
        }
        if lr.current_term == self.current_term {
            if self.id.is_some() {
                self.role = Role::Follower;
            }
            self.current_leader = Some(lr.leader_id);
        }
        proof {
            assert(pre.id is None ==> self.role == Role::Follower);
            assert(acts.deep_view() =~~= (if lr@.current_term > pre.current_term {
                seq![
                    ActionV::Store(StoreActionV::PutTerm(self.current_term)),
                    ActionV::Store(StoreActionV::PutVote(None)),
                ]
            } else {
                Seq::<ActionV>::empty()
            }));
        }
        let n: usize = self.logs.0.len();
        let ok = n as u64 >= lr.prefix_len && (lr.prefix_len == 0 || {
            let idx: usize = (lr.prefix_len - 1) as usize;
            proof {
                assert(lr.prefix_len <= n as u64);
                assert(idx as int == lr.prefix_len - 1);
                assert(self.logs@[lr.prefix_len - 1] == self.logs.0@[lr.prefix_len - 1]@);
            }
            self.logs.0[idx].term == lr.prefix_term
        });
        let ghost adopt_acts = acts.deep_view();
        let mut ack: u64 = 0;
        if lr.current_term == self.current_term && ok {
            self.append_log(lr.prefix_len, lr.commit_length, &lr.suffix, &mut acts);
            let nn: usize = self.logs.0.len();
            proof {
                assert(self.logs@.len() == nn as int);
                assert(self.logs@.len() >= lr.prefix_len + lr.suffix.deep_view().len());
            }
            ack = lr.prefix_len + lr.suffix.len() as u64;
        }
        let me = match &self.id {
            Some(nd) => *nd,
            None => {
                proof {
                    assert(acts.deep_view() =~~= adopt_acts + (if lr@.current_term
                        == self.current_term && ok {
                        append_log_acts(
                            pre.logs@,
                            pre.commit_length,
                            lr@.prefix_len as int,
                            lr@.commit_length,
                            lr@.suffix,
                        )
                    } else {
                        Seq::<ActionV>::empty()
                    }));
                }
                return acts;
            },
        };
        let response = LogResponse { node_id: me, current_term: self.current_term, ack, ok };
        let payload = encode_log_response(&response);
        push_send(&mut acts, Some(lr.leader_id), payload, NetMsgMethod::LogResponse);
        proof {
            let expected = adopt_acts + (if lr@.current_term == self.current_term && ok {
                append_log_acts(
                    pre.logs@,
                    pre.commit_length,
                    lr@.prefix_len as int,
                    lr@.commit_length,
                    lr@.suffix,
                )
            } else {
                Seq::<ActionV>::empty()
            });
            assert(acts.deep_view().take(acts.deep_view().len() - 1) =~~= expected);
        }
        acts
    }
}


// ---------------------------------------------------------------------------
// commit advancement by quorum
// ---------------------------------------------------------------------------

/// How many of the peers have acknowledged a prefix of at least `l`
/// entries. A peer with no recorded acknowledgement counts as none.
pub open spec fn spec_count_acked(peers: Seq<NodeId>, acked: Map<NodeId, u64>, l: u64) -> int
    decreases peers.len(),
{
    if peers.len() == 0 {
        0
    } else {
        spec_count_acked(peers.drop_last(), acked, l) + (if acked.dom().contains(peers.last())
            && acked[peers.last()] >= l {
            1int
        } else {
            0int
        })
    }
}

/// The largest prefix length in `1..=l` that a quorum of `q` peers has
/// acknowledged, or 0 if there is none.
pub open spec fn max_ready(peers: Seq<NodeId>, acked: Map<NodeId, u64>, q: int, l: int) -> int
    decreases l,
    when l >= 0
{
    if l <= 0 {
        0
    } else if spec_count_acked(peers, acked, l as u64) >= q {
        l
    } else {
        max_ready(peers, acked, q, l - 1)
    }
}

/// What commit advancement does: if the largest quorum-acknowledged prefix
/// length exceeds the commit length and its last entry is from the current
/// term, the newly covered payloads are delivered in order and the commit
/// length moves there; otherwise nothing happens.
pub open spec fn commit_log_post(
    pre: RaftState,
    post: RaftState,
    peers: Seq<NodeId>,
    acts: Seq<ActionV>,
) -> bool {
    let q = spec_quorum(peers.len() as int);
    let lmax = max_ready(peers, pre.acked_length@, q, pre.logs@.len() as int);
    let advance = lmax > pre.commit_length && pre.logs@[lmax - 1].term == pre.current_term;
    &&& post.id == pre.id
    &&& post.current_term == pre.current_term
    &&& post.voted_for == pre.voted_for
    &&& post.logs@ == pre.logs@
    &&& post.commit_length == (if advance {
        lmax
    } else {
        pre.commit_length as int
    })
    &&& post.role == pre.role
    &&& post.current_leader == pre.current_leader
    &&& post.votes_received@ == pre.votes_received@
    &&& post.sent_length@ == pre.sent_length@
    &&& post.acked_length@ == pre.acked_length@
    &&& post.last_term == pre.last_term
    &&& acts == (if advance {
        commit_emit_acts(pre.logs@, pre.commit_length as int, lmax) + seq![
            ActionV::Store(StoreActionV::PutCommitLength(lmax as u64)),
        ]
    } else {
        Seq::<ActionV>::empty()
    })
}

impl RaftState {
    /// Counts the peers whose acknowledged prefix reaches `l`.
    pub fn count_acked(&self, peers: &Vec<NodeId>, l: u64) -> (r: u64)
        requires
            self.wf(),
        ensures
            r == spec_count_acked(peers@, self.acked_length@, l),
            r <= peers@.len(),
    {
        let mut count: u64 = 0;
        let mut i: usize = 0;
        while i < peers.len()
            invariant
                self.wf(),
                i <= peers@.len(),
                count <= i,
                count == spec_count_acked(peers@.take(i as int), self.acked_length@, l),
            decreases peers@.len() - i,
        {
            let hit = match self.acked_length.get(&peers[i]) {
                Ok(v) => v >= l,
                Err(_) => false,
            };
            proof {
                let t = peers@.take(i as int + 1);
                assert(t.drop_last() =~= peers@.take(i as int));
                assert(t.last() == peers@[i as int]);
            }
            if hit {
                count = count + 1;
            }
            i = i + 1;
        }
        proof {
            assert(peers@.take(peers@.len() as int) =~= peers@);
        }
        count
    }

    /// Leader commit advancement: delivers what a quorum now holds.
    #[verifier::rlimit(60)]
    pub fn commit_log(&mut self, peers: &Vec<NodeId>) -> (acts: Vec<Action>)
        requires
            old(self).wf(),
        ensures
            final(self).wf(),
            final(self).commit_length >= old(self).commit_length,
            commit_log_post(*old(self), *final(self), peers@, acts.deep_view()),
    {
        let mut acts: Vec<Action> = Vec::new();
        let ghost pre = *old(self);
        let n: usize = self.logs.0.len();
        let min_acks = quorum(peers.len());
        let ghost q = spec_quorum(peers@.len() as int);
        let mut l: usize = n;
        while l > 0 && self.count_acked(peers, l as u64) < min_acks
            invariant
                self.wf(),
                *self == pre,
                n == self.logs@.len(),
                l <= n,
                min_acks == q,
                max_ready(peers@, self.acked_length@, q, n as int) == max_ready(
                    peers@,
                    self.acked_length@,
                    q,
                    l as int,
                ),
            decreases l,
        {
            l = l - 1;
        }
        let ghost lmax = max_ready(peers@, pre.acked_length@, q, pre.logs@.len() as int);
        proof {
            if l > 0 {
                assert(lmax == l as int);
            } else {
                assert(lmax == 0);
            }
        }
        if l == 0 {
            proof {
                assert(acts.deep_view() =~~= Seq::<ActionV>::empty());
            }
            return acts;
        }
        if !(l as u64 > self.commit_length && self.logs.0[l - 1].term == self.current_term) {
            proof {
                assert(pre.logs@[l - 1] == self.logs.0@[l - 1]@);
                assert(acts.deep_view() =~~= Seq::<ActionV>::empty());
            }
            return acts;
        }
        proof {
            assert(pre.logs@[l - 1] == self.logs.0@[l - 1]@);
        }
        let target: usize = l;
        let ghost c0 = self.commit_length;
        let mut i: usize = self.commit_length as usize;
        while i < target
            invariant
                c0 <= i <= target,
                target <= self.logs@.len(),
                self.id == pre.id,
                self.current_term == pre.current_term,
                self.voted_for == pre.voted_for,
                self.vote_term == pre.vote_term,
                self.logs@ == pre.logs@,
                self.logs.0@.len() == pre.logs@.len(),
                self.commit_length == c0,
                self.role == pre.role,
                self.current_leader == pre.current_leader,
                self.votes_received == pre.votes_received,
                self.sent_length == pre.sent_length,
                self.acked_length == pre.acked_length,
                self.last_term == pre.last_term,
                pre.wf(),
                acts.deep_view() == commit_emit_acts(pre.logs@, c0 as int, i as int),
            decreases target - i,
        {
            proof {
                assert(pre.logs@[i as int] == self.logs.0@[i as int]@);
            }
            let payload = clone_bytes(&self.logs.0[i].msg);
            let payload2 = clone_bytes(&payload);
            push_action(&mut acts, Action::Deliver(payload));
            push_action(&mut acts, Action::Store(StoreAction::AppendCommit(payload2)));
            proof {
                assert(commit_emit_acts(pre.logs@, c0 as int, i as int + 1) == commit_emit_acts(
                    pre.logs@,
                    c0 as int,
                    i as int,
                ) + seq![
                    ActionV::Deliver(pre.logs@[i as int].msg),
                    ActionV::Store(StoreActionV::AppendCommit(pre.logs@[i as int].msg)),
                ]);
                assert(acts.deep_view() =~= commit_emit_acts(pre.logs@, c0 as int, i as int + 1));
            }
            i = i + 1;
        }
        self.commit_length = target as u64;
        push_action(&mut acts, Action::Store(StoreAction::PutCommitLength(target as u64)));
        proof {
            assert(acts.deep_view() =~= commit_emit_acts(pre.logs@, c0 as int, lmax) + seq![
                ActionV::Store(StoreActionV::PutCommitLength(lmax as u64)),
            ]);
        }
        acts
    }
}

/// What receiving a follower's acknowledgement does on the leader: a valid
/// acknowledgement that does not move backwards updates the peer's
/// bookkeeping and may advance the commit; a rejection walks the peer's
/// send index one entry back and resends; a response from an unknown peer
/// is a `Logic` error; a higher term steps the leader down.
pub open spec fn log_response_post(
    pre: RaftState,
    post: RaftState,
    lr: LogResponse,
    peers: Seq<NodeId>,
    r: Result<Vec<Action>, RaftError>,
) -> bool {
    if lr.current_term == pre.current_term && pre.role == Role::Leader {
        if lr.ok && !pre.acked_length@.dom().contains(lr.node_id) {
            &&& same_core(pre, post)
            &&& r matches Err(e) && e == RaftError::Logic
        } else if lr.ok && lr.ack >= pre.acked_length@[lr.node_id] {
            let sent1 = pre.sent_length@.insert(lr.node_id, lr.ack);
            let acked1 = pre.acked_length@.insert(lr.node_id, lr.ack);
            let q = spec_quorum(peers.len() as int);
            let lmax = max_ready(peers, acked1, q, pre.logs@.len() as int);
            let advance = lmax > pre.commit_length && pre.logs@[lmax - 1].term
                == pre.current_term;
            &&& post.id == pre.id
            &&& post.current_term == pre.current_term
            &&& post.voted_for == pre.voted_for
            &&& post.logs@ == pre.logs@
            &&& post.commit_length == (if advance {
                lmax
            } else {
                pre.commit_length as int
            })
            &&& post.role == pre.role
            &&& post.current_leader == pre.current_leader
            &&& post.votes_received@ == pre.votes_received@
            &&& post.sent_length@ == sent1
            &&& post.acked_length@ == acked1
            &&& post.last_term == pre.last_term
            &&& r matches Ok(acts) && acts.deep_view() == (if advance {
                commit_emit_acts(pre.logs@, pre.commit_length as int, lmax) + seq![
                    ActionV::Store(StoreActionV::PutCommitLength(lmax as u64)),
                ]
            } else {
                Seq::<ActionV>::empty()
            })
        } else {
            // a stale or failed acknowledgement: walk the send index back
            if !pre.sent_length@.dom().contains(lr.node_id) {
                &&& same_core(pre, post)
                &&& r matches Err(e) && e == RaftError::Logic
            } else if pre.sent_length@[lr.node_id] > 0 {
                let back = (pre.sent_length@[lr.node_id] - 1) as u64;
                let sent1 = pre.sent_length@.insert(lr.node_id, back);
                &&& post.id == pre.id
                &&& post.current_term == pre.current_term
                &&& post.voted_for == pre.voted_for
                &&& post.logs@ == pre.logs@
                &&& post.commit_length == pre.commit_length
                &&& post.role == pre.role
                &&& post.current_leader == pre.current_leader
                &&& post.votes_received@ == pre.votes_received@
                &&& post.sent_length@ == sent1
                &&& post.acked_length@ == pre.acked_length@
                &&& post.last_term == pre.last_term
                &&& (back > pre.logs@.len() ==> (r matches Ok(acts) && acts.deep_view()
                    == Seq::<ActionV>::empty()))
                &&& (back <= pre.logs@.len() ==> (r matches Ok(acts) && acts.deep_view().len()
                    == 1 && is_send_to(
                    acts.deep_view()[0],
                    Some(lr.node_id),
                    enc_log_request(log_request_view(post, back)),
                    NetMsgMethod::LogRequest,
                )))
            } else {
                &&& same_core(pre, post)
                &&& r matches Ok(acts) && acts.deep_view() == Seq::<ActionV>::empty()
            }
        }
    } else if lr.current_term > pre.current_term {
        &&& post.id == pre.id
        &&& post.current_term == lr.current_term
        &&& post.voted_for is None
        &&& post.logs@ == pre.logs@
        &&& post.commit_length == pre.commit_length
        &&& post.role == Role::Follower
        &&& post.current_leader == pre.current_leader
        &&& post.votes_received@ == pre.votes_received@
        &&& post.sent_length@ == pre.sent_length@
        &&& post.acked_length@ == pre.acked_length@
        &&& post.last_term == pre.last_term
        &&& r matches Ok(acts) && acts.deep_view() == seq![
            ActionV::Store(StoreActionV::PutTerm(lr.current_term)),
            ActionV::Store(StoreActionV::PutVote(None)),
        ]
    } else {
        &&& same_core(pre, post)
        &&& r matches Ok(acts) && acts.deep_view() == Seq::<ActionV>::empty()
    }
}

impl RaftState {
    /// Handles a follower's acknowledgement on the leader side.
    #[verifier::rlimit(60)]
    pub fn receive_log_response(&mut self, lr: LogResponse, peers: &Vec<NodeId>) -> (r: Result<
        Vec<Action>,
        RaftError,
    >)
        requires
            old(self).wf(),
        ensures
            final(self).wf(),
            final(self).commit_length >= old(self).commit_length,
            log_response_post(*old(self), *final(self), lr, peers@, r),
    {
        let ghost pre = *old(self);
        if lr.current_term == self.current_term && self.role == Role::Leader {
            if lr.ok {
                let acked = match self.acked_length.get(&lr.node_id) {
                    Ok(v) => v,
                    Err(e) => {
                        return Err(e);
                    },
                };
                if lr.ack >= acked {
                    self.sent_length.insert(&lr.node_id, lr.ack);
                    self.acked_length.insert(&lr.node_id, lr.ack);
                    let acts = self.commit_log(peers);
                    return Ok(acts);
                }
            }
            let sent = match self.sent_length.get(&lr.node_id) {
                Ok(v) => v,
                Err(e) => {
                    return Err(e);
                },
            };
            if sent > 0 {
                let back = sent - 1;
                self.sent_length.insert(&lr.node_id, back);
                let mut acts: Vec<Action> = Vec::new();
                match self.update_logs(&lr.node_id) {
                    Ok(Some(msg)) => {
                        push_action(&mut acts, Action::Send(msg));
                        proof {
                            assert(acts.deep_view().len() == 1);
                        }
                        Ok(acts)
                    },
                    Ok(None) => {
                        proof {
                            assert(acts.deep_view() =~~= Seq::<ActionV>::empty());
                        }
                        Ok(acts)
                    },
                    Err(e) => {
                        proof {
                            assert(false);
                        }
                        Err(e)
                    },
                }
            } else {
                let acts: Vec<Action> = Vec::new();
                proof {
                    assert(acts.deep_view() =~~= Seq::<ActionV>::empty());
                }
                Ok(acts)
            }
        } else if lr.current_term > self.current_term {
            let mut acts: Vec<Action> = Vec::new();
            self.current_term = lr.current_term;
            push_action(&mut acts, Action::Store(StoreAction::PutTerm(self.current_term)));
            self.role = Role::Follower;
            self.voted_for = None;
            push_action(&mut acts, Action::Store(StoreAction::PutVote(None)));
            proof {
                assert(acts.deep_view() =~~= seq![
                    ActionV::Store(StoreActionV::PutTerm(lr.current_term)),
                    ActionV::Store(StoreActionV::PutVote(None)),
                ]);
            }
            Ok(acts)
        } else {
            let acts: Vec<Action> = Vec::new();
            proof {
                assert(acts.deep_view() =~~= Seq::<ActionV>::empty());
            }
            Ok(acts)
        }
    }
}


// ---------------------------------------------------------------------------
// winning an election, heartbeats, and payload submission
// ---------------------------------------------------------------------------

/// `m` with every peer mapped to `v`.
pub open spec fn insert_all(m: Map<NodeId, u64>, peers: Seq<NodeId>, v: u64) -> Map<NodeId, u64>
    decreases peers.len(),
{
    if peers.len() == 0 {
        m
    } else {
        insert_all(m, peers.drop_last(), v).insert(peers.last(), v)
    }
}

/// `acts` is exactly one replication message per peer, in peer order,
/// skipping peers whose recorded prefix runs past the log; a peer with no
/// recorded prefix does not occur (callers rule that out or fail first).
pub open spec fn updates_post(s: RaftState, peers: Seq<NodeId>, acts: Seq<ActionV>) -> bool
    decreases peers.len(),
{
    if peers.len() == 0 {
        acts.len() == 0
    } else {
        let p = peers.last();
        if s.sent_length@.dom().contains(p) && s.sent_length@[p] <= s.logs@.len() {
            &&& acts.len() >= 1
            &&& updates_post(s, peers.drop_last(), acts.drop_last())
            &&& is_send_to(
                acts.last(),
                Some(p),
                enc_log_request(log_request_view(s, s.sent_length@[p])),
                NetMsgMethod::LogRequest,
            )
        } else if s.sent_length@.dom().contains(p) {
            updates_post(s, peers.drop_last(), acts)
        } else {
            false
        }
    }
}

/// Every peer has a recorded send prefix.
pub open spec fn all_sent_known(s: RaftState, peers: Seq<NodeId>) -> bool {
    forall|i: int| 0 <= i < peers.len() ==> s.sent_length@.dom().contains(#[trigger] peers[i])
}

impl RaftState {
    /// Appends one replication message per peer; `Err(Logic)` when some
    /// peer has no recorded prefix (the content of `acts` is then
    /// unspecified, and callers discard it).
    fn push_updates(&self, peers: &Vec<NodeId>, acts: &mut Vec<Action>) -> (r: Result<
        (),
        RaftError,
    >)
        requires
            self.wf(),
            self.id is Some,
        ensures
            all_sent_known(*self, peers@) ==> (r matches Ok(u) && final(acts).deep_view().len()
                >= old(acts).deep_view().len() && final(acts).deep_view().take(
                old(acts).deep_view().len() as int,
            ) == old(acts).deep_view() && updates_post(
                *self,
                peers@,
                final(acts).deep_view().skip(old(acts).deep_view().len() as int),
            )),
            !all_sent_known(*self, peers@) ==> (r matches Err(e) && e == RaftError::Logic),
    {
        let ghost base = old(acts).deep_view();
        let mut i: usize = 0;
        while i < peers.len()
            invariant
                self.wf(),
                self.id is Some,
                i <= peers@.len(),
                base.len() <= acts.deep_view().len(),
                acts.deep_view().take(base.len() as int) == base,
                all_sent_known(*self, peers@.take(i as int)),
                updates_post(*self, peers@.take(i as int), acts.deep_view().skip(base.len() as int)),
            decreases peers@.len() - i,
        {
            let ghost before = acts.deep_view();
            match self.update_logs(&peers[i]) {
                Ok(Some(msg)) => {
                    push_action(&mut *acts, Action::Send(msg));
                },
                Ok(None) => {},
                Err(e) => {
                    proof {
                        assert(!self.sent_length@.dom().contains(peers@[i as int]));
                    }
                    return Err(e);
                },
            }
            proof {
                let t = peers@.take(i as int + 1);
                assert(t.drop_last() =~= peers@.take(i as int));
                assert(t.last() == peers@[i as int]);
                assert(acts.deep_view().take(base.len() as int) =~= base);
                if self.sent_length@.dom().contains(peers@[i as int]) && self.sent_length@[peers@[
                    i as int
                ]] <= self.logs@.len() {
                    assert(acts.deep_view().skip(base.len() as int).drop_last() =~= before.skip(
                        base.len() as int,
                    ));
                }
            }
            i = i + 1;
        }
        proof {
            assert(peers@.take(peers@.len() as int) =~= peers@);
        }
        Ok(())
    }

    /// Sends a round of replication messages to every peer, as the timer
    /// asks of a leader; not a leader, it does nothing.
    pub fn send_heartbeat(&self, peers: &Vec<NodeId>) -> (r: Result<Vec<Action>, RaftError>)
        requires
            self.wf(),
        ensures
            self.role != Role::Leader ==> (r matches Ok(acts) && acts.deep_view()
                == Seq::<ActionV>::empty()),
            self.role == Role::Leader && all_sent_known(*self, peers@) ==> (r matches Ok(acts)
                && updates_post(*self, peers@, acts.deep_view())),
            self.role == Role::Leader && !all_sent_known(*self, peers@) ==> (r matches Err(e) && e
                == RaftError::Logic),
    {
        let mut acts: Vec<Action> = Vec::new();
        if self.role != Role::Leader {
            proof {
                assert(acts.deep_view() =~~= Seq::<ActionV>::empty());
            }
            return Ok(acts);
        }
        proof {
            assert(self.id is Some);
        }
        match self.push_updates(peers, &mut acts) {
            Ok(u) => {
                proof {
                    assert(acts.deep_view().skip(0) =~= acts.deep_view());
                }
                Ok(acts)
            },
            Err(e) => Err(e),
        }
    }
}

/// What winning enough votes does: a granted vote in the candidate's term
/// joins the tally; with a strict majority of the known peers the
/// candidate becomes leader, records every peer at the full log length
/// with nothing acknowledged, and sends each an immediate replication
/// message. A higher term steps the candidate down.
pub open spec fn vote_response_post(
    pre: RaftState,
    post: RaftState,
    vr: VoteResponse,
    peers: Seq<NodeId>,
    acts: Seq<ActionV>,
) -> bool {
    if pre.role == Role::Candidate && vr.current_term == pre.current_term && vr.ok {
        let votes1: Seq<NodeId> = if pre.votes_received@.contains(vr.node_id) {
            pre.votes_received@
        } else {
            pre.votes_received@.push(vr.node_id)
        };
        let win = votes1.len() >= spec_quorum(peers.len() as int);
        if win {
            &&& post.id == pre.id
            &&& post.current_term == pre.current_term
            &&& post.voted_for == pre.voted_for
            &&& post.logs@ == pre.logs@
            &&& post.commit_length == pre.commit_length
            &&& post.role == Role::Leader
            &&& post.current_leader == Some(pre.id->0)
            &&& post.votes_received@ == votes1
            &&& post.sent_length@ == insert_all(
                pre.sent_length@,
                peers,
                pre.logs@.len() as u64,
            )
            &&& post.acked_length@ == insert_all(pre.acked_length@, peers, 0)
            &&& post.last_term == pre.last_term
            &&& acts.len() == peers.len()
            &&& forall|j: int|
                0 <= j < peers.len() ==> is_send_to(
                    #[trigger] acts[j],
                    Some(peers[j]),
                    enc_log_request(log_request_view(post, pre.logs@.len() as u64)),
                    NetMsgMethod::LogRequest,
                )
        } else {
            &&& post.id == pre.id
            &&& post.current_term == pre.current_term
            &&& post.voted_for == pre.voted_for
            &&& post.logs@ == pre.logs@
            &&& post.commit_length == pre.commit_length
            &&& post.role == pre.role
            &&& post.current_leader == pre.current_leader
            &&& post.votes_received@ == votes1
            &&& post.sent_length@ == pre.sent_length@
            &&& post.acked_length@ == pre.acked_length@
            &&& post.last_term == pre.last_term
            &&& acts == Seq::<ActionV>::empty()
        }
    } else if vr.current_term > pre.current_term {
        &&& post.id == pre.id
        &&& post.current_term == vr.current_term
        &&& post.voted_for is None
        &&& post.logs@ == pre.logs@
        &&& post.commit_length == pre.commit_length
        &&& post.role == Role::Follower
        &&& post.current_leader == pre.current_leader
        &&& post.votes_received@ == pre.votes_received@
        &&& post.sent_length@ == pre.sent_length@
        &&& post.acked_length@ == pre.acked_length@
        &&& post.last_term == pre.last_term
        &&& acts == seq![
            ActionV::Store(StoreActionV::PutTerm(vr.current_term)),
            ActionV::Store(StoreActionV::PutVote(None)),
        ]
    } else {
        &&& same_core(pre, post)
        &&& acts == Seq::<ActionV>::empty()
    }
}

impl RaftState {
    /// Handles a vote response while campaigning.
    #[verifier::rlimit(100)]
    pub fn receive_vote_response(&mut self, vr: VoteResponse, peers: &Vec<NodeId>) -> (acts: Vec<
        Action,
    >)
        requires
            old(self).wf(),
        ensures
            final(self).wf(),
            final(self).commit_length >= old(self).commit_length,
            vote_response_post(*old(self), *final(self), vr, peers@, acts.deep_view()),
    {
        let ghost pre = *old(self);
        let mut acts: Vec<Action> = Vec::new();
        if self.role == Role::Candidate && vr.current_term == self.current_term && vr.ok {
            add_vote(&mut self.votes_received, vr.node_id);
            let min_votes = quorum(peers.len());
            if self.votes_received.len() as u64 >= min_votes {
                let me = match &self.id {
                    Some(n) => *n,
                    None => {
                        proof {
                            assert(false);
                        }
                        return acts;
                    },
                };
                self.role = Role::Leader;
                self.current_leader = Some(me);
                let log_len = self.logs.len();
                let ghost mid = *self;
                let mut i: usize = 0;
                while i < peers.len()
                    invariant
                        i <= peers@.len(),
                        self.id == mid.id,
                        self.current_term == mid.current_term,
                        self.voted_for == mid.voted_for,
                        self.vote_term == mid.vote_term,
                        self.logs@ == mid.logs@,
                        self.logs.0@.len() == mid.logs@.len(),
                        log_len == mid.logs@.len(),
                        self.commit_length == mid.commit_length,
                        self.role == mid.role,
                        self.role == Role::Leader,
                        self.id is Some,
                        self.current_leader == mid.current_leader,
                        self.votes_received == mid.votes_received,
                        self.last_term == mid.last_term,
                        self.sent_length.wf(),
                        self.acked_length.wf(),
                        mid.wf(),
                        self.sent_length@ == insert_all(
                            mid.sent_length@,
                            peers@.take(i as int),
                            log_len,
                        ),
                        self.acked_length@ == insert_all(mid.acked_length@, peers@.take(i as int), 0),
                        acts.deep_view().len() == i,
                        forall|j: int|
                            0 <= j < i ==> is_send_to(
                                #[trigger] acts.deep_view()[j],
                                Some(peers@[j]),
                                enc_log_request(log_request_view(mid, log_len)),
                                NetMsgMethod::LogRequest,
                            ),
                    decreases peers@.len() - i,
                {
                    let p = peers[i];
                    self.sent_length.insert(&p, log_len);
                    self.acked_length.insert(&p, 0);
                    proof {
                        let t = peers@.take(i as int + 1);
                        assert(t.drop_last() =~= peers@.take(i as int));
                        assert(t.last() == peers@[i as int]);
                    }
                    match self.update_logs(&p) {
                        Ok(Some(msg)) => {
                            proof {
                                assert(log_request_view(*self, log_len) =~~= log_request_view(
                                    mid,
                                    log_len,
                                ));
                            }
                            push_action(&mut acts, Action::Send(msg));
                        },
                        Ok(None) => {
                            proof {
                                assert(false);
                            }
                        },
                        Err(e) => {
                            proof {
                                assert(false);
                            }
                        },
                    }
                    i = i + 1;
                }
                proof {
                    assert(peers@.take(peers@.len() as int) =~= peers@);
                    assert(log_request_view(*self, log_len) =~~= log_request_view(mid, log_len));
                }
            }
            proof {
                if self.votes_received@.len() < spec_quorum(peers@.len() as int) {
                    assert(acts.deep_view() =~~= Seq::<ActionV>::empty());
                }
                assert(vote_response_post(pre, *self, vr, peers@, acts.deep_view()));
            }
        } else if vr.current_term > self.current_term {
            self.current_term = vr.current_term;
            push_action(&mut acts, Action::Store(StoreAction::PutTerm(self.current_term)));
            self.role = Role::Follower;
            self.voted_for = None;
            push_action(&mut acts, Action::Store(StoreAction::PutVote(None)));
            proof {
                assert(acts.deep_view() =~~= seq![
                    ActionV::Store(StoreActionV::PutTerm(vr.current_term)),
                    ActionV::Store(StoreActionV::PutVote(None)),
                ]);
            }
        } else {
            proof {
                assert(acts.deep_view() =~~= Seq::<ActionV>::empty());
            }
        }
        acts
    }
}

/// What submitting a payload does: the leader appends it to its own log at
/// the current term (persisted), counts itself as acknowledged, and sends
/// a replication round; everyone else wraps the payload and forwards it
/// towards the current leader, broadcast when no leader is known.
pub open spec fn broadcast_post(
    pre: RaftState,
    post: RaftState,
    payload: Seq<u8>,
    peers: Seq<NodeId>,
    r: Result<Vec<Action>, RaftError>,
) -> bool {
    if pre.role == Role::Leader {
        let entry = LogV { term: pre.current_term, msg: payload };
        let log1 = pre.logs@.push(entry);
        &&& post.id == pre.id
        &&& post.current_term == pre.current_term
        &&& post.voted_for == pre.voted_for
        &&& post.logs@ == log1
        &&& post.commit_length == pre.commit_length
        &&& post.role == pre.role
        &&& post.current_leader == pre.current_leader
        &&& post.votes_received@ == pre.votes_received@
        &&& post.sent_length@ == pre.sent_length@
        &&& post.acked_length@ == pre.acked_length@.insert(pre.id->0, log1.len() as u64)
        &&& post.last_term == pre.last_term
        &&& (all_sent_known(post, peers) ==> (r matches Ok(acts) && acts.deep_view().len() >= 1
            && acts.deep_view()[0] == ActionV::Store(StoreActionV::AppendLog(entry))
            && updates_post(post, peers, acts.deep_view().skip(1))))
        &&& (!all_sent_known(post, peers) ==> (r matches Err(e) && e == RaftError::Logic))
    } else {
        &&& same_core(pre, post)
        &&& r matches Ok(acts) && acts.deep_view().len() == 1 && is_send_to(
            acts.deep_view()[0],
            pre.current_leader,
            enc_broadcast_request(payload),
            NetMsgMethod::BroadcastRequest,
        )
    }
}

impl RaftState {
    /// Offers a payload for replication.
    pub fn broadcast_msg(&mut self, payload: &Vec<u8>, peers: &Vec<NodeId>) -> (r: Result<
        Vec<Action>,
        RaftError,
    >)
        requires
            old(self).wf(),
        ensures
            final(self).wf(),
            final(self).commit_length >= old(self).commit_length,
            broadcast_post(*old(self), *final(self), payload@, peers@, r),
    {
        let mut acts: Vec<Action> = Vec::new();
        if self.role == Role::Leader {
            let me = match &self.id {
                Some(n) => *n,
                None => {
                    proof {
                        assert(false);
                    }
                    return Err(RaftError::Logic);
                },
            };
            let entry = Log { term: self.current_term, msg: clone_bytes(payload) };
            self.logs.push(&entry);
            push_action(&mut acts, Action::Store(StoreAction::AppendLog(entry)));
            let ghost first = acts.deep_view();
            proof {
                assert(first[0] == ActionV::Store(
                    StoreActionV::AppendLog(LogV { term: old(self).current_term, msg: payload@ }),
                ));
            }
            let len = self.logs.len();
            self.acked_length.insert(&me, len);
            match self.push_updates(peers, &mut acts) {
                Ok(u) => {
                    proof {
                        assert(acts.deep_view().take(1int) == first);
                        assert(acts.deep_view().take(1int)[0] == acts.deep_view()[0]);
                        assert(acts.deep_view()[0] == ActionV::Store(
                            StoreActionV::AppendLog(
                                LogV { term: old(self).current_term, msg: payload@ },
                            ),
                        ));
                    }
                    Ok(acts)
                },
                Err(e) => Err(e),
            }
        } else {
            let request = BroadcastMsgRequest(clone_bytes(payload));
            let body = encode_broadcast_request(&request);
            let leader = self.current_leader;
            push_send(&mut acts, leader, body, NetMsgMethod::BroadcastRequest);
            proof {
                assert(acts.deep_view()[0] == acts.deep_view().last());
            }
            Ok(acts)
        }
    }
}


// ---------------------------------------------------------------------------
// the inbound message router
// ---------------------------------------------------------------------------

/// What handling one typed inbound message does, per method: the body is
/// decoded with the codec of that method and handed to the matching step;
/// a malformed body is a `Decode` error and changes nothing.
pub open spec fn handle_post(
    pre: RaftState,
    post: RaftState,
    msg: NetMsgV,
    peers: Seq<NodeId>,
    r: Result<Vec<Action>, RaftError>,
) -> bool {
    match msg.method {
        NetMsgMethod::VoteRequest => match dec_vote_request(msg.payload) {
            Some(vr) => r matches Ok(acts) && vote_request_post(pre, post, vr, acts.deep_view()),
            None => same_core(pre, post) && (r matches Err(e) && e == RaftError::Decode),
        },
        NetMsgMethod::VoteResponse => match dec_vote_response(msg.payload) {
            Some(vr) => r matches Ok(acts) && vote_response_post(
                pre,
                post,
                vr,
                peers,
                acts.deep_view(),
            ),
            None => same_core(pre, post) && (r matches Err(e) && e == RaftError::Decode),
        },
        NetMsgMethod::LogRequest => match dec_log_request(msg.payload) {
            Some(lr) => r matches Ok(acts) && log_request_post(pre, post, lr, acts.deep_view()),
            None => same_core(pre, post) && (r matches Err(e) && e == RaftError::Decode),
        },
        NetMsgMethod::LogResponse => match dec_log_response(msg.payload) {
            Some(lr) => log_response_post(pre, post, lr, peers, r),
            None => same_core(pre, post) && (r matches Err(e) && e == RaftError::Decode),
        },
        NetMsgMethod::BroadcastRequest => match dec_broadcast_request(msg.payload) {
            Some(p) => broadcast_post(pre, post, p, peers, r),
            None => same_core(pre, post) && (r matches Err(e) && e == RaftError::Decode),
        },
    }
}

impl RaftState {
    /// Routes one inbound message to the step its method names.
    pub fn handle_net_msg(&mut self, msg: &NetMsg, peers: &Vec<NodeId>) -> (r: Result<
        Vec<Action>,
        RaftError,
    >)
        requires
            old(self).wf(),
        ensures
            final(self).wf(),
            final(self).commit_length >= old(self).commit_length,
            handle_post(*old(self), *final(self), msg@, peers@, r),
    {
        match msg.method {
            NetMsgMethod::VoteRequest => {
                let vr = match decode_vote_request(&msg.payload) {
                    Ok(v) => v,
                    Err(e) => {
                        return Err(e);
                    },
                };
                Ok(self.receive_vote_request(vr))
            },
            NetMsgMethod::VoteResponse => {
                let vr = match decode_vote_response(&msg.payload) {
                    Ok(v) => v,
                    Err(e) => {
                        return Err(e);
                    },
                };
                Ok(self.receive_vote_response(vr, peers))
            },
            NetMsgMethod::LogRequest => {
                let lr = match decode_log_request(&msg.payload) {
                    Ok(v) => v,
                    Err(e) => {
                        return Err(e);
                    },
                };
                Ok(self.receive_log_request(&lr))
            },
            NetMsgMethod::LogResponse => {
                let lr = match decode_log_response(&msg.payload) {
                    Ok(v) => v,
                    Err(e) => {
                        return Err(e);
                    },
                };
                self.receive_log_response(lr, peers)
            },
            NetMsgMethod::BroadcastRequest => {
                let body = match decode_broadcast_request(&msg.payload) {
                    Ok(v) => v,
                    Err(e) => {
                        return Err(e);
                    },
                };
                self.broadcast_msg(&body.0, peers)
            },
        }
    }
}

} // verus!
