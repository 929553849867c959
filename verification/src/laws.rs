//! Election safety: two quorums over the same peer set share a voter, and
//! a voter grants one candidate per term, so a term has at most one leader.
//!
//! The per-voter discipline these lemmas rest on is what the state machine
//! proves elsewhere: a vote is granted only when `voted_for` is unset or
//! already names the candidate (`vote_request_post`), and `voted_for` can
//! only have been assigned in the current term (`RaftState::wf`).

use vstd::prelude::*;

use crate::state::{append_base, append_result, commit_log_post, max_ready, spec_count_acked, spec_quorum, truncate_needed, RaftState};
use crate::types::{ActionV, LogV, NodeId};
use vstd::set_lib::lemma_len_subset;

verus! {

/// Two disjoint finite sets together have the sum of their sizes.
pub proof fn lemma_disjoint_union_len(a: Set<NodeId>, b: Set<NodeId>)
    requires
        a.finite(),
        b.finite(),
        a.intersect(b) == Set::<NodeId>::empty(),
    ensures
        a.union(b).len() == a.len() + b.len(),
    decreases a.len(),
{
    if a.is_empty() {
        assert(a.union(b) =~= b);
    } else {
        let x = a.choose();
        assert(a.contains(x));
        assert(!b.contains(x)) by {
            if b.contains(x) {
                assert(a.intersect(b).contains(x));
            }
        }
        assert(a.remove(x).intersect(b) =~= Set::<NodeId>::empty());
        lemma_disjoint_union_len(a.remove(x), b);
        assert(a.union(b).remove(x) =~= a.remove(x).union(b));
        assert(a.union(b).contains(x));
        assert(a.union(b).len() == a.union(b).remove(x).len() + 1);
    }
}

/// Two quorums over one finite peer set always share a member: each holds
/// a strict majority, so together they outnumber the peers.
pub proof fn lemma_quorum_overlap(peers: Set<NodeId>, a: Set<NodeId>, b: Set<NodeId>)
    requires
        peers.finite(),
        a.subset_of(peers),
        b.subset_of(peers),
        a.len() >= spec_quorum(peers.len() as int),
        b.len() >= spec_quorum(peers.len() as int),
    ensures
        exists|x: NodeId| a.contains(x) && b.contains(x),
{
    lemma_len_subset(a, peers);
    lemma_len_subset(b, peers);
    if !(exists|x: NodeId| a.contains(x) && b.contains(x)) {
        assert(a.intersect(b) =~= Set::<NodeId>::empty());
        lemma_disjoint_union_len(a, b);
        lemma_len_subset(a.union(b), peers);
        let n = peers.len() as int;
        assert(a.len() + b.len() >= 2 * (n / 2) + 2);
        assert(2 * (n / 2) + 2 > n);
        assert(false);
    }
}

/// At most one replica enters `Leader` for a term: becoming leader takes a
/// quorum of granted votes in that term, and `votes` records the single
/// candidate each voter granted its vote to in the term, so two winners
/// would share a voter and hence be the same replica.
pub proof fn lemma_election_safety(
    peers: Set<NodeId>,
    votes: Map<NodeId, NodeId>,
    a: NodeId,
    b: NodeId,
    voters_a: Set<NodeId>,
    voters_b: Set<NodeId>,
)
    requires
        peers.finite(),
        voters_a.subset_of(peers),
        voters_b.subset_of(peers),
        voters_a.len() >= spec_quorum(peers.len() as int),
        voters_b.len() >= spec_quorum(peers.len() as int),
        forall|n: NodeId| voters_a.contains(n) ==> #[trigger] votes[n] == a,
        forall|n: NodeId| voters_b.contains(n) ==> #[trigger] votes[n] == b,
    ensures
        a == b,
{
    lemma_quorum_overlap(peers, voters_a, voters_b);
    let x = choose|x: NodeId| voters_a.contains(x) && voters_b.contains(x);
    assert(votes[x] == a);
    assert(votes[x] == b);
}

/// A positive `max_ready` names a prefix length that really is
/// quorum-acknowledged, and it never exceeds the bound it was searched
/// under.
pub proof fn lemma_max_ready_is_ready(
    peers: Seq<NodeId>,
    acked: Map<NodeId, u64>,
    q: int,
    l: int,
)
    requires
        0 <= l,
    ensures
        0 <= max_ready(peers, acked, q, l) <= l,
        max_ready(peers, acked, q, l) > 0 ==> spec_count_acked(
            peers,
            acked,
            max_ready(peers, acked, q, l) as u64,
        ) >= q,
    decreases l,
{
    if l > 0 && !(spec_count_acked(peers, acked, l as u64) >= q) {
        lemma_max_ready_is_ready(peers, acked, q, l - 1);
    }
}

/// The machine's own half of committed-log agreement: whenever commit
/// advancement moves the commit length, the new length is acknowledged by
/// a quorum of the peers, so the supporters of any two committed prefixes
/// overlap (`lemma_quorum_overlap`).
pub proof fn lemma_commit_is_quorum_acked(
    pre: RaftState,
    post: RaftState,
    peers: Seq<NodeId>,
    acts: Seq<ActionV>,
)
    requires
        commit_log_post(pre, post, peers, acts),
        post.commit_length > pre.commit_length,
    ensures
        spec_count_acked(peers, pre.acked_length@, post.commit_length) >= spec_quorum(
            peers.len() as int,
        ),
{
    let q = spec_quorum(peers.len() as int);
    lemma_max_ready_is_ready(peers, pre.acked_length@, q, pre.logs@.len() as int);
}


/// The follower-side half of log matching: an accepted append never
/// rewrites the prefix the leader's message matched on, and everything it
/// stores past the kept entries is exactly the leader's suffix.
pub proof fn lemma_append_preserves_prefix(log: Seq<LogV>, prefix_len: int, suffix: Seq<LogV>)
    requires
        0 <= prefix_len <= log.len(),
    ensures
        ({
            let base = append_base(log, prefix_len, suffix);
            let r = append_result(log, prefix_len, suffix);
            &&& r.take(prefix_len) == log.take(prefix_len)
            &&& r.len() == (if prefix_len + suffix.len() > base.len() {
                prefix_len + suffix.len()
            } else {
                base.len() as int
            })
            &&& forall|i: int| base.len() <= i < r.len() ==> r[i] == suffix[i - prefix_len]
        }),
{
    let base = append_base(log, prefix_len, suffix);
    let r = append_result(log, prefix_len, suffix);
    assert(base.len() >= prefix_len) by {
        if truncate_needed(log, prefix_len, suffix) {
            assert(base == log.take(prefix_len));
        }
    }
    assert forall|i: int| 0 <= i < prefix_len implies r[i] == log[i] by {
        assert(base[i] == log[i]);
        if prefix_len + suffix.len() > base.len() {
            assert(r[i] == (base + suffix.skip(base.len() - prefix_len))[i]);
        }
    }
    assert(r.take(prefix_len) =~= log.take(prefix_len));
    if prefix_len + suffix.len() > base.len() {
        assert forall|i: int| base.len() <= i < r.len() implies r[i] == suffix[
            i - prefix_len
        ] by {
            assert(r[i] == suffix.skip(base.len() - prefix_len)[i - base.len()]);
        }
    }
}

} // verus!
