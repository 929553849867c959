//! End-to-end scenarios driven through the state machine and the codec: a
//! small in-memory cluster where every send is routed back in through
//! `handle_net_msg`.

use std::collections::VecDeque;

use raftlog::store::empty_store;
use raftlog::{
    Action, Log, LogRequest, NetMsg, NodeId, RaftState, Role, VoteRequest,
};
use raftlog::codec::decode_vote_response;

/// Node at index `i` has id `i + 1`; its registry holds every other node.
fn peers_of(n: usize, me: usize) -> Vec<NodeId> {
    (0..n).filter(|j| *j != me).map(|j| NodeId { id: j as u64 + 1 }).collect()
}

fn target_indices(n: usize, sender: usize, recipient: &Option<NodeId>) -> Vec<usize> {
    match recipient {
        Some(node) => {
            let idx = (node.id - 1) as usize;
            if idx < n { vec![idx] } else { vec![] }
        }
        None => (0..n).filter(|j| *j != sender).collect(),
    }
}

/// Performs a batch of actions for `sender` and then keeps delivering the
/// resulting messages until the cluster goes quiet.
fn pump(nodes: &mut Vec<RaftState>, commits: &mut Vec<Vec<Vec<u8>>>, sender: usize, acts: Vec<Action>) {
    let n = nodes.len();
    let mut queue: VecDeque<(usize, NetMsg)> = VecDeque::new();
    let mut absorb = |from: usize, acts: Vec<Action>, queue: &mut VecDeque<(usize, NetMsg)>, commits: &mut Vec<Vec<Vec<u8>>>| {
        for act in acts {
            match act {
                Action::Store(_) => {}
                Action::Deliver(p) => commits[from].push(p),
                Action::Send(msg) => {
                    for t in target_indices(n, from, &msg.recipient_id) {
                        let copy = NetMsg {
                            id: msg.id,
                            recipient_id: msg.recipient_id,
                            payload: msg.payload.clone(),
                            method: msg.method,
                        };
                        queue.push_back((t, copy));
                    }
                }
            }
        }
    };
    absorb(sender, acts, &mut queue, commits);
    let mut steps = 0;
    while let Some((t, msg)) = queue.pop_front() {
        steps += 1;
        assert!(steps < 10_000, "cluster did not go quiet");
        let peers = peers_of(n, t);
        match nodes[t].handle_net_msg(&msg, &peers) {
            Ok(acts) => absorb(t, acts, &mut queue, commits),
            Err(_) => {}
        }
    }
}

fn fresh_cluster(n: usize) -> (Vec<RaftState>, Vec<Vec<Vec<u8>>>) {
    let nodes = (0..n)
        .map(|i| RaftState::new(Some(NodeId { id: i as u64 + 1 }), &empty_store()).unwrap())
        .collect();
    (nodes, vec![Vec::new(); n])
}

#[test]
fn single_leader_commit() {
    // Three peers; the first wins the election at term 1, a client submits
    // 0xAA there, and every replica emits it with commit length 1.
    let (mut nodes, mut commits) = fresh_cluster(3);
    let acts = nodes[0].send_vote_request();
    pump(&mut nodes, &mut commits, 0, acts);
    assert_eq!(nodes[0].role, Role::Leader);
    assert_eq!(nodes[0].current_term, 1);

    let peers = peers_of(3, 0);
    let acts = nodes[0].broadcast_msg(&vec![0xaa], &peers).unwrap();
    pump(&mut nodes, &mut commits, 0, acts);
    let acts = nodes[0].send_heartbeat(&peers).unwrap();
    pump(&mut nodes, &mut commits, 0, acts);

    for i in 0..3 {
        assert_eq!(commits[i], vec![vec![0xaa]], "node {} commits", i);
        assert_eq!(nodes[i].commit_length, 1, "node {} commit length", i);
    }
}

#[test]
fn follower_backfill() {
    // The leader holds three entries of term 2 committed; an empty follower
    // joins, the send index walks back until the prefixes match, and the
    // whole log is shipped and committed in order.
    let mut store_a = empty_store();
    store_a.current_term = 1;
    store_a.logs.0 = vec![
        Log { term: 2, msg: vec![0x01] },
        Log { term: 2, msg: vec![0x02] },
        Log { term: 2, msg: vec![0x03] },
    ];
    store_a.commit_length = 3;
    let mut nodes = vec![
        RaftState::new(Some(NodeId { id: 1 }), &store_a).unwrap(),
        RaftState::new(Some(NodeId { id: 2 }), &empty_store()).unwrap(),
    ];
    let mut commits = vec![Vec::new(), Vec::new()];

    let acts = nodes[0].send_vote_request();
    pump(&mut nodes, &mut commits, 0, acts);
    assert_eq!(nodes[0].role, Role::Leader);
    assert_eq!(nodes[0].current_term, 2);

    let peers = peers_of(2, 0);
    let acts = nodes[0].send_heartbeat(&peers).unwrap();
    pump(&mut nodes, &mut commits, 0, acts);

    assert_eq!(nodes[1].logs.len(), 3);
    for i in 0..3u64 {
        assert_eq!(nodes[1].logs.get(i).unwrap(), nodes[0].logs.get(i).unwrap());
    }
    assert_eq!(commits[1], vec![vec![0x01], vec![0x02], vec![0x03]]);
    assert_eq!(nodes[1].commit_length, 3);
}

#[test]
fn conflicting_suffix_truncation() {
    // A follower with a stale suffix truncates it and takes the leader's.
    let mut store_b = empty_store();
    store_b.current_term = 1;
    store_b.logs.0 = vec![
        Log { term: 1, msg: vec![0x01] },
        Log { term: 1, msg: vec![0x99] },
    ];
    let mut b = RaftState::new(Some(NodeId { id: 2 }), &store_b).unwrap();
    let lr = LogRequest {
        leader_id: NodeId { id: 1 },
        current_term: 2,
        prefix_len: 1,
        prefix_term: 1,
        commit_length: 0,
        suffix: vec![Log { term: 2, msg: vec![0x02] }],
    };
    let acts = b.receive_log_request(&lr);
    assert_eq!(b.logs.len(), 2);
    assert_eq!(b.logs.get(0).unwrap(), Log { term: 1, msg: vec![0x01] });
    assert_eq!(b.logs.get(1).unwrap(), Log { term: 2, msg: vec![0x02] });
    let mut replies = 0;
    for act in &acts {
        if let Action::Send(msg) = act {
            replies += 1;
            assert_eq!(msg.recipient_id, Some(NodeId { id: 1 }));
            let resp = raftlog::codec::decode_log_response(&msg.payload).unwrap();
            assert!(resp.ok);
            assert_eq!(resp.ack, 2);
            assert_eq!(resp.current_term, 2);
        }
    }
    assert_eq!(replies, 1);
}

#[test]
fn split_vote_then_reelection() {
    // Two candidates split the cluster at term 1 (the third replica's
    // answers are lost); on the next timeout one of them wins term 2, and
    // no term ever sees two leaders.
    let (mut nodes, mut commits) = fresh_cluster(3);
    let acts_a = nodes[0].send_vote_request();
    let acts_b = nodes[1].send_vote_request();
    assert_eq!(nodes[0].current_term, 1);
    assert_eq!(nodes[1].current_term, 1);

    // Deliver only the candidates' requests to each other; both deny.
    let take_broadcast = |acts: Vec<Action>| -> NetMsg {
        for act in acts {
            if let Action::Send(msg) = act {
                return msg;
            }
        }
        panic!("no send in election actions");
    };
    let req_a = take_broadcast(acts_a);
    let req_b = take_broadcast(acts_b);
    let reply_b = nodes[1].handle_net_msg(&req_a, &peers_of(3, 1)).unwrap();
    let reply_a = nodes[0].handle_net_msg(&req_b, &peers_of(3, 0)).unwrap();
    for (target, reply) in [(0usize, reply_b), (1usize, reply_a)] {
        for act in reply {
            if let Action::Send(msg) = act {
                let vr = decode_vote_response(&msg.payload).unwrap();
                assert!(!vr.ok, "a self-voted candidate must deny its rival");
                let acts = nodes[target].handle_net_msg(&msg, &peers_of(3, target)).unwrap();
                assert!(acts.is_empty());
            }
        }
    }
    assert_ne!(nodes[0].role, Role::Leader);
    assert_ne!(nodes[1].role, Role::Leader);

    // Next staggered timeout: the first candidate runs again and wins.
    let acts = nodes[0].send_vote_request();
    pump(&mut nodes, &mut commits, 0, acts);
    assert_eq!(nodes[0].current_term, 2);
    assert_eq!(nodes[0].role, Role::Leader);
    assert_ne!(nodes[1].role, Role::Leader);
    assert_ne!(nodes[2].role, Role::Leader);
}

#[test]
fn higher_term_step_down() {
    // A leader at term 3 sees a vote request of term 5: it adopts the term,
    // clears its vote, follows, and its next message carries term 5.
    let mut store_a = empty_store();
    store_a.current_term = 2;
    let mut nodes = vec![
        RaftState::new(Some(NodeId { id: 1 }), &store_a).unwrap(),
        RaftState::new(Some(NodeId { id: 2 }), &empty_store()).unwrap(),
    ];
    let mut commits = vec![Vec::new(), Vec::new()];
    let acts = nodes[0].send_vote_request();
    pump(&mut nodes, &mut commits, 0, acts);
    assert_eq!(nodes[0].role, Role::Leader);
    assert_eq!(nodes[0].current_term, 3);

    let vr = VoteRequest {
        node_id: NodeId { id: 9 },
        current_term: 5,
        log_length: 10,
        last_term: 4,
    };
    let acts = nodes[0].receive_vote_request(vr);
    assert_eq!(nodes[0].current_term, 5);
    assert_eq!(nodes[0].role, Role::Follower);
    assert_eq!(nodes[0].voted_for, Some(NodeId { id: 9 }));
    let mut sends = 0;
    for act in &acts {
        if let Action::Send(msg) = act {
            sends += 1;
            let resp = decode_vote_response(&msg.payload).unwrap();
            assert_eq!(resp.current_term, 5);
            assert!(resp.ok);
        }
    }
    assert_eq!(sends, 1);
}

#[test]
fn vote_is_kept_within_a_term() {
    // Once granted, the vote stays with that candidate for the term; a
    // rival with an equal log is denied.
    let mut a = RaftState::new(Some(NodeId { id: 1 }), &empty_store()).unwrap();
    let grant = a.receive_vote_request(VoteRequest {
        node_id: NodeId { id: 2 },
        current_term: 1,
        log_length: 0,
        last_term: 0,
    });
    assert_eq!(a.voted_for, Some(NodeId { id: 2 }));
    drop(grant);
    let acts = a.receive_vote_request(VoteRequest {
        node_id: NodeId { id: 3 },
        current_term: 1,
        log_length: 0,
        last_term: 0,
    });
    assert_eq!(a.voted_for, Some(NodeId { id: 2 }));
    let mut denied = false;
    for act in &acts {
        if let Action::Send(msg) = act {
            let resp = decode_vote_response(&msg.payload).unwrap();
            assert!(!resp.ok);
            denied = true;
        }
    }
    assert!(denied);
}

#[test]
fn listener_propagates_but_never_votes_or_acks() {
    // A listener replicates entries but answers nothing, and elections
    // proceed among the identified peers as if it did not exist.
    let mut l = RaftState::new(None, &empty_store()).unwrap();
    assert!(l.send_vote_request().is_empty());
    assert!(l.receive_vote_request(VoteRequest {
        node_id: NodeId { id: 1 },
        current_term: 1,
        log_length: 0,
        last_term: 0,
    }).is_empty());

    let lr = LogRequest {
        leader_id: NodeId { id: 1 },
        current_term: 1,
        prefix_len: 0,
        prefix_term: 0,
        commit_length: 1,
        suffix: vec![Log { term: 1, msg: vec![0xaa] }],
    };
    let acts = l.receive_log_request(&lr);
    assert_eq!(l.logs.len(), 1);
    assert_eq!(l.commit_length, 1);
    for act in &acts {
        assert!(!matches!(act, Action::Send(_)), "a listener never replies");
    }
    assert!(acts.iter().any(|a| matches!(a, Action::Deliver(p) if p == &vec![0xaa])));

    // The trio elects and commits exactly as without the listener.
    let (mut nodes, mut commits) = fresh_cluster(3);
    let acts = nodes[0].send_vote_request();
    pump(&mut nodes, &mut commits, 0, acts);
    assert_eq!(nodes[0].role, Role::Leader);
}

#[test]
fn commit_length_is_monotone_through_steps() {
    let (mut nodes, mut commits) = fresh_cluster(3);
    let mut last = vec![0u64; 3];
    let check = |nodes: &Vec<RaftState>, last: &mut Vec<u64>| {
        for i in 0..3 {
            assert!(nodes[i].commit_length >= last[i]);
            last[i] = nodes[i].commit_length;
        }
    };
    let acts = nodes[0].send_vote_request();
    pump(&mut nodes, &mut commits, 0, acts);
    check(&nodes, &mut last);
    let peers = peers_of(3, 0);
    for payload in [vec![0x01], vec![0x02]] {
        let acts = nodes[0].broadcast_msg(&payload, &peers).unwrap();
        pump(&mut nodes, &mut commits, 0, acts);
        check(&nodes, &mut last);
        let acts = nodes[0].send_heartbeat(&peers).unwrap();
        pump(&mut nodes, &mut commits, 0, acts);
        check(&nodes, &mut last);
    }
    // Committed prefixes agree pairwise on every replica.
    for i in 0..3 {
        for j in 0..3 {
            let common = nodes[i].commit_length.min(nodes[j].commit_length);
            for k in 0..common {
                assert_eq!(nodes[i].logs.get(k).unwrap(), nodes[j].logs.get(k).unwrap());
            }
        }
    }
}

#[test]
fn follower_forwards_submissions_to_the_leader() {
    let (mut nodes, mut commits) = fresh_cluster(3);
    let acts = nodes[0].send_vote_request();
    pump(&mut nodes, &mut commits, 0, acts);
    assert_eq!(nodes[0].role, Role::Leader);
    // Submit at a follower: it wraps the payload and the leader picks it up.
    let peers = peers_of(3, 1);
    let acts = nodes[1].broadcast_msg(&vec![0xbb], &peers).unwrap();
    pump(&mut nodes, &mut commits, 1, acts);
    let peers = peers_of(3, 0);
    let acts = nodes[0].send_heartbeat(&peers).unwrap();
    pump(&mut nodes, &mut commits, 0, acts);
    for i in 0..3 {
        assert_eq!(commits[i], vec![vec![0xbb]]);
    }
}

#[test]
fn malformed_inbound_is_a_decode_error() {
    let (mut nodes, _commits) = fresh_cluster(1);
    let before_term = nodes[0].current_term;
    let msg = NetMsg {
        id: 1,
        recipient_id: None,
        payload: vec![1, 2, 3],
        method: raftlog::NetMsgMethod::VoteRequest,
    };
    let r = nodes[0].handle_net_msg(&msg, &vec![]);
    assert_eq!(r.err(), Some(raftlog::RaftError::Decode));
    assert_eq!(nodes[0].current_term, before_term);
}

#[test]
fn acknowledgement_from_unknown_peer_is_a_logic_error() {
    let (mut nodes, mut commits) = fresh_cluster(3);
    let acts = nodes[0].send_vote_request();
    pump(&mut nodes, &mut commits, 0, acts);
    assert_eq!(nodes[0].role, Role::Leader);
    let stray = raftlog::LogResponse {
        node_id: NodeId { id: 99 },
        current_term: nodes[0].current_term,
        ack: 0,
        ok: true,
    };
    let r = nodes[0].receive_log_response(stray, &peers_of(3, 0));
    assert_eq!(r.err(), Some(raftlog::RaftError::Logic));
}
