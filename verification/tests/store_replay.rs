//! The durable store: records replay to the values last written, and a
//! restarted replica sees exactly the persisted durable fields.

use raftlog::store::{empty_store, encode_store_action, load_store};
use raftlog::{Log, NodeId, RaftError, RaftState, Role, StoreAction};

fn record_stream(actions: Vec<StoreAction>) -> Vec<u8> {
    let mut bytes = Vec::new();
    for a in &actions {
        bytes.extend_from_slice(&encode_store_action(a));
    }
    bytes
}

#[test]
fn empty_stream_loads_defaults() {
    let d = load_store(&vec![]).unwrap();
    assert_eq!(d.current_term, 0);
    assert_eq!(d.voted_for, None);
    assert_eq!(d.logs.len(), 0);
    assert_eq!(d.commit_length, 0);
    assert!(d.commits.is_empty());
}

#[test]
fn last_write_wins_and_appends_accumulate() {
    let bytes = record_stream(vec![
        StoreAction::PutTerm(1),
        StoreAction::PutVote(Some(NodeId { id: 3 })),
        StoreAction::AppendLog(Log { term: 1, msg: vec![0x01] }),
        StoreAction::AppendLog(Log { term: 1, msg: vec![0x02] }),
        StoreAction::PutTerm(2),
        StoreAction::PutVote(None),
        StoreAction::PutCommitLength(1),
        StoreAction::AppendCommit(vec![0x01]),
    ]);
    let d = load_store(&bytes).unwrap();
    assert_eq!(d.current_term, 2);
    assert_eq!(d.voted_for, None);
    assert_eq!(d.logs.len(), 2);
    assert_eq!(d.logs.get(0).unwrap(), Log { term: 1, msg: vec![0x01] });
    assert_eq!(d.logs.get(1).unwrap(), Log { term: 1, msg: vec![0x02] });
    assert_eq!(d.commit_length, 1);
    assert_eq!(d.commits, vec![vec![0x01]]);
}

#[test]
fn replace_log_wipes_and_reinserts() {
    let bytes = record_stream(vec![
        StoreAction::AppendLog(Log { term: 1, msg: vec![0x01] }),
        StoreAction::AppendLog(Log { term: 1, msg: vec![0x99] }),
        StoreAction::ReplaceLog(vec![Log { term: 1, msg: vec![0x01] }]),
        StoreAction::AppendLog(Log { term: 2, msg: vec![0x02] }),
    ]);
    let d = load_store(&bytes).unwrap();
    assert_eq!(d.logs.len(), 2);
    assert_eq!(d.logs.get(0).unwrap(), Log { term: 1, msg: vec![0x01] });
    assert_eq!(d.logs.get(1).unwrap(), Log { term: 2, msg: vec![0x02] });
}

#[test]
fn corrupt_stream_is_a_decode_error() {
    let mut bytes = record_stream(vec![StoreAction::PutTerm(5)]);
    bytes.pop();
    assert_eq!(load_store(&bytes).err(), Some(RaftError::Decode));
    let bad_tag = vec![0xffu8];
    assert_eq!(load_store(&bad_tag).err(), Some(RaftError::Decode));
}

#[test]
fn restart_sees_last_persisted_state() {
    // A replica persists term, vote, log and commit length; a fresh replica
    // built from the loaded store starts from exactly those values.
    let bytes = record_stream(vec![
        StoreAction::PutTerm(4),
        StoreAction::PutVote(Some(NodeId { id: 2 })),
        StoreAction::AppendLog(Log { term: 3, msg: vec![0xaa] }),
        StoreAction::AppendLog(Log { term: 4, msg: vec![0xbb] }),
        StoreAction::PutCommitLength(2),
        StoreAction::AppendCommit(vec![0xaa]),
        StoreAction::AppendCommit(vec![0xbb]),
    ]);
    let d = load_store(&bytes).unwrap();
    let s = RaftState::new(Some(NodeId { id: 1 }), &d).unwrap();
    assert_eq!(s.current_term, 4);
    assert_eq!(s.voted_for, Some(NodeId { id: 2 }));
    assert_eq!(s.logs.len(), 2);
    assert_eq!(s.logs.get(1).unwrap(), Log { term: 4, msg: vec![0xbb] });
    assert_eq!(s.commit_length, 2);
    assert_eq!(s.role, Role::Follower);
}

#[test]
fn inconsistent_image_is_rejected() {
    let mut d = empty_store();
    d.commit_length = 3;
    assert_eq!(RaftState::new(None, &d).err(), Some(RaftError::Decode));
}
