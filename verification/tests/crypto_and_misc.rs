//! The crypto helpers, the quorum rule, the timers, and the small
//! containers.

use raftlog::crypto::{
    base_from_u64, hash_to_scalar, i2lebsp, mod_r_p, pedersen_commitment_scalar,
    pedersen_commitment_u64,
};
use raftlog::rng::random_below;
use raftlog::state::quorum;
use raftlog::store::empty_store;
use raftlog::{Log, Logs, MapLength, NodeId, RaftError, RaftState, Role};

#[test]
fn quorum_is_a_strict_majority() {
    assert_eq!(quorum(0), 1);
    assert_eq!(quorum(1), 1);
    assert_eq!(quorum(2), 2);
    assert_eq!(quorum(3), 2);
    assert_eq!(quorum(4), 3);
    assert_eq!(quorum(5), 3);
}

#[test]
fn timeouts_follow_the_role() {
    let mut s = RaftState::new(Some(NodeId { id: 1 }), &empty_store()).unwrap();
    assert_eq!(s.next_timeout(57), 357);
    s.role = Role::Leader;
    assert_eq!(s.next_timeout(57), 100);
}

#[test]
fn jitter_stays_below_its_bound() {
    for _ in 0..64 {
        assert!(random_below(200) < 200);
    }
}

#[test]
fn i2lebsp_gives_little_endian_bits() {
    assert_eq!(i2lebsp(8, 6), vec![false, true, true, false, false, false, false, false]);
    let top = i2lebsp(64, 1u64 << 63);
    assert!(top[63]);
    assert!(top[..63].iter().all(|b| !b));
    assert_eq!(i2lebsp(0, 123).len(), 0);
}

#[test]
fn hash_to_scalar_depends_on_its_inputs() {
    let a = hash_to_scalar(b"test-persona", b"hello", b"world");
    let b = hash_to_scalar(b"test-persona", b"hello", b"world");
    assert_eq!(a, b);
    let c = hash_to_scalar(b"test-persona", b"hello", b"there");
    assert_ne!(a, c);
    let d = hash_to_scalar(b"other-persona", b"hello", b"world");
    assert_ne!(a, d);
}

#[test]
fn base_embedding_matches_the_field() {
    assert_eq!(base_from_u64(5), pasta_curves::pallas::Base::from(5));
    assert_eq!(mod_r_p(pasta_curves::pallas::Base::from(7)), pasta_curves::pallas::Scalar::from(7));
}

#[test]
fn pedersen_commitments_are_binding_on_the_value() {
    let blind = pasta_curves::pallas::Scalar::from(1234567);
    let c1 = pedersen_commitment_u64(5, blind);
    let c2 = pedersen_commitment_u64(5, blind);
    assert_eq!(c1, c2);
    let c3 = pedersen_commitment_u64(6, blind);
    assert_ne!(c1, c3);
    let c4 = pedersen_commitment_scalar(mod_r_p(pasta_curves::pallas::Base::from(5)), blind);
    assert_eq!(c1, c4);
    let other_blind = pasta_curves::pallas::Scalar::from(7654321);
    let c5 = pedersen_commitment_u64(5, other_blind);
    assert_ne!(c1, c5);
}

#[test]
fn logs_slicing_and_bounds() {
    let logs = Logs(vec![
        Log { term: 1, msg: vec![1] },
        Log { term: 1, msg: vec![2] },
        Log { term: 2, msg: vec![3] },
    ]);
    assert_eq!(logs.len(), 3);
    assert_eq!(logs.last_term(), 2);
    assert_eq!(logs.get(5).err(), Some(RaftError::Logic));
    let tail = logs.slice_from(1).unwrap();
    assert_eq!(tail.len(), 2);
    assert_eq!(tail.get(0).unwrap(), Log { term: 1, msg: vec![2] });
    assert!(logs.slice_from(4).is_none());
    let head = logs.slice_to(2).unwrap();
    assert_eq!(head.len(), 2);
    assert!(logs.slice_to(4).is_none());
    assert_eq!(logs.slice_from(3).unwrap().len(), 0);
}

#[test]
fn map_length_inserts_and_overwrites() {
    let mut m = MapLength::new();
    let n1 = NodeId { id: 1 };
    let n2 = NodeId { id: 2 };
    assert_eq!(m.get(&n1).err(), Some(RaftError::Logic));
    m.insert(&n1, 10);
    m.insert(&n2, 20);
    assert_eq!(m.get(&n1).unwrap(), 10);
    m.insert(&n1, 11);
    assert_eq!(m.get(&n1).unwrap(), 11);
    assert_eq!(m.get(&n2).unwrap(), 20);
}
