//! Wire-codec round trips and decode-failure cases.

use raftlog::codec::{
    decode_broadcast_request, decode_log_request, decode_log_response, decode_msg_payload,
    decode_net_msg, decode_vote_request, decode_vote_response, encode_broadcast_request,
    encode_log_request, encode_log_response, encode_msg_payload, encode_net_msg,
    encode_vote_request, encode_vote_response,
};
use raftlog::{
    BroadcastMsgRequest, Log, LogRequest, LogResponse, MsgPayload, NetMsg, NetMsgMethod, NodeId,
    RaftError, VoteRequest, VoteResponse,
};

#[test]
fn vote_request_round_trip() {
    let m = VoteRequest {
        node_id: NodeId { id: 7 },
        current_term: 3,
        log_length: 11,
        last_term: 2,
    };
    let bytes = encode_vote_request(&m);
    assert_eq!(bytes.len(), 32);
    let back = decode_vote_request(&bytes).unwrap();
    assert_eq!(back, m);
}

#[test]
fn vote_request_layout_is_little_endian() {
    let m = VoteRequest {
        node_id: NodeId { id: 0x0102 },
        current_term: 1,
        log_length: 0,
        last_term: 0,
    };
    let bytes = encode_vote_request(&m);
    assert_eq!(&bytes[0..8], &[0x02, 0x01, 0, 0, 0, 0, 0, 0]);
    assert_eq!(bytes[8], 1);
}

#[test]
fn vote_request_rejects_truncation_and_trailing() {
    let m = VoteRequest {
        node_id: NodeId { id: 7 },
        current_term: 3,
        log_length: 11,
        last_term: 2,
    };
    let mut bytes = encode_vote_request(&m);
    bytes.pop();
    assert_eq!(decode_vote_request(&bytes), Err(RaftError::Decode));
    let mut bytes = encode_vote_request(&m);
    bytes.push(0);
    assert_eq!(decode_vote_request(&bytes), Err(RaftError::Decode));
}

#[test]
fn vote_response_round_trip() {
    let m = VoteResponse { node_id: NodeId { id: 9 }, current_term: 4, ok: true };
    let back = decode_vote_response(&encode_vote_response(&m)).unwrap();
    assert_eq!(back, m);
}

#[test]
fn vote_response_rejects_bad_bool() {
    let m = VoteResponse { node_id: NodeId { id: 9 }, current_term: 4, ok: false };
    let mut bytes = encode_vote_response(&m);
    let last = bytes.len() - 1;
    bytes[last] = 2;
    assert_eq!(decode_vote_response(&bytes), Err(RaftError::Decode));
}

#[test]
fn log_request_round_trip() {
    let m = LogRequest {
        leader_id: NodeId { id: 1 },
        current_term: 2,
        prefix_len: 1,
        prefix_term: 1,
        commit_length: 1,
        suffix: vec![
            Log { term: 2, msg: vec![0x02] },
            Log { term: 2, msg: vec![0xaa, 0xbb, 0xcc] },
        ],
    };
    let bytes = encode_log_request(&m);
    let back = decode_log_request(&bytes).unwrap();
    assert_eq!(back.leader_id, m.leader_id);
    assert_eq!(back.current_term, m.current_term);
    assert_eq!(back.prefix_len, m.prefix_len);
    assert_eq!(back.prefix_term, m.prefix_term);
    assert_eq!(back.commit_length, m.commit_length);
    assert_eq!(back.suffix.len(), 2);
    assert_eq!(back.suffix[0], m.suffix[0]);
    assert_eq!(back.suffix[1], m.suffix[1]);
}

#[test]
fn log_request_empty_suffix_round_trip() {
    let m = LogRequest {
        leader_id: NodeId { id: 3 },
        current_term: 7,
        prefix_len: 5,
        prefix_term: 6,
        commit_length: 4,
        suffix: vec![],
    };
    let back = decode_log_request(&encode_log_request(&m)).unwrap();
    assert_eq!(back.suffix.len(), 0);
    assert_eq!(back.prefix_len, 5);
}

#[test]
fn log_response_round_trip() {
    let m = LogResponse { node_id: NodeId { id: 2 }, current_term: 2, ack: 2, ok: true };
    let back = decode_log_response(&encode_log_response(&m)).unwrap();
    assert_eq!(back, m);
}

#[test]
fn broadcast_request_round_trip() {
    let m = BroadcastMsgRequest(vec![0xde, 0xad, 0xbe, 0xef]);
    let back = decode_broadcast_request(&encode_broadcast_request(&m)).unwrap();
    assert_eq!(back.0, vec![0xde, 0xad, 0xbe, 0xef]);
}

#[test]
fn msg_payload_round_trip() {
    let m = MsgPayload { nonce: vec![1, 2, 3], payload: vec![4, 5, 6, 7] };
    let back = decode_msg_payload(&encode_msg_payload(&m)).unwrap();
    assert_eq!(back.nonce, vec![1, 2, 3]);
    assert_eq!(back.payload, vec![4, 5, 6, 7]);
}

#[test]
fn net_msg_round_trip_with_recipient() {
    let m = NetMsg {
        id: 0xdeadbeef,
        recipient_id: Some(NodeId { id: 42 }),
        payload: vec![9, 8, 7],
        method: NetMsgMethod::LogRequest,
    };
    let back = decode_net_msg(&encode_net_msg(&m)).unwrap();
    assert_eq!(back.id, m.id);
    assert_eq!(back.recipient_id, m.recipient_id);
    assert_eq!(back.payload, m.payload);
    assert_eq!(back.method, m.method);
}

#[test]
fn net_msg_round_trip_broadcast() {
    let m = NetMsg {
        id: 1,
        recipient_id: None,
        payload: vec![],
        method: NetMsgMethod::BroadcastRequest,
    };
    let back = decode_net_msg(&encode_net_msg(&m)).unwrap();
    assert_eq!(back.recipient_id, None);
    assert_eq!(back.method, NetMsgMethod::BroadcastRequest);
}

#[test]
fn net_msg_rejects_unknown_method_tag() {
    let m = NetMsg {
        id: 1,
        recipient_id: None,
        payload: vec![],
        method: NetMsgMethod::VoteRequest,
    };
    let mut bytes = encode_net_msg(&m);
    let last = bytes.len() - 1;
    bytes[last] = 9;
    assert_eq!(decode_net_msg(&bytes).err(), Some(RaftError::Decode));
}

#[test]
fn empty_bytes_are_rejected_everywhere() {
    let empty: Vec<u8> = vec![];
    assert_eq!(decode_vote_request(&empty), Err(RaftError::Decode));
    assert_eq!(decode_vote_response(&empty), Err(RaftError::Decode));
    assert!(decode_log_request(&empty).is_err());
    assert_eq!(decode_log_response(&empty), Err(RaftError::Decode));
    assert!(decode_broadcast_request(&empty).is_err());
    assert!(decode_net_msg(&empty).is_err());
}
