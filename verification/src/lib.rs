//! A Raft-style replicated-log core for a peer-to-peer task daemon.
//!
//! The library is the verified heart of the daemon: the leader-election and
//! log-replication state machine, the wire codec for its messages, the model
//! of the durable store, and the small crypto helpers of the surrounding
//! project. Everything that must touch the outside world (sockets, disks,
//! timers) is driven from a thin unverified shell that feeds plain values in
//! and carries the returned actions out.

pub mod types;
pub mod logs;
pub mod maplen;
pub mod codec;
pub mod store;
pub mod state;
pub mod laws;
pub mod crypto;
pub mod rng;

pub use types::{
    Action, ActionV, BroadcastMsgRequest, Log, LogRequest, LogRequestV, LogResponse, LogV,
    MsgPayload, MsgPayloadV, NetMsg, NetMsgMethod, NetMsgV, NodeId, RaftError, Role, StoreAction,
    StoreActionV, VoteRequest, VoteResponse,
};
pub use logs::Logs;
pub use maplen::MapLength;
pub use state::{RaftState, HEARTBEAT_TIMEOUT, JITTER, TIMEOUT, TIMEOUT_NODES};
pub use store::DurableState;


