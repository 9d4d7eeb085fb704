//! A pool of key-value cache blocks that can be reused across requests.
//!
//! Every block is addressed by the hash of the token sequence that it
//! closes. The pool keeps the blocks that are free, finds them again by
//! hash, and hands them out for fresh use in eviction order: blocks without
//! identity first, then the others by ascending priority and, within one
//! priority, by the tick at which they last became free.

pub mod block;
pub mod engine;
pub mod laws;
pub mod model;
pub mod priority;
pub mod protocol;
pub mod state;

pub use block::{KvBlock, SequenceHash, UpdateBlock, SENTINEL_HASH};
pub use engine::{
    admits, next_class, progress_engine, EngineEvent, EngineReply, Pending, RequestClass,
};
pub use model::PoolView;
pub use priority::PriorityKey;
pub use protocol::{
    ControlRequest, InsertControl, MatchMultiple, MatchRequest, MatchResponse, MatchSingle,
    ResetAllControl, ResetControl, Take, UpdateMultipleControl, UpdateSingleControl,
};
pub use state::AvailableBlocksState;
