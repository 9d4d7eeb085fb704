//! The requests that a pool serves, and what it answers.

use crate::block::{KvBlock, SequenceHash, UpdateBlock};
use crate::model::PoolView;
use crate::state::AvailableBlocksState;
use vstd::prelude::*;

verus! {

/// Claim the block of one hash.
#[derive(Debug)]
pub struct MatchSingle {
    pub hash: SequenceHash,
}

/// Claim the blocks of a chain of hashes, as far as the chain is resident.
#[derive(Debug)]
pub struct MatchMultiple {
    pub hashes: Vec<SequenceHash>,
}

/// Claim up to `count` blocks for fresh use.
#[derive(Debug)]
pub struct Take {
    pub count: u32,
}

/// A request that claims blocks.
#[derive(Debug)]
pub enum MatchRequest {
    MatchSingle(MatchSingle),
    MatchMultiple(MatchMultiple),
    Take(Take),
}

/// The blocks claimed, in the shape of the request that claimed them.
#[derive(Debug)]
pub enum MatchResponse {
    Single(Option<KvBlock>),
    Multiple(Vec<KvBlock>),
    Taken(Vec<KvBlock>),
}

/// Insert a new block.
#[derive(Debug)]
pub struct InsertControl {
    pub block: KvBlock,
}

/// Apply one update.
#[derive(Debug)]
pub struct UpdateSingleControl {
    pub update: UpdateBlock,
}

/// Apply updates in order.
#[derive(Debug)]
pub struct UpdateMultipleControl {
    pub updates: Vec<UpdateBlock>,
}

/// Clear the identity of the blocks of these hashes.
#[derive(Debug)]
pub struct ResetControl {
    pub sequence_hashes: Vec<SequenceHash>,
}

/// Clear the identity of every resident block.
#[derive(Debug)]
pub struct ResetAllControl {}

/// A request that changes the pool and is only acknowledged.
#[derive(Debug)]
pub enum ControlRequest {
    Insert(InsertControl),
    UpdateSingle(UpdateSingleControl),
    UpdateMultiple(UpdateMultipleControl),
    Reset(ResetControl),
    ResetAll(ResetAllControl),
}

impl PoolView {
    /// Whether `response` and `after` are what serving `request` gives.
    pub open spec fn serves_match(
        self,
        request: MatchRequest,
        response: MatchResponse,
        after: PoolView,
    ) -> bool {
        match request {
            MatchRequest::MatchSingle(single) => {
                &&& response == MatchResponse::Single(self.single_match(single.hash))
                &&& after == self.after_single_match(single.hash)
            },
            MatchRequest::MatchMultiple(multiple) => {
                &&& response matches MatchResponse::Multiple(matched)
                &&& self.is_match_of(multiple.hashes@, matched@)
                &&& after == self.after_match(multiple.hashes@, matched.len() as nat)
            },
            MatchRequest::Take(take) => {
                &&& response matches MatchResponse::Taken(taken)
                &&& taken@ == self.take_result(take.count)
                &&& after == self.after_take(take.count)
            },
        }
    }

    /// Whether the pool can serve `request`: every request but an insert
    /// that `accepts_insert` refuses.
    pub open spec fn accepts_control(self, request: ControlRequest) -> bool {
        request matches ControlRequest::Insert(insert) ==> self.accepts_insert(insert.block)
    }

    /// Whether `after` is what serving `request` gives.
    pub open spec fn serves_control(self, request: ControlRequest, after: PoolView) -> bool {
        match request {
            ControlRequest::Insert(insert) => after == self.inserted(insert.block),
            ControlRequest::UpdateSingle(single) => after == self.updated(seq![single.update]),
            ControlRequest::UpdateMultiple(multiple) => after == self.updated(multiple.updates@),
            ControlRequest::Reset(reset) => self.is_reset_by(reset.sequence_hashes@, after),
            ControlRequest::ResetAll(_) => self.is_reset_all_by(after),
        }
    }
}

impl AvailableBlocksState {
    /// Serves a request that claims blocks.
    pub fn handle_match_request(&mut self, match_request: MatchRequest) -> (response:
        MatchResponse)
        requires
            old(self).inv(),
        ensures
            final(self).inv(),
            old(self)@.serves_match(match_request, response, final(self)@),
    {
        match match_request {
            MatchRequest::MatchSingle(match_single) => MatchResponse::Single(
                self.handle_match_single(match_single.hash),
            ),
            MatchRequest::MatchMultiple(match_multiple) => MatchResponse::Multiple(
                self.handle_match_multiple(match_multiple.hashes),
            ),
            MatchRequest::Take(take) => MatchResponse::Taken(self.handle_take(take.count)),
        }
    }

    /// Whether the pool can serve `request`.
    pub fn can_control(&self, request: &ControlRequest) -> (accepted: bool)
        ensures
            accepted == self@.accepts_control(*request),
    {
        match request {
            ControlRequest::Insert(insert) => self.can_insert(&insert.block),
            _ => true,
        }
    }

    /// Serves a request that changes the pool.
    pub fn handle_control_request(&mut self, control_request: ControlRequest)
        requires
            old(self).inv(),
            old(self)@.accepts_control(control_request),
        ensures
            final(self).inv(),
            old(self)@.serves_control(control_request, final(self)@),
    {
        match control_request {
            ControlRequest::Insert(insert) => {
                self.handle_insert(insert.block);
            },
            ControlRequest::UpdateSingle(update_single) => {
                self.handle_update_single(update_single.update);
            },
            ControlRequest::UpdateMultiple(update_multiple) => {
                self.handle_update_multiple(update_multiple.updates);
            },
            ControlRequest::Reset(reset) => {
                self.handle_reset(reset.sequence_hashes);
            },
            ControlRequest::ResetAll(_) => {
                self.handle_reset_all();
            },
        }
    }
}

} // verus!
