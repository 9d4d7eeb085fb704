//! The loop that serves a pool's requests one at a time.
//!
//! Requests arrive in four classes. Whenever more than one class has a
//! request waiting, the loop serves the class that comes first in
//! `RequestClass`. A fence is served last, so its acknowledgement tells the
//! sender that nothing else was waiting.

use crate::block::KvBlock;
use crate::model::PoolView;
use crate::protocol::{ControlRequest, MatchRequest, MatchResponse};
use crate::state::AvailableBlocksState;
use vstd::prelude::*;

verus! {

/// The classes of requests, in the order in which they are served.
#[derive(Debug, Clone, Copy, PartialEq, Eq, Structural)]
pub enum RequestClass {
    /// Requests that claim blocks.
    Match,
    /// Blocks coming back.
    Return,
    /// Inserts, updates and resets.
    Control,
    /// Barriers.
    Fence,
}

/// Which classes have a request waiting.
#[derive(Debug, Clone, Copy, PartialEq, Eq, Structural)]
pub struct Pending {
    pub matches: bool,
    pub returns: bool,
    pub controls: bool,
    pub fences: bool,
}

impl Pending {
    /// The class to serve next: the first in order that has a request
    /// waiting.
    pub open spec fn first(self) -> Option<RequestClass> {
        if self.matches {
            Some(RequestClass::Match)
        } else if self.returns {
            Some(RequestClass::Return)
        } else if self.controls {
            Some(RequestClass::Control)
        } else if self.fences {
            Some(RequestClass::Fence)
        } else {
            None
        }
    }
}

/// The class to serve next, or `None` when nothing is waiting.
pub fn next_class(pending: Pending) -> (class: Option<RequestClass>)
    ensures
        class == pending.first(),
{
    if pending.matches {
        Some(RequestClass::Match)
    } else if pending.returns {
        Some(RequestClass::Return)
    } else if pending.controls {
        Some(RequestClass::Control)
    } else if pending.fences {
        Some(RequestClass::Fence)
    } else {
        None
    }
}

/// One request taken from its queue.
#[derive(Debug)]
pub enum EngineEvent {
    Match(MatchRequest),
    Return(KvBlock),
    Control(ControlRequest),
    Fence,
}

/// What the loop sends back for one request.
#[derive(Debug)]
pub enum EngineReply {
    /// The blocks claimed.
    Matched(MatchResponse),
    /// Nothing: a returned block has no sender waiting.
    Absorbed,
    /// The request was applied.
    Acknowledged,
}

impl EngineEvent {
    /// How many new blocks the event brings: one for an insert.
    pub open spec fn inserted_blocks(self) -> nat {
        match self {
            EngineEvent::Control(ControlRequest::Insert(_)) => 1,
            _ => 0,
        }
    }

    /// How many blocks become available with the event: one for an insert
    /// and one for a return.
    pub open spec fn arriving_blocks(self) -> nat {
        match self {
            EngineEvent::Return(_) => 1,
            EngineEvent::Control(ControlRequest::Insert(_)) => 1,
            _ => 0,
        }
    }
}

impl EngineReply {
    /// How many blocks the reply hands out.
    pub open spec fn claimed_blocks(self) -> nat {
        match self {
            EngineReply::Matched(MatchResponse::Single(Some(_))) => 1,
            EngineReply::Matched(MatchResponse::Single(None)) => 0,
            EngineReply::Matched(MatchResponse::Multiple(matched)) => matched@.len(),
            EngineReply::Matched(MatchResponse::Taken(taken)) => taken@.len(),
            _ => 0,
        }
    }
}

/// The requests that wait to be served: one queue for each class, oldest
/// first. A fence carries nothing, so the fences are only counted.
pub struct Mailbox {
    pub matches: Seq<MatchRequest>,
    pub returns: Seq<KvBlock>,
    pub controls: Seq<ControlRequest>,
    pub fences: nat,
}

impl Mailbox {
    /// Which classes have a request waiting.
    pub open spec fn pending(self) -> Pending {
        Pending {
            matches: self.matches.len() > 0,
            returns: self.returns.len() > 0,
            controls: self.controls.len() > 0,
            fences: self.fences > 0,
        }
    }

    /// How many requests other than fences are waiting.
    pub open spec fn operations(self) -> nat {
        self.matches.len() + self.returns.len() + self.controls.len()
    }

    /// The request that the loop serves next: the oldest of the class that
    /// `Pending::first` names.
    pub open spec fn next_event(self) -> Option<EngineEvent> {
        match self.pending().first() {
            Some(RequestClass::Match) => Some(EngineEvent::Match(self.matches.first())),
            Some(RequestClass::Return) => Some(EngineEvent::Return(self.returns.first())),
            Some(RequestClass::Control) => Some(EngineEvent::Control(self.controls.first())),
            Some(RequestClass::Fence) => Some(EngineEvent::Fence),
            None => None,
        }
    }

    /// The mailbox once the next request has been taken from its queue.
    pub open spec fn rest(self) -> Mailbox {
        match self.pending().first() {
            Some(RequestClass::Match) => Mailbox { matches: self.matches.drop_first(), ..self },
            Some(RequestClass::Return) => Mailbox { returns: self.returns.drop_first(), ..self },
            Some(RequestClass::Control) => Mailbox {
                controls: self.controls.drop_first(),
                ..self
            },
            Some(RequestClass::Fence) => Mailbox { fences: (self.fences - 1) as nat, ..self },
            None => self,
        }
    }

    /// The order in which the loop serves what waits, where nothing more
    /// arrives meanwhile.
    pub open spec fn service_order(self) -> Seq<EngineEvent>
        decreases self.operations() + self.fences,
    {
        match self.next_event() {
            Some(event) => seq![event] + self.rest().service_order(),
            None => Seq::empty(),
        }
    }
}

/// Whether the loop, starting on the pool `pools[0]`, can serve `events` one
/// after the other with `replies`, the pool being `pools[i + 1]` once
/// `events[i]` is served.
pub open spec fn is_run(
    pools: Seq<PoolView>,
    events: Seq<EngineEvent>,
    replies: Seq<EngineReply>,
) -> bool {
    &&& pools.len() == events.len() + 1
    &&& replies.len() == events.len()
    &&& forall|i: int|
        0 <= i < events.len() ==> #[trigger] pools[i].serves(events[i], replies[i], pools[i + 1])
}

impl PoolView {
    /// Whether the pool can serve `event`.
    pub open spec fn accepts(self, event: EngineEvent) -> bool {
        match event {
            EngineEvent::Match(_) => true,
            EngineEvent::Return(block) => self.accepts_return(block),
            EngineEvent::Control(request) => self.accepts_control(request),
            EngineEvent::Fence => true,
        }
    }

    /// Whether `reply` and `after` are what serving `event` gives.
    pub open spec fn serves(self, event: EngineEvent, reply: EngineReply, after: PoolView) -> bool {
        match event {
            EngineEvent::Match(request) => {
                &&& reply matches EngineReply::Matched(response)
                &&& self.serves_match(request, response, after)
            },
            EngineEvent::Return(block) => {
                &&& reply is Absorbed
                &&& after == self.returned(block)
            },
            EngineEvent::Control(request) => {
                &&& reply is Acknowledged
                &&& self.serves_control(request, after)
            },
            EngineEvent::Fence => {
                &&& reply is Acknowledged
                &&& after == self
            },
        }
    }
}

/// Whether the pool can serve `event`.
pub fn admits(state: &AvailableBlocksState, event: &EngineEvent) -> (accepted: bool)
    ensures
        accepted == state@.accepts(*event),
{
    match event {
        EngineEvent::Match(_) => true,
        EngineEvent::Return(block) => state.can_return(block),
        EngineEvent::Control(request) => state.can_control(request),
        EngineEvent::Fence => true,
    }
}

/// Serves one request: applies it to the pool and says what to send back.
/// A fence changes nothing.
pub fn progress_engine(state: &mut AvailableBlocksState, event: EngineEvent) -> (reply:
    EngineReply)
    requires
        old(state).inv(),
        old(state)@.accepts(event),
    ensures
        final(state).inv(),
        old(state)@.serves(event, reply, final(state)@),
{
    match event {
        EngineEvent::Match(request) => EngineReply::Matched(state.handle_match_request(request)),
        EngineEvent::Return(block) => {
            state.handle_return(block);
            EngineReply::Absorbed
        },
        EngineEvent::Control(request) => {
            state.handle_control_request(request);
            EngineReply::Acknowledged
        },
        EngineEvent::Fence => EngineReply::Acknowledged,
    }
}

} // verus!
