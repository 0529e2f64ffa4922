//! What a runner can be told: the messages that arrive for its node.

use crate::rpc::{
    AppendEntriesRequest, AppendEntriesRequestView, AppendEntriesResponse, RequestVoteRequest,
    RequestVoteResponse,
};
use crate::types::NodeId;
use vstd::prelude::*;

verus! {

/// An inbound event, queued on a runner until its next tick.
#[derive(Debug)]
pub enum RaftEvent {
    ElectionTimeout,
    HeartbeatTimeout,
    ReceivedRequestVote(RequestVoteRequest),
    ReceivedRequestVoteResponse(RequestVoteResponse),
    ReceivedAppendEntries(AppendEntriesRequest),
    /// The answer of the peer named first to an append request of this node.
    ReceivedAppendEntriesResponse(NodeId, AppendEntriesResponse),
}

/// The mathematical value of a [`RaftEvent`].
pub enum RaftEventView {
    ElectionTimeout,
    HeartbeatTimeout,
    ReceivedRequestVote(RequestVoteRequest),
    ReceivedRequestVoteResponse(RequestVoteResponse),
    ReceivedAppendEntries(AppendEntriesRequestView),
    ReceivedAppendEntriesResponse(NodeId, AppendEntriesResponse),
}

impl View for RaftEvent {
    type V = RaftEventView;

    open spec fn view(&self) -> RaftEventView {
        match self {
            RaftEvent::ElectionTimeout => RaftEventView::ElectionTimeout,
            RaftEvent::HeartbeatTimeout => RaftEventView::HeartbeatTimeout,
            RaftEvent::ReceivedRequestVote(request) => RaftEventView::ReceivedRequestVote(*request),
            RaftEvent::ReceivedRequestVoteResponse(response) => {
                RaftEventView::ReceivedRequestVoteResponse(*response)
            },
            RaftEvent::ReceivedAppendEntries(request) => {
                RaftEventView::ReceivedAppendEntries(request@)
            },
            RaftEvent::ReceivedAppendEntriesResponse(peer, response) => {
                RaftEventView::ReceivedAppendEntriesResponse(*peer, *response)
            },
        }
    }
}

impl Clone for RaftEvent {
    fn clone(&self) -> (copy: Self)
        ensures
            copy@ == self@,
    {
        match self {
            RaftEvent::ElectionTimeout => RaftEvent::ElectionTimeout,
            RaftEvent::HeartbeatTimeout => RaftEvent::HeartbeatTimeout,
            RaftEvent::ReceivedRequestVote(request) => RaftEvent::ReceivedRequestVote(*request),
            RaftEvent::ReceivedRequestVoteResponse(response) => {
                RaftEvent::ReceivedRequestVoteResponse(*response)
            },
            RaftEvent::ReceivedAppendEntries(request) => {
                RaftEvent::ReceivedAppendEntries(request.clone())
            },
            RaftEvent::ReceivedAppendEntriesResponse(peer, response) => {
                RaftEvent::ReceivedAppendEntriesResponse(*peer, *response)
            },
        }
    }
}

} // verus!
