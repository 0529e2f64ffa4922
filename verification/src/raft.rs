//! The runner: it drives one node. On each tick it looks at the node's
//! timers, takes the queued events to the node's handlers, counts the votes of
//! a running election, and hands back the messages that are to be sent.

use crate::event::{RaftEvent, RaftEventView};
use crate::log::{last_index, last_term};
use crate::node::{NodeView, RaftNode};
use crate::rpc::{
    AppendEntriesRequest, AppendEntriesRequestView, AppendEntriesResponse, RequestVoteRequest,
    RequestVoteResponse,
};
use crate::timer::{random_election_timeout, Timer, ELECTION_TIMEOUT_MAX, ELECTION_TIMEOUT_MIN};
use crate::types::{NodeId, RaftState, Term};
use std::collections::VecDeque;
use vstd::prelude::*;

verus! {

/// A message that the caller is to send to the peer named first.
#[derive(Debug)]
pub enum RaftAction {
    SendRequestVote(NodeId, RequestVoteRequest),
    SendAppendEntries(NodeId, AppendEntriesRequest),
}

/// The mathematical value of a [`RaftAction`].
pub enum RaftActionView {
    SendRequestVote(NodeId, RequestVoteRequest),
    SendAppendEntries(NodeId, AppendEntriesRequestView),
}

impl View for RaftAction {
    type V = RaftActionView;

    open spec fn view(&self) -> RaftActionView {
        match self {
            RaftAction::SendRequestVote(to, request) => RaftActionView::SendRequestVote(
                *to,
                *request,
            ),
            RaftAction::SendAppendEntries(to, request) => RaftActionView::SendAppendEntries(
                *to,
                request@,
            ),
        }
    }
}

impl Clone for RaftAction {
    fn clone(&self) -> (copy: Self)
        ensures
            copy@ == self@,
    {
        match self {
            RaftAction::SendRequestVote(to, request) => RaftAction::SendRequestVote(*to, *request),
            RaftAction::SendAppendEntries(to, request) => RaftAction::SendAppendEntries(
                *to,
                request.clone(),
            ),
        }
    }
}

/// The values of a vector of actions, in order.
pub open spec fn actions_view(actions: Seq<RaftAction>) -> Seq<RaftActionView> {
    actions.map_values(|a: RaftAction| a@)
}

/// The values of a queue of events, in order.
pub open spec fn events_view(events: Seq<RaftEvent>) -> Seq<RaftEventView> {
    events.map_values(|e: RaftEvent| e@)
}

/// The mathematical value of a [`RaftRunner`].
pub struct RunnerView {
    pub node: NodeView,
    /// The events that wait for the next tick, oldest first.
    pub queue: Seq<RaftEventView>,
    /// The votes counted in the election of `tally_term`, the node's own included.
    pub votes: nat,
    /// The term of the election whose votes are counted, if one was started.
    pub tally_term: Option<Term>,
}

impl RunnerView {
    /// Whether the votes that are counted belong to an election that the node
    /// is still running.
    pub open spec fn counting(self) -> bool {
        self.node.state == RaftState::Candidate && self.tally_term == Some(self.node.current_term)
    }

    /// The node is well formed, and a running election has not reached a
    /// quorum yet.
    pub open spec fn wf(self) -> bool {
        &&& self.node.wf()
        &&& self.counting() ==> 1 <= self.votes < self.node.quorum()
    }

    /// A runner as it is created around `node`: nothing queued, nothing counted.
    pub open spec fn initial(node: NodeView) -> RunnerView {
        RunnerView { node, queue: Seq::empty(), votes: 0, tally_term: None }
    }

    /// One vote request for each peer, with the end of the node's own log.
    pub open spec fn vote_requests(node: NodeView) -> Seq<RaftActionView> {
        Seq::new(
            node.peers.len(),
            |i: int|
                RaftActionView::SendRequestVote(
                    node.peers[i],
                    RequestVoteRequest {
                        term: node.current_term,
                        candidate_id: node.id,
                        last_log_index: last_index(node.log),
                        last_log_term: last_term(node.log),
                    },
                ),
        )
    }

    /// One append request for each peer, built from the leader's state.
    pub open spec fn append_requests(node: NodeView) -> Seq<RaftActionView> {
        Seq::new(
            node.peers.len(),
            |i: int|
                RaftActionView::SendAppendEntries(
                    node.peers[i],
                    node.create_append_entries(node.peers[i]),
                ),
        )
    }

    /// The election is won: the node becomes leader, its heartbeat timer
    /// starts anew, and every peer is sent an append request at once.
    pub open spec fn take_office(self, now: u64) -> (RunnerView, Seq<RaftActionView>) {
        let leader = NodeView {
            heartbeat_timer: Timer::started(now, self.node.heartbeat_timer.duration),
            ..self.node.become_leader()
        };
        (RunnerView { node: leader, ..self }, Self::append_requests(leader))
    }

    /// The election timer has elapsed: the node becomes a candidate, its
    /// election timer starts anew with `election_timeout`, the count starts
    /// with the node's own vote, and every peer is asked for its vote. A node
    /// without peers has its quorum already and takes office.
    pub open spec fn start_election(self, now: u64, election_timeout: u64) -> (
        RunnerView,
        Seq<RaftActionView>,
    ) {
        let candidate = NodeView {
            election_timer: Timer::started(now, election_timeout),
            ..self.node.become_candidate()
        };
        let counting = RunnerView {
            node: candidate,
            votes: 1,
            tally_term: Some(candidate.current_term),
            ..self
        };
        let requests = Self::vote_requests(candidate);
        if candidate.quorum() <= 1 {
            let (leading, probes) = counting.take_office(now);
            (leading, requests + probes)
        } else {
            (counting, requests)
        }
    }

    /// The first part of a tick: an election starts if the election timer has
    /// elapsed and the node is no leader.
    pub open spec fn check_election(self, now: u64, election_timeout: u64) -> (
        RunnerView,
        Seq<RaftActionView>,
    ) {
        if self.node.election_timer.elapsed_at(now) && self.node.state != RaftState::Leader {
            self.start_election(now, election_timeout)
        } else {
            (self, Seq::empty())
        }
    }

    /// The second part of a tick: a leader whose heartbeat timer has elapsed
    /// starts the timer anew and sends every peer an append request.
    pub open spec fn check_heartbeat(self, now: u64) -> (RunnerView, Seq<RaftActionView>) {
        if self.node.heartbeat_timer.elapsed_at(now) && self.node.state == RaftState::Leader {
            let node = NodeView {
                heartbeat_timer: Timer::started(now, self.node.heartbeat_timer.duration),
                ..self.node
            };
            (RunnerView { node, ..self }, Self::append_requests(node))
        } else {
            (self, Seq::empty())
        }
    }

    /// The answer to a vote request has arrived. The node sees it first. A
    /// granted vote of the node's current term counts if the node is still a
    /// candidate; the count starts at the node's own vote if none was running
    /// for this term. The vote that completes a quorum makes the node leader.
    pub open spec fn count_vote(self, response: RequestVoteResponse, now: u64) -> (
        RunnerView,
        Seq<RaftActionView>,
    ) {
        let node = self.node.handle_request_response(response).0;
        let seen = RunnerView { node, ..self };
        if node.state == RaftState::Candidate && response.vote_granted && response.term
            == node.current_term {
            let votes = (if seen.counting() {
                self.votes
            } else {
                1
            }) + 1;
            let counted = RunnerView { votes, tally_term: Some(node.current_term), ..seen };
            if votes >= node.quorum() {
                counted.take_office(now)
            } else {
                (counted, Seq::empty())
            }
        } else {
            (seen, Seq::empty())
        }
    }

    /// An append request has arrived. The node handles it, and unless the
    /// request was of an older term than the node's, the election timer starts
    /// anew with `election_timeout`.
    pub open spec fn receive_append_entries(
        self,
        request: AppendEntriesRequestView,
        now: u64,
        election_timeout: u64,
    ) -> RunnerView {
        let node = self.node.handle_append_entries(request).0;
        RunnerView {
            node: if request.term@ >= self.node.current_term@ {
                NodeView { election_timer: Timer::started(now, election_timeout), ..node }
            } else {
                node
            },
            ..self
        }
    }

    /// What one event does to the runner, and the messages that it causes.
    pub open spec fn handle_event(self, event: RaftEventView, now: u64, election_timeout: u64) -> (
        RunnerView,
        Seq<RaftActionView>,
    ) {
        match event {
            RaftEventView::ReceivedRequestVote(request) => (
                RunnerView { node: self.node.handle_request_vote(request).0, ..self },
                Seq::empty(),
            ),
            RaftEventView::ReceivedRequestVoteResponse(response) => self.count_vote(response, now),
            RaftEventView::ReceivedAppendEntries(request) => (
                self.receive_append_entries(request, now, election_timeout),
                Seq::empty(),
            ),
            RaftEventView::ReceivedAppendEntriesResponse(peer, response) => (
                RunnerView {
                    node: self.node.handle_append_entries_response(peer, response),
                    ..self
                },
                Seq::empty(),
            ),
            RaftEventView::ElectionTimeout => (self, Seq::empty()),
            RaftEventView::HeartbeatTimeout => (self, Seq::empty()),
        }
    }

    /// What `events` do to the runner when they are handled one after the
    /// other, and the messages that they cause, in order.
    pub open spec fn handle_events(
        self,
        events: Seq<RaftEventView>,
        now: u64,
        election_timeout: u64,
    ) -> (RunnerView, Seq<RaftActionView>)
        decreases events.len(),
    {
        if events.len() == 0 {
            (self, Seq::empty())
        } else {
            let (next, first) = self.handle_event(events[0], now, election_timeout);
            let (last, rest) = next.handle_events(events.drop_first(), now, election_timeout);
            (last, first + rest)
        }
    }

    /// One tick: the election timer is checked, then the heartbeat timer,
    /// then the queue is emptied, oldest event first.
    pub open spec fn tick(self, now: u64, election_timeout: u64) -> (
        RunnerView,
        Seq<RaftActionView>,
    ) {
        let (elected, requests) = self.check_election(now, election_timeout);
        let (beaten, probes) = elected.check_heartbeat(now);
        let (done, answers) = RunnerView { queue: Seq::empty(), ..beaten }.handle_events(
            self.queue,
            now,
            election_timeout,
        );
        (done, requests + probes + answers)
    }

    /// Whether the clock and the term leave room for a tick at `now`: the
    /// timers can be set, and the term can rise if an election is due.
    pub open spec fn can_tick(self, now: u64, election_timeout: u64) -> bool {
        &&& self.can_handle(now, election_timeout)
        &&& self.node.election_timer.elapsed_at(now) && self.node.state != RaftState::Leader
            ==> self.node.current_term@ < u64::MAX
    }

    /// Whether the clock leaves room to set the timers at `now`.
    pub open spec fn can_handle(self, now: u64, election_timeout: u64) -> bool {
        &&& now + election_timeout <= u64::MAX
        &&& now + self.node.heartbeat_timer.duration <= u64::MAX
    }

    /// An event neither reads nor changes the queue.
    pub proof fn lemma_handle_event_keeps_queue(
        runner: RunnerView,
        queue: Seq<RaftEventView>,
        event: RaftEventView,
        now: u64,
        election_timeout: u64,
    )
        ensures
            (RunnerView { queue, ..runner }).handle_event(event, now, election_timeout).0 == (
            RunnerView { queue, ..runner.handle_event(event, now, election_timeout).0 }),
            (RunnerView { queue, ..runner }).handle_event(event, now, election_timeout).1
                == runner.handle_event(event, now, election_timeout).1,
            runner.handle_event(event, now, election_timeout).0.queue == runner.queue,
            runner.handle_event(
                event,
                now,
                election_timeout,
            ).0.node.heartbeat_timer.duration == runner.node.heartbeat_timer.duration,
    {
    }
}

/// Drives one node.
pub struct RaftRunner {
    node: RaftNode,
    event_queue: VecDeque<RaftEvent>,
    votes: usize,
    tally_term: Option<Term>,
}

impl View for RaftRunner {
    type V = RunnerView;

    closed spec fn view(&self) -> RunnerView {
        RunnerView {
            node: self.node@,
            queue: events_view(self.event_queue@),
            votes: self.votes as nat,
            tally_term: self.tally_term,
        }
    }
}

impl RaftRunner {
    pub fn new(node: RaftNode) -> (runner: Self)
        ensures
            runner@ == RunnerView::initial(node@),
    {
        let runner = Self { node, event_queue: VecDeque::new(), votes: 0, tally_term: None };
        assert(runner@.queue =~= Seq::empty());
        runner
    }

    /// Tests whether the runner is well formed, as a tick expects and leaves it.
    pub fn is_well_formed(&self) -> (ok: bool)
        ensures
            ok == self@.wf(),
    {
        if !self.node.is_well_formed() {
            return false;
        }
        let counting = self.node.is_candidate() && match self.tally_term {
            Some(term) => term == self.node.current_term,
            None => false,
        };
        !counting || (1 <= self.votes && self.votes < self.node.quorum())
    }

    /// Tests whether the clock and the term leave room for a tick at `now`
    /// with `election_timeout`.
    pub fn can_tick(&self, now: u64, election_timeout: u64) -> (ok: bool)
        ensures
            ok == self@.can_tick(now, election_timeout),
    {
        if election_timeout > u64::MAX - now || self.node.heartbeat_timer.duration > u64::MAX
            - now {
            return false;
        }
        let due = self.node.election_timer.is_elapsed(now) && !self.node.is_leader();
        !due || self.node.current_term.get() < u64::MAX
    }

    pub fn node(&self) -> (node: &RaftNode)
        ensures
            node@ == self@.node,
    {
        &self.node
    }

    /// The node, to be changed in place. The runner's queue and count stay.
    pub fn node_mut(&mut self) -> (node: &mut RaftNode)
        ensures
            node@ == old(self)@.node,
            final(self)@ == (RunnerView { node: final(node)@, ..old(self)@ }),
    {
        &mut self.node
    }

    /// Queues `event` behind the events that wait already.
    pub fn push_event(&mut self, event: RaftEvent)
        ensures
            final(self)@ == (RunnerView { queue: old(self)@.queue.push(event@), ..old(self)@ }),
    {
        self.event_queue.push_back(event);
        assert(self@.queue =~= old(self)@.queue.push(event@));
    }

    /// Queues one append request for each peer behind `actions`.
    fn push_append_requests(&self, actions: &mut Vec<RaftAction>)
        requires
            self@.node.wf(),
        ensures
            actions_view(final(actions)@) == actions_view(old(actions)@)
                + RunnerView::append_requests(self@.node),
    {
        let mut i: usize = 0;
        while i < self.node.peers.len()
            invariant
                i <= self.node.peers.len(),
                self@.node.wf(),
                actions_view(actions@) == actions_view(old(actions)@) + RunnerView::append_requests(
                    self@.node,
                ).take(i as int),
            decreases self.node.peers.len() - i,
        {
            let peer = self.node.peers[i];
            let request = self.node.create_append_entries(&peer);
            let ghost before = actions_view(actions@);
            actions.push(RaftAction::SendAppendEntries(peer, request));
            assert(actions_view(actions@) =~= before.push(
                RunnerView::append_requests(self@.node)[i as int],
            ));
            i += 1;
        }
    }

    /// Queues one vote request for each peer behind `actions`.
    fn push_vote_requests(&self, actions: &mut Vec<RaftAction>)
        ensures
            actions_view(final(actions)@) == actions_view(old(actions)@)
                + RunnerView::vote_requests(self@.node),
    {
        let request = RequestVoteRequest {
            term: self.node.current_term,
            candidate_id: self.node.id,
            last_log_index: self.node.log.last_log_index(),
            last_log_term: self.node.log.last_log_term(),
        };
        let mut i: usize = 0;
        while i < self.node.peers.len()
            invariant
                i <= self.node.peers.len(),
                request == (RequestVoteRequest {
                    term: self@.node.current_term,
                    candidate_id: self@.node.id,
                    last_log_index: last_index(self@.node.log),
                    last_log_term: last_term(self@.node.log),
                }),
                actions_view(actions@) == actions_view(old(actions)@) + RunnerView::vote_requests(
                    self@.node,
                ).take(i as int),
            decreases self.node.peers.len() - i,
        {
            let peer = self.node.peers[i];
            let ghost before = actions_view(actions@);
            actions.push(RaftAction::SendRequestVote(peer, request));
            assert(actions_view(actions@) =~= before.push(
                RunnerView::vote_requests(self@.node)[i as int],
            ));
            i += 1;
        }
    }

    /// Makes the node leader after a won election and queues its first append requests.
    fn take_office(&mut self, now: u64, actions: &mut Vec<RaftAction>)
        requires
            old(self)@.node.wf(),
            old(self)@.node.state == RaftState::Candidate,
            now + old(self)@.node.heartbeat_timer.duration <= u64::MAX,
        ensures
            final(self)@ == old(self)@.take_office(now).0,
            actions_view(final(actions)@) == actions_view(old(actions)@) + old(self)@.take_office(
                now,
            ).1,
            final(self)@.node.wf(),
    {
        self.node.become_leader();
        self.node.heartbeat_timer.reset(now);
        self.push_append_requests(actions);
    }

    /// Starts an election at `now`, with `election_timeout` until the next one.
    fn start_election(&mut self, now: u64, election_timeout: u64, actions: &mut Vec<RaftAction>)
        requires
            old(self)@.node.wf(),
            old(self)@.node.state != RaftState::Leader,
            old(self)@.node.current_term@ < u64::MAX,
            old(self)@.can_handle(now, election_timeout),
        ensures
            final(self)@ == old(self)@.start_election(now, election_timeout).0,
            actions_view(final(actions)@) == actions_view(old(actions)@)
                + old(self)@.start_election(now, election_timeout).1,
            final(self)@.wf(),
    {
        self.node.become_candidate();
        self.node.election_timer.reset_with(now, election_timeout);
        self.votes = 1;
        self.tally_term = Some(self.node.current_term);
        self.push_vote_requests(actions);
        if self.node.quorum() <= 1 {
            self.take_office(now, actions);
        }
    }

    /// Takes the answer to a vote request to the node and counts the vote.
    fn count_vote(&mut self, response: RequestVoteResponse, now: u64, actions: &mut Vec<RaftAction>)
        requires
            old(self)@.wf(),
            now + old(self)@.node.heartbeat_timer.duration <= u64::MAX,
        ensures
            final(self)@ == old(self)@.count_vote(response, now).0,
            actions_view(final(actions)@) == actions_view(old(actions)@) + old(self)@.count_vote(
                response,
                now,
            ).1,
            final(self)@.wf(),
    {
        let _ = self.node.handle_request_response(response);
        if self.node.is_candidate() && response.vote_granted && response.term
            == self.node.current_term {
            let counting = match self.tally_term {
                Some(term) => term == self.node.current_term,
                None => false,
            };
            // Where no count runs for this term yet, it starts with the node's own vote.
            let votes = if counting {
                self.votes + 1
            } else {
                2
            };
            self.votes = votes;
            self.tally_term = Some(self.node.current_term);
            if votes >= self.node.quorum() {
                self.take_office(now, actions);
                return;
            }
        }
    }

    /// Takes a vote request to the node and hands back the node's answer.
    pub fn receive_request_vote(&mut self, request: RequestVoteRequest) -> (response:
        RequestVoteResponse)
        requires
            old(self)@.wf(),
        ensures
            final(self)@ == (RunnerView {
                node: old(self)@.node.handle_request_vote(request).0,
                ..old(self)@
            }),
            response == old(self)@.node.handle_request_vote(request).1,
            final(self)@.wf(),
    {
        self.node.handle_request_vote(request)
    }

    /// Takes an append request to the node and hands back the node's answer.
    /// Unless the request was of an older term than the node's, the election
    /// timer starts anew at `now` and runs for `election_timeout`.
    pub fn receive_append_entries(
        &mut self,
        request: AppendEntriesRequest,
        now: u64,
        election_timeout: u64,
    ) -> (response: AppendEntriesResponse)
        requires
            old(self)@.wf(),
            now + election_timeout <= u64::MAX,
        ensures
            final(self)@ == old(self)@.receive_append_entries(request@, now, election_timeout),
            response == old(self)@.node.handle_append_entries(request@).1,
            final(self)@.wf(),
    {
        let current = request.term >= self.node.current_term;
        let response = self.node.handle_append_entries(request);
        if current {
            self.node.election_timer.reset_with(now, election_timeout);
        }
        response
    }

    /// Handles one event with the clock at `now`. Where the event starts the
    /// election timer anew, the timer runs for `election_timeout`. Messages
    /// that the event causes are queued behind `actions`.
    pub fn handle_event_with(
        &mut self,
        event: RaftEvent,
        now: u64,
        election_timeout: u64,
        actions: &mut Vec<RaftAction>,
    )
        requires
            old(self)@.wf(),
            old(self)@.can_handle(now, election_timeout),
        ensures
            final(self)@ == old(self)@.handle_event(event@, now, election_timeout).0,
            actions_view(final(actions)@) == actions_view(old(actions)@) + old(self)@.handle_event(
                event@,
                now,
                election_timeout,
            ).1,
            final(self)@.wf(),
    {
        match event {
            RaftEvent::ReceivedRequestVote(request) => {
                let _ = self.receive_request_vote(request);
            },
            RaftEvent::ReceivedRequestVoteResponse(response) => {
                self.count_vote(response, now, actions);
                return;
            },
            RaftEvent::ReceivedAppendEntries(request) => {
                let _ = self.receive_append_entries(request, now, election_timeout);
            },
            RaftEvent::ReceivedAppendEntriesResponse(peer, response) => {
                self.node.handle_append_entries_response(peer, response);
            },
            RaftEvent::ElectionTimeout => {},
            RaftEvent::HeartbeatTimeout => {},
        }
    }

    /// Handles one event with the clock at `now`, as [`Self::handle_event_with`]
    /// does with a fresh random election timeout.
    pub fn handle_event(&mut self, event: RaftEvent, now: u64, actions: &mut Vec<RaftAction>)
        requires
            old(self)@.wf(),
            old(self)@.can_handle(now, ELECTION_TIMEOUT_MAX),
        ensures
            exists|election_timeout: u64|
                {
                    &&& ELECTION_TIMEOUT_MIN <= election_timeout <= ELECTION_TIMEOUT_MAX
                    &&& final(self)@ == (#[trigger] old(self)@.handle_event(
                        event@,
                        now,
                        election_timeout,
                    )).0
                    &&& actions_view(final(actions)@) == actions_view(old(actions)@)
                        + old(self)@.handle_event(event@, now, election_timeout).1
                },
            final(self)@.wf(),
    {
        let election_timeout = random_election_timeout();
        self.handle_event_with(event, now, election_timeout, actions);
    }

    /// One tick with the clock at `now`: starts an election if the election
    /// timer has elapsed and the node is no leader, sends heartbeats if the
    /// node leads and its heartbeat timer has elapsed, then handles every
    /// queued event, oldest first. Returns the messages to send, in the order
    /// in which they arose. An election timer that is started anew runs for
    /// `election_timeout`.
    pub fn tick_with(&mut self, now: u64, election_timeout: u64) -> (actions: Vec<RaftAction>)
        requires
            old(self)@.wf(),
            old(self)@.can_tick(now, election_timeout),
        ensures
            (final(self)@, actions_view(actions@)) == old(self)@.tick(now, election_timeout),
            final(self)@.wf(),
            final(self)@.can_handle(now, election_timeout),
    {
        let mut actions: Vec<RaftAction> = Vec::new();
        if self.node.election_timer.is_elapsed(now) && !self.node.is_leader() {
            self.start_election(now, election_timeout, &mut actions);
        }
        if self.node.heartbeat_timer.is_elapsed(now) && self.node.is_leader() {
            self.node.heartbeat_timer.reset(now);
            self.push_append_requests(&mut actions);
        }
        let ghost sent = actions_view(actions@);
        let ghost events = self@.queue;
        let ghost goal = (RunnerView { queue: Seq::empty(), ..self@ }).handle_events(
            events,
            now,
            election_timeout,
        );
        loop
            invariant_except_break
                self@.wf(),
                self@.can_handle(now, election_timeout),
                (RunnerView { queue: Seq::empty(), ..self@ }).handle_events(
                    self@.queue,
                    now,
                    election_timeout,
                ).0 == goal.0,
                actions_view(actions@) + (RunnerView { queue: Seq::empty(), ..self@ }).handle_events(
                    self@.queue,
                    now,
                    election_timeout,
                ).1 == sent + goal.1,
            ensures
                self@ == goal.0,
                self@.wf(),
                self@.can_handle(now, election_timeout),
                actions_view(actions@) == sent + goal.1,
            decreases self.event_queue.len(),
        {
            let ghost before = self@;
            match self.event_queue.pop_front() {
                Some(event) => {
                    let ghost rest = self@;
                    assert(rest.queue =~= before.queue.drop_first());
                    self.handle_event_with(event, now, election_timeout, &mut actions);
                },
                None => {
                    assert(self@.queue =~= Seq::empty());
                    break ;
                },
            }
        }
        actions
    }

    /// One tick with the clock at `now`, as [`Self::tick_with`] does it with a
    /// fresh random election timeout.
    pub fn tick(&mut self, now: u64) -> (actions: Vec<RaftAction>)
        requires
            old(self)@.wf(),
            old(self)@.can_tick(now, ELECTION_TIMEOUT_MAX),
        ensures
            exists|election_timeout: u64|
                {
                    &&& ELECTION_TIMEOUT_MIN <= election_timeout <= ELECTION_TIMEOUT_MAX
                    &&& (final(self)@, actions_view(actions@)) == #[trigger] old(self)@.tick(
                        now,
                        election_timeout,
                    )
                },
            final(self)@.wf(),
    {
        let election_timeout = random_election_timeout();
        self.tick_with(now, election_timeout)
    }
}

} // verus!
