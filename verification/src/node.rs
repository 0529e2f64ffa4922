//! The node: the state of one cluster member and the handlers that move it
//! from one state to the next.
//!
//! Each handler is stated twice: as a function on [`NodeView`], which says what
//! the protocol does, and as a method of [`RaftNode`], which does it.

use crate::log::{
    entries_at_or_after, entries_continue, first_missing, holds_entry, is_first_missing, last_index,
    last_term, lemma_first_missing_unique, lemma_merged_well_formed, lemma_well_formed_positions,
    lemma_well_formed_prefix, log_matches, merged, term_at, well_formed, LogEntryView, LogStore,
};
use crate::rpc::{
    AppendEntriesRequest, AppendEntriesRequestView, AppendEntriesResponse, RequestVoteRequest,
    RequestVoteResponse,
};
use crate::timer::{
    heartbeat_interval, random_election_timeout, Timer, ELECTION_TIMEOUT_MAX, ELECTION_TIMEOUT_MIN,
    HEARTBEAT_INTERVAL,
};
use crate::types::{LogIndex, NodeId, RaftState, Term};
use std::collections::HashMap;
use vstd::prelude::*;

verus! {

broadcast use vstd::std_specs::hash::group_hash_axioms;

/// The mathematical value of a [`RaftNode`].
pub struct NodeView {
    pub id: NodeId,
    pub peers: Seq<NodeId>,
    pub state: RaftState,
    pub current_term: Term,
    pub voted_for: Option<NodeId>,
    pub log: Seq<LogEntryView>,
    pub commit_index: LogIndex,
    pub last_applied: LogIndex,
    pub next_index: Map<u64, LogIndex>,
    pub match_index: Map<u64, LogIndex>,
    pub election_timer: Timer,
    pub heartbeat_timer: Timer,
}

impl NodeView {
    /// What holds of a node after every transition: its log is well formed,
    /// nothing is applied that is not committed, nothing is committed that the
    /// log does not hold, the cluster can be counted, and a leader's next
    /// index for a peer does not pass the entry after its last one.
    pub open spec fn wf(self) -> bool {
        &&& well_formed(self.log)
        &&& self.peers.len() < usize::MAX
        &&& self.last_applied@ <= self.commit_index@ <= self.log.len()
        &&& self.state == RaftState::Leader ==> forall|i: int|
            0 <= i < self.peers.len() ==> self.next_index_for(#[trigger] self.peers[i])@
                <= self.log.len() + 1
    }

    /// A node as it is created: a follower in term zero with an empty log.
    pub open spec fn initial(
        id: NodeId,
        peers: Seq<NodeId>,
        now: u64,
        election_timeout: u64,
    ) -> NodeView {
        NodeView {
            id,
            peers,
            state: RaftState::Follower,
            current_term: Term(0),
            voted_for: None,
            log: Seq::empty(),
            commit_index: LogIndex(0),
            last_applied: LogIndex(0),
            next_index: Map::empty(),
            match_index: Map::empty(),
            election_timer: Timer::started(now, election_timeout),
            heartbeat_timer: Timer::started(now, HEARTBEAT_INTERVAL),
        }
    }

    pub open spec fn cluster_size(self) -> nat {
        self.peers.len() + 1
    }

    /// The least number of members that is more than half of the cluster.
    pub open spec fn quorum(self) -> nat {
        self.cluster_size() / 2 + 1
    }

    pub open spec fn become_follower(self, term: Term) -> NodeView {
        NodeView { state: RaftState::Follower, current_term: term, voted_for: None, ..self }
    }

    pub open spec fn become_candidate(self) -> NodeView {
        NodeView {
            state: RaftState::Candidate,
            current_term: Term((self.current_term.0 + 1) as u64),
            voted_for: Some(self.id),
            ..self
        }
    }

    /// The node as leader: every peer is to be sent the entry after the last
    /// one next, and is known to hold nothing yet.
    pub open spec fn become_leader(self) -> NodeView {
        let next = LogIndex((last_index(self.log).0 + 1) as u64);
        NodeView {
            state: RaftState::Leader,
            next_index: Map::new(
                |k: u64| self.next_index.contains_key(k) || self.peers.contains(NodeId(k)),
                |k: u64|
                    if self.peers.contains(NodeId(k)) {
                        next
                    } else {
                        self.next_index[k]
                    },
            ),
            match_index: Map::new(
                |k: u64| self.match_index.contains_key(k) || self.peers.contains(NodeId(k)),
                |k: u64|
                    if self.peers.contains(NodeId(k)) {
                        LogIndex(0)
                    } else {
                        self.match_index[k]
                    },
            ),
            ..self
        }
    }

    /// Whether a log that ends in `candidate_last_term` and
    /// `candidate_last_index` is at least as up to date as this node's: a
    /// later last term wins, and with equal terms the longer log.
    pub open spec fn log_is_up_to_date(
        self,
        candidate_last_term: Term,
        candidate_last_index: LogIndex,
    ) -> bool {
        candidate_last_term@ > last_term(self.log)@ || (candidate_last_term == last_term(self.log)
            && candidate_last_index@ >= last_index(self.log)@)
    }

    /// The node after it has seen `term` in a message: a follower of that term
    /// if the term is newer than its own, else unchanged.
    pub open spec fn observe_term(self, term: Term) -> NodeView {
        if term@ > self.current_term@ {
            self.become_follower(term)
        } else {
            self
        }
    }

    /// Whether the node, having observed the request's term, gives its vote.
    pub open spec fn grants_vote(self, request: RequestVoteRequest) -> bool {
        &&& request.term@ >= self.current_term@
        &&& (self.voted_for is None || self.voted_for == Some(request.candidate_id))
        &&& self.log_is_up_to_date(request.last_log_term, request.last_log_index)
    }

    pub open spec fn handle_request_vote(self, request: RequestVoteRequest) -> (
        NodeView,
        RequestVoteResponse,
    ) {
        let seen = self.observe_term(request.term);
        let granted = seen.grants_vote(request);
        (
            if granted {
                NodeView { voted_for: Some(request.candidate_id), ..seen }
            } else {
                seen
            },
            RequestVoteResponse { term: seen.current_term, vote_granted: granted },
        )
    }

    pub open spec fn handle_request_response(self, response: RequestVoteResponse) -> (
        NodeView,
        Option<bool>,
    ) {
        if self.state == RaftState::Candidate && response.term@ > self.current_term@ {
            (self.become_follower(response.term), Some(false))
        } else {
            (self, None)
        }
    }

    /// The number of the entry that is sent to `peer` next: one for a peer of
    /// which nothing is recorded.
    pub open spec fn next_index_for(self, peer: NodeId) -> LogIndex {
        if self.next_index.contains_key(peer.0) {
            self.next_index[peer.0]
        } else {
            LogIndex(1)
        }
    }

    /// The append request for `peer`: every entry from the peer's next index
    /// on, behind the entry before it.
    pub open spec fn create_append_entries(self, peer: NodeId) -> AppendEntriesRequestView {
        let next = self.next_index_for(peer);
        let prev = if next.0 == 0 {
            LogIndex(0)
        } else {
            LogIndex((next.0 - 1) as u64)
        };
        AppendEntriesRequestView {
            term: self.current_term,
            leader_id: self.id,
            prev_log_index: prev,
            prev_log_term: term_at(self.log, prev),
            entries: entries_at_or_after(self.log, next),
            leader_commit: self.commit_index,
        }
    }

    /// The node after it has heard from the leader of `term`, which is not
    /// older than its own term: a newer term makes it a follower of that term,
    /// and a candidate of the same term gives up its election.
    pub open spec fn hear_leader(self, term: Term) -> NodeView {
        if term@ > self.current_term@ {
            self.become_follower(term)
        } else if self.state == RaftState::Candidate {
            NodeView { state: RaftState::Follower, ..self }
        } else {
            self
        }
    }

    /// Whether replicating `entries` would cut the log at or below the commit index.
    pub open spec fn cuts_committed(self, entries: Seq<LogEntryView>) -> bool {
        let j = first_missing(self.log, entries);
        j < entries.len() && entries[j].index@ <= self.commit_index@
    }

    /// Whether the node, having heard the leader, takes the entries of the
    /// request: it is a follower, its log matches at the predecessor, the
    /// entries continue the log from there, and no committed entry would go.
    pub open spec fn accepts(self, request: AppendEntriesRequestView) -> bool {
        &&& self.state == RaftState::Follower
        &&& log_matches(self.log, request.prev_log_index, request.prev_log_term)
        &&& entries_continue(request.prev_log_index, request.prev_log_term, request.entries)
        &&& !self.cuts_committed(request.entries)
    }

    /// The index up to which the request lets the node commit: the leader's
    /// commit index, but no further than the last entry of the request.
    pub open spec fn commit_reach(request: AppendEntriesRequestView) -> LogIndex {
        let agreed = request.prev_log_index@ + request.entries.len();
        if request.leader_commit@ <= agreed {
            request.leader_commit
        } else {
            LogIndex(agreed as u64)
        }
    }

    /// The node after it has taken the entries of the request.
    pub open spec fn replicate(self, request: AppendEntriesRequestView) -> NodeView {
        let reach = Self::commit_reach(request);
        NodeView {
            log: merged(self.log, request.entries),
            commit_index: if reach@ > self.commit_index@ {
                reach
            } else {
                self.commit_index
            },
            ..self
        }
    }

    pub open spec fn handle_append_entries(self, request: AppendEntriesRequestView) -> (
        NodeView,
        AppendEntriesResponse,
    ) {
        if request.term@ < self.current_term@ {
            (self, AppendEntriesResponse { term: self.current_term, success: false })
        } else {
            let heard = self.hear_leader(request.term);
            if heard.accepts(request) {
                (
                    heard.replicate(request),
                    AppendEntriesResponse { term: heard.current_term, success: true },
                )
            } else {
                (heard, AppendEntriesResponse { term: heard.current_term, success: false })
            }
        }
    }

    /// Whether `peer` is known to hold the log up to the entry numbered `n`.
    pub open spec fn holds_through(self, n: nat) -> spec_fn(NodeId) -> bool {
        |peer: NodeId| self.match_index.contains_key(peer.0) && self.match_index[peer.0]@ >= n
    }

    /// The number of cluster members known to hold the entry numbered `n`:
    /// the node itself and each peer whose match index has reached `n`.
    pub open spec fn replicas(self, n: nat) -> nat {
        1 + self.peers.filter(self.holds_through(n)).len()
    }

    /// Whether the leader may move its commit index up to `n`: the entry is
    /// of the leader's own term and a quorum holds it.
    pub open spec fn can_commit(self, n: nat) -> bool {
        &&& self.commit_index@ < n <= self.log.len()
        &&& self.log[n - 1].term == self.current_term
        &&& self.replicas(n) >= self.quorum()
    }

    /// `n` is the highest index that the leader may commit.
    pub open spec fn is_commit_target(self, n: nat) -> bool {
        self.can_commit(n) && forall|m: nat| m > n ==> !self.can_commit(m)
    }

    /// The leader with its commit index moved up as far as it may go.
    pub open spec fn advance_commit_index(self) -> NodeView {
        if exists|n: nat| self.is_commit_target(n) {
            NodeView {
                commit_index: LogIndex((choose|n: nat| self.is_commit_target(n)) as u64),
                ..self
            }
        } else {
            self
        }
    }

    /// The leader after `peer` has confirmed an append request. A request
    /// carries every entry from the peer's next index on, so the peer holds
    /// the log as far as the leader did when it built the request; the leader
    /// takes that to be its whole log, and sends what comes after it next.
    pub open spec fn acknowledge(self, peer: NodeId) -> NodeView {
        NodeView {
            next_index: self.next_index.insert(
                peer.0,
                LogIndex((last_index(self.log).0 + 1) as u64),
            ),
            match_index: self.match_index.insert(peer.0, last_index(self.log)),
            ..self
        }
    }

    /// The leader after `peer` has refused an append request: the next
    /// request starts one entry earlier, but not before the first.
    pub open spec fn back_off(self, peer: NodeId) -> NodeView {
        if self.next_index[peer.0]@ > 1 {
            NodeView {
                next_index: self.next_index.insert(
                    peer.0,
                    LogIndex((self.next_index[peer.0].0 - 1) as u64),
                ),
                ..self
            }
        } else {
            self
        }
    }

    pub open spec fn handle_append_entries_response(
        self,
        peer: NodeId,
        response: AppendEntriesResponse,
    ) -> NodeView {
        if self.state != RaftState::Leader {
            self
        } else if response.term@ > self.current_term@ {
            self.become_follower(response.term)
        } else if !self.next_index.contains_key(peer.0) {
            self
        } else if response.success {
            self.acknowledge(peer).advance_commit_index()
        } else {
            self.back_off(peer)
        }
    }
}

/// One member of a Raft cluster.
#[derive(Debug)]
pub struct RaftNode {
    pub id: NodeId,
    pub peers: Vec<NodeId>,
    pub state: RaftState,
    // Persistent state.
    pub current_term: Term,
    pub voted_for: Option<NodeId>,
    pub log: LogStore,
    // Volatile state.
    pub commit_index: LogIndex,
    pub last_applied: LogIndex,
    // State of a leader, keyed by the peer's id.
    pub next_index: HashMap<u64, LogIndex>,
    pub match_index: HashMap<u64, LogIndex>,
    // Timers.
    pub election_timer: Timer,
    pub heartbeat_timer: Timer,
}

impl View for RaftNode {
    type V = NodeView;

    open spec fn view(&self) -> NodeView {
        NodeView {
            id: self.id,
            peers: self.peers@,
            state: self.state,
            current_term: self.current_term,
            voted_for: self.voted_for,
            log: self.log@,
            commit_index: self.commit_index,
            last_applied: self.last_applied,
            next_index: self.next_index@,
            match_index: self.match_index@,
            election_timer: self.election_timer,
            heartbeat_timer: self.heartbeat_timer,
        }
    }
}

impl Clone for RaftNode {
    fn clone(&self) -> (copy: Self)
        ensures
            copy@ == self@,
    {
        RaftNode {
            id: self.id,
            peers: self.peers.clone(),
            state: self.state,
            current_term: self.current_term,
            voted_for: self.voted_for,
            log: self.log.clone(),
            commit_index: self.commit_index,
            last_applied: self.last_applied,
            next_index: self.next_index.clone(),
            match_index: self.match_index.clone(),
            election_timer: self.election_timer,
            heartbeat_timer: self.heartbeat_timer,
        }
    }
}

impl RaftNode {
    /// A follower in term zero with an empty log, whose election timer runs
    /// for a random timeout from `now` and whose heartbeat timer runs for the
    /// heartbeat interval.
    pub fn new(id: NodeId, peers: Vec<NodeId>, now: u64) -> (node: Self)
        requires
            peers@.len() < usize::MAX,
            now + ELECTION_TIMEOUT_MAX <= u64::MAX,
        ensures
            node@ == NodeView::initial(id, peers@, now, node.election_timer.duration),
            ELECTION_TIMEOUT_MIN <= node.election_timer.duration <= ELECTION_TIMEOUT_MAX,
            node@.wf(),
    {
        let election_timeout = random_election_timeout();
        Self::with_election_timeout(id, peers, now, election_timeout)
    }

    /// A follower in term zero with an empty log, whose election timer runs
    /// for `election_timeout` from `now`.
    pub fn with_election_timeout(
        id: NodeId,
        peers: Vec<NodeId>,
        now: u64,
        election_timeout: u64,
    ) -> (node: Self)
        requires
            peers@.len() < usize::MAX,
            now + election_timeout <= u64::MAX,
            now + HEARTBEAT_INTERVAL <= u64::MAX,
        ensures
            node@ == NodeView::initial(id, peers@, now, election_timeout),
            node@.wf(),
    {
        let node = Self {
            id,
            peers,
            state: RaftState::Follower,
            current_term: Term::new(0),
            voted_for: None,
            log: LogStore::new(),
            commit_index: LogIndex::new(0),
            last_applied: LogIndex::new(0),
            next_index: HashMap::new(),
            match_index: HashMap::new(),
            election_timer: Timer::new(now, election_timeout),
            heartbeat_timer: Timer::new(now, heartbeat_interval()),
        };
        node
    }

    /// Tests whether the node is well formed, as every handler expects and
    /// leaves it.
    pub fn is_well_formed(&self) -> (ok: bool)
        ensures
            ok == self@.wf(),
    {
        if !self.log.is_well_formed() || self.peers.len() == usize::MAX {
            return false;
        }
        let length = self.log.len() as u64;
        if self.last_applied > self.commit_index || self.commit_index.get() > length {
            return false;
        }
        if self.is_leader() {
            let mut i: usize = 0;
            while i < self.peers.len()
                invariant
                    i <= self.peers.len(),
                    self.state == RaftState::Leader,
                    length == self@.log.len(),
                    length < u64::MAX,
                    forall|k: int|
                        0 <= k < i ==> self@.next_index_for(#[trigger] self@.peers[k])@ <= length
                            + 1,
                decreases self.peers.len() - i,
            {
                let next = match self.next_index.get(&self.peers[i].get()) {
                    Some(index) => index.get(),
                    None => 1,
                };
                if next > length + 1 {
                    return false;
                }
                i += 1;
            }
        }
        true
    }

    pub fn is_leader(&self) -> (leader: bool)
        ensures
            leader <==> self.state == RaftState::Leader,
    {
        self.state == RaftState::Leader
    }

    pub fn is_follower(&self) -> (follower: bool)
        ensures
            follower <==> self.state == RaftState::Follower,
    {
        self.state == RaftState::Follower
    }

    pub fn is_candidate(&self) -> (candidate: bool)
        ensures
            candidate <==> self.state == RaftState::Candidate,
    {
        self.state == RaftState::Candidate
    }

    pub fn cluster_size(&self) -> (size: usize)
        requires
            self.peers@.len() < usize::MAX,
        ensures
            size == self@.cluster_size(),
    {
        self.peers.len() + 1
    }

    pub fn quorum(&self) -> (quorum: usize)
        requires
            self.peers@.len() < usize::MAX,
        ensures
            quorum == self@.quorum(),
    {
        self.cluster_size() / 2 + 1
    }

    pub fn become_follower(&mut self, term: Term)
        ensures
            final(self)@ == old(self)@.become_follower(term),
            old(self)@.wf() ==> final(self)@.wf(),
    {
        self.state = RaftState::Follower;
        self.current_term = term;
        self.voted_for = None;
    }

    /// Starts an election: the node enters the next term as a candidate and
    /// votes for itself.
    pub fn become_candidate(&mut self)
        requires
            old(self).state != RaftState::Leader,
            old(self).current_term@ < u64::MAX,
        ensures
            final(self)@ == old(self)@.become_candidate(),
            old(self)@.wf() ==> final(self)@.wf(),
    {
        self.state = RaftState::Candidate;
        self.current_term = Term::new(self.current_term.get() + 1);
        self.voted_for = Some(self.id);
    }

    pub fn handle_request_vote(&mut self, request: RequestVoteRequest) -> (response:
        RequestVoteResponse)
        ensures
            (final(self)@, response) == old(self)@.handle_request_vote(request),
            old(self)@.wf() ==> final(self)@.wf(),
    {
        if request.term > self.current_term {
            self.become_follower(request.term);
        }
        let unpledged = match self.voted_for {
            None => true,
            Some(candidate) => candidate == request.candidate_id,
        };
        let can_vote = request.term >= self.current_term && unpledged
            && self.is_log_up_to_date(request.last_log_term, request.last_log_index);
        if can_vote {
            self.voted_for = Some(request.candidate_id);
        }
        RequestVoteResponse { term: self.current_term, vote_granted: can_vote }
    }

    /// Takes the answer to a vote request. A candidate that learns of a newer
    /// term steps down and reports `Some(false)`: the election has failed.
    /// Every other answer leaves the node as it is and reports `None`; the
    /// caller counts the votes.
    pub fn handle_request_response(&mut self, response: RequestVoteResponse) -> (outcome: Option<
        bool,
    >)
        ensures
            (final(self)@, outcome) == old(self)@.handle_request_response(response),
            old(self)@.wf() ==> final(self)@.wf(),
    {
        if !self.is_candidate() {
            return None;
        }
        if response.term > self.current_term {
            self.become_follower(response.term);
            return Some(false);
        }
        None
    }

    pub fn is_log_up_to_date(
        &self,
        candidate_last_log_term: Term,
        candidate_last_log_index: LogIndex,
    ) -> (up_to_date: bool)
        ensures
            up_to_date == self@.log_is_up_to_date(candidate_last_log_term, candidate_last_log_index),
    {
        let my_last_term = self.log.last_log_term();
        let my_last_index = self.log.last_log_index();
        if candidate_last_log_term > my_last_term {
            return true;
        }
        if candidate_last_log_term == my_last_term {
            return candidate_last_log_index >= my_last_index;
        }
        false
    }

    /// Takes up leadership after a won election.
    pub fn become_leader(&mut self)
        requires
            old(self).state == RaftState::Candidate,
            old(self)@.wf(),
        ensures
            final(self)@ == old(self)@.become_leader(),
            final(self)@.wf(),
    {
        self.state = RaftState::Leader;
        proof {
            lemma_well_formed_positions(self.log@, LogIndex(0));
        }
        let next_index_value = LogIndex::new(self.log.last_log_index().get() + 1);
        let mut i: usize = 0;
        while i < self.peers.len()
            invariant
                i <= self.peers.len(),
                self.peers == old(self).peers,
                *self == (RaftNode {
                    next_index: self.next_index,
                    match_index: self.match_index,
                    state: RaftState::Leader,
                    ..*old(self)
                }),
                forall|k: u64|
                    self.next_index@.contains_key(k) <==> old(self).next_index@.contains_key(k)
                        || self.peers@.take(i as int).contains(NodeId(k)),
                forall|k: u64|
                    self.match_index@.contains_key(k) <==> old(self).match_index@.contains_key(k)
                        || self.peers@.take(i as int).contains(NodeId(k)),
                forall|k: u64| #[trigger]
                    self.next_index@.contains_key(k) ==> self.next_index@[k] == (if self.peers@.take(
                        i as int,
                    ).contains(NodeId(k)) {
                        next_index_value
                    } else {
                        old(self).next_index@[k]
                    }),
                forall|k: u64| #[trigger]
                    self.match_index@.contains_key(k) ==> self.match_index@[k] == (
                    if self.peers@.take(i as int).contains(NodeId(k)) {
                        LogIndex(0)
                    } else {
                        old(self).match_index@[k]
                    }),
            decreases self.peers.len() - i,
        {
            let peer = self.peers[i];
            proof {
                let before = self.peers@.take(i as int);
                let after = self.peers@.take(i + 1);
                assert(after =~= before.push(peer));
                assert forall|k: u64| after.contains(NodeId(k)) <==> (before.contains(NodeId(k))
                    || k == peer.0) by {
                    if before.contains(NodeId(k)) {
                        let at = choose|at: int| 0 <= at < before.len() && before[at] == NodeId(k);
                        assert(after[at] == NodeId(k));
                    }
                    if k == peer.0 {
                        assert(after[i as int] == NodeId(k));
                    }
                }
            }
            self.next_index.insert(peer.get(), next_index_value);
            self.match_index.insert(peer.get(), LogIndex::new(0));
            i += 1;
        }
        proof {
            assert(self.peers@.take(i as int) =~= self.peers@);
            assert(self@.next_index =~= old(self)@.become_leader().next_index);
            assert(self@.match_index =~= old(self)@.become_leader().match_index);
            assert forall|k: int| 0 <= k < self@.peers.len() implies self@.next_index_for(
                #[trigger] self@.peers[k],
            )@ <= self@.log.len() + 1 by {
                assert(old(self)@.peers.contains(NodeId(self@.peers[k].0)));
            }
        }
    }

    /// Builds the append request for `peer` from the leader's state.
    pub fn create_append_entries(&self, peer: &NodeId) -> (request: AppendEntriesRequest)
        requires
            self@.wf(),
        ensures
            request@ == self@.create_append_entries(*peer),
    {
        let next_idx = match self.next_index.get(&peer.get()) {
            Some(index) => *index,
            None => LogIndex::new(1),
        };
        let prev_log_index = LogIndex::new(
            if next_idx.get() == 0 {
                0
            } else {
                next_idx.get() - 1
            },
        );
        let prev_log_term = match self.log.term_of(prev_log_index) {
            Some(term) => term,
            None => Term::new(0),
        };
        let entries = self.log.entries_from(next_idx);
        AppendEntriesRequest {
            term: self.current_term,
            leader_id: self.id,
            prev_log_index,
            prev_log_term,
            entries,
            leader_commit: self.commit_index,
        }
    }

    /// The position of the first entry of the request that the log does not hold.
    fn first_missing_entry(&self, request: &AppendEntriesRequest) -> (j: usize)
        requires
            self@.wf(),
        ensures
            is_first_missing(self@.log, request@.entries, j as int),
            j == first_missing(self@.log, request@.entries),
    {
        let mut j: usize = 0;
        let mut missing = false;
        while j < request.entries.len() && !missing
            invariant
                j <= request.entries.len(),
                self@.wf(),
                forall|i: int|
                    0 <= i < j ==> holds_entry(self@.log, #[trigger] request@.entries[i]),
                missing ==> j < request.entries.len() && !holds_entry(
                    self@.log,
                    request@.entries[j as int],
                ),
            decreases
                    request.entries.len() - j + (if missing {
                        0int
                    } else {
                        1int
                    }),
        {
            let entry = &request.entries[j];
            let held = match self.log.term_of(entry.index) {
                Some(term) => term == entry.term,
                None => false,
            };
            if held {
                j += 1;
            } else {
                missing = true;
            }
        }
        proof {
            lemma_first_missing_unique(self@.log, request@.entries, j as int);
        }
        j
    }

    /// Whether the node, having heard the leader, takes the entries of the request.
    fn accepts(&self, request: &AppendEntriesRequest) -> (accepted: bool)
        requires
            self@.wf(),
        ensures
            accepted == self@.accepts(request@),
    {
        if !self.is_follower() {
            return false;
        }
        let matches = request.prev_log_index.get() == 0 || match self.log.term_of(
            request.prev_log_index,
        ) {
            Some(term) => term == request.prev_log_term,
            None => false,
        };
        if !matches || !request.continues_log() {
            return false;
        }
        let j = self.first_missing_entry(request);
        if j < request.entries.len() {
            let entry = &request.entries[j];
            if entry.index <= self.commit_index {
                return false;
            }
        }
        true
    }

    /// Takes an append request of a leader. A request of an older term is
    /// refused and changes nothing. Any other request makes the node follow
    /// the term of the request; it is then refused, with the log untouched,
    /// unless the node is a follower whose log matches at the predecessor that
    /// the request names, the entries continue the log from there, and taking
    /// them would cut no committed entry.
    pub fn handle_append_entries(&mut self, request: AppendEntriesRequest) -> (response:
        AppendEntriesResponse)
        requires
            old(self)@.wf(),
        ensures
            (final(self)@, response) == old(self)@.handle_append_entries(request@),
            final(self)@.wf(),
    {
        if request.term < self.current_term {
            return AppendEntriesResponse { term: self.current_term, success: false };
        }
        if request.term > self.current_term {
            self.become_follower(request.term);
        } else if self.is_candidate() {
            self.state = RaftState::Follower;
        }
        if !self.accepts(&request) {
            return AppendEntriesResponse { term: self.current_term, success: false };
        }
        self.replicate(request);
        AppendEntriesResponse { term: self.current_term, success: true }
    }

    /// Puts the entries of an accepted request into the log and moves the
    /// commit index up as far as the request allows.
    fn replicate(&mut self, request: AppendEntriesRequest)
        requires
            old(self)@.wf(),
            old(self)@.accepts(request@),
        ensures
            final(self)@ == old(self)@.replicate(request@),
            final(self)@.wf(),
    {
        let ghost wanted = request@;
        let j = self.first_missing_entry(&request);
        proof {
            lemma_merged_well_formed(
                self@.log,
                request.prev_log_index,
                request.prev_log_term,
                request@.entries,
            );
        }
        let agreed = request.prev_log_index.get() + request.entries.len() as u64;
        let leader_commit = request.leader_commit;
        if j < request.entries.len() {
            let cut = request.entries[j].index;
            let mut entries = request.entries;
            let mut tail = entries.split_off(j);
            proof {
                lemma_well_formed_prefix(self.log@, cut);
            }
            self.log.truncate(cut);
            let ghost kept = self.log@;
            assert(kept =~= old(self)@.log.take(cut@ - 1));
            self.log.entries.append(&mut tail);
            assert(self.log@ =~= kept + wanted.entries.skip(j as int));
        }
        let reach = if leader_commit.get() <= agreed {
            leader_commit
        } else {
            LogIndex::new(agreed)
        };
        if reach > self.commit_index {
            self.commit_index = reach;
        }
    }

    /// The number of cluster members known to hold the entry numbered `n`.
    fn count_replicas(&self, n: u64) -> (count: usize)
        requires
            self@.wf(),
        ensures
            count == self@.replicas(n as nat),
    {
        let ghost holds = self@.holds_through(n as nat);
        let mut count: usize = 1;
        let mut i: usize = 0;
        while i < self.peers.len()
            invariant
                i <= self.peers.len(),
                self.peers@.len() < usize::MAX,
                holds == self@.holds_through(n as nat),
                count == 1 + self.peers@.take(i as int).filter(holds).len(),
                count <= i + 1,
            decreases self.peers.len() - i,
        {
            proof {
                assert(self.peers@.take(i + 1) =~= self.peers@.take(i as int).push(
                    self.peers@[i as int],
                ));
                self.peers@.take(i as int).lemma_filter_push(self.peers@[i as int], holds);
            }
            let reached = match self.match_index.get(&self.peers[i].get()) {
                Some(index) => index.get() >= n,
                None => false,
            };
            if reached {
                count += 1;
            }
            i += 1;
        }
        assert(self.peers@.take(i as int) =~= self.peers@);
        count
    }

    /// Moves the commit index of a leader up to the highest entry of its own
    /// term that a quorum is known to hold; leaves it where there is none.
    pub fn advance_commit_index(&mut self)
        requires
            old(self)@.wf(),
        ensures
            final(self)@ == old(self)@.advance_commit_index(),
            final(self)@.wf(),
    {
        let quorum = self.quorum();
        let mut n: u64 = self.log.last_log_index().get();
        proof {
            lemma_well_formed_positions(self.log@, LogIndex(0));
        }
        while n > self.commit_index.get()
            invariant
                *self == *old(self),
                self@.wf(),
                quorum == self@.quorum(),
                n <= self@.log.len(),
                forall|m: nat| m > n ==> !self@.can_commit(m),
            decreases n,
        {
            let term = self.log.term_of(LogIndex::new(n));
            let own_term = match term {
                Some(term) => term == self.current_term,
                None => false,
            };
            if own_term && self.count_replicas(n) >= quorum {
                assert(self@.is_commit_target(n as nat));
                assert forall|k: nat| self@.is_commit_target(k) implies k == n by {
                    if k < n {
                        assert(self@.can_commit(n as nat));
                    }
                }
                self.commit_index = LogIndex::new(n);
                return;
            }
            n -= 1;
        }
        assert forall|k: nat| !self@.is_commit_target(k) by {
            if self@.can_commit(k) {
                assert(k > n);
            }
        }
    }

    /// Takes the answer of `peer` to an append request. Only a leader acts on
    /// it. A newer term makes the node a follower. An answer of a peer of
    /// which no next index is recorded is ignored. A success records that the
    /// peer holds the log, as far as the leader holds it now, and moves the
    /// commit index up as far as a quorum allows; a failure moves the peer's
    /// next index one entry back, but not before the first entry.
    pub fn handle_append_entries_response(&mut self, peer: NodeId, response: AppendEntriesResponse)
        requires
            old(self)@.wf(),
        ensures
            final(self)@ == old(self)@.handle_append_entries_response(peer, response),
            final(self)@.wf(),
    {
        if !self.is_leader() {
            return;
        }
        if response.term > self.current_term {
            self.become_follower(response.term);
            return;
        }
        let recorded = match self.next_index.get(&peer.get()) {
            Some(index) => Some(*index),
            None => None,
        };
        match recorded {
            None => {},
            Some(next_idx) => {
                if response.success {
                    let last = self.log.last_log_index();
                    self.next_index.insert(peer.get(), LogIndex::new(last.get() + 1));
                    self.match_index.insert(peer.get(), last);
                    self.advance_commit_index();
                } else if next_idx.get() > 1 {
                    self.next_index.insert(peer.get(), LogIndex::new(next_idx.get() - 1));
                }
            },
        }
    }
}

} // verus!
