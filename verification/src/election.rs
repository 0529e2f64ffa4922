//! Election safety of a simulated cluster: whatever ticks it makes, no term
//! sees two leaders.
//!
//! The proof keeps a record of every vote that a node has given and of every
//! node that has taken office, and shows that each step of a tick can extend
//! the record so that it stays truthful. A leader needs the votes of a
//! quorum, a node votes once in a term, and two quorums share a member.

use crate::event::RaftEventView;
use crate::laws::{
    law_event_moves_on, law_handlers_keep_well_formed, law_office_needs_quorum,
    law_quorums_intersect, lemma_leader_is_well_formed,
};
use crate::node::NodeView;
use crate::raft::{RaftActionView, RunnerView};
use crate::simulator::{
    can_tick, cluster_tick, deliver, deliver_all, has_runner, initial_cluster, is_runner_of, others,
    runner_of, sent_by, ticked, with_event, Sent,
};
use crate::timer::Timer;
use crate::types::{NodeId, RaftState, Term};
use vstd::prelude::*;

verus! {

/// A record of an election history: for a voter and a term the candidate
/// that the voter chose, and for a term the node that took office in it.
pub struct History {
    pub votes: Map<(NodeId, Term), NodeId>,
    pub leaders: Map<Term, NodeId>,
}

impl History {
    /// The record in which nothing has happened yet.
    pub open spec fn empty() -> History {
        History { votes: Map::empty(), leaders: Map::empty() }
    }

    /// Whether this record holds everything that `earlier` holds.
    pub open spec fn extends(self, earlier: History) -> bool {
        earlier.votes.submap_of(self.votes) && earlier.leaders.submap_of(self.leaders)
    }

    /// The nodes on record as having voted for `candidate` in `term`.
    pub open spec fn voters(self, candidate: NodeId, term: Term) -> Set<NodeId> {
        Set::new(|voter: NodeId| self.votes.contains_pair((voter, term), candidate))
    }

    /// The record with one more vote.
    pub open spec fn with_vote(self, voter: NodeId, term: Term, candidate: NodeId) -> History {
        History { votes: self.votes.insert((voter, term), candidate), ..self }
    }

    /// The record with one more leader.
    pub open spec fn with_leader(self, term: Term, leader: NodeId) -> History {
        History { leaders: self.leaders.insert(term, leader), ..self }
    }
}

/// The ids of the nodes of a cluster, in the order of its runners.
pub open spec fn member_ids(cluster: Seq<RunnerView>) -> Seq<NodeId> {
    cluster.map_values(|runner: RunnerView| runner.node.id)
}

/// The least number of nodes that is more than half of a cluster of `size`.
pub open spec fn quorum_of(size: nat) -> nat {
    size / 2 + 1
}

/// Whether `event` is the answer that grants a vote in `term`.
pub open spec fn is_grant(term: Term) -> spec_fn(RaftEventView) -> bool {
    |event: RaftEventView|
        event matches RaftEventView::ReceivedRequestVoteResponse(response)
            && response.vote_granted && response.term == term
}

/// The number of answers among `events` that grant a vote in `term`.
pub open spec fn grants(events: Seq<RaftEventView>, term: Term) -> nat {
    events.filter(is_grant(term)).len()
}

/// Whether an event is the answer to a request.
pub open spec fn is_answer(event: RaftEventView) -> bool {
    event is ReceivedRequestVoteResponse || event is ReceivedAppendEntriesResponse
}

/// A queue that may stand behind a node in `term`: it holds nothing but
/// answers, and none grants a vote in a term after `term`.
pub open spec fn is_queue_of_answers(queue: Seq<RaftEventView>, term: Term) -> bool {
    &&& forall|k: int| 0 <= k < queue.len() ==> is_answer(#[trigger] queue[k])
    &&& forall|k: int|
        0 <= k < queue.len() ==> (
        #[trigger] queue[k] matches RaftEventView::ReceivedRequestVoteResponse(response)
            ==> response.vote_granted ==> response.term@ <= term@)
}

/// Whether a runner agrees with the record. The vote of its node in its term
/// is on record, and no vote of the node in a later term; no vote for the
/// node is on record in a term that the node has not reached; a leader is on
/// record as leader of its term; a candidate's votes are counted for its
/// term; a leader or candidate has voted for itself; the queue holds
/// answers; and a candidate has counted, and has waiting in its queue, no
/// more votes than are on record for it.
pub open spec fn is_sound_runner(runner: RunnerView, history: History) -> bool {
    let node = runner.node;
    &&& runner.wf()
    &&& node.voted_for matches Some(candidate) ==> history.votes.contains_pair(
        (node.id, node.current_term),
        candidate,
    )
    &&& forall|term: Term| #[trigger]
        history.votes.contains_key((node.id, term)) ==> {
            &&& term@ <= node.current_term@
            &&& term == node.current_term ==> node.voted_for == Some(
                history.votes[(node.id, term)],
            )
        }
    &&& forall|voter: NodeId, term: Term| #[trigger]
        history.votes.contains_pair((voter, term), node.id) ==> term@ <= node.current_term@
    &&& node.state == RaftState::Leader ==> history.leaders.contains_pair(
        node.current_term,
        node.id,
    )
    &&& node.state == RaftState::Candidate ==> runner.tally_term == Some(node.current_term)
    &&& node.state != RaftState::Follower ==> node.voted_for == Some(node.id)
    &&& is_queue_of_answers(runner.queue, node.current_term)
    &&& runner.counting() ==> runner.votes + grants(runner.queue, node.current_term)
        <= history.voters(node.id, node.current_term).len()
}

/// The shape of a cluster: every node has its own id, and the peers of each
/// are the other nodes, each once.
pub open spec fn has_shape(cluster: Seq<RunnerView>) -> bool {
    &&& forall|i: int, j: int|
        0 <= i < cluster.len() && 0 <= j < cluster.len() && i != j ==> (#[trigger] cluster[i]).node.id
            != (#[trigger] cluster[j]).node.id
    &&& forall|i: int|
        0 <= i < cluster.len() ==> {
            let node = (#[trigger] cluster[i]).node;
            &&& node.peers.no_duplicates()
            &&& !node.peers.contains(node.id)
            &&& node.peers.len() + 1 == cluster.len()
            &&& forall|k: int|
                0 <= k < node.peers.len() ==> has_runner(cluster, #[trigger] node.peers[k])
        }
}

/// Whether the record is of this cluster: every voter on record is a node of
/// it, and every leader on record has the votes of a quorum on record.
pub open spec fn is_sound_record(cluster: Seq<RunnerView>, history: History) -> bool {
    &&& forall|voter: NodeId, term: Term| #[trigger]
        history.votes.contains_key((voter, term)) ==> has_runner(cluster, voter)
    &&& forall|term: Term| #[trigger]
        history.leaders.contains_key(term) ==> history.voters(history.leaders[term], term).len()
            >= quorum_of(cluster.len())
}

/// Whether the vote requests on their way are in order: each is of its
/// sender, of a term that the sender has reached and voted for itself in,
/// and to a node that has not voted for the sender in that term; and no two
/// are of one sender, to one node, in one term.
pub open spec fn requests_are_fresh(
    cluster: Seq<RunnerView>,
    history: History,
    sent: Seq<Sent>,
) -> bool {
    &&& forall|a: int|
        0 <= a < sent.len() ==> ((#[trigger] sent[a]).1 matches RaftActionView::SendRequestVote(
            to,
            request,
        ) ==> {
            &&& request.candidate_id == sent[a].0
            &&& has_runner(cluster, sent[a].0)
            &&& history.votes.contains_pair((sent[a].0, request.term), sent[a].0)
            &&& !history.votes.contains_pair((to, request.term), sent[a].0)
        })
    &&& forall|a: int, i: int|
        0 <= a < sent.len() && 0 <= i < cluster.len() ==> ((
        #[trigger] sent[a]).1 matches RaftActionView::SendRequestVote(to, request) ==> sent[a].0 == (
        #[trigger] cluster[i]).node.id ==> request.term@ <= cluster[i].node.current_term@)
    &&& forall|a: int, b: int|
        0 <= a < b < sent.len() ==> ((#[trigger] sent[a]).1 matches RaftActionView::SendRequestVote(
            to_a,
            request_a,
        ) ==> ((#[trigger] sent[b]).1 matches RaftActionView::SendRequestVote(to_b, request_b) ==> !(
        sent[a].0 == sent[b].0 && to_a == to_b && request_a.term == request_b.term)))
}

/// What holds of a simulated cluster, of the record of its history and of
/// the messages on their way, at every step of every tick.
pub open spec fn is_safe(cluster: Seq<RunnerView>, history: History, sent: Seq<Sent>) -> bool {
    &&& has_shape(cluster)
    &&& forall|i: int| 0 <= i < cluster.len() ==> is_sound_runner(#[trigger] cluster[i], history)
    &&& is_sound_record(cluster, history)
    &&& requests_are_fresh(cluster, history, sent)
}

/// The nodes of a cluster are as many as its ids, and the voters on record
/// for a candidate are among them.
pub proof fn lemma_voters_are_members(
    cluster: Seq<RunnerView>,
    history: History,
    candidate: NodeId,
    term: Term,
)
    requires
        has_shape(cluster),
        forall|voter: NodeId, term: Term| #[trigger]
            history.votes.contains_key((voter, term)) ==> has_runner(cluster, voter),
    ensures
        member_ids(cluster).to_set().finite(),
        member_ids(cluster).to_set().len() == cluster.len(),
        history.voters(candidate, term).subset_of(member_ids(cluster).to_set()),
        history.voters(candidate, term).finite(),
        history.voters(candidate, term).len() <= cluster.len(),
{
    let ids = member_ids(cluster);
    ids.unique_seq_to_set();
    let voters = history.voters(candidate, term);
    assert forall|voter: NodeId| voters.contains(voter) implies ids.to_set().contains(voter) by {
        let i = choose|i: int| 0 <= i < cluster.len() && (#[trigger] cluster[i]).node.id == voter;
        assert(ids[i] == voter);
    }
    vstd::set_lib::lemma_len_subset(voters, ids.to_set());
}

/// A record that holds more has at least as many voters for a candidate.
pub proof fn lemma_voters_grow(
    cluster: Seq<RunnerView>,
    history: History,
    later: History,
    candidate: NodeId,
    term: Term,
)
    requires
        has_shape(cluster),
        later.extends(history),
        forall|voter: NodeId, term: Term| #[trigger]
            later.votes.contains_key((voter, term)) ==> has_runner(cluster, voter),
    ensures
        history.voters(candidate, term).len() <= later.voters(candidate, term).len(),
{
    lemma_voters_are_members(cluster, later, candidate, term);
    assert(history.voters(candidate, term).subset_of(later.voters(candidate, term)));
    vstd::set_lib::lemma_len_subset(
        history.voters(candidate, term),
        later.voters(candidate, term),
    );
}

/// Replacing a runner by one that drives the same node changes no id.
pub proof fn lemma_update_keeps_ids(cluster: Seq<RunnerView>, i: int, after: RunnerView)
    requires
        0 <= i < cluster.len(),
        after.node.id == cluster[i].node.id,
    ensures
        forall|id: NodeId| has_runner(cluster.update(i, after), id) == has_runner(cluster, id),
{
    let next = cluster.update(i, after);
    assert forall|id: NodeId| has_runner(next, id) == has_runner(cluster, id) by {
        if has_runner(cluster, id) {
            let j = choose|j: int| 0 <= j < cluster.len() && (#[trigger] cluster[j]).node.id == id;
            assert(next[j].node.id == id);
        }
        if has_runner(next, id) {
            let j = choose|j: int| 0 <= j < next.len() && (#[trigger] next[j]).node.id == id;
            assert(cluster[j].node.id == id);
        }
    }
}

/// One step of one runner. The cluster stays safe when the runner still
/// drives the same node, in a term that is not lower than before, and agrees
/// with a record that holds what the old one held and beyond that only
/// votes of this node, for candidates that have reached the term of the
/// vote and from which no request to this node is on its way in that term,
/// and leaders with the votes of a quorum.
pub proof fn lemma_step(
    cluster: Seq<RunnerView>,
    history: History,
    sent: Seq<Sent>,
    i: int,
    after: RunnerView,
    later: History,
)
    requires
        is_safe(cluster, history, sent),
        0 <= i < cluster.len(),
        after.node.id == cluster[i].node.id,
        after.node.peers == cluster[i].node.peers,
        after.node.current_term@ >= cluster[i].node.current_term@,
        later.extends(history),
        is_sound_runner(after, later),
        forall|voter: NodeId, term: Term| #[trigger]
            later.votes.contains_key((voter, term)) && !history.votes.contains_key((voter, term))
                ==> voter == after.node.id,
        forall|j: int, voter: NodeId, term: Term|
            0 <= j < cluster.len() && j != i && #[trigger] later.votes.contains_pair(
                (voter, term),
                (#[trigger] cluster[j]).node.id,
            ) && !history.votes.contains_key((voter, term)) ==> term@
                <= cluster[j].node.current_term@,
        forall|term: Term| #[trigger]
            later.leaders.contains_key(term) && !history.leaders.contains_key(term)
                ==> later.voters(later.leaders[term], term).len() >= quorum_of(cluster.len()),
        forall|a: int|
            0 <= a < sent.len() ==> ((
            #[trigger] sent[a]).1 matches RaftActionView::SendRequestVote(to, request)
                ==> !later.votes.contains_pair((to, request.term), sent[a].0)),
    ensures
        is_safe(cluster.update(i, after), later, sent),
{
    let next = cluster.update(i, after);
    lemma_update_keeps_ids(cluster, i, after);
    assert(has_shape(next)) by {
        assert forall|j: int| 0 <= j < next.len() implies {
            let node = (#[trigger] next[j]).node;
            &&& node.peers.no_duplicates()
            &&& !node.peers.contains(node.id)
            &&& node.peers.len() + 1 == next.len()
            &&& forall|k: int|
                0 <= k < node.peers.len() ==> has_runner(next, #[trigger] node.peers[k])
        } by {
            let was = cluster[j].node;
            assert(was.peers.no_duplicates());
        }
        assert forall|a: int, b: int|
            0 <= a < next.len() && 0 <= b < next.len() && a != b implies (#[trigger] next[a]).node.id
            != (#[trigger] next[b]).node.id by {
            assert(cluster[a].node.id != cluster[b].node.id);
        }
    }
    assert(is_sound_record(next, later)) by {
        assert forall|voter: NodeId, term: Term| #[trigger]
            later.votes.contains_key((voter, term)) implies has_runner(next, voter) by {
            if history.votes.contains_key((voter, term)) {
            } else {
                assert(cluster[i].node.id == voter);
            }
        }
        assert forall|term: Term| #[trigger] later.leaders.contains_key(term) implies later.voters(
            later.leaders[term],
            term,
        ).len() >= quorum_of(next.len()) by {
            if history.leaders.contains_key(term) {
                assert(later.leaders[term] == history.leaders[term]);
                lemma_voters_grow(next, history, later, history.leaders[term], term);
            }
        }
    }
    assert forall|j: int| 0 <= j < next.len() implies is_sound_runner(
        #[trigger] next[j],
        later,
    ) by {
        if j != i {
            let runner = cluster[j];
            let node = runner.node;
            assert(is_sound_runner(runner, history));
            assert(node.id != after.node.id) by {
                assert(cluster[j].node.id != cluster[i].node.id);
            }
            assert forall|term: Term| #[trigger]
                later.votes.contains_key((node.id, term)) implies {
                &&& term@ <= node.current_term@
                &&& term == node.current_term ==> node.voted_for == Some(
                    later.votes[(node.id, term)],
                )
            } by {
                assert(history.votes.contains_key((node.id, term)));
            }
            assert forall|voter: NodeId, term: Term| #[trigger]
                later.votes.contains_pair((voter, term), node.id) implies term@
                <= node.current_term@ by {
                if history.votes.contains_key((voter, term)) {
                    assert(history.votes.contains_pair((voter, term), node.id));
                }
            }
            if node.voted_for is Some {
                assert(history.votes.dom().contains((node.id, node.current_term)));
            }
            if node.state == RaftState::Leader {
                assert(history.leaders.dom().contains(node.current_term));
            }
            lemma_voters_grow(next, history, later, node.id, node.current_term);
        }
    }
    assert(requests_are_fresh(next, later, sent)) by {
        assert forall|a: int, j: int| 0 <= a < sent.len() && 0 <= j < next.len() implies ((
        #[trigger] sent[a]).1 matches RaftActionView::SendRequestVote(to, request) ==> sent[a].0
            == (#[trigger] next[j]).node.id ==> request.term@ <= next[j].node.current_term@) by {
            assert(cluster[j].node.id == next[j].node.id);
        }
    }
}

/// The messages of one sender, each with the sender's id.
pub open spec fn sent_from(id: NodeId, actions: Seq<RaftActionView>) -> Seq<Sent> {
    actions.map_values(|action: RaftActionView| (id, action))
}

/// With the first message gone, the requests on their way are still in order.
pub proof fn lemma_sent_rest(cluster: Seq<RunnerView>, history: History, sent: Seq<Sent>)
    requires
        requests_are_fresh(cluster, history, sent),
        sent.len() > 0,
    ensures
        requests_are_fresh(cluster, history, sent.drop_first()),
{
    let rest = sent.drop_first();
    assert forall|a: int| 0 <= a < rest.len() implies ((
    #[trigger] rest[a]).1 matches RaftActionView::SendRequestVote(to, request) ==> {
        &&& request.candidate_id == rest[a].0
        &&& has_runner(cluster, rest[a].0)
        &&& history.votes.contains_pair((rest[a].0, request.term), rest[a].0)
        &&& !history.votes.contains_pair((to, request.term), rest[a].0)
    }) by {
        assert(rest[a] == sent[a + 1]);
    }
    assert forall|a: int, i: int| 0 <= a < rest.len() && 0 <= i < cluster.len() implies ((
    #[trigger] rest[a]).1 matches RaftActionView::SendRequestVote(to, request) ==> rest[a].0 == (
    #[trigger] cluster[i]).node.id ==> request.term@ <= cluster[i].node.current_term@) by {
        assert(rest[a] == sent[a + 1]);
    }
    assert forall|a: int, b: int| 0 <= a < b < rest.len() implies ((
    #[trigger] rest[a]).1 matches RaftActionView::SendRequestVote(to_a, request_a) ==> ((
    #[trigger] rest[b]).1 matches RaftActionView::SendRequestVote(to_b, request_b) ==> !(
    rest[a].0 == rest[b].0 && to_a == to_b && request_a.term == request_b.term))) by {
        assert(rest[a] == sent[a + 1]);
        assert(rest[b] == sent[b + 1]);
    }
}

/// With append requests behind them, the requests on their way are still in order.
pub proof fn lemma_sent_appends(
    cluster: Seq<RunnerView>,
    history: History,
    sent: Seq<Sent>,
    more: Seq<Sent>,
)
    requires
        requests_are_fresh(cluster, history, sent),
        forall|k: int| 0 <= k < more.len() ==> (#[trigger] more[k]).1 is SendAppendEntries,
    ensures
        requests_are_fresh(cluster, history, sent + more),
{
    let all = sent + more;
    assert forall|a: int| 0 <= a < all.len() implies ((
    #[trigger] all[a]).1 matches RaftActionView::SendRequestVote(to, request) ==> {
        &&& request.candidate_id == all[a].0
        &&& has_runner(cluster, all[a].0)
        &&& history.votes.contains_pair((all[a].0, request.term), all[a].0)
        &&& !history.votes.contains_pair((to, request.term), all[a].0)
    }) by {
        if a < sent.len() {
            assert(all[a] == sent[a]);
        } else {
            assert(all[a] == more[a - sent.len()]);
        }
    }
    assert forall|a: int, i: int| 0 <= a < all.len() && 0 <= i < cluster.len() implies ((
    #[trigger] all[a]).1 matches RaftActionView::SendRequestVote(to, request) ==> all[a].0 == (
    #[trigger] cluster[i]).node.id ==> request.term@ <= cluster[i].node.current_term@) by {
        if a < sent.len() {
            assert(all[a] == sent[a]);
        } else {
            assert(all[a] == more[a - sent.len()]);
        }
    }
    assert forall|a: int, b: int| 0 <= a < b < all.len() implies ((
    #[trigger] all[a]).1 matches RaftActionView::SendRequestVote(to_a, request_a) ==> ((
    #[trigger] all[b]).1 matches RaftActionView::SendRequestVote(to_b, request_b) ==> !(all[a].0
        == all[b].0 && to_a == to_b && request_a.term == request_b.term))) by {
        if b < sent.len() {
            assert(all[a] == sent[a]);
            assert(all[b] == sent[b]);
        } else {
            assert(all[b] == more[b - sent.len()]);
        }
    }
}

/// The grants in a queue are those of its first event and of the rest.
pub proof fn lemma_grants_of_first_and_rest(queue: Seq<RaftEventView>, term: Term)
    requires
        queue.len() > 0,
    ensures
        grants(queue, term) == grants(queue.drop_first(), term) + (if is_grant(term)(queue[0]) {
            1nat
        } else {
            0nat
        }),
{
    assert(queue =~= seq![queue[0]] + queue.drop_first());
    queue.drop_first().lemma_filter_prepend(queue[0], is_grant(term));
}

/// A queue whose grants are all of earlier terms holds no grant of `term`.
pub proof fn lemma_no_grants_of_a_new_term(queue: Seq<RaftEventView>, term: Term)
    requires
        forall|k: int|
            0 <= k < queue.len() ==> (
            #[trigger] queue[k] matches RaftEventView::ReceivedRequestVoteResponse(response)
                ==> response.vote_granted ==> response.term@ < term@),
    ensures
        grants(queue, term) == 0,
    decreases queue.len(),
{
    reveal(Seq::filter);
    if queue.len() > 0 {
        let front = queue.drop_last();
        lemma_no_grants_of_a_new_term(front, term);
    }
}

/// The rest of a queue of answers is a queue of answers.
pub proof fn lemma_rest_of_answers(queue: Seq<RaftEventView>, term: Term)
    requires
        is_queue_of_answers(queue, term),
        queue.len() > 0,
    ensures
        is_queue_of_answers(queue.drop_first(), term),
{
}

/// A node with the votes of a quorum on record can take office: no other
/// node is on record as leader of the term, and the record with this leader
/// in it holds what it held before.
pub proof fn lemma_leader_recorded(
    cluster: Seq<RunnerView>,
    history: History,
    leader: NodeId,
    term: Term,
)
    requires
        has_shape(cluster),
        is_sound_record(cluster, history),
        history.voters(leader, term).len() >= quorum_of(cluster.len()),
    ensures
        history.with_leader(term, leader).extends(history),
        history.leaders.contains_key(term) ==> history.leaders[term] == leader,
{
    if history.leaders.contains_key(term) {
        let other = history.leaders[term];
        lemma_voters_are_members(cluster, history, leader, term);
        lemma_voters_are_members(cluster, history, other, term);
        law_quorums_intersect(
            member_ids(cluster).to_set(),
            history.voters(leader, term),
            history.voters(other, term),
        );
    }
}

/// One runner handles the first event of its queue: the record can follow.
pub proof fn lemma_event(
    cluster: Seq<RunnerView>,
    history: History,
    sent: Seq<Sent>,
    i: int,
    now: u64,
    election_timeout: u64,
) -> (later: History)
    requires
        is_safe(cluster, history, sent),
        0 <= i < cluster.len(),
        cluster[i].queue.len() > 0,
    ensures
        ({
            let runner = cluster[i];
            let (handled, actions) = runner.handle_event(runner.queue[0], now, election_timeout);
            let after = RunnerView { queue: runner.queue.drop_first(), ..handled };
            &&& later.extends(history)
            &&& is_safe(
                cluster.update(i, after),
                later,
                sent + sent_from(runner.node.id, actions),
            )
        }),
{
    let runner = cluster[i];
    let event = runner.queue[0];
    let (handled, actions) = runner.handle_event(event, now, election_timeout);
    let after = RunnerView { queue: runner.queue.drop_first(), ..handled };
    let term = runner.node.current_term;
    law_event_moves_on(runner, event, now, election_timeout);
    lemma_rest_of_answers(runner.queue, term);
    lemma_grants_of_first_and_rest(runner.queue, term);
    let took_office = runner.node.state != RaftState::Leader && handled.node.state
        == RaftState::Leader;
    let later = if took_office {
        history.with_leader(term, runner.node.id)
    } else {
        history
    };
    if took_office {
        law_office_needs_quorum(runner, event, now, election_timeout);
        lemma_leader_recorded(cluster, history, runner.node.id, term);
    }
    assert(is_sound_runner(after, later));
    lemma_step(cluster, history, sent, i, after, later);
    let more = sent_from(runner.node.id, actions);
    assert forall|k: int| 0 <= k < more.len() implies (#[trigger] more[k]).1 is SendAppendEntries by {
    }
    lemma_sent_appends(cluster.update(i, after), later, sent, more);
    later
}

/// One runner handles the events of its queue, oldest first: the record can follow.
pub proof fn lemma_events(
    cluster: Seq<RunnerView>,
    history: History,
    sent: Seq<Sent>,
    i: int,
    now: u64,
    election_timeout: u64,
) -> (later: History)
    requires
        is_safe(cluster, history, sent),
        0 <= i < cluster.len(),
    ensures
        ({
            let runner = cluster[i];
            let (done, actions) = (RunnerView { queue: Seq::empty(), ..runner }).handle_events(
                runner.queue,
                now,
                election_timeout,
            );
            &&& later.extends(history)
            &&& is_safe(
                cluster.update(i, done),
                later,
                sent + sent_from(runner.node.id, actions),
            )
        }),
    decreases cluster[i].queue.len(),
{
    let runner = cluster[i];
    let bare = RunnerView { queue: Seq::empty(), ..runner };
    let (done, actions) = bare.handle_events(runner.queue, now, election_timeout);
    if runner.queue.len() == 0 {
        assert(runner.queue =~= Seq::empty());
        assert(cluster.update(i, done) =~= cluster);
        history
    } else {
        let event = runner.queue[0];
        let rest = runner.queue.drop_first();
        let (handled, first) = runner.handle_event(event, now, election_timeout);
        let after = RunnerView { queue: rest, ..handled };
        let middle = lemma_event(cluster, history, sent, i, now, election_timeout);
        let stepped = cluster.update(i, after);
        let carried = sent + sent_from(runner.node.id, first);
        let later = lemma_events(stepped, middle, carried, i, now, election_timeout);
        RunnerView::lemma_handle_event_keeps_queue(
            runner,
            Seq::empty(),
            event,
            now,
            election_timeout,
        );
        let (next, first_of_bare) = bare.handle_event(event, now, election_timeout);
        let (last, following) = next.handle_events(rest, now, election_timeout);
        assert(after.node.id == runner.node.id);
        assert(stepped.update(i, last) =~= cluster.update(i, done));
        assert(carried + sent_from(runner.node.id, following) =~= sent + sent_from(
            runner.node.id,
            actions,
        ));
        lemma_extends_is_transitive(history, middle, later);
        later
    }
}

/// A record that holds all of a second, which holds all of a third, holds all of the third.
pub proof fn lemma_extends_is_transitive(first: History, second: History, third: History)
    requires
        second.extends(first),
        third.extends(second),
    ensures
        third.extends(first),
{
    vstd::map_lib::lemma_submap_of_trans(first.votes, second.votes, third.votes);
    vstd::map_lib::lemma_submap_of_trans(first.leaders, second.leaders, third.leaders);
}

/// The vote requests of a new candidate can follow the requests on their way.
pub proof fn lemma_sent_vote_requests(
    cluster: Seq<RunnerView>,
    history: History,
    sent: Seq<Sent>,
    i: int,
)
    requires
        has_shape(cluster),
        requests_are_fresh(cluster, history, sent),
        0 <= i < cluster.len(),
        history.votes.contains_pair(
            (cluster[i].node.id, cluster[i].node.current_term),
            cluster[i].node.id,
        ),
        forall|voter: NodeId|
            voter != cluster[i].node.id ==> !(#[trigger] history.votes.contains_pair(
                (voter, cluster[i].node.current_term),
                cluster[i].node.id,
            )),
        forall|a: int|
            0 <= a < sent.len() ==> ((
            #[trigger] sent[a]).1 matches RaftActionView::SendRequestVote(to, request) ==> sent[a].0
                == cluster[i].node.id ==> request.term@ < cluster[i].node.current_term@),
    ensures
        requests_are_fresh(
            cluster,
            history,
            sent + sent_from(cluster[i].node.id, RunnerView::vote_requests(cluster[i].node)),
        ),
{
    let node = cluster[i].node;
    let more = sent_from(node.id, RunnerView::vote_requests(node));
    let all = sent + more;
    assert(has_runner(cluster, node.id));
    assert forall|a: int| 0 <= a < all.len() implies ((
    #[trigger] all[a]).1 matches RaftActionView::SendRequestVote(to, request) ==> {
        &&& request.candidate_id == all[a].0
        &&& has_runner(cluster, all[a].0)
        &&& history.votes.contains_pair((all[a].0, request.term), all[a].0)
        &&& !history.votes.contains_pair((to, request.term), all[a].0)
    }) by {
        if a < sent.len() {
            assert(all[a] == sent[a]);
        } else {
            let k = a - sent.len();
            assert(all[a] == more[k]);
            assert(more[k].1 == RunnerView::vote_requests(node)[k]);
            assert(node.peers.contains(node.peers[k]));
        }
    }
    assert forall|a: int, j: int| 0 <= a < all.len() && 0 <= j < cluster.len() implies ((
    #[trigger] all[a]).1 matches RaftActionView::SendRequestVote(to, request) ==> all[a].0 == (
    #[trigger] cluster[j]).node.id ==> request.term@ <= cluster[j].node.current_term@) by {
        if a < sent.len() {
            assert(all[a] == sent[a]);
        } else {
            let k = a - sent.len();
            assert(all[a] == more[k]);
            assert(more[k].1 == RunnerView::vote_requests(node)[k]);
            if cluster[j].node.id == node.id {
                assert(j == i);
            }
        }
    }
    assert forall|a: int, b: int| 0 <= a < b < all.len() implies ((
    #[trigger] all[a]).1 matches RaftActionView::SendRequestVote(to_a, request_a) ==> ((
    #[trigger] all[b]).1 matches RaftActionView::SendRequestVote(to_b, request_b) ==> !(all[a].0
        == all[b].0 && to_a == to_b && request_a.term == request_b.term))) by {
        if b < sent.len() {
            assert(all[a] == sent[a]);
            assert(all[b] == sent[b]);
        } else {
            let kb = b - sent.len();
            assert(all[b] == more[kb]);
            assert(more[kb].1 == RunnerView::vote_requests(node)[kb]);
            if a < sent.len() {
                assert(all[a] == sent[a]);
            } else {
                let ka = a - sent.len();
                assert(all[a] == more[ka]);
                assert(more[ka].1 == RunnerView::vote_requests(node)[ka]);
                assert(node.peers[ka] != node.peers[kb]);
            }
        }
    }
}

/// One runner starts an election: the record can follow.
pub proof fn lemma_election(
    cluster: Seq<RunnerView>,
    history: History,
    sent: Seq<Sent>,
    i: int,
    now: u64,
    election_timeout: u64,
) -> (later: History)
    requires
        is_safe(cluster, history, sent),
        0 <= i < cluster.len(),
        cluster[i].node.state != RaftState::Leader,
        cluster[i].node.current_term@ < u64::MAX,
    ensures
        ({
            let runner = cluster[i];
            let (after, actions) = runner.start_election(now, election_timeout);
            &&& later.extends(history)
            &&& is_safe(cluster.update(i, after), later, sent + sent_from(runner.node.id, actions))
        }),
{
    let runner = cluster[i];
    let id = runner.node.id;
    let (after, actions) = runner.start_election(now, election_timeout);
    let candidate = NodeView {
        election_timer: Timer::started(now, election_timeout),
        ..runner.node.become_candidate()
    };
    let term = candidate.current_term;
    let voted = history.with_vote(id, term, id);
    let alone = candidate.quorum() <= 1;
    let later = if alone {
        voted.with_leader(term, id)
    } else {
        voted
    };
    assert forall|voter: NodeId, any: Term| #[trigger]
        voted.votes.contains_key((voter, any)) implies has_runner(cluster, voter) by {
    }
    lemma_voters_are_members(cluster, voted, id, term);
    assert(voted.voters(id, term).contains(id));
    assert(voted.voters(id, term).len() >= 1);
    if alone {
        assert(is_sound_record(cluster, voted)) by {
            assert forall|any: Term| #[trigger] voted.leaders.contains_key(any) implies voted.voters(
                voted.leaders[any],
                any,
            ).len() >= quorum_of(cluster.len()) by {
                lemma_voters_grow(cluster, history, voted, history.leaders[any], any);
            }
        }
        lemma_leader_recorded(cluster, voted, id, term);
        lemma_leader_is_well_formed(candidate);
    }
    lemma_no_grants_of_a_new_term(runner.queue, term);
    assert(is_sound_runner(after, later)) by {
        assert forall|any: Term| #[trigger] later.votes.contains_key((id, any)) implies {
            &&& any@ <= after.node.current_term@
            &&& any == after.node.current_term ==> after.node.voted_for == Some(
                later.votes[(id, any)],
            )
        } by {
        }
        assert forall|voter: NodeId, any: Term| #[trigger]
            later.votes.contains_pair((voter, any), id) implies any@
            <= after.node.current_term@ by {
            if !(voter == id && any == term) {
                assert(history.votes.contains_pair((voter, any), id));
            }
        }
    }
    assert forall|a: int| 0 <= a < sent.len() implies ((
    #[trigger] sent[a]).1 matches RaftActionView::SendRequestVote(to, request)
        ==> !later.votes.contains_pair((to, request.term), sent[a].0)) by {
        match sent[a].1 {
            RaftActionView::SendRequestVote(to, request) => {
            },
            _ => {},
        }
    }
    lemma_step(cluster, history, sent, i, after, later);
    let next = cluster.update(i, after);
    assert forall|voter: NodeId|
        voter != id implies !(#[trigger] later.votes.contains_pair((voter, term), id)) by {
        if later.votes.contains_pair((voter, term), id) {
            assert(history.votes.contains_pair((voter, term), id));
        }
    }
    assert forall|a: int| 0 <= a < sent.len() implies ((
    #[trigger] sent[a]).1 matches RaftActionView::SendRequestVote(to, request) ==> sent[a].0
        == id ==> request.term@ < term@) by {
        match sent[a].1 {
            RaftActionView::SendRequestVote(to, request) => {
            },
            _ => {},
        }
    }
    lemma_sent_vote_requests(next, later, sent, i);
    let requests = RunnerView::vote_requests(after.node);
    let asked = sent + sent_from(id, requests);
    if alone {
        let probes = RunnerView::append_requests(after.node);
        let more = sent_from(id, probes);
        assert forall|k: int| 0 <= k < more.len() implies (
        #[trigger] more[k]).1 is SendAppendEntries by {
        }
        lemma_sent_appends(next, later, asked, more);
    }
    later
}

/// One runner makes its tick: the record can follow.
pub proof fn lemma_runner_tick(
    cluster: Seq<RunnerView>,
    history: History,
    sent: Seq<Sent>,
    i: int,
    now: u64,
    election_timeout: u64,
) -> (later: History)
    requires
        is_safe(cluster, history, sent),
        0 <= i < cluster.len(),
        cluster[i].can_tick(now, election_timeout),
    ensures
        ({
            let runner = cluster[i];
            let (done, actions) = runner.tick(now, election_timeout);
            &&& later.extends(history)
            &&& is_safe(cluster.update(i, done), later, sent + sent_from(runner.node.id, actions))
        }),
{
    let runner = cluster[i];
    let id = runner.node.id;
    let (done, actions) = runner.tick(now, election_timeout);
    // The election timer.
    let (elected, requests) = runner.check_election(now, election_timeout);
    let due = runner.node.election_timer.elapsed_at(now) && runner.node.state != RaftState::Leader;
    let after_election = if due {
        lemma_election(cluster, history, sent, i, now, election_timeout)
    } else {
        history
    };
    let first = cluster.update(i, elected);
    let asked = sent + sent_from(id, requests);
    if !due {
        assert(first =~= cluster);
    }
    // The heartbeat timer.
    let (beaten, probes) = elected.check_heartbeat(now);
    lemma_step(first, after_election, asked, i, beaten, after_election);
    let second = first.update(i, beaten);
    let more = sent_from(id, probes);
    assert forall|k: int| 0 <= k < more.len() implies (#[trigger] more[k]).1 is SendAppendEntries by {
    }
    lemma_sent_appends(second, after_election, asked, more);
    let probed = asked + more;
    // The queue.
    let later = lemma_events(second, after_election, probed, i, now, election_timeout);
    let (last, answers) = (RunnerView { queue: Seq::empty(), ..beaten }).handle_events(
        runner.queue,
        now,
        election_timeout,
    );
    assert(second.update(i, last) =~= cluster.update(i, done));
    assert(probed + sent_from(id, answers) =~= sent + sent_from(id, actions));
    lemma_extends_is_transitive(history, after_election, later);
    later
}

/// The runners of which the first `k` have made their tick at `now`.
pub open spec fn ticked_up_to(
    cluster: Seq<RunnerView>,
    now: u64,
    timeouts: Seq<u64>,
    k: nat,
) -> Seq<RunnerView> {
    Seq::new(
        cluster.len(),
        |i: int|
            if i < k {
                cluster[i].tick(now, timeouts[i]).0
            } else {
                cluster[i]
            },
    )
}

/// The first `k` runners make their ticks: the record can follow.
pub proof fn lemma_runner_ticks(
    cluster: Seq<RunnerView>,
    history: History,
    now: u64,
    timeouts: Seq<u64>,
    k: nat,
) -> (later: History)
    requires
        is_safe(cluster, history, Seq::empty()),
        can_tick(cluster, now, timeouts),
        k <= cluster.len(),
    ensures
        later.extends(history),
        is_safe(
            ticked_up_to(cluster, now, timeouts, k),
            later,
            sent_by(cluster, now, timeouts, k),
        ),
    decreases k,
{
    if k == 0 {
        assert(ticked_up_to(cluster, now, timeouts, 0) =~= cluster);
        history
    } else {
        let before = (k - 1) as nat;
        let middle = lemma_runner_ticks(cluster, history, now, timeouts, before);
        let partly = ticked_up_to(cluster, now, timeouts, before);
        let sent = sent_by(cluster, now, timeouts, before);
        let runner = cluster[before as int];
        let later = lemma_runner_tick(
            partly,
            middle,
            sent,
            before as int,
            now,
            timeouts[before as int],
        );
        let (done, actions) = runner.tick(now, timeouts[before as int]);
        assert(partly.update(before as int, done) =~= ticked_up_to(cluster, now, timeouts, k));
        lemma_extends_is_transitive(history, middle, later);
        later
    }
}

/// In a cluster of the right shape the runner of a node is the one runner with its id.
pub proof fn lemma_runner_of(cluster: Seq<RunnerView>, id: NodeId)
    requires
        has_shape(cluster),
        has_runner(cluster, id),
    ensures
        is_runner_of(cluster, id, runner_of(cluster, id)),
        forall|j: int|
            0 <= j < cluster.len() && (#[trigger] cluster[j]).node.id == id ==> j == runner_of(
                cluster,
                id,
            ),
{
    let j = choose|j: int| 0 <= j < cluster.len() && (#[trigger] cluster[j]).node.id == id;
    assert(is_runner_of(cluster, id, j)) by {
        assert forall|k: int| 0 <= k < j implies (#[trigger] cluster[k]).node.id != id by {
            assert(cluster[k].node.id != cluster[j].node.id);
        }
    }
    let chosen = runner_of(cluster, id);
    assert(is_runner_of(cluster, id, chosen));
    assert forall|k: int| 0 <= k < cluster.len() && (#[trigger] cluster[k]).node.id == id implies k
        == chosen by {
        if k != chosen {
            assert(cluster[k].node.id != cluster[chosen].node.id);
        }
    }
}

/// An answer that grants no vote to its receiver's count can join the queue
/// of a runner.
pub proof fn lemma_answer_queued(
    cluster: Seq<RunnerView>,
    history: History,
    sent: Seq<Sent>,
    i: int,
    event: RaftEventView,
)
    requires
        is_safe(cluster, history, sent),
        0 <= i < cluster.len(),
        is_answer(event),
        event matches RaftEventView::ReceivedRequestVoteResponse(response)
            ==> !response.vote_granted,
    ensures
        is_safe(with_event(cluster, i, event), history, sent),
{
    let runner = cluster[i];
    let told = RunnerView { queue: runner.queue.push(event), ..runner };
    assert(is_sound_runner(runner, history));
    runner.queue.lemma_filter_push(event, is_grant(runner.node.current_term));
    assert(is_queue_of_answers(told.queue, told.node.current_term)) by {
        assert forall|k: int| 0 <= k < told.queue.len() implies is_answer(
            #[trigger] told.queue[k],
        ) by {
            if k < runner.queue.len() {
                assert(told.queue[k] == runner.queue[k]);
            }
        }
        assert forall|k: int| 0 <= k < told.queue.len() implies (
        #[trigger] told.queue[k] matches RaftEventView::ReceivedRequestVoteResponse(response)
            ==> response.vote_granted ==> response.term@ <= told.node.current_term@) by {
            if k < runner.queue.len() {
                assert(told.queue[k] == runner.queue[k]);
            }
        }
    }
    lemma_step(cluster, history, sent, i, told, history);
}

/// The answer that grants a vote can join the queue of the candidate, once
/// the vote is on record.
pub proof fn lemma_grant_queued(
    cluster: Seq<RunnerView>,
    history: History,
    sent: Seq<Sent>,
    i: int,
    event: RaftEventView,
    backed: nat,
)
    requires
        is_safe(cluster, history, sent),
        0 <= i < cluster.len(),
        event matches RaftEventView::ReceivedRequestVoteResponse(response) && response.vote_granted
            && response.term@ <= cluster[i].node.current_term@,
        cluster[i].counting() ==> cluster[i].votes + grants(
            cluster[i].queue,
            cluster[i].node.current_term,
        ) <= backed,
        is_grant(cluster[i].node.current_term)(event) ==> backed + 1 <= history.voters(
            cluster[i].node.id,
            cluster[i].node.current_term,
        ).len(),
    ensures
        is_safe(with_event(cluster, i, event), history, sent),
{
    let runner = cluster[i];
    let told = RunnerView { queue: runner.queue.push(event), ..runner };
    assert(is_sound_runner(runner, history));
    runner.queue.lemma_filter_push(event, is_grant(runner.node.current_term));
    assert(is_queue_of_answers(told.queue, told.node.current_term)) by {
        assert forall|k: int| 0 <= k < told.queue.len() implies is_answer(
            #[trigger] told.queue[k],
        ) by {
            if k < runner.queue.len() {
                assert(told.queue[k] == runner.queue[k]);
            }
        }
        assert forall|k: int| 0 <= k < told.queue.len() implies (
        #[trigger] told.queue[k] matches RaftEventView::ReceivedRequestVoteResponse(response)
            ==> response.vote_granted ==> response.term@ <= told.node.current_term@) by {
            if k < runner.queue.len() {
                assert(told.queue[k] == runner.queue[k]);
            }
        }
    }
    lemma_step(cluster, history, sent, i, told, history);
}

/// One message is carried to the node that it names: the record can follow.
pub proof fn lemma_delivery(
    cluster: Seq<RunnerView>,
    history: History,
    sent: Seq<Sent>,
    now: u64,
    timeouts: Seq<u64>,
) -> (later: History)
    requires
        is_safe(cluster, history, sent),
        sent.len() > 0,
    ensures
        later.extends(history),
        is_safe(deliver(cluster, sent[0], now, timeouts), later, sent.drop_first()),
{
    let (from, action) = sent[0];
    let rest = sent.drop_first();
    lemma_sent_rest(cluster, history, sent);
    match action {
        RaftActionView::SendRequestVote(to, request) => {
            if has_runner(cluster, to) {
                lemma_runner_of(cluster, to);
                let t = runner_of(cluster, to);
                let voter = cluster[t];
                let (node, response) = voter.node.handle_request_vote(request);
                let after = RunnerView { node, ..voter };
                let term = request.term;
                assert(is_sound_runner(voter, history));
                assert(has_runner(cluster, from));
                lemma_runner_of(cluster, from);
                let f = runner_of(cluster, from);
                let sender = cluster[f];
                assert(is_sound_runner(sender, history));
                assert(term@ <= sender.node.current_term@);
                law_handlers_keep_well_formed(
                    voter.node,
                    request,
                    arbitrary(),
                    arbitrary(),
                    arbitrary(),
                    arbitrary(),
                );
                let later = if response.vote_granted {
                    history.with_vote(to, term, from)
                } else {
                    history
                };
                if response.vote_granted {
                    assert(node.current_term == term);
                    assert(!history.votes.contains_key((to, term))) by {
                        if history.votes.contains_key((to, term)) {
                            assert(term@ <= voter.node.current_term@);
                            assert(history.votes.contains_pair((to, term), from));
                        }
                    }
                    assert(to != from);
                    assert(node.state == RaftState::Follower);
                    assert forall|any: Term| #[trigger]
                        later.votes.contains_key((to, any)) implies {
                        &&& any@ <= node.current_term@
                        &&& any == node.current_term ==> node.voted_for == Some(
                            later.votes[(to, any)],
                        )
                    } by {
                        if any != term {
                            assert(history.votes.contains_key((to, any)));
                        }
                    }
                    assert forall|voter_: NodeId, any: Term| #[trigger]
                        later.votes.contains_pair((voter_, any), to) implies any@
                        <= node.current_term@ by {
                        assert(history.votes.contains_pair((voter_, any), to));
                    }
                    assert forall|j: int, voter_: NodeId, any: Term|
                        0 <= j < cluster.len() && j != t && #[trigger] later.votes.contains_pair(
                            (voter_, any),
                            (#[trigger] cluster[j]).node.id,
                        ) && !history.votes.contains_key((voter_, any)) implies any@
                        <= cluster[j].node.current_term@ by {
                        assert(voter_ == to && any == term);
                        assert(cluster[j].node.id == from);
                    }
                    assert forall|a: int| 0 <= a < rest.len() implies ((
                    #[trigger] rest[a]).1 matches RaftActionView::SendRequestVote(to_a, request_a)
                        ==> !later.votes.contains_pair((to_a, request_a.term), rest[a].0)) by {
                        assert(rest[a] == sent[a + 1]);
                    }
                } else {
                    assert forall|a: int| 0 <= a < rest.len() implies ((
                    #[trigger] rest[a]).1 matches RaftActionView::SendRequestVote(to_a, request_a)
                        ==> !later.votes.contains_pair((to_a, request_a.term), rest[a].0)) by {
                        assert(rest[a] == sent[a + 1]);
                    }
                }
                assert(is_sound_runner(after, later));
                lemma_step(cluster, history, rest, t, after, later);
                let voted = cluster.update(t, after);
                lemma_update_keeps_ids(cluster, t, after);
                assert(has_runner(voted, from));
                lemma_runner_of(voted, from);
                let o = runner_of(voted, from);
                assert(o == f) by {
                    assert(voted[f].node.id == from);
                }
                let event = RaftEventView::ReceivedRequestVoteResponse(response);
                if response.vote_granted {
                    assert(voted[o] == sender);
                    let backed = history.voters(from, sender.node.current_term).len();
                    if sender.node.current_term == term {
                        lemma_voters_are_members(cluster, history, from, term);
                        assert(later.voters(from, term) =~= history.voters(from, term).insert(to));
                        assert(!history.voters(from, term).contains(to));
                    }
                    lemma_grant_queued(voted, later, rest, o, event, backed);
                } else {
                    lemma_answer_queued(voted, later, rest, o, event);
                }
                later
            } else {
                history
            }
        },
        RaftActionView::SendAppendEntries(to, request) => {
            if has_runner(cluster, to) {
                lemma_runner_of(cluster, to);
                let t = runner_of(cluster, to);
                let voter = cluster[t];
                let response = voter.node.handle_append_entries(request).1;
                let after = voter.receive_append_entries(request, now, timeouts[t]);
                assert(is_sound_runner(voter, history));
                law_event_moves_on(
                    voter,
                    RaftEventView::ReceivedAppendEntries(request),
                    now,
                    timeouts[t],
                );
                assert(is_sound_runner(after, history));
                lemma_step(cluster, history, rest, t, after, history);
                let heard = cluster.update(t, after);
                lemma_update_keeps_ids(cluster, t, after);
                if has_runner(heard, from) {
                    lemma_runner_of(heard, from);
                    lemma_answer_queued(
                        heard,
                        history,
                        rest,
                        runner_of(heard, from),
                        RaftEventView::ReceivedAppendEntriesResponse(to, response),
                    );
                }
                history
            } else {
                history
            }
        },
    }
}

/// The messages are carried one after the other: the record can follow.
pub proof fn lemma_deliveries(
    cluster: Seq<RunnerView>,
    history: History,
    sent: Seq<Sent>,
    now: u64,
    timeouts: Seq<u64>,
) -> (later: History)
    requires
        is_safe(cluster, history, sent),
    ensures
        later.extends(history),
        is_safe(deliver_all(cluster, sent, now, timeouts), later, Seq::empty()),
    decreases sent.len(),
{
    if sent.len() == 0 {
        history
    } else {
        let middle = lemma_delivery(cluster, history, sent, now, timeouts);
        let later = lemma_deliveries(
            deliver(cluster, sent[0], now, timeouts),
            middle,
            sent.drop_first(),
            now,
            timeouts,
        );
        lemma_extends_is_transitive(history, middle, later);
        later
    }
}

/// The cluster makes a tick: the record can follow.
pub proof fn lemma_cluster_tick(
    cluster: Seq<RunnerView>,
    history: History,
    now: u64,
    timeouts: Seq<u64>,
) -> (later: History)
    requires
        is_safe(cluster, history, Seq::empty()),
        can_tick(cluster, now, timeouts),
    ensures
        later.extends(history),
        is_safe(cluster_tick(cluster, now, timeouts), later, Seq::empty()),
{
    let middle = lemma_runner_ticks(cluster, history, now, timeouts, cluster.len());
    assert(ticked_up_to(cluster, now, timeouts, cluster.len()) =~= ticked(cluster, now, timeouts));
    let later = lemma_deliveries(
        ticked(cluster, now, timeouts),
        middle,
        sent_by(cluster, now, timeouts, cluster.len()),
        now,
        timeouts,
    );
    lemma_extends_is_transitive(history, middle, later);
    later
}

/// The peers of a node among ids of which none occurs twice: every id but
/// its own, each once.
pub proof fn lemma_others(ids: Seq<NodeId>, id: NodeId)
    requires
        ids.no_duplicates(),
    ensures
        others(ids, id).no_duplicates(),
        !others(ids, id).contains(id),
        forall|peer: NodeId| #[trigger] others(ids, id).contains(peer) ==> ids.contains(peer),
        others(ids, id).len() + (if ids.contains(id) {
            1nat
        } else {
            0nat
        }) == ids.len(),
    decreases ids.len(),
{
    reveal(Seq::filter);
    if ids.len() > 0 {
        let front = ids.drop_last();
        let last = ids.last();
        lemma_others(front, id);
        let kept = others(front, id);
        assert(!front.contains(last)) by {
            if front.contains(last) {
                let at = choose|at: int| 0 <= at < front.len() && front[at] == last;
                assert(ids[at] == ids[ids.len() - 1]);
            }
        }
        assert forall|peer: NodeId| #[trigger] others(ids, id).contains(peer) implies ids.contains(
            peer,
        ) by {
            if peer == last {
                assert(ids[ids.len() - 1] == peer);
            } else {
                assert(kept.contains(peer)) by {
                    let at = choose|at: int|
                        0 <= at < others(ids, id).len() && others(ids, id)[at] == peer;
                    assert(kept[at] == peer);
                }
                let at = choose|at: int| 0 <= at < front.len() && front[at] == peer;
                assert(ids[at] == peer);
            }
        }
        if last != id {
            assert(others(ids, id) == kept.push(last));
            assert(!kept.contains(last));
            assert(ids.contains(id) == front.contains(id)) by {
                if ids.contains(id) {
                    let at = choose|at: int| 0 <= at < ids.len() && ids[at] == id;
                    assert(front[at] == id);
                }
                if front.contains(id) {
                    let at = choose|at: int| 0 <= at < front.len() && front[at] == id;
                    assert(ids[at] == id);
                }
            }
        } else {
            assert(others(ids, id) == kept);
            assert(ids[ids.len() - 1] == id);
        }
    }
}

/// A new cluster for ids of which none occurs twice has one runner for each
/// id, at the place of the id.
pub proof fn lemma_initial_cluster(ids: Seq<NodeId>, now: u64, timeouts: Seq<u64>, k: nat)
    requires
        ids.no_duplicates(),
        k <= ids.len(),
    ensures
        initial_cluster(ids, now, timeouts, k).len() == k,
        forall|i: int|
            0 <= i < k ==> #[trigger] initial_cluster(ids, now, timeouts, k)[i]
                == RunnerView::initial(
                NodeView::initial(ids[i], others(ids, ids[i]), now, timeouts[i]),
            ),
    decreases k,
{
    if k > 0 {
        lemma_initial_cluster(ids, now, timeouts, (k - 1) as nat);
        let front = initial_cluster(ids, now, timeouts, (k - 1) as nat);
        let id = ids[k - 1];
        assert(!has_runner(front, id)) by {
            if has_runner(front, id) {
                let j = choose|j: int| 0 <= j < front.len() && (#[trigger] front[j]).node.id == id;
                assert(ids[j] == ids[k - 1]);
            }
        }
    }
}

/// A new cluster for ids of which none occurs twice is safe, with nothing on record.
pub proof fn lemma_initially_safe(ids: Seq<NodeId>, now: u64, timeouts: Seq<u64>)
    requires
        ids.no_duplicates(),
        ids.len() <= usize::MAX,
    ensures
        is_safe(
            initial_cluster(ids, now, timeouts, ids.len()),
            History::empty(),
            Seq::empty(),
        ),
{
    let cluster = initial_cluster(ids, now, timeouts, ids.len());
    let history = History::empty();
    lemma_initial_cluster(ids, now, timeouts, ids.len());
    assert forall|i: int| 0 <= i < cluster.len() implies {
        let node = (#[trigger] cluster[i]).node;
        &&& node.peers.no_duplicates()
        &&& !node.peers.contains(node.id)
        &&& node.peers.len() + 1 == cluster.len()
        &&& forall|k: int| 0 <= k < node.peers.len() ==> has_runner(cluster, #[trigger] node.peers[k])
    } by {
        let node = cluster[i].node;
        lemma_others(ids, ids[i]);
        assert forall|k: int| 0 <= k < node.peers.len() implies has_runner(
            cluster,
            #[trigger] node.peers[k],
        ) by {
            assert(others(ids, ids[i]).contains(node.peers[k]));
            let at = choose|at: int| 0 <= at < ids.len() && ids[at] == node.peers[k];
            assert(cluster[at].node.id == node.peers[k]);
        }
    }
    assert forall|i: int| 0 <= i < cluster.len() implies is_sound_runner(
        #[trigger] cluster[i],
        history,
    ) by {
        assert(grants(cluster[i].queue, cluster[i].node.current_term) == 0);
    }
}

/// The time on the clock at a tick of the cluster, and the election timeout
/// of each runner at that tick.
pub struct Beat {
    pub now: u64,
    pub timeouts: Seq<u64>,
}

/// The cluster after the first `k` of `beats`.
pub open spec fn cluster_after(start: Seq<RunnerView>, beats: Seq<Beat>, k: nat) -> Seq<RunnerView>
    decreases k,
{
    if k == 0 {
        start
    } else {
        cluster_tick(
            cluster_after(start, beats, (k - 1) as nat),
            beats[k - 1].now,
            beats[k - 1].timeouts,
        )
    }
}

/// Whether the cluster can make each of `beats` in turn.
pub open spec fn can_run(start: Seq<RunnerView>, beats: Seq<Beat>) -> bool {
    forall|k: nat|
        k < beats.len() ==> can_tick(
            #[trigger] cluster_after(start, beats, k),
            beats[k as int].now,
            beats[k as int].timeouts,
        )
}

/// Through a run of ticks the record can follow, and it holds every leader
/// that the cluster had after any of the ticks.
pub proof fn lemma_run(start: Seq<RunnerView>, history: History, beats: Seq<Beat>, k: nat) -> (later:
    History)
    requires
        is_safe(start, history, Seq::empty()),
        can_run(start, beats),
        k <= beats.len(),
    ensures
        later.extends(history),
        is_safe(cluster_after(start, beats, k), later, Seq::empty()),
        forall|m: nat, i: int|
            m <= k && 0 <= i < cluster_after(start, beats, m).len() && (#[trigger] cluster_after(
                start,
                beats,
                m,
            )[i]).node.state == RaftState::Leader ==> later.leaders.contains_pair(
                cluster_after(start, beats, m)[i].node.current_term,
                cluster_after(start, beats, m)[i].node.id,
            ),
    decreases k,
{
    if k == 0 {
        assert forall|m: nat, i: int|
            m <= k && 0 <= i < cluster_after(start, beats, m).len() && (#[trigger] cluster_after(
                start,
                beats,
                m,
            )[i]).node.state == RaftState::Leader implies history.leaders.contains_pair(
            cluster_after(start, beats, m)[i].node.current_term,
            cluster_after(start, beats, m)[i].node.id,
        ) by {
            assert(is_sound_runner(start[i], history));
        }
        history
    } else {
        let before = (k - 1) as nat;
        let middle = lemma_run(start, history, beats, before);
        let cluster = cluster_after(start, beats, before);
        assert(can_tick(cluster, beats[before as int].now, beats[before as int].timeouts));
        let later = lemma_cluster_tick(
            cluster,
            middle,
            beats[before as int].now,
            beats[before as int].timeouts,
        );
        lemma_extends_is_transitive(history, middle, later);
        assert forall|m: nat, i: int|
            m <= k && 0 <= i < cluster_after(start, beats, m).len() && (#[trigger] cluster_after(
                start,
                beats,
                m,
            )[i]).node.state == RaftState::Leader implies later.leaders.contains_pair(
            cluster_after(start, beats, m)[i].node.current_term,
            cluster_after(start, beats, m)[i].node.id,
        ) by {
            let leader = cluster_after(start, beats, m)[i].node;
            if m == k {
                assert(is_sound_runner(cluster_after(start, beats, k)[i], later));
            } else {
                assert(middle.leaders.contains_pair(leader.current_term, leader.id));
                assert(middle.leaders.dom().contains(leader.current_term));
            }
        }
        later
    }
}

/// Election safety. A cluster is made for ids of which none occurs twice,
/// and makes any ticks that it can make. Then a node that is leader after
/// some of the ticks, and a node that is leader of the same term after some
/// of the ticks, are one node: no term has two leaders.
pub proof fn law_election_safety(
    ids: Seq<NodeId>,
    now: u64,
    timeouts: Seq<u64>,
    beats: Seq<Beat>,
    first: nat,
    second: nat,
    i: int,
    j: int,
)
    requires
        ids.no_duplicates(),
        ids.len() <= usize::MAX,
        can_run(initial_cluster(ids, now, timeouts, ids.len()), beats),
        first <= beats.len(),
        second <= beats.len(),
        0 <= i < cluster_after(initial_cluster(ids, now, timeouts, ids.len()), beats, first).len(),
        0 <= j < cluster_after(initial_cluster(ids, now, timeouts, ids.len()), beats, second).len(),
        cluster_after(
            initial_cluster(ids, now, timeouts, ids.len()),
            beats,
            first,
        )[i].node.state == RaftState::Leader,
        cluster_after(
            initial_cluster(ids, now, timeouts, ids.len()),
            beats,
            second,
        )[j].node.state == RaftState::Leader,
        cluster_after(
            initial_cluster(ids, now, timeouts, ids.len()),
            beats,
            first,
        )[i].node.current_term == cluster_after(
            initial_cluster(ids, now, timeouts, ids.len()),
            beats,
            second,
        )[j].node.current_term,
    ensures
        cluster_after(initial_cluster(ids, now, timeouts, ids.len()), beats, first)[i].node.id
            == cluster_after(
            initial_cluster(ids, now, timeouts, ids.len()),
            beats,
            second,
        )[j].node.id,
{
    let start = initial_cluster(ids, now, timeouts, ids.len());
    lemma_initially_safe(ids, now, timeouts);
    let record = lemma_run(start, History::empty(), beats, beats.len());
}

} // verus!
