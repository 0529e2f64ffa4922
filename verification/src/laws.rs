//! Laws of the protocol, proved of the transitions of [`NodeView`] and
//! [`RunnerView`]: what no handler, no event and no tick can undo.

use crate::event::RaftEventView;
use crate::log::{
    first_missing, holds_entry, lemma_merged_well_formed, lemma_well_formed_suffix, well_formed,
    LogEntryView,
};
use crate::node::NodeView;
use crate::raft::{RaftActionView, RunnerView};
use crate::rpc::{
    AppendEntriesRequestView, AppendEntriesResponse, RequestVoteRequest, RequestVoteResponse,
};
use crate::simulator::{
    can_tick, cluster_tick, deliver, deliver_all, has_runner, is_runner_of, runner_of, sent_by,
    ticked, Sent,
};
use crate::timer::Timer;
use crate::types::{NodeId, RaftState, Term};
use vstd::prelude::*;

verus! {

/// What relates a state of a node to every later state of it: the term has
/// not fallen, the commit index has not fallen, a vote given in a term stands
/// for as long as that term lasts, and the node is still the same member of
/// the same cluster.
pub open spec fn moves_on(before: NodeView, after: NodeView) -> bool {
    &&& after.current_term@ >= before.current_term@
    &&& after.commit_index@ >= before.commit_index@
    &&& after.current_term == before.current_term && before.voted_for is Some ==> after.voted_for
        == before.voted_for
    &&& after.id == before.id
    &&& after.peers == before.peers
}

/// `moves_on` holds of a state and itself, and of the ends of two steps that
/// follow each other: so it holds over every sequence of steps of which it
/// holds one by one.
pub proof fn law_moves_on_is_an_order(first: NodeView, second: NodeView, third: NodeView)
    ensures
        moves_on(first, first),
        moves_on(first, second) && moves_on(second, third) ==> moves_on(first, third),
{
}

/// Every handler of a well-formed node leaves it well formed.
pub proof fn law_handlers_keep_well_formed(
    node: NodeView,
    vote_request: RequestVoteRequest,
    vote_response: RequestVoteResponse,
    append_request: AppendEntriesRequestView,
    peer: NodeId,
    append_response: AppendEntriesResponse,
)
    requires
        node.wf(),
    ensures
        node.handle_request_vote(vote_request).0.wf(),
        node.handle_request_response(vote_response).0.wf(),
        node.handle_append_entries(append_request).0.wf(),
        node.handle_append_entries_response(peer, append_response).wf(),
{
    if append_request.term@ >= node.current_term@ {
        let heard = node.hear_leader(append_request.term);
        if heard.accepts(append_request) {
            lemma_merged_well_formed(
                heard.log,
                append_request.prev_log_index,
                append_request.prev_log_term,
                append_request.entries,
            );
        }
    }
    if node.state == RaftState::Leader && append_response.term@ <= node.current_term@
        && node.next_index.contains_key(peer.0) {
        if append_response.success {
            let known = node.acknowledge(peer);
            assert(known.wf());
        }
    }
}

/// No handler lowers the term or the commit index of a node, and none
/// changes a vote that the node has given in the term that it is in.
pub proof fn law_handlers_move_on(
    node: NodeView,
    vote_request: RequestVoteRequest,
    vote_response: RequestVoteResponse,
    append_request: AppendEntriesRequestView,
    peer: NodeId,
    append_response: AppendEntriesResponse,
)
    requires
        node.wf(),
    ensures
        moves_on(node, node.handle_request_vote(vote_request).0),
        moves_on(node, node.handle_request_response(vote_response).0),
        moves_on(node, node.handle_append_entries(append_request).0),
        moves_on(node, node.handle_append_entries_response(peer, append_response)),
{
    if node.state == RaftState::Leader && append_response.term@ <= node.current_term@
        && node.next_index.contains_key(peer.0) && append_response.success {
        let known = node.acknowledge(peer);
        assert(known.wf());
    }
}

/// A change of role does not lower the term or the commit index either. A
/// candidacy raises the term, so the vote of the old term is not touched by
/// it. Following a term does so only where the term is newer than the node's
/// own: `become_follower` with an older term would lower the term, and with
/// the node's own term it would take back the vote given in it.
pub proof fn law_roles_move_on(node: NodeView, term: Term)
    requires
        node.wf(),
    ensures
        node.current_term@ < u64::MAX ==> moves_on(node, node.become_candidate()),
        moves_on(node, node.become_leader()),
        moves_on(node, node.advance_commit_index()),
        term@ > node.current_term@ ==> moves_on(node, node.become_follower(term)),
{
}

/// A node gives its vote to one candidate in a term. If it grants the
/// request `first`, and in any later state grants a request `second` of the
/// same term, then both requests are of the same candidate.
pub proof fn law_one_vote_per_term(
    node: NodeView,
    first: RequestVoteRequest,
    later: NodeView,
    second: RequestVoteRequest,
)
    requires
        node.handle_request_vote(first).1.vote_granted,
        moves_on(node.handle_request_vote(first).0, later),
        later.handle_request_vote(second).1.vote_granted,
        first.term == second.term,
    ensures
        first.candidate_id == second.candidate_id,
{
}

/// An event leaves a well-formed runner well formed, and its node moves on.
pub proof fn law_event_moves_on(
    runner: RunnerView,
    event: RaftEventView,
    now: u64,
    election_timeout: u64,
)
    requires
        runner.wf(),
    ensures
        runner.handle_event(event, now, election_timeout).0.wf(),
        moves_on(runner.node, runner.handle_event(event, now, election_timeout).0.node),
{
    let after = runner.handle_event(event, now, election_timeout).0;
    match event {
        RaftEventView::ReceivedRequestVote(request) => {
            law_handlers_keep_well_formed(
                runner.node,
                request,
                arbitrary(),
                arbitrary(),
                arbitrary(),
                arbitrary(),
            );
        },
        RaftEventView::ReceivedRequestVoteResponse(response) => {
            let node = runner.node.handle_request_response(response).0;
            assert(node.wf());
            if node.state == RaftState::Candidate && response.vote_granted && response.term
                == node.current_term {
                lemma_leader_is_well_formed(node);
            }
        },
        RaftEventView::ReceivedAppendEntries(request) => {
            law_handlers_keep_well_formed(
                runner.node,
                arbitrary(),
                arbitrary(),
                request,
                arbitrary(),
                arbitrary(),
            );
            law_handlers_move_on(
                runner.node,
                arbitrary(),
                arbitrary(),
                request,
                arbitrary(),
                arbitrary(),
            );
        },
        RaftEventView::ReceivedAppendEntriesResponse(peer, response) => {
            law_handlers_keep_well_formed(
                runner.node,
                arbitrary(),
                arbitrary(),
                arbitrary(),
                peer,
                response,
            );
            law_handlers_move_on(
                runner.node,
                arbitrary(),
                arbitrary(),
                arbitrary(),
                peer,
                response,
            );
        },
        RaftEventView::ElectionTimeout => {},
        RaftEventView::HeartbeatTimeout => {},
    }
}

/// A well-formed node that takes up leadership is well formed as leader.
pub proof fn lemma_leader_is_well_formed(node: NodeView)
    requires
        node.wf(),
    ensures
        node.become_leader().wf(),
{
}

/// A sequence of events leaves a well-formed runner well formed, and its
/// node moves on.
pub proof fn law_events_move_on(
    runner: RunnerView,
    events: Seq<RaftEventView>,
    now: u64,
    election_timeout: u64,
)
    requires
        runner.wf(),
    ensures
        runner.handle_events(events, now, election_timeout).0.wf(),
        moves_on(runner.node, runner.handle_events(events, now, election_timeout).0.node),
    decreases events.len(),
{
    if events.len() > 0 {
        law_event_moves_on(runner, events[0], now, election_timeout);
        let next = runner.handle_event(events[0], now, election_timeout).0;
        law_events_move_on(next, events.drop_first(), now, election_timeout);
    }
}

/// A tick leaves a well-formed runner well formed, and its node moves on:
/// over any sequence of ticks and events the term never falls, the commit
/// index never falls, and no vote changes within its term.
pub proof fn law_tick_moves_on(runner: RunnerView, now: u64, election_timeout: u64)
    requires
        runner.wf(),
        runner.can_tick(now, election_timeout),
    ensures
        runner.tick(now, election_timeout).0.wf(),
        moves_on(runner.node, runner.tick(now, election_timeout).0.node),
{
    let elected = runner.check_election(now, election_timeout).0;
    if runner.node.election_timer.elapsed_at(now) && runner.node.state != RaftState::Leader {
        let candidate = runner.node.become_candidate();
        if candidate.quorum() <= 1 {
            lemma_leader_is_well_formed(
                NodeView {
                    election_timer: Timer::started(now, election_timeout),
                    ..candidate
                },
            );
        }
    }
    assert(elected.wf());
    let beaten = elected.check_heartbeat(now).0;
    assert(beaten.wf());
    law_events_move_on(
        RunnerView { queue: Seq::empty(), ..beaten },
        runner.queue,
        now,
        election_timeout,
    );
}

/// A runner makes its node leader on one kind of event only: a granted vote
/// of the node's term, counted while the node is a candidate, that brings
/// the count up to a quorum of the cluster.
pub proof fn law_office_needs_quorum(
    runner: RunnerView,
    event: RaftEventView,
    now: u64,
    election_timeout: u64,
)
    requires
        runner.wf(),
        runner.node.state != RaftState::Leader,
        runner.handle_event(event, now, election_timeout).0.node.state == RaftState::Leader,
    ensures
        ({
            let after = runner.handle_event(event, now, election_timeout).0;
            &&& event matches RaftEventView::ReceivedRequestVoteResponse(response)
            &&& response.vote_granted
            &&& response.term == runner.node.current_term
            &&& runner.node.state == RaftState::Candidate
            &&& after.node.current_term == runner.node.current_term
            &&& after.votes >= after.node.quorum()
            &&& after.votes == (if runner.counting() {
                runner.votes
            } else {
                1
            }) + 1
        }),
{
}

/// Two quorums of one cluster have a member in common.
pub proof fn law_quorums_intersect(members: Set<NodeId>, first: Set<NodeId>, second: Set<NodeId>)
    requires
        members.finite(),
        first.subset_of(members),
        second.subset_of(members),
        first.len() >= members.len() / 2 + 1,
        second.len() >= members.len() / 2 + 1,
    ensures
        exists|voter: NodeId| first.contains(voter) && second.contains(voter),
{
    vstd::set_lib::lemma_len_subset(first + second, members);
    vstd::set_lib::lemma_set_intersect_union_lens(first, second);
    let common = first.intersect(second);
    vstd::set_lib::lemma_set_empty_equivalency_len(common);
}

/// The members of a cluster whose ballot in one term names `candidate`.
pub open spec fn supporters(
    members: Set<NodeId>,
    ballots: Map<NodeId, NodeId>,
    candidate: NodeId,
) -> Set<NodeId> {
    members.filter(|voter: NodeId| ballots.contains_key(voter) && ballots[voter] == candidate)
}

/// One term has one winner. Where `ballots` holds the one vote that each
/// member has given in a term, two candidates that each have the votes of a
/// quorum are the same candidate.
pub proof fn law_one_winner_per_term(
    members: Set<NodeId>,
    ballots: Map<NodeId, NodeId>,
    first: NodeId,
    second: NodeId,
)
    requires
        members.finite(),
        supporters(members, ballots, first).len() >= members.len() / 2 + 1,
        supporters(members, ballots, second).len() >= members.len() / 2 + 1,
    ensures
        first == second,
{
    law_quorums_intersect(
        members,
        supporters(members, ballots, first),
        supporters(members, ballots, second),
    );
}

/// The log-matching property of two logs: where both hold an entry of the
/// same number and term, they are equal up to and with that entry.
pub open spec fn logs_match(a: Seq<LogEntryView>, b: Seq<LogEntryView>) -> bool {
    forall|i: int, j: int|
        0 <= i < a.len() && 0 <= j < b.len() && (#[trigger] a[i]).index == (#[trigger] b[j]).index
            && a[i].term == b[j].term ==> a.take(i + 1) == b.take(j + 1)
}

/// Replication keeps logs matching. When a leader sends one of its peers the
/// append request that it builds for it, and the logs of the two matched
/// before, then they match afterwards; the follower's log is as it was or has
/// become the leader's log; and after a success it begins with the whole of
/// the leader's log. So the follower's new log matches every log that
/// matched both logs before.
pub proof fn law_replication_keeps_logs_matching(leader: NodeView, follower: NodeView, peer: NodeId)
    requires
        leader.wf(),
        follower.wf(),
        leader.state == RaftState::Leader,
        leader.peers.contains(peer),
        logs_match(leader.log, follower.log),
    ensures
        ({
            let request = leader.create_append_entries(peer);
            let (after, response) = follower.handle_append_entries(request);
            &&& after.log == follower.log || after.log == leader.log
            &&& logs_match(leader.log, after.log)
            &&& response.success ==> leader.log.len() <= after.log.len() && after.log.take(
                leader.log.len() as int,
            ) == leader.log
        }),
{
    let ours = leader.log;
    let theirs = follower.log;
    let request = leader.create_append_entries(peer);
    let (after, response) = follower.handle_append_entries(request);
    let next = leader.next_index_for(peer);
    let at = choose|at: int| 0 <= at < leader.peers.len() && leader.peers[at] == peer;
    lemma_well_formed_suffix(ours, next);
    let k = request.prev_log_index@ as int;
    let entries = request.entries;
    lemma_logs_match_themselves(ours);
    if response.success {
        let heard = follower.hear_leader(request.term);
        lemma_merged_well_formed(theirs, request.prev_log_index, request.prev_log_term, entries);
        let j = first_missing(theirs, entries);
        assert(ours.take(k) == theirs.take(k));
        assert(ours.take(k + j) == theirs.take(k + j)) by {
            if j > 0 {
                assert(holds_entry(theirs, entries[j - 1]));
            }
        }
        if j < entries.len() {
            assert(after.log =~= ours);
        } else {
            assert(theirs.take(ours.len() as int) =~= ours);
        }
    }
}

/// A log that matched the leader's log and the follower's log before an
/// append request was handled matches the follower's log afterwards: over
/// any sequence of deliveries from a leader, logs that all matched one
/// another still do.
pub proof fn law_replication_keeps_other_logs_matching(
    leader: NodeView,
    follower: NodeView,
    peer: NodeId,
    other: Seq<LogEntryView>,
)
    requires
        leader.wf(),
        follower.wf(),
        leader.state == RaftState::Leader,
        leader.peers.contains(peer),
        logs_match(leader.log, follower.log),
        logs_match(other, leader.log),
        logs_match(other, follower.log),
    ensures
        logs_match(
            other,
            follower.handle_append_entries(leader.create_append_entries(peer)).0.log,
        ),
{
    law_replication_keeps_logs_matching(leader, follower, peer);
}

/// No append request takes a committed entry away or changes one: the log
/// up to the commit index is afterwards what it was before.
pub proof fn law_committed_entries_stay(node: NodeView, request: AppendEntriesRequestView)
    requires
        node.wf(),
    ensures
        node.handle_append_entries(request).0.log.take(node.commit_index@ as int) == node.log.take(
            node.commit_index@ as int,
        ),
{
    if request.term@ >= node.current_term@ {
        let heard = node.hear_leader(request.term);
        if heard.accepts(request) {
            lemma_merged_well_formed(
                heard.log,
                request.prev_log_index,
                request.prev_log_term,
                request.entries,
            );
            let j = first_missing(heard.log, request.entries);
            if j < request.entries.len() {
                let cut = request.entries[j].index@ - 1;
                assert(node.commit_index@ <= cut);
                assert(node.handle_append_entries(request).0.log.take(node.commit_index@ as int)
                    =~= node.log.take(node.commit_index@ as int));
            }
        }
    }
}

/// The log of a leader is its own: while the node leads in its term, no
/// handler takes an entry away from the log or changes one. An append
/// request of a newer term ends the leadership: what the node then takes
/// into its log, it takes as a follower.
pub proof fn law_leader_keeps_its_log(
    node: NodeView,
    vote_request: RequestVoteRequest,
    vote_response: RequestVoteResponse,
    append_request: AppendEntriesRequestView,
    peer: NodeId,
    append_response: AppendEntriesResponse,
)
    requires
        node.wf(),
        node.state == RaftState::Leader,
    ensures
        node.handle_request_vote(vote_request).0.log == node.log,
        node.handle_request_response(vote_response).0.log == node.log,
        node.handle_append_entries_response(peer, append_response).log == node.log,
        append_request.term@ <= node.current_term@ ==> node.handle_append_entries(
            append_request,
        ).0 == node,
        append_request.term@ > node.current_term@ ==> node.handle_append_entries(
            append_request,
        ).0.state == RaftState::Follower,
{
}

/// A leader commits by quorum and in its own term only. Where the answer
/// to an append request moves the commit index of a leader up, the entry
/// at the new commit index is of the leader's term, and the members known
/// to hold it, the leader among them, are a quorum of the cluster.
pub proof fn law_leader_commits_by_quorum(
    node: NodeView,
    peer: NodeId,
    response: AppendEntriesResponse,
)
    requires
        node.wf(),
    ensures
        ({
            let after = node.handle_append_entries_response(peer, response);
            after.commit_index@ > node.commit_index@ ==> {
                &&& after.state == RaftState::Leader
                &&& after.current_term == node.current_term
                &&& after.log == node.log
                &&& 1 <= after.commit_index@ <= after.log.len()
                &&& after.log[after.commit_index@ - 1].term == after.current_term
                &&& after.replicas(after.commit_index@) >= after.quorum()
            }
        }),
{
    let after = node.handle_append_entries_response(peer, response);
    if after.commit_index@ > node.commit_index@ {
        let known = node.acknowledge(peer);
        let n = choose|n: nat| known.is_commit_target(n);
    }
}

/// A well-formed log matches itself.
pub proof fn lemma_logs_match_themselves(log: Seq<LogEntryView>)
    requires
        well_formed(log),
    ensures
        logs_match(log, log),
{
}

/// What relates a cluster to the cluster that it has become: it has the same
/// runners, every one of them is well formed, and every node has moved on.
pub open spec fn all_move_on(before: Seq<RunnerView>, after: Seq<RunnerView>) -> bool {
    &&& after.len() == before.len()
    &&& forall|i: int|
        0 <= i < before.len() ==> (#[trigger] after[i]).wf() && moves_on(
            before[i].node,
            after[i].node,
        )
}

/// A node that has a runner has a first runner.
pub proof fn lemma_first_runner(cluster: Seq<RunnerView>, id: NodeId, j: int)
    requires
        0 <= j < cluster.len(),
        cluster[j].node.id == id,
    ensures
        is_runner_of(cluster, id, runner_of(cluster, id)),
    decreases j,
{
    if exists|k: int| 0 <= k < j && (#[trigger] cluster[k]).node.id == id {
        let k = choose|k: int| 0 <= k < j && (#[trigger] cluster[k]).node.id == id;
        lemma_first_runner(cluster, id, k);
    } else {
        assert(is_runner_of(cluster, id, j));
    }
}

/// Carrying one message leaves every runner well formed and moves every node on.
pub proof fn lemma_delivery_moves_on(
    cluster: Seq<RunnerView>,
    sent: Sent,
    now: u64,
    timeouts: Seq<u64>,
)
    requires
        forall|i: int| 0 <= i < cluster.len() ==> (#[trigger] cluster[i]).wf(),
    ensures
        all_move_on(cluster, deliver(cluster, sent, now, timeouts)),
{
    let (from, action) = sent;
    let after = deliver(cluster, sent, now, timeouts);
    match action {
        RaftActionView::SendRequestVote(to, request) => {
            if has_runner(cluster, to) {
                let j = choose|j: int| 0 <= j < cluster.len() && (#[trigger] cluster[j]).node.id == to;
                lemma_first_runner(cluster, to, j);
                let t = runner_of(cluster, to);
                let node = cluster[t].node.handle_request_vote(request).0;
                law_handlers_keep_well_formed(
                    cluster[t].node,
                    request,
                    arbitrary(),
                    arbitrary(),
                    arbitrary(),
                    arbitrary(),
                );
                let voted = cluster.update(t, RunnerView { node, ..cluster[t] });
                if has_runner(voted, from) {
                    let k = choose|k: int|
                        0 <= k < voted.len() && (#[trigger] voted[k]).node.id == from;
                    lemma_first_runner(voted, from, k);
                }
            }
        },
        RaftActionView::SendAppendEntries(to, request) => {
            if has_runner(cluster, to) {
                let j = choose|j: int| 0 <= j < cluster.len() && (#[trigger] cluster[j]).node.id == to;
                lemma_first_runner(cluster, to, j);
                let t = runner_of(cluster, to);
                law_event_moves_on(
                    cluster[t],
                    RaftEventView::ReceivedAppendEntries(request),
                    now,
                    timeouts[t],
                );
                let heard = cluster.update(
                    t,
                    cluster[t].receive_append_entries(request, now, timeouts[t]),
                );
                if has_runner(heard, from) {
                    let k = choose|k: int|
                        0 <= k < heard.len() && (#[trigger] heard[k]).node.id == from;
                    lemma_first_runner(heard, from, k);
                }
            }
        },
    }
    assert forall|i: int| 0 <= i < cluster.len() implies (#[trigger] after[i]).wf() && moves_on(
        cluster[i].node,
        after[i].node,
    ) by {
        assert(cluster[i].wf());
    }
}

/// Carrying messages one after the other leaves every runner well formed
/// and moves every node on.
pub proof fn lemma_deliveries_move_on(
    cluster: Seq<RunnerView>,
    sent: Seq<Sent>,
    now: u64,
    timeouts: Seq<u64>,
)
    requires
        forall|i: int| 0 <= i < cluster.len() ==> (#[trigger] cluster[i]).wf(),
    ensures
        all_move_on(cluster, deliver_all(cluster, sent, now, timeouts)),
    decreases sent.len(),
{
    if sent.len() > 0 {
        let next = deliver(cluster, sent[0], now, timeouts);
        lemma_delivery_moves_on(cluster, sent[0], now, timeouts);
        lemma_deliveries_move_on(next, sent.drop_first(), now, timeouts);
        let last = deliver_all(cluster, sent, now, timeouts);
        assert forall|i: int| 0 <= i < cluster.len() implies (#[trigger] last[i]).wf() && moves_on(
            cluster[i].node,
            last[i].node,
        ) by {
            assert(next[i].wf());
        }
    } else {
        assert forall|i: int| 0 <= i < cluster.len() implies moves_on(
            cluster[i].node,
            (#[trigger] cluster[i]).node,
        ) by {
        }
    }
}

/// A tick of the cluster leaves every runner well formed and moves every
/// node on: in a simulated cluster no term falls, no commit index falls and
/// no vote changes within its term, whatever ticks the cluster makes.
pub proof fn law_cluster_tick_moves_on(cluster: Seq<RunnerView>, now: u64, timeouts: Seq<u64>)
    requires
        can_tick(cluster, now, timeouts),
    ensures
        all_move_on(cluster, cluster_tick(cluster, now, timeouts)),
{
    let middle = ticked(cluster, now, timeouts);
    assert forall|i: int| 0 <= i < cluster.len() implies (#[trigger] middle[i]).wf() && moves_on(
        cluster[i].node,
        middle[i].node,
    ) by {
        assert(cluster[i].wf());
        law_tick_moves_on(cluster[i], now, timeouts[i]);
    }
    let sent = sent_by(cluster, now, timeouts, cluster.len());
    lemma_deliveries_move_on(middle, sent, now, timeouts);
    let last = cluster_tick(cluster, now, timeouts);
    assert forall|i: int| 0 <= i < cluster.len() implies (#[trigger] last[i]).wf() && moves_on(
        cluster[i].node,
        last[i].node,
    ) by {
        assert(middle[i].wf());
    }
}

} // verus!
