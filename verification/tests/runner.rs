use mini_raft::event::RaftEvent;
use mini_raft::log::LogEntry;
use mini_raft::node::RaftNode;
use mini_raft::raft::{RaftAction, RaftRunner};
use mini_raft::rpc::{
    AppendEntriesRequest, AppendEntriesResponse, RequestVoteRequest, RequestVoteResponse,
};
use mini_raft::timer::Timer;
use mini_raft::types::{LogIndex, NodeId, RaftState, Term};

fn runner_of(id: u64, peers: &[u64], timeout: u64) -> RaftRunner {
    let peers = peers.iter().map(|p| NodeId::new(*p)).collect();
    RaftRunner::new(RaftNode::with_election_timeout(NodeId::new(id), peers, 0, timeout))
}

fn granted(term: u64) -> RaftEvent {
    RaftEvent::ReceivedRequestVoteResponse(RequestVoteResponse {
        term: Term::new(term),
        vote_granted: true,
    })
}

fn denied(term: u64) -> RaftEvent {
    RaftEvent::ReceivedRequestVoteResponse(RequestVoteResponse {
        term: Term::new(term),
        vote_granted: false,
    })
}

fn heartbeat(term: u64) -> AppendEntriesRequest {
    AppendEntriesRequest {
        term: Term::new(term),
        leader_id: NodeId::new(9),
        prev_log_index: LogIndex::new(0),
        prev_log_term: Term::new(0),
        entries: vec![],
        leader_commit: LogIndex::new(0),
    }
}

fn targets(actions: &[RaftAction]) -> Vec<(bool, u64)> {
    actions
        .iter()
        .map(|a| match a {
            RaftAction::SendRequestVote(to, _) => (true, to.get()),
            RaftAction::SendAppendEntries(to, _) => (false, to.get()),
        })
        .collect()
}

#[test]
fn tick_before_the_deadline_does_nothing() {
    let mut runner = runner_of(1, &[2, 3], 150);
    let actions = runner.tick_with(149, 200);
    assert!(actions.is_empty());
    assert_eq!(runner.node().state, RaftState::Follower);
    assert_eq!(runner.node().current_term, Term::new(0));
    assert_eq!(runner.node().election_timer, Timer { deadline: 150, duration: 150 });
}

#[test]
fn election_timeout_starts_an_election() {
    let mut runner = runner_of(1, &[2, 3], 150);
    runner.node_mut().log.append(LogEntry {
        term: Term::new(0),
        index: LogIndex::new(1),
        command: vec![1],
    });
    let actions = runner.tick_with(150, 200);
    assert_eq!(runner.node().state, RaftState::Candidate);
    assert_eq!(runner.node().current_term, Term::new(1));
    assert_eq!(runner.node().voted_for, Some(NodeId::new(1)));
    assert_eq!(runner.node().election_timer, Timer { deadline: 350, duration: 200 });
    let request = RequestVoteRequest {
        term: Term::new(1),
        candidate_id: NodeId::new(1),
        last_log_index: LogIndex::new(1),
        last_log_term: Term::new(0),
    };
    assert_eq!(actions.len(), 2);
    match &actions[0] {
        RaftAction::SendRequestVote(to, sent) => {
            assert_eq!(*to, NodeId::new(2));
            assert_eq!(*sent, request);
        }
        other => panic!("unexpected action {other:?}"),
    }
    match &actions[1] {
        RaftAction::SendRequestVote(to, sent) => {
            assert_eq!(*to, NodeId::new(3));
            assert_eq!(*sent, request);
        }
        other => panic!("unexpected action {other:?}"),
    }
}

#[test]
fn candidate_without_quorum_starts_a_new_election() {
    let mut runner = runner_of(1, &[2, 3], 150);
    let _ = runner.tick_with(150, 200);
    assert!(runner.tick_with(349, 200).is_empty());
    let actions = runner.tick_with(350, 180);
    assert_eq!(targets(&actions), vec![(true, 2), (true, 3)]);
    assert_eq!(runner.node().state, RaftState::Candidate);
    assert_eq!(runner.node().current_term, Term::new(2));
    assert_eq!(runner.node().election_timer, Timer { deadline: 530, duration: 180 });
}

#[test]
fn quorum_of_votes_makes_a_leader() {
    let mut runner = runner_of(1, &[2, 3, 4, 5], 150);
    let _ = runner.tick_with(150, 200);
    runner.push_event(granted(1));
    let actions = runner.tick_with(160, 200);
    assert!(actions.is_empty());
    assert_eq!(runner.node().state, RaftState::Candidate);
    runner.push_event(granted(1));
    let actions = runner.tick_with(170, 200);
    // Its own vote and two more are three of five.
    assert_eq!(runner.node().state, RaftState::Leader);
    assert_eq!(runner.node().current_term, Term::new(1));
    assert_eq!(targets(&actions), vec![(false, 2), (false, 3), (false, 4), (false, 5)]);
    assert_eq!(runner.node().heartbeat_timer, Timer { deadline: 220, duration: 50 });
    assert_eq!(runner.node().next_index.get(&4), Some(&LogIndex::new(1)));
}

#[test]
fn leadership_is_taken_once() {
    let mut runner = runner_of(1, &[2, 3], 150);
    let _ = runner.tick_with(150, 200);
    runner.push_event(granted(1));
    runner.push_event(granted(1));
    let actions = runner.tick_with(160, 200);
    assert_eq!(runner.node().state, RaftState::Leader);
    // One round of append requests, caused by the first vote alone.
    assert_eq!(targets(&actions), vec![(false, 2), (false, 3)]);
    runner.push_event(granted(1));
    assert!(runner.tick_with(170, 200).is_empty());
    assert_eq!(runner.node().state, RaftState::Leader);
}

#[test]
fn denied_and_stale_votes_do_not_count() {
    let mut runner = runner_of(1, &[2, 3], 150);
    let _ = runner.tick_with(150, 200);
    let _ = runner.tick_with(350, 200);
    assert_eq!(runner.node().current_term, Term::new(2));
    runner.push_event(denied(2));
    runner.push_event(granted(1));
    runner.push_event(denied(1));
    let actions = runner.tick_with(360, 200);
    assert!(actions.is_empty());
    assert_eq!(runner.node().state, RaftState::Candidate);
    runner.push_event(granted(2));
    let _ = runner.tick_with(370, 200);
    assert_eq!(runner.node().state, RaftState::Leader);
}

#[test]
fn votes_do_not_count_for_a_follower() {
    let mut runner = runner_of(1, &[2, 3], 150);
    runner.push_event(granted(0));
    runner.push_event(granted(0));
    let actions = runner.tick_with(10, 200);
    assert!(actions.is_empty());
    assert_eq!(runner.node().state, RaftState::Follower);
}

#[test]
fn vote_of_a_newer_term_ends_the_election() {
    let mut runner = runner_of(1, &[2, 3], 150);
    let _ = runner.tick_with(150, 200);
    runner.push_event(denied(4));
    runner.push_event(granted(4));
    let actions = runner.tick_with(160, 200);
    assert!(actions.is_empty());
    assert_eq!(runner.node().state, RaftState::Follower);
    assert_eq!(runner.node().current_term, Term::new(4));
}

#[test]
fn votes_are_counted_for_a_candidacy_started_on_the_node() {
    let mut runner = runner_of(1, &[2, 3], 150);
    runner.node_mut().become_candidate();
    runner.push_event(granted(1));
    let actions = runner.tick_with(10, 200);
    assert_eq!(runner.node().state, RaftState::Leader);
    assert_eq!(targets(&actions), vec![(false, 2), (false, 3)]);
}

#[test]
fn node_without_peers_elects_itself() {
    let mut runner = runner_of(1, &[], 150);
    let actions = runner.tick_with(150, 200);
    assert!(actions.is_empty());
    assert_eq!(runner.node().state, RaftState::Leader);
    assert_eq!(runner.node().current_term, Term::new(1));
    assert_eq!(runner.node().heartbeat_timer, Timer { deadline: 200, duration: 50 });
    assert!(runner.tick_with(1_000, 200).is_empty());
    assert_eq!(runner.node().current_term, Term::new(1));
}

#[test]
fn leader_sends_heartbeats_when_its_timer_elapses() {
    let mut runner = runner_of(1, &[2, 3], 150);
    let _ = runner.tick_with(150, 200);
    runner.push_event(granted(1));
    let _ = runner.tick_with(160, 200);
    assert_eq!(runner.node().heartbeat_timer.deadline, 210);
    assert!(runner.tick_with(209, 200).is_empty());
    let actions = runner.tick_with(210, 200);
    assert_eq!(targets(&actions), vec![(false, 2), (false, 3)]);
    assert_eq!(runner.node().heartbeat_timer, Timer { deadline: 260, duration: 50 });
    match &actions[0] {
        RaftAction::SendAppendEntries(_, request) => {
            assert_eq!(request.term, Term::new(1));
            assert_eq!(request.leader_id, NodeId::new(1));
            assert!(request.entries.is_empty());
        }
        other => panic!("unexpected action {other:?}"),
    }
    // A leader starts no election, however late the tick.
    let actions = runner.tick_with(5_000, 200);
    assert_eq!(targets(&actions), vec![(false, 2), (false, 3)]);
    assert_eq!(runner.node().state, RaftState::Leader);
    assert_eq!(runner.node().current_term, Term::new(1));
}

#[test]
fn follower_sends_no_heartbeats() {
    let mut runner = runner_of(1, &[2, 3], 300);
    assert!(runner.tick_with(100, 200).is_empty());
    assert_eq!(runner.node().heartbeat_timer, Timer { deadline: 50, duration: 50 });
}

#[test]
fn heartbeat_of_a_leader_keeps_the_follower_from_an_election() {
    let mut runner = runner_of(2, &[1, 3], 150);
    runner.push_event(RaftEvent::ReceivedAppendEntries(heartbeat(1)));
    let _ = runner.tick_with(100, 250);
    assert_eq!(runner.node().election_timer, Timer { deadline: 350, duration: 250 });
    assert_eq!(runner.node().current_term, Term::new(1));
    assert!(runner.tick_with(349, 250).is_empty());
    assert_eq!(runner.node().state, RaftState::Follower);
}

#[test]
fn stale_heartbeat_does_not_restart_the_election_timer() {
    let mut runner = runner_of(2, &[1, 3], 150);
    runner.node_mut().become_follower(Term::new(5));
    runner.push_event(RaftEvent::ReceivedAppendEntries(heartbeat(4)));
    let _ = runner.tick_with(100, 250);
    assert_eq!(runner.node().election_timer, Timer { deadline: 150, duration: 150 });
    assert_eq!(runner.node().current_term, Term::new(5));
}

#[test]
fn refused_append_request_of_the_term_restarts_the_election_timer() {
    let mut runner = runner_of(2, &[1, 3], 150);
    let mut request = heartbeat(1);
    request.prev_log_index = LogIndex::new(3);
    request.prev_log_term = Term::new(1);
    let mut actions = Vec::new();
    runner.handle_event_with(RaftEvent::ReceivedAppendEntries(request), 40, 222, &mut actions);
    assert!(actions.is_empty());
    assert_eq!(runner.node().election_timer, Timer { deadline: 262, duration: 222 });
}

#[test]
fn events_are_handled_in_the_order_of_their_arrival() {
    let mut runner = runner_of(2, &[1, 3], 300);
    runner.push_event(RaftEvent::ReceivedRequestVote(RequestVoteRequest {
        term: Term::new(1),
        candidate_id: NodeId::new(1),
        last_log_index: LogIndex::new(0),
        last_log_term: Term::new(0),
    }));
    runner.push_event(RaftEvent::ReceivedRequestVote(RequestVoteRequest {
        term: Term::new(1),
        candidate_id: NodeId::new(3),
        last_log_index: LogIndex::new(0),
        last_log_term: Term::new(0),
    }));
    let actions = runner.tick_with(10, 200);
    assert!(actions.is_empty());
    assert_eq!(runner.node().voted_for, Some(NodeId::new(1)));
    assert_eq!(runner.node().current_term, Term::new(1));
}

#[test]
fn queue_is_empty_after_a_tick() {
    let mut runner = runner_of(1, &[2, 3], 150);
    let _ = runner.tick_with(150, 200);
    runner.push_event(granted(1));
    let _ = runner.tick_with(160, 200);
    assert_eq!(runner.node().state, RaftState::Leader);
    runner.node_mut().become_follower(Term::new(1));
    runner.node_mut().become_candidate();
    // The vote of the earlier tick is gone: nothing is counted again.
    let _ = runner.tick_with(170, 200);
    assert_eq!(runner.node().state, RaftState::Candidate);
    assert_eq!(runner.node().current_term, Term::new(2));
}

#[test]
fn timeout_events_are_ignored() {
    let mut runner = runner_of(1, &[2, 3], 150);
    runner.push_event(RaftEvent::ElectionTimeout);
    runner.push_event(RaftEvent::HeartbeatTimeout);
    let actions = runner.tick_with(10, 200);
    assert!(actions.is_empty());
    assert_eq!(runner.node().state, RaftState::Follower);
    assert_eq!(runner.node().current_term, Term::new(0));
}

#[test]
fn append_response_reaches_the_leader() {
    let mut runner = runner_of(1, &[2, 3], 150);
    let _ = runner.tick_with(150, 200);
    runner.push_event(granted(1));
    let _ = runner.tick_with(160, 200);
    runner.node_mut().log.append(LogEntry {
        term: Term::new(1),
        index: LogIndex::new(1),
        command: vec![7],
    });
    runner.push_event(RaftEvent::ReceivedAppendEntriesResponse(
        NodeId::new(3),
        AppendEntriesResponse { term: Term::new(1), success: true },
    ));
    let actions = runner.tick_with(170, 200);
    assert!(actions.is_empty());
    assert_eq!(runner.node().match_index.get(&3), Some(&LogIndex::new(1)));
    assert_eq!(runner.node().next_index.get(&3), Some(&LogIndex::new(2)));
    assert_eq!(runner.node().commit_index, LogIndex::new(1));
    runner.push_event(RaftEvent::ReceivedAppendEntriesResponse(
        NodeId::new(2),
        AppendEntriesResponse { term: Term::new(1), success: false },
    ));
    let _ = runner.tick_with(180, 200);
    assert_eq!(runner.node().next_index.get(&2), Some(&LogIndex::new(1)));
}

#[test]
fn handle_event_queues_messages_behind_those_that_are_there() {
    let mut runner = runner_of(1, &[2], 150);
    let mut actions = runner.tick_with(150, 200);
    assert_eq!(targets(&actions), vec![(true, 2)]);
    runner.handle_event(granted(1), 160, &mut actions);
    assert_eq!(targets(&actions), vec![(true, 2), (false, 2)]);
    assert_eq!(runner.node().state, RaftState::Leader);
}

#[test]
fn tick_draws_the_election_timeout() {
    let mut runner = runner_of(1, &[2, 3], 150);
    let actions = runner.tick(150);
    assert_eq!(targets(&actions), vec![(true, 2), (true, 3)]);
    let timer = runner.node().election_timer;
    assert!((150..=300).contains(&timer.duration));
    assert_eq!(timer.deadline, 150 + timer.duration);
}

#[test]
fn receive_hands_back_the_answers_of_the_node() {
    let mut runner = runner_of(2, &[1, 3], 150);
    let vote = runner.receive_request_vote(RequestVoteRequest {
        term: Term::new(2),
        candidate_id: NodeId::new(3),
        last_log_index: LogIndex::new(0),
        last_log_term: Term::new(0),
    });
    assert_eq!(vote, RequestVoteResponse { term: Term::new(2), vote_granted: true });
    let answer = runner.receive_append_entries(heartbeat(1), 20, 175);
    assert_eq!(answer, AppendEntriesResponse { term: Term::new(2), success: false });
    assert_eq!(runner.node().election_timer, Timer { deadline: 150, duration: 150 });
    let answer = runner.receive_append_entries(heartbeat(2), 30, 175);
    assert_eq!(answer, AppendEntriesResponse { term: Term::new(2), success: true });
    assert_eq!(runner.node().election_timer, Timer { deadline: 205, duration: 175 });
}

#[test]
fn clone_of_an_event_and_of_an_action_keeps_the_value() {
    let mut request = heartbeat(3);
    request.entries.push(LogEntry { term: Term::new(3), index: LogIndex::new(1), command: vec![5] });
    let event = RaftEvent::ReceivedAppendEntries(request.clone());
    match event.clone() {
        RaftEvent::ReceivedAppendEntries(copy) => assert_eq!(copy, request),
        other => panic!("unexpected event {other:?}"),
    }
    let action = RaftAction::SendAppendEntries(NodeId::new(2), request.clone());
    match action.clone() {
        RaftAction::SendAppendEntries(to, copy) => {
            assert_eq!(to, NodeId::new(2));
            assert_eq!(copy, request);
        }
        other => panic!("unexpected action {other:?}"),
    }
}
