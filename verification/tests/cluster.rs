use mini_raft::event::RaftEvent;
use mini_raft::node::RaftNode;
use mini_raft::raft::{RaftAction, RaftRunner};
use mini_raft::simulator::Simulator;
use mini_raft::types::{LogIndex, NodeId, RaftState, Term};
use std::collections::HashMap;

fn ids(values: &[u64]) -> Vec<NodeId> {
    values.iter().map(|v| NodeId::new(*v)).collect()
}

fn state_of(sim: &Simulator, id: u64) -> (RaftState, u64, Option<u64>) {
    let node = sim.node(NodeId::new(id)).unwrap();
    (node.state, node.current_term.get(), node.voted_for.map(|v| v.get()))
}

#[test]
fn new_cluster_has_one_follower_for_each_id() {
    let sim = Simulator::with_election_timeouts(ids(&[1, 2, 3]), 1_000, &vec![150, 200, 250]);
    for (id, timeout) in [(1u64, 150u64), (2, 200), (3, 250)] {
        let node = sim.node(NodeId::new(id)).unwrap();
        assert_eq!(node.id, NodeId::new(id));
        assert_eq!(node.state, RaftState::Follower);
        assert_eq!(node.current_term, Term::new(0));
        assert_eq!(node.election_timer.deadline, 1_000 + timeout);
        assert_eq!(node.peers.len(), 2);
        assert!(!node.peers.contains(&NodeId::new(id)));
    }
    assert_eq!(sim.node(NodeId::new(2)).unwrap().peers, ids(&[1, 3]));
    assert!(sim.node(NodeId::new(4)).is_none());
    assert_eq!(sim.find_leader(), None);
}

#[test]
fn an_id_that_occurs_again_is_passed_over() {
    let sim = Simulator::with_election_timeouts(ids(&[1, 2, 1]), 0, &vec![150, 200, 250]);
    let node = sim.node(NodeId::new(1)).unwrap();
    assert_eq!(node.election_timer.deadline, 150);
    assert_eq!(node.peers, ids(&[2]));
    assert_eq!(sim.node(NodeId::new(2)).unwrap().peers, ids(&[1, 1]));
}

#[test]
fn empty_cluster_ticks() {
    let mut sim = Simulator::new(vec![], 0);
    sim.tick(1_000);
    assert_eq!(sim.find_leader(), None);
}

#[test]
fn new_cluster_draws_its_election_timeouts() {
    let sim = Simulator::new(ids(&[1, 2, 3]), 100);
    for id in [1u64, 2, 3] {
        let timer = sim.node(NodeId::new(id)).unwrap().election_timer;
        assert!((150..=300).contains(&timer.duration));
        assert_eq!(timer.deadline, 100 + timer.duration);
    }
}

// Three nodes, all followers in term zero with empty logs. The election
// timer of the first elapses first; both peers give it their votes.
#[test]
fn scenario_first_election_in_a_fresh_cluster() {
    let mut sim = Simulator::with_election_timeouts(ids(&[1, 2, 3]), 0, &vec![150, 300, 300]);
    let timeouts = vec![200, 300, 300];
    sim.tick_with(100, &timeouts);
    for id in [1u64, 2, 3] {
        assert_eq!(state_of(&sim, id), (RaftState::Follower, 0, None));
    }
    sim.tick_with(150, &timeouts);
    assert_eq!(state_of(&sim, 1), (RaftState::Candidate, 1, Some(1)));
    assert_eq!(state_of(&sim, 2), (RaftState::Follower, 1, Some(1)));
    assert_eq!(state_of(&sim, 3), (RaftState::Follower, 1, Some(1)));
    assert_eq!(sim.find_leader(), None);
    sim.tick_with(160, &timeouts);
    assert_eq!(state_of(&sim, 1), (RaftState::Leader, 1, Some(1)));
    assert_eq!(state_of(&sim, 2), (RaftState::Follower, 1, Some(1)));
    assert_eq!(state_of(&sim, 3), (RaftState::Follower, 1, Some(1)));
    assert_eq!(sim.find_leader(), Some(NodeId::new(1)));
    // The first append requests of the leader have restarted the election timers.
    assert_eq!(sim.node(NodeId::new(2)).unwrap().election_timer.deadline, 460);
    assert_eq!(sim.node(NodeId::new(3)).unwrap().election_timer.deadline, 460);
}

#[test]
fn heartbeats_keep_the_leader_in_office() {
    let mut sim = Simulator::with_election_timeouts(ids(&[1, 2, 3]), 0, &vec![150, 300, 300]);
    let timeouts = vec![200, 300, 300];
    let mut now = 0;
    while now <= 5_000 {
        sim.tick_with(now, &timeouts);
        now += 10;
    }
    assert_eq!(state_of(&sim, 1), (RaftState::Leader, 1, Some(1)));
    assert_eq!(state_of(&sim, 2), (RaftState::Follower, 1, Some(1)));
    assert_eq!(state_of(&sim, 3), (RaftState::Follower, 1, Some(1)));
}

#[test]
fn leader_replicates_its_log_through_the_cluster() {
    let mut sim = Simulator::with_election_timeouts(ids(&[1, 2, 3]), 0, &vec![150, 300, 300]);
    let timeouts = vec![200, 300, 300];
    sim.tick_with(150, &timeouts);
    sim.tick_with(160, &timeouts);
    assert_eq!(sim.find_leader(), Some(NodeId::new(1)));
    // The answers to the first append requests move the next indexes on.
    sim.tick_with(170, &timeouts);
    let leader = sim.node(NodeId::new(1)).unwrap();
    assert_eq!(leader.match_index.get(&2), Some(&LogIndex::new(0)));
    assert_eq!(leader.next_index.get(&2), Some(&LogIndex::new(1)));
    assert_eq!(leader.commit_index, LogIndex::new(0));
}

// Two candidates of one term in a cluster of three, whose third node cannot
// be reached: each has its own vote, neither a quorum. Both try again in the
// next term, and again; then one of them is earlier than the other and wins.
#[test]
fn scenario_split_vote_is_resolved_in_a_later_term() {
    let peers_of = |id: u64| ids(&[1, 2, 3]).into_iter().filter(|p| p.get() != id).collect();
    let mut first = RaftRunner::new(RaftNode::with_election_timeout(NodeId::new(1), peers_of(1), 0, 150));
    let mut second =
        RaftRunner::new(RaftNode::with_election_timeout(NodeId::new(2), peers_of(2), 0, 150));
    let mut third = RaftNode::with_election_timeout(NodeId::new(3), peers_of(3), 0, 300);

    // Round one: both time out together. The third node votes for the first
    // request that reaches it, but its answer is lost.
    let from_first = first.tick_with(150, 200);
    let from_second = second.tick_with(150, 200);
    assert_eq!(first.node().state, RaftState::Candidate);
    assert_eq!(second.node().state, RaftState::Candidate);
    assert_eq!(first.node().current_term, Term::new(1));
    assert_eq!(second.node().current_term, Term::new(1));
    for action in from_first {
        if let RaftAction::SendRequestVote(to, request) = action {
            if to == NodeId::new(2) {
                let answer = second.receive_request_vote(request);
                assert!(!answer.vote_granted);
                first.push_event(RaftEvent::ReceivedRequestVoteResponse(answer));
            } else {
                assert!(third.handle_request_vote(request).vote_granted);
            }
        }
    }
    for action in from_second {
        if let RaftAction::SendRequestVote(to, request) = action {
            if to == NodeId::new(1) {
                let answer = first.receive_request_vote(request);
                assert!(!answer.vote_granted);
                second.push_event(RaftEvent::ReceivedRequestVoteResponse(answer));
            } else {
                let answer = third.handle_request_vote(request);
                assert!(!answer.vote_granted);
                second.push_event(RaftEvent::ReceivedRequestVoteResponse(answer));
            }
        }
    }
    assert!(first.tick_with(160, 200).is_empty());
    assert!(second.tick_with(160, 200).is_empty());
    assert_eq!(first.node().state, RaftState::Candidate);
    assert_eq!(second.node().state, RaftState::Candidate);

    // Round two: both time out together again, now in term 2, and deny each other.
    let from_first = first.tick_with(350, 200);
    let from_second = second.tick_with(350, 300);
    assert_eq!(first.node().current_term, Term::new(2));
    assert_eq!(second.node().current_term, Term::new(2));
    for action in from_first {
        if let RaftAction::SendRequestVote(to, request) = action {
            if to == NodeId::new(2) {
                first.push_event(RaftEvent::ReceivedRequestVoteResponse(
                    second.receive_request_vote(request),
                ));
            }
        }
    }
    for action in from_second {
        if let RaftAction::SendRequestVote(to, request) = action {
            if to == NodeId::new(1) {
                second.push_event(RaftEvent::ReceivedRequestVoteResponse(
                    first.receive_request_vote(request),
                ));
            }
        }
    }
    assert!(first.tick_with(360, 200).is_empty());
    assert!(second.tick_with(360, 300).is_empty());
    assert!(!first.node().is_leader() && !second.node().is_leader());

    // Round three: the first node times out alone and gets the vote of the second.
    assert!(second.tick_with(550, 300).is_empty());
    let from_first = first.tick_with(550, 200);
    assert_eq!(first.node().current_term, Term::new(3));
    for action in from_first {
        if let RaftAction::SendRequestVote(to, request) = action {
            if to == NodeId::new(2) {
                let answer = second.receive_request_vote(request);
                assert!(answer.vote_granted);
                first.push_event(RaftEvent::ReceivedRequestVoteResponse(answer));
            }
        }
    }
    let probes = first.tick_with(560, 200);
    assert_eq!(probes.len(), 2);
    assert_eq!(first.node().state, RaftState::Leader);
    assert_eq!(first.node().current_term, Term::new(3));
    assert_eq!(second.node().state, RaftState::Follower);
    assert_eq!(second.node().current_term, Term::new(3));
    assert_eq!(second.node().voted_for, Some(NodeId::new(1)));
}

#[test]
fn two_candidates_of_one_term_in_a_full_cluster_elect_one_leader() {
    let mut sim = Simulator::with_election_timeouts(ids(&[1, 2, 3]), 0, &vec![150, 150, 300]);
    let timeouts = vec![200, 250, 300];
    sim.tick_with(150, &timeouts);
    assert_eq!(state_of(&sim, 1), (RaftState::Candidate, 1, Some(1)));
    assert_eq!(state_of(&sim, 2), (RaftState::Candidate, 1, Some(2)));
    // The third node has given its vote to the request that came first.
    assert_eq!(state_of(&sim, 3), (RaftState::Follower, 1, Some(1)));
    sim.tick_with(160, &timeouts);
    assert_eq!(state_of(&sim, 1), (RaftState::Leader, 1, Some(1)));
    // The second candidate has stepped down for the leader of its term and keeps its vote.
    assert_eq!(state_of(&sim, 2), (RaftState::Follower, 1, Some(2)));
    assert_eq!(sim.find_leader(), Some(NodeId::new(1)));
}

#[test]
fn at_most_one_leader_in_each_term() {
    for size in [1u64, 2, 3, 4, 5] {
        let members: Vec<u64> = (1..=size).collect();
        let mut sim = Simulator::new(ids(&members), 0);
        let mut leaders: HashMap<u64, u64> = HashMap::new();
        let mut terms: HashMap<u64, u64> = HashMap::new();
        let mut commits: HashMap<u64, u64> = HashMap::new();
        let mut votes: HashMap<(u64, u64), u64> = HashMap::new();
        let mut now = 0;
        while now <= 3_000 {
            sim.tick(now);
            for id in &members {
                let node = sim.node(NodeId::new(*id)).unwrap();
                let term = node.current_term.get();
                if node.is_leader() {
                    assert_eq!(*leaders.entry(term).or_insert(*id), *id);
                }
                assert!(term >= *terms.get(id).unwrap_or(&0));
                terms.insert(*id, term);
                assert!(node.commit_index.get() >= *commits.get(id).unwrap_or(&0));
                commits.insert(*id, node.commit_index.get());
                if let Some(candidate) = node.voted_for {
                    assert_eq!(*votes.entry((*id, term)).or_insert(candidate.get()), candidate.get());
                }
            }
            now += 7;
        }
        assert!(sim.find_leader().is_some());
    }
}

#[test]
fn followers_of_a_leader_without_entries_stay_empty() {
    let mut sim = Simulator::with_election_timeouts(ids(&[1, 2, 3]), 0, &vec![150, 300, 300]);
    let timeouts = vec![200, 300, 300];
    sim.tick_with(150, &timeouts);
    sim.tick_with(160, &timeouts);
    sim.tick_with(170, &timeouts);
    assert_eq!(sim.find_leader(), Some(NodeId::new(1)));
    for id in [2u64, 3] {
        let follower = sim.node(NodeId::new(id)).unwrap();
        assert!(follower.log.is_empty());
        assert_eq!(follower.commit_index, LogIndex::new(0));
    }
}
