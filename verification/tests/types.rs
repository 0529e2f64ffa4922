use mini_raft::types::{LogIndex, NodeId, RaftState, Term};

#[test]
fn term_keeps_its_value() {
    assert_eq!(Term::new(7).get(), 7);
    assert_eq!(Term::new(0), Term::new(0));
    assert!(Term::new(1) < Term::new(2));
}

#[test]
fn node_id_keeps_its_value() {
    assert_eq!(NodeId::new(3).get(), 3);
    assert_ne!(NodeId::new(3), NodeId::new(4));
}

#[test]
fn log_index_keeps_its_value() {
    assert_eq!(LogIndex::new(9).get(), 9);
    assert!(LogIndex::new(9) > LogIndex::new(8));
}

#[test]
fn states_are_distinct() {
    assert_ne!(RaftState::Follower, RaftState::Candidate);
    assert_ne!(RaftState::Candidate, RaftState::Leader);
}
