use mini_raft::log::{LogEntry, LogStore};
use mini_raft::types::{LogIndex, Term};

fn entry(term: u64, index: u64, command: &[u8]) -> LogEntry {
    LogEntry { term: Term::new(term), index: LogIndex::new(index), command: command.to_vec() }
}

fn three_entries() -> LogStore {
    let mut log = LogStore::new();
    log.append(entry(1, 1, b"a"));
    log.append(entry(1, 2, b"b"));
    log.append(entry(3, 3, b"c"));
    log
}

#[test]
fn new_log_is_empty() {
    let log = LogStore::new();
    assert!(log.is_empty());
    assert_eq!(log.len(), 0);
    assert_eq!(log.last_log_index(), LogIndex::new(0));
    assert_eq!(log.last_log_term(), Term::new(0));
    assert!(log.get(LogIndex::new(1)).is_none());
    assert!(log.entries_from(LogIndex::new(0)).is_empty());
}

#[test]
fn default_log_is_empty() {
    let log = LogStore::default();
    assert!(log.is_empty());
}

#[test]
fn append_adds_at_the_end() {
    let log = three_entries();
    assert!(!log.is_empty());
    assert_eq!(log.len(), 3);
    assert_eq!(log.entries[0], entry(1, 1, b"a"));
    assert_eq!(log.entries[2], entry(3, 3, b"c"));
}

#[test]
fn last_index_and_term_follow_the_last_entry() {
    let mut log = three_entries();
    assert_eq!(log.last_log_index(), LogIndex::new(3));
    assert_eq!(log.last_log_term(), Term::new(3));
    log.append(entry(4, 4, b"d"));
    assert_eq!(log.last_log_index(), LogIndex::new(4));
    assert_eq!(log.last_log_term(), Term::new(4));
    log.truncate(LogIndex::new(2));
    assert_eq!(log.last_log_index(), LogIndex::new(1));
    assert_eq!(log.last_log_term(), Term::new(1));
}

#[test]
fn get_finds_an_entry_by_its_number() {
    let log = three_entries();
    assert_eq!(log.get(LogIndex::new(2)), Some(&entry(1, 2, b"b")));
    assert_eq!(log.get(LogIndex::new(3)), Some(&entry(3, 3, b"c")));
    assert_eq!(log.get(LogIndex::new(0)), None);
    assert_eq!(log.get(LogIndex::new(4)), None);
}

#[test]
fn get_returns_the_first_of_two_entries_with_one_number() {
    let mut log = LogStore::new();
    log.append(entry(1, 7, b"first"));
    log.append(entry(2, 7, b"second"));
    assert_eq!(log.get(LogIndex::new(7)), Some(&entry(1, 7, b"first")));
}

#[test]
fn term_of_gives_the_term_of_an_entry() {
    let log = three_entries();
    assert_eq!(log.term_of(LogIndex::new(1)), Some(Term::new(1)));
    assert_eq!(log.term_of(LogIndex::new(3)), Some(Term::new(3)));
    assert_eq!(log.term_of(LogIndex::new(0)), None);
    assert_eq!(log.term_of(LogIndex::new(4)), None);
}

#[test]
fn entries_from_copies_the_tail() {
    let log = three_entries();
    assert_eq!(log.entries_from(LogIndex::new(2)), vec![entry(1, 2, b"b"), entry(3, 3, b"c")]);
    assert_eq!(log.entries_from(LogIndex::new(3)), vec![entry(3, 3, b"c")]);
    assert_eq!(log.entries_from(LogIndex::new(4)), Vec::<LogEntry>::new());
    assert_eq!(log.entries_from(LogIndex::new(0)).len(), 3);
    assert_eq!(log.entries_from(LogIndex::new(1)).len(), 3);
    assert_eq!(log.len(), 3);
}

#[test]
fn truncate_removes_from_an_index_on() {
    let mut log = three_entries();
    log.truncate(LogIndex::new(2));
    assert_eq!(log.entries, vec![entry(1, 1, b"a")]);
    let mut log = three_entries();
    log.truncate(LogIndex::new(4));
    assert_eq!(log.len(), 3);
    let mut log = three_entries();
    log.truncate(LogIndex::new(1));
    assert!(log.is_empty());
    let mut log = three_entries();
    log.truncate(LogIndex::new(0));
    assert!(log.is_empty());
}

#[test]
fn truncate_then_append_replaces_the_tail() {
    let mut log = three_entries();
    log.truncate(LogIndex::new(3));
    log.append(entry(5, 3, b"x"));
    assert_eq!(log.entries, vec![entry(1, 1, b"a"), entry(1, 2, b"b"), entry(5, 3, b"x")]);
}

#[test]
fn clone_of_an_entry_is_equal() {
    let first = entry(2, 9, b"payload");
    let copy = first.clone();
    assert_eq!(copy, first);
    assert_eq!(copy.command, b"payload".to_vec());
}

#[test]
fn truncate_goes_by_the_numbers_of_the_entries() {
    let mut log = LogStore::new();
    log.append(entry(1, 3, b"c"));
    log.append(entry(1, 1, b"a"));
    log.append(entry(1, 5, b"e"));
    log.append(entry(1, 2, b"b"));
    log.truncate(LogIndex::new(3));
    assert_eq!(log.entries, vec![entry(1, 1, b"a"), entry(1, 2, b"b")]);
}

#[test]
fn entries_from_goes_by_the_numbers_of_the_entries() {
    let mut log = LogStore::new();
    log.append(entry(1, 3, b"c"));
    log.append(entry(1, 1, b"a"));
    log.append(entry(1, 5, b"e"));
    assert_eq!(log.entries_from(LogIndex::new(3)), vec![entry(1, 3, b"c"), entry(1, 5, b"e")]);
    assert_eq!(log.last_log_index(), LogIndex::new(5));
}

#[test]
fn clone_of_a_log_holds_the_same_entries() {
    let log = three_entries();
    let copy = log.clone();
    assert_eq!(copy.entries, log.entries);
    assert_eq!(copy.len(), 3);
}
