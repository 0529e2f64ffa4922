//! The messages of the two remote procedure calls, RequestVote and AppendEntries.

use crate::log::{clone_entries, entries_continue, entries_view, LogEntry, LogEntryView};
use crate::types::{LogIndex, NodeId, Term};
use vstd::prelude::*;

verus! {

/// A candidate asks for a vote in `term`, describing the end of its own log.
#[derive(Debug, Clone, Copy, PartialEq, Eq, Structural)]
pub struct RequestVoteRequest {
    pub term: Term,
    pub candidate_id: NodeId,
    pub last_log_index: LogIndex,
    pub last_log_term: Term,
}

/// The answer to a vote request, with the term of the node that answers.
#[derive(Debug, Clone, Copy, PartialEq, Eq, Structural)]
pub struct RequestVoteResponse {
    pub term: Term,
    pub vote_granted: bool,
}

/// A leader replicates `entries`, which follow the entry numbered
/// `prev_log_index`; with no entries the request is a heartbeat.
#[derive(Debug, PartialEq, Eq)]
pub struct AppendEntriesRequest {
    pub term: Term,
    pub leader_id: NodeId,
    pub prev_log_index: LogIndex,
    pub prev_log_term: Term,
    pub entries: Vec<LogEntry>,
    pub leader_commit: LogIndex,
}

/// The mathematical value of an [`AppendEntriesRequest`].
pub struct AppendEntriesRequestView {
    pub term: Term,
    pub leader_id: NodeId,
    pub prev_log_index: LogIndex,
    pub prev_log_term: Term,
    pub entries: Seq<LogEntryView>,
    pub leader_commit: LogIndex,
}

impl View for AppendEntriesRequest {
    type V = AppendEntriesRequestView;

    open spec fn view(&self) -> AppendEntriesRequestView {
        AppendEntriesRequestView {
            term: self.term,
            leader_id: self.leader_id,
            prev_log_index: self.prev_log_index,
            prev_log_term: self.prev_log_term,
            entries: entries_view(self.entries@),
            leader_commit: self.leader_commit,
        }
    }
}

impl Clone for AppendEntriesRequest {
    fn clone(&self) -> (copy: Self)
        ensures
            copy@ == self@,
    {
        AppendEntriesRequest {
            term: self.term,
            leader_id: self.leader_id,
            prev_log_index: self.prev_log_index,
            prev_log_term: self.prev_log_term,
            entries: clone_entries(&self.entries),
            leader_commit: self.leader_commit,
        }
    }
}

impl AppendEntriesRequest {
    /// Whether the entries can follow the entry that the request names as
    /// their predecessor: numbered onward from it, with terms that never fall.
    pub fn continues_log(&self) -> (continues: bool)
        ensures
            continues == entries_continue(self.prev_log_index, self.prev_log_term, self@.entries),
    {
        let prev = self.prev_log_index.get();
        let n = self.entries.len();
        if n as u64 >= u64::MAX - prev {
            return false;
        }
        let ghost entries = self@.entries;
        let mut i: usize = 0;
        while i < n
            invariant
                i <= n,
                n == self.entries@.len(),
                entries == self@.entries,
                prev == self.prev_log_index@,
                prev + n < u64::MAX,
                forall|k: int| 0 <= k < i ==> (#[trigger] entries[k]).index@ == prev + 1 + k,
                i > 0 && prev > 0 ==> entries[0].term@ >= self.prev_log_term@,
                forall|a: int, b: int| 0 <= a <= b < i ==> entries[a].term@ <= entries[b].term@,
            decreases n - i,
        {
            let entry = &self.entries[i];
            assert(entry@ == entries[i as int]);
            let floor = if i == 0 {
                if prev > 0 {
                    self.prev_log_term.get()
                } else {
                    0
                }
            } else {
                self.entries[i - 1].term.get()
            };
            if i > 0 {
                assert(self.entries[i - 1]@ == entries[i - 1]);
            }
            if entry.index.get() != prev + 1 + i as u64 || entry.term.get() < floor {
                return false;
            }
            i += 1;
        }
        true
    }
}

/// The answer to an append request, with the term of the node that answers.
#[derive(Debug, Clone, Copy, PartialEq, Eq, Structural)]
pub struct AppendEntriesResponse {
    pub term: Term,
    pub success: bool,
}

} // verus!
