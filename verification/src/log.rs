//! The log store: an ordered sequence of entries, each stamped with the term
//! in which it was created and its position in the log.

use crate::types::{LogIndex, Term};
use vstd::prelude::*;

verus! {

/// The mathematical value of a [`LogEntry`]: its command is a sequence of bytes.
pub struct LogEntryView {
    pub term: Term,
    pub index: LogIndex,
    pub command: Seq<u8>,
}

/// One command of the replicated log.
#[derive(Debug, PartialEq, Eq)]
pub struct LogEntry {
    pub term: Term,
    pub index: LogIndex,
    pub command: Vec<u8>,
}

impl View for LogEntry {
    type V = LogEntryView;

    open spec fn view(&self) -> LogEntryView {
        LogEntryView { term: self.term, index: self.index, command: self.command@ }
    }
}

impl Clone for LogEntry {
    fn clone(&self) -> (copy: Self)
        ensures
            copy@ == self@,
    {
        LogEntry { term: self.term, index: self.index, command: self.command.clone() }
    }
}

/// The values of a vector of entries, in order.
pub open spec fn entries_view(entries: Seq<LogEntry>) -> Seq<LogEntryView> {
    entries.map_values(|e: LogEntry| e@)
}

/// Copies of `entries`, in order.
pub fn clone_entries(entries: &Vec<LogEntry>) -> (copy: Vec<LogEntry>)
    ensures
        entries_view(copy@) == entries_view(entries@),
{
    let mut copy: Vec<LogEntry> = Vec::new();
    let mut i: usize = 0;
    while i < entries.len()
        invariant
            i <= entries.len(),
            copy@.len() == i,
            forall|k: int| 0 <= k < i ==> (#[trigger] copy@[k])@ == entries@[k]@,
        decreases entries.len() - i,
    {
        copy.push(entries[i].clone());
        i += 1;
    }
    copy
}

/// A log is well formed when its entries are numbered 1, 2, 3, ... without a
/// gap, no term is lower than the one before it, and one more entry can still
/// be numbered.
pub open spec fn well_formed(log: Seq<LogEntryView>) -> bool {
    &&& log.len() < u64::MAX
    &&& forall|i: int| 0 <= i < log.len() ==> (#[trigger] log[i]).index@ == i + 1
    &&& forall|i: int, j: int| 0 <= i <= j < log.len() ==> log[i].term@ <= log[j].term@
}

/// The entries of `log` numbered `from` or higher, in order.
pub open spec fn entries_at_or_after(log: Seq<LogEntryView>, from: LogIndex) -> Seq<LogEntryView> {
    log.filter(|e: LogEntryView| e.index@ >= from@)
}

/// The entries of `log` numbered below `from`, in order.
pub open spec fn entries_before(log: Seq<LogEntryView>, from: LogIndex) -> Seq<LogEntryView> {
    log.filter(|e: LogEntryView| e.index@ < from@)
}

/// `i` is the position of the first entry of `log` that is numbered `index`.
pub open spec fn is_first_numbered(log: Seq<LogEntryView>, index: LogIndex, i: int) -> bool {
    &&& 0 <= i < log.len()
    &&& log[i].index == index
    &&& forall|j: int| 0 <= j < i ==> (#[trigger] log[j]).index != index
}

/// The number of the last entry, zero for an empty log.
pub open spec fn last_index(log: Seq<LogEntryView>) -> LogIndex {
    if log.len() == 0 {
        LogIndex(0)
    } else {
        log.last().index
    }
}

/// The term of the last entry, zero for an empty log.
pub open spec fn last_term(log: Seq<LogEntryView>) -> Term {
    if log.len() == 0 {
        Term(0)
    } else {
        log.last().term
    }
}

/// Whether a well-formed log has an entry numbered `index`.
pub open spec fn has_entry(log: Seq<LogEntryView>, index: LogIndex) -> bool {
    1 <= index@ <= log.len()
}

/// The term of the entry numbered `index` in a well-formed log, zero where
/// the log has no such entry.
pub open spec fn term_at(log: Seq<LogEntryView>, index: LogIndex) -> Term {
    if has_entry(log, index) {
        log[index@ - 1].term
    } else {
        Term(0)
    }
}

/// In a well-formed log the entry numbered `index` stands at position `index - 1`,
/// and the last entry carries the length of the log as its number.
pub proof fn lemma_well_formed_positions(log: Seq<LogEntryView>, index: LogIndex)
    requires
        well_formed(log),
    ensures
        last_index(log)@ == log.len(),
        has_entry(log, index) ==> is_first_numbered(log, index, index@ - 1),
        !has_entry(log, index) ==> forall|i: int|
            0 <= i < log.len() ==> (#[trigger] log[i]).index != index,
{
}

/// In a well-formed log the entries numbered `from` or higher are the log
/// without its first `from - 1` entries.
pub proof fn lemma_well_formed_suffix(log: Seq<LogEntryView>, from: LogIndex)
    requires
        well_formed(log),
    ensures
        from@ == 0 ==> entries_at_or_after(log, from) == log,
        1 <= from@ <= log.len() ==> entries_at_or_after(log, from) == log.skip(from@ - 1),
        from@ > log.len() ==> entries_at_or_after(log, from) == Seq::<LogEntryView>::empty(),
    decreases log.len(),
{
    reveal(Seq::filter);
    if log.len() > 0 {
        let front = log.drop_last();
        lemma_well_formed_suffix(front, from);
    }
}

/// In a well-formed log the entries numbered below `from` are its first
/// `from - 1` entries.
pub proof fn lemma_well_formed_prefix(log: Seq<LogEntryView>, from: LogIndex)
    requires
        well_formed(log),
    ensures
        from@ == 0 ==> entries_before(log, from) == Seq::<LogEntryView>::empty(),
        1 <= from@ <= log.len() ==> entries_before(log, from) == log.take(from@ - 1),
        from@ > log.len() ==> entries_before(log, from) == log,
    decreases log.len(),
{
    reveal(Seq::filter);
    if log.len() > 0 {
        let front = log.drop_last();
        lemma_well_formed_prefix(front, from);
    }
}

/// The log-matching check of an append request: the log holds an entry
/// numbered `prev_index` that was created in `prev_term`. Zero stands for the
/// start of the log and always matches.
pub open spec fn log_matches(log: Seq<LogEntryView>, prev_index: LogIndex, prev_term: Term) -> bool {
    prev_index@ == 0 || (has_entry(log, prev_index) && term_at(log, prev_index) == prev_term)
}

/// Whether `entries` can stand in a well-formed log directly behind an entry
/// numbered `prev_index` of term `prev_term`: they are numbered onward from
/// `prev_index + 1`, their terms never fall, and the first is no older than
/// `prev_term`.
pub open spec fn entries_continue(
    prev_index: LogIndex,
    prev_term: Term,
    entries: Seq<LogEntryView>,
) -> bool {
    &&& prev_index@ + entries.len() < u64::MAX
    &&& forall|i: int| 0 <= i < entries.len() ==> (#[trigger] entries[i]).index@ == prev_index@ + 1 + i
    &&& entries.len() > 0 && prev_index@ > 0 ==> entries[0].term@ >= prev_term@
    &&& forall|i: int, j: int| 0 <= i <= j < entries.len() ==> entries[i].term@ <= entries[j].term@
}

/// Whether a well-formed log has, under the number of `entry`, an entry of the same term.
pub open spec fn holds_entry(log: Seq<LogEntryView>, entry: LogEntryView) -> bool {
    has_entry(log, entry.index) && term_at(log, entry.index) == entry.term
}

/// `j` is the position of the first of `entries` that `log` does not hold,
/// or their number if it holds them all.
pub open spec fn is_first_missing(log: Seq<LogEntryView>, entries: Seq<LogEntryView>, j: int) -> bool {
    &&& 0 <= j <= entries.len()
    &&& forall|i: int| 0 <= i < j ==> holds_entry(log, #[trigger] entries[i])
    &&& j < entries.len() ==> !holds_entry(log, entries[j])
}

/// The position of the first of `entries` that `log` does not hold, or their
/// number if it holds them all.
pub open spec fn first_missing(log: Seq<LogEntryView>, entries: Seq<LogEntryView>) -> int {
    choose|j: int| is_first_missing(log, entries, j)
}

/// The log after `entries` were replicated into it: unchanged where it holds
/// them all; otherwise cut before the number of the first entry that it does
/// not hold, with that entry and all after it appended.
pub open spec fn merged(log: Seq<LogEntryView>, entries: Seq<LogEntryView>) -> Seq<LogEntryView> {
    let j = first_missing(log, entries);
    if j >= entries.len() {
        log
    } else {
        log.take(entries[j].index@ - 1) + entries.skip(j)
    }
}

/// Only one position is the first missing one.
pub proof fn lemma_first_missing_unique(log: Seq<LogEntryView>, entries: Seq<LogEntryView>, j: int)
    requires
        is_first_missing(log, entries, j),
    ensures
        first_missing(log, entries) == j,
{
}

/// Replication keeps a log well formed. The merged log reaches at least to
/// the last of the entries, and ends with it where anything was cut or appended.
pub proof fn lemma_merged_well_formed(
    log: Seq<LogEntryView>,
    prev_index: LogIndex,
    prev_term: Term,
    entries: Seq<LogEntryView>,
)
    requires
        well_formed(log),
        log_matches(log, prev_index, prev_term),
        entries_continue(prev_index, prev_term, entries),
    ensures
        well_formed(merged(log, entries)),
        is_first_missing(log, entries, first_missing(log, entries)),
        merged(log, entries).len() >= prev_index@ + entries.len(),
        first_missing(log, entries) < entries.len() ==> merged(log, entries).len() == prev_index@
            + entries.len(),
        prev_index@ + first_missing(log, entries) <= log.len(),
{
    lemma_first_missing_exists(log, entries, 0);
    let j = first_missing(log, entries);
    let result = merged(log, entries);
    if j > 0 {
        assert(holds_entry(log, entries[j - 1]));
    }
    if j < entries.len() {
        let cut = entries[j].index@ - 1;
        assert(cut == prev_index@ + j);
        assert forall|a: int, b: int| 0 <= a <= b < result.len() implies result[a].term@
            <= result[b].term@ by {
            if b < cut {
            } else if a >= cut {
            } else {
                // `a` lies in the kept part and `b` among the appended entries.
                assert(entries[j].term@ <= entries[b - cut + j].term@);
                if j > 0 {
                    assert(holds_entry(log, entries[j - 1]));
                    assert(entries[j - 1].term@ <= entries[j].term@);
                    assert(log[a].term@ <= log[cut - 1].term@);
                } else {
                    assert(log[a].term@ <= log[cut - 1].term@);
                }
            }
        }
        assert forall|i: int| 0 <= i < result.len() implies (#[trigger] result[i]).index@ == i
            + 1 by {
            if i >= cut {
                assert(result[i] == entries[i - cut + j]);
            }
        }
    } else if entries.len() > 0 {
        assert(holds_entry(log, entries[entries.len() - 1]));
    }
}

/// Some position is the first missing one.
pub proof fn lemma_first_missing_exists(log: Seq<LogEntryView>, entries: Seq<LogEntryView>, k: int)
    requires
        0 <= k <= entries.len(),
        forall|i: int| 0 <= i < k ==> holds_entry(log, #[trigger] entries[i]),
    ensures
        is_first_missing(log, entries, first_missing(log, entries)),
    decreases entries.len() - k,
{
    if k < entries.len() && holds_entry(log, entries[k]) {
        lemma_first_missing_exists(log, entries, k + 1);
    } else {
        assert(is_first_missing(log, entries, k));
    }
}

/// The entries of one node's log, in the order in which they were appended.
#[derive(Debug, Default)]
pub struct LogStore {
    pub entries: Vec<LogEntry>,
}

impl View for LogStore {
    type V = Seq<LogEntryView>;

    open spec fn view(&self) -> Seq<LogEntryView> {
        entries_view(self.entries@)
    }
}

impl Clone for LogStore {
    fn clone(&self) -> (copy: Self)
        ensures
            copy@ == self@,
    {
        LogStore { entries: clone_entries(&self.entries) }
    }
}

impl LogStore {
    /// Whether the entries are numbered from one without a gap and their terms never fall.
    pub open spec fn wf(&self) -> bool {
        well_formed(self@)
    }

    /// Tests whether the log is well formed.
    pub fn is_well_formed(&self) -> (ok: bool)
        ensures
            ok == self.wf(),
    {
        let n = self.entries.len();
        if n as u64 == u64::MAX {
            return false;
        }
        let mut i: usize = 0;
        while i < n
            invariant
                i <= n,
                n == self.entries@.len(),
                n < u64::MAX,
                forall|k: int| 0 <= k < i ==> (#[trigger] self@[k]).index@ == k + 1,
                forall|a: int, b: int| 0 <= a <= b < i ==> self@[a].term@ <= self@[b].term@,
            decreases n - i,
        {
            assert(self.entries[i as int]@ == self@[i as int]);
            if self.entries[i].index.get() != i as u64 + 1 {
                return false;
            }
            if i > 0 {
                assert(self.entries[i - 1]@ == self@[i - 1]);
                if self.entries[i].term.get() < self.entries[i - 1].term.get() {
                    return false;
                }
            }
            i += 1;
        }
        true
    }

    pub fn new() -> (log: Self)
        ensures
            log@ == Seq::<LogEntryView>::empty(),
            log.wf(),
    {
        Self { entries: Vec::new() }
    }

    /// Adds `entry` at the end. The log stays well formed when the entry
    /// carries the next number and a term no lower than the last one.
    pub fn append(&mut self, entry: LogEntry)
        ensures
            final(self)@ == old(self)@.push(entry@),
            old(self).wf() && entry.index@ == old(self)@.len() + 1 && entry.index@ < u64::MAX
                && entry.term@ >= last_term(old(self)@)@ ==> final(self).wf(),
    {
        self.entries.push(entry);
        assert(self@ =~= old(self)@.push(entry@));
    }

    /// The first entry numbered `index`, if there is one.
    pub fn get(&self, index: LogIndex) -> (found: Option<&LogEntry>)
        ensures
            match found {
                Some(entry) => exists|i: int|
                    is_first_numbered(self@, index, i) && entry@ == self@[i],
                None => forall|i: int| 0 <= i < self@.len() ==> (#[trigger] self@[i]).index != index,
            },
    {
        let mut i: usize = 0;
        while i < self.entries.len()
            invariant
                i <= self.entries.len(),
                forall|j: int| 0 <= j < i ==> (#[trigger] self@[j]).index != index,
            decreases self.entries.len() - i,
        {
            if self.entries[i].index == index {
                assert(is_first_numbered(self@, index, i as int));
                return Some(&self.entries[i]);
            }
            i += 1;
        }
        None
    }

    /// The term of the entry numbered `index` in a well-formed log, if it has one.
    pub fn term_of(&self, index: LogIndex) -> (term: Option<Term>)
        requires
            self.wf(),
        ensures
            term == (if has_entry(self@, index) {
                Some(term_at(self@, index))
            } else {
                None
            }),
    {
        match self.get(index) {
            Some(entry) => Some(entry.term),
            None => None,
        }
    }

    pub fn last_log_index(&self) -> (index: LogIndex)
        ensures
            index == last_index(self@),
    {
        if self.entries.is_empty() {
            LogIndex::new(0)
        } else {
            self.entries[self.entries.len() - 1].index
        }
    }

    pub fn last_log_term(&self) -> (term: Term)
        ensures
            term == last_term(self@),
    {
        if self.entries.is_empty() {
            Term::new(0)
        } else {
            self.entries[self.entries.len() - 1].term
        }
    }

    /// Copies of the entries numbered `from_index` or higher, in order.
    pub fn entries_from(&self, from_index: LogIndex) -> (entries: Vec<LogEntry>)
        ensures
            entries_view(entries@) == entries_at_or_after(self@, from_index),
    {
        let mut entries: Vec<LogEntry> = Vec::new();
        let mut i: usize = 0;
        while i < self.entries.len()
            invariant
                i <= self.entries.len(),
                entries_view(entries@) == entries_at_or_after(self@.take(i as int), from_index),
            decreases self.entries.len() - i,
        {
            proof {
                assert(self@.take(i + 1) =~= self@.take(i as int).push(self@[i as int]));
                self@.take(i as int).lemma_filter_push(
                    self@[i as int],
                    |e: LogEntryView| e.index@ >= from_index@,
                );
            }
            if self.entries[i].index.get() >= from_index.get() {
                let entry = self.entries[i].clone();
                entries.push(entry);
            }
            i += 1;
        }
        assert(self@.take(i as int) =~= self@);
        entries
    }

    /// Removes every entry numbered `from_index` or higher.
    pub fn truncate(&mut self, from_index: LogIndex)
        ensures
            final(self)@ == entries_before(old(self)@, from_index),
    {
        let ghost before = self@;
        let ghost keep = |e: LogEntryView| e.index@ < from_index@;
        let mut i: usize = self.entries.len();
        proof {
            assert(before.take(i as int) =~= before);
        }
        while i > 0
            invariant
                i <= before.len(),
                keep == |e: LogEntryView| e.index@ < from_index@,
                self.entries@.len() >= i,
                self@ == before.take(i as int) + before.skip(i as int).filter(keep),
            decreases i,
        {
            i -= 1;
            let ghost rest = before.skip(i + 1);
            proof {
                assert(self@[i as int] == before[i as int]);
                assert(before.skip(i as int) =~= seq![before[i as int]] + rest);
                rest.lemma_filter_prepend(before[i as int], keep);
            }
            if self.entries[i].index.get() >= from_index.get() {
                let ghost full = self@;
                self.entries.remove(i);
                assert(self@ =~= full.remove(i as int));
            }
        }
    }

    pub fn len(&self) -> (n: usize)
        ensures
            n == self@.len(),
    {
        self.entries.len()
    }

    pub fn is_empty(&self) -> (empty: bool)
        ensures
            empty <==> self@.len() == 0,
    {
        self.entries.is_empty()
    }
}

} // verus!
