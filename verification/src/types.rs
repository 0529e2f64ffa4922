//! Identifiers and counters: terms, log indices, node ids and the role of a node.

use std::cmp::Ordering;
use vstd::prelude::*;
use vstd::std_specs::cmp::PartialOrdSpecImpl;

verus! {

/// A logical clock that partitions time into election epochs. Zero is the
/// initial term, in which no election has taken place.
#[derive(Debug, Clone, Copy, PartialEq, Eq, Structural, Ord)]
pub struct Term(pub u64);

impl View for Term {
    type V = nat;

    open spec fn view(&self) -> nat {
        self.0 as nat
    }
}

impl PartialOrd for Term {
    fn partial_cmp(&self, other: &Self) -> (order: Option<Ordering>) {
        if self.0 < other.0 {
            Some(Ordering::Less)
        } else if self.0 == other.0 {
            Some(Ordering::Equal)
        } else {
            Some(Ordering::Greater)
        }
    }
}

impl PartialOrdSpecImpl for Term {
    open spec fn obeys_partial_cmp_spec() -> bool {
        true
    }

    /// Values are ordered as their numbers are.
    open spec fn partial_cmp_spec(&self, other: &Self) -> Option<Ordering> {
        if self.0 < other.0 {
            Some(Ordering::Less)
        } else if self.0 == other.0 {
            Some(Ordering::Equal)
        } else {
            Some(Ordering::Greater)
        }
    }
}

impl Term {
    pub fn new(value: u64) -> (t: Self)
        ensures
            t@ == value,
    {
        Term(value)
    }

    pub fn get(&self) -> (value: u64)
        ensures
            value == self@,
    {
        self.0
    }
}

/// The stable identifier of a cluster member.
#[derive(Debug, Clone, Copy, PartialEq, Eq, Structural, Hash)]
pub struct NodeId(pub u64);

impl View for NodeId {
    type V = nat;

    open spec fn view(&self) -> nat {
        self.0 as nat
    }
}

impl NodeId {
    pub fn new(value: u64) -> (id: Self)
        ensures
            id@ == value,
    {
        NodeId(value)
    }

    pub fn get(&self) -> (value: u64)
        ensures
            value == self@,
    {
        self.0
    }
}

/// A position in the log. Zero means "no entry"; real entries are numbered from one.
#[derive(Debug, Clone, Copy, PartialEq, Eq, Structural, Ord)]
pub struct LogIndex(pub u64);

impl View for LogIndex {
    type V = nat;

    open spec fn view(&self) -> nat {
        self.0 as nat
    }
}

impl PartialOrd for LogIndex {
    fn partial_cmp(&self, other: &Self) -> (order: Option<Ordering>) {
        if self.0 < other.0 {
            Some(Ordering::Less)
        } else if self.0 == other.0 {
            Some(Ordering::Equal)
        } else {
            Some(Ordering::Greater)
        }
    }
}

impl PartialOrdSpecImpl for LogIndex {
    open spec fn obeys_partial_cmp_spec() -> bool {
        true
    }

    /// Values are ordered as their numbers are.
    open spec fn partial_cmp_spec(&self, other: &Self) -> Option<Ordering> {
        if self.0 < other.0 {
            Some(Ordering::Less)
        } else if self.0 == other.0 {
            Some(Ordering::Equal)
        } else {
            Some(Ordering::Greater)
        }
    }
}

impl LogIndex {
    pub fn new(value: u64) -> (i: Self)
        ensures
            i@ == value,
    {
        LogIndex(value)
    }

    pub fn get(&self) -> (value: u64)
        ensures
            value == self@,
    {
        self.0
    }
}

/// The role a node plays in its current term.
#[derive(Debug, Clone, Copy, PartialEq, Eq, Structural)]
pub enum RaftState {
    Follower,
    Candidate,
    Leader,
}

} // verus!
