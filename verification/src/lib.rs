//! A single node of the Raft consensus protocol: leader election, term
//! management and log replication, driven by ticks and inbound messages.
//!
//! The [`node`] holds the state of one cluster member and the handlers of the
//! two remote procedure calls. The runner in [`raft`] drives one node: it
//! checks the node's timers, hands queued events to the handlers, counts
//! votes, and returns the messages to send. It never sends anything itself,
//! and it reads no clock: every tick is told the time. The [`simulator`]
//! carries the messages of several runners to one another in one process.
//!
//! The modules [`laws`] and [`election`] hold what is proved of the protocol:
//! terms and commit indexes never fall, a node votes once in a term,
//! replication keeps logs matching, and no term has two leaders.

pub mod election;
pub mod event;
pub mod laws;
pub mod log;
pub mod node;
pub mod raft;
pub mod rpc;
pub mod simulator;
pub mod timer;
pub mod types;
