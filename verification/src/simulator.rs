//! A cluster in one process: the simulator owns one runner for each node and
//! carries the messages of each to the others. It decides nothing of the
//! protocol; votes are given by the nodes and counted by the runners.

use crate::event::{RaftEvent, RaftEventView};
use crate::node::{NodeView, RaftNode};
use crate::raft::{actions_view, RaftAction, RaftActionView, RaftRunner, RunnerView};
use crate::timer::{
    random_election_timeout, ELECTION_TIMEOUT_MAX, ELECTION_TIMEOUT_MIN, HEARTBEAT_INTERVAL,
};
use crate::types::{NodeId, RaftState};
use vstd::prelude::*;

verus! {

/// Whether one of the runners drives the node `id`.
pub open spec fn has_runner(cluster: Seq<RunnerView>, id: NodeId) -> bool {
    exists|i: int| 0 <= i < cluster.len() && (#[trigger] cluster[i]).node.id == id
}

/// `i` is the position of the first runner that drives the node `id`.
pub open spec fn is_runner_of(cluster: Seq<RunnerView>, id: NodeId, i: int) -> bool {
    &&& 0 <= i < cluster.len()
    &&& cluster[i].node.id == id
    &&& forall|j: int| 0 <= j < i ==> (#[trigger] cluster[j]).node.id != id
}

/// The position of the first runner that drives the node `id`.
pub open spec fn runner_of(cluster: Seq<RunnerView>, id: NodeId) -> int {
    choose|i: int| is_runner_of(cluster, id, i)
}

/// The ids of a cluster without `id`, in order: the peers of the node `id`.
pub open spec fn others(ids: Seq<NodeId>, id: NodeId) -> Seq<NodeId> {
    ids.filter(is_other(id))
}

/// Whether a node is another one than the node `id`.
pub open spec fn is_other(id: NodeId) -> spec_fn(NodeId) -> bool {
    |peer: NodeId| peer != id
}

/// The runners of a new cluster for the first `n` of `ids`: one for each id,
/// in the order in which the ids first occur, each around a new node whose
/// peers are the other ids and whose election timer runs for the timeout
/// that stands at the id's place.
pub open spec fn initial_cluster(ids: Seq<NodeId>, now: u64, timeouts: Seq<u64>, n: nat) -> Seq<
    RunnerView,
>
    decreases n,
{
    if n == 0 {
        Seq::empty()
    } else {
        let front = initial_cluster(ids, now, timeouts, (n - 1) as nat);
        let id = ids[n - 1];
        if has_runner(front, id) {
            front
        } else {
            front.push(
                RunnerView::initial(NodeView::initial(id, others(ids, id), now, timeouts[n - 1])),
            )
        }
    }
}

/// A message on its way: the id of the node that sends it, and the message.
pub type Sent = (NodeId, RaftActionView);

/// The runners after each has made its tick at `now`, the runner at place
/// `i` with the election timeout `timeouts[i]`.
pub open spec fn ticked(cluster: Seq<RunnerView>, now: u64, timeouts: Seq<u64>) -> Seq<RunnerView> {
    Seq::new(cluster.len(), |i: int| cluster[i].tick(now, timeouts[i]).0)
}

/// The messages that the first `n` runners hand back from their ticks at
/// `now`, in the order of the runners, each with the id of its sender.
pub open spec fn sent_by(cluster: Seq<RunnerView>, now: u64, timeouts: Seq<u64>, n: nat) -> Seq<
    Sent,
>
    decreases n,
{
    if n == 0 {
        Seq::empty()
    } else {
        let runner = cluster[n - 1];
        sent_by(cluster, now, timeouts, (n - 1) as nat) + runner.tick(
            now,
            timeouts[n - 1],
        ).1.map_values(|action: RaftActionView| (runner.node.id, action))
    }
}

/// The cluster after the runner at place `i` was told of `event`.
pub open spec fn with_event(cluster: Seq<RunnerView>, i: int, event: RaftEventView) -> Seq<
    RunnerView,
> {
    cluster.update(i, RunnerView { queue: cluster[i].queue.push(event), ..cluster[i] })
}

/// The cluster after one message was carried to the node that it names. The
/// node handles the request at once, and its answer is queued as an event
/// for the sender. An append request restarts the election timer of the
/// runner at place `t` as the runner itself would, for `timeouts[t]`. A
/// message to a node that is not in the cluster is lost.
pub open spec fn deliver(cluster: Seq<RunnerView>, sent: Sent, now: u64, timeouts: Seq<u64>) -> Seq<
    RunnerView,
> {
    let (from, action) = sent;
    match action {
        RaftActionView::SendRequestVote(to, request) => {
            if has_runner(cluster, to) {
                let t = runner_of(cluster, to);
                let (node, response) = cluster[t].node.handle_request_vote(request);
                let voted = cluster.update(t, RunnerView { node, ..cluster[t] });
                if has_runner(voted, from) {
                    with_event(
                        voted,
                        runner_of(voted, from),
                        RaftEventView::ReceivedRequestVoteResponse(response),
                    )
                } else {
                    voted
                }
            } else {
                cluster
            }
        },
        RaftActionView::SendAppendEntries(to, request) => {
            if has_runner(cluster, to) {
                let t = runner_of(cluster, to);
                let response = cluster[t].node.handle_append_entries(request).1;
                let heard = cluster.update(
                    t,
                    cluster[t].receive_append_entries(request, now, timeouts[t]),
                );
                if has_runner(heard, from) {
                    with_event(
                        heard,
                        runner_of(heard, from),
                        RaftEventView::ReceivedAppendEntriesResponse(to, response),
                    )
                } else {
                    heard
                }
            } else {
                cluster
            }
        },
    }
}

/// The cluster after the messages were carried one after the other.
pub open spec fn deliver_all(
    cluster: Seq<RunnerView>,
    sent: Seq<Sent>,
    now: u64,
    timeouts: Seq<u64>,
) -> Seq<RunnerView>
    decreases sent.len(),
{
    if sent.len() == 0 {
        cluster
    } else {
        deliver_all(deliver(cluster, sent[0], now, timeouts), sent.drop_first(), now, timeouts)
    }
}

/// One tick of the cluster at `now`: every runner makes its tick, then the
/// messages of all are carried, in the order in which they were handed back.
pub open spec fn cluster_tick(cluster: Seq<RunnerView>, now: u64, timeouts: Seq<u64>) -> Seq<
    RunnerView,
> {
    deliver_all(
        ticked(cluster, now, timeouts),
        sent_by(cluster, now, timeouts, cluster.len()),
        now,
        timeouts,
    )
}

/// Whether every runner of the cluster is well formed and can make a tick at
/// `now` with the election timeout at its place.
pub open spec fn can_tick(cluster: Seq<RunnerView>, now: u64, timeouts: Seq<u64>) -> bool {
    &&& timeouts.len() == cluster.len()
    &&& forall|i: int|
        0 <= i < cluster.len() ==> (#[trigger] cluster[i]).wf() && cluster[i].can_tick(
            now,
            timeouts[i],
        )
}

/// Whether every runner of the cluster is well formed and can set its timers at `now`.
pub open spec fn can_deliver(cluster: Seq<RunnerView>, now: u64, timeouts: Seq<u64>) -> bool {
    &&& timeouts.len() == cluster.len()
    &&& forall|i: int|
        0 <= i < cluster.len() ==> (#[trigger] cluster[i]).wf() && cluster[i].can_handle(
            now,
            timeouts[i],
        )
}

/// The values of the runners, in order.
pub open spec fn runners_view(runners: Seq<RaftRunner>) -> Seq<RunnerView> {
    runners.map_values(|r: RaftRunner| r@)
}

/// The values of messages on their way, in order.
pub open spec fn sent_view(outbox: Seq<(NodeId, RaftAction)>) -> Seq<Sent> {
    outbox.map_values(|s: (NodeId, RaftAction)| (s.0, s.1@))
}

/// One election timeout for each of `n` runners, all of them `timeout`.
pub open spec fn uniform(n: nat, timeout: u64) -> Seq<u64> {
    Seq::new(n, |i: int| timeout)
}

/// Whether each of the timeouts is one that an election timer can be given.
pub open spec fn are_election_timeouts(timeouts: Seq<u64>) -> bool {
    forall|i: int|
        0 <= i < timeouts.len() ==> ELECTION_TIMEOUT_MIN <= (#[trigger] timeouts[i])
            <= ELECTION_TIMEOUT_MAX
}

/// A cluster of nodes in one process.
pub struct Simulator {
    runners: Vec<RaftRunner>,
}

impl View for Simulator {
    type V = Seq<RunnerView>;

    closed spec fn view(&self) -> Seq<RunnerView> {
        runners_view(self.runners@)
    }
}

impl Simulator {
    /// The place of the first runner that drives the node `id`.
    fn position(&self, id: NodeId) -> (place: Option<usize>)
        ensures
            match place {
                Some(i) => is_runner_of(self@, id, i as int) && runner_of(self@, id) == i
                    && has_runner(self@, id),
                None => !has_runner(self@, id),
            },
    {
        let mut i: usize = 0;
        while i < self.runners.len()
            invariant
                i <= self.runners.len(),
                forall|j: int| 0 <= j < i ==> (#[trigger] self@[j]).node.id != id,
            decreases self.runners.len() - i,
        {
            if self.runners[i].node().id == id {
                return Some(i);
            }
            i += 1;
        }
        None
    }

    /// Tests whether every runner is well formed and can make a tick at
    /// `now` with the election timeout at its place.
    pub fn can_tick(&self, now: u64, timeouts: &Vec<u64>) -> (ok: bool)
        ensures
            ok == can_tick(self@, now, timeouts@),
    {
        if timeouts.len() != self.runners.len() {
            return false;
        }
        let mut i: usize = 0;
        while i < self.runners.len()
            invariant
                i <= self.runners.len(),
                timeouts@.len() == self@.len(),
                forall|k: int|
                    0 <= k < i ==> (#[trigger] self@[k]).wf() && self@[k].can_tick(
                        now,
                        timeouts@[k],
                    ),
            decreases self.runners.len() - i,
        {
            assert(self@[i as int] == self.runners[i as int]@);
            if !self.runners[i].is_well_formed() || !self.runners[i].can_tick(now, timeouts[i]) {
                return false;
            }
            i += 1;
        }
        true
    }

    /// The node `id`, if it is in the cluster.
    pub fn node(&self, id: NodeId) -> (node: Option<&RaftNode>)
        ensures
            match node {
                Some(node) => has_runner(self@, id) && node@ == self@[runner_of(self@, id)].node,
                None => !has_runner(self@, id),
            },
    {
        match self.position(id) {
            Some(i) => Some(self.runners[i].node()),
            None => None,
        }
    }

    /// The id of the first node, in the order of the cluster, that is leader.
    pub fn find_leader(&self) -> (leader: Option<NodeId>)
        ensures
            match leader {
                Some(id) => exists|i: int|
                    {
                        &&& 0 <= i < self@.len()
                        &&& (#[trigger] self@[i]).node.id == id
                        &&& self@[i].node.state == RaftState::Leader
                        &&& forall|j: int|
                            0 <= j < i ==> (#[trigger] self@[j]).node.state != RaftState::Leader
                    },
                None => forall|i: int|
                    0 <= i < self@.len() ==> (#[trigger] self@[i]).node.state != RaftState::Leader,
            },
    {
        let mut i: usize = 0;
        while i < self.runners.len()
            invariant
                i <= self.runners.len(),
                forall|j: int| 0 <= j < i ==> (#[trigger] self@[j]).node.state != RaftState::Leader,
            decreases self.runners.len() - i,
        {
            if self.runners[i].node().is_leader() {
                assert(self@[i as int].node.id == self.runners[i as int]@.node.id);
                return Some(self.runners[i].node().id);
            }
            i += 1;
        }
        None
    }

    /// The ids of `ids` other than `id`, in order.
    fn peers_of(ids: &Vec<NodeId>, id: NodeId) -> (peers: Vec<NodeId>)
        ensures
            peers@ == others(ids@, id),
            peers@.len() <= ids@.len(),
            ids@.contains(id) ==> peers@.len() < ids@.len(),
    {
        let mut peers: Vec<NodeId> = Vec::new();
        let mut i: usize = 0;
        proof {
            reveal(Seq::filter);
            assert(ids@.take(0) =~= Seq::<NodeId>::empty());
        }
        while i < ids.len()
            invariant
                i <= ids.len(),
                peers@ == others(ids@.take(i as int), id),
                peers@.len() <= i,
                ids@.take(i as int).contains(id) ==> peers@.len() < i,
            decreases ids.len() - i,
        {
            proof {
                let front = ids@.take(i as int);
                let more = ids@.take(i + 1);
                assert(more =~= front.push(ids@[i as int]));
                front.lemma_filter_push(ids@[i as int], is_other(id));
                if more.contains(id) && ids@[i as int] != id {
                    let at = choose|at: int| 0 <= at < more.len() && more[at] == id;
                    assert(front[at] == id);
                }
            }
            if ids[i] != id {
                peers.push(ids[i]);
            }
            i += 1;
        }
        assert(ids@.take(i as int) =~= ids@);
        peers
    }

    /// A cluster with one node for each of `node_ids`, an id that occurs
    /// again being passed over. Each node has the other ids as its peers,
    /// and its election timer runs from `now` for the timeout that stands at
    /// the place of its id.
    pub fn with_election_timeouts(node_ids: Vec<NodeId>, now: u64, timeouts: &Vec<u64>) -> (sim:
        Self)
        requires
            timeouts@.len() == node_ids@.len(),
            now + HEARTBEAT_INTERVAL <= u64::MAX,
            forall|i: int| 0 <= i < timeouts@.len() ==> now + (#[trigger] timeouts@[i]) <= u64::MAX,
        ensures
            sim@ == initial_cluster(node_ids@, now, timeouts@, node_ids@.len()),
            forall|i: int| 0 <= i < sim@.len() ==> (#[trigger] sim@[i]).wf(),
    {
        let mut sim = Self { runners: Vec::new() };
        let mut i: usize = 0;
        while i < node_ids.len()
            invariant
                i <= node_ids.len(),
                timeouts@.len() == node_ids@.len(),
                now + HEARTBEAT_INTERVAL <= u64::MAX,
                forall|k: int|
                    0 <= k < timeouts@.len() ==> now + (#[trigger] timeouts@[k]) <= u64::MAX,
                sim@ == initial_cluster(node_ids@, now, timeouts@, i as nat),
                forall|k: int| 0 <= k < sim@.len() ==> (#[trigger] sim@[k]).wf(),
            decreases node_ids.len() - i,
        {
            let id = node_ids[i];
            if sim.position(id).is_none() {
                let peers = Self::peers_of(&node_ids, id);
                assert(node_ids@.contains(id));
                let node = RaftNode::with_election_timeout(id, peers, now, timeouts[i]);
                let runner = RaftRunner::new(node);
                sim.runners.push(runner);
            }
            i += 1;
        }
        sim
    }

    /// A cluster with one node for each of `node_ids`, as
    /// [`Self::with_election_timeouts`] makes it with a fresh random election
    /// timeout for each id.
    pub fn new(node_ids: Vec<NodeId>, now: u64) -> (sim: Self)
        requires
            now + ELECTION_TIMEOUT_MAX <= u64::MAX,
        ensures
            exists|timeouts: Seq<u64>|
                {
                    &&& timeouts.len() == node_ids@.len()
                    &&& are_election_timeouts(timeouts)
                    &&& sim@ == #[trigger] initial_cluster(
                        node_ids@,
                        now,
                        timeouts,
                        node_ids@.len(),
                    )
                },
            forall|i: int| 0 <= i < sim@.len() ==> (#[trigger] sim@[i]).wf(),
    {
        let timeouts = Self::draw_timeouts(node_ids.len());
        Self::with_election_timeouts(node_ids, now, &timeouts)
    }

    /// `n` fresh random election timeouts.
    fn draw_timeouts(n: usize) -> (timeouts: Vec<u64>)
        ensures
            timeouts@.len() == n,
            are_election_timeouts(timeouts@),
    {
        let mut timeouts: Vec<u64> = Vec::new();
        while timeouts.len() < n
            invariant
                timeouts@.len() <= n,
                are_election_timeouts(timeouts@),
            decreases n - timeouts.len(),
        {
            timeouts.push(random_election_timeout());
        }
        timeouts
    }

    /// Carries one message of the node `from` to the node that it names.
    fn handle_action(&mut self, from: NodeId, action: RaftAction, now: u64, timeouts: &Vec<u64>)
        requires
            can_deliver(old(self)@, now, timeouts@),
        ensures
            final(self)@ == deliver(old(self)@, (from, action@), now, timeouts@),
            can_deliver(final(self)@, now, timeouts@),
    {
        match action {
            RaftAction::SendRequestVote(to, request) => {
                match self.position(to) {
                    Some(t) => {
                        let response = self.runners[t].receive_request_vote(request);
                        let ghost voted = self@;
                        assert(voted =~= old(self)@.update(
                            t as int,
                            RunnerView {
                                node: old(self)@[t as int].node.handle_request_vote(request).0,
                                ..old(self)@[t as int]
                            },
                        ));
                        match self.position(from) {
                            Some(o) => {
                                let event = RaftEvent::ReceivedRequestVoteResponse(response);
                                self.runners[o].push_event(event);
                            },
                            None => {},
                        }
                    },
                    None => {},
                }
            },
            RaftAction::SendAppendEntries(to, request) => {
                match self.position(to) {
                    Some(t) => {
                        let ghost wanted = request@;
                        let response = self.runners[t].receive_append_entries(
                            request,
                            now,
                            timeouts[t],
                        );
                        let ghost heard = self@;
                        assert(heard =~= old(self)@.update(
                            t as int,
                            old(self)@[t as int].receive_append_entries(
                                wanted,
                                now,
                                timeouts@[t as int],
                            ),
                        ));
                        match self.position(from) {
                            Some(o) => {
                                let event = RaftEvent::ReceivedAppendEntriesResponse(to, response);
                                self.runners[o].push_event(event);
                                assert(self@ =~= with_event(heard, o as int, event@));
                            },
                            None => {},
                        }
                    },
                    None => {},
                }
            },
        }
    }

    /// One tick of the cluster with the clock at `now`. Every runner makes
    /// its tick, the runner at place `i` with the election timeout
    /// `timeouts[i]`. Then each message that the runners handed back is
    /// carried to the node that it names: the node handles the request at
    /// once, and its answer waits in the sender's queue for the next tick.
    /// An election timer that a message restarts runs for the timeout of its
    /// runner as well.
    pub fn tick_with(&mut self, now: u64, timeouts: &Vec<u64>)
        requires
            can_tick(old(self)@, now, timeouts@),
        ensures
            final(self)@ == cluster_tick(old(self)@, now, timeouts@),
            can_deliver(final(self)@, now, timeouts@),
    {
        let ghost before = self@;
        let mut outbox: Vec<(NodeId, RaftAction)> = Vec::new();
        let mut i: usize = 0;
        while i < self.runners.len()
            invariant
                i <= self.runners.len(),
                self@.len() == before.len(),
                can_tick(before, now, timeouts@),
                forall|k: int|
                    0 <= k < i ==> (#[trigger] self@[k]) == before[k].tick(now, timeouts@[k]).0
                        && self@[k].wf() && self@[k].can_handle(now, timeouts@[k]),
                forall|k: int| i <= k < before.len() ==> (#[trigger] self@[k]) == before[k],
                sent_view(outbox@) == sent_by(before, now, timeouts@, i as nat),
            decreases self.runners.len() - i,
        {
            assert(self@[i as int] == before[i as int]);
            let id = self.runners[i].node().id;
            let ghost ticking = self@;
            let actions = self.runners[i].tick_with(now, timeouts[i]);
            assert(self@ =~= ticking.update(
                i as int,
                before[i as int].tick(now, timeouts@[i as int]).0,
            ));
            let ghost tagged = actions_view(actions@).map_values(
                |action: RaftActionView| (id, action),
            );
            let ghost carried = sent_view(outbox@);
            let mut k: usize = 0;
            while k < actions.len()
                invariant
                    k <= actions.len(),
                    tagged == actions_view(actions@).map_values(
                        |action: RaftActionView| (id, action),
                    ),
                    sent_view(outbox@) == carried + tagged.take(k as int),
                decreases actions.len() - k,
            {
                let ghost so_far = sent_view(outbox@);
                outbox.push((id, actions[k].clone()));
                assert(sent_view(outbox@) =~= so_far.push(tagged[k as int]));
                k += 1;
            }
            i += 1;
        }
        assert(self@ =~= ticked(before, now, timeouts@));
        let ghost goal = cluster_tick(before, now, timeouts@);
        let mut k: usize = 0;
        assert(sent_view(outbox@).skip(0) =~= sent_view(outbox@));
        while k < outbox.len()
            invariant
                k <= outbox.len(),
                can_deliver(self@, now, timeouts@),
                deliver_all(self@, sent_view(outbox@).skip(k as int), now, timeouts@) == goal,
            decreases outbox.len() - k,
        {
            let from = outbox[k].0;
            let action = outbox[k].1.clone();
            proof {
                let rest = sent_view(outbox@).skip(k as int);
                assert(rest.drop_first() =~= sent_view(outbox@).skip(k + 1));
            }
            self.handle_action(from, action, now, timeouts);
            k += 1;
        }
    }

    /// One tick of the cluster with the clock at `now`, as
    /// [`Self::tick_with`] does it with a fresh random election timeout for
    /// each runner.
    pub fn tick(&mut self, now: u64)
        requires
            can_tick(old(self)@, now, uniform(old(self)@.len(), ELECTION_TIMEOUT_MAX)),
        ensures
            exists|timeouts: Seq<u64>|
                {
                    &&& timeouts.len() == old(self)@.len()
                    &&& are_election_timeouts(timeouts)
                    &&& final(self)@ == #[trigger] cluster_tick(old(self)@, now, timeouts)
                },
            forall|i: int| 0 <= i < final(self)@.len() ==> (#[trigger] final(self)@[i]).wf(),
    {
        let timeouts = Self::draw_timeouts(self.runners.len());
        self.tick_with(now, &timeouts);
    }
}

} // verus!
