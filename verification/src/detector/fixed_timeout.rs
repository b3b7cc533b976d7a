use vstd::prelude::*;

use crate::clock::Tick;
use crate::detector::{deterministic_detectors, FailureDetector, GossipOffer};
use crate::node::NodeId;
use crate::node_map::NodeMap;

verus! {

/// Whether a node whose last heartbeat is recorded in `last` (if at all) has
/// been silent for more than `timeout` ticks at tick `now`. A node never
/// heard from counts as silent.
pub open spec fn overdue(last: Map<NodeId, Tick>, node: NodeId, now: Tick, timeout: Tick) -> bool {
    !last.contains_key(node) || now - last[node] > timeout
}

/// Failure detector that suspects a node if no heartbeat arrives within a fixed
/// timeout window.
#[derive(Debug)]
pub struct FixedTimeoutDetector {
    /// Maximum ticks allowed between heartbeats before suspecting a node.
    timeout: Tick,
    /// Last heartbeat tick received from each node.
    last_heartbeat: NodeMap<Tick>,
    /// Nodes being monitored.
    monitored: Vec<NodeId>,
    /// Current simulation tick, updated via on_tick.
    current_tick: Tick,
}

impl FixedTimeoutDetector {
    /// The timeout.
    pub closed spec fn timeout(&self) -> Tick {
        self.timeout
    }

    /// Last heartbeat tick of each node heard from.
    pub closed spec fn last_seen(&self) -> Map<NodeId, Tick> {
        self.last_heartbeat.view()
    }

    /// The monitored nodes, in the order given at construction.
    pub closed spec fn monitored(&self) -> Seq<NodeId> {
        self.monitored@
    }

    /// The tick of the latest `on_tick`.
    pub closed spec fn now(&self) -> Tick {
        self.current_tick
    }

    /// The nodes this detector suspects: none before its first tick, then the
    /// monitored nodes (in order) that are overdue.
    pub open spec fn suspects(&self) -> Seq<NodeId> {
        if self.now() == 0 {
            Seq::empty()
        } else {
            self.monitored().filter(|n: NodeId| overdue(self.last_seen(), n, self.now(), self.timeout()))
        }
    }

    /// A detector with the given timeout, monitoring `monitored`, that has
    /// heard nothing yet and stands at tick 0.
    pub fn new(timeout: Tick, monitored: Vec<NodeId>) -> (d: Self)
        ensures
            d.timeout() == timeout,
            d.monitored() == monitored@,
            d.last_seen() == Map::<NodeId, Tick>::empty(),
            d.now() == 0,
    {
        Self { timeout, last_heartbeat: NodeMap::new(), monitored, current_tick: 0 }
    }

    /// Records a heartbeat from `from` at `tick`.
    pub fn on_heartbeat(&mut self, from: NodeId, tick: Tick)
        ensures
            final(self).last_seen() == old(self).last_seen().insert(from, tick),
            final(self).timeout() == old(self).timeout(),
            final(self).monitored() == old(self).monitored(),
            final(self).now() == old(self).now(),
    {
        self.last_heartbeat.insert(from, tick);
    }

    /// Moves the detector's notion of the current tick.
    pub fn on_tick(&mut self, tick: Tick)
        ensures
            final(self).now() == tick,
            final(self).last_seen() == old(self).last_seen(),
            final(self).timeout() == old(self).timeout(),
            final(self).monitored() == old(self).monitored(),
    {
        self.current_tick = tick;
    }

    /// The monitored nodes (in order) with no heartbeat within the timeout;
    /// empty before the first tick.
    pub fn suspected_nodes(&self) -> (r: Vec<NodeId>)
        ensures
            r@ == self.suspects(),
    {
        let mut out: Vec<NodeId> = Vec::new();
        if self.current_tick == 0 {
            return out;
        }
        let ghost pred = |n: NodeId| overdue(self.last_seen(), n, self.now(), self.timeout());
        let mut i: usize = 0;
        while i < self.monitored.len()
            invariant
                0 <= i <= self.monitored@.len(),
                self.current_tick != 0,
                pred == (|n: NodeId| overdue(self.last_seen(), n, self.now(), self.timeout())),
                out@ == self.monitored@.take(i as int).filter(pred),
            decreases self.monitored@.len() - i,
        {
            let node = self.monitored[i];
            let late = match self.last_heartbeat.get(node) {
                Some(last) => *last <= self.current_tick && self.current_tick - *last > self.timeout,
                None => true,
            };
            proof {
                self.monitored@.lemma_take_succ_push(i as int);
                self.monitored@.take(i as int).lemma_filter_push(node, pred);
            }
            if late {
                out.push(node);
            }
            i = i + 1;
        }
        proof {
            self.monitored@.lemma_take_len();
        }
        out
    }
}

impl FailureDetector for FixedTimeoutDetector {
    type Level = ();

    /// Two detectors agree when their timeout, heartbeats, monitored nodes and tick do.
    open spec fn agrees_with(&self, other: &Self) -> bool {
        &&& self.timeout() == other.timeout()
        &&& self.last_seen() == other.last_seen()
        &&& self.monitored() == other.monitored()
        &&& self.now() == other.now()
    }

    /// The heartbeat's tick becomes `from`'s last one; nothing else changes.
    open spec fn heard(&self, post: &Self, from: NodeId, tick: Tick) -> bool {
        &&& post.last_seen() == self.last_seen().insert(from, tick)
        &&& post.timeout() == self.timeout()
        &&& post.monitored() == self.monitored()
        &&& post.now() == self.now()
    }

    /// The check moves the detector's tick; nothing else changes.
    open spec fn ticked(&self, post: &Self, tick: Tick) -> bool {
        &&& post.now() == tick
        &&& post.last_seen() == self.last_seen()
        &&& post.timeout() == self.timeout()
        &&& post.monitored() == self.monitored()
    }

    /// The answer is exactly the overdue monitored nodes, in order.
    open spec fn reports(&self, list: Seq<NodeId>) -> bool {
        list == self.suspects()
    }

    /// It does not gossip.
    open spec fn offers(&self, offer: Option<GossipOffer>) -> bool {
        offer is None
    }

    /// Gossip evidence changes nothing.
    open spec fn noted(&self, post: &Self, suspected: NodeId, source: NodeId) -> bool {
        *post == *self
    }

    fn on_heartbeat(&mut self, from: NodeId, tick: Tick) {
        FixedTimeoutDetector::on_heartbeat(self, from, tick)
    }

    fn on_tick(&mut self, tick: Tick)
        ensures
            final(self).now() == tick,
            final(self).last_seen() == old(self).last_seen(),
            final(self).timeout() == old(self).timeout(),
            final(self).monitored() == old(self).monitored(),
    {
        FixedTimeoutDetector::on_tick(self, tick)
    }

    fn suspected_nodes(&self) -> (r: Vec<NodeId>)
        ensures
            r@ == self.suspects(),
    {
        FixedTimeoutDetector::suspected_nodes(self)
    }

    fn gossip_offer(&self) -> (r: Option<GossipOffer>) {
        None
    }

    fn on_remote_suspicion(&mut self, suspected: NodeId, source: NodeId) {
    }
}

/// The fixed-timeout detector is a function of its state: from agreeing
/// states, every step leads to agreeing states, and what it reports and
/// offers is the same.
pub proof fn law_fixed_timeout_is_deterministic()
    ensures
        deterministic_detectors::<FixedTimeoutDetector>(),
{
}

} // verus!
