use vstd::prelude::*;

use crate::clock::Tick;
use crate::node::NodeId;

verus! {

/// The kind of event that can occur in the simulation.
#[derive(Debug, Clone, PartialEq, Eq)]
pub enum EventKind {
    /// A heartbeat message arrives at a node.
    HeartbeatArrival { from: NodeId, to: NodeId },
    /// A node should send its periodic heartbeat(s).
    HeartbeatSend { from: NodeId },
    /// A node crashes (injected fault).
    NodeCrash { node: NodeId },
    /// A crashed node recovers.
    NodeRecover { node: NodeId },
    /// A failure detector should run its per-tick logic.
    DetectorTick { node: NodeId },
    /// A node should initiate a gossip round: pick random peers, send its suspicion list.
    GossipRound { from: NodeId },
    /// A gossip message arrives carrying a list of suspected nodes.
    GossipArrival { from: NodeId, to: NodeId, suspected: Vec<NodeId> },
    /// A network partition begins. Nodes in different groups cannot communicate.
    PartitionStart { groups: Vec<Vec<NodeId>> },
    /// All active partitions are lifted.
    PartitionEnd,
}

/// A scheduled simulation event.
#[derive(Debug, Clone, PartialEq, Eq)]
pub struct Event {
    pub tick: Tick,
    pub kind: EventKind,
}

/// Index of the first event with the smallest tick in `s` (0 for an empty sequence).
pub open spec fn earliest(s: Seq<Event>) -> int
    decreases s.len(),
{
    if s.len() <= 1 {
        0
    } else {
        let k = earliest(s.drop_last());
        if s.last().tick < s[k].tick {
            s.len() - 1
        } else {
            k
        }
    }
}

/// Every event in `s` is due no earlier than `t`.
pub open spec fn all_due_from(s: Seq<Event>, t: int) -> bool {
    forall|j: int| 0 <= j < s.len() ==> s[j].tick >= t
}

/// `earliest` picks the first of the events with the smallest tick.
pub proof fn lemma_earliest(s: Seq<Event>)
    requires
        s.len() > 0,
    ensures
        0 <= earliest(s) < s.len(),
        forall|j: int| 0 <= j < s.len() ==> s[earliest(s)].tick <= #[trigger] s[j].tick,
        forall|j: int| 0 <= j < earliest(s) ==> #[trigger] s[j].tick > s[earliest(s)].tick,
    decreases s.len(),
{
    if s.len() > 1 {
        let p = s.drop_last();
        lemma_earliest(p);
        let k = earliest(p);
        let n = s.len() - 1;
        assert forall|j: int| 0 <= j < p.len() implies #[trigger] p[j] == s[j] by {}
        if s[n].tick < s[k].tick {
            assert(earliest(s) == n);
            assert forall|j: int| 0 <= j < s.len() implies s[n].tick <= #[trigger] s[j].tick by {
                if j < n {
                    assert(p[k].tick <= p[j].tick);
                }
            }
            assert forall|j: int| 0 <= j < n implies #[trigger] s[j].tick > s[n].tick by {
                assert(p[k].tick <= p[j].tick);
            }
        } else {
            assert(earliest(s) == k);
            assert forall|j: int| 0 <= j < s.len() implies s[k].tick <= #[trigger] s[j].tick by {
                if j < n {
                    assert(p[k].tick <= p[j].tick);
                }
            }
            assert forall|j: int| 0 <= j < k implies #[trigger] s[j].tick > s[k].tick by {
                assert(p[j].tick > p[k].tick);
            }
        }
    }
}

/// Two pops in a row come out in tick order: the event popped second is due
/// no earlier than the event popped first.
pub proof fn law_pops_in_tick_order(s: Seq<Event>)
    requires
        s.len() >= 2,
    ensures
        ({
            let first = earliest(s);
            let rest = s.remove(first);
            s[first].tick <= rest[earliest(rest)].tick
        }),
{
    let first = earliest(s);
    lemma_earliest(s);
    let rest = s.remove(first);
    lemma_earliest(rest);
    let k = earliest(rest);
    if k < first {
        assert(rest[k] == s[k]);
    } else {
        assert(rest[k] == s[k + 1]);
    }
}

/// Priority queue of simulation events, ordered by tick (earliest first).
/// Events with equal ticks leave in the order in which they were scheduled.
#[derive(Debug)]
pub struct EventQueue {
    events: Vec<Event>,
}

impl View for EventQueue {
    type V = Seq<Event>;

    closed spec fn view(&self) -> Seq<Event> {
        self.events@
    }
}

impl EventQueue {
    /// An empty queue.
    pub fn new() -> (q: Self)
        ensures
            q@ == Seq::<Event>::empty(),
    {
        EventQueue { events: Vec::new() }
    }

    /// Adds an event to the queue.
    pub fn schedule(&mut self, event: Event)
        ensures
            final(self)@ == old(self)@.push(event),
    {
        self.events.push(event);
    }

    /// Position of the first event with the smallest tick.
    fn earliest_index(&self) -> (best: usize)
        requires
            self@.len() > 0,
        ensures
            best == earliest(self@),
    {
        let n = self.events.len();
        let mut best: usize = 0;
        let mut i: usize = 1;
        while i < n
            invariant
                n == self.events@.len(),
                1 <= i <= n,
                best == earliest(self.events@.take(i as int)),
            decreases n - i,
        {
            proof {
                let s = self.events@.take(i as int + 1);
                assert(s.drop_last() =~= self.events@.take(i as int));
                lemma_earliest(self.events@.take(i as int));
            }
            if self.events[i].tick < self.events[best].tick {
                best = i;
            }
            i = i + 1;
        }
        proof {
            assert(self.events@.take(n as int) =~= self.events@);
        }
        best
    }

    /// Removes and returns the event with the smallest tick; among events with
    /// the same tick, the one scheduled first. `None` when the queue is empty.
    pub fn pop(&mut self) -> (r: Option<Event>)
        ensures
            old(self)@.len() == 0 ==> r is None && final(self)@ == old(self)@,
            old(self)@.len() > 0 ==> {
                let k = earliest(old(self)@);
                &&& r == Some(old(self)@[k])
                &&& final(self)@ == old(self)@.remove(k)
                &&& all_due_from(old(self)@, old(self)@[k].tick as int)
            },
    {
        if self.events.len() == 0 {
            return None;
        }
        let best = self.earliest_index();
        proof {
            lemma_earliest(self@);
        }
        Some(self.events.remove(best))
    }

    /// The tick of the event that `pop` would return, if any.
    pub fn peek_tick(&self) -> (r: Option<Tick>)
        ensures
            self@.len() == 0 ==> r is None,
            self@.len() > 0 ==> r == Some(self@[earliest(self@)].tick),
    {
        if self.events.len() == 0 {
            return None;
        }
        let best = self.earliest_index();
        proof {
            lemma_earliest(self@);
        }
        Some(self.events[best].tick)
    }

    /// The event at position `i` of the queue's scheduling order.
    pub fn get(&self, i: usize) -> (e: &Event)
        requires
            i < self@.len(),
        ensures
            *e == self@[i as int],
    {
        &self.events[i]
    }

    /// Whether no event is scheduled.
    pub fn is_empty(&self) -> (b: bool)
        ensures
            b == (self@.len() == 0),
    {
        self.events.len() == 0
    }

    /// Number of scheduled events.
    pub fn len(&self) -> (n: usize)
        ensures
            n == self@.len(),
    {
        self.events.len()
    }
}

impl Default for EventQueue {
    fn default() -> (q: Self)
        ensures
            q@ == Seq::<Event>::empty(),
    {
        Self::new()
    }
}

} // verus!
