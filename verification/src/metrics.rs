use vstd::prelude::*;

use crate::clock::Tick;
use crate::node::NodeId;

verus! {

/// One suspicion-level sample: `observer` watching `observed` at `tick`.
#[derive(Debug, Clone)]
pub struct PhiLogEntry<L> {
    pub tick: Tick,
    pub observer: NodeId,
    pub observed: NodeId,
    pub phi: L,
}

/// A single detection event recorded by the metrics collector.
#[derive(Debug, Clone, Copy)]
pub struct DetectionEvent {
    pub tick: Tick,
    pub node: NodeId,
    pub true_positive: bool,
    /// Ticks between the node's crash and this detection (true positives only).
    pub latency: Option<Tick>,
}

/// The latency a detection contributes to the latency statistics: its
/// latency when it is a true positive that has one.
pub open spec fn tp_latency(d: DetectionEvent) -> Option<u64> {
    if d.true_positive {
        d.latency
    } else {
        None
    }
}

/// The latencies of the true-positive detections in `ds`, in order.
pub open spec fn tp_latencies(ds: Seq<DetectionEvent>) -> Seq<u64> {
    ds.filter_map(|d: DetectionEvent| tp_latency(d))
}

/// Whether some true-positive detection of `node` happened at or after `tick`.
pub open spec fn detected_since(ds: Seq<DetectionEvent>, node: NodeId, tick: Tick) -> bool {
    exists|j: int| 0 <= j < ds.len() && #[trigger] ds[j].node == node && ds[j].true_positive && ds[j].tick >= tick
}

/// The crashes that no true-positive detection of the crashed node followed.
pub open spec fn missed_crashes(crashes: Seq<(Tick, NodeId)>, ds: Seq<DetectionEvent>) -> Seq<(Tick, NodeId)> {
    crashes.filter(|c: (Tick, NodeId)| !detected_since(ds, c.1, c.0))
}

/// A crash followed, at or after its tick, by a true-positive detection of
/// the crashed node is not a missed crash; one never followed so is.
pub proof fn law_missed_crash(crashes: Seq<(Tick, NodeId)>, ds: Seq<DetectionEvent>, i: int)
    requires
        0 <= i < crashes.len(),
    ensures
        missed_crashes(crashes, ds).contains(crashes[i]) <==> !detected_since(ds, crashes[i].1, crashes[i].0),
{
    let pred = |c: (Tick, NodeId)| !detected_since(ds, c.1, c.0);
    let f = crashes.filter(pred);
    if !detected_since(ds, crashes[i].1, crashes[i].0) {
        crashes.lemma_filter_contains(pred, i);
    }
    if f.contains(crashes[i]) {
        let k = choose|k: int| 0 <= k < f.len() && f[k] == crashes[i];
        crashes.lemma_filter_pred(pred, k);
    }
}

/// Whether `s` is in ascending order.
pub open spec fn ascending(s: Seq<u64>) -> bool {
    forall|i: int, j: int| 0 <= i <= j < s.len() ==> s[i] <= s[j]
}

/// Records events during a simulation for post-run analysis.
/// `L` is the type of the suspicion levels that accrual detectors report.
#[derive(Debug)]
pub struct MetricsCollector<L> {
    /// Total messages delivered.
    pub message_count: u64,
    /// Detection events, in the order they happened.
    pub detections: Vec<DetectionEvent>,
    /// Crash events: (tick, node).
    pub crashes: Vec<(Tick, NodeId)>,
    /// Recovery events: (tick, node).
    pub recoveries: Vec<(Tick, NodeId)>,
    /// Suspicion-level samples (only populated when the timeline is enabled).
    pub phi_log: Vec<PhiLogEntry<L>>,
}

impl<L> MetricsCollector<L> {
    /// A collector that has recorded nothing.
    pub fn new() -> (m: Self)
        ensures
            m.message_count == 0,
            m.detections@ == Seq::<DetectionEvent>::empty(),
            m.crashes@ == Seq::<(Tick, NodeId)>::empty(),
            m.recoveries@ == Seq::<(Tick, NodeId)>::empty(),
            m.phi_log@ == Seq::<PhiLogEntry<L>>::empty(),
    {
        MetricsCollector {
            message_count: 0,
            detections: Vec::new(),
            crashes: Vec::new(),
            recoveries: Vec::new(),
            phi_log: Vec::new(),
        }
    }

    /// Counts one delivered message. The tick is not used yet.
    pub fn record_message(&mut self, _tick: Tick)
        requires
            old(self).message_count < u64::MAX,
        ensures
            final(self).message_count == old(self).message_count + 1,
            final(self).detections == old(self).detections,
            final(self).crashes == old(self).crashes,
            final(self).recoveries == old(self).recoveries,
            final(self).phi_log == old(self).phi_log,
    {
        self.message_count = self.message_count + 1;
    }

    /// Records that `node` crashed at `tick`.
    pub fn record_crash(&mut self, tick: Tick, node: NodeId)
        ensures
            final(self).crashes@ == old(self).crashes@.push((tick, node)),
            final(self).message_count == old(self).message_count,
            final(self).detections == old(self).detections,
            final(self).recoveries == old(self).recoveries,
            final(self).phi_log == old(self).phi_log,
    {
        self.crashes.push((tick, node));
    }

    /// Records that `node` recovered at `tick`.
    pub fn record_recovery(&mut self, tick: Tick, node: NodeId)
        ensures
            final(self).recoveries@ == old(self).recoveries@.push((tick, node)),
            final(self).message_count == old(self).message_count,
            final(self).detections == old(self).detections,
            final(self).crashes == old(self).crashes,
            final(self).phi_log == old(self).phi_log,
    {
        self.recoveries.push((tick, node));
    }

    /// Records a detection.
    pub fn record_detection(&mut self, event: DetectionEvent)
        ensures
            final(self).detections@ == old(self).detections@.push(event),
            final(self).message_count == old(self).message_count,
            final(self).crashes == old(self).crashes,
            final(self).recoveries == old(self).recoveries,
            final(self).phi_log == old(self).phi_log,
    {
        self.detections.push(event);
    }

    /// Appends one suspicion-level sample.
    pub fn record_phi(&mut self, entry: PhiLogEntry<L>)
        ensures
            final(self).phi_log@ == old(self).phi_log@.push(entry),
            final(self).message_count == old(self).message_count,
            final(self).detections == old(self).detections,
            final(self).crashes == old(self).crashes,
            final(self).recoveries == old(self).recoveries,
    {
        self.phi_log.push(entry);
    }

    /// Number of detections that were false positives.
    pub fn false_positive_count(&self) -> (n: usize)
        ensures
            n == self.detections@.filter(|d: DetectionEvent| !d.true_positive).len(),
    {
        let ghost pred = |d: DetectionEvent| !d.true_positive;
        let mut n: usize = 0;
        let mut i: usize = 0;
        while i < self.detections.len()
            invariant
                0 <= i <= self.detections@.len(),
                pred == (|d: DetectionEvent| !d.true_positive),
                n == self.detections@.take(i as int).filter(pred).len(),
                n <= i,
            decreases self.detections@.len() - i,
        {
            proof {
                self.detections@.lemma_take_succ_push(i as int);
                self.detections@.take(i as int).lemma_filter_push(self.detections@[i as int], pred);
            }
            if !self.detections[i].true_positive {
                n = n + 1;
            }
            i = i + 1;
        }
        proof {
            self.detections@.lemma_take_len();
        }
        n
    }

    /// Whether a true-positive detection of `node` happened at or after `tick`.
    fn detected_after(&self, node: NodeId, tick: Tick) -> (b: bool)
        ensures
            b == detected_since(self.detections@, node, tick),
    {
        let mut j: usize = 0;
        while j < self.detections.len()
            invariant
                0 <= j <= self.detections@.len(),
                forall|k: int| 0 <= k < j ==> !(#[trigger] self.detections@[k].node == node
                    && self.detections@[k].true_positive && self.detections@[k].tick >= tick),
            decreases self.detections@.len() - j,
        {
            let d = self.detections[j];
            if d.node == node && d.true_positive && d.tick >= tick {
                return true;
            }
            j = j + 1;
        }
        false
    }

    /// Number of crashes never followed by a true-positive detection of the
    /// crashed node (at or after the crash tick).
    pub fn false_negative_count(&self) -> (n: usize)
        ensures
            n == missed_crashes(self.crashes@, self.detections@).len(),
    {
        let ghost ds = self.detections@;
        let ghost pred = |c: (Tick, NodeId)| !detected_since(ds, c.1, c.0);
        let mut n: usize = 0;
        let mut i: usize = 0;
        while i < self.crashes.len()
            invariant
                0 <= i <= self.crashes@.len(),
                ds == self.detections@,
                pred == (|c: (Tick, NodeId)| !detected_since(ds, c.1, c.0)),
                n == self.crashes@.take(i as int).filter(pred).len(),
                n <= i,
            decreases self.crashes@.len() - i,
        {
            proof {
                self.crashes@.lemma_take_succ_push(i as int);
                self.crashes@.take(i as int).lemma_filter_push(self.crashes@[i as int], pred);
            }
            let (crash_tick, node) = self.crashes[i];
            if !self.detected_after(node, crash_tick) {
                n = n + 1;
            }
            i = i + 1;
        }
        proof {
            self.crashes@.lemma_take_len();
        }
        n
    }

    /// Latencies of the true-positive detections that have one, in detection order.
    fn latencies_in_detection_order(&self) -> (r: Vec<u64>)
        ensures
            r@ == tp_latencies(self.detections@),
    {
        let ghost f = |d: DetectionEvent| tp_latency(d);
        let mut r: Vec<u64> = Vec::new();
        let mut i: usize = 0;
        while i < self.detections.len()
            invariant
                0 <= i <= self.detections@.len(),
                f == (|d: DetectionEvent| tp_latency(d)),
                r@ == self.detections@.take(i as int).filter_map(f),
            decreases self.detections@.len() - i,
        {
            proof {
                self.detections@.lemma_filter_map_take_succ(f, i as int);
            }
            let d = self.detections[i];
            if d.true_positive {
                match d.latency {
                    Some(l) => r.push(l),
                    None => {},
                }
            }
            i = i + 1;
        }
        proof {
            self.detections@.lemma_take_len();
        }
        r
    }

    /// The latencies of the true-positive detections that have one, sorted
    /// ascending, used by the mean and percentile statistics.
    pub fn true_positive_latencies(&self) -> (r: Vec<u64>)
        ensures
            ascending(r@),
            r@.to_multiset() == tp_latencies(self.detections@).to_multiset(),
    {
        let v = self.latencies_in_detection_order();
        sort_ascending(&v)
    }
}

/// An ascending copy of `v` (insertion sort).
pub fn sort_ascending(v: &Vec<u64>) -> (r: Vec<u64>)
    ensures
        ascending(r@),
        r@.to_multiset() == v@.to_multiset(),
{
    let mut r: Vec<u64> = Vec::new();
    proof {
        assert(r@ =~= v@.take(0));
    }
    let mut i: usize = 0;
    while i < v.len()
        invariant
            0 <= i <= v@.len(),
            ascending(r@),
            r@.to_multiset() == v@.take(i as int).to_multiset(),
        decreases v@.len() - i,
    {
        let x = v[i];
        let mut p: usize = 0;
        while p < r.len() && r[p] <= x
            invariant
                0 <= p <= r@.len(),
                forall|k: int| 0 <= k < p ==> r@[k] <= x,
            decreases r@.len() - p,
        {
            p = p + 1;
        }
        let ghost before = r@;
        r.insert(p, x);
        proof {
            assert(r@ == before.insert(p as int, x));
            assert forall|a: int, b: int| 0 <= a <= b < r@.len() implies r@[a] <= r@[b] by {
                if b < p {
                } else if a > p {
                    assert(r@[a] == before[a - 1]);
                    assert(r@[b] == before[b - 1]);
                } else if a == p {
                    if b > p {
                        assert(r@[b] == before[b - 1]);
                        assert(p < before.len());
                        assert(!(before[p as int] <= x));
                    }
                } else {
                    if b == p {
                        assert(r@[a] == before[a]);
                    } else {
                        assert(r@[a] == before[a]);
                        assert(r@[b] == before[b - 1]);
                    }
                }
            }
            vstd::seq_lib::to_multiset_insert(before, p as int, x);
            v@.lemma_take_succ_push(i as int);
            vstd::seq_lib::to_multiset_build(v@.take(i as int), x);
        }
        i = i + 1;
    }
    proof {
        v@.lemma_take_len();
    }
    r
}

impl<L> Default for MetricsCollector<L> {
    fn default() -> (m: Self)
        ensures
            m.message_count == 0,
            m.detections@ == Seq::<DetectionEvent>::empty(),
            m.crashes@ == Seq::<(Tick, NodeId)>::empty(),
            m.recoveries@ == Seq::<(Tick, NodeId)>::empty(),
            m.phi_log@ == Seq::<PhiLogEntry<L>>::empty(),
    {
        Self::new()
    }
}

} // verus!
