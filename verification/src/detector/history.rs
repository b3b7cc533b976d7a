//! Per-node heartbeat history: the tick of the last heartbeat and a sliding
//! window of the most recent inter-arrival times. The accrual detectors and
//! the windowed-maximum detector read their suspicion from it.
use vstd::prelude::*;

use crate::clock::Tick;
use crate::node::NodeId;
use crate::node_map::{copy_ids, NodeMap};

verus! {

/// The last `w` elements of `s` (all of `s` when it is shorter).
pub open spec fn windowed(s: Seq<u64>, w: nat) -> Seq<u64> {
    if s.len() > w {
        s.subrange(s.len() - w, s.len() as int)
    } else {
        s
    }
}

/// A window holds at most `w` samples, and they are the latest ones, in order.
pub proof fn law_window_keeps_latest(s: Seq<u64>, w: nat)
    ensures
        windowed(s, w).len() <= w || windowed(s, w) == s,
        windowed(s, w).len() == if s.len() > w { w } else { s.len() },
        forall|i: int| 0 <= i < windowed(s, w).len() ==> #[trigger] windowed(s, w)[i] == s[s.len() - windowed(s, w).len() + i],
{
}

/// The number of samples at least `d` never grows as `d` grows, and never
/// exceeds the number of samples: the empirical chance of a later heartbeat
/// shrinks as the silence lengthens.
pub proof fn law_tail_count_antitone(s: Seq<u64>, d1: u64, d2: u64)
    requires
        d1 <= d2,
    ensures
        s.filter(|x: u64| x >= d2).len() <= s.filter(|x: u64| x >= d1).len(),
        s.filter(|x: u64| x >= d1).len() <= s.len(),
    decreases s.len(),
{
    reveal(Seq::filter);
    if s.len() > 0 {
        law_tail_count_antitone(s.drop_last(), d1, d2);
    }
}

/// The samples recorded for `n` in `m`; empty when there is no entry.
pub open spec fn samples_in(m: Map<NodeId, Seq<u64>>, n: NodeId) -> Seq<u64> {
    if m.contains_key(n) {
        m[n]
    } else {
        Seq::empty()
    }
}

/// Heartbeat history with a bounded window of inter-arrival samples per node.
#[derive(Debug)]
pub struct IntervalHistory {
    /// Maximum number of inter-arrival samples kept per node.
    window_size: usize,
    /// Per-node tick of the last heartbeat received.
    last_heartbeat: NodeMap<Tick>,
    /// Per-node sliding window of inter-arrival times, oldest first.
    intervals: NodeMap<Vec<u64>>,
}

impl IntervalHistory {
    /// Maximum number of samples kept per node.
    pub closed spec fn window_size(&self) -> nat {
        self.window_size as nat
    }

    /// Tick of the last heartbeat of each node heard from.
    pub closed spec fn last_seen(&self) -> Map<NodeId, Tick> {
        self.last_heartbeat.view()
    }

    /// The sample window of each node heard from at least twice, oldest first.
    pub closed spec fn windows(&self) -> Map<NodeId, Seq<u64>> {
        self.intervals.view().map_values(|v: Vec<u64>| v@)
    }

    /// The sample window of `n`, oldest first (empty when there is none).
    pub open spec fn samples_of(&self, n: NodeId) -> Seq<u64> {
        samples_in(self.windows(), n)
    }

    /// An empty history keeping at most `window_size` samples per node.
    pub fn new(window_size: usize) -> (h: Self)
        ensures
            h.window_size() == window_size,
            h.last_seen() == Map::<NodeId, Tick>::empty(),
            h.windows() == Map::<NodeId, Seq<u64>>::empty(),
    {
        let h = IntervalHistory { window_size, last_heartbeat: NodeMap::new(), intervals: NodeMap::new() };
        assert(h.windows() =~= Map::<NodeId, Seq<u64>>::empty());
        h
    }

    /// Records a heartbeat from `from` at `tick`. From the second heartbeat on,
    /// the time since the previous one joins the node's window, and the oldest
    /// samples leave it until it holds at most `window_size` samples.
    /// Heartbeats of a node arrive in tick order.
    pub fn record(&mut self, from: NodeId, tick: Tick)
        requires
            old(self).last_seen().contains_key(from) ==> old(self).last_seen()[from] <= tick,
        ensures
            final(self).window_size() == old(self).window_size(),
            final(self).last_seen() == old(self).last_seen().insert(from, tick),
            old(self).last_seen().contains_key(from) ==> final(self).windows() == old(self).windows().insert(
                from,
                windowed(
                    old(self).samples_of(from).push((tick - old(self).last_seen()[from]) as u64),
                    old(self).window_size(),
                ),
            ),
            !old(self).last_seen().contains_key(from) ==> final(self).windows() == old(self).windows(),
    {
        match self.last_heartbeat.get(from) {
            Some(prev) => {
                let interval = tick - *prev;
                let mut window: Vec<u64> = match self.intervals.get(from) {
                    Some(w) => copy_ids(w),
                    None => Vec::new(),
                };
                window.push(interval);
                let ghost full = window@;
                proof {
                    assert(full == old(self).samples_of(from).push(interval));
                    assert(full.subrange(0, full.len() as int) =~= full);
                }
                while window.len() > self.window_size
                    invariant
                        full.len() >= window@.len(),
                        window@ == full.subrange(full.len() - window@.len(), full.len() as int),
                        window@.len() >= self.window_size || window@.len() == full.len(),
                    decreases window@.len(),
                {
                    window.remove(0);
                    assert(window@ =~= full.subrange(full.len() - window@.len(), full.len() as int));
                }
                self.intervals.insert(from, window);
                proof {
                    assert(window@ == windowed(full, self.window_size as nat));
                    assert(self.windows() =~= old(self).windows().insert(from, window@));
                }
            },
            None => {},
        }
        self.last_heartbeat.insert(from, tick);
        proof {
            if !old(self).last_seen().contains_key(from) {
                assert(self.windows() =~= old(self).windows());
            }
        }
    }

    /// The tick of the last heartbeat from `node`, if any.
    pub fn last_heartbeat(&self, node: NodeId) -> (r: Option<Tick>)
        ensures
            r is Some == self.last_seen().contains_key(node),
            r matches Some(t) ==> t == self.last_seen()[node],
    {
        match self.last_heartbeat.get(node) {
            Some(t) => Some(*t),
            None => None,
        }
    }

    /// Number of samples in `node`'s window.
    pub fn sample_count(&self, node: NodeId) -> (n: usize)
        ensures
            n == self.samples_of(node).len(),
    {
        match self.intervals.get(node) {
            Some(w) => w.len(),
            None => 0,
        }
    }

    /// A copy of `node`'s window, oldest first.
    pub fn samples(&self, node: NodeId) -> (r: Vec<u64>)
        ensures
            r@ == self.samples_of(node),
    {
        match self.intervals.get(node) {
            Some(w) => copy_ids(w),
            None => Vec::new(),
        }
    }

    /// Number of samples in `node`'s window that are at least `delta`.
    pub fn count_at_least(&self, node: NodeId, delta: u64) -> (n: usize)
        ensures
            n == self.samples_of(node).filter(|s: u64| s >= delta).len(),
    {
        let w = self.samples(node);
        let ghost pred = |s: u64| s >= delta;
        let mut count: usize = 0;
        let mut i: usize = 0;
        while i < w.len()
            invariant
                0 <= i <= w@.len(),
                pred == (|s: u64| s >= delta),
                count == w@.take(i as int).filter(pred).len(),
                count <= i,
            decreases w@.len() - i,
        {
            proof {
                w@.lemma_take_succ_push(i as int);
                w@.take(i as int).lemma_filter_push(w@[i as int], pred);
            }
            if w[i] >= delta {
                count = count + 1;
            }
            i = i + 1;
        }
        proof {
            w@.lemma_take_len();
        }
        count
    }

    /// The largest sample in `node`'s window; `None` when the window is empty.
    pub fn max_interval(&self, node: NodeId) -> (r: Option<u64>)
        ensures
            r is None <==> self.samples_of(node).len() == 0,
            r matches Some(m) ==> self.samples_of(node).contains(m) && forall|j: int|
                0 <= j < self.samples_of(node).len() ==> #[trigger] self.samples_of(node)[j] <= m,
    {
        let w = self.samples(node);
        if w.len() == 0 {
            return None;
        }
        let mut best: u64 = w[0];
        assert(w@.take(1)[0] == best);
        let mut i: usize = 1;
        while i < w.len()
            invariant
                1 <= i <= w@.len(),
                w@.take(i as int).contains(best),
                forall|j: int| 0 <= j < i ==> #[trigger] w@[j] <= best,
            decreases w@.len() - i,
        {
            proof {
                let k = choose|k: int| 0 <= k < i && w@.take(i as int)[k] == best;
                assert(w@.take(i as int + 1)[k] == best);
            }
            if w[i] > best {
                best = w[i];
                assert(w@.take(i as int + 1)[i as int] == best);
            }
            i = i + 1;
        }
        proof {
            assert(w@.take(w@.len() as int) == w@);
        }
        Some(best)
    }
}

} // verus!
