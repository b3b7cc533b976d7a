use vstd::prelude::*;

use crate::clock::Tick;
use crate::detector::fixed_timeout::overdue;
use crate::detector::{deterministic_detectors, FailureDetector, GossipOffer};
use crate::node::NodeId;
use crate::node_map::{copy_ids, ids_contain, other_than, NodeMap};

verus! {

/// The sources recorded against `n` in `m`; empty when there is no entry.
pub open spec fn sources_in(m: Map<NodeId, Seq<NodeId>>, n: NodeId) -> Seq<NodeId> {
    if m.contains_key(n) {
        m[n]
    } else {
        Seq::empty()
    }
}

/// `m` after `source` reports suspicion of `n`: the source is added to `n`'s
/// list (creating it) unless it is already there.
pub open spec fn with_source(m: Map<NodeId, Seq<NodeId>>, n: NodeId, source: NodeId) -> Map<
    NodeId,
    Seq<NodeId>,
> {
    if sources_in(m, n).contains(source) {
        m
    } else {
        m.insert(n, sources_in(m, n).push(source))
    }
}

/// A source counts once: reporting the same suspicion again changes nothing.
pub proof fn law_source_counts_once(m: Map<NodeId, Seq<NodeId>>, n: NodeId, source: NodeId)
    ensures
        with_source(with_source(m, n, source), n, source) == with_source(m, n, source),
        sources_in(with_source(m, n, source), n).contains(source),
        !sources_in(m, n).contains(source) ==> sources_in(with_source(m, n, source), n).len() == sources_in(
            m,
            n,
        ).len() + 1,
        forall|x: NodeId| x != n ==> #[trigger] sources_in(with_source(m, n, source), x) == sources_in(m, x),
{
    if !sources_in(m, n).contains(source) {
        let l = sources_in(m, n).push(source);
        assert(l[l.len() - 1] == source);
        assert(sources_in(with_source(m, n, source), n) == l);
    }
}

/// Whether a local check of the nodes in `mon` at `tick` newly suspects `n`:
/// `n` is among them, overdue, and was not locally suspected before.
pub open spec fn newly_suspected(
    local: Set<NodeId>,
    mon: Seq<NodeId>,
    last: Map<NodeId, Tick>,
    tick: Tick,
    timeout: Tick,
    n: NodeId,
) -> bool {
    mon.contains(n) && overdue(last, n, tick, timeout) && !local.contains(n)
}

/// The locally suspected nodes after a local check of the nodes in `mon` at
/// `tick`: the overdue ones join, the others among `mon` leave.
pub open spec fn local_after_check(
    local: Set<NodeId>,
    mon: Seq<NodeId>,
    last: Map<NodeId, Tick>,
    tick: Tick,
    timeout: Tick,
) -> Set<NodeId> {
    Set::new(
        |n: NodeId|
            if mon.contains(n) {
                overdue(last, n, tick, timeout)
            } else {
                local.contains(n)
            },
    )
}

/// The sources after a local check by `owner` of the nodes in `mon` at `tick`.
pub open spec fn sources_after_check(
    m: Map<NodeId, Seq<NodeId>>,
    local: Set<NodeId>,
    mon: Seq<NodeId>,
    last: Map<NodeId, Tick>,
    tick: Tick,
    timeout: Tick,
    owner: NodeId,
) -> Map<NodeId, Seq<NodeId>> {
    Map::new(
        |n: NodeId| m.contains_key(n) || newly_suspected(local, mon, last, tick, timeout, n),
        |n: NodeId|
            if newly_suspected(local, mon, last, tick, timeout, n) {
                sources_in(with_source(m, n, owner), n)
            } else {
                m[n]
            },
    )
}

/// The bookkeeping that every detector keeps: each node with a source list
/// has at least one source, and each locally suspected node is monitored and
/// already counts `owner` among its sources.
pub open spec fn coherent_parts(
    m: Map<NodeId, Seq<NodeId>>,
    local: Set<NodeId>,
    mon: Seq<NodeId>,
    owner: NodeId,
) -> bool {
    &&& forall|n: NodeId| #[trigger] m.contains_key(n) ==> m[n].len() > 0
    &&& forall|n: NodeId| #[trigger] local.contains(n) ==> mon.contains(n) && m.contains_key(n) && m[n].contains(owner)
}

/// A local check at a nonzero tick keeps the bookkeeping, and then: the
/// locally suspected nodes are exactly the overdue monitored ones; each of
/// those counts `owner` among its sources, besides the ones it had; every
/// other node keeps its sources.
pub proof fn law_check_adds_owner(
    m: Map<NodeId, Seq<NodeId>>,
    local: Set<NodeId>,
    mon: Seq<NodeId>,
    last: Map<NodeId, Tick>,
    tick: Tick,
    timeout: Tick,
    owner: NodeId,
)
    requires
        coherent_parts(m, local, mon, owner),
    ensures
        coherent_parts(
            sources_after_check(m, local, mon, last, tick, timeout, owner),
            local_after_check(local, mon, last, tick, timeout),
            mon,
            owner,
        ),
        forall|n: NodeId| #[trigger] local_after_check(local, mon, last, tick, timeout).contains(n)
            <==> mon.contains(n) && overdue(last, n, tick, timeout),
        forall|n: NodeId| mon.contains(n) && overdue(last, n, tick, timeout) ==> sources_after_check(
            m,
            local,
            mon,
            last,
            tick,
            timeout,
            owner,
        ).contains_key(n) && #[trigger] sources_in(sources_after_check(m, local, mon, last, tick, timeout, owner), n).to_set()
            == sources_in(m, n).to_set().insert(owner),
        forall|n: NodeId| !(mon.contains(n) && overdue(last, n, tick, timeout)) ==> #[trigger] sources_in(
            sources_after_check(m, local, mon, last, tick, timeout, owner),
            n,
        ) == sources_in(m, n),
{
    let after = sources_after_check(m, local, mon, last, tick, timeout, owner);
    let local2 = local_after_check(local, mon, last, tick, timeout);
    assert forall|n: NodeId| mon.contains(n) && overdue(last, n, tick, timeout) implies after.contains_key(n)
        && #[trigger] sources_in(after, n).to_set() == sources_in(m, n).to_set().insert(owner) by {
        if newly_suspected(local, mon, last, tick, timeout, n) {
            if sources_in(m, n).contains(owner) {
                assert(sources_in(m, n).to_set() =~= sources_in(m, n).to_set().insert(owner));
            } else {
                let l = sources_in(m, n).push(owner);
                assert(sources_in(after, n) == l);
                assert(l.to_set() =~= sources_in(m, n).to_set().insert(owner)) by {
                    assert forall|x: NodeId| l.contains(x) <==> sources_in(m, n).contains(x) || x == owner by {
                        if l.contains(x) {
                            let k = choose|k: int| 0 <= k < l.len() && l[k] == x;
                            if k < sources_in(m, n).len() {
                                assert(sources_in(m, n)[k] == x);
                            }
                        }
                        if sources_in(m, n).contains(x) {
                            let k = choose|k: int| 0 <= k < sources_in(m, n).len() && sources_in(m, n)[k] == x;
                            assert(l[k] == x);
                        }
                        if x == owner {
                            assert(l[l.len() - 1] == owner);
                        }
                    }
                }
            }
        } else {
            assert(local.contains(n));
            assert(sources_in(m, n).to_set() =~= sources_in(m, n).to_set().insert(owner));
        }
    }
    assert forall|n: NodeId| #[trigger] after.contains_key(n) implies after[n].len() > 0 by {
        if newly_suspected(local, mon, last, tick, timeout, n) {
            law_source_counts_once(m, n, owner);
        }
    }
    assert forall|n: NodeId| #[trigger] local2.contains(n) implies mon.contains(n) && after.contains_key(n)
        && after[n].contains(owner) by {
        if !mon.contains(n) {
            assert(local.contains(n));
        }
        assert(sources_in(after, n).to_set().contains(owner));
    }
}

/// A node is suspected exactly when it has at least `max(threshold, 1)`
/// distinct sources: under the bookkeeping, a node with a source list has one
/// source at least, so a threshold of 0 acts as 1.
pub proof fn law_suspicion_needs_a_source(d: GossipDetector)
    requires
        d.coherent(),
    ensures
        forall|n: NodeId| #[trigger] d.is_suspected(n) <==> d.sources().contains_key(n) && d.suspicion_count(n) >= (
        if d.threshold() >= 1 {
            d.threshold() as nat
        } else {
            1nat
        }),
{
    assert forall|n: NodeId| #[trigger] d.is_suspected(n) <==> d.sources().contains_key(n) && d.suspicion_count(n) >= (
    if d.threshold() >= 1 {
        d.threshold() as nat
    } else {
        1nat
    }) by {
        if d.sources().contains_key(n) {
            assert(d.sources()[n].len() > 0);
        }
    }
}

/// Whether `n` has evidence from at least `threshold` distinct sources in `m`.
pub open spec fn suspected_by(m: Map<NodeId, Seq<NodeId>>, threshold: u32) -> spec_fn(NodeId) -> bool {
    |n: NodeId| m.contains_key(n) && sources_in(m, n).len() >= threshold
}

/// The order of the locally suspected nodes and of the nodes with evidence
/// after a local check of the nodes in `mon` at `tick`, from the orders
/// `local` and `order`: walking `mon`, an overdue node not yet locally
/// suspected joins the local order last, and the evidence order last when it
/// had no evidence; a node that is not overdue leaves the local order.
pub open spec fn check_orders(
    local: Seq<NodeId>,
    order: Seq<NodeId>,
    mon: Seq<NodeId>,
    last: Map<NodeId, Tick>,
    tick: Tick,
    timeout: Tick,
) -> (Seq<NodeId>, Seq<NodeId>)
    decreases mon.len(),
{
    if mon.len() == 0 {
        (local, order)
    } else {
        let (l, o) = check_orders(local, order, mon.drop_last(), last, tick, timeout);
        let n = mon.last();
        if overdue(last, n, tick, timeout) {
            if l.contains(n) {
                (l, o)
            } else {
                (
                    l.push(n),
                    if o.contains(n) {
                        o
                    } else {
                        o.push(n)
                    },
                )
            }
        } else {
            (l.filter(other_than(n)), o)
        }
    }
}

/// Failure detector that combines local heartbeat monitoring with
/// gossip-disseminated suspicion.
///
/// A node is suspected only when enough distinct sources (this detector's
/// owner among them) report missed heartbeats.
#[derive(Debug)]
pub struct GossipDetector {
    /// Number of independent suspicions required before declaring failure.
    suspicion_threshold: u32,
    /// Local timeout: ticks without a heartbeat before local suspicion fires.
    local_timeout: Tick,
    /// For each suspected node, the distinct sources that reported it, in order.
    suspicion_sources: NodeMap<Vec<NodeId>>,
    /// Last heartbeat tick received from each node.
    last_heartbeat: NodeMap<Tick>,
    /// Nodes being monitored.
    monitored: Vec<NodeId>,
    /// Current simulation tick, updated via on_tick.
    current_tick: Tick,
    /// Nodes already locally suspected (prevents double-counting).
    locally_suspected: NodeMap<()>,
    /// The node running this detector (the source of its local suspicions).
    owner: NodeId,
    /// Ticks between gossip rounds.
    gossip_interval: Tick,
    /// Number of random peers to gossip with each round.
    gossip_fanout: u32,
}

impl GossipDetector {
    #[verifier::type_invariant]
    spec fn well_kept(&self) -> bool {
        &&& forall|n: NodeId| #[trigger] self.suspicion_sources.view().contains_key(n)
            ==> self.suspicion_sources.view()[n]@.no_duplicates()
        &&& coherent_parts(self.sources(), self.local_set(), self.monitored(), self.owner())
    }

    /// Number of distinct sources needed to suspect a node.
    pub closed spec fn threshold(&self) -> u32 {
        self.suspicion_threshold
    }

    /// Ticks without a heartbeat before the owner suspects a node.
    pub closed spec fn local_timeout(&self) -> Tick {
        self.local_timeout
    }

    /// For each node with suspicion evidence, its distinct sources in arrival order.
    pub closed spec fn sources(&self) -> Map<NodeId, Seq<NodeId>> {
        self.suspicion_sources.view().map_values(|v: Vec<NodeId>| v@)
    }

    /// Last heartbeat tick of each node heard from.
    pub closed spec fn last_seen(&self) -> Map<NodeId, Tick> {
        self.last_heartbeat.view()
    }

    /// The monitored nodes.
    pub closed spec fn monitored(&self) -> Seq<NodeId> {
        self.monitored@
    }

    /// The tick of the latest `on_tick`.
    pub closed spec fn now(&self) -> Tick {
        self.current_tick
    }

    /// The set of nodes that the owner suspects on its own.
    pub closed spec fn local_set(&self) -> Set<NodeId> {
        self.locally_suspected.view().dom()
    }

    /// The nodes that the owner suspects on its own, in the order they became suspected.
    pub closed spec fn local_suspects(&self) -> Seq<NodeId> {
        self.locally_suspected.keys()
    }

    /// The nodes with suspicion evidence, in the order their evidence began.
    pub closed spec fn source_order(&self) -> Seq<NodeId> {
        self.suspicion_sources.keys()
    }

    /// The node running this detector.
    pub closed spec fn owner(&self) -> NodeId {
        self.owner
    }

    /// The round length and fanout.
    pub closed spec fn round(&self) -> (Tick, u32) {
        (self.gossip_interval, self.gossip_fanout)
    }

    /// Number of distinct sources that currently suspect `n`.
    pub open spec fn suspicion_count(&self, n: NodeId) -> nat {
        sources_in(self.sources(), n).len()
    }

    /// Whether `n` is suspected: it has evidence from at least `threshold` distinct sources.
    pub open spec fn is_suspected(&self, n: NodeId) -> bool {
        self.sources().contains_key(n) && self.suspicion_count(n) >= self.threshold()
    }

    /// Whether the detector's bookkeeping holds (see `coherent_parts`); every
    /// detector built by `new` and changed by its methods keeps it.
    pub open spec fn coherent(&self) -> bool {
        coherent_parts(self.sources(), self.local_set(), self.monitored(), self.owner())
    }

    /// A detector for `owner` that has heard nothing and suspects nothing.
    pub fn new(
        suspicion_threshold: u32,
        local_timeout: Tick,
        monitored: Vec<NodeId>,
        owner: NodeId,
        gossip_interval: Tick,
        gossip_fanout: u32,
    ) -> (d: Self)
        ensures
            d.threshold() == suspicion_threshold,
            d.local_timeout() == local_timeout,
            d.monitored() == monitored@,
            d.owner() == owner,
            d.round() == (gossip_interval, gossip_fanout),
            d.sources() == Map::<NodeId, Seq<NodeId>>::empty(),
            d.last_seen() == Map::<NodeId, Tick>::empty(),
            d.local_suspects() == Seq::<NodeId>::empty(),
            d.local_set() == Set::<NodeId>::empty(),
            d.now() == 0,
            d.coherent(),
    {
        let d = Self {
            suspicion_threshold,
            local_timeout,
            suspicion_sources: NodeMap::new(),
            last_heartbeat: NodeMap::new(),
            monitored,
            current_tick: 0,
            locally_suspected: NodeMap::new(),
            owner,
            gossip_interval,
            gossip_fanout,
        };
        assert(d.sources() =~= Map::<NodeId, Seq<NodeId>>::empty());
        d
    }

    /// Adds `source` to the sources of `node` unless it is already there.
    fn add_source(&mut self, node: NodeId, source: NodeId)
        ensures
            final(self).sources() == with_source(old(self).sources(), node, source),
            final(self).threshold() == old(self).threshold(),
            final(self).local_timeout() == old(self).local_timeout(),
            final(self).last_seen() == old(self).last_seen(),
            final(self).monitored() == old(self).monitored(),
            final(self).now() == old(self).now(),
            final(self).local_set() == old(self).local_set(),
            final(self).local_suspects() == old(self).local_suspects(),
            final(self).owner() == old(self).owner(),
            final(self).round() == old(self).round(),
            final(self).source_order() == if old(self).sources().contains_key(node) {
                old(self).source_order()
            } else {
                old(self).source_order().push(node)
            },
    {
        proof {
            use_type_invariant(&*self);
        }
        let mut local: NodeMap<()> = NodeMap::new();
        std::mem::swap(&mut local, &mut self.locally_suspected);
        let current: Vec<NodeId> = match self.suspicion_sources.get(node) {
            Some(v) => copy_ids(v),
            None => Vec::new(),
        };
        assert(current@ == sources_in(self.sources(), node));
        if !ids_contain(&current, source) {
            let mut next = current;
            next.push(source);
            proof {
                assert(next@.no_duplicates()) by {
                    if self.suspicion_sources.view().contains_key(node) {
                        assert(self.suspicion_sources.view()[node]@.no_duplicates());
                    }
                    assert forall|i: int, j: int| 0 <= i < next@.len() && 0 <= j < next@.len() && i != j
                        implies next@[i] != next@[j] by {
                        if i < current@.len() && j < current@.len() {
                        } else if i == current@.len() as int {
                            assert(current@.contains(next@[j]) ==> next@[j] != source);
                            assert(current@[j] == next@[j]);
                        } else {
                            assert(current@[i] == next@[i]);
                        }
                    }
                }
            }
            let mut table: NodeMap<Vec<NodeId>> = NodeMap::new();
            std::mem::swap(&mut table, &mut self.suspicion_sources);
            table.insert(node, next);
            proof {
                assert forall|x: NodeId| #[trigger] table.view().contains_key(x) implies table.view()[x]@.no_duplicates()
                    && table.view()[x]@.len() > 0 by {
                    if x != node {
                        assert(old(self).suspicion_sources.view().contains_key(x));
                        assert(old(self).sources().contains_key(x));
                    }
                }
            }
            self.suspicion_sources = table;
            proof {
                assert(self.sources() =~= with_source(old(self).sources(), node, source));
                law_source_counts_once(old(self).sources(), node, source);
                assert forall|n: NodeId| #[trigger] local.view().dom().contains(n) implies self.sources().contains_key(n)
                    && self.sources()[n].contains(old(self).owner()) by {
                    assert(old(self).local_set().contains(n));
                    if n == node {
                        let l = sources_in(old(self).sources(), n);
                        let k = choose|k: int| 0 <= k < l.len() && l[k] == old(self).owner();
                        assert(l.push(source)[k] == old(self).owner());
                    }
                }
            }
        } else {
            assert(with_source(old(self).sources(), node, source) == old(self).sources());
        }
        self.locally_suspected = local;
    }

    /// Records that `source` suspects `suspected_node`; a source counts once per node.
    pub fn on_remote_suspicion(&mut self, suspected_node: NodeId, source: NodeId)
        ensures
            final(self).sources() == with_source(old(self).sources(), suspected_node, source),
            final(self).threshold() == old(self).threshold(),
            final(self).local_timeout() == old(self).local_timeout(),
            final(self).last_seen() == old(self).last_seen(),
            final(self).monitored() == old(self).monitored(),
            final(self).now() == old(self).now(),
            final(self).local_set() == old(self).local_set(),
            final(self).local_suspects() == old(self).local_suspects(),
            final(self).owner() == old(self).owner(),
            final(self).round() == old(self).round(),
            final(self).coherent(),
            final(self).source_order() == if old(self).sources().contains_key(suspected_node) {
                old(self).source_order()
            } else {
                old(self).source_order().push(suspected_node)
            },
    {
        proof {
            use_type_invariant(&*self);
        }
        self.add_source(suspected_node, source);
        proof {
            use_type_invariant(&*self);
            law_source_counts_once(old(self).sources(), suspected_node, source);
            if old(self).coherent() {
                assert forall|n: NodeId| #[trigger] self.local_set().contains(n) implies self.monitored().contains(n)
                    && self.sources().contains_key(n) && self.sources()[n].contains(old(self).owner()) by {
                    if n == suspected_node && !sources_in(old(self).sources(), n).contains(source) {
                        let l = sources_in(old(self).sources(), n).push(source);
                        let k = choose|k: int| 0 <= k < old(self).sources()[n].len() && old(self).sources()[n][k] == old(self).owner();
                        assert(l[k] == old(self).owner());
                    }
                }
            }
        }
    }

    /// The nodes this detector currently suspects on its own, each once.
    pub fn local_suspicions(&self) -> (r: Vec<NodeId>)
        ensures
            r@ == self.local_suspects(),
            r@.no_duplicates(),
            r@.to_set() == self.local_set(),
    {
        let mut r: Vec<NodeId> = Vec::new();
        let n = self.locally_suspected.len();
        proof {
            self.locally_suspected.lemma_shape();
        }
        let mut i: usize = 0;
        while i < n
            invariant
                n == self.locally_suspected.entries().len(),
                n == self.locally_suspected.keys().len(),
                0 <= i <= n,
                r@ == self.locally_suspected.keys().take(i as int),
            decreases n - i,
        {
            r.push(self.locally_suspected.key_at(i));
            proof {
                self.locally_suspected.keys().lemma_take_succ_push(i as int);
            }
            i = i + 1;
        }
        proof {
            assert(self.locally_suspected.keys().take(n as int) == self.locally_suspected.keys());
            assert(r@.to_set() =~= self.local_set());
        }
        r
    }

    /// Records a heartbeat from `from`: a direct heartbeat clears all suspicion of it.
    pub fn on_heartbeat(&mut self, from: NodeId, tick: Tick)
        ensures
            final(self).last_seen() == old(self).last_seen().insert(from, tick),
            final(self).sources() == old(self).sources().remove(from),
            final(self).local_set() == old(self).local_set().remove(from),
            final(self).threshold() == old(self).threshold(),
            final(self).local_timeout() == old(self).local_timeout(),
            final(self).monitored() == old(self).monitored(),
            final(self).now() == old(self).now(),
            final(self).owner() == old(self).owner(),
            final(self).round() == old(self).round(),
            final(self).coherent(),
            final(self).local_suspects() == old(self).local_suspects().filter(other_than(from)),
            final(self).source_order() == old(self).source_order().filter(other_than(from)),
    {
        proof {
            use_type_invariant(&*self);
        }
        let mut last: NodeMap<Tick> = NodeMap::new();
        std::mem::swap(&mut last, &mut self.last_heartbeat);
        last.insert(from, tick);
        self.last_heartbeat = last;
        let mut local: NodeMap<()> = NodeMap::new();
        std::mem::swap(&mut local, &mut self.locally_suspected);
        local.remove(from);
        let mut table: NodeMap<Vec<NodeId>> = NodeMap::new();
        std::mem::swap(&mut table, &mut self.suspicion_sources);
        table.remove(from);
        proof {
            assert forall|x: NodeId| #[trigger] table.view().contains_key(x) implies table.view()[x]@.no_duplicates()
                && table.view()[x]@.len() > 0 by {
                assert(old(self).suspicion_sources.view().contains_key(x));
                assert(old(self).sources().contains_key(x));
            }
        }
        self.suspicion_sources = table;
        proof {
            assert(self.sources() =~= old(self).sources().remove(from));
            assert forall|n: NodeId| #[trigger] self.sources().contains_key(n) implies self.sources()[n].len() > 0 by {
                assert(old(self).sources().contains_key(n));
            }
            assert forall|n: NodeId| #[trigger] local.view().dom().contains(n) implies self.monitored().contains(n)
                && self.sources().contains_key(n) && self.sources()[n].contains(old(self).owner()) by {
                assert(old(self).local_set().contains(n));
            }
        }
        self.locally_suspected = local;
        proof {
            assert(self.local_set() =~= old(self).local_set().remove(from));
        }
    }

    /// Moves the detector to `tick` and, from the first nonzero tick on, checks
    /// every monitored node: an overdue node becomes locally suspected (counted
    /// as a suspicion from the owner the first time), a node that is not
    /// overdue stops being locally suspected.
    pub fn on_tick(&mut self, tick: Tick)
        ensures
            final(self).now() == tick,
            final(self).last_seen() == old(self).last_seen(),
            final(self).threshold() == old(self).threshold(),
            final(self).local_timeout() == old(self).local_timeout(),
            final(self).monitored() == old(self).monitored(),
            final(self).owner() == old(self).owner(),
            final(self).round() == old(self).round(),
            tick == 0 ==> final(self).sources() == old(self).sources()
                && final(self).local_set() == old(self).local_set(),
            tick != 0 ==> final(self).local_set() == local_after_check(
                old(self).local_set(),
                old(self).monitored(),
                old(self).last_seen(),
                tick,
                old(self).local_timeout(),
            ),
            tick != 0 ==> final(self).sources() == sources_after_check(
                old(self).sources(),
                old(self).local_set(),
                old(self).monitored(),
                old(self).last_seen(),
                tick,
                old(self).local_timeout(),
                old(self).owner(),
            ),
            final(self).coherent(),
            tick != 0 ==> forall|n: NodeId| #[trigger] final(self).local_set().contains(n)
                <==> old(self).monitored().contains(n) && overdue(old(self).last_seen(), n, tick, old(self).local_timeout()),
            tick != 0 ==> forall|n: NodeId|
                old(self).monitored().contains(n) && overdue(old(self).last_seen(), n, tick, old(self).local_timeout())
                ==> final(self).sources().contains_key(n) && #[trigger] sources_in(final(self).sources(), n).to_set()
                == sources_in(old(self).sources(), n).to_set().insert(old(self).owner()),
            tick != 0 ==> forall|n: NodeId|
                !(old(self).monitored().contains(n) && overdue(old(self).last_seen(), n, tick, old(self).local_timeout()))
                ==> #[trigger] sources_in(final(self).sources(), n) == sources_in(old(self).sources(), n),
            tick == 0 ==> final(self).local_suspects() == old(self).local_suspects()
                && final(self).source_order() == old(self).source_order(),
            tick != 0 ==> (final(self).local_suspects(), final(self).source_order()) == check_orders(
                old(self).local_suspects(),
                old(self).source_order(),
                old(self).monitored(),
                old(self).last_seen(),
                tick,
                old(self).local_timeout(),
            ),
    {
        proof {
            use_type_invariant(&*self);
        }
        self.current_tick = tick;
        if tick == 0 {
            return;
        }
        let ghost local0 = old(self).local_set();
        let ghost src0 = old(self).sources();
        let ghost last = old(self).last_seen();
        let ghost mon = old(self).monitored();
        let ghost lt = old(self).local_timeout();
        let ghost owner = old(self).owner();
        proof {
            assert(local_after_check(local0, mon.take(0), last, tick, lt) =~= local0);
            assert(sources_after_check(src0, local0, mon.take(0), last, tick, lt, owner) =~= src0);
            assert(mon.take(0).len() == 0);
        }
        let n = self.monitored.len();
        let mut i: usize = 0;
        while i < n
            invariant
                n == mon.len(),
                0 <= i <= n,
                tick != 0,
                self.now() == tick,
                self.last_seen() == last,
                self.monitored() == mon,
                self.local_timeout() == lt,
                self.owner() == owner,
                self.threshold() == old(self).threshold(),
                self.round() == old(self).round(),
                self.local_set() == local_after_check(local0, mon.take(i as int), last, tick, lt),
                (self.local_suspects(), self.source_order()) == check_orders(
                    old(self).local_suspects(),
                    old(self).source_order(),
                    mon.take(i as int),
                    last,
                    tick,
                    lt,
                ),
                self.sources() == sources_after_check(src0, local0, mon.take(i as int), last, tick, lt, owner),
            decreases n - i,
        {
            proof {
                use_type_invariant(&*self);
            }
            let node = self.monitored[i];
            let missed = match self.last_heartbeat.get(node) {
                Some(last_tick) => *last_tick <= tick && tick - *last_tick > self.local_timeout,
                None => true,
            };
            let ghost pre = mon.take(i as int);
            let ghost post = mon.take(i as int + 1);
            proof {
                mon.lemma_take_succ_push(i as int);
                assert(post == pre.push(node));
                assert forall|x: NodeId| #[trigger] post.contains(x) <==> (pre.contains(x) || x == node) by {
                    if post.contains(x) {
                        let k = choose|k: int| 0 <= k < post.len() && post[k] == x;
                        if k < pre.len() {
                            assert(pre[k] == x);
                        }
                    }
                    if pre.contains(x) {
                        let k = choose|k: int| 0 <= k < pre.len() && pre[k] == x;
                        assert(post[k] == x);
                    }
                    if x == node {
                        assert(post[pre.len() as int] == node);
                    }
                }
            }
            proof {
                use_type_invariant(&self.locally_suspected);
                use_type_invariant(&self.suspicion_sources);
                self.locally_suspected.lemma_shape();
                self.suspicion_sources.lemma_shape();
                assert(post.drop_last() =~= pre);
                assert(post.last() == node);
            }
            let was_local = self.locally_suspected.contains_key(node);
            if missed && !was_local {
                let ghost src_before = self.sources();
                let me = self.owner;
                self.add_source(node, me);
                proof {
                    use_type_invariant(&*self);
                    law_source_counts_once(src_before, node, me);
                    assert(mon.contains(node)) by {
                        assert(mon[i as int] == node);
                    }
                }
                let mut local: NodeMap<()> = NodeMap::new();
                std::mem::swap(&mut local, &mut self.locally_suspected);
                local.insert(node, ());
                self.locally_suspected = local;
                proof {
                    assert(self.local_set() =~= local_after_check(local0, post, last, tick, lt));
                    assert(!pre.contains(node) && !local0.contains(node));
                    assert(sources_in(src_before, node) == sources_in(src0, node));
                    assert(self.sources() =~= sources_after_check(src0, local0, post, last, tick, lt, owner));
                }
            } else if !missed {
                let mut local: NodeMap<()> = NodeMap::new();
                std::mem::swap(&mut local, &mut self.locally_suspected);
                local.remove(node);
                self.locally_suspected = local;
                proof {
                    assert(self.local_set() =~= local_after_check(local0, post, last, tick, lt));
                    assert(self.sources() =~= sources_after_check(src0, local0, post, last, tick, lt, owner));
                }
            } else {
                proof {
                    assert(self.local_set() =~= local_after_check(local0, post, last, tick, lt));
                    assert(self.sources() =~= sources_after_check(src0, local0, post, last, tick, lt, owner));
                }
            }
            i = i + 1;
        }
        proof {
            assert(mon.take(n as int) == mon);
            law_check_adds_owner(src0, local0, mon, last, tick, lt, owner);
            use_type_invariant(&*self);
        }
    }

    /// The nodes with evidence from at least `threshold` distinct sources, each once.
    pub fn suspected_nodes(&self) -> (r: Vec<NodeId>)
        ensures
            r@.no_duplicates(),
            forall|n: NodeId| r@.contains(n) <==> self.is_suspected(n),
            r@ == self.source_order().filter(suspected_by(self.sources(), self.threshold())),
            forall|n: NodeId| #[trigger] r@.contains(n) <==> self.sources().contains_key(n) && self.suspicion_count(n) >= (
            if self.threshold() >= 1 {
                self.threshold() as nat
            } else {
                1nat
            }),
    {
        proof {
            use_type_invariant(self);
            law_suspicion_needs_a_source(*self);
        }
        let ghost pred = suspected_by(self.sources(), self.threshold());
        let mut r: Vec<NodeId> = Vec::new();
        let m = self.suspicion_sources.len();
        let ghost keys = self.suspicion_sources.keys();
        proof {
            self.suspicion_sources.lemma_shape();
        }
        let mut i: usize = 0;
        while i < m
            invariant
                m == self.suspicion_sources.entries().len(),
                keys == self.suspicion_sources.keys(),
                keys.len() == m,
                keys.no_duplicates(),
                forall|k: int| 0 <= k < m ==> #[trigger] keys[k] == self.suspicion_sources.entries()[k].0,
                forall|x: NodeId| #[trigger] self.suspicion_sources.view().contains_key(x) <==> keys.contains(x),
                0 <= i <= m,
                r@.no_duplicates(),
                forall|x: NodeId| r@.contains(x) ==> exists|k: int| 0 <= k < i && #[trigger] keys[k] == x,
                forall|k: int| 0 <= k < i ==> (r@.contains(#[trigger] keys[k]) <==> self.is_suspected(keys[k])),
                pred == suspected_by(self.sources(), self.threshold()),
                r@ == keys.take(i as int).filter(pred),
            decreases m - i,
        {
            proof {
                keys.lemma_take_succ_push(i as int);
                keys.take(i as int).lemma_filter_push(keys[i as int], pred);
                assert(self.suspicion_sources.view().contains_key(keys[i as int]));
            }
            let node = self.suspicion_sources.key_at(i);
            let count = self.suspicion_sources.value_at(i).len();
            proof {
                assert(self.sources()[node] == self.suspicion_sources.view()[node]@);
            }
            if count as u64 >= self.suspicion_threshold as u64 {
                proof {
                    assert(!r@.contains(node)) by {
                        if r@.contains(node) {
                            let k = choose|k: int| 0 <= k < i && #[trigger] keys[k] == node;
                            assert(keys[i as int] == node);
                        }
                    }
                }
                let ghost before = r@;
                r.push(node);
                proof {
                    assert forall|k: int| 0 <= k < i implies (r@.contains(#[trigger] keys[k]) <==> before.contains(keys[k])) by {
                        assert(keys[k] != node);
                        if r@.contains(keys[k]) {
                            let j = choose|j: int| 0 <= j < r@.len() && r@[j] == keys[k];
                            assert(j < before.len());
                            assert(before[j] == keys[k]);
                        }
                        if before.contains(keys[k]) {
                            let j = choose|j: int| 0 <= j < before.len() && before[j] == keys[k];
                            assert(r@[j] == keys[k]);
                        }
                    }
                    assert(r@[before.len() as int] == node);
                    assert forall|x: NodeId| r@.contains(x) implies exists|k: int| 0 <= k < i + 1 && #[trigger] keys[k] == x by {
                        let j = choose|j: int| 0 <= j < r@.len() && r@[j] == x;
                        if j < before.len() {
                            assert(before[j] == x);
                            assert(before.contains(x));
                        } else {
                            assert(keys[i as int] == x);
                        }
                    }
                }
            }
            i = i + 1;
        }
        proof {
            assert(keys.take(m as int) =~= keys);
            assert forall|n: NodeId| r@.contains(n) <==> self.is_suspected(n) by {
                if self.is_suspected(n) {
                    assert(keys.contains(n));
                    let k = choose|k: int| 0 <= k < keys.len() && keys[k] == n;
                    assert(r@.contains(keys[k]));
                }
                if r@.contains(n) {
                    let k = choose|k: int| 0 <= k < i && #[trigger] keys[k] == n;
                    assert(self.is_suspected(keys[k]));
                }
            }
        }
        r
    }
}

impl FailureDetector for GossipDetector {
    type Level = ();

    /// Two detectors agree when every part of their state does.
    open spec fn agrees_with(&self, other: &Self) -> bool {
        &&& self.threshold() == other.threshold()
        &&& self.local_timeout() == other.local_timeout()
        &&& self.sources() == other.sources()
        &&& self.source_order() == other.source_order()
        &&& self.last_seen() == other.last_seen()
        &&& self.monitored() == other.monitored()
        &&& self.now() == other.now()
        &&& self.local_set() == other.local_set()
        &&& self.local_suspects() == other.local_suspects()
        &&& self.owner() == other.owner()
        &&& self.round() == other.round()
    }

    /// The heartbeat's tick becomes `from`'s last one, and every suspicion of
    /// `from`, local or gossiped, is dropped; nothing else changes.
    open spec fn heard(&self, post: &Self, from: NodeId, tick: Tick) -> bool {
        &&& post.last_seen() == self.last_seen().insert(from, tick)
        &&& post.sources() == self.sources().remove(from)
        &&& post.local_set() == self.local_set().remove(from)
        &&& post.local_suspects() == self.local_suspects().filter(other_than(from))
        &&& post.source_order() == self.source_order().filter(other_than(from))
        &&& post.threshold() == self.threshold()
        &&& post.local_timeout() == self.local_timeout()
        &&& post.monitored() == self.monitored()
        &&& post.now() == self.now()
        &&& post.owner() == self.owner()
        &&& post.round() == self.round()
    }

    /// The check moves the detector's tick and, from the first nonzero tick
    /// on, updates the local suspicions and the owner's sources.
    open spec fn ticked(&self, post: &Self, tick: Tick) -> bool {
        &&& post.now() == tick
        &&& post.last_seen() == self.last_seen()
        &&& post.threshold() == self.threshold()
        &&& post.local_timeout() == self.local_timeout()
        &&& post.monitored() == self.monitored()
        &&& post.owner() == self.owner()
        &&& post.round() == self.round()
        &&& tick == 0 ==> post.sources() == self.sources() && post.local_set() == self.local_set()
            && post.local_suspects() == self.local_suspects() && post.source_order() == self.source_order()
        &&& tick != 0 ==> (post.local_suspects(), post.source_order()) == check_orders(
            self.local_suspects(),
            self.source_order(),
            self.monitored(),
            self.last_seen(),
            tick,
            self.local_timeout(),
        )
        &&& tick != 0 ==> post.local_set() == local_after_check(
            self.local_set(),
            self.monitored(),
            self.last_seen(),
            tick,
            self.local_timeout(),
        )
        &&& tick != 0 ==> post.sources() == sources_after_check(
            self.sources(),
            self.local_set(),
            self.monitored(),
            self.last_seen(),
            tick,
            self.local_timeout(),
            self.owner(),
        )
    }

    /// The answer holds each suspected node once, and only those, in the
    /// order their evidence began.
    open spec fn reports(&self, list: Seq<NodeId>) -> bool {
        &&& list.no_duplicates()
        &&& forall|n: NodeId| list.contains(n) <==> self.is_suspected(n)
        &&& list == self.source_order().filter(suspected_by(self.sources(), self.threshold()))
    }

    /// It hands out its local suspicions, in the order they arose, with its
    /// round length and fanout.
    open spec fn offers(&self, offer: Option<GossipOffer>) -> bool {
        offer matches Some(o) && o.suspicions@ == self.local_suspects() && (o.interval, o.fanout) == self.round()
    }

    /// `source` is added, once, to the sources that suspect `suspected`;
    /// nothing else changes.
    open spec fn noted(&self, post: &Self, suspected: NodeId, source: NodeId) -> bool {
        &&& post.sources() == with_source(self.sources(), suspected, source)
        &&& post.source_order() == if self.sources().contains_key(suspected) {
            self.source_order()
        } else {
            self.source_order().push(suspected)
        }
        &&& post.threshold() == self.threshold()
        &&& post.local_timeout() == self.local_timeout()
        &&& post.last_seen() == self.last_seen()
        &&& post.monitored() == self.monitored()
        &&& post.now() == self.now()
        &&& post.local_set() == self.local_set()
        &&& post.local_suspects() == self.local_suspects()
        &&& post.owner() == self.owner()
        &&& post.round() == self.round()
    }

    fn on_heartbeat(&mut self, from: NodeId, tick: Tick) {
        GossipDetector::on_heartbeat(self, from, tick)
    }

    fn on_tick(&mut self, tick: Tick)
        ensures
            final(self).now() == tick,
            final(self).last_seen() == old(self).last_seen(),
            final(self).threshold() == old(self).threshold(),
            final(self).local_timeout() == old(self).local_timeout(),
            final(self).monitored() == old(self).monitored(),
            final(self).owner() == old(self).owner(),
            final(self).round() == old(self).round(),
            tick == 0 ==> final(self).sources() == old(self).sources()
                && final(self).local_set() == old(self).local_set(),
            tick != 0 ==> final(self).local_set() == local_after_check(
                old(self).local_set(),
                old(self).monitored(),
                old(self).last_seen(),
                tick,
                old(self).local_timeout(),
            ),
            tick != 0 ==> final(self).sources() == sources_after_check(
                old(self).sources(),
                old(self).local_set(),
                old(self).monitored(),
                old(self).last_seen(),
                tick,
                old(self).local_timeout(),
                old(self).owner(),
            ),
    {
        GossipDetector::on_tick(self, tick)
    }

    fn suspected_nodes(&self) -> (r: Vec<NodeId>)
        ensures
            r@.no_duplicates(),
            forall|n: NodeId| r@.contains(n) <==> self.is_suspected(n),
    {
        GossipDetector::suspected_nodes(self)
    }

    fn gossip_offer(&self) -> (r: Option<GossipOffer>) {
        Some(
            GossipOffer {
                suspicions: self.local_suspicions(),
                interval: self.gossip_interval,
                fanout: self.gossip_fanout,
            },
        )
    }

    fn on_remote_suspicion(&mut self, suspected: NodeId, source: NodeId) {
        GossipDetector::on_remote_suspicion(self, suspected, source)
    }
}

/// The gossip detector is a function of its state: from agreeing states,
/// every step leads to agreeing states, and what it reports and offers is the
/// same.
pub proof fn law_gossip_is_deterministic()
    ensures
        deterministic_detectors::<GossipDetector>(),
{
}

} // verus!
