//! Wiring a scenario into a runnable engine.
use vstd::prelude::*;

use crate::clock::Tick;
use crate::config::{ClusterConfig, DetectorStrategy, FaultConfig, FaultKind, OutputConfig, SimulationConfig};
use crate::detector::fixed_timeout::FixedTimeoutDetector;
use crate::detector::gossip::GossipDetector;
use crate::detector::FailureDetector;
use crate::engine::Engine;
use crate::event::{Event, EventKind};
use crate::network::{Network, NetworkConfig};
use crate::node::{Node, NodeId, NodeState};
use crate::random::{value_drawn, Draw, Generator};

verus! {

/// A scenario as the engine builder reads it.
#[derive(Debug, Clone)]
pub struct Scenario {
    pub simulation: SimulationConfig,
    pub cluster: ClusterConfig,
    pub network: NetworkConfig,
    /// Which detection strategy every node runs.
    pub strategy: DetectorStrategy,
    /// Ticks between gossip rounds (gossip strategy; 50 when absent).
    pub gossip_interval: Option<u64>,
    /// Fault injection schedule.
    pub faults: Vec<FaultConfig>,
    /// Output/export options.
    pub output: Option<OutputConfig>,
}

/// The ids of a cluster of `n` nodes: 1 to `n`.
pub open spec fn node_ids(n: u32) -> Seq<NodeId> {
    Seq::new(n as nat, |i: int| (i + 1) as NodeId)
}

/// The test "is not `id`".
pub open spec fn is_other(id: NodeId) -> spec_fn(NodeId) -> bool {
    |x: NodeId| x != id
}

/// The ids of the cluster other than `id`, in order.
pub open spec fn others(n: u32, id: NodeId) -> Seq<NodeId> {
    node_ids(n).filter(is_other(id))
}

/// The round length of a gossip scenario.
pub open spec fn round_length(s: Scenario) -> u64 {
    match s.gossip_interval {
        Some(g) => g,
        None => 50,
    }
}

/// Whether a fault names what its kind needs: a node to crash or recover, groups to partition.
pub open spec fn fault_complete(f: FaultConfig) -> bool {
    match f.kind {
        FaultKind::Crash => f.node is Some,
        FaultKind::Recover => f.node is Some,
        FaultKind::PartitionStart => f.groups is Some,
        FaultKind::PartitionEnd => true,
    }
}

/// Whether `e` is the event that fault `f` injects.
pub open spec fn injects(e: Event, f: FaultConfig) -> bool {
    &&& e.tick == f.tick
    &&& match f.kind {
        FaultKind::Crash => e.kind == (EventKind::NodeCrash { node: f.node->0 }),
        FaultKind::Recover => e.kind == (EventKind::NodeRecover { node: f.node->0 }),
        FaultKind::PartitionStart => e.kind matches EventKind::PartitionStart { groups } && groups@.map_values(
            |g: Vec<NodeId>| g@,
        ) == f.groups->0@.map_values(|g: Vec<NodeId>| g@),
        FaultKind::PartitionEnd => e.kind == EventKind::PartitionEnd,
    }
}

/// Whether the scenario leaves room in a tick for every delay added to a tick
/// up to the horizon.
pub open spec fn horizon_fits(s: Scenario) -> bool {
    &&& s.simulation.max_ticks < u64::MAX
    &&& s.simulation.max_ticks + s.cluster.heartbeat_interval <= u64::MAX
    &&& s.simulation.max_ticks + s.network.base_latency + s.network.jitter <= u64::MAX
}

/// The ids 1..=n other than `id`, in order.
fn other_ids(n: u32, id: NodeId) -> (r: Vec<NodeId>)
    ensures
        r@ == others(n, id),
{
    let ghost ids = node_ids(n);
    let ghost keep = is_other(id);
    let mut r: Vec<NodeId> = Vec::new();
    let mut k: u64 = 0;
    while k < n as u64
        invariant
            k <= n,
            ids == node_ids(n),
            keep == is_other(id),
            r@ == ids.take(k as int).filter(keep),
        decreases n - k,
    {
        let x = k + 1;
        proof {
            assert(ids[k as int] == x);
            ids.lemma_take_succ_push(k as int);
            ids.take(k as int).lemma_filter_push(x, keep);
        }
        if x != id {
            r.push(x);
        }
        k = k + 1;
    }
    proof {
        assert(ids.take(n as int) =~= ids);
    }
    r
}

/// A copy of partition groups.
fn copy_groups(groups: &Vec<Vec<NodeId>>) -> (r: Vec<Vec<NodeId>>)
    ensures
        r@.map_values(|g: Vec<NodeId>| g@) == groups@.map_values(|g: Vec<NodeId>| g@),
{
    let mut r: Vec<Vec<NodeId>> = Vec::new();
    let mut i: usize = 0;
    while i < groups.len()
        invariant
            0 <= i <= groups@.len(),
            r@.len() == i,
            forall|j: int| 0 <= j < i ==> (#[trigger] r@[j])@ == groups@[j]@,
        decreases groups@.len() - i,
    {
        r.push(crate::node_map::copy_ids(&groups[i]));
        i = i + 1;
    }
    assert(r@.map_values(|g: Vec<NodeId>| g@) =~= groups@.map_values(|g: Vec<NodeId>| g@));
    r
}

/// The event that a complete fault injects.
fn fault_event(f: &FaultConfig) -> (e: Event)
    requires
        fault_complete(*f),
    ensures
        injects(e, *f),
{
    let kind = match f.kind {
        FaultKind::Crash => EventKind::NodeCrash { node: f.node.unwrap() },
        FaultKind::Recover => EventKind::NodeRecover { node: f.node.unwrap() },
        FaultKind::PartitionStart => {
            let groups = match &f.groups {
                Some(g) => copy_groups(g),
                None => Vec::new(),
            };
            EventKind::PartitionStart { groups }
        },
        FaultKind::PartitionEnd => EventKind::PartitionEnd,
    };
    Event { tick: f.tick, kind }
}

/// The fixed-timeout detector that a scenario's detector settings ask for:
/// `timeout` ticks, 200 when the settings leave it out.
pub fn fixed_timeout_detector(timeout: Option<u64>, monitored: Vec<NodeId>) -> (d: FixedTimeoutDetector)
    ensures
        d.timeout() == (match timeout {
            Some(t) => t,
            None => 200,
        }),
        d.monitored() == monitored@,
        d.last_seen() == Map::<NodeId, Tick>::empty(),
        d.now() == 0,
{
    let t = match timeout {
        Some(t) => t,
        None => 200,
    };
    FixedTimeoutDetector::new(t, monitored)
}

/// The gossip detector that a scenario's detector settings ask for, for
/// node `owner`: a threshold of 3 sources, a local timeout of 200 ticks,
/// rounds every 50 ticks and a fanout of 3, where the settings leave them out.
pub fn gossip_detector(
    threshold: Option<u32>,
    timeout: Option<u64>,
    interval: Option<u64>,
    fanout: Option<u32>,
    owner: NodeId,
    monitored: Vec<NodeId>,
) -> (d: GossipDetector)
    ensures
        d.threshold() == (match threshold {
            Some(t) => t,
            None => 3,
        }),
        d.local_timeout() == (match timeout {
            Some(t) => t,
            None => 200,
        }),
        d.round() == (
            match interval {
                Some(i) => i,
                None => 50,
            },
            match fanout {
                Some(f) => f,
                None => 3,
            },
        ),
        d.owner() == owner,
        d.monitored() == monitored@,
        d.sources() == Map::<NodeId, Seq<NodeId>>::empty(),
        d.last_seen() == Map::<NodeId, Tick>::empty(),
        d.local_set() == Set::<NodeId>::empty(),
        d.now() == 0,
{
    let th = match threshold {
        Some(t) => t,
        None => 3,
    };
    let lt = match timeout {
        Some(t) => t,
        None => 200,
    };
    let gi = match interval {
        Some(i) => i,
        None => 50,
    };
    let fo = match fanout {
        Some(f) => f,
        None => 3,
    };
    GossipDetector::new(th, lt, monitored, owner, gi, fo)
}

/// The seed a build uses: the override when given, else the scenario's.
pub open spec fn seed_of(config: Scenario, seed_override: Option<u64>) -> u64 {
    match seed_override {
        Some(s) => s,
        None => config.simulation.seed,
    }
}

/// `count` draws of a value in `low..=high`.
pub open spec fn draws_between(count: nat, low: u64, high: u64) -> Seq<Draw> {
    Seq::new(count, |_i: int| Draw::Between { low, high })
}

/// The number of gossip chains a build of `config` starts: one per node for
/// the gossip strategy, none otherwise.
pub open spec fn gossip_chains(config: Scenario) -> int {
    if config.strategy == DetectorStrategy::Gossip {
        config.cluster.node_count as int
    } else {
        0
    }
}

/// The schedule that a build of `config` with `seed` starts from: per node,
/// its first heartbeat and detector tick at drawn ticks; per node, for
/// gossip, its first round at a drawn tick; then the faults, in order.
pub open spec fn schedule_of(ev: Seq<Event>, config: Scenario, seed: u64) -> bool {
    let n = config.cluster.node_count;
    let hb = config.cluster.heartbeat_interval;
    let round = round_length(config);
    let g = gossip_chains(config);
    &&& ev.len() == 2 * n + g + config.faults@.len()
    &&& forall|i: int| 0 <= i < n ==> {
        &&& (#[trigger] ev[2 * i]).kind == (EventKind::HeartbeatSend { from: (i + 1) as NodeId })
        &&& ev[2 * i].tick == value_drawn(seed, draws_between((2 * i) as nat, 1, hb), 1, hb)
        &&& ev[2 * i + 1].kind == (EventKind::DetectorTick { node: (i + 1) as NodeId })
        &&& ev[2 * i + 1].tick == hb + value_drawn(seed, draws_between((2 * i + 1) as nat, 1, hb), 1, hb)
    }
    &&& forall|i: int| 0 <= i < g ==> {
        &&& (#[trigger] ev[2 * n + i]).kind == (EventKind::GossipRound { from: (i + 1) as NodeId })
        &&& ev[2 * n + i].tick == hb + value_drawn(
            seed,
            draws_between((2 * n) as nat, 1, hb) + draws_between(i as nat, 1, round),
            1,
            round,
        )
    }
    &&& forall|j: int| 0 <= j < config.faults@.len() ==> injects(#[trigger] ev[2 * n + g + j], config.faults@[j])
}

/// Two events alike but for partition groups, which agree in their views.
pub open spec fn same_up_to_views(a: Event, b: Event) -> bool {
    &&& a.tick == b.tick
    &&& match (a.kind, b.kind) {
        (EventKind::PartitionStart { groups: ga }, EventKind::PartitionStart { groups: gb }) => ga@.map_values(
            |g: Vec<NodeId>| g@,
        ) == gb@.map_values(|g: Vec<NodeId>| g@),
        _ => a.kind == b.kind,
    }
}

/// A build is reproducible: two builds of the same scenario with the same
/// seed start from the same schedule (partition groups alike in their views).
pub proof fn law_schedule_is_reproducible(a: Seq<Event>, b: Seq<Event>, config: Scenario, seed: u64)
    requires
        schedule_of(a, config, seed),
        schedule_of(b, config, seed),
    ensures
        a.len() == b.len(),
        forall|j: int| 0 <= j < a.len() ==> same_up_to_views(#[trigger] a[j], b[j]),
{
    let n = config.cluster.node_count;
    let g = gossip_chains(config);
    assert forall|j: int| 0 <= j < a.len() implies same_up_to_views(#[trigger] a[j], b[j]) by {
        if j < 2 * n {
            let i = j / 2;
            assert(j == 2 * i || j == 2 * i + 1);
            assert(a[2 * i] == b[2 * i] || true);
            if j == 2 * i {
                assert(a[2 * i].kind == b[2 * i].kind);
            } else {
                assert(a[2 * i + 1].kind == b[2 * i + 1].kind);
            }
        } else if j < 2 * n + g {
            assert(a[2 * n + (j - 2 * n)].kind == b[2 * n + (j - 2 * n)].kind);
        } else {
            let q = j - 2 * n - g;
            assert(injects(a[2 * n + g + q], config.faults@[q]));
            assert(injects(b[2 * n + g + q], config.faults@[q]));
        }
    }
}

/// Builds a fully wired engine for the scenario: nodes 1..=n, each with all
/// others as peers and a detector from `make_detector` monitoring them; a
/// generator seeded with `seed_override` or the scenario's seed, with no
/// draws made; each node's first heartbeat at a tick drawn in 1..=interval and
/// first detector tick one interval later than a tick drawn in 1..=interval;
/// for gossip, each node's first round at one heartbeat interval plus a tick
/// drawn in 1..=round length; then the faults, in order. The start ticks are
/// drawn, in that order, from a second generator with the same seed, so the
/// whole schedule is fixed by the scenario and the seed.
pub fn build_engine<D: FailureDetector, F: Fn(NodeId, Vec<NodeId>) -> D>(
    config: &Scenario,
    seed_override: Option<u64>,
    make_detector: F,
) -> (e: Engine<D>)
    requires
        config.cluster.heartbeat_interval >= 1,
        config.cluster.heartbeat_interval + config.cluster.heartbeat_interval <= u64::MAX,
        config.strategy == DetectorStrategy::Gossip ==> round_length(*config) >= 1
            && config.cluster.heartbeat_interval + round_length(*config) <= u64::MAX,
        forall|j: int| 0 <= j < config.faults@.len() ==> fault_complete(#[trigger] config.faults@[j]),
        forall|id: NodeId, mon: Vec<NodeId>| make_detector.requires((id, mon)),
    ensures
        horizon_fits(*config) ==> e.wf(),
        e.current() == 0,
        e.max_tick() == config.simulation.max_ticks,
        e.has_rng(),
        e.rng_state() == Some((seed_of(*config, seed_override), Seq::<Draw>::empty())),
        schedule_of(e.events(), *config, seed_of(*config, seed_override)),
        e.network() matches Some(net) && net.settings() == config.network && net.blocked() == Set::<(NodeId, NodeId)>::empty(),
        e.active() == Set::<(NodeId, NodeId)>::empty(),
        e.stats().message_count == 0,
        e.stats().detections@.len() == 0,
        e.stats().crashes@.len() == 0,
        e.stats().recoveries@.len() == 0,
        e.stats().phi_log@.len() == 0,
        e.logging() == (config.output matches Some(o) && o.phi_log == Some(true)),
        ({
            let n = config.cluster.node_count;
            let hb = config.cluster.heartbeat_interval;
            let ev = e.events();
            let g = gossip_chains(*config);
            &&& e.nodes().len() == n
            &&& forall|i: int| 0 <= i < n ==> {
                let nd = #[trigger] e.nodes()[i];
                &&& nd.id == i + 1
                &&& nd.state == NodeState::Alive
                &&& nd.heartbeat_interval == hb
                &&& nd.detector_interval == hb
                &&& nd.peers@ == others(n, (i + 1) as NodeId)
            }
            &&& e.detectors().len() == n
            &&& forall|i: int| 0 <= i < n ==> (#[trigger] e.detectors()[i]).0 == i + 1 && exists|mon: Vec<NodeId>|
                mon@ == others(n, (i + 1) as NodeId) && make_detector.ensures(((i + 1) as NodeId, mon), e.detectors()[i].1)
            &&& ev.len() == 2 * n + g + config.faults@.len()
            &&& forall|i: int| 0 <= i < n ==> {
                &&& (#[trigger] ev[2 * i]).kind == (EventKind::HeartbeatSend { from: (i + 1) as NodeId })
                &&& 1 <= ev[2 * i].tick <= hb
                &&& ev[2 * i + 1].kind == (EventKind::DetectorTick { node: (i + 1) as NodeId })
                &&& hb + 1 <= ev[2 * i + 1].tick <= hb + hb
                &&& ev[2 * i].tick == value_drawn(seed_of(*config, seed_override), draws_between((2 * i) as nat, 1, hb), 1, hb)
                &&& ev[2 * i + 1].tick == hb + value_drawn(seed_of(*config, seed_override), draws_between((2 * i + 1) as nat, 1, hb), 1, hb)
            }
            &&& forall|i: int| 0 <= i < g ==> {
                &&& (#[trigger] ev[2 * n + i]).kind == (EventKind::GossipRound { from: (i + 1) as NodeId })
                &&& hb + 1 <= ev[2 * n + i].tick <= hb + round_length(*config)
                &&& ev[2 * n + i].tick == hb + value_drawn(
                    seed_of(*config, seed_override),
                    draws_between((2 * n) as nat, 1, hb) + draws_between(i as nat, 1, round_length(*config)),
                    1,
                    round_length(*config),
                )
            }
            &&& forall|j: int| 0 <= j < config.faults@.len() ==> injects(#[trigger] ev[2 * n + g + j], config.faults@[j])
        }),
{
    let seed = match seed_override {
        Some(s) => s,
        None => config.simulation.seed,
    };
    let mut rng = Generator::new(seed);
    let network = Network::new(config.network);
    let n = config.cluster.node_count;
    let hb = config.cluster.heartbeat_interval;
    let ghost ids = node_ids(n);

    let mut nodes: Vec<Node> = Vec::new();
    let mut detectors: Vec<(NodeId, D)> = Vec::new();
    let mut k: u64 = 0;
    while k < n as u64
        invariant
            k <= n,
            n == config.cluster.node_count,
            hb == config.cluster.heartbeat_interval,
            forall|id: NodeId, mon: Vec<NodeId>| make_detector.requires((id, mon)),
            nodes@.len() == k,
            detectors@.len() == k,
            forall|i: int| 0 <= i < k ==> {
                let nd = #[trigger] nodes@[i];
                &&& nd.id == i + 1
                &&& nd.state == NodeState::Alive
                &&& nd.heartbeat_interval == hb
                &&& nd.detector_interval == hb
                &&& nd.peers@ == others(n, (i + 1) as NodeId)
            },
            forall|i: int| 0 <= i < k ==> (#[trigger] detectors@[i]).0 == i + 1 && exists|mon: Vec<NodeId>|
                mon@ == others(n, (i + 1) as NodeId) && make_detector.ensures(((i + 1) as NodeId, mon), detectors@[i].1),
        decreases n - k,
    {
        let id = k + 1;
        let peers = other_ids(n, id);
        nodes.push(Node::with_config(id, hb, hb, peers));
        let monitored = other_ids(n, id);
        let ghost mon_view = monitored;
        let det = make_detector(id, monitored);
        detectors.push((id, det));
        proof {
            assert(detectors@[k as int].1 == det);
            assert(mon_view@ == others(n, id));
        }
        k = k + 1;
    }

    let engine_rng = rng.duplicate();
    let mut engine = Engine::with_simulation(config.simulation.max_ticks, nodes, network, detectors, engine_rng);
    let ghost fixed = engine.events();

    let mut k: u64 = 0;
    while k < n as u64
        invariant
            k <= n,
            n == config.cluster.node_count,
            hb == config.cluster.heartbeat_interval,
            hb >= 1,
            hb + hb <= u64::MAX,
            engine.events().len() == 2 * k,
            seed == seed_of(*config, seed_override),
            rng.seed() == seed,
            rng.history() == draws_between((2 * k) as nat, 1, hb),
            engine.rng_state() == Some((seed, Seq::<Draw>::empty())),
            forall|i: int| 0 <= i < k ==> {
                &&& (#[trigger] engine.events()[2 * i]).kind == (EventKind::HeartbeatSend { from: (i + 1) as NodeId })
                &&& 1 <= engine.events()[2 * i].tick <= hb
                &&& engine.events()[2 * i + 1].kind == (EventKind::DetectorTick { node: (i + 1) as NodeId })
                &&& hb + 1 <= engine.events()[2 * i + 1].tick <= hb + hb
                &&& engine.events()[2 * i].tick == value_drawn(seed, draws_between((2 * i) as nat, 1, hb), 1, hb)
                &&& engine.events()[2 * i + 1].tick == hb + value_drawn(seed, draws_between((2 * i + 1) as nat, 1, hb), 1, hb)
            },
            engine.nodes() == nodes@,
            engine.detectors() == detectors@,
            engine.current() == 0,
            engine.max_tick() == config.simulation.max_ticks,
            engine.has_rng(),
            engine.network() == Some(network),
            engine.active() == Set::<(NodeId, NodeId)>::empty(),
            engine.stats().message_count == 0,
            engine.stats().detections@.len() == 0,
            engine.stats().crashes@.len() == 0,
            engine.stats().recoveries@.len() == 0,
            engine.stats().phi_log@.len() == 0,
            !engine.logging(),
        decreases n - k,
    {
        let id = k + 1;
        let hb_offset = rng.between(1, hb);
        engine.schedule(Event { tick: hb_offset, kind: EventKind::HeartbeatSend { from: id } });
        proof {
            assert(rng.history() =~= draws_between((2 * k + 1) as nat, 1, hb));
        }
        let dt_offset = hb + rng.between(1, hb);
        engine.schedule(Event { tick: dt_offset, kind: EventKind::DetectorTick { node: id } });
        proof {
            assert(rng.history() =~= draws_between((2 * k + 2) as nat, 1, hb));
        }
        k = k + 1;
    }
    let ghost after_nodes = engine.events();
    proof {
        assert(rng.history() =~= draws_between((2 * n) as nat, 1, hb) + draws_between(0, 1, 1));
    }
    let is_gossip = match config.strategy {
        DetectorStrategy::Gossip => true,
        _ => false,
    };
    if is_gossip {
        let round = match config.gossip_interval {
            Some(g) => g,
            None => 50,
        };
        let mut k: u64 = 0;
        while k < n as u64
            invariant
                k <= n,
                n == config.cluster.node_count,
                hb == config.cluster.heartbeat_interval,
                round == round_length(*config),
                round >= 1,
                hb + round <= u64::MAX,
                engine.events().len() == 2 * n + k,
                engine.events().subrange(0, 2 * n as int) == after_nodes,
                rng.seed() == seed,
                rng.history() == draws_between((2 * n) as nat, 1, hb) + draws_between(k as nat, 1, round),
                engine.rng_state() == Some((seed, Seq::<Draw>::empty())),
                forall|i: int| 0 <= i < k ==> {
                    &&& (#[trigger] engine.events()[2 * n + i]).kind == (EventKind::GossipRound { from: (i + 1) as NodeId })
                    &&& hb + 1 <= engine.events()[2 * n + i].tick <= hb + round
                    &&& engine.events()[2 * n + i].tick == hb + value_drawn(
                        seed,
                        draws_between((2 * n) as nat, 1, hb) + draws_between(i as nat, 1, round),
                        1,
                        round,
                    )
                },
                engine.nodes() == nodes@,
                engine.detectors() == detectors@,
                engine.current() == 0,
                engine.max_tick() == config.simulation.max_ticks,
                engine.has_rng(),
                engine.network() == Some(network),
                engine.active() == Set::<(NodeId, NodeId)>::empty(),
                engine.stats().message_count == 0,
                engine.stats().detections@.len() == 0,
                engine.stats().crashes@.len() == 0,
                engine.stats().recoveries@.len() == 0,
                engine.stats().phi_log@.len() == 0,
                !engine.logging(),
            decreases n - k,
        {
            let id = k + 1;
            let offset = hb + rng.between(1, round);
            let ghost before = engine.events();
            engine.schedule(Event { tick: offset, kind: EventKind::GossipRound { from: id } });
            proof {
                assert(engine.events().subrange(0, 2 * n as int) =~= before.subrange(0, 2 * n as int));
                assert(rng.history() =~= draws_between((2 * n) as nat, 1, hb) + draws_between((k + 1) as nat, 1, round));
            }
            k = k + 1;
        }
    }
    let ghost g: int = if is_gossip { n as int } else { 0 };
    let ghost after_rounds = engine.events();
    proof {
        assert(after_rounds.len() == 2 * n + g);
    }
    let mut j: usize = 0;
    while j < config.faults.len()
        invariant
            0 <= j <= config.faults@.len(),
            0 <= g <= n,
            forall|q: int| 0 <= q < config.faults@.len() ==> fault_complete(#[trigger] config.faults@[q]),
            engine.events().len() == 2 * n + g + j,
            engine.events().subrange(0, 2 * n + g) == after_rounds,
            forall|q: int| 0 <= q < j ==> injects(#[trigger] engine.events()[2 * n + g + q], config.faults@[q]),
            engine.rng_state() == Some((seed, Seq::<Draw>::empty())),
            engine.nodes() == nodes@,
            engine.detectors() == detectors@,
            engine.current() == 0,
            engine.max_tick() == config.simulation.max_ticks,
            engine.has_rng(),
            engine.network() == Some(network),
            engine.active() == Set::<(NodeId, NodeId)>::empty(),
            engine.stats().message_count == 0,
            engine.stats().detections@.len() == 0,
            engine.stats().crashes@.len() == 0,
            engine.stats().recoveries@.len() == 0,
            engine.stats().phi_log@.len() == 0,
            !engine.logging(),
        decreases config.faults@.len() - j,
    {
        let ev = fault_event(&config.faults[j]);
        let ghost before = engine.events();
        engine.schedule(ev);
        proof {
            assert(engine.events().subrange(0, 2 * n + g) =~= before.subrange(0, 2 * n + g));
            assert forall|q: int| 0 <= q < j + 1 implies injects(#[trigger] engine.events()[2 * n + g + q], config.faults@[q]) by {
                if q < j {
                    assert(engine.events()[2 * n + g + q] == before[2 * n + g + q]);
                }
            }
        }
        j = j + 1;
    }
    let log_phi = match &config.output {
        Some(o) => match o.phi_log {
            Some(b) => b,
            None => false,
        },
        None => false,
    };
    engine.set_phi_log(log_phi);
    proof {
        let ev = engine.events();
        assert forall|i: int| 0 <= i < n implies {
            &&& (#[trigger] ev[2 * i]).kind == (EventKind::HeartbeatSend { from: (i + 1) as NodeId })
            &&& 1 <= ev[2 * i].tick <= hb
            &&& ev[2 * i + 1].kind == (EventKind::DetectorTick { node: (i + 1) as NodeId })
            &&& hb + 1 <= ev[2 * i + 1].tick <= hb + hb
            &&& ev[2 * i].tick == value_drawn(seed_of(*config, seed_override), draws_between((2 * i) as nat, 1, hb), 1, hb)
            &&& ev[2 * i + 1].tick == hb + value_drawn(seed_of(*config, seed_override), draws_between((2 * i + 1) as nat, 1, hb), 1, hb)
        } by {
            assert(ev[2 * i] == after_rounds[2 * i]);
            assert(ev[2 * i + 1] == after_rounds[2 * i + 1]);
            assert(after_rounds[2 * i] == after_nodes[2 * i]);
            assert(after_rounds[2 * i + 1] == after_nodes[2 * i + 1]);
        }
        assert forall|i: int| 0 <= i < g implies {
            &&& (#[trigger] ev[2 * n + i]).kind == (EventKind::GossipRound { from: (i + 1) as NodeId })
            &&& hb + 1 <= ev[2 * n + i].tick <= hb + round_length(*config)
            &&& ev[2 * n + i].tick == hb + value_drawn(
                seed_of(*config, seed_override),
                draws_between((2 * n) as nat, 1, hb) + draws_between(i as nat, 1, round_length(*config)),
                1,
                round_length(*config),
            )
        } by {
            assert(ev[2 * n + i] == after_rounds[2 * n + i]);
        }
        if horizon_fits(*config) {
            assert(crate::engine::ids_distinct(nodes@));
        }
    }
    engine
}

} // verus!
