use faultsim::random::Generator;

use faultsim::config::{ClusterConfig, DetectorStrategy, FaultConfig, FaultKind, SimulationConfig};
use faultsim::detector::fixed_timeout::FixedTimeoutDetector;
use faultsim::detector::gossip::GossipDetector;
use faultsim::engine::Engine;
use faultsim::event::{Event, EventKind};
use faultsim::network::{Network, NetworkConfig};
use faultsim::node::Node;
use faultsim::scenario::{build_engine, Scenario};

/// The baseline scenario: 10 nodes, heartbeats every 100 ticks, latency 10
/// with jitter 2, no drops, fixed timeout of 200, 10000 ticks, seed 42.
fn baseline() -> Scenario {
    Scenario {
        simulation: SimulationConfig { max_ticks: 10000, seed: 42 },
        cluster: ClusterConfig { node_count: 10, heartbeat_interval: 100 },
        network: NetworkConfig { base_latency: 10, jitter: 2, drop_chance: 0 },
        strategy: DetectorStrategy::FixedTimeout,
        gossip_interval: None,
        faults: Vec::new(),
        output: None,
    }
}

fn baseline_engine(config: &Scenario, seed: Option<u64>) -> Engine<FixedTimeoutDetector> {
    build_engine(config, seed, |_id, monitored| FixedTimeoutDetector::new(200, monitored))
}

#[test]
fn engine_respects_max_tick() {
    let mut engine = Engine::<FixedTimeoutDetector>::new(100);
    engine.queue.schedule(Event { tick: 50, kind: EventKind::HeartbeatSend { from: 1 } });
    engine.queue.schedule(Event { tick: 200, kind: EventKind::HeartbeatSend { from: 2 } });
    engine.run();
    assert_eq!(engine.clock.now(), 50);
}

#[test]
fn engine_runs_to_completion() {
    let mut engine = Engine::<FixedTimeoutDetector>::new(1000);
    engine.queue.schedule(Event { tick: 100, kind: EventKind::HeartbeatSend { from: 1 } });
    engine.queue.schedule(Event { tick: 500, kind: EventKind::NodeCrash { node: 2 } });
    engine.run();
    // Engine should have processed both events
    assert_eq!(engine.clock.now(), 500);
}

#[test]
fn baseline_simulation_no_false_positives() {
    let config = baseline();
    let mut engine = baseline_engine(&config, None);
    assert!(engine.can_run());
    engine.run();

    // Stable network with no crashes should produce messages but no detections.
    assert!(engine.metrics.message_count > 0, "should deliver messages");
    assert!(
        engine.metrics.detections.is_empty(),
        "stable network should have no detections, got {}",
        engine.metrics.detections.len()
    );
    assert_eq!(engine.metrics.crashes.len(), 0);
}

#[test]
fn baseline_delivers_nine_thousand_messages() {
    // 10 nodes × 9 peers × 100 heartbeat rounds.
    let config = baseline();
    let mut engine = baseline_engine(&config, None);
    engine.run();
    assert_eq!(engine.metrics.message_count, 9000);
}

#[test]
fn crash_detected_as_true_positive() {
    let config = baseline();
    let mut engine = baseline_engine(&config, None);

    // Inject a crash at tick 500 for node 1.
    engine.queue.schedule(Event { tick: 500, kind: EventKind::NodeCrash { node: 1 } });

    engine.run();

    // At least one detection should be a true positive for node 1.
    let tp_for_node1 = engine.metrics.detections.iter().any(|d| d.node == 1 && d.true_positive);
    assert!(tp_for_node1, "node 1 crash should be detected as true positive");
}

#[test]
fn crash_is_detected_once_by_each_peer_with_latency() {
    let mut config = baseline();
    config.faults.push(FaultConfig { tick: 2000, kind: FaultKind::Crash, node: Some(3), groups: None });
    let mut engine = baseline_engine(&config, None);
    engine.run();
    let tps: Vec<_> = engine.metrics.detections.iter().filter(|d| d.node == 3 && d.true_positive).collect();
    assert_eq!(tps.len(), 9);
    for d in &tps {
        assert_eq!(d.latency, Some(d.tick - 2000));
        assert!(d.tick > 2100 && d.tick <= 2400, "detected at {}", d.tick);
    }
    assert_eq!(engine.metrics.crashes, vec![(2000, 3)]);
    assert_eq!(engine.metrics.false_negative_count(), 0);
    // Node 3 stops sending from its crash on.
    assert!(engine.metrics.message_count < 9000);
}

#[test]
fn deterministic_replay() {
    let config = baseline();

    let mut engine1 = baseline_engine(&config, Some(123));
    engine1.run();

    let mut engine2 = baseline_engine(&config, Some(123));
    engine2.run();

    assert_eq!(engine1.metrics.message_count, engine2.metrics.message_count);
    assert_eq!(engine1.metrics.detections.len(), engine2.metrics.detections.len());
}

#[test]
fn partition_causes_false_positives_that_heal() {
    let mut config = baseline();
    config.faults.push(FaultConfig {
        tick: 2000,
        kind: FaultKind::PartitionStart,
        node: None,
        groups: Some(vec![vec![1, 2, 3, 4, 5], vec![6, 7, 8, 9, 10]]),
    });
    config.faults.push(FaultConfig { tick: 5000, kind: FaultKind::PartitionEnd, node: None, groups: None });
    let mut engine = baseline_engine(&config, None);
    engine.run();
    // Every node suspects the five across the split, once: 10 × 5 detections.
    assert_eq!(engine.metrics.detections.len(), 50);
    assert!(engine.metrics.detections.iter().all(|d| !d.true_positive));
    assert_eq!(engine.metrics.false_positive_count(), 50);
}

#[test]
fn recovery_resumes_heartbeats() {
    let mut config = baseline();
    config.faults.push(FaultConfig { tick: 2000, kind: FaultKind::Crash, node: Some(3), groups: None });
    config.faults.push(FaultConfig { tick: 4000, kind: FaultKind::Recover, node: Some(3), groups: None });
    let mut engine = baseline_engine(&config, None);
    engine.run();
    assert_eq!(engine.metrics.recoveries, vec![(4000, 3)]);
    let tps = engine.metrics.detections.iter().filter(|d| d.true_positive).count();
    assert_eq!(tps, 9);
    assert!(engine.metrics.message_count > 8700 && engine.metrics.message_count < 9000);
}

#[test]
fn gossip_scenario_detects_a_crash() {
    let mut config = baseline();
    config.strategy = DetectorStrategy::Gossip;
    config.gossip_interval = Some(50);
    config.faults.push(FaultConfig { tick: 2000, kind: FaultKind::Crash, node: Some(3), groups: None });
    let mut engine = build_engine(&config, None, |id, monitored| GossipDetector::new(3, 200, monitored, id, 50, 3));
    assert!(engine.can_run());
    engine.run();
    assert!(engine.metrics.detections.iter().any(|d| d.node == 3 && d.true_positive));
    assert!(engine.metrics.detections.iter().all(|d| d.true_positive));
}

#[test]
fn record_suspicions_reports_each_pair_once() {
    let nodes = vec![Node::with_config(1, 100, 100, vec![2, 3]), Node::with_config(2, 100, 100, vec![1, 3]), Node::with_config(3, 100, 100, vec![1, 2])];
    let detectors: Vec<(u64, FixedTimeoutDetector)> = Vec::new();
    let mut engine = Engine::with_simulation(1000, nodes, Network::new(NetworkConfig::default()), detectors, Generator::new(1));
    engine.queue.schedule(Event { tick: 40, kind: EventKind::NodeCrash { node: 3 } });
    engine.queue.schedule(Event { tick: 100, kind: EventKind::PartitionEnd });
    engine.run();
    engine.record_suspicions(1, &vec![3, 2, 3]);
    engine.record_suspicions(1, &vec![3]);
    let ds = &engine.metrics.detections;
    assert_eq!(ds.len(), 2);
    assert_eq!((ds[0].node, ds[0].true_positive, ds[0].latency), (3, true, Some(60)));
    assert_eq!((ds[1].node, ds[1].true_positive, ds[1].latency), (2, false, None));
}

#[test]
fn can_run_refuses_past_events() {
    let mut engine = Engine::<FixedTimeoutDetector>::new(100);
    engine.queue.schedule(Event { tick: 30, kind: EventKind::PartitionEnd });
    engine.run();
    engine.queue.schedule(Event { tick: 10, kind: EventKind::PartitionEnd });
    assert!(!engine.can_run());
    let horizon = Engine::<FixedTimeoutDetector>::new(u64::MAX);
    assert!(!horizon.can_run());
}

#[test]
fn gossip_targets_are_drawn_among_all_peers() {
    let mut seen = std::collections::BTreeSet::new();
    for seed in 0..20u64 {
        let nodes: Vec<Node> = (1..=6u64)
            .map(|id| Node::with_config(id, 100, 100, (1..=6u64).filter(|&p| p != id).collect()))
            .collect();
        let detectors = vec![(1u64, GossipDetector::new(1, 0, vec![2, 3, 4, 5, 6], 1, 10, 2))];
        let mut engine = Engine::with_simulation(
            6,
            nodes,
            Network::new(NetworkConfig { base_latency: 3, jitter: 0, drop_chance: 0 }),
            detectors,
            Generator::new(seed),
        );
        engine.queue.schedule(Event { tick: 5, kind: EventKind::DetectorTick { node: 1 } });
        engine.queue.schedule(Event { tick: 6, kind: EventKind::GossipRound { from: 1 } });
        engine.run();
        assert_eq!(engine.metrics.message_count, 2);
        while let Some(e) = engine.queue.pop() {
            if let EventKind::GossipArrival { to, suspected, .. } = e.kind {
                assert_eq!(suspected, vec![2, 3, 4, 5, 6]);
                seen.insert(to);
            }
        }
    }
    assert!(seen.iter().any(|&t| t > 3), "targets seen: {:?}", seen);
}

#[test]
fn crashed_node_sends_and_detects_nothing() {
    let nodes = vec![Node::with_config(0, 100, 10, vec![1]), Node::with_config(1, 100, 10, vec![0])];
    let detectors = vec![(0, FixedTimeoutDetector::new(200, vec![1])), (1, FixedTimeoutDetector::new(200, vec![0]))];
    let mut engine = Engine::with_simulation(1000, nodes, Network::new(NetworkConfig::default()), detectors, Generator::new(7));
    engine.queue.schedule(Event { tick: 0, kind: EventKind::NodeCrash { node: 1 } });
    engine.queue.schedule(Event { tick: 1, kind: EventKind::HeartbeatSend { from: 0 } });
    engine.queue.schedule(Event { tick: 1, kind: EventKind::HeartbeatSend { from: 1 } });
    engine.queue.schedule(Event { tick: 1, kind: EventKind::DetectorTick { node: 0 } });
    engine.queue.schedule(Event { tick: 1, kind: EventKind::DetectorTick { node: 1 } });
    assert!(engine.can_run());
    engine.run();
    // Node 0 sends at ticks 1, 101, ..., 901; node 1 never sends.
    assert_eq!(engine.metrics.message_count, 10);
    // Only node 0 detects, once, that node 1 is down.
    assert_eq!(engine.metrics.detections.len(), 1);
    assert_eq!(engine.metrics.detections[0].node, 1);
    assert!(engine.metrics.detections[0].true_positive);
}

#[test]
fn recovery_lets_a_node_be_detected_again() {
    let nodes = vec![Node::with_config(0, 100, 10, vec![1]), Node::with_config(1, 100, 10, vec![0])];
    let detectors = vec![(0, FixedTimeoutDetector::new(200, vec![1])), (1, FixedTimeoutDetector::new(200, vec![0]))];
    let mut engine = Engine::with_simulation(3000, nodes, Network::new(NetworkConfig::default()), detectors, Generator::new(7));
    engine.queue.schedule(Event { tick: 1, kind: EventKind::HeartbeatSend { from: 0 } });
    engine.queue.schedule(Event { tick: 1, kind: EventKind::HeartbeatSend { from: 1 } });
    engine.queue.schedule(Event { tick: 1, kind: EventKind::DetectorTick { node: 0 } });
    engine.queue.schedule(Event { tick: 1, kind: EventKind::DetectorTick { node: 1 } });
    engine.queue.schedule(Event { tick: 500, kind: EventKind::NodeCrash { node: 1 } });
    engine.queue.schedule(Event { tick: 1000, kind: EventKind::NodeRecover { node: 1 } });
    engine.queue.schedule(Event { tick: 2000, kind: EventKind::NodeCrash { node: 1 } });
    engine.run();
    let of_one: Vec<_> = engine.metrics.detections.iter().filter(|d| d.node == 1 && d.true_positive).collect();
    // One detection per crash: the recovery forgot the first one.
    assert_eq!(of_one.len(), 2);
    assert!(of_one[0].tick > 500 && of_one[0].tick < 1000);
    assert!(of_one[1].tick > 2000);
}

#[test]
fn seed_override_replaces_the_scenario_seed() {
    let mut config = baseline();
    config.simulation.seed = 123;
    let from_config = baseline_engine(&config, None);
    let overridden = baseline_engine(&baseline(), Some(123));
    let other = baseline_engine(&config, Some(124));
    let ticks = |e: &Engine<FixedTimeoutDetector>| (0..e.queue.len()).map(|i| e.queue.get(i).tick).collect::<Vec<_>>();
    assert_eq!(ticks(&from_config), ticks(&overridden));
    assert_ne!(ticks(&from_config), ticks(&other));
}

#[test]
fn long_sparse_runs_are_accepted() {
    let mut config = baseline();
    config.simulation.max_ticks = 1 << 62;
    config.cluster.node_count = 3;
    config.cluster.heartbeat_interval = 1 << 50;
    let mut engine = build_engine(&config, None, |_id, monitored| FixedTimeoutDetector::new(1 << 51, monitored));
    assert!(engine.can_run());
    engine.run();
    // Each node sends to its two peers about 4096 times.
    assert!(engine.metrics.message_count > 3 * 2 * 4000);
    assert!(engine.metrics.message_count <= 3 * 2 * 4096);
    assert!(engine.metrics.detections.is_empty());
}

#[test]
fn detector_settings_fall_back_to_defaults() {
    let mut fixed = faultsim::scenario::fixed_timeout_detector(None, vec![2]);
    fixed.on_heartbeat(2, 0);
    fixed.on_tick(200);
    assert!(fixed.suspected_nodes().is_empty());
    fixed.on_tick(201);
    assert_eq!(fixed.suspected_nodes(), vec![2]);

    let gossip = faultsim::scenario::gossip_detector(None, None, None, None, 1, vec![2, 3]);
    let offer = faultsim::detector::FailureDetector::gossip_offer(&gossip).unwrap();
    assert_eq!((offer.interval, offer.fanout), (50, 3));

    let custom = faultsim::scenario::gossip_detector(Some(1), Some(10), Some(7), Some(2), 1, vec![2]);
    let offer = faultsim::detector::FailureDetector::gossip_offer(&custom).unwrap();
    assert_eq!((offer.interval, offer.fanout), (7, 2));
}
