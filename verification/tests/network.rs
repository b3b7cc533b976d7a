use faultsim::random::Generator;

use faultsim::network::{Network, NetworkConfig, DROP_SCALE};

#[test]
fn no_drop_delivers_within_bounds() {
    let net = Network::new(NetworkConfig { base_latency: 10, jitter: 5, drop_chance: 0 });
    let mut rng = Generator::new(42);

    for _ in 0..100 {
        let tick = net.delivery_tick(1, 2, 0, &mut rng).unwrap();
        assert!((10..=15).contains(&tick), "tick {} out of bounds", tick);
    }
}

#[test]
fn partition_blocks_messages() {
    let mut net = Network::new(NetworkConfig::default());
    let mut rng = Generator::new(0);

    // Before partition, messages deliver.
    assert!(net.delivery_tick(1, 2, 0, &mut rng).is_some());

    // Apply partition: group [1,2] vs group [3,4].
    net.apply_partition(&[vec![1, 2], vec![3, 4]]);

    // Cross-group blocked.
    assert!(net.delivery_tick(1, 3, 0, &mut rng).is_none());
    assert!(net.delivery_tick(3, 1, 0, &mut rng).is_none());

    // Same-group still works.
    assert!(net.delivery_tick(1, 2, 0, &mut rng).is_some());

    // Clear partitions.
    net.clear_partitions();
    assert!(net.delivery_tick(1, 3, 0, &mut rng).is_some());
}

#[test]
fn network_delivers_within_bounds() {
    let net = Network::new(NetworkConfig { base_latency: 10, jitter: 5, drop_chance: 0 });
    let mut rng = Generator::new(0);

    for _ in 0..50 {
        let tick = net.delivery_tick(1, 2, 100, &mut rng).unwrap();
        assert!(tick >= 110 && tick <= 115);
    }
}

#[test]
fn default_network_configuration() {
    let c = NetworkConfig::default();
    assert_eq!(c.base_latency, 10);
    assert_eq!(c.jitter, 2);
    assert_eq!(c.drop_chance, 0);
}

#[test]
fn no_jitter_gives_exact_latency() {
    let net = Network::new(NetworkConfig { base_latency: 7, jitter: 0, drop_chance: 0 });
    let mut rng = Generator::new(3);
    for send in [0u64, 5, 1000] {
        assert_eq!(net.delivery_tick(4, 9, send, &mut rng), Some(send + 7));
    }
}

#[test]
fn certain_drop_loses_every_message() {
    let net = Network::new(NetworkConfig { base_latency: 1, jitter: 1, drop_chance: DROP_SCALE });
    let mut rng = Generator::new(11);
    for _ in 0..50 {
        assert!(net.delivery_tick(1, 2, 0, &mut rng).is_none());
    }
}

#[test]
fn partial_drop_loses_some_messages() {
    let net = Network::new(NetworkConfig { base_latency: 1, jitter: 0, drop_chance: DROP_SCALE / 2 });
    let mut rng = Generator::new(5);
    let delivered = (0..400).filter(|_| net.delivery_tick(1, 2, 0, &mut rng).is_some()).count();
    assert!(delivered > 100 && delivered < 300, "delivered {}", delivered);
}

#[test]
fn partitions_block_both_directions_and_accumulate() {
    let mut net = Network::new(NetworkConfig::default());
    net.apply_partition(&[vec![1], vec![2], vec![3]]);
    assert!(net.is_blocked(1, 2) && net.is_blocked(2, 1));
    assert!(net.is_blocked(1, 3) && net.is_blocked(3, 2));
    assert!(!net.is_blocked(1, 1));
    assert!(!net.is_blocked(1, 4));
    net.apply_partition(&[vec![4], vec![5]]);
    assert!(net.is_blocked(4, 5) && net.is_blocked(1, 2));
    net.clear_partitions();
    assert!(!net.is_blocked(1, 2) && !net.is_blocked(4, 5));
}

#[test]
fn jitter_varies_the_delivery_tick() {
    let net = Network::new(NetworkConfig { base_latency: 10, jitter: 5, drop_chance: 0 });
    let mut rng = Generator::new(9);
    let ticks: Vec<u64> = (0..100).map(|_| net.delivery_tick(1, 2, 0, &mut rng).unwrap()).collect();
    assert!(ticks.iter().any(|&t| t > 10));
    assert!(ticks.iter().any(|&t| t < 15));
}

#[test]
fn same_seed_gives_the_same_draws() {
    let net = Network::new(NetworkConfig { base_latency: 10, jitter: 50, drop_chance: DROP_SCALE / 4 });
    let mut a = Generator::new(99);
    let mut b = Generator::new(99);
    let first: Vec<_> = (0..20).map(|_| net.delivery_tick(1, 2, 0, &mut a)).collect();
    let second: Vec<_> = (0..20).map(|_| net.delivery_tick(1, 2, 0, &mut b)).collect();
    assert_eq!(first, second);
}
