use faultsim::detector::gossip::GossipDetector;
use faultsim::detector::FailureDetector;

#[test]
fn requires_threshold_suspicions() {
    let mut det = GossipDetector::new(3, 100, vec![1], 99, 50, 3);
    det.on_tick(200); // local suspicion fires: count = 1 (from owner 99)
    assert!(det.suspected_nodes().is_empty());

    det.on_remote_suspicion(1, 10); // count = 2 (from peer 10)
    assert!(det.suspected_nodes().is_empty());

    det.on_remote_suspicion(1, 20); // count = 3 (from peer 20)
    assert_eq!(det.suspected_nodes(), vec![1]);
}

#[test]
fn duplicate_source_not_counted() {
    let mut det = GossipDetector::new(3, 100, vec![1], 99, 50, 3);
    det.on_tick(200); // count = 1 (from 99)

    det.on_remote_suspicion(1, 10); // count = 2 (from 10)
    det.on_remote_suspicion(1, 10); // duplicate — still 2
    assert!(det.suspected_nodes().is_empty());

    det.on_remote_suspicion(1, 20); // count = 3 (from 20)
    assert_eq!(det.suspected_nodes(), vec![1]);
}

#[test]
fn heartbeat_clears_suspicion() {
    let mut det = GossipDetector::new(1, 100, vec![1], 99, 50, 3);
    det.on_tick(200);
    assert_eq!(det.suspected_nodes(), vec![1]);

    det.on_heartbeat(1, 200);
    assert!(det.suspected_nodes().is_empty());
}

#[test]
fn local_suspicions_exposed() {
    let mut det = GossipDetector::new(3, 100, vec![1, 2], 99, 50, 3);
    det.on_tick(200);
    let mut suspects = det.local_suspicions();
    suspects.sort();
    assert_eq!(suspects, vec![1, 2]);
}

#[test]
fn repeated_ticks_count_the_owner_once() {
    let mut det = GossipDetector::new(2, 100, vec![1], 99, 50, 3);
    det.on_tick(200);
    det.on_tick(300);
    det.on_tick(400);
    assert!(det.suspected_nodes().is_empty());
    det.on_remote_suspicion(1, 99);
    assert!(det.suspected_nodes().is_empty());
    det.on_remote_suspicion(1, 7);
    assert_eq!(det.suspected_nodes(), vec![1]);
}

#[test]
fn tick_zero_checks_nothing() {
    let mut det = GossipDetector::new(1, 0, vec![1], 99, 50, 3);
    det.on_tick(0);
    assert!(det.suspected_nodes().is_empty());
    assert!(det.local_suspicions().is_empty());
}

#[test]
fn resumed_heartbeats_clear_the_local_flag() {
    let mut det = GossipDetector::new(1, 100, vec![1], 99, 50, 3);
    det.on_tick(200);
    assert_eq!(det.local_suspicions(), vec![1]);
    det.on_heartbeat(1, 250);
    det.on_tick(300);
    assert!(det.local_suspicions().is_empty());
    assert!(det.suspected_nodes().is_empty());
}

#[test]
fn gossip_offer_carries_local_suspicions() {
    let mut det = GossipDetector::new(3, 100, vec![1, 2], 99, 40, 2);
    det.on_heartbeat(2, 150);
    det.on_tick(200);
    let offer = FailureDetector::gossip_offer(&det).unwrap();
    assert_eq!(offer.suspicions, vec![1]);
    assert_eq!(offer.interval, 40);
    assert_eq!(offer.fanout, 2);
}

#[test]
fn remote_suspicion_of_unmonitored_node_counts() {
    let mut det = GossipDetector::new(2, 100, vec![1], 99, 50, 3);
    det.on_remote_suspicion(8, 1);
    det.on_remote_suspicion(8, 2);
    assert_eq!(det.suspected_nodes(), vec![8]);
}

#[test]
fn zero_threshold_still_needs_a_source() {
    let mut d = GossipDetector::new(0, 100, vec![2, 3], 1, 50, 2);
    assert!(d.suspected_nodes().is_empty());
    d.on_heartbeat(2, 10);
    d.on_heartbeat(3, 10);
    d.on_tick(200);
    // Node 2 and 3 are overdue: the owner is their one source.
    let mut s = d.suspected_nodes();
    s.sort();
    assert_eq!(s, vec![2, 3]);
}

#[test]
fn a_check_counts_the_owner_once_per_overdue_node() {
    let mut d = GossipDetector::new(2, 100, vec![2, 3], 1, 50, 2);
    d.on_heartbeat(2, 10);
    d.on_heartbeat(3, 150);
    d.on_remote_suspicion(2, 7);
    d.on_tick(200);
    d.on_tick(210);
    // Node 2: sources 7 and the owner; node 3 is not overdue.
    assert_eq!(d.suspected_nodes(), vec![2]);
    assert_eq!(d.local_suspicions(), vec![2]);
}
