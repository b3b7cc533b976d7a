use faultsim::detector::fixed_timeout::FixedTimeoutDetector;

#[test]
fn fixed_timeout_no_heartbeat_means_suspected() {
    let mut det = FixedTimeoutDetector::new(100, vec![1, 2, 3]);
    det.on_tick(200);
    let suspected = det.suspected_nodes();
    assert_eq!(suspected.len(), 3);
}

#[test]
fn recent_heartbeat_not_suspected() {
    let mut det = FixedTimeoutDetector::new(100, vec![1, 2]);
    det.on_heartbeat(1, 50);
    det.on_heartbeat(2, 50);
    det.on_tick(100);
    assert!(det.suspected_nodes().is_empty());
}

#[test]
fn stale_heartbeat_is_suspected() {
    let mut det = FixedTimeoutDetector::new(100, vec![1]);
    det.on_heartbeat(1, 10);
    det.on_tick(200);
    let suspected = det.suspected_nodes();
    assert_eq!(suspected, vec![1]);
}

#[test]
fn nothing_is_suspected_before_the_first_tick() {
    let det = FixedTimeoutDetector::new(100, vec![1, 2]);
    assert!(det.suspected_nodes().is_empty());
}

#[test]
fn silence_of_exactly_the_timeout_is_tolerated() {
    let mut det = FixedTimeoutDetector::new(100, vec![1, 2]);
    det.on_heartbeat(1, 100);
    det.on_heartbeat(2, 99);
    det.on_tick(200);
    assert_eq!(det.suspected_nodes(), vec![2]);
}

#[test]
fn suspicion_follows_the_monitored_order() {
    let mut det = FixedTimeoutDetector::new(10, vec![3, 1, 2]);
    det.on_heartbeat(1, 95);
    det.on_tick(100);
    assert_eq!(det.suspected_nodes(), vec![3, 2]);
}

#[test]
fn heartbeat_after_the_tick_is_not_overdue() {
    let mut det = FixedTimeoutDetector::new(10, vec![1]);
    det.on_tick(50);
    det.on_heartbeat(1, 80);
    assert!(det.suspected_nodes().is_empty());
}
