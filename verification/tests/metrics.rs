use faultsim::metrics::{sort_ascending, DetectionEvent, MetricsCollector, PhiLogEntry};

fn detection(tick: u64, node: u64, true_positive: bool, latency: Option<u64>) -> DetectionEvent {
    DetectionEvent { tick, node, true_positive, latency }
}

#[test]
fn counts_start_at_zero() {
    let m: MetricsCollector<f64> = MetricsCollector::new();
    assert_eq!(m.message_count, 0);
    assert_eq!(m.false_positive_count(), 0);
    assert_eq!(m.false_negative_count(), 0);
    assert!(m.true_positive_latencies().is_empty());
}

#[test]
fn records_append_in_order() {
    let mut m: MetricsCollector<f64> = MetricsCollector::default();
    m.record_message(3);
    m.record_message(4);
    m.record_crash(10, 2);
    m.record_recovery(20, 2);
    m.record_detection(detection(15, 2, true, Some(5)));
    m.record_phi(PhiLogEntry { tick: 15, observer: 1, observed: 2, phi: 0.5 });
    assert_eq!(m.message_count, 2);
    assert_eq!(m.crashes, vec![(10, 2)]);
    assert_eq!(m.recoveries, vec![(20, 2)]);
    assert_eq!(m.detections.len(), 1);
    assert_eq!(m.phi_log.len(), 1);
}

#[test]
fn false_positives_and_negatives() {
    let mut m: MetricsCollector<()> = MetricsCollector::new();
    m.record_crash(100, 3);
    m.record_crash(500, 4);
    m.record_crash(900, 3);
    m.record_detection(detection(50, 1, false, None));
    m.record_detection(detection(160, 3, true, Some(60)));
    m.record_detection(detection(700, 4, false, None));
    assert_eq!(m.false_positive_count(), 2);
    // Crash of 4 at 500 and the second crash of 3 at 900 have no later true positive.
    assert_eq!(m.false_negative_count(), 2);
}

#[test]
fn latencies_of_true_positives_only() {
    let mut m: MetricsCollector<()> = MetricsCollector::new();
    m.record_detection(detection(10, 1, true, Some(40)));
    m.record_detection(detection(11, 2, false, None));
    m.record_detection(detection(12, 3, true, Some(7)));
    m.record_detection(detection(13, 4, true, None));
    m.record_detection(detection(14, 5, true, Some(19)));
    assert_eq!(m.true_positive_latencies(), vec![7, 19, 40]);
}

#[test]
fn sorting_keeps_duplicates() {
    assert_eq!(sort_ascending(&vec![5, 1, 5, 3, 1]), vec![1, 1, 3, 5, 5]);
    assert_eq!(sort_ascending(&vec![]), Vec::<u64>::new());
}
