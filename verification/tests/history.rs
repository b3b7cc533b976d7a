use faultsim::detector::history::IntervalHistory;

#[test]
fn first_heartbeat_records_no_sample() {
    let mut h = IntervalHistory::new(10);
    h.record(1, 100);
    assert_eq!(h.last_heartbeat(1), Some(100));
    assert_eq!(h.sample_count(1), 0);
    assert_eq!(h.max_interval(1), None);
    assert_eq!(h.last_heartbeat(2), None);
}

#[test]
fn window_size_is_respected() {
    let mut h = IntervalHistory::new(5);
    for t in (100..=2000).step_by(100) {
        h.record(1, t);
    }
    assert_eq!(h.sample_count(1), 5);
    assert_eq!(h.samples(1), vec![100, 100, 100, 100, 100]);
}

#[test]
fn window_keeps_the_most_recent_samples() {
    let mut h = IntervalHistory::new(3);
    for t in [0u64, 10, 30, 60, 100, 150] {
        h.record(7, t);
    }
    assert_eq!(h.samples(7), vec![30, 40, 50]);
    assert_eq!(h.max_interval(7), Some(50));
    assert_eq!(h.count_at_least(7, 40), 2);
    assert_eq!(h.count_at_least(7, 51), 0);
    assert_eq!(h.count_at_least(7, 0), 3);
}

#[test]
fn bimodal_samples_count_at_least() {
    let mut h = IntervalHistory::new(100);
    let mut tick = 0u64;
    h.record(1, tick);
    for _ in 0..50 {
        tick += 50;
        h.record(1, tick);
        tick += 150;
        h.record(1, tick);
    }
    assert_eq!(h.sample_count(1), 100);
    assert_eq!(h.count_at_least(1, 120), 50);
}

#[test]
fn zero_window_keeps_nothing() {
    let mut h = IntervalHistory::new(0);
    h.record(1, 10);
    h.record(1, 20);
    assert_eq!(h.sample_count(1), 0);
    assert_eq!(h.last_heartbeat(1), Some(20));
}

#[test]
fn tail_count_shrinks_with_longer_silence() {
    let mut h = IntervalHistory::new(10);
    for t in [0u64, 40, 100, 120, 200, 290] {
        h.record(2, t);
    }
    let counts: Vec<usize> = [0u64, 20, 40, 60, 80, 90, 91].iter().map(|&d| h.count_at_least(2, d)).collect();
    assert_eq!(counts, vec![5, 5, 4, 3, 2, 1, 0]);
    assert!(counts.windows(2).all(|w| w[0] >= w[1]));
}
