use faultsim::event::{Event, EventKind, EventQueue};

#[test]
fn events_dequeue_in_tick_order() {
    let mut q = EventQueue::new();
    q.schedule(Event { tick: 30, kind: EventKind::HeartbeatSend { from: 1 } });
    q.schedule(Event { tick: 10, kind: EventKind::HeartbeatSend { from: 2 } });
    q.schedule(Event { tick: 20, kind: EventKind::HeartbeatSend { from: 3 } });

    assert_eq!(q.pop().unwrap().tick, 10);
    assert_eq!(q.pop().unwrap().tick, 20);
    assert_eq!(q.pop().unwrap().tick, 30);
}

#[test]
fn event_queue_ordering() {
    let mut q = EventQueue::new();
    q.schedule(Event { tick: 50, kind: EventKind::HeartbeatSend { from: 1 } });
    q.schedule(Event { tick: 10, kind: EventKind::NodeCrash { node: 2 } });
    q.schedule(Event { tick: 30, kind: EventKind::DetectorTick { node: 3 } });

    let first = q.pop().unwrap();
    assert_eq!(first.tick, 10);
    let second = q.pop().unwrap();
    assert_eq!(second.tick, 30);
    let third = q.pop().unwrap();
    assert_eq!(third.tick, 50);
}

#[test]
fn equal_ticks_leave_in_scheduling_order() {
    let mut q = EventQueue::new();
    q.schedule(Event { tick: 5, kind: EventKind::HeartbeatSend { from: 1 } });
    q.schedule(Event { tick: 5, kind: EventKind::HeartbeatSend { from: 2 } });
    q.schedule(Event { tick: 3, kind: EventKind::PartitionEnd });
    q.schedule(Event { tick: 5, kind: EventKind::HeartbeatSend { from: 3 } });
    assert_eq!(q.pop().unwrap().kind, EventKind::PartitionEnd);
    assert_eq!(q.pop().unwrap().kind, EventKind::HeartbeatSend { from: 1 });
    assert_eq!(q.pop().unwrap().kind, EventKind::HeartbeatSend { from: 2 });
    assert_eq!(q.pop().unwrap().kind, EventKind::HeartbeatSend { from: 3 });
    assert!(q.pop().is_none());
}

#[test]
fn queue_size_and_peek() {
    let mut q = EventQueue::new();
    assert!(q.is_empty());
    assert_eq!(q.len(), 0);
    assert_eq!(q.peek_tick(), None);
    q.schedule(Event { tick: 9, kind: EventKind::NodeRecover { node: 1 } });
    q.schedule(Event { tick: 4, kind: EventKind::NodeCrash { node: 1 } });
    assert_eq!(q.len(), 2);
    assert!(!q.is_empty());
    assert_eq!(q.peek_tick(), Some(4));
    assert_eq!(q.len(), 2);
    q.pop();
    assert_eq!(q.peek_tick(), Some(9));
    assert_eq!(q.get(0).tick, 9);
}

#[test]
fn empty_queue_pops_nothing() {
    let mut q = EventQueue::default();
    assert!(q.pop().is_none());
    assert_eq!(q.len(), 0);
}
