use faultsim::clock::Clock;

#[test]
fn clock_starts_at_zero() {
    let clock = Clock::new();
    assert_eq!(clock.now(), 0);
}

#[test]
fn clock_advances() {
    let mut clock = Clock::new();
    clock.advance_to(42);
    assert_eq!(clock.now(), 42);
}

#[test]
fn clock_advances_monotonically() {
    let mut clock = Clock::new();
    assert_eq!(clock.now(), 0);
    clock.advance_to(100);
    assert_eq!(clock.now(), 100);
    clock.advance_to(200);
    assert_eq!(clock.now(), 200);
}

#[test]
fn clock_default_starts_at_zero() {
    let clock = Clock::default();
    assert_eq!(clock.now(), 0);
}

#[test]
fn clock_may_stay_on_the_same_tick() {
    let mut clock = Clock::new();
    clock.advance_to(7);
    clock.advance_to(7);
    assert_eq!(clock.now(), 7);
}
