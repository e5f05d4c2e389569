use kernel_plugins::timer::TrapTimer;

#[test]
fn timer_reports_whether_it_is_used() {
    assert!(TrapTimer::new(true).is_timer_enabled());
    assert!(!TrapTimer::new(false).is_timer_enabled());
}

#[test]
fn timers_wake_earliest_first() {
    let mut t = TrapTimer::new(true);
    t.init();
    // 10 ms at 80 ns a tick: 125000 ticks; 5 ms: 62500 ticks.
    t.add_timer(1, 10, 0, 80);
    t.add_timer(2, 5, 0, 80);
    t.add_timer(3, 5, 1000, 80);
    assert_eq!(t.check_timer(62499).len(), 0);
    let woken: Vec<usize> = t.check_timer(100000).into_iter().collect();
    assert_eq!(woken, vec![2, 3]);
    let woken: Vec<usize> = t.check_timer(125000).into_iter().collect();
    assert_eq!(woken, vec![1]);
    assert_eq!(t.check_timer(usize::MAX).len(), 0);
}

#[test]
fn lone_timer_wakes_once() {
    let mut t = TrapTimer::new(false);
    t.init();
    t.add_timer(7, 1, 100, 1000);
    assert_eq!(t.check_timer(1099).len(), 0);
    let woken: Vec<usize> = t.check_timer(1100).into_iter().collect();
    assert_eq!(woken, vec![7]);
    assert_eq!(t.check_timer(5000).len(), 0);
}

#[test]
fn equal_expiries_wake_in_order_added() {
    let mut t = TrapTimer::new(true);
    t.init();
    t.add_timer(4, 2, 0, 1000);
    t.add_timer(5, 2, 0, 1000);
    let woken: Vec<usize> = t.check_timer(2000).into_iter().collect();
    assert_eq!(woken, vec![4, 5]);
}

#[test]
fn timers_wake_in_expiry_order() {
    let mut t = TrapTimer::new(false);
    t.init();
    t.add_timer(1, 30, 0, 1_000_000);
    t.add_timer(2, 10, 0, 1_000_000);
    t.add_timer(3, 20, 0, 1_000_000);
    t.add_timer(4, 50, 0, 1_000_000);
    let woken: Vec<usize> = t.check_timer(40).into_iter().collect();
    assert_eq!(woken, vec![2, 3, 1]);
}
