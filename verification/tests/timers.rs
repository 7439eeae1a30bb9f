use algorithm::{Span, StampTimer, StepTimer, Timer, TimerRBTree};

#[test]
fn timer_rbtree_orders_by_time() {
    let mut timer = TimerRBTree::new();
    timer.add_timer(30);
    assert_eq!(timer.tick_first(), Some(30));
    timer.add_timer(149);
    assert_eq!(timer.tick_first(), Some(30));
    let t = timer.add_timer(600);
    assert_eq!(timer.tick_first(), Some(30));
    timer.add_timer(1);
    assert_eq!(timer.tick_first(), Some(1));
    timer.del_timer(t);
    timer.add_timer(150);
    assert_eq!(timer.tick_first(), Some(1));
    let val = timer.update_deltatime(30).unwrap();
    assert_eq!(val, vec![1, 30]);
    timer.add_timer(2);
    let val = timer.update_deltatime(119).unwrap();
    assert_eq!(val, vec![2, 149]);
    let val = timer.update_deltatime(1).unwrap();
    assert_eq!(val, vec![150]);
    assert!(timer.is_empty());
}

#[test]
fn timer_rbtree_same_time_later_first() {
    let mut timer: TimerRBTree<StepTimer<u64, &str>> = TimerRBTree::new();
    timer.add_timer(StepTimer::new("a", 5));
    timer.add_timer(StepTimer::new("b", 5));
    let got = timer.update_now(5).unwrap();
    let names: Vec<&str> = got.iter().map(|t| t.val).collect();
    assert_eq!(names, vec!["b", "a"]);
}

#[test]
fn timer_rbtree_get_and_tick() {
    let mut timer = TimerRBTree::new();
    let a = timer.add_timer(10u32);
    let b = timer.add_timer(20u32);
    assert_eq!(timer.get_timer(&a), Some(&10));
    *timer.get_mut_timer(&b).unwrap() = 25;
    assert_eq!(timer.get_timer(&b), Some(&25));
    assert_eq!(timer.tick_time(9), None);
    assert_eq!(timer.tick_time(10), Some(10));
    assert_eq!(timer.get_timer(&a), None);
    assert_eq!(timer.del_timer(a), None);
    assert_eq!(timer.len(), 1);
    timer.clear();
    assert!(timer.is_empty());
}

#[test]
fn step_timer_reports_its_step() {
    let t = StepTimer::new("job", 42u16);
    assert_eq!(t.when(), 42);
    assert_eq!(t.val, "job");
}

#[test]
fn stamp_timer_counts_in_seconds_or_millis() {
    let now_secs = std::time::SystemTime::now().duration_since(std::time::UNIX_EPOCH).unwrap().as_secs();
    let t = StampTimer::new(1, Span::from_secs(5));
    let w = t.when();
    assert!(w >= now_secs + 5 && w <= now_secs + 6);
    // a span with whole milliseconds beyond the seconds counts in milliseconds
    let m = StampTimer::new(2, Span::from_millis(1500));
    let w = m.when();
    assert!(w >= (now_secs + 1) * 1000 && w <= (now_secs + 3) * 1000);
    let s = Span::new(1, 1_500_000_000);
    assert_eq!(s.as_secs(), 2);
    assert_eq!(s.subsec_nanos(), 500_000_000);
}
