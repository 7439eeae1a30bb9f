use algorithm::TimerWheel;

fn clock() -> TimerWheel<usize> {
    let mut timer = TimerWheel::new();
    timer.append_timer_wheel(60, "SecondWheel");
    timer.append_timer_wheel(60, "MinuteWheel");
    timer.append_timer_wheel(12, "HourWheel");
    timer
}

#[test]
fn timer_wheel_clock_example() {
    let mut timer = clock();
    timer.add_timer(30);
    assert_eq!(timer.get_delay_id(), 30);
    timer.add_timer(149);
    assert_eq!(timer.get_delay_id(), 30);
    let t = timer.add_timer(600);
    assert_eq!(timer.get_delay_id(), 30);
    timer.add_timer(1);
    assert_eq!(timer.get_delay_id(), 1);
    timer.del_timer(t);
    timer.add_timer(150);
    assert_eq!(timer.get_delay_id(), 1);
    let val = timer.update_deltatime(30).unwrap();
    assert_eq!(val.iter().map(|(_, v)| *v).collect::<Vec<usize>>(), vec![1, 30]);
    timer.add_timer(2);
    let val = timer.update_deltatime(119).unwrap();
    assert_eq!(val.iter().map(|(_, v)| *v).collect::<Vec<usize>>(), vec![2, 149]);
    let val = timer.update_deltatime(1).unwrap();
    assert_eq!(val.iter().map(|(_, v)| *v).collect::<Vec<usize>>(), vec![150]);
    assert!(timer.is_empty());
}

#[test]
fn timer_wheel_new_is_empty() {
    let timer = TimerWheel::<u64>::new();
    assert!(timer.is_empty());
    assert_eq!(timer.len(), 0);
}

#[test]
fn timer_wheel_len_and_del() {
    let mut timer = TimerWheel::<u64>::new();
    timer.append_timer_wheel(60, "SecondWheel");
    assert!(timer.is_empty());
    timer.add_timer(1);
    assert_eq!(timer.len(), 1);
    let t = timer.add_timer(2);
    assert_eq!(timer.len(), 2);
    assert_eq!(timer.del_timer(t), Some(2));
    assert_eq!(timer.len(), 1);
    assert_eq!(timer.del_timer(t), None);
    assert_eq!(timer.len(), 1);
}

#[test]
fn timer_wheel_clear() {
    let mut timer = TimerWheel::<u64>::new();
    timer.append_timer_wheel(60, "SecondWheel");
    timer.add_timer(1);
    timer.add_timer(2);
    assert_eq!(timer.len(), 2);
    timer.clear();
    assert_eq!(timer.len(), 0);
    assert!(timer.update_deltatime(60).unwrap().is_empty());
}

#[test]
fn timer_wheel_one_second_wheel() {
    let mut timer = TimerWheel::new();
    timer.append_timer_wheel(60, "SecondWheel");
    timer.add_timer(30u64);
    assert_eq!(timer.get_delay_id(), 30);
    let val = timer.update_deltatime(30).unwrap();
    assert_eq!(val, vec![(1, 30)]);
}

#[test]
fn timer_wheel_not_due_yet() {
    let mut timer = TimerWheel::new();
    timer.append_timer_wheel(60, "SecondWheel");
    timer.add_timer(30u64);
    assert_eq!(timer.update_deltatime(10), None);
    assert_eq!(timer.update_deltatime(19), None);
    assert_eq!(timer.update_deltatime(1), Some(vec![(1, 30)]));
    assert!(timer.is_empty());
}

#[test]
fn timer_wheel_get_and_get_mut() {
    let mut timer = TimerWheel::new();
    timer.append_timer_wheel(60, "SecondWheel");
    let t = timer.add_timer(30u64);
    assert_eq!(timer.get_timer(&t), Some(&30));
    assert_eq!(timer.get_timer(&(t + 1)), None);
    *timer.get_mut_timer(&t).unwrap() = 33;
    assert_eq!(timer.get_timer(&t), Some(&33));
    let val = timer.update_deltatime(30).unwrap();
    assert_eq!(val, vec![(1, 33)]);
}

#[test]
fn timer_wheel_ids_wrap_at_max() {
    let mut timer = TimerWheel::new();
    timer.append_timer_wheel(60, "SecondWheel");
    timer.set_max_timerid(2);
    assert_eq!(timer.get_max_timerid(), 2);
    assert_eq!(timer.add_timer(5u64), 1);
    assert_eq!(timer.add_timer(6u64), 2);
    assert_eq!(timer.add_timer(7u64), 1);
    assert_eq!(timer.len(), 3);
}

#[test]
fn timer_wheel_one_step_at_least_one() {
    let mut timer = TimerWheel::<u64>::new();
    assert_eq!(timer.get_one_step(), 1);
    timer.set_one_step(0);
    assert_eq!(timer.get_one_step(), 1);
    timer.set_one_step(1000);
    assert_eq!(timer.get_one_step(), 1000);
}

#[test]
fn timer_wheel_coarse_step() {
    let mut timer = TimerWheel::new();
    timer.set_one_step(1000);
    timer.append_timer_wheel(60, "SecondWheel");
    timer.add_timer(5000u64);
    assert_eq!(timer.get_delay_id(), 5);
    assert_eq!(timer.update_now(4999), None);
    assert_eq!(timer.update_now(5000), Some(vec![(1, 5000)]));
}

#[test]
fn timer_wheel_delay_after_turn() {
    let mut timer = clock();
    timer.add_timer(10);
    timer.add_timer(20);
    let val = timer.update_deltatime(10).unwrap();
    assert_eq!(val, vec![(1, 10)]);
    assert_eq!(timer.get_delay_id(), 10);
    timer.calc_delay_id();
    assert_eq!(timer.get_delay_id(), 10);
}

#[test]
fn timer_wheel_counts_and_elapsed() {
    let mut timer: TimerWheel<usize> = TimerWheel::new();
    assert_eq!(timer.wheel_count(), 0);
    timer.append_timer_wheel(10, "Tens");
    timer.append_timer_wheel(10, "Hundreds");
    assert_eq!(timer.wheel_count(), 2);
    timer.add_timer(5);
    assert_eq!(timer.update_deltatime(3), None);
    assert_eq!(timer.elapsed(), 3);
    assert_eq!(timer.update_deltatime(2), Some(vec![(1, 5)]));
    assert_eq!(timer.elapsed(), 0);
}
