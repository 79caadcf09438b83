use scx_atropos::driver::{keeps_running, report_exit_type, Driver, ExitReport, Tick};

#[test]
fn deadlines_start_one_interval_away() {
    let d = Driver::new(1_000, 2_000, 100);
    assert_eq!(d.next_tune_at, 1_100);
    assert_eq!(d.next_sched_at, 3_000);
    assert_eq!(d.sleep_for(1_000), 100);
    assert_eq!(d.sleep_for(1_100), 0);
    assert_eq!(d.sleep_for(9_999), 0);
}

#[test]
fn what_is_due_fires_and_moves_on() {
    let mut d = Driver::new(0, 2_000, 100);
    assert_eq!(d.tick(99), Tick { run_tuner: false, run_balancer: false });
    assert_eq!(d.next_tune_at, 100);
    assert_eq!(d.tick(100), Tick { run_tuner: true, run_balancer: false });
    assert_eq!(d.next_tune_at, 200);
    assert_eq!(d.tick(250), Tick { run_tuner: true, run_balancer: false });
    // 300 is not past at 250
    assert_eq!(d.next_tune_at, 300);
    assert_eq!(d.tick(2_000), Tick { run_tuner: true, run_balancer: true });
    assert_eq!(d.next_sched_at, 4_000);
}

#[test]
fn a_missed_deadline_is_not_made_up_for() {
    let mut d = Driver::new(0, 2_000, 100);
    assert_eq!(d.tick(1_000), Tick { run_tuner: true, run_balancer: false });
    assert_eq!(d.next_tune_at, 1_100);
    assert_eq!(d.tick(10_000), Tick { run_tuner: true, run_balancer: true });
    assert_eq!(d.next_tune_at, 10_100);
    assert_eq!(d.next_sched_at, 12_000);
    assert_eq!(d.sleep_for(10_040), 60);
}

#[test]
fn deadlines_stay_within_the_clock() {
    let mut d = Driver::new(u64::MAX - 5, 10, 3);
    assert_eq!(d.next_tune_at, u64::MAX - 2);
    assert_eq!(d.next_sched_at, u64::MAX);
    assert_eq!(d.tick(u64::MAX - 1), Tick { run_tuner: true, run_balancer: false });
    assert_eq!(d.next_tune_at, u64::MAX);
}

#[test]
fn loop_ends_on_shutdown_or_kernel_exit() {
    assert!(keeps_running(false, 0));
    assert!(!keeps_running(true, 0));
    assert!(!keeps_running(false, 1));
    assert!(!keeps_running(false, -3));
    assert_eq!(report_exit_type(0), ExitReport::Clean);
    assert_eq!(report_exit_type(2), ExitReport::Failed { exit_type: 2 });
    assert_eq!(report_exit_type(1), ExitReport::Left { exit_type: 1 });
    assert_eq!(report_exit_type(64), ExitReport::Left { exit_type: 64 });
}
